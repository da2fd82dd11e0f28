//! The flat variable environment: a mapping from identifier bytes to signed
//! 64-bit values, with no nesting or scoping. It lives for a whole run and is
//! threaded by exclusive mutable reference through every evaluation.
//!
//! The environment is viewed as a `Map<Seq<u8>, i64>`; [`Env::insert`] and
//! [`Env::get`] are proved against that map.

use vstd::prelude::*;

verus! {

/// A flat variable environment; keys are the exact identifier bytes.
pub struct Env {
    entries: Vec<(Vec<u8>, i64)>,
}

/// The map a sequence of entries stands for; a later entry shadows an
/// earlier one with the same key.
spec fn map_of(s: Seq<(Vec<u8>, i64)>) -> Map<Seq<u8>, i64>
    decreases s.len(),
{
    if s.len() == 0 {
        Map::empty()
    } else {
        map_of(s.drop_last()).insert(s.last().0@, s.last().1)
    }
}

impl View for Env {
    type V = Map<Seq<u8>, i64>;

    closed spec fn view(&self) -> Map<Seq<u8>, i64> {
        map_of(self.entries@)
    }
}

proof fn lemma_map_of_absent(s: Seq<(Vec<u8>, i64)>, key: Seq<u8>)
    requires
        forall|m: int| 0 <= m < s.len() ==> (#[trigger] s[m]).0@ != key,
    ensures
        !map_of(s).contains_key(key),
    decreases s.len(),
{
    if s.len() > 0 {
        lemma_map_of_absent(s.drop_last(), key);
    }
}

proof fn lemma_map_of_at(s: Seq<(Vec<u8>, i64)>, m: int)
    requires
        0 <= m < s.len(),
        forall|k: int| m < k < s.len() ==> (#[trigger] s[k]).0@ != s[m].0@,
    ensures
        map_of(s).contains_key(s[m].0@),
        map_of(s)[s[m].0@] == s[m].1,
    decreases s.len(),
{
    if m < s.len() - 1 {
        lemma_map_of_at(s.drop_last(), m);
    }
}

proof fn lemma_map_of_update(s: Seq<(Vec<u8>, i64)>, m: int, key: Vec<u8>, value: i64)
    requires
        0 <= m < s.len(),
        s[m].0@ == key@,
        forall|k: int| 0 <= k < s.len() && k != m ==> (#[trigger] s[k]).0@ != key@,
    ensures
        map_of(s.update(m, (key, value))) == map_of(s).insert(key@, value),
    decreases s.len(),
{
    let s2 = s.update(m, (key, value));
    if m == s.len() - 1 {
        assert(s2.drop_last() =~= s.drop_last());
        assert(map_of(s.drop_last()).insert(key@, s[m].1).insert(key@, value) =~= map_of(
            s.drop_last(),
        ).insert(key@, value));
    } else {
        assert(s2.drop_last() =~= s.drop_last().update(m, (key, value)));
        lemma_map_of_update(s.drop_last(), m, key, value);
        assert(s2.last() == s.last());
        assert(map_of(s.drop_last()).insert(key@, value).insert(s.last().0@, s.last().1)
            =~= map_of(s.drop_last()).insert(s.last().0@, s.last().1).insert(key@, value));
    }
}

/// Copies a byte string.
pub(crate) fn copy_bytes(v: &Vec<u8>) -> (r: Vec<u8>)
    ensures
        r@ == v@,
{
    let n = v.len();
    let mut r: Vec<u8> = Vec::new();
    let mut m: usize = 0;
    while m < n
        invariant
            n == v@.len(),
            m <= n,
            r@ =~= v@.subrange(0, m as int),
        decreases n - m,
    {
        r.push(v[m]);
        m = m + 1;
    }
    proof {
        assert(r@ =~= v@);
    }
    r
}

/// Compares two byte strings for equality.
pub(crate) fn eq_bytes(a: &Vec<u8>, b: &Vec<u8>) -> (r: bool)
    ensures
        r == (a@ == b@),
{
    if a.len() != b.len() {
        return false;
    }
    let n = a.len();
    let mut m: usize = 0;
    while m < n
        invariant
            n == a@.len(),
            n == b@.len(),
            m <= n,
            forall|k: int| 0 <= k < m ==> a@[k] == b@[k],
        decreases n - m,
    {
        if a[m] != b[m] {
            return false;
        }
        m = m + 1;
    }
    proof {
        assert(a@ =~= b@);
    }
    true
}

impl Env {
    /// Keys are pairwise distinct, so the entry list and the map agree.
    pub closed spec fn wf(&self) -> bool {
        forall|a: int, b: int|
            0 <= a < b < self.entries@.len() ==> (#[trigger] self.entries@[a]).0@ != (
            #[trigger] self.entries@[b]).0@
    }

    /// An empty environment.
    pub fn new() -> (r: Env)
        ensures
            r.wf(),
            r@ == Map::<Seq<u8>, i64>::empty(),
    {
        Env { entries: Vec::new() }
    }

    /// Binds `key` to `value`, overwriting any earlier binding.
    pub fn insert(&mut self, key: Vec<u8>, value: i64)
        requires
            old(self).wf(),
        ensures
            final(self).wf(),
            final(self)@ == old(self)@.insert(key@, value),
    {
        let n = self.entries.len();
        let mut m: usize = 0;
        while m < n
            invariant
                old(self).wf(),
                *self == *old(self),
                n == self.entries@.len(),
                m <= n,
                forall|k: int| 0 <= k < m ==> (#[trigger] self.entries@[k]).0@ != key@,
            decreases n - m,
        {
            if eq_bytes(&self.entries[m].0, &key) {
                let ghost s = self.entries@;
                self.entries.remove(m);
                self.entries.insert(m, (key, value));
                proof {
                    assert(self.entries@ =~= s.update(m as int, (key, value)));
                    lemma_map_of_update(s, m as int, key, value);
                }
                return ;
            }
            m = m + 1;
        }
        let ghost s = self.entries@;
        self.entries.push((key, value));
        proof {
            assert(self.entries@.drop_last() =~= s);
        }
    }

    /// Looks `key` up: the bound value, or `None` when it was never assigned.
    pub fn get(&self, key: &Vec<u8>) -> (r: Option<i64>)
        requires
            self.wf(),
        ensures
            match r {
                Some(v) => self@.contains_key(key@) && self@[key@] == v,
                None => !self@.contains_key(key@),
            },
    {
        let n = self.entries.len();
        let mut m: usize = 0;
        while m < n
            invariant
                self.wf(),
                n == self.entries@.len(),
                m <= n,
                forall|k: int| 0 <= k < m ==> (#[trigger] self.entries@[k]).0@ != key@,
            decreases n - m,
        {
            if eq_bytes(&self.entries[m].0, key) {
                proof {
                    lemma_map_of_at(self.entries@, m as int);
                }
                return Some(self.entries[m].1);
            }
            m = m + 1;
        }
        proof {
            lemma_map_of_absent(self.entries@, key@);
        }
        None
    }
}

} // verus!
