//! A singly linked list holding at least one value, viewed as the sequence
//! of its values front to back.

use vstd::prelude::*;

verus! {

/// A non-empty singly linked list.
pub struct List<T> {
    pub value: T,
    pub next: Option<Box<List<T>>>,
}

/// Adjacent values never decrease.
pub open spec fn nondecreasing(s: Seq<i64>) -> bool {
    forall|k: int| 0 <= k < s.len() - 1 ==> #[trigger] s[k] <= s[k + 1]
}

impl<T> List<T> {
    /// The sequence of values the list holds, front first.
    pub open spec fn values(self) -> Seq<T>
        decreases self,
    {
        seq![self.value] + match self.next {
            Some(n) => (*n).values(),
            None => Seq::empty(),
        }
    }

    /// A one-element list.
    pub fn new(value: T) -> (r: Self)
        ensures
            r.values() == seq![value],
            r.next is None,
    {
        let r = List { value, next: None };
        proof {
            assert(r.values() =~= seq![value]);
        }
        r
    }

    /// Hangs `list` onto the end of `self`.
    pub fn append(&mut self, list: List<T>)
        ensures
            final(self).values() == old(self).values() + list.values(),
        decreases *old(self),
    {
        match &mut self.next {
            Some(n) => {
                n.append(list);
                proof {
                    assert(final(self).values() =~= old(self).values() + list.values());
                }
            },
            None => {
                self.next = Some(Box::new(list));
                proof {
                    assert(final(self).values() =~= old(self).values() + list.values());
                }
            },
        }
    }

    /// The number of values held.
    pub fn len(&self) -> (r: usize)
        requires
            self.values().len() <= usize::MAX,
        ensures
            r == self.values().len(),
        decreases *self,
    {
        match &self.next {
            Some(n) => 1 + n.len(),
            None => 1,
        }
    }
}

impl<T: Default> List<T> {
    /// A one-element list holding the default value.
    pub fn new_empty() -> (r: Self)
        ensures
            r.values().len() == 1,
            r.next is None,
    {
        let r = List { value: T::default(), next: None };
        proof {
            assert(r.values() =~= seq![r.value]);
        }
        r
    }
}

impl List<u64> {
    /// The rendering of a list: the values front to back, separated by `;`.
    pub open spec fn spec_string(self) -> Seq<char>
        decreases self,
    {
        crate::n_tree::spec_u64_string(self.value) + match self.next {
            Some(n) => seq![';'] + (*n).spec_string(),
            None => Seq::empty(),
        }
    }

    /// Renders the list as text, exactly as [`List::spec_string`] lays it
    /// out.
    pub fn to_string(&self) -> (r: String)
        ensures
            r@ == self.spec_string(),
        decreases *self,
    {
        let mut s = crate::n_tree::u64_to_string(self.value);
        match &self.next {
            Some(n) => {
                s.append(";");
                let part = n.to_string();
                s.append(part.as_str());
                proof {
                    reveal_strlit(";");
                    assert(";"@ =~= seq![';']);
                    assert(s@ =~= self.spec_string());
                }
            },
            None => {
                proof {
                    assert(s@ =~= self.spec_string());
                }
            },
        }
        s
    }
}

impl List<i64> {
    /// Whether the values never decrease from front to back.
    pub fn is_ordered(&self) -> (r: bool)
        ensures
            r == nondecreasing(self.values()),
        decreases *self,
    {
        match &self.next {
            Some(n) => {
                if n.value < self.value {
                    proof {
                        assert(self.values()[0] == self.value);
                        assert(self.values()[1] == n.values()[0]);
                        assert(n.values()[0] == n.value);
                    }
                    false
                } else {
                    let rec = n.is_ordered();
                    proof {
                        assert(self.values() =~= seq![self.value] + n.values());
                        if rec {
                            assert forall|k: int| 0 <= k < self.values().len() - 1 implies #[trigger] self.values()[k]
                                <= self.values()[k + 1] by {
                                if k > 0 {
                                    assert(n.values()[k - 1] <= n.values()[k]);
                                } else {
                                    assert(n.values()[0] == n.value);
                                }
                            }
                        } else {
                            let bad = choose|k: int|
                                0 <= k < n.values().len() - 1 && !(#[trigger] n.values()[k]
                                    <= n.values()[k + 1]);
                            assert(self.values()[bad + 1] == n.values()[bad]);
                            assert(self.values()[bad + 2] == n.values()[bad + 1]);
                        }
                    }
                    rec
                }
            },
            None => {
                proof {
                    assert(self.values().len() == 1);
                }
                true
            },
        }
    }
}

} // verus!
