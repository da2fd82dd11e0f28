//! An owned n-ary tree whose children sit in a `Vec`, with size, height,
//! conversion to a pre-order [`List`], and a decimal rendering for trees of
//! `u64` values.

use vstd::prelude::*;

use crate::list::List;

verus! {

/// An n-ary tree node; a node distinguishes having no child list from
/// having an empty one, which matters only to [`NTree::to_string`].
pub struct NTree<T> {
    pub value: T,
    pub children: Option<Vec<NTree<T>>>,
}

/// The node count of the forest `s[k..]`.
pub open spec fn forest_size<T>(s: Seq<NTree<T>>, k: int) -> nat
    decreases s, s.len() - k,
{
    if k < 0 || k >= s.len() {
        0
    } else {
        s[k].spec_size() + forest_size(s, k + 1)
    }
}

/// The greatest height among the trees of the forest `s[k..]`, 0 for none.
pub open spec fn forest_height<T>(s: Seq<NTree<T>>, k: int) -> nat
    decreases s, s.len() - k,
{
    if k < 0 || k >= s.len() {
        0
    } else {
        let h = s[k].spec_height();
        let rest = forest_height(s, k + 1);
        if h >= rest {
            h
        } else {
            rest
        }
    }
}

/// The pre-order value sequence of the forest `s[k..]`.
pub open spec fn forest_preorder<T>(s: Seq<NTree<T>>, k: int) -> Seq<T>
    decreases s, s.len() - k,
{
    if k < 0 || k >= s.len() {
        Seq::empty()
    } else {
        s[k].preorder() + forest_preorder(s, k + 1)
    }
}

impl<T> NTree<T> {
    /// The number of nodes.
    pub open spec fn spec_size(self) -> nat
        decreases self, 0int,
    {
        1 + match self.children {
            Some(cs) => forest_size(cs@, 0),
            None => 0,
        }
    }

    /// The number of nodes on a longest root-to-leaf path.
    pub open spec fn spec_height(self) -> nat
        decreases self, 0int,
    {
        1 + match self.children {
            Some(cs) => forest_height(cs@, 0),
            None => 0,
        }
    }

    /// The values in pre-order: the node, then each child's subtree in turn.
    pub open spec fn preorder(self) -> Seq<T>
        decreases self, 0int,
    {
        seq![self.value] + match self.children {
            Some(cs) => forest_preorder(cs@, 0),
            None => Seq::empty(),
        }
    }

    /// The number of nodes.
    pub fn size(&self) -> (r: usize)
        requires
            self.spec_size() <= usize::MAX,
        ensures
            r == self.spec_size(),
        decreases *self,
    {
        match &self.children {
            None => 1,
            Some(cs) => {
                let n = cs.len();
                let mut total: usize = 1;
                let mut k: usize = 0;
                while k < n
                    invariant
                        n == cs@.len(),
                        k <= n,
                        self.spec_size() <= usize::MAX,
                        self.children == Some(*cs),
                        total + forest_size(cs@, k as int) == self.spec_size(),
                    decreases n - k,
                {
                    total = total + cs[k].size();
                    k = k + 1;
                }
                total
            },
        }
    }

    /// The number of nodes on a longest root-to-leaf path.
    pub fn height(&self) -> (r: usize)
        requires
            self.spec_height() <= usize::MAX,
        ensures
            r == self.spec_height(),
        decreases *self,
    {
        match &self.children {
            None => 1,
            Some(cs) => {
                let n = cs.len();
                let mut highest: usize = 0;
                let mut k: usize = 0;
                while k < n
                    invariant
                        n == cs@.len(),
                        k <= n,
                        self.spec_height() <= usize::MAX,
                        self.children == Some(*cs),
                        highest < self.spec_height(),
                        ({
                            let h = forest_height(cs@, k as int);
                            (if highest >= h {
                                highest as nat
                            } else {
                                h
                            }) == forest_height(cs@, 0)
                        }),
                    decreases n - k,
                {
                    let ch = cs[k].height();
                    if ch > highest {
                        highest = ch;
                    }
                    k = k + 1;
                }
                1 + highest
            },
        }
    }
}

impl<T: Copy> NTree<T> {
    /// The values of the tree as a pre-order [`List`].
    pub fn to_list(&self) -> (r: List<T>)
        ensures
            r.values() == self.preorder(),
        decreases *self,
    {
        let mut l = List::new(self.value);
        match &self.children {
            None => {
                proof {
                    assert(l.values() =~= self.preorder());
                }
                l
            },
            Some(cs) => {
                let n = cs.len();
                let mut k: usize = 0;
                while k < n
                    invariant
                        n == cs@.len(),
                        k <= n,
                        self.children == Some(*cs),
                        l.values() + forest_preorder(cs@, k as int) == self.preorder(),
                    decreases n - k,
                {
                    l.append(cs[k].to_list());
                    proof {
                        assert(l.values() + forest_preorder(cs@, k + 1) =~= self.preorder());
                    }
                    k = k + 1;
                }
                proof {
                    assert(l.values() =~= self.preorder());
                }
                l
            },
        }
    }
}

/// The decimal digit character for `d`.
pub open spec fn digit_char(d: u64) -> char {
    if d == 0 {
        '0'
    } else if d == 1 {
        '1'
    } else if d == 2 {
        '2'
    } else if d == 3 {
        '3'
    } else if d == 4 {
        '4'
    } else if d == 5 {
        '5'
    } else if d == 6 {
        '6'
    } else if d == 7 {
        '7'
    } else if d == 8 {
        '8'
    } else {
        '9'
    }
}

/// The decimal rendering of `n`, most significant digit first.
pub open spec fn spec_u64_string(n: u64) -> Seq<char>
    decreases n,
{
    if n < 10 {
        seq![digit_char(n)]
    } else {
        spec_u64_string(n / 10).push(digit_char(n % 10))
    }
}

/// The rendering of the forest `s[k..]`: the trees' renderings separated by
/// a comma and a space.
pub open spec fn forest_string(s: Seq<NTree<u64>>, k: int) -> Seq<char>
    decreases s, s.len() - k,
{
    if k < 0 || k >= s.len() {
        Seq::empty()
    } else {
        s[k].spec_string() + (if k < s.len() - 1 {
            seq![',', ' ']
        } else {
            Seq::empty()
        }) + forest_string(s, k + 1)
    }
}

impl NTree<u64> {
    /// The rendering of a tree: its value, then — when a child list is
    /// present, even an empty one — the children between `(` and `)`.
    pub open spec fn spec_string(self) -> Seq<char>
        decreases self, 0int,
    {
        spec_u64_string(self.value) + match self.children {
            Some(cs) => seq![' ', '(', ' '] + forest_string(cs@, 0) + seq![' ', ')'],
            None => Seq::empty(),
        }
    }

    /// Renders the tree as text, exactly as [`NTree::spec_string`] lays it
    /// out.
    pub fn to_string(&self) -> (r: String)
        ensures
            r@ == self.spec_string(),
        decreases *self,
    {
        let mut s = u64_to_string(self.value);
        match &self.children {
            None => {
                proof {
                    assert(s@ =~= self.spec_string());
                }
                s
            },
            Some(cs) => {
                s.append(" ( ");
                proof {
                    reveal_strlit(" ( ");
                    assert(" ( "@ =~= seq![' ', '(', ' ']);
                }
                let n = cs.len();
                let mut k: usize = 0;
                while k < n
                    invariant
                        n == cs@.len(),
                        k <= n,
                        self.children == Some(*cs),
                        s@ + forest_string(cs@, k as int) + seq![' ', ')'] == self.spec_string(),
                    decreases n - k,
                {
                    let part = cs[k].to_string();
                    s.append(part.as_str());
                    if k < n - 1 {
                        s.append(", ");
                        proof {
                            reveal_strlit(", ");
                            assert(", "@ =~= seq![',', ' ']);
                        }
                    }
                    proof {
                        assert(s@ + forest_string(cs@, k + 1) + seq![' ', ')']
                            =~= self.spec_string());
                    }
                    k = k + 1;
                }
                s.append(" )");
                proof {
                    reveal_strlit(" )");
                    assert(" )"@ =~= seq![' ', ')']);
                    assert(s@ =~= self.spec_string());
                }
                s
            },
        }
    }
}

/// The decimal digit for `d` as text.
fn digit_str(d: u64) -> (r: &'static str)
    requires
        d < 10,
    ensures
        r@ == seq![digit_char(d)],
{
    if d == 0 {
        proof {
            reveal_strlit("0");
            assert("0"@ =~= seq![digit_char(0)]);
        }
        "0"
    } else if d == 1 {
        proof {
            reveal_strlit("1");
            assert("1"@ =~= seq![digit_char(1)]);
        }
        "1"
    } else if d == 2 {
        proof {
            reveal_strlit("2");
            assert("2"@ =~= seq![digit_char(2)]);
        }
        "2"
    } else if d == 3 {
        proof {
            reveal_strlit("3");
            assert("3"@ =~= seq![digit_char(3)]);
        }
        "3"
    } else if d == 4 {
        proof {
            reveal_strlit("4");
            assert("4"@ =~= seq![digit_char(4)]);
        }
        "4"
    } else if d == 5 {
        proof {
            reveal_strlit("5");
            assert("5"@ =~= seq![digit_char(5)]);
        }
        "5"
    } else if d == 6 {
        proof {
            reveal_strlit("6");
            assert("6"@ =~= seq![digit_char(6)]);
        }
        "6"
    } else if d == 7 {
        proof {
            reveal_strlit("7");
            assert("7"@ =~= seq![digit_char(7)]);
        }
        "7"
    } else if d == 8 {
        proof {
            reveal_strlit("8");
            assert("8"@ =~= seq![digit_char(8)]);
        }
        "8"
    } else {
        proof {
            reveal_strlit("9");
            assert("9"@ =~= seq![digit_char(9)]);
        }
        "9"
    }
}

/// The decimal rendering of `n`.
pub(crate) fn u64_to_string(n: u64) -> (r: String)
    ensures
        r@ == spec_u64_string(n),
    decreases n,
{
    if n < 10 {
        let mut s = String::new();
        s.append(digit_str(n));
        proof {
            assert(s@ =~= spec_u64_string(n));
        }
        s
    } else {
        let mut s = u64_to_string(n / 10);
        s.append(digit_str(n % 10));
        proof {
            assert(s@ =~= spec_u64_string(n));
        }
        s
    }
}

} // verus!
