//! An owned binary tree, with size, height, conversion to an in-order
//! [`List`] and the two rotations, which are proved to preserve the in-order
//! value sequence.

use vstd::prelude::*;

use crate::list::List;

verus! {

/// A binary tree node owning its subtrees.
pub struct BinaryTree<T> {
    pub value: T,
    pub left: Option<Box<BinaryTree<T>>>,
    pub right: Option<Box<BinaryTree<T>>>,
}

impl<T> BinaryTree<T> {
    /// The number of nodes.
    pub open spec fn spec_size(self) -> nat
        decreases self,
    {
        1 + (match self.left {
            Some(l) => (*l).spec_size(),
            None => 0,
        }) + (match self.right {
            Some(r) => (*r).spec_size(),
            None => 0,
        })
    }

    /// The number of nodes on a longest path from the root to a leaf.
    pub open spec fn spec_height(self) -> nat
        decreases self,
    {
        let lh = match self.left {
            Some(l) => (*l).spec_height(),
            None => 0nat,
        };
        let rh = match self.right {
            Some(r) => (*r).spec_height(),
            None => 0nat,
        };
        1 + if lh >= rh {
            lh
        } else {
            rh
        }
    }

    /// The values in in-order: left subtree, node, right subtree.
    pub open spec fn inorder(self) -> Seq<T>
        decreases self,
    {
        (match self.left {
            Some(l) => (*l).inorder(),
            None => Seq::empty(),
        }) + seq![self.value] + (match self.right {
            Some(r) => (*r).inorder(),
            None => Seq::empty(),
        })
    }

    /// A leaf holding `value`.
    pub fn new(value: T) -> (r: Self)
        ensures
            r.value == value,
            r.left is None,
            r.right is None,
            r.spec_size() == 1,
            r.inorder() == seq![value],
    {
        let r = BinaryTree { value, left: None, right: None };
        proof {
            assert(r.inorder() =~= seq![value]);
        }
        r
    }

    /// The number of nodes.
    pub fn size(&self) -> (r: usize)
        requires
            self.spec_size() <= usize::MAX,
        ensures
            r == self.spec_size(),
        decreases *self,
    {
        let ls = match &self.left {
            Some(l) => l.size(),
            None => 0,
        };
        let rs = match &self.right {
            Some(r) => r.size(),
            None => 0,
        };
        1 + ls + rs
    }

    /// The number of nodes on a longest root-to-leaf path.
    pub fn height(&self) -> (r: usize)
        requires
            self.spec_height() <= usize::MAX,
        ensures
            r == self.spec_height(),
        decreases *self,
    {
        let lh = match &self.left {
            Some(l) => l.height(),
            None => 0,
        };
        let rh = match &self.right {
            Some(r) => r.height(),
            None => 0,
        };
        1 + if lh >= rh {
            lh
        } else {
            rh
        }
    }

    /// Rotates the tree to the right: the left child becomes the root. The
    /// in-order value sequence is unchanged.
    pub fn rotate_right(self) -> (r: Self)
        requires
            self.left is Some,
        ensures
            r.inorder() == self.inorder(),
            r.value == self.left->Some_0.value,
            r.left == self.left->Some_0.left,
            r.right is Some,
            *r.right->Some_0 == (BinaryTree {
                value: self.value,
                left: self.left->Some_0.right,
                right: self.right,
            }),
    {
        let ghost orig = self;
        let BinaryTree { value, left, right } = self;
        let l = *left.unwrap();
        let BinaryTree { value: left_value, left: left_left, right: left_right } = l;
        let r = BinaryTree {
            value: left_value,
            left: left_left,
            right: Some(Box::new(BinaryTree { value, left: left_right, right })),
        };
        proof {
            let l_t = *orig.left->Some_0;
            let a = match l_t.left {
                Some(x) => (*x).inorder(),
                None => Seq::<T>::empty(),
            };
            let b = match l_t.right {
                Some(x) => (*x).inorder(),
                None => Seq::<T>::empty(),
            };
            let c = match orig.right {
                Some(x) => (*x).inorder(),
                None => Seq::<T>::empty(),
            };
            assert(l_t.inorder() == a + seq![l_t.value] + b);
            assert(orig.inorder() == (a + seq![l_t.value] + b) + seq![orig.value] + c);
            assert((*r.right->Some_0).inorder() == b + seq![orig.value] + c);
            assert(r.inorder() == a + seq![l_t.value] + (b + seq![orig.value] + c));
            assert(r.inorder() =~= orig.inorder());
        }
        r
    }

    /// Rotates the tree to the left: the right child becomes the root. The
    /// in-order value sequence is unchanged.
    pub fn rotate_left(self) -> (r: Self)
        requires
            self.right is Some,
        ensures
            r.inorder() == self.inorder(),
            r.value == self.right->Some_0.value,
            r.right == self.right->Some_0.right,
            r.left is Some,
            *r.left->Some_0 == (BinaryTree {
                value: self.value,
                left: self.left,
                right: self.right->Some_0.left,
            }),
    {
        let ghost orig = self;
        let BinaryTree { value, left, right } = self;
        let r_child = *right.unwrap();
        let BinaryTree { value: right_value, left: right_left, right: right_right } = r_child;
        let r = BinaryTree {
            value: right_value,
            left: Some(Box::new(BinaryTree { value, left, right: right_left })),
            right: right_right,
        };
        proof {
            let r_t = *orig.right->Some_0;
            let a = match orig.left {
                Some(x) => (*x).inorder(),
                None => Seq::<T>::empty(),
            };
            let b = match r_t.left {
                Some(x) => (*x).inorder(),
                None => Seq::<T>::empty(),
            };
            let c = match r_t.right {
                Some(x) => (*x).inorder(),
                None => Seq::<T>::empty(),
            };
            assert(r_t.inorder() == b + seq![r_t.value] + c);
            assert(orig.inorder() == a + seq![orig.value] + (b + seq![r_t.value] + c));
            assert((*r.left->Some_0).inorder() == a + seq![orig.value] + b);
            assert(r.inorder() == (a + seq![orig.value] + b) + seq![r_t.value] + c);
            assert(r.inorder() =~= orig.inorder());
        }
        r
    }
}

impl BinaryTree<u64> {
    /// The rendering of a tree: `(right,value,left)`, with an empty slot for
    /// a missing subtree.
    pub open spec fn spec_string(self) -> Seq<char>
        decreases self,
    {
        seq!['('] + (match self.right {
            Some(r) => (*r).spec_string(),
            None => Seq::empty(),
        }) + seq![','] + crate::n_tree::spec_u64_string(self.value) + seq![','] + (match self.left {
            Some(l) => (*l).spec_string(),
            None => Seq::empty(),
        }) + seq![')']
    }

    /// Renders the tree as text, exactly as [`BinaryTree::spec_string`] lays
    /// it out.
    pub fn to_string(&self) -> (r: String)
        ensures
            r@ == self.spec_string(),
        decreases *self,
    {
        let mut s = String::new();
        s.append("(");
        match &self.right {
            Some(rt) => {
                let part = rt.to_string();
                s.append(part.as_str());
            },
            None => {},
        }
        s.append(",");
        let digits = crate::n_tree::u64_to_string(self.value);
        s.append(digits.as_str());
        s.append(",");
        match &self.left {
            Some(lt) => {
                let part = lt.to_string();
                s.append(part.as_str());
            },
            None => {},
        }
        s.append(")");
        proof {
            reveal_strlit("(");
            reveal_strlit(",");
            reveal_strlit(")");
            assert("("@ =~= seq!['(']);
            assert(","@ =~= seq![',']);
            assert(")"@ =~= seq![')']);
            assert(s@ =~= self.spec_string());
        }
        s
    }
}

impl<T: Copy> BinaryTree<T> {
    /// The values of the tree as an in-order [`List`].
    pub fn to_list(&self) -> (r: List<T>)
        ensures
            r.values() == self.inorder(),
        decreases *self,
    {
        let mut rest = List::new(self.value);
        match &self.right {
            Some(rt) => {
                rest.append(rt.to_list());
            },
            None => {},
        }
        match &self.left {
            Some(lt) => {
                let mut whole = lt.to_list();
                whole.append(rest);
                proof {
                    assert(whole.values() =~= self.inorder());
                }
                whole
            },
            None => {
                proof {
                    assert(rest.values() =~= self.inorder());
                }
                rest
            },
        }
    }
}

} // verus!
