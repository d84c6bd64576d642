//! In-order traversals: a search tree lists its values in order, and stays one under
//! any sequence of insertions.

use vstd::prelude::*;

verus! {

use crate::order::{lemma_asymmetric, TotalOrder};
use crate::tree::{inorder_of, values_of, BSTNode, BSTree};

/// No element of `s` comes strictly before an earlier one.
pub open spec fn nondecreasing<T: TotalOrder>(s: Seq<T>) -> bool {
    forall|i: int, j: int| 0 <= i < j < s.len() ==> !(#[trigger] s[j]).less_than(#[trigger] s[i])
}

impl<T> BSTNode<T> {
    /// Every element of the in-order traversal is a stored value.
    pub proof fn lemma_inorder_values(self)
        ensures
            forall|i: int|
                0 <= i < self.inorder().len() ==> self.values().contains(
                    #[trigger] self.inorder()[i],
                ),
        decreases self,
    {
        let l = inorder_of(self.less);
        let m = inorder_of(self.more);
        match self.less {
            Some(n) => {
                n.lemma_inorder_values();
                assert(l == n.inorder() && values_of(self.less) == n.values());
            },
            None => {},
        }
        match self.more {
            Some(n) => {
                n.lemma_inorder_values();
                assert(m == n.inorder() && values_of(self.more) == n.values());
            },
            None => {},
        }
        let s = self.inorder();
        let b = Seq::new(self.data_count as nat, |_i: int| self.data);
        assert(s == l + b + m);
        assert forall|i: int| 0 <= i < s.len() implies self.values().contains(#[trigger] s[i]) by {
            if i < l.len() {
                assert(s[i] == l[i]);
                assert(values_of(self.less).contains(l[i]));
            } else if i < l.len() + b.len() {
                assert(s[i] == self.data);
            } else {
                assert(s[i] == m[i - l.len() - b.len()]);
                assert(values_of(self.more).contains(m[i - l.len() - b.len()]));
            }
        }
    }
}

impl<T: TotalOrder> BSTNode<T> {
    /// An ordered subtree lists its values in non-decreasing order.
    pub proof fn lemma_inorder_nondecreasing(self)
        requires
            self.ordered(),
        ensures
            nondecreasing(self.inorder()),
        decreases self,
    {
        let l = inorder_of(self.less);
        let m = inorder_of(self.more);
        let d = self.data;
        match self.less {
            Some(n) => {
                n.lemma_inorder_nondecreasing();
                n.lemma_inorder_values();
            },
            None => {},
        }
        match self.more {
            Some(n) => {
                n.lemma_inorder_nondecreasing();
                n.lemma_inorder_values();
            },
            None => {},
        }
        let s = self.inorder();
        let b = Seq::new(self.data_count as nat, |_i: int| d);
        assert(s == l + b + m);
        let lb = l.len() + b.len();
        assert forall|i: int, j: int| 0 <= i < j < s.len() implies !(#[trigger] s[j]).less_than(
            #[trigger] s[i],
        ) by {
            if i < l.len() {
                assert(s[i] == l[i]);
                assert(values_of(self.less).contains(l[i]));
            }
            if j >= lb {
                assert(s[j] == m[j - lb]);
                assert(values_of(self.more).contains(m[j - lb]));
            }
            if j < l.len() {
                assert(s[j] == l[j]);
            } else if j < lb {
                assert(s[j] == d);
                if i < l.len() {
                    lemma_asymmetric(s[i], d);
                } else {
                    T::irreflexive(d);
                }
            } else if i < l.len() {
                T::transitive(s[i], d, s[j]);
                lemma_asymmetric(s[i], s[j]);
            } else if i < lb {
                assert(s[i] == d);
                lemma_asymmetric(d, s[j]);
            } else {
                assert(s[i] == m[i - lb]);
            }
        }
    }
}

impl<T: TotalOrder> BSTree<T> {
    /// Insertions of any values keep an ordered tree ordered.
    pub proof fn lemma_insert_all_ordered(self, values: Seq<T>)
        requires
            self.root.ordered(),
        ensures
            self.insert_all(values).root.ordered(),
        decreases values.len(),
    {
        if values.len() > 0 {
            self.lemma_insert_all_ordered(values.drop_last());
            self.insert_all(values.drop_last()).root.lemma_inserted_ordered(values.last());
        }
    }
}

/// Whatever values are inserted, in whatever order, into a tree grown from any seed, an
/// in-order traversal of the result is non-decreasing.
pub proof fn lemma_insertions_keep_inorder_nondecreasing<T: TotalOrder>(seed: T, values: Seq<T>)
    ensures
        nondecreasing(BSTree::seeded(seed).insert_all(values).root.inorder()),
{
    BSTNode::lemma_leaf(seed, seed);
    BSTree::seeded(seed).lemma_insert_all_ordered(values);
    BSTree::seeded(seed).insert_all(values).root.lemma_inorder_nondecreasing();
}

} // verus!
