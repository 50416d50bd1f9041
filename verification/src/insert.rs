//! Insertion: rebuilding the path from the root to the place of the new key,
//! recomputing heights and rebalancing on the way back up.

use crate::node::{max_height, max_int, AVLNode};
use crate::order::{lemma_comparison_obeyed, lemma_strict_order, lt, total_order};
use crate::rotate::to_height;
use std::cmp::Ordering;
use vstd::prelude::*;
use vstd::std_specs::cmp::OrdSpec;

verus! {

impl<T: Ord> AVLNode<T> {
    /// A branch over two subtrees with its height computed from theirs, then
    /// rebalanced.
    pub open spec fn joined(left: Self, right: Self, key: T) -> Self {
        AVLNode::Branch(
            Box::new(left),
            Box::new(right),
            to_height(1 + max_int(left.height(), right.height())),
            key,
        ).rebalanced()
    }

    /// The tree after inserting `ins`.
    ///
    /// Into the empty tree: a single branch of height `0`. Into a branch whose
    /// key compares equal: the branch itself. Otherwise the key goes into the
    /// left subtree if it is smaller than the branch's key and into the right
    /// subtree if it is larger, and the branch is put together again by
    /// [`Self::joined`].
    pub open spec fn inserted(self, ins: T) -> Self
        decreases self,
    {
        match self {
            AVLNode::Branch(left, right, _, key) => match ins.cmp_spec(&key) {
                Ordering::Equal => self,
                Ordering::Less => Self::joined(left.inserted(ins), *right, key),
                Ordering::Greater => Self::joined(*left, right.inserted(ins), key),
            },
            AVLNode::Nil => AVLNode::Branch(
                Box::new(AVLNode::Nil),
                Box::new(AVLNode::Nil),
                0isize,
                ins,
            ),
        }
    }

    /// What insertion does to a well-formed tree: the result is well-formed,
    /// holds the old keys and the new one, is the old tree itself if the key
    /// was present, and is at most one higher.
    pub proof fn lemma_inserted(self, ins: T)
        requires
            total_order::<T>(),
            self.well_formed(),
            self.height() < isize::MAX,
        ensures
            self.inserted(ins).well_formed(),
            self.inserted(ins).keys() == self.keys().insert(ins),
            self.keys().contains(ins) ==> self.inserted(ins) == self,
            !self.keys().contains(ins) ==> self.inserted(ins).size() == self.size() + 1,
            self.inserted(ins).height() == self.height() || self.inserted(ins).height()
                == self.height() + 1,
            self.inserted(ins) is Branch,
        decreases self,
    {
        lemma_strict_order::<T>();
        match self {
            AVLNode::Branch(left, right, height, key) => {
                self.lemma_children_heights();
                match ins.cmp_spec(&key) {
                    Ordering::Equal => {
                        assert(self.keys().insert(ins) =~= self.keys());
                    },
                    Ordering::Less => {
                        assert(lt(ins, key));
                        left.lemma_inserted(ins);
                        let grown = left.inserted(ins);
                        let node = AVLNode::Branch(
                            Box::new(grown),
                            right,
                            to_height(1 + max_int(grown.height(), right.height())),
                            key,
                        );
                        assert(node.keys() =~= self.keys().insert(ins));
                        assert(!right.keys().contains(ins)) by {
                            assert(right.all_above(key));
                        }
                        node.lemma_rebalanced_shape();
                        node.lemma_rebalanced_contents();
                        node.lemma_rebalanced_ordered();
                    },
                    Ordering::Greater => {
                        assert(lt(key, ins));
                        right.lemma_inserted(ins);
                        let grown = right.inserted(ins);
                        let node = AVLNode::Branch(
                            left,
                            Box::new(grown),
                            to_height(1 + max_int(left.height(), grown.height())),
                            key,
                        );
                        assert(node.keys() =~= self.keys().insert(ins));
                        assert(!left.keys().contains(ins)) by {
                            assert(left.all_below(key));
                        }
                        node.lemma_rebalanced_shape();
                        node.lemma_rebalanced_contents();
                        node.lemma_rebalanced_ordered();
                    },
                }
            },
            AVLNode::Nil => {
                let leaf = self.inserted(ins);
                assert(leaf.keys() =~= self.keys().insert(ins));
                reveal_with_fuel(AVLNode::ordered, 2);
                reveal_with_fuel(AVLNode::heights_cached, 2);
                reveal_with_fuel(AVLNode::balanced, 2);
                reveal_with_fuel(AVLNode::size, 2);
                reveal_with_fuel(AVLNode::keys, 2);
            },
        }
    }

    /// Inserts `ins_value`, consuming the tree and returning the new one. A key
    /// that is already present leaves the tree as it is.
    pub fn insert(self, ins_value: T) -> (res: Self)
        requires
            total_order::<T>(),
            self.well_formed(),
            self.height() < isize::MAX,
        ensures
            res == self.inserted(ins_value),
            res.well_formed(),
            res.is_valid(),
            res.depth() == res.height(),
            res.keys() == self.keys().insert(ins_value),
            self.keys().contains(ins_value) ==> res == self,
            !self.keys().contains(ins_value) ==> res.size() == self.size() + 1,
            res.height() == self.height() || res.height() == self.height() + 1,
        decreases self,
    {
        proof {
            lemma_comparison_obeyed::<T>();
            self.lemma_inserted(ins_value);
            self.lemma_height_floor();
            self.inserted(ins_value).lemma_well_formed_is_valid();
            self.inserted(ins_value).lemma_cached_height_is_depth();
        }
        match self {
            AVLNode::Branch(left, right, height, value) => {
                match ins_value.cmp(&value) {
                    Ordering::Equal => AVLNode::Branch(left, right, height, value),
                    Ordering::Less => {
                        let new_left = left.insert(ins_value);
                        let new_height = max_height(new_left.get_height(), right.get_height()) + 1;
                        AVLNode::Branch(Box::new(new_left), right, new_height, value).balance()
                    },
                    Ordering::Greater => {
                        let new_right = right.insert(ins_value);
                        let new_height = max_height(left.get_height(), new_right.get_height()) + 1;
                        AVLNode::Branch(left, Box::new(new_right), new_height, value).balance()
                    },
                }
            },
            AVLNode::Nil => AVLNode::Branch(
                Box::new(AVLNode::Nil),
                Box::new(AVLNode::Nil),
                0,
                ins_value,
            ),
        }
    }
}

} // verus!
