//! The structural audit: a check of a tree against its shape alone, which
//! trusts no cached height.

use crate::node::AVLNode;
use crate::order::{lemma_comparison_obeyed, lemma_strict_order, lt, total_order};
use std::cmp::Ordering;
use vstd::prelude::*;
use vstd::std_specs::cmp::OrdSpec;

verus! {

impl<T: Ord> AVLNode<T> {
    /// The key at the root of the left subtree, if there is one, is not
    /// greater than the branch's key, and the key at the root of the right
    /// subtree, if there is one, is not less.
    pub open spec fn children_in_order(self) -> bool {
        self matches AVLNode::Branch(left, right, _, key) ==> {
            &&& *left matches AVLNode::Branch(_, _, _, left_key) ==> !lt(key, left_key)
            &&& *right matches AVLNode::Branch(_, _, _, right_key) ==> !lt(right_key, key)
        }
    }

    /// What the audit accepts: at every branch the two children's keys are in
    /// order with the branch's key, and the cached height is the true height.
    /// This compares a branch with its children only, so it is weaker than
    /// [`Self::well_formed`].
    pub open spec fn is_valid(self) -> bool
        decreases self,
    {
        match self {
            AVLNode::Branch(left, right, height, _) => {
                &&& self.children_in_order()
                &&& height == self.depth()
                &&& left.is_valid()
                &&& right.is_valid()
            },
            AVLNode::Nil => true,
        }
    }

    /// Every well-formed tree passes the audit.
    pub proof fn lemma_well_formed_is_valid(self)
        requires
            total_order::<T>(),
            self.well_formed(),
        ensures
            self.is_valid(),
        decreases self,
    {
        lemma_strict_order::<T>();
        if let AVLNode::Branch(left, right, _, key) = self {
            left.lemma_well_formed_is_valid();
            right.lemma_well_formed_is_valid();
            self.lemma_cached_height_is_depth();
            if let AVLNode::Branch(_, _, _, left_key) = *left {
                assert(left.keys().contains(left_key));
                assert(lt(left_key, key));
            }
            if let AVLNode::Branch(_, _, _, right_key) = *right {
                assert(right.keys().contains(right_key));
                assert(lt(key, right_key));
            }
        }
    }

    /// Audits the tree: `true` exactly if every branch is in order with its
    /// children and caches its true height.
    pub fn good(&self) -> (ok: bool)
        requires
            total_order::<T>(),
            self.depth() <= isize::MAX,
        ensures
            ok == self.is_valid(),
        decreases self,
    {
        proof {
            lemma_comparison_obeyed::<T>();
            lemma_strict_order::<T>();
        }
        match self {
            AVLNode::Branch(left, right, height, value) => {
                match &**left {
                    AVLNode::Branch(_, _, _, left_value) => {
                        match left_value.cmp(value) {
                            Ordering::Greater => {
                                assert(lt(*value, *left_value));
                                return false;
                            },
                            _ => {
                                assert(!lt(*value, *left_value));
                            },
                        }
                    },
                    AVLNode::Nil => {},
                }
                match &**right {
                    AVLNode::Branch(_, _, _, right_value) => {
                        match right_value.cmp(value) {
                            Ordering::Less => {
                                assert(lt(*right_value, *value));
                                return false;
                            },
                            _ => {
                                assert(!lt(*right_value, *value));
                            },
                        }
                    },
                    AVLNode::Nil => {},
                }
                let true_height = self.get_depth();
                if true_height != *height {
                    return false;
                }
                left.good() && right.good()
            },
            AVLNode::Nil => true,
        }
    }
}

} // verus!
