//! Read-only queries: membership search and in-order enumeration.

use crate::contents::strictly_ascending;
use crate::node::AVLNode;
use crate::order::{lemma_comparison_obeyed, lemma_strict_order, lt, total_order};
use std::cmp::Ordering;
use vstd::prelude::*;
use vstd::std_specs::cmp::OrdSpec;

verus! {

/// The values that a sequence of references points to.
pub open spec fn targets<T>(refs: Seq<&T>) -> Seq<T> {
    Seq::new(refs.len(), |i: int| *refs[i])
}

impl<T: Ord> AVLNode<T> {
    /// The answer of a search that descends from the root: at a branch whose
    /// key differs from `target` it continues to the left if `target` is
    /// smaller and to the right if it is larger.
    pub open spec fn searched(self, target: T) -> bool
        decreases self,
    {
        match self {
            AVLNode::Branch(left, right, _, key) => match target.cmp_spec(&key) {
                Ordering::Equal => true,
                Ordering::Less => left.searched(target),
                Ordering::Greater => right.searched(target),
            },
            AVLNode::Nil => false,
        }
    }

    /// In an ordered tree, a search finds exactly the keys of the tree.
    pub proof fn lemma_searched(self, target: T)
        requires
            total_order::<T>(),
            self.ordered(),
        ensures
            self.searched(target) == self.keys().contains(target),
        decreases self,
    {
        lemma_strict_order::<T>();
        if let AVLNode::Branch(left, right, _, key) = self {
            match target.cmp_spec(&key) {
                Ordering::Equal => {},
                Ordering::Less => {
                    assert(lt(target, key));
                    left.lemma_searched(target);
                    assert(!right.keys().contains(target)) by {
                        assert(right.all_above(key));
                    }
                },
                Ordering::Greater => {
                    assert(lt(key, target));
                    right.lemma_searched(target);
                    assert(!left.keys().contains(target)) by {
                        assert(left.all_below(key));
                    }
                },
            }
        }
    }

    /// Tells whether `find_value` is a key of the tree, descending along one
    /// path from the root.
    pub fn find(&self, find_value: T) -> (found: bool)
        requires
            total_order::<T>(),
        ensures
            found == self.searched(find_value),
            self.ordered() ==> found == self.keys().contains(find_value),
        decreases self,
    {
        proof {
            lemma_comparison_obeyed::<T>();
            if self.ordered() {
                self.lemma_searched(find_value);
            }
        }
        match self {
            AVLNode::Branch(left, right, _, value) => match find_value.cmp(value) {
                Ordering::Equal => true,
                Ordering::Less => left.find(find_value),
                Ordering::Greater => right.find(find_value),
            },
            AVLNode::Nil => false,
        }
    }

    /// Appends a reference to every key to `visited`, in the order left
    /// subtree, key, right subtree.
    pub fn in_order_traverse<'a>(&'a self, visited: &mut Vec<&'a T>)
        ensures
            targets(final(visited)@) == targets(old(visited)@) + self@,
            total_order::<T>() && self.ordered() ==> strictly_ascending(self@),
        decreases self,
    {
        proof {
            if total_order::<T>() && self.ordered() {
                self.lemma_in_order_ascends();
            }
        }
        match self {
            AVLNode::Branch(left, right, _, value) => {
                left.in_order_traverse(visited);
                let ghost after_left = visited@;
                visited.push(value);
                let ghost after_key = visited@;
                right.in_order_traverse(visited);
                proof {
                    assert(targets(after_key) =~= targets(after_left).push(*value));
                    assert(targets(visited@) =~= targets(old(visited)@) + self.in_order());
                }
            },
            AVLNode::Nil => {
                assert(targets(visited@) =~= targets(old(visited)@) + self.in_order());
            },
        }
    }
}

} // verus!
