//! How the in-order sequence, the key set and the size of a tree relate, and
//! that the in-order sequence of an ordered tree ascends.

use crate::node::AVLNode;
use crate::order::{lemma_strict_order, lt, total_order};
use vstd::prelude::*;

verus! {

/// Each element of the sequence is ordered strictly before all later ones.
pub open spec fn strictly_ascending<T: Ord>(s: Seq<T>) -> bool {
    forall|i: int, j: int| 0 <= i < j < s.len() ==> lt(#[trigger] s[i], #[trigger] s[j])
}

impl<T> AVLNode<T> {
    /// The in-order sequence lists exactly the keys of the tree, one entry for
    /// each branch.
    pub proof fn lemma_in_order_lists_keys(self)
        ensures
            self.in_order().len() == self.size(),
            forall|k: T| self.in_order().contains(k) <==> self.keys().contains(k),
            self.keys().finite(),
            self.keys().len() <= self.size(),
        decreases self,
    {
        match self {
            AVLNode::Branch(left, right, _, key) => {
                left.lemma_in_order_lists_keys();
                right.lemma_in_order_lists_keys();
                let walk = self.in_order();
                let before = left.in_order();
                let after = right.in_order();
                assert forall|k: T| walk.contains(k) implies self.keys().contains(k) by {
                    let i = choose|i: int| 0 <= i < walk.len() && walk[i] == k;
                    if i < before.len() {
                        assert(before[i] == k);
                        assert(before.contains(k));
                    } else if i > before.len() {
                        assert(after[i - before.len() - 1] == k);
                        assert(after.contains(k));
                    }
                }
                assert forall|k: T| self.keys().contains(k) implies walk.contains(k) by {
                    if left.keys().contains(k) {
                        assert(before.contains(k));
                        let i = choose|i: int| 0 <= i < before.len() && before[i] == k;
                        assert(walk[i] == k);
                    } else if right.keys().contains(k) {
                        assert(after.contains(k));
                        let i = choose|i: int| 0 <= i < after.len() && after[i] == k;
                        assert(walk[before.len() + 1 + i] == k);
                    } else {
                        assert(walk[before.len() as int] == k);
                    }
                }
                vstd::set_lib::lemma_len_union(left.keys(), right.keys());
            },
            AVLNode::Nil => {},
        }
    }
}

impl<T: Ord> AVLNode<T> {
    /// The in-order sequence of an ordered tree ascends strictly, so it holds
    /// no key twice, and the tree has as many branches as keys.
    pub proof fn lemma_in_order_ascends(self)
        requires
            total_order::<T>(),
            self.ordered(),
        ensures
            strictly_ascending(self.in_order()),
            self.in_order().no_duplicates(),
            self.keys().len() == self.size(),
        decreases self,
    {
        lemma_strict_order::<T>();
        self.lemma_in_order_lists_keys();
        match self {
            AVLNode::Branch(left, right, _, key) => {
                left.lemma_in_order_ascends();
                right.lemma_in_order_ascends();
                left.lemma_in_order_lists_keys();
                right.lemma_in_order_lists_keys();
                let walk = self.in_order();
                let before = left.in_order();
                let after = right.in_order();
                assert forall|i: int, j: int| 0 <= i < j < walk.len() implies lt(
                    #[trigger] walk[i],
                    #[trigger] walk[j],
                ) by {
                    if i < before.len() {
                        assert(before.contains(before[i]));
                        assert(left.keys().contains(walk[i]));
                        assert(lt(walk[i], key));
                    }
                    if j > before.len() {
                        assert(after.contains(after[j - before.len() - 1]));
                        assert(right.keys().contains(walk[j]));
                        assert(lt(key, walk[j]));
                    }
                }
                assert(left.keys().disjoint(right.keys())) by {
                    assert forall|k: T| left.keys().contains(k) implies !right.keys().contains(
                        k,
                    ) by {
                        assert(lt(k, key));
                    }
                }
                assert(!left.keys().contains(key) && !right.keys().contains(key));
                vstd::set_lib::lemma_set_disjoint_lens(left.keys(), right.keys());
                assert(!(left.keys() + right.keys()).contains(key));
            },
            AVLNode::Nil => {},
        }
        assert forall|i: int, j: int|
            0 <= i < self.in_order().len() && 0 <= j < self.in_order().len() && i != j implies
            self.in_order()[i] != self.in_order()[j] by {
            if i < j {
                assert(lt(self.in_order()[i], self.in_order()[j]));
            } else {
                assert(lt(self.in_order()[j], self.in_order()[i]));
            }
        }
    }
}

} // verus!
