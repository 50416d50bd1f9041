//! Rotation dispatch: restoring the balance of a branch whose subtrees differ
//! in height by two.

use crate::node::{max_int, AVLNode};
use crate::order::total_order;
use vstd::prelude::*;

verus! {

impl<T> AVLNode<T> {
    /// The result of rebalancing.
    ///
    /// A branch that leans left by more than one is rotated right, after its
    /// left subtree was rotated left if that subtree leans right. A branch
    /// that leans right by more than one is treated in mirror image. Any other
    /// tree is its own result.
    pub open spec fn rebalanced(self) -> Self {
        match self {
            AVLNode::Branch(left, right, height, key) => {
                if self.balance_factor() > 1 {
                    if left.balance_factor() < 0 {
                        AVLNode::Branch(
                            Box::new(left.rotated_left()),
                            right,
                            height,
                            key,
                        ).rotated_right()
                    } else {
                        self.rotated_right()
                    }
                } else if self.balance_factor() < -1 {
                    if right.balance_factor() > 0 {
                        AVLNode::Branch(
                            left,
                            Box::new(right.rotated_right()),
                            height,
                            key,
                        ).rotated_left()
                    } else {
                        self.rotated_left()
                    }
                } else {
                    self
                }
            },
            AVLNode::Nil => self,
        }
    }

    /// Both subtrees are balanced and their cached heights differ by at most
    /// two: the state of a branch right after an insertion below it.
    pub open spec fn nearly_balanced(self) -> bool {
        self matches AVLNode::Branch(left, right, _, _) ==> {
            &&& left.balanced()
            &&& right.balanced()
            &&& -2 <= left.height() - right.height() <= 2
        }
    }

    /// Rebalancing keeps the in-order sequence, the key set and the size.
    pub proof fn lemma_rebalanced_contents(self)
        ensures
            self.rebalanced().in_order() == self.in_order(),
            self.rebalanced().keys() == self.keys(),
            self.rebalanced().size() == self.size(),
    {
        if let AVLNode::Branch(left, right, height, key) = self {
            if self.balance_factor() > 1 {
                if left.balance_factor() < 0 {
                    let mid = AVLNode::Branch(Box::new(left.rotated_left()), right, height, key);
                    left.lemma_rotated_left_contents();
                    mid.lemma_rotated_right_contents();
                } else {
                    self.lemma_rotated_right_contents();
                }
            } else if self.balance_factor() < -1 {
                if right.balance_factor() > 0 {
                    let mid = AVLNode::Branch(left, Box::new(right.rotated_right()), height, key);
                    right.lemma_rotated_right_contents();
                    mid.lemma_rotated_left_contents();
                } else {
                    self.lemma_rotated_left_contents();
                }
            }
        }
    }

    /// Every rotation that rebalancing makes is legal: the subtree it lifts is
    /// a branch, and the heights it computes fit in the height field.
    pub proof fn lemma_rebalance_rotations_legal(self)
        requires
            self.heights_cached(),
        ensures
            isize::MIN <= self.balance_factor() <= isize::MAX,
            self matches AVLNode::Branch(left, right, height, key) ==> {
                &&& isize::MIN <= left.balance_factor() <= isize::MAX
                &&& isize::MIN <= right.balance_factor() <= isize::MAX
                &&& self.balance_factor() > 1 && left.balance_factor() < 0 ==> {
                    &&& left.can_rotate_left()
                    &&& AVLNode::Branch(
                        Box::new(left.rotated_left()),
                        right,
                        height,
                        key,
                    ).can_rotate_right()
                }
                &&& self.balance_factor() > 1 && left.balance_factor() >= 0
                    ==> self.can_rotate_right()
                &&& self.balance_factor() < -1 && right.balance_factor() > 0 ==> {
                    &&& right.can_rotate_right()
                    &&& AVLNode::Branch(
                        left,
                        Box::new(right.rotated_right()),
                        height,
                        key,
                    ).can_rotate_left()
                }
                &&& self.balance_factor() < -1 && right.balance_factor() <= 0
                    ==> self.can_rotate_left()
            },
    {
        if let AVLNode::Branch(left, right, _, _) = self {
            left.lemma_children_heights();
            right.lemma_children_heights();
        }
    }

    /// With correct height bookkeeping, the cached heights of a branch, of its
    /// subtrees and of their subtrees are all at least `-1`, and exactly the
    /// empty trees among them have height `-1`.
    pub proof fn lemma_children_heights(self)
        requires
            self.heights_cached(),
        ensures
            self.height() >= -1,
            self is Nil <==> self.height() == -1,
            self matches AVLNode::Branch(left, right, height, _) ==> {
                &&& height == 1 + max_int(left.height(), right.height())
                &&& left.heights_cached()
                &&& right.heights_cached()
                &&& left.height() >= -1
                &&& right.height() >= -1
                &&& (*left is Nil <==> left.height() == -1)
                &&& (*right is Nil <==> right.height() == -1)
                &&& (*left matches AVLNode::Branch(ll, lr, lh, _) ==> {
                    &&& lh == 1 + max_int(ll.height(), lr.height())
                    &&& ll.heights_cached() && lr.heights_cached()
                    &&& ll.height() >= -1 && lr.height() >= -1
                    &&& (*ll is Nil <==> ll.height() == -1)
                    &&& (*lr is Nil <==> lr.height() == -1)
                })
                &&& (*right matches AVLNode::Branch(rl, rr, rh, _) ==> {
                    &&& rh == 1 + max_int(rl.height(), rr.height())
                    &&& rl.heights_cached() && rr.heights_cached()
                    &&& rl.height() >= -1 && rr.height() >= -1
                    &&& (*rl is Nil <==> rl.height() == -1)
                    &&& (*rr is Nil <==> rr.height() == -1)
                })
            },
    {
        reveal_with_fuel(AVLNode::heights_cached, 3);
        self.lemma_height_floor();
        if let AVLNode::Branch(left, right, _, _) = self {
            left.lemma_height_floor();
            right.lemma_height_floor();
            if let AVLNode::Branch(ll, lr, _, _) = *left {
                ll.lemma_height_floor();
                lr.lemma_height_floor();
            }
            if let AVLNode::Branch(rl, rr, _, _) = *right {
                rl.lemma_height_floor();
                rr.lemma_height_floor();
            }
        }
    }

    /// The left-heavy half of [`Self::lemma_rebalanced_shape`].
    proof fn lemma_rebalanced_left_heavy(self)
        requires
            self.heights_cached(),
            self.nearly_balanced(),
            self.balance_factor() > 1,
        ensures
            self.rebalanced().heights_cached(),
            self.rebalanced().balanced(),
            self.rebalanced().height() == self.height() || self.rebalanced().height()
                == self.height() - 1,
            self.rebalanced() is Branch,
    {
        self.lemma_children_heights();
        match self {
            AVLNode::Branch(left, right, height, key) => {
                assert(left.balanced() && right.balanced());
                match *left {
                    AVLNode::Branch(ll, lr, _, _) => {
                        assert(ll.balanced() && lr.balanced());
                        assert(-1 <= ll.height() - lr.height() <= 1);
                        if left.balance_factor() < 0 {
                            lr.lemma_children_heights();
                            match *lr {
                                AVLNode::Branch(lrl, lrr, _, _) => {
                                    assert(lrl.balanced() && lrr.balanced());
                                    assert(-1 <= lrl.height() - lrr.height() <= 1);
                                    let low = left.rotated_left();
                                    let mid = AVLNode::Branch(Box::new(low), right, height, key);
                                    let low_left = low->Branch_0;
                                    assert(low_left.heights_cached() && low_left.balanced()
                                        && low_left.height() == right.height() + 1) by {
                                        reveal_with_fuel(AVLNode::heights_cached, 2);
                                        reveal_with_fuel(AVLNode::balanced, 2);
                                    }
                                    mid.lemma_rotated_right_shape();
                                },
                                AVLNode::Nil => {},
                            }
                        } else {
                            self.lemma_rotated_right_shape();
                        }
                    },
                    AVLNode::Nil => {},
                }
            },
            AVLNode::Nil => {},
        }
    }

    /// The right-heavy half of [`Self::lemma_rebalanced_shape`].
    proof fn lemma_rebalanced_right_heavy(self)
        requires
            self.heights_cached(),
            self.nearly_balanced(),
            self.balance_factor() < -1,
        ensures
            self.rebalanced().heights_cached(),
            self.rebalanced().balanced(),
            self.rebalanced().height() == self.height() || self.rebalanced().height()
                == self.height() - 1,
            self.rebalanced() is Branch,
    {
        self.lemma_children_heights();
        match self {
            AVLNode::Branch(left, right, height, key) => {
                assert(left.balanced() && right.balanced());
                match *right {
                    AVLNode::Branch(rl, rr, _, _) => {
                        assert(rl.balanced() && rr.balanced());
                        assert(-1 <= rl.height() - rr.height() <= 1);
                        if right.balance_factor() > 0 {
                            rl.lemma_children_heights();
                            match *rl {
                                AVLNode::Branch(rll, rlr, _, _) => {
                                    assert(rll.balanced() && rlr.balanced());
                                    assert(-1 <= rll.height() - rlr.height() <= 1);
                                    let low = right.rotated_right();
                                    let mid = AVLNode::Branch(left, Box::new(low), height, key);
                                    let low_right = low->Branch_1;
                                    assert(low_right.heights_cached() && low_right.balanced()
                                        && low_right.height() == left.height() + 1) by {
                                        reveal_with_fuel(AVLNode::heights_cached, 2);
                                        reveal_with_fuel(AVLNode::balanced, 2);
                                    }
                                    mid.lemma_rotated_left_shape();
                                },
                                AVLNode::Nil => {},
                            }
                        } else {
                            self.lemma_rotated_left_shape();
                        }
                    },
                    AVLNode::Nil => {},
                }
            },
            AVLNode::Nil => {},
        }
    }

    /// Rebalancing a branch whose subtrees are balanced and differ in height
    /// by at most two gives a balanced tree with correct height bookkeeping.
    /// The cached height stays or drops by one, and a tree that was balanced
    /// already is returned as it is.
    pub proof fn lemma_rebalanced_shape(self)
        requires
            self.heights_cached(),
            self.nearly_balanced(),
        ensures
            self.rebalanced().heights_cached(),
            self.rebalanced().balanced(),
            self.rebalanced().height() == self.height() || self.rebalanced().height()
                == self.height() - 1,
            -1 <= self.balance_factor() <= 1 ==> self.rebalanced() == self,
            self is Branch ==> self.rebalanced() is Branch,
    {
        if self.balance_factor() > 1 {
            self.lemma_rebalanced_left_heavy();
        } else if self.balance_factor() < -1 {
            self.lemma_rebalanced_right_heavy();
        }
    }
}

impl<T: Ord> AVLNode<T> {
    /// Rebalancing keeps the search-tree ordering.
    pub proof fn lemma_rebalanced_ordered(self)
        requires
            total_order::<T>(),
            self.ordered(),
        ensures
            self.rebalanced().ordered(),
    {
        if let AVLNode::Branch(left, right, height, key) = self {
            if self.balance_factor() > 1 {
                if left.balance_factor() < 0 {
                    let mid = AVLNode::Branch(Box::new(left.rotated_left()), right, height, key);
                    left.lemma_rotated_left_ordered();
                    left.lemma_rotated_left_contents();
                    mid.lemma_rotated_right_ordered();
                } else {
                    self.lemma_rotated_right_ordered();
                }
            } else if self.balance_factor() < -1 {
                if right.balance_factor() > 0 {
                    let mid = AVLNode::Branch(left, Box::new(right.rotated_right()), height, key);
                    right.lemma_rotated_right_ordered();
                    right.lemma_rotated_right_contents();
                    mid.lemma_rotated_left_ordered();
                } else {
                    self.lemma_rotated_left_ordered();
                }
            }
        }
    }

    /// Restores the balance of a branch by at most two rotations; a tree whose
    /// balance factor is within one of zero is returned unchanged.
    pub fn balance(self) -> (res: Self)
        requires
            self.heights_cached(),
        ensures
            res == self.rebalanced(),
            res.in_order() == self.in_order(),
            res.keys() == self.keys(),
            res.size() == self.size(),
            -1 <= self.balance_factor() <= 1 ==> res == self,
            self.nearly_balanced() ==> res.heights_cached() && res.balanced(),
            self.nearly_balanced() ==> res.height() == self.height() || res.height()
                == self.height() - 1,
            total_order::<T>() && self.ordered() ==> res.ordered(),
    {
        proof {
            self.lemma_rebalance_rotations_legal();
            self.lemma_rebalanced_contents();
            if self.nearly_balanced() {
                self.lemma_rebalanced_shape();
            }
            if total_order::<T>() && self.ordered() {
                self.lemma_rebalanced_ordered();
            }
        }
        let balance = self.get_balance();
        match self {
            AVLNode::Branch(left, right, height, value) => {
                if balance > 1 {
                    if left.get_balance() < 0 {
                        AVLNode::Branch(
                            Box::new(left.left_rotate()),
                            right,
                            height,
                            value,
                        ).right_rotate()
                    } else {
                        AVLNode::Branch(left, right, height, value).right_rotate()
                    }
                } else if balance < -1 {
                    if right.get_balance() > 0 {
                        AVLNode::Branch(
                            left,
                            Box::new(right.right_rotate()),
                            height,
                            value,
                        ).left_rotate()
                    } else {
                        AVLNode::Branch(left, right, height, value).left_rotate()
                    }
                } else {
                    AVLNode::Branch(left, right, height, value)
                }
            },
            AVLNode::Nil => AVLNode::Nil,
        }
    }
}

} // verus!
