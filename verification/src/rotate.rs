//! Single rotations: constant-time restructurings that change which branch is
//! the local root and keep the in-order key sequence.

use crate::node::{max_height, max_int, AVLNode};
use crate::order::{lemma_strict_order, lt, total_order};
use vstd::pervasive::unreached;
use vstd::prelude::*;

verus! {

/// An integer as a cached height; meaningful where it fits the field.
pub open spec fn to_height(h: int) -> isize {
    h as isize
}

impl<T> AVLNode<T> {
    /// The tree is a branch whose right subtree is a branch, and the heights
    /// that a left rotation computes fit in the height field.
    pub open spec fn can_rotate_left(self) -> bool {
        &&& self matches AVLNode::Branch(left, right, _, _)
        &&& *right matches AVLNode::Branch(pivot_left, pivot_right, _, _)
        &&& max_int(left.height(), pivot_left.height()) + 2 <= isize::MAX
    }

    /// The tree is a branch whose left subtree is a branch, and the heights
    /// that a right rotation computes fit in the height field.
    pub open spec fn can_rotate_right(self) -> bool {
        &&& self matches AVLNode::Branch(left, right, _, _)
        &&& *left matches AVLNode::Branch(pivot_left, pivot_right, _, _)
        &&& max_int(right.height(), pivot_right.height()) + 2 <= isize::MAX
    }

    /// The result of a left rotation. With the tree `(L, (RL, RR, rk), k)` it
    /// is `((L, RL, k), RR, rk)`; the inner branch gets the height
    /// `max(height(L), height(RL)) + 1` and the new root the height
    /// `max(inner + 1, height(RR))`. A tree that cannot be rotated is left as
    /// it is.
    pub open spec fn rotated_left(self) -> Self {
        match self {
            AVLNode::Branch(left, right, _, key) => match *right {
                AVLNode::Branch(pivot_left, pivot_right, _, pivot_key) => {
                    let inner = max_int(left.height(), pivot_left.height()) + 1;
                    let outer = max_int(inner + 1, pivot_right.height());
                    AVLNode::Branch(
                        Box::new(AVLNode::Branch(left, pivot_left, to_height(inner), key)),
                        pivot_right,
                        to_height(outer),
                        pivot_key,
                    )
                },
                AVLNode::Nil => self,
            },
            AVLNode::Nil => self,
        }
    }

    /// The result of a right rotation, the mirror image of
    /// [`Self::rotated_left`]: `((LL, LR, lk), R, k)` becomes
    /// `(LL, (LR, R, k), lk)`.
    pub open spec fn rotated_right(self) -> Self {
        match self {
            AVLNode::Branch(left, right, _, key) => match *left {
                AVLNode::Branch(pivot_left, pivot_right, _, pivot_key) => {
                    let inner = max_int(right.height(), pivot_right.height()) + 1;
                    let outer = max_int(inner + 1, pivot_left.height());
                    AVLNode::Branch(
                        pivot_left,
                        Box::new(AVLNode::Branch(pivot_right, right, to_height(inner), key)),
                        to_height(outer),
                        pivot_key,
                    )
                },
                AVLNode::Nil => self,
            },
            AVLNode::Nil => self,
        }
    }

    /// A left rotation keeps the in-order sequence, the key set and the size.
    pub proof fn lemma_rotated_left_contents(self)
        ensures
            self.rotated_left().in_order() == self.in_order(),
            self.rotated_left().keys() == self.keys(),
            self.rotated_left().size() == self.size(),
    {
        reveal_with_fuel(AVLNode::in_order, 3);
        reveal_with_fuel(AVLNode::keys, 3);
        reveal_with_fuel(AVLNode::size, 3);
        assert(self.rotated_left().in_order() =~= self.in_order());
        assert(self.rotated_left().keys() =~= self.keys());
    }

    /// A right rotation keeps the in-order sequence, the key set and the size.
    pub proof fn lemma_rotated_right_contents(self)
        ensures
            self.rotated_right().in_order() == self.in_order(),
            self.rotated_right().keys() == self.keys(),
            self.rotated_right().size() == self.size(),
    {
        reveal_with_fuel(AVLNode::in_order, 3);
        reveal_with_fuel(AVLNode::keys, 3);
        reveal_with_fuel(AVLNode::size, 3);
        assert(self.rotated_right().in_order() =~= self.in_order());
        assert(self.rotated_right().keys() =~= self.keys());
    }

    /// When a left rotation restores the invariant. Let the tree be
    /// `(L, (RL, RR, _), _)` with all three subtrees balanced and their heights
    /// cached correctly. If `L` and `RL` differ in height by at most one, and
    /// the branch built from them is as high as `RR` or one higher, then the
    /// rotated tree is balanced, its heights are cached correctly, and its
    /// height is `max(height(L), height(RL)) + 2`.
    pub proof fn lemma_rotated_left_shape(self)
        requires
            self.can_rotate_left(),
            self matches AVLNode::Branch(left, right, _, _) && *right matches AVLNode::Branch(
                pivot_left,
                pivot_right,
                _,
                _,
            ) && {
                let inner = max_int(left.height(), pivot_left.height()) + 1;
                &&& left.heights_cached() && left.balanced()
                &&& pivot_left.heights_cached() && pivot_left.balanced()
                &&& pivot_right.heights_cached() && pivot_right.balanced()
                &&& -1 <= left.height() - pivot_left.height() <= 1
                &&& 0 <= inner - pivot_right.height() <= 1
            },
        ensures
            self.rotated_left().heights_cached(),
            self.rotated_left().balanced(),
            self matches AVLNode::Branch(left, right, _, _) && *right matches AVLNode::Branch(
                pivot_left,
                _,
                _,
                _,
            ) && self.rotated_left().height() == max_int(left.height(), pivot_left.height()) + 2,
    {
        reveal_with_fuel(AVLNode::heights_cached, 2);
        reveal_with_fuel(AVLNode::balanced, 2);
        if let AVLNode::Branch(left, right, _, _) = self {
            if let AVLNode::Branch(pivot_left, pivot_right, _, _) = *right {
                left.lemma_height_floor();
                pivot_left.lemma_height_floor();
                pivot_right.lemma_height_floor();
            }
        }
    }

    /// When a right rotation restores the invariant: the mirror image of
    /// [`Self::lemma_rotated_left_shape`].
    pub proof fn lemma_rotated_right_shape(self)
        requires
            self.can_rotate_right(),
            self matches AVLNode::Branch(left, right, _, _) && *left matches AVLNode::Branch(
                pivot_left,
                pivot_right,
                _,
                _,
            ) && {
                let inner = max_int(right.height(), pivot_right.height()) + 1;
                &&& right.heights_cached() && right.balanced()
                &&& pivot_left.heights_cached() && pivot_left.balanced()
                &&& pivot_right.heights_cached() && pivot_right.balanced()
                &&& -1 <= pivot_right.height() - right.height() <= 1
                &&& 0 <= inner - pivot_left.height() <= 1
            },
        ensures
            self.rotated_right().heights_cached(),
            self.rotated_right().balanced(),
            self matches AVLNode::Branch(left, right, _, _) && *left matches AVLNode::Branch(
                _,
                pivot_right,
                _,
                _,
            ) && self.rotated_right().height() == max_int(right.height(), pivot_right.height())
                + 2,
    {
        reveal_with_fuel(AVLNode::heights_cached, 2);
        reveal_with_fuel(AVLNode::balanced, 2);
        if let AVLNode::Branch(left, right, _, _) = self {
            if let AVLNode::Branch(pivot_left, pivot_right, _, _) = *left {
                right.lemma_height_floor();
                pivot_left.lemma_height_floor();
                pivot_right.lemma_height_floor();
            }
        }
    }
}

impl<T: Ord> AVLNode<T> {
    /// A left rotation keeps the search-tree ordering.
    pub proof fn lemma_rotated_left_ordered(self)
        requires
            total_order::<T>(),
            self.ordered(),
        ensures
            self.rotated_left().ordered(),
    {
        lemma_strict_order::<T>();
        reveal_with_fuel(AVLNode::ordered, 3);
        reveal_with_fuel(AVLNode::keys, 3);
        if let AVLNode::Branch(left, right, _, key) = self {
            if let AVLNode::Branch(pivot_left, pivot_right, _, pivot_key) = *right {
                let inner = self.rotated_left()->Branch_0;
                assert(right.keys().contains(pivot_key));
                assert forall|k: T| #[trigger] pivot_left.keys().contains(k) implies lt(key, k) by {
                    assert(right.keys().contains(k));
                }
                assert forall|k: T| #[trigger] inner.keys().contains(k) implies lt(k, pivot_key) by {
                    if left.keys().contains(k) {
                        assert(lt(k, key) && lt(key, pivot_key));
                    } else if pivot_left.keys().contains(k) {
                        assert(pivot_left.all_below(pivot_key));
                    } else {
                        assert(k == key);
                    }
                }
            }
        }
    }

    /// A right rotation keeps the search-tree ordering.
    pub proof fn lemma_rotated_right_ordered(self)
        requires
            total_order::<T>(),
            self.ordered(),
        ensures
            self.rotated_right().ordered(),
    {
        lemma_strict_order::<T>();
        reveal_with_fuel(AVLNode::ordered, 3);
        reveal_with_fuel(AVLNode::keys, 3);
        if let AVLNode::Branch(left, right, _, key) = self {
            if let AVLNode::Branch(pivot_left, pivot_right, _, pivot_key) = *left {
                let inner = self.rotated_right()->Branch_1;
                assert(left.keys().contains(pivot_key));
                assert forall|k: T| #[trigger] pivot_right.keys().contains(k) implies lt(k, key) by {
                    assert(left.keys().contains(k));
                }
                assert forall|k: T| #[trigger] inner.keys().contains(k) implies lt(pivot_key, k) by {
                    if right.keys().contains(k) {
                        assert(lt(pivot_key, key) && lt(key, k));
                    } else if pivot_right.keys().contains(k) {
                        assert(pivot_right.all_above(pivot_key));
                    } else {
                        assert(k == key);
                    }
                }
            }
        }
    }

    /// Rotates the tree to the left: the right child becomes the root and the
    /// old root its left child.
    pub fn left_rotate(self) -> (res: Self)
        requires
            self.can_rotate_left(),
        ensures
            res == self.rotated_left(),
            res.in_order() == self.in_order(),
            res.keys() == self.keys(),
            res.size() == self.size(),
            total_order::<T>() && self.ordered() ==> res.ordered(),
    {
        proof {
            self.lemma_rotated_left_contents();
            if total_order::<T>() && self.ordered() {
                self.lemma_rotated_left_ordered();
            }
        }
        match self {
            AVLNode::Branch(left, right, _, value) => match *right {
                AVLNode::Branch(pivleft, pivright, _, pivval) => {
                    let left_height = max_height(left.get_height(), pivleft.get_height()) + 1;
                    let root_height = max_height(left_height + 1, pivright.get_height());
                    AVLNode::Branch(
                        Box::new(AVLNode::Branch(left, pivleft, left_height, value)),
                        pivright,
                        root_height,
                        pivval,
                    )
                },
                AVLNode::Nil => unreached(),
            },
            AVLNode::Nil => unreached(),
        }
    }

    /// Rotates the tree to the right: the left child becomes the root and the
    /// old root its right child.
    pub fn right_rotate(self) -> (res: Self)
        requires
            self.can_rotate_right(),
        ensures
            res == self.rotated_right(),
            res.in_order() == self.in_order(),
            res.keys() == self.keys(),
            res.size() == self.size(),
            total_order::<T>() && self.ordered() ==> res.ordered(),
    {
        proof {
            self.lemma_rotated_right_contents();
            if total_order::<T>() && self.ordered() {
                self.lemma_rotated_right_ordered();
            }
        }
        match self {
            AVLNode::Branch(left, right, _, value) => match *left {
                AVLNode::Branch(pivleft, pivright, _, pivval) => {
                    let right_height = max_height(right.get_height(), pivright.get_height()) + 1;
                    let root_height = max_height(right_height + 1, pivleft.get_height());
                    AVLNode::Branch(
                        pivleft,
                        Box::new(AVLNode::Branch(pivright, right, right_height, value)),
                        root_height,
                        pivval,
                    )
                },
                AVLNode::Nil => unreached(),
            },
            AVLNode::Nil => unreached(),
        }
    }
}

} // verus!
