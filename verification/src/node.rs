//! The tree's node type, its mathematical model, and its accessors.

use crate::order::lt;
use vstd::prelude::*;

verus! {

/// A tree is either empty (`Nil`) or a branch that owns its two subtrees.
#[derive(Debug, PartialEq, Eq)]
pub enum AVLNode<T> {
    /// Left subtree, right subtree, cached height, key.
    Branch(Box<AVLNode<T>>, Box<AVLNode<T>>, isize, T),
    Nil,
}

/// The larger of two integers.
pub open spec fn max_int(a: int, b: int) -> int {
    if a >= b {
        a
    } else {
        b
    }
}

impl<T> AVLNode<T> {
    /// The cached height: the stored field of a branch, `-1` for the empty tree.
    pub open spec fn height(self) -> int {
        match self {
            AVLNode::Branch(_, _, h, _) => h as int,
            AVLNode::Nil => -1,
        }
    }

    /// Cached height of the left subtree minus that of the right; `0` for the
    /// empty tree.
    pub open spec fn balance_factor(self) -> int {
        match self {
            AVLNode::Branch(left, right, _, _) => left.height() - right.height(),
            AVLNode::Nil => 0,
        }
    }

    /// The true height, recomputed from the shape alone: the largest number of
    /// edges from the root down to a branch, and `-1` for the empty tree.
    pub open spec fn depth(self) -> int
        decreases self,
    {
        match self {
            AVLNode::Branch(left, right, _, _) => 1 + max_int(left.depth(), right.depth()),
            AVLNode::Nil => -1,
        }
    }

    /// The number of branches.
    pub open spec fn size(self) -> nat
        decreases self,
    {
        match self {
            AVLNode::Branch(left, right, _, _) => 1 + left.size() + right.size(),
            AVLNode::Nil => 0,
        }
    }

    /// The set of keys stored in the tree.
    pub open spec fn keys(self) -> Set<T>
        decreases self,
    {
        match self {
            AVLNode::Branch(left, right, _, key) => left.keys().union(right.keys()).insert(key),
            AVLNode::Nil => Set::empty(),
        }
    }

    /// The keys in the order of a left-to-right walk: left subtree, key, right
    /// subtree.
    pub open spec fn in_order(self) -> Seq<T>
        decreases self,
    {
        match self {
            AVLNode::Branch(left, right, _, key) => left.in_order().push(key) + right.in_order(),
            AVLNode::Nil => Seq::empty(),
        }
    }
}

impl<T> View for AVLNode<T> {
    type V = Seq<T>;

    /// A tree is viewed as its in-order key sequence.
    open spec fn view(&self) -> Seq<T> {
        self.in_order()
    }
}

impl<T> AVLNode<T> {
    /// At every branch the cached height is one more than the larger cached
    /// height of its subtrees.
    pub open spec fn heights_cached(self) -> bool
        decreases self,
    {
        match self {
            AVLNode::Branch(left, right, h, _) => {
                &&& left.heights_cached()
                &&& right.heights_cached()
                &&& h == 1 + max_int(left.height(), right.height())
            },
            AVLNode::Nil => true,
        }
    }

    /// At every branch the cached heights of the two subtrees differ by at
    /// most one.
    pub open spec fn balanced(self) -> bool
        decreases self,
    {
        match self {
            AVLNode::Branch(left, right, _, _) => {
                &&& left.balanced()
                &&& right.balanced()
                &&& -1 <= left.height() - right.height() <= 1
            },
            AVLNode::Nil => true,
        }
    }

    /// With correct height bookkeeping, the empty tree is the only tree of
    /// cached height `-1`, and no cached height is smaller.
    pub proof fn lemma_height_floor(self)
        requires
            self.heights_cached(),
        ensures
            self.height() >= -1,
            self is Nil <==> self.height() == -1,
        decreases self,
    {
        if let AVLNode::Branch(left, right, _, _) = self {
            left.lemma_height_floor();
            right.lemma_height_floor();
        }
    }

    /// With correct height bookkeeping the cached height is the true height.
    pub proof fn lemma_cached_height_is_depth(self)
        requires
            self.heights_cached(),
        ensures
            self.height() == self.depth(),
        decreases self,
    {
        if let AVLNode::Branch(left, right, _, _) = self {
            left.lemma_cached_height_is_depth();
            right.lemma_cached_height_is_depth();
        }
    }
}

impl<T: Ord> AVLNode<T> {
    /// Every key of the tree is ordered strictly before `bound`.
    pub open spec fn all_below(self, bound: T) -> bool {
        forall|k: T| #[trigger] self.keys().contains(k) ==> lt(k, bound)
    }

    /// Every key of the tree is ordered strictly after `bound`.
    pub open spec fn all_above(self, bound: T) -> bool {
        forall|k: T| #[trigger] self.keys().contains(k) ==> lt(bound, k)
    }

    /// The search-tree ordering alone: at every branch, the keys to the left
    /// are smaller and the keys to the right are larger.
    pub open spec fn ordered(self) -> bool
        decreases self,
    {
        match self {
            AVLNode::Branch(left, right, _, key) => {
                &&& left.ordered()
                &&& right.ordered()
                &&& left.all_below(key)
                &&& right.all_above(key)
            },
            AVLNode::Nil => true,
        }
    }

    /// The full invariant of a tree: ordering, height bookkeeping and balance
    /// hold at every branch.
    pub open spec fn well_formed(self) -> bool {
        &&& self.ordered()
        &&& self.heights_cached()
        &&& self.balanced()
    }

    /// The empty tree.
    pub fn empty() -> (tree: Self)
        ensures
            tree == AVLNode::<T>::Nil,
            tree.well_formed(),
    {
        AVLNode::Nil
    }
}

/// The larger of two heights.
pub fn max_height(a: isize, b: isize) -> (m: isize)
    ensures
        m == max_int(a as int, b as int),
{
    if a >= b {
        a
    } else {
        b
    }
}

impl<T> AVLNode<T> {
    /// Returns the cached height in constant time.
    pub fn get_height(&self) -> (h: isize)
        ensures
            h == self.height(),
    {
        match self {
            AVLNode::Branch(_, _, height, _) => *height,
            AVLNode::Nil => -1,
        }
    }

    /// Returns the balance factor in constant time.
    pub fn get_balance(&self) -> (b: isize)
        requires
            isize::MIN <= self.balance_factor() <= isize::MAX,
        ensures
            b == self.balance_factor(),
    {
        match self {
            AVLNode::Branch(left, right, _, _) => left.get_height() - right.get_height(),
            AVLNode::Nil => 0,
        }
    }

    /// Recomputes the true height by walking every branch; it never reads a
    /// cached height.
    pub fn get_depth(&self) -> (d: isize)
        requires
            self.depth() <= isize::MAX,
        ensures
            d == self.depth(),
        decreases self,
    {
        match self {
            AVLNode::Branch(left, right, _, _) => {
                max_height(left.get_depth(), right.get_depth()) + 1
            },
            AVLNode::Nil => -1,
        }
    }
}

} // verus!
