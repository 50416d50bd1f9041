//! How high a tree of a given size can and must be.
//!
//! A tree whose cached heights are correct and balanced has at least
//! `fib(height + 3) - 1` branches, and any tree with correct heights has at
//! most `2^(height + 1) - 1`. These are the logarithmic height bounds of AVL
//! trees in integer form.

use crate::node::AVLNode;
use vstd::arithmetic::power2::{lemma2_to64, lemma_pow2_strictly_increases, lemma_pow2_unfold, pow2};
use vstd::prelude::*;

verus! {

/// The Fibonacci numbers: `0, 1, 1, 2, 3, 5, ...`.
pub open spec fn fib(n: nat) -> nat
    decreases n,
{
    if n == 0 {
        0
    } else if n == 1 {
        1
    } else {
        fib((n - 1) as nat) + fib((n - 2) as nat)
    }
}

/// The Fibonacci numbers never decrease.
pub proof fn lemma_fib_monotone(i: nat, j: nat)
    requires
        i <= j,
    ensures
        fib(i) <= fib(j),
    decreases j,
{
    if i < j {
        lemma_fib_monotone(i, (j - 1) as nat);
        if j >= 2 {
            assert(fib(j) == fib((j - 1) as nat) + fib((j - 2) as nat));
        }
    }
}

/// The Fibonacci numbers at least double every two steps:
/// `fib(2 * m) >= 2^(m - 1)`.
pub proof fn lemma_fib_grows(m: nat)
    requires
        m >= 1,
    ensures
        fib(2 * m) >= pow2((m - 1) as nat),
    decreases m,
{
    reveal_with_fuel(fib, 3);
    if m == 1 {
        lemma2_to64();
    } else {
        lemma_fib_grows((m - 1) as nat);
        lemma_pow2_unfold((m - 1) as nat);
        let n = (2 * m - 2) as nat;
        lemma_fib_monotone(n, n + 1);
        assert(fib(2 * m) == fib(n + 1) + fib(n));
    }
}

impl<T> AVLNode<T> {
    /// A balanced tree of cached height `h` has at least `fib(h + 3) - 1`
    /// branches.
    pub proof fn lemma_min_size(self)
        requires
            self.heights_cached(),
            self.balanced(),
        ensures
            self.height() >= -1,
            fib((self.height() + 3) as nat) <= self.size() + 1,
        decreases self,
    {
        reveal_with_fuel(fib, 3);
        self.lemma_height_floor();
        if let AVLNode::Branch(left, right, _, _) = self {
            left.lemma_min_size();
            right.lemma_min_size();
            let h = self.height();
            lemma_fib_monotone((h + 1) as nat, (left.height() + 3) as nat);
            lemma_fib_monotone((h + 1) as nat, (right.height() + 3) as nat);
            assert(fib((h + 3) as nat) == fib((h + 2) as nat) + fib((h + 1) as nat));
        }
    }

    /// A tree of cached height `h` has at most `2^(h + 1) - 1` branches.
    pub proof fn lemma_max_size(self)
        requires
            self.heights_cached(),
        ensures
            self.height() >= -1,
            self.size() + 1 <= pow2((self.height() + 1) as nat),
        decreases self,
    {
        self.lemma_height_floor();
        lemma2_to64();
        if let AVLNode::Branch(left, right, _, _) = self {
            left.lemma_max_size();
            right.lemma_max_size();
            let h = self.height();
            lemma_pow2_unfold((h + 1) as nat);
            if left.height() + 1 < h {
                lemma_pow2_strictly_increases((left.height() + 1) as nat, h as nat);
            }
            if right.height() + 1 < h {
                lemma_pow2_strictly_increases((right.height() + 1) as nat, h as nat);
            }
        }
    }

    /// A balanced tree with no more branches than a 64-bit counter can count
    /// is at most 128 high, so its height can always grow by one more.
    pub proof fn lemma_height_small(self)
        requires
            self.heights_cached(),
            self.balanced(),
            self.size() <= u64::MAX,
        ensures
            self.height() <= 128,
            self.height() < isize::MAX,
    {
        self.lemma_min_size();
        if self.height() > 128 {
            lemma_fib_grows(66);
            lemma_fib_monotone(132, (self.height() + 3) as nat);
            lemma2_to64();
            lemma_pow2_unfold(65);
        }
    }
}

} // verus!
