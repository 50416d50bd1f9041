//! The ascending run: the workload that degrades an unbalanced search tree to
//! a list, and that this tree keeps logarithmic.

use crate::node::AVLNode;
use crate::order::lemma_usize_total_order;
use vstd::prelude::*;

verus! {

/// The keys `0, 1, ..., n - 1`, in this order.
pub open spec fn ascending_run(n: nat) -> Seq<usize> {
    Seq::new(n, |i: int| i as usize)
}

/// The tree that holds the single key `0`.
pub open spec fn seed() -> AVLNode<usize> {
    AVLNode::Branch(Box::new(AVLNode::Nil), Box::new(AVLNode::Nil), 0isize, 0usize)
}

/// Inserts the keys `0, 1, ..., n - 1`, in this order, into a tree that holds
/// the key `0`, and returns the tree.
pub fn bench_insert(n: usize) -> (tree: AVLNode<usize>)
    ensures
        tree == seed().inserted_all(ascending_run(n as nat)),
        tree.well_formed(),
        forall|k: usize| #[trigger] tree.keys().contains(k) <==> k == 0 || k < n,
        tree.size() == if n == 0 { 1nat } else { n as nat },
{
    let mut tree: AVLNode<usize> = AVLNode::Branch(
        Box::new(AVLNode::Nil),
        Box::new(AVLNode::Nil),
        0,
        0,
    );
    proof {
        lemma_usize_total_order();
        lemma_seed_well_formed();
    }
    for i in 0..n
        invariant
            tree == seed().inserted_all(ascending_run(i as nat)),
            tree.well_formed(),
            forall|k: usize| #[trigger] tree.keys().contains(k) <==> k == 0 || k < i,
            tree.size() == if i == 0 { 1nat } else { i as nat },
            crate::order::total_order::<usize>(),
    {
        proof {
            tree.lemma_height_small();
            let next = ascending_run((i + 1) as nat);
            assert(next.drop_last() =~= ascending_run(i as nat));
            assert(next.last() == i);
        }
        tree = tree.insert(i);
    }
    tree
}

/// The starting tree of [`bench_insert`] is well-formed and holds one key.
pub proof fn lemma_seed_well_formed()
    ensures
        seed().well_formed(),
        seed().size() == 1,
        forall|k: usize| #[trigger] seed().keys().contains(k) <==> k == 0,
{
    reveal_with_fuel(AVLNode::ordered, 2);
    reveal_with_fuel(AVLNode::heights_cached, 2);
    reveal_with_fuel(AVLNode::balanced, 2);
    reveal_with_fuel(AVLNode::size, 2);
    reveal_with_fuel(AVLNode::keys, 2);
}

} // verus!
