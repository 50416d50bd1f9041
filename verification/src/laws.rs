//! What holds of every tree that insertions build: the laws of the tree,
//! stated for arbitrary sequences of keys.

use crate::bounds::fib;
use crate::contents::strictly_ascending;
use crate::node::AVLNode;
use crate::order::{lemma_strict_order, lt, total_order};
use std::cmp::Ordering;
use vstd::arithmetic::power2::pow2;
use vstd::prelude::*;
use vstd::std_specs::cmp::OrdSpec;

verus! {

/// A non-empty sequence contains a value exactly if the sequence without its
/// last element contains it or it is the last element.
pub proof fn lemma_contains_last<T>(run: Seq<T>, k: T)
    requires
        run.len() > 0,
    ensures
        run.contains(k) <==> run.drop_last().contains(k) || k == run.last(),
{
    if run.contains(k) {
        let i = choose|i: int| 0 <= i < run.len() && run[i] == k;
        if i < run.len() - 1 {
            assert(run.drop_last()[i] == k);
        }
    }
    if run.drop_last().contains(k) {
        let i = choose|i: int| 0 <= i < run.len() - 1 && run.drop_last()[i] == k;
        assert(run[i] == k);
    }
    if k == run.last() {
        assert(run[run.len() - 1] == k);
    }
}

impl<T: Ord> AVLNode<T> {
    /// The tree after the elements of `run` were inserted one after the
    /// other, first to last.
    pub open spec fn inserted_all(self, run: Seq<T>) -> Self
        decreases run.len(),
    {
        if run.len() == 0 {
            self
        } else {
            self.inserted_all(run.drop_last()).inserted(run.last())
        }
    }

    /// Inserting a key that a well-formed tree already holds gives back the
    /// same tree, in contents and in shape.
    pub proof fn lemma_inserted_present(self, ins: T)
        requires
            total_order::<T>(),
            self.well_formed(),
            self.keys().contains(ins),
        ensures
            self.inserted(ins) == self,
        decreases self,
    {
        lemma_strict_order::<T>();
        if let AVLNode::Branch(left, right, _, key) = self {
            match ins.cmp_spec(&key) {
                Ordering::Equal => {},
                Ordering::Less => {
                    assert(lt(ins, key));
                    assert(!right.keys().contains(ins)) by {
                        assert(right.all_above(key));
                    }
                    left.lemma_inserted_present(ins);
                },
                Ordering::Greater => {
                    assert(lt(key, ins));
                    assert(!left.keys().contains(ins)) by {
                        assert(left.all_below(key));
                    }
                    right.lemma_inserted_present(ins);
                },
            }
        }
    }

    /// Insertion is idempotent: inserting a key a second time changes neither
    /// the contents nor the shape of the tree.
    pub proof fn lemma_insert_idempotent(self, ins: T)
        requires
            total_order::<T>(),
            self.well_formed(),
            self.height() < isize::MAX,
        ensures
            self.inserted(ins).inserted(ins) == self.inserted(ins),
    {
        self.lemma_inserted(ins);
        self.inserted(ins).lemma_inserted_present(ins);
    }

    /// Every sequence of insertions into a well-formed tree gives a
    /// well-formed tree, which therefore passes the audit and lists its keys
    /// in strictly ascending order. Its keys are the old keys and the inserted
    /// ones, and a search finds exactly those. The number of branches is
    /// bounded by the height from both sides.
    ///
    /// The bound on the sizes says that a 64-bit counter can count the
    /// branches.
    pub proof fn lemma_inserted_all(self, run: Seq<T>)
        requires
            total_order::<T>(),
            self.well_formed(),
            self.size() + run.len() <= u64::MAX,
        ensures
            self.inserted_all(run).well_formed(),
            self.inserted_all(run).is_valid(),
            strictly_ascending(self.inserted_all(run).in_order()),
            forall|k: T| #[trigger]
                self.inserted_all(run).keys().contains(k) <==> self.keys().contains(k)
                    || run.contains(k),
            forall|k: T| #[trigger]
                self.inserted_all(run).searched(k) <==> self.keys().contains(k) || run.contains(k),
            self.inserted_all(run).size() <= self.size() + run.len(),
            fib((self.inserted_all(run).height() + 3) as nat) <= self.inserted_all(run).size() + 1,
            self.inserted_all(run).size() + 1 <= pow2(
                (self.inserted_all(run).height() + 1) as nat,
            ),
        decreases run.len(),
    {
        let built = self.inserted_all(run);
        if run.len() == 0 {
            assert forall|k: T| !run.contains(k) by {}
        } else {
            let before = self.inserted_all(run.drop_last());
            self.lemma_inserted_all(run.drop_last());
            before.lemma_height_small();
            before.lemma_inserted(run.last());
            if before.keys().contains(run.last()) {
                before.lemma_inserted_present(run.last());
            }
            assert forall|k: T|
                built.keys().contains(k) <==> self.keys().contains(k) || run.contains(k) by {
                lemma_contains_last(run, k);
                assert(built.keys().contains(k) <==> before.keys().contains(k) || k
                    == run.last());
                assert(before.keys().contains(k) <==> self.keys().contains(k)
                    || run.drop_last().contains(k));
            }
        }
        built.lemma_well_formed_is_valid();
        built.lemma_in_order_ascends();
        built.lemma_min_size();
        built.lemma_max_size();
        assert forall|k: T| #[trigger]
            built.searched(k) <==> self.keys().contains(k) || run.contains(k) by {
            built.lemma_searched(k);
            assert(built.keys().contains(k) <==> self.keys().contains(k) || run.contains(k));
        }
    }

    /// Inserting `n` distinct keys into the empty tree gives a tree of `n`
    /// branches, so its height `h` satisfies `fib(h + 3) <= n + 1 <= 2^(h + 1)`.
    pub proof fn lemma_height_of_distinct_run(run: Seq<T>)
        requires
            total_order::<T>(),
            run.no_duplicates(),
            run.len() <= u64::MAX,
        ensures
            AVLNode::<T>::Nil.inserted_all(run).size() == run.len(),
            fib((AVLNode::<T>::Nil.inserted_all(run).height() + 3) as nat) <= run.len() + 1,
            run.len() + 1 <= pow2((AVLNode::<T>::Nil.inserted_all(run).height() + 1) as nat),
        decreases run.len(),
    {
        let empty = AVLNode::<T>::Nil;
        empty.lemma_inserted_all(run);
        if run.len() > 0 {
            let before = empty.inserted_all(run.drop_last());
            Self::lemma_height_of_distinct_run(run.drop_last());
            empty.lemma_inserted_all(run.drop_last());
            before.lemma_height_small();
            before.lemma_inserted(run.last());
            if run.drop_last().contains(run.last()) {
                let i = choose|i: int|
                    0 <= i < run.len() - 1 && run.drop_last()[i] == run.last();
                assert(run[i] == run[run.len() - 1]);
            }
        }
    }
}

} // verus!
