//! The ordering that keys must have: a strict total order whose notion of
//! "equal" is equality of values.

use std::cmp::Ordering;
use vstd::prelude::*;
use vstd::std_specs::cmp::{OrdSpec, PartialOrdSpec};

verus! {

/// `a` is ordered strictly before `b` by `T`'s comparison.
pub open spec fn lt<T: Ord>(a: T, b: T) -> bool {
    a.cmp_spec(&b) == Ordering::Less
}

/// `T`'s comparison is a total order, the executable comparison returns what
/// `cmp_spec` states, and two values compare equal exactly when they are the
/// same value.
///
/// All primitive integers satisfy this; for them it follows from the
/// broadcast groups `vstd::laws_cmp::group_laws_cmp` and
/// `vstd::laws_eq::group_laws_eq`.
pub open spec fn total_order<T: Ord>() -> bool {
    &&& vstd::laws_cmp::obeys_cmp::<T>()
    &&& vstd::laws_eq::obeys_concrete_eq::<T>()
}

/// The facts about `lt` that the tree's proofs use, in quantified form.
pub open spec fn strict_order_facts<T: Ord>() -> bool {
    &&& T::obeys_cmp_spec()
    &&& forall|a: T, b: T| #[trigger] a.cmp_spec(&b) == Ordering::Equal <==> a == b
    &&& forall|a: T, b: T| #[trigger] a.cmp_spec(&b) == Ordering::Greater <==> lt(b, a)
    &&& forall|a: T| !#[trigger] lt(a, a)
    &&& forall|a: T, b: T| #[trigger] lt(a, b) ==> !lt(b, a)
    &&& forall|a: T, b: T, c: T| #[trigger] lt(a, b) && #[trigger] lt(b, c) ==> lt(a, c)
}

/// A total order in the sense of [`total_order`] yields the quantified facts
/// of [`strict_order_facts`].
pub proof fn lemma_strict_order<T: Ord>()
    requires
        total_order::<T>(),
    ensures
        strict_order_facts::<T>(),
{
    reveal(vstd::laws_cmp::obeys_cmp_partial_ord);
    reveal(vstd::laws_cmp::obeys_cmp_ord);
    reveal(vstd::laws_cmp::obeys_partial_cmp_spec_properties);
    reveal(vstd::laws_eq::obeys_concrete_eq);
    assert forall|a: T, b: T| #[trigger] a.cmp_spec(&b) == Ordering::Equal <==> a == b by {
        assert(a.partial_cmp_spec(&b) == Some(a.cmp_spec(&b)));
    }
    assert forall|a: T, b: T| #[trigger] a.cmp_spec(&b) == Ordering::Greater <==> lt(b, a) by {
        assert(a.partial_cmp_spec(&b) == Some(a.cmp_spec(&b)));
        assert(b.partial_cmp_spec(&a) == Some(b.cmp_spec(&a)));
    }
    assert forall|a: T, b: T, c: T| #[trigger] lt(a, b) && #[trigger] lt(b, c) implies lt(a, c) by {
        assert(a.partial_cmp_spec(&b) == Some(a.cmp_spec(&b)));
        assert(b.partial_cmp_spec(&c) == Some(b.cmp_spec(&c)));
        assert(a.partial_cmp_spec(&c) == Some(a.cmp_spec(&c)));
    }
}

/// Under a total order, the executable comparison returns what `cmp_spec`
/// states.
pub proof fn lemma_comparison_obeyed<T: Ord>()
    requires
        total_order::<T>(),
    ensures
        T::obeys_cmp_spec(),
{
    reveal(vstd::laws_cmp::obeys_cmp_ord);
}

/// `usize` is totally ordered, and `lt` on it is `<`.
pub proof fn lemma_usize_total_order()
    ensures
        total_order::<usize>(),
        forall|a: usize, b: usize| lt(a, b) <==> a < b,
{
    broadcast use vstd::laws_cmp::group_laws_cmp;
    broadcast use vstd::laws_eq::group_laws_eq;
}

} // verus!
