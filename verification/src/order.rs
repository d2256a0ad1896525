//! The order of coordinates and of distances.
//!
//! A tree can be built over any coordinates that have a total order, and
//! searched with any distances that have one. What the order must be like
//! is said here once, over `Ord`.

use core::cmp::Ordering;
use vstd::prelude::*;
use vstd::std_specs::cmp::OrdSpec;

verus! {

/// `a` is less than `b`.
pub open spec fn before<T: Ord>(a: T, b: T) -> bool {
    a.cmp_spec(&b) == Ordering::Less
}

/// `a` is not greater than `b`.
pub open spec fn at_most<T: Ord>(a: T, b: T) -> bool {
    a.cmp_spec(&b) != Ordering::Greater
}

/// Comparing values of `T` does what the description of `Ord` says.
pub open spec fn comparable<T: Ord>() -> bool {
    T::obeys_cmp_spec()
}

/// Comparing values of `T` gives a total order: `cmp` does what its
/// description says, one value is less than another exactly when the
/// other is greater, and what is not greater than something not greater
/// than a third is not greater than the third.
pub open spec fn total_order<T: Ord>() -> bool {
    &&& T::obeys_cmp_spec()
    &&& forall|a: T, b: T|
        #![trigger a.cmp_spec(&b)]
        a.cmp_spec(&b) == Ordering::Less <==> b.cmp_spec(&a) == Ordering::Greater
    &&& forall|a: T, b: T, c: T| #[trigger]
        at_most(a, b) && #[trigger] at_most(b, c) ==> at_most(a, c)
}

/// In a total order, of two values one is not greater than the other, and
/// every value is not greater than itself.
pub proof fn lemma_either<T: Ord>(a: T, b: T)
    requires
        total_order::<T>(),
    ensures
        at_most(a, b) || at_most(b, a),
        at_most(a, a),
        before(a, b) <==> !at_most(b, a),
{
    assert(a.cmp_spec(&b) == Ordering::Less <==> b.cmp_spec(&a) == Ordering::Greater);
    assert(b.cmp_spec(&a) == Ordering::Less <==> a.cmp_spec(&b) == Ordering::Greater);
    assert(a.cmp_spec(&a) == Ordering::Less <==> a.cmp_spec(&a) == Ordering::Greater);
}

/// The integers that the library's own distances and coordinates are
/// made of are ordered as numbers are.
pub proof fn lemma_integers_ordered()
    ensures
        total_order::<i64>(),
        total_order::<u64>(),
        forall|a: i64, b: i64| #[trigger] before(a, b) <==> a < b,
        forall|a: i64, b: i64| #[trigger] at_most(a, b) <==> a <= b,
        forall|a: u64, b: u64| #[trigger] before(a, b) <==> a < b,
        forall|a: u64, b: u64| #[trigger] at_most(a, b) <==> a <= b,
{
}

/// Whether `a` is less than `b`.
pub fn is_before<T: Ord>(a: &T, b: &T) -> (yes: bool)
    requires
        comparable::<T>(),
    ensures
        yes == before(*a, *b),
{
    match a.cmp(b) {
        Ordering::Less => true,
        _ => false,
    }
}

/// Whether `a` is not greater than `b`.
pub fn is_at_most<T: Ord>(a: &T, b: &T) -> (yes: bool)
    requires
        comparable::<T>(),
    ensures
        yes == at_most(*a, *b),
{
    match a.cmp(b) {
        Ordering::Greater => false,
        _ => true,
    }
}

/// Orders two points by their coordinate on `axis`.
pub fn order_on_axis<C: Ord + Copy, V>(a: &([C; 2], V), b: &([C; 2], V), axis: usize) -> (o:
    Ordering)
    requires
        axis < 2,
        comparable::<C>(),
    ensures
        o == crate::tree::construct::coordinate(*a, axis).cmp_spec(
            &crate::tree::construct::coordinate(*b, axis),
        ),
{
    a.0[axis].cmp(&b.0[axis])
}

} // verus!
