//! Endpoints of ranges.

use std::ops::Bound;
use vstd::prelude::*;

verus! {

/// An endpoint of a range, as std has it: a value that belongs to the
/// range, a value that bounds it from outside, or no bound at all.
#[verifier::external_type_specification]
#[verifier::reject_recursive_types(T)]
pub struct ExBound<T>(Bound<T>);

/// Whether `owned` is the endpoint `borrowed` with its value cloned.
pub open spec fn bound_matches<T: Clone>(borrowed: Bound<&T>, owned: Bound<T>) -> bool {
    match (borrowed, owned) {
        (Bound::Unbounded, Bound::Unbounded) => true,
        (Bound::Included(x), Bound::Included(y)) => cloned(*x, y),
        (Bound::Excluded(x), Bound::Excluded(y)) => cloned(*x, y),
        _ => false,
    }
}

/// Turns an endpoint that borrows its value into one that owns a clone of
/// it.
pub fn bound_cloned<T: Clone>(b: Bound<&T>) -> (r: Bound<T>)
    ensures
        bound_matches(b, r),
{
    match b {
        Bound::Unbounded => Bound::Unbounded,
        Bound::Included(x) => Bound::Included(x.clone()),
        Bound::Excluded(x) => Bound::Excluded(x.clone()),
    }
}

} // verus!
