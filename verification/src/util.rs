//! Small helpers shared by the other modules.

use std::cmp::Ordering;
use vstd::prelude::*;
use vstd::std_specs::cmp::OrdSpec;

verus! {

/// The greater of two values; `b` where they compare equal.
pub open spec fn greater_of<T: Ord>(a: T, b: T) -> T {
    match b.cmp_spec(&a) {
        Ordering::Less => a,
        _ => b,
    }
}

/// The lesser of two values; `a` where they compare equal.
pub open spec fn lesser_of<T: Ord>(a: T, b: T) -> T {
    match b.cmp_spec(&a) {
        Ordering::Less => b,
        _ => a,
    }
}

/// What `clamp` returns: `val` raised to at least `min`, then lowered to at
/// most `max`.
pub open spec fn clamped<T: Ord>(val: T, min: T, max: T) -> T {
    lesser_of(greater_of(val, min), max)
}

/// Restricts `val` to the interval from `min` to `max`. With `max` below
/// `min` the result is `max`.
pub fn clamp<T: Ord>(val: T, min: T, max: T) -> (r: T)
    ensures
        T::obeys_cmp_spec() ==> r == clamped(val, min, max),
{
    val.max(min).min(max)
}

/// On machine integers `clamp` is the usual arithmetic clamp.
pub proof fn lemma_clamped_u32(val: u32, min: u32, max: u32)
    ensures
        clamped(val, min, max) == if val < min {
            if min < max { min } else { max }
        } else if val < max {
            val
        } else {
            max
        },
{
}

} // verus!
