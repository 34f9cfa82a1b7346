//! Spheres: which of the two crossings of a ray counts.

use vstd::prelude::*;

verus! {

/// Whether `t` lies in the half-open range from `start` to `end`.
pub open spec fn within(t: i64, start: i64, end: i64) -> bool {
    start <= t < end
}

/// The crossing that counts: the first of `t1` and `t2`, in this order,
/// that lies in the range.
pub open spec fn first_root(t1: i64, t2: i64, start: i64, end: i64) -> Option<i64> {
    if within(t1, start, end) {
        Some(t1)
    } else if within(t2, start, end) {
        Some(t2)
    } else {
        None
    }
}

/// Of the two parameters at which a ray crosses a sphere, picks the one at
/// which it hits: the near one if it lies in the range, else the far one
/// if that does, else none.
pub fn nearest_root(t1: i64, t2: i64, start: i64, end: i64) -> (t: Option<i64>)
    ensures
        t == first_root(t1, t2, start, end),
{
    if start <= t1 && t1 < end {
        Some(t1)
    } else if start <= t2 && t2 < end {
        Some(t2)
    } else {
        None
    }
}

/// With the near crossing handed over first, the crossing picked is the
/// least one in the range.
pub proof fn lemma_first_root_is_least(t1: i64, t2: i64, start: i64, end: i64)
    requires
        t1 <= t2,
    ensures
        first_root(t1, t2, start, end) matches Some(t) ==> within(t, start, end) && (within(
            t1,
            start,
            end,
        ) ==> t <= t1) && (within(t2, start, end) ==> t <= t2),
        first_root(t1, t2, start, end) is None ==> !within(t1, start, end) && !within(
            t2,
            start,
            end,
        ),
{
}

/// With the near crossing handed over first, a shorter range only drops
/// the crossing that was picked where it lies beyond the new end: a sphere
/// reports its nearest crossing.
pub proof fn lemma_first_root_shorter_range(t1: i64, t2: i64, start: i64, end: i64, nearer: i64)
    requires
        t1 <= t2,
        nearer <= end,
    ensures
        first_root(t1, t2, start, nearer) == match first_root(t1, t2, start, end) {
            Some(t) => if t < nearer {
                Some(t)
            } else {
                None
            },
            None => None,
        },
{
}

} // verus!
