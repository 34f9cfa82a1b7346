//! Random choices.

use vstd::prelude::*;

verus! {

/// One member of `items`, drawn uniformly by `rand`'s
/// `SliceRandom::choose` with the thread's own generator: nothing from an
/// empty list, else a member of it. Which member is not stated.
#[verifier::external_body]
pub(crate) fn choose_one<T>(items: &Vec<T>) -> (chosen: Option<&T>)
    ensures
        items@.len() == 0 ==> chosen is None,
        items@.len() > 0 ==> chosen is Some && items@.contains(*chosen->0),
{
    rand::seq::SliceRandom::choose(items.as_slice(), &mut rand::thread_rng())
}

} // verus!
