use vstd::prelude::*;

use rand::seq::SliceRandom;

verus! {

/// Relies on `rand::random::<bool>`: the thread-local generator draws a
/// fair coin. Nothing is promised of the outcome; callers must be correct
/// for either result.
#[verifier::external_body]
pub(crate) fn coin_flip() -> bool {
    rand::random::<bool>()
}

/// Relies on `rand::seq::SliceRandom::shuffle`: it reorders the elements
/// of the slice in place, a permutation picked uniformly at random, so
/// the multiset of elements is unchanged.
#[verifier::external_body]
pub(crate) fn shuffle_strings(v: &mut Vec<String>)
    ensures
        final(v)@.to_multiset() == old(v)@.to_multiset(),
{
    v.shuffle(&mut rand::rng());
}

} // verus!
