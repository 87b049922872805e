//! Draws from the thread-local generator of `rand`.

use rand::seq::SliceRandom;
use rand::Rng;
use vstd::prelude::*;

verus! {

/// `Rng::gen_range(0..bound)` on the thread-local generator: a random index
/// below `bound`. It panics on an empty range, hence `bound > 0`.
#[verifier::external_body]
pub(crate) fn random_index(bound: usize) -> (r: usize)
    requires
        bound > 0,
    ensures
        r < bound,
{
    rand::thread_rng().gen_range(0..bound)
}

/// `SliceRandom::shuffle` on the thread-local generator: the items are put in
/// a random order, so only that the result is a permutation of the input is
/// stated.
#[verifier::external_body]
pub(crate) fn shuffle_indices(v: &mut Vec<usize>)
    ensures
        final(v)@.to_multiset() == old(v)@.to_multiset(),
{
    v.shuffle(&mut rand::thread_rng());
}

} // verus!
