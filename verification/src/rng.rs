//! The explicitly passed pseudorandom source.
//!
//! Every randomized operation of the search (child shuffling, rollout move
//! choice) takes a small fast generator by mutable reference, so that a fixed
//! seed makes a full search exactly reproducible.

use vstd::prelude::*;

verus! {

#[verifier::external_type_specification]
#[verifier::external_body]
pub struct ExSmallRng(rand::rngs::SmallRng);

/// Relies on rand's SliceRandom::shuffle: it permutes the elements in place
/// by a sequence of swaps, so the length and the multiset of elements are
/// unchanged.
#[verifier::external_body]
pub(crate) fn shuffle<T>(v: &mut Vec<T>, rng: &mut rand::rngs::SmallRng)
    ensures
        final(v)@.len() == old(v)@.len(),
        final(v)@.to_multiset() == old(v)@.to_multiset(),
{
    rand::seq::SliceRandom::shuffle(v.as_mut_slice(), rng)
}

} // verus!
