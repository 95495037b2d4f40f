//! Trusted boundary to the `rand` crate: the secret generator draws its
//! randomness through these wrappers and is verified against their
//! contracts, which state only what holds of every possible outcome.

use vstd::prelude::*;
use rand::Rng;
use rand::seq::SliceRandom;

verus! {

/// `rand`'s thread-local generator, opaque to verification.
#[verifier::external_type_specification]
#[verifier::external_body]
pub struct ExThreadRng(rand::rngs::ThreadRng);

/// Relies on rand::thread_rng: returns a handle to the thread-local
/// generator. Nothing is assumed of the values it will produce.
#[verifier::external_body]
pub(crate) fn fresh_rng() -> rand::rngs::ThreadRng {
    rand::thread_rng()
}

/// Relies on rand::seq::SliceRandom::shuffle: a Fisher-Yates shuffle that
/// permutes the slice in place by swaps, so the multiset of elements is
/// unchanged, whatever order comes out.
#[verifier::external_body]
pub(crate) fn shuffle_digits(rng: &mut rand::rngs::ThreadRng, v: &mut Vec<u8>)
    ensures
        final(v)@.to_multiset() == old(v)@.to_multiset(),
{
    v.as_mut_slice().shuffle(rng)
}

/// Relies on rand::Rng::gen_range on the inclusive range `0..=max_inclusive`:
/// the range is never empty, so the call returns a sample inside it.
#[verifier::external_body]
pub(crate) fn pick_index(rng: &mut rand::rngs::ThreadRng, max_inclusive: usize) -> (r: usize)
    ensures
        r <= max_inclusive,
{
    rng.gen_range(0..=max_inclusive)
}

} // verus!
