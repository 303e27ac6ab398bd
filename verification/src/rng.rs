//! Trusted access to the pseudo-random generator of the `rand` crate.
//!
//! Nothing is, or can be, promised of a random draw; every function that
//! consumes one states what holds whatever value came back.

use vstd::prelude::*;
use rand::Rng;
use rand::SeedableRng;

verus! {

#[verifier::external_type_specification]
#[verifier::external_body]
pub struct ExSmallRng(rand::rngs::SmallRng);

/// Relies on rand::rngs::SmallRng::from_seed: builds a generator from a
/// fixed seed, so runs are reproducible. Nothing is claimed of its state.
#[verifier::external_body]
pub(crate) fn new_seeded_rng() -> rand::rngs::SmallRng {
    rand::rngs::SmallRng::from_seed([1; 32])
}

/// Relies on rand::Rng::gen::<u32>: draws the generator's next value.
#[verifier::external_body]
pub(crate) fn rng_next_u32(rng: &mut rand::rngs::SmallRng) -> u32 {
    rng.gen()
}

/// Relies on rand::Rng::gen::<u64>: draws the generator's next value.
#[verifier::external_body]
pub(crate) fn rng_next_u64(rng: &mut rand::rngs::SmallRng) -> u64 {
    rng.gen()
}

/// Relies on rand::random::<u32>: draws from the thread-local generator.
#[verifier::external_body]
pub(crate) fn random_u32() -> u32 {
    rand::random()
}

/// Relies on rand::random::<u128>: draws from the thread-local generator.
#[verifier::external_body]
pub(crate) fn random_u128() -> u128 {
    rand::random()
}

} // verus!
