//! The random source that priorities are drawn from.

use rand::rngs::StdRng;
use rand::RngCore;
use rand::SeedableRng;
use vstd::prelude::*;

verus! {

/// The standard generator of the `rand` crate. Nothing is known of its state.
#[verifier::external_type_specification]
#[verifier::external_body]
pub struct ExStdRng(rand::rngs::StdRng);

/// Draws the next 32 bits from the generator, by `RngCore::next_u32`.
/// Nothing is claimed of the value drawn.
#[verifier::external_body]
pub(crate) fn next_priority(rng: &mut StdRng) -> u32 {
    rng.next_u32()
}

/// Makes a generator from a 64-bit seed, by `SeedableRng::seed_from_u64`.
/// Nothing is claimed of the generator made.
#[verifier::external_body]
pub(crate) fn seeded_rng(seed: u64) -> StdRng {
    StdRng::seed_from_u64(seed)
}

} // verus!
