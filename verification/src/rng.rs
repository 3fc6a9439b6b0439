//! The pseudo-random generator used by every randomizer.

use rand_xoshiro::rand_core::RngCore;
use rand_xoshiro::rand_core::SeedableRng;
use rand_xoshiro::Xoshiro256StarStar;
use vstd::prelude::*;

verus! {

/// The xoshiro256** generator of `rand_xoshiro`, carried through opaquely.
#[verifier::external_type_specification]
#[verifier::external_body]
pub struct ExXoshiro256StarStar(Xoshiro256StarStar);

/// Calls `RngCore::next_u64` on the generator. Nothing is claimed of the
/// value drawn: every `u64` is possible as far as the contract goes.
#[verifier::external_body]
pub(crate) fn next_u64(rng: &mut Xoshiro256StarStar) -> u64 {
    rng.next_u64()
}

/// Calls `RngCore::next_u32` on the generator. Nothing is claimed of the
/// value drawn: every `u32` is possible as far as the contract goes.
#[verifier::external_body]
pub(crate) fn next_u32(rng: &mut Xoshiro256StarStar) -> u32 {
    rng.next_u32()
}

/// Calls `SeedableRng::seed_from_u64` for the generator: the generator
/// that the seed gives. Its state is opaque, so nothing is claimed of it.
#[verifier::external_body]
pub(crate) fn seeded_rng(seed: u64) -> Xoshiro256StarStar {
    Xoshiro256StarStar::seed_from_u64(seed)
}

} // verus!
