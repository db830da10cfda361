//! Trusted boundary around the `rand` crate: the game owns a seeded
//! `StdRng`, and the verified code assumes nothing about a drawn value
//! beyond its range.

use vstd::prelude::*;

use rand::rngs::StdRng;
use rand::RngExt;
use rand::SeedableRng;

verus! {

#[verifier::external_type_specification]
#[verifier::external_body]
pub struct ExStdRng(StdRng);

/// Relies on rand::SeedableRng::seed_from_u64: a generator built
/// deterministically from the seed.
#[verifier::external_body]
pub(crate) fn rng_from_seed(seed: u64) -> StdRng {
    StdRng::seed_from_u64(seed)
}

/// Relies on rand::random: a u64 drawn from the thread-local generator,
/// used only to seed an unseeded game.
#[verifier::external_body]
pub(crate) fn random_seed() -> u64 {
    rand::random()
}

/// Relies on rand::RngExt::random_range: a value drawn uniformly from
/// `0..bound`, which panics only on an empty range; nothing is assumed of
/// which value comes back.
#[verifier::external_body]
pub(crate) fn rng_below(rng: &mut StdRng, bound: usize) -> (r: usize)
    requires
        1 <= bound,
    ensures
        r < bound,
{
    rng.random_range(0..bound)
}

/// Relies on rand::RngExt::random_ratio: true with probability 1/10;
/// nothing is assumed of a single outcome.
#[verifier::external_body]
pub(crate) fn rng_one_in_ten(rng: &mut StdRng) -> bool {
    rng.random_ratio(1, 10)
}

} // verus!
