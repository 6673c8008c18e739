//! The injectable source of randomness: a seedable generator from the
//! `rand` crate, reached through trusted wrappers. Nothing is assumed of
//! the drawn values beyond their range, so everything proved about the
//! search holds for every sequence of draws.

use vstd::prelude::*;

verus! {

#[verifier::external_type_specification]
#[verifier::external_body]
pub struct ExSmallRng(rand::rngs::SmallRng);

/// Relies on rand's `SeedableRng::seed_from_u64` for `SmallRng`: builds
/// a generator from a word-sized seed. Nothing is stated of the state it
/// produces.
#[verifier::external_body]
pub fn rng_from_seed(seed: u64) -> rand::rngs::SmallRng {
    <rand::rngs::SmallRng as rand::SeedableRng>::seed_from_u64(seed)
}

/// Relies on `SmallRng`'s derived `Clone`: an independent generator that
/// starts from the same state. Nothing is stated of it.
#[verifier::external_body]
pub fn rng_clone(rng: &rand::rngs::SmallRng) -> rand::rngs::SmallRng {
    rng.clone()
}

/// Relies on rand's `RngExt::random_range`: a uniform draw from
/// `0..bound`, which panics only on an empty range. Only the range of
/// the result is stated; each call may return anything below `bound`.
#[verifier::external_body]
pub fn rng_below(rng: &mut rand::rngs::SmallRng, bound: u64) -> (r: u64)
    requires
        bound >= 1,
    ensures
        r < bound,
{
    rand::RngExt::random_range(rng, 0..bound)
}

} // verus!
