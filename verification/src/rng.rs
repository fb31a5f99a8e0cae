//! Trusted boundary to `rand`: the engine owns one explicitly seeded small
//! generator, so search is reproducible and free of hidden shared state.
//! Nothing is promised of the drawn values beyond their range.

use vstd::prelude::*;

verus! {

/// Declares `rand::rngs::SmallRng` so the engine can own its generator.
#[verifier::external_type_specification]
#[verifier::external_body]
pub struct ExSmallRng(rand::rngs::SmallRng);

/// Relies on `rand::rngs::SmallRng::from_seed`: constructs the generator
/// from a fixed all-zero seed.
#[verifier::external_body]
pub fn new_rng() -> rand::rngs::SmallRng {
    <rand::rngs::SmallRng as rand::SeedableRng>::from_seed([0; 32])
}

/// Relies on `rand::Rng::gen_range` over `0..n`, which panics on an empty
/// range and otherwise returns a value in the range.
#[verifier::external_body]
pub fn rng_below(rng: &mut rand::rngs::SmallRng, n: usize) -> (r: usize)
    requires
        n >= 1,
    ensures
        r < n,
{
    rand::Rng::gen_range(rng, 0..n)
}

} // verus!
