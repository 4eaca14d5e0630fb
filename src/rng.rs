//! The random-number source and the draws the engine makes from it.
use vstd::prelude::*;

verus! {

/// The engine's random-number generator.
#[verifier::external_type_specification]
#[verifier::external_body]
pub struct ExStdRng(rand::rngs::StdRng);

/// Relies on `rand::RngCore::next_u32`: any 32-bit value may come out.
#[verifier::external_body]
pub(crate) fn next_u32(rng: &mut rand::rngs::StdRng) -> (r: u32) {
    rand::RngCore::next_u32(rng)
}

/// Relies on `rand::Rng::gen_range` over `0..n`: a value below `n` (the call
/// panics on an empty range, which `n > 0` rules out).
#[verifier::external_body]
pub(crate) fn uniform_below(rng: &mut rand::rngs::StdRng, n: usize) -> (r: usize)
    requires
        n > 0,
    ensures
        r < n,
{
    rand::Rng::gen_range(rng, 0..n)
}

/// Relies on `rand::SeedableRng::seed_from_u64` for `StdRng`: a generator
/// built from a 64-bit seed (the call cannot fail).
#[verifier::external_body]
pub(crate) fn rng_from_seed(seed: u64) -> (r: rand::rngs::StdRng) {
    <rand::rngs::StdRng as rand::SeedableRng>::seed_from_u64(seed)
}

} // verus!
