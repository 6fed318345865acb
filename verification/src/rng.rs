//! Trusted wrappers around the `rand` crate's pseudo-random generator.
//!
//! The solver keeps a [`rand::rngs::StdRng`] and draws uniform numbers from it
//! through the wrappers below; everything done with a drawn number is verified
//! in the modules that call them.

use vstd::prelude::*;

verus! {

/// The pseudo-random generator type of the `rand` crate, opaque to the
/// verifier; the solver stores one and draws numbers from it.
#[verifier::external_type_specification]
#[verifier::external_body]
pub struct ExStdRng(rand::rngs::StdRng);

/// Relies on rand's `SeedableRng::seed_from_u64` for `StdRng`: builds a
/// generator from the given seed. Nothing is assumed about the values it will
/// produce.
#[verifier::external_body]
pub fn rng_from_seed(seed: u64) -> rand::rngs::StdRng {
    <rand::rngs::StdRng as rand::SeedableRng>::seed_from_u64(seed)
}

/// Relies on rand's `SeedableRng::from_entropy` for `StdRng`: builds a
/// generator seeded from the operating system. Nothing is assumed about the
/// values it will produce.
#[verifier::external_body]
pub fn rng_from_entropy() -> rand::rngs::StdRng {
    <rand::rngs::StdRng as rand::SeedableRng>::from_entropy()
}

/// Relies on rand's `Rng::gen_range` over the half-open range `0..n`: the
/// drawn number is below `n`. The range must not be empty, as `gen_range`
/// panics on an empty range.
#[verifier::external_body]
pub fn rand_below(rng: &mut rand::rngs::StdRng, n: u128) -> (r: u128)
    requires
        n > 0,
    ensures
        r < n,
{
    rand::Rng::gen_range(rng, 0..n)
}

} // verus!
