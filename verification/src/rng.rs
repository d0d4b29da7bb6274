//! Source of uniform random scalars.
//!
//! The sampling helpers of the crate draw from a [`RandomSource`], an
//! explicitly passed generator (no hidden process-wide state), so a render can
//! be reproduced by reusing a seed.  The generator itself comes from the
//! `rand` crate and is trusted; everything that consumes its draws is verified
//! for every value the contracts below allow.

use rand::rngs::StdRng;
use vstd::prelude::*;

verus! {

#[verifier::external_type_specification]
#[verifier::external_body]
pub struct ExStdRng(StdRng);

/// A seeded stream of uniform random integers.
pub struct RandomSource {
    inner: StdRng,
}

impl RandomSource {
    /// Relies on rand_core::SeedableRng::seed_from_u64: builds a generator
    /// from a 64-bit seed; it never panics.
    #[verifier::external_body]
    pub fn new(seed: u64) -> (r: RandomSource) {
        RandomSource { inner: <StdRng as rand::SeedableRng>::seed_from_u64(seed) }
    }

    /// Relies on rand::RngExt::random_range on `lo..hi`: returns a uniform
    /// value of the half-open range, and panics only when the range is empty.
    #[verifier::external_body]
    pub fn next_in(&mut self, lo: i64, hi: i64) -> (r: i64)
        requires
            lo < hi,
        ensures
            lo <= r < hi,
    {
        rand::RngExt::random_range(&mut self.inner, lo..hi)
    }
}

} // verus!
