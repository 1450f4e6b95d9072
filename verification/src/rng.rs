use vstd::prelude::*;

use crate::fixed::SCALE;
use rand::RngExt;
use rand::SeedableRng;

verus! {

#[verifier::external_type_specification]
#[verifier::external_body]
pub struct ExStdRng(rand::rngs::StdRng);

/// A deterministic source of scaled random scalars.  The explicit seed makes
/// matrix randomization reproducible, so tests can control it.
pub struct RngSource {
    inner: rand::rngs::StdRng,
}

impl RngSource {
    /// Relies on rand's `StdRng::seed_from_u64`: a generator built
    /// deterministically from the seed.
    #[verifier::external_body]
    pub fn from_seed(seed: u64) -> RngSource {
        RngSource { inner: rand::rngs::StdRng::seed_from_u64(seed) }
    }

    /// Relies on rand's `RngExt::random_range` over `-SCALE..SCALE`: the
    /// sample lies in that half-open range, and the call panics only on an
    /// empty range, which this one is not.
    #[verifier::external_body]
    pub fn next_unit(&mut self) -> (r: i64)
        ensures
            -(SCALE as int) <= r < SCALE as int,
    {
        self.inner.random_range(-SCALE..SCALE)
    }
}

} // verus!
