//! Randomness for the eviction engine and hasher seeding.
//!
//! All draws go through [`RandomSource`], a thin owned wrapper around a
//! pseudo-random generator from the `rand` crate. Nothing is assumed about
//! the distribution of the values, only the ranges that the `rand`
//! documentation promises; every algorithm in this crate is verified for
//! every value the source can return.

use rand::seq::SliceRandom;
use rand::Rng;
use rand::SeedableRng;
use vstd::prelude::*;

verus! {

#[verifier::external_type_specification]
#[verifier::external_body]
pub struct ExStdRng(rand::rngs::StdRng);

/// An owned pseudo-random generator used for victim sampling and shard
/// shuffling.
pub struct RandomSource {
    inner: rand::rngs::StdRng,
}

impl RandomSource {
    /// Relies on rand's `StdRng::from_entropy`: a generator seeded from the
    /// operating system's entropy source.
    #[verifier::external_body]
    pub fn from_entropy() -> RandomSource {
        RandomSource { inner: rand::rngs::StdRng::from_entropy() }
    }

    /// Relies on rand's `SeedableRng::seed_from_u64`: a deterministic
    /// generator derived from the given seed.
    #[verifier::external_body]
    pub fn from_seed(seed: u64) -> RandomSource {
        RandomSource { inner: rand::rngs::StdRng::seed_from_u64(seed) }
    }

    /// Relies on rand's `Rng::gen_range` over the half-open range
    /// `0..bound`: the result lies in that range, and the call panics only
    /// when the range is empty, which the precondition rules out.
    #[verifier::external_body]
    pub fn below(&mut self, bound: usize) -> (r: usize)
        requires
            bound >= 1,
        ensures
            r < bound,
    {
        self.inner.gen_range(0..bound)
    }

    /// Relies on rand's `SliceRandom::shuffle`: the slice is permuted in
    /// place, so the elements afterwards are the same multiset as before.
    #[verifier::external_body]
    pub fn shuffle(&mut self, items: &mut Vec<usize>)
        ensures
            final(items)@.to_multiset() == old(items)@.to_multiset(),
            final(items)@.len() == old(items)@.len(),
    {
        items.shuffle(&mut self.inner)
    }
}

/// Relies on rand's `random::<u64>`: a fresh value from the thread-local
/// generator, used to seed hash builders. Nothing is assumed of the value.
#[verifier::external_body]
pub fn random_seed() -> u64 {
    rand::random()
}

} // verus!
