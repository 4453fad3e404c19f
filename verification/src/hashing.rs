//! Key fingerprinting and shard routing.
//!
//! Any stable 64-bit hasher suffices for the containers in this crate; the
//! one here is a seeded xorshift-style mixer whose behaviour is fully
//! captured by a specification function, so that routing a key to a shard
//! is deterministic for a given builder and provable.

use vstd::prelude::*;

verus! {

/// The 64-bit fingerprint of `key` under a builder seeded with `seed`:
/// an xorshift scramble of `seed ^ key`.
pub open spec fn spec_mix64(seed: u64, key: u64) -> u64 {
    let x0 = seed ^ key;
    let x1 = x0 ^ (x0 << 13);
    let x2 = x1 ^ (x1 >> 7);
    x2 ^ (x2 << 17)
}

/// Builds key fingerprints. Two builders with the same seed hash alike;
/// a container derives both its shard routing and its intra-shard lookups
/// from one fingerprint per key.
#[derive(Clone, Copy)]
pub struct HashBuilder {
    pub seed: u64,
}

impl HashBuilder {
    /// A builder with a caller-chosen seed (useful for reproducible layouts).
    pub fn with_seed(seed: u64) -> (r: HashBuilder)
        ensures
            r.seed == seed,
    {
        HashBuilder { seed }
    }

    /// A builder with a fresh random seed.
    pub fn random() -> HashBuilder {
        HashBuilder { seed: crate::rng::random_seed() }
    }

    /// The fingerprint of `key` under this builder.
    pub fn hash_one(&self, key: u64) -> (r: u64)
        ensures
            r == spec_mix64(self.seed, key),
    {
        let x0: u64 = self.seed ^ key;
        let x1: u64 = x0 ^ (x0 << 13u64);
        let x2: u64 = x1 ^ (x1 >> 7u64);
        x2 ^ (x2 << 17u64)
    }
}

/// Shard routing: a fingerprint is mapped to a shard by reduction modulo
/// the shard count. Power-of-two masking is deliberately not assumed.
pub fn shard_index_of(hash: u64, num_shards: usize) -> (r: usize)
    requires
        num_shards >= 1,
    ensures
        r == hash as usize % num_shards,
        r < num_shards,
{
    (hash as usize) % num_shards
}

} // verus!
