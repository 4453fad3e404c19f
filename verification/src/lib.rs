//! An in-memory key–value map partitioned into independently updatable
//! shards, with an indexed-shard representation that supports O(1)
//! swap-removal by slot and an approximate-LRU eviction engine based on
//! two-choice sampling over per-entry timestamps.

use vstd::prelude::*;

pub mod clock;
pub mod hashing;
pub mod lru;
pub mod map;
pub mod rng;
pub mod shard;

pub use clock::{AtomicInstant, AtomicTimestamp};
pub use hashing::HashBuilder;
pub use lru::{Evict, LruCache, TimestampedValue};
pub use map::{BatchOp, CHashMap};
pub use rng::RandomSource;
pub use shard::{Bucket, IndexedShard};

verus! {

/// Marker trait satisfied by every type; used by callers that want to hold a
/// value whose concrete type is irrelevant.
pub trait Erased {}

impl<T> Erased for T {

}

/// Relies on num_cpus's `get`: the number of logical CPUs available to
/// the process, documented to be at least 1. Used to pick the default
/// shard count.
#[verifier::external_body]
pub fn cpu_count() -> (r: usize)
    ensures
        r >= 1,
{
    num_cpus::get()
}

} // verus!
