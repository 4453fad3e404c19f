//! The LRU variant of the sharded map: values carry a 64-bit stamp that
//! is refreshed on every `get`, and an eviction engine removes entries
//! chosen by two-choice sampling over the stamps.
//!
//! Stamps come from a per-container monotonic clock: every reading from
//! the time source is clamped against the container's last stamp, so the
//! stamps stored are provably non-decreasing in touch order whatever the
//! time source returns.

use crate::clock;
use crate::hashing::{shard_index_of, spec_mix64, HashBuilder};
use crate::map::{
    lemma_container_value_update, lemma_route_hash_ok, lemma_sum_lens_bound,
    lemma_sum_lens_nonzero, lemma_sum_lens_pair, lemma_sum_lens_push, lemma_sum_lens_update,
    lemma_sum_lens_zero, lemma_view_insert, lemma_view_lookup, lemma_view_remove, map_view,
    route_of, shards_coherent, shards_wf, sum_lens,
};
use crate::rng::RandomSource;
use crate::shard::{holds_key, IndexedShard};
use vstd::pervasive::VecAdditionalExecFns;
use vstd::prelude::*;

verus! {

/// A stored value bundled with the stamp of its last touch.
#[derive(Clone, Copy)]
pub struct TimestampedValue<V> {
    pub value: V,
    pub timestamp: u64,
}

/// Decision returned by an eviction predicate for the candidate it was
/// shown.
#[derive(Debug, Clone, Copy)]
pub enum Evict {
    /// Evict this candidate and keep sampling.
    Continue,
    /// Evict this candidate and stop.
    Once,
    /// Do not evict this candidate and stop.
    Halt,
}

/// The user-facing association of a timestamped map: each key to its
/// stored value.
pub open spec fn values_of<V>(m: Map<u64, TimestampedValue<V>>) -> Map<u64, V> {
    Map::new(|k: u64| m.contains_key(k), |k: u64| m[k].value)
}

/// The stamp of each stored key.
pub open spec fn stamps_of<V>(m: Map<u64, TimestampedValue<V>>) -> Map<u64, u64> {
    Map::new(|k: u64| m.contains_key(k), |k: u64| m[k].timestamp)
}

/// Inserting a timestamped binding inserts its value and its stamp in the
/// two projections.
pub proof fn lemma_projections_insert<V>(m: Map<u64, TimestampedValue<V>>, k: u64)
    ensures
        forall|tv: TimestampedValue<V>|
            values_of(#[trigger] m.insert(k, tv)) == values_of(m).insert(k, tv.value)
                && stamps_of(m.insert(k, tv)) == stamps_of(m).insert(k, tv.timestamp),
{
    assert forall|tv: TimestampedValue<V>|
        values_of(#[trigger] m.insert(k, tv)) == values_of(m).insert(k, tv.value) && stamps_of(
            m.insert(k, tv),
        ) == stamps_of(m).insert(k, tv.timestamp) by {
        assert(values_of(m.insert(k, tv)) =~= values_of(m).insert(k, tv.value));
        assert(stamps_of(m.insert(k, tv)) =~= stamps_of(m).insert(k, tv.timestamp));
    }
}

/// Removing a timestamped binding removes its key from both projections.
pub proof fn lemma_projections_remove<V>(m: Map<u64, TimestampedValue<V>>, k: u64)
    ensures
        values_of(m.remove(k)) == values_of(m).remove(k),
        stamps_of(m.remove(k)) == stamps_of(m).remove(k),
{
    assert(values_of(m.remove(k)) =~= values_of(m).remove(k));
    assert(stamps_of(m.remove(k)) =~= stamps_of(m).remove(k));
}

/// Re-inserting a key's current binding changes nothing.
pub proof fn lemma_insert_existing<K, V>(m: Map<K, V>)
    ensures
        forall|k: K| #[trigger] m.contains_key(k) ==> m.insert(k, m[k]) == m,
{
    assert forall|k: K| #[trigger] m.contains_key(k) implies m.insert(k, m[k]) == m by {
        assert(m.insert(k, m[k]) =~= m);
    }
}

/// The stamp bound is preserved by an operation on one shard whose
/// surviving bindings kept their values, except possibly a binding at one
/// key whose new stamp is itself within the bound.
pub proof fn lemma_stamps_preserved<V>(
    pre: Seq<IndexedShard<TimestampedValue<V>>>,
    post: Seq<IndexedShard<TimestampedValue<V>>>,
    s: int,
    key: u64,
    b1: u64,
    b2: u64,
)
    requires
        post.len() == pre.len(),
        0 <= s < pre.len(),
        forall|t: int| 0 <= t < post.len() && t != s ==> post[t] == pre[t],
        forall|t: int, w: int|
            0 <= t < pre.len() && 0 <= w < pre[t].entries@.len() ==> (
            #[trigger] pre[t].entries@[w]).value.timestamp <= b1,
        b1 <= b2,
        pre[s].wf(),
        post[s].wf(),
        forall|k: u64|
            #[trigger] post[s]@.contains_key(k) ==> (pre[s]@.contains_key(k) && post[s]@[k]
                == pre[s]@[k]) || (k == key && post[s]@[k].timestamp <= b2),
    ensures
        forall|t: int, w: int|
            0 <= t < post.len() && 0 <= w < post[t].entries@.len() ==> (
            #[trigger] post[t].entries@[w]).value.timestamp <= b2,
{
    crate::shard::lemma_seq_to_map_props(pre[s].entries@);
    crate::shard::lemma_seq_to_map_props(post[s].entries@);
    assert forall|t: int, w: int|
        0 <= t < post.len() && 0 <= w < post[t].entries@.len() implies (
    #[trigger] post[t].entries@[w]).value.timestamp <= b2 by {
        if t == s {
            let b = post[s].entries@[w];
            assert(post[s]@.contains_key(b.key) && post[s]@[b.key] == b.value);
            if pre[s]@.contains_key(b.key) && post[s]@[b.key] == pre[s]@[b.key] {
                let j = choose|j: int|
                    0 <= j < pre[s].entries@.len() && (#[trigger] pre[s].entries@[j]).key == b.key;
                assert(pre[s].entries@[j].value == b.value);
            } else {
                assert(b.key == key && post[s]@[b.key].timestamp <= b2);
            }
        } else {
            assert(post[t] == pre[t]);
        }
    }
}

/// The sharded LRU cache. The shard layout is that of the plain sharded
/// map with timestamped values; in addition each shard's length is cached
/// beside it, so the eviction engine can enumerate non-empty shards
/// without touching them, and a per-container clock bounds every stamp.
pub struct LruCache<V> {
    pub hash_builder: HashBuilder,
    pub shards: Vec<IndexedShard<TimestampedValue<V>>>,
    pub shard_sizes: Vec<usize>,
    pub size: usize,
    pub clock: u64,
    pub epoch: quanta::Instant,
}

impl<V> View for LruCache<V> {
    type V = Map<u64, V>;

    open spec fn view(&self) -> Map<u64, V> {
        values_of(self.tv_map())
    }
}

impl<V> LruCache<V> {
    /// The underlying association from keys to timestamped values.
    pub open spec fn tv_map(self) -> Map<u64, TimestampedValue<V>> {
        map_view(self.hash_builder, self.shards@)
    }

    /// The stamp each stored key was last touched at.
    pub open spec fn stamps(self) -> Map<u64, u64> {
        stamps_of(self.tv_map())
    }

    /// The number of shards.
    pub open spec fn spec_num_shards(self) -> nat {
        self.shards@.len()
    }

    /// The number of entries: the sum of the shard lengths.
    pub open spec fn spec_size(self) -> nat {
        sum_lens(self.shards@)
    }

    /// The shard `key` routes to.
    pub open spec fn spec_route(self, key: u64) -> int {
        route_of(self.hash_builder, self.shards@.len() as int, key)
    }

    /// Well-formedness: the sharded-map invariants, the cached per-shard
    /// lengths accurate, and every stamp bounded by the clock.
    pub open spec fn wf(self) -> bool {
        &&& self.shards@.len() >= 1
        &&& shards_wf(self.shards@)
        &&& shards_coherent(self.hash_builder, self.shards@)
        &&& self.size == sum_lens(self.shards@)
        &&& self.shard_sizes@.len() == self.shards@.len()
        &&& forall|t: int|
            0 <= t < self.shards@.len() ==> (#[trigger] self.shard_sizes@[t])
                == self.shards@[t].spec_len()
        &&& forall|t: int, w: int|
            0 <= t < self.shards@.len() && 0 <= w < self.shards@[t].entries@.len() ==> (
            #[trigger] self.shards@[t].entries@[w]).value.timestamp <= self.clock
    }

    /// A reading of the container clock, strictly above every stamp
    /// handed out before (until the 64-bit space is exhausted, where it
    /// saturates). The raw time source feeds it, but monotonicity is
    /// enforced by clamping, not assumed.
    fn next_stamp(&mut self) -> (r: u64)
        ensures
            final(self).clock == r,
            r >= old(self).clock,
            final(self).hash_builder == old(self).hash_builder,
            final(self).shards == old(self).shards,
            final(self).shard_sizes == old(self).shard_sizes,
            final(self).size == old(self).size,
            final(self).epoch == old(self).epoch,
    {
        let t = clock::ticks_since(&self.epoch);
        let s = if t > self.clock {
            t
        } else if self.clock < u64::MAX {
            self.clock + 1
        } else {
            self.clock
        };
        self.clock = s;
        s
    }

    /// An empty cache with the given shard count and hash builder.
    pub fn with_hasher(num_shards: usize, hash_builder: HashBuilder) -> (r: Self)
        requires
            num_shards >= 1,
        ensures
            r.wf(),
            r@ == Map::<u64, V>::empty(),
            r.spec_size() == 0,
            r.spec_num_shards() == num_shards,
            r.hash_builder == hash_builder,
    {
        let mut shards: Vec<IndexedShard<TimestampedValue<V>>> = Vec::new();
        let mut shard_sizes: Vec<usize> = Vec::new();
        while shards.len() < num_shards
            invariant
                shards@.len() <= num_shards,
                shard_sizes@.len() == shards@.len(),
                shards_wf(shards@),
                sum_lens(shards@) == 0,
                forall|s: int| 0 <= s < shards@.len() ==> (#[trigger] shards@[s]).spec_len() == 0,
                forall|s: int| 0 <= s < shard_sizes@.len() ==> (#[trigger] shard_sizes@[s]) == 0,
            decreases num_shards - shards@.len(),
        {
            let sh = IndexedShard::<TimestampedValue<V>>::new();
            proof {
                lemma_sum_lens_push(shards@, sh);
            }
            shards.push(sh);
            shard_sizes.push(0);
        }
        let r = LruCache {
            hash_builder,
            shards,
            shard_sizes,
            size: 0,
            clock: 0,
            epoch: clock::clock_now(),
        };
        proof {
            assert forall|k: u64| !(#[trigger] r.tv_map().contains_key(k)) by {
                let s = route_of(hash_builder, r.shards@.len() as int, k);
                assert(r.shards@[s].spec_len() == 0);
            }
            assert(r@ =~= Map::<u64, V>::empty());
        }
        r
    }

    /// An empty cache with the given shard count and a fresh random
    /// hasher.
    pub fn new(num_shards: usize) -> (r: Self)
        requires
            num_shards >= 1,
        ensures
            r.wf(),
            r@ == Map::<u64, V>::empty(),
            r.spec_size() == 0,
            r.spec_num_shards() == num_shards,
    {
        Self::with_hasher(num_shards, HashBuilder::random())
    }

    /// The hash builder all fingerprints are derived from.
    pub fn hash_builder(&self) -> (r: &HashBuilder)
        ensures
            *r == self.hash_builder,
    {
        &self.hash_builder
    }

    /// The number of shards.
    pub fn num_shards(&self) -> (r: usize)
        ensures
            r == self.spec_num_shards(),
    {
        self.shards.len()
    }

    /// The number of entries. Equal to the sum of the per-shard lengths.
    pub fn size(&self) -> (r: usize)
        requires
            self.wf(),
        ensures
            r == self.spec_size(),
            r == sum_lens(self.shards@),
    {
        self.size
    }

    /// The key's fingerprint and the shard it routes to.
    fn hash_and_shard(&self, key: u64) -> (r: (u64, usize))
        requires
            self.shards@.len() >= 1,
        ensures
            r.0 == spec_mix64(self.hash_builder.seed, key),
            r.1 as int == self.spec_route(key),
            r.1 < self.shards@.len(),
    {
        let hash = self.hash_builder.hash_one(key);
        let s = shard_index_of(hash, self.shards.len());
        (hash, s)
    }

    /// Store `value` under `key` with a fresh stamp, returning the value
    /// previously stored there, if any.
    pub fn insert(&mut self, key: u64, value: V) -> (r: Option<V>)
        requires
            old(self).wf(),
            old(self).spec_size() < usize::MAX,
        ensures
            final(self).wf(),
            final(self)@ == old(self)@.insert(key, value),
            final(self).stamps() == old(self).stamps().insert(key, final(self).clock),
            final(self).clock >= old(self).clock,
            final(self).spec_num_shards() == old(self).spec_num_shards(),
            final(self).hash_builder == old(self).hash_builder,
            match r {
                Some(v) => old(self)@.contains_key(key) && v == old(self)@[key]
                    && final(self).spec_size() == old(self).spec_size(),
                None => !old(self)@.contains_key(key)
                    && final(self).spec_size() == old(self).spec_size() + 1,
            },
    {
        let stamp = self.next_stamp();
        let (hash, s) = self.hash_and_shard(key);
        let ghost shards0 = self.shards@;
        let tv = TimestampedValue { value, timestamp: stamp };
        proof {
            lemma_route_hash_ok(self.hash_builder, shards0, key);
            lemma_view_insert(self.hash_builder, shards0, s as int, key, tv);
            lemma_view_lookup(self.hash_builder, shards0, key);
            lemma_projections_insert(old(self).tv_map(), key);
            crate::shard::lemma_seq_to_map_props(shards0[s as int].entries@);
        }
        let shard = &mut self.shards[s];
        let (_slot, prev) = shard.insert_full(hash, key, tv);
        proof {
            lemma_sum_lens_update(shards0, s as int, self.shards@[s as int]);
            crate::shard::lemma_seq_to_map_props(self.shards@[s as int].entries@);
            crate::map::lemma_coherence_preserved(self.hash_builder, shards0, self.shards@, s as int, hash, key);
            lemma_stamps_preserved(shards0, self.shards@, s as int, key, old(self).clock, self.clock);
        }
        match prev {
            Some(old_tv) => {
                let grown = self.shards[s].len();
                self.shard_sizes.set(s, grown);
                Some(old_tv.value)
            },
            None => {
                self.size = self.size + 1;
                let grown = self.shards[s].len();
                self.shard_sizes.set(s, grown);
                None
            },
        }
    }

    /// Remove the binding for `key`, returning the stored value on a hit.
    pub fn remove(&mut self, key: u64) -> (r: Option<V>)
        requires
            old(self).wf(),
        ensures
            final(self).wf(),
            final(self)@ == old(self)@.remove(key),
            final(self).stamps() == old(self).stamps().remove(key),
            final(self).clock == old(self).clock,
            final(self).spec_num_shards() == old(self).spec_num_shards(),
            final(self).hash_builder == old(self).hash_builder,
            match r {
                Some(v) => old(self)@.contains_key(key) && v == old(self)@[key]
                    && final(self).spec_size() == old(self).spec_size() - 1,
                None => !old(self)@.contains_key(key) && final(self)@ == old(self)@
                    && final(self).spec_size() == old(self).spec_size(),
            },
    {
        let (hash, s) = self.hash_and_shard(key);
        let ghost shards0 = self.shards@;
        proof {
            lemma_route_hash_ok(self.hash_builder, shards0, key);
            lemma_view_remove(self.hash_builder, shards0, s as int, key);
            lemma_view_lookup(self.hash_builder, shards0, key);
            lemma_projections_remove(old(self).tv_map(), key);
            crate::shard::lemma_seq_to_map_props(shards0[s as int].entries@);
            lemma_sum_lens_bound(shards0, s as int);
        }
        let shard = &mut self.shards[s];
        let removed = shard.swap_remove_full(hash, key);
        match removed {
            Some(kv) => {
                proof {
                    lemma_sum_lens_update(shards0, s as int, self.shards@[s as int]);
                    crate::shard::lemma_seq_to_map_props(self.shards@[s as int].entries@);
                    crate::map::lemma_coherence_shrunk(self.hash_builder, shards0, self.shards@, s as int);
                    lemma_stamps_preserved(shards0, self.shards@, s as int, key, self.clock, self.clock);
                }
                self.size = self.size - 1;
                let shrunk = self.shards[s].len();
                self.shard_sizes.set(s, shrunk);
                Some(kv.1.value)
            },
            None => {
                proof {
                    assert(self.shards@ =~= shards0);
                    assert(old(self).tv_map().remove(key) =~= old(self).tv_map());
                    assert(old(self)@.remove(key) =~= old(self)@);
                    assert(old(self).stamps().remove(key) =~= old(self).stamps());
                }
                None
            },
        }
    }
    /// Borrow the value stored under `key` without refreshing its stamp.
    pub fn peek(&self, key: u64) -> (r: Option<&V>)
        requires
            self.wf(),
        ensures
            match r {
                Some(v) => self@.contains_key(key) && *v == self@[key],
                None => !self@.contains_key(key),
            },
    {
        let (hash, s) = self.hash_and_shard(key);
        proof {
            lemma_route_hash_ok(self.hash_builder, self.shards@, key);
            lemma_view_lookup(self.hash_builder, self.shards@, key);
        }
        match self.shards[s].get(hash, key) {
            Some(tv) => Some(&tv.value),
            None => None,
        }
    }

    /// Mutable access to the value stored under `key`, without refreshing
    /// its stamp.
    pub fn peek_mut(&mut self, key: u64) -> (r: Option<&mut V>)
        requires
            old(self).wf(),
        ensures
            final(self).wf(),
            final(self).spec_num_shards() == old(self).spec_num_shards(),
            final(self).hash_builder == old(self).hash_builder,
            final(self).spec_size() == old(self).spec_size(),
            final(self).clock == old(self).clock,
            match r {
                Some(v) => old(self)@.contains_key(key) && *v == old(self)@[key]
                    && final(self)@ == old(self)@.insert(key, *final(v))
                    && final(self).stamps() == old(self).stamps(),
                None => !old(self)@.contains_key(key) && *final(self) == *old(self),
            },
    {
        let (hash, s) = self.hash_and_shard(key);
        let ghost shards0 = self.shards@;
        proof {
            lemma_route_hash_ok(self.hash_builder, shards0, key);
            lemma_view_lookup(self.hash_builder, shards0, key);
            crate::shard::lemma_seq_to_map_props(shards0[s as int].entries@);
        }
        let slot_opt = self.shards[s].get_index_of(hash, key);
        match slot_opt {
            Some(slot) => {
                proof {
                    lemma_container_value_update(self.hash_builder, shards0, s as int, slot as int);
                    lemma_projections_insert(old(self).tv_map(), key);
                    lemma_insert_existing(old(self).stamps());
                }
                let shard = &mut self.shards[s];
                let tv = shard.value_at_mut(slot);
                Some(&mut tv.value)
            },
            None => {
                proof {
                    if self@.contains_key(key) {
                        let w = choose|w: int|
                            0 <= w < shards0[s as int].entries@.len() && (#[trigger] shards0[
                                s as int].entries@[w]).key == key;
                        assert(shards0[s as int].entries@[w].hash == hash);
                        assert(false);
                    }
                }
                None
            },
        }
    }

    /// Borrow the value stored under `key`, refreshing its stamp to a
    /// fresh reading: after a hit the touched entry carries the
    /// container's newest stamp.
    pub fn get(&mut self, key: u64) -> (r: Option<&V>)
        requires
            old(self).wf(),
        ensures
            final(self).wf(),
            final(self)@ == old(self)@,
            final(self).clock >= old(self).clock,
            final(self).spec_num_shards() == old(self).spec_num_shards(),
            final(self).hash_builder == old(self).hash_builder,
            final(self).spec_size() == old(self).spec_size(),
            match r {
                Some(v) => old(self)@.contains_key(key) && *v == old(self)@[key]
                    && final(self).stamps() == old(self).stamps().insert(key, final(self).clock),
                None => !old(self)@.contains_key(key) && *final(self) == *old(self),
            },
    {
        let (hash, s) = self.hash_and_shard(key);
        let ghost shards0 = self.shards@;
        proof {
            lemma_route_hash_ok(self.hash_builder, shards0, key);
            lemma_view_lookup(self.hash_builder, shards0, key);
            crate::shard::lemma_seq_to_map_props(shards0[s as int].entries@);
        }
        let slot_opt = self.shards[s].get_index_of(hash, key);
        match slot_opt {
            Some(slot) => {
                let stamp = self.next_stamp();
                proof {
                    lemma_container_value_update(self.hash_builder, self.shards@, s as int, slot as int);
                    lemma_projections_insert(old(self).tv_map(), key);
                    lemma_insert_existing(old(self)@);
                }
                let shard = &mut self.shards[s];
                let tv = shard.value_at_mut(slot);
                tv.timestamp = stamp;
                Some(&tv.value)
            },
            None => {
                proof {
                    if self@.contains_key(key) {
                        let w = choose|w: int|
                            0 <= w < shards0[s as int].entries@.len() && (#[trigger] shards0[
                                s as int].entries@[w]).key == key;
                        assert(shards0[s as int].entries@[w].hash == hash);
                        assert(false);
                    }
                }
                None
            },
        }
    }

    /// Mutable access to the value stored under `key`, refreshing its
    /// stamp to a fresh reading.
    pub fn get_mut(&mut self, key: u64) -> (r: Option<&mut V>)
        requires
            old(self).wf(),
        ensures
            final(self).wf(),
            final(self).clock >= old(self).clock,
            final(self).spec_num_shards() == old(self).spec_num_shards(),
            final(self).hash_builder == old(self).hash_builder,
            final(self).spec_size() == old(self).spec_size(),
            match r {
                Some(v) => old(self)@.contains_key(key) && *v == old(self)@[key]
                    && final(self)@ == old(self)@.insert(key, *final(v))
                    && final(self).stamps() == old(self).stamps().insert(key, final(self).clock),
                None => !old(self)@.contains_key(key) && *final(self) == *old(self),
            },
    {
        let (hash, s) = self.hash_and_shard(key);
        let ghost shards0 = self.shards@;
        proof {
            lemma_route_hash_ok(self.hash_builder, shards0, key);
            lemma_view_lookup(self.hash_builder, shards0, key);
            crate::shard::lemma_seq_to_map_props(shards0[s as int].entries@);
        }
        let slot_opt = self.shards[s].get_index_of(hash, key);
        match slot_opt {
            Some(slot) => {
                let stamp = self.next_stamp();
                proof {
                    lemma_container_value_update(self.hash_builder, self.shards@, s as int, slot as int);
                    lemma_projections_insert(old(self).tv_map(), key);
                }
                let shard = &mut self.shards[s];
                let tv = shard.value_at_mut(slot);
                tv.timestamp = stamp;
                Some(&mut tv.value)
            },
            None => {
                proof {
                    if self@.contains_key(key) {
                        let w = choose|w: int|
                            0 <= w < shards0[s as int].entries@.len() && (#[trigger] shards0[
                                s as int].entries@[w]).key == key;
                        assert(shards0[s as int].entries@[w].hash == hash);
                        assert(false);
                    }
                }
                None
            },
        }
    }

    /// The number of entries, recomputed by walking every shard; equal to
    /// what the size counter reports.
    pub fn test_size(&self) -> (r: usize)
        requires
            self.wf(),
        ensures
            r == self.spec_size(),
            r == self.size,
    {
        let n = self.shards.len();
        let mut acc: usize = 0;
        let mut t: usize = 0;
        while t < n
            invariant
                self.wf(),
                n == self.shards@.len(),
                t <= n,
                acc == sum_lens(self.shards@.subrange(0, t as int)),
            decreases n - t,
        {
            proof {
                crate::map::lemma_sum_lens_prefix(self.shards@, t + 1 as int);
                assert(self.shards@.subrange(0, t + 1 as int).drop_last() =~= self.shards@.subrange(
                    0,
                    t as int,
                ));
                assert(self.shards@.subrange(0, t + 1 as int).last() == self.shards@[t as int]);
            }
            acc = acc + self.shards[t].len();
            t += 1;
        }
        proof {
            assert(self.shards@.subrange(0, n as int) =~= self.shards@);
        }
        acc
    }
}

/// The set of keys appearing in a list of evicted pairs.
pub open spec fn keys_of<V>(s: Seq<(u64, V)>) -> Set<u64> {
    Set::new(|k: u64| holds_key(s, k))
}

/// The predicate could have approved the `w`-th eviction (answering
/// either "evict and continue" or "evict and stop").
pub open spec fn trial_approved<V, F: Fn(usize, u64, &V) -> Evict>(
    f: F,
    evicted: Seq<(u64, V)>,
    w: int,
) -> bool {
    call_ensures(f, (w as usize, evicted[w].0, &evicted[w].1), Evict::Continue) || call_ensures(
        f,
        (w as usize, evicted[w].0, &evicted[w].1),
        Evict::Once,
    )
}

/// The predicate could have answered "evict and continue" at the `w`-th
/// eviction.
pub open spec fn trial_continued<V, F: Fn(usize, u64, &V) -> Evict>(
    f: F,
    evicted: Seq<(u64, V)>,
    w: int,
) -> bool {
    call_ensures(f, (w as usize, evicted[w].0, &evicted[w].1), Evict::Continue)
}

/// The predicate could have vetoed some still-resident entry as the
/// `n`-th trial.
pub open spec fn halted_on_resident<V, F: Fn(usize, u64, &V) -> Evict>(
    f: F,
    n: int,
    m: Map<u64, V>,
) -> bool {
    exists|k: u64| (#[trigger] m.contains_key(k)) && call_ensures(f, (n as usize, k, &m[k]), Evict::Halt)
}

/// The running state of an eviction pass: the evicted pairs are distinct
/// keys drawn from the starting association with their values, the
/// current association is the start minus exactly those keys, and the
/// sizes add up.
pub open spec fn eviction_ok<V>(
    m0: Map<u64, V>,
    size0: nat,
    evicted: Seq<(u64, V)>,
    cur: LruCache<V>,
) -> bool {
    &&& cur@ == m0.remove_keys(keys_of(evicted))
    &&& cur.spec_size() + evicted.len() == size0
    &&& forall|a: int, b: int|
        0 <= a < b < evicted.len() ==> (#[trigger] evicted[a]).0 != (#[trigger] evicted[b]).0
    &&& forall|w: int|
        0 <= w < evicted.len() ==> m0.contains_key((#[trigger] evicted[w]).0) && m0[evicted[w].0]
            == evicted[w].1
}

/// One eviction extends the running state.
pub proof fn lemma_eviction_step<V>(
    m0: Map<u64, V>,
    size0: nat,
    evicted: Seq<(u64, V)>,
    pre: LruCache<V>,
    post: LruCache<V>,
    k: u64,
    v: V,
)
    requires
        eviction_ok(m0, size0, evicted, pre),
        pre@.contains_key(k),
        v == pre@[k],
        post@ == pre@.remove(k),
        post.spec_size() == pre.spec_size() - 1,
    ensures
        eviction_ok(m0, size0, evicted.push((k, v)), post),
{
    let e2 = evicted.push((k, v));
    assert(!keys_of(evicted).contains(k));
    assert(keys_of(e2) =~= keys_of(evicted).insert(k)) by {
        assert forall|k2: u64| #[trigger] holds_key(e2, k2) implies holds_key(evicted, k2) || k2
            == k by {
            let w = choose|w: int| 0 <= w < e2.len() && (#[trigger] e2[w]).0 == k2;
            if w < evicted.len() {
                assert(evicted[w].0 == k2);
            }
        }
        assert forall|k2: u64| holds_key(evicted, k2) implies #[trigger] holds_key(e2, k2) by {
            let w = choose|w: int| 0 <= w < evicted.len() && (#[trigger] evicted[w]).0 == k2;
            assert(e2[w].0 == k2);
        }
        assert(holds_key(e2, k)) by {
            assert(e2[e2.len() - 1].0 == k);
        }
    }
    assert(post@ =~= m0.remove_keys(keys_of(e2)));
    assert forall|a: int, b: int| 0 <= a < b < e2.len() implies (#[trigger] e2[a]).0 != (
    #[trigger] e2[b]).0 by {
        if b == e2.len() - 1 {
            assert(e2[a] == evicted[a]);
            if evicted[a].0 == k {
                assert(holds_key(evicted, k));
            }
        } else {
            assert(e2[a] == evicted[a] && e2[b] == evicted[b]);
        }
    }
}

impl<V> Default for LruCache<V> {
    /// An empty cache with one shard per logical CPU.
    fn default() -> (r: Self)
        ensures
            r.wf(),
            r@ == Map::<u64, V>::empty(),
            r.spec_size() == 0,
            r.spec_num_shards() >= 1,
    {
        LruCache::new(crate::cpu_count())
    }
}

/// Every stamp a well-formed cache stores is bounded by its clock.
pub proof fn lemma_stamps_bounded<V>(c: LruCache<V>)
    requires
        c.wf(),
    ensures
        forall|k: u64| #[trigger] c.stamps().contains_key(k) ==> c.stamps()[k] <= c.clock,
{
    assert forall|k: u64| #[trigger] c.stamps().contains_key(k) implies c.stamps()[k]
        <= c.clock by {
        let t = route_of(c.hash_builder, c.shards@.len() as int, k);
        crate::shard::lemma_seq_to_map_props(c.shards@[t].entries@);
        let w = choose|w: int|
            0 <= w < c.shards@[t].entries@.len() && (#[trigger] c.shards@[t].entries@[w]).key == k;
        assert(c.shards@[t].entries@[w].value.timestamp <= c.clock);
        assert(c.shards@[t]@[k] == c.shards@[t].entries@[w].value);
    }
}

/// Draw two slot numbers below `len`, distinct whenever `len` admits two:
/// for a single slot both draws name it, for two slots both are named,
/// and otherwise the second draw is offset from the first so the two
/// cannot coincide.
fn pick_indices(len: usize, rng: &mut RandomSource) -> (r: (usize, usize))
    requires
        len >= 1,
    ensures
        r.0 < len,
        r.1 < len,
        len >= 2 ==> r.0 != r.1,
        len == 1 ==> r == (0usize, 0usize),
        len == 2 ==> r == (0usize, 1usize),
{
    if len == 1 {
        (0, 0)
    } else if len == 2 {
        (0, 1)
    } else {
        let a = rng.below(len);
        let off = rng.below(len - 1);
        let b = if off < len - 1 - a {
            a + 1 + off
        } else {
            off - (len - 1 - a)
        };
        (a, b)
    }
}

impl<V> LruCache<V> {
    /// Evict the entry at `slot` of shard `s`: remove it, fix the size
    /// counter and the shard's cached length, and return its key and
    /// value.
    fn evict_at(&mut self, s: usize, slot: usize) -> (kv: (u64, V))
        requires
            old(self).wf(),
            s < old(self).shards@.len(),
            slot < old(self).shards@[s as int].entries@.len(),
        ensures
            final(self).wf(),
            old(self)@.contains_key(kv.0),
            kv.1 == old(self)@[kv.0],
            final(self)@ == old(self)@.remove(kv.0),
            final(self).spec_size() == old(self).spec_size() - 1,
            final(self).spec_num_shards() == old(self).spec_num_shards(),
            final(self).hash_builder == old(self).hash_builder,
            final(self).clock == old(self).clock,
            forall|t: int|
                0 <= t < old(self).shards@.len() && t != s ==> final(self).shards@[t] == old(
                    self,
                ).shards@[t],
            final(self).shards@[s as int].spec_len() == old(self).shards@[s as int].spec_len() - 1,
            kv.0 == old(self).shards@[s as int].entries@[slot as int].key,
            final(self).shards@[s as int].entries@ == crate::shard::removed_at(
                old(self).shards@[s as int].entries@,
                slot as int,
            ),
    {
        let ghost shards0 = self.shards@;
        let ghost key = shards0[s as int].entries@[slot as int].key;
        proof {
            assert(route_of(self.hash_builder, self.shards@.len() as int, key) == s as int);
            lemma_view_remove(self.hash_builder, shards0, s as int, key);
            lemma_view_lookup(self.hash_builder, shards0, key);
            lemma_projections_remove(old(self).tv_map(), key);
            crate::shard::lemma_seq_to_map_props(shards0[s as int].entries@);
            lemma_sum_lens_bound(shards0, s as int);
        }
        let shard = &mut self.shards[s];
        let (k, tv) = shard.swap_remove_at(slot);
        proof {
            lemma_sum_lens_update(shards0, s as int, self.shards@[s as int]);
            crate::shard::lemma_seq_to_map_props(self.shards@[s as int].entries@);
            crate::map::lemma_coherence_shrunk(self.hash_builder, shards0, self.shards@, s as int);
            lemma_stamps_preserved(shards0, self.shards@, s as int, key, self.clock, self.clock);
        }
        self.size = self.size - 1;
        let shrunk = self.shards[s].len();
        self.shard_sizes.set(s, shrunk);
        (k, tv.value)
    }

    /// The indices of the shards whose cached length is non-zero: each
    /// listed once, each non-empty, and every non-empty shard listed.
    fn non_empty_shards(&self) -> (r: Vec<usize>)
        requires
            self.wf(),
        ensures
            r@.no_duplicates(),
            forall|w: int|
                0 <= w < r@.len() ==> (#[trigger] r@[w]) < self.shards@.len()
                    && self.shards@[r@[w] as int].spec_len() > 0,
            forall|t: int|
                0 <= t < self.shards@.len() && self.shards@[t].spec_len() > 0 ==> r@.contains(
                    t as usize,
                ),
    {
        let n = self.shards.len();
        let mut out: Vec<usize> = Vec::new();
        let mut t: usize = 0;
        while t < n
            invariant
                self.wf(),
                n == self.shards@.len(),
                t <= n,
                forall|w: int| 0 <= w < out@.len() ==> (#[trigger] out@[w]) < t,
                out@.no_duplicates(),
                forall|w: int|
                    0 <= w < out@.len() ==> (#[trigger] out@[w]) < n
                        && self.shards@[out@[w] as int].spec_len() > 0,
                forall|t2: int|
                    0 <= t2 < t && self.shards@[t2].spec_len() > 0 ==> out@.contains(t2 as usize),
            decreases n - t,
        {
            if self.shard_sizes[t] > 0 {
                let ghost out0 = out@;
                out.push(t);
                proof {
                    assert forall|a: int, b: int|
                        0 <= a < b < out@.len() implies out@[a] != out@[b] by {
                        if b == out@.len() - 1 {
                            assert(out@[a] == out0[a]);
                        } else {
                            assert(out@[a] == out0[a] && out@[b] == out0[b]);
                        }
                    }
                    assert forall|t2: int|
                        0 <= t2 < t + 1 && self.shards@[t2].spec_len() > 0 implies out@.contains(
                        t2 as usize,
                    ) by {
                        if t2 == t as int {
                            assert(out@[out@.len() - 1] == t2 as usize);
                        } else {
                            let w = choose|w: int| 0 <= w < out0.len() && out0[w] == t2 as usize;
                            assert(out@[w] == t2 as usize);
                        }
                    }
                }
            }
            t += 1;
        }
        out
    }
}

impl<V> LruCache<V> {
    /// Evict entries until the predicate stops the pass or the cache
    /// empties, walking shards in a shuffled order and holding a window
    /// of at most two shards.
    ///
    /// Each step draws two distinct slots uniformly over the union of the
    /// windowed shards and presents the entry with the older stamp to the
    /// predicate, together with the number of entries already evicted in
    /// this pass. On `Continue` the candidate is evicted and the walk
    /// advances (the window slides one shard); on `Once` it is evicted
    /// and the pass ends; on `Halt` it is spared and the pass ends. When
    /// the shuffled snapshot runs out and entries remain, the snapshot is
    /// refreshed and reshuffled.
    pub fn evict<F: Fn(usize, u64, &V) -> Evict>(
        &mut self,
        rng: &mut RandomSource,
        predicate: F,
    ) -> (r: Vec<(u64, V)>)
        requires
            old(self).wf(),
            forall|n: usize, k: u64, v: &V| #[trigger] call_requires(predicate, (n, k, v)),
        ensures
            final(self).wf(),
            final(self).spec_num_shards() == old(self).spec_num_shards(),
            final(self).hash_builder == old(self).hash_builder,
            eviction_ok(old(self)@, old(self).spec_size(), r@, *final(self)),
            forall|w: int| 0 <= w < r@.len() ==> trial_approved(predicate, r@, w),
            forall|w: int| 0 <= w < r@.len() - 1 ==> trial_continued(predicate, r@, w),
            final(self).spec_size() == 0 || (r@.len() > 0 && call_ensures(
                predicate,
                ((r@.len() - 1) as usize, r@[r@.len() - 1].0, &r@[r@.len() - 1].1),
                Evict::Once,
            )) || halted_on_resident(predicate, r@.len() as int, final(self)@),
    {
        let ghost m0 = self@;
        let ghost size0 = self.spec_size();
        let mut evicted: Vec<(u64, V)> = Vec::new();
        let mut done = false;
        proof {
            assert(keys_of(evicted@) =~= Set::<u64>::empty());
            assert(self@ =~= m0.remove_keys(keys_of(evicted@)));
        }
        while !done && self.size > 0
            invariant
                self.wf(),
                self.spec_num_shards() == old(self).spec_num_shards(),
                self.hash_builder == old(self).hash_builder,
                forall|n2: usize, k: u64, v: &V| #[trigger] call_requires(predicate, (n2, k, v)),
                eviction_ok(m0, size0, evicted@, *self),
                m0 == old(self)@,
                size0 == old(self).spec_size(),
                forall|w: int| 0 <= w < evicted@.len() ==> trial_approved(predicate, evicted@, w),
                !done ==> forall|w: int|
                    0 <= w < evicted@.len() ==> trial_continued(predicate, evicted@, w),
                done ==> ((evicted@.len() > 0 && call_ensures(
                    predicate,
                    (
                        (evicted@.len() - 1) as usize,
                        evicted@[evicted@.len() - 1].0,
                        &evicted@[evicted@.len() - 1].1,
                    ),
                    Evict::Once,
                ) && (forall|w: int|
                    0 <= w < evicted@.len() - 1 ==> trial_continued(predicate, evicted@, w)))
                    || (halted_on_resident(predicate, evicted@.len() as int, self@) && (
                    forall|w: int|
                        0 <= w < evicted@.len() ==> trial_continued(predicate, evicted@, w)))),
            decreases self.spec_size(), (if done {
                0int
            } else {
                1int
            }),
        {
            let ghost size_start = self.spec_size();
            let mut non_empty = self.non_empty_shards();
            let ghost ne0 = non_empty@;
            rng.shuffle(&mut non_empty);
            proof {
                broadcast use vstd::seq_lib::group_to_multiset_ensures;

                ne0.lemma_multiset_has_no_duplicates();
                assert forall|w: int| 0 <= w < non_empty@.len() implies (
                #[trigger] non_empty@[w]) < self.shards@.len() && self.shards@[non_empty@[
                    w] as int].spec_len() > 0 by {
                    let x = non_empty@[w];
                    assert(non_empty@.contains(x));
                    assert(ne0.to_multiset().count(x) > 0);
                    assert(ne0.contains(x));
                    let w0 = choose|w0: int| 0 <= w0 < ne0.len() && ne0[w0] == x;
                    assert(ne0[w0] < self.shards@.len());
                }
                assert(forall|x: usize|
                    non_empty@.to_multiset().contains(x)
                        ==> non_empty@.to_multiset().count(x) == 1);
                non_empty@.lemma_multiset_has_no_duplicates_conv();
                lemma_sum_lens_nonzero(self.shards@);
                let t = choose|t: int|
                    0 <= t < self.shards@.len() && (#[trigger] self.shards@[t]).spec_len() > 0;
                assert(ne0.contains(t as usize));
                assert(ne0.len() > 0);
            }
            let ghost ne_pre = non_empty@;
            let mut cur: usize = match non_empty.pop() {
                Some(c) => c,
                None => {
                    proof {
                        assert(false);
                    }
                    vstd::pervasive::unreached()
                },
            };
            proof {
                assert forall|w: int| 0 <= w < non_empty@.len() implies (
                #[trigger] non_empty@[w]) != cur by {
                    assert(non_empty@[w] == ne_pre[w]);
                    assert(ne_pre[w] != ne_pre[ne_pre.len() - 1]);
                }
            }
            let mut walk_done = false;
            while !done && !walk_done
                invariant
                    self.wf(),
                    self.spec_num_shards() == old(self).spec_num_shards(),
                    self.hash_builder == old(self).hash_builder,
                    forall|n2: usize, k: u64, v: &V| #[trigger] call_requires(
                        predicate,
                        (n2, k, v),
                    ),
                    eviction_ok(m0, size0, evicted@, *self),
                    forall|w: int|
                        0 <= w < evicted@.len() ==> trial_approved(predicate, evicted@, w),
                    !done ==> forall|w: int|
                        0 <= w < evicted@.len() ==> trial_continued(predicate, evicted@, w),
                    done ==> ((evicted@.len() > 0 && call_ensures(
                        predicate,
                        (
                            (evicted@.len() - 1) as usize,
                            evicted@[evicted@.len() - 1].0,
                            &evicted@[evicted@.len() - 1].1,
                        ),
                        Evict::Once,
                    ) && (forall|w: int|
                        0 <= w < evicted@.len() - 1 ==> trial_continued(predicate, evicted@, w)))
                        || (halted_on_resident(predicate, evicted@.len() as int, self@) && (
                        forall|w: int|
                            0 <= w < evicted@.len() ==> trial_continued(predicate, evicted@, w)))),
                    self.spec_size() <= size_start,
                    (walk_done || done) ==> (done || self.spec_size() < size_start),
                    cur < self.shards@.len(),
                    !walk_done && !done ==> self.shards@[cur as int].spec_len() > 0,
                    non_empty@.no_duplicates(),
                    forall|w: int|
                        0 <= w < non_empty@.len() ==> (#[trigger] non_empty@[w])
                            < self.shards@.len() && self.shards@[non_empty@[w] as int].spec_len()
                            > 0 && non_empty@[w] != cur,
                decreases self.spec_size(), (if done || walk_done {
                    0int
                } else {
                    1int
                }),
            {
                let ghost ne_at = non_empty@;
                // choose the trial entry: pop a second shard if one is
                // left and sample over the pair, else sample within `cur`
                let popped = non_empty.pop();
                let (tgt, idx) = match popped {
                    None => {
                        let len_a = self.shards[cur].len();
                        let (i1, i2) = pick_indices(len_a, rng);
                        let ts1 = self.shards[cur].entries[i1].value.timestamp;
                        let ts2 = self.shards[cur].entries[i2].value.timestamp;
                        if ts1 < ts2 {
                            (cur, i1)
                        } else {
                            (cur, i2)
                        }
                    },
                    Some(nxt) => {
                        proof {
                            assert forall|w: int| 0 <= w < non_empty@.len() implies (
                            #[trigger] non_empty@[w]) != nxt by {
                                assert(non_empty@[w] == ne_at[w]);
                                assert(ne_at[w] != ne_at[ne_at.len() - 1]);
                            }
                            lemma_sum_lens_pair(self.shards@, cur as int, nxt as int);
                        }
                        let len_a = self.shards[cur].len();
                        let len_b = self.shards[nxt].len();
                        let total = len_a + len_b;
                        let (c1, c2) = pick_indices(total, rng);
                        let (sh1, sl1) = if c1 < len_a {
                            (cur, c1)
                        } else {
                            (nxt, c1 - len_a)
                        };
                        let (sh2, sl2) = if c2 < len_a {
                            (cur, c2)
                        } else {
                            (nxt, c2 - len_a)
                        };
                        let ts1 = self.shards[sh1].entries[sl1].value.timestamp;
                        let ts2 = self.shards[sh2].entries[sl2].value.timestamp;
                        if ts1 < ts2 {
                            (sh1, sl1)
                        } else {
                            (sh2, sl2)
                        }
                    },
                };
                // present the older of the two draws to the predicate
                let n_so_far = evicted.len();
                let key = self.shards[tgt].entries[idx].key;
                proof {
                    lemma_view_lookup(self.hash_builder, self.shards@, key);
                    crate::shard::lemma_seq_to_map_props(self.shards@[tgt as int].entries@);
                    assert(route_of(self.hash_builder, self.shards@.len() as int, key)
                        == tgt as int);
                    assert(self@.contains_key(key));
                    assert(self@[key]
                        == self.shards@[tgt as int].entries@[idx as int].value.value);
                }
                let res = predicate(n_so_far, key, &self.shards[tgt].entries[idx].value.value);
                match res {
                    Evict::Continue | Evict::Once => {
                        let ghost pre_self = *self;
                        let ghost epre = evicted@;
                        let kv = self.evict_at(tgt, idx);
                        evicted.push(kv);
                        proof {
                            lemma_eviction_step(m0, size0, epre, pre_self, *self, kv.0, kv.1);
                            assert(kv.0 == key && kv.1 == pre_self@[key]);
                            assert(evicted@[epre.len() as int] == (key, kv.1));
                            assert forall|w: int|
                                0 <= w < evicted@.len() implies trial_approved(
                                predicate,
                                evicted@,
                                w,
                            ) by {
                                if w < epre.len() {
                                    assert(trial_approved(predicate, epre, w));
                                    assert(evicted@[w] == epre[w]);
                                }
                            }
                            if res == Evict::Continue {
                                assert forall|w: int|
                                    0 <= w < evicted@.len() implies trial_continued(
                                    predicate,
                                    evicted@,
                                    w,
                                ) by {
                                    if w < epre.len() {
                                        assert(trial_continued(predicate, epre, w));
                                        assert(evicted@[w] == epre[w]);
                                    }
                                }
                            } else {
                                assert forall|w: int|
                                    0 <= w < evicted@.len() - 1 implies trial_continued(
                                    predicate,
                                    evicted@,
                                    w,
                                ) by {
                                    assert(trial_continued(predicate, epre, w));
                                    assert(evicted@[w] == epre[w]);
                                }
                            }
                        }
                        if matches!(res, Evict::Once) {
                            done = true;
                        }
                    },
                    Evict::Halt => {
                        proof {
                            assert(call_ensures(
                                predicate,
                                (n_so_far, key, &self@[key]),
                                Evict::Halt,
                            ));
                            assert(halted_on_resident(
                                predicate,
                                evicted@.len() as int,
                                self@,
                            ));
                        }
                        done = true;
                    },
                }
                if !done {
                    match popped {
                        None => {
                            // the snapshot is exhausted: end the walk so
                            // the outer pass refreshes it
                            walk_done = true;
                        },
                        Some(nxt) => {
                            // slide the window: the latter shard becomes
                            // the walk's first shard
                            cur = nxt;
                            if self.shards[cur].len() == 0 {
                                let ghost ne_b = non_empty@;
                                match non_empty.pop() {
                                    Some(c) => {
                                        proof {
                                            assert forall|w: int|
                                                0 <= w < non_empty@.len() implies (
                                            #[trigger] non_empty@[w]) != c by {
                                                assert(non_empty@[w] == ne_b[w]);
                                                assert(ne_b[w] != ne_b[ne_b.len() - 1]);
                                            }
                                        }
                                        cur = c;
                                    },
                                    None => {
                                        walk_done = true;
                                    },
                                }
                            }
                        },
                    }
                }
            }
        }
        evicted
    }
}

impl<V> LruCache<V> {
    /// Evict exactly `min(count, size)` entries, chosen by the two-choice
    /// rule, by counting the pass down. Every returned entry is gone from
    /// the cache afterwards, and the size drops by exactly the number
    /// returned.
    pub fn evict_many(&mut self, count: usize, rng: &mut RandomSource) -> (r: Vec<(u64, V)>)
        requires
            old(self).wf(),
        ensures
            final(self).wf(),
            final(self).spec_num_shards() == old(self).spec_num_shards(),
            final(self).hash_builder == old(self).hash_builder,
            eviction_ok(old(self)@, old(self).spec_size(), r@, *final(self)),
            r@.len() == if count <= old(self).spec_size() {
                count as nat
            } else {
                old(self).spec_size()
            },
    {
        let c = if count < self.size {
            count
        } else {
            self.size
        };
        if c == 0 {
            let r: Vec<(u64, V)> = Vec::new();
            proof {
                assert(keys_of(r@) =~= Set::<u64>::empty());
                assert(self@ =~= old(self)@.remove_keys(keys_of(r@)));
            }
            return r;
        }
        let pred = |n: usize, trial_key: u64, trial_value: &V| -> (d: Evict)
            ensures
                n + 1 >= c ==> d == Evict::Once,
                n + 1 < c ==> d == Evict::Continue,
            {
                if n >= c {
                    Evict::Once
                } else if c - n == 1 {
                    Evict::Once
                } else {
                    Evict::Continue
                }
            };
        let r = self.evict(rng, pred);
        proof {
            if r@.len() > c {
                assert(trial_continued(pred, r@, c - 1 as int));
                assert(false);
            }
            if r@.len() < c {
                if self.spec_size() == 0 {
                    assert(false);
                } else if r@.len() > 0 && call_ensures(
                    pred,
                    ((r@.len() - 1) as usize, r@[r@.len() - 1].0, &r@[r@.len() - 1].1),
                    Evict::Once,
                ) {
                    assert(false);
                } else {
                    assert(halted_on_resident(pred, r@.len() as int, self@));
                    let k = choose|k: u64|
                        (#[trigger] self@.contains_key(k)) && call_ensures(
                            pred,
                            (r@.len() as usize, k, &self@[k]),
                            Evict::Halt,
                        );
                    assert(false);
                }
            }
        }
        r
    }

    /// Evict one entry chosen by the two-choice rule, or nothing when the
    /// cache is empty.
    pub fn evict_one(&mut self, rng: &mut RandomSource) -> (r: Option<(u64, V)>)
        requires
            old(self).wf(),
        ensures
            final(self).wf(),
            final(self).spec_num_shards() == old(self).spec_num_shards(),
            final(self).hash_builder == old(self).hash_builder,
            match r {
                Some(kv) => old(self).spec_size() > 0 && old(self)@.contains_key(kv.0) && kv.1
                    == old(self)@[kv.0] && final(self)@ == old(self)@.remove(kv.0)
                    && final(self).spec_size() == old(self).spec_size() - 1,
                None => old(self).spec_size() == 0 && final(self)@ == old(self)@
                    && final(self).spec_size() == 0,
            },
    {
        let pred = |n: usize, trial_key: u64, trial_value: &V| -> (d: Evict)
            ensures
                d == Evict::Once,
            { Evict::Once };
        let mut got = self.evict(rng, pred);
        proof {
            if got@.len() > 1 {
                assert(trial_continued(pred, got@, 0));
                assert(false);
            }
            if old(self).spec_size() > 0 && got@.len() == 0 {
                if self.spec_size() == 0 {
                    assert(false);
                } else {
                    assert(halted_on_resident(pred, 0, self@));
                    let k = choose|k: u64|
                        (#[trigger] self@.contains_key(k)) && call_ensures(
                            pred,
                            (0usize, k, &self@[k]),
                            Evict::Halt,
                        );
                    assert(false);
                }
            }
            if got@.len() == 1 {
                let kv = got@[0];
                assert(keys_of(got@) =~= Set::<u64>::empty().insert(kv.0)) by {
                    assert(holds_key(got@, kv.0)) by {
                        assert(got@[0].0 == kv.0);
                    }
                    assert forall|k2: u64| #[trigger] holds_key(got@, k2) implies k2 == kv.0 by {
                        let w = choose|w: int| 0 <= w < got@.len() && (#[trigger] got@[w]).0 == k2;
                    }
                }
                assert(self@ =~= old(self)@.remove(kv.0));
            } else {
                assert(keys_of(got@) =~= Set::<u64>::empty());
                assert(self@ =~= old(self)@);
            }
        }
        got.pop()
    }

    /// Bulk eviction that visits each shard at most once: every non-empty
    /// shard gives up a quota proportional to its share of the whole
    /// (clamped to the shard's length), victims inside a shard chosen by
    /// the two-choice rule; a whole shard is drained when its quota
    /// covers it. Trades the per-victim fairness of `evict_many` for one
    /// visit per shard, and may evict a couple fewer or more than
    /// `count`.
    pub fn evict_many_fast(&mut self, count: usize, rng: &mut RandomSource) -> (r: Vec<(u64, V)>)
        requires
            old(self).wf(),
        ensures
            final(self).wf(),
            final(self).spec_num_shards() == old(self).spec_num_shards(),
            final(self).hash_builder == old(self).hash_builder,
            eviction_ok(old(self)@, old(self).spec_size(), r@, *final(self)),
            count == 0 ==> r@.len() == 0,
            old(self).spec_size() == 0 ==> r@.len() == 0,
            count >= old(self).spec_size() ==> r@.len() == old(self).spec_size(),
    {
        let ghost m0 = self@;
        let ghost size0 = self.spec_size();
        let mut evicted: Vec<(u64, V)> = Vec::new();
        proof {
            assert(keys_of(evicted@) =~= Set::<u64>::empty());
            assert(self@ =~= m0.remove_keys(keys_of(evicted@)));
        }
        let c = if count < self.size {
            count
        } else {
            self.size
        };
        if c == 0 {
            proof {
                if count >= size0 {
                    assert(size0 == 0);
                }
            }
            return evicted;
        }
        let mut non_empty = self.non_empty_shards();
        let ghost ne0 = non_empty@;
        rng.shuffle(&mut non_empty);
        proof {
            broadcast use vstd::seq_lib::group_to_multiset_ensures;

            ne0.lemma_multiset_has_no_duplicates();
            assert forall|w: int| 0 <= w < non_empty@.len() implies (#[trigger] non_empty@[w])
                < self.shards@.len() && self.shards@[non_empty@[w] as int].spec_len() > 0 by {
                let x = non_empty@[w];
                assert(non_empty@.contains(x));
                assert(ne0.to_multiset().count(x) > 0);
                assert(ne0.contains(x));
                let w0 = choose|w0: int| 0 <= w0 < ne0.len() && ne0[w0] == x;
                assert(ne0[w0] < self.shards@.len());
            }
            assert(forall|x: usize|
                non_empty@.to_multiset().contains(x) ==> non_empty@.to_multiset().count(x) == 1);
            non_empty@.lemma_multiset_has_no_duplicates_conv();
            assert forall|t2: int|
                0 <= t2 < self.shards@.len() && self.shards@[t2].spec_len()
                    > 0 implies non_empty@.contains(t2 as usize) by {
                assert(ne0.contains(t2 as usize));
                assert(ne0.to_multiset().count(t2 as usize) > 0);
                assert(non_empty@.to_multiset().count(t2 as usize) > 0);
            }
        }
        let size_snapshot = self.size;
        let mut sum: u128 = 0;
        let mut stop = false;
        while !stop && non_empty.len() > 0
            invariant
                self.wf(),
                self.spec_num_shards() == old(self).spec_num_shards(),
                self.hash_builder == old(self).hash_builder,
                eviction_ok(m0, size0, evicted@, *self),
                m0 == old(self)@,
                size0 == old(self).spec_size(),
                non_empty@.no_duplicates(),
                forall|w: int|
                    0 <= w < non_empty@.len() ==> (#[trigger] non_empty@[w])
                        < self.shards@.len() && self.shards@[non_empty@[w] as int].spec_len() > 0,
                size_snapshot == size0,
                1 <= c <= size0,
                !stop ==> sum <= c as u128,
                c as nat == size0 ==> !stop,
                c as nat == size0 ==> sum == evicted@.len() as u128,
                c as nat == size0 ==> forall|t2: int|
                    0 <= t2 < self.shards@.len() && self.shards@[t2].spec_len() > 0
                        ==> non_empty@.contains(t2 as usize),
            decreases non_empty@.len(),
        {
            let ghost ne_b = non_empty@;
            let t = match non_empty.pop() {
                Some(t) => t,
                None => {
                    proof {
                        assert(false);
                    }
                    vstd::pervasive::unreached()
                },
            };
            proof {
                assert forall|w: int| 0 <= w < non_empty@.len() implies (
                #[trigger] non_empty@[w]) != t by {
                    assert(non_empty@[w] == ne_b[w]);
                    assert(ne_b[w] != ne_b[ne_b.len() - 1]);
                }
                if c == size_snapshot {
                    assert forall|t2: int|
                        0 <= t2 < self.shards@.len() && t2 != t && self.shards@[t2].spec_len()
                            > 0 implies non_empty@.contains(t2 as usize) by {
                        assert(ne_b.contains(t2 as usize));
                        let w2 = choose|w2: int| 0 <= w2 < ne_b.len() && ne_b[w2] == t2 as usize;
                        assert(ne_b[ne_b.len() - 1] == t);
                        assert(vstd::std_specs::vec::spec_vec_len(&self.shards)
                            == self.shards@.len());
                        assert(t2 as usize as int == t2);
                        assert(t2 as usize != t);
                        assert(w2 < ne_b.len() - 1);
                        assert(non_empty@[w2] == t2 as usize);
                    }
                }
            }
            let len = self.shards[t].len();
            // this shard's proportional quota, clamped to its length
            proof {
                assert((c as u128) * (len as u128) <= u128::MAX) by (nonlinear_arith)
                    requires
                        c as u128 <= 0xffff_ffff_ffff_ffffu128,
                        len as u128 <= 0xffff_ffff_ffff_ffffu128,
                ;
            }
            let prod: u128 = (c as u128) * (len as u128);
            let q128 = prod / (size_snapshot as u128);
            proof {
                // when the requested count covers the whole cache, every
                // shard's quota is exactly its length
                if c == size_snapshot {
                    assert(q128 as int == len as int) by (nonlinear_arith)
                        requires
                            q128 as int == ((c as int) * (len as int)) / (size_snapshot as int),
                            c as int == size_snapshot as int,
                            size_snapshot as int >= 1,
                    ;
                }
            }
            let mut sub: usize = if q128 >= len as u128 {
                len
            } else {
                proof {
                    assert(q128 < len as u128);
                }
                (q128 as usize) + 1
            };
            sum = sum + sub as u128;
            proof {
                if c == size_snapshot {
                    lemma_sum_lens_bound(self.shards@, t as int);
                    assert(sub == len);
                    assert(sum <= c as u128);
                }
            }
            if sum > c as u128 {
                // the trailing shard clamps its quota so the accumulated
                // total does not overshoot; this deliberately under-asks
                // by one
                let over = sum - (c as u128) - 1;
                proof {
                    assert(over < sub as u128);
                }
                sub = over as usize;
                stop = true;
            }
            if sub == len {
                // quota covers the shard: drain it whole
                while self.shards[t].len() > 0
                    invariant
                        self.wf(),
                        self.spec_num_shards() == old(self).spec_num_shards(),
                        self.hash_builder == old(self).hash_builder,
                        eviction_ok(m0, size0, evicted@, *self),
                        m0 == old(self)@,
                        size0 == old(self).spec_size(),
                        t < self.shards@.len(),
                        forall|w: int|
                            0 <= w < non_empty@.len() ==> (#[trigger] non_empty@[w])
                                < self.shards@.len() && self.shards@[non_empty@[
                                w] as int].spec_len() > 0 && non_empty@[w] != t,
                        non_empty@.no_duplicates(),
                        c as nat == size0 ==> sum == evicted@.len() as u128 + self.shards@[
                            t as int].spec_len() as u128,
                        c as nat == size0 ==> forall|t2: int|
                            0 <= t2 < self.shards@.len() && t2 != t && self.shards@[
                                t2].spec_len() > 0 ==> non_empty@.contains(t2 as usize),
                    decreases self.shards@[t as int].spec_len(),
                {
                    let l = self.shards[t].len();
                    let ghost pre_self = *self;
                    let ghost epre = evicted@;
                    let kv = self.evict_at(t, l - 1);
                    evicted.push(kv);
                    proof {
                        lemma_eviction_step(m0, size0, epre, pre_self, *self, kv.0, kv.1);
                    }
                }
            } else {
                let mut i: usize = 0;
                while i < sub
                    invariant
                        self.wf(),
                        self.spec_num_shards() == old(self).spec_num_shards(),
                        self.hash_builder == old(self).hash_builder,
                        eviction_ok(m0, size0, evicted@, *self),
                        m0 == old(self)@,
                        size0 == old(self).spec_size(),
                        t < self.shards@.len(),
                        i <= sub,
                        sub < len,
                        c as nat != size0,
                        self.shards@[t as int].spec_len() + i == len,
                        forall|w: int|
                            0 <= w < non_empty@.len() ==> (#[trigger] non_empty@[w])
                                < self.shards@.len() && self.shards@[non_empty@[
                                w] as int].spec_len() > 0 && non_empty@[w] != t,
                        non_empty@.no_duplicates(),
                    decreases sub - i,
                {
                    let lcur = self.shards[t].len();
                    let (i1, i2) = pick_indices(lcur, rng);
                    let ts1 = self.shards[t].entries[i1].value.timestamp;
                    let ts2 = self.shards[t].entries[i2].value.timestamp;
                    let idx = if ts1 < ts2 {
                        i1
                    } else {
                        i2
                    };
                    let ghost pre_self = *self;
                    let ghost epre = evicted@;
                    let kv = self.evict_at(t, idx);
                    evicted.push(kv);
                    proof {
                        lemma_eviction_step(m0, size0, epre, pre_self, *self, kv.0, kv.1);
                    }
                    i += 1;
                }
            }
        }
        proof {
            // when the requested count covered the whole cache, the pass
            // never stopped early and the snapshot ran dry, so every
            // shard was drained
            if c as nat == size0 {
                assert(!stop);
                assert(non_empty@.len() == 0);
                assert forall|t2: int| 0 <= t2 < self.shards@.len() implies (
                #[trigger] self.shards@[t2]).spec_len() == 0 by {
                    if self.shards@[t2].spec_len() > 0 {
                        assert(non_empty@.contains(t2 as usize));
                        assert(false);
                    }
                }
                lemma_sum_lens_zero(self.shards@);
            }
        }
        evicted
    }
}

impl<V> LruCache<V> {
    /// Drop every entry from every shard, decrementing the size counter
    /// by each shard's length as that shard is cleared.
    pub fn clear(&mut self)
        requires
            old(self).wf(),
        ensures
            final(self).wf(),
            final(self)@ == Map::<u64, V>::empty(),
            final(self).spec_size() == 0,
            final(self).spec_num_shards() == old(self).spec_num_shards(),
            final(self).hash_builder == old(self).hash_builder,
    {
        let n = self.shards.len();
        let mut s: usize = 0;
        while s < n
            invariant
                n == self.shards@.len(),
                s <= n,
                self.hash_builder == old(self).hash_builder,
                self.wf(),
                forall|t: int| 0 <= t < s ==> (#[trigger] self.shards@[t]).spec_len() == 0,
            decreases n - s,
        {
            let ghost pre = self.shards@;
            let len = self.shards[s].len();
            let shard = &mut self.shards[s];
            shard.clear();
            proof {
                lemma_sum_lens_bound(pre, s as int);
                lemma_sum_lens_update(pre, s as int, self.shards@[s as int]);
                crate::map::lemma_coherence_shrunk(self.hash_builder, pre, self.shards@, s as int);
                lemma_stamps_preserved(pre, self.shards@, s as int, 0, self.clock, self.clock);
            }
            self.size = self.size - len;
            self.shard_sizes.set(s, 0);
            s += 1;
        }
        proof {
            lemma_sum_lens_zero(self.shards@);
            assert forall|k: u64| !(#[trigger] self.tv_map().contains_key(k)) by {
                let r = route_of(self.hash_builder, self.shards@.len() as int, k);
                assert(self.shards@[r].spec_len() == 0);
            }
            assert(self@ =~= Map::<u64, V>::empty());
        }
    }

    /// Keep only the bindings the predicate approves. Every resident
    /// binding is tried exactly once; survivors keep their values and
    /// their stamps.
    pub fn retain<F: Fn(u64, &V) -> bool>(&mut self, f: F)
        requires
            old(self).wf(),
            forall|k: u64, v: &V| #[trigger] call_requires(f, (k, v)),
        ensures
            final(self).wf(),
            final(self).spec_num_shards() == old(self).spec_num_shards(),
            final(self).hash_builder == old(self).hash_builder,
            forall|k: u64|
                #[trigger] final(self)@.contains_key(k) ==> old(self)@.contains_key(k)
                    && final(self)@[k] == old(self)@[k] && call_ensures(
                    f,
                    (k, &old(self)@[k]),
                    true,
                ),
            forall|k: u64|
                #[trigger] old(self)@.contains_key(k) ==> final(self)@.contains_key(k)
                    || call_ensures(f, (k, &old(self)@[k]), false),
    {
        let ghost m0 = self@;
        let n = self.shards.len();
        let mut s: usize = 0;
        while s < n
            invariant
                n == self.shards@.len(),
                s <= n,
                self.wf(),
                self.hash_builder == old(self).hash_builder,
                m0 == old(self)@,
                forall|k: u64, v: &V| #[trigger] call_requires(f, (k, v)),
                forall|k: u64|
                    #[trigger] self@.contains_key(k) ==> m0.contains_key(k) && self@[k] == m0[k],
                forall|k: u64|
                    #[trigger] m0.contains_key(k) ==> self@.contains_key(k) || call_ensures(
                        f,
                        (k, &m0[k]),
                        false,
                    ),
                forall|t: int, w: int|
                    0 <= t < s && 0 <= w < self.shards@[t].entries@.len() ==> call_ensures(
                        f,
                        (
                            (#[trigger] self.shards@[t].entries@[w]).key,
                            &self.shards@[t].entries@[w].value.value,
                        ),
                        true,
                    ),
            decreases n - s,
        {
            let mut i: usize = 0;
            while i < self.shards[s].len()
                invariant
                    n == self.shards@.len(),
                    s < n,
                    self.wf(),
                    self.hash_builder == old(self).hash_builder,
                    m0 == old(self)@,
                    forall|k: u64, v: &V| #[trigger] call_requires(f, (k, v)),
                    i <= self.shards@[s as int].entries@.len(),
                    forall|k: u64|
                        #[trigger] self@.contains_key(k) ==> m0.contains_key(k) && self@[k]
                            == m0[k],
                    forall|k: u64|
                        #[trigger] m0.contains_key(k) ==> self@.contains_key(k) || call_ensures(
                            f,
                            (k, &m0[k]),
                            false,
                        ),
                    forall|t: int, w: int|
                        0 <= t < s && 0 <= w < self.shards@[t].entries@.len() ==> call_ensures(
                            f,
                            (
                                (#[trigger] self.shards@[t].entries@[w]).key,
                                &self.shards@[t].entries@[w].value.value,
                            ),
                            true,
                        ),
                    forall|w: int|
                        0 <= w < i ==> call_ensures(
                            f,
                            (
                                (#[trigger] self.shards@[s as int].entries@[w]).key,
                                &self.shards@[s as int].entries@[w].value.value,
                            ),
                            true,
                        ),
                decreases self.shards@[s as int].spec_len() - i,
            {
                let key = self.shards[s].entries[i].key;
                let keep = f(key, &self.shards[s].entries[i].value.value);
                if keep {
                    i += 1;
                } else {
                    proof {
                        lemma_view_lookup(self.hash_builder, self.shards@, key);
                        crate::shard::lemma_seq_to_map_props(self.shards@[s as int].entries@);
                        assert(route_of(self.hash_builder, self.shards@.len() as int, key)
                            == s as int);
                        assert(self@[key]
                            == self.shards@[s as int].entries@[i as int].value.value);
                    }
                    let ghost pre_entries = self.shards@[s as int].entries@;
                    let kv = self.evict_at(s, i);
                    proof {
                        assert(forall|w: int|
                            0 <= w < i ==> #[trigger] self.shards@[s as int].entries@[w]
                                == pre_entries[w]);
                    }
                }
            }
            s += 1;
        }
        proof {
            assert forall|k: u64| #[trigger] self@.contains_key(k) implies m0.contains_key(k)
                && self@[k] == m0[k] && call_ensures(f, (k, &m0[k]), true) by {
                let t = route_of(self.hash_builder, self.shards@.len() as int, k);
                crate::shard::lemma_seq_to_map_props(self.shards@[t].entries@);
                lemma_view_lookup(self.hash_builder, self.shards@, k);
                let w = choose|w: int|
                    0 <= w < self.shards@[t].entries@.len() && (
                    #[trigger] self.shards@[t].entries@[w]).key == k;
                assert(call_ensures(f, (k, &self.shards@[t].entries@[w].value.value), true));
                assert(self@[k] == self.shards@[t].entries@[w].value.value);
            }
        }
    }
}

impl<V: Copy> LruCache<V> {
    /// A deep, point-in-time copy: a fresh cache over the same hash
    /// builder holding the same bindings with the same stamps. The copy
    /// and the original are independent afterwards.
    pub fn duplicate(&self) -> (r: Self)
        requires
            self.wf(),
        ensures
            r.wf(),
            r@ == self@,
            r.stamps() == self.stamps(),
            r.spec_size() == self.spec_size(),
            r.spec_num_shards() == self.spec_num_shards(),
            r.hash_builder == self.hash_builder,
    {
        let n = self.shards.len();
        let mut shards: Vec<IndexedShard<TimestampedValue<V>>> = Vec::new();
        let mut shard_sizes: Vec<usize> = Vec::new();
        let mut s: usize = 0;
        while s < n
            invariant
                self.wf(),
                n == self.shards@.len(),
                s <= n,
                shards@.len() == s,
                shard_sizes@.len() == s,
                forall|t: int|
                    0 <= t < s ==> (#[trigger] shards@[t]).entries@ == self.shards@[t].entries@
                        && shards@[t].indices@ == self.shards@[t].indices@,
                forall|t: int| 0 <= t < s ==> (#[trigger] shard_sizes@[t]) == self.shard_sizes@[t],
            decreases n - s,
        {
            let copy = self.shards[s].duplicate();
            shards.push(copy);
            shard_sizes.push(self.shard_sizes[s]);
            s += 1;
        }
        let r = LruCache {
            hash_builder: self.hash_builder,
            shards,
            shard_sizes,
            size: self.size,
            clock: self.clock,
            epoch: clock::clock_now(),
        };
        proof {
            crate::map::lemma_sum_lens_pointwise(r.shards@, self.shards@);
            assert forall|t: int, w: int|
                0 <= t < r.shards@.len() && 0 <= w < r.shards@[t].entries@.len() implies ((
            #[trigger] r.shards@[t].entries@[w]).hash == spec_mix64(
                r.hash_builder.seed,
                r.shards@[t].entries@[w].key,
            ) && route_of(
                r.hash_builder,
                r.shards@.len() as int,
                r.shards@[t].entries@[w].key,
            ) == t && r.shards@[t].entries@[w].value.timestamp <= r.clock) by {
                assert(r.shards@[t].entries@[w] == self.shards@[t].entries@[w]);
            }
            assert forall|t: int| 0 <= t < r.shards@.len() implies (
            #[trigger] r.shards@[t]).wf() by {
                assert(self.shards@[t].wf());
            }
            assert forall|k: u64|
                r.tv_map().contains_key(k) == self.tv_map().contains_key(k) && (
                r.tv_map().contains_key(k) ==> r.tv_map()[k] == self.tv_map()[k]) by {
                let t = route_of(self.hash_builder, self.shards@.len() as int, k);
                assert(r.shards@[t]@ == self.shards@[t]@);
            }
            assert(r.tv_map() =~= self.tv_map());
            assert(r@ =~= self@);
            assert(r.stamps() =~= self.stamps());
        }
        r
    }
}

/// Recency: after a `get` hit on `key` (which stamps that entry with the
/// container's newest reading), the touched entry's stamp is at least the
/// stamp of every entry not touched since.
pub proof fn lemma_get_recency<V>(pre: LruCache<V>, post: LruCache<V>, key: u64)
    requires
        pre.wf(),
        post.wf(),
        post.stamps() == pre.stamps().insert(key, post.clock),
        pre.clock <= post.clock,
    ensures
        forall|k2: u64|
            #[trigger] post.stamps().contains_key(k2) ==> post.stamps()[k2]
                <= post.stamps()[key],
{
    lemma_stamps_bounded(pre);
    assert forall|k2: u64| #[trigger] post.stamps().contains_key(k2) implies post.stamps()[k2]
        <= post.stamps()[key] by {
        if k2 != key {
            assert(pre.stamps().contains_key(k2));
        }
    }
}

} // verus!
