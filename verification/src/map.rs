//! The sharded map: keys are routed to shards by fingerprint, each shard
//! is an [`IndexedShard`], and a size counter tracks the sum of shard
//! lengths.
//!
//! The spec layer here — [`map_view`], [`shards_coherent`], [`sum_lens`]
//! and their lemmas — is shared with the LRU variant, which stores
//! timestamped values in the same shard layout.

use crate::hashing::{shard_index_of, spec_mix64, HashBuilder};
use crate::shard::{pair_in, pair_in_or_new, seq_to_map, Bucket, IndexedShard};
use vstd::prelude::*;

verus! {

/// The shard a key is routed to: its fingerprint reduced modulo the shard
/// count.
pub open spec fn route_of(hb: HashBuilder, num: int, key: u64) -> int {
    (spec_mix64(hb.seed, key) as usize as int) % num
}

/// The association held by a whole shard vector: each key is looked up in
/// the shard it routes to.
pub open spec fn map_view<V>(hb: HashBuilder, shards: Seq<IndexedShard<V>>) -> Map<u64, V> {
    Map::new(
        |k: u64| shards[route_of(hb, shards.len() as int, k)]@.contains_key(k),
        |k: u64| shards[route_of(hb, shards.len() as int, k)]@[k],
    )
}

/// Every stored entry carries the fingerprint of its key under `hb`, and
/// sits in the shard that fingerprint routes to.
pub open spec fn shards_coherent<V>(hb: HashBuilder, shards: Seq<IndexedShard<V>>) -> bool {
    forall|s: int, w: int|
        0 <= s < shards.len() && 0 <= w < shards[s].entries@.len() ==> {
            &&& (#[trigger] shards[s].entries@[w]).hash == spec_mix64(
                hb.seed,
                shards[s].entries@[w].key,
            )
            &&& route_of(hb, shards.len() as int, shards[s].entries@[w].key) == s
        }
}

/// Every shard is well formed.
pub open spec fn shards_wf<V>(shards: Seq<IndexedShard<V>>) -> bool {
    forall|s: int| 0 <= s < shards.len() ==> (#[trigger] shards[s]).wf()
}

/// The sum of the shard lengths.
pub open spec fn sum_lens<V>(shards: Seq<IndexedShard<V>>) -> nat
    decreases shards.len(),
{
    if shards.len() == 0 {
        0
    } else {
        sum_lens(shards.drop_last()) + shards.last().spec_len()
    }
}

/// Appending a shard adds its length to the sum.
pub proof fn lemma_sum_lens_push<V>(shards: Seq<IndexedShard<V>>, sh: IndexedShard<V>)
    ensures
        sum_lens(shards.push(sh)) == sum_lens(shards) + sh.spec_len(),
{
    assert(shards.push(sh).drop_last() =~= shards);
    assert(shards.push(sh).last() == sh);
}

/// Replacing one shard changes the sum by the difference of the lengths.
pub proof fn lemma_sum_lens_update<V>(shards: Seq<IndexedShard<V>>, s: int, sh: IndexedShard<V>)
    requires
        0 <= s < shards.len(),
    ensures
        sum_lens(shards.update(s, sh)) + shards[s].spec_len() == sum_lens(shards) + sh.spec_len(),
    decreases shards.len(),
{
    let s2 = shards.update(s, sh);
    if s == shards.len() - 1 {
        assert(s2.drop_last() =~= shards.drop_last());
        assert(s2.last() == sh);
    } else {
        assert(s2.drop_last() =~= shards.drop_last().update(s, sh));
        assert(s2.last() == shards.last());
        lemma_sum_lens_update(shards.drop_last(), s, sh);
    }
}

/// The sum is at least each summand.
pub proof fn lemma_sum_lens_bound<V>(shards: Seq<IndexedShard<V>>, s: int)
    requires
        0 <= s < shards.len(),
    ensures
        sum_lens(shards) >= shards[s].spec_len(),
    decreases shards.len(),
{
    if s == shards.len() - 1 {
    } else {
        assert(shards.drop_last()[s] == shards[s]);
        lemma_sum_lens_bound(shards.drop_last(), s);
    }
}

/// Under coherence, a key may be looked up in any shard under its
/// fingerprint: no entry holds the key with a different fingerprint.
pub proof fn lemma_route_hash_ok<V>(hb: HashBuilder, shards: Seq<IndexedShard<V>>, key: u64)
    requires
        shards_coherent(hb, shards),
    ensures
        forall|s: int|
            0 <= s < shards.len() ==> (#[trigger] shards[s]).hash_ok(
                spec_mix64(hb.seed, key),
                key,
            ),
{
    assert forall|s: int| 0 <= s < shards.len() implies (#[trigger] shards[s]).hash_ok(
        spec_mix64(hb.seed, key),
        key,
    ) by {
        assert forall|i: int|
            0 <= i < shards[s].entries@.len() && (#[trigger] shards[s].entries@[i]).key
                == key implies shards[s].entries@[i].hash == spec_mix64(hb.seed, key) by {
            assert(shards[s].entries@[i].hash == spec_mix64(hb.seed, shards[s].entries@[i].key));
        }
    }
}

/// Coherence is preserved by an operation on one shard whose entries
/// afterwards all carry (fingerprint, key) pairs already present there,
/// or the one freshly inserted pair — which itself carries the key's
/// fingerprint and sits in the key's shard.
pub proof fn lemma_coherence_preserved<V>(
    hb: HashBuilder,
    pre: Seq<IndexedShard<V>>,
    post: Seq<IndexedShard<V>>,
    s: int,
    hash: u64,
    key: u64,
)
    requires
        shards_coherent(hb, pre),
        post.len() == pre.len(),
        0 <= s < pre.len(),
        forall|t: int| 0 <= t < post.len() && t != s ==> post[t] == pre[t],
        forall|w: int|
            0 <= w < post[s].entries@.len() ==> pair_in_or_new(
                pre[s].entries@,
                #[trigger] post[s].entries@[w],
                hash,
                key,
            ),
        hash == spec_mix64(hb.seed, key),
        route_of(hb, pre.len() as int, key) == s,
    ensures
        shards_coherent(hb, post),
{
    assert forall|t: int, w: int|
        0 <= t < post.len() && 0 <= w < post[t].entries@.len() implies ((
    #[trigger] post[t].entries@[w]).hash == spec_mix64(hb.seed, post[t].entries@[w].key)
        && route_of(hb, post.len() as int, post[t].entries@[w].key) == t) by {
        if t == s {
            let b = post[s].entries@[w];
            assert(pair_in_or_new(pre[s].entries@, b, hash, key));
            if !(b.key == key && b.hash == hash) {
                let j = choose|j: int|
                    0 <= j < pre[s].entries@.len() && (#[trigger] pre[s].entries@[j]).key == b.key
                        && pre[s].entries@[j].hash == b.hash;
                assert(pre[s].entries@[j] == pre[s].entries@[j]);
            }
        } else {
            assert(post[t] == pre[t]);
        }
    }
}

/// Coherence is preserved by an operation on one shard that only kept,
/// reordered, or dropped entries.
pub proof fn lemma_coherence_shrunk<V>(
    hb: HashBuilder,
    pre: Seq<IndexedShard<V>>,
    post: Seq<IndexedShard<V>>,
    s: int,
)
    requires
        shards_coherent(hb, pre),
        post.len() == pre.len(),
        0 <= s < pre.len(),
        forall|t: int| 0 <= t < post.len() && t != s ==> post[t] == pre[t],
        forall|w: int|
            0 <= w < post[s].entries@.len() ==> pair_in(
                pre[s].entries@,
                #[trigger] post[s].entries@[w],
            ),
    ensures
        shards_coherent(hb, post),
{
    assert forall|t: int, w: int|
        0 <= t < post.len() && 0 <= w < post[t].entries@.len() implies ((
    #[trigger] post[t].entries@[w]).hash == spec_mix64(hb.seed, post[t].entries@[w].key)
        && route_of(hb, post.len() as int, post[t].entries@[w].key) == t) by {
        if t == s {
            let b = post[s].entries@[w];
            let j = choose|j: int|
                0 <= j < pre[s].entries@.len() && (#[trigger] pre[s].entries@[j]).key == b.key
                    && pre[s].entries@[j].hash == b.hash;
            assert(pre[s].entries@[j] == pre[s].entries@[j]);
        } else {
            assert(post[t] == pre[t]);
        }
    }
}

/// Inserting a binding into the shard the key routes to inserts it into
/// the whole view.
pub proof fn lemma_view_insert<V>(
    hb: HashBuilder,
    shards: Seq<IndexedShard<V>>,
    s: int,
    key: u64,
    v: V,
)
    requires
        shards.len() >= 1,
        0 <= s < shards.len(),
        s == route_of(hb, shards.len() as int, key),
    ensures
        forall|sh: IndexedShard<V>|
            sh@ == shards[s]@.insert(key, v) ==> map_view(
                hb,
                #[trigger] shards.update(s, sh),
            ) == map_view(hb, shards).insert(key, v),
{
    assert forall|sh: IndexedShard<V>| sh@ == shards[s]@.insert(key, v) implies map_view(
        hb,
        #[trigger] shards.update(s, sh),
    ) == map_view(hb, shards).insert(key, v) by {
        let s2 = shards.update(s, sh);
        let m1 = map_view(hb, s2);
        let m2 = map_view(hb, shards).insert(key, v);
        assert forall|k2: u64| m1.contains_key(k2) == m2.contains_key(k2) && (m1.contains_key(k2)
            ==> m1[k2] == m2[k2]) by {
            let r = route_of(hb, shards.len() as int, k2);
            if k2 == key {
                assert(s2[r]@.contains_key(k2) && s2[r]@[k2] == v);
            } else if r == s {
                assert(s2[r]@.contains_key(k2) == shards[r]@.contains_key(k2));
            } else {
                assert(s2[r] == shards[r]);
            }
        }
        assert(m1 =~= m2);
    }
}

/// Removing a key's binding from the shard it routes to removes it from
/// the whole view.
pub proof fn lemma_view_remove<V>(hb: HashBuilder, shards: Seq<IndexedShard<V>>, s: int, key: u64)
    requires
        shards.len() >= 1,
        0 <= s < shards.len(),
        s == route_of(hb, shards.len() as int, key),
    ensures
        forall|sh: IndexedShard<V>|
            sh@ == shards[s]@.remove(key) ==> map_view(hb, #[trigger] shards.update(s, sh))
                == map_view(hb, shards).remove(key),
{
    assert forall|sh: IndexedShard<V>| sh@ == shards[s]@.remove(key) implies map_view(
        hb,
        #[trigger] shards.update(s, sh),
    ) == map_view(hb, shards).remove(key) by {
        let s2 = shards.update(s, sh);
        let m1 = map_view(hb, s2);
        let m2 = map_view(hb, shards).remove(key);
        assert forall|k2: u64| m1.contains_key(k2) == m2.contains_key(k2) && (m1.contains_key(k2)
            ==> m1[k2] == m2[k2]) by {
            let r = route_of(hb, shards.len() as int, k2);
            if r != s {
                assert(s2[r] == shards[r]);
            }
        }
        assert(m1 =~= m2);
    }
}

/// A key's binding in the whole view is its binding in the shard it
/// routes to.
pub proof fn lemma_view_lookup<V>(hb: HashBuilder, shards: Seq<IndexedShard<V>>, key: u64)
    requires
        shards.len() >= 1,
    ensures
        map_view(hb, shards).contains_key(key) == shards[route_of(
            hb,
            shards.len() as int,
            key,
        )]@.contains_key(key),
        map_view(hb, shards).contains_key(key) ==> map_view(hb, shards)[key] == shards[route_of(
            hb,
            shards.len() as int,
            key,
        )]@[key],
{
}

/// `post` is `pre` with only the value at `slot` replaced: the index, the
/// other entries, and the slot's key and fingerprint are untouched.
pub open spec fn value_updated_at<V>(pre: IndexedShard<V>, post: IndexedShard<V>, slot: int) -> bool {
    &&& post.wf()
    &&& post.indices@ == pre.indices@
    &&& 0 <= slot < pre.entries@.len()
    &&& post.entries@ == pre.entries@.update(
        slot,
        Bucket {
            hash: pre.entries@[slot].hash,
            key: pre.entries@[slot].key,
            value: post.entries@[slot].value,
        },
    )
}

/// Replacing the value at one slot of one shard — key and fingerprint
/// untouched — preserves every container invariant, keeps the sum of the
/// shard lengths, and changes the view by inserting the new value at that
/// entry's key. Stated over every possible replacement so that it covers
/// values written later through a returned mutable reference.
pub proof fn lemma_container_value_update<V>(
    hb: HashBuilder,
    shards: Seq<IndexedShard<V>>,
    s: int,
    slot: int,
)
    requires
        shards.len() >= 1,
        shards_wf(shards),
        shards_coherent(hb, shards),
        0 <= s < shards.len(),
        0 <= slot < shards[s].entries@.len(),
    ensures
        forall|sh: IndexedShard<V>|
            value_updated_at(shards[s], sh, slot) ==> {
                &&& shards_wf(#[trigger] shards.update(s, sh))
                &&& shards_coherent(hb, shards.update(s, sh))
                &&& sum_lens(shards.update(s, sh)) == sum_lens(shards)
                &&& map_view(hb, shards.update(s, sh)) == map_view(hb, shards).insert(
                    shards[s].entries@[slot].key,
                    sh.entries@[slot].value,
                )
            },
{
    let key = shards[s].entries@[slot].key;
    assert(route_of(hb, shards.len() as int, key) == s);
    assert forall|sh: IndexedShard<V>| value_updated_at(shards[s], sh, slot) implies {
        &&& shards_wf(#[trigger] shards.update(s, sh))
        &&& shards_coherent(hb, shards.update(s, sh))
        &&& sum_lens(shards.update(s, sh)) == sum_lens(shards)
        &&& map_view(hb, shards.update(s, sh)) == map_view(hb, shards).insert(
            key,
            sh.entries@[slot].value,
        )
    } by {
        let v = sh.entries@[slot].value;
        let s2 = shards.update(s, sh);
        lemma_sum_lens_update(shards, s, sh);
        crate::shard::lemma_seq_to_map_update(
            shards[s].entries@,
            slot,
            Bucket { hash: shards[s].entries@[slot].hash, key, value: v },
        );
        lemma_view_insert(hb, shards, s, key, v);
        assert forall|t: int, w: int|
            0 <= t < s2.len() && 0 <= w < s2[t].entries@.len() implies ((
        #[trigger] s2[t].entries@[w]).hash == spec_mix64(hb.seed, s2[t].entries@[w].key)
            && route_of(hb, s2.len() as int, s2[t].entries@[w].key) == t) by {
            if t == s {
                if w != slot {
                    assert(s2[t].entries@[w] == shards[t].entries@[w]);
                } else {
                    assert(s2[t].entries@[w].key == shards[t].entries@[w].key);
                    assert(s2[t].entries@[w].hash == shards[t].entries@[w].hash);
                }
            } else {
                assert(s2[t] == shards[t]);
            }
        }
    }
}

/// Overwriting a freshly inserted binding is the same as inserting the
/// final value directly.
pub proof fn lemma_insert_overwrite<K, V>(m: Map<K, V>, k: K, a: V)
    ensures
        forall|b: V| #[trigger] m.insert(k, a).insert(k, b) == m.insert(k, b),
{
    assert forall|b: V| #[trigger] m.insert(k, a).insert(k, b) == m.insert(k, b) by {
        assert(m.insert(k, a).insert(k, b) =~= m.insert(k, b));
    }
}

/// `post` holds exactly the bindings of `pre` that the predicate
/// approved, with their values.
pub open spec fn filtered_by<V, F: Fn(u64, &V) -> bool>(
    f: F,
    pre: Map<u64, V>,
    post: Map<u64, V>,
) -> bool {
    &&& forall|k: u64|
        #[trigger] post.contains_key(k) ==> pre.contains_key(k) && post[k] == pre[k]
            && call_ensures(f, (k, &pre[k]), true)
    &&& forall|k: u64|
        #[trigger] pre.contains_key(k) ==> post.contains_key(k) || call_ensures(
            f,
            (k, &pre[k]),
            false,
        )
}

/// The sharded map. Every key is a 64-bit value; the value type is
/// generic. All operations route the key's fingerprint to one shard and
/// work there; `size` tracks the sum of the shard lengths.
pub struct CHashMap<V> {
    pub hash_builder: HashBuilder,
    pub shards: Vec<IndexedShard<V>>,
    pub size: usize,
}

impl<V> View for CHashMap<V> {
    type V = Map<u64, V>;

    open spec fn view(&self) -> Map<u64, V> {
        map_view(self.hash_builder, self.shards@)
    }
}

impl<V> CHashMap<V> {
    /// The number of shards.
    pub open spec fn spec_num_shards(self) -> nat {
        self.shards@.len()
    }

    /// The number of entries: the sum of the shard lengths.
    pub open spec fn spec_size(self) -> nat {
        sum_lens(self.shards@)
    }

    /// The shard `key` routes to.
    pub open spec fn spec_route(self, key: u64) -> int {
        route_of(self.hash_builder, self.shards@.len() as int, key)
    }

    /// Well-formedness: at least one shard, every shard well formed,
    /// every entry coherent with the hash builder and its shard, and the
    /// size counter equal to the sum of the shard lengths.
    pub open spec fn wf(self) -> bool {
        &&& self.shards@.len() >= 1
        &&& shards_wf(self.shards@)
        &&& shards_coherent(self.hash_builder, self.shards@)
        &&& self.size == sum_lens(self.shards@)
    }

    /// An empty map with the given shard count and hash builder.
    pub fn with_hasher(num_shards: usize, hash_builder: HashBuilder) -> (r: Self)
        requires
            num_shards >= 1,
        ensures
            r.wf(),
            r@ == Map::<u64, V>::empty(),
            r.spec_size() == 0,
            r.spec_num_shards() == num_shards,
            r.hash_builder == hash_builder,
    {
        let mut shards: Vec<IndexedShard<V>> = Vec::new();
        while shards.len() < num_shards
            invariant
                shards@.len() <= num_shards,
                shards_wf(shards@),
                sum_lens(shards@) == 0,
                forall|s: int| 0 <= s < shards@.len() ==> (#[trigger] shards@[s]).spec_len() == 0,
            decreases num_shards - shards@.len(),
        {
            let sh = IndexedShard::<V>::new();
            proof {
                lemma_sum_lens_push(shards@, sh);
            }
            shards.push(sh);
        }
        let r = CHashMap { hash_builder, shards, size: 0 };
        proof {
            assert forall|k: u64| !(#[trigger] r@.contains_key(k)) by {
                let s = route_of(hash_builder, r.shards@.len() as int, k);
                assert(r.shards@[s].spec_len() == 0);
            }
            assert(r@ =~= Map::<u64, V>::empty());
        }
        r
    }

    /// An empty map with the given shard count and a fresh random hasher.
    pub fn new(num_shards: usize) -> (r: Self)
        requires
            num_shards >= 1,
        ensures
            r.wf(),
            r@ == Map::<u64, V>::empty(),
            r.spec_size() == 0,
            r.spec_num_shards() == num_shards,
    {
        Self::with_hasher(num_shards, HashBuilder::random())
    }

    /// The hash builder all fingerprints are derived from.
    pub fn hash_builder(&self) -> (r: &HashBuilder)
        ensures
            *r == self.hash_builder,
    {
        &self.hash_builder
    }

    /// The number of shards.
    pub fn num_shards(&self) -> (r: usize)
        ensures
            r == self.spec_num_shards(),
    {
        self.shards.len()
    }

    /// Read-only access to the shard vector.
    pub fn iter_shards(&self) -> (r: &Vec<IndexedShard<V>>)
        ensures
            *r == self.shards,
    {
        &self.shards
    }

    /// The number of entries. Equal to the sum of the per-shard lengths.
    pub fn size(&self) -> (r: usize)
        requires
            self.wf(),
        ensures
            r == self.spec_size(),
            r == sum_lens(self.shards@),
    {
        self.size
    }

    /// The key's fingerprint and the shard it routes to.
    fn hash_and_shard(&self, key: u64) -> (r: (u64, usize))
        requires
            self.shards@.len() >= 1,
        ensures
            r.0 == spec_mix64(self.hash_builder.seed, key),
            r.1 as int == self.spec_route(key),
            r.1 < self.shards@.len(),
    {
        let hash = self.hash_builder.hash_one(key);
        let s = shard_index_of(hash, self.shards.len());
        (hash, s)
    }

    /// Store `value` under `key`, returning the value previously stored
    /// there, if any. The size grows exactly when the key was vacant.
    pub fn insert(&mut self, key: u64, value: V) -> (r: Option<V>)
        requires
            old(self).wf(),
            old(self).spec_size() < usize::MAX,
        ensures
            final(self).wf(),
            final(self)@ == old(self)@.insert(key, value),
            final(self).spec_num_shards() == old(self).spec_num_shards(),
            final(self).hash_builder == old(self).hash_builder,
            match r {
                Some(v) => old(self)@.contains_key(key) && v == old(self)@[key]
                    && final(self).spec_size() == old(self).spec_size(),
                None => !old(self)@.contains_key(key)
                    && final(self).spec_size() == old(self).spec_size() + 1,
            },
    {
        let (hash, s) = self.hash_and_shard(key);
        let ghost shards0 = self.shards@;
        proof {
            lemma_route_hash_ok(self.hash_builder, shards0, key);
            lemma_view_insert(self.hash_builder, shards0, s as int, key, value);
            lemma_view_lookup(self.hash_builder, shards0, key);
        }
        let shard = &mut self.shards[s];
        let (_slot, prev) = shard.insert_full(hash, key, value);
        proof {
            lemma_sum_lens_update(shards0, s as int, self.shards@[s as int]);
            lemma_coherence_preserved(self.hash_builder, shards0, self.shards@, s as int, hash, key);
        }
        let grew = prev.is_none();
        if grew {
            self.size = self.size + 1;
        }
        prev
    }

    /// Remove the binding for `key`, returning the stored value if the
    /// key was present. The size shrinks exactly on a hit.
    pub fn remove(&mut self, key: u64) -> (r: Option<V>)
        requires
            old(self).wf(),
        ensures
            final(self).wf(),
            final(self)@ == old(self)@.remove(key),
            final(self).spec_num_shards() == old(self).spec_num_shards(),
            final(self).hash_builder == old(self).hash_builder,
            match r {
                Some(v) => old(self)@.contains_key(key) && v == old(self)@[key]
                    && final(self).spec_size() == old(self).spec_size() - 1,
                None => !old(self)@.contains_key(key) && final(self)@ == old(self)@
                    && final(self).spec_size() == old(self).spec_size(),
            },
    {
        let (hash, s) = self.hash_and_shard(key);
        let ghost shards0 = self.shards@;
        proof {
            lemma_route_hash_ok(self.hash_builder, shards0, key);
            lemma_view_remove(self.hash_builder, shards0, s as int, key);
            lemma_view_lookup(self.hash_builder, shards0, key);
            crate::shard::lemma_seq_to_map_props(shards0[s as int].entries@);
            lemma_sum_lens_bound(shards0, s as int);
        }
        let shard = &mut self.shards[s];
        let removed = shard.swap_remove_full(hash, key);
        match removed {
            Some(kv) => {
                proof {
                    lemma_sum_lens_update(shards0, s as int, self.shards@[s as int]);
                    lemma_coherence_shrunk(self.hash_builder, shards0, self.shards@, s as int);
                }
                self.size = self.size - 1;
                Some(kv.1)
            },
            None => {
                proof {
                    assert(self.shards@ =~= shards0);
                    assert(old(self)@.remove(key) =~= old(self)@);
                }
                None
            },
        }
    }

    /// Whether `key` is present. Key equality is checked, so a
    /// fingerprint collision with another key does not give a false
    /// positive.
    pub fn contains(&self, key: u64) -> (r: bool)
        requires
            self.wf(),
        ensures
            r == self@.contains_key(key),
    {
        let (hash, s) = self.hash_and_shard(key);
        proof {
            lemma_route_hash_ok(self.hash_builder, self.shards@, key);
            lemma_view_lookup(self.hash_builder, self.shards@, key);
        }
        self.shards[s].get(hash, key).is_some()
    }

    /// Whether any entry in the shard this fingerprint routes to carries
    /// this fingerprint. Distinct keys may share a fingerprint, so a hit
    /// does not mean any particular key is present; exact containment
    /// needs [`Self::contains`].
    pub fn contains_hash(&self, hash: u64) -> (r: bool)
        requires
            self.wf(),
        ensures
            r == crate::shard::seq_has_hash(
                self.shards@[(hash as usize as int) % (self.shards@.len() as int)].entries@,
                hash,
            ),
    {
        let s = shard_index_of(hash, self.shards.len());
        self.shards[s].has_hash(hash)
    }

    /// Same answer as [`Self::contains_hash`]; offered because callers of
    /// the concurrent variant use it as a contention-free best-effort
    /// check, and here nothing ever contends.
    pub fn try_maybe_contains_hash(&self, hash: u64) -> (r: bool)
        requires
            self.wf(),
        ensures
            r == crate::shard::seq_has_hash(
                self.shards@[(hash as usize as int) % (self.shards@.len() as int)].entries@,
                hash,
            ),
    {
        self.contains_hash(hash)
    }

    /// Borrow the value stored under `key`, or report its absence.
    pub fn get(&self, key: u64) -> (r: Option<&V>)
        requires
            self.wf(),
        ensures
            match r {
                Some(v) => self@.contains_key(key) && *v == self@[key],
                None => !self@.contains_key(key),
            },
    {
        let (hash, s) = self.hash_and_shard(key);
        proof {
            lemma_route_hash_ok(self.hash_builder, self.shards@, key);
            lemma_view_lookup(self.hash_builder, self.shards@, key);
        }
        self.shards[s].get(hash, key)
    }

    /// Mutable access to the value stored under `key`. Through the
    /// returned reference the caller may overwrite the value; the final
    /// map holds whatever was last written.
    pub fn get_mut(&mut self, key: u64) -> (r: Option<&mut V>)
        requires
            old(self).wf(),
        ensures
            final(self).wf(),
            final(self).spec_num_shards() == old(self).spec_num_shards(),
            final(self).hash_builder == old(self).hash_builder,
            final(self).spec_size() == old(self).spec_size(),
            match r {
                Some(v) => old(self)@.contains_key(key) && *v == old(self)@[key]
                    && final(self)@ == old(self)@.insert(key, *final(v)),
                None => !old(self)@.contains_key(key) && *final(self) == *old(self),
            },
    {
        let (hash, s) = self.hash_and_shard(key);
        let ghost shards0 = self.shards@;
        proof {
            lemma_route_hash_ok(self.hash_builder, shards0, key);
            lemma_view_lookup(self.hash_builder, shards0, key);
            crate::shard::lemma_seq_to_map_props(shards0[s as int].entries@);
        }
        let slot_opt = self.shards[s].get_index_of(hash, key);
        match slot_opt {
            Some(slot) => {
                proof {
                    lemma_container_value_update(self.hash_builder, shards0, s as int, slot as int);
                }
                let shard = &mut self.shards[s];
                let v = shard.value_at_mut(slot);
                Some(v)
            },
            None => {
                proof {
                    if self@.contains_key(key) {
                        let w = choose|w: int|
                            0 <= w < shards0[s as int].entries@.len() && (#[trigger] shards0[
                                s as int].entries@[w]).key == key;
                        assert(shards0[s as int].entries@[w].hash == hash);
                        assert(false);
                    }
                }
                None
            },
        }
    }

    /// Drop every entry from every shard, decrementing the size counter
    /// by each shard's length as that shard is cleared.
    pub fn clear(&mut self)
        requires
            old(self).wf(),
        ensures
            final(self).wf(),
            final(self)@ == Map::<u64, V>::empty(),
            final(self).spec_size() == 0,
            final(self).spec_num_shards() == old(self).spec_num_shards(),
            final(self).hash_builder == old(self).hash_builder,
    {
        let n = self.shards.len();
        let mut s: usize = 0;
        while s < n
            invariant
                n == self.shards@.len(),
                s <= n,
                self.hash_builder == old(self).hash_builder,
                shards_wf(self.shards@),
                shards_coherent(self.hash_builder, self.shards@),
                self.size == sum_lens(self.shards@),
                forall|t: int| 0 <= t < s ==> (#[trigger] self.shards@[t]).spec_len() == 0,
            decreases n - s,
        {
            let ghost pre = self.shards@;
            let len = self.shards[s].len();
            let shard = &mut self.shards[s];
            shard.clear();
            proof {
                lemma_sum_lens_bound(pre, s as int);
                lemma_sum_lens_update(pre, s as int, self.shards@[s as int]);
                lemma_coherence_shrunk(self.hash_builder, pre, self.shards@, s as int);
            }
            self.size = self.size - len;
            s += 1;
        }
        proof {
            lemma_sum_lens_zero(self.shards@);
            assert forall|k: u64| !(#[trigger] self@.contains_key(k)) by {
                let r = route_of(self.hash_builder, self.shards@.len() as int, k);
                assert(self.shards@[r].spec_len() == 0);
            }
            assert(self@ =~= Map::<u64, V>::empty());
        }
    }

    /// Keep only the bindings the predicate approves. Each resident
    /// binding is tried exactly once; survivors keep their values.
    pub fn retain<F: Fn(u64, &V) -> bool>(&mut self, f: F)
        requires
            old(self).wf(),
            forall|k: u64, v: &V| #[trigger] call_requires(f, (k, v)),
        ensures
            final(self).wf(),
            final(self).spec_num_shards() == old(self).spec_num_shards(),
            final(self).hash_builder == old(self).hash_builder,
            filtered_by(f, old(self)@, final(self)@),
    {
        let n = self.shards.len();
        let mut s: usize = 0;
        while s < n
            invariant
                n == self.shards@.len(),
                s <= n,
                self.hash_builder == old(self).hash_builder,
                self.shards@.len() == old(self).shards@.len(),
                forall|k: u64, v: &V| #[trigger] call_requires(f, (k, v)),
                shards_wf(self.shards@),
                shards_coherent(self.hash_builder, self.shards@),
                self.size == sum_lens(self.shards@),
                forall|t: int| s <= t < n ==> self.shards@[t] == old(self).shards@[t],
                forall|t: int|
                    0 <= t < s ==> filtered_by(
                        f,
                        (#[trigger] old(self).shards@[t])@,
                        self.shards@[t]@,
                    ),
            decreases n - s,
        {
            let ghost pre = self.shards@;
            let len_before = self.shards[s].len();
            let shard = &mut self.shards[s];
            shard.retain(&f);
            let len_after = self.shards[s].len();
            proof {
                lemma_sum_lens_bound(pre, s as int);
                lemma_sum_lens_update(pre, s as int, self.shards@[s as int]);
            }
            self.size = self.size - (len_before - len_after);
            proof {
                lemma_coherence_shrunk(self.hash_builder, pre, self.shards@, s as int);
            }
            s += 1;
        }
        proof {
            assert forall|k: u64| #[trigger] self@.contains_key(k) implies old(self)@.contains_key(
                k,
            ) && self@[k] == old(self)@[k] && call_ensures(f, (k, &old(self)@[k]), true) by {
                let r = route_of(self.hash_builder, self.shards@.len() as int, k);
                assert(filtered_by(f, old(self).shards@[r]@, self.shards@[r]@));
            }
            assert forall|k: u64| #[trigger] old(self)@.contains_key(k) implies self@.contains_key(
                k,
            ) || call_ensures(f, (k, &old(self)@[k]), false) by {
                let r = route_of(self.hash_builder, self.shards@.len() as int, k);
                assert(filtered_by(f, old(self).shards@[r]@, self.shards@[r]@));
            }
        }
    }

    /// Insert-if-vacant, then borrow: if `key` is absent, the factory is
    /// invoked exactly once and its result stored; either way the value
    /// now under `key` is returned by reference.
    pub fn get_or_insert<F: FnOnce() -> V>(&mut self, key: u64, on_insert: F) -> (r: &V)
        requires
            old(self).wf(),
            old(self).spec_size() < usize::MAX,
            call_requires(on_insert, ()),
        ensures
            final(self).wf(),
            final(self).spec_num_shards() == old(self).spec_num_shards(),
            final(self).hash_builder == old(self).hash_builder,
            final(self)@.contains_key(key),
            *r == final(self)@[key],
            old(self)@.contains_key(key) ==> *final(self) == *old(self) && *r == old(self)@[key],
            !old(self)@.contains_key(key) ==> (exists|v: V|
                #[trigger] call_ensures(on_insert, (), v) && final(self)@ == old(self)@.insert(
                    key,
                    v,
                )) && final(self).spec_size() == old(self).spec_size() + 1,
    {
        let (hash, s) = self.hash_and_shard(key);
        let ghost shards0 = self.shards@;
        proof {
            lemma_route_hash_ok(self.hash_builder, shards0, key);
            lemma_view_lookup(self.hash_builder, shards0, key);
            crate::shard::lemma_seq_to_map_props(shards0[s as int].entries@);
        }
        let present = self.shards[s].get_index_of(hash, key).is_some();
        if !present {
            proof {
                if self@.contains_key(key) {
                    let w = choose|w: int|
                        0 <= w < shards0[s as int].entries@.len() && (#[trigger] shards0[
                            s as int].entries@[w]).key == key;
                    assert(shards0[s as int].entries@[w].hash == hash);
                    assert(false);
                }
            }
            let value = on_insert();
            proof {
                lemma_view_insert(self.hash_builder, shards0, s as int, key, value);
            }
            let shard = &mut self.shards[s];
            let (_slot, _prev) = shard.insert_full(hash, key, value);
            proof {
                lemma_sum_lens_update(shards0, s as int, self.shards@[s as int]);
                lemma_coherence_preserved(self.hash_builder, shards0, self.shards@, s as int, hash, key);
            }
            self.size = self.size + 1;
        }
        proof {
            lemma_route_hash_ok(self.hash_builder, self.shards@, key);
            lemma_view_lookup(self.hash_builder, self.shards@, key);
        }
        let got = self.shards[s].get(hash, key);
        match got {
            Some(v) => v,
            None => {
                proof {
                    assert(false);
                }
                vstd::pervasive::unreached()
            },
        }
    }

    /// Insert-if-vacant, then borrow mutably: like
    /// [`Self::get_or_insert`], but the caller may overwrite the value,
    /// and the final map holds whatever was last written.
    pub fn get_mut_or_insert<F: FnOnce() -> V>(&mut self, key: u64, on_insert: F) -> (r: &mut V)
        requires
            old(self).wf(),
            old(self).spec_size() < usize::MAX,
            call_requires(on_insert, ()),
        ensures
            final(self).wf(),
            final(self).spec_num_shards() == old(self).spec_num_shards(),
            final(self).hash_builder == old(self).hash_builder,
            final(self)@ == old(self)@.insert(key, *final(r)),
            old(self)@.contains_key(key) ==> *r == old(self)@[key] && final(self).spec_size()
                == old(self).spec_size(),
            !old(self)@.contains_key(key) ==> (exists|v: V|
                #[trigger] call_ensures(on_insert, (), v) && *r == v) && final(self).spec_size()
                == old(self).spec_size() + 1,
    {
        let (hash, s) = self.hash_and_shard(key);
        let ghost shards0 = self.shards@;
        proof {
            lemma_route_hash_ok(self.hash_builder, shards0, key);
            lemma_view_lookup(self.hash_builder, shards0, key);
            crate::shard::lemma_seq_to_map_props(shards0[s as int].entries@);
        }
        let present = self.shards[s].get_index_of(hash, key).is_some();
        if !present {
            proof {
                if self@.contains_key(key) {
                    let w = choose|w: int|
                        0 <= w < shards0[s as int].entries@.len() && (#[trigger] shards0[
                            s as int].entries@[w]).key == key;
                    assert(shards0[s as int].entries@[w].hash == hash);
                    assert(false);
                }
            }
            let value = on_insert();
            proof {
                lemma_view_insert(self.hash_builder, shards0, s as int, key, value);
                lemma_insert_overwrite(old(self)@, key, value);
            }
            let shard = &mut self.shards[s];
            let (_slot, _prev) = shard.insert_full(hash, key, value);
            proof {
                lemma_sum_lens_update(shards0, s as int, self.shards@[s as int]);
                lemma_coherence_preserved(self.hash_builder, shards0, self.shards@, s as int, hash, key);
            }
            self.size = self.size + 1;
        }
        let ghost mid = *self;
        proof {
            lemma_route_hash_ok(self.hash_builder, self.shards@, key);
            lemma_view_lookup(self.hash_builder, self.shards@, key);
            crate::shard::lemma_seq_to_map_props(self.shards@[s as int].entries@);
        }
        let slot = match self.shards[s].get_index_of(hash, key) {
            Some(i) => i,
            None => {
                proof {
                    assert(false);
                }
                vstd::pervasive::unreached()
            },
        };
        proof {
            lemma_container_value_update(self.hash_builder, self.shards@, s as int, slot as int);
        }
        let shard = &mut self.shards[s];
        shard.value_at_mut(slot)
    }
}

impl<V: Copy> CHashMap<V> {
    /// The value stored under `key`, copied out; the map is untouched.
    pub fn get_cloned(&self, key: u64) -> (r: Option<V>)
        requires
            self.wf(),
        ensures
            match r {
                Some(v) => self@.contains_key(key) && v == self@[key],
                None => !self@.contains_key(key),
            },
    {
        match self.get(key) {
            Some(v) => Some(*v),
            None => None,
        }
    }

    /// A deep, point-in-time copy: a fresh map over the same hash builder
    /// holding exactly the same bindings. The copy and the original are
    /// independent afterwards.
    pub fn duplicate(&self) -> (r: Self)
        requires
            self.wf(),
        ensures
            r.wf(),
            r@ == self@,
            r.spec_size() == self.spec_size(),
            r.spec_num_shards() == self.spec_num_shards(),
            r.hash_builder == self.hash_builder,
    {
        let n = self.shards.len();
        let mut shards: Vec<IndexedShard<V>> = Vec::new();
        let mut s: usize = 0;
        while s < n
            invariant
                n == self.shards@.len(),
                s <= n,
                shards@.len() == s,
                forall|t: int|
                    0 <= t < s ==> (#[trigger] shards@[t]).entries@ == self.shards@[t].entries@
                        && shards@[t].indices@ == self.shards@[t].indices@,
            decreases n - s,
        {
            let copy = self.shards[s].duplicate();
            shards.push(copy);
            s += 1;
        }
        let r = CHashMap { hash_builder: self.hash_builder, shards, size: self.size };
        proof {
            lemma_sum_lens_pointwise(r.shards@, self.shards@);
            assert forall|t: int, w: int|
                0 <= t < r.shards@.len() && 0 <= w < r.shards@[t].entries@.len() implies ((
            #[trigger] r.shards@[t].entries@[w]).hash == spec_mix64(
                r.hash_builder.seed,
                r.shards@[t].entries@[w].key,
            ) && route_of(
                r.hash_builder,
                r.shards@.len() as int,
                r.shards@[t].entries@[w].key,
            ) == t) by {
                assert(r.shards@[t].entries@[w] == self.shards@[t].entries@[w]);
            }
            assert forall|t: int| 0 <= t < r.shards@.len() implies (
            #[trigger] r.shards@[t]).wf() by {
                assert(self.shards@[t].wf());
            }
            assert forall|k: u64|
                r@.contains_key(k) == self@.contains_key(k) && (r@.contains_key(k) ==> r@[k]
                    == self@[k]) by {
                let t = route_of(self.hash_builder, self.shards@.len() as int, k);
                assert(r.shards@[t]@ == self.shards@[t]@);
            }
            assert(r@ =~= self@);
        }
        r
    }
}

/// A prefix of the shard vector sums to no more than the whole.
pub proof fn lemma_sum_lens_prefix<V>(a: Seq<IndexedShard<V>>, t: int)
    requires
        0 <= t <= a.len(),
    ensures
        sum_lens(a.subrange(0, t)) <= sum_lens(a),
    decreases a.len() - t,
{
    if t == a.len() {
        assert(a.subrange(0, t) =~= a);
    } else {
        assert(a.subrange(0, t + 1).drop_last() =~= a.subrange(0, t));
        assert(a.subrange(0, t + 1).last() == a[t]);
        lemma_sum_lens_prefix(a, t + 1);
    }
}

/// Two distinct shards together hold no more than the whole.
pub proof fn lemma_sum_lens_pair<V>(a: Seq<IndexedShard<V>>, t1: int, t2: int)
    requires
        0 <= t1 < a.len(),
        0 <= t2 < a.len(),
        t1 != t2,
    ensures
        a[t1].spec_len() + a[t2].spec_len() <= sum_lens(a),
    decreases a.len(),
{
    if t1 == a.len() - 1 {
        assert(a.drop_last()[t2] == a[t2]);
        lemma_sum_lens_bound(a.drop_last(), t2);
    } else if t2 == a.len() - 1 {
        assert(a.drop_last()[t1] == a[t1]);
        lemma_sum_lens_bound(a.drop_last(), t1);
    } else {
        assert(a.drop_last()[t1] == a[t1] && a.drop_last()[t2] == a[t2]);
        lemma_sum_lens_pair(a.drop_last(), t1, t2);
    }
}

/// A non-empty total holds some non-empty shard.
pub proof fn lemma_sum_lens_nonzero<V>(a: Seq<IndexedShard<V>>)
    requires
        sum_lens(a) > 0,
    ensures
        exists|t: int| 0 <= t < a.len() && (#[trigger] a[t]).spec_len() > 0,
    decreases a.len(),
{
    if a.len() > 0 {
        if a.last().spec_len() > 0 {
            assert(a[a.len() - 1].spec_len() > 0);
        } else {
            lemma_sum_lens_nonzero(a.drop_last());
            let t = choose|t: int|
                0 <= t < a.len() - 1 && (#[trigger] a.drop_last()[t]).spec_len() > 0;
            assert(a[t].spec_len() > 0);
        }
    }
}

impl<V: Copy> CHashMap<V> {
    /// Answer a whole batch of keys while visiting each shard at most
    /// once: the result lists, for each shard in index order, the queried
    /// keys landing in that shard in input order, each paired with its
    /// binding or its absence.
    pub fn batch_read(&self, keys: &Vec<u64>) -> (r: Vec<(u64, Option<V>)>)
        requires
            self.wf(),
        ensures
            r@ == batch_expected(self.hash_builder, self.shards@.len() as int, self@, keys@, 0),
            r@.len() == keys@.len(),
    {
        proof {
            lemma_batch_expected_len(self.hash_builder, self.shards@.len() as int, self@, keys@);
        }
        let n = self.shards.len();
        let mut out: Vec<(u64, Option<V>)> = Vec::new();
        let mut s: usize = 0;
        while s < n
            invariant
                self.wf(),
                n == self.shards@.len(),
                s <= n,
                out@ + batch_expected(self.hash_builder, n as int, self@, keys@, s as int)
                    == batch_expected(self.hash_builder, n as int, self@, keys@, 0),
            decreases n - s,
        {
            let ghost out_pre = out@;
            let ghost pred = routes_to(self.hash_builder, n as int, s as int);
            let ghost pairing = paired_with::<V>(self@);
            proof {
                reveal(Seq::filter);
                assert(keys@.take(0).filter(pred).map_values(pairing) =~= Seq::<(
                    u64,
                    Option<V>,
                )>::empty());
                assert(out@ =~= out_pre + keys@.take(0).filter(pred).map_values(pairing));
            }
            let mut j: usize = 0;
            while j < keys.len()
                invariant
                    self.wf(),
                    n == self.shards@.len(),
                    s < n,
                    j <= keys@.len(),
                    pred == routes_to(self.hash_builder, n as int, s as int),
                    pairing == paired_with::<V>(self@),
                    out@ == out_pre + keys@.take(j as int).filter(pred).map_values(pairing),
                decreases keys@.len() - j,
            {
                let key = keys[j];
                let (hash, t) = self.hash_and_shard(key);
                proof {
                    reveal(Seq::filter);
                    let kpre = keys@.take(j as int);
                    let knext = keys@.take(j + 1 as int);
                    assert(knext.drop_last() =~= kpre);
                    assert(knext.last() == key);
                    assert(pred(key) == (t as int == s as int));
                    if t == s {
                        assert(knext.filter(pred) == kpre.filter(pred).push(key));
                        assert(knext.filter(pred).map_values(pairing) =~= kpre.filter(
                            pred,
                        ).map_values(pairing).push(pairing(key)));
                    } else {
                        assert(knext.filter(pred) == kpre.filter(pred));
                    }
                }
                if t == s {
                    proof {
                        lemma_route_hash_ok(self.hash_builder, self.shards@, key);
                        lemma_view_lookup(self.hash_builder, self.shards@, key);
                    }
                    let got = match self.shards[s].get(hash, key) {
                        Some(v) => Some(*v),
                        None => None,
                    };
                    out.push((key, got));
                    proof {
                        assert((key, got) == pairing(key));
                        assert(out@ =~= out_pre + keys@.take(j + 1 as int).filter(
                            pred,
                        ).map_values(pairing));
                    }
                }
                j += 1;
            }
            proof {
                assert(keys@.take(keys@.len() as int) =~= keys@);
                assert(out@ == out_pre + batch_group(
                    self.hash_builder,
                    n as int,
                    self@,
                    keys@,
                    s as int,
                ));
                assert((out_pre + batch_group(self.hash_builder, n as int, self@, keys@, s as int))
                    + batch_expected(self.hash_builder, n as int, self@, keys@, s + 1 as int)
                    =~= out_pre + (batch_group(self.hash_builder, n as int, self@, keys@, s as int)
                    + batch_expected(self.hash_builder, n as int, self@, keys@, s + 1 as int)));
            }
            s += 1;
        }
        proof {
            assert(out@ + batch_expected(self.hash_builder, n as int, self@, keys@, n as int)
                =~= out@);
        }
        out
    }
}

impl<V> CHashMap<V> {
    /// Carry out a batched write: walking the shards in index order, each
    /// occurrence of each input key routing to the shard is looked up,
    /// shown to the decision function with the binding current at that
    /// moment, and the decision — keep, store a value, or remove — is
    /// applied before the next visit. Duplicate keys are visited once per
    /// occurrence, each seeing the effect of the previous.
    pub fn batch_write<F: Fn(u64, Option<&V>) -> BatchOp<V>>(&mut self, keys: &Vec<u64>, f: F)
        requires
            old(self).wf(),
            old(self).spec_size() + keys@.len() < usize::MAX,
            forall|k: u64, o: Option<&V>| #[trigger] call_requires(f, (k, o)),
        ensures
            final(self).wf(),
            final(self).spec_num_shards() == old(self).spec_num_shards(),
            final(self).hash_builder == old(self).hash_builder,
            batch_pass(
                f,
                visit_order(old(self).hash_builder, old(self).spec_num_shards() as int, keys@, 0),
                old(self)@,
                final(self)@,
            ),
            forall|k: u64|
                !keys@.contains(k) ==> (final(self)@.contains_key(k) == old(self)@.contains_key(k)
                    && (old(self)@.contains_key(k) ==> final(self)@[k] == old(self)@[k])),
    {
        let ghost m0 = self@;
        let ghost size0 = self.spec_size();
        let ghost mut grown: Set<u64> = Set::empty();
        let n = self.shards.len();
        let mut s: usize = 0;
        proof {
            assert(batch_pass(f, visit_prefix(self.hash_builder, n as int, keys@, 0), m0, self@));
        }
        while s < n
            invariant
                self.wf(),
                n == self.shards@.len(),
                self.hash_builder == old(self).hash_builder,
                s <= n,
                m0 == old(self)@,
                size0 == old(self).spec_size(),
                size0 + keys@.len() < usize::MAX,
                forall|k: u64, o: Option<&V>| #[trigger] call_requires(f, (k, o)),
                grown.finite(),
                grown.subset_of(keys@.to_set()),
                forall|k: u64| #[trigger] grown.contains(k) ==> self@.contains_key(k),
                self.spec_size() <= size0 + grown.len(),
                batch_pass(
                    f,
                    visit_prefix(self.hash_builder, n as int, keys@, s as int),
                    m0,
                    self@,
                ),
                forall|k: u64|
                    !keys@.contains(k) ==> (self@.contains_key(k) == m0.contains_key(k) && (
                    m0.contains_key(k) ==> self@[k] == m0[k])),
            decreases n - s,
        {
            let ghost pred = routes_to(self.hash_builder, n as int, s as int);
            proof {
                reveal(Seq::filter);
                assert(keys@.take(0).filter(pred) =~= Seq::<u64>::empty());
                assert(visit_prefix(self.hash_builder, n as int, keys@, s as int) + keys@.take(
                    0,
                ).filter(pred) =~= visit_prefix(self.hash_builder, n as int, keys@, s as int));
            }
            let mut j: usize = 0;
            while j < keys.len()
                invariant
                    self.wf(),
                    n == self.shards@.len(),
                    self.hash_builder == old(self).hash_builder,
                    s < n,
                    j <= keys@.len(),
                    m0 == old(self)@,
                    size0 == old(self).spec_size(),
                    size0 + keys@.len() < usize::MAX,
                    pred == routes_to(self.hash_builder, n as int, s as int),
                    forall|k: u64, o: Option<&V>| #[trigger] call_requires(f, (k, o)),
                    grown.finite(),
                    grown.subset_of(keys@.to_set()),
                    forall|k: u64| #[trigger] grown.contains(k) ==> self@.contains_key(k),
                    self.spec_size() <= size0 + grown.len(),
                    batch_pass(
                        f,
                        visit_prefix(self.hash_builder, n as int, keys@, s as int) + keys@.take(
                            j as int,
                        ).filter(pred),
                        m0,
                        self@,
                    ),
                    forall|k: u64|
                        !keys@.contains(k) ==> (self@.contains_key(k) == m0.contains_key(k) && (
                        m0.contains_key(k) ==> self@[k] == m0[k])),
                decreases keys@.len() - j,
            {
                let key = keys[j];
                let (_hash, t) = self.hash_and_shard(key);
                proof {
                    reveal(Seq::filter);
                    let kpre = keys@.take(j as int);
                    let knext = keys@.take(j + 1 as int);
                    assert(knext.drop_last() =~= kpre);
                    assert(knext.last() == key);
                    assert(pred(key) == (t as int == s as int));
                    if t == s {
                        assert(knext.filter(pred) == kpre.filter(pred).push(key));
                    } else {
                        assert(knext.filter(pred) == kpre.filter(pred));
                    }
                }
                if t == s {
                    proof {
                        assert(keys@[j as int] == key);
                        assert(keys@.contains(key));
                    }
                    let ghost mid = self@;
                    let ghost visited = visit_prefix(self.hash_builder, n as int, keys@, s as int)
                        + keys@.take(j as int).filter(pred);
                    let cur = self.get(key);
                    let decision = match cur {
                        Some(v) => f(key, Some(v)),
                        None => f(key, None),
                    };
                    match decision {
                        BatchOp::Keep => {
                            proof {
                                assert(self@ == apply_decision(mid, key, decision));
                            }
                        },
                        BatchOp::Put(v) => {
                            proof {
                                keys@.lemma_cardinality_of_set();
                                vstd::set_lib::lemma_len_subset(grown, keys@.to_set());
                                if !self@.contains_key(key) {
                                    assert(!grown.contains(key));
                                    grown = grown.insert(key);
                                    vstd::set_lib::lemma_len_subset(grown, keys@.to_set());
                                }
                            }
                            let _prev = self.insert(key, v);
                            proof {
                                assert(self@ == apply_decision(mid, key, decision));
                            }
                        },
                        BatchOp::Remove => {
                            let _prev = self.remove(key);
                            proof {
                                grown = grown.remove(key);
                                assert(self@ == apply_decision(mid, key, decision));
                            }
                        },
                    }
                    proof {
                        // this visit is one step of the pass, shown the
                        // binding current at its moment
                        if mid.contains_key(key) {
                            assert(call_ensures(f, (key, Option::Some(&mid[key])), decision));
                            assert(step_applied(f, mid, self@, key, Option::Some(&mid[key])));
                        } else {
                            assert(call_ensures(f, (key, Option::<&V>::None), decision));
                            assert(step_applied(f, mid, self@, key, Option::<&V>::None));
                        }
                        lemma_batch_pass_push(f, visited, m0, mid, self@, key);
                        assert(visited.push(key) =~= visit_prefix(
                            self.hash_builder,
                            n as int,
                            keys@,
                            s as int,
                        ) + keys@.take(j + 1 as int).filter(pred));
                    }
                }
                j += 1;
            }
            proof {
                assert(keys@.take(keys@.len() as int) =~= keys@);
                assert(visit_prefix(self.hash_builder, n as int, keys@, s as int) + keys@.filter(
                    pred,
                ) == visit_prefix(self.hash_builder, n as int, keys@, s + 1 as int));
            }
            s += 1;
        }
        proof {
            lemma_visit_split(self.hash_builder, n as int, keys@, n as int);
            assert(visit_prefix(self.hash_builder, n as int, keys@, n as int) + visit_order(
                self.hash_builder,
                n as int,
                keys@,
                n as int,
            ) =~= visit_prefix(self.hash_builder, n as int, keys@, n as int));
        }
    }

    /// Insert-if-vacant with the value type's default, then borrow.
    /// Verus carries no specification for a generic `V::default()`, so
    /// on the vacant path the contract pins only that some value was
    /// stored.
    pub fn get_or_default(&mut self, key: u64) -> (r: &V) where V: Default
        requires
            old(self).wf(),
            old(self).spec_size() < usize::MAX,
        ensures
            final(self).wf(),
            final(self).spec_num_shards() == old(self).spec_num_shards(),
            final(self).hash_builder == old(self).hash_builder,
            final(self)@.contains_key(key),
            *r == final(self)@[key],
            old(self)@.contains_key(key) ==> *final(self) == *old(self) && *r == old(self)@[key],
            !old(self)@.contains_key(key) ==> (exists|v: V|
                final(self)@ == old(self)@.insert(key, v)) && final(self).spec_size() == old(
                self,
            ).spec_size() + 1,
    {
        let factory = || -> V { V::default() };
        let r = self.get_or_insert(key, factory);
        r
    }

    /// Insert-if-vacant with the value type's default, then borrow
    /// mutably. As with [`Self::get_or_default`], the default value
    /// itself is unspecified to Verus.
    pub fn get_mut_or_default(&mut self, key: u64) -> (r: &mut V) where V: Default
        requires
            old(self).wf(),
            old(self).spec_size() < usize::MAX,
        ensures
            final(self).wf(),
            final(self).spec_num_shards() == old(self).spec_num_shards(),
            final(self).hash_builder == old(self).hash_builder,
            final(self)@ == old(self)@.insert(key, *final(r)),
            old(self)@.contains_key(key) ==> *r == old(self)@[key] && final(self).spec_size()
                == old(self).spec_size(),
            !old(self)@.contains_key(key) ==> final(self).spec_size() == old(self).spec_size() + 1,
    {
        let factory = || -> V { V::default() };
        let r = self.get_mut_or_insert(key, factory);
        r
    }
}

impl<V> Default for CHashMap<V> {
    /// An empty map with one shard per logical CPU.
    fn default() -> (r: Self)
        ensures
            r.wf(),
            r@ == Map::<u64, V>::empty(),
            r.spec_size() == 0,
            r.spec_num_shards() >= 1,
    {
        CHashMap::new(crate::cpu_count())
    }
}

/// Insert/remove round trip: after storing `v` under `k` the binding is
/// exactly `v` — so `remove`, whose contract returns the binding of a
/// present key, yields `v` — and an empty association holds nothing to
/// remove.
pub proof fn lemma_insert_remove_round_trip<V>(m: Map<u64, V>, k: u64, v: V)
    ensures
        m.insert(k, v).contains_key(k),
        m.insert(k, v)[k] == v,
        m.insert(k, v).remove(k) == m.remove(k),
        !Map::<u64, V>::empty().contains_key(k),
{
    assert(m.insert(k, v).remove(k) =~= m.remove(k));
}

/// Insert is idempotent in shape: storing under the same key twice leaves
/// the domain — and hence the size, which the containers tie to their
/// views — exactly as after the first store, and the second store's
/// contract returns the first value as the previous binding.
pub proof fn lemma_insert_idempotent_shape<V>(m: Map<u64, V>, k: u64, v1: V, v2: V)
    ensures
        m.insert(k, v1).contains_key(k),
        m.insert(k, v1)[k] == v1,
        m.insert(k, v1).insert(k, v2) == m.insert(k, v2),
        m.insert(k, v1).insert(k, v2).dom() == m.insert(k, v1).dom(),
{
    assert(m.insert(k, v1).insert(k, v2) =~= m.insert(k, v2));
    assert(m.insert(k, v1).insert(k, v2).dom() =~= m.insert(k, v1).dom());
}

/// The sum of the lengths of all-empty shards is zero.
pub proof fn lemma_sum_lens_zero<V>(a: Seq<IndexedShard<V>>)
    requires
        forall|t: int| 0 <= t < a.len() ==> (#[trigger] a[t]).spec_len() == 0,
    ensures
        sum_lens(a) == 0,
    decreases a.len(),
{
    if a.len() > 0 {
        assert(forall|t: int|
            0 <= t < a.len() - 1 ==> (#[trigger] a.drop_last()[t]).spec_len() == 0);
        lemma_sum_lens_zero(a.drop_last());
    }
}

/// The routing predicate for one shard: whether a key lands there.
pub open spec fn routes_to(hb: HashBuilder, num: int, s: int) -> spec_fn(u64) -> bool {
    |k: u64| route_of(hb, num, k) == s
}

/// Pair each key with its binding in `m`.
pub open spec fn paired_with<V>(m: Map<u64, V>) -> spec_fn(u64) -> (u64, Option<V>) {
    |k: u64|
        (
            k,
            if m.contains_key(k) {
                Option::Some(m[k])
            } else {
                Option::None
            },
        )
}

/// One shard's share of a batch answer: the queried keys landing in shard
/// `s`, in input order, each paired with its binding.
pub open spec fn batch_group<V>(
    hb: HashBuilder,
    num: int,
    m: Map<u64, V>,
    keys: Seq<u64>,
    s: int,
) -> Seq<(u64, Option<V>)> {
    keys.filter(routes_to(hb, num, s)).map_values(paired_with(m))
}

/// The whole batch answer from shard `s` on: shard by shard, each shard's
/// group.
pub open spec fn batch_expected<V>(
    hb: HashBuilder,
    num: int,
    m: Map<u64, V>,
    keys: Seq<u64>,
    s: int,
) -> Seq<(u64, Option<V>)>
    decreases num - s,
{
    if s < 0 || s >= num {
        Seq::empty()
    } else {
        batch_group(hb, num, m, keys, s) + batch_expected(hb, num, m, keys, s + 1)
    }
}

/// A batch answer for an empty key list is empty.
proof fn lemma_batch_expected_empty<V>(hb: HashBuilder, num: int, m: Map<u64, V>, s: int)
    ensures
        batch_expected(hb, num, m, Seq::<u64>::empty(), s).len() == 0,
    decreases num - s,
{
    reveal(Seq::filter);
    if s < 0 || s >= num {
    } else {
        assert(Seq::<u64>::empty().filter(routes_to(hb, num, s)) =~= Seq::<u64>::empty());
        lemma_batch_expected_empty(hb, num, m, s + 1);
        assert(batch_group(hb, num, m, Seq::<u64>::empty(), s).len() == 0);
    }
}

/// Appending one key grows the batch answer by exactly one entry — in the
/// group of the shard the key routes to.
proof fn lemma_batch_expected_push<V>(
    hb: HashBuilder,
    num: int,
    m: Map<u64, V>,
    keys: Seq<u64>,
    x: u64,
    s: int,
)
    requires
        0 <= s,
    ensures
        batch_expected(hb, num, m, keys.push(x), s).len() == batch_expected(
            hb,
            num,
            m,
            keys,
            s,
        ).len() + (if s <= route_of(hb, num, x) < num {
            1int
        } else {
            0int
        }),
    decreases num - s,
{
    reveal(Seq::filter);
    if s >= num {
    } else {
        let pred = routes_to(hb, num, s);
        assert(keys.push(x).drop_last() =~= keys);
        assert(keys.push(x).last() == x);
        if pred(x) {
            assert(keys.push(x).filter(pred) == keys.filter(pred).push(x));
        } else {
            assert(keys.push(x).filter(pred) == keys.filter(pred));
        }
        lemma_batch_expected_push(hb, num, m, keys, x, s + 1);
    }
}

/// The batch answer holds exactly one entry per queried key.
pub proof fn lemma_batch_expected_len<V>(hb: HashBuilder, num: int, m: Map<u64, V>, keys: Seq<u64>)
    requires
        num >= 1,
    ensures
        batch_expected(hb, num, m, keys, 0).len() == keys.len(),
    decreases keys.len(),
{
    if keys.len() == 0 {
        assert(keys =~= Seq::<u64>::empty());
        lemma_batch_expected_empty(hb, num, m, 0);
    } else {
        let kpre = keys.drop_last();
        let x = keys.last();
        assert(kpre.push(x) =~= keys);
        lemma_batch_expected_len(hb, num, m, kpre);
        lemma_batch_expected_push(hb, num, m, kpre, x, 0);
        assert(0 <= route_of(hb, num, x) < num);
    }
}

/// A decision for one key of a batched write.
pub enum BatchOp<V> {
    /// Leave the binding as it is.
    Keep,
    /// Store this value under the key.
    Put(V),
    /// Remove the key's binding.
    Remove,
}

/// The order a batched operation visits keys in: for each shard in index
/// order (from `s` on), the input keys routing to it, in input order.
/// Duplicate keys keep every occurrence.
pub open spec fn visit_order(hb: HashBuilder, num: int, keys: Seq<u64>, s: int) -> Seq<u64>
    decreases num - s,
{
    if s < 0 || s >= num {
        Seq::empty()
    } else {
        keys.filter(routes_to(hb, num, s)) + visit_order(hb, num, keys, s + 1)
    }
}

/// The keys already visited when the walk reaches shard `s`: the groups
/// of the shards before it.
pub open spec fn visit_prefix(hb: HashBuilder, num: int, keys: Seq<u64>, s: int) -> Seq<u64>
    decreases s,
{
    if s <= 0 {
        Seq::empty()
    } else {
        visit_prefix(hb, num, keys, s - 1) + keys.filter(routes_to(hb, num, s - 1))
    }
}

/// The visited prefix and the remaining order together make the whole
/// order.
pub proof fn lemma_visit_split(hb: HashBuilder, num: int, keys: Seq<u64>, s: int)
    requires
        0 <= s <= num,
    ensures
        visit_prefix(hb, num, keys, s) + visit_order(hb, num, keys, s) == visit_order(
            hb,
            num,
            keys,
            0,
        ),
    decreases s,
{
    if s == 0 {
        assert(visit_prefix(hb, num, keys, 0) + visit_order(hb, num, keys, 0) =~= visit_order(
            hb,
            num,
            keys,
            0,
        ));
    } else {
        lemma_visit_split(hb, num, keys, s - 1);
        assert((visit_prefix(hb, num, keys, s - 1) + keys.filter(routes_to(hb, num, s - 1)))
            + visit_order(hb, num, keys, s) =~= visit_prefix(hb, num, keys, s - 1) + (keys.filter(
            routes_to(hb, num, s - 1),
        ) + visit_order(hb, num, keys, s)));
    }
}

/// The association after carrying out one decision for `k`.
pub open spec fn apply_decision<V>(m: Map<u64, V>, k: u64, d: BatchOp<V>) -> Map<u64, V> {
    match d {
        BatchOp::Keep => m,
        BatchOp::Put(v) => m.insert(k, v),
        BatchOp::Remove => m.remove(k),
    }
}

/// One visit of `k`, shown the binding `o`: some decision the function
/// could have made carried `pre` to `post`.
pub open spec fn step_applied<V, F: Fn(u64, Option<&V>) -> BatchOp<V>>(
    f: F,
    pre: Map<u64, V>,
    post: Map<u64, V>,
    k: u64,
    o: Option<&V>,
) -> bool {
    exists|d: BatchOp<V>| #[trigger] call_ensures(f, (k, o), d) && post == apply_decision(pre, k, d)
}

/// One visit of `k`, shown the binding `pre` holds for it at that moment.
pub open spec fn step_applied_at<V, F: Fn(u64, Option<&V>) -> BatchOp<V>>(
    f: F,
    pre: Map<u64, V>,
    post: Map<u64, V>,
    k: u64,
) -> bool {
    if pre.contains_key(k) {
        step_applied(f, pre, post, k, Option::Some(&pre[k]))
    } else {
        step_applied(f, pre, post, k, Option::None)
    }
}

/// A whole batched pass: the visits carried `pre` to `post` one decision
/// at a time, each shown the binding current at its own visit — so a
/// duplicated key is decided once per occurrence, each seeing the effect
/// of the previous.
pub open spec fn batch_pass<V, F: Fn(u64, Option<&V>) -> BatchOp<V>>(
    f: F,
    visits: Seq<u64>,
    pre: Map<u64, V>,
    post: Map<u64, V>,
) -> bool
    decreases visits.len(),
{
    if visits.len() == 0 {
        post == pre
    } else {
        exists|mid: Map<u64, V>|
            #[trigger] step_applied_at(f, pre, mid, visits[0]) && batch_pass(
                f,
                visits.drop_first(),
                mid,
                post,
            )
    }
}

/// A pass extends by one more visit at its end.
pub proof fn lemma_batch_pass_push<V, F: Fn(u64, Option<&V>) -> BatchOp<V>>(
    f: F,
    visits: Seq<u64>,
    pre: Map<u64, V>,
    mid: Map<u64, V>,
    post: Map<u64, V>,
    k: u64,
)
    requires
        batch_pass(f, visits, pre, mid),
        step_applied_at(f, mid, post, k),
    ensures
        batch_pass(f, visits.push(k), pre, post),
    decreases visits.len(),
{
    let v2 = visits.push(k);
    if visits.len() == 0 {
        assert(v2.drop_first() =~= Seq::<u64>::empty());
        assert(v2[0] == k);
        assert(step_applied_at(f, pre, post, k));
        assert(batch_pass(f, v2.drop_first(), post, post));
    } else {
        let mid1 = choose|mid1: Map<u64, V>|
            #[trigger] step_applied_at(f, pre, mid1, visits[0]) && batch_pass(
                f,
                visits.drop_first(),
                mid1,
                mid,
            );
        lemma_batch_pass_push(f, visits.drop_first(), mid1, mid, post, k);
        assert(v2.drop_first() =~= visits.drop_first().push(k));
        assert(v2[0] == visits[0]);
        assert(step_applied_at(f, pre, mid1, v2[0]) && batch_pass(f, v2.drop_first(), mid1, post));
    }
}

/// Two shard vectors with pointwise equal lengths have equal sums.
pub proof fn lemma_sum_lens_pointwise<V>(a: Seq<IndexedShard<V>>, b: Seq<IndexedShard<V>>)
    requires
        a.len() == b.len(),
        forall|t: int| 0 <= t < a.len() ==> (#[trigger] a[t]).spec_len() == b[t].spec_len(),
    ensures
        sum_lens(a) == sum_lens(b),
    decreases a.len(),
{
    if a.len() > 0 {
        assert(forall|t: int|
            0 <= t < a.len() - 1 ==> (#[trigger] a.drop_last()[t]).spec_len()
                == b.drop_last()[t].spec_len());
        lemma_sum_lens_pointwise(a.drop_last(), b.drop_last());
    }
}

} // verus!
