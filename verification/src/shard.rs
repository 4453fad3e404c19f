//! The indexed shard: a dense vector of entries plus a slot index.
//!
//! Each shard stores its entries in a dense vector, so that the eviction
//! engine can pick an entry uniformly at random by drawing a slot number.
//! A separate index — a list of (fingerprint, slot) pairs standing in for a
//! hash table keyed by fingerprint — maps fingerprints back to slots.
//! Removal is by swap-remove: the last entry moves into the vacated slot
//! and its index entry is repaired. The invariant [`IndexedShard::wf`] ties
//! the two structures together: one index entry per slot, carrying the
//! fingerprint of the entry it points at.
//!
//! Fingerprint collisions are permitted: two distinct keys may share a
//! fingerprint, and lookups disambiguate by comparing the key stored at the
//! referenced slot.

use vstd::pervasive::VecAdditionalExecFns;
use vstd::prelude::*;

verus! {

/// One stored entry: the key, its precomputed fingerprint, and the value.
pub struct Bucket<V> {
    pub hash: u64,
    pub key: u64,
    pub value: V,
}

/// One entry of the slot index: a fingerprint and the slot it points at.
#[derive(Clone, Copy)]
pub struct IndexSlot {
    pub hash: u64,
    pub slot: usize,
}

/// A shard: dense entries addressable by slot, plus the slot index.
pub struct IndexedShard<V> {
    pub indices: Vec<IndexSlot>,
    pub entries: Vec<Bucket<V>>,
}

/// No two entries share a key.
pub open spec fn keys_unique<V>(s: Seq<Bucket<V>>) -> bool {
    forall|i: int, j: int|
        0 <= i < j < s.len() ==> (#[trigger] s[i]).key != (#[trigger] s[j]).key
}

/// Some entry holds `key`.
pub open spec fn seq_has_key<V>(s: Seq<Bucket<V>>, key: u64) -> bool {
    exists|i: int| 0 <= i < s.len() && (#[trigger] s[i]).key == key
}

/// The association from keys to values held by a sequence of entries;
/// on duplicate keys the later entry wins, though well-formed shards
/// never hold duplicates.
pub open spec fn seq_to_map<V>(s: Seq<Bucket<V>>) -> Map<u64, V>
    decreases s.len(),
{
    if s.len() == 0 {
        Map::empty()
    } else {
        seq_to_map(s.drop_last()).insert(s.last().key, s.last().value)
    }
}

/// Some entry in `s` carries fingerprint `h`.
pub open spec fn seq_has_hash<V>(s: Seq<Bucket<V>>, h: u64) -> bool {
    exists|i: int| 0 <= i < s.len() && (#[trigger] s[i]).hash == h
}

/// Some pair in `s` holds key `k`.
pub open spec fn holds_key<V>(s: Seq<(u64, V)>, k: u64) -> bool {
    exists|w: int| 0 <= w < s.len() && (#[trigger] s[w]).0 == k
}

/// Some index entry points at slot `i`.
pub open spec fn slot_indexed(ix: Seq<IndexSlot>, i: int) -> bool {
    exists|j: int| 0 <= j < ix.len() && (#[trigger] ix[j]).slot == i
}

/// The (fingerprint, key) pair of `b` occurs in `s`.
pub open spec fn pair_in<V>(s: Seq<Bucket<V>>, b: Bucket<V>) -> bool {
    exists|j: int|
        0 <= j < s.len() && (#[trigger] s[j]).key == b.key && s[j].hash == b.hash
}

/// The (fingerprint, key) pair of `b` occurs in `s`, or is the given pair.
pub open spec fn pair_in_or_new<V>(s: Seq<Bucket<V>>, b: Bucket<V>, hash: u64, key: u64) -> bool {
    pair_in(s, b) || (b.key == key && b.hash == hash)
}

impl<V> View for IndexedShard<V> {
    type V = Map<u64, V>;

    open spec fn view(&self) -> Map<u64, V> {
        seq_to_map(self.entries@)
    }
}

/// Well-formedness of the pair (index, entries): as many index entries as
/// entries, no duplicate keys, every index entry points at a valid slot
/// and carries that slot's fingerprint, no two index entries point at the
/// same slot, and every slot is pointed at.
pub open spec fn shard_inv<V>(ix: Seq<IndexSlot>, e: Seq<Bucket<V>>) -> bool {
    &&& ix.len() == e.len()
    &&& keys_unique(e)
    &&& forall|j: int|
        0 <= j < ix.len() ==> (#[trigger] ix[j]).slot < e.len()
            && ix[j].hash == e[ix[j].slot as int].hash
    &&& forall|j1: int, j2: int|
        0 <= j1 < j2 < ix.len() ==> (#[trigger] ix[j1]).slot != (#[trigger] ix[j2]).slot
    &&& forall|i: int| 0 <= i < e.len() ==> slot_indexed(ix, i)
}

impl<V> IndexedShard<V> {
    /// The number of entries.
    pub open spec fn spec_len(self) -> nat {
        self.entries@.len()
    }

    /// Well-formedness; see [`shard_inv`].
    pub open spec fn wf(self) -> bool {
        shard_inv(self.indices@, self.entries@)
    }

    /// `key` may be looked up under fingerprint `hash` here: every stored
    /// entry holding `key` carries `hash`. Containers guarantee this by
    /// deriving every fingerprint from the key with one hash builder.
    pub open spec fn hash_ok(self, hash: u64, key: u64) -> bool {
        forall|i: int|
            0 <= i < self.entries@.len() ==> ((#[trigger] self.entries@[i]).key == key
                ==> self.entries@[i].hash == hash)
    }
}

/// What `seq_to_map` holds, spelled out for sequences without duplicate
/// keys: its domain is exactly the keys present, and each entry's key maps
/// to that entry's value.
pub proof fn lemma_seq_to_map_props<V>(s: Seq<Bucket<V>>)
    requires
        keys_unique(s),
    ensures
        forall|k: u64| #[trigger] seq_to_map(s).contains_key(k) <==> seq_has_key(s, k),
        forall|i: int|
            0 <= i < s.len() ==> seq_to_map(s).contains_key((#[trigger] s[i]).key) && seq_to_map(
                s,
            )[s[i].key] == s[i].value,
    decreases s.len(),
{
    if s.len() == 0 {
        assert(forall|k: u64| !seq_to_map(s).contains_key(k));
        assert(forall|k: u64| !seq_has_key(s, k));
    } else {
        let t = s.drop_last();
        let last = s.last();
        assert(keys_unique(t)) by {
            assert(forall|i: int| 0 <= i < t.len() ==> t[i] == s[i]);
        }
        lemma_seq_to_map_props(t);
        assert forall|k: u64| #[trigger] seq_to_map(s).contains_key(k) implies seq_has_key(s, k) by {
            if k == last.key {
                assert(s[s.len() - 1].key == k);
            } else {
                assert(seq_to_map(t).contains_key(k));
                let i = choose|i: int| 0 <= i < t.len() && (#[trigger] t[i]).key == k;
                assert(s[i].key == k);
            }
        }
        assert forall|k: u64| seq_has_key(s, k) implies #[trigger] seq_to_map(s).contains_key(k) by {
            let i = choose|i: int| 0 <= i < s.len() && (#[trigger] s[i]).key == k;
            if i < s.len() - 1 {
                assert(t[i].key == k);
                assert(seq_has_key(t, k));
            }
        }
        assert forall|i: int| 0 <= i < s.len() implies seq_to_map(s).contains_key(
            (#[trigger] s[i]).key,
        ) && seq_to_map(s)[s[i].key] == s[i].value by {
            if i == s.len() - 1 {
            } else {
                assert(t[i] == s[i]);
                assert(seq_to_map(t)[s[i].key] == s[i].value);
                // the last key differs from s[i].key, so the final insert
                // does not disturb this binding
                assert(s[i].key != last.key);
            }
        }
    }
}

/// Appending an entry with a fresh key inserts its binding.
pub proof fn lemma_seq_to_map_push<V>(s: Seq<Bucket<V>>, b: Bucket<V>)
    requires
        keys_unique(s),
        !seq_has_key(s, b.key),
    ensures
        keys_unique(s.push(b)),
        seq_to_map(s.push(b)) == seq_to_map(s).insert(b.key, b.value),
{
    let s2 = s.push(b);
    assert(s2.drop_last() =~= s);
    assert(s2.last() == b);
    assert(seq_to_map(s2) == seq_to_map(s).insert(b.key, b.value));
    assert forall|i: int, j: int| 0 <= i < j < s2.len() implies (#[trigger] s2[i]).key != (
    #[trigger] s2[j]).key by {
        if j == s2.len() - 1 {
            assert(s2[i] == s[i]);
            if s[i].key == b.key {
                assert(seq_has_key(s, b.key));
            }
        } else {
            assert(s2[i] == s[i] && s2[j] == s[j]);
        }
    }
}

/// Replacing the value at a slot (same key, any fingerprint field)
/// re-inserts that key's binding.
pub proof fn lemma_seq_to_map_update<V>(s: Seq<Bucket<V>>, i: int, b: Bucket<V>)
    requires
        keys_unique(s),
        0 <= i < s.len(),
        b.key == s[i].key,
    ensures
        keys_unique(s.update(i, b)),
        seq_to_map(s.update(i, b)) == seq_to_map(s).insert(b.key, b.value),
{
    let s2 = s.update(i, b);
    assert forall|i1: int, j1: int| 0 <= i1 < j1 < s2.len() implies (#[trigger] s2[i1]).key != (
    #[trigger] s2[j1]).key by {
        assert(s2[i1].key == s[i1].key && s2[j1].key == s[j1].key);
    }
    lemma_seq_to_map_props(s);
    lemma_seq_to_map_props(s2);
    let m1 = seq_to_map(s2);
    let m2 = seq_to_map(s).insert(b.key, b.value);
    assert forall|k: u64| m1.contains_key(k) implies m2.contains_key(k) by {
        let w = choose|w: int| 0 <= w < s2.len() && (#[trigger] s2[w]).key == k;
        if w != i {
            assert(s[w].key == k);
        }
    }
    assert forall|k: u64| m2.contains_key(k) implies m1.contains_key(k) by {
        if k == b.key {
            assert(s2[i].key == k);
        } else {
            let w = choose|w: int| 0 <= w < s.len() && (#[trigger] s[w]).key == k;
            assert(w != i);
            assert(s2[w].key == k);
        }
    }
    assert forall|k: u64| m1.contains_key(k) implies m1[k] == m2[k] by {
        if k == b.key {
            assert(s2[i].key == k && s2[i].value == b.value);
            assert(m1[k] == b.value);
        } else {
            let w = choose|w: int| 0 <= w < s2.len() && (#[trigger] s2[w]).key == k;
            assert(w != i);
            assert(s[w].key == k && s[w].value == s2[w].value);
            assert(m1[k] == s2[w].value);
            assert(m2[k] == s[w].value);
        }
    }
    assert(m1 =~= m2);
}

/// Swap-removing the entry at a slot removes exactly its binding.
pub proof fn lemma_seq_to_map_swap_remove<V>(s: Seq<Bucket<V>>, i: int)
    requires
        keys_unique(s),
        0 <= i < s.len(),
    ensures
        keys_unique(s.update(i, s.last()).drop_last()),
        seq_to_map(s.update(i, s.last()).drop_last()) == seq_to_map(s).remove(s[i].key),
{
    let s2 = s.update(i, s.last()).drop_last();
    let n = s.len();
    assert(s2.len() == n - 1);
    // pointwise shape of s2: position i (if i < n - 1) holds the old last
    // entry, every other position keeps its old entry
    assert(forall|w: int|
        0 <= w < n - 1 ==> #[trigger] s2[w] == (if w == i {
            s[n - 1]
        } else {
            s[w]
        }));
    assert forall|i1: int, j1: int| 0 <= i1 < j1 < s2.len() implies (#[trigger] s2[i1]).key != (
    #[trigger] s2[j1]).key by {
        if i1 == i {
            assert(s2[i1] == s[n - 1] && s2[j1] == s[j1]);
        } else if j1 == i {
            assert(s2[i1] == s[i1] && s2[j1] == s[n - 1]);
        } else {
            assert(s2[i1] == s[i1] && s2[j1] == s[j1]);
        }
    }
    lemma_seq_to_map_props(s);
    lemma_seq_to_map_props(s2);
    let m1 = seq_to_map(s2);
    let m2 = seq_to_map(s).remove(s[i].key);
    assert forall|k: u64| m1.contains_key(k) implies m2.contains_key(k) && m1[k] == m2[k] by {
        let w = choose|w: int| 0 <= w < s2.len() && (#[trigger] s2[w]).key == k;
        if w == i {
            assert(s2[w] == s[n - 1]);
            assert(s[n - 1].key == k);
            assert(k != s[i].key);
            assert(m1[k] == s[n - 1].value);
        } else {
            assert(s2[w] == s[w]);
            assert(k != s[i].key);
            assert(m1[k] == s[w].value);
        }
    }
    assert forall|k: u64| m2.contains_key(k) implies m1.contains_key(k) by {
        let w = choose|w: int| 0 <= w < s.len() && (#[trigger] s[w]).key == k;
        assert(w != i);
        if w == n - 1 {
            // that entry moved to position i; if i == n - 1 then w == i,
            // excluded above
            assert(i < n - 1);
            assert(s2[i].key == k);
        } else {
            assert(s2[w].key == k);
        }
    }
    assert(m1 =~= m2);
}

/// The sequence after swap-removing position `j`: the last element moves
/// into position `j` and the length shrinks by one.
pub open spec fn removed_at<A>(s: Seq<A>, j: int) -> Seq<A> {
    s.update(j, s.last()).drop_last()
}

/// Find the position in `indices` of an entry pointing at `slot`.
fn find_slot_for(indices: &Vec<IndexSlot>, slot: usize) -> (r: usize)
    requires
        slot_indexed(indices@, slot as int),
    ensures
        r < indices@.len(),
        indices@[r as int].slot == slot,
{
    let n = indices.len();
    let mut j: usize = 0;
    while j < n
        invariant
            n == indices@.len(),
            j <= n,
            slot_indexed(indices@, slot as int),
            forall|j2: int| 0 <= j2 < j ==> (#[trigger] indices@[j2]).slot != slot,
        decreases n - j,
    {
        if indices[j].slot == slot {
            return j;
        }
        j += 1;
    }
    proof {
        let jw = choose|jw: int|
            0 <= jw < indices@.len() && (#[trigger] indices@[jw]).slot == slot as int;
        assert(false);
    }
    vstd::pervasive::unreached()
}

impl<V> IndexedShard<V> {
    /// An empty shard.
    pub fn new() -> (r: IndexedShard<V>)
        ensures
            r.wf(),
            r@ == Map::<u64, V>::empty(),
            r.spec_len() == 0,
    {
        IndexedShard { indices: Vec::new(), entries: Vec::new() }
    }

    /// The number of entries resident in this shard.
    pub fn len(&self) -> (r: usize)
        ensures
            r == self.spec_len(),
    {
        self.entries.len()
    }

    /// Drop every entry.
    pub fn clear(&mut self)
        ensures
            final(self).wf(),
            final(self)@ == Map::<u64, V>::empty(),
            final(self).spec_len() == 0,
    {
        self.entries.clear();
        self.indices.clear();
    }

    /// The slot holding `key`, found through the index: scan index entries
    /// with the given fingerprint and compare the key at the referenced
    /// slot. `None` means no entry carries this (fingerprint, key) pair.
    pub fn get_index_of(&self, hash: u64, key: u64) -> (r: Option<usize>)
        requires
            self.wf(),
        ensures
            match r {
                Some(i) => i < self.entries@.len() && self.entries@[i as int].key == key
                    && self.entries@[i as int].hash == hash,
                None => forall|i: int|
                    0 <= i < self.entries@.len() ==> !((#[trigger] self.entries@[i]).key == key
                        && self.entries@[i].hash == hash),
            },
    {
        let n = self.indices.len();
        let mut j: usize = 0;
        while j < n
            invariant
                self.wf(),
                n == self.indices@.len(),
                j <= n,
                forall|j2: int|
                    0 <= j2 < j ==> !((#[trigger] self.indices@[j2]).hash == hash
                        && self.entries@[self.indices@[j2].slot as int].key == key),
            decreases n - j,
        {
            let is = self.indices[j];
            if is.hash == hash {
                if self.entries[is.slot].key == key {
                    return Some(is.slot);
                }
            }
            j += 1;
        }
        proof {
            assert forall|i: int|
                0 <= i < self.entries@.len() implies !((#[trigger] self.entries@[i]).key == key
                && self.entries@[i].hash == hash) by {
                if self.entries@[i].key == key && self.entries@[i].hash == hash {
                    assert(slot_indexed(self.indices@, i));
                    let j2 = choose|j2: int|
                        0 <= j2 < self.indices@.len() && (#[trigger] self.indices@[j2]).slot == i;
                    assert(self.indices@[j2].hash == self.entries@[i].hash);
                    assert(false);
                }
            }
        }
        None
    }

    /// Replacing a value in place (same key, same fingerprint) preserves
    /// the invariant and re-inserts that key's binding, whatever the new
    /// value turns out to be.
    proof fn lemma_value_update(ix: Seq<IndexSlot>, e: Seq<Bucket<V>>, i: int)
        requires
            shard_inv(ix, e),
            0 <= i < e.len(),
        ensures
            forall|b: Bucket<V>|
                b.key == e[i].key && b.hash == e[i].hash ==> {
                    &&& shard_inv(ix, #[trigger] e.update(i, b))
                    &&& seq_to_map(e.update(i, b)) == seq_to_map(e).insert(b.key, b.value)
                },
    {
        assert forall|b: Bucket<V>| b.key == e[i].key && b.hash == e[i].hash implies {
            &&& shard_inv(ix, #[trigger] e.update(i, b))
            &&& seq_to_map(e.update(i, b)) == seq_to_map(e).insert(b.key, b.value)
        } by {
            let e2 = e.update(i, b);
            lemma_seq_to_map_update(e, i, b);
            assert forall|j: int| 0 <= j < ix.len() implies (#[trigger] ix[j]).slot < e2.len()
                && ix[j].hash == e2[ix[j].slot as int].hash by {
                assert(ix[j].hash == e[ix[j].slot as int].hash);
            }
            assert forall|w: int| 0 <= w < e2.len() implies slot_indexed(ix, w) by {
                assert(slot_indexed(ix, w));
            }
        }
    }

    /// Mutable access to the value at slot `i`. The key and fingerprint at
    /// that slot are untouched, so the shard stays well formed for every
    /// value the caller writes through the reference.
    pub fn value_at_mut(&mut self, i: usize) -> (r: &mut V)
        requires
            old(self).wf(),
            i < old(self).entries@.len(),
        ensures
            *r == old(self).entries@[i as int].value,
            final(self).entries@ == old(self).entries@.update(
                i as int,
                Bucket {
                    hash: old(self).entries@[i as int].hash,
                    key: old(self).entries@[i as int].key,
                    value: *final(r),
                },
            ),
            final(self).indices@ == old(self).indices@,
            final(self).wf(),
            final(self)@ == old(self)@.insert(old(self).entries@[i as int].key, *final(r)),
            final(self).spec_len() == old(self).spec_len(),
    {
        proof {
            Self::lemma_value_update(self.indices@, self.entries@, i as int);
        }
        let b = &mut self.entries[i];
        &mut b.value
    }

    /// Store `value` under `key`: replace in place when the key is
    /// present (returning the previous value), append a fresh entry and
    /// index it otherwise. Returns the entry's slot.
    pub fn insert_full(&mut self, hash: u64, key: u64, value: V) -> (r: (usize, Option<V>))
        requires
            old(self).wf(),
            old(self).hash_ok(hash, key),
        ensures
            final(self).wf(),
            final(self).hash_ok(hash, key),
            final(self)@ == old(self)@.insert(key, value),
            match r.1 {
                Some(v) => old(self)@.contains_key(key) && v == old(self)@[key]
                    && final(self).spec_len() == old(self).spec_len()
                    && r.0 < old(self).entries@.len()
                    && old(self).entries@[r.0 as int].key == key
                    && final(self).entries@ == old(self).entries@.update(
                    r.0 as int,
                    Bucket { hash, key, value },
                ) && final(self).indices@ == old(self).indices@,
                None => !old(self)@.contains_key(key)
                    && final(self).spec_len() == old(self).spec_len() + 1
                    && r.0 == old(self).entries@.len()
                    && final(self).entries@ == old(self).entries@.push(
                    Bucket { hash, key, value },
                ) && final(self).indices@ == old(self).indices@.push(
                    IndexSlot { hash, slot: r.0 },
                ),
            },
            forall|w: int|
                0 <= w < final(self).entries@.len() ==> pair_in_or_new(
                    old(self).entries@,
                    #[trigger] final(self).entries@[w],
                    hash,
                    key,
                ),
    {
        let ghost e0 = self.entries@;
        proof {
            lemma_seq_to_map_props(e0);
        }
        match self.get_index_of(hash, key) {
            Some(i) => {
                proof {
                    Self::lemma_value_update(self.indices@, e0, i as int);
                }
                let mut displaced = Bucket { hash, key, value };
                self.entries.set_and_swap(i, &mut displaced);
                proof {
                    assert forall|w: int| 0 <= w < self.entries@.len() implies pair_in_or_new(
                        e0,
                        #[trigger] self.entries@[w],
                        hash,
                        key,
                    ) by {
                        if w != i {
                            assert(self.entries@[w] == e0[w]);
                            assert(pair_in(e0, e0[w]));
                        }
                    }
                    assert forall|w: int|
                        0 <= w < self.entries@.len() && (#[trigger] self.entries@[w]).key
                            == key implies self.entries@[w].hash == hash by {
                        if w != i {
                            assert(self.entries@[w] == e0[w]);
                        }
                    }
                }
                (i, Some(displaced.value))
            },
            None => {
                proof {
                    if seq_has_key(e0, key) {
                        let w = choose|w: int| 0 <= w < e0.len() && (#[trigger] e0[w]).key == key;
                        assert(e0[w].hash == hash);
                        assert(false);
                    }
                    lemma_seq_to_map_push(e0, Bucket { hash, key, value });
                }
                let ghost ix0 = self.indices@;
                let i = self.entries.len();
                self.indices.push(IndexSlot { hash, slot: i });
                self.entries.push(Bucket { hash, key, value });
                proof {
                    let ix1 = self.indices@;
                    let e1 = self.entries@;
                    assert forall|j: int| 0 <= j < ix1.len() implies (#[trigger] ix1[j]).slot
                        < e1.len() && ix1[j].hash == e1[ix1[j].slot as int].hash by {
                        if j < ix0.len() {
                            assert(ix1[j] == ix0[j]);
                            assert(e1[ix0[j].slot as int] == e0[ix0[j].slot as int]);
                        }
                    }
                    assert forall|w: int| 0 <= w < e1.len() implies slot_indexed(ix1, w) by {
                        if w < e0.len() {
                            assert(slot_indexed(ix0, w));
                            let jw = choose|jw: int|
                                0 <= jw < ix0.len() && (#[trigger] ix0[jw]).slot == w;
                            assert(ix1[jw].slot == w);
                        } else {
                            assert(ix1[ix0.len() as int].slot == w);
                        }
                    }
                    assert forall|w: int| 0 <= w < e1.len() implies pair_in_or_new(
                        e0,
                        #[trigger] e1[w],
                        hash,
                        key,
                    ) by {
                        if w < e0.len() {
                            assert(e1[w] == e0[w]);
                            assert(pair_in(e0, e0[w]));
                        }
                    }
                    assert forall|w: int|
                        0 <= w < e1.len() && (#[trigger] e1[w]).key == key implies e1[w].hash
                        == hash by {
                        if w < e0.len() {
                            assert(e1[w] == e0[w]);
                        }
                    }
                }
                (i, None)
            },
        }
    }

    /// Remove and return the entry at slot `i`. The index entry for slot
    /// `i` is erased; the last entry moves into the vacated slot and its
    /// index entry is repaired to point there.
    pub fn swap_remove_at(&mut self, i: usize) -> (r: (u64, V))
        requires
            old(self).wf(),
            i < old(self).entries@.len(),
        ensures
            final(self).wf(),
            r.0 == old(self).entries@[i as int].key,
            r.1 == old(self).entries@[i as int].value,
            old(self)@.contains_key(r.0) && old(self)@[r.0] == r.1,
            final(self)@ == old(self)@.remove(r.0),
            final(self).spec_len() == old(self).spec_len() - 1,
            final(self).entries@ == removed_at(old(self).entries@, i as int),
            forall|w: int|
                0 <= w < final(self).entries@.len() ==> pair_in(
                    old(self).entries@,
                    #[trigger] final(self).entries@[w],
                ),
    {
        let ghost ix0 = self.indices@;
        let ghost e0 = self.entries@;
        proof {
            lemma_seq_to_map_props(e0);
            lemma_seq_to_map_swap_remove(e0, i as int);
            assert(slot_indexed(ix0, i as int));
        }
        let j1 = find_slot_for(&self.indices, i);
        self.indices.swap_remove(j1);
        let bucket = self.entries.swap_remove(i);
        let new_len = self.entries.len();
        let ghost ix1 = self.indices@;
        let ghost e1 = self.entries@;
        proof {
            assert(forall|w: int|
                0 <= w < ix1.len() ==> #[trigger] ix1[w] == (if w == j1 {
                    ix0[ix0.len() - 1]
                } else {
                    ix0[w]
                }));
            assert(forall|w: int|
                0 <= w < e1.len() ==> #[trigger] e1[w] == (if w == i {
                    e0[e0.len() - 1]
                } else {
                    e0[w]
                }));
            assert(ix0[j1 as int].slot == i);
        }
        if i < new_len {
            proof {
                // an index entry pointing at the old last slot survives in
                // the shrunken index
                assert(slot_indexed(ix0, new_len as int));
                let jw = choose|jw: int|
                    0 <= jw < ix0.len() && (#[trigger] ix0[jw]).slot == new_len as int;
                assert(jw != j1);
                if jw == ix0.len() - 1 {
                    assert(j1 < ix0.len() - 1);
                    assert(ix1[j1 as int] == ix0[jw]);
                } else {
                    assert(ix1[jw] == ix0[jw]);
                }
                assert(slot_indexed(ix1, new_len as int));
            }
            let j2 = find_slot_for(&self.indices, new_len);
            let h2 = self.indices[j2].hash;
            self.indices.set(j2, IndexSlot { hash: h2, slot: i });
            proof {
                let ixf = self.indices@;
                let j2i = j2 as int;
                assert(forall|w: int|
                    0 <= w < ixf.len() ==> #[trigger] ixf[w] == (if w == j2i {
                        IndexSlot { hash: h2, slot: i }
                    } else {
                        ix1[w]
                    }));
                // every unrepaired index entry is an original entry from a
                // position other than j1, so its slot is neither i nor the
                // old last slot
                assert forall|w: int| 0 <= w < ixf.len() && w != j2i implies (#[trigger] ixf[w]).slot
                    < new_len && ixf[w].slot != i && ixf[w].hash == e1[ixf[w].slot as int].hash by {
                    let w0: int = if w == j1 {
                        ix0.len() - 1
                    } else {
                        w
                    };
                    assert(ixf[w] == ix0[w0]);
                    assert(w0 != j1);
                    assert(ix0[w0].slot != ix0[j1 as int].slot);
                    // the unique entry pointing at the old last slot is the
                    // one that was repaired
                    let w2: int = if j2i == j1 {
                        ix0.len() - 1
                    } else {
                        j2i
                    };
                    assert(ix1[j2i] == ix0[w2]);
                    assert(ix0[w2].slot == new_len);
                    if ix0[w0].slot == new_len as int {
                        assert(w0 == w2);
                        assert(w == j2i);
                        assert(false);
                    }
                    assert(ix0[w0].slot < e0.len());
                    assert(ix0[w0].hash == e0[ix0[w0].slot as int].hash);
                    assert(e1[ix0[w0].slot as int] == e0[ix0[w0].slot as int]);
                }
                // the repaired entry points at slot i and carries the hash
                // of the entry that moved there
                assert(ixf[j2i].slot == i);
                assert(e1[i as int] == e0[e0.len() - 1]);
                assert({
                    let w2: int = if j2i == j1 {
                        ix0.len() - 1
                    } else {
                        j2i
                    };
                    h2 == ix0[w2].hash && ix0[w2].slot == new_len && ix0[w2].hash == e0[
                        new_len as int].hash
                });
                assert(ixf[j2i].hash == e1[i as int].hash);
                // distinct slots
                assert forall|a: int, b: int| 0 <= a < b < ixf.len() implies (
                #[trigger] ixf[a]).slot != (#[trigger] ixf[b]).slot by {
                    if a != j2i && b != j2i {
                        let a0: int = if a == j1 {
                            ix0.len() - 1
                        } else {
                            a
                        };
                        let b0: int = if b == j1 {
                            ix0.len() - 1
                        } else {
                            b
                        };
                        assert(ixf[a] == ix0[a0] && ixf[b] == ix0[b0]);
                        assert(a0 != b0);
                    }
                }
                // every slot of the shrunken entries is pointed at
                assert forall|s: int| 0 <= s < e1.len() implies slot_indexed(ixf, s) by {
                    if s == i {
                        assert(ixf[j2i].slot == s);
                    } else {
                        assert(slot_indexed(ix0, s));
                        let jw = choose|jw: int|
                            0 <= jw < ix0.len() && (#[trigger] ix0[jw]).slot == s;
                        assert(jw != j1);
                        let w: int = if jw == ix0.len() - 1 {
                            j1 as int
                        } else {
                            jw
                        };
                        assert(ix1[w] == ix0[jw]);
                        assert(w != j2i);
                        assert(ixf[w].slot == s);
                    }
                }
                assert(shard_inv(ixf, e1));
            }
        } else {
            proof {
                // i was the last slot: nothing moved, nothing to repair
                assert forall|w: int| 0 <= w < ix1.len() implies (#[trigger] ix1[w]).slot < e1.len()
                    && ix1[w].hash == e1[ix1[w].slot as int].hash by {
                    let w0: int = if w == j1 {
                        ix0.len() - 1
                    } else {
                        w
                    };
                    assert(ix1[w] == ix0[w0]);
                    assert(w0 != j1);
                    assert(ix0[w0].slot != i);
                    assert(e1[ix0[w0].slot as int] == e0[ix0[w0].slot as int]);
                }
                assert forall|a: int, b: int| 0 <= a < b < ix1.len() implies (
                #[trigger] ix1[a]).slot != (#[trigger] ix1[b]).slot by {
                    let a0: int = if a == j1 {
                        ix0.len() - 1
                    } else {
                        a
                    };
                    let b0: int = if b == j1 {
                        ix0.len() - 1
                    } else {
                        b
                    };
                    assert(ix1[a] == ix0[a0] && ix1[b] == ix0[b0]);
                    assert(a0 != b0);
                }
                assert forall|s: int| 0 <= s < e1.len() implies slot_indexed(ix1, s) by {
                    assert(slot_indexed(ix0, s));
                    let jw = choose|jw: int| 0 <= jw < ix0.len() && (#[trigger] ix0[jw]).slot == s;
                    assert(jw != j1);
                    let w: int = if jw == ix0.len() - 1 {
                        j1 as int
                    } else {
                        jw
                    };
                    assert(ix1[w] == ix0[jw]);
                }
                assert(shard_inv(ix1, e1));
            }
        }
        proof {
            assert forall|w: int| 0 <= w < e1.len() implies pair_in(e0, #[trigger] e1[w]) by {
                if w == i {
                    assert(e1[w] == e0[e0.len() - 1]);
                } else {
                    assert(e1[w] == e0[w]);
                }
            }
        }
        (bucket.key, bucket.value)
    }

    /// Remove the entry holding `key`, if present, and return its key and
    /// value.
    pub fn swap_remove_full(&mut self, hash: u64, key: u64) -> (r: Option<(u64, V)>)
        requires
            old(self).wf(),
            old(self).hash_ok(hash, key),
        ensures
            final(self).wf(),
            match r {
                Some(kv) => kv.0 == key && old(self)@.contains_key(key) && kv.1 == old(self)@[key]
                    && final(self)@ == old(self)@.remove(key)
                    && final(self).spec_len() == old(self).spec_len() - 1,
                None => !old(self)@.contains_key(key) && *final(self) == *old(self),
            },
            forall|w: int|
                0 <= w < final(self).entries@.len() ==> pair_in(
                    old(self).entries@,
                    #[trigger] final(self).entries@[w],
                ),
    {
        proof {
            lemma_seq_to_map_props(self.entries@);
        }
        match self.get_index_of(hash, key) {
            Some(i) => {
                let (k, v) = self.swap_remove_at(i);
                Some((k, v))
            },
            None => {
                proof {
                    if self@.contains_key(key) {
                        let w = choose|w: int|
                            0 <= w < self.entries@.len() && (#[trigger] self.entries@[w]).key
                                == key;
                        assert(self.entries@[w].hash == hash);
                        assert(false);
                    }
                    assert forall|w: int| 0 <= w < self.entries@.len() implies pair_in(
                        self.entries@,
                        #[trigger] self.entries@[w],
                    ) by {
                        assert(self.entries@[w].key == self.entries@[w].key);
                    }
                }
                None
            },
        }
    }

    /// Keep only the entries the predicate approves. Every resident entry
    /// is tried exactly once; an entry survives exactly when its trial
    /// returned true, and surviving entries keep their values.
    pub fn retain<F: Fn(u64, &V) -> bool>(&mut self, f: &F)
        requires
            old(self).wf(),
            forall|k: u64, v: &V| #[trigger] call_requires(*f, (k, v)),
        ensures
            final(self).wf(),
            forall|k: u64|
                #[trigger] final(self)@.contains_key(k) ==> old(self)@.contains_key(k)
                    && final(self)@[k] == old(self)@[k],
            forall|k: u64|
                #[trigger] final(self)@.contains_key(k) ==> call_ensures(
                    *f,
                    (k, &old(self)@[k]),
                    true,
                ),
            forall|k: u64|
                #[trigger] old(self)@.contains_key(k) ==> final(self)@.contains_key(k)
                    || call_ensures(*f, (k, &old(self)@[k]), false),
            final(self).spec_len() <= old(self).spec_len(),
            forall|w: int|
                0 <= w < final(self).entries@.len() ==> pair_in(
                    old(self).entries@,
                    #[trigger] final(self).entries@[w],
                ),
    {
        let ghost e0 = self.entries@;
        let ghost m0 = self@;
        proof {
            lemma_seq_to_map_props(e0);
            assert forall|w: int| 0 <= w < e0.len() implies pair_in(e0, #[trigger] e0[w]) by {
                assert(e0[w].key == e0[w].key && e0[w].hash == e0[w].hash);
            }
        }
        let mut i: usize = 0;
        while i < self.entries.len()
            invariant
                self.wf(),
                forall|k: u64, v: &V| #[trigger] call_requires(*f, (k, v)),
                i <= self.entries@.len(),
                self.entries@.len() <= e0.len(),
                forall|w: int|
                    0 <= w < i ==> call_ensures(
                        *f,
                        ((#[trigger] self.entries@[w]).key, &self.entries@[w].value),
                        true,
                    ),
                forall|w: int|
                    0 <= w < self.entries@.len() ==> pair_in(e0, #[trigger] self.entries@[w]),
                forall|k: u64|
                    #[trigger] self@.contains_key(k) ==> m0.contains_key(k) && self@[k] == m0[k],
                forall|k: u64|
                    #[trigger] m0.contains_key(k) ==> self@.contains_key(k) || call_ensures(
                        *f,
                        (k, &m0[k]),
                        false,
                    ),
            decreases self.entries@.len() - i,
        {
            proof {
                lemma_seq_to_map_props(self.entries@);
            }
            let keep = f(self.entries[i].key, &self.entries[i].value);
            if keep {
                i += 1;
            } else {
                let ghost epre = self.entries@;
                let (k, v) = self.swap_remove_at(i);
                proof {
                    assert(forall|w: int|
                        0 <= w < i ==> #[trigger] self.entries@[w] == epre[w]);
                }
            }
        }
        proof {
            lemma_seq_to_map_props(self.entries@);
            assert forall|k: u64| #[trigger] self@.contains_key(k) implies call_ensures(
                *f,
                (k, &m0[k]),
                true,
            ) by {
                let w = choose|w: int|
                    0 <= w < self.entries@.len() && (#[trigger] self.entries@[w]).key == k;
                assert(self@[k] == self.entries@[w].value);
            }
        }
    }

    /// Whether any entry carries this fingerprint, regardless of its key.
    /// A hit does not mean a given key is present: distinct keys may share
    /// a fingerprint.
    pub fn has_hash(&self, hash: u64) -> (r: bool)
        requires
            self.wf(),
        ensures
            r == seq_has_hash(self.entries@, hash),
    {
        let n = self.indices.len();
        let mut j: usize = 0;
        while j < n
            invariant
                self.wf(),
                n == self.indices@.len(),
                j <= n,
                forall|j2: int| 0 <= j2 < j ==> (#[trigger] self.indices@[j2]).hash != hash,
            decreases n - j,
        {
            if self.indices[j].hash == hash {
                proof {
                    assert(self.entries@[self.indices@[j as int].slot as int].hash == hash);
                }
                return true;
            }
            j += 1;
        }
        proof {
            if seq_has_hash(self.entries@, hash) {
                let w = choose|w: int|
                    0 <= w < self.entries@.len() && (#[trigger] self.entries@[w]).hash == hash;
                assert(slot_indexed(self.indices@, w));
                let jw = choose|jw: int|
                    0 <= jw < self.indices@.len() && (#[trigger] self.indices@[jw]).slot == w;
                assert(false);
            }
        }
        false
    }

    /// Borrow the value stored under `key`, or report its absence.
    pub fn get(&self, hash: u64, key: u64) -> (r: Option<&V>)
        requires
            self.wf(),
            self.hash_ok(hash, key),
        ensures
            match r {
                Some(v) => self@.contains_key(key) && *v == self@[key],
                None => !self@.contains_key(key),
            },
    {
        proof {
            lemma_seq_to_map_props(self.entries@);
        }
        match self.get_index_of(hash, key) {
            Some(i) => Some(&self.entries[i].value),
            None => {
                proof {
                    if self@.contains_key(key) {
                        let i = choose|i: int|
                            0 <= i < self.entries@.len() && (#[trigger] self.entries@[i]).key
                                == key;
                        assert(self.entries@[i].hash == hash);
                        assert(false);
                    }
                }
                None
            },
        }
    }
}

impl<V: Copy> IndexedShard<V> {
    /// A deep copy: the same entries in the same slots, under the same
    /// index. The copy and the original are independent afterwards.
    pub fn duplicate(&self) -> (r: IndexedShard<V>)
        ensures
            r.entries@ == self.entries@,
            r.indices@ == self.indices@,
            r@ == self@,
            r.spec_len() == self.spec_len(),
    {
        let mut entries: Vec<Bucket<V>> = Vec::new();
        let mut i: usize = 0;
        while i < self.entries.len()
            invariant
                i <= self.entries@.len(),
                entries@ == self.entries@.subrange(0, i as int),
            decreases self.entries@.len() - i,
        {
            let b = &self.entries[i];
            entries.push(Bucket { hash: b.hash, key: b.key, value: b.value });
            proof {
                assert(self.entries@[i as int] == (Bucket {
                    hash: self.entries@[i as int].hash,
                    key: self.entries@[i as int].key,
                    value: self.entries@[i as int].value,
                }));
                assert(entries@ =~= self.entries@.subrange(0, i + 1 as int));
            }
            i += 1;
        }
        let mut indices: Vec<IndexSlot> = Vec::new();
        let mut j: usize = 0;
        while j < self.indices.len()
            invariant
                j <= self.indices@.len(),
                indices@ == self.indices@.subrange(0, j as int),
            decreases self.indices@.len() - j,
        {
            indices.push(self.indices[j]);
            proof {
                assert(indices@ =~= self.indices@.subrange(0, j + 1 as int));
            }
            j += 1;
        }
        proof {
            assert(entries@ =~= self.entries@);
            assert(indices@ =~= self.indices@);
        }
        IndexedShard { indices, entries }
    }
}

/// Fingerprint collisions are harmless: two distinct keys carrying the
/// same fingerprint may both be stored in one shard, and both remain
/// retrievable with their own values. The point is in the contracts this
/// is stated over: neither `insert_full` nor `get` asks fingerprints to
/// differ, only that each key is always presented under one fingerprint,
/// so the bindings below are exactly what those operations promise even
/// when the two keys share a fingerprint.
pub proof fn lemma_collision_coexistence<V>(m: Map<u64, V>, k1: u64, k2: u64, v1: V, v2: V)
    requires
        k1 != k2,
    ensures
        m.insert(k1, v1).insert(k2, v2).contains_key(k1),
        m.insert(k1, v1).insert(k2, v2).contains_key(k2),
        m.insert(k1, v1).insert(k2, v2)[k1] == v1,
        m.insert(k1, v1).insert(k2, v2)[k2] == v2,
{
}

/// Index agreement, stated for export: a well-formed shard has exactly as
/// many index entries as entries; every index entry points at a valid
/// slot and carries that slot's fingerprint; no two point at the same
/// slot; and every slot is pointed at.
pub proof fn lemma_index_agreement<V>(s: IndexedShard<V>)
    requires
        s.wf(),
    ensures
        s.indices@.len() == s.entries@.len(),
        forall|i: int| 0 <= i < s.entries@.len() ==> slot_indexed(s.indices@, i),
        forall|j: int|
            0 <= j < s.indices@.len() ==> (#[trigger] s.indices@[j]).slot < s.entries@.len()
                && s.indices@[j].hash == s.entries@[s.indices@[j].slot as int].hash,
        forall|j1: int, j2: int|
            0 <= j1 < j2 < s.indices@.len() ==> (#[trigger] s.indices@[j1]).slot != (
            #[trigger] s.indices@[j2]).slot,
{
}

} // verus!
