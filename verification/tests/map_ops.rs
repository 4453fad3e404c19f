use cmap::{BatchOp, CHashMap, HashBuilder, IndexedShard, RandomSource};

#[test]
fn basic_insert_get_remove() {
    let mut m: CHashMap<String> = CHashMap::new(4);
    assert_eq!(m.insert(1, String::from("a")), None);
    assert_eq!(m.insert(2, String::from("b")), None);
    assert_eq!(m.size(), 2);
    assert_eq!(m.get(1).map(|s| s.as_str()), Some("a"));
    assert_eq!(m.remove(2), Some(String::from("b")));
    assert_eq!(m.size(), 1);
    assert!(m.get(2).is_none());
}

#[test]
fn insert_same_key_twice_keeps_size() {
    let mut m: CHashMap<u64> = CHashMap::new(3);
    assert_eq!(m.insert(7, 10), None);
    let size_after_first = m.size();
    assert_eq!(m.insert(7, 20), Some(10));
    assert_eq!(m.size(), size_after_first);
    assert_eq!(m.get_cloned(7), Some(20));
}

#[test]
fn remove_absent_is_none() {
    let mut m: CHashMap<u64> = CHashMap::new(2);
    assert_eq!(m.remove(99), None);
    assert_eq!(m.size(), 0);
    m.insert(1, 1);
    assert_eq!(m.remove(99), None);
    assert_eq!(m.size(), 1);
}

#[test]
fn contains_and_contains_hash() {
    let mut m: CHashMap<u64> = CHashMap::with_hasher(4, HashBuilder::with_seed(11));
    m.insert(5, 50);
    assert!(m.contains(5));
    assert!(!m.contains(6));
    let h = m.hash_builder().hash_one(5);
    assert!(m.contains_hash(h));
    assert!(m.try_maybe_contains_hash(h));
}

#[test]
fn get_mut_overwrites() {
    let mut m: CHashMap<u64> = CHashMap::new(2);
    m.insert(3, 30);
    if let Some(v) = m.get_mut(3) {
        *v = 31;
    } else {
        panic!("key must be present");
    }
    assert_eq!(m.get_cloned(3), Some(31));
    assert!(m.get_mut(4).is_none());
}

#[test]
fn get_or_insert_runs_factory_once() {
    let mut m: CHashMap<u64> = CHashMap::new(2);
    let v = *m.get_or_insert(9, || 90);
    assert_eq!(v, 90);
    assert_eq!(m.size(), 1);
    let v2 = *m.get_or_insert(9, || 91);
    assert_eq!(v2, 90);
    assert_eq!(m.size(), 1);
}

#[test]
fn get_mut_or_insert_and_defaults() {
    let mut m: CHashMap<u64> = CHashMap::new(2);
    {
        let v = m.get_mut_or_insert(1, || 5);
        *v += 1;
    }
    assert_eq!(m.get_cloned(1), Some(6));
    {
        let v = m.get_or_default(2);
        assert_eq!(*v, 0);
    }
    {
        let v = m.get_mut_or_default(3);
        assert_eq!(*v, 0);
        *v = 33;
    }
    assert_eq!(m.get_cloned(3), Some(33));
    assert_eq!(m.size(), 3);
}

#[test]
fn clear_empties_everything() {
    let mut m: CHashMap<u64> = CHashMap::new(5);
    for k in 0..40u64 {
        m.insert(k, k);
    }
    assert_eq!(m.size(), 40);
    m.clear();
    assert_eq!(m.size(), 0);
    for k in 0..40u64 {
        assert!(m.get(k).is_none());
    }
}

#[test]
fn retain_keeps_even_keys() {
    let mut m: CHashMap<u64> = CHashMap::new(4);
    for k in 0..100u64 {
        m.insert(k, k * 10);
    }
    m.retain(|k, _v| k % 2 == 0);
    assert_eq!(m.size(), 50);
    for k in 0..100u64 {
        if k % 2 == 0 {
            assert_eq!(m.get_cloned(k), Some(k * 10));
        } else {
            assert!(m.get(k).is_none());
        }
    }
}

#[test]
fn duplicate_is_independent() {
    let mut m: CHashMap<u64> = CHashMap::new(3);
    for k in 0..50u64 {
        m.insert(k, k + 1000);
    }
    let dup = m.duplicate();
    m.clear();
    assert_eq!(m.size(), 0);
    assert_eq!(dup.size(), 50);
    for k in 0..50u64 {
        assert_eq!(dup.get_cloned(k), Some(k + 1000));
    }
}

#[test]
fn batch_read_groups_by_shard() {
    let mut m: CHashMap<u64> = CHashMap::with_hasher(4, HashBuilder::with_seed(3));
    for k in 0..1000u64 {
        m.insert(k, k * 2);
    }
    let keys: Vec<u64> = (0..1000u64).collect();
    let out = m.batch_read(&keys);
    // the callback-equivalent is invoked exactly once per key
    assert_eq!(out.len(), 1000);
    for (k, v) in &out {
        assert_eq!(*v, Some(*k * 2));
    }
    // the answers come grouped by shard: at most 4 groups, so at most 3
    // boundaries where the shard changes
    let shard_of = |k: u64| (m.hash_builder().hash_one(k) as usize) % 4;
    let mut boundaries = 0;
    for w in 1..out.len() {
        if shard_of(out[w].0) != shard_of(out[w - 1].0) {
            boundaries += 1;
        }
    }
    assert!(boundaries <= 3);
}

#[test]
fn batch_read_reports_absent_keys() {
    let mut m: CHashMap<u64> = CHashMap::new(2);
    m.insert(1, 10);
    let keys: Vec<u64> = vec![1, 2];
    let out = m.batch_read(&keys);
    assert_eq!(out.len(), 2);
    for (k, v) in &out {
        if *k == 1 {
            assert_eq!(*v, Some(10));
        } else {
            assert_eq!(*v, None);
        }
    }
}

#[test]
fn batch_write_applies_decisions() {
    let mut m: CHashMap<u64> = CHashMap::new(4);
    m.insert(1, 10);
    m.insert(2, 20);
    m.insert(3, 30);
    let keys: Vec<u64> = vec![1, 2, 3, 4];
    m.batch_write(&keys, |k, cur| match k {
        1 => BatchOp::Remove,
        2 => BatchOp::Put(cur.copied().unwrap_or(0) + 1),
        4 => BatchOp::Put(40),
        _ => BatchOp::Keep,
    });
    assert!(m.get(1).is_none());
    assert_eq!(m.get_cloned(2), Some(21));
    assert_eq!(m.get_cloned(3), Some(30));
    assert_eq!(m.get_cloned(4), Some(40));
    assert_eq!(m.size(), 3);
}

#[test]
fn batch_write_visits_each_occurrence() {
    // a duplicated key is decided once per occurrence, each seeing the
    // effect of the previous decision
    let mut m: CHashMap<u64> = CHashMap::new(2);
    let keys: Vec<u64> = vec![7, 7, 7];
    m.batch_write(&keys, |_k, cur| BatchOp::Put(cur.copied().unwrap_or(0) + 1));
    assert_eq!(m.get_cloned(7), Some(3));
    assert_eq!(m.size(), 1);
    let keys2: Vec<u64> = vec![7, 7];
    m.batch_write(&keys2, |_k, cur| {
        if cur.is_some() {
            BatchOp::Remove
        } else {
            BatchOp::Put(100)
        }
    });
    // first occurrence removes, the second finds the key vacant
    assert_eq!(m.get_cloned(7), Some(100));
}

#[test]
fn colliding_fingerprints_coexist_in_a_shard() {
    // two distinct keys stored under the same fingerprint: both are
    // retrievable, removal of one leaves the other
    let mut sh: IndexedShard<u64> = IndexedShard::new();
    let (_, old1) = sh.insert_full(42, 1, 100);
    let (_, old2) = sh.insert_full(42, 2, 200);
    assert!(old1.is_none());
    assert!(old2.is_none());
    assert_eq!(sh.len(), 2);
    assert_eq!(sh.get(42, 1).copied(), Some(100));
    assert_eq!(sh.get(42, 2).copied(), Some(200));
    let removed = sh.swap_remove_full(42, 1);
    assert_eq!(removed, Some((1, 100)));
    assert_eq!(sh.get(42, 2).copied(), Some(200));
    assert!(sh.get(42, 1).is_none());
}

#[test]
fn shard_swap_remove_repairs_index() {
    let mut sh: IndexedShard<u64> = IndexedShard::new();
    for k in 0..10u64 {
        sh.insert_full(k * 7, k, k);
    }
    // remove a middle slot: the last entry moves into the hole and must
    // still be reachable through the index
    let (k0, _v0) = sh.swap_remove_at(0);
    assert_eq!(sh.len(), 9);
    for k in 0..10u64 {
        if k == k0 {
            assert!(sh.get(k * 7, k).is_none());
        } else {
            assert_eq!(sh.get(k * 7, k).copied(), Some(k));
        }
    }
}

#[test]
fn default_map_has_cpu_shards() {
    let m: CHashMap<u64> = Default::default();
    assert!(m.num_shards() >= 1);
    assert_eq!(m.size(), 0);
}

#[test]
fn hashing_is_deterministic_per_seed() {
    let a = HashBuilder::with_seed(5);
    let b = HashBuilder::with_seed(5);
    for k in 0..32u64 {
        assert_eq!(a.hash_one(k), b.hash_one(k));
    }
}

#[test]
fn random_source_bounds() {
    let mut rng = RandomSource::from_seed(1);
    for _ in 0..200 {
        assert!(rng.below(5) < 5);
    }
    assert_eq!(rng.below(1), 0);
}

#[test]
fn shuffle_permutes() {
    let mut rng = RandomSource::from_entropy();
    let mut v: Vec<usize> = (0..30).collect();
    rng.shuffle(&mut v);
    assert_eq!(v.len(), 30);
    let mut sorted = v.clone();
    sorted.sort_unstable();
    let expected: Vec<usize> = (0..30).collect();
    assert_eq!(sorted, expected);
}

#[test]
fn cpu_count_is_positive() {
    assert!(cmap::cpu_count() >= 1);
}
