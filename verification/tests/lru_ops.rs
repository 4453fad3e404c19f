use cmap::{AtomicInstant, AtomicTimestamp, Evict, LruCache, RandomSource};

#[test]
fn lru_basic_roundtrip() {
    let mut c: LruCache<u64> = LruCache::new(4);
    assert_eq!(c.insert(1, 11), None);
    assert_eq!(c.insert(2, 22), None);
    assert_eq!(c.size(), 2);
    assert_eq!(c.get(1).copied(), Some(11));
    assert_eq!(c.peek(2).copied(), Some(22));
    assert_eq!(c.remove(2), Some(22));
    assert_eq!(c.size(), 1);
    assert!(c.get(2).is_none());
    assert_eq!(c.remove(2), None);
}

#[test]
fn lru_insert_twice_returns_first() {
    let mut c: LruCache<u64> = LruCache::new(2);
    assert_eq!(c.insert(5, 1), None);
    assert_eq!(c.insert(5, 2), Some(1));
    assert_eq!(c.size(), 1);
    assert_eq!(c.peek(5).copied(), Some(2));
}

#[test]
fn lru_get_mut_and_peek_mut() {
    let mut c: LruCache<u64> = LruCache::new(2);
    c.insert(3, 30);
    if let Some(v) = c.get_mut(3) {
        *v += 1;
    } else {
        panic!("key must be present");
    }
    if let Some(v) = c.peek_mut(3) {
        *v += 1;
    } else {
        panic!("key must be present");
    }
    assert_eq!(c.peek(3).copied(), Some(32));
}

#[test]
fn eviction_size() {
    let mut c: LruCache<u64> = Default::default();
    for k in 0..20u64 {
        c.insert(k, k);
    }
    let mut rng = RandomSource::from_seed(42);
    let evicted = c.evict_many(10, &mut rng);
    assert_eq!(evicted.len(), 10);
    assert_eq!(c.size(), 10);
    for (k, _v) in &evicted {
        assert!(c.peek(*k).is_none());
    }
}

#[test]
fn evict_many_caps_at_size() {
    let mut c: LruCache<u64> = LruCache::new(3);
    for k in 0..5u64 {
        c.insert(k, k);
    }
    let mut rng = RandomSource::from_seed(7);
    let evicted = c.evict_many(100, &mut rng);
    assert_eq!(evicted.len(), 5);
    assert_eq!(c.size(), 0);
    assert_eq!(c.evict_many(3, &mut rng).len(), 0);
}

#[test]
fn recency_protects_fresh_key() {
    // insert 0..100 into a 4-shard cache, touch key 0, evict one entry:
    // over many seeds the freshest key must fall well below the uniform
    // baseline of trials/100
    let trials = 400u64;
    let mut zero_evicted = 0u64;
    for seed in 0..trials {
        let mut c: LruCache<u64> = LruCache::new(4);
        for k in 0..100u64 {
            c.insert(k, k);
        }
        c.get(0);
        let mut rng = RandomSource::from_seed(seed);
        let evicted = c.evict_many(1, &mut rng);
        assert_eq!(evicted.len(), 1);
        if evicted[0].0 == 0 {
            zero_evicted += 1;
        }
    }
    assert!(zero_evicted < trials / 100);
}

#[test]
fn evict_predicate_halt_spares_everything() {
    let mut c: LruCache<u64> = LruCache::new(2);
    for k in 0..10u64 {
        c.insert(k, k);
    }
    let mut rng = RandomSource::from_seed(1);
    let evicted = c.evict(&mut rng, |_n, _k, _v| Evict::Halt);
    assert_eq!(evicted.len(), 0);
    assert_eq!(c.size(), 10);
}

#[test]
fn evict_predicate_once_takes_one() {
    let mut c: LruCache<u64> = LruCache::new(2);
    for k in 0..10u64 {
        c.insert(k, k);
    }
    let mut rng = RandomSource::from_seed(2);
    let evicted = c.evict(&mut rng, |_n, _k, _v| Evict::Once);
    assert_eq!(evicted.len(), 1);
    assert_eq!(c.size(), 9);
    assert!(c.peek(evicted[0].0).is_none());
}

#[test]
fn evict_predicate_sees_count() {
    let mut c: LruCache<u64> = LruCache::new(2);
    for k in 0..10u64 {
        c.insert(k, k);
    }
    let mut rng = RandomSource::from_seed(3);
    let evicted = c.evict(
        &mut rng,
        |n, _k, _v| {
            if n >= 2 {
                Evict::Halt
            } else {
                Evict::Continue
            }
        },
    );
    assert_eq!(evicted.len(), 2);
    assert_eq!(c.size(), 8);
}

#[test]
fn evict_many_fast_bulk() {
    let mut c: LruCache<u64> = LruCache::new(4);
    for k in 0..50u64 {
        c.insert(k, k);
    }
    let mut rng = RandomSource::from_seed(9);
    let evicted = c.evict_many_fast(20, &mut rng);
    assert_eq!(c.size() as usize, 50 - evicted.len());
    for (k, _v) in &evicted {
        assert!(c.peek(*k).is_none());
    }
    // bulk eviction is allowed to be off by a couple, not wildly
    assert!(evicted.len() >= 10 && evicted.len() <= 30);
}

#[test]
fn evict_many_fast_drains_all_when_count_covers() {
    // once the requested count covers the whole cache, every shard's
    // quota is its full length and everything is drained
    let mut c: LruCache<u64> = LruCache::new(4);
    for k in 0..30u64 {
        c.insert(k, k);
    }
    let mut rng = RandomSource::from_seed(11);
    let evicted = c.evict_many_fast(30, &mut rng);
    assert_eq!(evicted.len(), 30);
    assert_eq!(c.size(), 0);
    let mut c2: LruCache<u64> = LruCache::new(3);
    for k in 0..10u64 {
        c2.insert(k, k);
    }
    let evicted2 = c2.evict_many_fast(usize::MAX, &mut rng);
    assert_eq!(evicted2.len(), 10);
    assert_eq!(c2.size(), 0);
}

#[test]
fn evict_many_fast_zero_is_noop() {
    let mut c: LruCache<u64> = LruCache::new(2);
    c.insert(1, 1);
    let mut rng = RandomSource::from_seed(4);
    assert_eq!(c.evict_many_fast(0, &mut rng).len(), 0);
    assert_eq!(c.size(), 1);
}

#[test]
fn size_counter_matches_shard_lengths() {
    let mut c: LruCache<u64> = LruCache::new(3);
    for k in 0..30u64 {
        c.insert(k, k);
    }
    assert_eq!(c.test_size(), c.size());
    c.remove(3);
    c.remove(4);
    assert_eq!(c.test_size(), c.size());
    let mut rng = RandomSource::from_seed(5);
    c.evict_many(7, &mut rng);
    assert_eq!(c.test_size(), c.size());
    assert_eq!(c.size(), 21);
}

#[test]
fn lru_retain_and_clear() {
    let mut c: LruCache<u64> = LruCache::new(4);
    for k in 0..40u64 {
        c.insert(k, k);
    }
    c.retain(|k, _v| k % 4 == 0);
    assert_eq!(c.size(), 10);
    for k in 0..40u64 {
        assert_eq!(c.peek(k).is_some(), k % 4 == 0);
    }
    c.clear();
    assert_eq!(c.size(), 0);
}

#[test]
fn lru_duplicate_independence() {
    let mut c: LruCache<u64> = LruCache::new(3);
    for k in 0..50u64 {
        c.insert(k, k * 3);
    }
    let dup = c.duplicate();
    c.clear();
    assert_eq!(c.size(), 0);
    assert_eq!(dup.size(), 50);
    for k in 0..50u64 {
        assert_eq!(dup.peek(k).copied(), Some(k * 3));
    }
}

#[test]
fn evict_one_empties_singleton() {
    let mut c: LruCache<u64> = LruCache::new(2);
    assert!(c.evict_one(&mut RandomSource::from_seed(6)).is_none());
    c.insert(8, 80);
    let got = c.evict_one(&mut RandomSource::from_seed(6));
    assert_eq!(got, Some((8, 80)));
    assert_eq!(c.size(), 0);
}

#[test]
fn atomic_instant_orders() {
    // is_before is the strict order on the stored readings
    let a = AtomicInstant { reading: 1 };
    let b = AtomicInstant { reading: 2 };
    assert!(a.is_before(&b));
    assert!(!b.is_before(&a));
    assert!(!a.is_before(&a));
    // a refreshed stamp compares by whatever the clock handed out
    let mut c = AtomicInstant::now();
    c.update();
    assert_eq!(c.is_before(&b), c.reading < 2);
}
