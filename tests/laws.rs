use arcache::{
    Cache, FIFOCache, LFUCache, LIFOCache, LRUCache, MRUCache, RandomReplacementCache, TTLCache,
};

/// A small deterministic generator for operation sequences.
struct Lcg(u64);

impl Lcg {
    fn next(&mut self) -> u64 {
        self.0 = self.0.wrapping_mul(6364136223846793005).wrapping_add(1442695040888963407);
        self.0 >> 33
    }
}

fn drive<C: Cache<u64>>(mut cache: C, seed: u64) {
    let mut rng = Lcg(seed);
    let mut hits = 0u64;
    let mut misses = 0u64;
    for _ in 0..400 {
        let key = rng.next() % 12;
        match rng.next() % 10 {
            0..=3 => {
                cache.set(key, key * 3);
            }
            4..=6 => match cache.get(&key) {
                Some(v) => {
                    assert_eq!(*v, key * 3);
                    hits += 1;
                }
                None => misses += 1,
            },
            7 => {
                cache.remove(&key);
                assert!(cache.get(&key).is_none());
                misses += 1;
            }
            8 => cache.change_capacity(rng.next() % 6),
            _ => {
                if rng.next() % 8 == 0 {
                    cache.clear();
                }
            }
        }
        let stats = cache.stats();
        assert!(stats.size <= stats.capacity);
        assert_eq!(stats.hits, hits);
        assert_eq!(stats.misses, misses);
    }
}

#[test]
fn size_never_exceeds_capacity_for_any_engine() {
    for seed in 1..6u64 {
        drive(FIFOCache::new(4), seed);
        drive(LIFOCache::new(4), seed);
        drive(LRUCache::new(4), seed);
        drive(MRUCache::new(4), seed);
        drive(LFUCache::new(4), seed);
        drive(RandomReplacementCache::new(4), seed);
        drive(TTLCache::new(600_000, 4), seed);
    }
}

fn count_present<C: Cache<u64>>(cache: &mut C, keys: std::ops::Range<u64>) -> u64 {
    keys.filter(|k| cache.get(k).is_some()).count() as u64
}

fn check_stats_and_clear<C: Cache<u64>>(mut cache: C) {
    cache.set(1, 1);
    cache.set(2, 2);
    cache.get(&1);
    cache.get(&2);
    cache.get(&9);
    let before = cache.stats();
    assert_eq!(before.hits, 2);
    assert_eq!(before.misses, 1);
    assert_eq!(before.size, 2);
    cache.clear();
    let after = cache.stats();
    assert_eq!(after.size, 0);
    assert_eq!(after.hits, 2);
    assert_eq!(after.misses, 1);
    assert_eq!(after.capacity, before.capacity);
    cache.clear();
    assert_eq!(cache.stats().size, 0);
    assert!(cache.get(&1).is_none());
    assert!(cache.get(&2).is_none());
    assert_eq!(cache.stats().misses, 3);
}

#[test]
fn stats_count_hits_misses_and_clear_keeps_them() {
    check_stats_and_clear(FIFOCache::new(3));
    check_stats_and_clear(LIFOCache::new(3));
    check_stats_and_clear(LRUCache::new(3));
    check_stats_and_clear(MRUCache::new(3));
    check_stats_and_clear(LFUCache::new(3));
    check_stats_and_clear(RandomReplacementCache::new(3));
    check_stats_and_clear(TTLCache::new(600_000, 3));
}

fn check_shrink<C: Cache<u64>>(mut cache: C) {
    for k in 0..8u64 {
        cache.set(k, k);
    }
    assert_eq!(cache.stats().size, 8);
    cache.change_capacity(3);
    let stats = cache.stats();
    assert_eq!(stats.size, 3);
    assert_eq!(stats.capacity, 3);
    assert_eq!(count_present(&mut cache, 0..8), 3);
    cache.change_capacity(10);
    assert_eq!(cache.stats().size, 3);
}

#[test]
fn shrinking_evicts_exactly_the_excess() {
    check_shrink(FIFOCache::new(8));
    check_shrink(LIFOCache::new(8));
    check_shrink(LRUCache::new(8));
    check_shrink(MRUCache::new(8));
    check_shrink(LFUCache::new(8));
    check_shrink(RandomReplacementCache::new(8));
    check_shrink(TTLCache::new(600_000, 8));
}
