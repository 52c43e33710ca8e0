use arcache::{Cache, LRUCache, MRUCache};

#[test]
fn test_lru_cache() {
    let mut cache = LRUCache::new(2);
    cache.set(1, 1);
    cache.set(2, 2);
    assert_eq!(cache.get(&1).map(|v| *v), Some(1));
    cache.set(3, 3);
    assert_eq!(cache.get(&2).map(|v| *v), None);
    cache.set(4, 4);
    assert_eq!(cache.get(&1).map(|v| *v), None);
    assert_eq!(cache.get(&3).map(|v| *v), Some(3));
    assert_eq!(cache.get(&4).map(|v| *v), Some(4));
}

#[test]
fn test_lru_cache_change_capacity() {
    let mut cache = LRUCache::new(2);
    cache.set(1, 1);
    cache.set(2, 2);
    cache.change_capacity(1);
    assert_eq!(cache.get(&1).map(|v| *v), None);
    assert_eq!(cache.get(&2).map(|v| *v), Some(2));
}

#[test]
fn test_lru_cache_clear() {
    let mut cache = LRUCache::new(2);
    cache.set(1, 1);
    cache.set(2, 2);
    cache.clear();
    assert_eq!(cache.get(&1).map(|v| *v), None);
    assert_eq!(cache.get(&2).map(|v| *v), None);
}

#[test]
fn test_lru_stats() {
    let mut cache = LRUCache::new(2);
    cache.set(1, 1);
    cache.set(2, 2);
    cache.set(3, 3);
    assert_eq!(cache.stats().hits, 0);
    cache.get(&1);
    cache.get(&2);
    assert_eq!(cache.stats().hits, 1);
    assert_eq!(cache.stats().misses, 1);
    cache.get(&3);
    assert_eq!(cache.stats().hits, 2);
    assert_eq!(cache.stats().misses, 1);

    cache.set(4, 4);
    assert_eq!(cache.stats().size, 2);
    cache.get(&2);
    assert_eq!(cache.stats().misses, 2);
    cache.get(&4);
    assert_eq!(cache.stats().hits, 3);
}

#[test]
fn test_mru_cache() {
    let mut cache = MRUCache::new(2);
    cache.set(1, 1);
    cache.set(2, 2);
    assert_eq!(cache.get(&1).map(|v| *v), Some(1));
    cache.set(3, 3);
    assert_eq!(cache.get(&2).map(|v| *v), Some(2));
    cache.set(4, 4);
    assert_eq!(cache.get(&1).map(|v| *v), None);
    assert_eq!(cache.get(&3).map(|v| *v), Some(3));
    assert_eq!(cache.get(&4).map(|v| *v), Some(4));
}

#[test]
fn test_mru_cache_change_capacity() {
    let mut cache = MRUCache::new(2);
    cache.set(1, 1);
    cache.set(2, 2);
    cache.change_capacity(1);
    assert_eq!(cache.get(&1).map(|v| *v), Some(1));
    assert_eq!(cache.get(&2).map(|v| *v), None);
}

#[test]
fn test_mru_cache_clear() {
    let mut cache = MRUCache::new(2);
    cache.set(1, 1);
    cache.set(2, 2);
    cache.clear();
    assert_eq!(cache.get(&1).map(|v| *v), None);
    assert_eq!(cache.get(&2).map(|v| *v), None);
}

#[test]
fn lru_read_refreshes_recency() {
    let mut cache = LRUCache::new(2);
    cache.set(1, 1);
    cache.set(2, 2);
    assert_eq!(cache.get(&1).map(|v| *v), Some(1));
    cache.set(3, 3);
    assert_eq!(cache.get(&2), None);
    assert_eq!(cache.get(&1).map(|v| *v), Some(1));
    assert_eq!(cache.get(&3).map(|v| *v), Some(3));
}

#[test]
fn lru_overwrite_refreshes_recency() {
    let mut cache = LRUCache::new(2);
    cache.set(1, 1);
    cache.set(2, 2);
    assert_eq!(cache.set(1, 11).map(|v| *v), Some(1));
    cache.set(3, 3);
    assert_eq!(cache.get(&2), None);
    assert_eq!(cache.get(&1).map(|v| *v), Some(11));
}

#[test]
fn lru_zero_capacity_stores_nothing() {
    let mut cache = LRUCache::new(0);
    assert_eq!(cache.set(1, 1), None);
    assert_eq!(cache.get(&1), None);
    assert_eq!(cache.stats().size, 0);
}

#[test]
fn lru_remove_and_shrink() {
    let mut cache = LRUCache::new(4);
    for k in 1..=4u64 {
        cache.set(k, k);
    }
    assert_eq!(cache.remove(&2).map(|v| *v), Some(2));
    assert_eq!(cache.remove(&2), None);
    cache.get(&1);
    cache.change_capacity(1);
    assert_eq!(cache.stats().size, 1);
    assert_eq!(cache.get(&1).map(|v| *v), Some(1));
    assert_eq!(cache.get(&3), None);
    assert_eq!(cache.get(&4), None);
}

#[test]
fn mru_read_makes_key_next_victim() {
    let mut cache = MRUCache::new(2);
    cache.set(1, 1);
    cache.set(2, 2);
    assert_eq!(cache.get(&1).map(|v| *v), Some(1));
    cache.set(3, 3);
    assert_eq!(cache.get(&1), None);
    assert_eq!(cache.get(&2).map(|v| *v), Some(2));
    assert_eq!(cache.get(&3).map(|v| *v), Some(3));
}

#[test]
fn mru_zero_capacity_and_overwrite() {
    let mut zero = MRUCache::new(0);
    assert_eq!(zero.set(1, 1), None);
    assert_eq!(zero.stats().size, 0);
    let mut cache = MRUCache::new(2);
    cache.set(1, 1);
    cache.set(2, 2);
    assert_eq!(cache.set(2, 22).map(|v| *v), Some(2));
    assert_eq!(cache.stats().size, 2);
    assert_eq!(cache.remove(&1).map(|v| *v), Some(1));
    assert_eq!(cache.stats().size, 1);
}
