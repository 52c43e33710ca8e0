use arcache::{Cache, LIFOCache};

#[test]
fn test_lifo_cache() {
    let mut cache = LIFOCache::new(2);
    cache.set(1, 1);
    cache.set(2, 2);
    assert_eq!(cache.get(&1).map(|v| *v), Some(1));
    cache.set(3, 3);
    assert_eq!(cache.get(&1).map(|v| *v), Some(1));
    assert_eq!(cache.get(&2), None);
    cache.set(4, 4);
    assert_eq!(cache.get(&3), None);
    assert_eq!(cache.get(&1).map(|v| *v), Some(1));
    assert_eq!(cache.get(&4).map(|v| *v), Some(4));
}

#[test]
fn test_lifo_cache_clear() {
    let mut cache = LIFOCache::new(2);
    cache.set(1, 1);
    cache.set(2, 2);
    cache.clear();
    assert_eq!(cache.get(&1), None);
    assert_eq!(cache.get(&2), None);
}

#[test]
fn test_lifo_cache_change_capacity() {
    let mut cache = LIFOCache::new(2);
    cache.set(1, 1);
    cache.set(2, 2);
    cache.change_capacity(1);
    assert_eq!(cache.get(&2), None);
    assert_eq!(cache.get(&1).map(|v| *v), Some(1));
}

#[test]
fn lifo_zero_capacity_stores_nothing() {
    let mut cache = LIFOCache::new(0);
    assert_eq!(cache.set(1, 1), None);
    assert_eq!(cache.get(&1), None);
    assert_eq!(cache.stats().size, 0);
}

#[test]
fn lifo_overwrite_and_remove() {
    let mut cache = LIFOCache::new(3);
    cache.set(1, 1);
    cache.set(2, 2);
    assert_eq!(cache.set(2, 22).map(|v| *v), Some(2));
    assert_eq!(cache.get(&2).map(|v| *v), Some(22));
    assert_eq!(cache.remove(&2).map(|v| *v), Some(22));
    assert_eq!(cache.remove(&2), None);
    assert_eq!(cache.stats().size, 1);
}

#[test]
fn lifo_shrink_keeps_oldest_entries() {
    let mut cache = LIFOCache::new(4);
    for k in 1..=4u64 {
        cache.set(k, k);
    }
    cache.change_capacity(1);
    assert_eq!(cache.stats().size, 1);
    assert_eq!(cache.get(&1).map(|v| *v), Some(1));
    for k in 2..=4u64 {
        assert_eq!(cache.get(&k), None);
    }
}
