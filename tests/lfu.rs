use arcache::{Cache, LFUCache};

#[test]
fn test_lfu_cache() {
    let mut cache = LFUCache::new(2);
    cache.set(1, 1);
    cache.set(2, 2);
    assert_eq!(cache.get(&1).map(|v| *v), Some(1));
    cache.set(3, 3);
    assert_eq!(cache.get(&2), None);
    assert_eq!(cache.get(&1).map(|v| *v), Some(1));
    assert_eq!(cache.get(&3).map(|v| *v), Some(3));
    cache.set(4, 4);
    assert_eq!(cache.get(&2), None);
}

#[test]
fn test_lfu_cache_change_capacity() {
    let mut cache = LFUCache::new(2);
    cache.set(1, 1);
    cache.set(2, 2);
    cache.change_capacity(1);
    assert_eq!(cache.get(&2).map(|v| *v), Some(2));
    assert_eq!(cache.get(&1), None);
}

#[test]
fn test_lfu_cache_clear() {
    let mut cache = LFUCache::new(2);
    cache.set(1, 1);
    cache.set(2, 2);
    cache.clear();
    assert_eq!(cache.get(&1), None);
    assert_eq!(cache.get(&2), None);
}

#[test]
fn test_lfu_cache_stats() {
    let mut cache = LFUCache::new(2);
    cache.set(1, 1);
    cache.set(2, 2);
    cache.get(&1);
    cache.get(&2);
    cache.get(&3);
    let stats = cache.stats();
    assert_eq!(stats.hits, 2);
    assert_eq!(stats.misses, 1);
    assert_eq!(stats.size, 2);
    assert_eq!(stats.capacity, 2);
}

#[test]
fn lfu_evicts_lower_frequency() {
    let mut cache = LFUCache::new(2);
    cache.set(1, 1);
    cache.set(2, 2);
    cache.get(&1);
    cache.get(&1);
    cache.get(&2);
    cache.set(3, 3);
    assert_eq!(cache.get(&2), None);
    assert_eq!(cache.get(&1).map(|v| *v), Some(1));
    assert_eq!(cache.get(&3).map(|v| *v), Some(3));
}

#[test]
fn lfu_ties_evict_oldest_arrival() {
    let mut cache = LFUCache::new(3);
    cache.set(1, 1);
    cache.set(2, 2);
    cache.set(3, 3);
    cache.get(&2);
    cache.get(&1);
    cache.set(4, 4);
    assert_eq!(cache.get(&3), None);
    cache.set(5, 5);
    assert_eq!(cache.get(&4), None);
    assert_eq!(cache.get(&1).map(|v| *v), Some(1));
    assert_eq!(cache.get(&2).map(|v| *v), Some(2));
    assert_eq!(cache.get(&5).map(|v| *v), Some(5));
}

#[test]
fn lfu_overwrite_counts_as_access() {
    let mut cache = LFUCache::new(2);
    cache.set(1, 1);
    cache.set(2, 2);
    assert_eq!(cache.set(1, 10).map(|v| *v), Some(1));
    cache.set(3, 3);
    assert_eq!(cache.get(&2), None);
    assert_eq!(cache.get(&1).map(|v| *v), Some(10));
}

#[test]
fn lfu_remove_then_evict_finds_next_lowest() {
    let mut cache = LFUCache::new(2);
    cache.set(1, 1);
    cache.set(2, 2);
    cache.get(&2);
    cache.get(&2);
    assert_eq!(cache.remove(&1).map(|v| *v), Some(1));
    assert_eq!(cache.remove(&1), None);
    cache.set(3, 3);
    cache.get(&3);
    cache.change_capacity(1);
    assert_eq!(cache.stats().size, 1);
    assert_eq!(cache.get(&3), None);
    assert_eq!(cache.get(&2).map(|v| *v), Some(2));
}

#[test]
fn lfu_shrink_keeps_most_used() {
    let mut cache = LFUCache::new(4);
    for k in 1..=4u64 {
        cache.set(k, k);
    }
    for _ in 0..3 {
        cache.get(&3);
    }
    for _ in 0..2 {
        cache.get(&1);
    }
    cache.get(&4);
    cache.change_capacity(2);
    assert_eq!(cache.stats().size, 2);
    assert_eq!(cache.get(&2), None);
    assert_eq!(cache.get(&4), None);
    assert_eq!(cache.get(&1).map(|v| *v), Some(1));
    assert_eq!(cache.get(&3).map(|v| *v), Some(3));
}

#[test]
fn lfu_zero_capacity_stores_nothing() {
    let mut cache = LFUCache::new(0);
    assert_eq!(cache.set(1, 1), None);
    assert_eq!(cache.get(&1), None);
    assert_eq!(cache.stats().size, 0);
}

#[test]
fn lfu_shrink_breaks_ties_by_arrival() {
    let mut cache = LFUCache::new(2);
    cache.set(1, 1);
    cache.set(2, 2);
    cache.get(&1);
    cache.get(&2);
    cache.change_capacity(1);
    assert_eq!(cache.stats().size, 1);
    assert_eq!(cache.get(&1), None);
    assert_eq!(cache.get(&2).map(|v| *v), Some(2));
}
