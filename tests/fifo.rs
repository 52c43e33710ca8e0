use arcache::{Cache, FIFOCache};

#[test]
fn test_fifo_cache() {
    let mut cache = FIFOCache::new(2);
    cache.set(1, 1);
    cache.set(2, 2);
    assert_eq!(cache.get(&1).map(|v| *v), Some(1));
    cache.set(3, 3);
    assert_eq!(cache.get(&2).map(|v| *v), Some(2));
    assert_eq!(cache.get(&1), None);
    cache.set(4, 4);
    assert_eq!(cache.get(&1), None);
    assert_eq!(cache.get(&3).map(|v| *v), Some(3));
    assert_eq!(cache.get(&4).map(|v| *v), Some(4));
}

#[test]
fn test_fifo_cache_clear() {
    let mut cache = FIFOCache::new(2);
    cache.set(1, 1);
    cache.set(2, 2);
    cache.clear();
    assert_eq!(cache.get(&1), None);
    assert_eq!(cache.get(&2), None);
}

#[test]
fn test_fifo_cache_change_capacity() {
    let mut cache = FIFOCache::new(2);
    cache.set(1, 1);
    cache.set(2, 2);
    cache.change_capacity(1);
    assert_eq!(cache.get(&1), None);
    assert_eq!(cache.get(&2).map(|v| *v), Some(2));
}

#[test]
fn fifo_evicts_first_inserted_key() {
    let mut cache = FIFOCache::new(2);
    cache.set(1, 1);
    cache.set(2, 2);
    cache.set(3, 3);
    assert_eq!(cache.get(&1), None);
    assert_eq!(cache.get(&2).map(|v| *v), Some(2));
    assert_eq!(cache.get(&3).map(|v| *v), Some(3));
}

#[test]
fn fifo_overwrite_keeps_position_and_returns_previous() {
    let mut cache = FIFOCache::new(2);
    cache.set(1, 10);
    cache.set(2, 20);
    assert_eq!(cache.set(1, 11).map(|v| *v), Some(10));
    assert_eq!(cache.stats().size, 2);
    cache.set(3, 30);
    assert_eq!(cache.get(&1), None);
    assert_eq!(cache.get(&2).map(|v| *v), Some(20));
    assert_eq!(cache.get(&3).map(|v| *v), Some(30));
}

#[test]
fn fifo_remove_returns_value_and_frees_room() {
    let mut cache = FIFOCache::new(2);
    cache.set(1, 1);
    cache.set(2, 2);
    assert_eq!(cache.remove(&1).map(|v| *v), Some(1));
    assert_eq!(cache.remove(&1), None);
    cache.set(3, 3);
    assert_eq!(cache.get(&2).map(|v| *v), Some(2));
    assert_eq!(cache.get(&3).map(|v| *v), Some(3));
    assert_eq!(cache.stats().size, 2);
}

#[test]
fn fifo_zero_capacity_stores_nothing() {
    let mut cache = FIFOCache::new(0);
    assert_eq!(cache.set(1, 1), None);
    assert_eq!(cache.get(&1), None);
    let stats = cache.stats();
    assert_eq!(stats.size, 0);
    assert_eq!(stats.capacity, 0);
    assert_eq!(stats.misses, 1);
}

#[test]
fn fifo_shrink_evicts_oldest_entries() {
    let mut cache = FIFOCache::new(5);
    for k in 1..=5u64 {
        cache.set(k, k * 10);
    }
    cache.change_capacity(2);
    let stats = cache.stats();
    assert_eq!(stats.size, 2);
    assert_eq!(stats.capacity, 2);
    for k in 1..=3u64 {
        assert_eq!(cache.get(&k), None);
    }
    assert_eq!(cache.get(&4).map(|v| *v), Some(40));
    assert_eq!(cache.get(&5).map(|v| *v), Some(50));
}

#[test]
fn fifo_get_hands_out_the_stored_value() {
    let mut cache = FIFOCache::new(2);
    cache.set(7, String::from("seven"));
    let a = cache.get(&7).unwrap();
    let b = cache.get(&7).unwrap();
    assert!(std::sync::Arc::ptr_eq(&a, &b));
    assert_eq!(a.as_str(), "seven");
}
