use arcache::{Cache, TTLCache};

#[test]
fn test_ttl_cache() {
    let mut cache = TTLCache::new(1000, 2);
    cache.set_at(1, 1, 0);
    cache.set_at(2, 2, 0);
    assert_eq!(cache.get_at(&1, 0).map(|v| *v), Some(1));
    assert_eq!(cache.get_at(&1, 2000), None);
    assert_eq!(cache.get_at(&2, 2000), None);
}

#[test]
fn test_ttl_cache_change_capacity() {
    let mut cache = TTLCache::new(1000, 2);
    cache.set(1, 1);
    cache.set(2, 2);
    cache.change_capacity(1);
    assert_eq!(cache.get(&1), None);
    assert_eq!(cache.get(&2).map(|v| *v), Some(2));
}

#[test]
fn test_ttl_cache_clear() {
    let mut cache = TTLCache::new(1000, 2);
    cache.set(1, 1);
    cache.set(2, 2);
    cache.clear();
    assert_eq!(cache.get(&1), None);
    assert_eq!(cache.get(&2), None);
}

#[test]
fn ttl_expired_read_is_a_miss_and_drops_entry() {
    let mut cache = TTLCache::new(1, 4);
    cache.set_at(1, 1, 0);
    assert_eq!(cache.get_at(&1, 2), None);
    let stats = cache.stats();
    assert_eq!(stats.misses, 1);
    assert_eq!(stats.hits, 0);
    assert_eq!(stats.size, 0);
}

#[test]
fn ttl_expiry_boundary() {
    let mut cache = TTLCache::new(10, 4);
    cache.set_at(1, 1, 100);
    assert_eq!(cache.get_at(&1, 109).map(|v| *v), Some(1));
    // the hit at 109 slid the expiry to 119
    assert_eq!(cache.get_at(&1, 118).map(|v| *v), Some(1));
    assert_eq!(cache.get_at(&1, 128), None);
    cache.set_at(2, 2, 0);
    assert_eq!(cache.get_at(&2, 10), None);
}

#[test]
fn ttl_full_cache_evicts_least_recently_accessed() {
    let mut cache = TTLCache::new(1000, 2);
    cache.set_at(1, 1, 0);
    cache.set_at(2, 2, 1);
    assert_eq!(cache.get_at(&1, 2).map(|v| *v), Some(1));
    cache.set_at(3, 3, 3);
    assert_eq!(cache.get_at(&2, 4), None);
    assert_eq!(cache.get_at(&1, 4).map(|v| *v), Some(1));
    assert_eq!(cache.get_at(&3, 4).map(|v| *v), Some(3));
}

#[test]
fn ttl_purge_stops_at_first_live_entry() {
    let mut cache = TTLCache::new(10, 8);
    cache.set_at(1, 1, 0);
    cache.set_at(2, 2, 2);
    cache.set_at(3, 3, 20);
    cache.set_at(4, 4, 1);
    assert_eq!(cache.purge_expired(12), 2);
    assert_eq!(cache.stats().size, 2);
    assert_eq!(cache.get_at(&3, 12).map(|v| *v), Some(3));
    // key 4 expired at 11 but stood behind a live entry; a read drops it
    assert_eq!(cache.get_at(&4, 12), None);
    assert_eq!(cache.purge_expired(12), 0);
}

#[test]
fn ttl_overwrite_renews_expiry() {
    let mut cache = TTLCache::new(10, 2);
    cache.set_at(1, 1, 0);
    assert_eq!(cache.set_at(1, 11, 8).map(|v| *v), Some(1));
    assert_eq!(cache.get_at(&1, 15).map(|v| *v), Some(11));
    assert_eq!(cache.remove(&1).map(|v| *v), Some(11));
    assert_eq!(cache.stats().size, 0);
}

#[test]
fn ttl_zero_capacity_stores_nothing() {
    let mut cache = TTLCache::new(1000, 0);
    assert_eq!(cache.set(1, 1), None);
    assert_eq!(cache.get(&1), None);
    assert_eq!(cache.stats().size, 0);
}

#[test]
fn ttl_sweep_delay_lies_within_jitter() {
    let cache: TTLCache<u32> = TTLCache::with_sweep(1000, 50, 10, 4);
    for _ in 0..100 {
        let d = cache.next_sweep_delay();
        assert!((50..=60).contains(&d));
    }
    let plain: TTLCache<u32> = TTLCache::new(30, 4);
    assert_eq!(plain.next_sweep_delay(), 30);
}

#[test]
fn ttl_delay_for_draw_adds_jitter() {
    let cache: TTLCache<u32> = TTLCache::with_sweep(1000, 50, 10, 4);
    assert_eq!(cache.delay_for_draw(0), 50);
    assert_eq!(cache.delay_for_draw(7), 57);
    let long: TTLCache<u32> = TTLCache::with_sweep(1000, u64::MAX - 1, 10, 4);
    assert_eq!(long.delay_for_draw(5), u64::MAX);
}

#[test]
fn ttl_sweep_keeps_fresh_entries() {
    let mut cache = TTLCache::new(60_000, 4);
    cache.set(1, 1);
    cache.set(2, 2);
    assert_eq!(cache.sweep(), 0);
    assert_eq!(cache.get(&1).map(|v| *v), Some(1));
    assert_eq!(cache.stats().hits, 1);
}
