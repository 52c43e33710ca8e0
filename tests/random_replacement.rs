use arcache::{Cache, RandomReplacementCache};

#[test]
fn test_random_replacement_cache() {
    let mut cache = RandomReplacementCache::new(2);
    cache.set(1, 1);
    cache.set(2, 2);
    assert_eq!(cache.get(&1).map(|v| *v), Some(1));
    cache.set(3, 3);
    assert_eq!(cache.get(&3).map(|v| *v), Some(3));
    assert!(cache.get(&1).is_none() || cache.get(&2).is_none());
    cache.set(4, 4);
    assert_eq!(cache.get(&4).map(|v| *v), Some(4));
}

#[test]
fn test_random_replacement_cache_clear() {
    let mut cache = RandomReplacementCache::new(2);
    cache.set(1, 1);
    cache.set(2, 2);
    cache.clear();
    assert_eq!(cache.get(&1), None);
    assert_eq!(cache.get(&2), None);
}

#[test]
fn test_random_replacement_cache_change_capacity() {
    let mut cache = RandomReplacementCache::new(2);
    cache.set(1, 1);
    cache.set(2, 2);
    cache.change_capacity(1);
    assert!(cache.get(&1).is_none() || cache.get(&2).is_none());
}

#[test]
fn random_victim_slot_is_draw_modulo_size() {
    let mut cache = RandomReplacementCache::new(3);
    cache.set(1, 1);
    cache.set(2, 2);
    cache.set(3, 3);
    // slot 7 % 3 == 1 holds key 2; key 3 moves into that slot
    assert_eq!(cache.set_with_victim(4, 4, 7), None);
    assert_eq!(cache.get(&2), None);
    assert_eq!(cache.get(&1).map(|v| *v), Some(1));
    assert_eq!(cache.get(&3).map(|v| *v), Some(3));
    assert_eq!(cache.get(&4).map(|v| *v), Some(4));
    // slots are now [1, 3, 4]: draw 0 takes key 1
    cache.set_with_victim(5, 5, 0);
    assert_eq!(cache.get(&1), None);
    assert_eq!(cache.stats().size, 3);
}

#[test]
fn random_eviction_keeps_size_at_capacity() {
    let mut cache = RandomReplacementCache::new(3);
    for k in 0..50u64 {
        cache.set(k, k);
        assert!(cache.stats().size <= 3);
        assert_eq!(cache.get(&k).map(|v| *v), Some(k));
    }
    let present = (0..50u64).filter(|k| cache.get(k).is_some()).count();
    assert_eq!(present, 3);
}

#[test]
fn random_shrink_evicts_exactly_the_excess() {
    let mut cache = RandomReplacementCache::new(6);
    for k in 0..6u64 {
        cache.set(k, k);
    }
    cache.change_capacity(2);
    assert_eq!(cache.stats().size, 2);
    let present = (0..6u64).filter(|k| cache.get(k).is_some()).count();
    assert_eq!(present, 2);
}

#[test]
fn random_zero_capacity_overwrite_and_remove() {
    let mut zero = RandomReplacementCache::new(0);
    assert_eq!(zero.set(1, 1), None);
    assert_eq!(zero.stats().size, 0);
    let mut cache = RandomReplacementCache::new(2);
    cache.set(1, 1);
    cache.set(2, 2);
    assert_eq!(cache.set(1, 10).map(|v| *v), Some(1));
    assert_eq!(cache.get(&2).map(|v| *v), Some(2));
    assert_eq!(cache.remove(&1).map(|v| *v), Some(10));
    assert_eq!(cache.stats().size, 1);
}

#[test]
fn random_eviction_by_draw_swaps_in_last_slot() {
    let mut cache = RandomReplacementCache::new(4);
    for k in 1..=4u64 {
        cache.set(k, k);
    }
    // slot 5 % 4 == 1 holds key 2; key 4 moves into that slot
    cache.evict_with_draw(5);
    assert_eq!(cache.get(&2), None);
    assert_eq!(cache.stats().size, 3);
    // slots are now [1, 4, 3]: draw 1 takes key 4
    cache.evict_with_draw(1);
    assert_eq!(cache.get(&4), None);
    assert_eq!(cache.get(&1).map(|v| *v), Some(1));
    assert_eq!(cache.get(&3).map(|v| *v), Some(3));
    let mut empty: RandomReplacementCache<u64> = RandomReplacementCache::new(2);
    empty.evict_with_draw(3);
    assert_eq!(empty.stats().size, 0);
}
