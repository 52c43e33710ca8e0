//! Least-recently-used eviction: every read or write moves a key to the
//! most-recent end, and the key at the least-recent end leaves first.
use linked_hash_set::LinkedHashSet;
use std::collections::HashMap;
use std::sync::Arc;
use vstd::prelude::*;

use crate::cache::{share, Cache, CacheStats};
use crate::keyed::{
    kept, keyed_by, lemma_keyed_contains, lemma_keyed_empty, lemma_keyed_len, lemma_keyed_push,
    lemma_keyed_refresh, lemma_keyed_remove, lemma_keyed_slice,
};
use crate::linked::{
    ordered_set_clear, ordered_set_insert, ordered_set_new,
    ordered_set_pop_front, ordered_set_refresh, ordered_set_remove, set_order,
};

verus! {

broadcast use vstd::std_specs::hash::group_hash_axioms;

/// A cache that evicts the least recently accessed key.
pub struct LRUCache<V> {
    capacity: u64,
    key_value_map: HashMap<u64, Arc<V>>,
    recency: LinkedHashSet<u64>,
    hits: u64,
    misses: u64,
}

impl<V> LRUCache<V> {
    /// The keys from least to most recently accessed.
    pub closed spec fn order(&self) -> Seq<u64> {
        set_order(self.recency)
    }

    /// The order lists every stored key exactly once.
    pub proof fn lemma_order_lists_entries(&self)
        requires
            self.wf(),
        ensures
            keyed_by(self.order(), self.entries()),
    {
    }

    /// Creates an empty cache that holds at most `capacity` entries.
    pub fn new(capacity: u64) -> (r: Self)
        ensures
            r.wf(),
            r.entries() == Map::<u64, Arc<V>>::empty(),
            r.order() == Seq::<u64>::empty(),
            r.hit_count() == 0,
            r.miss_count() == 0,
            r.capacity_limit() == capacity,
    {
        proof {
            lemma_keyed_empty::<Arc<V>>();
        }
        LRUCache {
            capacity,
            key_value_map: HashMap::new(),
            recency: ordered_set_new(),
            hits: 0,
            misses: 0,
        }
    }

    /// Removes the least recently accessed key and its entry.
    fn evict_least_recent(&mut self)
        requires
            keyed_by(set_order(old(self).recency), old(self).key_value_map@),
            set_order(old(self).recency).len() > 0,
        ensures
            set_order(final(self).recency) == set_order(old(self).recency).drop_first(),
            final(self).key_value_map@ == old(self).key_value_map@.remove(
                set_order(old(self).recency)[0],
            ),
            keyed_by(set_order(final(self).recency), final(self).key_value_map@),
            final(self).key_value_map@.len() + 1 == old(self).key_value_map@.len(),
            final(self).capacity == old(self).capacity,
            final(self).hits == old(self).hits,
            final(self).misses == old(self).misses,
    {
        proof {
            let order = set_order(self.recency);
            lemma_keyed_remove(order, self.key_value_map@, 0);
            assert(order.remove(0) =~= order.drop_first());
            lemma_keyed_len(order, self.key_value_map@);
        }
        if let Some(oldest) = ordered_set_pop_front(&mut self.recency) {
            self.key_value_map.remove(&oldest);
        }
    }
}

impl<V> Cache<V> for LRUCache<V> {
    closed spec fn wf(&self) -> bool {
        &&& keyed_by(set_order(self.recency), self.key_value_map@)
        &&& self.key_value_map@.len() <= self.capacity
    }

    closed spec fn entries(&self) -> Map<u64, Arc<V>> {
        self.key_value_map@
    }

    closed spec fn hit_count(&self) -> u64 {
        self.hits
    }

    closed spec fn miss_count(&self) -> u64 {
        self.misses
    }

    closed spec fn capacity_limit(&self) -> u64 {
        self.capacity
    }

    proof fn lemma_size_within_capacity(&self) {
        lemma_keyed_len(set_order(self.recency), self.key_value_map@);
        assert(set_order(self.recency).to_set().finite());
    }

    fn get(&mut self, key: &u64) -> (r: Option<Arc<V>>)
        ensures
            r is Some <==> old(self).entries().contains_key(*key),
            r is Some ==> final(self).order() == old(self).order().remove_value(*key).push(*key),
            r is None ==> final(self).order() == old(self).order(),
    {
        let found = match self.key_value_map.get(key) {
            Some(v) => Some(share(v)),
            None => None,
        };
        if found.is_some() {
            proof {
                lemma_keyed_refresh(
                    set_order(self.recency),
                    self.key_value_map@,
                    *key,
                    self.key_value_map@[*key],
                );
                assert(self.key_value_map@.insert(*key, self.key_value_map@[*key])
                    =~= self.key_value_map@);
            }
            ordered_set_refresh(&mut self.recency, *key);
            self.hits = self.hits.saturating_add(1);
        } else {
            self.misses = self.misses.saturating_add(1);
            assert(self.key_value_map@.remove(*key) =~= self.key_value_map@);
        }
        found
    }

    fn set(&mut self, key: u64, value: V) -> (r: Option<Arc<V>>)
        ensures
            old(self).entries().contains_key(key) ==> {
                &&& final(self).order() == old(self).order().remove_value(key).push(key)
                &&& final(self).entries() == old(self).entries().insert(
                    key,
                    final(self).entries()[key],
                )
            },
            !old(self).entries().contains_key(key) && old(self).entries().len()
                < old(self).capacity_limit() ==> final(self).order() == old(self).order().push(key),
            old(self).capacity_limit() > 0 && !old(self).entries().contains_key(key)
                && old(self).entries().len() >= old(self).capacity_limit() ==> {
                &&& final(self).order() == old(self).order().drop_first().push(key)
                &&& final(self).entries() == old(self).entries().remove(
                    old(self).order()[0],
                ).insert(key, final(self).entries()[key])
            },
            old(self).capacity_limit() == 0 ==> final(self).order() == old(self).order(),
    {
        let ghost order0 = set_order(self.recency);
        let ghost map0 = self.key_value_map@;
        proof {
            lemma_keyed_len(order0, map0);
            lemma_keyed_contains(order0, map0, key);
        }
        let stored = Arc::new(value);
        let present = self.key_value_map.contains_key(&key);
        proof {
            if present {
                lemma_keyed_refresh(order0, map0, key, stored);
            } else {
                lemma_keyed_push(order0, map0, key, stored);
                order0.index_of_first_ensures(key);
                assert(order0.remove_value(key) == order0);
            }
        }
        let prior = self.key_value_map.insert(key, stored);
        ordered_set_insert(&mut self.recency, key);
        proof {
            lemma_keyed_len(set_order(self.recency), self.key_value_map@);
        }
        if self.key_value_map.len() as u64 > self.capacity {
            let ghost mid = set_order(self.recency);
            self.evict_least_recent();
            proof {
                if order0.len() > 0 {
                    assert(mid[0] == order0[0]);
                    assert(mid.drop_first() =~= order0.drop_first().push(key));
                    assert(self.key_value_map@ =~= map0.remove(order0[0]).insert(key, stored));
                } else {
                    assert(set_order(self.recency) =~= order0);
                    assert(self.key_value_map@ =~= map0);
                }
            }
        } else {
            proof {
                assert(self.key_value_map@.dom() =~= map0.dom().insert(key));
            }
        }
        prior
    }

    fn remove(&mut self, key: &u64) -> (r: Option<Arc<V>>)
        ensures
            final(self).order() == old(self).order().remove_value(*key),
    {
        proof {
            lemma_keyed_contains(set_order(self.recency), self.key_value_map@, *key);
            lemma_keyed_len(set_order(self.recency), self.key_value_map@);
            if self.key_value_map@.contains_key(*key) {
                lemma_keyed_remove(
                    set_order(self.recency),
                    self.key_value_map@,
                    set_order(self.recency).index_of(*key),
                );
            } else {
                set_order(self.recency).index_of_first_ensures(*key);
                assert(self.key_value_map@.remove(*key) =~= self.key_value_map@);
            }
        }
        let result = self.key_value_map.remove(key);
        ordered_set_remove(&mut self.recency, *key);
        proof {
            lemma_keyed_len(set_order(self.recency), self.key_value_map@);
        }
        result
    }

    fn clear(&mut self)
        ensures
            final(self).order() == Seq::<u64>::empty(),
    {
        self.key_value_map.clear();
        ordered_set_clear(&mut self.recency);
        proof {
            lemma_keyed_empty::<Arc<V>>();
        }
    }

    fn stats(&self) -> (r: CacheStats) {
        CacheStats {
            hits: self.hits,
            misses: self.misses,
            size: self.key_value_map.len() as u64,
            capacity: self.capacity,
        }
    }

    fn change_capacity(&mut self, capacity: u64)
        ensures
            old(self).order().len() <= capacity ==> final(self).order() == old(self).order(),
            old(self).order().len() > capacity ==> final(self).order()
                == old(self).order().subrange(
                old(self).order().len() - capacity,
                old(self).order().len() as int,
            ),
            final(self).entries() == kept(old(self).entries(), final(self).order()),
    {
        let ghost start = set_order(self.recency);
        let ghost entries = self.key_value_map@;
        proof {
            lemma_keyed_len(start, entries);
            lemma_keyed_slice(start, entries, 0, start.len() as int);
            assert(start.subrange(0, start.len() as int) =~= start);
            assert(kept(entries, start) =~= entries);
        }
        self.capacity = capacity;
        while self.key_value_map.len() as u64 > self.capacity
            invariant
                keyed_by(set_order(self.recency), self.key_value_map@),
                self.capacity == capacity,
                self.hits == old(self).hits,
                self.misses == old(self).misses,
                start == set_order(old(self).recency),
                entries == old(self).key_value_map@,
                keyed_by(start, entries),
                start.len() >= set_order(self.recency).len(),
                set_order(self.recency) == start.subrange(
                    start.len() - set_order(self.recency).len(),
                    start.len() as int,
                ),
                self.key_value_map@ == kept(entries, set_order(self.recency)),
                set_order(self.recency).len() == start.len() || set_order(self.recency).len()
                    >= capacity,
            decreases set_order(self.recency).len(),
        {
            proof {
                lemma_keyed_len(set_order(self.recency), self.key_value_map@);
            }
            let ghost cut = start.len() - set_order(self.recency).len() + 1;
            self.evict_least_recent();
            proof {
                let now = set_order(self.recency);
                assert(now =~= start.subrange(cut, start.len() as int));
                lemma_keyed_slice(start, entries, cut, start.len() as int);
                assert(self.key_value_map@ =~= kept(entries, now)) by {
                    lemma_keyed_len(now, self.key_value_map@);
                    assert(self.key_value_map@.dom() =~= now.to_set());
                    assert(kept(entries, now).dom() =~= now.to_set());
                }
            }
        }
        proof {
            lemma_keyed_len(set_order(self.recency), self.key_value_map@);
            if start.len() <= capacity {
                assert(set_order(self.recency) =~= start);
            }
        }
    }
}

} // verus!
