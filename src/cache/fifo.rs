//! First-in-first-out eviction: when a new key arrives at a full cache, the
//! key that was inserted earliest leaves.
use std::collections::{HashMap, VecDeque};
use std::sync::Arc;
use vstd::prelude::*;

use crate::cache::{share, Cache, CacheStats};
use crate::keyed::{
    kept, keyed_by, lemma_keyed_contains, lemma_keyed_empty, lemma_keyed_len, lemma_keyed_push,
    lemma_keyed_remove, lemma_keyed_slice, lemma_keyed_update,
};

verus! {

broadcast use vstd::std_specs::hash::group_hash_axioms;

/// A cache that evicts the earliest-inserted key.
pub struct FIFOCache<V> {
    capacity: u64,
    key_value_map: HashMap<u64, Arc<V>>,
    fifo: VecDeque<u64>,
    hits: u64,
    misses: u64,
}

impl<V> FIFOCache<V> {
    /// The keys in insertion order, oldest first.
    pub closed spec fn order(&self) -> Seq<u64> {
        self.fifo@
    }

    /// The order lists every stored key exactly once.
    pub proof fn lemma_order_lists_entries(&self)
        requires
            self.wf(),
        ensures
            keyed_by(self.order(), self.entries()),
    {
    }

    /// Creates an empty cache that holds at most `capacity` entries.
    pub fn new(capacity: u64) -> (r: Self)
        ensures
            r.wf(),
            r.entries() == Map::<u64, Arc<V>>::empty(),
            r.order() == Seq::<u64>::empty(),
            r.hit_count() == 0,
            r.miss_count() == 0,
            r.capacity_limit() == capacity,
    {
        proof {
            lemma_keyed_empty::<Arc<V>>();
        }
        FIFOCache {
            capacity,
            key_value_map: HashMap::new(),
            fifo: VecDeque::new(),
            hits: 0,
            misses: 0,
        }
    }

    /// Removes the oldest key and its entry.
    fn evict_oldest(&mut self)
        requires
            keyed_by(old(self).fifo@, old(self).key_value_map@),
            old(self).fifo@.len() > 0,
        ensures
            final(self).fifo@ == old(self).fifo@.drop_first(),
            final(self).key_value_map@ == old(self).key_value_map@.remove(old(self).fifo@[0]),
            keyed_by(final(self).fifo@, final(self).key_value_map@),
            final(self).key_value_map@.len() + 1 == old(self).key_value_map@.len(),
            final(self).capacity == old(self).capacity,
            final(self).hits == old(self).hits,
            final(self).misses == old(self).misses,
    {
        proof {
            lemma_keyed_remove(self.fifo@, self.key_value_map@, 0);
            assert(self.fifo@.remove(0) =~= self.fifo@.drop_first());
            assert(self.fifo@.subrange(1, self.fifo@.len() as int) =~= self.fifo@.drop_first());
            lemma_keyed_len(self.fifo@, self.key_value_map@);
        }
        if let Some(oldest) = self.fifo.pop_front() {
            self.key_value_map.remove(&oldest);
        }
    }
}

impl<V> Cache<V> for FIFOCache<V> {
    closed spec fn wf(&self) -> bool {
        &&& keyed_by(self.fifo@, self.key_value_map@)
        &&& self.key_value_map@.len() <= self.capacity
    }

    closed spec fn entries(&self) -> Map<u64, Arc<V>> {
        self.key_value_map@
    }

    closed spec fn hit_count(&self) -> u64 {
        self.hits
    }

    closed spec fn miss_count(&self) -> u64 {
        self.misses
    }

    closed spec fn capacity_limit(&self) -> u64 {
        self.capacity
    }

    proof fn lemma_size_within_capacity(&self) {
        lemma_keyed_len(self.fifo@, self.key_value_map@);
        assert(self.fifo@.to_set().finite());
    }

    fn get(&mut self, key: &u64) -> (r: Option<Arc<V>>)
        ensures
            final(self).order() == old(self).order(),
            r is Some <==> old(self).entries().contains_key(*key),
    {
        let found = match self.key_value_map.get(key) {
            Some(v) => Some(share(v)),
            None => None,
        };
        if found.is_some() {
            self.hits = self.hits.saturating_add(1);
        } else {
            self.misses = self.misses.saturating_add(1);
            assert(self.key_value_map@.remove(*key) =~= self.key_value_map@);
        }
        found
    }

    fn set(&mut self, key: u64, value: V) -> (r: Option<Arc<V>>)
        ensures
            old(self).capacity_limit() == 0 || old(self).entries().contains_key(key)
                ==> final(self).order() == old(self).order(),
            old(self).capacity_limit() > 0 && !old(self).entries().contains_key(key)
                && old(self).entries().len() < old(self).capacity_limit() ==> final(self).order()
                == old(self).order().push(key),
            old(self).capacity_limit() > 0 && !old(self).entries().contains_key(key)
                && old(self).entries().len() >= old(self).capacity_limit() ==> {
                &&& final(self).order() == old(self).order().drop_first().push(key)
                &&& final(self).entries() == old(self).entries().remove(
                    old(self).order()[0],
                ).insert(key, final(self).entries()[key])
            },
    {
        proof {
            lemma_keyed_len(self.fifo@, self.key_value_map@);
            lemma_keyed_contains(self.fifo@, self.key_value_map@, key);
        }
        if self.capacity == 0 {
            return None;
        }
        let present = self.key_value_map.contains_key(&key);
        if present {
            let stored = Arc::new(value);
            proof {
                lemma_keyed_update(self.fifo@, self.key_value_map@, key, stored);
            }
            let prior = self.key_value_map.insert(key, stored);
            return prior;
        }
        if self.key_value_map.len() as u64 >= self.capacity {
            self.evict_oldest();
            proof {
                lemma_keyed_contains(self.fifo@, self.key_value_map@, key);
            }
        }
        let ghost before = self.key_value_map@;
        let stored = Arc::new(value);
        proof {
            lemma_keyed_push(self.fifo@, self.key_value_map@, key, stored);
        }
        let prior = self.key_value_map.insert(key, stored);
        self.fifo.push_back(key);
        proof {
            lemma_keyed_len(self.fifo@, self.key_value_map@);
            assert(self.key_value_map@.dom() =~= before.dom().insert(key));
        }
        prior
    }

    fn remove(&mut self, key: &u64) -> (r: Option<Arc<V>>)
        ensures
            final(self).order() == old(self).order().remove_value(*key),
    {
        let result = self.key_value_map.remove(key);
        let n = self.fifo.len();
        let mut i: usize = 0;
        while i < n
            invariant
                n == self.fifo@.len(),
                0 <= i <= n,
                forall|j: int| 0 <= j < i ==> self.fifo@[j] != *key,
                self.fifo@ == old(self).fifo@,
                keyed_by(old(self).fifo@, old(self).key_value_map@),
                old(self).key_value_map@.len() <= old(self).capacity,
                self.key_value_map@ == old(self).key_value_map@.remove(*key),
                result == (if old(self).key_value_map@.contains_key(*key) {
                    Some(old(self).key_value_map@[*key])
                } else {
                    None
                }),
                self.hits == old(self).hits,
                self.misses == old(self).misses,
                self.capacity == old(self).capacity,
            decreases n - i,
        {
            if self.fifo[i] == *key {
                proof {
                    lemma_keyed_remove(self.fifo@, old(self).key_value_map@, i as int);
                    lemma_keyed_len(self.fifo@.remove(i as int), self.key_value_map@);
                    lemma_keyed_len(self.fifo@, old(self).key_value_map@);
                }
                self.fifo.remove(i);
                return result;
            }
            i = i + 1;
        }
        proof {
            lemma_keyed_contains(self.fifo@, old(self).key_value_map@, *key);
            assert(self.key_value_map@ =~= old(self).key_value_map@);
            old(self).fifo@.index_of_first_ensures(*key);
        }
        result
    }

    fn clear(&mut self)
        ensures
            final(self).order() == Seq::<u64>::empty(),
    {
        self.key_value_map.clear();
        self.fifo.clear();
        proof {
            lemma_keyed_empty::<Arc<V>>();
        }
    }

    fn stats(&self) -> (r: CacheStats) {
        CacheStats {
            hits: self.hits,
            misses: self.misses,
            size: self.key_value_map.len() as u64,
            capacity: self.capacity,
        }
    }

    fn change_capacity(&mut self, capacity: u64)
        ensures
            old(self).order().len() <= capacity ==> final(self).order() == old(self).order(),
            old(self).order().len() > capacity ==> final(self).order()
                == old(self).order().subrange(
                old(self).order().len() - capacity,
                old(self).order().len() as int,
            ),
            final(self).entries() == kept(old(self).entries(), final(self).order()),
    {
        proof {
            lemma_keyed_len(self.fifo@, self.key_value_map@);
            lemma_keyed_slice(self.fifo@, self.key_value_map@, 0, self.fifo@.len() as int);
            assert(self.fifo@.subrange(0, self.fifo@.len() as int) =~= self.fifo@);
            assert(kept(self.key_value_map@, self.fifo@) =~= self.key_value_map@);
        }
        self.capacity = capacity;
        let ghost start = self.fifo@;
        let ghost entries = self.key_value_map@;
        while self.key_value_map.len() as u64 > self.capacity
            invariant
                keyed_by(self.fifo@, self.key_value_map@),
                self.capacity == capacity,
                self.hits == old(self).hits,
                self.misses == old(self).misses,
                start == old(self).fifo@,
                entries == old(self).key_value_map@,
                keyed_by(start, entries),
                start.len() >= self.fifo@.len(),
                self.fifo@ == start.subrange(start.len() - self.fifo@.len(), start.len() as int),
                self.key_value_map@ == kept(entries, self.fifo@),
                self.fifo@.len() == start.len() || self.fifo@.len() >= capacity,
            decreases self.fifo@.len(),
        {
            proof {
                lemma_keyed_len(self.fifo@, self.key_value_map@);
            }
            let ghost cut = start.len() - self.fifo@.len() + 1;
            self.evict_oldest();
            proof {
                assert(self.fifo@ =~= start.subrange(cut, start.len() as int));
                lemma_keyed_slice(start, entries, cut, start.len() as int);
                assert(self.key_value_map@ =~= kept(entries, self.fifo@)) by {
                    lemma_keyed_len(self.fifo@, self.key_value_map@);
                    assert(self.key_value_map@.dom() =~= self.fifo@.to_set());
                    assert(kept(entries, self.fifo@).dom() =~= self.fifo@.to_set());
                }
            }
        }
        proof {
            lemma_keyed_len(self.fifo@, self.key_value_map@);
            if start.len() <= capacity {
                assert(self.fifo@ =~= start);
            }
        }
    }
}

} // verus!
