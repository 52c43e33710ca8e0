//! Random eviction: when a new key arrives at a full cache, a key drawn
//! uniformly from the live keys leaves.
use std::collections::HashMap;
use std::sync::Arc;
use vstd::prelude::*;

use crate::cache::{share, Cache, CacheStats};
use crate::chance::random_below;
use crate::keyed::{
    kept, keyed_by, lemma_keyed_contains, lemma_keyed_empty, lemma_keyed_len, lemma_keyed_push,
    lemma_keyed_remove, lemma_keyed_swap_remove, lemma_keyed_update,
};

verus! {

broadcast use vstd::std_specs::hash::group_hash_axioms;

/// The order left after the key at `slot` is swapped out: the last key takes
/// its place.
pub open spec fn swapped_out(order: Seq<u64>, slot: int) -> Seq<u64> {
    order.update(slot, order.last()).drop_last()
}

/// A cache that evicts a key chosen uniformly at random.
pub struct RandomReplacementCache<V> {
    capacity: u64,
    key_value_map: HashMap<u64, Arc<V>>,
    keys: Vec<u64>,
    hits: u64,
    misses: u64,
}

impl<V> RandomReplacementCache<V> {
    /// The live keys, in the slots that random eviction draws from.
    pub closed spec fn order(&self) -> Seq<u64> {
        self.keys@
    }

    /// The order lists every stored key exactly once.
    pub proof fn lemma_order_lists_entries(&self)
        requires
            self.wf(),
        ensures
            keyed_by(self.order(), self.entries()),
    {
    }

    /// Creates an empty cache that holds at most `capacity` entries.
    pub fn new(capacity: u64) -> (r: Self)
        ensures
            r.wf(),
            r.entries() == Map::<u64, Arc<V>>::empty(),
            r.order() == Seq::<u64>::empty(),
            r.hit_count() == 0,
            r.miss_count() == 0,
            r.capacity_limit() == capacity,
    {
        proof {
            lemma_keyed_empty::<Arc<V>>();
        }
        RandomReplacementCache {
            capacity,
            key_value_map: HashMap::new(),
            keys: Vec::new(),
            hits: 0,
            misses: 0,
        }
    }

    /// Removes the key in `slot` and its entry.
    fn evict_at(&mut self, slot: usize)
        requires
            keyed_by(old(self).keys@, old(self).key_value_map@),
            slot < old(self).keys@.len(),
        ensures
            final(self).keys@ == swapped_out(old(self).keys@, slot as int),
            final(self).key_value_map@ == old(self).key_value_map@.remove(
                old(self).keys@[slot as int],
            ),
            keyed_by(final(self).keys@, final(self).key_value_map@),
            final(self).key_value_map@.len() + 1 == old(self).key_value_map@.len(),
            final(self).capacity == old(self).capacity,
            final(self).hits == old(self).hits,
            final(self).misses == old(self).misses,
    {
        proof {
            lemma_keyed_swap_remove(self.keys@, self.key_value_map@, slot as int);
            lemma_keyed_len(self.keys@, self.key_value_map@);
        }
        let victim = self.keys.swap_remove(slot);
        self.key_value_map.remove(&victim);
    }

    /// Evicts the key in slot `draw % size`, the last key taking its slot; an
    /// empty cache stays as it is. `change_capacity` calls this with draws
    /// that are uniform over the slots.
    pub fn evict_with_draw(&mut self, draw: u64)
        requires
            old(self).wf(),
        ensures
            final(self).wf(),
            final(self).capacity_limit() == old(self).capacity_limit(),
            final(self).hit_count() == old(self).hit_count(),
            final(self).miss_count() == old(self).miss_count(),
            old(self).order().len() == 0 ==> {
                &&& final(self).order() == old(self).order()
                &&& final(self).entries() == old(self).entries()
            },
            old(self).order().len() > 0 ==> {
                let slot = (draw as int) % (old(self).order().len() as int);
                &&& final(self).order() == swapped_out(old(self).order(), slot)
                &&& final(self).entries() == old(self).entries().remove(old(self).order()[slot])
            },
    {
        if self.keys.len() > 0 {
            proof {
                lemma_keyed_len(self.keys@, self.key_value_map@);
            }
            let slot = (draw % (self.keys.len() as u64)) as usize;
            self.evict_at(slot);
        }
    }

    /// Stores `value` under `key`; when a new key meets a full cache, the key
    /// in slot `draw % size` is evicted first. `set` calls this with a draw
    /// that is uniform over the slots.
    pub fn set_with_victim(&mut self, key: u64, value: V, draw: u64) -> (r: Option<Arc<V>>)
        requires
            old(self).wf(),
        ensures
            final(self).wf(),
            final(self).capacity_limit() == old(self).capacity_limit(),
            final(self).hit_count() == old(self).hit_count(),
            final(self).miss_count() == old(self).miss_count(),
            r == (if old(self).entries().contains_key(key) {
                Some(old(self).entries()[key])
            } else {
                None
            }),
            old(self).capacity_limit() == 0 ==> final(self).entries() == old(self).entries()
                && final(self).order() == old(self).order(),
            old(self).capacity_limit() > 0 && old(self).entries().contains_key(key) ==> {
                &&& final(self).order() == old(self).order()
                &&& final(self).entries() == old(self).entries().insert(
                    key,
                    final(self).entries()[key],
                )
            },
            old(self).capacity_limit() > 0 && !old(self).entries().contains_key(key)
                && old(self).entries().len() < old(self).capacity_limit() ==> {
                &&& final(self).order() == old(self).order().push(key)
                &&& final(self).entries() == old(self).entries().insert(
                    key,
                    final(self).entries()[key],
                )
            },
            old(self).capacity_limit() > 0 && !old(self).entries().contains_key(key)
                && old(self).entries().len() >= old(self).capacity_limit() ==> {
                let slot = (draw as int) % (old(self).order().len() as int);
                &&& old(self).order().len() > 0
                &&& final(self).order() == swapped_out(old(self).order(), slot).push(key)
                &&& final(self).entries() == old(self).entries().remove(
                    old(self).order()[slot],
                ).insert(key, final(self).entries()[key])
            },
            old(self).capacity_limit() > 0 ==> final(self).entries()[key] == value,
    {
        proof {
            lemma_keyed_len(self.keys@, self.key_value_map@);
            lemma_keyed_contains(self.keys@, self.key_value_map@, key);
        }
        if self.capacity == 0 {
            return None;
        }
        let present = self.key_value_map.contains_key(&key);
        if present {
            let stored = Arc::new(value);
            proof {
                lemma_keyed_update(self.keys@, self.key_value_map@, key, stored);
            }
            let prior = self.key_value_map.insert(key, stored);
            return prior;
        }
        if self.key_value_map.len() as u64 >= self.capacity {
            let slot = (draw % (self.keys.len() as u64)) as usize;
            self.evict_at(slot);
            proof {
                lemma_keyed_contains(self.keys@, self.key_value_map@, key);
            }
        }
        let stored = Arc::new(value);
        proof {
            lemma_keyed_push(self.keys@, self.key_value_map@, key, stored);
        }
        let prior = self.key_value_map.insert(key, stored);
        self.keys.push(key);
        proof {
            lemma_keyed_len(self.keys@, self.key_value_map@);
        }
        prior
    }
}

impl<V> Cache<V> for RandomReplacementCache<V> {
    closed spec fn wf(&self) -> bool {
        &&& keyed_by(self.keys@, self.key_value_map@)
        &&& self.key_value_map@.len() <= self.capacity
    }

    closed spec fn entries(&self) -> Map<u64, Arc<V>> {
        self.key_value_map@
    }

    closed spec fn hit_count(&self) -> u64 {
        self.hits
    }

    closed spec fn miss_count(&self) -> u64 {
        self.misses
    }

    closed spec fn capacity_limit(&self) -> u64 {
        self.capacity
    }

    proof fn lemma_size_within_capacity(&self) {
        lemma_keyed_len(self.keys@, self.key_value_map@);
        assert(self.keys@.to_set().finite());
    }

    fn get(&mut self, key: &u64) -> (r: Option<Arc<V>>)
        ensures
            final(self).order() == old(self).order(),
            r is Some <==> old(self).entries().contains_key(*key),
    {
        let found = match self.key_value_map.get(key) {
            Some(v) => Some(share(v)),
            None => None,
        };
        if found.is_some() {
            self.hits = self.hits.saturating_add(1);
        } else {
            self.misses = self.misses.saturating_add(1);
            assert(self.key_value_map@.remove(*key) =~= self.key_value_map@);
        }
        found
    }

    fn set(&mut self, key: u64, value: V) -> (r: Option<Arc<V>>)
        ensures
            old(self).capacity_limit() > 0 && !old(self).entries().contains_key(key)
                && old(self).entries().len() >= old(self).capacity_limit() ==> exists|slot: int|
                0 <= slot < old(self).order().len() && final(self).order() == swapped_out(
                    old(self).order(),
                    slot,
                ).push(key) && final(self).entries() == old(self).entries().remove(
                    old(self).order()[slot],
                ).insert(key, final(self).entries()[key]),
    {
        let mut draw: u64 = 0;
        if self.keys.len() > 0 {
            draw = random_below(self.keys.len() as u64);
        }
        self.set_with_victim(key, value, draw)
    }

    fn remove(&mut self, key: &u64) -> (r: Option<Arc<V>>)
        ensures
            final(self).order() == old(self).order().remove_value(*key),
    {
        let result = self.key_value_map.remove(key);
        let n = self.keys.len();
        let mut i: usize = 0;
        while i < n
            invariant
                n == self.keys@.len(),
                0 <= i <= n,
                forall|j: int| 0 <= j < i ==> self.keys@[j] != *key,
                self.keys@ == old(self).keys@,
                keyed_by(old(self).keys@, old(self).key_value_map@),
                old(self).key_value_map@.len() <= old(self).capacity,
                self.key_value_map@ == old(self).key_value_map@.remove(*key),
                result == (if old(self).key_value_map@.contains_key(*key) {
                    Some(old(self).key_value_map@[*key])
                } else {
                    None
                }),
                self.hits == old(self).hits,
                self.misses == old(self).misses,
                self.capacity == old(self).capacity,
            decreases n - i,
        {
            if self.keys[i] == *key {
                proof {
                    lemma_keyed_remove(self.keys@, old(self).key_value_map@, i as int);
                    lemma_keyed_len(self.keys@.remove(i as int), self.key_value_map@);
                    lemma_keyed_len(self.keys@, old(self).key_value_map@);
                }
                self.keys.remove(i);
                return result;
            }
            i = i + 1;
        }
        proof {
            lemma_keyed_contains(self.keys@, old(self).key_value_map@, *key);
            assert(self.key_value_map@ =~= old(self).key_value_map@);
            old(self).keys@.index_of_first_ensures(*key);
        }
        result
    }

    fn clear(&mut self)
        ensures
            final(self).order() == Seq::<u64>::empty(),
    {
        self.key_value_map.clear();
        self.keys.clear();
        proof {
            lemma_keyed_empty::<Arc<V>>();
        }
    }

    fn stats(&self) -> (r: CacheStats) {
        CacheStats {
            hits: self.hits,
            misses: self.misses,
            size: self.key_value_map.len() as u64,
            capacity: self.capacity,
        }
    }

    fn change_capacity(&mut self, capacity: u64)
        ensures
            final(self).entries() == kept(old(self).entries(), final(self).order()),
    {
        proof {
            lemma_keyed_len(self.keys@, self.key_value_map@);
        }
        while self.key_value_map.len() as u64 > capacity
            invariant
                self.wf(),
                self.capacity == old(self).capacity,
                self.hits == old(self).hits,
                self.misses == old(self).misses,
                self.key_value_map@.submap_of(old(self).key_value_map@),
                old(self).key_value_map@.len() <= capacity ==> self.key_value_map@
                    == old(self).key_value_map@,
                old(self).key_value_map@.len() > capacity ==> self.key_value_map@.len()
                    >= capacity,
            decreases self.keys@.len(),
        {
            proof {
                lemma_keyed_len(self.keys@, self.key_value_map@);
            }
            let draw = random_below(self.keys.len() as u64);
            let ghost pre = self.key_value_map@;
            self.evict_with_draw(draw);
            proof {
                let start = old(self).key_value_map@;
                assert forall|k: u64| #[trigger]
                    self.key_value_map@.contains_key(k) implies start.contains_key(k)
                    && self.key_value_map@[k] == start[k] by {
                    assert(pre.contains_key(k));
                }
            }
        }
        self.capacity = capacity;
        proof {
            lemma_keyed_len(self.keys@, self.key_value_map@);
            assert(self.key_value_map@ =~= kept(old(self).key_value_map@, self.keys@));
        }
    }
}

} // verus!
