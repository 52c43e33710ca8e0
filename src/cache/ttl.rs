//! Time-to-live expiry: every entry carries an expiry time that each write and
//! each successful read pushes to `now + ttl`. A read that finds an expired
//! entry drops it and counts a miss; a sweep drops expired entries from the
//! least recently accessed end. When a new key meets a full cache, the least
//! recently accessed entry leaves.
//!
//! Times are milliseconds on a monotonic clock that starts when the cache is
//! made. The `*_at` methods take the time as an argument; the [`Cache`]
//! methods read the clock.
use linked_hash_map::LinkedHashMap;
use std::collections::HashMap;
use std::sync::Arc;
use std::time::Instant;
use vstd::prelude::*;

use crate::cache::{share, Cache, CacheStats};
use crate::chance::random_below;
use crate::clock::{elapsed_since, instant_now, whole_millis};
use crate::keyed::{
    kept, keyed_by, lemma_keyed_contains, lemma_keyed_empty, lemma_keyed_len, lemma_keyed_push,
    lemma_keyed_refresh, lemma_keyed_remove, lemma_keyed_slice,
};
use crate::linked::{
    map_order, map_values, ordered_map_clear, ordered_map_front, ordered_map_get,
    ordered_map_insert, ordered_map_new, ordered_map_remove,
};

verus! {

broadcast use vstd::std_specs::hash::group_hash_axioms;

/// A cache whose entries expire `ttl` milliseconds after their last access.
pub struct TTLCache<V> {
    ttl: u64,
    sweep_interval: u64,
    jitter: u64,
    capacity: u64,
    expiry_order: LinkedHashMap<u64, u64>,
    key_value_map: HashMap<u64, Arc<V>>,
    hits: u64,
    misses: u64,
    origin: Instant,
}

impl<V> TTLCache<V> {
    /// The keys from least to most recently accessed.
    pub closed spec fn order(&self) -> Seq<u64> {
        map_order(self.expiry_order)
    }

    /// The expiry time of each stored key.
    pub closed spec fn expiry(&self) -> Map<u64, u64> {
        map_values(self.expiry_order)
    }

    /// The time to live, in milliseconds.
    pub closed spec fn time_to_live(&self) -> u64 {
        self.ttl
    }

    /// The pause between two sweeps, before jitter.
    pub closed spec fn sweep_pause(&self) -> u64 {
        self.sweep_interval
    }

    /// The largest jitter added to a pause between sweeps.
    pub closed spec fn jitter_bound(&self) -> u64 {
        self.jitter
    }

    /// `key` is stored and its expiry lies after `now`.
    pub open spec fn is_live(&self, key: u64, now: u64) -> bool {
        self.expiry().contains_key(key) && self.expiry()[key] > now
    }

    /// `after` and `r` are the outcome of reading `key` at time `now`. A live
    /// entry is returned, its expiry slides to `now + ttl` and it becomes the
    /// most recently accessed; a hit is counted. Otherwise nothing is
    /// returned, an expired entry is dropped, and a miss is counted.
    pub open spec fn read_at(&self, after: Self, key: u64, now: u64, r: Option<Arc<V>>) -> bool {
        if self.is_live(key, now) {
            &&& r == Some(self.entries()[key])
            &&& after.entries() == self.entries()
            &&& after.order() == self.order().remove_value(key).push(key)
            &&& after.expiry() == self.expiry().insert(key, now.saturating_add(self.time_to_live()))
            &&& after.hit_count() == self.hit_count().saturating_add(1)
            &&& after.miss_count() == self.miss_count()
        } else {
            &&& r == None::<Arc<V>>
            &&& after.entries() == self.entries().remove(key)
            &&& after.order() == self.order().remove_value(key)
            &&& after.expiry() == self.expiry().remove(key)
            &&& after.hit_count() == self.hit_count()
            &&& after.miss_count() == self.miss_count().saturating_add(1)
        }
    }

    /// `after` and `r` are the outcome of writing `value` under `key` at time
    /// `now`: the previous value is returned, the entry becomes the most
    /// recently accessed with expiry `now + ttl`, and a new key meeting a full
    /// cache first evicts the least recently accessed entry. A cache of
    /// capacity zero stores nothing.
    pub open spec fn wrote_at(
        &self,
        after: Self,
        key: u64,
        value: V,
        now: u64,
        r: Option<Arc<V>>,
    ) -> bool {
        let expiry = now.saturating_add(self.time_to_live());
        let stored = self.entries().contains_key(key);
        &&& r == (if stored {
            Some(self.entries()[key])
        } else {
            None
        })
        &&& after.hit_count() == self.hit_count()
        &&& after.miss_count() == self.miss_count()
        &&& if self.capacity_limit() == 0 {
            &&& after.entries() == self.entries()
            &&& after.order() == self.order()
            &&& after.expiry() == self.expiry()
        } else if stored {
            &&& after.entries() == self.entries().insert(key, after.entries()[key])
            &&& after.entries()[key] == value
            &&& after.order() == self.order().remove_value(key).push(key)
            &&& after.expiry() == self.expiry().insert(key, expiry)
        } else if self.entries().len() < self.capacity_limit() {
            &&& after.entries() == self.entries().insert(key, after.entries()[key])
            &&& after.entries()[key] == value
            &&& after.order() == self.order().push(key)
            &&& after.expiry() == self.expiry().insert(key, expiry)
        } else {
            let victim = self.order()[0];
            &&& after.entries() == self.entries().remove(victim).insert(key, after.entries()[key])
            &&& after.entries()[key] == value
            &&& after.order() == self.order().drop_first().push(key)
            &&& after.expiry() == self.expiry().remove(victim).insert(key, expiry)
        }
    }

    /// A sweep at time `now` took the first `n` keys of this cache's order to
    /// reach `after`: each of them had expired, and the key that follows them,
    /// if any, is live.
    pub open spec fn swept_to(&self, after: Self, n: int, now: u64) -> bool {
        &&& 0 <= n <= self.order().len()
        &&& after.order() == self.order().subrange(n, self.order().len() as int)
        &&& forall|i: int| 0 <= i < n ==> self.expiry()[#[trigger] self.order()[i]] <= now
        &&& n < self.order().len() ==> self.is_live(self.order()[n], now)
    }

    /// The order lists every stored key exactly once.
    pub proof fn lemma_order_lists_entries(&self)
        requires
            self.wf(),
        ensures
            keyed_by(self.order(), self.entries()),
            keyed_by(self.order(), self.expiry()),
    {
    }

    /// Creates an empty cache whose entries live `ttl` milliseconds after
    /// their last access; sweeps are spaced `ttl` apart, without jitter.
    pub fn new(ttl: u64, capacity: u64) -> (r: Self)
        ensures
            r.wf(),
            r.entries() == Map::<u64, Arc<V>>::empty(),
            r.order() == Seq::<u64>::empty(),
            r.hit_count() == 0,
            r.miss_count() == 0,
            r.capacity_limit() == capacity,
            r.time_to_live() == ttl,
            r.sweep_pause() == ttl,
            r.jitter_bound() == 0,
    {
        Self::with_sweep(ttl, ttl, 0, capacity)
    }

    /// Creates an empty cache with the given time to live, pause between
    /// sweeps and bound on the random jitter added to each pause.
    pub fn with_sweep(ttl: u64, sweep_interval: u64, jitter: u64, capacity: u64) -> (r: Self)
        ensures
            r.wf(),
            r.entries() == Map::<u64, Arc<V>>::empty(),
            r.order() == Seq::<u64>::empty(),
            r.hit_count() == 0,
            r.miss_count() == 0,
            r.capacity_limit() == capacity,
            r.time_to_live() == ttl,
            r.sweep_pause() == sweep_interval,
            r.jitter_bound() == jitter,
    {
        proof {
            lemma_keyed_empty::<Arc<V>>();
        }
        TTLCache {
            ttl,
            sweep_interval,
            jitter,
            capacity,
            expiry_order: ordered_map_new(),
            key_value_map: HashMap::new(),
            hits: 0,
            misses: 0,
            origin: instant_now(),
        }
    }

    /// Milliseconds since the cache was made.
    fn now_millis(&self) -> u64 {
        let elapsed = elapsed_since(&self.origin);
        whole_millis(&elapsed)
    }

    /// The structures agree with each other, whatever the capacity.
    spec fn consistent(&self) -> bool {
        &&& keyed_by(map_order(self.expiry_order), self.key_value_map@)
        &&& keyed_by(map_order(self.expiry_order), map_values(self.expiry_order))
    }

    /// Both maps of a consistent cache have the same keys.
    proof fn lemma_same_keys(&self)
        requires
            self.consistent(),
        ensures
            map_values(self.expiry_order).dom() == self.key_value_map@.dom(),
            map_order(self.expiry_order).len() == self.key_value_map@.len(),
    {
        lemma_keyed_len(map_order(self.expiry_order), self.key_value_map@);
    }

    /// Removes the least recently accessed key and its entry.
    fn evict_front(&mut self)
        requires
            old(self).consistent(),
            map_order(old(self).expiry_order).len() > 0,
        ensures
            final(self).consistent(),
            map_order(final(self).expiry_order) == map_order(old(self).expiry_order).drop_first(),
            map_values(final(self).expiry_order) == map_values(old(self).expiry_order).remove(
                map_order(old(self).expiry_order)[0],
            ),
            final(self).key_value_map@ == old(self).key_value_map@.remove(
                map_order(old(self).expiry_order)[0],
            ),
            final(self).key_value_map@.len() + 1 == old(self).key_value_map@.len(),
            final(self).capacity == old(self).capacity,
            final(self).ttl == old(self).ttl,
            final(self).sweep_interval == old(self).sweep_interval,
            final(self).jitter == old(self).jitter,
            final(self).hits == old(self).hits,
            final(self).misses == old(self).misses,
    {
        proof {
            let order = map_order(self.expiry_order);
            lemma_keyed_remove(order, self.key_value_map@, 0);
            assert(order.remove(0) =~= order.drop_first());
            lemma_keyed_len(order, self.key_value_map@);
        }
        if let Some((oldest, _)) = ordered_map_front(&self.expiry_order) {
            ordered_map_remove(&mut self.expiry_order, oldest);
            self.key_value_map.remove(&oldest);
        }
    }

    /// Looks `key` up at time `now`. A live entry is a hit: its expiry moves
    /// to `now + ttl` and it becomes the most recently accessed. An expired
    /// entry is dropped and counts as a miss, as does an absent key.
    pub fn get_at(&mut self, key: &u64, now: u64) -> (r: Option<Arc<V>>)
        requires
            old(self).wf(),
        ensures
            final(self).wf(),
            final(self).capacity_limit() == old(self).capacity_limit(),
            final(self).time_to_live() == old(self).time_to_live(),
            old(self).read_at(*final(self), *key, now, r),
    {
        proof {
            self.lemma_same_keys();
            lemma_keyed_contains(map_order(self.expiry_order), self.key_value_map@, *key);
        }
        let stamp = ordered_map_get(&self.expiry_order, *key);
        match stamp {
            Some(expiry) => {
                if expiry > now {
                    let found = match self.key_value_map.get(key) {
                        Some(v) => share(v),
                        None => {
                            proof {
                                assert(false);
                            }
                            return None;
                        },
                    };
                    let ghost order0 = map_order(self.expiry_order);
                    proof {
                        lemma_keyed_refresh(
                            order0,
                            self.key_value_map@,
                            *key,
                            self.key_value_map@[*key],
                        );
                        assert(self.key_value_map@.insert(*key, self.key_value_map@[*key])
                            =~= self.key_value_map@);
                    }
                    ordered_map_insert(&mut self.expiry_order, *key, now.saturating_add(self.ttl));
                    self.hits = self.hits.saturating_add(1);
                    Some(found)
                } else {
                    proof {
                        lemma_keyed_remove(
                            map_order(self.expiry_order),
                            self.key_value_map@,
                            map_order(self.expiry_order).index_of(*key),
                        );
                        lemma_keyed_len(map_order(self.expiry_order), self.key_value_map@);
                    }
                    ordered_map_remove(&mut self.expiry_order, *key);
                    self.key_value_map.remove(key);
                    self.misses = self.misses.saturating_add(1);
                    proof {
                        lemma_keyed_len(map_order(self.expiry_order), self.key_value_map@);
                    }
                    None
                }
            },
            None => {
                proof {
                    map_order(self.expiry_order).index_of_first_ensures(*key);
                    assert(self.key_value_map@.remove(*key) =~= self.key_value_map@);
                    assert(map_values(self.expiry_order).remove(*key) =~= map_values(
                        self.expiry_order,
                    ));
                }
                self.misses = self.misses.saturating_add(1);
                None
            },
        }
    }

    /// Stores `value` under `key` at time `now`, with expiry `now + ttl`, as
    /// the most recently accessed entry. When a new key meets a full cache,
    /// the least recently accessed entry leaves first.
    pub fn set_at(&mut self, key: u64, value: V, now: u64) -> (r: Option<Arc<V>>)
        requires
            old(self).wf(),
        ensures
            final(self).wf(),
            final(self).capacity_limit() == old(self).capacity_limit(),
            final(self).time_to_live() == old(self).time_to_live(),
            old(self).wrote_at(*final(self), key, value, now, r),
    {
        proof {
            self.lemma_same_keys();
            lemma_keyed_contains(map_order(self.expiry_order), self.key_value_map@, key);
        }
        if self.capacity == 0 {
            return None;
        }
        let stored = Arc::new(value);
        let expiry = now.saturating_add(self.ttl);
        let present = self.key_value_map.contains_key(&key);
        if present {
            proof {
                lemma_keyed_refresh(map_order(self.expiry_order), self.key_value_map@, key, stored);
            }
            let prior = self.key_value_map.insert(key, stored);
            ordered_map_insert(&mut self.expiry_order, key, expiry);
            proof {
                lemma_keyed_len(map_order(self.expiry_order), self.key_value_map@);
            }
            return prior;
        }
        if self.key_value_map.len() as u64 >= self.capacity {
            self.evict_front();
            proof {
                lemma_keyed_contains(map_order(self.expiry_order), self.key_value_map@, key);
            }
        }
        let ghost before = self.key_value_map@;
        let ghost order_before = map_order(self.expiry_order);
        proof {
            lemma_keyed_push(order_before, self.key_value_map@, key, stored);
            order_before.index_of_first_ensures(key);
            assert(order_before.remove_value(key) == order_before);
        }
        let prior = self.key_value_map.insert(key, stored);
        ordered_map_insert(&mut self.expiry_order, key, expiry);
        proof {
            lemma_keyed_len(map_order(self.expiry_order), self.key_value_map@);
            assert(self.key_value_map@.dom() =~= before.dom().insert(key));
        }
        prior
    }

    /// Drops expired entries from the least recently accessed end at time
    /// `now`, stopping at the first live one; returns how many were dropped.
    pub fn purge_expired(&mut self, now: u64) -> (n: usize)
        requires
            old(self).wf(),
        ensures
            final(self).wf(),
            old(self).swept_to(*final(self), n as int, now),
            final(self).entries() == kept(old(self).entries(), final(self).order()),
            final(self).expiry() == kept(old(self).expiry(), final(self).order()),
            final(self).capacity_limit() == old(self).capacity_limit(),
            final(self).time_to_live() == old(self).time_to_live(),
            final(self).hit_count() == old(self).hit_count(),
            final(self).miss_count() == old(self).miss_count(),
    {
        let ghost start = map_order(self.expiry_order);
        let ghost entries = self.key_value_map@;
        let ghost stamps = map_values(self.expiry_order);
        proof {
            lemma_keyed_len(start, entries);
            lemma_keyed_slice(start, entries, 0, start.len() as int);
            lemma_keyed_slice(start, stamps, 0, start.len() as int);
            assert(start.subrange(0, start.len() as int) =~= start);
            assert(kept(entries, start) =~= entries);
            assert(kept(stamps, start) =~= stamps);
        }
        let total = self.key_value_map.len();
        let mut n: usize = 0;
        loop
            invariant
                start.len() == total,
                self.consistent(),
                self.capacity == old(self).capacity,
                self.ttl == old(self).ttl,
                self.hits == old(self).hits,
                self.misses == old(self).misses,
                self.key_value_map@.len() <= self.capacity,
                start == map_order(old(self).expiry_order),
                entries == old(self).key_value_map@,
                stamps == map_values(old(self).expiry_order),
                keyed_by(start, entries),
                keyed_by(start, stamps),
                n <= start.len(),
                map_order(self.expiry_order) == start.subrange(n as int, start.len() as int),
                self.key_value_map@ == kept(entries, map_order(self.expiry_order)),
                map_values(self.expiry_order) == kept(stamps, map_order(self.expiry_order)),
                forall|i: int| 0 <= i < n ==> stamps[#[trigger] start[i]] <= now,
            ensures
                n <= start.len(),
                map_order(self.expiry_order) == start.subrange(n as int, start.len() as int),
                self.key_value_map@ == kept(entries, map_order(self.expiry_order)),
                map_values(self.expiry_order) == kept(stamps, map_order(self.expiry_order)),
                forall|i: int| 0 <= i < n ==> stamps[#[trigger] start[i]] <= now,
                n < start.len() ==> stamps[start[n as int]] > now,
                self.consistent(),
                self.key_value_map@.len() <= self.capacity,
            decreases start.len() - n,
        {
            match ordered_map_front(&self.expiry_order) {
                Some((oldest, expiry)) => {
                    proof {
                        assert(start[n as int] == oldest);
                        assert(start.to_set().contains(oldest));
                    }
                    if expiry > now {
                        break;
                    }
                    proof {
                        lemma_keyed_len(map_order(self.expiry_order), self.key_value_map@);
                    }
                    self.evict_front();
                    n = n + 1;
                    proof {
                        let rest = map_order(self.expiry_order);
                        assert(rest =~= start.subrange(n as int, start.len() as int));
                        lemma_keyed_slice(start, entries, n as int, start.len() as int);
                        lemma_keyed_slice(start, stamps, n as int, start.len() as int);
                        lemma_keyed_len(rest, self.key_value_map@);
                        assert(self.key_value_map@ =~= kept(entries, rest)) by {
                            assert(self.key_value_map@.dom() =~= rest.to_set());
                            assert(kept(entries, rest).dom() =~= rest.to_set());
                        }
                        assert(map_values(self.expiry_order) =~= kept(stamps, rest)) by {
                            assert(map_values(self.expiry_order).dom() =~= rest.to_set());
                            assert(kept(stamps, rest).dom() =~= rest.to_set());
                        }
                    }
                },
                None => {
                    break;
                },
            }
        }
        n
    }

    /// The pause before a sweep when the jitter drawn is `draw`: the sweep
    /// interval plus that jitter, saturating at `u64::MAX`.
    pub fn delay_for_draw(&self, draw: u64) -> (r: u64)
        ensures
            r == self.sweep_pause().saturating_add(draw),
    {
        self.sweep_interval.saturating_add(draw)
    }

    /// The pause before the next sweep: the sweep interval plus a jitter
    /// drawn afresh, uniformly from `0..=jitter`.
    pub fn next_sweep_delay(&self) -> (r: u64)
        ensures
            exists|d: u64|
                d <= self.jitter_bound() && r == #[trigger] self.sweep_pause().saturating_add(d),
    {
        let draw = if self.jitter < u64::MAX {
            random_below(self.jitter + 1)
        } else {
            random_below(u64::MAX)
        };
        let r = self.delay_for_draw(draw);
        proof {
            assert(draw <= self.jitter_bound() && r == self.sweep_pause().saturating_add(draw));
        }
        r
    }

    /// Drops the expired entries from the least recently accessed end at the
    /// clock's current time; see [`TTLCache::purge_expired`].
    pub fn sweep(&mut self) -> (n: usize)
        requires
            old(self).wf(),
        ensures
            final(self).wf(),
            exists|now: u64| #[trigger] old(self).swept_to(*final(self), n as int, now),
            final(self).entries() == kept(old(self).entries(), final(self).order()),
            final(self).capacity_limit() == old(self).capacity_limit(),
            final(self).hit_count() == old(self).hit_count(),
            final(self).miss_count() == old(self).miss_count(),
    {
        let now = self.now_millis();
        let n = self.purge_expired(now);
        proof {
            assert(old(self).swept_to(*self, n as int, now));
        }
        n
    }
}

impl<V> Cache<V> for TTLCache<V> {
    closed spec fn wf(&self) -> bool {
        &&& self.consistent()
        &&& self.key_value_map@.len() <= self.capacity
    }

    closed spec fn entries(&self) -> Map<u64, Arc<V>> {
        self.key_value_map@
    }

    closed spec fn hit_count(&self) -> u64 {
        self.hits
    }

    closed spec fn miss_count(&self) -> u64 {
        self.misses
    }

    closed spec fn capacity_limit(&self) -> u64 {
        self.capacity
    }

    proof fn lemma_size_within_capacity(&self) {
        lemma_keyed_len(map_order(self.expiry_order), self.key_value_map@);
        assert(map_order(self.expiry_order).to_set().finite());
    }

    fn get(&mut self, key: &u64) -> (r: Option<Arc<V>>)
        ensures
            final(self).time_to_live() == old(self).time_to_live(),
            exists|now: u64| #[trigger] old(self).read_at(*final(self), *key, now, r),
    {
        let now = self.now_millis();
        let r = self.get_at(key, now);
        proof {
            assert(old(self).read_at(*self, *key, now, r));
        }
        r
    }

    fn set(&mut self, key: u64, value: V) -> (r: Option<Arc<V>>)
        ensures
            final(self).time_to_live() == old(self).time_to_live(),
            exists|now: u64| #[trigger] old(self).wrote_at(*final(self), key, value, now, r),
            old(self).capacity_limit() > 0 && !old(self).entries().contains_key(key)
                && old(self).entries().len() >= old(self).capacity_limit() ==> final(self).entries()
                == old(self).entries().remove(old(self).order()[0]).insert(
                key,
                final(self).entries()[key],
            ),
    {
        let now = self.now_millis();
        let ghost written = value;
        let r = self.set_at(key, value, now);
        proof {
            assert(old(self).wrote_at(*self, key, written, now, r));
        }
        r
    }

    fn remove(&mut self, key: &u64) -> (r: Option<Arc<V>>)
        ensures
            final(self).order() == old(self).order().remove_value(*key),
            final(self).expiry() == old(self).expiry().remove(*key),
    {
        proof {
            self.lemma_same_keys();
            lemma_keyed_contains(map_order(self.expiry_order), self.key_value_map@, *key);
            if self.key_value_map@.contains_key(*key) {
                lemma_keyed_remove(
                    map_order(self.expiry_order),
                    self.key_value_map@,
                    map_order(self.expiry_order).index_of(*key),
                );
            } else {
                map_order(self.expiry_order).index_of_first_ensures(*key);
                assert(self.key_value_map@.remove(*key) =~= self.key_value_map@);
            }
        }
        let result = self.key_value_map.remove(key);
        ordered_map_remove(&mut self.expiry_order, *key);
        proof {
            lemma_keyed_len(map_order(self.expiry_order), self.key_value_map@);
        }
        result
    }

    fn clear(&mut self)
        ensures
            final(self).order() == Seq::<u64>::empty(),
            final(self).time_to_live() == old(self).time_to_live(),
    {
        self.key_value_map.clear();
        ordered_map_clear(&mut self.expiry_order);
        proof {
            lemma_keyed_empty::<Arc<V>>();
            lemma_keyed_empty::<u64>();
        }
    }

    fn stats(&self) -> (r: CacheStats) {
        CacheStats {
            hits: self.hits,
            misses: self.misses,
            size: self.key_value_map.len() as u64,
            capacity: self.capacity,
        }
    }

    fn change_capacity(&mut self, capacity: u64)
        ensures
            old(self).order().len() <= capacity ==> final(self).order() == old(self).order(),
            old(self).order().len() > capacity ==> final(self).order()
                == old(self).order().subrange(
                old(self).order().len() - capacity,
                old(self).order().len() as int,
            ),
            final(self).entries() == kept(old(self).entries(), final(self).order()),
            final(self).expiry() == kept(old(self).expiry(), final(self).order()),
            final(self).time_to_live() == old(self).time_to_live(),
    {
        let ghost start = map_order(self.expiry_order);
        let ghost entries = self.key_value_map@;
        let ghost stamps = map_values(self.expiry_order);
        proof {
            lemma_keyed_len(start, entries);
            lemma_keyed_slice(start, entries, 0, start.len() as int);
            lemma_keyed_slice(start, stamps, 0, start.len() as int);
            assert(start.subrange(0, start.len() as int) =~= start);
            assert(kept(entries, start) =~= entries);
            assert(kept(stamps, start) =~= stamps);
        }
        self.capacity = capacity;
        while self.key_value_map.len() as u64 > self.capacity
            invariant
                self.consistent(),
                self.capacity == capacity,
                self.ttl == old(self).ttl,
                self.hits == old(self).hits,
                self.misses == old(self).misses,
                start == map_order(old(self).expiry_order),
                entries == old(self).key_value_map@,
                stamps == map_values(old(self).expiry_order),
                keyed_by(start, entries),
                keyed_by(start, stamps),
                start.len() >= map_order(self.expiry_order).len(),
                map_order(self.expiry_order) == start.subrange(
                    start.len() - map_order(self.expiry_order).len(),
                    start.len() as int,
                ),
                self.key_value_map@ == kept(entries, map_order(self.expiry_order)),
                map_values(self.expiry_order) == kept(stamps, map_order(self.expiry_order)),
                map_order(self.expiry_order).len() == start.len() || map_order(
                    self.expiry_order,
                ).len() >= capacity,
            decreases map_order(self.expiry_order).len(),
        {
            proof {
                lemma_keyed_len(map_order(self.expiry_order), self.key_value_map@);
            }
            let ghost cut = start.len() - map_order(self.expiry_order).len() + 1;
            self.evict_front();
            proof {
                let rest = map_order(self.expiry_order);
                assert(rest =~= start.subrange(cut, start.len() as int));
                lemma_keyed_slice(start, entries, cut, start.len() as int);
                lemma_keyed_slice(start, stamps, cut, start.len() as int);
                lemma_keyed_len(rest, self.key_value_map@);
                assert(self.key_value_map@ =~= kept(entries, rest)) by {
                    assert(self.key_value_map@.dom() =~= rest.to_set());
                    assert(kept(entries, rest).dom() =~= rest.to_set());
                }
                assert(map_values(self.expiry_order) =~= kept(stamps, rest)) by {
                    assert(map_values(self.expiry_order).dom() =~= rest.to_set());
                    assert(kept(stamps, rest).dom() =~= rest.to_set());
                }
            }
        }
        proof {
            lemma_keyed_len(map_order(self.expiry_order), self.key_value_map@);
            if start.len() <= capacity {
                assert(map_order(self.expiry_order) =~= start);
            }
        }
    }
}

} // verus!
