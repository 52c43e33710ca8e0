//! Least-frequently-used eviction with frequency buckets: each key counts its
//! accesses, each count has a bucket of the keys that reached it in order of
//! arrival, and the oldest key of the lowest non-empty bucket leaves first.
use linked_hash_set::LinkedHashSet;
use std::collections::HashMap;
use std::sync::Arc;
use vstd::prelude::*;

use crate::cache::{share, Cache, CacheStats};
use crate::keyed::{lemma_unique_push, lemma_unique_remove_value};
use crate::linked::{
    ordered_set_insert, ordered_set_len, ordered_set_new, ordered_set_pop_front,
    ordered_set_remove, set_order,
};

verus! {

broadcast use vstd::std_specs::hash::group_hash_axioms;

/// The bucket of frequency `f`; an absent bucket is empty.
spec fn bucket_in(fm: Map<u64, LinkedHashSet<u64>>, f: u64) -> Seq<u64> {
    if fm.contains_key(f) {
        set_order(fm[f])
    } else {
        Seq::<u64>::empty()
    }
}

/// Each stored bucket is non-empty and free of duplicates, each bucket holds
/// exactly the keys counted at its frequency, and every count is at least one
/// and at least `min_freq`.
spec fn buckets_agree(
    counter: Map<u64, u64>,
    fm: Map<u64, LinkedHashSet<u64>>,
    min_freq: u64,
) -> bool {
    &&& forall|f: u64| #[trigger] fm.contains_key(f) ==> set_order(fm[f]).len() > 0
    &&& forall|f: u64| #[trigger] bucket_in(fm, f).no_duplicates()
    &&& forall|f: u64, k: u64| #[trigger]
        bucket_in(fm, f).contains(k) <==> (counter.contains_key(k) && counter[k] == f)
    &&& forall|k: u64| #[trigger]
        counter.contains_key(k) ==> 1 <= counter[k] && min_freq <= counter[k]
}

/// A cache that evicts the least frequently accessed key, the oldest arrival
/// at that frequency first.
pub struct LFUCache<V> {
    capacity: u64,
    key_value_map: HashMap<u64, Arc<V>>,
    counter: HashMap<u64, u64>,
    freq_map: HashMap<u64, LinkedHashSet<u64>>,
    hits: u64,
    misses: u64,
    min_freq: u64,
}

impl<V> LFUCache<V> {
    /// How many times each stored key has been written or read.
    pub closed spec fn frequency(&self) -> Map<u64, u64> {
        self.counter@
    }

    /// The keys whose frequency is `f`, in the order they reached it.
    pub closed spec fn bucket_of(&self, f: u64) -> Seq<u64> {
        bucket_in(self.freq_map@, f)
    }

    /// `v` is the key that eviction takes next: no key is used less often,
    /// and `v` reached its frequency before the others that share it.
    pub open spec fn is_next_victim(&self, v: u64) -> bool {
        &&& self.frequency().contains_key(v)
        &&& forall|k: u64| #[trigger]
            self.frequency().contains_key(k) ==> self.frequency()[v] <= self.frequency()[k]
        &&& self.bucket_of(self.frequency()[v]).len() > 0
        &&& self.bucket_of(self.frequency()[v])[0] == v
    }

    /// `after` is this cache with one more access of the stored `key`
    /// counted: the key leaves the bucket of its frequency and joins the back
    /// of the next one. A count that has reached `u64::MAX` stays there.
    pub open spec fn bumped(&self, after: Self, key: u64) -> bool {
        let f = self.frequency()[key];
        &&& after.frequency() == self.frequency().insert(key, f.saturating_add(1))
        &&& forall|h: u64| #[trigger]
            after.bucket_of(h) == (if f == u64::MAX || (h != f && h != f + 1) {
                self.bucket_of(h)
            } else if h == f {
                self.bucket_of(h).remove_value(key)
            } else {
                self.bucket_of(h).push(key)
            })
    }

    /// The buckets of `after` are this cache's buckets with `victim`, if
    /// any, gone from the front of its bucket and then `key` appended to the
    /// bucket of frequency one.
    pub open spec fn joined(&self, after: Self, key: u64, victim: Option<u64>) -> bool {
        forall|h: u64| #[trigger]
            after.bucket_of(h) == ({
                let base = match victim {
                    Some(v) => if h == self.frequency()[v] {
                        self.bucket_of(h).drop_first()
                    } else {
                        self.bucket_of(h)
                    },
                    None => self.bucket_of(h),
                };
                if h == 1 {
                    base.push(key)
                } else {
                    base
                }
            })
    }

    /// The counters and the buckets agree.
    spec fn consistent(&self) -> bool {
        &&& self.counter@.dom() == self.key_value_map@.dom()
        &&& buckets_agree(self.counter@, self.freq_map@, self.min_freq)
    }

    /// In a well-formed cache each bucket holds exactly the keys of its
    /// frequency, once each, and every stored key has been counted at least
    /// once.
    pub proof fn lemma_buckets_group_by_frequency(&self)
        requires
            self.wf(),
        ensures
            forall|k: u64| #[trigger]
                self.frequency().contains_key(k) ==> 1 <= self.frequency()[k],
            forall|f: u64, k: u64| #[trigger]
                self.bucket_of(f).contains(k) <==> (self.frequency().contains_key(k)
                    && self.frequency()[k] == f),
            forall|f: u64| #[trigger] self.bucket_of(f).no_duplicates(),
            self.frequency().dom() == self.entries().dom(),
    {
    }

    /// Creates an empty cache that holds at most `capacity` entries.
    pub fn new(capacity: u64) -> (r: Self)
        ensures
            r.wf(),
            r.entries() == Map::<u64, Arc<V>>::empty(),
            r.frequency() == Map::<u64, u64>::empty(),
            r.hit_count() == 0,
            r.miss_count() == 0,
            r.capacity_limit() == capacity,
    {
        let r = LFUCache {
            capacity,
            key_value_map: HashMap::new(),
            counter: HashMap::new(),
            freq_map: HashMap::new(),
            hits: 0,
            misses: 0,
            min_freq: 0,
        };
        proof {
            assert(r.counter@.dom() =~= r.key_value_map@.dom());
            assert forall|f: u64| #[trigger] r.bucket_of(f).no_duplicates() by {}
        }
        r
    }

    /// Takes the bucket of frequency `f` out of the map, or a fresh empty one.
    fn take_bucket(&mut self, f: u64) -> (b: LinkedHashSet<u64>)
        ensures
            set_order(b) == bucket_in(old(self).freq_map@, f),
            final(self).freq_map@ == old(self).freq_map@.remove(f),
            final(self).key_value_map@ == old(self).key_value_map@,
            final(self).counter@ == old(self).counter@,
            final(self).capacity == old(self).capacity,
            final(self).hits == old(self).hits,
            final(self).misses == old(self).misses,
            final(self).min_freq == old(self).min_freq,
    {
        match self.freq_map.remove(&f) {
            Some(b) => b,
            None => ordered_set_new(),
        }
    }

    /// Puts a bucket back under frequency `f`, dropping it when empty.
    fn put_bucket(&mut self, f: u64, b: LinkedHashSet<u64>)
        requires
            !old(self).freq_map@.contains_key(f),
        ensures
            bucket_in(final(self).freq_map@, f) == set_order(b),
            set_order(b).len() > 0 ==> final(self).freq_map@ == old(self).freq_map@.insert(f, b),
            set_order(b).len() == 0 ==> final(self).freq_map@ == old(self).freq_map@,
            final(self).key_value_map@ == old(self).key_value_map@,
            final(self).counter@ == old(self).counter@,
            final(self).capacity == old(self).capacity,
            final(self).hits == old(self).hits,
            final(self).misses == old(self).misses,
            final(self).min_freq == old(self).min_freq,
    {
        if ordered_set_len(&b) > 0 {
            self.freq_map.insert(f, b);
        } else {
            assert(set_order(b) =~= Seq::<u64>::empty());
        }
    }

    /// Counts one more access of a stored key: it leaves the bucket of its
    /// old frequency and joins the back of the next one. When that bucket
    /// held only this key and was the tracked minimum, the minimum moves up
    /// by one. A count that has reached `u64::MAX` stays there.
    fn increase_freq(&mut self, key: u64)
        requires
            old(self).consistent(),
            old(self).counter@.contains_key(key),
        ensures
            final(self).consistent(),
            old(self).bumped(*final(self), key),
            ({
                let f = old(self).counter@[key];
                if f < u64::MAX && old(self).bucket_of(f) == seq![key] && f == old(self).min_freq {
                    final(self).min_freq == f + 1
                } else {
                    final(self).min_freq == old(self).min_freq
                }
            }),
            final(self).key_value_map@ == old(self).key_value_map@,
            final(self).capacity == old(self).capacity,
            final(self).hits == old(self).hits,
            final(self).misses == old(self).misses,
    {
        let f = match self.counter.get(&key) {
            Some(c) => *c,
            None => {
                proof {
                    assert(false);
                }
                return ;
            },
        };
        if f == u64::MAX {
            assert(self.counter@.insert(key, f) =~= self.counter@);
            return ;
        }
        let ghost pre = *self;
        proof {
            assert(bucket_in(pre.freq_map@, f).contains(key));
            assert(!bucket_in(pre.freq_map@, (f + 1) as u64).contains(key));
            lemma_unique_remove_value(bucket_in(pre.freq_map@, f), key);
            lemma_unique_push(bucket_in(pre.freq_map@, (f + 1) as u64), key);
        }
        self.counter.insert(key, f + 1);
        let mut old_bucket = self.take_bucket(f);
        ordered_set_remove(&mut old_bucket, key);
        let emptied = ordered_set_len(&old_bucket) == 0;
        proof {
            let b = bucket_in(pre.freq_map@, f);
            if emptied {
                assert(b.len() == 1);
                assert(b[0] == key) by {
                    assert(b.contains(key));
                }
                assert(b =~= seq![key]);
            }
            if b == seq![key] {
                assert(b.remove_value(key).len() == 0);
            }
        }
        self.put_bucket(f, old_bucket);
        if emptied && f == self.min_freq {
            self.min_freq = f + 1;
        }
        let mut next_bucket = self.take_bucket(f + 1);
        ordered_set_insert(&mut next_bucket, key);
        self.put_bucket(f + 1, next_bucket);
        proof {
            let g = (f + 1) as u64;
            assert forall|h: u64| #[trigger]
                bucket_in(self.freq_map@, h) == (if h == f {
                    bucket_in(pre.freq_map@, f).remove_value(key)
                } else if h == g {
                    bucket_in(pre.freq_map@, g).push(key)
                } else {
                    bucket_in(pre.freq_map@, h)
                }) by {}
            assert forall|h: u64| #[trigger]
                self.freq_map@.contains_key(h) implies set_order(self.freq_map@[h]).len() > 0 by {
                assert(bucket_in(self.freq_map@, h) == set_order(self.freq_map@[h]));
                if h != f && h != g {
                    assert(pre.freq_map@.contains_key(h));
                }
            }
            assert forall|h: u64| #[trigger] bucket_in(self.freq_map@, h).no_duplicates() by {
                assert(bucket_in(pre.freq_map@, h).no_duplicates());
            }
            assert forall|h: u64, k: u64| #[trigger]
                bucket_in(self.freq_map@, h).contains(k) <==> (self.counter@.contains_key(k)
                    && self.counter@[k] == h) by {
                assert(bucket_in(pre.freq_map@, h).contains(k) <==> (pre.counter@.contains_key(k)
                    && pre.counter@[k] == h));
                if h == f {
                    let old_bucket = bucket_in(pre.freq_map@, f);
                    assert(old_bucket.remove_value(key).contains(k) <==> old_bucket.contains(k)
                        && k != key);
                } else if h == g {
                    let next_bucket = bucket_in(pre.freq_map@, g);
                    assert(next_bucket.push(key).contains(k) <==> next_bucket.contains(k)
                        || k == key);
                }
            }
            assert forall|k: u64| #[trigger]
                self.counter@.contains_key(k) implies 1 <= self.counter@[k] && self.min_freq
                <= self.counter@[k] by {
                if k != key && emptied && f == pre.min_freq {
                    assert(pre.counter@[k] != f) by {
                        if pre.counter@[k] == f {
                            assert(bucket_in(pre.freq_map@, f).contains(k));
                            assert(bucket_in(self.freq_map@, f).contains(k));
                        }
                    }
                }
            }
            assert(self.counter@.dom() =~= self.key_value_map@.dom());
        }
    }

    /// Evicts the oldest key of the lowest non-empty bucket and returns it.
    fn remove_least_freq(&mut self) -> (v: u64)
        requires
            old(self).consistent(),
            old(self).key_value_map@.len() > 0,
        ensures
            final(self).consistent(),
            old(self).is_next_victim(v),
            forall|h: u64| #[trigger]
                final(self).bucket_of(h) == (if h == old(self).frequency()[v] {
                    old(self).bucket_of(h).drop_first()
                } else {
                    old(self).bucket_of(h)
                }),
            final(self).key_value_map@ == old(self).key_value_map@.remove(v),
            final(self).counter@ == old(self).counter@.remove(v),
            final(self).key_value_map@.len() + 1 == old(self).key_value_map@.len(),
            final(self).capacity == old(self).capacity,
            final(self).hits == old(self).hits,
            final(self).misses == old(self).misses,
    {
        let ghost pre = *self;
        proof {
            assert(pre.key_value_map@.dom().len() > 0);
            assert(pre.key_value_map@.dom() != Set::<u64>::empty()) by {
                if pre.key_value_map@.dom() == Set::<u64>::empty() {
                    assert(pre.key_value_map@.dom().len() == 0);
                }
            }
            let x = pre.key_value_map@.dom().choose();
            assert(pre.counter@.contains_key(x));
        }
        let ghost w = choose|k: u64| pre.counter@.contains_key(k);
        while !self.freq_map.contains_key(&self.min_freq)
            invariant
                self.consistent(),
                pre.counter@.contains_key(w),
                self.counter@ == pre.counter@,
                self.key_value_map@ == pre.key_value_map@,
                self.freq_map@ == pre.freq_map@,
                self.capacity == pre.capacity,
                self.hits == pre.hits,
                self.misses == pre.misses,
            decreases self.counter@[w] - self.min_freq,
        {
            proof {
                assert(bucket_in(self.freq_map@, self.min_freq) == Seq::<u64>::empty());
                assert(self.counter@[w] != self.min_freq) by {
                    if self.counter@[w] == self.min_freq {
                        assert(bucket_in(self.freq_map@, self.min_freq).contains(w));
                    }
                }
                assert forall|k: u64| #[trigger]
                    self.counter@.contains_key(k) implies self.counter@[k] != self.min_freq by {
                    if self.counter@[k] == self.min_freq {
                        assert(bucket_in(self.freq_map@, self.min_freq).contains(k));
                    }
                }
            }
            self.min_freq = self.min_freq + 1;
        }
        let least = self.min_freq;
        let ghost mid = *self;
        proof {
            assert(bucket_in(mid.freq_map@, least) == set_order(mid.freq_map@[least]));
            assert(bucket_in(mid.freq_map@, least).len() > 0);
            let v0 = bucket_in(mid.freq_map@, least)[0];
            assert(bucket_in(mid.freq_map@, least).contains(v0));
            lemma_unique_remove_value(bucket_in(mid.freq_map@, least), v0);
        }
        let mut bucket = self.take_bucket(least);
        let popped = ordered_set_pop_front(&mut bucket);
        let victim = match popped {
            Some(k) => k,
            None => {
                proof {
                    assert(false);
                }
                0
            },
        };
        proof {
            let s = bucket_in(mid.freq_map@, least);
            assert(s.remove(0) =~= s.drop_first());
            bucket_in(mid.freq_map@, least).index_of_first_ensures(victim);
            assert(s.remove_value(victim) == s.drop_first()) by {
                match s.index_of_first(victim) {
                    Some(j) => {
                        assert(j == 0);
                    },
                    None => {},
                }
            }
        }
        self.put_bucket(least, bucket);
        self.key_value_map.remove(&victim);
        self.counter.remove(&victim);
        proof {
            assert(bucket_in(mid.freq_map@, least).contains(victim));
            assert forall|h: u64| #[trigger]
                bucket_in(self.freq_map@, h) == (if h == least {
                    bucket_in(mid.freq_map@, least).remove_value(victim)
                } else {
                    bucket_in(mid.freq_map@, h)
                }) by {}
            assert forall|h: u64| #[trigger]
                self.freq_map@.contains_key(h) implies set_order(self.freq_map@[h]).len() > 0 by {
                assert(bucket_in(self.freq_map@, h) == set_order(self.freq_map@[h]));
                if h != least {
                    assert(mid.freq_map@.contains_key(h));
                }
            }
            assert forall|h: u64| #[trigger] bucket_in(self.freq_map@, h).no_duplicates() by {
                assert(bucket_in(mid.freq_map@, h).no_duplicates());
            }
            assert forall|h: u64, k: u64| #[trigger]
                bucket_in(self.freq_map@, h).contains(k) <==> (self.counter@.contains_key(k)
                    && self.counter@[k] == h) by {
                assert(bucket_in(mid.freq_map@, h).contains(k) <==> (mid.counter@.contains_key(k)
                    && mid.counter@[k] == h));
                if h == least {
                    let least_bucket = bucket_in(mid.freq_map@, least);
                    assert(least_bucket.remove_value(victim).contains(k) <==> least_bucket.contains(
                        k,
                    ) && k != victim);
                }
            }
            assert(self.counter@.dom() =~= self.key_value_map@.dom());
            assert(pre.frequency()[victim] == least);
            assert(bucket_in(pre.freq_map@, least) == bucket_in(mid.freq_map@, least));
            assert forall|k: u64| #[trigger]
                pre.frequency().contains_key(k) implies pre.frequency()[victim]
                <= pre.frequency()[k] by {
                assert(mid.counter@.contains_key(k));
            }
        }
        victim
    }
}

impl<V> Cache<V> for LFUCache<V> {
    closed spec fn wf(&self) -> bool {
        &&& self.consistent()
        &&& self.key_value_map@.len() <= self.capacity
    }

    closed spec fn entries(&self) -> Map<u64, Arc<V>> {
        self.key_value_map@
    }

    closed spec fn hit_count(&self) -> u64 {
        self.hits
    }

    closed spec fn miss_count(&self) -> u64 {
        self.misses
    }

    closed spec fn capacity_limit(&self) -> u64 {
        self.capacity
    }

    proof fn lemma_size_within_capacity(&self) {
    }

    fn get(&mut self, key: &u64) -> (r: Option<Arc<V>>)
        ensures
            r is Some <==> old(self).entries().contains_key(*key),
            r is Some ==> old(self).bumped(*final(self), *key),
            r is None ==> final(self).frequency() == old(self).frequency(),
            r is None ==> forall|h: u64| #[trigger]
                final(self).bucket_of(h) == old(self).bucket_of(h),
    {
        let found = match self.key_value_map.get(key) {
            Some(v) => Some(share(v)),
            None => None,
        };
        if found.is_some() {
            self.hits = self.hits.saturating_add(1);
            self.increase_freq(*key);
        } else {
            self.misses = self.misses.saturating_add(1);
            assert(self.key_value_map@.remove(*key) =~= self.key_value_map@);
        }
        found
    }

    fn set(&mut self, key: u64, value: V) -> (r: Option<Arc<V>>)
        ensures
            old(self).capacity_limit() > 0 && old(self).entries().contains_key(key) ==> {
                &&& final(self).entries() == old(self).entries().insert(
                    key,
                    final(self).entries()[key],
                )
                &&& old(self).bumped(*final(self), key)
            },
            old(self).capacity_limit() > 0 && !old(self).entries().contains_key(key)
                && old(self).entries().len() < old(self).capacity_limit() ==> {
                &&& final(self).entries() == old(self).entries().insert(
                    key,
                    final(self).entries()[key],
                )
                &&& final(self).frequency() == old(self).frequency().insert(key, 1)
                &&& old(self).joined(*final(self), key, None)
            },
            old(self).capacity_limit() > 0 && !old(self).entries().contains_key(key)
                && old(self).entries().len() >= old(self).capacity_limit() ==> exists|v: u64|
                {
                    &&& #[trigger] old(self).is_next_victim(v)
                    &&& final(self).entries() == old(self).entries().remove(v).insert(
                        key,
                        final(self).entries()[key],
                    )
                    &&& final(self).frequency() == old(self).frequency().remove(v).insert(key, 1)
                    &&& old(self).joined(*final(self), key, Some(v))
                },
            old(self).capacity_limit() == 0 ==> final(self).frequency() == old(self).frequency(),
    {
        if self.capacity == 0 {
            return None;
        }
        let stored = Arc::new(value);
        let present = self.key_value_map.contains_key(&key);
        if present {
            let prior = self.key_value_map.insert(key, stored);
            proof {
                assert(self.counter@.dom() =~= self.key_value_map@.dom());
            }
            self.increase_freq(key);
            return prior;
        }
        let ghost pre = *self;
        let mut victim: u64 = 0;
        if self.key_value_map.len() as u64 >= self.capacity {
            victim = self.remove_least_freq();
        }
        let ghost mid = *self;
        proof {
            assert(!mid.counter@.contains_key(key));
            assert(!bucket_in(mid.freq_map@, 1).contains(key));
            lemma_unique_push(bucket_in(mid.freq_map@, 1), key);
        }
        let prior = self.key_value_map.insert(key, stored);
        self.counter.insert(key, 1);
        let mut ones = self.take_bucket(1);
        ordered_set_insert(&mut ones, key);
        self.put_bucket(1, ones);
        self.min_freq = 1;
        proof {
            assert forall|h: u64| #[trigger]
                bucket_in(self.freq_map@, h) == (if h == 1 {
                    bucket_in(mid.freq_map@, 1).push(key)
                } else {
                    bucket_in(mid.freq_map@, h)
                }) by {}
            assert forall|h: u64| #[trigger]
                self.freq_map@.contains_key(h) implies set_order(self.freq_map@[h]).len() > 0 by {
                assert(bucket_in(self.freq_map@, h) == set_order(self.freq_map@[h]));
                if h != 1 {
                    assert(mid.freq_map@.contains_key(h));
                }
            }
            assert forall|h: u64| #[trigger] bucket_in(self.freq_map@, h).no_duplicates() by {
                assert(bucket_in(mid.freq_map@, h).no_duplicates());
            }
            assert forall|h: u64, k: u64| #[trigger]
                bucket_in(self.freq_map@, h).contains(k) <==> (self.counter@.contains_key(k)
                    && self.counter@[k] == h) by {
                assert(bucket_in(mid.freq_map@, h).contains(k) <==> (mid.counter@.contains_key(k)
                    && mid.counter@[k] == h));
                if h == 1 {
                    let ones = bucket_in(mid.freq_map@, 1);
                    assert(ones.push(key).contains(k) <==> ones.contains(k) || k == key);
                }
            }
            assert(self.counter@.dom() =~= self.key_value_map@.dom());
            assert(self.key_value_map@.dom() =~= mid.key_value_map@.dom().insert(key));
            if pre.key_value_map@.len() >= pre.capacity {
                assert(pre.is_next_victim(victim));
                assert forall|h: u64| #[trigger]
                    self.bucket_of(h) == ({
                        let base = if h == pre.frequency()[victim] {
                            pre.bucket_of(h).drop_first()
                        } else {
                            pre.bucket_of(h)
                        };
                        if h == 1 {
                            base.push(key)
                        } else {
                            base
                        }
                    }) by {
                    assert(mid.bucket_of(h) == (if h == pre.frequency()[victim] {
                        pre.bucket_of(h).drop_first()
                    } else {
                        pre.bucket_of(h)
                    }));
                }
                assert(pre.joined(*self, key, Some(victim)));
            } else {
                assert(mid.key_value_map@ == pre.key_value_map@);
            }
        }
        prior
    }

    fn remove(&mut self, key: &u64) -> (r: Option<Arc<V>>)
        ensures
            final(self).frequency() == old(self).frequency().remove(*key),
            forall|h: u64| #[trigger]
                final(self).bucket_of(h) == (if old(self).frequency().contains_key(*key) && h
                    == old(self).frequency()[*key] {
                    old(self).bucket_of(h).remove_value(*key)
                } else {
                    old(self).bucket_of(h)
                }),
    {
        let result = self.key_value_map.remove(key);
        let count = self.counter.remove(key);
        match count {
            Some(f) => {
                let ghost mid = *self;
                proof {
                    lemma_unique_remove_value(bucket_in(mid.freq_map@, f), *key);
                }
                let mut bucket = self.take_bucket(f);
                ordered_set_remove(&mut bucket, *key);
                self.put_bucket(f, bucket);
                proof {
                    assert forall|h: u64| #[trigger]
                        bucket_in(self.freq_map@, h) == (if h == f {
                            bucket_in(mid.freq_map@, f).remove_value(*key)
                        } else {
                            bucket_in(mid.freq_map@, h)
                        }) by {}
                    assert forall|h: u64| #[trigger]
                        self.freq_map@.contains_key(h) implies set_order(self.freq_map@[h]).len()
                        > 0 by {
                        assert(bucket_in(self.freq_map@, h) == set_order(self.freq_map@[h]));
                        if h != f {
                            assert(mid.freq_map@.contains_key(h));
                        }
                    }
                    assert forall|h: u64| #[trigger]
                        bucket_in(self.freq_map@, h).no_duplicates() by {
                        assert(bucket_in(mid.freq_map@, h).no_duplicates());
                    }
                    assert forall|h: u64, k: u64| #[trigger]
                        bucket_in(self.freq_map@, h).contains(k) <==> (self.counter@.contains_key(k)
                            && self.counter@[k] == h) by {
                        assert(bucket_in(old(self).freq_map@, h).contains(k) <==> (
                        old(self).counter@.contains_key(k) && old(self).counter@[k] == h));
                        assert(bucket_in(mid.freq_map@, h) == bucket_in(old(self).freq_map@, h));
                        if h == f {
                            assert(bucket_in(mid.freq_map@, f).remove_value(*key).contains(k)
                                <==> bucket_in(mid.freq_map@, f).contains(k) && k != *key);
                        }
                    }
                }
            },
            None => {
                proof {
                    assert(self.counter@ =~= old(self).counter@.remove(*key));
                }
            },
        }
        proof {
            assert(self.counter@.dom() =~= self.key_value_map@.dom());
        }
        result
    }

    fn clear(&mut self)
        ensures
            final(self).frequency() == Map::<u64, u64>::empty(),
            forall|h: u64| #[trigger] final(self).bucket_of(h) == Seq::<u64>::empty(),
    {
        self.key_value_map.clear();
        self.counter.clear();
        self.freq_map.clear();
        proof {
            assert(self.counter@.dom() =~= self.key_value_map@.dom());
            assert forall|f: u64| #[trigger] bucket_in(self.freq_map@, f).no_duplicates() by {}
        }
    }

    fn stats(&self) -> (r: CacheStats) {
        CacheStats {
            hits: self.hits,
            misses: self.misses,
            size: self.key_value_map.len() as u64,
            capacity: self.capacity,
        }
    }

    fn change_capacity(&mut self, capacity: u64)
        ensures
            forall|k: u64, j: u64|
                #![trigger old(self).frequency()[k], final(self).frequency()[j]]
                old(self).frequency().contains_key(k) && !final(self).frequency().contains_key(k)
                    && final(self).frequency().contains_key(j) ==> old(self).frequency()[k]
                    <= old(self).frequency()[j],
            final(self).frequency() == old(self).frequency().restrict(final(self).entries().dom()),
            forall|h: u64| #[trigger] final(self).bucket_of(h).is_suffix_of(old(self).bucket_of(h)),
            forall|k: u64, j: u64|
                #![trigger old(self).frequency()[k], final(self).frequency()[j]]
                old(self).frequency().contains_key(k) && !final(self).frequency().contains_key(k)
                    && final(self).frequency().contains_key(j) && old(self).frequency()[k]
                    == old(self).frequency()[j] ==> {
                    let b = old(self).bucket_of(old(self).frequency()[k]);
                    b.index_of(k) < b.index_of(j)
                },
    {
        self.capacity = capacity;
        while self.key_value_map.len() as u64 > self.capacity
            invariant
                self.consistent(),
                self.capacity == capacity,
                self.hits == old(self).hits,
                self.misses == old(self).misses,
                self.key_value_map@.submap_of(old(self).key_value_map@),
                self.counter@ == old(self).counter@.restrict(self.key_value_map@.dom()),
                old(self).counter@.dom() == old(self).key_value_map@.dom(),
                forall|k: u64, j: u64|
                    #![trigger old(self).counter@[k], self.counter@[j]]
                    old(self).counter@.contains_key(k) && !self.counter@.contains_key(k)
                        && self.counter@.contains_key(j) ==> old(self).counter@[k]
                        <= old(self).counter@[j],
                old(self).key_value_map@.len() <= capacity ==> self.key_value_map@
                    == old(self).key_value_map@,
                old(self).key_value_map@.len() > capacity ==> self.key_value_map@.len()
                    >= capacity,
                buckets_agree(old(self).counter@, old(self).freq_map@, old(self).min_freq),
                forall|h: u64| #[trigger]
                    bucket_in(self.freq_map@, h).is_suffix_of(bucket_in(old(self).freq_map@, h)),
            decreases self.key_value_map@.len(),
        {
            let ghost pre = *self;
            let victim = self.remove_least_freq();
            proof {
                assert(self.counter@ =~= old(self).counter@.restrict(self.key_value_map@.dom()));
                assert forall|k: u64, j: u64|
                    #![trigger old(self).counter@[k], self.counter@[j]]
                    old(self).counter@.contains_key(k) && !self.counter@.contains_key(k)
                        && self.counter@.contains_key(j) implies old(self).counter@[k]
                    <= old(self).counter@[j] by {
                    assert(pre.counter@.contains_key(j));
                    if k == victim {
                        assert(pre.frequency().contains_key(j));
                    } else {
                        assert(!pre.counter@.contains_key(k));
                    }
                }
                assert forall|h: u64| #[trigger]
                    bucket_in(self.freq_map@, h).is_suffix_of(
                        bucket_in(old(self).freq_map@, h),
                    ) by {
                    let o = bucket_in(old(self).freq_map@, h);
                    let p = bucket_in(pre.freq_map@, h);
                    assert(p.is_suffix_of(o));
                    assert(self.bucket_of(h) == bucket_in(self.freq_map@, h));
                    assert(pre.bucket_of(h) == p);
                    if h == pre.frequency()[victim] {
                        assert(p.len() > 0);
                        assert(bucket_in(self.freq_map@, h) == p.drop_first());
                        assert(p.drop_first() =~= o.subrange(
                            o.len() - (p.len() - 1),
                            o.len() as int,
                        ));
                    } else {
                        assert(bucket_in(self.freq_map@, h) == p);
                    }
                }
            }
        }
        proof {
            if old(self).key_value_map@.len() <= capacity {
                assert(self.counter@ =~= old(self).counter@);
            }
            assert forall|k: u64, j: u64|
                #![trigger old(self).frequency()[k], self.frequency()[j]]
                old(self).frequency().contains_key(k) && !self.frequency().contains_key(k)
                    && self.frequency().contains_key(j) && old(self).frequency()[k]
                    == old(self).frequency()[j] implies {
                    let b = old(self).bucket_of(old(self).frequency()[k]);
                    b.index_of(k) < b.index_of(j)
                } by {
                let f = old(self).counter@[k];
                let b = bucket_in(old(self).freq_map@, f);
                let sfx = bucket_in(self.freq_map@, f);
                assert(b.contains(k));
                assert(b.contains(j));
                assert(self.counter@[j] == f);
                assert(sfx.contains(j));
                assert(!sfx.contains(k));
                assert(sfx.is_suffix_of(b));
                let off = b.len() - sfx.len();
                let t = choose|t: int| 0 <= t < sfx.len() && sfx[t] == j;
                assert(sfx[t] == b.subrange(off, b.len() as int)[t]);
                assert(b[off + t] == j);
                let ij = b.index_of(j);
                assert(b[ij] == j);
                assert(b.no_duplicates());
                assert(ij == off + t);
                let ik = b.index_of(k);
                assert(b[ik] == k);
                if ik >= off {
                    assert(sfx[ik - off] == b.subrange(off, b.len() as int)[ik - off]);
                    assert(sfx[ik - off] == k);
                }
            }
        }
    }
}

} // verus!
