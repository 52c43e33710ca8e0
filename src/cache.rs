//! The contract that every eviction policy implements, and the statistics
//! snapshot that each engine reports.
use std::sync::Arc;
use vstd::prelude::*;

pub mod fifo;
pub mod lfu;
pub mod lifo;
pub mod lru;
pub mod mru;
pub mod random_replacement;
pub mod ttl;

verus! {

/// A snapshot of a cache's counters and occupancy.
#[derive(Debug, Clone, Copy)]
pub struct CacheStats {
    pub hits: u64,
    pub misses: u64,
    pub size: u64,
    pub capacity: u64,
}

/// Relies on `Arc::clone`: the new handle points at the same value.
#[verifier::external_body]
pub(crate) fn share<V>(a: &Arc<V>) -> (r: Arc<V>)
    ensures
        r == *a,
{
    Arc::clone(a)
}

/// What one operation did to the counters: a `get` that found a value, a
/// `get` that found none, or an operation that counts nothing.
pub enum Tally {
    Hit,
    Miss,
    Quiet,
}

/// The counters `(hits, misses)` went from `before` to `after` by one
/// operation of kind `t`; each counter saturates at `u64::MAX`.
pub open spec fn counted(before: (u64, u64), after: (u64, u64), t: Tally) -> bool {
    match t {
        Tally::Hit => after == (before.0.saturating_add(1), before.1),
        Tally::Miss => after == (before.0, before.1.saturating_add(1)),
        Tally::Quiet => after == before,
    }
}

/// The `(hits, misses)` counters of an engine.
pub open spec fn counters<V, C: Cache<V>>(c: C) -> (u64, u64) {
    (c.hit_count(), c.miss_count())
}

/// How many operations in `ts` are of kind `t`.
pub open spec fn tally_of(ts: Seq<Tally>, t: Tally) -> nat
    decreases ts.len(),
{
    if ts.len() == 0 {
        0
    } else {
        tally_of(ts.drop_last(), t) + if ts.last() == t {
            1nat
        } else {
            0nat
        }
    }
}

/// Over any run of operations on any engine, the hit counter grows by the
/// number of `get` calls that found a value and the miss counter by the
/// number that found none; every other operation leaves both alone. A fresh
/// cache therefore reports exactly `k` hits and `m` misses after `k`
/// successful and `m` failed lookups, as long as neither count reaches
/// `u64::MAX`.
pub proof fn lemma_stats_count_lookups<V, C: Cache<V>>(states: Seq<C>, ts: Seq<Tally>)
    requires
        states.len() == ts.len() + 1,
        forall|i: int|
            0 <= i < ts.len() ==> counted(
                counters::<V, C>(states[i]),
                counters::<V, C>(states[i + 1]),
                ts[i],
            ),
        states[0].hit_count() + tally_of(ts, Tally::Hit) <= u64::MAX,
        states[0].miss_count() + tally_of(ts, Tally::Miss) <= u64::MAX,
    ensures
        states.last().hit_count() == states[0].hit_count() + tally_of(ts, Tally::Hit),
        states.last().miss_count() == states[0].miss_count() + tally_of(ts, Tally::Miss),
    decreases ts.len(),
{
    if ts.len() > 0 {
        let n = ts.len() - 1;
        let front = states.drop_last();
        assert(front.last() == states[n]);
        assert(forall|i: int|
            0 <= i < ts.drop_last().len() ==> #[trigger] front[i] == states[i] && front[i + 1]
                == states[i + 1]);
        lemma_stats_count_lookups::<V, C>(front, ts.drop_last());
        assert(counted(counters::<V, C>(states[n]), counters::<V, C>(states[n + 1]), ts[n]));
    }
}

/// The operations shared by every eviction policy.
///
/// Keys are `u64`; values are stored behind `Arc` so that reads hand out a
/// cheap shared handle. Each engine refines these contracts with the exact
/// eviction order of its policy.
pub trait Cache<V>: Sized {
    /// The engine's internal structures agree with each other and hold at
    /// most `capacity_limit()` entries.
    spec fn wf(&self) -> bool;

    /// The entries that are stored now.
    spec fn entries(&self) -> Map<u64, Arc<V>>;

    /// Number of `get` calls that found a value (saturating).
    spec fn hit_count(&self) -> u64;

    /// Number of `get` calls that found none (saturating).
    spec fn miss_count(&self) -> u64;

    /// The bound on the number of entries.
    spec fn capacity_limit(&self) -> u64;

    /// A well-formed engine never holds more entries than its capacity.
    proof fn lemma_size_within_capacity(&self)
        requires
            self.wf(),
        ensures
            self.entries().len() <= self.capacity_limit(),
            self.entries().dom().finite(),
    ;

    /// Looks a key up, counting a hit or a miss.
    fn get(&mut self, key: &u64) -> (r: Option<Arc<V>>)
        requires
            old(self).wf(),
        ensures
            final(self).wf(),
            final(self).capacity_limit() == old(self).capacity_limit(),
            match r {
                Some(v) => {
                    &&& old(self).entries().contains_key(*key)
                    &&& v == old(self).entries()[*key]
                    &&& final(self).entries() == old(self).entries()
                    &&& counted(
                        (old(self).hit_count(), old(self).miss_count()),
                        (final(self).hit_count(), final(self).miss_count()),
                        Tally::Hit,
                    )
                },
                None => {
                    &&& final(self).entries() == old(self).entries().remove(*key)
                    &&& counted(
                        (old(self).hit_count(), old(self).miss_count()),
                        (final(self).hit_count(), final(self).miss_count()),
                        Tally::Miss,
                    )
                },
            },
    ;

    /// Stores `value` under `key` and returns the value it replaced. A new
    /// key may evict one other entry, chosen by the policy; a cache of
    /// capacity zero stores nothing.
    fn set(&mut self, key: u64, value: V) -> (r: Option<Arc<V>>)
        requires
            old(self).wf(),
        ensures
            final(self).wf(),
            final(self).capacity_limit() == old(self).capacity_limit(),
            counted(
                (old(self).hit_count(), old(self).miss_count()),
                (final(self).hit_count(), final(self).miss_count()),
                Tally::Quiet,
            ),
            r == (if old(self).entries().contains_key(key) {
                Some(old(self).entries()[key])
            } else {
                None
            }),
            old(self).capacity_limit() == 0 ==> final(self).entries() == old(self).entries(),
            old(self).capacity_limit() > 0 ==> {
                &&& final(self).entries().contains_key(key)
                &&& final(self).entries()[key] == value
            },
            forall|k: u64|
                k != key && #[trigger] final(self).entries().contains_key(k) ==> {
                    &&& old(self).entries().contains_key(k)
                    &&& final(self).entries()[k] == old(self).entries()[k]
                },
            old(self).entries().contains_key(key) ==> final(self).entries().dom()
                == old(self).entries().dom(),
            old(self).entries().len() < old(self).capacity_limit() ==> final(self).entries().dom()
                == old(self).entries().dom().insert(key),
    ;

    /// Deletes `key` and returns the value it held.
    fn remove(&mut self, key: &u64) -> (r: Option<Arc<V>>)
        requires
            old(self).wf(),
        ensures
            final(self).wf(),
            final(self).capacity_limit() == old(self).capacity_limit(),
            counted(
                (old(self).hit_count(), old(self).miss_count()),
                (final(self).hit_count(), final(self).miss_count()),
                Tally::Quiet,
            ),
            final(self).entries() == old(self).entries().remove(*key),
            r == (if old(self).entries().contains_key(*key) {
                Some(old(self).entries()[*key])
            } else {
                None
            }),
    ;

    /// Drops every entry; the counters and the capacity stay.
    fn clear(&mut self)
        requires
            old(self).wf(),
        ensures
            final(self).wf(),
            final(self).entries() == Map::<u64, Arc<V>>::empty(),
            final(self).capacity_limit() == old(self).capacity_limit(),
            counted(
                (old(self).hit_count(), old(self).miss_count()),
                (final(self).hit_count(), final(self).miss_count()),
                Tally::Quiet,
            ),
    ;

    /// The current counters, number of entries and capacity.
    fn stats(&self) -> (r: CacheStats)
        requires
            self.wf(),
        ensures
            r.hits == self.hit_count(),
            r.misses == self.miss_count(),
            r.size == self.entries().len(),
            r.capacity == self.capacity_limit(),
    ;

    /// Sets a new capacity, evicting by the policy's rule until the entries
    /// fit: exactly `size - capacity` of them when the cache is too full.
    fn change_capacity(&mut self, capacity: u64)
        requires
            old(self).wf(),
        ensures
            final(self).wf(),
            final(self).capacity_limit() == capacity,
            counted(
                (old(self).hit_count(), old(self).miss_count()),
                (final(self).hit_count(), final(self).miss_count()),
                Tally::Quiet,
            ),
            final(self).entries().submap_of(old(self).entries()),
            final(self).entries().len() == (if old(self).entries().len() <= capacity {
                old(self).entries().len()
            } else {
                capacity as nat
            }),
    ;
}

} // verus!
