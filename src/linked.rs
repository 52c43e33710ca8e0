//! Insertion-ordered hash collections from the `linked_hash_set` and
//! `linked-hash-map` crates, with contracts over the order they keep.
use linked_hash_map::LinkedHashMap;
use linked_hash_set::LinkedHashSet;
use vstd::prelude::*;

use crate::keyed::keyed_by;

verus! {

#[verifier::external_type_specification]
#[verifier::external_body]
#[verifier::reject_recursive_types(T)]
#[verifier::reject_recursive_types(S)]
pub struct ExLinkedHashSet<T, S>(LinkedHashSet<T, S>);

/// The values of a linked hash set, from the front (oldest) to the back
/// (newest).
pub uninterp spec fn set_order(s: LinkedHashSet<u64>) -> Seq<u64>;

/// Relies on `LinkedHashSet::new`: the set starts empty.
#[verifier::external_body]
pub(crate) fn ordered_set_new() -> (r: LinkedHashSet<u64>)
    ensures
        set_order(r) == Seq::<u64>::empty(),
{
    LinkedHashSet::new()
}

/// Relies on `LinkedHashSet::len`: the number of values.
#[verifier::external_body]
pub(crate) fn ordered_set_len(s: &LinkedHashSet<u64>) -> (r: usize)
    ensures
        r == set_order(*s).len(),
{
    s.len()
}

/// Relies on `LinkedHashSet::insert`: a value that was present moves to the
/// back, a new one is appended there; `true` when the value was new.
#[verifier::external_body]
pub(crate) fn ordered_set_insert(s: &mut LinkedHashSet<u64>, k: u64) -> (r: bool)
    ensures
        r == !set_order(*old(s)).contains(k),
        set_order(*final(s)) == set_order(*old(s)).remove_value(k).push(k),
        set_order(*final(s)).no_duplicates(),
{
    s.insert(k)
}

/// Relies on `LinkedHashSet::refresh`: a present value moves to the back;
/// `true` when it was present.
#[verifier::external_body]
pub(crate) fn ordered_set_refresh(s: &mut LinkedHashSet<u64>, k: u64) -> (r: bool)
    ensures
        r == set_order(*old(s)).contains(k),
        r ==> set_order(*final(s)) == set_order(*old(s)).remove_value(k).push(k),
        !r ==> set_order(*final(s)) == set_order(*old(s)),
        set_order(*final(s)).no_duplicates(),
{
    s.refresh(&k)
}

/// Relies on `LinkedHashSet::remove`: the value leaves and the others keep
/// their order; `true` when it was present.
#[verifier::external_body]
pub(crate) fn ordered_set_remove(s: &mut LinkedHashSet<u64>, k: u64) -> (r: bool)
    ensures
        r == set_order(*old(s)).contains(k),
        set_order(*final(s)) == set_order(*old(s)).remove_value(k),
        set_order(*final(s)).no_duplicates(),
{
    s.remove(&k)
}

/// Relies on `LinkedHashSet::pop_front`: removes and returns the oldest value.
#[verifier::external_body]
pub(crate) fn ordered_set_pop_front(s: &mut LinkedHashSet<u64>) -> (r: Option<u64>)
    ensures
        set_order(*old(s)).len() == 0 ==> r == None::<u64> && set_order(*final(s)) == set_order(
            *old(s),
        ),
        set_order(*old(s)).len() > 0 ==> r == Some(set_order(*old(s))[0]) && set_order(*final(s))
            == set_order(*old(s)).drop_first(),
        set_order(*final(s)).no_duplicates(),
{
    s.pop_front()
}

/// Relies on `LinkedHashSet::pop_back`: removes and returns the newest value.
#[verifier::external_body]
pub(crate) fn ordered_set_pop_back(s: &mut LinkedHashSet<u64>) -> (r: Option<u64>)
    ensures
        set_order(*old(s)).len() == 0 ==> r == None::<u64> && set_order(*final(s)) == set_order(
            *old(s),
        ),
        set_order(*old(s)).len() > 0 ==> r == Some(set_order(*old(s)).last()) && set_order(
            *final(s),
        ) == set_order(*old(s)).drop_last(),
        set_order(*final(s)).no_duplicates(),
{
    s.pop_back()
}

/// Relies on `LinkedHashSet::clear`: the set becomes empty.
#[verifier::external_body]
pub(crate) fn ordered_set_clear(s: &mut LinkedHashSet<u64>)
    ensures
        set_order(*final(s)) == Seq::<u64>::empty(),
{
    s.clear()
}

#[verifier::external_type_specification]
#[verifier::external_body]
#[verifier::reject_recursive_types(K)]
#[verifier::reject_recursive_types(V)]
#[verifier::reject_recursive_types(S)]
pub struct ExLinkedHashMap<K, V, S>(LinkedHashMap<K, V, S>);

/// The keys of a linked hash map, from the front (oldest) to the back
/// (newest).
pub uninterp spec fn map_order(m: LinkedHashMap<u64, u64>) -> Seq<u64>;

/// The key-value pairs of a linked hash map.
pub uninterp spec fn map_values(m: LinkedHashMap<u64, u64>) -> Map<u64, u64>;

/// Relies on `LinkedHashMap::new`: the map starts empty.
#[verifier::external_body]
pub(crate) fn ordered_map_new() -> (r: LinkedHashMap<u64, u64>)
    ensures
        map_order(r) == Seq::<u64>::empty(),
        map_values(r).dom() == Set::<u64>::empty(),
{
    LinkedHashMap::new()
}

/// Relies on `LinkedHashMap::get`: the value stored under `k`, if any.
#[verifier::external_body]
pub(crate) fn ordered_map_get(m: &LinkedHashMap<u64, u64>, k: u64) -> (r: Option<u64>)
    ensures
        r == (if map_values(*m).contains_key(k) {
            Some(map_values(*m)[k])
        } else {
            None
        }),
{
    m.get(&k).copied()
}

/// Relies on `LinkedHashMap::insert`: stores `v` under `k` and moves `k` to
/// the back, returning the value it replaced.
#[verifier::external_body]
pub(crate) fn ordered_map_insert(m: &mut LinkedHashMap<u64, u64>, k: u64, v: u64) -> (r: Option<
    u64,
>)
    ensures
        r == (if map_values(*old(m)).contains_key(k) {
            Some(map_values(*old(m))[k])
        } else {
            None
        }),
        map_order(*final(m)) == map_order(*old(m)).remove_value(k).push(k),
        map_values(*final(m)) == map_values(*old(m)).insert(k, v),
        keyed_by(map_order(*final(m)), map_values(*final(m))),
{
    m.insert(k, v)
}

/// Relies on `LinkedHashMap::remove`: drops `k` and returns its value; the
/// other keys keep their order.
#[verifier::external_body]
pub(crate) fn ordered_map_remove(m: &mut LinkedHashMap<u64, u64>, k: u64) -> (r: Option<u64>)
    ensures
        r == (if map_values(*old(m)).contains_key(k) {
            Some(map_values(*old(m))[k])
        } else {
            None
        }),
        map_order(*final(m)) == map_order(*old(m)).remove_value(k),
        map_values(*final(m)) == map_values(*old(m)).remove(k),
        keyed_by(map_order(*final(m)), map_values(*final(m))),
{
    m.remove(&k)
}

/// Relies on `LinkedHashMap::front`: the oldest key and its value.
#[verifier::external_body]
pub(crate) fn ordered_map_front(m: &LinkedHashMap<u64, u64>) -> (r: Option<(u64, u64)>)
    ensures
        map_order(*m).len() == 0 ==> r == None::<(u64, u64)>,
        map_order(*m).len() > 0 ==> r == Some(
            (map_order(*m)[0], map_values(*m)[map_order(*m)[0]]),
        ),
{
    m.front().map(|(k, v)| (*k, *v))
}

/// Relies on `LinkedHashMap::clear`: the map becomes empty.
#[verifier::external_body]
pub(crate) fn ordered_map_clear(m: &mut LinkedHashMap<u64, u64>)
    ensures
        map_order(*final(m)) == Seq::<u64>::empty(),
        map_values(*final(m)).dom() == Set::<u64>::empty(),
{
    m.clear()
}

} // verus!
