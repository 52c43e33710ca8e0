//! Facts about an eviction order: a sequence of keys that lists every key of
//! an entry map exactly once.
use vstd::prelude::*;

verus! {

/// `order` lists each key of `m` exactly once, and nothing else.
pub open spec fn keyed_by<V>(order: Seq<u64>, m: Map<u64, V>) -> bool {
    &&& order.no_duplicates()
    &&& order.to_set() == m.dom()
}

/// The entries of `m` whose keys appear in `keys`.
pub open spec fn kept<V>(m: Map<u64, V>, keys: Seq<u64>) -> Map<u64, V> {
    m.restrict(keys.to_set())
}

/// An order and its map have the same length.
pub proof fn lemma_keyed_len<V>(order: Seq<u64>, m: Map<u64, V>)
    requires
        keyed_by(order, m),
    ensures
        order.len() == m.len(),
{
    order.unique_seq_to_set();
}

/// A fresh key appended at the end keeps the order in step with the map.
pub proof fn lemma_keyed_push<V>(order: Seq<u64>, m: Map<u64, V>, k: u64, v: V)
    requires
        keyed_by(order, m),
        !m.contains_key(k),
    ensures
        keyed_by(order.push(k), m.insert(k, v)),
        order.push(k).len() == order.len() + 1,
{
    let p = order.push(k);
    assert(!order.contains(k)) by {
        if order.contains(k) {
            assert(order.to_set().contains(k));
        }
    }
    assert forall|i: int, j: int| 0 <= i < j < p.len() implies p[i] != p[j] by {
        if j == p.len() - 1 {
            assert(order.contains(p[i]));
        }
    }
    assert(p.to_set() =~= m.insert(k, v).dom()) by {
        assert forall|x: u64| p.to_set().contains(x) <==> m.insert(k, v).dom().contains(x) by {
            if p.to_set().contains(x) {
                let i = choose|i: int| 0 <= i < p.len() && p[i] == x;
                if i < order.len() {
                    assert(order[i] == x);
                    assert(order.to_set().contains(x));
                }
            }
            if m.insert(k, v).dom().contains(x) && x != k {
                assert(order.to_set().contains(x));
                let i = choose|i: int| 0 <= i < order.len() && order[i] == x;
                assert(p[i] == x);
            }
            if x == k {
                assert(p[order.len() as int] == k);
            }
        }
    }
}

/// Dropping the key at position `i` keeps the order in step with the map
/// without that key; it is the only position that holds the key.
pub proof fn lemma_keyed_remove<V>(order: Seq<u64>, m: Map<u64, V>, i: int)
    requires
        keyed_by(order, m),
        0 <= i < order.len(),
    ensures
        keyed_by(order.remove(i), m.remove(order[i])),
        m.contains_key(order[i]),
        order.remove_value(order[i]) == order.remove(i),
        order.index_of(order[i]) == i,
        !order.remove(i).contains(order[i]),
{
    let k = order[i];
    let r = order.remove(i);
    assert(order.to_set().contains(k));
    order.remove_ensures(i);
    assert forall|a: int, b: int| 0 <= a < b < r.len() implies r[a] != r[b] by {
        let a2 = if a < i { a } else { a + 1 };
        let b2 = if b < i { b } else { b + 1 };
        assert(r[a] == order[a2]);
        assert(r[b] == order[b2]);
    }
    assert(!r.contains(k)) by {
        if r.contains(k) {
            let a = choose|a: int| 0 <= a < r.len() && r[a] == k;
            let a2 = if a < i { a } else { a + 1 };
            assert(order[a2] == k);
        }
    }
    assert(r.to_set() =~= m.remove(k).dom()) by {
        assert forall|x: u64| r.to_set().contains(x) <==> m.remove(k).dom().contains(x) by {
            if r.to_set().contains(x) {
                let a = choose|a: int| 0 <= a < r.len() && r[a] == x;
                let a2 = if a < i { a } else { a + 1 };
                assert(order[a2] == x);
                assert(order.to_set().contains(x));
            }
            if m.remove(k).dom().contains(x) {
                assert(order.to_set().contains(x));
                let a = choose|a: int| 0 <= a < order.len() && order[a] == x;
                assert(a != i);
                if a < i {
                    assert(r[a] == x);
                } else {
                    assert(r[a - 1] == x);
                }
            }
        }
    }
    order.index_of_first_ensures(k);
    assert(order.remove_value(k) == r) by {
        match order.index_of_first(k) {
            Some(j) => {
                assert(order[j] == k);
                assert(j == i);
            },
            None => {
                assert(order.contains(k));
            },
        }
    }
    assert(order.index_of(k) == i) by {
        let j = order.index_of(k);
        assert(order.contains(k));
        assert(order[j] == k);
    }
}

/// Moving the last key into position `i` and dropping the last position
/// keeps the order in step with the map without the key that stood at `i`.
pub proof fn lemma_keyed_swap_remove<V>(order: Seq<u64>, m: Map<u64, V>, i: int)
    requires
        keyed_by(order, m),
        0 <= i < order.len(),
    ensures
        keyed_by(order.update(i, order.last()).drop_last(), m.remove(order[i])),
        m.contains_key(order[i]),
{
    let n = order.len() - 1;
    let k = order[i];
    let s = order.update(i, order.last()).drop_last();
    assert(order.to_set().contains(k));
    assert(s.len() == n);
    assert forall|j: int| 0 <= j < n implies #[trigger] s[j] == (if j == i {
        order[n]
    } else {
        order[j]
    }) by {}
    assert forall|a: int, b: int| 0 <= a < b < s.len() implies s[a] != s[b] by {
        let a2 = if a == i { n } else { a };
        let b2 = if b == i { n } else { b };
        assert(s[a] == order[a2]);
        assert(s[b] == order[b2]);
    }
    assert(s.to_set() =~= m.remove(k).dom()) by {
        assert forall|x: u64| s.to_set().contains(x) <==> m.remove(k).dom().contains(x) by {
            if s.to_set().contains(x) {
                let a = choose|a: int| 0 <= a < s.len() && s[a] == x;
                let a2 = if a == i { n } else { a };
                assert(order[a2] == x);
                assert(a2 != i);
                assert(order.to_set().contains(x));
            }
            if m.remove(k).dom().contains(x) {
                assert(order.to_set().contains(x));
                let a = choose|a: int| 0 <= a < order.len() && order[a] == x;
                assert(a != i);
                if a == n {
                    assert(s[i] == x);
                } else {
                    assert(s[a] == x);
                }
            }
        }
    }
}

/// Moving a present key to the back, possibly with a new value, keeps the
/// order in step with the map.
pub proof fn lemma_keyed_refresh<V>(order: Seq<u64>, m: Map<u64, V>, k: u64, v: V)
    requires
        keyed_by(order, m),
        m.contains_key(k),
    ensures
        keyed_by(order.remove_value(k).push(k), m.insert(k, v)),
        order.remove_value(k).push(k).len() == order.len(),
        order.contains(k),
{
    lemma_keyed_contains(order, m, k);
    let i = order.index_of(k);
    lemma_keyed_remove(order, m, i);
    lemma_keyed_push(order.remove(i), m.remove(k), k, v);
    assert(m.remove(k).insert(k, v) =~= m.insert(k, v));
}

/// Removing a value from a sequence without duplicates removes exactly that
/// value.
pub proof fn lemma_unique_remove_value(s: Seq<u64>, x: u64)
    requires
        s.no_duplicates(),
    ensures
        s.remove_value(x).no_duplicates(),
        forall|k: u64| #[trigger] s.remove_value(x).contains(k) <==> s.contains(k) && k != x,
        s.contains(x) ==> s.remove_value(x).len() + 1 == s.len(),
        !s.contains(x) ==> s.remove_value(x) == s,
{
    s.index_of_first_ensures(x);
    match s.index_of_first(x) {
        Some(i) => {
            let m = Map::new(|k: u64| s.contains(k), |k: u64| 0u8);
            assert(s.to_set() =~= m.dom());
            lemma_keyed_remove(s, m, i);
            assert forall|k: u64| #[trigger] s.remove_value(x).contains(k) <==> s.contains(k) && k
                != x by {
                lemma_keyed_contains(s.remove(i), m.remove(x), k);
                lemma_keyed_contains(s, m, k);
            }
        },
        None => {},
    }
}

/// Appending a value that is absent keeps a sequence free of duplicates.
pub proof fn lemma_unique_push(s: Seq<u64>, x: u64)
    requires
        s.no_duplicates(),
        !s.contains(x),
    ensures
        s.push(x).no_duplicates(),
        forall|k: u64| #[trigger] s.push(x).contains(k) <==> s.contains(k) || k == x,
        s.remove_value(x) == s,
{
    s.index_of_first_ensures(x);
    assert forall|k: u64| #[trigger] s.push(x).contains(k) <==> s.contains(k) || k == x by {
        if s.push(x).contains(k) {
            let i = choose|i: int| 0 <= i < s.push(x).len() && s.push(x)[i] == k;
            if i < s.len() {
                assert(s[i] == k);
            }
        }
        if s.contains(k) {
            let i = choose|i: int| 0 <= i < s.len() && s[i] == k;
            assert(s.push(x)[i] == k);
        }
        if k == x {
            assert(s.push(x)[s.len() as int] == k);
        }
    }
    assert forall|a: int, b: int| 0 <= a < b < s.push(x).len() implies s.push(x)[a] != s.push(
        x,
    )[b] by {
        if b == s.len() {
            assert(s.contains(s[a]));
        }
    }
}

/// Overwriting the value of a present key leaves the order in step.
pub proof fn lemma_keyed_update<V>(order: Seq<u64>, m: Map<u64, V>, k: u64, v: V)
    requires
        keyed_by(order, m),
        m.contains_key(k),
    ensures
        keyed_by(order, m.insert(k, v)),
{
    assert(m.insert(k, v).dom() =~= m.dom());
}

/// The empty order lists the empty map.
pub proof fn lemma_keyed_empty<V>()
    ensures
        keyed_by(Seq::<u64>::empty(), Map::<u64, V>::empty()),
{
    assert(Seq::<u64>::empty().to_set() =~= Set::<u64>::empty());
}

/// A key lies in the map exactly when the order lists it.
pub proof fn lemma_keyed_contains<V>(order: Seq<u64>, m: Map<u64, V>, k: u64)
    requires
        keyed_by(order, m),
    ensures
        m.contains_key(k) <==> order.contains(k),
{
    if m.contains_key(k) {
        assert(order.to_set().contains(k));
    }
    if order.contains(k) {
        assert(order.to_set().contains(k));
    }
}

/// A contiguous slice of the order lists the map restricted to that slice.
pub proof fn lemma_keyed_slice<V>(order: Seq<u64>, m: Map<u64, V>, lo: int, hi: int)
    requires
        keyed_by(order, m),
        0 <= lo <= hi <= order.len(),
    ensures
        keyed_by(order.subrange(lo, hi), kept(m, order.subrange(lo, hi))),
        kept(m, order.subrange(lo, hi)).len() == hi - lo,
{
    let s = order.subrange(lo, hi);
    assert forall|x: u64| s.to_set().contains(x) implies m.dom().contains(x) by {
        let a = choose|a: int| 0 <= a < s.len() && s[a] == x;
        assert(order[lo + a] == x);
        assert(order.to_set().contains(x));
    }
    assert(kept(m, s).dom() =~= s.to_set());
    lemma_keyed_len(s, kept(m, s));
}

} // verus!
