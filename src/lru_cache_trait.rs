use vstd::prelude::*;
use crate::key::CacheKey;

verus! {

/// `s` with every occurrence of `x` taken out, the other items in their order.
pub open spec fn without<A>(s: Seq<A>, x: A) -> Seq<A> {
    s.filter(|y: A| y != x)
}

/// The recency order once `x` has been used: `x` leaves its place and becomes
/// the most recently used, every other key keeps its relative position.
pub open spec fn touched<A>(order: Seq<A>, x: A) -> Seq<A> {
    without(order, x).push(x)
}

/// The recency order after a write of `k` into a store of capacity `cap`.
pub open spec fn order_after_put<A>(order: Seq<A>, cap: nat, k: A) -> Seq<A> {
    if order.contains(k) {
        touched(order, k)
    } else if order.len() >= cap {
        order.drop_first().push(k)
    } else {
        order.push(k)
    }
}

/// The key to value table after a write of `k -> v` into a store of capacity
/// `cap`: a new key into a full store first evicts the least recently used key.
pub open spec fn table_after_put<A, V>(
    order: Seq<A>,
    table: Map<A, V>,
    cap: nat,
    k: A,
    v: V,
) -> Map<A, V> {
    if !order.contains(k) && order.len() >= cap {
        table.remove(order[0]).insert(k, v)
    } else {
        table.insert(k, v)
    }
}

/// The order and table after writing `recs`, first to last, into a store of
/// capacity `cap` that held `order` and `table`.
pub open spec fn replay<A, V>(
    order: Seq<A>,
    table: Map<A, V>,
    cap: nat,
    recs: Seq<(A, V)>,
) -> (Seq<A>, Map<A, V>)
    decreases recs.len(),
{
    if recs.len() == 0 {
        (order, table)
    } else {
        let (o, t) = replay(order, table, cap, recs.drop_last());
        let r = recs.last();
        (order_after_put(o, cap, r.0), table_after_put(o, t, cap, r.0, r.1))
    }
}

/// What holds of every store: a positive capacity that the order never
/// exceeds, each key at most once in the order, and the table's keys exactly
/// the keys of the order.
pub open spec fn well_formed<A, V>(order: Seq<A>, table: Map<A, V>, cap: nat) -> bool {
    &&& 0 < cap
    &&& order.len() <= cap
    &&& order.no_duplicates()
    &&& table.dom() == order.to_set()
}

/// A least-recently-used store of a fixed capacity.
///
/// Its state is a recency order of keys, least recently used first, and a
/// table from keys to values.
pub trait LRUCache<K: CacheKey, V: Clone>: Sized {
    /// The most keys the store holds at once.
    spec fn capacity(&self) -> nat;

    /// The keys held, least recently used first.
    spec fn order(&self) -> Seq<K::V>;

    /// The value held for each key.
    spec fn table(&self) -> Map<K::V, V>;

    /// The implementation's own well-formedness.
    spec fn inv(&self) -> bool;

    /// An empty store that holds at most `capacity` keys.
    fn new(capacity: usize) -> (r: Self)
        requires
            capacity > 0,
        ensures
            r.inv(),
            well_formed(r.order(), r.table(), r.capacity()),
            r.capacity() == capacity,
            r.order() == Seq::<K::V>::empty(),
            r.table() == Map::<K::V, V>::empty(),
    ;

    /// The value held for `key`, if any. A hit makes `key` the most recently
    /// used; a miss changes nothing.
    fn get(&mut self, key: &K) -> (r: Option<V>)
        requires
            old(self).inv(),
        ensures
            final(self).inv(),
            well_formed(final(self).order(), final(self).table(), final(self).capacity()),
            final(self).capacity() == old(self).capacity(),
            final(self).table() == old(self).table(),
            old(self).table().contains_key(key@) ==> {
                &&& r is Some
                &&& cloned(old(self).table()[key@], r->0)
                &&& final(self).order() == touched(old(self).order(), key@)
            },
            !old(self).table().contains_key(key@) ==> {
                &&& r is None
                &&& final(self).order() == old(self).order()
            },
    ;

    /// Writes `key -> value` and makes `key` the most recently used. A new key
    /// into a full store first evicts the least recently used key.
    fn put(&mut self, key: K, value: V)
        requires
            old(self).inv(),
        ensures
            final(self).inv(),
            well_formed(final(self).order(), final(self).table(), final(self).capacity()),
            final(self).capacity() == old(self).capacity(),
            final(self).order() == order_after_put(old(self).order(), old(self).capacity(), key@),
            final(self).table() == table_after_put(
                old(self).order(),
                old(self).table(),
                old(self).capacity(),
                key@,
                value,
            ),
    ;
}

} // verus!
