use vstd::prelude::*;
use crate::lru_cache_trait::{
    without,
    touched,
    order_after_put,
    table_after_put,
    well_formed,
    replay,
};

verus! {

proof fn lemma_filter_keeps_all<A>(s: Seq<A>, x: A)
    requires
        !s.contains(x),
    ensures
        without(s, x) == s,
    decreases s.len(),
{
    reveal(Seq::filter);
    if s.len() > 0 {
        assert(!s.drop_last().contains(x)) by {
            if s.drop_last().contains(x) {
                let i = choose|i: int| 0 <= i < s.drop_last().len() && s.drop_last()[i] == x;
                assert(s[i] == x);
            }
        }
        lemma_filter_keeps_all(s.drop_last(), x);
        assert(s.last() != x) by {
            assert(s[s.len() - 1] == s.last());
        }
        assert(s.drop_last().push(s.last()) =~= s);
        assert(s.filter(|y: A| y != x) == s.drop_last().filter(|y: A| y != x).push(s.last()));
    } else {
        assert(s.filter(|y: A| y != x) =~= s);
    }
}

/// In a sequence without duplicates, taking out every `x` is removing the one
/// place where `x` stands.
pub proof fn lemma_without_at<A>(s: Seq<A>, pos: int)
    requires
        s.no_duplicates(),
        0 <= pos < s.len(),
    ensures
        without(s, s[pos]) == s.remove(pos),
{
    let x = s[pos];
    let pred = |y: A| y != x;
    let a = s.take(pos);
    let b = s.skip(pos + 1);
    assert(s =~= a + seq![x] + b);
    assert(s.remove(pos) =~= a + b);
    assert(!a.contains(x)) by {
        if a.contains(x) {
            let i = choose|i: int| 0 <= i < a.len() && a[i] == x;
            assert(s[i] == x);
        }
    }
    assert(!b.contains(x)) by {
        if b.contains(x) {
            let i = choose|i: int| 0 <= i < b.len() && b[i] == x;
            assert(s[pos + 1 + i] == x);
        }
    }
    Seq::filter_distributes_over_add(a + seq![x], b, pred);
    Seq::filter_distributes_over_add(a, seq![x], pred);
    lemma_filter_keeps_all(a, x);
    lemma_filter_keeps_all(b, x);
    assert(seq![x].filter(pred) =~= Seq::<A>::empty()) by {
        reveal_with_fuel(Seq::filter, 2);
        assert(seq![x].drop_last() =~= Seq::<A>::empty());
    }
}

/// Removing the item at `pos` from a sequence without duplicates leaves one
/// without duplicates, which no longer holds that item.
proof fn lemma_remove_distinct<A>(s: Seq<A>, pos: int)
    requires
        s.no_duplicates(),
        0 <= pos < s.len(),
    ensures
        s.remove(pos).no_duplicates(),
        s.remove(pos).to_set() == s.to_set().remove(s[pos]),
        s.remove(pos).len() == s.len() - 1,
{
    let r = s.remove(pos);
    assert forall|i: int, j: int| 0 <= i < r.len() && 0 <= j < r.len() && i != j implies r[i]
        != r[j] by {
        let oi = if i < pos { i } else { i + 1 };
        let oj = if j < pos { j } else { j + 1 };
        assert(r[i] == s[oi]);
        assert(r[j] == s[oj]);
    }
    assert forall|x: A| r.contains(x) <==> (s.contains(x) && x != s[pos]) by {
        if r.contains(x) {
            let i = choose|i: int| 0 <= i < r.len() && r[i] == x;
            let oi = if i < pos { i } else { i + 1 };
            assert(s[oi] == x);
        }
        if s.contains(x) && x != s[pos] {
            let i = choose|i: int| 0 <= i < s.len() && s[i] == x;
            let ni = if i < pos { i } else { i - 1 };
            assert(r[ni] == x);
        }
    }
    assert(r.to_set() =~= s.to_set().remove(s[pos]));
}

/// Pushing an item that a sequence without duplicates does not hold keeps it
/// without duplicates.
proof fn lemma_push_distinct<A>(s: Seq<A>, x: A)
    requires
        s.no_duplicates(),
        !s.contains(x),
    ensures
        s.push(x).no_duplicates(),
        s.push(x).to_set() == s.to_set().insert(x),
{
    let r = s.push(x);
    assert forall|i: int, j: int| 0 <= i < r.len() && 0 <= j < r.len() && i != j implies r[i]
        != r[j] by {
        if i < s.len() && j < s.len() {
            assert(r[i] == s[i] && r[j] == s[j]);
        } else if i < s.len() {
            assert(r[i] == s[i]);
        } else if j < s.len() {
            assert(r[j] == s[j]);
        }
    }
    s.lemma_push_to_set_commute(x);
}

/// Where `x` stands in a sequence without duplicates.
proof fn lemma_place_of<A>(s: Seq<A>, x: A) -> (pos: int)
    requires
        s.contains(x),
    ensures
        0 <= pos < s.len(),
        s[pos] == x,
{
    choose|i: int| 0 <= i < s.len() && s[i] == x
}

/// A write keeps every store well formed: the order never outgrows the
/// capacity, and the table's keys stay exactly the keys of the order.
pub proof fn lemma_put_well_formed<A, V>(order: Seq<A>, table: Map<A, V>, cap: nat, k: A, v: V)
    requires
        well_formed(order, table, cap),
    ensures
        well_formed(
            order_after_put(order, cap, k),
            table_after_put(order, table, cap, k, v),
            cap,
        ),
{
    let o2 = order_after_put(order, cap, k);
    let t2 = table_after_put(order, table, cap, k, v);
    if order.contains(k) {
        let pos = lemma_place_of(order, k);
        lemma_without_at(order, pos);
        lemma_remove_distinct(order, pos);
        lemma_push_distinct(order.remove(pos), k);
        assert(t2.dom() =~= o2.to_set());
    } else if order.len() >= cap {
        lemma_remove_distinct(order, 0);
        assert(order.remove(0) =~= order.drop_first());
        lemma_push_distinct(order.drop_first(), k);
        assert(t2.dom() =~= o2.to_set());
    } else {
        lemma_push_distinct(order, k);
        assert(t2.dom() =~= o2.to_set());
    }
}

/// Every sequence of writes keeps a store well formed.
pub proof fn lemma_replay_well_formed<A, V>(
    order: Seq<A>,
    table: Map<A, V>,
    cap: nat,
    recs: Seq<(A, V)>,
)
    requires
        well_formed(order, table, cap),
    ensures
        well_formed(replay(order, table, cap, recs).0, replay(order, table, cap, recs).1, cap),
    decreases recs.len(),
{
    if recs.len() > 0 {
        lemma_replay_well_formed(order, table, cap, recs.drop_last());
        let (o, t) = replay(order, table, cap, recs.drop_last());
        lemma_put_well_formed(o, t, cap, recs.last().0, recs.last().1);
    }
}

/// A new key written into a full store evicts the least recently used key and
/// no other: every other key stays, with its value, in its relative order,
/// and the new key becomes the most recently used.
pub proof fn lemma_put_evicts_least_recent<A, V>(
    order: Seq<A>,
    table: Map<A, V>,
    cap: nat,
    k: A,
    v: V,
)
    requires
        well_formed(order, table, cap),
        order.len() == cap,
        !order.contains(k),
    ensures
        order_after_put(order, cap, k) == order.drop_first().push(k),
        !order_after_put(order, cap, k).contains(order[0]),
        !table_after_put(order, table, cap, k, v).contains_key(order[0]),
        order_after_put(order, cap, k).len() == cap,
        forall|i: int|
            1 <= i < order.len() ==> {
                &&& table_after_put(order, table, cap, k, v).contains_key(#[trigger] order[i])
                &&& table_after_put(order, table, cap, k, v)[order[i]] == table[order[i]]
            },
        table_after_put(order, table, cap, k, v)[k] == v,
{
    lemma_remove_distinct(order, 0);
    assert(order.remove(0) =~= order.drop_first());
    assert(order.to_set().contains(order[0]));
    assert(!order.drop_first().push(k).contains(order[0])) by {
        if order.drop_first().push(k).contains(order[0]) {
            let i = choose|i: int|
                0 <= i < order.drop_first().push(k).len() && order.drop_first().push(k)[i]
                    == order[0];
            if i < order.drop_first().len() {
                assert(order.drop_first().to_set().contains(order[0]));
            } else {
                assert(order.contains(k));
            }
        }
    }
    assert forall|i: int| 1 <= i < order.len() implies table.contains_key(#[trigger] order[i])
        && order[i] != order[0] && order[i] != k by {
        assert(order.to_set().contains(order[i]));
    }
}

/// A read of a held key makes it the most recently used, after every key that
/// was not read; the other keys keep their relative order and no key comes
/// or goes.
pub proof fn lemma_get_makes_most_recent<A>(order: Seq<A>, x: A)
    requires
        order.no_duplicates(),
        order.contains(x),
    ensures
        touched(order, x).len() == order.len(),
        touched(order, x).last() == x,
        forall|i: int| 0 <= i < touched(order, x).len() - 1 ==> #[trigger] touched(order, x)[i] != x,
        touched(order, x).drop_last() == without(order, x),
        touched(order, x).to_set() == order.to_set(),
        touched(order, x).no_duplicates(),
{
    let pos = lemma_place_of(order, x);
    lemma_without_at(order, pos);
    lemma_remove_distinct(order, pos);
    lemma_push_distinct(order.remove(pos), x);
    assert(touched(order, x).drop_last() =~= without(order, x));
    assert(order.to_set().contains(x));
    assert(order.to_set().remove(x).insert(x) =~= order.to_set());
    assert forall|i: int| 0 <= i < touched(order, x).len() - 1 implies #[trigger] touched(order, x)[i]
        != x by {
        assert(touched(order, x)[i] == order.remove(pos)[i]);
        assert(order.remove(pos).to_set().contains(order.remove(pos)[i]));
    }
}

/// A write to a held key replaces its value and makes it the most recently
/// used, without growing the store or touching any other key's value.
pub proof fn lemma_overwrite_keeps_size<A, V>(
    order: Seq<A>,
    table: Map<A, V>,
    cap: nat,
    k: A,
    v: V,
)
    requires
        well_formed(order, table, cap),
        order.contains(k),
    ensures
        order_after_put(order, cap, k) == touched(order, k),
        order_after_put(order, cap, k).len() == order.len(),
        order_after_put(order, cap, k).last() == k,
        table_after_put(order, table, cap, k, v) == table.insert(k, v),
        table_after_put(order, table, cap, k, v).dom() == table.dom(),
{
    lemma_get_makes_most_recent(order, k);
    assert(order.to_set().contains(k));
    assert(table.insert(k, v).dom() =~= table.dom());
}

/// The table that `recs` describe, a later record of a key over an earlier.
pub open spec fn table_of_records<A, V>(recs: Seq<(A, V)>) -> Map<A, V>
    decreases recs.len(),
{
    if recs.len() == 0 {
        Map::empty()
    } else {
        table_of_records(recs.drop_last()).insert(recs.last().0, recs.last().1)
    }
}

/// The keys of `recs`, in order.
pub open spec fn record_keys<A, V>(recs: Seq<(A, V)>) -> Seq<A> {
    recs.map_values(|r: (A, V)| r.0)
}

/// Writing records with distinct keys, no more of them than the capacity, into
/// an empty store holds them all, in the order written.
pub proof fn lemma_replay_distinct<A, V>(cap: nat, recs: Seq<(A, V)>)
    requires
        record_keys(recs).no_duplicates(),
        recs.len() <= cap,
    ensures
        replay(Seq::empty(), Map::empty(), cap, recs) == (
            record_keys(recs),
            table_of_records(recs),
        ),
    decreases recs.len(),
{
    if recs.len() > 0 {
        let prev = recs.drop_last();
        assert(record_keys(prev) =~= record_keys(recs).drop_last());
        assert(record_keys(prev).no_duplicates());
        lemma_replay_distinct(cap, prev);
        let k = recs.last().0;
        assert(record_keys(recs)[recs.len() - 1] == k);
        assert(!record_keys(prev).contains(k)) by {
            if record_keys(prev).contains(k) {
                let i = choose|i: int| 0 <= i < record_keys(prev).len() && record_keys(prev)[i] == k;
                assert(record_keys(recs)[i] == k);
            }
        }
        assert(record_keys(prev).push(k) =~= record_keys(recs));
    }
}

/// The records of a store: each key of its order with its value.
pub open spec fn records_of<A, V>(order: Seq<A>, table: Map<A, V>) -> Seq<(A, V)> {
    order.map_values(|k: A| (k, table[k]))
}

proof fn lemma_table_of_records_of<A, V>(order: Seq<A>, table: Map<A, V>)
    requires
        order.to_set().subset_of(table.dom()),
    ensures
        table_of_records(records_of(order, table)) == table.restrict(order.to_set()),
    decreases order.len(),
{
    if order.len() == 0 {
        assert(table.restrict(order.to_set()) =~= Map::empty());
    } else {
        let prev = order.drop_last();
        assert(records_of(order, table).drop_last() =~= records_of(prev, table));
        assert(prev.to_set().subset_of(table.dom())) by {
            assert forall|x: A| prev.to_set().contains(x) implies table.dom().contains(x) by {
                let i = choose|i: int| 0 <= i < prev.len() && prev[i] == x;
                assert(order[i] == x);
                assert(order.to_set().contains(x));
            }
        }
        lemma_table_of_records_of(prev, table);
        assert(order =~= prev.push(order.last()));
        prev.lemma_push_to_set_commute(order.last());
        assert(order.to_set().contains(order.last()));
        assert(table.restrict(prev.to_set()).insert(order.last(), table[order.last()])
            =~= table.restrict(order.to_set()));
    }
}

/// Writing the records of a store, least recently used first, into an empty
/// store of the same capacity rebuilds its order and its table.
pub proof fn lemma_replay_restores<A, V>(order: Seq<A>, table: Map<A, V>, cap: nat)
    requires
        well_formed(order, table, cap),
    ensures
        replay(Seq::empty(), Map::empty(), cap, records_of(order, table)) == (order, table),
{
    let recs = records_of(order, table);
    assert(record_keys(recs) =~= order);
    lemma_replay_distinct(cap, recs);
    lemma_table_of_records_of(order, table);
    assert(table.restrict(order.to_set()) =~= table);
}

} // verus!
