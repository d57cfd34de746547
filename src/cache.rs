use vstd::prelude::*;
use crate::key::CacheKey;
use crate::lru_cache_trait::{
    LRUCache,
    order_after_put,
    table_after_put,
    well_formed,
    replay,
};
use crate::laws::{lemma_without_at, lemma_replay_restores, records_of};
use crate::mirror::{decode, encode, push_char, text_pairs, encode_records, decode_records};
use std::fmt::Display;
use std::str::FromStr;
use vstd::string::to_string_from_display_ensures;

verus! {

/// The keys of `es`, in order.
pub open spec fn keys_of<K: View, V>(es: Seq<(K, V)>) -> Seq<K::V> {
    es.map_values(|e: (K, V)| e.0@)
}

/// The table that `es` describes: each key of `es` with the value beside it.
pub open spec fn table_of<K: View, V>(es: Seq<(K, V)>) -> Map<K::V, V> {
    Map::new(
        |k: K::V| keys_of(es).contains(k),
        |k: K::V| es[choose|i: int| 0 <= i < es.len() && es[i].0@ == k].1,
    )
}

/// The records of `es` with their keys as views.
pub open spec fn pair_views<K: View, V>(es: Seq<(K, V)>) -> Seq<(K::V, V)> {
    es.map_values(|e: (K, V)| (e.0@, e.1))
}

/// `texts` holds, for each entry of `es` in order, the text of its key and the
/// text of its value.
pub open spec fn rendered<K: Display, V: Display>(
    es: Seq<(K, V)>,
    texts: Seq<(String, String)>,
) -> bool {
    &&& texts.len() == es.len()
    &&& forall|i: int|
        0 <= i < es.len() ==> {
            &&& to_string_from_display_ensures::<K>(&es[i].0, #[trigger] texts[i].0)
            &&& to_string_from_display_ensures::<V>(&es[i].1, texts[i].1)
        }
}

/// `parts` joined, with a comma and a space between two neighbours.
pub open spec fn joined(parts: Seq<Seq<char>>) -> Seq<char>
    decreases parts.len(),
{
    if parts.len() == 0 {
        Seq::empty()
    } else if parts.len() == 1 {
        parts[0]
    } else {
        joined(parts.drop_last()) + seq![',', ' '] + parts.last()
    }
}

/// The pairs of `outcomes` whose key and value are both present, in order.
pub open spec fn kept<K, V>(outcomes: Seq<(Option<K>, Option<V>)>) -> Seq<(K, V)>
    decreases outcomes.len(),
{
    if outcomes.len() == 0 {
        Seq::empty()
    } else {
        let prev = kept(outcomes.drop_last());
        match outcomes.last() {
            (Some(k), Some(v)) => prev.push((k, v)),
            _ => prev,
        }
    }
}

/// The pairs of `outcomes` whose key and value are both present, in order.
pub fn keep_parsed<K, V>(outcomes: Vec<(Option<K>, Option<V>)>) -> (r: Vec<(K, V)>)
    ensures
        r@ == kept(outcomes@),
{
    let ghost all = outcomes@;
    let mut out: Vec<(K, V)> = Vec::new();
    for o in it: outcomes.into_iter()
        invariant
            it.seq() == all,
            out@ == kept(all.take(it.index() as int)),
    {
        let ghost i = it.index() as int;
        proof {
            assert(all.take(i + 1).drop_last() =~= all.take(i));
            assert(all.take(i + 1).last() == o);
        }
        match o {
            (Some(k), Some(v)) => {
                out.push((k, v));
            },
            _ => {},
        }
    }
    proof {
        assert(all.take(all.len() as int) =~= all);
    }
    out
}

/// Relies on FromStr::from_str: the value that `text` spells, if it spells one.
#[verifier::external_body]
fn parse_text<T: FromStr>(text: &str) -> (r: Option<T>) {
    T::from_str(text).ok()
}

/// A least-recently-used store, optionally tied to a persistence target.
///
/// Entries are kept least recently used first; no two share a key.
pub struct Cache<K, V> {
    capacity: usize,
    file_path: String,
    entries: Vec<(K, V)>,
}

proof fn lemma_table_at<K: View, V>(es: Seq<(K, V)>, i: int)
    requires
        keys_of(es).no_duplicates(),
        0 <= i < es.len(),
    ensures
        table_of(es).contains_key(es[i].0@),
        table_of(es)[es[i].0@] == es[i].1,
{
    let k = es[i].0@;
    assert(keys_of(es)[i] == k);
    let j = choose|j: int| 0 <= j < es.len() && es[j].0@ == k;
    assert(keys_of(es)[j] == k);
}

proof fn lemma_table_dom<K: View, V>(es: Seq<(K, V)>)
    ensures
        table_of(es).dom() == keys_of(es).to_set(),
{
    assert(table_of(es).dom() =~= keys_of(es).to_set());
}

proof fn lemma_table_push<K: View, V>(es: Seq<(K, V)>, e: (K, V))
    requires
        keys_of(es).no_duplicates(),
        !keys_of(es).contains(e.0@),
    ensures
        keys_of(es.push(e)) == keys_of(es).push(e.0@),
        keys_of(es.push(e)).no_duplicates(),
        table_of(es.push(e)) == table_of(es).insert(e.0@, e.1),
{
    let es2 = es.push(e);
    assert(keys_of(es2) =~= keys_of(es).push(e.0@));
    lemma_table_dom(es);
    lemma_table_dom(es2);
    keys_of(es).lemma_push_to_set_commute(e.0@);
    assert(table_of(es2).dom() =~= table_of(es).insert(e.0@, e.1).dom());
    assert forall|k: K::V| #[trigger] table_of(es2).contains_key(k) implies table_of(es2)[k]
        == table_of(es).insert(e.0@, e.1)[k] by {
        let i = keys_of(es2).index_of(k);
        assert(keys_of(es2)[i] == k);
        lemma_table_at(es2, i);
        if i < es.len() {
            assert(es2[i] == es[i]);
            lemma_table_at(es, i);
        }
    }
    assert(table_of(es2) =~= table_of(es).insert(e.0@, e.1));
}

proof fn lemma_table_remove<K: View, V>(es: Seq<(K, V)>, pos: int)
    requires
        keys_of(es).no_duplicates(),
        0 <= pos < es.len(),
    ensures
        keys_of(es.remove(pos)) == keys_of(es).remove(pos),
        keys_of(es.remove(pos)).no_duplicates(),
        !keys_of(es.remove(pos)).contains(es[pos].0@),
        table_of(es.remove(pos)) == table_of(es).remove(es[pos].0@),
{
    let es2 = es.remove(pos);
    assert(keys_of(es2) =~= keys_of(es).remove(pos));
    assert(keys_of(es)[pos] == es[pos].0@);
    assert forall|i: int, j: int|
        0 <= i < keys_of(es2).len() && 0 <= j < keys_of(es2).len() && i != j implies
        keys_of(es2)[i] != keys_of(es2)[j] by {
        let oi = if i < pos { i } else { i + 1 };
        let oj = if j < pos { j } else { j + 1 };
        assert(keys_of(es2)[i] == keys_of(es)[oi]);
        assert(keys_of(es2)[j] == keys_of(es)[oj]);
    }
    if keys_of(es2).contains(es[pos].0@) {
        let i = choose|i: int| 0 <= i < keys_of(es2).len() && keys_of(es2)[i] == es[pos].0@;
        let oi = if i < pos { i } else { i + 1 };
        assert(keys_of(es)[oi] == es[pos].0@);
    }
    lemma_table_dom(es);
    lemma_table_dom(es2);
    assert(table_of(es2).dom() =~= table_of(es).remove(es[pos].0@).dom()) by {
        assert forall|k: K::V| keys_of(es2).contains(k) <==> (keys_of(es).contains(k) && k
            != es[pos].0@) by {
            if keys_of(es).contains(k) && k != es[pos].0@ {
                let i = keys_of(es).index_of(k);
                assert(keys_of(es)[i] == k);
                let ni = if i < pos { i } else { i - 1 };
                assert(keys_of(es2)[ni] == k);
            }
            if keys_of(es2).contains(k) {
                let i = keys_of(es2).index_of(k);
                let oi = if i < pos { i } else { i + 1 };
                assert(keys_of(es)[oi] == k);
            }
        }
    }
    assert forall|k: K::V| #[trigger] table_of(es2).contains_key(k) implies table_of(es2)[k]
        == table_of(es)[k] by {
        let i = keys_of(es2).index_of(k);
        assert(keys_of(es2)[i] == k);
        lemma_table_at(es2, i);
        let oi = if i < pos { i } else { i + 1 };
        assert(es2[i] == es[oi]);
        lemma_table_at(es, oi);
    }
    assert(table_of(es2) =~= table_of(es).remove(es[pos].0@));
}

impl<K: CacheKey, V: Clone> Cache<K, V> {
    /// The entries, least recently used first.
    pub closed spec fn entry_seq(&self) -> Seq<(K, V)> {
        self.entries@
    }

    /// The persistence target; empty for a store kept in memory only.
    pub closed spec fn target(&self) -> Seq<char> {
        self.file_path@
    }

    /// Index of the entry whose key is `key`, if there is one.
    fn position(&self, key: &K) -> (r: Option<usize>)
        ensures
            match r {
                Some(i) => i < self.entries.len() && self.entries@[i as int].0@ == key@,
                None => !keys_of(self.entries@).contains(key@),
            },
    {
        let mut i: usize = 0;
        while i < self.entries.len()
            invariant
                i <= self.entries.len(),
                forall|j: int| 0 <= j < i ==> self.entries@[j].0@ != key@,
            decreases self.entries.len() - i,
        {
            if self.entries[i].0.same_key(key) {
                return Some(i);
            }
            i = i + 1;
        }
        proof {
            if keys_of(self.entries@).contains(key@) {
                let j = choose|j: int|
                    0 <= j < keys_of(self.entries@).len() && keys_of(self.entries@)[j] == key@;
                assert(self.entries@[j].0@ == key@);
            }
        }
        None
    }
}

impl<K: CacheKey, V: Clone> Cache<K, V> {
    /// `put`, which leaves the persistence target as it is.
    fn write(&mut self, key: K, value: V)
        requires
            old(self).inv(),
        ensures
            final(self).inv(),
            final(self).capacity == old(self).capacity,
            final(self).file_path@ == old(self).file_path@,
            final(self).order() == order_after_put(old(self).order(), old(self).capacity(), key@),
            final(self).table() == table_after_put(
                old(self).order(),
                old(self).table(),
                old(self).capacity(),
                key@,
                value,
            ),
    {
        let ghost es = self.entries@;
        proof {
            lemma_table_dom(es);
        }
        match self.position(&key) {
            Some(pos) => {
                proof {
                    lemma_table_remove(es, pos as int);
                    lemma_without_at(keys_of(es), pos as int);
                    assert(table_of(es).remove(key@).insert(key@, value) =~= table_of(es).insert(
                        key@,
                        value,
                    ));
                }
                self.entries.remove(pos);
            },
            None => {
                if self.entries.len() >= self.capacity {
                    proof {
                        lemma_table_remove(es, 0);
                        assert(keys_of(es).remove(0) =~= keys_of(es).drop_first());
                    }
                    self.entries.remove(0);
                }
            },
        }
        let ghost kept = self.entries@;
        proof {
            lemma_table_push(kept, (key, value));
            lemma_table_dom(kept.push((key, value)));
        }
        self.entries.push((key, value));
    }

    /// Writes `records`, first to last, as `put` would.
    pub fn load(&mut self, records: Vec<(K, V)>)
        requires
            old(self).inv(),
        ensures
            final(self).inv(),
            well_formed(final(self).order(), final(self).table(), final(self).capacity()),
            final(self).capacity() == old(self).capacity(),
            final(self).target() == old(self).target(),
            (final(self).order(), final(self).table()) == replay(
                old(self).order(),
                old(self).table(),
                old(self).capacity(),
                pair_views(records@),
            ),
    {
        let ghost recs = records@;
        let ghost start = (self.order(), self.table());
        for rec in it: records.into_iter()
            invariant
                it.seq() == recs,
                self.inv(),
                self.capacity() == old(self).capacity(),
                self.target() == old(self).target(),
                (self.order(), self.table()) == replay(
                    start.0,
                    start.1,
                    self.capacity(),
                    pair_views(recs.take(it.index() as int)),
                ),
        {
            let ghost i = it.index() as int;
            proof {
                assert(pair_views(recs.take(i + 1)).drop_last() =~= pair_views(recs.take(i)));
                assert(recs[i] == rec);
            }
            self.write(rec.0, rec.1);
        }
        proof {
            assert(recs.take(recs.len() as int) =~= recs);
        }
    }

    /// The persistence target; empty for a store kept in memory only.
    pub fn file_path(&self) -> (r: &str)
        ensures
            r@ == self.target(),
    {
        self.file_path.as_str()
    }

    /// Whether the store has a persistence target.
    pub fn is_persistent(&self) -> (r: bool)
        ensures
            r == (self.target().len() > 0),
    {
        !self.file_path.as_str().is_empty()
    }
}

impl<K: CacheKey, V: Clone> Cache<K, V> {
    /// A store's entries are its records: each key of its order, least
    /// recently used first, with its value. Loading them into an empty store of
    /// the same capacity rebuilds its order and table.
    pub proof fn lemma_entries_restore(&self)
        requires
            self.inv(),
        ensures
            pair_views(self.entry_seq()) == records_of(self.order(), self.table()),
            replay(Seq::empty(), Map::empty(), self.capacity(), pair_views(self.entry_seq())) == (
                self.order(),
                self.table(),
            ),
    {
        let es = self.entries@;
        assert forall|i: int| 0 <= i < es.len() implies #[trigger] pair_views(es)[i] == records_of(
            keys_of(es),
            table_of(es),
        )[i] by {
            lemma_table_at(es, i);
        }
        assert(pair_views(es) =~= records_of(keys_of(es), table_of(es)));
        lemma_table_dom(es);
        lemma_replay_restores(keys_of(es), table_of(es), self.capacity as nat);
    }
}

proof fn lemma_kept_all<K: View, V>(outcomes: Seq<(Option<K>, Option<V>)>, es: Seq<(K, V)>)
    requires
        outcomes.len() == es.len(),
        forall|i: int|
            0 <= i < es.len() ==> {
                &&& #[trigger] outcomes[i].0 matches Some(k) && k@ == es[i].0@
                &&& outcomes[i].1 == Some(es[i].1)
            },
    ensures
        pair_views(kept(outcomes)) == pair_views(es),
    decreases es.len(),
{
    if es.len() > 0 {
        let n = es.len() - 1;
        assert forall|i: int| 0 <= i < n implies {
            &&& #[trigger] outcomes.drop_last()[i].0 matches Some(k) && k@ == es.drop_last()[i].0@
            &&& outcomes.drop_last()[i].1 == Some(es.drop_last()[i].1)
        } by {
            assert(outcomes.drop_last()[i] == outcomes[i]);
            assert(es.drop_last()[i] == es[i]);
        }
        lemma_kept_all(outcomes.drop_last(), es.drop_last());
        assert(outcomes[n].0 matches Some(k) && k@ == es[n].0@);
        assert(outcomes.last() == outcomes[n]);
        assert(pair_views(es) =~= pair_views(es.drop_last()).push((es[n].0@, es[n].1)));
        assert(pair_views(kept(outcomes)) =~= pair_views(kept(outcomes.drop_last())).push(
            (es[n].0@, es[n].1),
        ));
    }
}

impl<K: CacheKey, V: Clone> Cache<K, V> {
    /// Reloading a store: where each record read back parses to a key with
    /// the same view and to the value that the store holds at that place,
    /// loading the kept records into an empty store of the same capacity
    /// rebuilds its order and table.
    pub proof fn lemma_reload_restores(&self, outcomes: Seq<(Option<K>, Option<V>)>)
        requires
            self.inv(),
            outcomes.len() == self.entry_seq().len(),
            forall|i: int|
                0 <= i < self.entry_seq().len() ==> {
                    &&& #[trigger] outcomes[i].0 matches Some(k) && k@ == self.entry_seq()[i].0@
                    &&& outcomes[i].1 == Some(self.entry_seq()[i].1)
                },
        ensures
            replay(Seq::empty(), Map::empty(), self.capacity(), pair_views(kept(outcomes))) == (
                self.order(),
                self.table(),
            ),
    {
        lemma_kept_all(outcomes, self.entries@);
        self.lemma_entries_restore();
    }
}

impl<K: CacheKey + FromStr, V: Clone + FromStr> Cache<K, V> {
    /// Writes, as `put` would and in their order, the records of `saved`, a
    /// mirror text, whose key and value both parse; the others are skipped.
    pub fn load_text(&mut self, saved: &str)
        requires
            old(self).inv(),
        ensures
            final(self).inv(),
            well_formed(final(self).order(), final(self).table(), final(self).capacity()),
            final(self).capacity() == old(self).capacity(),
            final(self).target() == old(self).target(),
            exists|outcomes: Seq<(Option<K>, Option<V>)>|
                {
                    &&& outcomes.len() == decode_records(saved@).len()
                    &&& (final(self).order(), final(self).table()) == replay(
                        old(self).order(),
                        old(self).table(),
                        old(self).capacity(),
                        pair_views(kept(outcomes)),
                    )
                },
    {
        let texts = decode(saved);
        let mut outcomes: Vec<(Option<K>, Option<V>)> = Vec::new();
        for i in 0..texts.len()
            invariant
                outcomes.len() == i,
        {
            let key: Option<K> = parse_text(texts[i].0.as_str());
            let value: Option<V> = parse_text(texts[i].1.as_str());
            outcomes.push((key, value));
        }
        proof {
            assert(text_pairs(texts@).len() == texts@.len());
        }
        let records = keep_parsed(outcomes);
        self.load(records);
    }

    /// A store tied to the persistence target `file_path`, filled from
    /// `saved`, the target's last mirror text (empty where there was none), as
    /// `load_text` fills it.
    pub fn new_persistent(capacity: usize, file_path: &str, saved: &str) -> (r: Self)
        requires
            capacity > 0,
        ensures
            r.inv(),
            well_formed(r.order(), r.table(), r.capacity()),
            r.capacity() == capacity,
            r.target() == file_path@,
            exists|outcomes: Seq<(Option<K>, Option<V>)>|
                {
                    &&& outcomes.len() == decode_records(saved@).len()
                    &&& (r.order(), r.table()) == replay(
                        Seq::empty(),
                        Map::empty(),
                        capacity as nat,
                        pair_views(kept(outcomes)),
                    )
                },
    {
        let mut cache: Cache<K, V> = LRUCache::new(capacity);
        cache.file_path = file_path.to_string();
        cache.load_text(saved);
        cache
    }
}

impl<K: CacheKey + Display, V: Clone + Display> Cache<K, V> {
    /// The text of each entry's key and value, least recently used first.
    fn texts(&self) -> (r: Vec<(String, String)>)
        ensures
            rendered(self.entry_seq(), r@),
    {
        let mut out: Vec<(String, String)> = Vec::new();
        for i in 0..self.entries.len()
            invariant
                rendered(self.entries@.take(i as int), out@),
        {
            let ghost before = out@;
            let k = self.entries[i].0.to_string();
            let v = self.entries[i].1.to_string();
            assert(to_string_from_display_ensures::<K>(&self.entries@[i as int].0, k));
            assert(to_string_from_display_ensures::<V>(&self.entries@[i as int].1, v));
            out.push((k, v));
            proof {
                let es = self.entries@.take(i + 1);
                assert forall|j: int| 0 <= j < i + 1 implies {
                    &&& to_string_from_display_ensures::<K>(&es[j].0, #[trigger] out@[j].0)
                    &&& to_string_from_display_ensures::<V>(&es[j].1, out@[j].1)
                } by {
                    if j < i {
                        assert(es[j] == self.entries@.take(i as int)[j]);
                        assert(out@[j] == before[j]);
                    } else {
                        assert(es[j] == self.entries@[i as int]);
                    }
                }
            }
        }
        proof {
            assert(self.entries@.take(self.entries.len() as int) =~= self.entries@);
        }
        out
    }

    /// The mirror text of the store: a `<key>=<value>` line for each entry,
    /// least recently used first.
    pub fn mirror_text(&self) -> (r: String)
        ensures
            exists|texts: Seq<(String, String)>|
                {
                    &&& rendered(self.entry_seq(), texts)
                    &&& r@ == encode_records(text_pairs(texts))
                },
    {
        let texts = self.texts();
        encode(&texts)
    }

    /// `put`, followed by the mirror text that the persistence target must now
    /// hold; none for a store kept in memory only.
    pub fn put_and_mirror(&mut self, key: K, value: V) -> (r: Option<String>)
        requires
            old(self).inv(),
        ensures
            final(self).inv(),
            well_formed(final(self).order(), final(self).table(), final(self).capacity()),
            final(self).capacity() == old(self).capacity(),
            final(self).target() == old(self).target(),
            final(self).order() == order_after_put(old(self).order(), old(self).capacity(), key@),
            final(self).table() == table_after_put(
                old(self).order(),
                old(self).table(),
                old(self).capacity(),
                key@,
                value,
            ),
            r is Some <==> old(self).target().len() > 0,
            r matches Some(text) ==> exists|texts: Seq<(String, String)>|
                {
                    &&& rendered(final(self).entry_seq(), texts)
                    &&& text@ == encode_records(text_pairs(texts))
                },
    {
        self.write(key, value);
        if self.is_persistent() {
            Some(self.mirror_text())
        } else {
            None
        }
    }

    /// The keys held, least recently used first, as text joined by `", "`.
    pub fn get_state(&self) -> (r: String)
        ensures
            exists|texts: Seq<(String, String)>|
                {
                    &&& rendered(self.entry_seq(), texts)
                    &&& r@ == joined(texts.map_values(|p: (String, String)| p.0@))
                },
    {
        let texts = self.texts();
        let ghost keys = texts@.map_values(|p: (String, String)| p.0@);
        let mut out = String::new();
        for i in 0..texts.len()
            invariant
                keys == texts@.map_values(|p: (String, String)| p.0@),
                out@ == joined(keys.take(i as int)),
        {
            proof {
                assert(keys.take(i + 1).drop_last() =~= keys.take(i as int));
                assert(keys.take(i + 1).last() == texts@[i as int].0@);
            }
            if i > 0 {
                push_char(&mut out, ',');
                push_char(&mut out, ' ');
            } else {
                proof {
                    assert(keys.take(1) =~= seq![keys[0]]);
                }
            }
            out.append(texts[i].0.as_str());
            proof {
                if i > 0 {
                    assert(out@ =~= joined(keys.take(i as int)) + seq![',', ' '] + keys[i as int]);
                } else {
                    assert(out@ =~= keys[0]);
                }
            }
        }
        proof {
            assert(keys.take(texts.len() as int) =~= keys);
        }
        out
    }
}

impl<K: CacheKey, V: Clone> LRUCache<K, V> for Cache<K, V> {
    closed spec fn capacity(&self) -> nat {
        self.capacity as nat
    }

    closed spec fn order(&self) -> Seq<K::V> {
        keys_of(self.entries@)
    }

    closed spec fn table(&self) -> Map<K::V, V> {
        table_of(self.entries@)
    }

    closed spec fn inv(&self) -> bool {
        &&& 0 < self.capacity
        &&& self.entries.len() <= self.capacity
        &&& keys_of(self.entries@).no_duplicates()
    }

    fn new(capacity: usize) -> (r: Self)
        ensures
            r.target() == Seq::<char>::empty(),
    {
        let r = Cache { capacity, file_path: String::new(), entries: Vec::new() };
        proof {
            lemma_table_dom(r.entries@);
            assert(keys_of(r.entries@) =~= Seq::<K::V>::empty());
            assert(table_of(r.entries@) =~= Map::<K::V, V>::empty());
        }
        r
    }

    fn get(&mut self, key: &K) -> (r: Option<V>) {
        proof {
            lemma_table_dom(self.entries@);
        }
        match self.position(key) {
            Some(pos) => {
                let ghost es = self.entries@;
                proof {
                    lemma_table_at(es, pos as int);
                    lemma_table_remove(es, pos as int);
                    lemma_without_at(keys_of(es), pos as int);
                }
                let entry = self.entries.remove(pos);
                let value = entry.1.clone();
                proof {
                    lemma_table_push(es.remove(pos as int), entry);
                    assert(table_of(es).remove(key@).insert(key@, entry.1) =~= table_of(es));
                    lemma_table_dom(es.remove(pos as int).push(entry));
                }
                self.entries.push(entry);
                Some(value)
            },
            None => None,
        }
    }

    fn put(&mut self, key: K, value: V) {
        self.write(key, value);
    }
}

} // verus!
