//! A map that keeps its entries in the order of their keys.

use vstd::prelude::*;
use crate::order::{lemma_phrase_reverse, lemma_phrase_same, lemma_phrase_transitive, phrase_order, text_order, word_of, Order};

verus! {

/// A value by which the entries of a [`SortedMap`] are found and ordered.
pub trait SortKey: Sized {
    /// What two keys have in common when they are the same key.
    type Key;

    /// What this key stands for.
    spec fn key(&self) -> Self::Key;

    /// How this key is written. Keys that are written differently can be the same key.
    spec fn written(&self) -> Seq<char>;

    /// The phrase by which a key is ordered.
    spec fn rank(key: Self::Key) -> Seq<Seq<int>>;

    /// Different keys have different ranks.
    proof fn lemma_rank_injective(a: Self::Key, b: Self::Key)
        requires
            Self::rank(a) == Self::rank(b),
        ensures
            a == b,
    ;

    /// Compares two keys by their ranks.
    fn order(&self, other: &Self) -> (r: Order)
        ensures
            r == phrase_order(Self::rank(self.key()), Self::rank(other.key())),
    ;

    /// The same key once more.
    fn copy(&self) -> (r: Self)
        ensures
            r.key() == self.key(),
            r.written() == self.written(),
    ;
}

impl SortKey for String {
    type Key = Seq<char>;

    open spec fn key(&self) -> Seq<char> {
        self@
    }

    open spec fn written(&self) -> Seq<char> {
        self@
    }

    open spec fn rank(key: Seq<char>) -> Seq<Seq<int>> {
        seq![word_of(key)]
    }

    proof fn lemma_rank_injective(a: Seq<char>, b: Seq<char>) {
        assert(seq![word_of(a)][0] == seq![word_of(b)][0]);
        assert forall|i: int| 0 <= i < a.len() implies a[i] == b[i] by {
            assert(word_of(a)[i] == word_of(b)[i]);
        }
        assert(word_of(a).len() == word_of(b).len());
        assert(a =~= b);
    }

    fn order(&self, other: &Self) -> (r: Order) {
        let r: Order = text_order(self.as_str(), other.as_str());
        proof {
            let x = Self::rank(self@);
            let y = Self::rank(other@);
            assert(x.drop_first() =~= Seq::<Seq<int>>::empty());
            assert(y.drop_first() =~= Seq::<Seq<int>>::empty());
            assert(phrase_order(x.drop_first(), y.drop_first()) == Order::Same);
        }
        r
    }

    fn copy(&self) -> (r: Self)
        ensures
            r == *self,
    {
        self.clone()
    }
}

/// Whether key `a` stands before key `b`.
pub open spec fn before<K: SortKey>(a: K::Key, b: K::Key) -> bool {
    phrase_order(K::rank(a), K::rank(b)) == Order::Less
}

/// Whether the keys of the entries ascend, so that none occurs twice.
pub open spec fn ascending<K: SortKey, V>(entries: Seq<(K, V)>) -> bool {
    forall|i: int, j: int|
        0 <= i < j < entries.len() ==> before::<K>(
            #[trigger] entries[i].0.key(),
            #[trigger] entries[j].0.key(),
        )
}

/// Whether the entry at `i` has the given key.
pub open spec fn holds_at<K: SortKey, V>(entries: Seq<(K, V)>, i: int, key: K::Key) -> bool {
    0 <= i < entries.len() && entries[i].0.key() == key
}

/// The entries as a mathematical map.
pub open spec fn to_map<K: SortKey, V>(entries: Seq<(K, V)>) -> Map<K::Key, V> {
    Map::new(
        |key: K::Key| exists|i: int| holds_at(entries, i, key),
        |key: K::Key| entries[choose|i: int| holds_at(entries, i, key)].1,
    )
}

/// The keys of entries, each with how it is written.
pub open spec fn written_keys<K: SortKey, V>(entries: Seq<(K, V)>) -> Seq<(K, Seq<char>)> {
    entries.map_values(|e: (K, V)| (e.0, e.0.written()))
}

/// The spellings after an entry with the given key was added: a key that was there already keeps
/// its spelling.
pub open spec fn spelled_with<A>(
    spelled: Map<A, Seq<char>>,
    key: A,
    written: Seq<char>,
) -> Map<A, Seq<char>> {
    if spelled.contains_key(key) {
        spelled
    } else {
        spelled.insert(key, written)
    }
}

/// An ordered map.
#[derive(Debug, PartialEq, Eq)]
pub struct SortedMap<K: SortKey, V> {
    entries: Vec<(K, V)>,
}

impl<K: SortKey, V> View for SortedMap<K, V> {
    type V = Map<K::Key, V>;

    open spec fn view(&self) -> Map<K::Key, V> {
        to_map(self.entries())
    }
}

/// The order of keys is a strict total order.
pub proof fn lemma_before<K: SortKey>(a: K::Key, b: K::Key)
    ensures
        !(before::<K>(a, b) && before::<K>(b, a)),
        !before::<K>(a, a),
        a == b || before::<K>(a, b) || before::<K>(b, a),
        (phrase_order(K::rank(a), K::rank(b)) == Order::Same) == (a == b),
        (phrase_order(K::rank(a), K::rank(b)) == Order::Greater) == before::<K>(b, a),
{
    let x = K::rank(a);
    let y = K::rank(b);
    lemma_phrase_same(x, y);
    lemma_phrase_same(x, x);
    lemma_phrase_reverse(x, y);
    lemma_phrase_reverse(y, x);
    if x == y {
        K::lemma_rank_injective(a, b);
    }
}

/// In ascending entries a key stands at one place at most, and the map holds its value.
pub proof fn lemma_lookup<K: SortKey, V>(entries: Seq<(K, V)>, i: int)
    requires
        ascending(entries),
        0 <= i < entries.len(),
    ensures
        to_map(entries).contains_key(entries[i].0.key()),
        to_map(entries)[entries[i].0.key()] == entries[i].1,
{
    let key = entries[i].0.key();
    assert(holds_at(entries, i, key));
    let j = choose|j: int| holds_at(entries, j, key);
    lemma_before::<K>(key, key);
    if i < j {
        assert(before::<K>(entries[i].0.key(), entries[j].0.key()));
    } else if j < i {
        assert(before::<K>(entries[j].0.key(), entries[i].0.key()));
    }
}

/// How a key in ascending entries is written.
pub proof fn lemma_spelling<K: SortKey, V>(entries: Seq<(K, V)>)
    requires
        ascending(entries),
    ensures
        ascending(written_keys(entries)),
        to_map(written_keys(entries)).dom() == to_map(entries).dom(),
        forall|i: int|
            0 <= i < entries.len() ==> to_map(written_keys(entries)).contains_key(
                (#[trigger] entries[i]).0.key(),
            ) && to_map(written_keys(entries))[entries[i].0.key()] == entries[i].0.written(),
{
    let keys = written_keys(entries);
    assert forall|i: int, j: int| 0 <= i < j < keys.len() implies before::<K>(
        #[trigger] keys[i].0.key(),
        #[trigger] keys[j].0.key(),
    ) by {
        assert(before::<K>(entries[i].0.key(), entries[j].0.key()));
    }
    assert forall|i: int| 0 <= i < entries.len() implies to_map(keys).contains_key(
        (#[trigger] entries[i]).0.key(),
    ) && to_map(keys)[entries[i].0.key()] == entries[i].0.written() by {
        lemma_lookup(keys, i);
        assert(keys[i] == (entries[i].0, entries[i].0.written()));
    }
    assert forall|key: K::Key| to_map(keys).dom().contains(key) <==> to_map(entries).dom().contains(
        key,
    ) by {
        if to_map(keys).dom().contains(key) {
            let i = choose|i: int| holds_at(keys, i, key);
            assert(holds_at(entries, i, key));
        }
        if to_map(entries).dom().contains(key) {
            let i = choose|i: int| holds_at(entries, i, key);
            assert(holds_at(keys, i, key));
        }
    }
    assert(to_map(keys).dom() =~= to_map(entries).dom());
}

impl<K: SortKey, V> SortedMap<K, V> {
    /// How the keys are written.
    pub open spec fn spelled(&self) -> Map<K::Key, Seq<char>> {
        to_map(written_keys(self.entries()))
    }

    /// The entries, first to last.
    pub closed spec fn entries(&self) -> Seq<(K, V)> {
        self.entries@
    }

    /// The entries stand in the order of their keys.
    #[verifier::type_invariant]
    pub open spec fn wf(&self) -> bool {
        ascending(self.entries())
    }

    /// The empty map.
    pub fn new() -> (r: Self)
        ensures
            r.wf(),
            r.entries() == Seq::<(K, V)>::empty(),
            r@ == Map::<K::Key, V>::empty(),
            r.spelled() == Map::<K::Key, Seq<char>>::empty(),
    {
        let r = SortedMap { entries: Vec::new() };
        assert(r@ =~= Map::<K::Key, V>::empty()) by {
            assert forall|key: K::Key| !r@.contains_key(key) by {}
        }
        assert(r.spelled() =~= Map::<K::Key, Seq<char>>::empty()) by {
            assert forall|key: K::Key| !r.spelled().contains_key(key) by {}
        }
        r
    }

    /// The number of entries.
    pub fn len(&self) -> (r: usize)
        ensures
            self.wf(),
            r == self.entries().len(),
    {
        proof {
            use_type_invariant(self);
        }
        self.entries.len()
    }

    /// The entry at place `i`.
    pub fn at(&self, i: usize) -> (r: (&K, &V))
        requires
            i < self.entries().len(),
        ensures
            self.wf(),
            *r.0 == self.entries()[i as int].0,
            *r.1 == self.entries()[i as int].1,
    {
        proof {
            use_type_invariant(self);
        }
        let entry = &self.entries[i];
        (&entry.0, &entry.1)
    }

    /// The place of the first entry whose key does not stand before `key`, and whether it has
    /// that key.
    fn locate(&self, key: &K) -> (r: (usize, bool))
        ensures
            self.wf(),
            r.0 <= self.entries().len(),
            forall|j: int|
                0 <= j < r.0 ==> before::<K>(#[trigger] self.entries()[j].0.key(), key.key()),
            r.1 ==> holds_at(self.entries(), r.0 as int, key.key()),
            !r.1 ==> forall|j: int|
                r.0 <= j < self.entries().len() ==> before::<K>(
                    key.key(),
                    #[trigger] self.entries()[j].0.key(),
                ),
            r.1 == self@.contains_key(key.key()),
    {
        proof {
            use_type_invariant(self);
        }
        let mut low: usize = 0;
        let mut high: usize = self.entries.len();
        let ghost es = self.entries();
        while low < high
            invariant
                low <= high <= es.len(),
                es == self.entries(),
                es == self.entries@,
                ascending(es),
                forall|j: int|
                    0 <= j < low ==> before::<K>(#[trigger] es[j].0.key(), key.key()),
                forall|j: int|
                    high <= j < es.len() ==> before::<K>(key.key(), #[trigger] es[j].0.key()),
            decreases high - low,
        {
            let mid: usize = low + (high - low) / 2;
            let ghost k = es[mid as int].0.key();
            proof {
                lemma_before::<K>(k, key.key());
            }
            match self.entries[mid].0.order(key) {
                Order::Same => {
                    proof {
                        assert(holds_at(es, mid as int, key.key()));
                        lemma_lookup(es, mid as int);
                    }
                    return (mid, true);
                },
                Order::Less => {
                    assert forall|j: int| 0 <= j < mid + 1 implies before::<K>(
                        #[trigger] es[j].0.key(),
                        key.key(),
                    ) by {
                        if j < mid {
                            assert(before::<K>(es[j].0.key(), k));
                            lemma_phrase_transitive(
                                K::rank(es[j].0.key()),
                                K::rank(k),
                                K::rank(key.key()),
                            );
                        }
                    }
                    low = mid + 1;
                },
                Order::Greater => {
                    assert forall|j: int| mid <= j < es.len() implies before::<K>(
                        key.key(),
                        #[trigger] es[j].0.key(),
                    ) by {
                        if mid < j {
                            assert(before::<K>(k, es[j].0.key()));
                            lemma_phrase_transitive(
                                K::rank(key.key()),
                                K::rank(k),
                                K::rank(es[j].0.key()),
                            );
                        }
                    }
                    high = mid;
                },
            }
        }
        proof {
            lemma_before::<K>(key.key(), key.key());
            assert forall|i: int| !holds_at(es, i, key.key()) by {
                if 0 <= i < es.len() {
                    assert(before::<K>(es[i].0.key(), key.key()) || before::<K>(key.key(), es[i].0.key()));
                }
            }
        }
        (low, false)
    }

    /// Whether the map has no entry.
    pub fn is_empty(&self) -> (r: bool)
        ensures
            self.wf(),
            r == (self.entries().len() == 0),
            r == self@.dom().is_empty(),
    {
        proof {
            use_type_invariant(self);
            if self.entries().len() > 0 {
                lemma_lookup(self.entries(), 0);
                assert(self@.dom().contains(self.entries()[0].0.key()));
            } else {
                assert(self@.dom() =~= Set::<K::Key>::empty());
            }
        }
        self.entries.len() == 0
    }

    /// The value that `key` has.
    pub fn get(&self, key: &K) -> (r: Option<&V>)
        ensures
            self.wf(),
            r is Some <==> self@.contains_key(key.key()),
            r matches Some(v) ==> *v == self@[key.key()],
    {
        let (i, found): (usize, bool) = self.locate(key);
        if found {
            proof {
                lemma_lookup(self.entries(), i as int);
            }
            Some(&self.entries[i].1)
        } else {
            None
        }
    }

    /// Takes the entry of `key` out.
    pub fn remove_entry(&mut self, key: &K) -> (r: Option<(K, V)>)
        ensures
            final(self).wf(),
            r is Some <==> old(self)@.contains_key(key.key()),
            r matches Some(e) ==> e.0.key() == key.key() && e.0.written() == old(
                self,
            ).spelled()[key.key()] && e.1 == old(self)@[key.key()],
            final(self)@ == old(self)@.remove(key.key()),
            final(self).spelled() == old(self).spelled().remove(key.key()),
    {
        let (i, found): (usize, bool) = self.locate(key);
        if !found {
            proof {
                use_type_invariant(&*self);
                lemma_spelling(self.entries());
                assert(!self.spelled().dom().contains(key.key()));
            }
            assert(self@ =~= old(self)@.remove(key.key()));
            assert(self.spelled() =~= old(self).spelled().remove(key.key()));
            return None;
        }
        let mut entries: Vec<(K, V)> = Vec::new();
        std::mem::swap(&mut entries, &mut self.entries);
        let ghost es = entries@;
        let entry: (K, V) = entries.remove(i);
        proof {
            assert(es == old(self).entries());
            lemma_lookup(es, i as int);
            lemma_remove_at(es, i as int);
            lemma_spelling(es);
            lemma_remove_at(written_keys(es), i as int);
            assert(written_keys(entries@) =~= written_keys(es).remove(i as int));
        }
        self.entries = entries;
        Some(entry)
    }

    /// Gives `key` a value, and returns the one that it had.
    pub fn insert(&mut self, key: K, value: V) -> (r: Option<V>)
        ensures
            final(self).wf(),
            r is Some <==> old(self)@.contains_key(key.key()),
            r matches Some(v) ==> v == old(self)@[key.key()],
            final(self)@ == old(self)@.insert(key.key(), value),
            final(self).spelled() == spelled_with(
                old(self).spelled(),
                key.key(),
                key.written(),
            ),
    {
        let (i, found): (usize, bool) = self.locate(&key);
        let mut entries: Vec<(K, V)> = Vec::new();
        std::mem::swap(&mut entries, &mut self.entries);
        let ghost es = entries@;
        assert(es == old(self).entries());
        proof {
            lemma_spelling(es);
            assert(old(self).spelled().dom().contains(key.key()) <==> old(self)@.dom().contains(
                key.key(),
            ));
        }
        if found {
            let (kept, previous): (K, V) = entries.remove(i);
            entries.insert(i, (kept, value));
            proof {
                lemma_lookup(es, i as int);
                assert(entries@ =~= es.update(i as int, (kept, value)));
                lemma_update_at(es, i as int, value);
                assert(written_keys(entries@) =~= written_keys(es));
            }
            self.entries = entries;
            Some(previous)
        } else {
            entries.insert(i, (key, value));
            proof {
                lemma_insert_at(es, i as int, key, value);
                let keys = written_keys(es);
                assert forall|j: int| 0 <= j < keys.len() implies #[trigger] keys[j].0.key()
                    == es[j].0.key() by {}
                lemma_insert_at(keys, i as int, key, key.written());
                assert(written_keys(entries@) =~= keys.insert(i as int, (key, key.written())));
            }
            self.entries = entries;
            None
        }
    }

    /// The entries, first to last.
    pub fn into_entries(self) -> (r: Vec<(K, V)>)
        ensures
            self.wf(),
            r@ == self.entries(),
    {
        proof {
            use_type_invariant(&self);
        }
        self.entries
    }

    /// The map with every value put through `f`.
    pub fn map_values<W, F: Fn(V) -> W>(self, f: F) -> (r: SortedMap<K, W>)
        requires
            forall|v: V| #[trigger] call_requires(f, (v,)),
        ensures
            r.wf(),
            r@.dom() == self@.dom(),
            r.spelled() == self.spelled(),
            r.entries().len() == self.entries().len(),
            forall|i: int|
                0 <= i < r.entries().len() ==> (#[trigger] r.entries()[i]).0 == self.entries()[i].0,
            forall|key: K::Key| #[trigger]
                r@.contains_key(key) ==> call_ensures(f, (self@[key],), r@[key]),
    {
        proof {
            use_type_invariant(&self);
        }
        let ghost es = self.entries();
        let mut entries: Vec<(K, W)> = Vec::new();
        for entry in it: self.entries
            invariant
                it.seq() == es,
                forall|v: V| #[trigger] call_requires(f, (v,)),
                entries.len() == it.index(),
                forall|j: int|
                    0 <= j < it.index() ==> (#[trigger] entries@[j]).0 == es[j].0
                        && call_ensures(f, (es[j].1,), entries@[j].1),
        {
            let (key, value): (K, V) = entry;
            entries.push((key, f(value)));
        }
        assert forall|a: int, b: int| 0 <= a < b < entries@.len() implies before::<K>(
            #[trigger] entries@[a].0.key(),
            #[trigger] entries@[b].0.key(),
        ) by {
            assert(entries@[a].0.key() == es[a].0.key());
            assert(entries@[b].0.key() == es[b].0.key());
        }
        let r: SortedMap<K, W> = SortedMap { entries };
        proof {
            let rs = r.entries();
            assert(written_keys(rs) =~= written_keys(es));
            assert forall|key: K::Key| r@.contains_key(key) <==> self@.contains_key(key) by {
                if r@.contains_key(key) {
                    let i = choose|i: int| holds_at(rs, i, key);
                    assert(holds_at(es, i, key));
                }
                if self@.contains_key(key) {
                    let i = choose|i: int| holds_at(es, i, key);
                    assert(holds_at(rs, i, key));
                }
            }
            assert(r@.dom() =~= self@.dom());
            assert forall|key: K::Key| #[trigger] r@.contains_key(key) implies call_ensures(
                f,
                (self@[key],),
                r@[key],
            ) by {
                let i = choose|i: int| holds_at(rs, i, key);
                lemma_lookup(rs, i);
                lemma_lookup(es, i);
                assert(rs[i].0.key() == es[i].0.key());
            }
        }
        r
    }

    /// Collects entries. Where a key occurs more than once, its last entry stays.
    pub fn collect(entries: Vec<(K, V)>) -> (r: Self)
        ensures
            r.wf(),
            r@ == collected(pairs(entries@)),
            r.spelled() == collected(pairs(written_keys(entries@))),
    {
        let mut out: SortedMap<K, V> = SortedMap::new();
        let ghost es = entries@;
        let ghost ps = pairs(es);
        let ghost ws = pairs(written_keys(es));
        for entry in it: entries
            invariant
                it.seq() == es,
                ps == pairs(es),
                ws == pairs(written_keys(es)),
                out.wf(),
                out@ == collected(ps.take(it.index() as int)),
                out.spelled() == collected(ws.take(it.index() as int)),
        {
            assert(ps.take(it.index() + 1).drop_last() =~= ps.take(it.index() as int));
            assert(ws.take(it.index() + 1).drop_last() =~= ws.take(it.index() as int));
            let ghost was = out;
            let (key, value): (K, V) = entry;
            out.remove_entry(&key);
            let ghost k = key.key();
            let ghost w = key.written();
            assert(ws[it.index() as int] == (k, w));
            out.insert(key, value);
            assert(out@ =~= was@.insert(k, value));
            assert(out.spelled() =~= was.spelled().insert(k, w));
        }
        assert(ps.take(ps.len() as int) =~= ps);
        assert(ws.take(ws.len() as int) =~= ws);
        out
    }
}

impl<K: SortKey, V: Clone> Clone for SortedMap<K, V> {
    /// A map with the same keys, each with a clone of its value.
    fn clone(&self) -> (r: Self)
        ensures
            r.wf(),
            r@.dom() == self@.dom(),
            r.spelled() == self.spelled(),
            r.entries().len() == self.entries().len(),
            forall|i: int|
                0 <= i < r.entries().len() ==> (#[trigger] r.entries()[i]).0.key()
                    == self.entries()[i].0.key() && r.entries()[i].0.written()
                    == self.entries()[i].0.written(),
            forall|i: int|
                0 <= i < r.entries().len() ==> cloned(
                    self.entries()[i].1,
                    (#[trigger] r.entries()[i]).1,
                ),
    {
        proof {
            use_type_invariant(self);
        }
        let mut entries: Vec<(K, V)> = Vec::new();
        let mut i: usize = 0;
        while i < self.entries.len()
            invariant
                i <= self.entries.len(),
                entries.len() == i,
                forall|j: int|
                    0 <= j < i ==> (#[trigger] entries[j]).0.key() == self.entries()[j].0.key()
                        && entries[j].0.written() == self.entries()[j].0.written(),
                forall|j: int|
                    0 <= j < i ==> cloned(self.entries()[j].1, (#[trigger] entries[j]).1),
            decreases self.entries.len() - i,
        {
            let entry: &(K, V) = &self.entries[i];
            entries.push((entry.0.copy(), entry.1.clone()));
            i = i + 1;
        }
        assert forall|a: int, b: int| 0 <= a < b < entries@.len() implies before::<K>(
            #[trigger] entries@[a].0.key(),
            #[trigger] entries@[b].0.key(),
        ) by {
            assert(entries@[a].0.key() == self.entries()[a].0.key());
            assert(entries@[b].0.key() == self.entries()[b].0.key());
        }
        let r: SortedMap<K, V> = SortedMap { entries };
        proof {
            let es = self.entries();
            lemma_spelling(es);
            lemma_spelling(r.entries());
            assert forall|key: K::Key| r@.contains_key(key) <==> self@.contains_key(key) by {
                if r@.contains_key(key) {
                    let i = choose|i: int| holds_at(r.entries(), i, key);
                    assert(holds_at(es, i, key));
                }
                if self@.contains_key(key) {
                    let i = choose|i: int| holds_at(es, i, key);
                    assert(holds_at(r.entries(), i, key));
                }
            }
            assert(r@.dom() =~= self@.dom());
            assert forall|key: K::Key| r.spelled().contains_key(key) implies r.spelled()[key]
                == self.spelled()[key] by {
                assert(r.spelled().dom().contains(key));
                let i = choose|i: int| holds_at(r.entries(), i, key);
                assert(r.entries()[i].0.written() == es[i].0.written());
            }
            assert(r.spelled() =~= self.spelled());
        }
        r
    }
}

/// What the entries hold: the keys, each with its value.
pub open spec fn pairs<K: SortKey, V>(entries: Seq<(K, V)>) -> Seq<(K::Key, V)> {
    entries.map_values(|e: (K, V)| (e.0.key(), e.1))
}

/// The map that holds the last value of each key.
pub open spec fn collected<A, V>(pairs: Seq<(A, V)>) -> Map<A, V>
    decreases pairs.len(),
{
    if pairs.len() == 0 {
        Map::empty()
    } else {
        collected(pairs.drop_last()).insert(pairs.last().0, pairs.last().1)
    }
}

/// The keys of a collected map are those of the pairs, and each has the value of the last pair with
/// that key.
pub proof fn lemma_collected<A, V>(pairs: Seq<(A, V)>)
    ensures
        forall|i: int|
            0 <= i < pairs.len() ==> collected(pairs).contains_key((#[trigger] pairs[i]).0),
        forall|key: A| #[trigger]
            collected(pairs).contains_key(key) ==> exists|i: int|
                #![trigger pairs[i]]
                0 <= i < pairs.len() && pairs[i] == (key, collected(pairs)[key]) && (forall|j: int|
                    i < j < pairs.len() ==> (#[trigger] pairs[j]).0 != key),
    decreases pairs.len(),
{
    if pairs.len() > 0 {
        let front = pairs.drop_last();
        lemma_collected(front);
        let all = collected(pairs);
        let last = pairs.len() - 1;
        assert forall|i: int| 0 <= i < pairs.len() implies all.contains_key(
            (#[trigger] pairs[i]).0,
        ) by {
            if i < last {
                assert(front[i] == pairs[i]);
            }
        }
        assert forall|key: A| #[trigger] all.contains_key(key) implies exists|i: int|
            #![trigger pairs[i]]
            0 <= i < pairs.len() && pairs[i] == (key, all[key]) && (forall|j: int|
                i < j < pairs.len() ==> (#[trigger] pairs[j]).0 != key) by {
            if key == pairs[last].0 {
                assert(pairs[last] == (key, all[key]));
            } else {
                assert(collected(front).contains_key(key));
                let i = choose|i: int|
                    #![trigger front[i]]
                    0 <= i < front.len() && front[i] == (key, collected(front)[key]) && (forall|
                        j: int,
                    |
                        i < j < front.len() ==> (#[trigger] front[j]).0 != key);
                assert(pairs[i] == front[i]);
                assert forall|j: int| i < j < pairs.len() implies (#[trigger] pairs[j]).0 != key by {
                    if j < last {
                        assert(front[j] == pairs[j]);
                    }
                }
            }
        }
    }
}

/// A map is what its own entries collect to.
pub proof fn lemma_collected_entries<K: SortKey, V>(entries: Seq<(K, V)>)
    requires
        ascending(entries),
    ensures
        collected(pairs(entries)) == to_map(entries),
{
    let ps = pairs(entries);
    lemma_collected(ps);
    assert forall|key: K::Key| to_map(entries).contains_key(key) implies collected(ps).contains_key(
        key,
    ) by {
        let i = choose|i: int| holds_at(entries, i, key);
        assert(ps[i].0 == key);
    }
    assert forall|key: K::Key| #[trigger] collected(ps).contains_key(key) implies to_map(
        entries,
    ).contains_key(key) && to_map(entries)[key] == collected(ps)[key] by {
        let i = choose|i: int|
            #![trigger ps[i]]
            0 <= i < ps.len() && ps[i] == (key, collected(ps)[key]) && (forall|j: int|
                i < j < ps.len() ==> (#[trigger] ps[j]).0 != key);
        lemma_lookup(entries, i);
    }
    assert(collected(ps) =~= to_map(entries));
}

proof fn lemma_remove_at<K: SortKey, V>(entries: Seq<(K, V)>, i: int)
    requires
        ascending(entries),
        0 <= i < entries.len(),
    ensures
        ascending(entries.remove(i)),
        to_map(entries.remove(i)) == to_map(entries).remove(entries[i].0.key()),
{
    let rest = entries.remove(i);
    let key = entries[i].0.key();
    assert forall|a: int, b: int| 0 <= a < b < rest.len() implies before::<K>(
        #[trigger] rest[a].0.key(),
        #[trigger] rest[b].0.key(),
    ) by {
        let x = if a < i { a } else { a + 1 };
        let y = if b < i { b } else { b + 1 };
        assert(before::<K>(entries[x].0.key(), entries[y].0.key()));
    }
    let after = to_map(entries).remove(key);
    assert forall|k: K::Key| to_map(rest).contains_key(k) <==> after.contains_key(k) by {
        if to_map(rest).contains_key(k) {
            let a = choose|a: int| holds_at(rest, a, k);
            let x = if a < i { a } else { a + 1 };
            assert(holds_at(entries, x, k));
            lemma_before::<K>(key, key);
            assert(before::<K>(entries[x].0.key(), key) || before::<K>(key, entries[x].0.key()));
        }
        if after.contains_key(k) {
            let x = choose|x: int| holds_at(entries, x, k);
            let a = if x < i { x } else { x - 1 };
            assert(holds_at(rest, a, k));
        }
    }
    assert forall|k: K::Key| to_map(rest).contains_key(k) implies to_map(rest)[k] == after[k] by {
        let a = choose|a: int| holds_at(rest, a, k);
        let x = if a < i { a } else { a + 1 };
        lemma_before::<K>(key, key);
        assert(before::<K>(entries[x].0.key(), key) || before::<K>(key, entries[x].0.key()));
        lemma_lookup(rest, a);
        lemma_lookup(entries, x);
        assert(rest[a] == entries[x]);
    }
    assert(to_map(rest) =~= after);
}

proof fn lemma_update_at<K: SortKey, V>(entries: Seq<(K, V)>, i: int, value: V)
    requires
        ascending(entries),
        0 <= i < entries.len(),
    ensures
        ascending(entries.update(i, (entries[i].0, value))),
        to_map(entries.update(i, (entries[i].0, value))) == to_map(entries).insert(
            entries[i].0.key(),
            value,
        ),
{
    let next = entries.update(i, (entries[i].0, value));
    let key = entries[i].0.key();
    assert forall|a: int, b: int| 0 <= a < b < next.len() implies before::<K>(
        #[trigger] next[a].0.key(),
        #[trigger] next[b].0.key(),
    ) by {
        assert(before::<K>(entries[a].0.key(), entries[b].0.key()));
    }
    let after = to_map(entries).insert(key, value);
    assert forall|k: K::Key| to_map(next).contains_key(k) <==> after.contains_key(k) by {
        if to_map(next).contains_key(k) {
            let a = choose|a: int| holds_at(next, a, k);
            assert(holds_at(entries, a, k));
        }
        if after.contains_key(k) {
            if k == key {
                assert(holds_at(next, i, k));
            } else {
                let x = choose|x: int| holds_at(entries, x, k);
                assert(holds_at(next, x, k));
            }
        }
    }
    assert forall|k: K::Key| to_map(next).contains_key(k) implies to_map(next)[k] == after[k] by {
        let a = choose|a: int| holds_at(next, a, k);
        lemma_lookup(next, a);
        lemma_lookup(next, i);
        lemma_lookup(entries, a);
    }
    assert(to_map(next) =~= after);
}

proof fn lemma_insert_at<K: SortKey, V>(entries: Seq<(K, V)>, i: int, key: K, value: V)
    requires
        ascending(entries),
        0 <= i <= entries.len(),
        forall|j: int| 0 <= j < i ==> before::<K>(#[trigger] entries[j].0.key(), key.key()),
        forall|j: int|
            i <= j < entries.len() ==> before::<K>(key.key(), #[trigger] entries[j].0.key()),
    ensures
        ascending(entries.insert(i, (key, value))),
        to_map(entries.insert(i, (key, value))) == to_map(entries).insert(key.key(), value),
{
    let next = entries.insert(i, (key, value));
    assert forall|a: int, b: int| 0 <= a < b < next.len() implies before::<K>(
        #[trigger] next[a].0.key(),
        #[trigger] next[b].0.key(),
    ) by {
        if a != i && b != i {
            let x = if a < i { a } else { a - 1 };
            let y = if b < i { b } else { b - 1 };
            assert(before::<K>(entries[x].0.key(), entries[y].0.key()));
        } else if a == i {
            assert(before::<K>(key.key(), entries[b - 1].0.key()));
        } else {
            assert(before::<K>(entries[a].0.key(), key.key()));
        }
    }
    let after = to_map(entries).insert(key.key(), value);
    assert forall|k: K::Key| to_map(next).contains_key(k) <==> after.contains_key(k) by {
        if to_map(next).contains_key(k) && k != key.key() {
            let a = choose|a: int| holds_at(next, a, k);
            let x = if a < i { a } else { a - 1 };
            assert(holds_at(entries, x, k));
        }
        if after.contains_key(k) {
            if k == key.key() {
                assert(holds_at(next, i, k));
            } else {
                let x = choose|x: int| holds_at(entries, x, k);
                let a = if x < i { x } else { x + 1 };
                assert(holds_at(next, a, k));
            }
        }
    }
    assert forall|k: K::Key| to_map(next).contains_key(k) implies to_map(next)[k] == after[k] by {
        let a = choose|a: int| holds_at(next, a, k);
        lemma_lookup(next, a);
        lemma_lookup(next, i);
        if k != key.key() {
            let x = if a < i { a } else { a - 1 };
            lemma_lookup(entries, x);
        }
    }
    assert(to_map(next) =~= after);
}

/// Whether the keys of the pairs ascend.
pub open spec fn ascending_pairs<K: SortKey, W>(pairs: Seq<(K::Key, W)>) -> bool {
    forall|i: int, j: int|
        0 <= i < j < pairs.len() ==> before::<K>(
            (#[trigger] pairs[i]).0,
            (#[trigger] pairs[j]).0,
        )
}

/// In ascending pairs no key stands among those before it.
pub proof fn lemma_fresh_key<K: SortKey, W>(ps: Seq<(K::Key, W)>, i: int)
    requires
        ascending_pairs::<K, W>(ps),
        0 <= i < ps.len(),
    ensures
        !collected(ps.take(i)).contains_key(ps[i].0),
{
    let front = ps.take(i);
    let key = ps[i].0;
    lemma_collected(front);
    if collected(front).contains_key(key) {
        let k = choose|k: int|
            #![trigger front[k]]
            0 <= k < front.len() && front[k] == (key, collected(front)[key]) && (forall|j: int|
                k < j < front.len() ==> (#[trigger] front[j]).0 != key);
        lemma_before::<K>(key, key);
        assert(before::<K>(ps[k].0, ps[i].0));
    }
}

/// The pairs of ascending entries ascend.
pub proof fn lemma_ascending_pairs<K: SortKey, V>(entries: Seq<(K, V)>)
    requires
        ascending(entries),
    ensures
        ascending_pairs::<K, V>(pairs(entries)),
{
    let ps = pairs(entries);
    assert forall|i: int, j: int| 0 <= i < j < ps.len() implies before::<K>(
        (#[trigger] ps[i]).0,
        (#[trigger] ps[j]).0,
    ) by {
        assert(before::<K>(entries[i].0.key(), entries[j].0.key()));
    }
}

proof fn lemma_ascending_front<K: SortKey, W>(ps: Seq<(K::Key, W)>)
    requires
        ascending_pairs::<K, W>(ps),
        ps.len() > 0,
    ensures
        ascending_pairs::<K, W>(ps.drop_last()),
        collected(ps.drop_last()) == collected(ps).remove(ps.last().0),
{
    let front = ps.drop_last();
    let key = ps.last().0;
    assert forall|i: int, j: int| 0 <= i < j < front.len() implies before::<K>(
        (#[trigger] front[i]).0,
        (#[trigger] front[j]).0,
    ) by {
        assert(front[i] == ps[i] && front[j] == ps[j]);
    }
    lemma_collected(front);
    if collected(front).contains_key(key) {
        let i = choose|i: int|
            #![trigger front[i]]
            0 <= i < front.len() && front[i] == (key, collected(front)[key]) && (forall|j: int|
                i < j < front.len() ==> (#[trigger] front[j]).0 != key);
        lemma_before::<K>(key, key);
        assert(before::<K>(ps[i].0, ps[ps.len() - 1].0));
    }
    assert(collected(front) =~= collected(ps).remove(key));
}

proof fn lemma_last_is_greatest<K: SortKey, W>(ps: Seq<(K::Key, W)>, key: K::Key)
    requires
        ascending_pairs::<K, W>(ps),
        collected(ps).contains_key(key),
    ensures
        ps.len() > 0,
        key == ps.last().0 || before::<K>(key, ps.last().0),
{
    lemma_collected(ps);
    let i = choose|i: int|
        #![trigger ps[i]]
        0 <= i < ps.len() && ps[i] == (key, collected(ps)[key]) && (forall|j: int|
            i < j < ps.len() ==> (#[trigger] ps[j]).0 != key);
    if i < ps.len() - 1 {
        assert(before::<K>(ps[i].0, ps[ps.len() - 1].0));
    }
}

/// Pairs in ascending order are determined by the map that they make.
pub proof fn lemma_ascending_unique<K: SortKey, W>(a: Seq<(K::Key, W)>, b: Seq<(K::Key, W)>)
    requires
        ascending_pairs::<K, W>(a),
        ascending_pairs::<K, W>(b),
        collected(a) == collected(b),
    ensures
        a == b,
    decreases a.len(),
{
    lemma_collected(a);
    lemma_collected(b);
    if a.len() == 0 {
        if b.len() > 0 {
            assert(collected(b).contains_key(b[0].0));
        }
        assert(a =~= b);
    } else {
        let m = collected(a);
        let x = a[a.len() - 1];
        assert(m.contains_key(x.0));
        lemma_last_is_greatest::<K, W>(b, x.0);
        let y = b[b.len() - 1];
        assert(m.contains_key(y.0));
        lemma_last_is_greatest::<K, W>(a, y.0);
        lemma_before::<K>(x.0, y.0);
        assert(x.0 == y.0);
        assert(m[x.0] == x.1 && m[y.0] == y.1);
        lemma_ascending_front::<K, W>(a);
        lemma_ascending_front::<K, W>(b);
        lemma_ascending_unique::<K, W>(a.drop_last(), b.drop_last());
        assert(a =~= a.drop_last().push(x));
        assert(b =~= b.drop_last().push(y));
    }
}

} // verus!
