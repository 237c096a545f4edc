//! A small keyed table that keeps each key once, in insertion order.

use vstd::prelude::*;
use crate::key::PhonemeKey;

verus! {

/// The entries of a table, keys taken by their views.
pub open spec fn view_entries<K: DeepView, V>(s: Seq<(K, V)>) -> Seq<(K::V, V)> {
    s.map_values(|e: (K, V)| (e.0.deep_view(), e.1))
}

/// A table from keys to values in which no key occurs twice.
///
/// Keys are kept in the order in which they were first inserted.
#[derive(Debug, Clone)]
pub struct KeyedTable<K, V> {
    entries: Vec<(K, V)>,
}

impl<K: PhonemeKey, V> KeyedTable<K, V> {
    /// The entries of the table, in insertion order.
    pub closed spec fn items(&self) -> Seq<(K::V, V)> {
        view_entries(self.entries@)
    }

    /// No key occurs twice.
    pub open spec fn wf(&self) -> bool {
        forall|i: int, j: int|
            0 <= i < self.items().len() && 0 <= j < self.items().len() && i != j
                ==> #[trigger] self.items()[i].0 != #[trigger] self.items()[j].0
    }

    /// Whether the table holds a value for `k`.
    pub open spec fn has_key(&self, k: K::V) -> bool {
        exists|i: int| 0 <= i < self.items().len() && #[trigger] self.items()[i].0 == k
    }

    /// The position of `k` in the table (meaningful when `has_key(k)`).
    pub open spec fn index_of(&self, k: K::V) -> int {
        choose|i: int| 0 <= i < self.items().len() && #[trigger] self.items()[i].0 == k
    }

    /// The table as a mathematical map from key views to values.
    pub open spec fn map(&self) -> Map<K::V, V> {
        Map::new(|k: K::V| self.has_key(k), |k: K::V| self.items()[self.index_of(k)].1)
    }

    /// The keys, in insertion order.
    pub open spec fn key_seq(&self) -> Seq<K::V> {
        self.items().map_values(|e: (K::V, V)| e.0)
    }

    /// An empty table.
    pub fn new() -> (t: Self)
        ensures
            t.wf(),
            t.items().len() == 0,
            t.map() == Map::<K::V, V>::empty(),
    {
        let t = KeyedTable { entries: Vec::new() };
        assert(t.items() =~= Seq::<(K::V, V)>::empty());
        assert(t.map() =~= Map::<K::V, V>::empty());
        t
    }

    /// Number of keys in the table.
    pub fn len(&self) -> (n: usize)
        ensures
            n == self.items().len(),
    {
        self.entries.len()
    }

    /// Whether the table is empty.
    pub fn is_empty(&self) -> (b: bool)
        ensures
            b == (self.items().len() == 0),
    {
        self.entries.len() == 0
    }

    /// The position of `key`, if present.
    fn find(&self, key: &K) -> (r: Option<usize>)
        requires
            self.wf(),
        ensures
            match r {
                Some(i) => i < self.items().len() && self.items()[i as int].0 == key.deep_view()
                    && self.index_of(key.deep_view()) == i,
                None => !self.has_key(key.deep_view()),
            },
    {
        let n = self.entries.len();
        let mut i: usize = 0;
        while i < n
            invariant
                n == self.items().len(),
                self.wf(),
                0 <= i <= n,
                forall|j: int| 0 <= j < i ==> self.items()[j].0 != key.deep_view(),
            decreases n - i,
        {
            assert(self.items()[i as int].0 == self.entries@[i as int].0.deep_view());
            if self.entries[i].0.key_eq(key) {
                let ghost k = key.deep_view();
                assert(self.has_key(k));
                let ghost c = self.index_of(k);
                assert(self.items()[c].0 == k);
                assert(c == i as int);
                return Some(i);
            }
            i = i + 1;
        }
        None
    }

    /// A copy of the table.
    pub fn copied(&self) -> (t: Self)
        where V: Copy
        ensures
            t.items() == self.items(),
    {
        let mut entries: Vec<(K, V)> = Vec::new();
        let n = self.entries.len();
        let mut i: usize = 0;
        while i < n
            invariant
                n == self.entries@.len(),
                0 <= i <= n,
                view_entries(entries@) == self.items().take(i as int),
            decreases n - i,
        {
            let k = self.entries[i].0.key_clone();
            let v = self.entries[i].1;
            let ghost before = entries@;
            entries.push((k, v));
            assert(entries@ == before.push((k, v)));
            assert(view_entries(entries@) =~= view_entries(before).push((k.deep_view(), v)));
            assert(self.items()[i as int] == (self.entries@[i as int].0.deep_view(), self.entries@[i as int].1));
            assert(view_entries(entries@) =~= self.items().take(i + 1));
            i = i + 1;
        }
        assert(self.items().take(n as int) =~= self.items());
        KeyedTable { entries }
    }

    /// The entries of the table, in insertion order.
    pub fn into_entries(self) -> (r: Vec<(K, V)>)
        ensures
            view_entries(r@) == self.items(),
    {
        self.entries
    }

    /// Whether `key` has a value.
    pub fn contains_key(&self, key: &K) -> (b: bool)
        requires
            self.wf(),
        ensures
            b == self.map().contains_key(key.deep_view()),
    {
        self.find(key).is_some()
    }

    /// The value stored for `key`, if any.
    pub fn get(&self, key: &K) -> (r: Option<&V>)
        requires
            self.wf(),
        ensures
            r.is_some() == self.map().contains_key(key.deep_view()),
            r matches Some(v) ==> *v == self.map()[key.deep_view()],
    {
        match self.find(key) {
            Some(i) => Some(&self.entries[i].1),
            None => None,
        }
    }

    /// Store `value` for `key`, replacing any value stored before.
    pub fn insert(&mut self, key: K, value: V)
        requires
            old(self).wf(),
        ensures
            final(self).wf(),
            final(self).map() == old(self).map().insert(key.deep_view(), value),
            old(self).has_key(key.deep_view()) ==> final(self).key_seq() == old(self).key_seq(),
            !old(self).has_key(key.deep_view()) ==> final(self).key_seq() == old(self).key_seq().push(key.deep_view()),
    {
        let ghost k = key.deep_view();
        let ghost old_t = *self;
        match self.find(&key) {
            Some(i) => {
                self.entries.set(i, (key, value));
                assert forall|j: int| 0 <= j < self.items().len() implies
                    #[trigger] self.items()[j].0 == old_t.items()[j].0 by {}
                assert(self.wf());
                assert forall|k2: K::V| #[trigger] self.has_key(k2) == old_t.has_key(k2) by {
                    if old_t.has_key(k2) {
                        let j = old_t.index_of(k2);
                        assert(self.items()[j].0 == k2);
                    }
                    if self.has_key(k2) {
                        let j = self.index_of(k2);
                        assert(old_t.items()[j].0 == k2);
                    }
                }
                assert forall|k2: K::V| self.has_key(k2) && k2 != k implies
                    #[trigger] self.index_of(k2) == old_t.index_of(k2) by {
                    let a = self.index_of(k2);
                    let b = old_t.index_of(k2);
                    assert(old_t.items()[a].0 == k2);
                }
                assert(self.items()[i as int].0 == k);
                assert(self.has_key(k));
                let ghost c = self.index_of(k);
                assert(self.items()[c].0 == k);
                assert(c == i as int);
                assert(self.map() =~= old_t.map().insert(k, value));
                assert(self.key_seq() =~= old_t.key_seq());
            },
            None => {
                self.entries.push((key, value));
                let ghost n = old_t.items().len();
                assert forall|j: int| 0 <= j < n implies
                    #[trigger] self.items()[j].0 == old_t.items()[j].0 by {}
                assert(self.items()[n as int].0 == k);
                assert(self.wf());
                assert forall|k2: K::V| #[trigger] self.has_key(k2) == (old_t.has_key(k2) || k2 == k) by {
                    if old_t.has_key(k2) {
                        let j = old_t.index_of(k2);
                        assert(self.items()[j].0 == k2);
                    }
                    if k2 == k {
                        assert(self.items()[n as int].0 == k2);
                    }
                }
                assert forall|k2: K::V| old_t.has_key(k2) implies
                    #[trigger] self.index_of(k2) == old_t.index_of(k2) by {
                    let b = old_t.index_of(k2);
                    assert(old_t.items()[b].0 == k2);
                    assert(self.items()[b].0 == k2);
                    assert(self.has_key(k2));
                    let a = self.index_of(k2);
                    assert(self.items()[a].0 == k2);
                    if a == n {
                        assert(old_t.has_key(k));
                    }
                    assert(old_t.items()[a].0 == k2);
                }
                assert(self.items()[n as int].0 == k);
                assert(self.index_of(k) == n as int);
                assert(self.map() =~= old_t.map().insert(k, value));
                assert(self.key_seq() =~= old_t.key_seq().push(k));
            },
        }
    }
}

} // verus!
