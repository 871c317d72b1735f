//! A map for keys that are compared by what they say: numbers, strings, and pairs of a topic
//! and a partition.

use vstd::prelude::*;

verus! {

/// A key that can tell whether another one says the same.
pub trait MapKey: DeepView + Sized {
    fn same_key(&self, other: &Self) -> (r: bool)
        ensures
            r <==> self.deep_view() == other.deep_view(),
    ;
}

impl MapKey for String {
    fn same_key(&self, other: &Self) -> (r: bool) {
        *self == *other
    }
}

impl MapKey for u32 {
    fn same_key(&self, other: &Self) -> (r: bool) {
        *self == *other
    }
}

impl MapKey for (String, i32) {
    fn same_key(&self, other: &Self) -> (r: bool) {
        self.0 == other.0 && self.1 == other.1
    }
}

/// A map in which every key occurs once, in the order of its first insertion.
pub struct KeyedMap<K: MapKey, V: DeepView> {
    entries: Vec<(K, V)>,
}

/// Whether one of the entries has the key.
spec fn has_key<K: MapKey, V: DeepView>(entries: Seq<(K, V)>, key: K::V) -> bool {
    exists|i: int| 0 <= i < entries.len() && #[trigger] entries[i].0.deep_view() == key
}

/// The position of the key among the entries.
spec fn index_of_key<K: MapKey, V: DeepView>(entries: Seq<(K, V)>, key: K::V) -> int {
    choose|i: int| 0 <= i < entries.len() && #[trigger] entries[i].0.deep_view() == key
}

/// Whether no two entries have the same key.
spec fn keys_distinct<K: MapKey, V: DeepView>(entries: Seq<(K, V)>) -> bool {
    forall|i: int, j: int|
        0 <= i < j < entries.len() ==> #[trigger] entries[i].0.deep_view()
            != #[trigger] entries[j].0.deep_view()
}

spec fn map_of<K: MapKey, V: DeepView>(entries: Seq<(K, V)>) -> Map<K::V, V::V> {
    Map::new(
        |key: K::V| has_key(entries, key),
        |key: K::V| entries[index_of_key(entries, key)].1.deep_view(),
    )
}

impl<K: MapKey, V: DeepView> View for KeyedMap<K, V> {
    type V = Map<<K as DeepView>::V, <V as DeepView>::V>;

    closed spec fn view(&self) -> Map<<K as DeepView>::V, <V as DeepView>::V> {
        map_of(self.entries@)
    }
}

impl<K: MapKey, V: DeepView> DeepView for KeyedMap<K, V> {
    type V = Map<<K as DeepView>::V, <V as DeepView>::V>;

    open spec fn deep_view(&self) -> Map<<K as DeepView>::V, <V as DeepView>::V> {
        self@
    }
}

/// The entry at a position is what the map gives for its key.
proof fn lemma_entry<K: MapKey, V: DeepView>(entries: Seq<(K, V)>, i: int)
    requires
        keys_distinct(entries),
        0 <= i < entries.len(),
    ensures
        has_key(entries, entries[i].0.deep_view()),
        index_of_key(entries, entries[i].0.deep_view()) == i,
{
    assert(entries[i].0.deep_view() == entries[i].0.deep_view());
}

impl<K: MapKey, V: DeepView> KeyedMap<K, V> {
    #[verifier::type_invariant]
    spec fn well_formed(self) -> bool {
        keys_distinct(self.entries@)
    }

    /// The keys, in the order of their first insertion.
    pub closed spec fn keys(&self) -> Seq<<K as DeepView>::V> {
        Seq::new(self.entries@.len(), |i: int| self.entries@[i].0.deep_view())
    }

    pub fn new() -> (map: Self)
        ensures
            map@ == Map::<<K as DeepView>::V, <V as DeepView>::V>::empty(),
            map.keys() == Seq::<<K as DeepView>::V>::empty(),
    {
        let map = KeyedMap { entries: Vec::new() };
        assert(map@ =~= Map::<<K as DeepView>::V, <V as DeepView>::V>::empty());
        map
    }

    /// The number of keys.
    pub fn size(&self) -> (n: usize)
        ensures
            n == self.keys().len(),
            self.keys().no_duplicates(),
            forall|key: <K as DeepView>::V|
                #[trigger] self@.contains_key(key) <==> self.keys().contains(key),
    {
        proof {
            use_type_invariant(self);
            let entries = self.entries@;
            assert forall|key: <K as DeepView>::V|
                #[trigger] self@.contains_key(key) <==> self.keys().contains(key) by {
                if has_key(entries, key) {
                    let i = index_of_key(entries, key);
                    assert(self.keys()[i] == key);
                }
                if self.keys().contains(key) {
                    let i = choose|i: int| 0 <= i < self.keys().len() && self.keys()[i] == key;
                    assert(entries[i].0.deep_view() == key);
                }
            }
        }
        self.entries.len()
    }

    pub fn is_empty(&self) -> (r: bool)
        ensures
            r <==> self@ == Map::<<K as DeepView>::V, <V as DeepView>::V>::empty(),
    {
        proof {
            let entries = self.entries@;
            if entries.len() == 0 {
                assert(self@ =~= Map::<<K as DeepView>::V, <V as DeepView>::V>::empty());
            } else {
                assert(has_key(entries, entries[0].0.deep_view()));
                assert(self@.contains_key(entries[0].0.deep_view()));
            }
        }
        self.entries.len() == 0
    }

    /// The key at a position.
    pub fn key_at(&self, i: usize) -> (key: &K)
        requires
            i < self.keys().len(),
        ensures
            key.deep_view() == self.keys()[i as int],
    {
        &self.entries[i].0
    }

    /// The value of the key at a position.
    pub fn value_at(&self, i: usize) -> (value: &V)
        requires
            i < self.keys().len(),
        ensures
            self@.contains_key(self.keys()[i as int]),
            value.deep_view() == self@[self.keys()[i as int]],
    {
        proof {
            use_type_invariant(self);
            lemma_entry(self.entries@, i as int);
        }
        &self.entries[i].1
    }

    fn position(&self, key: &K) -> (r: Option<usize>)
        ensures
            r is Some <==> self@.contains_key(key.deep_view()),
            r matches Some(i) ==> i < self.entries@.len() && self.entries@[i as int].0.deep_view()
                == key.deep_view() && self.entries@[i as int].1.deep_view()
                == self@[key.deep_view()],
    {
        proof {
            use_type_invariant(self);
        }
        let mut i: usize = 0;
        while i < self.entries.len()
            invariant
                i <= self.entries@.len(),
                keys_distinct(self.entries@),
                forall|j: int|
                    0 <= j < i ==> #[trigger] self.entries@[j].0.deep_view() != key.deep_view(),
            decreases self.entries@.len() - i,
        {
            if self.entries[i].0.same_key(key) {
                proof {
                    lemma_entry(self.entries@, i as int);
                }
                return Some(i);
            }
            i += 1;
        }
        None
    }

    pub fn contains_key(&self, key: &K) -> (r: bool)
        ensures
            r <==> self@.contains_key(key.deep_view()),
    {
        self.position(key).is_some()
    }

    pub fn get(&self, key: &K) -> (r: Option<&V>)
        ensures
            r is Some <==> self@.contains_key(key.deep_view()),
            r matches Some(v) ==> v.deep_view() == self@[key.deep_view()],
    {
        match self.position(key) {
            Some(i) => Some(&self.entries[i].1),
            None => None,
        }
    }

    /// Removes the key, and hands out its value.
    pub fn remove(&mut self, key: &K) -> (r: Option<V>)
        ensures
            final(self)@ == old(self)@.remove(key.deep_view()),
            r is Some <==> old(self)@.contains_key(key.deep_view()),
            r matches Some(v) ==> v.deep_view() == old(self)@[key.deep_view()],
    {
        proof {
            use_type_invariant(&*self);
        }
        match self.position(key) {
            None => {
                assert(self@ =~= old(self)@.remove(key.deep_view()));
                None
            },
            Some(i) => {
                let mut entries: Vec<(K, V)> = Vec::new();
                std::mem::swap(&mut entries, &mut self.entries);
                let ghost before = entries@;
                let (_, value) = entries.remove(i);
                proof {
                    lemma_removed(before, i as int);
                }
                self.entries = entries;
                Some(value)
            },
        }
    }

    /// Removes the last key, and hands it out with its value.
    pub fn pop(&mut self) -> (r: Option<(K, V)>)
        ensures
            r is None <==> old(self).keys().len() == 0,
            r is None ==> final(self)@ == Map::<<K as DeepView>::V, <V as DeepView>::V>::empty(),
            r is None ==> final(self)@ == old(self)@ && final(self).keys() == old(self).keys(),
            r matches Some(e) ==> e.0.deep_view() == old(self).keys().last() && old(
                self,
            )@.contains_key(e.0.deep_view()) && e.1.deep_view() == old(self)@[e.0.deep_view()]
                && final(self)@ == old(self)@.remove(e.0.deep_view()) && final(self).keys() == old(
                self,
            ).keys().drop_last(),
    {
        proof {
            use_type_invariant(&*self);
        }
        let mut entries: Vec<(K, V)> = Vec::new();
        std::mem::swap(&mut entries, &mut self.entries);
        let ghost before = entries@;
        let last = entries.pop();
        proof {
            if before.len() > 0 {
                let i = before.len() - 1;
                assert(before.remove(i) =~= before.drop_last());
                lemma_removed(before, i);
                lemma_entry(before, i);
            }
        }
        self.entries = entries;
        proof {
            if before.len() > 0 {
                assert(self.keys() =~= old(self).keys().drop_last());
            } else {
                assert(self@ =~= Map::<<K as DeepView>::V, <V as DeepView>::V>::empty());
            }
        }
        last
    }

    /// Gives the key a value, in place of the one that it had.
    pub fn insert(&mut self, key: K, value: V)
        ensures
            final(self)@ == old(self)@.insert(key.deep_view(), value.deep_view()),
    {
        proof {
            use_type_invariant(&*self);
        }
        let at = self.position(&key);
        let mut entries: Vec<(K, V)> = Vec::new();
        std::mem::swap(&mut entries, &mut self.entries);
        let ghost before = entries@;
        match at {
            Some(i) => {
                entries.set(i, (key, value));
                proof {
                    lemma_replaced(before, i as int, (key, value));
                }
            },
            None => {
                entries.push((key, value));
                proof {
                    lemma_pushed(before, (key, value));
                }
            },
        }
        self.entries = entries;
    }
}

proof fn lemma_removed<K: MapKey, V: DeepView>(before: Seq<(K, V)>, i: int)
    requires
        keys_distinct(before),
        0 <= i < before.len(),
    ensures
        keys_distinct(before.remove(i)),
        map_of(before.remove(i)) == map_of(before).remove(before[i].0.deep_view()),
{
    let after = before.remove(i);
    let key = before[i].0.deep_view();
    assert forall|a: int, b: int| 0 <= a < b < after.len() implies #[trigger] after[a].0.deep_view()
        != #[trigger] after[b].0.deep_view() by {
        let x = if a < i { a } else { a + 1 };
        let y = if b < i { b } else { b + 1 };
        assert(before[x].0.deep_view() != before[y].0.deep_view());
    }
    assert forall|k: K::V| has_key(after, k) <==> has_key(before, k) && k != key by {
        if has_key(after, k) {
            let a = index_of_key(after, k);
            let x = if a < i { a } else { a + 1 };
            assert(before[x].0.deep_view() == k);
            lemma_entry(before, x);
            lemma_entry(before, i);
        }
        if has_key(before, k) && k != key {
            let x = index_of_key(before, k);
            let a = if x < i { x } else { x - 1 };
            assert(after[a].0.deep_view() == k);
        }
    }
    assert forall|k: K::V| has_key(after, k) implies after[index_of_key(after, k)].1.deep_view()
        == before[index_of_key(before, k)].1.deep_view() by {
        let a = index_of_key(after, k);
        let x = if a < i { a } else { a + 1 };
        lemma_entry(before, x);
    }
    assert(map_of(after) =~= map_of(before).remove(key));
}

proof fn lemma_replaced<K: MapKey, V: DeepView>(before: Seq<(K, V)>, i: int, entry: (K, V))
    requires
        keys_distinct(before),
        0 <= i < before.len(),
        before[i].0.deep_view() == entry.0.deep_view(),
    ensures
        keys_distinct(before.update(i, entry)),
        map_of(before.update(i, entry)) == map_of(before).insert(
            entry.0.deep_view(),
            entry.1.deep_view(),
        ),
{
    let after = before.update(i, entry);
    assert forall|a: int, b: int| 0 <= a < b < after.len() implies #[trigger] after[a].0.deep_view()
        != #[trigger] after[b].0.deep_view() by {
        assert(before[a].0.deep_view() != before[b].0.deep_view());
    }
    assert forall|k: K::V| has_key(after, k) <==> has_key(before, k) by {
        if has_key(after, k) {
            assert(before[index_of_key(after, k)].0.deep_view() == k);
        }
        if has_key(before, k) {
            assert(after[index_of_key(before, k)].0.deep_view() == k);
        }
    }
    lemma_entry(after, i);
    lemma_entry(before, i);
    assert forall|k: K::V| has_key(after, k) implies index_of_key(after, k) == index_of_key(
        before,
        k,
    ) by {
        let a = index_of_key(after, k);
        assert(before[a].0.deep_view() == k);
        lemma_entry(before, a);
    }
    assert(map_of(after) =~= map_of(before).insert(entry.0.deep_view(), entry.1.deep_view()));
}

proof fn lemma_pushed<K: MapKey, V: DeepView>(before: Seq<(K, V)>, entry: (K, V))
    requires
        keys_distinct(before),
        !has_key(before, entry.0.deep_view()),
    ensures
        keys_distinct(before.push(entry)),
        map_of(before.push(entry)) == map_of(before).insert(
            entry.0.deep_view(),
            entry.1.deep_view(),
        ),
{
    let after = before.push(entry);
    assert forall|a: int, b: int| 0 <= a < b < after.len() implies #[trigger] after[a].0.deep_view()
        != #[trigger] after[b].0.deep_view() by {
        assert(before[a].0.deep_view() == after[a].0.deep_view());
        if b < before.len() {
            assert(before[b].0.deep_view() == after[b].0.deep_view());
        }
    }
    lemma_entry(after, before.len() as int);
    assert forall|k: K::V|
        has_key(after, k) <==> has_key(before, k) || k == entry.0.deep_view() by {
        if has_key(after, k) {
            let a = index_of_key(after, k);
            if a < before.len() {
                assert(before[a].0.deep_view() == k);
            }
        }
        if has_key(before, k) {
            assert(after[index_of_key(before, k)].0.deep_view() == k);
        }
    }
    assert forall|k: K::V| has_key(before, k) implies index_of_key(after, k) == index_of_key(
        before,
        k,
    ) by {
        let a = index_of_key(before, k);
        assert(after[a].0.deep_view() == k);
        lemma_entry(after, a);
    }
    assert(map_of(after) =~= map_of(before).insert(entry.0.deep_view(), entry.1.deep_view()));
}

} // verus!
