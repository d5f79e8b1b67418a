//! An association list that keeps its keys in the order in which they were
//! first inserted.

use vstd::prelude::*;

verus! {

/// A key of a [`SortedMap`]: two keys are the same key when their views are
/// equal.
pub trait MapKey: View + Sized {
    /// Tells whether `self` and `other` are the same key.
    fn is_same(&self, other: &Self) -> (same: bool)
        ensures
            same == (self@ == other@),
    ;
}

impl MapKey for u32 {
    fn is_same(&self, other: &Self) -> (same: bool) {
        *self == *other
    }
}

impl MapKey for String {
    fn is_same(&self, other: &Self) -> (same: bool) {
        *self == *other
    }
}

/// Keys with their values, in the order in which the keys were first inserted.
pub struct SortedMap<K, Value> where K: PartialEq {
    items: Vec<(K, Value)>,
}

/// `at` is the index of the first entry of `entries` whose key is `key`, or
/// `None` when no entry has that key.
pub open spec fn is_first_match<K: View, V>(entries: Seq<(K, V)>, key: K::V, at: Option<int>) -> bool {
    match at {
        Some(i) => {
            &&& 0 <= i < entries.len()
            &&& entries[i].0@ == key
            &&& forall|j: int| 0 <= j < i ==> (#[trigger] entries[j]).0@ != key
        },
        None => forall|j: int| 0 <= j < entries.len() ==> (#[trigger] entries[j]).0@ != key,
    }
}

/// Index of the first entry of `entries` whose key is `key`.
pub open spec fn first_match<K: View, V>(entries: Seq<(K, V)>, key: K::V) -> Option<int> {
    if exists|i: int| is_first_match(entries, key, Some(i)) {
        Some(choose|i: int| is_first_match(entries, key, Some(i)))
    } else {
        None
    }
}

/// There is exactly one answer to "where is the first entry with this key",
/// and [`first_match`] is it.
pub proof fn lemma_first_match<K: View, V>(entries: Seq<(K, V)>, key: K::V, at: Option<int>)
    requires
        is_first_match(entries, key, at),
    ensures
        first_match(entries, key) == at,
{
    match at {
        Some(i) => {
            let c = choose|c: int| is_first_match(entries, key, Some(c));
            if c < i {
                assert(entries[c].0@ != key);
            }
            if i < c {
                assert(entries[i].0@ != key);
            }
        },
        None => {
            if exists|i: int| is_first_match(entries, key, Some(i)) {
                let c = choose|c: int| is_first_match(entries, key, Some(c));
                assert(entries[c].0@ != key);
            }
        },
    }
}

impl<K: PartialEq + MapKey, V> SortedMap<K, V> {
    /// The entries, in the order in which their keys were first inserted.
    pub closed spec fn entries(&self) -> Seq<(K, V)> {
        self.items@
    }

    /// An empty map.
    pub fn new() -> (map: Self)
        ensures
            map.entries() == Seq::<(K, V)>::empty(),
    {
        Self { items: Vec::new() }
    }

    /// Index of the first entry whose key is `k`.
    fn find(&self, k: &K) -> (at: Option<usize>)
        ensures
            first_match(self.entries(), k@) == match at {
                Some(i) => Some(i as int),
                None => None,
            },
            at matches Some(i) ==> i < self.entries().len(),
    {
        let mut idx: usize = 0;
        while idx < self.items.len()
            invariant
                idx <= self.items.len(),
                forall|j: int| 0 <= j < idx ==> (#[trigger] self.items@[j]).0@ != k@,
            decreases self.items.len() - idx,
        {
            if self.items[idx].0.is_same(k) {
                proof {
                    lemma_first_match(self.items@, k@, Some(idx as int));
                }
                return Some(idx);
            }
            idx += 1;
        }
        proof {
            lemma_first_match(self.items@, k@, None);
        }
        None
    }

    /// Removes the first entry whose key is `k`, if there is one; the other
    /// entries keep their order.
    pub fn delete(&mut self, k: &K)
        ensures
            final(self).entries() == match first_match(old(self).entries(), k@) {
                Some(i) => old(self).entries().remove(i),
                None => old(self).entries(),
            },
    {
        match self.find(k) {
            Some(idx) => {
                self.items.remove(idx);
            },
            None => {},
        }
    }

    /// The value of the first entry whose key is `k`, for reading and
    /// writing; what is written replaces that value in place.
    pub fn get_mut(&mut self, k: &K) -> (value: Option<&mut V>)
        ensures
            match first_match(old(self).entries(), k@) {
                Some(i) => {
                    &&& value is Some
                    &&& *value->0 == old(self).entries()[i].1
                    &&& final(self).entries() == old(self).entries().update(
                        i,
                        (old(self).entries()[i].0, *final(value->0)),
                    )
                },
                None => value is None && final(self).entries() == old(self).entries(),
            },
    {
        match self.find(k) {
            Some(idx) => {
                let entry = &mut self.items[idx];
                Some(&mut entry.1)
            },
            None => None,
        }
    }

    /// Gives `k` the value `v`: an entry that already has the key keeps its
    /// place and gets the new value, a new key goes to the end.
    pub fn insert(&mut self, k: K, v: V)
        ensures
            final(self).entries() == match first_match(old(self).entries(), k@) {
                Some(i) => old(self).entries().update(i, (k, v)),
                None => old(self).entries().push((k, v)),
            },
    {
        match self.find(&k) {
            Some(idx) => {
                self.items[idx] = (k, v);
            },
            None => {
                self.items.push((k, v));
            },
        }
    }

    /// The entries in order.
    pub fn iter(&self) -> (entries: &[(K, V)])
        ensures
            entries@ == self.entries(),
    {
        self.items.as_slice()
    }

    /// The entries in order, for reading and writing; the map holds whatever
    /// the caller leaves in the slice.
    pub fn iter_mut(&mut self) -> (entries: &mut [(K, V)])
        ensures
            entries@ == old(self).entries(),
            final(self).entries() == final(entries)@,
    {
        self.items.as_mut_slice()
    }
}

/// The keys of `items`, each once, in the order in which they first occur.
pub open spec fn keys_seen<K: View, T>(items: Seq<(K, T)>) -> Seq<K::V>
    decreases items.len(),
{
    if items.len() == 0 {
        Seq::empty()
    } else {
        let before = keys_seen(items.drop_last());
        if before.contains(items.last().0@) {
            before
        } else {
            before.push(items.last().0@)
        }
    }
}

/// The values that `items` holds under `key`, in the order in which they
/// occur.
pub open spec fn values_of<K: View, T>(items: Seq<(K, T)>, key: K::V) -> Seq<T>
    decreases items.len(),
{
    if items.len() == 0 {
        Seq::empty()
    } else {
        let before = values_of(items.drop_last(), key);
        if items.last().0@ == key {
            before.push(items.last().1)
        } else {
            before
        }
    }
}

/// `entries` groups `items` by key: one entry for each key, in the order in
/// which the keys first occur, holding the values of that key in the order in
/// which they occur.
pub open spec fn is_grouping<K: View, T>(entries: Seq<(K, Vec<T>)>, items: Seq<(K, T)>) -> bool {
    &&& entries.len() == keys_seen(items).len()
    &&& forall|i: int|
        0 <= i < entries.len() ==> (#[trigger] entries[i]).0@ == keys_seen(items)[i] && entries[i].1@
            == values_of(items, keys_seen(items)[i])
}

/// No key is listed twice among the keys seen, a listed key has a value, and
/// a key that is not listed has none.
pub proof fn lemma_keys_seen<K: View, T>(items: Seq<(K, T)>)
    ensures
        keys_seen(items).no_duplicates(),
        forall|key: K::V| !keys_seen(items).contains(key) ==> #[trigger] values_of(items, key).len() == 0,
        forall|key: K::V| keys_seen(items).contains(key) ==> #[trigger] values_of(items, key).len() > 0,
    decreases items.len(),
{
    if items.len() > 0 {
        let before = keys_seen(items.drop_last());
        let now = keys_seen(items);
        let last = items.last().0@;
        lemma_keys_seen(items.drop_last());
        assert(now.contains(last)) by {
            if !before.contains(last) {
                assert(now[before.len() as int] == last);
            }
        }
        assert forall|key: K::V| before.contains(key) implies now.contains(key) by {
            let i = choose|i: int| 0 <= i < before.len() && before[i] == key;
            assert(now[i] == key);
        }
        assert forall|key: K::V| now.contains(key) && key != last implies before.contains(key) by {
            let i = choose|i: int| 0 <= i < now.len() && now[i] == key;
            assert(before[i] == key);
        }
        assert forall|key: K::V| !now.contains(key) implies #[trigger] values_of(items, key).len() == 0 by {
            assert(key != last);
            assert(!before.contains(key));
            assert(values_of(items.drop_last(), key).len() == 0);
        }
        assert forall|key: K::V| now.contains(key) implies #[trigger] values_of(items, key).len() > 0 by {
            if key != last {
                assert(before.contains(key));
                assert(values_of(items.drop_last(), key).len() > 0);
            }
        }
        assert forall|i: int, j: int| 0 <= i < now.len() && 0 <= j < now.len() && i != j implies now[i]
            != now[j] by {
            if !before.contains(last) {
                if i == before.len() {
                    assert(before[j] == now[j]);
                } else if j == before.len() {
                    assert(before[i] == now[i]);
                }
            }
        }
    }
}

/// Every key seen is the key of an item.
pub proof fn lemma_keys_are_items<K: View, T>(items: Seq<(K, T)>, at: int)
    requires
        0 <= at < keys_seen(items).len(),
    ensures
        exists|i: int| 0 <= i < items.len() && (#[trigger] items[i]).0@ == keys_seen(items)[at],
    decreases items.len(),
{
    if items.len() > 0 {
        let before = keys_seen(items.drop_last());
        if at < before.len() {
            lemma_keys_are_items(items.drop_last(), at);
            let i = choose|i: int|
                0 <= i < items.drop_last().len() && (#[trigger] items.drop_last()[i]).0@ == before[at];
            assert(items[i].0@ == keys_seen(items)[at]);
        } else {
            assert(items[items.len() - 1].0@ == keys_seen(items)[at]);
        }
    }
}

/// Every value listed under a key is the value of an item with that key.
pub proof fn lemma_values_are_items<K: View, T>(items: Seq<(K, T)>, key: K::V, at: int)
    requires
        0 <= at < values_of(items, key).len(),
    ensures
        exists|i: int| 0 <= i < items.len() && (#[trigger] items[i]).0@ == key && items[i].1 == values_of(items, key)[at],
    decreases items.len(),
{
    if items.len() > 0 {
        let before = values_of(items.drop_last(), key);
        if items.last().0@ == key && at == before.len() {
            assert(items[items.len() - 1].1 == values_of(items, key)[at]);
        } else {
            lemma_values_are_items(items.drop_last(), key, at);
            let i = choose|i: int|
                0 <= i < items.drop_last().len() && (#[trigger] items.drop_last()[i]).0@ == key
                    && items.drop_last()[i].1 == before[at];
            assert(items[i].1 == values_of(items, key)[at]);
        }
    }
}

/// Groups values by their keys. The keys keep the order in which they first
/// occur among `items`, and the values of one key keep theirs.
pub fn group_by_key<K: PartialEq + MapKey, T>(items: Vec<(K, T)>) -> (groups: SortedMap<K, Vec<T>>)
    ensures
        is_grouping(groups.entries(), items@),
{
    let mut rest = items;
    let mut groups: SortedMap<K, Vec<T>> = SortedMap::new();
    let ghost mut done: int = 0;
    proof {
        assert(items@.take(0) =~= Seq::<(K, T)>::empty());
    }
    while rest.len() > 0
        invariant
            0 <= done <= items.len(),
            rest@ == items@.skip(done),
            is_grouping(groups.entries(), items@.take(done)),
        decreases rest.len(),
    {
        let ghost seen = items@.take(done);
        let ghost now = items@.take(done + 1);
        let ghost entries = groups.entries();
        let (key, value) = rest.remove(0);
        proof {
            assert(items@.skip(done)[0] == items@[done]);
            assert(items@.skip(done).remove(0) =~= items@.skip(done + 1));
            assert(now.drop_last() =~= seen);
            assert(now.last() == items@[done]);
            lemma_keys_seen(seen);
            assert forall|i: int| 0 <= i < entries.len() implies (first_match(entries, key@) == Some(i)
                <==> keys_seen(seen)[i] == key@) by {
                if keys_seen(seen)[i] == key@ {
                    assert forall|j: int| 0 <= j < i implies (#[trigger] entries[j]).0@ != key@ by {
                        assert(keys_seen(seen)[j] != keys_seen(seen)[i]);
                    }
                    lemma_first_match(entries, key@, Some(i));
                } else if first_match(entries, key@) == Some(i) {
                    assert(is_first_match(entries, key@, Some(i)));
                }
            }
            if !keys_seen(seen).contains(key@) {
                lemma_first_match(entries, key@, None);
            } else {
                let i = choose|i: int| 0 <= i < keys_seen(seen).len() && keys_seen(seen)[i] == key@;
                assert(first_match(entries, key@) == Some(i));
            }
        }
        let ghost name = key@;
        let ghost added = value;
        let ghost listed = keys_seen(seen).contains(name);
        let ghost slot = first_match(entries, name);
        match groups.get_mut(&key) {
            Some(group) => {
                group.push(value);
            },
            None => {
                let mut group: Vec<T> = Vec::new();
                group.push(value);
                groups.insert(key, group);
            },
        }
        proof {
            done = done + 1;
            let after = groups.entries();
            assert(values_of(now, name) == values_of(seen, name).push(added));
            if listed {
                let m = slot->0;
                assert(keys_seen(now) == keys_seen(seen));
                assert(after[m].1@ == entries[m].1@.push(added));
                assert forall|i: int| 0 <= i < after.len() implies (#[trigger] after[i]).0@ == keys_seen(
                    now,
                )[i] && after[i].1@ == values_of(now, keys_seen(now)[i]) by {
                    assert(entries[i].0@ == keys_seen(seen)[i]);
                    if i != m {
                        assert(keys_seen(seen)[i] != keys_seen(seen)[m]);
                        assert(after[i] == entries[i]);
                    }
                }
            } else {
                assert(slot is None);
                assert(values_of(seen, name).len() == 0);
                assert(values_of(seen, name) =~= Seq::<T>::empty());
                assert(keys_seen(now) == keys_seen(seen).push(name));
                assert forall|i: int| 0 <= i < after.len() implies (#[trigger] after[i]).0@ == keys_seen(
                    now,
                )[i] && after[i].1@ == values_of(now, keys_seen(now)[i]) by {
                    if i < entries.len() {
                        assert(entries[i].0@ == keys_seen(seen)[i]);
                        assert(keys_seen(seen).contains(keys_seen(seen)[i]));
                        assert(after[i] == entries[i]);
                    } else {
                        assert(after[i].1@ =~= Seq::<T>::empty().push(added));
                    }
                }
            }
        }
    }
    proof {
        assert(items@.take(done) =~= items@);
    }
    groups
}

} // verus!
