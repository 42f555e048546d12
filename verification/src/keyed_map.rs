//! A finite map kept in insertion order, for keys that are compared by what
//! they identify.

use vstd::prelude::*;

verus! {

/// A key: an executable value that stands for a mathematical identity and can
/// be compared with another key by it.
pub trait Key: Sized {
    /// What a key identifies.
    type Id;

    /// What this key identifies.
    spec fn id(&self) -> Self::Id;

    /// Whether two keys identify the same thing.
    fn same(&self, other: &Self) -> (same: bool)
        ensures
            same == (self.id() == other.id()),
    ;
}

/// `i` is the first position at which `key` occurs in `keys`.
pub open spec fn is_first_slot<I>(keys: Seq<I>, key: I, i: int) -> bool {
    &&& 0 <= i < keys.len()
    &&& keys[i] == key
    &&& forall|j: int| 0 <= j < i ==> keys[j] != key
}

/// The first position at which `key` occurs in `keys`, if it occurs at all.
pub open spec fn first_slot<I>(keys: Seq<I>, key: I) -> Option<int> {
    if keys.contains(key) {
        Some(choose|i: int| is_first_slot(keys, key, i))
    } else {
        None
    }
}

/// A position that comes before every other occurrence of a key is the key's
/// first slot.
pub proof fn lemma_first_slot<I>(keys: Seq<I>, key: I, i: int)
    requires
        is_first_slot(keys, key, i),
    ensures
        first_slot(keys, key) == Some(i),
{
    assert(keys.contains(key));
    let c = choose|c: int| is_first_slot(keys, key, c);
    assert(is_first_slot(keys, key, c));
    if c < i {
        assert(keys[c] != key);
    }
    if i < c {
        assert(keys[i] != key);
    }
}

/// A key that occurs in `keys` has a first slot there.
pub proof fn lemma_first_slot_exists<I>(keys: Seq<I>, key: I)
    requires
        keys.contains(key),
    ensures
        first_slot(keys, key) is Some,
        is_first_slot(keys, key, first_slot(keys, key)->0),
    decreases keys.len(),
{
    let k = choose|k: int| 0 <= k < keys.len() && keys[k] == key;
    if exists|j: int| 0 <= j < k && keys[j] == key {
        let j = choose|j: int| 0 <= j < k && keys[j] == key;
        let shorter = keys.take(k);
        assert(shorter[j] == key);
        lemma_first_slot_exists(shorter, key);
        let f = first_slot(shorter, key)->0;
        assert(is_first_slot(keys, key, f)) by {
            assert(keys[f] == shorter[f]);
            assert forall|m: int| 0 <= m < f implies keys[m] != key by {
                assert(keys[m] == shorter[m]);
            }
        }
        lemma_first_slot(keys, key, f);
    } else {
        assert(is_first_slot(keys, key, k));
        lemma_first_slot(keys, key, k);
    }
}

/// A finite map from keys of type `K` to values of type `V`.
///
/// Entries are kept in the order in which their keys were first inserted. A
/// key is looked up at its first slot, and an insertion under a key that is
/// present replaces the value at that slot.
pub struct KeyedMap<K: Key, V> {
    entries: Vec<(K, V)>,
}

impl<K: Key, V> KeyedMap<K, V> {
    /// The keys in insertion order.
    pub closed spec fn keys(self) -> Seq<K::Id> {
        Seq::new(self.entries@.len(), |i: int| self.entries[i].0.id())
    }

    /// The value stored at position `i`.
    pub closed spec fn value_at(self, i: int) -> V {
        self.entries[i].1
    }

    /// The map as a mathematical map: each key that occurs is mapped to the
    /// value at its first slot.
    pub open spec fn view(self) -> Map<K::Id, V> {
        Map::new(
            |key: K::Id| self.keys().contains(key),
            |key: K::Id| self.value_at(first_slot(self.keys(), key)->0),
        )
    }

    /// An empty map.
    pub fn new() -> (m: KeyedMap<K, V>)
        ensures
            m@ == Map::<K::Id, V>::empty(),
            m.keys() == Seq::<K::Id>::empty(),
    {
        let m = KeyedMap { entries: Vec::new() };
        assert(m.keys() =~= Seq::<K::Id>::empty());
        assert(m@ =~= Map::<K::Id, V>::empty());
        m
    }

    /// The number of entries.
    pub fn len(&self) -> (n: usize)
        ensures
            n == self.keys().len(),
    {
        self.entries.len()
    }

    /// The key at position `i` of the insertion order.
    pub fn key_at(&self, i: usize) -> (key: &K)
        requires
            i < self.keys().len(),
        ensures
            key.id() == self.keys()[i as int],
    {
        &self.entries[i].0
    }

    fn position(&self, key: &K) -> (r: Option<usize>)
        ensures
            match r {
                Some(i) => is_first_slot(self.keys(), key.id(), i as int),
                None => !self.keys().contains(key.id()),
            },
    {
        let mut i: usize = 0;
        while i < self.entries.len()
            invariant
                i <= self.entries.len(),
                self.keys().len() == self.entries.len(),
                forall|j: int| 0 <= j < i ==> self.keys()[j] != key.id(),
            decreases self.entries.len() - i,
        {
            if self.entries[i].0.same(key) {
                return Some(i);
            }
            i += 1;
        }
        None
    }

    /// The value stored under `key`, if any.
    pub fn get(&self, key: &K) -> (r: Option<&V>)
        ensures
            match r {
                Some(v) => self@.contains_key(key.id()) && *v == self@[key.id()],
                None => !self@.contains_key(key.id()),
            },
    {
        match self.position(key) {
            Some(i) => {
                proof {
                    lemma_first_slot(self.keys(), key.id(), i as int);
                }
                Some(&self.entries[i].1)
            },
            None => None,
        }
    }

    /// Whether a value is stored under `key`.
    pub fn contains_key(&self, key: &K) -> (r: bool)
        ensures
            r == self@.contains_key(key.id()),
    {
        self.position(key).is_some()
    }

    /// Stores `value` under `key`, replacing what was stored there before. A
    /// new key goes to the end of the insertion order; a key that is present
    /// keeps its place.
    pub fn insert(&mut self, key: K, value: V)
        ensures
            final(self)@ == old(self)@.insert(key.id(), value),
            old(self)@.contains_key(key.id()) ==> final(self).keys() == old(self).keys(),
            !old(self)@.contains_key(key.id()) ==> final(self).keys() == old(self).keys().push(
                key.id(),
            ),
    {
        let ghost before = *self;
        let ghost id = key.id();
        match self.position(&key) {
            Some(i) => {
                self.entries[i].1 = value;
                assert(self.keys() =~= before.keys());
                proof {
                    lemma_first_slot(before.keys(), id, i as int);
                    assert forall|other: K::Id| self.keys().contains(other) && other != id
                        implies self@[other] == before@[other] by {
                        lemma_first_slot_exists(before.keys(), other);
                    }
                }
                assert(self@ =~= before@.insert(id, value));
            },
            None => {
                self.entries.push((key, value));
                assert(self.keys() =~= before.keys().push(id));
                assert forall|other: K::Id| before.keys().contains(other) implies first_slot(
                    self.keys(),
                    other,
                ) == first_slot(before.keys(), other) by {
                    lemma_first_slot_exists(before.keys(), other);
                    let f = first_slot(before.keys(), other)->0;
                    assert(is_first_slot(self.keys(), other, f));
                    lemma_first_slot(self.keys(), other, f);
                }
                proof {
                    let last = before.keys().len() as int;
                    assert(is_first_slot(self.keys(), id, last));
                    lemma_first_slot(self.keys(), id, last);
                }
                assert forall|other: K::Id| self.keys().contains(other) implies other == id
                    || before.keys().contains(other) by {
                    let k = choose|k: int| 0 <= k < self.keys().len() && self.keys()[k] == other;
                    if k < before.keys().len() {
                        assert(before.keys()[k] == other);
                    }
                }
                assert forall|other: K::Id|
                    before.keys().contains(other) implies self.keys().contains(other) by {
                    let k = choose|k: int| 0 <= k < before.keys().len() && before.keys()[k]
                        == other;
                    assert(self.keys()[k] == other);
                }
                assert(self.keys()[before.keys().len() as int] == id);
                assert forall|other: K::Id| before.keys().contains(other) implies self@[other]
                    == before@[other] by {
                    lemma_first_slot_exists(before.keys(), other);
                }
                assert(self@ =~= before@.insert(id, value));
            },
        }
    }
}

} // verus!
