//! A map from byte strings to values that keeps its keys in ascending byte
//! order, so that walking it yields the keys in the order in which a segment
//! stores its terms.

use vstd::prelude::*;
use crate::order::{bytes_lt, lemma_lt_asymmetric, lemma_lt_transitive, place, strictly_ascending, Place};

verus! {

/// A map from byte strings to values, held as two parallel lists in ascending
/// key order.
pub struct SortedMap<V> {
    keys: Vec<Vec<u8>>,
    values: Vec<V>,
}

impl<V> SortedMap<V> {
    /// The keys, in the order in which they are held.
    pub closed spec fn keys(self) -> Seq<Seq<u8>> {
        Seq::new(self.keys.len() as nat, |i: int| self.keys[i]@)
    }

    /// The values; `values()[i]` belongs to `keys()[i]`.
    pub closed spec fn values(self) -> Seq<V> {
        self.values@
    }

    /// Every key has a value and the keys ascend strictly.
    pub open spec fn wf(self) -> bool {
        &&& self.keys().len() == self.values().len()
        &&& strictly_ascending(self.keys())
    }

    /// The number of keys that come strictly before `key`.
    pub open spec fn rank(self, key: Seq<u8>) -> int {
        rank_in(self.keys(), key)
    }

    /// Whether `key` is among the keys.
    pub open spec fn contains_key(self, key: Seq<u8>) -> bool {
        self.keys().contains(key)
    }

    /// An empty map.
    pub fn new() -> (m: SortedMap<V>)
        ensures
            m.wf(),
            m.keys() == Seq::<Seq<u8>>::empty(),
            m.values() == Seq::<V>::empty(),
    {
        let m = SortedMap { keys: Vec::new(), values: Vec::new() };
        assert(m.keys() =~= Seq::<Seq<u8>>::empty());
        m
    }

    /// The number of entries.
    pub fn len(&self) -> (n: usize)
        ensures
            n == self.keys().len(),
    {
        self.keys.len()
    }

    /// Finds where `key` stands: the number of keys before it, and whether the
    /// key at that place is `key` itself.
    pub fn search(&self, key: &[u8]) -> (found: (usize, bool))
        requires
            self.wf(),
        ensures
            found.0 == self.rank(key@),
            found.0 <= self.keys().len(),
            found.1 == self.contains_key(key@),
            found.1 ==> found.0 < self.keys().len() && self.keys()[found.0 as int] == key@,
    {
        let mut low: usize = 0;
        let mut high: usize = self.keys.len();
        while low < high
            invariant
                self.wf(),
                0 <= low <= high <= self.keys.len(),
                forall|j: int| 0 <= j < low ==> bytes_lt(#[trigger] self.keys()[j], key@),
                forall|j: int| high <= j < self.keys.len() ==> bytes_lt(key@, #[trigger] self.keys()[j]),
            decreases high - low,
        {
            let mid = low + (high - low) / 2;
            match place(self.keys[mid].as_slice(), key) {
                Place::Before => {
                    assert forall|j: int| 0 <= j < mid + 1 implies bytes_lt(
                        #[trigger] self.keys()[j],
                        key@,
                    ) by {
                        if j < mid {
                            lemma_lt_transitive(self.keys()[j], self.keys()[mid as int], key@);
                        }
                    }
                    low = mid + 1;
                },
                Place::Same => {
                    proof {
                        lemma_rank_at(self.keys(), key@, mid as int);
                    }
                    return (mid, true);
                },
                Place::After => {
                    assert forall|j: int| mid <= j < self.keys.len() implies bytes_lt(
                        key@,
                        #[trigger] self.keys()[j],
                    ) by {
                        if mid < j {
                            lemma_lt_transitive(key@, self.keys()[mid as int], self.keys()[j]);
                        }
                    }
                    high = mid;
                },
            }
        }
        proof {
            lemma_rank_between(self.keys(), key@, low as int);
        }
        (low, false)
    }

    /// Puts a new key with its value at the place where it belongs.
    pub fn insert_at(&mut self, at: usize, key: Vec<u8>, value: V)
        requires
            old(self).wf(),
            !old(self).contains_key(key@),
            at == old(self).rank(key@),
        ensures
            final(self).wf(),
            final(self).keys() == old(self).keys().insert(at as int, key@),
            final(self).values() == old(self).values().insert(at as int, value),
    {
        proof {
            lemma_rank_splits(self.keys(), key@);
        }
        let ghost before = self.keys();
        self.keys.insert(at, key);
        self.values.insert(at, value);
        assert(self.keys() =~= before.insert(at as int, key@));
    }

    /// The key at place `i`.
    pub fn key_at(&self, i: usize) -> (key: &Vec<u8>)
        requires
            i < self.keys().len(),
        ensures
            key@ == self.keys()[i as int],
    {
        &self.keys[i]
    }

    /// The value at place `i`.
    pub fn value_at(&self, i: usize) -> (value: &V)
        requires
            self.wf(),
            i < self.keys().len(),
        ensures
            *value == self.values()[i as int],
    {
        &self.values[i]
    }

    /// The value at place `i`, to be changed in place.
    pub fn value_at_mut(&mut self, i: usize) -> (value: &mut V)
        requires
            old(self).wf(),
            i < old(self).keys().len(),
        ensures
            *value == old(self).values()[i as int],
            final(self).keys() == old(self).keys(),
            final(self).values() == old(self).values().update(i as int, *final(value)),
    {
        &mut self.values[i]
    }
}

/// The number of keys of `keys` that come strictly before `key`.
pub open spec fn rank_in(keys: Seq<Seq<u8>>, key: Seq<u8>) -> int
    decreases keys.len(),
{
    if keys.len() == 0 {
        0
    } else if bytes_lt(keys.last(), key) {
        rank_in(keys.drop_last(), key) + 1
    } else {
        rank_in(keys.drop_last(), key)
    }
}

/// In an ascending list the key at place `at` has exactly `at` keys before it.
pub proof fn lemma_rank_at(keys: Seq<Seq<u8>>, key: Seq<u8>, at: int)
    requires
        strictly_ascending(keys),
        0 <= at < keys.len(),
        keys[at] == key,
    ensures
        rank_in(keys, key) == at,
        keys.contains(key),
{
    lemma_rank_split_at(keys, key, at);
}

/// A key that stands between place `at - 1` and place `at` of an ascending
/// list has `at` keys before it and is not in the list.
pub proof fn lemma_rank_between(keys: Seq<Seq<u8>>, key: Seq<u8>, at: int)
    requires
        strictly_ascending(keys),
        0 <= at <= keys.len(),
        forall|j: int| 0 <= j < at ==> bytes_lt(#[trigger] keys[j], key),
        forall|j: int| at <= j < keys.len() ==> bytes_lt(key, #[trigger] keys[j]),
    ensures
        rank_in(keys, key) == at,
        !keys.contains(key),
{
    lemma_rank_split_at(keys, key, at);
    if keys.contains(key) {
        let j = choose|j: int| 0 <= j < keys.len() && keys[j] == key;
        if j < at {
            lemma_lt_asymmetric(keys[j], key);
        } else {
            lemma_lt_asymmetric(key, keys[j]);
        }
    }
}

proof fn lemma_rank_split_at(keys: Seq<Seq<u8>>, key: Seq<u8>, at: int)
    requires
        0 <= at <= keys.len(),
        forall|j: int| 0 <= j < at ==> bytes_lt(#[trigger] keys[j], key),
        forall|j: int| at <= j < keys.len() ==> !bytes_lt(#[trigger] keys[j], key),
    ensures
        rank_in(keys, key) == at,
    decreases keys.len(),
{
    if keys.len() > 0 {
        let rest = keys.drop_last();
        if at == keys.len() {
            assert(bytes_lt(keys[keys.len() - 1], key));
            lemma_rank_split_at(rest, key, at - 1);
        } else {
            assert(!bytes_lt(keys[keys.len() - 1], key));
            lemma_rank_split_at(rest, key, at);
        }
    }
}

/// In an ascending list without `key`, the keys before place `rank` come
/// before `key` and the others after it.
pub proof fn lemma_rank_splits(keys: Seq<Seq<u8>>, key: Seq<u8>)
    requires
        strictly_ascending(keys),
        !keys.contains(key),
    ensures
        0 <= rank_in(keys, key) <= keys.len(),
        forall|j: int| 0 <= j < rank_in(keys, key) ==> bytes_lt(#[trigger] keys[j], key),
        forall|j: int| rank_in(keys, key) <= j < keys.len() ==> bytes_lt(key, #[trigger] keys[j]),
        strictly_ascending(keys.insert(rank_in(keys, key), key)),
    decreases keys.len(),
{
    if keys.len() > 0 {
        let rest = keys.drop_last();
        let last = keys.last();
        assert forall|i: int, j: int| 0 <= i < j < rest.len() implies bytes_lt(
            #[trigger] rest[i],
            #[trigger] rest[j],
        ) by {
            assert(rest[i] == keys[i] && rest[j] == keys[j]);
        }
        if rest.contains(key) {
            let j = choose|j: int| 0 <= j < rest.len() && rest[j] == key;
            assert(keys[j] == key);
        }
        lemma_rank_splits(rest, key);
        let r = rank_in(rest, key);
        assert(keys[keys.len() - 1] == last);
        crate::order::lemma_lt_total(last, key);
        if bytes_lt(last, key) {
            assert forall|j: int| 0 <= j < keys.len() implies bytes_lt(#[trigger] keys[j], key) by {
                if j < keys.len() - 1 {
                    lemma_lt_transitive(keys[j], last, key);
                }
            }
            lemma_rank_split_at(keys, key, keys.len() as int);
        } else {
            lemma_lt_asymmetric(key, last);
            assert forall|j: int| 0 <= j < r implies bytes_lt(#[trigger] keys[j], key) by {
                assert(rest[j] == keys[j]);
            }
            assert forall|j: int| r <= j < keys.len() implies bytes_lt(key, #[trigger] keys[j]) by {
                if j < keys.len() - 1 {
                    assert(rest[j] == keys[j]);
                }
            }
        }
    }
    let at = rank_in(keys, key);
    let grown = keys.insert(at, key);
    assert forall|i: int, j: int| 0 <= i < j < grown.len() implies bytes_lt(
        #[trigger] grown[i],
        #[trigger] grown[j],
    ) by {
        if j < at {
            assert(grown[i] == keys[i] && grown[j] == keys[j]);
        } else if j == at {
            assert(grown[i] == keys[i]);
        } else if i < at {
            assert(grown[i] == keys[i] && grown[j] == keys[j - 1]);
            if i == j - 1 {
            }
        } else if i == at {
            assert(grown[j] == keys[j - 1]);
        } else {
            assert(grown[i] == keys[i - 1] && grown[j] == keys[j - 1]);
        }
    }
}

/// In an ascending list every key stands at one place only.
pub proof fn lemma_index_unique(keys: Seq<Seq<u8>>, at: int)
    requires
        strictly_ascending(keys),
        0 <= at < keys.len(),
    ensures
        keys.contains(keys[at]),
        keys.index_of(keys[at]) == at,
{
    let found = keys.index_of(keys[at]);
    assert(0 <= found < keys.len() && keys[found] == keys[at]);
    if found < at {
        lemma_lt_asymmetric(keys[found], keys[at]);
    } else if at < found {
        lemma_lt_asymmetric(keys[at], keys[found]);
    }
}

/// Where the keys stand after a new key went in at its place: the new key at
/// `at`, the keys before it where they were, the others one place further.
pub proof fn lemma_insert_places(keys: Seq<Seq<u8>>, key: Seq<u8>)
    requires
        strictly_ascending(keys),
        !keys.contains(key),
    ensures
        ({
            let at = rank_in(keys, key);
            let grown = keys.insert(at, key);
            &&& 0 <= at <= keys.len()
            &&& strictly_ascending(grown)
            &&& grown.contains(key)
            &&& grown.index_of(key) == at
            &&& forall|other: Seq<u8>| #[trigger]
                grown.contains(other) <==> other == key || keys.contains(other)
            &&& forall|other: Seq<u8>| #[trigger]
                keys.contains(other) ==> grown.index_of(other) == if keys.index_of(other) < at {
                    keys.index_of(other)
                } else {
                    keys.index_of(other) + 1
                }
        }),
{
    lemma_rank_splits(keys, key);
    let at = rank_in(keys, key);
    let grown = keys.insert(at, key);
    assert(grown[at] == key);
    lemma_index_unique(grown, at);
    assert forall|other: Seq<u8>| #[trigger]
        grown.contains(other) <==> other == key || keys.contains(other) by {
        if grown.contains(other) {
            let i = grown.index_of(other);
            if i < at {
                assert(keys[i] == other);
            } else if i > at {
                assert(keys[i - 1] == other);
            }
        }
        if keys.contains(other) {
            let i = keys.index_of(other);
            if i < at {
                assert(grown[i] == other);
            } else {
                assert(grown[i + 1] == other);
            }
        }
    }
    assert forall|other: Seq<u8>| #[trigger] keys.contains(other) implies grown.index_of(other)
        == if keys.index_of(other) < at {
        keys.index_of(other)
    } else {
        keys.index_of(other) + 1
    } by {
        let i = keys.index_of(other);
        if i < at {
            assert(grown[i] == other);
            lemma_index_unique(grown, i);
        } else {
            assert(grown[i + 1] == other);
            lemma_index_unique(grown, i + 1);
        }
    }
}

/// The value that stands for `key` in two parallel lists, if there is one.
pub open spec fn lookup<V>(keys: Seq<Seq<u8>>, values: Seq<V>, key: Seq<u8>) -> Option<V> {
    if keys.contains(key) {
        Some(values[keys.index_of(key)])
    } else {
        None
    }
}

/// Looking up the key at place `at` gives the value at place `at`.
pub proof fn lemma_lookup_at<V>(keys: Seq<Seq<u8>>, values: Seq<V>, at: int)
    requires
        strictly_ascending(keys),
        0 <= at < keys.len(),
    ensures
        lookup(keys, values, keys[at]) == Some(values[at]),
{
    lemma_index_unique(keys, at);
}

/// After a new key went in at its place, it has its value and every other
/// key has the value it had.
pub proof fn lemma_lookup_insert<V>(keys: Seq<Seq<u8>>, values: Seq<V>, key: Seq<u8>, value: V)
    requires
        strictly_ascending(keys),
        keys.len() == values.len(),
        !keys.contains(key),
    ensures
        forall|other: Seq<u8>| #[trigger]
            lookup(
                keys.insert(rank_in(keys, key), key),
                values.insert(rank_in(keys, key), value),
                other,
            ) == if other == key {
                Some(value)
            } else {
                lookup(keys, values, other)
            },
{
    lemma_insert_places(keys, key);
    let at = rank_in(keys, key);
    let grown = keys.insert(at, key);
    assert forall|other: Seq<u8>| #[trigger]
        lookup(grown, values.insert(at, value), other) == if other == key {
            Some(value)
        } else {
            lookup(keys, values, other)
        } by {
        if other != key {
            assert(grown.contains(other) <==> other == key || keys.contains(other));
            if keys.contains(other) {
                let i = keys.index_of(other);
                assert(0 <= i < keys.len());
            }
        }
    }
}

/// After the value at place `at` was replaced, the key at that place has the
/// new value and every other key has the value it had.
pub proof fn lemma_lookup_update<V>(keys: Seq<Seq<u8>>, values: Seq<V>, at: int, value: V)
    requires
        strictly_ascending(keys),
        keys.len() == values.len(),
        0 <= at < keys.len(),
    ensures
        forall|other: Seq<u8>| #[trigger]
            lookup(keys, values.update(at, value), other) == if other == keys[at] {
                Some(value)
            } else {
                lookup(keys, values, other)
            },
{
    lemma_index_unique(keys, at);
    assert forall|other: Seq<u8>| #[trigger]
        lookup(keys, values.update(at, value), other) == if other == keys[at] {
            Some(value)
        } else {
            lookup(keys, values, other)
        } by {
        if keys.contains(other) {
            let i = keys.index_of(other);
            assert(0 <= i < keys.len());
        }
    }
}

/// The first `count + 1` items are the first `count` and the one after
/// them.
pub proof fn lemma_take_next<A>(items: Seq<A>, count: int)
    requires
        0 <= count < items.len(),
    ensures
        forall|item: A| #[trigger]
            items.take(count + 1).contains(item) <==> items.take(count).contains(item) || item
                == items[count],
{
    let taken = items.take(count);
    let next = items.take(count + 1);
    assert forall|item: A| #[trigger]
        next.contains(item) <==> taken.contains(item) || item == items[count] by {
        if next.contains(item) {
            let i = next.index_of(item);
            if i < count {
                assert(taken[i] == item);
            }
        }
        if taken.contains(item) {
            let i = taken.index_of(item);
            assert(next[i] == item);
        }
        if item == items[count] {
            assert(next[count] == item);
        }
    }
}

/// In an ascending list no key stands among the keys before it.
pub proof fn lemma_not_among_earlier(keys: Seq<Seq<u8>>, at: int)
    requires
        strictly_ascending(keys),
        0 <= at < keys.len(),
    ensures
        !keys.take(at).contains(keys[at]),
{
    let taken = keys.take(at);
    if taken.contains(keys[at]) {
        let i = taken.index_of(keys[at]);
        assert(keys[i] == keys[at]);
        lemma_lt_asymmetric(keys[i], keys[at]);
    }
}

} // verus!
