//! A keyed table of slots: the registry behind every pool and router.
//!
//! The slots stand in a list; a concurrent hash table says where the slot of
//! each key stands. A slot is found, replaced and removed only through an
//! exclusive borrow of the table, so no other party can observe or change a
//! slot while one operation on it is under way.

use dashmap::DashMap;
use vstd::prelude::*;

verus! {

/// The concurrent hash table `dashmap::DashMap`. Nothing inside it is visible
/// to contracts: what a table holds is named by a spec function of its own.
#[verifier::external_type_specification]
#[verifier::external_body]
#[verifier::reject_recursive_types(K)]
#[verifier::reject_recursive_types(V)]
#[verifier::reject_recursive_types(S)]
pub struct ExDashMap<K, V, S>(DashMap<K, V, S>);

/// What an index holds: for each key that it knows, the position of the
/// key's slot.
pub uninterp spec fn positions(index: DashMap<u64, usize>) -> Map<u64, usize>;

/// Calls `DashMap::new`, which makes a table without entries.
#[verifier::external_body]
fn index_new() -> (index: DashMap<u64, usize>)
    ensures
        forall|key: u64| !positions(index).contains_key(key),
{
    DashMap::new()
}

/// Calls `DashMap::get` and copies the value out of the guard it returns: the
/// position stored under the key, or `None` where the index has no such key.
/// The index is left as it is.
#[verifier::external_body]
fn index_get(index: &DashMap<u64, usize>, key: u64) -> (found: Option<usize>)
    ensures
        match found {
            Some(position) => positions(*index).contains_key(key) && positions(*index)[key]
                == position,
            None => !positions(*index).contains_key(key),
        },
{
    match index.get(&key) {
        Some(entry) => Some(*entry.value()),
        None => None,
    }
}

/// Calls `DashMap::insert`, which stores the position under the key and
/// replaces what the key held before; the other entries stay.
#[verifier::external_body]
fn index_insert(index: &mut DashMap<u64, usize>, key: u64, position: usize)
    ensures
        positions(*final(index)) == positions(*old(index)).insert(key, position),
{
    index.insert(key, position);
}

/// Calls `DashMap::remove`, which takes the entry of the key out of the index
/// if there is one; the other entries stay.
#[verifier::external_body]
fn index_remove(index: &mut DashMap<u64, usize>, key: u64)
    ensures
        positions(*final(index)) == positions(*old(index)).remove(key),
{
    index.remove(&key);
}

/// The map that a list of distinct keys and a list of values stand for.
pub open spec fn table_view<V>(keys: Seq<u64>, values: Seq<V>) -> Map<u64, V> {
    Map::new(|k: u64| keys.contains(k), |k: u64| values[keys.index_of(k)])
}

/// In a table without duplicate keys, the slot at position `i` is the entry
/// of the key at `i`.
pub proof fn lemma_table_entry<V>(keys: Seq<u64>, values: Seq<V>, i: int)
    requires
        keys.len() == values.len(),
        keys.no_duplicates(),
        0 <= i < keys.len(),
    ensures
        table_view(keys, values).contains_key(keys[i]),
        table_view(keys, values)[keys[i]] == values[i],
        keys.index_of(keys[i]) == i,
{
    assert(keys.contains(keys[i]));
    let j = keys.index_of(keys[i]);
    assert(0 <= j < keys.len() && keys[j] == keys[i]);
}

/// Replacing the value at position `i` replaces the entry of the key at `i`.
pub proof fn lemma_table_update<V>(keys: Seq<u64>, values: Seq<V>, i: int, value: V)
    requires
        keys.len() == values.len(),
        keys.no_duplicates(),
        0 <= i < keys.len(),
    ensures
        table_view(keys, values.update(i, value)) == table_view(keys, values).insert(
            keys[i],
            value,
        ),
{
    let a = table_view(keys, values.update(i, value));
    let b = table_view(keys, values).insert(keys[i], value);
    assert(keys.contains(keys[i]));
    assert forall|k: u64| a.contains_key(k) implies #[trigger] a[k] == b[k] by {
        let j = keys.index_of(k);
        assert(0 <= j < keys.len() && keys[j] == k);
    }
    assert(a =~= b);
}

/// Appending a fresh key adds its entry.
pub proof fn lemma_table_push<V>(keys: Seq<u64>, values: Seq<V>, key: u64, value: V)
    requires
        keys.len() == values.len(),
        keys.no_duplicates(),
        !keys.contains(key),
    ensures
        keys.push(key).no_duplicates(),
        table_view(keys.push(key), values.push(value)) == table_view(keys, values).insert(
            key,
            value,
        ),
{
    let keys2 = keys.push(key);
    let values2 = values.push(value);
    assert forall|i: int, j: int|
        0 <= i < keys2.len() && 0 <= j < keys2.len() && i != j implies keys2[i] != keys2[j] by {
        if i < keys.len() {
            assert(keys.contains(keys[i]));
        }
        if j < keys.len() {
            assert(keys.contains(keys[j]));
        }
    }
    let a = table_view(keys2, values2);
    let b = table_view(keys, values).insert(key, value);
    assert(keys2[keys.len() as int] == key);
    assert forall|k: u64| a.contains_key(k) <==> b.contains_key(k) by {
        if keys2.contains(k) {
            let j = keys2.index_of(k);
            assert(0 <= j < keys2.len() && keys2[j] == k);
            if j < keys.len() {
                assert(keys[j] == k);
            }
        }
        if keys.contains(k) {
            let j = keys.index_of(k);
            assert(keys2[j] == k);
        }
    }
    assert forall|k: u64| a.contains_key(k) implies #[trigger] a[k] == b[k] by {
        let j = keys2.index_of(k);
        assert(0 <= j < keys2.len() && keys2[j] == k);
        if k != key {
            assert(keys[j] == k);
            let j1 = keys.index_of(k);
            assert(0 <= j1 < keys.len() && keys[j1] == k);
            assert(keys2[j1] == k);
        }
    }
    assert(a =~= b);
}

/// Moving the last slot into position `i` and dropping the last position
/// removes the entry of the key at `i`.
pub proof fn lemma_table_swap_remove<V>(keys: Seq<u64>, values: Seq<V>, i: int)
    requires
        keys.len() == values.len(),
        keys.no_duplicates(),
        0 <= i < keys.len(),
    ensures
        keys.update(i, keys.last()).drop_last().no_duplicates(),
        table_view(keys.update(i, keys.last()).drop_last(), values.update(i, values.last()).drop_last())
            == table_view(keys, values).remove(keys[i]),
{
    let last = keys.len() - 1;
    let keys2 = keys.update(i, keys.last()).drop_last();
    let values2 = values.update(i, values.last()).drop_last();
    assert forall|a: int| 0 <= a < keys2.len() implies #[trigger] keys2[a] == keys[if a == i {
        last
    } else {
        a
    }] && values2[a] == values[if a == i {
        last
    } else {
        a
    }] by {}
    assert forall|a: int, b: int|
        0 <= a < keys2.len() && 0 <= b < keys2.len() && a != b implies keys2[a] != keys2[b] by {
        let a1 = if a == i { last } else { a };
        let b1 = if b == i { last } else { b };
        assert(keys2[a] == keys[a1] && keys2[b] == keys[b1]);
    }
    let x = table_view(keys2, values2);
    let y = table_view(keys, values).remove(keys[i]);
    assert forall|k: u64| x.contains_key(k) <==> y.contains_key(k) by {
        if keys2.contains(k) {
            let j = keys2.index_of(k);
            assert(0 <= j < keys2.len() && keys2[j] == k);
            let j1 = if j == i { last } else { j };
            assert(keys[j1] == k);
        }
        if keys.contains(k) && k != keys[i] {
            let j = keys.index_of(k);
            assert(0 <= j < keys.len() && keys[j] == k);
            let j2 = if j == last { i } else { j };
            assert(keys2[j2] == k);
        }
    }
    assert forall|k: u64| x.contains_key(k) implies #[trigger] x[k] == y[k] by {
        let j = keys2.index_of(k);
        assert(0 <= j < keys2.len() && keys2[j] == k);
        let j1 = if j == i { last } else { j };
        assert(keys[j1] == k);
        let j0 = keys.index_of(k);
        assert(0 <= j0 < keys.len() && keys[j0] == k);
        assert(j0 == j1);
        assert(values2[j] == values[j1]);
    }
    assert(x =~= y);
}

/// A table from integer keys to slots.
#[derive(Debug)]
pub struct Registry<V> {
    index: DashMap<u64, usize>,
    keys: Vec<u64>,
    values: Vec<V>,
}

impl<V> Registry<V> {
    /// The keys, in the order in which the table is walked.
    pub closed spec fn keys(&self) -> Seq<u64> {
        self.keys@
    }

    /// The slots, each at the position of its key.
    pub closed spec fn values(&self) -> Seq<V> {
        self.values@
    }

    /// The index knows the keys of the list and no others, each with the
    /// position at which it stands.
    pub closed spec fn indexed(&self) -> bool {
        &&& forall|i: int|
            0 <= i < self.keys@.len() ==> positions(self.index).contains_key(
                #[trigger] self.keys@[i],
            ) && positions(self.index)[self.keys@[i]] == i
        &&& forall|key: u64| #[trigger]
            positions(self.index).contains_key(key) ==> positions(self.index)[key]
                < self.keys@.len() && self.keys@[positions(self.index)[key] as int] == key
    }

    /// Every key occurs once, has its slot, and is found through the index.
    pub open spec fn wf(&self) -> bool {
        &&& self.keys().len() == self.values().len()
        &&& self.keys().no_duplicates()
        &&& self.indexed()
    }

    /// The table as a map.
    pub open spec fn view(&self) -> Map<u64, V> {
        table_view(self.keys(), self.values())
    }

    /// An empty table.
    pub fn new() -> (table: Registry<V>)
        ensures
            table.wf(),
            table.keys().len() == 0,
            table@ == Map::<u64, V>::empty(),
    {
        let table = Registry { index: index_new(), keys: Vec::new(), values: Vec::new() };
        assert(table@ =~= Map::<u64, V>::empty());
        table
    }

    /// The number of slots.
    pub fn len(&self) -> (n: usize)
        requires
            self.wf(),
        ensures
            n == self.keys().len(),
    {
        self.keys.len()
    }

    /// Whether the table holds no slot.
    pub fn is_empty(&self) -> (empty: bool)
        requires
            self.wf(),
        ensures
            empty == (self.keys().len() == 0),
            empty == (self@ == Map::<u64, V>::empty()),
    {
        proof {
            if self.keys().len() == 0 {
                assert(self@ =~= Map::<u64, V>::empty());
            } else {
                lemma_table_entry(self.keys(), self.values(), 0);
            }
        }
        self.keys.len() == 0
    }

    /// The position of a key, if the table holds it.
    pub fn position(&self, key: u64) -> (found: Option<usize>)
        requires
            self.wf(),
        ensures
            match found {
                Some(i) => {
                    &&& i < self.keys().len()
                    &&& self.keys()[i as int] == key
                    &&& self@.contains_key(key)
                    &&& self@[key] == self.values()[i as int]
                },
                None => !self@.contains_key(key),
            },
    {
        let found = index_get(&self.index, key);
        proof {
            match found {
                Some(i) => {
                    lemma_table_entry(self.keys(), self.values(), i as int);
                },
                None => {
                    if self.keys().contains(key) {
                        let j = self.keys().index_of(key);
                        assert(self.keys@[j] == key);
                    }
                },
            }
        }
        found
    }

    /// Whether the table holds a key.
    pub fn contains_key(&self, key: u64) -> (held: bool)
        requires
            self.wf(),
        ensures
            held == self@.contains_key(key),
    {
        self.position(key).is_some()
    }

    /// The key at a position.
    pub fn key_at(&self, i: usize) -> (key: u64)
        requires
            self.wf(),
            i < self.keys().len(),
        ensures
            key == self.keys()[i as int],
            self@.contains_key(key),
            self@[key] == self.values()[i as int],
    {
        proof {
            lemma_table_entry(self.keys(), self.values(), i as int);
        }
        self.keys[i]
    }

    /// The slot at a position.
    pub fn value_at(&self, i: usize) -> (value: &V)
        requires
            self.wf(),
            i < self.keys().len(),
        ensures
            *value == self.values()[i as int],
            self@.contains_key(self.keys()[i as int]),
            self@[self.keys()[i as int]] == *value,
    {
        proof {
            lemma_table_entry(self.keys(), self.values(), i as int);
        }
        &self.values[i]
    }

    /// Exclusive access to the slot at a position. Whatever the caller leaves
    /// there becomes the entry of that key; nothing else changes.
    pub fn value_at_mut(&mut self, i: usize) -> (value: &mut V)
        requires
            old(self).wf(),
            i < old(self).keys().len(),
        ensures
            *value == old(self).values()[i as int],
            *value == old(self)@[old(self).keys()[i as int]],
            final(self).keys() == old(self).keys(),
            final(self).values() == old(self).values().update(i as int, *final(value)),
            final(self).wf(),
            final(self)@ == old(self)@.insert(old(self).keys()[i as int], *final(value)),
    {
        proof {
            lemma_table_entry(self.keys(), self.values(), i as int);
            assert forall|v: V|
                #[trigger] table_view(self.keys(), self.values().update(i as int, v))
                    == self@.insert(self.keys()[i as int], v) by {
                lemma_table_update(self.keys(), self.values(), i as int, v);
            }
        }
        &mut self.values[i]
    }

    /// Adds a slot under a key that the table does not hold.
    pub fn insert(&mut self, key: u64, value: V)
        requires
            old(self).wf(),
            !old(self)@.contains_key(key),
        ensures
            final(self).wf(),
            final(self).keys() == old(self).keys().push(key),
            final(self).values() == old(self).values().push(value),
            final(self)@ == old(self)@.insert(key, value),
    {
        proof {
            lemma_table_push(self.keys(), self.values(), key, value);
        }
        let position: usize = self.keys.len();
        self.keys.push(key);
        self.values.push(value);
        index_insert(&mut self.index, key, position);
        proof {
            assert forall|i: int| 0 <= i < self.keys@.len() implies positions(
                self.index,
            ).contains_key(#[trigger] self.keys@[i]) && positions(self.index)[self.keys@[i]] == i by {
                if i < position {
                    assert(old(self).keys@[i] == self.keys@[i]);
                    assert(old(self).keys@.contains(self.keys@[i]));
                }
            }
        }
    }

    /// Takes the slot at a position out of the table; the last slot moves to
    /// that position.
    pub fn remove_at(&mut self, i: usize) -> (value: V)
        requires
            old(self).wf(),
            i < old(self).keys().len(),
        ensures
            final(self).wf(),
            value == old(self).values()[i as int],
            final(self).keys() == old(self).keys().update(
                i as int,
                old(self).keys().last(),
            ).drop_last(),
            final(self).values() == old(self).values().update(
                i as int,
                old(self).values().last(),
            ).drop_last(),
            final(self)@ == old(self)@.remove(old(self).keys()[i as int]),
    {
        proof {
            lemma_table_swap_remove(self.keys(), self.values(), i as int);
        }
        let last: usize = self.keys.len() - 1;
        let key: u64 = self.keys[i];
        let moved: u64 = self.keys[last];
        let _ = self.keys.swap_remove(i);
        let value = self.values.swap_remove(i);
        index_remove(&mut self.index, key);
        if i != last {
            index_insert(&mut self.index, moved, i);
        }
        proof {
            let before = old(self).keys@;
            assert forall|j: int| 0 <= j < self.keys@.len() implies positions(
                self.index,
            ).contains_key(#[trigger] self.keys@[j]) && positions(self.index)[self.keys@[j]] == j by {
                if j != i {
                    assert(self.keys@[j] == before[j]);
                    assert(before[j] != before[i as int]);
                    assert(before[j] != before[last as int]);
                }
            }
            assert forall|k: u64| #[trigger]
                positions(self.index).contains_key(k) implies positions(self.index)[k]
                < self.keys@.len() && self.keys@[positions(self.index)[k] as int] == k by {
                if i != last && k == moved {
                } else {
                    let p = positions(old(self).index)[k];
                    assert(positions(old(self).index).contains_key(k));
                    assert(before[p as int] == k);
                    assert(p != i);
                    assert(p != last);
                }
            }
        }
        value
    }

    /// Takes the slot of a key out of the table, if it holds one.
    pub fn remove(&mut self, key: u64) -> (removed: Option<V>)
        requires
            old(self).wf(),
        ensures
            final(self).wf(),
            match removed {
                Some(value) => old(self)@.contains_key(key) && value == old(self)@[key],
                None => !old(self)@.contains_key(key),
            },
            final(self)@ == old(self)@.remove(key),
    {
        match self.position(key) {
            Some(i) => Some(self.remove_at(i)),
            None => {
                assert(self@.remove(key) =~= self@);
                None
            },
        }
    }
}

} // verus!
