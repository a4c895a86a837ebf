//! Keyed tables that keep their entries in insertion order.

use vstd::prelude::*;

verus! {

/// A value that names something: two identifiers name the same thing exactly
/// when their keys are equal.
pub trait Identifier: Sized {
    /// The mathematical value that the identifier stands for.
    type Key;

    /// The key of the identifier. Contracts speak of it; nothing runs it.
    spec fn key(&self) -> Self::Key;

    fn same_as(&self, other: &Self) -> (same: bool)
        ensures
            same == (self.key() == other.key()),
    ;

    fn duplicate(&self) -> (copy: Self)
        ensures
            copy.key() == self.key(),
    ;
}

impl Identifier for String {
    type Key = Seq<char>;

    open spec fn key(&self) -> Seq<char> {
        self@
    }

    fn same_as(&self, other: &Self) -> (same: bool) {
        assert(self.key() == self@ && other.key() == other@);
        *self == *other
    }

    fn duplicate(&self) -> (copy: Self) {
        self.clone()
    }
}

/// Whether some entry of `entries` is filed under `key`.
pub open spec fn has_key<A, B>(entries: Seq<(A, B)>, key: A) -> bool {
    exists|i: int| 0 <= i < entries.len() && (#[trigger] entries[i]).0 == key
}

/// The position of an entry filed under `key`.
pub open spec fn index_of<A, B>(entries: Seq<(A, B)>, key: A) -> int {
    choose|i: int| 0 <= i < entries.len() && (#[trigger] entries[i]).0 == key
}

/// The value filed under `key`, if there is one.
pub open spec fn lookup<A, B>(entries: Seq<(A, B)>, key: A) -> Option<B> {
    if has_key(entries, key) {
        Some(entries[index_of(entries, key)].1)
    } else {
        None
    }
}

/// `entries` with `value` filed under `key`: in place of the entry that was
/// there, or else at the end.
pub open spec fn upsert<A, B>(entries: Seq<(A, B)>, key: A, value: B) -> Seq<(A, B)> {
    if has_key(entries, key) {
        entries.update(index_of(entries, key), (key, value))
    } else {
        entries.push((key, value))
    }
}

/// `entries` without the entry filed under `key`.
pub open spec fn without<A, B>(entries: Seq<(A, B)>, key: A) -> Seq<(A, B)> {
    if has_key(entries, key) {
        entries.remove(index_of(entries, key))
    } else {
        entries
    }
}

/// No two entries are filed under the same key.
pub open spec fn distinct_keys<A, B>(entries: Seq<(A, B)>) -> bool {
    forall|i: int, j: int|
        0 <= i < j < entries.len() ==> (#[trigger] entries[i]).0 != (#[trigger] entries[j]).0
}

/// In a table without repeated keys an entry is found at its own position.
pub proof fn lemma_index_of<A, B>(entries: Seq<(A, B)>, i: int)
    requires
        distinct_keys(entries),
        0 <= i < entries.len(),
    ensures
        has_key(entries, entries[i].0),
        index_of(entries, entries[i].0) == i,
        lookup(entries, entries[i].0) == Some(entries[i].1),
{
    let key = entries[i].0;
    assert(has_key(entries, key));
    let j = index_of(entries, key);
    assert(0 <= j < entries.len() && entries[j].0 == key);
    if j < i {
        assert(entries[j].0 != entries[i].0);
    } else if i < j {
        assert(entries[i].0 != entries[j].0);
    }
}

/// The entries of a table whose identifiers are `keys` and whose values, in
/// the same order, are `values`.
pub open spec fn keyed<K: Identifier, V>(keys: Seq<K>, values: Seq<V>) -> Seq<(K::Key, V)> {
    Seq::new(
        if keys.len() <= values.len() {
            keys.len()
        } else {
            values.len()
        },
        |i: int| (keys[i].key(), values[i]),
    )
}

/// Replacing the value of an entry keeps the keys distinct.
pub proof fn lemma_update_distinct<A, B>(entries: Seq<(A, B)>, i: int, value: B)
    requires
        distinct_keys(entries),
        0 <= i < entries.len(),
    ensures
        distinct_keys(entries.update(i, (entries[i].0, value))),
{
    let after = entries.update(i, (entries[i].0, value));
    assert forall|a: int, b: int| 0 <= a < b < after.len() implies (#[trigger] after[a]).0 != (
    #[trigger] after[b]).0 by {
        assert(entries[a].0 != entries[b].0);
    }
}

/// Adding an entry under a new key keeps the keys distinct.
pub proof fn lemma_push_distinct<A, B>(entries: Seq<(A, B)>, key: A, value: B)
    requires
        distinct_keys(entries),
        !has_key(entries, key),
    ensures
        distinct_keys(entries.push((key, value))),
{
    let after = entries.push((key, value));
    assert forall|a: int, b: int| 0 <= a < b < after.len() implies (#[trigger] after[a]).0 != (
    #[trigger] after[b]).0 by {
        if b < entries.len() {
            assert(entries[a].0 != entries[b].0);
        } else {
            assert(entries[a].0 != key);
        }
    }
}

/// Taking an entry out keeps the keys distinct.
pub proof fn lemma_remove_distinct<A, B>(entries: Seq<(A, B)>, i: int)
    requires
        distinct_keys(entries),
        0 <= i < entries.len(),
    ensures
        distinct_keys(entries.remove(i)),
        !has_key(entries.remove(i), entries[i].0),
{
    let after = entries.remove(i);
    assert forall|a: int, b: int| 0 <= a < b < after.len() implies (#[trigger] after[a]).0 != (
    #[trigger] after[b]).0 by {
        let a0 = if a < i { a } else { a + 1 };
        let b0 = if b < i { b } else { b + 1 };
        assert(entries[a0].0 != entries[b0].0);
    }
    assert forall|a: int| 0 <= a < after.len() implies (#[trigger] after[a]).0 != entries[i].0 by {
        let a0 = if a < i { a } else { a + 1 };
        if a0 < i {
            assert(entries[a0].0 != entries[i].0);
        } else {
            assert(entries[i].0 != entries[a0].0);
        }
    }
}

/// What is found in a table after a value was filed in it.
pub proof fn lemma_lookup_upsert<A, B>(entries: Seq<(A, B)>, key: A, value: B, other: A)
    requires
        distinct_keys(entries),
    ensures
        distinct_keys(upsert(entries, key, value)),
        has_key(upsert(entries, key, value), other) == (other == key || has_key(entries, other)),
        lookup(upsert(entries, key, value), other) == if other == key {
            Some(value)
        } else {
            lookup(entries, other)
        },
{
    let after = upsert(entries, key, value);
    if has_key(entries, key) {
        let i = index_of(entries, key);
        lemma_update_distinct(entries, i, value);
        assert(after[i] == (key, value));
        lemma_index_of(after, i);
        if other != key {
            if has_key(entries, other) {
                let j = index_of(entries, other);
                assert(after[j] == entries[j]);
                lemma_index_of(after, j);
            } else if has_key(after, other) {
                let j = index_of(after, other);
                assert(entries[j].0 == other);
            }
        }
    } else {
        lemma_push_distinct(entries, key, value);
        let i = entries.len() as int;
        assert(after[i] == (key, value));
        lemma_index_of(after, i);
        if other != key {
            if has_key(entries, other) {
                let j = index_of(entries, other);
                assert(after[j] == entries[j]);
                lemma_index_of(after, j);
            } else if has_key(after, other) {
                let j = index_of(after, other);
                assert(entries[j].0 == other);
            }
        }
    }
}

/// What is found in a table after an entry was taken out of it.
pub proof fn lemma_lookup_without<A, B>(entries: Seq<(A, B)>, key: A, other: A)
    requires
        distinct_keys(entries),
    ensures
        distinct_keys(without(entries, key)),
        has_key(without(entries, key), other) == (other != key && has_key(entries, other)),
        lookup(without(entries, key), other) == if other == key {
            None
        } else {
            lookup(entries, other)
        },
{
    let after = without(entries, key);
    if has_key(entries, key) {
        let i = index_of(entries, key);
        lemma_remove_distinct(entries, i);
        if other != key {
            if has_key(entries, other) {
                let j = index_of(entries, other);
                let moved = if j < i { j } else { j - 1 };
                assert(after[moved] == entries[j]);
                lemma_index_of(after, moved);
            } else if has_key(after, other) {
                let j = index_of(after, other);
                let origin = if j < i { j } else { j + 1 };
                assert(entries[origin].0 == other);
            }
        }
    }
}

/// A map from identifiers to values that remembers the order in which its
/// keys first arrived.
pub struct Table<K: Identifier, V> {
    keys: Vec<K>,
    values: Vec<V>,
}

impl<K: Identifier, V> View for Table<K, V> {
    type V = Seq<(K::Key, V)>;

    closed spec fn view(&self) -> Seq<(K::Key, V)> {
        keyed(self.keys@, self.values@)
    }
}

impl<K: Identifier, V> Table<K, V> {
    /// What holds of every table: no key occurs twice.
    #[verifier::type_invariant]
    pub closed spec fn well_formed(&self) -> bool {
        &&& self.keys@.len() == self.values@.len()
        &&& distinct_keys(self@)
    }

    /// The entries of a well-formed table have pairwise distinct keys.
    pub proof fn lemma_well_formed(self)
        requires
            self.well_formed(),
        ensures
            distinct_keys(self@),
    {
    }

    pub fn new() -> (table: Self)
        ensures
            table@ == Seq::<(K::Key, V)>::empty(),
    {
        let keys: Vec<K> = Vec::new();
        let values: Vec<V> = Vec::new();
        assert(keyed(keys@, values@) =~= Seq::<(K::Key, V)>::empty());
        Table { keys, values }
    }

    pub fn len(&self) -> (n: usize)
        ensures
            n == self@.len(),
    {
        proof {
            use_type_invariant(self);
        }
        self.keys.len()
    }

    /// The position of the entry filed under `key`.
    pub fn position(&self, key: &K) -> (found: Option<usize>)
        ensures
            found is Some == has_key(self@, key.key()),
            found matches Some(i) ==> i == index_of(self@, key.key()) && i < self@.len(),
    {
        proof {
            use_type_invariant(self);
        }
        let n: usize = self.len();
        let mut i: usize = 0;
        while i < n
            invariant
                n == self@.len(),
                i <= n,
                distinct_keys(self@),
                forall|j: int| 0 <= j < i ==> (#[trigger] self@[j]).0 != key.key(),
            decreases n - i,
        {
            if self.keys[i].same_as(key) {
                proof {
                    assert(self@[i as int].0 == key.key());
                    lemma_index_of(self@, i as int);
                }
                return Some(i);
            }
            i = i + 1;
        }
        None
    }

    pub fn contains_key(&self, key: &K) -> (found: bool)
        ensures
            found == has_key(self@, key.key()),
    {
        self.position(key).is_some()
    }

    pub fn get(&self, key: &K) -> (value: Option<&V>)
        ensures
            match value {
                Some(found) => lookup(self@, key.key()) == Some(*found),
                None => lookup(self@, key.key()) is None,
            },
    {
        match self.position(key) {
            Some(i) => Some(&self.values[i]),
            None => None,
        }
    }

    /// Files `value` under `key`, in place of what was filed there before.
    pub fn insert(&mut self, key: K, value: V)
        ensures
            final(self)@ == upsert(old(self)@, key.key(), value),
    {
        proof {
            use_type_invariant(&*self);
        }
        let ghost before = self@;
        let found = self.position(&key);
        let mut taken: Table<K, V> = Table::new();
        core::mem::swap(self, &mut taken);
        let Table { mut keys, mut values } = taken;
        match found {
            Some(i) => {
                keys[i] = key;
                values[i] = value;
                proof {
                    assert(keyed(keys@, values@) =~= before.update(i as int, (key.key(), value)));
                    lemma_update_distinct(before, i as int, value);
                }
            },
            None => {
                keys.push(key);
                values.push(value);
                proof {
                    assert(keyed(keys@, values@) =~= before.push((key.key(), value)));
                    lemma_push_distinct(before, key.key(), value);
                }
            },
        }
        let mut rebuilt = Table { keys, values };
        core::mem::swap(self, &mut rebuilt);
    }

    /// Takes out the entry filed under `key`, if there is one.
    pub fn remove(&mut self, key: &K)
        ensures
            final(self)@ == without(old(self)@, key.key()),
    {
        proof {
            use_type_invariant(&*self);
        }
        let ghost before = self@;
        match self.position(key) {
            Some(i) => {
                let mut taken: Table<K, V> = Table::new();
                core::mem::swap(self, &mut taken);
                let Table { mut keys, mut values } = taken;
                let _ = keys.remove(i);
                let _ = values.remove(i);
                proof {
                    assert(keyed(keys@, values@) =~= before.remove(i as int));
                    lemma_remove_distinct(before, i as int);
                }
                let mut rebuilt = Table { keys, values };
                core::mem::swap(self, &mut rebuilt);
            },
            None => {},
        }
    }

    /// Exclusive access to the value of the entry at `index`.
    pub fn value_at_mut(&mut self, index: usize) -> (value: &mut V)
        requires
            index < old(self)@.len(),
        ensures
            *value == old(self)@[index as int].1,
            final(self)@ == old(self)@.update(
                index as int,
                (old(self)@[index as int].0, *final(value)),
            ),
    {
        proof {
            use_type_invariant(&*self);
            assert forall|v: V|
                keyed(self.keys@, #[trigger] self.values@.update(index as int, v))
                    =~= self@.update(index as int, (self@[index as int].0, v))
                && distinct_keys(keyed(self.keys@, self.values@.update(index as int, v))) by {
                lemma_update_distinct(self@, index as int, v);
            }
        }
        &mut self.values[index]
    }

    /// Exclusive access to the value filed under `key`, if there is one.
    pub fn get_mut(&mut self, key: &K) -> (value: Option<&mut V>)
        ensures
            match value {
                Some(found) => has_key(old(self)@, key.key()) && *found == old(self)@[index_of(
                    old(self)@,
                    key.key(),
                )].1 && final(self)@ == old(self)@.update(
                    index_of(old(self)@, key.key()),
                    (key.key(), *final(found)),
                ),
                None => !has_key(old(self)@, key.key()) && final(self)@ == old(self)@,
            },
    {
        match self.position(key) {
            Some(i) => Some(self.value_at_mut(i)),
            None => None,
        }
    }

    /// The key of the entry at `index`.
    pub fn key_at(&self, index: usize) -> (key: &K)
        requires
            index < self@.len(),
        ensures
            key.key() == self@[index as int].0,
    {
        &self.keys[index]
    }

    /// The value of the entry at `index`.
    pub fn value_at(&self, index: usize) -> (value: &V)
        requires
            index < self@.len(),
        ensures
            *value == self@[index as int].1,
    {
        &self.values[index]
    }
}

/// A table of tables with each inner table replaced by its entries.
pub open spec fn viewed<A, K: Identifier, V>(entries: Seq<(A, Table<K, V>)>) -> Seq<
    (A, Seq<(K::Key, V)>),
> {
    Seq::new(entries.len(), |i: int| (entries[i].0, entries[i].1@))
}

/// Looking into the inner tables changes neither the keys nor where they
/// stand.
pub proof fn lemma_viewed<A, K: Identifier, V>(entries: Seq<(A, Table<K, V>)>, key: A)
    requires
        distinct_keys(entries),
    ensures
        distinct_keys(viewed(entries)),
        has_key(viewed(entries), key) == has_key(entries, key),
        has_key(entries, key) ==> index_of(viewed(entries), key) == index_of(entries, key),
        lookup(viewed(entries), key) == match lookup(entries, key) {
            Some(table) => Some(table@),
            None => None,
        },
{
    let inner = viewed(entries);
    assert forall|i: int, j: int| 0 <= i < j < inner.len() implies (#[trigger] inner[i]).0 != (
    #[trigger] inner[j]).0 by {
        assert(entries[i].0 != entries[j].0);
    }
    if has_key(entries, key) {
        let i = index_of(entries, key);
        assert(inner[i].0 == key);
        lemma_index_of(inner, i);
    } else if has_key(inner, key) {
        let i = index_of(inner, key);
        assert(entries[i].0 == key);
    }
}

/// Filing a table and then looking into the tables is looking into them and
/// then filing its entries.
pub proof fn lemma_viewed_upsert<A, K: Identifier, V>(
    entries: Seq<(A, Table<K, V>)>,
    key: A,
    table: Table<K, V>,
)
    requires
        distinct_keys(entries),
    ensures
        viewed(upsert(entries, key, table)) == upsert(viewed(entries), key, table@),
{
    lemma_viewed(entries, key);
    assert(viewed(upsert(entries, key, table)) =~= upsert(viewed(entries), key, table@));
}

/// Taking a table out and then looking into the tables is looking into
/// them and then taking its entries out.
pub proof fn lemma_viewed_without<A, K: Identifier, V>(entries: Seq<(A, Table<K, V>)>, key: A)
    requires
        distinct_keys(entries),
    ensures
        viewed(without(entries, key)) == without(viewed(entries), key),
{
    lemma_viewed(entries, key);
    assert(viewed(without(entries, key)) =~= without(viewed(entries), key));
}

/// Replacing an inner table and then looking into the tables is looking
/// into them and then replacing its entries.
pub proof fn lemma_viewed_update<A, K: Identifier, V>(
    entries: Seq<(A, Table<K, V>)>,
    index: int,
    table: Table<K, V>,
)
    requires
        0 <= index < entries.len(),
    ensures
        viewed(entries.update(index, (entries[index].0, table))) == viewed(entries).update(
            index,
            (entries[index].0, table@),
        ),
{
    assert(viewed(entries.update(index, (entries[index].0, table))) =~= viewed(entries).update(
        index,
        (entries[index].0, table@),
    ));
}

} // verus!
