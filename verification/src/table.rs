//! An ordered table from three-part keys to values.
use vstd::prelude::*;

verus! {

/// A key, ordered by its parts from the left.
#[derive(Debug, Clone, Copy, PartialEq, Eq, Structural)]
pub struct Key {
    pub major: u64,
    pub middle: u64,
    pub minor: u64,
}

impl Key {
    pub open spec fn below(self, other: Key) -> bool {
        ||| self.major < other.major
        ||| self.major == other.major && self.middle < other.middle
        ||| self.major == other.major && self.middle == other.middle && self.minor < other.minor
    }

    pub fn is_below(&self, other: &Key) -> (yes: bool)
        ensures
            yes == self.below(*other),
    {
        if self.major != other.major {
            self.major < other.major
        } else if self.middle != other.middle {
            self.middle < other.middle
        } else {
            self.minor < other.minor
        }
    }
}

/// Keys are distinct and ascend.
pub open spec fn keys_ascend<V>(entries: Seq<(Key, V)>) -> bool {
    forall|i: int, j: int| 0 <= i < j < entries.len() ==> (#[trigger] entries[i]).0.below(
        (#[trigger] entries[j]).0,
    )
}

/// The position of `key` from `from` on.
pub open spec fn position<V>(entries: Seq<(Key, V)>, key: Key) -> Option<int> {
    if exists|i: int| 0 <= i < entries.len() && (#[trigger] entries[i]).0 == key {
        Some(choose|i: int| 0 <= i < entries.len() && (#[trigger] entries[i]).0 == key)
    } else {
        None
    }
}

/// Where a key is, or where it belongs.
#[derive(Debug, Clone, Copy, PartialEq, Eq, Structural)]
pub enum Place {
    Found(usize),
    Missing(usize),
}

#[derive(Debug, Clone)]
pub struct Table<V> {
    pub entries: Vec<(Key, V)>,
}

impl<V> View for Table<V> {
    type V = Map<Key, V>;

    open spec fn view(&self) -> Map<Key, V> {
        Map::new(
            |key: Key| self.has(key),
            |key: Key| self.entries@[position(self.entries@, key)->Some_0].1,
        )
    }
}

impl<V> Table<V> {
    pub open spec fn wf(self) -> bool {
        keys_ascend(self.entries@)
    }

    pub open spec fn has(self, key: Key) -> bool {
        exists|i: int| 0 <= i < self.entries@.len() && (#[trigger] self.entries@[i]).0 == key
    }

    pub fn new() -> (table: Self)
        ensures
            table.wf(),
            table.entries@.len() == 0,
            table@ == Map::<Key, V>::empty(),
    {
        let table = Table { entries: Vec::new() };
        assert(table@ =~= Map::<Key, V>::empty());
        table
    }

    pub fn len(&self) -> (count: usize)
        ensures
            count == self.entries@.len(),
    {
        self.entries.len()
    }

    /// Finds `key` by halving.
    pub fn find(&self, key: Key) -> (place: Place)
        requires
            self.wf(),
        ensures
            match place {
                Place::Found(index) => {
                    &&& index < self.entries@.len()
                    &&& self.entries@[index as int].0 == key
                    &&& self@.dom().contains(key)
                    &&& self@[key] == self.entries@[index as int].1
                },
                Place::Missing(index) => {
                    &&& index <= self.entries@.len()
                    &&& !self@.dom().contains(key)
                    &&& forall|i: int|
                        0 <= i < index ==> (#[trigger] self.entries@[i]).0.below(key)
                    &&& forall|i: int|
                        index <= i < self.entries@.len() ==> key.below(
                            (#[trigger] self.entries@[i]).0,
                        )
                },
            },
    {
        let mut low: usize = 0;
        let mut high: usize = self.entries.len();
        while low < high
            invariant
                low <= high <= self.entries@.len(),
                self.wf(),
                forall|i: int| 0 <= i < low ==> (#[trigger] self.entries@[i]).0.below(key),
                forall|i: int|
                    high <= i < self.entries@.len() ==> key.below((#[trigger] self.entries@[i]).0),
            decreases high - low,
        {
            let middle = low + (high - low) / 2;
            let at = self.entries[middle].0;
            if at.is_below(&key) {
                assert forall|i: int| 0 <= i < middle + 1 implies (
                #[trigger] self.entries@[i]).0.below(key) by {
                    if i < middle {
                        assert(self.entries@[i].0.below(self.entries@[middle as int].0));
                    }
                }
                low = middle + 1;
            } else if key.is_below(&at) {
                assert forall|i: int| middle <= i < self.entries@.len() implies key.below(
                    (#[trigger] self.entries@[i]).0,
                ) by {
                    if i > middle {
                        assert(self.entries@[middle as int].0.below(self.entries@[i].0));
                    }
                }
                high = middle;
            } else {
                assert(self.entries@[middle as int].0 == key);
                proof {
                    lemma_position(self.entries@, middle as int);
                }
                return Place::Found(middle);
            }
        }
        Place::Missing(low)
    }

    pub fn contains(&self, key: Key) -> (yes: bool)
        requires
            self.wf(),
        ensures
            yes == self@.dom().contains(key),
    {
        match self.find(key) {
            Place::Found(_) => true,
            Place::Missing(_) => false,
        }
    }

    pub fn get(&self, key: Key) -> (value: Option<&V>)
        requires
            self.wf(),
        ensures
            value is Some <==> self@.dom().contains(key),
            value matches Some(found) ==> *found == self@[key],
    {
        match self.find(key) {
            Place::Found(index) => Some(&self.entries[index].1),
            Place::Missing(_) => None,
        }
    }

    /// Adds a key that is not there; says whether it was added.
    pub fn insert_new(&mut self, key: Key, value: V) -> (added: bool)
        requires
            old(self).wf(),
        ensures
            final(self).wf(),
            added == !old(self)@.dom().contains(key),
            added ==> final(self)@ == old(self)@.insert(key, value),
            !added ==> *final(self) == *old(self),
    {
        match self.find(key) {
            Place::Found(_) => false,
            Place::Missing(index) => {
                self.insert_at(index, key, value);
                true
            },
        }
    }

    /// Puts a missing key where it belongs.
    pub fn insert_at(&mut self, index: usize, key: Key, value: V)
        requires
            old(self).wf(),
            index <= old(self).entries@.len(),
            !old(self)@.dom().contains(key),
            forall|i: int| 0 <= i < index ==> (#[trigger] old(self).entries@[i]).0.below(key),
            forall|i: int|
                index <= i < old(self).entries@.len() ==> key.below(
                    (#[trigger] old(self).entries@[i]).0,
                ),
        ensures
            final(self).wf(),
            final(self)@ == old(self)@.insert(key, value),
            final(self).entries@ == old(self).entries@.insert(index as int, (key, value)),
    {
        let ghost before = self.entries@;
        self.entries.insert(index, (key, value));
        proof {
            let after = self.entries@;
            assert forall|i: int, j: int| 0 <= i < j < after.len() implies (
            #[trigger] after[i]).0.below((#[trigger] after[j]).0) by {
                let x = if i < index { i } else { i - 1 };
                let y = if j < index { j } else { j - 1 };
                if i != index {
                    assert(after[i] == before[x]);
                }
                if j != index {
                    assert(after[j] == before[y]);
                }
            }
            assert(after[index as int] == (key, value));
            lemma_position(after, index as int);
            assert forall|other: Key| #[trigger] self.has(other) <==> old(self).has(other) || other
                == key by {
                if self.has(other) && other != key {
                    let i = choose|i: int| 0 <= i < after.len() && (#[trigger] after[i]).0 == other;
                    if i < index {
                        assert(before[i].0 == other);
                    } else {
                        assert(before[i - 1].0 == other);
                    }
                }
                if old(self).has(other) {
                    let i = choose|i: int|
                        0 <= i < before.len() && (#[trigger] before[i]).0 == other;
                    if i < index {
                        assert(after[i].0 == other);
                    } else {
                        assert(after[i + 1].0 == other);
                    }
                }
            }
            assert forall|other: Key| old(self).has(other) && other != key implies
                #[trigger] self@[other] == old(self)@[other] by {
                let i = choose|i: int| 0 <= i < before.len() && (#[trigger] before[i]).0 == other;
                lemma_position(before, i);
                let k = if i < index { i } else { i + 1 };
                assert(after[k].0 == other);
                lemma_position(after, k);
            }
            assert(self@ =~= old(self)@.insert(key, value));
        }
    }

    /// Replaces the value at a position.
    pub fn replace_at(&mut self, index: usize, value: V)
        requires
            old(self).wf(),
            index < old(self).entries@.len(),
        ensures
            final(self).wf(),
            final(self).entries@ == old(self).entries@.update(
                index as int,
                (old(self).entries@[index as int].0, value),
            ),
            final(self)@ == old(self)@.insert(old(self).entries@[index as int].0, value),
    {
        let key = self.entries[index].0;
        let ghost before = self.entries@;
        self.entries[index] = (key, value);
        proof {
            let after = self.entries@;
            assert(after =~= before.update(index as int, (key, value)));
            assert forall|i: int, j: int| 0 <= i < j < after.len() implies (
            #[trigger] after[i]).0.below((#[trigger] after[j]).0) by {
                assert(before[i].0.below(before[j].0));
            }
            lemma_position(after, index as int);
            assert forall|other: Key| #[trigger] self.has(other) <==> old(self).has(other) by {
                if self.has(other) {
                    let i = choose|i: int| 0 <= i < after.len() && (#[trigger] after[i]).0 == other;
                    assert(before[i].0 == other);
                }
                if old(self).has(other) {
                    let i = choose|i: int|
                        0 <= i < before.len() && (#[trigger] before[i]).0 == other;
                    assert(after[i].0 == other);
                }
            }
            assert(old(self).has(key)) by {
                assert(before[index as int].0 == key);
            }
            assert forall|other: Key| old(self).has(other) && other != key implies
                #[trigger] self@[other] == old(self)@[other] by {
                let i = choose|i: int| 0 <= i < before.len() && (#[trigger] before[i]).0 == other;
                lemma_position(before, i);
                assert(after[i].0 == other);
                lemma_position(after, i);
            }
            assert(self@ =~= old(self)@.insert(key, value));
        }
    }
}

/// A key of a table has one position.
pub proof fn lemma_position<V>(entries: Seq<(Key, V)>, index: int)
    requires
        keys_ascend(entries),
        0 <= index < entries.len(),
    ensures
        position(entries, entries[index].0) == Some(index),
{
    let key = entries[index].0;
    let found = choose|i: int| 0 <= i < entries.len() && (#[trigger] entries[i]).0 == key;
    assert(entries[index].0 == key);
    if found < index {
        assert(entries[found].0.below(entries[index].0));
    }
    if index < found {
        assert(entries[index].0.below(entries[found].0));
    }
}

/// A table holds exactly its entries.
pub proof fn lemma_entry<V>(table: Table<V>, index: int)
    requires
        table.wf(),
        0 <= index < table.entries@.len(),
    ensures
        table@.dom().contains(table.entries@[index].0),
        table@[table.entries@[index].0] == table.entries@[index].1,
{
    lemma_position(table.entries@, index);
    assert(table.has(table.entries@[index].0));
}

/// Two tables with one meaning are one list: the order of entries does not
/// depend on how a table came about.
pub proof fn lemma_same_map_same_entries<V>(left: Table<V>, right: Table<V>)
    requires
        left.wf(),
        right.wf(),
        left@ == right@,
    ensures
        left.entries@ == right.entries@,
{
    let a = left.entries@;
    let b = right.entries@;
    if a.len() > 0 {
        lemma_prefix_agrees(left, right, a.len() - 1);
    }
    if b.len() > 0 {
        lemma_prefix_agrees(right, left, b.len() - 1);
    }
    assert forall|i: int| 0 <= i < a.len() implies a[i] == b[i] by {
        lemma_prefix_agrees(left, right, i);
    }
    assert(a =~= b);
}

proof fn lemma_prefix_agrees<V>(left: Table<V>, right: Table<V>, index: int)
    requires
        left.wf(),
        right.wf(),
        left@ == right@,
        0 <= index < left.entries@.len(),
    ensures
        index < right.entries@.len(),
        left.entries@[index] == right.entries@[index],
    decreases index,
{
    let a = left.entries@;
    let b = right.entries@;
    if index > 0 {
        lemma_prefix_agrees(left, right, index - 1);
    }
    lemma_entry(left, index);
    let key = a[index].0;
    assert(right.has(key));
    let j = choose|j: int| 0 <= j < b.len() && (#[trigger] b[j]).0 == key;
    if j < index {
        lemma_prefix_agrees(left, right, j);
        assert(a[j].0.below(a[index].0));
    }
    if j > index {
        lemma_entry(right, index);
        let other = b[index].0;
        assert(left.has(other));
        let k = choose|k: int| 0 <= k < a.len() && (#[trigger] a[k]).0 == other;
        assert(b[index].0.below(b[j].0));
        if k < index {
            lemma_prefix_agrees(left, right, k);
            assert(b[k].0.below(b[index].0));
        } else if k > index {
            assert(a[index].0.below(a[k].0));
        }
    }
    lemma_entry(right, j);
}

} // verus!
