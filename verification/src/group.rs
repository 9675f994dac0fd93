//! Grouping a list of keyed items by key.
use vstd::prelude::*;

use crate::table::{lemma_position, Key, Place, Table};

verus! {

/// The items of a list that carry `key`, in the order of the list.
pub open spec fn items_of<V>(list: Seq<(Key, V)>, key: Key) -> Seq<V>
    decreases list.len(),
{
    if list.len() == 0 {
        Seq::empty()
    } else {
        let rest = items_of(list.drop_last(), key);
        if list.last().0 == key {
            rest.push(list.last().1)
        } else {
            rest
        }
    }
}

/// The groups hold each key of the list once, with its items in their order.
pub open spec fn groups_of<V>(groups: Table<Vec<V>>, list: Seq<(Key, V)>) -> bool {
    &&& groups.wf()
    &&& forall|key: Key| #[trigger]
        groups@.dom().contains(key) <==> items_of(list, key).len() > 0
    &&& forall|key: Key| #[trigger]
        groups@.dom().contains(key) ==> groups@[key]@ == items_of(list, key)
}

/// Groups items by key, keys in ascending order.
pub fn group_items<V: Copy>(list: &Vec<(Key, V)>) -> (groups: Table<Vec<V>>)
    ensures
        groups_of(groups, list@),
{
    let mut groups: Table<Vec<V>> = Table::new();
    let mut index: usize = 0;
    assert(list@.take(0) =~= Seq::<(Key, V)>::empty());
    while index < list.len()
        invariant
            index <= list@.len(),
            groups_of(groups, list@.take(index as int)),
        decreases list.len() - index,
    {
        let (key, item) = list[index];
        add_item(&mut groups, key, item, Ghost(list@.take(index as int)));
        proof {
            assert(list@.take(index as int + 1) =~= list@.take(index as int).push((key, item)));
        }
        index = index + 1;
    }
    assert(list@.take(index as int) =~= list@);
    groups
}

fn add_item<V: Copy>(
    groups: &mut Table<Vec<V>>,
    key: Key,
    item: V,
    Ghost(list): Ghost<Seq<(Key, V)>>,
)
    requires
        groups_of(*old(groups), list),
    ensures
        groups_of(*final(groups), list.push((key, item))),
{
    let ghost before = *groups;
    let ghost longer = list.push((key, item));
    assert(longer.drop_last() =~= list);
    match groups.find(key) {
        Place::Found(place) => {
            let mut items: Vec<V> = Vec::new();
            std::mem::swap(&mut items, &mut groups.entries[place].1);
            items.push(item);
            assert(items@ =~= items_of(longer, key));
            groups.entries[place] = (key, items);
            proof {
                let after = groups.entries@;
                assert(after =~= before.entries@.update(place as int, (key, items)));
                lemma_replaced(before, *groups, place as int, key, items);
            }
        },
        Place::Missing(place) => {
            let items = vec![item];
            assert(items@ =~= seq![item]);
            assert(items_of(list, key).len() == 0);
            assert(items_of(longer, key) =~= seq![item]);
            groups.insert_at(place, key, items);
            assert(groups@ =~= before@.insert(key, items));
        },
    }
}

proof fn lemma_replaced<V>(before: Table<V>, after: Table<V>, place: int, key: Key, value: V)
    requires
        before.wf(),
        0 <= place < before.entries@.len(),
        before.entries@[place].0 == key,
        after.entries@ == before.entries@.update(place, (key, value)),
    ensures
        after.wf(),
        after@ == before@.insert(key, value),
{
    let old_entries = before.entries@;
    let entries = after.entries@;
    assert forall|i: int, j: int| 0 <= i < j < entries.len() implies (
    #[trigger] entries[i]).0.below((#[trigger] entries[j]).0) by {
        assert(old_entries[i].0.below(old_entries[j].0));
    }
    lemma_position(entries, place);
    assert forall|other: Key| #[trigger] after.has(other) <==> before.has(other) by {
        if after.has(other) {
            let i = choose|i: int| 0 <= i < entries.len() && (#[trigger] entries[i]).0 == other;
            assert(old_entries[i].0 == other);
        }
        if before.has(other) {
            let i = choose|i: int|
                0 <= i < old_entries.len() && (#[trigger] old_entries[i]).0 == other;
            assert(entries[i].0 == other);
        }
    }
    assert(before.has(key)) by {
        assert(old_entries[place].0 == key);
    }
    assert forall|other: Key| before.has(other) && other != key implies #[trigger] after@[other]
        == before@[other] by {
        let i = choose|i: int| 0 <= i < old_entries.len() && (#[trigger] old_entries[i]).0 == other;
        lemma_position(old_entries, i);
        assert(entries[i].0 == other);
        lemma_position(entries, i);
    }
    assert(after@ =~= before@.insert(key, value));
}

/// A group has the key of some item of the list.
pub proof fn lemma_group_key<V>(list: Seq<(Key, V)>, key: Key) -> (index: int)
    requires
        items_of(list, key).len() > 0,
    ensures
        0 <= index < list.len(),
        list[index].0 == key,
    decreases list.len(),
{
    if list.last().0 == key {
        list.len() - 1
    } else {
        let index = lemma_group_key(list.drop_last(), key);
        index
    }
}

} // verus!
