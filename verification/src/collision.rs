//! Collision lists: the items of the last level whose keys differ and whose
//! hashes are equal.

use crate::item_store::{HashKey, ItemStore};
use crate::node::{all_hash_to, distinct_keys, items_contain, items_map, items_position};
use vstd::prelude::*;

verus! {

/// In a list of distinct keys, the map binds the key of each item to the
/// value of that item.
pub proof fn lemma_items_lookup<K, V, IS: ItemStore<K, V>>(items: Seq<IS>, i: int)
    requires
        distinct_keys::<K, V, IS>(items),
        0 <= i < items.len(),
    ensures
        items_contain::<K, V, IS>(items, items[i].spec_key()),
        items_position::<K, V, IS>(items, items[i].spec_key()) == i,
        items_map::<K, V, IS>(items).contains_key(items[i].spec_key()),
        items_map::<K, V, IS>(items)[items[i].spec_key()] == items[i].spec_val(),
{
    let p = items_position::<K, V, IS>(items, items[i].spec_key());
}

/// A key that the map of a list binds is the key of an item of the list.
pub proof fn lemma_items_witness<K, V, IS: ItemStore<K, V>>(items: Seq<IS>, key: K) -> (i: int)
    requires
        items_map::<K, V, IS>(items).contains_key(key),
    ensures
        0 <= i < items.len(),
        items[i].spec_key() == key,
{
    items_position::<K, V, IS>(items, key)
}

/// Replacing the item that has the key of `item` by `item` binds that key to
/// the value of `item`.
pub proof fn lemma_items_replace<K, V, IS: ItemStore<K, V>>(items: Seq<IS>, p: int, item: IS)
    requires
        distinct_keys::<K, V, IS>(items),
        0 <= p < items.len(),
        items[p].spec_key() == item.spec_key(),
    ensures
        distinct_keys::<K, V, IS>(items.update(p, item)),
        items_map::<K, V, IS>(items.update(p, item)) == items_map::<K, V, IS>(items).insert(
            item.spec_key(),
            item.spec_val(),
        ),
{
    let new = items.update(p, item);
    assert forall|i: int, j: int| 0 <= i < j < new.len() implies #[trigger] new[i].spec_key()
        != #[trigger] new[j].spec_key() by {}
    let goal = items_map::<K, V, IS>(items).insert(item.spec_key(), item.spec_val());
    assert forall|k: K| #[trigger]
        items_map::<K, V, IS>(new).contains_key(k) implies goal.contains_key(k) && goal[k]
        == items_map::<K, V, IS>(new)[k] by {
        lemma_items_witness::<K, V, IS>(new, k);
    }
    assert forall|k: K| #[trigger] goal.contains_key(k) implies items_map::<K, V, IS>(
        new,
    ).contains_key(k) by {
        if k == item.spec_key() {
            lemma_items_lookup::<K, V, IS>(new, p);
        } else {
            let i = lemma_items_witness::<K, V, IS>(items, k);
            lemma_items_lookup::<K, V, IS>(new, i);
        }
    }
}

/// Putting an item with a new key in front of a list binds that key to the
/// value of the item.
pub proof fn lemma_items_prepend<K, V, IS: ItemStore<K, V>>(items: Seq<IS>, item: IS)
    requires
        distinct_keys::<K, V, IS>(items),
        !items_contain::<K, V, IS>(items, item.spec_key()),
    ensures
        distinct_keys::<K, V, IS>(seq![item] + items),
        items_map::<K, V, IS>(seq![item] + items) == items_map::<K, V, IS>(items).insert(
            item.spec_key(),
            item.spec_val(),
        ),
{
    let new = seq![item] + items;
    assert forall|i: int, j: int| 0 <= i < j < new.len() implies #[trigger] new[i].spec_key()
        != #[trigger] new[j].spec_key() by {}
    let goal = items_map::<K, V, IS>(items).insert(item.spec_key(), item.spec_val());
    assert forall|k: K| #[trigger]
        items_map::<K, V, IS>(new).contains_key(k) implies goal.contains_key(k) && goal[k]
        == items_map::<K, V, IS>(new)[k] by {
        lemma_items_witness::<K, V, IS>(new, k);
    }
    assert forall|k: K| #[trigger] goal.contains_key(k) implies items_map::<K, V, IS>(
        new,
    ).contains_key(k) by {
        if k == item.spec_key() {
            lemma_items_lookup::<K, V, IS>(new, 0);
        } else {
            let i = lemma_items_witness::<K, V, IS>(items, k);
            assert(new[i + 1] == items[i]);
        }
    }
}

/// Taking an item out of a list of distinct keys unbinds the key of that item.
pub proof fn lemma_items_remove<K, V, IS: ItemStore<K, V>>(items: Seq<IS>, p: int)
    requires
        distinct_keys::<K, V, IS>(items),
        0 <= p < items.len(),
    ensures
        distinct_keys::<K, V, IS>(items.remove(p)),
        items_map::<K, V, IS>(items.remove(p)) == items_map::<K, V, IS>(items).remove(
            items[p].spec_key(),
        ),
{
    let new = items.remove(p);
    let back = |i: int| if i < p { i } else { i + 1 };
    assert forall|i: int| 0 <= i < new.len() implies #[trigger] new[i] == items[back(i)] by {}
    assert forall|i: int, j: int| 0 <= i < j < new.len() implies #[trigger] new[i].spec_key()
        != #[trigger] new[j].spec_key() by {}
    let goal = items_map::<K, V, IS>(items).remove(items[p].spec_key());
    assert forall|k: K| #[trigger]
        items_map::<K, V, IS>(new).contains_key(k) implies goal.contains_key(k) && goal[k]
        == items_map::<K, V, IS>(new)[k] by {
        lemma_items_witness::<K, V, IS>(new, k);
    }
    assert forall|k: K| #[trigger] goal.contains_key(k) implies items_map::<K, V, IS>(
        new,
    ).contains_key(k) by {
        let i = lemma_items_witness::<K, V, IS>(items, k);
        let j = if i < p { i } else { i - 1 };
        assert(new[j] == items[back(j)]);
    }
}

/// A list of one item stands for the map that binds the key of the item to
/// its value.
pub proof fn lemma_items_single<K, V, IS: ItemStore<K, V>>(items: Seq<IS>)
    requires
        items.len() == 1,
    ensures
        items_map::<K, V, IS>(items) == Map::<K, V>::empty().insert(
            items[0].spec_key(),
            items[0].spec_val(),
        ),
{
    let goal = Map::<K, V>::empty().insert(items[0].spec_key(), items[0].spec_val());
    assert forall|k: K| #[trigger] items_map::<K, V, IS>(items).contains_key(k) implies goal.contains_key(
        k,
    ) by {
        lemma_items_witness::<K, V, IS>(items, k);
    }
}

/// The position of the first item with key `key` in `items`, if there is one.
pub fn find_position<K: HashKey, V, IS: ItemStore<K, V>>(items: &Vec<IS>, key: &K) -> (r: Option<
    usize,
>)
    ensures
        match r {
            Some(p) => {
                &&& p < items@.len()
                &&& items@[p as int].spec_key() == *key
                &&& forall|j: int| 0 <= j < p ==> (#[trigger] items@[j].spec_key()) != *key
            },
            None => !items_contain::<K, V, IS>(items@, *key),
        },
{
    let mut i: usize = 0;
    while i < items.len()
        invariant
            i <= items@.len(),
            forall|j: int| 0 <= j < i ==> (#[trigger] items@[j].spec_key()) != *key,
        decreases items@.len() - i,
    {
        if items[i].key().key_eq(key) {
            return Some(i);
        }
        i += 1;
    }
    None
}

/// Clones the items of `items` from `from` up to `to` onto the end of `target`.
pub fn push_all<K, V, IS: ItemStore<K, V>>(target: &mut Vec<IS>, items: &Vec<IS>, from: usize, to: usize)
    requires
        from <= to <= items@.len(),
    ensures
        final(target)@ == old(target)@ + items@.subrange(from as int, to as int),
{
    let mut i: usize = from;
    while i < to
        invariant
            from <= i <= to <= items@.len(),
            target@ == old(target)@ + items@.subrange(from as int, i as int),
        decreases to - i,
    {
        target.push(items[i].clone_item());
        i += 1;
    }
}

/// The collision list after `new_kvp` is inserted: with the item of the same
/// key replaced, if there is one, and else with `new_kvp` in front.
/// `insertion_count` is set to 0 if an item was replaced and to 1 otherwise.
pub fn insert_into_items<K: HashKey, V, IS: ItemStore<K, V>>(
    items: &Vec<IS>,
    new_kvp: IS,
    insertion_count: &mut usize,
) -> (new_items: Vec<IS>)
    requires
        distinct_keys::<K, V, IS>(items@),
    ensures
        new_items@ == if items_contain::<K, V, IS>(items@, new_kvp.spec_key()) {
            items@.update(items_position::<K, V, IS>(items@, new_kvp.spec_key()), new_kvp)
        } else {
            seq![new_kvp] + items@
        },
        distinct_keys::<K, V, IS>(new_items@),
        items_map::<K, V, IS>(new_items@) == items_map::<K, V, IS>(items@).insert(
            new_kvp.spec_key(),
            new_kvp.spec_val(),
        ),
        *final(insertion_count) == if items_contain::<K, V, IS>(items@, new_kvp.spec_key()) {
            0usize
        } else {
            1usize
        },
        forall|h: u64|
            all_hash_to::<K, V, IS>(items@, h) && new_kvp.spec_key().spec_hash() == h
                ==> all_hash_to::<K, V, IS>(new_items@, h),
{
    let position = find_position::<K, V, IS>(items, new_kvp.key());
    match position {
        None => {
            *insertion_count = 1;
            let mut new_items: Vec<IS> = Vec::with_capacity(items.len().saturating_add(1));
            let ghost item = new_kvp;
            new_items.push(new_kvp);
            push_all::<K, V, IS>(&mut new_items, items, 0, items.len());
            proof {
                assert(items@.subrange(0, items@.len() as int) =~= items@);
                assert(new_items@ =~= seq![item] + items@);
                lemma_items_prepend::<K, V, IS>(items@, item);
                assert forall|h: u64|
                    all_hash_to::<K, V, IS>(items@, h) && item.spec_key().spec_hash()
                        == h implies all_hash_to::<K, V, IS>(new_items@, h) by {
                    assert forall|i: int| 0 <= i < new_items@.len() implies (
                    #[trigger] new_items@[i].spec_key()).spec_hash() == h by {}
                }
            }
            new_items
        },
        Some(position) => {
            *insertion_count = 0;
            let item_count: usize = items.len();
            let mut new_items: Vec<IS> = Vec::with_capacity(item_count);
            let ghost item = new_kvp;
            if position > 0 {
                push_all::<K, V, IS>(&mut new_items, items, 0, position);
            }
            new_items.push(new_kvp);
            if position < item_count - 1 {
                push_all::<K, V, IS>(&mut new_items, items, position + 1, item_count);
            }
            proof {
                assert(new_items@ =~= items@.update(position as int, item));
                lemma_items_lookup::<K, V, IS>(items@, position as int);
                lemma_items_replace::<K, V, IS>(items@, position as int, item);
            }
            new_items
        },
    }
}

/// The collision list without the item at `position`.
pub fn items_without<K: HashKey, V, IS: ItemStore<K, V>>(items: &Vec<IS>, position: usize) -> (new_items:
    Vec<IS>)
    requires
        position < items@.len(),
    ensures
        new_items@ == items@.remove(position as int),
{
    let item_count: usize = items.len() - 1;
    let mut new_items: Vec<IS> = Vec::with_capacity(item_count);
    if position > 0 {
        push_all::<K, V, IS>(&mut new_items, items, 0, position);
    }
    if position < item_count {
        push_all::<K, V, IS>(&mut new_items, items, position + 1, items.len());
    }
    new_items
}

} // verus!
