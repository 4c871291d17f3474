//! How putting an entry at a local key, or taking one out, changes what a
//! node holds.

use crate::bits::{
    bit, lemma_clear_bit, lemma_count_below_le, lemma_count_below_strict, lemma_empty_mask,
    lemma_nonzero_mask, lemma_set_bit, lemma_slot_has_key, popcount,
};
use crate::item_store::{HashKey, ItemStore};
use crate::node::{key_slot, NodeEntry, NodeView};
use vstd::prelude::*;

verus! {

/// Putting an entry at a local key occupies that local key with the entry
/// and leaves every other local key as it was.
pub proof fn lemma_update_slots<K: HashKey, V, IS: ItemStore<K, V>>(
    old: NodeView<K, V, IS>,
    new: NodeView<K, V, IS>,
    lk: nat,
    entry: NodeEntry<K, V, IS>,
)
    requires
        old.entries.len() == popcount(old.mask),
        new.is_update_of(old, lk, entry),
    ensures
        new.entries.len() == popcount(new.mask),
        new.mask != 0,
        new.occupied(lk),
        new.entry_at(lk) == entry,
        forall|lk2: nat|
            lk2 != lk ==> (#[trigger] new.occupied(lk2) == old.occupied(lk2)) && (old.occupied(lk2)
                ==> new.entry_at(lk2) == old.entry_at(lk2)),
{
    lemma_set_bit(old.mask, lk, 32);
    lemma_set_bit(old.mask, lk, lk);
    lemma_count_below_le(old.mask, lk + 1, 32);
    lemma_nonzero_mask(new.mask);
    assert forall|lk2: nat| lk2 != lk implies (#[trigger] new.occupied(lk2) == old.occupied(lk2))
        && (old.occupied(lk2) ==> new.entry_at(lk2) == old.entry_at(lk2)) by {
        if lk2 < 32 {
            lemma_set_bit(old.mask, lk, lk2);
            if old.occupied(lk2) {
                lemma_count_below_le(old.mask, lk2 + 1, 32);
                if lk2 < lk {
                    lemma_count_below_strict(old.mask, lk2, lk);
                } else {
                    lemma_count_below_le(old.mask, lk, lk2);
                    if old.occupied(lk) {
                        lemma_count_below_strict(old.mask, lk, lk2);
                    }
                }
            }
        }
    }
}

/// Taking the entry of a local key out frees that local key and leaves every
/// other local key as it was.
pub proof fn lemma_removal_slots<K: HashKey, V, IS: ItemStore<K, V>>(
    old: NodeView<K, V, IS>,
    new: NodeView<K, V, IS>,
    lk: nat,
)
    requires
        old.entries.len() == popcount(old.mask),
        new.is_removal_of(old, lk),
    ensures
        new.entries.len() == popcount(new.mask),
        new.entries.len() + 1 == old.entries.len(),
        !new.occupied(lk),
        forall|lk2: nat|
            lk2 != lk ==> (#[trigger] new.occupied(lk2) == old.occupied(lk2)) && (old.occupied(lk2)
                ==> new.entry_at(lk2) == old.entry_at(lk2)),
{
    lemma_clear_bit(old.mask, lk, 32);
    lemma_clear_bit(old.mask, lk, lk);
    lemma_count_below_le(old.mask, lk + 1, 32);
    assert forall|lk2: nat| lk2 != lk implies (#[trigger] new.occupied(lk2) == old.occupied(lk2))
        && (old.occupied(lk2) ==> new.entry_at(lk2) == old.entry_at(lk2)) by {
        if lk2 < 32 {
            lemma_clear_bit(old.mask, lk, lk2);
            if old.occupied(lk2) {
                lemma_count_below_le(old.mask, lk2 + 1, 32);
                if lk2 < lk {
                    lemma_count_below_strict(old.mask, lk2, lk);
                } else {
                    lemma_count_below_strict(old.mask, lk, lk2);
                }
            }
        }
    }
}

/// Putting a fitting entry at a local key of a well-formed node gives a
/// well-formed node that holds the entry's map under that local key and
/// what it held before under every other.
pub proof fn lemma_update_wf<K: HashKey, V, IS: ItemStore<K, V>>(
    old: NodeView<K, V, IS>,
    new: NodeView<K, V, IS>,
    level: nat,
    lk: nat,
    entry: NodeEntry<K, V, IS>,
)
    requires
        old.wf(level),
        new.is_update_of(old, lk, entry),
        new.entries.len() <= new.capacity <= 32,
        entry.wf(level, lk),
    ensures
        new.wf(level),
        new.slot_map(lk, level) == entry.map(level),
        forall|lk2: nat| lk2 != lk ==> #[trigger] new.slot_map(lk2, level) == old.slot_map(lk2, level),
{
    lemma_update_slots(old, new, lk, entry);
    assert forall|lk2: nat| #[trigger] new.occupied(lk2) implies new.entry_at(lk2).wf(level, lk2) by {}
    assert forall|lk2: nat| lk2 != lk implies #[trigger] new.slot_map(lk2, level) == old.slot_map(
        lk2,
        level,
    ) by {}
}

/// Taking the entry of a local key out of a well-formed node gives a
/// well-formed node that holds nothing under that local key and what it held
/// before under every other.
pub proof fn lemma_removal_wf<K: HashKey, V, IS: ItemStore<K, V>>(
    old: NodeView<K, V, IS>,
    new: NodeView<K, V, IS>,
    level: nat,
    lk: nat,
)
    requires
        old.wf(level),
        new.is_removal_of(old, lk),
        new.entries.len() <= new.capacity <= 32,
    ensures
        new.wf(level),
        new.slot_map(lk, level) == Map::<K, V>::empty(),
        forall|lk2: nat| lk2 != lk ==> #[trigger] new.slot_map(lk2, level) == old.slot_map(lk2, level),
{
    lemma_removal_slots(old, new, lk);
    assert forall|lk2: nat| #[trigger] new.occupied(lk2) implies new.entry_at(lk2).wf(level, lk2) by {}
    assert forall|lk2: nat| lk2 != lk implies #[trigger] new.slot_map(lk2, level) == old.slot_map(
        lk2,
        level,
    ) by {}
}

/// A node that differs from another under the local key of `key` alone, and
/// holds there the other's map with `key` bound to `val`, holds the other's
/// map with `key` bound to `val`.
pub proof fn lemma_map_insert<K: HashKey, V, IS: ItemStore<K, V>>(
    old: NodeView<K, V, IS>,
    new: NodeView<K, V, IS>,
    level: nat,
    key: K,
    val: V,
)
    requires
        new.slot_map(key_slot(key, level), level) == old.slot_map(
            key_slot(key, level),
            level,
        ).insert(key, val),
        forall|lk2: nat|
            lk2 != key_slot(key, level) ==> #[trigger] new.slot_map(lk2, level) == old.slot_map(
                lk2,
                level,
            ),
    ensures
        new.map(level) == old.map(level).insert(key, val),
{
    lemma_map_by_slot(old, level);
    lemma_map_by_slot(new, level);
}

/// A node that differs from another under the local key of `key` alone, and
/// holds there the other's map without `key`, holds the other's map without
/// `key`.
pub proof fn lemma_map_remove<K: HashKey, V, IS: ItemStore<K, V>>(
    old: NodeView<K, V, IS>,
    new: NodeView<K, V, IS>,
    level: nat,
    key: K,
)
    requires
        new.slot_map(key_slot(key, level), level) == old.slot_map(
            key_slot(key, level),
            level,
        ).remove(key),
        forall|lk2: nat|
            lk2 != key_slot(key, level) ==> #[trigger] new.slot_map(lk2, level) == old.slot_map(
                lk2,
                level,
            ),
    ensures
        new.map(level) == old.map(level).remove(key),
{
    lemma_map_by_slot(old, level);
    lemma_map_by_slot(new, level);
}

/// In a well-formed node, a key that is held under a local key selects that
/// local key, and so is held by the node.
pub proof fn lemma_slot_keys<K: HashKey, V, IS: ItemStore<K, V>>(
    node: NodeView<K, V, IS>,
    level: nat,
    lk: nat,
    key: K,
)
    requires
        node.wf(level),
        node.slot_map(lk, level).contains_key(key),
    ensures
        key_slot(key, level) == lk,
        node.map(level).contains_key(key),
        node.map(level)[key] == node.slot_map(lk, level)[key],
{
    assert(node.slot_map(lk, level) == node.entry_at(lk).map(level));
}

/// What a node holds is what it holds under the local key that a key selects.
pub proof fn lemma_map_by_slot<K: HashKey, V, IS: ItemStore<K, V>>(node: NodeView<K, V, IS>, level: nat)
    ensures
        forall|k: K|
            #![trigger node.map(level).contains_key(k)]
            node.map(level).contains_key(k) == node.slot_map(key_slot(k, level), level).contains_key(k)
                && (node.map(level).contains_key(k) ==> node.map(level)[k] == node.slot_map(
                key_slot(k, level),
                level,
            )[k]),
{
}

/// The node without entries is well formed on every level and holds nothing.
pub proof fn lemma_empty_node<K: HashKey, V, IS: ItemStore<K, V>>(node: NodeView<K, V, IS>, level: nat)
    requires
        node.mask == 0,
        node.entries.len() == 0,
        node.capacity <= 32,
        level <= 12,
    ensures
        node.wf(level),
        node.map(level) == Map::<K, V>::empty(),
        forall|lk: nat| #[trigger] node.slot_map(lk, level) == Map::<K, V>::empty(),
{
    lemma_empty_mask(32);
    assert forall|lk: nat| !#[trigger] node.occupied(lk) by {
        if lk < 32 {
            lemma_empty_mask(lk);
        }
    }
    assert forall|lk: nat| #[trigger] node.slot_map(lk, level) == Map::<K, V>::empty() by {}
}

/// Putting, at the local key that `key` selects, a fitting entry that holds
/// what was held there with `key` bound to `val`, gives a well-formed node
/// that holds what the node held with `key` bound to `val`.
pub proof fn lemma_insert_at_slot<K: HashKey, V, IS: ItemStore<K, V>>(
    old: NodeView<K, V, IS>,
    new: NodeView<K, V, IS>,
    level: nat,
    entry: NodeEntry<K, V, IS>,
    key: K,
    val: V,
)
    requires
        old.wf(level),
        new.is_update_of(old, key_slot(key, level), entry),
        new.entries.len() <= new.capacity <= 32,
        entry.wf(level, key_slot(key, level)),
        entry.map(level) == old.slot_map(key_slot(key, level), level).insert(key, val),
    ensures
        new.wf(level),
        new.mask != 0,
        new.entry_at(key_slot(key, level)) == entry,
        new.map(level) == old.map(level).insert(key, val),
{
    let lk = key_slot(key, level);
    lemma_update_slots(old, new, lk, entry);
    lemma_update_wf(old, new, level, lk, entry);
    lemma_map_insert(old, new, level, key, val);
}

/// Putting, at the local key that `key` selects, a fitting entry that holds
/// what was held there without `key`, gives a well-formed node that holds
/// what the node held without `key`.
pub proof fn lemma_remove_at_slot<K: HashKey, V, IS: ItemStore<K, V>>(
    old: NodeView<K, V, IS>,
    new: NodeView<K, V, IS>,
    level: nat,
    entry: NodeEntry<K, V, IS>,
    key: K,
)
    requires
        old.wf(level),
        new.is_update_of(old, key_slot(key, level), entry),
        new.entries.len() <= new.capacity <= 32,
        entry.wf(level, key_slot(key, level)),
        entry.map(level) == old.slot_map(key_slot(key, level), level).remove(key),
    ensures
        new.wf(level),
        new.mask != 0,
        new.entry_at(key_slot(key, level)) == entry,
        new.map(level) == old.map(level).remove(key),
{
    let lk = key_slot(key, level);
    lemma_update_slots(old, new, lk, entry);
    lemma_update_wf(old, new, level, lk, entry);
    lemma_map_remove(old, new, level, key);
}

/// Taking out the entry of the local key that `key` selects, where nothing
/// but `key` is held, gives a well-formed node that holds what the node held
/// without `key`.
pub proof fn lemma_remove_slot<K: HashKey, V, IS: ItemStore<K, V>>(
    old: NodeView<K, V, IS>,
    new: NodeView<K, V, IS>,
    level: nat,
    key: K,
)
    requires
        old.wf(level),
        new.is_removal_of(old, key_slot(key, level)),
        new.entries.len() <= new.capacity <= 32,
        old.slot_map(key_slot(key, level), level).remove(key) == Map::<K, V>::empty(),
    ensures
        new.wf(level),
        new.entries.len() + 1 == old.entries.len(),
        new.map(level) == old.map(level).remove(key),
{
    let lk = key_slot(key, level);
    lemma_removal_slots(old, new, lk);
    lemma_removal_wf(old, new, level, lk);
    lemma_map_remove(old, new, level, key);
}

/// A node with one fitting entry is well formed and holds what the entry
/// holds.
pub proof fn lemma_node_of_one<K: HashKey, V, IS: ItemStore<K, V>>(
    node: NodeView<K, V, IS>,
    level: nat,
    lk: nat,
    entry: NodeEntry<K, V, IS>,
)
    requires
        level <= 12,
        lk < 32,
        node.mask == bit(lk),
        node.entries == seq![entry],
        1 <= node.capacity <= 32,
        entry.wf(level, lk),
    ensures
        node.wf(level),
        node.mask != 0,
        node.slot_map(lk, level) == entry.map(level),
        forall|lk2: nat| lk2 != lk ==> #[trigger] node.slot_map(lk2, level) == Map::<K, V>::empty(),
        node.map(level) == entry.map(level),
{
    let empty = NodeView::<K, V, IS> { mask: 0, capacity: node.capacity, entries: Seq::empty() };
    lemma_empty_node(empty, level);
    lemma_empty_mask(lk);
    let b = bit(lk);
    assert(0u32 | b == b) by (bit_vector);
    assert(empty.with_entry(lk, entry) =~= seq![entry]);
    lemma_update_slots(empty, node, lk, entry);
    lemma_update_wf(empty, node, level, lk, entry);
}

/// A node with two fitting entries, in ascending order of local key, is
/// well formed and holds under each local key what its entry holds.
pub proof fn lemma_node_of_two<K: HashKey, V, IS: ItemStore<K, V>>(
    node: NodeView<K, V, IS>,
    level: nat,
    lk1: nat,
    entry1: NodeEntry<K, V, IS>,
    lk2: nat,
    entry2: NodeEntry<K, V, IS>,
)
    requires
        level <= 12,
        lk1 < lk2 < 32,
        node.mask == bit(lk1) | bit(lk2),
        node.entries == seq![entry1, entry2],
        2 <= node.capacity <= 32,
        entry1.wf(level, lk1),
        entry2.wf(level, lk2),
    ensures
        node.wf(level),
        node.mask != 0,
        node.slot_map(lk1, level) == entry1.map(level),
        node.slot_map(lk2, level) == entry2.map(level),
        forall|lk: nat|
            lk != lk1 && lk != lk2 ==> #[trigger] node.slot_map(lk, level) == Map::<K, V>::empty(),
{
    let one = NodeView::<K, V, IS> {
        mask: bit(lk1),
        capacity: node.capacity,
        entries: seq![entry1],
    };
    lemma_node_of_one(one, level, lk1, entry1);
    lemma_empty_node(
        NodeView::<K, V, IS> { mask: 0, capacity: node.capacity, entries: Seq::empty() },
        level,
    );
    lemma_empty_mask(lk1);
    lemma_empty_mask(lk2);
    lemma_set_bit(0, lk1, lk2);
    let b = bit(lk1);
    assert(0u32 | b == b) by (bit_vector);
    assert(one.with_entry(lk2, entry2) =~= seq![entry1, entry2]);
    lemma_update_wf(one, node, level, lk2, entry2);
}

/// In a node with two entries, the local key of the other entry is occupied,
/// its slot is the other slot, and no third local key is occupied.
pub proof fn lemma_other_slot<K: HashKey, V, IS: ItemStore<K, V>>(
    node: NodeView<K, V, IS>,
    lk: nat,
) -> (other: nat)
    requires
        node.entries.len() == popcount(node.mask),
        node.entries.len() == 2,
        node.occupied(lk),
    ensures
        other != lk,
        node.occupied(other),
        node.slot(other) == 1 - node.slot(lk),
        forall|lk2: nat| #[trigger] node.occupied(lk2) ==> lk2 == lk || lk2 == other,
{
    lemma_count_below_le(node.mask, lk + 1, 32);
    let i = (1 - node.slot(lk)) as nat;
    let other = lemma_slot_has_key(node.mask, i, 32);
    assert forall|lk2: nat| #[trigger] node.occupied(lk2) implies lk2 == lk || lk2 == other by {
        if lk2 != lk && lk2 != other {
            lemma_count_below_le(node.mask, lk2 + 1, 32);
            if lk2 < lk {
                lemma_count_below_strict(node.mask, lk2, lk);
            } else {
                lemma_count_below_strict(node.mask, lk, lk2);
            }
            if lk2 < other {
                lemma_count_below_strict(node.mask, lk2, other);
            } else {
                lemma_count_below_strict(node.mask, other, lk2);
            }
        }
    }
    other
}

/// In a node with one entry, no other local key is occupied.
pub proof fn lemma_only_slot<K: HashKey, V, IS: ItemStore<K, V>>(node: NodeView<K, V, IS>, lk: nat)
    requires
        node.entries.len() == popcount(node.mask),
        node.entries.len() == 1,
        node.occupied(lk),
    ensures
        node.slot(lk) == 0,
        forall|lk2: nat| #[trigger] node.occupied(lk2) ==> lk2 == lk,
{
    lemma_count_below_le(node.mask, lk + 1, 32);
    assert forall|lk2: nat| #[trigger] node.occupied(lk2) implies lk2 == lk by {
        if lk2 != lk {
            lemma_count_below_le(node.mask, lk2 + 1, 32);
            if lk2 < lk {
                lemma_count_below_strict(node.mask, lk2, lk);
            } else {
                lemma_count_below_strict(node.mask, lk, lk2);
            }
        }
    }
}

/// Putting, at an occupied local key, a fitting entry that holds what was
/// held there, gives a well-formed node that holds what the node held.
pub proof fn lemma_same_at_slot<K: HashKey, V, IS: ItemStore<K, V>>(
    old: NodeView<K, V, IS>,
    new: NodeView<K, V, IS>,
    level: nat,
    lk: nat,
    entry: NodeEntry<K, V, IS>,
)
    requires
        old.wf(level),
        old.occupied(lk),
        new.is_update_of(old, lk, entry),
        new.entries.len() <= new.capacity <= 32,
        entry.wf(level, lk),
        entry.map(level) == old.slot_map(lk, level),
    ensures
        new.wf(level),
        new.mask != 0,
        new.entries.len() == old.entries.len(),
        new.entry_at(lk) == entry,
        new.map(level) == old.map(level),
{
    lemma_update_slots(old, new, lk, entry);
    lemma_update_wf(old, new, level, lk, entry);
    lemma_count_below_strict(old.mask, lk, 32);
    lemma_map_by_slot(old, level);
    lemma_map_by_slot(new, level);
}

/// A well-formed node with one entry holds what that entry holds.
pub proof fn lemma_one_entry_map<K: HashKey, V, IS: ItemStore<K, V>>(
    node: NodeView<K, V, IS>,
    level: nat,
    lk: nat,
)
    requires
        node.wf(level),
        node.entries.len() == 1,
        node.occupied(lk),
    ensures
        node.map(level) == node.slot_map(lk, level),
{
    lemma_only_slot(node, lk);
    assert forall|k: K| #[trigger] node.slot_map(lk, level).contains_key(k) implies node.map(
        level,
    ).contains_key(k) && node.map(level)[k] == node.slot_map(lk, level)[k] by {
        lemma_slot_keys(node, level, lk, k);
    }
    assert forall|k: K| #[trigger] node.map(level).contains_key(k) implies node.slot_map(
        lk,
        level,
    ).contains_key(k) by {}
}

/// A well-formed node with two entries, one of them a single item, holds
/// that item alone once what the other entry holds is gone.
pub proof fn lemma_collapse_map<K: HashKey, V, IS: ItemStore<K, V>>(
    node: NodeView<K, V, IS>,
    level: nat,
    key: K,
    item: IS,
)
    requires
        node.wf(level),
        node.entries.len() == 2,
        node.occupied(key_slot(key, level)),
        0 <= node.slot(key_slot(key, level)) <= 1,
        node.entries[1 - node.slot(key_slot(key, level))] == NodeEntry::<K, V, IS>::SingleItem(item),
        node.slot_map(key_slot(key, level), level).remove(key) == Map::<K, V>::empty(),
    ensures
        node.map(level).remove(key) == Map::<K, V>::empty().insert(item.spec_key(), item.spec_val()),
{
    let lk = key_slot(key, level);
    let other = lemma_other_slot(node, lk);
    lemma_slot_keys(node, level, other, item.spec_key());
    assert forall|k: K| #[trigger] node.map(level).remove(key).contains_key(k) implies k
        == item.spec_key() by {
        if key_slot(k, level) == lk {
            assert(node.slot_map(lk, level).remove(key).contains_key(k));
        }
    }
}

/// A well-formed node with one entry holds nothing once what that entry
/// holds is gone.
pub proof fn lemma_kill_map<K: HashKey, V, IS: ItemStore<K, V>>(
    node: NodeView<K, V, IS>,
    level: nat,
    key: K,
)
    requires
        node.wf(level),
        node.entries.len() == 1,
        node.occupied(key_slot(key, level)),
        node.slot_map(key_slot(key, level), level).remove(key) == Map::<K, V>::empty(),
    ensures
        node.map(level).remove(key) == Map::<K, V>::empty(),
{
    let lk = key_slot(key, level);
    lemma_one_entry_map(node, level, lk);
}

/// A node differs from itself at most in the entry of an occupied local key.
pub proof fn lemma_differs_at_itself<K: HashKey, V, IS: ItemStore<K, V>>(
    node: NodeView<K, V, IS>,
    lk: nat,
)
    requires
        node.entries.len() == popcount(node.mask),
        node.occupied(lk),
    ensures
        node.differs_at(node, lk),
{
    lemma_set_bit(node.mask, lk, 32);
    lemma_count_below_strict(node.mask, lk, 32);
    let m = node.mask;
    let b = bit(lk);
    let k = lk as u32;
    assert(m | b == m) by (bit_vector)
        requires
            k < 32,
            b == 1u32 << k,
            m & b != 0,
    ;
    assert(node.entries.update(node.slot(lk), node.entries[node.slot(lk)]) =~= node.entries);
}

} // verus!
