//! Removal: the persistent variant, which copies the nodes on the path to
//! the key, and the variant that changes uniquely owned nodes in place.

use crate::bits::{
    bit_count, get_index, hash_at, lemma_count_below_le, lemma_count_below_strict,
    lemma_hash_at_step, lemma_nonzero_mask, LAST_LEVEL,
};
use crate::collision::{find_position, items_without, lemma_items_remove, lemma_items_witness};
use crate::insert::{item_map, local_key_of};
use crate::item_store::{HashKey, ItemStore};
use crate::node::{
    all_hash_to, distinct_keys, items_map, key_slot, Node, NodeEntry, NodeRef, NodeView,
};
use crate::shape::RemovalOutcome;
use crate::slots::{
    lemma_collapse_map, lemma_differs_at_itself, lemma_kill_map, lemma_one_entry_map,
    lemma_remove_at_slot, lemma_remove_slot, lemma_same_at_slot,
};
use std::sync::Arc;
use vstd::prelude::*;

verus! {

/// What a level tells the level above after a removal below it.
pub enum RemovalResult<K, V, IS> {
    /// Don't do anything
    NoChange,
    /// Replace the sub-tree entry with another sub-tree entry pointing to the given node
    ReplaceSubTree(NodeRef<K, V, IS>),
    /// Collapse the sub-tree into a single-item entry
    CollapseSubTree(IS),
    /// Completely remove the entry
    KillSubTree,
}

/// What a node does to the entry on the path after a removal in place.
enum Action<K, V, IS> {
    CollapseKillOrChange,
    NoAction,
    ReplaceEntry(NodeEntry<K, V, IS>),
    PassUp(IS),
}

impl<K: HashKey, V, IS: ItemStore<K, V>> RemovalResult<K, V, IS> {
    /// What the level above is told, without the node that a replacement
    /// brings.
    pub open spec fn outcome(self) -> RemovalOutcome<IS> {
        match self {
            RemovalResult::NoChange => RemovalOutcome::NoChange,
            RemovalResult::ReplaceSubTree(_) => RemovalOutcome::Replace,
            RemovalResult::CollapseSubTree(kvp) => RemovalOutcome::Collapse(kvp),
            RemovalResult::KillSubTree => RemovalOutcome::Kill,
        }
    }

    /// Whether this is what the removal of `key` below `node`, a node of
    /// level `level` that is left as it is, tells the level above: it is
    /// the outcome that the shape of `node` asks for. With `NoChange` the
    /// key was not there. Else it was: a replacement is `node` after the
    /// removal, copied, and holds what the node held without the key; on a
    /// collapse, the item is all that the node holds without the key; on a
    /// kill, the node holds nothing without the key.
    pub open spec fn removes(self, node: NodeView<K, V, IS>, level: nat, key: K) -> bool {
        &&& self.outcome() == node.removal_outcome(level, key)
        &&& match self {
            RemovalResult::NoChange => !node.map(level).contains_key(key),
            RemovalResult::ReplaceSubTree(new_node) => {
                &&& node.map(level).contains_key(key)
                &&& new_node.ptr@.is_removal_from(node, level, key, false)
                &&& new_node.ptr@.wf(level)
                &&& new_node.ptr@.mask != 0
                &&& new_node.ptr@.map(level) == node.map(level).remove(key)
            },
            RemovalResult::CollapseSubTree(kvp) => {
                &&& node.map(level).contains_key(key)
                &&& 1 <= node.entries.len() <= 2
                &&& node.map(level).remove(key) == item_map::<K, V, IS>(kvp)
            },
            RemovalResult::KillSubTree => {
                &&& node.map(level).contains_key(key)
                &&& node.entries.len() == 1
                &&& node.map(level).remove(key) == Map::<K, V>::empty()
            },
        }
    }

    /// Whether this is what the removal of `key` below a node of level
    /// `level`, which was `old` and is now `new`, tells the level above.
    /// Where the shape of `old` asks for no change, for a collapse or for a
    /// kill, that is what is told, and nothing has changed on the path of
    /// the key. Where it asks for a replacement, `NoChange` is told and the
    /// node is `old` after the removal, changed in place. With `NoChange`
    /// the node itself now holds what it held without the key. On a collapse
    /// and on a kill the key was there, and the node still holds what it
    /// held; the level above is to replace the node.
    pub open spec fn removes_in_place(
        self,
        old: NodeView<K, V, IS>,
        new: NodeView<K, V, IS>,
        level: nat,
        key: K,
    ) -> bool {
        &&& new.wf(level)
        &&& new.capacity == old.capacity
        &&& old.mask != 0 ==> new.mask != 0
        &&& match old.removal_outcome(level, key) {
            RemovalOutcome::NoChange => self is NoChange && new.is_untouched(old, level, key),
            RemovalOutcome::Replace => self is NoChange && new.is_removal_from(
                old,
                level,
                key,
                true,
            ),
            RemovalOutcome::Collapse(kvp) => self == RemovalResult::<K, V, IS>::CollapseSubTree(kvp)
                && new.is_untouched(old, level, key),
            RemovalOutcome::Kill => self is KillSubTree && new.is_untouched(old, level, key),
        }
        &&& match self {
            RemovalResult::NoChange => new.map(level) == old.map(level).remove(key),
            RemovalResult::ReplaceSubTree(_) => false,
            RemovalResult::CollapseSubTree(kvp) => {
                &&& old.map(level).contains_key(key)
                &&& 1 <= old.entries.len() <= 2
                &&& new.entries.len() == old.entries.len()
                &&& new.map(level) == old.map(level)
                &&& old.map(level).remove(key) == item_map::<K, V, IS>(kvp)
            },
            RemovalResult::KillSubTree => {
                &&& old.map(level).contains_key(key)
                &&& old.entries.len() == 1
                &&& new.entries.len() == 1
                &&& new.map(level) == old.map(level)
                &&& old.map(level).remove(key) == Map::<K, V>::empty()
            },
        }
    }

    /// After a removal that leaves the node as it is, the level above is
    /// told that nothing changed exactly when the key was not there, and to
    /// drop the node exactly when the key was all that the node held.
    pub proof fn lemma_kill_iff_nothing_left(self, node: NodeView<K, V, IS>, level: nat, key: K)
        requires
            node.wf(level),
            self.removes(node, level, key),
        ensures
            (self is NoChange) == !node.map(level).contains_key(key),
            (self is KillSubTree) == (node.map(level).contains_key(key) && node.map(level).remove(
                key,
            ) == Map::<K, V>::empty()),
    {
        match self {
            RemovalResult::ReplaceSubTree(new_node) => {
                new_node.ptr@.lemma_holds_a_key(level);
            },
            RemovalResult::CollapseSubTree(kvp) => {
                assert(item_map::<K, V, IS>(kvp).contains_key(kvp.spec_key()));
            },
            _ => {},
        }
    }

    /// After a removal in place, the level above is told to drop the node
    /// exactly when the key was all that the node held.
    pub proof fn lemma_kill_in_place_iff_nothing_left(
        self,
        old: NodeView<K, V, IS>,
        new: NodeView<K, V, IS>,
        level: nat,
        key: K,
    )
        requires
            old.wf(level),
            self.removes_in_place(old, new, level, key),
        ensures
            (self is KillSubTree) == (old.map(level).contains_key(key) && old.map(level).remove(key)
                == Map::<K, V>::empty()),
    {
        match self {
            RemovalResult::NoChange => {
                if old.map(level).contains_key(key) {
                    lemma_count_below_strict(old.mask, key_slot(key, level), 32);
                    lemma_nonzero_mask(old.mask);
                    new.lemma_holds_a_key(level);
                }
            },
            RemovalResult::CollapseSubTree(kvp) => {
                assert(item_map::<K, V, IS>(kvp).contains_key(kvp.spec_key()));
            },
            _ => {},
        }
    }
}

/// What takes the place of a collision list when the item at `position` is
/// removed: the list without the item, or the other item where the list had
/// two.
pub fn entry_without_item<K: HashKey, V, IS: ItemStore<K, V>>(items: &Vec<IS>, position: usize) -> (entry:
    NodeEntry<K, V, IS>)
    requires
        position < items@.len(),
        items@.len() >= 2,
        distinct_keys::<K, V, IS>(items@),
        all_hash_to::<K, V, IS>(items@, items@[0].spec_key().spec_hash()),
    ensures
        if items@.len() > 2 {
            entry matches NodeEntry::Collision(rest) && rest@ == items@.remove(position as int)
        } else {
            entry == NodeEntry::<K, V, IS>::SingleItem(items@[1 - position])
        },
        entry.wf(12, key_slot(items@[position as int].spec_key(), 12)),
        entry.map(12) == items_map::<K, V, IS>(items@).remove(items@[position as int].spec_key()),
{
    let item_count: usize = items.len() - 1;
    let ghost lk = key_slot(items@[position as int].spec_key(), 12);
    proof {
        lemma_items_remove::<K, V, IS>(items@, position as int);
    }
    // The new entry can either still be a collision node, or it can be a simple
    // single-item node if the hash collision has been resolved by the removal
    if item_count > 1 {
        let new_items = items_without::<K, V, IS>(items, position);
        let entry = NodeEntry::Collision(Arc::new(new_items));
        proof {
            assert forall|i: int| 0 <= i < new_items@.len() implies (
            #[trigger] new_items@[i].spec_key()).spec_hash() == new_items@[0].spec_key().spec_hash() by {}
            assert forall|k: K| #[trigger] entry.map(12).contains_key(k) implies key_slot(k, 12)
                == lk by {
                lemma_items_witness::<K, V, IS>(items@, k);
            }
        }
        entry
    } else {
        let index_of_remaining_item: usize = 1 - position;
        let kvp = items[index_of_remaining_item].clone_item();
        let entry = NodeEntry::SingleItem(kvp);
        proof {
            assert forall|k: K| #[trigger] entry.map(12).contains_key(k) implies key_slot(k, 12)
                == lk by {
                lemma_items_witness::<K, V, IS>(items@, k);
            }
        }
        entry
    }
}

impl<K: HashKey, V, IS: ItemStore<K, V>> Node<K, V, IS> {
    /// What the level above is to do when the entry of `local_key`, which is
    /// in slot `entry_index`, leaves this node. With more than one entry
    /// left, or one that is no single item, it is to take a copy of this node
    /// without the entry; with a single item left, to pull that item up;
    /// with nothing left, to drop the node.
    pub fn collapse_kill_or_change(&self, local_key: usize, entry_index: usize) -> (r: RemovalResult<
        K,
        V,
        IS,
    >)
        requires
            self@.packed(),
            self@.occupied(local_key as nat),
            entry_index == self@.slot(local_key as nat),
        ensures
            r.outcome() == self@.leaving_outcome(local_key as nat),
            match r {
                RemovalResult::NoChange => false,
                RemovalResult::ReplaceSubTree(new_node) => {
                    &&& self@.entries.len() >= 2
                    &&& self@.entries.len() == 2
                        ==> !(self@.entries[1 - entry_index] is SingleItem)
                    &&& new_node.ptr@.is_removal_of(self@, local_key as nat)
                    &&& new_node.ptr@.packed()
                    &&& new_node.ptr@.mask != 0
                    &&& new_node.ptr@.capacity == self@.expanded_capacity()
                },
                RemovalResult::CollapseSubTree(kvp) => {
                    &&& self@.entries.len() == 2
                    &&& self@.entries[1 - entry_index] == NodeEntry::<K, V, IS>::SingleItem(kvp)
                },
                RemovalResult::KillSubTree => self@.entries.len() == 1,
            },
    {
        proof {
            lemma_count_below_le(self.mask, (local_key + 1) as nat, 32);
        }
        let new_entry_count: usize = bit_count(self.mask) - 1;

        if new_entry_count > 1 {
            let new_node = self.copy_without_entry(local_key);
            proof {
                lemma_nonzero_mask(new_node.ptr@.mask);
            }
            RemovalResult::ReplaceSubTree(new_node)
        } else if new_entry_count == 1 {
            let other_index: usize = 1 - entry_index;

            match self.get_entry(other_index) {
                NodeEntry::SingleItem(kvp_ref) => RemovalResult::CollapseSubTree(
                    kvp_ref.clone_item(),
                ),
                _ => {
                    let new_node = self.copy_without_entry(local_key);
                    proof {
                        lemma_nonzero_mask(new_node.ptr@.mask);
                    }
                    RemovalResult::ReplaceSubTree(new_node)
                },
            }
        } else {
            RemovalResult::KillSubTree
        }
    }

    /// What the level above is to do when the entry of `local_key`, which is
    /// in slot `entry_index`, leaves this node, which the caller owns alone.
    /// With more than one entry left, or one that is no single item, the
    /// entry is taken out in place and there is nothing to do above; with a
    /// single item left, the level above is to pull that item up, and with
    /// nothing left, to drop the node: the node is then left as it is.
    pub fn collapse_kill_or_change_in_place(&mut self, local_key: usize, entry_index: usize) -> (r:
        RemovalResult<K, V, IS>)
        requires
            old(self)@.packed(),
            old(self)@.occupied(local_key as nat),
            entry_index == old(self)@.slot(local_key as nat),
        ensures
            r.outcome() == (match old(self)@.leaving_outcome(local_key as nat) {
                RemovalOutcome::Replace => RemovalOutcome::NoChange,
                outcome => outcome,
            }),
            match r {
                RemovalResult::NoChange => {
                    &&& old(self)@.entries.len() >= 2
                    &&& old(self)@.entries.len() == 2
                        ==> !(old(self)@.entries[1 - entry_index] is SingleItem)
                    &&& final(self)@.is_removal_of(old(self)@, local_key as nat)
                    &&& final(self)@.packed()
                    &&& final(self)@.mask != 0
                    &&& final(self)@.capacity == old(self)@.capacity
                },
                RemovalResult::ReplaceSubTree(_) => false,
                RemovalResult::CollapseSubTree(kvp) => {
                    &&& *final(self) == *old(self)
                    &&& old(self)@.entries.len() == 2
                    &&& old(self)@.entries[1 - entry_index] == NodeEntry::<K, V, IS>::SingleItem(
                        kvp,
                    )
                },
                RemovalResult::KillSubTree => {
                    &&& *final(self) == *old(self)
                    &&& old(self)@.entries.len() == 1
                },
            },
    {
        proof {
            lemma_count_below_le(self.mask, (local_key + 1) as nat, 32);
        }
        let new_entry_count: usize = self.entry_count() - 1;

        if new_entry_count > 1 {
            self.remove_entry_in_place(local_key);
            proof {
                lemma_nonzero_mask(self@.mask);
            }
            RemovalResult::NoChange
        } else if new_entry_count == 1 {
            let other_index: usize = 1 - entry_index;

            match self.get_entry(other_index) {
                NodeEntry::SingleItem(kvp_ref) => {
                    return RemovalResult::CollapseSubTree(kvp_ref.clone_item());
                },
                _ => {},
            }

            self.remove_entry_in_place(local_key);
            proof {
                lemma_nonzero_mask(self@.mask);
            }
            RemovalResult::NoChange
        } else {
            RemovalResult::KillSubTree
        }
    }

    /// Removes a key below this node of level `level`, where `hash` is what
    /// remains of the key's hash. The node is left as it is: the result
    /// tells the level above what to do. `removal_count` is set to 1 if the
    /// key was there and to 0 otherwise.
    pub fn remove(&self, hash: u64, level: usize, key: &K, removal_count: &mut usize) -> (r:
        RemovalResult<K, V, IS>)
        requires
            self@.wf(level as nat),
            hash == hash_at(key.spec_hash(), level as nat),
        ensures
            r.removes(self@, level as nat, *key),
            *final(removal_count) == if self@.map(level as nat).contains_key(*key) {
                1usize
            } else {
                0usize
            },
        decreases LAST_LEVEL - level,
    {
        let local_key: usize = local_key_of(hash);
        let ghost lk = local_key as nat;
        let ghost lv = level as nat;
        let bit: u32 = 1u32 << local_key;

        if (self.mask & bit) == 0 {
            *removal_count = 0;
            return RemovalResult::NoChange;
        }
        let index: usize = get_index(self.mask, local_key);
        assert(self@.occupied(lk));

        match self.get_entry(index) {
            NodeEntry::SingleItem(existing_kvp_ref) => {
                if existing_kvp_ref.key().key_eq(key) {
                    *removal_count = 1;
                    assert(self@.slot_map(lk, lv).remove(*key) =~= Map::<K, V>::empty());
                    let r = self.collapse_kill_or_change(local_key, index);
                    proof {
                        self@.lemma_after_collapse(lv, *key, r);
                    }
                    r
                } else {
                    *removal_count = 0;
                    RemovalResult::NoChange
                }
            },
            NodeEntry::Collision(items_ref) => {
                let position = find_position::<K, V, IS>(items_ref, key);

                match position {
                    None => {
                        *removal_count = 0;
                        RemovalResult::NoChange
                    },
                    Some(position) => {
                        *removal_count = 1;
                        let new_entry = entry_without_item::<K, V, IS>(items_ref, position);
                        let new_sub_tree = self.copy_with_new_entry(local_key, new_entry);
                        proof {
                            lemma_remove_at_slot(self@, new_sub_tree.ptr@, lv, new_entry, *key);
                        }
                        RemovalResult::ReplaceSubTree(new_sub_tree)
                    },
                }
            },
            NodeEntry::SubTree(sub_tree_ref) => {
                proof {
                    lemma_hash_at_step(key.spec_hash(), lv);
                }
                let result = sub_tree_ref.borrow().remove(hash >> 5, level + 1, key, removal_count);
                match result {
                    RemovalResult::NoChange => RemovalResult::NoChange,
                    RemovalResult::ReplaceSubTree(x) => {
                        let new_entry = NodeEntry::SubTree(x);
                        let new_node = self.copy_with_new_entry(local_key, new_entry);
                        proof {
                            assert forall|k: K| #[trigger] new_entry.map(lv).contains_key(
                                k,
                            ) implies key_slot(k, lv) == lk by {
                                assert(self@.entry_at(lk).map(lv).contains_key(k));
                            }
                            lemma_remove_at_slot(self@, new_node.ptr@, lv, new_entry, *key);
                        }
                        RemovalResult::ReplaceSubTree(new_node)
                    },
                    RemovalResult::CollapseSubTree(kvp) => {
                        proof {
                            assert(item_map::<K, V, IS>(kvp).contains_key(kvp.spec_key()));
                            assert(self@.entry_at(lk).map(lv).contains_key(kvp.spec_key()));
                        }
                        if bit_count(self.mask) == 1 {
                            proof {
                                lemma_one_entry_map(self@, lv, lk);
                            }
                            RemovalResult::CollapseSubTree(kvp)
                        } else {
                            let new_entry = NodeEntry::SingleItem(kvp);
                            let new_node = self.copy_with_new_entry(local_key, new_entry);
                            proof {
                                lemma_remove_at_slot(self@, new_node.ptr@, lv, new_entry, *key);
                            }
                            RemovalResult::ReplaceSubTree(new_node)
                        }
                    },
                    RemovalResult::KillSubTree => {
                        let r = self.collapse_kill_or_change(local_key, index);
                        proof {
                            self@.lemma_after_collapse(lv, *key, r);
                        }
                        r
                    },
                }
            },
        }
    }

    /// Removes a key below this node, which the caller owns alone, and
    /// changes the node in place where it can. With `NoChange` the node
    /// itself holds what it held without the key; on a collapse and on a
    /// kill the level above is to replace the node, which still holds what
    /// it held. `removal_count` is set to 1 if the key was there and to 0
    /// otherwise.
    pub fn remove_in_place(&mut self, hash: u64, level: usize, key: &K, removal_count: &mut usize) -> (r:
        RemovalResult<K, V, IS>)
        requires
            old(self)@.wf(level as nat),
            hash == hash_at(key.spec_hash(), level as nat),
        ensures
            r.removes_in_place(old(self)@, final(self)@, level as nat, *key),
            *final(removal_count) == if old(self)@.map(level as nat).contains_key(*key) {
                1usize
            } else {
                0usize
            },
        decreases LAST_LEVEL - level,
    {
        let local_key: usize = local_key_of(hash);
        let ghost lk = local_key as nat;
        let ghost lv = level as nat;
        let ghost before = self@;
        let bit: u32 = 1u32 << local_key;
        proof {
            if !before.map(lv).contains_key(*key) {
                assert(before.map(lv).remove(*key) =~= before.map(lv));
            }
        }

        if (self.mask & bit) == 0 {
            *removal_count = 0;
            return RemovalResult::NoChange;
        }
        let index: usize = get_index(self.mask, local_key);
        let only_entry: bool = bit_count(self.mask) == 1;

        let action: Action<K, V, IS> = match self.get_entry_mut(index) {
            NodeEntry::SingleItem(existing_kvp_ref) => {
                if existing_kvp_ref.key().key_eq(key) {
                    *removal_count = 1;
                    assert(before.slot_map(lk, lv).remove(*key) =~= Map::<K, V>::empty());
                    Action::CollapseKillOrChange
                } else {
                    *removal_count = 0;
                    Action::NoAction
                }
            },
            NodeEntry::Collision(items_ref) => {
                let position = find_position::<K, V, IS>(items_ref, key);

                match position {
                    None => {
                        *removal_count = 0;
                        Action::NoAction
                    },
                    Some(position) => {
                        *removal_count = 1;
                        Action::ReplaceEntry(entry_without_item::<K, V, IS>(items_ref, position))
                    },
                }
            },
            NodeEntry::SubTree(sub_tree_ref) => {
                proof {
                    lemma_hash_at_step(key.spec_hash(), lv);
                }
                let result = match sub_tree_ref.try_borrow_owned() {
                    None => {
                        proof {
                            sub_tree_ref.ptr@.lemma_untouched_itself(lv + 1, *key);
                        }
                        sub_tree_ref.borrow().remove(hash >> 5, level + 1, key, removal_count)
                    },
                    Some(node_ref) => node_ref.remove_in_place(
                        hash >> 5,
                        level + 1,
                        key,
                        removal_count,
                    ),
                };

                match result {
                    RemovalResult::NoChange => Action::NoAction,
                    RemovalResult::ReplaceSubTree(x) => Action::ReplaceEntry(NodeEntry::SubTree(x)),
                    RemovalResult::CollapseSubTree(kvp) => {
                        if only_entry {
                            proof {
                                lemma_one_entry_map(before, lv, lk);
                            }
                            Action::PassUp(kvp)
                        } else {
                            Action::ReplaceEntry(NodeEntry::SingleItem(kvp))
                        }
                    },
                    RemovalResult::KillSubTree => Action::CollapseKillOrChange,
                }
            },
        };

        // What the entry on the path has become: it is as it was, or a child
        // that was changed in place.
        let ghost current = self@;
        let ghost entry = current.entries[index as int];
        proof {
            let m = before.mask;
            assert(m | bit == m) by (bit_vector)
                requires
                    m & bit != 0,
                    bit == 1u32 << local_key,
                    local_key < 32,
            ;
            assert forall|k: K| #[trigger] entry.map(lv).contains_key(k) implies key_slot(k, lv)
                == lk by {
                assert(before.entry_at(lk).map(lv).contains_key(k));
            }
        }

        match action {
            Action::NoAction => {
                proof {
                    if !before.slot_map(lk, lv).contains_key(*key) {
                        assert(before.slot_map(lk, lv).remove(*key) =~= before.slot_map(lk, lv));
                    }
                    lemma_remove_at_slot(before, current, lv, entry, *key);
                }
                RemovalResult::NoChange
            },
            Action::PassUp(kvp) => {
                proof {
                    lemma_same_at_slot(before, current, lv, lk, entry);
                }
                RemovalResult::CollapseSubTree(kvp)
            },
            Action::CollapseKillOrChange => {
                proof {
                    lemma_same_at_slot(before, current, lv, lk, entry);
                }
                let r = self.collapse_kill_or_change_in_place(local_key, index);
                proof {
                    current.lemma_after_collapse_in_place(before, self@, lv, *key, r);
                }
                r
            },
            Action::ReplaceEntry(new_entry) => {
                proof {
                    assert forall|k: K| #[trigger] new_entry.map(lv).contains_key(k) implies key_slot(
                        k,
                        lv,
                    ) == lk by {
                        assert(before.entry_at(lk).map(lv).contains_key(k));
                    }
                }
                self.insert_entry_in_place(local_key, new_entry);
                proof {
                    assert(self@.entries =~= before.with_entry(lk, new_entry));
                    lemma_remove_at_slot(before, self@, lv, new_entry, *key);
                }
                RemovalResult::NoChange
            },
        }
    }
}

impl<K: HashKey, V, IS: ItemStore<K, V>> NodeView<K, V, IS> {
    /// When all that a well-formed node holds under the local key of `key`
    /// is `key`, what `collapse_kill_or_change` says of that local key is
    /// what the removal of `key` tells the level above.
    pub proof fn lemma_after_collapse(self, level: nat, key: K, r: RemovalResult<K, V, IS>)
        requires
            self.wf(level),
            self.entry_leaves(level, key),
            self.slot_map(key_slot(key, level), level).contains_key(key),
            self.slot_map(key_slot(key, level), level).remove(key) == Map::<K, V>::empty(),
            r.outcome() == self.leaving_outcome(key_slot(key, level)),
            match r {
                RemovalResult::NoChange => false,
                RemovalResult::ReplaceSubTree(new_node) => {
                    &&& new_node.ptr@.is_removal_of(self, key_slot(key, level))
                    &&& new_node.ptr@.packed()
                    &&& new_node.ptr@.mask != 0
                    &&& new_node.ptr@.capacity == self.expanded_capacity()
                },
                RemovalResult::CollapseSubTree(kvp) => {
                    &&& self.entries.len() == 2
                    &&& self.entries[1 - self.slot(key_slot(key, level))] == NodeEntry::<
                        K,
                        V,
                        IS,
                    >::SingleItem(kvp)
                },
                RemovalResult::KillSubTree => self.entries.len() == 1,
            },
        ensures
            r.removes(self, level, key),
    {
        let lk = key_slot(key, level);
        lemma_count_below_le(self.mask, lk + 1, 32);
        match r {
            RemovalResult::NoChange => {},
            RemovalResult::ReplaceSubTree(new_node) => {
                lemma_remove_slot(self, new_node.ptr@, level, key);
            },
            RemovalResult::CollapseSubTree(kvp) => {
                lemma_collapse_map(self, level, key, kvp);
            },
            RemovalResult::KillSubTree => {
                lemma_kill_map(self, level, key);
            },
        }
    }
}

impl<K: HashKey, V, IS: ItemStore<K, V>> NodeView<K, V, IS> {
    /// When all that a well-formed node holds under the local key of `key`
    /// is `key`, what `collapse_kill_or_change_in_place` says of that local
    /// key, and makes of the node, is what the removal of `key` in place
    /// tells the level above. The node was `old` before the removal began,
    /// and differs from it at most in the entry of that local key, which
    /// holds what it held.
    pub proof fn lemma_after_collapse_in_place(
        self,
        old: NodeView<K, V, IS>,
        new: NodeView<K, V, IS>,
        level: nat,
        key: K,
        r: RemovalResult<K, V, IS>,
    )
        requires
            old.wf(level),
            old.entry_leaves(level, key),
            self.wf(level),
            self.differs_at(old, key_slot(key, level)),
            self.is_untouched(old, level, key),
            self.capacity == old.capacity,
            self.map(level) == old.map(level),
            r.outcome() == (match self.leaving_outcome(key_slot(key, level)) {
                RemovalOutcome::Replace => RemovalOutcome::NoChange,
                outcome => outcome,
            }),
            self.slot_map(key_slot(key, level), level).contains_key(key),
            self.slot_map(key_slot(key, level), level).remove(key) == Map::<K, V>::empty(),
            match r {
                RemovalResult::NoChange => {
                    &&& new.is_removal_of(self, key_slot(key, level))
                    &&& new.packed()
                    &&& new.mask != 0
                    &&& new.capacity == self.capacity
                },
                RemovalResult::ReplaceSubTree(_) => false,
                RemovalResult::CollapseSubTree(kvp) => {
                    &&& new == self
                    &&& self.entries.len() == 2
                    &&& self.entries[1 - self.slot(key_slot(key, level))] == NodeEntry::<
                        K,
                        V,
                        IS,
                    >::SingleItem(kvp)
                },
                RemovalResult::KillSubTree => new == self && self.entries.len() == 1,
            },
        ensures
            r.removes_in_place(old, new, level, key),
    {
        let lk = key_slot(key, level);
        lemma_count_below_le(self.mask, lk + 1, 32);
        lemma_differs_at_itself(old, lk);
        lemma_nonzero_mask(self.mask);
        match r {
            RemovalResult::NoChange => {
                lemma_remove_slot(self, new, level, key);
                assert(new.entries =~= old.without_entry(lk));
            },
            RemovalResult::ReplaceSubTree(_) => {},
            RemovalResult::CollapseSubTree(kvp) => {
                lemma_collapse_map(self, level, key, kvp);
            },
            RemovalResult::KillSubTree => {
                lemma_kill_map(self, level, key);
            },
        }
    }
}

} // verus!
