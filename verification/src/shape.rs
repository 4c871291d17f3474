//! The shape of the tree after an insertion or a removal: which entry stands
//! under the local key of the key on each level of the path, and what the
//! level above is told.

use crate::bits::bit;
use crate::item_store::{HashKey, ItemStore};
use crate::node::{items_contain, items_position, key_slot, NodeEntry, NodeView};
use crate::slots::lemma_differs_at_itself;
use vstd::prelude::*;

verus! {

/// What the level above is told after a removal, without the node that a
/// replacement brings.
pub enum RemovalOutcome<IS> {
    /// The key was not there.
    NoChange,
    /// The node is replaced, or was changed in place.
    Replace,
    /// The node is to be replaced by the single item that is left.
    Collapse(IS),
    /// The node is to be dropped.
    Kill,
}

/// The collision list `items` after `item` is inserted: with the item of the
/// same key replaced where it stands, if there is one, and else with `item`
/// in front.
pub open spec fn items_after_insert<K, V, IS: ItemStore<K, V>>(items: Seq<IS>, item: IS) -> Seq<IS> {
    if items_contain::<K, V, IS>(items, item.spec_key()) {
        items.update(items_position::<K, V, IS>(items, item.spec_key()), item)
    } else {
        seq![item] + items
    }
}

/// Whether `entry` is what takes the place of the collision list `items`
/// when the item at `position` is removed: the list without the item, in the
/// same order, or the other item where the list had two.
pub open spec fn is_shrunk_list<K, V, IS: ItemStore<K, V>>(
    entry: NodeEntry<K, V, IS>,
    items: Seq<IS>,
    position: int,
) -> bool {
    if items.len() > 2 {
        entry matches NodeEntry::Collision(rest) && rest@ == items.remove(position)
    } else {
        entry == NodeEntry::<K, V, IS>::SingleItem(items[1 - position])
    }
}

impl<K: HashKey, V, IS: ItemStore<K, V>> NodeView<K, V, IS> {
    /// Whether this is the fresh root of an empty map: no bit set, capacity 0,
    /// no entries.
    pub open spec fn is_empty_root(self) -> bool {
        &&& self.mask == 0
        &&& self.capacity == 0
        &&& self.entries.len() == 0
    }

    /// Whether this is the fresh root that holds `item` alone: the bit of
    /// the local key of its key on level 0 set, capacity 4, and the single
    /// item as its one entry.
    pub open spec fn is_root_of_one(self, item: IS) -> bool {
        &&& self.mask == bit(key_slot(item.spec_key(), 0))
        &&& self.capacity == 4
        &&& self.entries == seq![NodeEntry::<K, V, IS>::SingleItem(item)]
    }

    /// Whether this is the minimal subtree for `level` that holds `new` and
    /// `existing`. It has capacity 4. Where the two keys select different
    /// local keys, it holds the two single items, in ascending order of local
    /// key. Where they select the same, it has one entry: on the last level
    /// the collision list of `new` and `existing`, in this order, and above
    /// it the minimal subtree of both for the next level.
    pub open spec fn is_two_item_node(self, new: IS, existing: IS, level: nat) -> bool
        decreases 13 - level,
    {
        let a = key_slot(new.spec_key(), level);
        let b = key_slot(existing.spec_key(), level);
        &&& self.capacity == 4
        &&& if a != b {
            &&& self.mask == bit(a) | bit(b)
            &&& self.entries == if a < b {
                seq![
                    NodeEntry::<K, V, IS>::SingleItem(new),
                    NodeEntry::<K, V, IS>::SingleItem(existing),
                ]
            } else {
                seq![
                    NodeEntry::<K, V, IS>::SingleItem(existing),
                    NodeEntry::<K, V, IS>::SingleItem(new),
                ]
            }
        } else {
            &&& self.mask == bit(a)
            &&& self.entries.len() == 1
            &&& match self.entries[0] {
                NodeEntry::SingleItem(_) => false,
                NodeEntry::Collision(items) => level >= 12 && items@ == seq![new, existing],
                NodeEntry::SubTree(child) => level < 12 && child.ptr@.is_two_item_node(
                    new,
                    existing,
                    level + 1,
                ),
            }
        }
    }

    /// Whether this node is `old`, a node of `level`, after the insertion of
    /// `item`. The node differs from `old` only under the local key of the
    /// key. Its capacity is that of `old` if `old` was changed in place, and
    /// the expanded capacity of `old` if it was copied. Under the local key
    /// stands:
    /// - `item`, where the local key was free or held a single item with the
    ///   same key;
    /// - where it held a single item with another key, the minimal subtree of
    ///   both for the next level, or on the last level the collision list of
    ///   `item` and that item;
    /// - where it held a collision list, the list after the insertion;
    /// - where it held a child, the child after the insertion, copied, or
    ///   changed in place if this node was.
    pub open spec fn is_insertion_of(self, old: Self, level: nat, item: IS, in_place: bool) -> bool
        decreases 13 - level,
    {
        let lk = key_slot(item.spec_key(), level);
        let entry = self.entry_at(lk);
        &&& self.differs_at(old, lk)
        &&& self.capacity == if in_place {
            old.capacity
        } else {
            old.expanded_capacity()
        }
        &&& if !old.occupied(lk) {
            entry == NodeEntry::<K, V, IS>::SingleItem(item)
        } else {
            match old.entry_at(lk) {
                NodeEntry::SingleItem(existing) => if existing.spec_key() == item.spec_key() {
                    entry == NodeEntry::<K, V, IS>::SingleItem(item)
                } else if level < 12 {
                    entry matches NodeEntry::SubTree(child) && child.ptr@.is_two_item_node(
                        item,
                        existing,
                        level + 1,
                    )
                } else {
                    entry matches NodeEntry::Collision(items) && items@ == seq![item, existing]
                },
                NodeEntry::Collision(old_items) => entry matches NodeEntry::Collision(items)
                    && items@ == items_after_insert::<K, V, IS>(old_items@, item),
                NodeEntry::SubTree(old_child) => {
                    &&& level < 12
                    &&& entry matches NodeEntry::SubTree(child) && (child.ptr@.is_insertion_of(
                        old_child.ptr@,
                        level + 1,
                        item,
                        false,
                    ) || (in_place && child.ptr@.is_insertion_of(
                        old_child.ptr@,
                        level + 1,
                        item,
                        true,
                    )))
                },
            }
        }
    }

    /// Whether this node is `old`, a node of `level`, with nothing changed on
    /// the path of `key`: where the local key of `key` is free, it is `old`;
    /// else it differs from `old` at most under that local key, has the
    /// capacity of `old`, and holds there the entry that `old` holds, which
    /// for a child is a child with nothing changed on the path of `key`.
    pub open spec fn is_untouched(self, old: Self, level: nat, key: K) -> bool
        decreases 13 - level,
    {
        let lk = key_slot(key, level);
        if !old.occupied(lk) {
            self == old
        } else {
            &&& self.differs_at(old, lk)
            &&& self.capacity == old.capacity
            &&& match old.entry_at(lk) {
                NodeEntry::SubTree(old_child) => {
                    &&& level < 12
                    &&& self.entry_at(lk) matches NodeEntry::SubTree(child)
                        && child.ptr@.is_untouched(old_child.ptr@, level + 1, key)
                },
                entry => self.entry_at(lk) == entry,
            }
        }
    }

    /// What the level above is told when the entry of local key `lk` leaves
    /// this node: with more than one entry left, or one that is no single
    /// item, that the node is replaced; with a single item left, to pull that
    /// item up; with nothing left, to drop the node.
    pub open spec fn leaving_outcome(self, lk: nat) -> RemovalOutcome<IS> {
        if self.entries.len() > 2 {
            RemovalOutcome::Replace
        } else if self.entries.len() == 2 {
            match self.entries[1 - self.slot(lk)] {
                NodeEntry::SingleItem(kvp) => RemovalOutcome::Collapse(kvp),
                _ => RemovalOutcome::Replace,
            }
        } else {
            RemovalOutcome::Kill
        }
    }

    /// What the level above is told after the removal of `key` below this
    /// node of `level`.
    /// - Where the local key of `key` is free, or holds a single item with
    ///   another key or a collision list without `key`: that nothing changed.
    /// - Where it holds the single item with `key`: what is told when that
    ///   entry leaves the node.
    /// - Where it holds a collision list with `key`: that the node is
    ///   replaced.
    /// - Where it holds a child: what the child tells, but for a collapse,
    ///   which is passed up only by a node with one entry and else makes a
    ///   replacement, and for a kill, on which the child's entry leaves the
    ///   node.
    pub open spec fn removal_outcome(self, level: nat, key: K) -> RemovalOutcome<IS>
        decreases 13 - level,
    {
        let lk = key_slot(key, level);
        if !self.occupied(lk) {
            RemovalOutcome::NoChange
        } else {
            match self.entry_at(lk) {
                NodeEntry::SingleItem(existing) => if existing.spec_key() == key {
                    self.leaving_outcome(lk)
                } else {
                    RemovalOutcome::NoChange
                },
                NodeEntry::Collision(items) => if items_contain::<K, V, IS>(items@, key) {
                    RemovalOutcome::Replace
                } else {
                    RemovalOutcome::NoChange
                },
                NodeEntry::SubTree(child) => if level < 12 {
                    match child.ptr@.removal_outcome(level + 1, key) {
                        RemovalOutcome::NoChange => RemovalOutcome::NoChange,
                        RemovalOutcome::Replace => RemovalOutcome::Replace,
                        RemovalOutcome::Collapse(kvp) => if self.entries.len() == 1 {
                            RemovalOutcome::Collapse(kvp)
                        } else {
                            RemovalOutcome::Replace
                        },
                        RemovalOutcome::Kill => self.leaving_outcome(lk),
                    }
                } else {
                    RemovalOutcome::NoChange
                },
            }
        }
    }

    /// Whether the entry under the local key of `key` leaves this node of
    /// `level` on the removal of `key`: it is the single item with `key`, or
    /// a child that is to be dropped.
    pub open spec fn entry_leaves(self, level: nat, key: K) -> bool {
        let lk = key_slot(key, level);
        self.occupied(lk) && match self.entry_at(lk) {
            NodeEntry::SingleItem(existing) => existing.spec_key() == key,
            NodeEntry::Collision(_) => false,
            NodeEntry::SubTree(child) => level < 12 && child.ptr@.removal_outcome(level + 1, key)
                is Kill,
        }
    }

    /// Whether this node is `old`, a node of `level`, after a removal of
    /// `key` on which the node is replaced or changed in place. Its capacity
    /// is that of `old` if `old` was changed in place, and the expanded
    /// capacity of `old` if it was copied. Under the local key of `key`:
    /// - the entry is gone, where it was the single item with `key`, or a
    ///   child that was to be dropped;
    /// - a collision list has lost the item with `key`, or has given way to
    ///   the other item where it had two;
    /// - a child that was to be replaced by its last item has given way to
    ///   that item;
    /// - any other child is the child after the removal, copied, or changed
    ///   in place if this node was.
    /// Every other entry is as it was.
    pub open spec fn is_removal_from(self, old: Self, level: nat, key: K, in_place: bool) -> bool
        decreases 13 - level,
    {
        let lk = key_slot(key, level);
        &&& self.capacity == if in_place {
            old.capacity
        } else {
            old.expanded_capacity()
        }
        &&& match old.entry_at(lk) {
            NodeEntry::SingleItem(_) => self.is_removal_of(old, lk),
            NodeEntry::Collision(items) => self.differs_at(old, lk) && is_shrunk_list::<K, V, IS>(
                self.entry_at(lk),
                items@,
                items_position::<K, V, IS>(items@, key),
            ),
            NodeEntry::SubTree(old_child) => level < 12 && match old_child.ptr@.removal_outcome(
                level + 1,
                key,
            ) {
                RemovalOutcome::NoChange => false,
                RemovalOutcome::Replace => {
                    &&& self.differs_at(old, lk)
                    &&& self.entry_at(lk) matches NodeEntry::SubTree(child)
                        && (child.ptr@.is_removal_from(old_child.ptr@, level + 1, key, false) || (
                    in_place && child.ptr@.is_removal_from(old_child.ptr@, level + 1, key, true)))
                },
                RemovalOutcome::Collapse(kvp) => self.differs_at(old, lk) && self.entry_at(lk)
                    == NodeEntry::<K, V, IS>::SingleItem(kvp),
                RemovalOutcome::Kill => self.is_removal_of(old, lk),
            },
        }
    }

    /// A well-formed node is itself with nothing changed on the path of any
    /// key.
    pub proof fn lemma_untouched_itself(self, level: nat, key: K)
        requires
            self.wf(level),
        ensures
            self.is_untouched(self, level, key),
        decreases 13 - level,
    {
        let lk = key_slot(key, level);
        if self.occupied(lk) {
            lemma_differs_at_itself(self, lk);
            assert(self.entry_at(lk).wf(level, lk));
            if let NodeEntry::SubTree(child) = self.entry_at(lk) {
                child.ptr@.lemma_untouched_itself(level + 1, key);
            }
        }
    }
}

} // verus!
