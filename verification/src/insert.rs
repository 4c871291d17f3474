//! Insertion: the persistent variant, which copies the nodes on the path to
//! the key, and the variant that changes uniquely owned nodes in place.

use crate::bits::{
    bit, get_index, hash_at, lemma_hash_at_step, lemma_local_key_bound, lemma_one_bit,
    lemma_same_path_all_levels, lemma_two_bits, local_key, local_key_at, same_path, LAST_LEVEL,
    LEVEL_BIT_MASK, MIN_CAPACITY,
};
use crate::collision::{
    insert_into_items, lemma_items_prepend, lemma_items_single, lemma_items_witness,
};
use crate::item_store::{HashKey, ItemStore};
use crate::node::{
    all_hash_to, distinct_keys, items_contain, items_map, items_position, key_slot, Node,
    NodeEntry, NodeRef, NodeView,
};
use crate::slots::{
    lemma_insert_at_slot, lemma_map_by_slot, lemma_node_of_one, lemma_node_of_two, lemma_slot_keys,
};
use std::sync::Arc;
use vstd::prelude::*;

verus! {

/// The map that binds the key of `item` to its value, and nothing else.
pub open spec fn item_map<K, V, IS: ItemStore<K, V>>(item: IS) -> Map<K, V> {
    Map::empty().insert(item.spec_key(), item.spec_val())
}

/// Two hashes that select the same local keys on the levels above the last
/// and on the last level are equal.
pub proof fn lemma_same_hash(a: u64, b: u64)
    requires
        same_path(a, b, 12),
        local_key_at(a, 12) == local_key_at(b, 12),
    ensures
        a == b,
{
    assert(same_path(a, b, 13)) by {
        assert forall|l: nat| l < 13 implies #[trigger] local_key_at(a, l) == local_key_at(b, l) by {}
    }
    lemma_same_path_all_levels(a, b);
}

/// The local key of a remaining hash, below 32.
pub fn local_key_of(hash: u64) -> (r: usize)
    ensures
        r == local_key(hash),
        r < 32,
{
    proof {
        lemma_local_key_bound(hash);
    }
    (hash & LEVEL_BIT_MASK) as usize
}

/// The collision list of two items with different keys and the same hash.
pub fn collision_of_two<K: HashKey, V, IS: ItemStore<K, V>>(new_kvp: IS, existing_kvp: &IS) -> (entry:
    NodeEntry<K, V, IS>)
    requires
        new_kvp.spec_key() != existing_kvp.spec_key(),
        new_kvp.spec_key().spec_hash() == existing_kvp.spec_key().spec_hash(),
    ensures
        entry matches NodeEntry::Collision(items) && items@ == seq![new_kvp, *existing_kvp],
        entry.wf(12, local_key_at(new_kvp.spec_key().spec_hash(), 12)),
        entry.map(12) == item_map::<K, V, IS>(*existing_kvp).insert(
            new_kvp.spec_key(),
            new_kvp.spec_val(),
        ),
{
    let mut items: Vec<IS> = Vec::with_capacity(2);
    items.push(new_kvp);
    items.push(existing_kvp.clone_item());
    let entry = NodeEntry::Collision(Arc::new(items));
    proof {
        let single = seq![*existing_kvp];
        assert(items@ =~= seq![new_kvp] + single);
        lemma_items_single::<K, V, IS>(single);
        lemma_items_prepend::<K, V, IS>(single, new_kvp);
        assert forall|k: K| #[trigger] entry.map(12).contains_key(k) implies key_slot(k, 12)
            == local_key_at(new_kvp.spec_key().spec_hash(), 12) by {
            lemma_items_witness::<K, V, IS>(items@, k);
        }
    }
    entry
}

impl<K: HashKey, V, IS: ItemStore<K, V>> Node<K, V, IS> {
    /// A minimal subtree for level `level` that holds two items with
    /// different keys. Where their local keys differ, it is a node with the
    /// two items; where they are equal, a node with one entry: on the last
    /// level a collision list of both, and above it a subtree built in the
    /// same way for the next level.
    pub fn new_with_entries(
        new_kvp: IS,
        new_hash: u64,
        existing_kvp: &IS,
        existing_hash: u64,
        level: usize,
    ) -> (r: NodeRef<K, V, IS>)
        requires
            level <= LAST_LEVEL,
            new_kvp.spec_key() != existing_kvp.spec_key(),
            new_hash == hash_at(new_kvp.spec_key().spec_hash(), level as nat),
            existing_hash == hash_at(existing_kvp.spec_key().spec_hash(), level as nat),
            same_path(
                new_kvp.spec_key().spec_hash(),
                existing_kvp.spec_key().spec_hash(),
                level as nat,
            ),
        ensures
            r.ptr@.is_two_item_node(new_kvp, *existing_kvp, level as nat),
            r.ptr@.wf(level as nat),
            r.ptr@.mask != 0,
            r.ptr@.map(level as nat) == item_map::<K, V, IS>(*existing_kvp).insert(
                new_kvp.spec_key(),
                new_kvp.spec_val(),
            ),
        decreases LAST_LEVEL - level,
    {
        let new_local_key: usize = local_key_of(new_hash);
        let existing_local_key: usize = local_key_of(existing_hash);
        let ghost new_entry = NodeEntry::<K, V, IS>::SingleItem(new_kvp);
        let ghost existing_entry = NodeEntry::<K, V, IS>::SingleItem(*existing_kvp);

        if new_local_key != existing_local_key {
            let mask: u32 = (1u32 << new_local_key) | (1u32 << existing_local_key);
            proof {
                let a = bit(new_local_key as nat);
                let b = bit(existing_local_key as nat);
                assert(a | b == b | a) by (bit_vector);
                lemma_two_bits(new_local_key as nat, existing_local_key as nat);
            }
            let mut new_node = Node::allocate(mask, MIN_CAPACITY);
            if new_local_key < existing_local_key {
                new_node.init_entry(0, NodeEntry::SingleItem(new_kvp));
                new_node.init_entry(1, NodeEntry::SingleItem(existing_kvp.clone_item()));
                proof {
                    assert(new_node@.entries =~= seq![new_entry, existing_entry]);
                    lemma_node_of_two(
                        new_node@,
                        level as nat,
                        new_local_key as nat,
                        new_entry,
                        existing_local_key as nat,
                        existing_entry,
                    );
                }
            } else {
                new_node.init_entry(0, NodeEntry::SingleItem(existing_kvp.clone_item()));
                new_node.init_entry(1, NodeEntry::SingleItem(new_kvp));
                proof {
                    assert(new_node@.entries =~= seq![existing_entry, new_entry]);
                    lemma_node_of_two(
                        new_node@,
                        level as nat,
                        existing_local_key as nat,
                        existing_entry,
                        new_local_key as nat,
                        new_entry,
                    );
                }
            }
            proof {
                lemma_map_by_slot(new_node@, level as nat);
            }
            NodeRef::new(new_node)
        } else if level == LAST_LEVEL {
            let mask: u32 = 1u32 << new_local_key;
            proof {
                lemma_one_bit(new_local_key as nat);
                lemma_same_hash(new_kvp.spec_key().spec_hash(), existing_kvp.spec_key().spec_hash());
            }
            let mut new_node = Node::allocate(mask, MIN_CAPACITY);
            let entry = collision_of_two::<K, V, IS>(new_kvp, existing_kvp);
            new_node.init_entry(0, entry);
            proof {
                assert(new_node@.entries =~= seq![entry]);
                lemma_node_of_one(new_node@, level as nat, new_local_key as nat, entry);
            }
            NodeRef::new(new_node)
        } else {
            // recurse further
            proof {
                lemma_hash_at_step(new_kvp.spec_key().spec_hash(), level as nat);
                lemma_hash_at_step(existing_kvp.spec_key().spec_hash(), level as nat);
                assert(same_path(
                    new_kvp.spec_key().spec_hash(),
                    existing_kvp.spec_key().spec_hash(),
                    (level + 1) as nat,
                ));
            }
            let sub_tree = Node::new_with_entries(
                new_kvp,
                new_hash >> 5,
                existing_kvp,
                existing_hash >> 5,
                level + 1,
            );
            let mask: u32 = 1u32 << new_local_key;
            proof {
                lemma_one_bit(new_local_key as nat);
            }
            let mut new_node = Node::allocate(mask, MIN_CAPACITY);
            let entry = NodeEntry::SubTree(sub_tree);
            new_node.init_entry(0, entry);
            proof {
                assert(new_node@.entries =~= seq![entry]);
                lemma_node_of_one(new_node@, level as nat, new_local_key as nat, entry);
            }
            NodeRef::new(new_node)
        }
    }
}

/// The hash that remains for a key, one level below `level`.
pub fn hash_below<K: HashKey>(key: &K, level: usize) -> (r: u64)
    requires
        level < LAST_LEVEL,
    ensures
        r == hash_at(key.spec_hash(), (level + 1) as nat),
{
    key.hash() >> (5 * (level + 1))
}

/// On the last level, two keys that a node on the path of `hash` can hold
/// under one local key have the hash `hash`.
pub proof fn lemma_last_level_hash<K: HashKey, V, IS: ItemStore<K, V>>(
    node: NodeView<K, V, IS>,
    hash: u64,
    lk: nat,
    key: K,
)
    requires
        node.wf(12),
        node.on_path(12, hash),
        local_key_at(hash, 12) == lk,
        node.slot_map(lk, 12).contains_key(key),
    ensures
        key.spec_hash() == hash,
{
    lemma_slot_keys(node, 12, lk, key);
    lemma_same_hash(key.spec_hash(), hash);
}

/// The keys of a child on the path of `hash` are on the path of `hash` one
/// level down.
pub proof fn lemma_child_on_path<K: HashKey, V, IS: ItemStore<K, V>>(
    node: NodeView<K, V, IS>,
    child: NodeView<K, V, IS>,
    level: nat,
    hash: u64,
)
    requires
        level < 12,
        node.wf(level),
        node.on_path(level, hash),
        node.slot_map(local_key_at(hash, level), level) == child.map(level + 1),
    ensures
        child.on_path(level + 1, hash),
{
    assert forall|k: K| #[trigger] child.map(level + 1).contains_key(k) implies same_path(
        k.spec_hash(),
        hash,
        level + 1,
    ) by {
        lemma_slot_keys(node, level, local_key_at(hash, level), k);
        assert forall|l: nat| l < level + 1 implies #[trigger] local_key_at(k.spec_hash(), l)
            == local_key_at(hash, l) by {}
    }
}

impl<K: HashKey, V, IS: ItemStore<K, V>> Node<K, V, IS> {
    /// What takes the place of a single item under the local key of
    /// `new_kvp` when `new_kvp` is inserted: `new_kvp` itself if the keys are
    /// equal; else a subtree of both items, or on the last level a collision
    /// list of both. `insertion_count` is set to 0 if the keys are equal and
    /// to 1 otherwise.
    pub fn entry_for_two(
        existing_kvp: &IS,
        hash: u64,
        level: usize,
        new_kvp: IS,
        insertion_count: &mut usize,
    ) -> (entry: NodeEntry<K, V, IS>)
        requires
            level <= LAST_LEVEL,
            hash == hash_at(new_kvp.spec_key().spec_hash(), level as nat),
            key_slot(existing_kvp.spec_key(), level as nat) == key_slot(
                new_kvp.spec_key(),
                level as nat,
            ),
            same_path(
                existing_kvp.spec_key().spec_hash(),
                new_kvp.spec_key().spec_hash(),
                level as nat,
            ),
        ensures
            if existing_kvp.spec_key() == new_kvp.spec_key() {
                entry == NodeEntry::<K, V, IS>::SingleItem(new_kvp)
            } else if level < LAST_LEVEL {
                entry matches NodeEntry::SubTree(child) && child.ptr@.is_two_item_node(
                    new_kvp,
                    *existing_kvp,
                    (level + 1) as nat,
                )
            } else {
                entry matches NodeEntry::Collision(items) && items@ == seq![new_kvp, *existing_kvp]
            },
            entry.wf(level as nat, key_slot(new_kvp.spec_key(), level as nat)),
            entry.map(level as nat) == item_map::<K, V, IS>(*existing_kvp).insert(
                new_kvp.spec_key(),
                new_kvp.spec_val(),
            ),
            *final(insertion_count) == if existing_kvp.spec_key() == new_kvp.spec_key() {
                0usize
            } else {
                1usize
            },
    {
        let existing_key = existing_kvp.key();
        if existing_key.key_eq(new_kvp.key()) {
            *insertion_count = 0;
            // Replace entry for the given key
            NodeEntry::SingleItem(new_kvp)
        } else if level != LAST_LEVEL {
            *insertion_count = 1;
            // There already is an entry with different key but same hash value, so push
            // everything down one level:
            // 1. build the hashes for the level below
            let new_hash: u64 = hash >> 5;
            let existing_hash: u64 = hash_below(existing_key, level);
            proof {
                lemma_hash_at_step(new_kvp.spec_key().spec_hash(), level as nat);
                assert forall|l: nat| l < level + 1 implies #[trigger] local_key_at(
                    new_kvp.spec_key().spec_hash(),
                    l,
                ) == local_key_at(existing_kvp.spec_key().spec_hash(), l) by {}
            }
            // 2. create the sub tree, containing the two items
            let new_sub_tree = Node::new_with_entries(
                new_kvp,
                new_hash,
                existing_kvp,
                existing_hash,
                level + 1,
            );
            NodeEntry::SubTree(new_sub_tree)
        } else {
            *insertion_count = 1;
            // If we have already exhausted all bits from the hash value, put everything in
            // collision node
            proof {
                lemma_same_hash(existing_kvp.spec_key().spec_hash(), new_kvp.spec_key().spec_hash());
            }
            collision_of_two::<K, V, IS>(new_kvp, existing_kvp)
        }
    }

    /// What takes the place of a collision list when `new_kvp` is inserted:
    /// the list with the item of the same key replaced, if there is one, and
    /// else with `new_kvp` in front. `insertion_count` is set to 0 if an item
    /// was replaced and to 1 otherwise.
    pub fn entry_for_collision(items: &Vec<IS>, new_kvp: IS, insertion_count: &mut usize) -> (entry:
        NodeEntry<K, V, IS>)
        requires
            items@.len() >= 2,
            distinct_keys::<K, V, IS>(items@),
            all_hash_to::<K, V, IS>(items@, new_kvp.spec_key().spec_hash()),
        ensures
            entry matches NodeEntry::Collision(new_items) && new_items@ == if items_contain::<
                K,
                V,
                IS,
            >(items@, new_kvp.spec_key()) {
                items@.update(items_position::<K, V, IS>(items@, new_kvp.spec_key()), new_kvp)
            } else {
                seq![new_kvp] + items@
            },
            entry.wf(12, key_slot(new_kvp.spec_key(), 12)),
            entry.map(12) == items_map::<K, V, IS>(items@).insert(
                new_kvp.spec_key(),
                new_kvp.spec_val(),
            ),
            *final(insertion_count) == if items_map::<K, V, IS>(items@).contains_key(
                new_kvp.spec_key(),
            ) {
                0usize
            } else {
                1usize
            },
    {
        let new_items = insert_into_items::<K, V, IS>(items, new_kvp, insertion_count);
        let entry = NodeEntry::Collision(Arc::new(new_items));
        proof {
            assert forall|k: K| #[trigger] entry.map(12).contains_key(k) implies key_slot(k, 12)
                == key_slot(new_kvp.spec_key(), 12) by {
                lemma_items_witness::<K, V, IS>(new_items@, k);
            }
        }
        entry
    }

    /// Inserts a key/value pair below this node of level `level`, where
    /// `hash` is what remains of the key's hash. The node is left as it is:
    /// the result is a new node, which shares with this one the entries off
    /// the path to the key. `insertion_count` is set to 1 if the key is new
    /// and to 0 if its value was replaced.
    pub fn insert(&self, hash: u64, level: usize, new_kvp: IS, insertion_count: &mut usize) -> (r:
        NodeRef<K, V, IS>)
        requires
            self@.wf(level as nat),
            hash == hash_at(new_kvp.spec_key().spec_hash(), level as nat),
            self@.on_path(level as nat, new_kvp.spec_key().spec_hash()),
        ensures
            r.ptr@.is_insertion_of(self@, level as nat, new_kvp, false),
            r.ptr@.wf(level as nat),
            r.ptr@.mask != 0,
            r.ptr@.map(level as nat) == self@.map(level as nat).insert(
                new_kvp.spec_key(),
                new_kvp.spec_val(),
            ),
            *final(insertion_count) == if self@.map(level as nat).contains_key(new_kvp.spec_key()) {
                0usize
            } else {
                1usize
            },
        decreases LAST_LEVEL - level,
    {
        let local_key: usize = local_key_of(hash);
        let ghost lk = local_key as nat;
        let ghost lv = level as nat;
        let ghost key = new_kvp.spec_key();
        let ghost val = new_kvp.spec_val();
        let bit: u32 = 1u32 << local_key;

        // See if the slot is free
        if (self.mask & bit) == 0 {
            // If yes, then fill it with a single-item entry
            *insertion_count = 1;
            let entry = NodeEntry::SingleItem(new_kvp);
            let new_node = self.copy_with_new_entry(local_key, entry);
            proof {
                lemma_insert_at_slot(self@, new_node.ptr@, lv, entry, key, val);
            }
            return new_node;
        }
        let index: usize = get_index(self.mask, local_key);
        assert(self@.occupied(lk));

        let new_entry = match self.get_entry(index) {
            NodeEntry::SingleItem(existing_kvp_ref) => {
                proof {
                    lemma_slot_keys(self@, lv, lk, existing_kvp_ref.spec_key());
                }
                Node::entry_for_two(existing_kvp_ref, hash, level, new_kvp, insertion_count)
            },
            NodeEntry::Collision(items_ref) => {
                proof {
                    lemma_last_level_hash(
                        self@,
                        key.spec_hash(),
                        lk,
                        items_ref@[0].spec_key(),
                    );
                }
                Node::entry_for_collision(items_ref, new_kvp, insertion_count)
            },
            NodeEntry::SubTree(sub_tree_ref) => {
                proof {
                    lemma_hash_at_step(key.spec_hash(), lv);
                    lemma_child_on_path(self@, sub_tree_ref.ptr@, lv, key.spec_hash());
                }
                let new_sub_tree = sub_tree_ref.borrow().insert(
                    hash >> 5,
                    level + 1,
                    new_kvp,
                    insertion_count,
                );
                let entry = NodeEntry::SubTree(new_sub_tree);
                proof {
                    assert forall|k: K| #[trigger] entry.map(lv).contains_key(k) implies key_slot(k, lv)
                        == lk by {}
                }
                entry
            },
        };
        let new_node = self.copy_with_new_entry(local_key, new_entry);
        proof {
            lemma_insert_at_slot(self@, new_node.ptr@, lv, new_entry, key, val);
        }
        new_node
    }

    /// Inserts a key/value pair below this node, which the caller owns
    /// alone, and changes the node in place where it can. Where the local key
    /// of the key is free and the node is at its capacity, the node is left
    /// as it is and a larger copy with the pair comes back; else `None`
    /// comes back and the node itself holds the pair. `insertion_count` is
    /// set to 1 if the key is new and to 0 if its value was replaced.
    pub fn try_insert_in_place(
        &mut self,
        hash: u64,
        level: usize,
        new_kvp: IS,
        insertion_count: &mut usize,
    ) -> (r: Option<NodeRef<K, V, IS>>)
        requires
            old(self)@.wf(level as nat),
            hash == hash_at(new_kvp.spec_key().spec_hash(), level as nat),
            old(self)@.on_path(level as nat, new_kvp.spec_key().spec_hash()),
        ensures
            r.is_some() == (!old(self)@.occupied(key_slot(new_kvp.spec_key(), level as nat))
                && old(self)@.entries.len() >= old(self)@.capacity),
            match r {
                Some(node) => {
                    &&& *final(self) == *old(self)
                    &&& node.ptr@.is_insertion_of(old(self)@, level as nat, new_kvp, false)
                    &&& node.ptr@.wf(level as nat)
                    &&& node.ptr@.mask != 0
                    &&& node.ptr@.map(level as nat) == old(self)@.map(level as nat).insert(
                        new_kvp.spec_key(),
                        new_kvp.spec_val(),
                    )
                },
                None => {
                    &&& final(self)@.is_insertion_of(old(self)@, level as nat, new_kvp, true)
                    &&& final(self)@.wf(level as nat)
                    &&& final(self)@.mask != 0
                    &&& final(self)@.map(level as nat) == old(self)@.map(level as nat).insert(
                        new_kvp.spec_key(),
                        new_kvp.spec_val(),
                    )
                },
            },
            *final(insertion_count) == if old(self)@.map(level as nat).contains_key(
                new_kvp.spec_key(),
            ) {
                0usize
            } else {
                1usize
            },
        decreases LAST_LEVEL - level,
    {
        let local_key: usize = local_key_of(hash);
        let ghost lk = local_key as nat;
        let ghost lv = level as nat;
        let ghost key = new_kvp.spec_key();
        let ghost val = new_kvp.spec_val();
        let ghost before = self@;

        if !self.can_insert_in_place(local_key) {
            // fallback
            return Some(self.insert(hash, level, new_kvp, insertion_count));
        }
        let bit: u32 = 1u32 << local_key;

        // See if the slot is free
        if (self.mask & bit) == 0 {
            // If yes, then fill it with a single-item entry
            *insertion_count = 1;
            let entry = NodeEntry::SingleItem(new_kvp);
            self.insert_entry_in_place(local_key, entry);
            proof {
                lemma_insert_at_slot(before, self@, lv, entry, key, val);
            }
            return None;
        }
        let index: usize = get_index(self.mask, local_key);
        assert(before.occupied(lk));

        let new_entry: Option<NodeEntry<K, V, IS>> = match self.get_entry_mut(index) {
            NodeEntry::SingleItem(existing_kvp_ref) => {
                proof {
                    lemma_slot_keys(before, lv, lk, existing_kvp_ref.spec_key());
                }
                Some(Node::entry_for_two(existing_kvp_ref, hash, level, new_kvp, insertion_count))
            },
            NodeEntry::Collision(items_ref) => {
                proof {
                    lemma_last_level_hash(before, key.spec_hash(), lk, items_ref@[0].spec_key());
                }
                Some(Node::entry_for_collision(items_ref, new_kvp, insertion_count))
            },
            NodeEntry::SubTree(subtree_mut_ref) => {
                proof {
                    lemma_hash_at_step(key.spec_hash(), lv);
                    lemma_child_on_path(before, subtree_mut_ref.ptr@, lv, key.spec_hash());
                }
                match subtree_mut_ref.try_borrow_owned() {
                    None => {
                        Some(
                            NodeEntry::SubTree(
                                subtree_mut_ref.borrow().insert(
                                    hash >> 5,
                                    level + 1,
                                    new_kvp,
                                    insertion_count,
                                ),
                            ),
                        )
                    },
                    Some(subtree) => {
                        match subtree.try_insert_in_place(
                            hash >> 5,
                            level + 1,
                            new_kvp,
                            insertion_count,
                        ) {
                            Some(new_sub_tree) => Some(NodeEntry::SubTree(new_sub_tree)),
                            None => None,
                        }
                    },
                }
            },
        };

        match new_entry {
            Some(e) => {
                proof {
                    assert(self@.entries =~= before.entries);
                    assert forall|k: K| #[trigger] e.map(lv).contains_key(k) implies key_slot(k, lv)
                        == lk by {}
                }
                self.insert_entry_in_place(local_key, e);
                proof {
                    lemma_insert_at_slot(before, self@, lv, e, key, val);
                }
            },
            None => {
                /* No new entry to be inserted, because the subtree could be modified in-place */
                proof {
                    let e = self@.entries[index as int];
                    let m = before.mask;
                    assert(m | bit == m) by (bit_vector)
                        requires
                            m & bit != 0,
                            bit == 1u32 << local_key,
                            local_key < 32,
                    ;
                    assert forall|k: K| #[trigger] e.map(lv).contains_key(k) implies key_slot(k, lv)
                        == lk by {}
                    lemma_insert_at_slot(before, self@, lv, e, key, val);
                }
            },
        }
        None
    }
}

} // verus!
