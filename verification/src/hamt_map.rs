//! The map: a root node and the number of keys, with lookup, insertion and
//! removal routed through the root.

use crate::bits::{
    get_index, hash_at, lemma_empty_mask, lemma_hash_at_step, lemma_one_bit, LAST_LEVEL,
    MIN_CAPACITY,
};
use crate::collision::find_position;
use crate::insert::local_key_of;
use crate::item_store::{HashKey, ItemStore};
use crate::node::{Node, NodeEntry, NodeRef, NodeView};
use crate::remove::RemovalResult;
use crate::shape::RemovalOutcome;
use crate::slots::{lemma_empty_node, lemma_node_of_one};
use vstd::prelude::*;

verus! {

/// A persistent map from `K` to `V`. Every update consumes the map and hands
/// back the updated one; clones of a map share its nodes and are not affected.
pub struct HamtMap<K, V, IS> {
    root: NodeRef<K, V, IS>,
    element_count: usize,
}

/// A map whose updates consume it and hand back the updated map, with a flag
/// that says whether the number of keys changed.
pub trait PersistentMap<K, V>: Sized {
    /// What the map holds.
    spec fn contents(&self) -> Map<K, V>;

    /// Whether the map is well formed.
    spec fn valid(&self) -> bool;

    /// Binds `key` to `value`. The flag says whether `key` is new.
    fn insert(self, key: K, value: V) -> (r: (Self, bool))
        requires
            self.valid(),
            self.contents().dom().len() < usize::MAX,
        ensures
            r.0.valid(),
            r.0.contents() == self.contents().insert(key, value),
            r.1 == !self.contents().contains_key(key),
    ;

    /// Unbinds `key`. The flag says whether `key` was bound.
    fn remove(self, key: &K) -> (r: (Self, bool))
        requires
            self.valid(),
        ensures
            r.0.valid(),
            r.0.contents() == self.contents().remove(*key),
            r.1 == self.contents().contains_key(*key),
    ;
}

impl<K: HashKey, V, IS: ItemStore<K, V>> View for HamtMap<K, V, IS> {
    type V = Map<K, V>;

    /// What the map holds: what its root holds as the node of level 0.
    open spec fn view(&self) -> Map<K, V> {
        self.root_view().map(0)
    }
}

impl<K: HashKey, V, IS: ItemStore<K, V>> HamtMap<K, V, IS> {
    /// Whether the map is well formed: its root is a well-formed node of
    /// level 0, and its element count is the number of items stored in the
    /// tree.
    pub closed spec fn wf(&self) -> bool {
        &&& self.root.ptr@.wf(0)
        &&& self.element_count == self.stored_items()
    }

    /// The root of the tree.
    pub closed spec fn root_view(&self) -> NodeView<K, V, IS> {
        self.root.ptr@
    }

    /// The number of items stored in the tree: its single items and the
    /// items of its collision lists.
    pub closed spec fn stored_items(&self) -> nat {
        self.root.ptr@.item_count(0)
    }

    /// A well-formed map holds finitely many keys: as many as there are
    /// items stored in its tree.
    pub proof fn lemma_keys_are_stored_items(&self)
        requires
            self.wf(),
        ensures
            self@.dom().finite(),
            self.spec_len() == self.stored_items(),
    {
        self.root.ptr@.lemma_item_count(0);
    }

    /// What a lookup of `key` yields.
    pub open spec fn spec_find(&self, key: K) -> Option<V> {
        if self@.contains_key(key) {
            Some(self@[key])
        } else {
            None
        }
    }

    /// The number of keys of the map.
    pub open spec fn spec_len(&self) -> nat {
        self@.dom().len()
    }

    /// The empty map, with a fresh root that has no entries and capacity 0.
    pub fn new() -> (m: Self)
        ensures
            m.wf(),
            m.root_view().is_empty_root(),
            m@ == Map::<K, V>::empty(),
    {
        proof {
            lemma_empty_mask(32);
        }
        let root = Node::allocate(0, 0);
        proof {
            lemma_empty_node(root@, 0);
        }
        HamtMap { root: NodeRef::new(root), element_count: 0 }
    }

    /// The number of keys of the map.
    pub fn len(&self) -> (r: usize)
        requires
            self.wf(),
        ensures
            r == self.spec_len(),
    {
        proof {
            self.lemma_keys_are_stored_items();
        }
        self.element_count
    }

    /// The value that `key` is bound to, if it is bound.
    pub fn find(&self, key: &K) -> (r: Option<&V>)
        requires
            self.wf(),
        ensures
            match r {
                Some(v) => self.spec_find(*key) == Some(*v),
                None => self.spec_find(*key) == None::<V>,
            },
    {
        let mut hash: u64 = key.hash();
        let mut level: usize = 0;
        let mut current_node: &Node<K, V, IS> = self.root.borrow();
        proof {
            lemma_hash_at_step(hash, 0);
        }

        loop
            invariant
                level <= LAST_LEVEL,
                current_node@.wf(level as nat),
                hash == hash_at(key.spec_hash(), level as nat),
                current_node@.map(level as nat).contains_key(*key) == self@.contains_key(*key),
                self@.contains_key(*key) ==> current_node@.map(level as nat)[*key] == self@[*key],
            decreases LAST_LEVEL - level,
        {
            let local_key: usize = local_key_of(hash);
            let bit: u32 = 1u32 << local_key;

            if (current_node.mask & bit) == 0 {
                return None;
            }
            let index: usize = get_index(current_node.mask, local_key);

            match current_node.get_entry(index) {
                NodeEntry::SingleItem(kvp_ref) => {
                    return if key.key_eq(kvp_ref.key()) {
                        Some(kvp_ref.val())
                    } else {
                        None
                    };
                },
                NodeEntry::Collision(items_ref) => {
                    let found = find_position::<K, V, IS>(items_ref, key);
                    return match found {
                        Some(position) => Some(items_ref[position].val()),
                        None => None,
                    };
                },
                NodeEntry::SubTree(subtree_ref) => {
                    proof {
                        lemma_hash_at_step(key.spec_hash(), level as nat);
                    }
                    current_node = subtree_ref.borrow();
                    hash = hash >> 5;
                    level += 1;
                },
            };
        }
    }

    /// Inserts the pair that `kvp` holds. The flag says whether the key is
    /// new. Where this map is the single owner of its root, the tree is
    /// changed in place; else the path to the key is copied.
    pub fn insert_internal(self, kvp: IS) -> (r: (Self, bool))
        requires
            self.wf(),
            self.spec_len() < usize::MAX,
        ensures
            r.0.wf(),
            r.0.root_view().is_insertion_of(self.root_view(), 0, kvp, true)
                || r.0.root_view().is_insertion_of(self.root_view(), 0, kvp, false),
            r.0@ == self@.insert(kvp.spec_key(), kvp.spec_val()),
            r.1 == !self@.contains_key(kvp.spec_key()),
    {
        let mut this = self;
        let hash: u64 = kvp.key().hash();
        let mut insertion_count: usize = 0;
        let element_count: usize = this.element_count;
        proof {
            lemma_hash_at_step(hash, 0);
            self.lemma_keys_are_stored_items();
        }

        // If we hold the only reference to the root node, then try to insert the KVP in-place
        let new_root = match this.root.try_borrow_owned() {
            Some(mutable) => mutable.try_insert_in_place(hash, 0, kvp, &mut insertion_count),
            None => Some(this.root.borrow().insert(hash, 0, kvp, &mut insertion_count)),
        };

        let new_root = match new_root {
            Some(r) => r,
            None => this.root,
        };
        proof {
            new_root.ptr@.lemma_item_count(0);
        }

        (
            HamtMap { root: new_root, element_count: element_count + insertion_count },
            insertion_count != 0,
        )
    }

    /// Removes `key`. The flag says whether the key was there. Where this
    /// map is the single owner of its root, the tree is changed in place;
    /// else the path to the key is copied. Where the removal leaves the root
    /// with a single item, the map gets a fresh root with that item alone;
    /// where it leaves nothing, the fresh root of an empty map.
    pub fn try_remove_in_place(self, key: &K) -> (r: (Self, bool))
        requires
            self.wf(),
        ensures
            r.0.wf(),
            match self.root_view().removal_outcome(0, *key) {
                RemovalOutcome::NoChange => r.0.root_view().is_untouched(self.root_view(), 0, *key),
                RemovalOutcome::Replace => r.0.root_view().is_removal_from(
                    self.root_view(),
                    0,
                    *key,
                    true,
                ) || r.0.root_view().is_removal_from(self.root_view(), 0, *key, false),
                RemovalOutcome::Collapse(kvp) => r.0.root_view().is_root_of_one(kvp),
                RemovalOutcome::Kill => r.0.root_view().is_empty_root(),
            },
            r.0@ == self@.remove(*key),
            r.1 == self@.contains_key(*key),
    {
        let mut this = self;
        let hash: u64 = key.hash();
        let mut removal_count: usize = 0;
        let element_count: usize = this.element_count;
        proof {
            lemma_hash_at_step(hash, 0);
            self.lemma_keys_are_stored_items();
            assert(self@.remove(*key).dom() =~= self@.dom().remove(*key));
        }

        let removal_result = match this.root.try_borrow_owned() {
            None => {
                proof {
                    this.root.ptr@.lemma_untouched_itself(0, *key);
                }
                this.root.borrow().remove(hash, 0, key, &mut removal_count)
            },
            Some(node_ref) => node_ref.remove_in_place(hash, 0, key, &mut removal_count),
        };
        let new_element_count: usize = element_count - removal_count;

        (
            match removal_result {
                RemovalResult::NoChange => {
                    proof {
                        this.root.ptr@.lemma_item_count(0);
                    }
                    HamtMap { root: this.root, element_count: new_element_count }
                },
                RemovalResult::ReplaceSubTree(new_root) => {
                    proof {
                        new_root.ptr@.lemma_item_count(0);
                    }
                    HamtMap { root: new_root, element_count: new_element_count }
                },
                RemovalResult::CollapseSubTree(kvp) => {
                    let local_key: usize = local_key_of(kvp.key().hash());
                    let mask: u32 = 1u32 << local_key;
                    proof {
                        lemma_one_bit(local_key as nat);
                        lemma_hash_at_step(kvp.spec_key().spec_hash(), 0);
                    }
                    let mut root = Node::allocate(mask, MIN_CAPACITY);
                    let entry = NodeEntry::SingleItem(kvp);
                    root.init_entry(0, entry);
                    proof {
                        assert(root@.entries =~= seq![entry]);
                        lemma_node_of_one(root@, 0, local_key as nat, entry);
                    }
                    HamtMap { root: NodeRef::new(root), element_count: new_element_count }
                },
                RemovalResult::KillSubTree => HamtMap::new(),
            },
            removal_count != 0,
        )
    }
}

impl<K: HashKey, V, IS: ItemStore<K, V>> Clone for HamtMap<K, V, IS> {
    /// Another handle to the same tree: the two maps share every node.
    fn clone(&self) -> (r: Self)
        ensures
            self.wf() ==> r.wf(),
            r.root_view() == self.root_view(),
            r@ == self@,
    {
        HamtMap { root: self.root.clone(), element_count: self.element_count }
    }
}

impl<K: HashKey, V, IS: ItemStore<K, V>> PersistentMap<K, V> for HamtMap<K, V, IS> {
    open spec fn contents(&self) -> Map<K, V> {
        self@
    }

    open spec fn valid(&self) -> bool {
        self.wf()
    }

    /// Inserts the pair as `insert_internal` inserts a store of it.
    fn insert(self, key: K, value: V) -> (r: (Self, bool))
        ensures
            exists|kvp: IS|
                kvp.spec_key() == key && kvp.spec_val() == value && (r.0.root_view().is_insertion_of(
                    self.root_view(),
                    0,
                    kvp,
                    true,
                ) || r.0.root_view().is_insertion_of(self.root_view(), 0, kvp, false)),
    {
        let kvp = IS::new(key, value);
        self.insert_internal(kvp)
    }

    /// Removes the key as `try_remove_in_place` does.
    fn remove(self, key: &K) -> (r: (Self, bool))
        ensures
            match self.root_view().removal_outcome(0, *key) {
                RemovalOutcome::NoChange => r.0.root_view().is_untouched(self.root_view(), 0, *key),
                RemovalOutcome::Replace => r.0.root_view().is_removal_from(
                    self.root_view(),
                    0,
                    *key,
                    true,
                ) || r.0.root_view().is_removal_from(self.root_view(), 0, *key, false),
                RemovalOutcome::Collapse(kvp) => r.0.root_view().is_root_of_one(kvp),
                RemovalOutcome::Kill => r.0.root_view().is_empty_root(),
            },
    {
        self.try_remove_in_place(key)
    }
}

} // verus!
