//! The nodes of the trie: their representation, what they hold as a
//! mathematical map, and when they are well formed.

use crate::bits::{
    bit, bit_count, count_below, get_index, is_set, lemma_clear_bit, lemma_count_below_le,
    lemma_set_bit, local_key_at, popcount, same_path, MIN_CAPACITY,
};
use crate::item_store::{HashKey, ItemStore};
use std::marker::PhantomData;
use std::sync::Arc;
use vstd::prelude::*;

verus! {

/// An owning handle to a node. Handles to one node share it; a node with a
/// single handle can be changed in place.
pub struct NodeRef<K, V, IS> {
    pub ptr: Arc<Node<K, V, IS>>,
}

/// What a slot of a node holds.
pub enum NodeEntry<K, V, IS> {
    /// Items whose keys differ and whose hashes are equal, in a shared list.
    Collision(Arc<Vec<IS>>),
    /// One key/value pair.
    SingleItem(IS),
    /// A child node, one level down.
    SubTree(NodeRef<K, V, IS>),
}

/// A node of the trie: a sparse array of up to 32 entries, indexed by local
/// key through a bitmap. Bit `k` of `mask` is set iff local key `k` has an
/// entry, and the entries are packed in ascending order of local key.
pub struct Node<K, V, IS> {
    pub mask: u32,
    pub capacity: u8,
    pub entries: Vec<NodeEntry<K, V, IS>>,
    pub marker: PhantomData<(K, V)>,
}

/// A node as a mathematical value: its bitmap, its capacity and the sequence
/// of its entries.
pub struct NodeView<K, V, IS> {
    pub mask: u32,
    pub capacity: nat,
    pub entries: Seq<NodeEntry<K, V, IS>>,
}

impl<K, V, IS> View for Node<K, V, IS> {
    type V = NodeView<K, V, IS>;

    open spec fn view(&self) -> NodeView<K, V, IS> {
        NodeView { mask: self.mask, capacity: self.capacity as nat, entries: self.entries@ }
    }
}

/// The local key that the hash of `key` selects at `level`.
pub open spec fn key_slot<K: HashKey>(key: K, level: nat) -> nat {
    local_key_at(key.spec_hash(), level)
}

/// Whether some item of the list has key `key`.
pub open spec fn items_contain<K, V, IS: ItemStore<K, V>>(items: Seq<IS>, key: K) -> bool {
    exists|i: int| 0 <= i < items.len() && #[trigger] items[i].spec_key() == key
}

/// The position of an item with key `key`, if there is one.
pub open spec fn items_position<K, V, IS: ItemStore<K, V>>(items: Seq<IS>, key: K) -> int {
    choose|i: int| 0 <= i < items.len() && #[trigger] items[i].spec_key() == key
}

/// The map that a list of items stands for.
pub open spec fn items_map<K, V, IS: ItemStore<K, V>>(items: Seq<IS>) -> Map<K, V> {
    Map::new(
        |k: K| items_contain::<K, V, IS>(items, k),
        |k: K| items[items_position::<K, V, IS>(items, k)].spec_val(),
    )
}

/// No two items of the list have the same key.
pub open spec fn distinct_keys<K, V, IS: ItemStore<K, V>>(items: Seq<IS>) -> bool {
    forall|i: int, j: int|
        0 <= i < j < items.len() ==> #[trigger] items[i].spec_key() != #[trigger] items[j].spec_key()
}

/// All keys of the list have the hash `hash`.
pub open spec fn all_hash_to<K: HashKey, V, IS: ItemStore<K, V>>(items: Seq<IS>, hash: u64) -> bool {
    forall|i: int| 0 <= i < items.len() ==> (#[trigger] items[i].spec_key()).spec_hash() == hash
}

impl<K: HashKey, V, IS: ItemStore<K, V>> NodeEntry<K, V, IS> {
    /// The map that the entry holds, for an entry of a node at `level`.
    pub open spec fn map(self, level: nat) -> Map<K, V>
        decreases 13 - level, 0nat,
    {
        match self {
            NodeEntry::SingleItem(item) => Map::empty().insert(item.spec_key(), item.spec_val()),
            NodeEntry::Collision(items) => items_map::<K, V, IS>(items@),
            NodeEntry::SubTree(child) => if level < 12 {
                child.ptr@.map(level + 1)
            } else {
                Map::empty()
            },
        }
    }

    /// The number of items that the entry holds, for an entry of a node at
    /// `level`: one for a single item, the length of a collision list, and
    /// for a child what its entries hold together.
    pub open spec fn item_count(self, level: nat) -> nat
        decreases 13 - level, 0nat, 0nat,
    {
        match self {
            NodeEntry::SingleItem(_) => 1,
            NodeEntry::Collision(items) => items@.len(),
            NodeEntry::SubTree(child) => if level < 12 {
                child.ptr@.item_count(level + 1)
            } else {
                0
            },
        }
    }

    /// Whether the entry may stand at local key `lk` of a node at `level`:
    /// every key it holds selects `lk` at `level`; a collision list stands
    /// only at the last level, and holds at least two items with distinct keys
    /// and one hash; a child stands only above the last level, is well formed
    /// and not empty.
    ///
    /// A child may hold a single item and nothing else: a removal pulls the
    /// last item of a child up into the parent, but a collision list that
    /// shrinks to one item is replaced by that item where it stands.
    pub open spec fn wf(self, level: nat, lk: nat) -> bool
        decreases 13 - level, 0nat,
    {
        &&& forall|k: K| #[trigger] self.map(level).contains_key(k) ==> key_slot(k, level) == lk
        &&& match self {
            NodeEntry::SingleItem(_) => true,
            NodeEntry::Collision(items) => {
                &&& level == 12
                &&& items@.len() >= 2
                &&& distinct_keys::<K, V, IS>(items@)
                &&& all_hash_to::<K, V, IS>(items@, items@[0].spec_key().spec_hash())
            },
            NodeEntry::SubTree(child) => {
                &&& level < 12
                &&& child.ptr@.wf(level + 1)
                &&& child.ptr@.mask != 0
            },
        }
    }
}

impl<K: HashKey, V, IS: ItemStore<K, V>> NodeView<K, V, IS> {
    /// Whether local key `lk` has an entry.
    pub open spec fn occupied(self, lk: nat) -> bool {
        is_set(self.mask, lk)
    }

    /// The slot of local key `lk`.
    pub open spec fn slot(self, lk: nat) -> int {
        count_below(self.mask, lk) as int
    }

    /// The entry of local key `lk`.
    pub open spec fn entry_at(self, lk: nat) -> NodeEntry<K, V, IS> {
        self.entries[self.slot(lk)]
    }

    /// The map held under local key `lk`; empty where there is no entry.
    pub open spec fn slot_map(self, lk: nat, level: nat) -> Map<K, V>
        decreases 13 - level, 1nat,
    {
        if self.occupied(lk) {
            self.entry_at(lk).map(level)
        } else {
            Map::empty()
        }
    }

    /// The map that the node holds: a key is looked up under the local key
    /// that its hash selects at `level`.
    pub open spec fn map(self, level: nat) -> Map<K, V>
        decreases 13 - level, 2nat,
    {
        Map::new(
            |k: K| self.slot_map(key_slot(k, level), level).contains_key(k),
            |k: K| self.slot_map(key_slot(k, level), level)[k],
        )
    }

    /// The number of items that the first `n` entries of the node hold.
    pub open spec fn items_in_slots(self, level: nat, n: nat) -> nat
        decreases 13 - level, 1nat, n,
    {
        if n == 0 {
            0
        } else {
            self.items_in_slots(level, (n - 1) as nat) + self.entries[n - 1].item_count(level)
        }
    }

    /// The number of items below the node: the single items, and the items of
    /// the collision lists, of the node and of the nodes below it.
    pub open spec fn item_count(self, level: nat) -> nat
        decreases 13 - level, 2nat, 0nat,
    {
        self.items_in_slots(level, self.entries.len())
    }

    /// Whether every key that the node holds selects, on each level above
    /// `level`, the local key that `hash` selects there.
    pub open spec fn on_path(self, level: nat, hash: u64) -> bool {
        forall|k: K| #[trigger] self.map(level).contains_key(k) ==> same_path(k.spec_hash(), hash, level)
    }

    /// Whether the node is well formed as a node at `level`: it is packed and
    /// each entry may stand where it is.
    pub open spec fn wf(self, level: nat) -> bool
        decreases 13 - level, 1nat,
    {
        &&& level <= 12
        &&& self.packed()
        &&& forall|lk: nat| #[trigger] self.occupied(lk) ==> self.entry_at(lk).wf(level, lk)
    }
}

/// Gives mutable access to what an `Arc` holds, if no other handle shares it.
///
/// Trusted: calls `Arc::get_mut`, which std documents as returning a mutable
/// reference into the `Arc` if there are no other `Arc` or `Weak` pointers to
/// the same allocation, and `None` otherwise. The contract states that a
/// reference that is handed out starts at the held value and that the `Arc`
/// ends up holding what the reference ends up with; and that with `None` the
/// `Arc` is unchanged. It does not say which of the two comes back.
#[verifier::external_body]
fn unique_mut<T>(this: &mut Arc<T>) -> (r: Option<&mut T>)
    ensures
        match r {
            Some(inner) => *inner == **old(this) && **final(this) == *final(inner),
            None => *final(this) == *old(this),
        },
{
    Arc::get_mut(this)
}

impl<K, V, IS> NodeRef<K, V, IS> {
    /// A handle to a fresh node, of which it is the single owner.
    pub fn new(node: Node<K, V, IS>) -> (r: Self)
        ensures
            *r.ptr == node,
    {
        NodeRef { ptr: Arc::new(node) }
    }

    /// Shared read access to the node.
    pub fn borrow(&self) -> (node: &Node<K, V, IS>)
        ensures
            *node == *self.ptr,
    {
        &*self.ptr
    }

    /// Mutable access to the node if this handle is its single owner, and
    /// `None` if the node is shared; then the handle is unchanged.
    pub fn try_borrow_owned(&mut self) -> (r: Option<&mut Node<K, V, IS>>)
        ensures
            match r {
                Some(node) => *node == *old(self).ptr && *final(self).ptr == *final(node),
                None => *final(self) == *old(self),
            },
    {
        unique_mut(&mut self.ptr)
    }
}

impl<K, V, IS> Clone for NodeRef<K, V, IS> {
    /// Another handle to the same node.
    fn clone(&self) -> (r: Self)
        ensures
            r == *self,
    {
        NodeRef { ptr: self.ptr.clone() }
    }
}

impl<K, V, IS: ItemStore<K, V>> NodeEntry<K, V, IS> {
    /// An owned copy of the entry, which shares what the entry refers to.
    pub fn clone_out(&self) -> (r: Self)
        ensures
            r == *self,
    {
        match self {
            NodeEntry::Collision(items) => NodeEntry::Collision(items.clone()),
            NodeEntry::SingleItem(item) => NodeEntry::SingleItem(item.clone_item()),
            NodeEntry::SubTree(child) => NodeEntry::SubTree(child.clone()),
        }
    }
}

impl<K, V, IS> NodeView<K, V, IS> {
    /// The entries are packed: one per set bit of the bitmap, within the
    /// capacity, which is at most 32.
    pub open spec fn packed(self) -> bool {
        &&& self.entries.len() == popcount(self.mask)
        &&& self.entries.len() <= self.capacity
        &&& self.capacity <= 32
    }

    /// The entries of a node like this one after `entry` is put at local key
    /// `lk`: in place of the entry of `lk` if there is one, and else before
    /// the entries of the local keys above `lk`.
    pub open spec fn with_entry(self, lk: nat, entry: NodeEntry<K, V, IS>) -> Seq<NodeEntry<K, V, IS>> {
        if is_set(self.mask, lk) {
            self.entries.update(count_below(self.mask, lk) as int, entry)
        } else {
            self.entries.insert(count_below(self.mask, lk) as int, entry)
        }
    }

    /// The entries of a node like this one after the entry of local key `lk`
    /// is taken out.
    pub open spec fn without_entry(self, lk: nat) -> Seq<NodeEntry<K, V, IS>> {
        self.entries.remove(count_below(self.mask, lk) as int)
    }

    /// Whether this node is `old` with `entry` put at local key `lk`.
    pub open spec fn is_update_of(self, old: Self, lk: nat, entry: NodeEntry<K, V, IS>) -> bool {
        &&& lk < 32
        &&& self.mask == old.mask | bit(lk)
        &&& self.entries == old.with_entry(lk, entry)
    }

    /// Whether this node differs from `old` at most in the entry of local key
    /// `lk`, which it has.
    pub open spec fn differs_at(self, old: Self, lk: nat) -> bool {
        self.is_update_of(old, lk, self.entries[count_below(self.mask, lk) as int])
    }

    /// Whether this node is `old` without the entry of local key `lk`.
    pub open spec fn is_removal_of(self, old: Self, lk: nat) -> bool {
        &&& is_set(old.mask, lk)
        &&& self.mask == old.mask & !bit(lk)
        &&& self.entries == old.without_entry(lk)
    }

    /// The capacity of a copy of this node: 4 for capacity 0, 32 above 16,
    /// and else twice the capacity.
    pub open spec fn expanded_capacity(self) -> nat {
        if self.capacity == 0 {
            4
        } else if self.capacity > 16 {
            32
        } else {
            self.capacity * 2
        }
    }
}

impl<K, V, IS> Node<K, V, IS> {
    /// A node with the given bitmap and capacity whose entries are still to
    /// be initialised, in ascending order of slot, by `init_entry`.
    pub fn allocate(mask: u32, capacity: usize) -> (node: Self)
        requires
            popcount(mask) <= capacity <= 32,
        ensures
            node.mask == mask,
            node.capacity == capacity,
            node.entries@.len() == 0,
    {
        Node { mask, capacity: capacity as u8, entries: Vec::with_capacity(capacity), marker: PhantomData }
    }

    /// The number of entries that the bitmap announces.
    pub fn entry_count(&self) -> (r: usize)
        ensures
            r == popcount(self.mask),
    {
        bit_count(self.mask)
    }

    /// The entry in slot `index`.
    pub fn get_entry(&self, index: usize) -> (entry: &NodeEntry<K, V, IS>)
        requires
            index < self.entries@.len(),
        ensures
            *entry == self.entries@[index as int],
    {
        &self.entries[index]
    }

    /// Mutable access to the entry in slot `index`.
    pub fn get_entry_mut(&mut self, index: usize) -> (entry: &mut NodeEntry<K, V, IS>)
        requires
            index < old(self).entries@.len(),
        ensures
            *entry == old(self).entries@[index as int],
            final(self).entries@ == old(self).entries@.update(index as int, *final(entry)),
            final(self).mask == old(self).mask,
            final(self).capacity == old(self).capacity,
    {
        &mut self.entries[index]
    }

    /// Puts `entry` in slot `index`: the next slot to initialise, or one that
    /// is initialised, whose entry is dropped. The bitmap is left alone.
    pub fn init_entry(&mut self, index: usize, entry: NodeEntry<K, V, IS>)
        requires
            index <= old(self).entries@.len(),
            index < popcount(old(self).mask),
        ensures
            final(self).mask == old(self).mask,
            final(self).capacity == old(self).capacity,
            final(self).entries@ == if index == old(self).entries@.len() {
                old(self).entries@.push(entry)
            } else {
                old(self).entries@.update(index as int, entry)
            },
    {
        if index == self.entries.len() {
            self.entries.push(entry);
        } else {
            self.entries[index] = entry;
        }
    }

    /// How large a copy of this node is made.
    pub fn expanded_capacity(&self) -> (r: usize)
        ensures
            r == self@.expanded_capacity(),
    {
        if self.capacity == 0 {
            MIN_CAPACITY
        } else if self.capacity > 16 {
            32
        } else {
            (self.capacity as usize) * 2
        }
    }

    /// Whether an entry can be put at `local_key` without a larger node: the
    /// local key has an entry to replace, or the node is below its capacity.
    pub fn can_insert_in_place(&self, local_key: usize) -> (r: bool)
        requires
            local_key < 32,
        ensures
            r == (is_set(self.mask, local_key as nat) || popcount(self.mask) < self.capacity),
    {
        let bit: u32 = 1u32 << local_key;
        if (self.mask & bit) != 0 {
            true
        } else {
            self.entry_count() < self.capacity as usize
        }
    }
}

impl<K, V, IS: ItemStore<K, V>> Node<K, V, IS> {
    /// A copy of this node with `new_entry` at `local_key`, in place of the
    /// entry of `local_key` if there is one. The copy shares the other entries.
    pub fn copy_with_new_entry(&self, local_key: usize, new_entry: NodeEntry<K, V, IS>) -> (r: NodeRef<
        K,
        V,
        IS,
    >)
        requires
            self@.packed(),
            local_key < 32,
        ensures
            r.ptr@.is_update_of(self@, local_key as nat, new_entry),
            r.ptr.capacity == self@.expanded_capacity(),
            r.ptr@.packed(),
    {
        let bit: u32 = 1u32 << local_key;
        let replace_old_entry: bool = (self.mask & bit) != 0;
        let new_mask: u32 = self.mask | bit;
        proof {
            lemma_set_bit(self.mask, local_key as nat, 32);
            lemma_set_bit(self.mask, local_key as nat, local_key as nat);
            lemma_count_below_le(new_mask, 32, 32);
        }
        let old_count: usize = self.entries.len();
        let new_capacity: usize = self.expanded_capacity();
        let mut new_node = Node::allocate(new_mask, new_capacity);
        let index: usize = get_index(new_mask, local_key);
        let ghost expected = self@.with_entry(local_key as nat, new_entry);

        let mut old_i: usize = 0;
        let mut new_i: usize = 0;

        // Copy up to index
        while old_i < index
            invariant
                old_i == new_i,
                old_i <= index <= old_count,
                old_count == self.entries@.len(),
                index < popcount(new_mask),
                new_node.mask == new_mask,
                new_node.capacity == new_capacity,
                new_node.entries@ == self.entries@.subrange(0, old_i as int),
            decreases index - old_i,
        {
            new_node.init_entry(new_i, self.get_entry(old_i).clone_out());
            old_i += 1;
            new_i += 1;
        }

        // Add new entry
        new_node.init_entry(new_i, new_entry);
        new_i += 1;

        if replace_old_entry {
            // Skip the replaced value
            old_i += 1;
        }

        // Copy the rest
        while old_i < old_count
            invariant
                old_i <= old_count,
                old_count == self.entries@.len(),
                new_i == if replace_old_entry {
                    old_i as int
                } else {
                    old_i + 1
                },
                index < new_i <= old_count + 1,
                old_count <= 32,
                index == count_below(self.mask, local_key as nat),
                replace_old_entry == is_set(self.mask, local_key as nat),
                expected == self@.with_entry(local_key as nat, new_entry),
                popcount(new_mask) == if replace_old_entry {
                    old_count as int
                } else {
                    old_count + 1
                },
                new_node.mask == new_mask,
                new_node.capacity == new_capacity,
                new_node.entries@ == expected.subrange(0, new_i as int),
            decreases old_count - old_i,
        {
            new_node.init_entry(new_i, self.get_entry(old_i).clone_out());
            old_i += 1;
            new_i += 1;
        }

        assert(new_node.entries@ =~= expected);
        NodeRef::new(new_node)
    }

    /// A copy of this node without the entry of `local_key`. The copy shares
    /// the other entries.
    pub fn copy_without_entry(&self, local_key: usize) -> (r: NodeRef<K, V, IS>)
        requires
            self@.packed(),
            is_set(self.mask, local_key as nat),
        ensures
            r.ptr@.is_removal_of(self@, local_key as nat),
            r.ptr.capacity == self@.expanded_capacity(),
            r.ptr@.packed(),
    {
        let bit: u32 = 1u32 << local_key;
        let new_mask: u32 = self.mask & !bit;
        proof {
            lemma_clear_bit(self.mask, local_key as nat, 32);
        }
        let old_count: usize = self.entries.len();
        let new_capacity: usize = self.expanded_capacity();
        let mut new_node = Node::allocate(new_mask, new_capacity);
        let index: usize = get_index(self.mask, local_key);
        let ghost expected = self@.without_entry(local_key as nat);

        let mut old_i: usize = 0;
        let mut new_i: usize = 0;

        // Copy up to index
        while old_i < index
            invariant
                old_i == new_i,
                old_i <= index < old_count,
                old_count == self.entries@.len(),
                popcount(new_mask) == old_count - 1,
                new_node.mask == new_mask,
                new_node.capacity == new_capacity,
                new_node.entries@ == self.entries@.subrange(0, old_i as int),
            decreases index - old_i,
        {
            new_node.init_entry(new_i, self.get_entry(old_i).clone_out());
            old_i += 1;
            new_i += 1;
        }

        old_i += 1;

        // Copy the rest
        while old_i < old_count
            invariant
                old_i <= old_count,
                old_count == self.entries@.len(),
                old_i == new_i + 1,
                index <= new_i,
                index == count_below(self.mask, local_key as nat),
                expected == self@.without_entry(local_key as nat),
                popcount(new_mask) == old_count - 1,
                new_node.mask == new_mask,
                new_node.capacity == new_capacity,
                new_node.entries@ == expected.subrange(0, new_i as int),
            decreases old_count - old_i,
        {
            new_node.init_entry(new_i, self.get_entry(old_i).clone_out());
            old_i += 1;
            new_i += 1;
        }

        assert(new_node.entries@ =~= expected);
        NodeRef::new(new_node)
    }

    /// Puts `new_entry` at `local_key` of this node: in place of the entry of
    /// `local_key` if there is one, which is dropped; else the entries of the
    /// local keys above move up by one slot and the bit of `local_key` is set.
    pub fn insert_entry_in_place(&mut self, local_key: usize, new_entry: NodeEntry<K, V, IS>)
        requires
            old(self)@.packed(),
            local_key < 32,
            is_set(old(self).mask, local_key as nat) || popcount(old(self).mask) < old(
                self,
            ).capacity,
        ensures
            final(self)@.is_update_of(old(self)@, local_key as nat, new_entry),
            final(self).capacity == old(self).capacity,
            final(self)@.packed(),
    {
        let bit: u32 = 1u32 << local_key;
        let new_mask: u32 = self.mask | bit;
        let replace_old_entry: bool = new_mask == self.mask;
        proof {
            lemma_set_bit(self.mask, local_key as nat, 32);
            lemma_set_bit(self.mask, local_key as nat, local_key as nat);
            let m = self.mask;
            assert((m | bit == m) == (m & bit != 0)) by (bit_vector)
                requires
                    bit == 1u32 << local_key,
                    local_key < 32,
            ;
        }
        let index: usize = get_index(new_mask, local_key);

        if replace_old_entry {
            self.init_entry(index, new_entry);
        } else {
            self.entries.insert(index, new_entry);
            self.mask = new_mask;
        }
    }

    /// Takes the entry of `local_key` out of this node and drops it: the
    /// entries of the local keys above move down by one slot and the bit of
    /// `local_key` is cleared.
    pub fn remove_entry_in_place(&mut self, local_key: usize)
        requires
            old(self)@.packed(),
            is_set(old(self).mask, local_key as nat),
        ensures
            final(self)@.is_removal_of(old(self)@, local_key as nat),
            final(self).capacity == old(self).capacity,
            final(self)@.packed(),
    {
        let bit: u32 = 1u32 << local_key;
        let new_mask: u32 = self.mask & !bit;
        proof {
            lemma_clear_bit(self.mask, local_key as nat, 32);
        }
        let index: usize = get_index(self.mask, local_key);
        let _ = self.entries.remove(index);
        self.mask = new_mask;
    }
}

} // verus!
