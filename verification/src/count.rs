//! The number of keys that a node holds is the number of items stored below
//! it.

use crate::bits::{lemma_count_below_strict, lemma_nonzero_mask, lemma_slot_has_key};
use crate::collision::lemma_items_witness;
use crate::item_store::{HashKey, ItemStore};
use crate::node::{distinct_keys, items_map, key_slot, NodeEntry, NodeView};
use vstd::prelude::*;
use vstd::set_lib::lemma_set_disjoint_lens;

verus! {

/// A list of items with distinct keys stands for a map with as many keys as
/// the list has items.
pub proof fn lemma_items_count<K, V, IS: ItemStore<K, V>>(items: Seq<IS>)
    requires
        distinct_keys::<K, V, IS>(items),
    ensures
        items_map::<K, V, IS>(items).dom().finite(),
        items_map::<K, V, IS>(items).dom().len() == items.len(),
    decreases items.len(),
{
    if items.len() == 0 {
        assert(items_map::<K, V, IS>(items).dom() =~= Set::<K>::empty());
    } else {
        let rest = items.drop_last();
        let last = items.last();
        assert forall|i: int, j: int| 0 <= i < j < rest.len() implies #[trigger] rest[i].spec_key()
            != #[trigger] rest[j].spec_key() by {}
        lemma_items_count::<K, V, IS>(rest);
        let rest_keys = items_map::<K, V, IS>(rest).dom();
        if rest_keys.contains(last.spec_key()) {
            lemma_items_witness::<K, V, IS>(rest, last.spec_key());
        }
        assert forall|k: K| #[trigger]
            items_map::<K, V, IS>(items).dom().contains(k) == rest_keys.insert(
                last.spec_key(),
            ).contains(k) by {
            if items_map::<K, V, IS>(items).dom().contains(k) {
                let i = lemma_items_witness::<K, V, IS>(items, k);
                if i < rest.len() {
                    assert(rest[i] == items[i]);
                }
            }
            if rest_keys.contains(k) {
                lemma_items_witness::<K, V, IS>(rest, k);
            }
        }
        assert(items_map::<K, V, IS>(items).dom() =~= rest_keys.insert(last.spec_key()));
    }
}

impl<K: HashKey, V, IS: ItemStore<K, V>> NodeView<K, V, IS> {
    /// The keys that the node holds under the local keys of its first `n`
    /// slots.
    pub open spec fn keys_in_slots(self, level: nat, n: nat) -> Set<K> {
        Set::new(|k: K| self.map(level).contains_key(k) && self.slot(key_slot(k, level)) < n)
    }

    /// A well-formed node holds, under the local keys of its first `n`
    /// slots, as many keys as the entries in those slots hold items.
    pub proof fn lemma_slots_count(self, level: nat, n: nat)
        requires
            self.wf(level),
            n <= self.entries.len(),
        ensures
            self.keys_in_slots(level, n).finite(),
            self.keys_in_slots(level, n).len() == self.items_in_slots(level, n),
        decreases 13 - level, 1nat, n,
    {
        if n == 0 {
            assert(self.keys_in_slots(level, n) =~= Set::<K>::empty());
        } else {
            let m = (n - 1) as nat;
            self.lemma_slots_count(level, m);
            let lk = lemma_slot_has_key(self.mask, m, 32);
            let entry = self.entry_at(lk);
            assert(self.occupied(lk));
            entry.lemma_entry_count(level, lk);
            let below = self.keys_in_slots(level, m);
            let here = entry.map(level).dom();
            assert forall|k: K| #[trigger]
                self.keys_in_slots(level, n).contains(k) == (below.contains(k) || here.contains(
                    k,
                )) by {}
            assert(self.keys_in_slots(level, n) =~= below + here);
            assert(below.disjoint(here)) by {
                assert forall|k: K| !(below.contains(k) && here.contains(k)) by {}
            }
            lemma_set_disjoint_lens(below, here);
        }
    }

    /// A well-formed node holds finitely many keys: as many as there are
    /// items stored below it.
    pub proof fn lemma_item_count(self, level: nat)
        requires
            self.wf(level),
        ensures
            self.map(level).dom().finite(),
            self.map(level).dom().len() == self.item_count(level),
        decreases 13 - level, 2nat, 0nat,
    {
        self.lemma_slots_count(level, self.entries.len());
        assert forall|k: K| #[trigger]
            self.map(level).contains_key(k) implies self.slot(key_slot(k, level))
            < self.entries.len() by {
            lemma_count_below_strict(self.mask, key_slot(k, level), 32);
        }
        assert(self.map(level).dom() =~= self.keys_in_slots(level, self.entries.len()));
    }

    /// A well-formed node that is not empty holds a key.
    pub proof fn lemma_holds_a_key(self, level: nat)
        requires
            self.wf(level),
            self.mask != 0,
        ensures
            self.map(level) != Map::<K, V>::empty(),
            self.item_count(level) > 0,
        decreases 13 - level, 2nat, 0nat,
    {
        lemma_nonzero_mask(self.mask);
        self.lemma_item_count(level);
        let n = self.entries.len();
        let lk = lemma_slot_has_key(self.mask, (n - 1) as nat, 32);
        assert(self.occupied(lk));
        if let NodeEntry::SubTree(child) = self.entry_at(lk) {
            child.ptr@.lemma_holds_a_key(level + 1);
        }
    }
}

impl<K: HashKey, V, IS: ItemStore<K, V>> NodeEntry<K, V, IS> {
    /// A fitting entry holds finitely many keys: as many as it holds items.
    pub proof fn lemma_entry_count(self, level: nat, lk: nat)
        requires
            self.wf(level, lk),
        ensures
            self.map(level).dom().finite(),
            self.map(level).dom().len() == self.item_count(level),
        decreases 13 - level, 0nat, 0nat,
    {
        match self {
            NodeEntry::SingleItem(_) => {},
            NodeEntry::Collision(items) => {
                lemma_items_count::<K, V, IS>(items@);
            },
            NodeEntry::SubTree(child) => {
                child.ptr@.lemma_item_count(level + 1);
            },
        }
    }
}

} // verus!
