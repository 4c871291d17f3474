//! What holds of the map whatever it holds: how lookups answer after an
//! insertion or a removal, how the length follows the keys, and that the
//! order of insertions does not show.

use crate::hamt_map::HamtMap;
use crate::item_store::{HashKey, ItemStore};
use vstd::prelude::*;

verus! {

/// One update of a map.
pub enum Update<K, V> {
    /// Bind the key to the value.
    Insert(K, V),
    /// Unbind the key.
    Remove(K),
}

/// What `m` holds after the updates of `updates`, from first to last.
pub open spec fn apply_updates<K, V>(m: Map<K, V>, updates: Seq<Update<K, V>>) -> Map<K, V>
    decreases updates.len(),
{
    if updates.len() == 0 {
        m
    } else {
        let before = apply_updates(m, updates.drop_last());
        match updates.last() {
            Update::Insert(key, val) => before.insert(key, val),
            Update::Remove(key) => before.remove(key),
        }
    }
}

/// Whether `key` is still present after the updates of `updates` on an
/// empty map: the last update that names `key` is an insertion.
pub open spec fn still_present<K, V>(updates: Seq<Update<K, V>>, key: K) -> bool
    decreases updates.len(),
{
    if updates.len() == 0 {
        false
    } else {
        match updates.last() {
            Update::Insert(k, _) => k == key || still_present(updates.drop_last(), key),
            Update::Remove(k) => k != key && still_present(updates.drop_last(), key),
        }
    }
}

/// What `m` holds after the pairs of `pairs` are inserted, from first to last.
pub open spec fn insert_all<K, V>(m: Map<K, V>, pairs: Seq<(K, V)>) -> Map<K, V>
    decreases pairs.len(),
{
    if pairs.len() == 0 {
        m
    } else {
        insert_all(m, pairs.drop_last()).insert(pairs.last().0, pairs.last().1)
    }
}

/// No two pairs of the sequence have the same key.
pub open spec fn distinct_pair_keys<K, V>(pairs: Seq<(K, V)>) -> bool {
    forall|i: int, j: int| 0 <= i < j < pairs.len() ==> pairs[i].0 != pairs[j].0
}

/// After updates on an empty map, the keys of the map are those still
/// present, and there are finitely many of them.
pub proof fn lemma_apply_updates<K, V>(updates: Seq<Update<K, V>>)
    ensures
        apply_updates(Map::<K, V>::empty(), updates).dom().finite(),
        forall|key: K|
            apply_updates(Map::<K, V>::empty(), updates).contains_key(key) == still_present(
                updates,
                key,
            ),
    decreases updates.len(),
{
    let empty = Map::<K, V>::empty();
    if updates.len() > 0 {
        let rest = updates.drop_last();
        lemma_apply_updates(rest);
        assert forall|key: K| apply_updates(empty, updates).contains_key(key) == still_present(
            updates,
            key,
        ) by {
            assert(apply_updates(empty, rest).contains_key(key) == still_present(rest, key));
        }
    }
}

/// The length of a map equals the number of keys still present, after any
/// sequence of insertions and removals from the empty map.
pub proof fn law_len_counts_present_keys<K: HashKey, V, IS: ItemStore<K, V>>(
    m: HamtMap<K, V, IS>,
    updates: Seq<Update<K, V>>,
)
    requires
        m.wf(),
        m@ == apply_updates(Map::<K, V>::empty(), updates),
    ensures
        Set::new(|key: K| still_present(updates, key)).finite(),
        m.spec_len() == Set::new(|key: K| still_present(updates, key)).len(),
{
    lemma_apply_updates(updates);
    assert(m@.dom() =~= Set::new(|key: K| still_present(updates, key)));
}

/// An insertion raises the length by one if the key is new and leaves it
/// otherwise; a removal lowers it by one if the key was there and leaves
/// it otherwise.
pub proof fn law_len_follows_updates<K: HashKey, V, IS: ItemStore<K, V>>(
    before: HamtMap<K, V, IS>,
    after: HamtMap<K, V, IS>,
    key: K,
    val: V,
)
    requires
        before.wf(),
    ensures
        after@ == before@.insert(key, val) ==> after.spec_len() == before.spec_len() + (
        if before@.contains_key(key) {
            0nat
        } else {
            1nat
        }),
        after@ == before@.remove(key) ==> after.spec_len() + (if before@.contains_key(key) {
            1nat
        } else {
            0nat
        }) == before.spec_len(),
{
    before.lemma_keys_are_stored_items();
}

/// A lookup of a key that was just inserted yields the inserted value.
pub proof fn law_find_inserted<K: HashKey, V, IS: ItemStore<K, V>>(
    before: HamtMap<K, V, IS>,
    after: HamtMap<K, V, IS>,
    key: K,
    val: V,
)
    requires
        after@ == before@.insert(key, val),
    ensures
        after.spec_find(key) == Some(val),
{
}

/// A lookup of a key that was just removed yields nothing.
pub proof fn law_find_removed<K: HashKey, V, IS: ItemStore<K, V>>(
    before: HamtMap<K, V, IS>,
    after: HamtMap<K, V, IS>,
    key: K,
)
    requires
        after@ == before@.remove(key),
    ensures
        after.spec_find(key) == None::<V>,
{
}

/// An insertion and a removal leave the lookups of every other key as they
/// were.
pub proof fn law_find_other<K: HashKey, V, IS: ItemStore<K, V>>(
    before: HamtMap<K, V, IS>,
    after: HamtMap<K, V, IS>,
    key: K,
    val: V,
    other: K,
)
    requires
        other != key,
        after@ == before@.insert(key, val) || after@ == before@.remove(key),
    ensures
        after.spec_find(other) == before.spec_find(other),
{
}

/// The removal of a key that the map does not hold leaves every lookup as
/// it was.
pub proof fn law_remove_absent<K: HashKey, V, IS: ItemStore<K, V>>(
    before: HamtMap<K, V, IS>,
    after: HamtMap<K, V, IS>,
    key: K,
)
    requires
        !before@.contains_key(key),
        after@ == before@.remove(key),
    ensures
        after@ == before@,
        forall|q: K| after.spec_find(q) == before.spec_find(q),
{
}

/// After the insertion of pairs with distinct keys, a key is bound if it
/// was bound before or is the key of a pair; the key of a pair is bound to
/// the value of the pair, and any other key to what it was bound to.
pub proof fn lemma_insert_all<K, V>(m: Map<K, V>, pairs: Seq<(K, V)>)
    requires
        distinct_pair_keys(pairs),
    ensures
        forall|i: int|
            0 <= i < pairs.len() ==> insert_all(m, pairs).contains_key(#[trigger] pairs[i].0)
                && insert_all(m, pairs)[pairs[i].0] == pairs[i].1,
        forall|key: K|
            (forall|i: int| 0 <= i < pairs.len() ==> #[trigger] pairs[i].0 != key) ==> (
            #[trigger] insert_all(m, pairs).contains_key(key) == m.contains_key(key)) && (
            m.contains_key(key) ==> insert_all(m, pairs)[key] == m[key]),
    decreases pairs.len(),
{
    if pairs.len() > 0 {
        let rest = pairs.drop_last();
        let n = pairs.len() - 1;
        assert forall|i: int| 0 <= i < rest.len() implies #[trigger] rest[i] == pairs[i] by {}
        assert(distinct_pair_keys(rest)) by {
            assert forall|i: int, j: int| 0 <= i < j < rest.len() implies rest[i].0 != rest[j].0 by {}
        }
        lemma_insert_all(m, rest);
        assert(insert_all(m, pairs) == insert_all(m, rest).insert(pairs[n].0, pairs[n].1));
        assert forall|i: int| 0 <= i < pairs.len() implies insert_all(m, pairs).contains_key(
            #[trigger] pairs[i].0,
        ) && insert_all(m, pairs)[pairs[i].0] == pairs[i].1 by {
            if i < n {
                assert(rest[i] == pairs[i]);
            }
        }
        assert forall|key: K|
            (forall|i: int| 0 <= i < pairs.len() ==> #[trigger] pairs[i].0 != key) implies (
        #[trigger] insert_all(m, pairs).contains_key(key) == m.contains_key(key)) && (
        m.contains_key(key) ==> insert_all(m, pairs)[key] == m[key]) by {
            assert forall|i: int| 0 <= i < rest.len() implies #[trigger] rest[i].0 != key by {}
        }
    }
}

/// Inserting the same set of pairs, with distinct keys, in any order
/// yields maps whose lookups agree on every key.
pub proof fn law_insert_order<K: HashKey, V, IS: ItemStore<K, V>>(
    start: HamtMap<K, V, IS>,
    one: HamtMap<K, V, IS>,
    other: HamtMap<K, V, IS>,
    pairs: Seq<(K, V)>,
    reordered: Seq<(K, V)>,
)
    requires
        distinct_pair_keys(pairs),
        distinct_pair_keys(reordered),
        pairs.to_set() == reordered.to_set(),
        one@ == insert_all(start@, pairs),
        other@ == insert_all(start@, reordered),
    ensures
        forall|key: K| one.spec_find(key) == other.spec_find(key),
{
    lemma_insert_all(start@, pairs);
    lemma_insert_all(start@, reordered);
    assert forall|key: K| one.spec_find(key) == other.spec_find(key) by {
        if exists|i: int| 0 <= i < pairs.len() && #[trigger] pairs[i].0 == key {
            let i = choose|i: int| 0 <= i < pairs.len() && #[trigger] pairs[i].0 == key;
            assert(pairs.to_set().contains(pairs[i]));
            assert(reordered.contains(pairs[i]));
        } else if exists|j: int| 0 <= j < reordered.len() && #[trigger] reordered[j].0 == key {
            let j = choose|j: int| 0 <= j < reordered.len() && #[trigger] reordered[j].0 == key;
            assert(reordered.to_set().contains(reordered[j]));
            assert(pairs.contains(reordered[j]));
        }
    }
}

/// Two keys with one hash are found and removed independently: after both
/// are inserted, each is bound to its value, and the removal of one leaves
/// the other bound.
pub proof fn law_colliding_keys<K: HashKey, V, IS: ItemStore<K, V>>(
    start: HamtMap<K, V, IS>,
    with_first: HamtMap<K, V, IS>,
    with_both: HamtMap<K, V, IS>,
    without_first: HamtMap<K, V, IS>,
    first: K,
    first_val: V,
    second: K,
    second_val: V,
)
    requires
        first != second,
        first.spec_hash() == second.spec_hash(),
        with_first@ == start@.insert(first, first_val),
        with_both@ == with_first@.insert(second, second_val),
        without_first@ == with_both@.remove(first),
    ensures
        with_both.spec_find(first) == Some(first_val),
        with_both.spec_find(second) == Some(second_val),
        without_first.spec_find(first) == None::<V>,
        without_first.spec_find(second) == Some(second_val),
{
}

} // verus!
