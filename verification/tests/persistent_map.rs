use hamt::{CopyStore, HamtMap, HashKey, ItemStore, PersistentMap, ShareStore};
use std::collections::HashMap;

type CopyStoreU64 = CopyStore<u64, u64>;
type ShareStoreU64 = ShareStore<u64, u64>;

fn found<K: HashKey, IS: ItemStore<K, u64>>(map: &HamtMap<K, u64, IS>, key: K) -> Option<u64> {
    map.find(&key).copied()
}

fn check_insert<IS: ItemStore<u64, u64>>(map: HamtMap<u64, u64, IS>) {
    let map00 = map;
    let (map01, new_entry01) = map00.clone().insert(1, 2);
    let (map10, new_entry10) = map00.clone().insert(2, 4);
    let (map11, new_entry11) = map01.clone().insert(2, 4);

    assert_eq!(found(&map00, 1), None);
    assert_eq!(found(&map00, 2), None);

    assert_eq!(found(&map01, 1), Some(2));
    assert_eq!(found(&map01, 2), None);

    assert_eq!(found(&map11, 1), Some(2));
    assert_eq!(found(&map11, 2), Some(4));

    assert_eq!(found(&map10, 1), None);
    assert_eq!(found(&map10, 2), Some(4));

    assert_eq!(new_entry01, true);
    assert_eq!(new_entry10, true);
    assert_eq!(new_entry11, true);

    assert_eq!(map00.len(), 0);
    assert_eq!(map01.len(), 1);
    assert_eq!(map10.len(), 1);
    assert_eq!(map11.len(), 2);
}

fn check_insert_ascending<IS: ItemStore<u64, u64>>(map: HamtMap<u64, u64, IS>) {
    let mut map = map;
    for x in 0..1000u64 {
        assert_eq!(map.len(), x as usize);
        let (next, added_new) = map.insert(x, x);
        map = next;
        assert!(added_new);
        assert_eq!(found(&map, x), Some(x));
    }
    assert_eq!(map.len(), 1000);
    for x in 0..1000u64 {
        assert_eq!(found(&map, x), Some(x));
    }
    assert_eq!(found(&map, 1000), None);
}

fn check_insert_descending<IS: ItemStore<u64, u64>>(map: HamtMap<u64, u64, IS>) {
    let mut map = map;
    for x in 0..1000u64 {
        let key = 999 - x;
        assert_eq!(map.len(), x as usize);
        let (next, added_new) = map.insert(key, key);
        map = next;
        assert!(added_new);
        assert_eq!(found(&map, key), Some(key));
    }
    assert_eq!(map.len(), 1000);
    for x in 0..1000u64 {
        assert_eq!(found(&map, x), Some(x));
    }
    assert_eq!(found(&map, 1000), None);
}

fn check_insert_overwrite<IS: ItemStore<u64, u64>>(empty: HamtMap<u64, u64, IS>) {
    let (map_after_first_insert, is_new_entry_after_first_insert) = empty.clone().insert(1, 2);
    assert_eq!(map_after_first_insert.len(), 1);
    assert!(is_new_entry_after_first_insert);
    assert_eq!(found(&map_after_first_insert, 1), Some(2));

    let (map_after_second_insert, is_new_entry_after_second_insert) =
        map_after_first_insert.clone().insert(1, 4);
    assert_eq!(map_after_second_insert.len(), 1);
    assert!(!is_new_entry_after_second_insert);
    assert_eq!(found(&map_after_second_insert, 1), Some(4));

    assert_eq!(found(&map_after_first_insert, 1), Some(2));
    assert_eq!(empty.len(), 0);
}

fn check_remove<IS: ItemStore<u64, u64>>(map: HamtMap<u64, u64, IS>) {
    let (map01, _) = map.clone().insert(1, 2);
    let (map11, _) = map01.clone().insert(2, 4);

    let (map00, removed) = map01.clone().remove(&1);
    assert!(removed);
    assert_eq!(map00.len(), 0);
    assert_eq!(found(&map00, 1), None);

    let (map10, removed) = map11.clone().remove(&1);
    assert!(removed);
    assert_eq!(map10.len(), 1);
    assert_eq!(found(&map10, 1), None);
    assert_eq!(found(&map10, 2), Some(4));

    let (same, removed) = map10.clone().remove(&7);
    assert!(!removed);
    assert_eq!(same.len(), 1);
    assert_eq!(found(&same, 2), Some(4));

    assert_eq!(map11.len(), 2);
    assert_eq!(found(&map11, 1), Some(2));
    assert_eq!(found(&map11, 2), Some(4));
    assert_eq!(map01.len(), 1);
    assert_eq!(found(&map01, 1), Some(2));
}

fn next_random(state: &mut u64) -> u64 {
    let mut x = *state;
    x ^= x << 13;
    x ^= x >> 7;
    x ^= x << 17;
    *state = x;
    x
}

fn check_random_insert_remove<IS: ItemStore<u64, u64>>(map: HamtMap<u64, u64, IS>, key_space: u64) {
    let mut map = map;
    let mut oracle: HashMap<u64, u64> = HashMap::new();
    let mut state: u64 = 0x2545f4914f6cdd1d;

    for _ in 0..50000 {
        let r = next_random(&mut state);
        let key = (r >> 8) % key_space;
        let value = next_random(&mut state);
        if r % 3 != 0 {
            let (next, added_new) = map.insert(key, value);
            map = next;
            assert_eq!(added_new, oracle.insert(key, value).is_none());
        } else {
            let (next, removed_existing) = map.remove(&key);
            map = next;
            assert_eq!(removed_existing, oracle.remove(&key).is_some());
        }
        assert_eq!(map.len(), oracle.len());
        assert_eq!(found(&map, key), oracle.get(&key).copied());
    }

    for (key, value) in oracle.iter() {
        assert_eq!(found(&map, *key), Some(*value));
    }
    let keys: Vec<u64> = oracle.keys().copied().collect();
    for key in keys {
        let (next, removed_existing) = map.remove(&key);
        map = next;
        assert!(removed_existing);
        oracle.remove(&key);
        assert_eq!(map.len(), oracle.len());
        assert_eq!(found(&map, key), None);
    }
    assert_eq!(map.len(), 0);
}

#[test]
fn test_insert_copy() {
    check_insert(HamtMap::<u64, u64, CopyStoreU64>::new());
}

#[test]
fn test_insert_ascending_copy() {
    check_insert_ascending(HamtMap::<u64, u64, CopyStoreU64>::new());
}

#[test]
fn test_insert_descending_copy() {
    check_insert_descending(HamtMap::<u64, u64, CopyStoreU64>::new());
}

#[test]
fn test_insert_overwrite_copy() {
    check_insert_overwrite(HamtMap::<u64, u64, CopyStoreU64>::new());
}

#[test]
fn test_remove_copy() {
    check_remove(HamtMap::<u64, u64, CopyStoreU64>::new());
}

#[test]
fn stress_test_copy() {
    check_random_insert_remove(HamtMap::<u64, u64, CopyStoreU64>::new(), 1 << 40);
    check_random_insert_remove(HamtMap::<u64, u64, CopyStoreU64>::new(), 2000);
}

#[test]
fn test_insert_share() {
    check_insert(HamtMap::<u64, u64, ShareStoreU64>::new());
}

#[test]
fn test_insert_ascending_share() {
    check_insert_ascending(HamtMap::<u64, u64, ShareStoreU64>::new());
}

#[test]
fn test_insert_descending_share() {
    check_insert_descending(HamtMap::<u64, u64, ShareStoreU64>::new());
}

#[test]
fn test_insert_overwrite_share() {
    check_insert_overwrite(HamtMap::<u64, u64, ShareStoreU64>::new());
}

#[test]
fn test_remove_share() {
    check_remove(HamtMap::<u64, u64, ShareStoreU64>::new());
}

#[test]
fn stress_test_share() {
    check_random_insert_remove(HamtMap::<u64, u64, ShareStoreU64>::new(), 1 << 40);
    check_random_insert_remove(HamtMap::<u64, u64, ShareStoreU64>::new(), 2000);
}
