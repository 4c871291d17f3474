use hamt::{CopyStore, HamtMap, HashKey, ItemStore, PersistentMap, ShareStore};

/// A key whose hash is always 0.
#[derive(Clone, Copy, PartialEq, Eq, Debug)]
struct Colliding(u64);

impl HashKey for Colliding {
    fn spec_hash(&self) -> u64 {
        0
    }

    fn hash(&self) -> u64 {
        0
    }

    fn key_eq(&self, other: &Self) -> bool {
        self.0 == other.0
    }
}

/// A key whose hash keeps only the high bits of the number, so that keys
/// share a path down to a chosen level.
#[derive(Clone, Copy, PartialEq, Eq, Debug)]
struct HighBits(u64);

impl HashKey for HighBits {
    fn spec_hash(&self) -> u64 {
        self.0 << 55
    }

    fn hash(&self) -> u64 {
        self.0 << 55
    }

    fn key_eq(&self, other: &Self) -> bool {
        self.0 == other.0
    }
}

fn check_sixteen_colliding<IS: ItemStore<Colliding, u64>>(map: HamtMap<Colliding, u64, IS>) {
    let mut map = map;
    for i in 0..16u64 {
        let (next, added_new) = map.insert(Colliding(i), i * 10);
        map = next;
        assert!(added_new);
        assert_eq!(map.len(), (i + 1) as usize);
    }
    for i in 0..16u64 {
        assert_eq!(map.find(&Colliding(i)).copied(), Some(i * 10));
    }
    assert_eq!(map.find(&Colliding(16)), None);

    for i in 0..15u64 {
        let (next, removed_existing) = map.remove(&Colliding(i));
        map = next;
        assert!(removed_existing);
        assert_eq!(map.find(&Colliding(i)), None);
        for j in (i + 1)..16 {
            assert_eq!(map.find(&Colliding(j)).copied(), Some(j * 10));
        }
    }
    assert_eq!(map.len(), 1);
    assert_eq!(map.find(&Colliding(15)).copied(), Some(150));

    let (map, removed_existing) = map.remove(&Colliding(15));
    assert!(removed_existing);
    assert_eq!(map.len(), 0);
    assert_eq!(map.find(&Colliding(15)), None);
}

#[test]
fn sixteen_colliding_keys_copy() {
    check_sixteen_colliding(HamtMap::<Colliding, u64, CopyStore<Colliding, u64>>::new());
}

#[test]
fn sixteen_colliding_keys_share() {
    check_sixteen_colliding(HamtMap::<Colliding, u64, ShareStore<Colliding, u64>>::new());
}

#[test]
fn colliding_keys_on_shared_versions() {
    let empty = HamtMap::<Colliding, u64, CopyStore<Colliding, u64>>::new();
    let (one, _) = empty.clone().insert(Colliding(1), 1);
    let (two, _) = one.clone().insert(Colliding(2), 2);
    let (three, _) = two.clone().insert(Colliding(3), 3);

    // Removal of each position of a list of three, on a shared tree.
    for gone in 1..=3u64 {
        let (rest, removed_existing) = three.clone().remove(&Colliding(gone));
        assert!(removed_existing);
        assert_eq!(rest.len(), 2);
        for k in 1..=3u64 {
            let expected = if k == gone { None } else { Some(k) };
            assert_eq!(rest.find(&Colliding(k)).copied(), expected);
        }
    }
    // And in place, on a tree with a single owner.
    for gone in 1..=3u64 {
        let mut own = HamtMap::<Colliding, u64, CopyStore<Colliding, u64>>::new();
        for k in 1..=3u64 {
            own = own.insert(Colliding(k), k).0;
        }
        let (rest, removed_existing) = own.remove(&Colliding(gone));
        assert!(removed_existing);
        assert_eq!(rest.len(), 2);
        for k in 1..=3u64 {
            let expected = if k == gone { None } else { Some(k) };
            assert_eq!(rest.find(&Colliding(k)).copied(), expected);
        }
    }

    // Overwriting inside a collision list adds no key.
    let (changed, added_new) = three.clone().insert(Colliding(2), 20);
    assert!(!added_new);
    assert_eq!(changed.len(), 3);
    assert_eq!(changed.find(&Colliding(2)).copied(), Some(20));
    assert_eq!(three.find(&Colliding(2)).copied(), Some(2));

    // A key that is not in the list is not removed.
    let (same, removed_existing) = three.clone().remove(&Colliding(9));
    assert!(!removed_existing);
    assert_eq!(same.len(), 3);

    assert_eq!(one.len(), 1);
    assert_eq!(two.len(), 2);
    assert_eq!(two.find(&Colliding(3)), None);
}

#[test]
fn keys_that_part_on_a_deep_level() {
    // The hashes agree on the low 55 bits, so the keys part on level 11 or 12.
    let mut map = HamtMap::<HighBits, u64, CopyStore<HighBits, u64>>::new();
    for i in 0..512u64 {
        let (next, added_new) = map.insert(HighBits(i), i);
        map = next;
        assert!(added_new);
    }
    assert_eq!(map.len(), 512);
    let shared = map.clone();
    for i in 0..512u64 {
        assert_eq!(map.find(&HighBits(i)).copied(), Some(i));
    }
    // Keys 512.. have the same hashes as 0..: they collide on the last level.
    for i in 512..1024u64 {
        let (next, added_new) = map.insert(HighBits(i), i);
        map = next;
        assert!(added_new);
    }
    assert_eq!(map.len(), 1024);
    for i in 0..1024u64 {
        assert_eq!(map.find(&HighBits(i)).copied(), Some(i));
    }
    for i in 0..1024u64 {
        let (next, removed_existing) = map.remove(&HighBits(i));
        map = next;
        assert!(removed_existing);
        assert_eq!(map.find(&HighBits(i)), None);
        assert_eq!(map.len(), (1023 - i) as usize);
    }
    assert_eq!(shared.len(), 512);
    for i in 0..512u64 {
        assert_eq!(shared.find(&HighBits(i)).copied(), Some(i));
    }
    assert_eq!(shared.find(&HighBits(600)), None);
}

#[test]
fn a_subtree_of_one_item_is_pulled_up() {
    // 1 and 33 share local key 1 on level 0 and part on level 1.
    let map = HamtMap::<u64, u64, CopyStore<u64, u64>>::new();
    let (map, _) = map.insert(1, 10);
    let (map, _) = map.insert(33, 330);
    let shared = map.clone();
    let (map, removed_existing) = map.remove(&1);
    assert!(removed_existing);
    assert_eq!(map.len(), 1);
    assert_eq!(map.find(&33).copied(), Some(330));
    assert_eq!(map.find(&1), None);
    let (map, removed_existing) = map.remove(&33);
    assert!(removed_existing);
    assert_eq!(map.len(), 0);
    assert_eq!(map.find(&33), None);

    // The same on a tree with a single owner.
    drop(shared);
    let own = HamtMap::<u64, u64, CopyStore<u64, u64>>::new();
    let (own, _) = own.insert(1, 10);
    let (own, _) = own.insert(33, 330);
    let (own, _) = own.insert(2, 20);
    let (own, removed_existing) = own.remove(&33);
    assert!(removed_existing);
    assert_eq!(own.len(), 2);
    assert_eq!(own.find(&1).copied(), Some(10));
    assert_eq!(own.find(&2).copied(), Some(20));
    let (own, _) = own.remove(&2);
    let (own, _) = own.remove(&1);
    assert_eq!(own.len(), 0);
    let (own, removed_existing) = own.remove(&1);
    assert!(!removed_existing);
    assert_eq!(own.len(), 0);
}

type Pair = CopyStore<Colliding, u64>;
type CollidingNode = hamt::node::Node<Colliding, u64, Pair>;

fn pair(key: u64, val: u64) -> Pair {
    ItemStore::new(Colliding(key), val)
}

fn list_of(node: &CollidingNode, slot: usize) -> Vec<(u64, u64)> {
    match node.get_entry(slot) {
        hamt::node::NodeEntry::Collision(items) => {
            items.iter().map(|i| (i.key().0, *i.val())).collect()
        },
        _ => panic!("a collision list stands in this slot"),
    }
}

fn last_level_node(pairs: &[(u64, u64)]) -> CollidingNode {
    let mut node = CollidingNode::allocate(0b1, 4);
    let items: Vec<Pair> = pairs.iter().map(|(k, v)| pair(*k, *v)).collect();
    node.init_entry(0, hamt::node::NodeEntry::Collision(std::sync::Arc::new(items)));
    node
}

#[test]
fn a_collision_list_shrinks_in_place_and_keeps_its_order() {
    let mut node = last_level_node(&[(1, 10), (2, 20), (3, 30)]);
    let mut count = 7usize;
    let result = node.remove_in_place(0, hamt::LAST_LEVEL, &Colliding(2), &mut count);
    assert!(matches!(result, hamt::remove::RemovalResult::NoChange));
    assert_eq!(count, 1);
    assert_eq!(node.mask, 0b1);
    assert_eq!(node.capacity, 4);
    assert_eq!(list_of(&node, 0), vec![(1, 10), (3, 30)]);

    // An absent key leaves the node as it is.
    let result = node.remove_in_place(0, hamt::LAST_LEVEL, &Colliding(9), &mut count);
    assert!(matches!(result, hamt::remove::RemovalResult::NoChange));
    assert_eq!(count, 0);
    assert_eq!(node.mask, 0b1);
    assert_eq!(list_of(&node, 0), vec![(1, 10), (3, 30)]);

    // A list of two gives way to the item that is left, in place.
    let result = node.remove_in_place(0, hamt::LAST_LEVEL, &Colliding(1), &mut count);
    assert!(matches!(result, hamt::remove::RemovalResult::NoChange));
    assert_eq!(count, 1);
    assert_eq!(node.entries.len(), 1);
    match node.get_entry(0) {
        hamt::node::NodeEntry::SingleItem(i) => assert_eq!((i.key().0, *i.val()), (3, 30)),
        _ => panic!("the item that is left stands in the slot"),
    }
}

#[test]
fn a_list_of_two_is_replaced_by_the_item_that_is_left() {
    for (gone, left) in [(1u64, (2u64, 20u64)), (2, (1, 10))] {
        let node = last_level_node(&[(1, 10), (2, 20)]);
        let mut count = 7usize;
        match node.remove(0, hamt::LAST_LEVEL, &Colliding(gone), &mut count) {
            hamt::remove::RemovalResult::ReplaceSubTree(n) => {
                assert_eq!(n.borrow().mask, 0b1);
                assert_eq!(n.borrow().entries.len(), 1);
                match n.borrow().get_entry(0) {
                    hamt::node::NodeEntry::SingleItem(i) => {
                        assert_eq!((i.key().0, *i.val()), left)
                    },
                    _ => panic!("the item that is left stands in the slot"),
                }
            },
            _ => panic!("the node is replaced"),
        }
        assert_eq!(count, 1);
        assert_eq!(list_of(&node, 0), vec![(1, 10), (2, 20)]);
    }
}

#[test]
fn an_insertion_into_a_collision_list() {
    let node = last_level_node(&[(1, 10), (2, 20), (3, 30)]);
    let mut count = 7usize;
    let grown = node.insert(0, hamt::LAST_LEVEL, pair(4, 40), &mut count);
    assert_eq!(count, 1);
    assert_eq!(list_of(grown.borrow(), 0), vec![(4, 40), (1, 10), (2, 20), (3, 30)]);
    let changed = node.insert(0, hamt::LAST_LEVEL, pair(2, 99), &mut count);
    assert_eq!(count, 0);
    assert_eq!(list_of(changed.borrow(), 0), vec![(1, 10), (2, 99), (3, 30)]);
    assert_eq!(list_of(&node, 0), vec![(1, 10), (2, 20), (3, 30)]);

    // In place.
    let mut own = last_level_node(&[(1, 10), (2, 20), (3, 30)]);
    assert!(own.try_insert_in_place(0, hamt::LAST_LEVEL, pair(3, 33), &mut count).is_none());
    assert_eq!(count, 0);
    assert_eq!(list_of(&own, 0), vec![(1, 10), (2, 20), (3, 33)]);
    assert!(own.try_insert_in_place(0, hamt::LAST_LEVEL, pair(5, 50), &mut count).is_none());
    assert_eq!(count, 1);
    assert_eq!(list_of(&own, 0), vec![(5, 50), (1, 10), (2, 20), (3, 33)]);
}

#[test]
fn two_items_with_one_hash_make_a_list_on_the_last_level() {
    let mut node = CollidingNode::allocate(0b1, 4);
    node.init_entry(0, hamt::node::NodeEntry::SingleItem(pair(1, 10)));
    let mut count = 7usize;
    let both = node.insert(0, hamt::LAST_LEVEL, pair(2, 20), &mut count);
    assert_eq!(count, 1);
    assert_eq!(both.borrow().mask, 0b1);
    assert_eq!(list_of(both.borrow(), 0), vec![(2, 20), (1, 10)]);

    // Above the last level, a chain of one-entry nodes leads to the list.
    let chain = CollidingNode::new_with_entries(pair(2, 20), 0, &pair(1, 10), 0, 10);
    assert_eq!(chain.borrow().mask, 0b1);
    assert_eq!(chain.borrow().capacity, 4);
    let level_11 = match chain.borrow().get_entry(0) {
        hamt::node::NodeEntry::SubTree(c) => c.clone(),
        _ => panic!("a subtree stands above the last level"),
    };
    assert_eq!(level_11.borrow().capacity, 4);
    let level_12 = match level_11.borrow().get_entry(0) {
        hamt::node::NodeEntry::SubTree(c) => c.clone(),
        _ => panic!("a subtree stands above the last level"),
    };
    assert_eq!(level_12.borrow().capacity, 4);
    assert_eq!(list_of(level_12.borrow(), 0), vec![(2, 20), (1, 10)]);
}
