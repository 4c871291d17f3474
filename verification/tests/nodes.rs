use hamt::collision::{find_position, insert_into_items, items_without, push_all};
use hamt::insert::{collision_of_two, hash_below, local_key_of};
use hamt::node::{Node, NodeEntry, NodeRef};
use hamt::remove::{entry_without_item, RemovalResult};
use hamt::{CopyStore, ItemStore, MIN_CAPACITY};

type Item = CopyStore<u64, u64>;
type TestNode = Node<u64, u64, Item>;

fn item(key: u64, val: u64) -> Item {
    ItemStore::new(key, val)
}

fn single(key: u64, val: u64) -> NodeEntry<u64, u64, Item> {
    NodeEntry::SingleItem(item(key, val))
}

/// The key of each single item of the node, in slot order; 0 for other entries.
fn keys(node: &TestNode) -> Vec<u64> {
    node.entries
        .iter()
        .map(|e| match e {
            NodeEntry::SingleItem(i) => *i.key(),
            _ => 0,
        })
        .collect()
}

fn node_of(capacity: usize, local_keys: &[u64]) -> TestNode {
    let mut mask = 0u32;
    for k in local_keys {
        mask |= 1 << k;
    }
    let mut node = TestNode::allocate(mask, capacity);
    let mut sorted = local_keys.to_vec();
    sorted.sort();
    for (i, k) in sorted.iter().enumerate() {
        node.init_entry(i, single(*k, k * 10));
    }
    node
}

#[test]
fn a_fresh_node_has_no_entries() {
    let node = TestNode::allocate(0b1010, 4);
    assert_eq!(node.mask, 0b1010);
    assert_eq!(node.capacity, 4);
    assert_eq!(node.entries.len(), 0);
    assert_eq!(node.entry_count(), 2);
}

#[test]
fn init_entry_fills_the_next_slot_or_replaces() {
    let mut node = TestNode::allocate(0b1010, 4);
    node.init_entry(0, single(1, 10));
    node.init_entry(1, single(3, 30));
    assert_eq!(keys(&node), vec![1, 3]);
    node.init_entry(0, single(33, 5));
    assert_eq!(keys(&node), vec![33, 3]);
    assert_eq!(node.mask, 0b1010);
    match node.get_entry(1) {
        NodeEntry::SingleItem(i) => assert_eq!((*i.key(), *i.val()), (3, 30)),
        _ => panic!("a single item was put there"),
    }
    match node.get_entry_mut(0) {
        NodeEntry::SingleItem(i) => assert_eq!((*i.key(), *i.val()), (33, 5)),
        _ => panic!("a single item was put there"),
    }
}

#[test]
fn the_capacity_of_a_copy() {
    for (capacity, expanded) in [(0usize, 4usize), (1, 2), (4, 8), (5, 10), (16, 32), (17, 32), (31, 32), (32, 32)] {
        let node = TestNode::allocate(0, capacity);
        assert_eq!(node.expanded_capacity(), expanded);
    }
}

#[test]
fn an_entry_fits_in_place_if_it_replaces_or_there_is_room() {
    let full = node_of(2, &[1, 3]);
    assert!(full.can_insert_in_place(1));
    assert!(full.can_insert_in_place(3));
    assert!(!full.can_insert_in_place(0));
    assert!(!full.can_insert_in_place(31));
    let roomy = node_of(4, &[1, 3]);
    assert!(roomy.can_insert_in_place(0));
    assert!(roomy.can_insert_in_place(3));
}

#[test]
fn a_copy_with_a_new_entry() {
    let node = node_of(4, &[1, 3, 5]);
    let copy = node.copy_with_new_entry(4, single(4, 44));
    assert_eq!(copy.borrow().mask, 0b111010);
    assert_eq!(copy.borrow().capacity, 8);
    assert_eq!(keys(copy.borrow()), vec![1, 3, 4, 5]);

    let first = node.copy_with_new_entry(0, single(32, 1));
    assert_eq!(first.borrow().mask, 0b101011);
    assert_eq!(keys(first.borrow()), vec![32, 1, 3, 5]);

    let last = node.copy_with_new_entry(31, single(31, 1));
    assert_eq!(keys(last.borrow()), vec![1, 3, 5, 31]);

    let replaced = node.copy_with_new_entry(3, single(35, 1));
    assert_eq!(replaced.borrow().mask, 0b101010);
    assert_eq!(replaced.borrow().capacity, 8);
    assert_eq!(keys(replaced.borrow()), vec![1, 35, 5]);

    assert_eq!(keys(&node), vec![1, 3, 5]);
    assert_eq!(node.capacity, 4);
}

#[test]
fn a_copy_without_an_entry() {
    let node = node_of(4, &[1, 3, 5]);
    let copy = node.copy_without_entry(3);
    assert_eq!(copy.borrow().mask, 0b100010);
    assert_eq!(copy.borrow().capacity, 8);
    assert_eq!(keys(copy.borrow()), vec![1, 5]);
    assert_eq!(keys(node.copy_without_entry(1).borrow()), vec![3, 5]);
    assert_eq!(keys(node.copy_without_entry(5).borrow()), vec![1, 3]);
    assert_eq!(keys(&node), vec![1, 3, 5]);
}

#[test]
fn entries_are_put_and_taken_in_place() {
    let mut node = node_of(8, &[1, 3, 5]);
    node.insert_entry_in_place(4, single(4, 40));
    assert_eq!(node.mask, 0b111010);
    assert_eq!(keys(&node), vec![1, 3, 4, 5]);
    node.insert_entry_in_place(0, single(32, 0));
    assert_eq!(keys(&node), vec![32, 1, 3, 4, 5]);
    node.insert_entry_in_place(3, single(35, 0));
    assert_eq!(node.mask, 0b111011);
    assert_eq!(keys(&node), vec![32, 1, 35, 4, 5]);
    assert_eq!(node.capacity, 8);

    node.remove_entry_in_place(1);
    assert_eq!(node.mask, 0b111001);
    assert_eq!(keys(&node), vec![32, 35, 4, 5]);
    node.remove_entry_in_place(5);
    assert_eq!(keys(&node), vec![32, 35, 4]);
    node.remove_entry_in_place(0);
    assert_eq!(node.mask, 0b011000);
    assert_eq!(keys(&node), vec![35, 4]);
    assert_eq!(node.capacity, 8);
}

#[test]
fn what_the_level_above_is_told_when_an_entry_leaves() {
    let three = node_of(4, &[1, 3, 5]);
    match three.collapse_kill_or_change(3, 1) {
        RemovalResult::ReplaceSubTree(n) => assert_eq!(keys(n.borrow()), vec![1, 5]),
        _ => panic!("two entries are left"),
    }
    let two = node_of(4, &[1, 3]);
    match two.collapse_kill_or_change(3, 1) {
        RemovalResult::CollapseSubTree(kvp) => assert_eq!((*kvp.key(), *kvp.val()), (1, 10)),
        _ => panic!("a single item is left"),
    }
    match two.collapse_kill_or_change(1, 0) {
        RemovalResult::CollapseSubTree(kvp) => assert_eq!((*kvp.key(), *kvp.val()), (3, 30)),
        _ => panic!("a single item is left"),
    }
    let one = node_of(4, &[7]);
    assert!(matches!(one.collapse_kill_or_change(7, 0), RemovalResult::KillSubTree));

    // A subtree that is left is not pulled up.
    let mut with_child = TestNode::allocate(0b11, 4);
    with_child.init_entry(0, single(0, 0));
    with_child.init_entry(1, NodeEntry::SubTree(NodeRef::new(node_of(4, &[1, 2]))));
    match with_child.collapse_kill_or_change(0, 0) {
        RemovalResult::ReplaceSubTree(n) => {
            assert_eq!(n.borrow().mask, 0b10);
            assert!(matches!(n.borrow().get_entry(0), NodeEntry::SubTree(_)));
        },
        _ => panic!("a subtree is left"),
    }
}

#[test]
fn the_same_in_place() {
    let mut three = node_of(4, &[1, 3, 5]);
    assert!(matches!(three.collapse_kill_or_change_in_place(3, 1), RemovalResult::NoChange));
    assert_eq!(keys(&three), vec![1, 5]);
    assert_eq!(three.mask, 0b100010);
    match three.collapse_kill_or_change_in_place(5, 1) {
        RemovalResult::CollapseSubTree(kvp) => assert_eq!((*kvp.key(), *kvp.val()), (1, 10)),
        _ => panic!("a single item is left"),
    }
    assert_eq!(keys(&three), vec![1, 5]);
    let mut one = node_of(4, &[7]);
    assert!(matches!(one.collapse_kill_or_change_in_place(7, 0), RemovalResult::KillSubTree));
    assert_eq!(keys(&one), vec![7]);

    let mut with_child = TestNode::allocate(0b11, 4);
    with_child.init_entry(0, single(0, 0));
    with_child.init_entry(1, NodeEntry::SubTree(NodeRef::new(node_of(4, &[1, 2]))));
    assert!(matches!(with_child.collapse_kill_or_change_in_place(0, 0), RemovalResult::NoChange));
    assert_eq!(with_child.mask, 0b10);
    assert_eq!(with_child.entries.len(), 1);
}

#[test]
fn a_handle_is_owned_until_it_is_cloned() {
    let mut handle = NodeRef::new(node_of(4, &[1]));
    match handle.try_borrow_owned() {
        Some(node) => node.insert_entry_in_place(2, single(2, 20)),
        None => panic!("the handle is the single owner"),
    }
    assert_eq!(keys(handle.borrow()), vec![1, 2]);
    let other = handle.clone();
    assert!(handle.try_borrow_owned().is_none());
    assert_eq!(keys(other.borrow()), vec![1, 2]);
    drop(other);
    assert!(handle.try_borrow_owned().is_some());
}

#[test]
fn an_entry_is_cloned_out() {
    let entry = single(4, 40);
    match entry.clone_out() {
        NodeEntry::SingleItem(i) => assert_eq!((*i.key(), *i.val()), (4, 40)),
        _ => panic!("the clone of a single item is a single item"),
    }
    let list: NodeEntry<u64, u64, Item> = collision_of_two(item(1, 10), &item(2, 20));
    match list.clone_out() {
        NodeEntry::Collision(items) => {
            assert_eq!(items.len(), 2);
            assert_eq!((*items[0].key(), *items[1].key()), (1, 2));
        },
        _ => panic!("the clone of a list is a list"),
    }
}

#[test]
fn two_items_make_a_minimal_subtree() {
    // Local keys 1 and 2 on level 0.
    let node = TestNode::new_with_entries(item(2, 20), 2, &item(1, 10), 1, 0);
    assert_eq!(node.borrow().mask, 0b110);
    assert_eq!(node.borrow().capacity as usize, MIN_CAPACITY);
    assert_eq!(keys(node.borrow()), vec![1, 2]);
    let node = TestNode::new_with_entries(item(1, 10), 1, &item(2, 20), 2, 0);
    assert_eq!(keys(node.borrow()), vec![1, 2]);

    // 1 and 33 share local key 1 on level 0 and part on level 1.
    let node = TestNode::new_with_entries(item(33, 330), 33, &item(1, 10), 1, 0);
    assert_eq!(node.borrow().mask, 0b10);
    assert_eq!(node.borrow().entries.len(), 1);
    match node.borrow().get_entry(0) {
        NodeEntry::SubTree(child) => {
            assert_eq!(child.borrow().mask, 0b11);
            assert_eq!(keys(child.borrow()), vec![1, 33]);
        },
        _ => panic!("keys that share a local key go one level down"),
    }
}

#[test]
fn local_keys_and_remaining_hashes() {
    assert_eq!(local_key_of(0), 0);
    assert_eq!(local_key_of(31), 31);
    assert_eq!(local_key_of(32), 0);
    assert_eq!(local_key_of(0xffff_ffff_ffff_ffe5), 5);
    assert_eq!(hash_below(&(33u64 << 5), 0), 33);
    assert_eq!(hash_below(&u64::MAX, 11), 15);
    assert_eq!(hash_below(&(1u64 << 60), 11), 1);
}

#[test]
fn collision_lists() {
    let items = vec![item(1, 10), item(2, 20), item(3, 30)];
    assert_eq!(find_position(&items, &2), Some(1));
    assert_eq!(find_position(&items, &3), Some(2));
    assert_eq!(find_position(&items, &4), None);

    let mut count = 7usize;
    let grown = insert_into_items(&items, item(4, 40), &mut count);
    assert_eq!(count, 1);
    let pairs: Vec<(u64, u64)> = grown.iter().map(|i| (*i.key(), *i.val())).collect();
    assert_eq!(pairs, vec![(4, 40), (1, 10), (2, 20), (3, 30)]);

    for (position, key) in [(0usize, 1u64), (1, 2), (2, 3)] {
        let changed = insert_into_items(&items, item(key, 99), &mut count);
        assert_eq!(count, 0);
        let mut expected = vec![(1, 10), (2, 20), (3, 30)];
        expected[position] = (key, 99);
        let pairs: Vec<(u64, u64)> = changed.iter().map(|i| (*i.key(), *i.val())).collect();
        assert_eq!(pairs, expected);
    }

    for position in 0..3usize {
        let rest = items_without(&items, position);
        let mut expected = vec![1u64, 2, 3];
        expected.remove(position);
        let left: Vec<u64> = rest.iter().map(|i| *i.key()).collect();
        assert_eq!(left, expected);
    }

    let mut target = vec![item(9, 90)];
    push_all(&mut target, &items, 1, 3);
    let got: Vec<u64> = target.iter().map(|i| *i.key()).collect();
    assert_eq!(got, vec![9, 2, 3]);

    match entry_without_item::<u64, u64, Item>(&items, 1) {
        NodeEntry::Collision(rest) => {
            let left: Vec<u64> = rest.iter().map(|i| *i.key()).collect();
            assert_eq!(left, vec![1, 3]);
        },
        _ => panic!("two items are left"),
    }
    let two = vec![item(1, 10), item(2, 20)];
    match entry_without_item::<u64, u64, Item>(&two, 0) {
        NodeEntry::SingleItem(i) => assert_eq!((*i.key(), *i.val()), (2, 20)),
        _ => panic!("one item is left"),
    }
    match entry_without_item::<u64, u64, Item>(&two, 1) {
        NodeEntry::SingleItem(i) => assert_eq!((*i.key(), *i.val()), (1, 10)),
        _ => panic!("one item is left"),
    }
}

/// A root with a subtree under local key 1 that holds the keys 1 and 33, and
/// with the single items of `others`.
fn node_with_child(others: &[u64]) -> TestNode {
    let mut count = 0usize;
    let mut node = NodeRef::new(TestNode::allocate(0, 0));
    for k in [1u64, 33].iter().chain(others.iter()) {
        node = node.borrow().insert(*k, 0, item(*k, k * 10), &mut count);
    }
    let mut copy = TestNode::allocate(node.borrow().mask, 8);
    for i in 0..node.borrow().entries.len() {
        copy.init_entry(i, node.borrow().get_entry(i).clone_out());
    }
    copy
}

#[test]
fn a_free_slot_gets_a_single_item() {
    let node = node_of(4, &[1, 3]);
    let mut count = 7usize;
    let copy = node.insert(2, 0, item(2, 20), &mut count);
    assert_eq!(count, 1);
    assert_eq!(copy.borrow().mask, 0b1110);
    assert_eq!(copy.borrow().capacity, 8);
    assert_eq!(keys(copy.borrow()), vec![1, 2, 3]);
    assert!(matches!(copy.borrow().get_entry(1), NodeEntry::SingleItem(_)));

    let mut own = node_of(4, &[1, 3]);
    assert!(own.try_insert_in_place(2, 0, item(2, 20), &mut count).is_none());
    assert_eq!(count, 1);
    assert_eq!(own.mask, 0b1110);
    assert_eq!(own.capacity, 4);
    assert_eq!(keys(&own), vec![1, 2, 3]);

    let mut full = node_of(2, &[1, 3]);
    let larger = full.try_insert_in_place(2, 0, item(2, 20), &mut count).unwrap();
    assert_eq!(larger.borrow().capacity, 4);
    assert_eq!(keys(larger.borrow()), vec![1, 2, 3]);
    assert_eq!(keys(&full), vec![1, 3]);
    assert_eq!(full.capacity, 2);
}

#[test]
fn a_collapse_is_passed_up_by_a_node_with_one_entry() {
    let mut count = 7usize;
    // Persistent.
    let lone = node_with_child(&[]);
    match lone.remove(1, 0, &1, &mut count) {
        RemovalResult::CollapseSubTree(kvp) => assert_eq!((*kvp.key(), *kvp.val()), (33, 330)),
        _ => panic!("the item that is left is passed up"),
    }
    assert_eq!(count, 1);
    let wider = node_with_child(&[2]);
    match wider.remove(1, 0, &1, &mut count) {
        RemovalResult::ReplaceSubTree(n) => {
            assert_eq!(n.borrow().mask, 0b110);
            assert_eq!(keys(n.borrow()), vec![33, 2]);
        },
        _ => panic!("the item that is left takes the place of the child"),
    }

    // In place.
    let mut lone = node_with_child(&[]);
    match lone.remove_in_place(1, 0, &1, &mut count) {
        RemovalResult::CollapseSubTree(kvp) => assert_eq!((*kvp.key(), *kvp.val()), (33, 330)),
        _ => panic!("the item that is left is passed up"),
    }
    assert_eq!(count, 1);
    assert_eq!(lone.mask, 0b10);
    assert!(matches!(lone.get_entry(0), NodeEntry::SubTree(_)));
    let mut wider = node_with_child(&[2]);
    assert!(matches!(wider.remove_in_place(1, 0, &1, &mut count), RemovalResult::NoChange));
    assert_eq!(count, 1);
    assert_eq!(wider.mask, 0b110);
    assert_eq!(keys(&wider), vec![33, 2]);
    assert_eq!(wider.capacity, 8);
}

#[test]
fn an_absent_key_leaves_the_node_as_it_is() {
    let mut count = 7usize;
    let mut node = node_with_child(&[2]);
    for (key, hash) in [(5u64, 5u64), (34, 34), (65, 65), (97, 97)] {
        assert!(matches!(node.remove_in_place(hash, 0, &key, &mut count), RemovalResult::NoChange));
        assert_eq!(count, 0);
        assert_eq!(node.mask, 0b110);
        assert_eq!(node.capacity, 8);
        assert_eq!(node.entries.len(), 2);
        match node.get_entry(0) {
            NodeEntry::SubTree(child) => {
                assert_eq!(child.borrow().mask, 0b11);
                assert_eq!(keys(child.borrow()), vec![1, 33]);
            },
            _ => panic!("the child stays"),
        }
        assert_eq!(keys(&node), vec![0, 2]);
        assert!(matches!(node.remove(hash, 0, &key, &mut count), RemovalResult::NoChange));
    }
}
