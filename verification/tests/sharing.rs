use hamt::node::{Node, NodeEntry, NodeRef};
use hamt::{CopyStore, HamtMap, ItemStore, PersistentMap, ShareStore};
use std::sync::atomic::{AtomicUsize, Ordering};
use std::sync::Arc;

type Item = CopyStore<u64, u64>;

/// A value that counts how many of its kind are alive.
struct Counted {
    alive: Arc<AtomicUsize>,
    number: u64,
}

impl Counted {
    fn new(alive: &Arc<AtomicUsize>, number: u64) -> Counted {
        alive.fetch_add(1, Ordering::SeqCst);
        Counted { alive: alive.clone(), number }
    }
}

impl Drop for Counted {
    fn drop(&mut self) {
        self.alive.fetch_sub(1, Ordering::SeqCst);
    }
}

fn child_at(node: &Node<u64, u64, Item>, slot: usize) -> &NodeRef<u64, u64, Item> {
    match node.get_entry(slot) {
        NodeEntry::SubTree(child) => child,
        _ => panic!("a subtree stands in this slot"),
    }
}

#[test]
fn an_insertion_shares_the_subtrees_off_the_path() {
    // 1 and 33 share local key 1, 2 and 34 local key 2: the root has two subtrees.
    let mut count = 0usize;
    let root = NodeRef::new(Node::<u64, u64, Item>::allocate(0, 0));
    let root = root.borrow().insert(1, 0, ItemStore::new(1, 1), &mut count);
    let root = root.borrow().insert(33, 0, ItemStore::new(33, 33), &mut count);
    let root = root.borrow().insert(2, 0, ItemStore::new(2, 2), &mut count);
    let root = root.borrow().insert(34, 0, ItemStore::new(34, 34), &mut count);
    assert_eq!(root.borrow().mask, 0b110);

    // 65 goes below local key 1.
    let changed = root.borrow().insert(65, 0, ItemStore::new(65, 65), &mut count);
    assert_eq!(count, 1);
    assert!(Arc::ptr_eq(&child_at(root.borrow(), 1).ptr, &child_at(changed.borrow(), 1).ptr));
    assert!(!Arc::ptr_eq(&child_at(root.borrow(), 0).ptr, &child_at(changed.borrow(), 0).ptr));
    assert!(!Arc::ptr_eq(&root.ptr, &changed.ptr));
    assert_eq!(child_at(root.borrow(), 0).borrow().entries.len(), 2);
    assert_eq!(child_at(changed.borrow(), 0).borrow().entries.len(), 3);

    // A removal below local key 2 shares the subtree of local key 1.
    let result = changed.borrow().remove(2, 0, &2, &mut count);
    assert_eq!(count, 1);
    match result {
        hamt::remove::RemovalResult::ReplaceSubTree(after) => {
            assert!(Arc::ptr_eq(
                &child_at(changed.borrow(), 0).ptr,
                &child_at(after.borrow(), 0).ptr
            ));
            assert!(matches!(after.borrow().get_entry(1), NodeEntry::SingleItem(_)));
        },
        _ => panic!("the root is replaced"),
    }
}

#[test]
fn a_node_with_one_owner_is_changed_in_place() {
    let mut count = 0usize;
    let mut root = NodeRef::new(Node::<u64, u64, Item>::allocate(0, 4));
    let before = Arc::as_ptr(&root.ptr);
    for k in 0..4u64 {
        let node = root.try_borrow_owned().unwrap();
        assert!(node.try_insert_in_place(k, 0, ItemStore::new(k, k), &mut count).is_none());
        assert_eq!(count, 1);
    }
    assert_eq!(Arc::as_ptr(&root.ptr), before);
    assert_eq!(root.borrow().entries.len(), 4);
    assert_eq!(root.borrow().capacity, 4);

    // The node is at its capacity: a larger copy comes back and the node stays.
    let node = root.try_borrow_owned().unwrap();
    let larger = node.try_insert_in_place(4, 0, ItemStore::new(4, 4), &mut count).unwrap();
    assert_eq!(larger.borrow().capacity, 8);
    assert_eq!(larger.borrow().entries.len(), 5);
    assert_eq!(root.borrow().entries.len(), 4);

    // An occupied local key is replaced in place, also at capacity.
    let node = root.try_borrow_owned().unwrap();
    assert!(node.try_insert_in_place(3, 0, ItemStore::new(3, 30), &mut count).is_none());
    assert_eq!(count, 0);

    // A removal in place.
    let node = root.try_borrow_owned().unwrap();
    let result = node.remove_in_place(1, 0, &1, &mut count);
    assert!(matches!(result, hamt::remove::RemovalResult::NoChange));
    assert_eq!(count, 1);
    assert_eq!(root.borrow().mask, 0b1101);
    assert_eq!(Arc::as_ptr(&root.ptr), before);
    let node = root.try_borrow_owned().unwrap();
    let result = node.remove_in_place(1, 0, &1, &mut count);
    assert!(matches!(result, hamt::remove::RemovalResult::NoChange));
    assert_eq!(count, 0);
}

#[test]
fn every_value_is_dropped_with_the_last_map() {
    let alive = Arc::new(AtomicUsize::new(0));
    {
        let mut map = HamtMap::<u64, Counted, ShareStore<u64, Counted>>::new();
        for i in 0..2000u64 {
            map = map.insert(i.wrapping_mul(0x9e3779b97f4a7c15), Counted::new(&alive, i)).0;
        }
        assert_eq!(alive.load(Ordering::SeqCst), 2000);
        let held = map.clone();
        for i in 0..1000u64 {
            map = map.remove(&i.wrapping_mul(0x9e3779b97f4a7c15)).0;
        }
        for i in 0..500u64 {
            map = map.insert(i, Counted::new(&alive, i)).0;
        }
        assert_eq!(map.len(), 1500);
        assert_eq!(held.len(), 2000);
        assert_eq!(alive.load(Ordering::SeqCst), 2500);
        assert_eq!(held.find(&0).map(|c| c.number), Some(0));
        drop(held);
        assert_eq!(alive.load(Ordering::SeqCst), 1500);
        for i in 0..500u64 {
            map = map.insert(i, Counted::new(&alive, i + 1)).0;
        }
        assert_eq!(alive.load(Ordering::SeqCst), 1500);
        assert_eq!(map.find(&7).map(|c| c.number), Some(8));
    }
    assert_eq!(alive.load(Ordering::SeqCst), 0);
}
