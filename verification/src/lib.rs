//! A persistent hash map built on a hash array mapped trie.
//!
//! Every update returns a new logical map and leaves earlier versions valid;
//! unchanged subtrees are shared between versions, and a node that has a single
//! owner is updated in place. The behaviour of every operation is stated over
//! a mathematical `Map` and proved.
//!
//! - `bits`: population count, sparse index, and the slicing of a hash into
//!   local keys.
//! - `item_store`: keys, and the two ways a key/value pair is stored.
//! - `node`: the nodes of the trie, what they hold and when they are well
//!   formed, and the operations on their entries.
//! - `slots`, `count`: how a change of one entry changes what a node holds,
//!   and how many keys it holds.
//! - `collision`: the lists of items with one hash.
//! - `insert`, `remove`: insertion and removal below a node, by copying the
//!   path and in place.
//! - `shape`: the shape of the tree after an insertion or a removal.
//! - `hamt_map`: the map itself.
//! - `laws`: what holds of the map whatever it holds.

pub mod bits;
pub mod collision;
pub mod count;
pub mod hamt_map;
pub mod insert;
pub mod item_store;
pub mod laws;
pub mod node;
pub mod remove;
pub mod shape;
pub mod slots;

pub use bits::{get_index, BITS_PER_LEVEL, LAST_LEVEL, LEVEL_BIT_MASK, MIN_CAPACITY};
pub use hamt_map::{HamtMap, PersistentMap};
pub use item_store::{CopyStore, HashKey, ItemStore, ShareStore};
