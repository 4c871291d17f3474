//! Keys, and the two ways a key/value pair is stored in a leaf entry.

use std::sync::Arc;
use vstd::prelude::*;

verus! {

/// A key of the map: it has a 64-bit hash, which is a function of the key,
/// and an executable equality that decides whether two keys are the same.
pub trait HashKey: Sized {
    /// The hash of the key.
    spec fn spec_hash(&self) -> u64;

    fn hash(&self) -> (h: u64)
        ensures
            h == self.spec_hash(),
    ;

    fn key_eq(&self, other: &Self) -> (b: bool)
        ensures
            b == (*self == *other),
    ;
}

impl HashKey for u64 {
    open spec fn spec_hash(&self) -> u64 {
        *self
    }

    fn hash(&self) -> (h: u64) {
        *self
    }

    fn key_eq(&self, other: &Self) -> (b: bool) {
        *self == *other
    }
}

/// How a key/value pair is embedded in a leaf entry. A store gives access to
/// the key and to the value, and is cheap to clone.
pub trait ItemStore<K, V>: Sized {
    /// The key that the store holds.
    spec fn spec_key(&self) -> K;

    /// The value that the store holds.
    spec fn spec_val(&self) -> V;

    fn new(key: K, val: V) -> (s: Self)
        ensures
            s.spec_key() == key,
            s.spec_val() == val,
    ;

    fn key(&self) -> (k: &K)
        ensures
            *k == self.spec_key(),
    ;

    fn val(&self) -> (v: &V)
        ensures
            *v == self.spec_val(),
    ;

    fn clone_item(&self) -> (s: Self)
        ensures
            s == *self,
    ;
}

/// Stores key and value by value inside the entry; cloning duplicates them.
pub struct CopyStore<K, V> {
    pub key: K,
    pub val: V,
}

impl<K: Copy, V: Copy> ItemStore<K, V> for CopyStore<K, V> {
    open spec fn spec_key(&self) -> K {
        self.key
    }

    open spec fn spec_val(&self) -> V {
        self.val
    }

    fn new(key: K, val: V) -> (s: Self) {
        CopyStore { key, val }
    }

    fn key(&self) -> (k: &K) {
        &self.key
    }

    fn val(&self) -> (v: &V) {
        &self.val
    }

    fn clone_item(&self) -> (s: Self) {
        CopyStore { key: self.key, val: self.val }
    }
}

/// Stores key and value behind a shared immutable handle; cloning shares the
/// handle.
pub struct ShareStore<K, V> {
    pub store: Arc<(K, V)>,
}

impl<K, V> ItemStore<K, V> for ShareStore<K, V> {
    open spec fn spec_key(&self) -> K {
        self.store.0
    }

    open spec fn spec_val(&self) -> V {
        self.store.1
    }

    fn new(key: K, val: V) -> (s: Self) {
        ShareStore { store: Arc::new((key, val)) }
    }

    fn key(&self) -> (k: &K) {
        &self.store.0
    }

    fn val(&self) -> (v: &V) {
        &self.store.1
    }

    fn clone_item(&self) -> (s: Self) {
        ShareStore { store: self.store.clone() }
    }
}

} // verus!
