//! A hash map under one lock.

use vstd::prelude::*;
use std::collections::hash_map::RandomState;
use std::collections::HashMap;
use std::hash::BuildHasher;
use std::hash::Hash;
use std::sync::Mutex;
use crate::map::ConcurrentMap;
use crate::sync::{mutex_guard_mut, mutex_guard_ref, mutex_lock, mutex_new};

verus! {

/// A hash map of the standard library behind a mutual-exclusion lock: every
/// call has the map to itself.
#[verifier::reject_recursive_types(K)]
#[verifier::reject_recursive_types(V)]
#[verifier::reject_recursive_types(S)]
pub struct CoarseMap<K, V, S> {
    inner: Mutex<HashMap<K, V, S>>,
}

impl<K: Eq + Hash, V> CoarseMap<K, V, RandomState> {
    /// An empty map.
    pub fn new() -> Self {
        CoarseMap { inner: mutex_new(HashMap::new()) }
    }
}

impl<K: Eq + Hash, V: Clone, S: BuildHasher> ConcurrentMap for CoarseMap<K, V, S> {
    type Key = K;

    type Val = V;

    fn get(&self, key: &K) -> Option<V> {
        let guard = mutex_lock(&self.inner);
        match mutex_guard_ref(&guard).get(key) {
            Some(value) => Some(value.clone()),
            None => None,
        }
    }

    fn contains(&self, key: &K) -> bool {
        let guard = mutex_lock(&self.inner);
        mutex_guard_ref(&guard).contains_key(key)
    }

    fn put(&self, key: K, value: V) {
        let mut guard = mutex_lock(&self.inner);
        let _ = mutex_guard_mut(&mut guard).insert(key, value);
    }

    fn remove(&self, key: &K) -> bool {
        let mut guard = mutex_lock(&self.inner);
        mutex_guard_mut(&mut guard).remove(key).is_some()
    }
}

} // verus!
