//! A set under one lock.

use vstd::prelude::*;
use std::sync::RwLock;
use crate::list_set::sorted::SortedChain;
use crate::list_set::ConcurrentSet;
use crate::order::{strict_total_order, strictly_ascending};
use crate::sync::{read_guard_ref, rwlock_new, rwlock_read, rwlock_write, write_guard_mut};

verus! {

/// A set kept as one sorted chain behind a reader-writer lock.
///
/// Writers take the lock exclusively, so the calls of `add` and `remove` take
/// effect one after the other, each on a strictly ascending chain that it
/// leaves strictly ascending. Readers share the lock.
#[verifier::reject_recursive_types(T)]
pub struct CoarseSet<T: PartialOrd> {
    head: RwLock<SortedChain<T>>,
}

impl<T: PartialOrd> Default for CoarseSet<T> {
    fn default() -> Self {
        CoarseSet { head: rwlock_new(SortedChain::new()) }
    }
}

impl<T: PartialOrd> CoarseSet<T> {
    /// The values that the set holds at the moment of the call. Whatever the
    /// threads did to the set before, they come strictly ascending, each one
    /// once.
    pub fn to_vec(&self) -> (values: Vec<T>) where T: Copy
        ensures
            strict_total_order::<T>() ==> strictly_ascending(values@),
    {
        let guard = rwlock_read(&self.head);
        read_guard_ref(&guard).to_vec()
    }
}

impl<T: PartialOrd> ConcurrentSet for CoarseSet<T> {
    type Elem = T;

    fn add(&self, elem: T) -> bool {
        let mut guard = rwlock_write(&self.head);
        let chain = write_guard_mut(&mut guard);
        chain.add(elem)
    }

    fn remove(&self, elem: &T) -> bool {
        let mut guard = rwlock_write(&self.head);
        let chain = write_guard_mut(&mut guard);
        chain.remove(elem)
    }

    fn contains(&self, elem: &T) -> bool {
        let guard = rwlock_read(&self.head);
        let chain = read_guard_ref(&guard);
        chain.contains(elem)
    }
}

} // verus!
