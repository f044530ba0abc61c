//! Sets and lists kept as singly linked chains.

use vstd::prelude::*;

pub mod node;
pub mod inner;
pub mod list;
pub mod sorted;
pub mod walk_model;
pub mod walk_trace;
pub mod coarse_set;
pub mod fine_grained_set;

pub use coarse_set::CoarseSet;
pub use fine_grained_set::FineGrainedSet;
pub use list::{List, ListIter, OrderedList};

verus! {

/// A set that any number of threads may use at once.
///
/// Each call takes effect at one moment between its start and its return.
/// What it returns is true of the set at that moment; by the time the caller
/// looks at it, other threads may have changed the set again.
pub trait ConcurrentSet {
    /// The type of the values of the set.
    type Elem: PartialOrd;

    /// Adds `elem` to the set. Returns `true` if it was added and `false` if
    /// the set held it already.
    fn add(&self, elem: Self::Elem) -> bool;

    /// Removes `elem` from the set. Returns `true` if it was found and
    /// removed and `false` if the set did not hold it.
    fn remove(&self, elem: &Self::Elem) -> bool;

    /// Whether the set holds `elem`.
    fn contains(&self, elem: &Self::Elem) -> bool;
}

} // verus!
