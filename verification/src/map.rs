//! Hash maps for use by many threads at once.

use vstd::prelude::*;

pub mod bucket;
pub mod coarse_map;
pub mod table;
pub mod striped_map;

pub use coarse_map::CoarseMap;
pub use striped_map::StripedHashMap;
pub use table::ResizePolicy;

verus! {

/// A map that any number of threads may use at once.
///
/// Calls on one key take effect one after the other. What a call returns is
/// true of the map at the moment it takes effect; by the time the caller looks
/// at it, other threads may have changed the map again.
pub trait ConcurrentMap {
    /// The type of the keys.
    type Key: PartialEq;

    /// The type of the values.
    type Val;

    /// A copy of the value that the map has for `key`, if it has one.
    fn get(&self, key: &Self::Key) -> Option<Self::Val>;

    /// Whether the map has a value for `key`.
    fn contains(&self, key: &Self::Key) -> bool;

    /// Gives `key` the value `value`. A value that the map had for `key` is
    /// overwritten.
    fn put(&self, key: Self::Key, value: Self::Val);

    /// Removes `key` and its value. Returns whether the map had a value for
    /// `key`.
    fn remove(&self, key: &Self::Key) -> bool;
}

} // verus!
