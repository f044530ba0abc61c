//! Concurrent in-memory collections: sets kept as sorted linked chains under
//! coarse or per-node locking, and a striped hash map that grows by doubling.
//!
//! Every collection is split in two layers. The sequential layer owns plain
//! data and carries the full functional contracts; the concurrent layer wraps
//! that data in locks and hands it, one holder at a time, to the sequential
//! layer.

pub mod order;
pub mod sync;
pub mod list_set;
pub mod map;
pub mod partition;
