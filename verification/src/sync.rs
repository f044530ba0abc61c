//! The locks of the standard library, as far as the collections use them.
//!
//! A lock hides what it guards from the verifier: nothing is known of a value
//! that comes out of one but what its type guarantees. The collections
//! therefore guard types that carry their invariant with them.
//!
//! A lock is poisoned when a holder panicked. Acquiring a poisoned lock
//! panics in turn, so the fault reaches every thread that touches the
//! collection.

use vstd::prelude::*;
use crossbeam::utils::CachePadded;
use std::sync::Mutex;
use std::sync::MutexGuard;
use std::sync::RwLock;
use std::sync::RwLockReadGuard;
use std::sync::RwLockWriteGuard;

verus! {

#[verifier::external_type_specification]
#[verifier::external_body]
#[verifier::reject_recursive_types(T)]
pub struct ExRwLock<T: ?Sized>(RwLock<T>);

#[verifier::external_type_specification]
#[verifier::external_body]
#[verifier::reject_recursive_types(T)]
pub struct ExRwLockReadGuard<'a, T: ?Sized>(RwLockReadGuard<'a, T>);

#[verifier::external_type_specification]
#[verifier::external_body]
#[verifier::reject_recursive_types(T)]
pub struct ExRwLockWriteGuard<'a, T: ?Sized + 'a>(RwLockWriteGuard<'a, T>);

#[verifier::external_type_specification]
#[verifier::external_body]
#[verifier::reject_recursive_types(T)]
pub struct ExMutex<T: ?Sized>(Mutex<T>);

#[verifier::external_type_specification]
#[verifier::external_body]
#[verifier::reject_recursive_types(T)]
pub struct ExMutexGuard<'a, T: ?Sized + 'a>(MutexGuard<'a, T>);

#[verifier::external_type_specification]
#[verifier::external_body]
#[verifier::reject_recursive_types(T)]
pub struct ExCachePadded<T>(CachePadded<T>);

/// `CachePadded::new`: `value`, padded to the length of a cache line so that
/// it shares its line with nothing else. Nothing is claimed of the result.
#[verifier::external_body]
pub(crate) fn cache_padded<T>(value: T) -> CachePadded<T> {
    CachePadded::new(value)
}

/// `Deref::deref` of a padded value: the value inside. Nothing is claimed of
/// it.
#[verifier::external_body]
pub(crate) fn padded_ref<T>(padded: &CachePadded<T>) -> &T {
    &**padded
}

/// `RwLock::new`: a reader-writer lock that guards `value`. Nothing is
/// claimed of the lock.
#[verifier::external_body]
pub(crate) fn rwlock_new<T>(value: T) -> RwLock<T> {
    RwLock::new(value)
}

/// `RwLock::read`: blocks until shared access is granted. Nothing is claimed
/// of what the guard gives access to.
#[verifier::external_body]
pub(crate) fn rwlock_read<'a, T>(lock: &'a RwLock<T>) -> RwLockReadGuard<'a, T> {
    lock.read().unwrap()
}

/// `RwLock::write`: blocks until exclusive access is granted. Nothing is
/// claimed of what the guard gives access to.
#[verifier::external_body]
pub(crate) fn rwlock_write<'a, T>(lock: &'a RwLock<T>) -> RwLockWriteGuard<'a, T> {
    lock.write().unwrap()
}

/// `Deref::deref` of a read guard: the guarded value, for as long as the
/// guard is borrowed. Nothing is claimed of the value.
#[verifier::external_body]
pub(crate) fn read_guard_ref<'g, 'a, T>(guard: &'g RwLockReadGuard<'a, T>) -> &'g T {
    &**guard
}

/// `DerefMut::deref_mut` of a write guard: the guarded value, to read and to
/// change, for as long as the guard is borrowed. Nothing is claimed of the
/// value.
#[verifier::external_body]
pub(crate) fn write_guard_mut<'g, 'a, T>(guard: &'g mut RwLockWriteGuard<'a, T>) -> &'g mut T {
    &mut **guard
}

/// Dropping a read guard gives the shared access back.
#[verifier::external_body]
pub(crate) fn read_unlock<'a, T>(guard: RwLockReadGuard<'a, T>) {
    drop(guard)
}

/// Dropping a write guard gives the exclusive access back.
#[verifier::external_body]
pub(crate) fn write_unlock<'a, T>(guard: RwLockWriteGuard<'a, T>) {
    drop(guard)
}

/// `Mutex::new`: a mutual-exclusion lock that guards `value`. Nothing is
/// claimed of the lock.
#[verifier::external_body]
pub(crate) fn mutex_new<T>(value: T) -> Mutex<T> {
    Mutex::new(value)
}

/// `Mutex::lock`: blocks until the lock is held. Nothing is claimed of what
/// the guard gives access to.
#[verifier::external_body]
pub(crate) fn mutex_lock<'a, T>(lock: &'a Mutex<T>) -> MutexGuard<'a, T> {
    lock.lock().unwrap()
}

/// `Deref::deref` of a mutex guard: the guarded value, for as long as the
/// guard is borrowed. Nothing is claimed of the value.
#[verifier::external_body]
pub(crate) fn mutex_guard_ref<'g, 'a, T>(guard: &'g MutexGuard<'a, T>) -> &'g T {
    &**guard
}

/// `DerefMut::deref_mut` of a mutex guard: the guarded value, to read and to
/// change, for as long as the guard is borrowed. Nothing is claimed of the
/// value.
#[verifier::external_body]
pub(crate) fn mutex_guard_mut<'g, 'a, T>(guard: &'g mut MutexGuard<'a, T>) -> &'g mut T {
    &mut **guard
}

/// Dropping a mutex guard releases the lock.
#[verifier::external_body]
pub(crate) fn mutex_unlock<'a, T>(guard: MutexGuard<'a, T>) {
    drop(guard)
}

} // verus!
