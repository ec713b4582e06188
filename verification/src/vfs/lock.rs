//! The locks that stand before bytes in memory.

use async_std::sync::{Mutex, MutexGuardArc};
use std::sync::Arc;
use vstd::prelude::*;

verus! {

/// A lock, `async_std::sync::Mutex`. Who holds it, and when, is not known here.
#[verifier::external_type_specification]
#[verifier::external_body]
#[verifier::reject_recursive_types(T)]
pub struct ExMutex<T: ?Sized>(async_std::sync::Mutex<T>);

/// A lock that is held, `async_std::sync::MutexGuardArc`. The lock is free again
/// once this is dropped.
#[verifier::external_type_specification]
#[verifier::external_body]
#[verifier::reject_recursive_types(T)]
pub struct ExMutexGuardArc<T: ?Sized>(async_std::sync::MutexGuardArc<T>);

/// A new lock that nothing else has.
///
/// Calls `async_std::sync::Mutex::new`. Nothing is claimed of the lock: that it is
/// free holds only until it is handed on.
#[verifier::external_body]
pub(crate) fn new_lock() -> (lock: Arc<Mutex<()>>) {
    Arc::new(Mutex::new(()))
}

/// Takes the lock if it is free.
///
/// Calls `async_std::sync::Mutex::try_lock_arc`, which gives a guard if nothing
/// holds the lock and nothing otherwise, and never waits. Which of the two comes
/// depends on the other holders of the lock, so nothing is claimed of the result.
#[verifier::external_body]
pub(crate) fn try_lock<V>(lock: &Arc<Mutex<V>>) -> (guard: Option<MutexGuardArc<V>>) {
    lock.try_lock_arc()
}

/// The bytes behind a lock that is held.
///
/// Calls `async_std::sync::MutexGuardArc::deref`, which gives the value that the
/// lock guards. What that is depends on what its holders have put there, so nothing
/// is claimed of the bytes.
#[verifier::external_body]
pub(crate) fn guarded(guard: &MutexGuardArc<Box<[u8]>>) -> (bytes: &[u8]) {
    &**guard
}

} // verus!
