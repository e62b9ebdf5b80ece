//! The lock of `parking_lot`, as far as the queues use it.
//!
//! Nothing in this file is proved: it says what is taken on trust of the
//! lock. A value that comes out of a lock may have been changed by any
//! thread in any way that its type allows, so the calls promise nothing of
//! it. What the queues rely on is only that a value of a type keeps the
//! invariant of that type.

use vstd::prelude::*;

verus! {

/// `parking_lot::lock_api::RwLock`, as an opaque value.
#[verifier::external_type_specification]
#[verifier::external_body]
#[verifier::reject_recursive_types(R)]
#[verifier::reject_recursive_types(T)]
pub struct ExRwLock<R, T: ?Sized>(parking_lot::lock_api::RwLock<R, T>);

/// `parking_lot::RawRwLock`, as an opaque value.
#[verifier::external_type_specification]
#[verifier::external_body]
pub struct ExRawRwLock(parking_lot::RawRwLock);

/// The guard that `parking_lot::RwLock::write` returns: while it lives, no
/// other thread reads or writes what the lock protects, and when it is
/// dropped the lock is free again.
#[verifier::external_body]
#[verifier::reject_recursive_types(T)]
pub struct WriteGuard<'a, T> {
    guard: parking_lot::RwLockWriteGuard<'a, T>,
}

/// `parking_lot::RwLock::new`: a lock around `value`.
#[verifier::external_body]
pub(crate) fn lock_new<T>(value: T) -> (lock: parking_lot::RwLock<T>) {
    parking_lot::RwLock::new(value)
}

/// `parking_lot::RwLock::write`: waits until no other thread holds the
/// lock and takes it for writing. The call does not come back while the
/// calling thread holds the same lock itself; the queues let go of a lock
/// before they take it again.
#[verifier::external_body]
pub(crate) fn lock_write<'a, T>(lock: &'a parking_lot::RwLock<T>) -> (guard: WriteGuard<'a, T>) {
    WriteGuard { guard: lock.write() }
}

/// `DerefMut::deref_mut` of the write guard: the value that the lock
/// protects.
#[verifier::external_body]
pub(crate) fn guard_mut<'a, 'b, T>(guard: &'b mut WriteGuard<'a, T>) -> (value: &'b mut T) {
    &mut *guard.guard
}

} // verus!
