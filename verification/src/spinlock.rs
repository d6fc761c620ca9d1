//! A mutual-exclusion primitive guarding a single owned value.
//!
//! `lock` hands out exclusive, scoped access to the guarded value as a
//! [`SpinlockGuard`]; the guard owns the value until `drop` stores it back
//! and releases the lock. Acquiring the lock again while a guard for it is
//! still live blocks until that guard is dropped, so a task that tries to
//! re-acquire a lock it already holds deadlocks; that is a documented caller
//! contract, not a detected error.

use vstd::prelude::*;
use vstd::rwlock::{RwLock, RwLockPredicate, WriteHandle};

verus! {

/// The lock places no constraint of its own on the guarded value.
pub struct AnyValue;

impl<T> RwLockPredicate<T> for AnyValue {
    open spec fn inv(self, v: T) -> bool {
        true
    }
}

/// A lock over one owned value of type `T`.
pub struct Spinlock<T> {
    cell: RwLock<T, AnyValue>,
}

/// Exclusive access to the value guarded by a [`Spinlock`].
///
/// The guard owns the value: read and write it through [`Self::value`] and
/// [`Self::value_mut`], then call [`Self::drop`] to store it back and release
/// the lock. The lock is not released if the guard is merely forgotten.
pub struct SpinlockGuard<'a, T> {
    value: T,
    handle: WriteHandle<'a, T, AnyValue>,
}

impl<T> Spinlock<T> {
    /// Creates a lock initially holding `value`.
    pub fn new(value: T) -> Spinlock<T> {
        Spinlock { cell: RwLock::new(value, Ghost(AnyValue)) }
    }

    /// Blocks until the lock is free, then takes it, handing the guarded
    /// value to the returned guard.
    pub fn lock(&self) -> SpinlockGuard<'_, T> {
        let (value, handle) = self.cell.acquire_write();
        SpinlockGuard { value, handle }
    }
}

impl<'a, T> SpinlockGuard<'a, T> {
    /// The value this guard holds.
    pub closed spec fn guarded(self) -> T {
        self.value
    }

    /// The guarded value.
    pub fn value(&self) -> (r: &T)
        ensures
            *r == self.guarded(),
    {
        &self.value
    }

    /// The guarded value, for writing in place.
    pub fn value_mut(&mut self) -> (r: &mut T)
        ensures
            *r == old(self).guarded(),
            final(self).guarded() == *final(r),
    {
        &mut self.value
    }

    /// Replaces the guarded value.
    pub fn set(&mut self, value: T)
        ensures
            final(self).guarded() == value,
    {
        self.value = value;
    }

    /// Stores the held value back and releases the lock.
    pub fn drop(self) {
        let SpinlockGuard { value, handle } = self;
        handle.release_write(value);
    }
}

} // verus!
