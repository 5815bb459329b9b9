//! A lock that stands before an object.

use core::sync::atomic::AtomicBool;
use core::sync::atomic::Ordering;
use vstd::prelude::*;
use crate::pointer::{Pointer, NULL_ADDR};

verus! {

/// A lock together with the handle of the object that it guards.
pub struct Semaphore<T> {
    inner: Pointer<T>,
    lock: AtomicBool,
}

/// The right to the object behind a `Semaphore`. It is given back with
/// `unlock`.
pub struct Guard<'a, T>(&'a Semaphore<T>);

impl<T> Semaphore<T> {
    /// The address of the guarded object.
    pub closed spec fn spec_inner(&self) -> usize {
        self.inner.addr()
    }

    /// A lock that nobody holds, before the null handle.
    pub fn empty() -> (s: Self)
        ensures
            s.spec_inner() == NULL_ADDR,
    {
        Semaphore { inner: Pointer::empty(), lock: AtomicBool::new(false) }
    }

    /// Tries once to take the lock. Returns the right to the object, or
    /// nothing where another caller holds the lock; the caller then yields
    /// and tries again.
    pub fn lock(&self) -> (r: Option<Guard<'_, T>>)
        ensures
            r matches Some(g) ==> g.spec_target() == self.spec_inner(),
    {
        let outcome = self.lock.compare_exchange(false, true, Ordering::SeqCst, Ordering::SeqCst);
        if crate::breaks::flag_taken(outcome) {
            Some(Guard(self))
        } else {
            None
        }
    }
}

impl<'a, T> Guard<'a, T> {
    /// The address of the object that the right is for.
    pub closed spec fn spec_target(&self) -> usize {
        self.0.inner.addr()
    }

    /// The handle of the guarded object.
    pub fn target(&self) -> (p: Pointer<T>)
        ensures
            p.addr() == self.spec_target(),
    {
        self.0.inner.clone()
    }

    /// Gives the lock back.
    pub fn unlock(self) {
        self.0.lock.store(false, Ordering::SeqCst)
    }
}

} // verus!
