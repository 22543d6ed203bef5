//! A value behind a spinlock.
use vstd::prelude::*;

verus! {

/// A value and the state of its spinlock.
///
/// The kernel runs with interrupts off, so the holder is never preempted on its
/// own core; another core spins until the lock is released.
#[derive(Debug)]
pub struct UPSafeCell<T> {
    /// whether the lock is held
    locked: bool,
    data: T,
}

impl<T> UPSafeCell<T> {
    /// Whether the lock is held.
    pub closed spec fn is_locked(&self) -> bool {
        self.locked
    }

    /// The value.
    pub closed spec fn value(&self) -> T {
        self.data
    }

    /// A value that is not locked.
    pub fn new(value: T) -> (r: Self)
        ensures
            r.value() == value,
            !r.is_locked(),
    {
        Self { locked: false, data: value }
    }

    /// One attempt to take the lock: succeeds exactly if it is free, and then
    /// gives access to the value.
    pub fn exclusive_access(&mut self) -> (r: Option<SpinLockGuard<'_, T>>)
        ensures
            match r {
                Some(guard) => {
                    &&& !old(self).is_locked()
                    &&& guard.lock.is_locked()
                    &&& guard.lock.value() == old(self).value()
                    &&& *final(self) == *final(guard.lock)
                },
                None => old(self).is_locked() && *final(self) == *old(self),
            },
    {
        if self.locked {
            None
        } else {
            self.locked = true;
            Some(SpinLockGuard { lock: self })
        }
    }
}

/// Access to a value whose lock is held.
pub struct SpinLockGuard<'a, T> {
    pub lock: &'a mut UPSafeCell<T>,
}

impl<'a, T> SpinLockGuard<'a, T> {
    /// The value.
    pub fn deref(&self) -> (r: &T)
        ensures
            *r == old(self.lock).value(),
    {
        &self.lock.data
    }

    /// Change the value.
    pub fn set(&mut self, value: T)
        ensures
            final(self).lock.value() == value,
            final(self).lock.is_locked() == old(self).lock.is_locked(),
            *final(final(self).lock) == *final(old(self).lock),
    {
        self.lock.data = value;
    }

    /// Release the lock.
    pub fn release(self)
        ensures
            final(self.lock).value() == old(self.lock).value(),
            !final(self.lock).is_locked(),
    {
        self.lock.locked = false;
    }
}

} // verus!
