//! A value with a lock word.
use vstd::prelude::*;

verus! {

/// A value that is only to be used by the holder of its lock. Taking the lock
/// never waits: it succeeds or reports that the lock is held.
pub struct SafeLock<T> {
    pub(crate) locked: bool,
    pub(crate) data: T,
}

impl<T> SafeLock<T> {
    /// Whether the lock is held.
    pub open(crate) spec fn is_locked(self) -> bool {
        self.locked
    }

    /// The value behind the lock.
    pub open(crate) spec fn value(self) -> T {
        self.data
    }

    /// Wraps a value, with its lock free.
    pub fn new(value: T) -> (lock: Self)
        ensures
            !lock.is_locked(),
            lock.value() == value,
    {
        SafeLock { locked: false, data: value }
    }

    /// The value, for a caller whose access is exclusive without the lock.
    pub fn get_mut(&mut self) -> (data: &mut T)
        ensures
            *data == old(self).value(),
            final(self).value() == *final(data),
            final(self).is_locked() == old(self).is_locked(),
    {
        &mut self.data
    }

    /// Takes the lock if it is free.
    pub fn lock(&mut self) -> (acquired: bool)
        ensures
            acquired == !old(self).is_locked(),
            final(self).is_locked(),
            final(self).value() == old(self).value(),
    {
        let acquired = !self.locked;
        self.locked = true;
        acquired
    }

    /// The value, for the holder of the lock.
    pub fn assume_locked(&mut self) -> (data: &mut T)
        requires
            old(self).is_locked(),
        ensures
            *data == old(self).value(),
            final(self).value() == *final(data),
            final(self).is_locked(),
    {
        &mut self.data
    }

    /// Frees the lock.
    pub fn unlock(&mut self)
        requires
            old(self).is_locked(),
        ensures
            !final(self).is_locked(),
            final(self).value() == old(self).value(),
    {
        self.locked = false;
    }
}

} // verus!
