//! The values that pass between parking and unparking threads.
use vstd::prelude::*;

verus! {

/// A value which is passed from an unparker to a parked thread.
#[derive(Copy, Clone, Eq, PartialEq, Debug, Structural)]
pub struct UnparkToken(pub usize);

/// A value associated with a parked thread which can be used by `unpark_filter`.
#[derive(Copy, Clone, Eq, PartialEq, Debug, Structural)]
pub struct ParkToken(pub usize);

impl Default for UnparkToken {
    /// A default unpark token to use.
    fn default() -> (token: Self)
        ensures
            token == UnparkToken(0),
    {
        UnparkToken(0)
    }
}

impl Default for ParkToken {
    /// A default park token to use.
    fn default() -> (token: Self)
        ensures
            token == ParkToken(0),
    {
        ParkToken(0)
    }
}

/// Result of a park operation.
#[derive(Copy, Clone, Eq, PartialEq, Debug, Structural)]
pub enum ParkResult {
    /// We were unparked by another thread with the given token.
    Unparked(UnparkToken),
    /// The validation callback returned false.
    Invalid,
    /// The timeout expired.
    TimedOut,
}

impl ParkResult {
    /// Returns true if we were unparked by another thread.
    pub fn is_unparked(self) -> (unparked: bool)
        ensures
            unparked == (self is Unparked),
    {
        if let ParkResult::Unparked(_) = self {
            true
        } else {
            false
        }
    }
}

/// Result of an unpark operation.
#[derive(Copy, Clone, Eq, PartialEq, Debug, Structural)]
#[non_exhaustive]
pub struct UnparkResult {
    /// The number of threads that were unparked.
    pub unparked_threads: usize,
    /// The number of threads that were requeued.
    pub requeued_threads: usize,
    /// Whether there are any threads remaining in the queue. This only returns
    /// true if a thread was unparked.
    pub have_more_threads: bool,
    /// This is set to true on average once every 0.5ms for any given key. It
    /// should be used to switch to a fair unlocking mechanism for a particular
    /// unlock.
    pub be_fair: bool,
}

/// The result of an unpark operation that found no thread.
pub open spec fn nothing_unparked() -> UnparkResult {
    UnparkResult {
        unparked_threads: 0,
        requeued_threads: 0,
        have_more_threads: false,
        be_fair: false,
    }
}

impl Default for UnparkResult {
    fn default() -> (result: Self)
        ensures
            result == nothing_unparked(),
    {
        UnparkResult {
            unparked_threads: 0,
            requeued_threads: 0,
            have_more_threads: false,
            be_fair: false,
        }
    }
}

/// Operation that `unpark_requeue` should perform.
#[derive(Copy, Clone, Eq, PartialEq, Debug, Structural)]
pub enum RequeueOp {
    /// Abort the operation without doing anything.
    Abort,
    /// Unpark one thread and requeue the rest onto the target queue.
    UnparkOneRequeueRest,
    /// Requeue all threads onto the target queue.
    RequeueAll,
    /// Unpark one thread and leave the rest parked. No requeuing is done.
    UnparkOne,
    /// Requeue one thread and leave the rest parked on the original queue.
    RequeueOne,
}

/// Operation that `unpark_filter` should perform for each thread.
#[derive(Copy, Clone, Eq, PartialEq, Debug, Structural)]
pub enum FilterOp {
    /// Unpark the thread and continue scanning the list of parked threads.
    Unpark,
    /// Don't unpark the thread and continue scanning the list of parked threads.
    Skip,
    /// Don't unpark the thread and stop scanning the list of parked threads.
    Stop,
}

} // verus!
