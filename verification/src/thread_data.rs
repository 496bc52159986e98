//! The record of a thread that may park.
use crate::deadlock_data::{identified, no_deadlock, DeadlockData, DeadlockView};
use crate::tokens::{ParkToken, UnparkToken};
use vstd::prelude::*;

verus! {

/// The part of a thread's parker that unparking threads write: whether the
/// thread is to stay asleep.
pub struct ThreadParker {
    pub(crate) should_park: bool,
}

impl ThreadParker {
    /// Whether the thread is to stay asleep.
    pub open(crate) spec fn parked(self) -> bool {
        self.should_park
    }

    pub(crate) fn new() -> (parker: Self)
        ensures
            !parker.parked(),
    {
        ThreadParker { should_park: false }
    }

    /// Prepares the parker before the thread goes to sleep.
    pub(crate) fn prepare_park(&mut self)
        ensures
            final(self).parked(),
    {
        self.should_park = true;
    }

    /// Whether nobody has unparked the thread since it prepared to sleep.
    pub(crate) fn timed_out(&self) -> (timed_out: bool)
        ensures
            timed_out == self.parked(),
    {
        self.should_park
    }

    /// Lets the thread go on: it may be woken from here on.
    pub(crate) fn unpark_lock(&mut self)
        ensures
            !final(self).parked(),
    {
        self.should_park = false;
    }
}

/// The record of a thread.
pub struct ThreadData {
    /// Whether the record belongs to a thread. A record without one is reused.
    pub(crate) live: bool,
    pub(crate) parker: ThreadParker,
    /// Key that this thread is sleeping on. This may change if the thread is
    /// requeued to a different key.
    pub(crate) key: usize,
    /// Linked list of parked threads in a bucket
    pub(crate) next_in_queue: Option<usize>,
    /// UnparkToken passed to this thread when it is unparked
    pub(crate) unpark_token: UnparkToken,
    /// ParkToken value set by the thread when it was parked
    pub(crate) park_token: ParkToken,
    /// Is the thread parked with a timeout?
    pub(crate) parked_with_timeout: bool,
    /// Extra data for deadlock detection
    pub(crate) deadlock_data: DeadlockData,
}

/// What is known of a thread, apart from its place in a queue.
#[verifier::ext_equal]
pub struct ThreadView {
    pub live: bool,
    pub parked: bool,
    pub key: usize,
    pub unpark_token: UnparkToken,
    pub park_token: ParkToken,
    pub parked_with_timeout: bool,
    pub deadlock: DeadlockView,
}

impl View for ThreadData {
    type V = ThreadView;

    open(crate) spec fn view(&self) -> ThreadView {
        ThreadView {
            live: self.live,
            parked: self.parker.parked(),
            key: self.key,
            unpark_token: self.unpark_token,
            park_token: self.park_token,
            parked_with_timeout: self.parked_with_timeout,
            deadlock: self.deadlock_data@,
        }
    }
}

/// A thread that has never parked.
pub open spec fn fresh_thread(thread_id: usize) -> ThreadView {
    ThreadView {
        live: true,
        parked: false,
        key: 0,
        unpark_token: UnparkToken(0),
        park_token: ParkToken(0),
        parked_with_timeout: false,
        deadlock: no_deadlock(thread_id),
    }
}

impl ThreadData {
    /// The thread behind this one in its queue.
    pub open(crate) spec fn link(self) -> Option<usize> {
        self.next_in_queue
    }

    /// The record of the calling thread.
    pub fn new() -> (data: ThreadData)
        ensures
            data.link() is None,
            identified(data@.deadlock.thread_id),
            data@ == fresh_thread(data@.deadlock.thread_id),
    {
        ThreadData {
            live: true,
            parker: ThreadParker::new(),
            key: 0,
            next_in_queue: None,
            unpark_token: UnparkToken(0),
            park_token: ParkToken(0),
            parked_with_timeout: false,
            deadlock_data: DeadlockData::new(),
        }
    }
}

/// What is known of each thread.
pub open(crate) spec fn views(threads: Seq<ThreadData>) -> Seq<ThreadView> {
    Seq::new(threads.len(), |i: int| threads[i]@)
}

} // verus!
