//! The threads that an unpark operation has to wake.
use smallvec::SmallVec;
use vstd::prelude::*;

verus! {

/// Threads to wake, in the order in which they are to be woken: a
/// `smallvec::SmallVec`, which holds up to eight of them without an allocation.
#[verifier::external_body]
pub struct WakeList {
    threads: SmallVec<[usize; 8]>,
}

/// The threads that the `smallvec::SmallVec` of a list holds, in order.
pub uninterp spec fn wake_order(list: WakeList) -> Seq<usize>;

impl View for WakeList {
    type V = Seq<usize>;

    open spec fn view(&self) -> Seq<usize> {
        wake_order(*self)
    }
}

impl WakeList {
    /// Calls `smallvec::SmallVec::new`: the list it makes is empty.
    #[verifier::external_body]
    pub(crate) fn new() -> (list: WakeList)
        ensures
            wake_order(list) == Seq::<usize>::empty(),
    {
        WakeList { threads: SmallVec::new() }
    }

    /// Calls `smallvec::SmallVec::push`: the thread goes behind those in the list.
    #[verifier::external_body]
    pub(crate) fn push(&mut self, thread: usize)
        ensures
            wake_order(*final(self)) == wake_order(*old(self)).push(thread),
    {
        self.threads.push(thread)
    }

    /// Calls `smallvec::SmallVec::len`: the number of threads in the list.
    #[verifier::external_body]
    pub(crate) fn len(&self) -> (len: usize)
        ensures
            len == wake_order(*self).len(),
    {
        self.threads.len()
    }

    /// Indexes the `smallvec::SmallVec`: the thread at that place.
    #[verifier::external_body]
    pub(crate) fn get(&self, index: usize) -> (thread: usize)
        requires
            index < wake_order(*self).len(),
        ensures
            thread == wake_order(*self)[index as int],
    {
        self.threads[index]
    }

    /// Calls `smallvec::SmallVec::into_vec`: the same threads in the same order.
    #[verifier::external_body]
    pub(crate) fn into_threads(self) -> (threads: Vec<usize>)
        ensures
            threads@ == wake_order(self),
    {
        self.threads.into_vec()
    }
}

} // verus!
