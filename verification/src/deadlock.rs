//! Deadlock detection.
//!
//! A thread that is found in a deadlock is woken, reports where it is and goes
//! to sleep for good.
use crate::deadlock_data::{after_release, DeadlockView};
use crate::lot::ParkingLot;
use crate::model::{lemma_live_count_update, LotView};
use crate::thread_data::ThreadView;
use backtrace::Backtrace;
use vstd::prelude::*;

verus! {

/// The outside type `backtrace::Backtrace`, an opaque stack.
#[verifier::external_type_specification]
#[verifier::external_body]
pub struct ExBacktrace(backtrace::Backtrace);

/// Calls `backtrace::Backtrace::new`. Nothing is claimed of what it captures:
/// that is the stack of the thread that asks.
#[verifier::external_body]
fn capture_backtrace() -> Backtrace {
    Backtrace::new()
}

/// Whether a backtrace was captured by a thread that asked.
pub closed spec fn captured(backtrace: Backtrace) -> bool {
    call_ensures(capture_backtrace, (), backtrace)
}

/// Representation of a deadlocked thread
pub struct DeadlockedThread {
    thread_id: usize,
    backtrace: Backtrace,
}

impl DeadlockedThread {
    /// The system thread id of the report.
    pub closed spec fn id(self) -> usize {
        self.thread_id
    }

    /// The backtrace of the report.
    pub closed spec fn trace(self) -> Backtrace {
        self.backtrace
    }

    /// The system thread id
    pub fn thread_id(&self) -> (thread_id: usize)
        ensures
            thread_id == self.id(),
    {
        self.thread_id
    }

    /// The thread backtrace
    pub fn backtrace(&self) -> (backtrace: &Backtrace)
        ensures
            *backtrace == self.trace(),
    {
        &self.backtrace
    }
}

impl LotView {
    /// The lot with other resources in the hands of a thread.
    pub open spec fn with_resources(self, thread: usize, resources: Seq<usize>) -> LotView {
        let data = self.threads[thread as int];
        self.with_thread(
            thread,
            ThreadView { deadlock: DeadlockView { resources, ..data.deadlock }, ..data },
        )
    }

    /// The lot after a deadlocked thread has reported and gone back to sleep.
    pub open spec fn reported(self, thread: usize) -> LotView {
        let data = self.threads[thread as int];
        self.with_thread(
            thread,
            ThreadView {
                parked: true,
                deadlock: DeadlockView { report_to: None, ..data.deadlock },
                ..data
            },
        )
    }
}

/// What is taken for a captured backtrace is one that was handed out.
proof fn law_backtraces_are_captured(backtrace: Backtrace)
    requires
        captured(backtrace),
    ensures
        call_ensures(capture_backtrace, (), backtrace),
{
}

/// What the deadlock detector notes of a thread changes nothing else.
proof fn lemma_valid_noted(lot: LotView, thread: usize, value: ThreadView)
    requires
        lot.valid(),
        thread < lot.threads.len(),
        value.live == lot.threads[thread as int].live,
        value.key == lot.threads[thread as int].key,
        value.parked_with_timeout == lot.threads[thread as int].parked_with_timeout,
        value.deadlock.deadlocked == lot.threads[thread as int].deadlock.deadlocked,
        value.deadlock.deadlocked || value.parked == lot.threads[thread as int].parked,
    ensures
        lot.with_thread(thread, value).valid(),
{
    let after = lot.with_thread(thread, value);
    assert forall|b: int| 0 <= b < after.buckets.len() implies #[trigger] after.bucket_valid(b) by {
        assert(lot.bucket_valid(b));
        assert(after.queue(b) == lot.queue(b));
    }
    assert forall|t: usize| t < after.threads.len() implies #[trigger] after.thread_valid(t) by {
        assert(lot.thread_valid(t));
    }
    lemma_live_count_update(lot.threads, thread as int, value);
}

/// Acquire a resource identified by key in the deadlock detector.
///
/// Call after the resource is acquired.
pub fn acquire_resource(lot: &mut ParkingLot, thread: usize, key: usize)
    requires
        old(lot).wf(),
        old(lot)@.is_thread(thread),
    ensures
        final(lot).wf(),
        final(lot)@ == old(lot)@.with_resources(
            thread,
            old(lot)@.threads[thread as int].deadlock.resources.push(key),
        ),
{
    proof {
        assert(lot@.threads[thread as int] == lot.records@[thread as int]@);
    }
    lot.records[thread].deadlock_data.acquire(key);
    proof {
        let data = lot.records@[thread as int]@;
        lemma_valid_noted(old(lot)@, thread, data);
        lot.lemma_same_links(*old(lot));
        assert(lot@ =~= old(lot)@.with_thread(thread, data));
    }
}

/// Whether a thread owns a resource in the deadlock detector.
pub fn owns_resource(lot: &ParkingLot, thread: usize, key: usize) -> (owned: bool)
    requires
        lot.wf(),
        lot@.is_thread(thread),
    ensures
        owned == lot@.threads[thread as int].deadlock.resources.contains(key),
{
    assert(lot@.threads[thread as int] == lot.records@[thread as int]@);
    lot.records[thread].deadlock_data.owns(key)
}

/// Release a resource identified by key in the deadlock detector. It must not
/// have been released already, and must have been acquired in this thread.
///
/// Call before the resource is released.
pub fn release_resource(lot: &mut ParkingLot, thread: usize, key: usize)
    requires
        old(lot).wf(),
        old(lot)@.is_thread(thread),
        old(lot)@.threads[thread as int].deadlock.resources.contains(key),
    ensures
        final(lot).wf(),
        final(lot)@ == old(lot)@.with_resources(
            thread,
            after_release(old(lot)@.threads[thread as int].deadlock.resources, key),
        ),
{
    proof {
        assert(lot@.threads[thread as int] == lot.records@[thread as int]@);
    }
    lot.records[thread].deadlock_data.release(key);
    proof {
        let data = lot.records@[thread as int]@;
        lemma_valid_noted(old(lot)@, thread, data);
        lot.lemma_same_links(*old(lot));
        assert(lot@ =~= old(lot)@.with_thread(thread, data));
    }
}

/// Whether a thread has been found in a deadlock, and if so, to which cycle it
/// still has to report.
pub fn pending_report(lot: &ParkingLot, thread: usize) -> (pending: (bool, Option<usize>))
    requires
        lot.wf(),
        lot@.is_thread(thread),
    ensures
        pending.0 == lot@.threads[thread as int].deadlock.deadlocked,
        pending.1 == lot@.threads[thread as int].deadlock.report_to,
{
    assert(lot@.threads[thread as int] == lot.records@[thread as int]@);
    let data = &lot.records[thread].deadlock_data;
    (data.deadlocked, data.report_to)
}

/// What a thread that parked without a timeout does when it is woken. If it
/// was found in a deadlock, it gives the number of its cycle and its report.
/// Then it must go to sleep, and never be woken again.
pub fn on_unpark(lot: &mut ParkingLot, thread: usize) -> (report: Option<(usize, DeadlockedThread)>)
    requires
        old(lot).wf(),
        old(lot)@.is_thread(thread),
        old(lot)@.threads[thread as int].deadlock.deadlocked ==> old(
            lot,
        )@.threads[thread as int].deadlock.report_to is Some,
    ensures
        final(lot).wf(),
        ({
            let data = old(lot)@.threads[thread as int].deadlock;
            match report {
                None => !data.deadlocked && final(lot)@ == old(lot)@,
                Some((cycle, report)) => {
                    &&& data.deadlocked
                    &&& data.report_to == Some(cycle)
                    &&& report.id() == data.thread_id
                    &&& captured(report.trace())
                    &&& final(lot)@ == old(lot)@.reported(thread)
                },
            }
        }),
{
    assert(lot@.threads[thread as int] == lot.records@[thread as int]@);
    if !lot.records[thread].deadlock_data.deadlocked {
        return None;
    }
    let report_to = lot.records[thread].deadlock_data.report_to;
    let thread_id = lot.records[thread].deadlock_data.thread_id;
    let report = DeadlockedThread { thread_id, backtrace: capture_backtrace() };
    lot.records[thread].deadlock_data.report_to = None;

    // park until the end of the time
    lot.records[thread].parker.prepare_park();
    proof {
        let data = lot.records@[thread as int]@;
        lemma_valid_noted(old(lot)@, thread, data);
        lot.lemma_same_links(*old(lot));
        assert(lot@ =~= old(lot)@.reported(thread));
    }
    match report_to {
        Some(cycle) => Some((cycle, report)),
        None => None,
    }
}

} // verus!
