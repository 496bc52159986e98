//! Parking the current thread.
use crate::locking::LockedBucket;
use crate::lot::ParkingLot;
use crate::lot_queues::lemma_separate;
use crate::model::{lemma_bucket_in_range, sleeps_on, LotView};
use crate::seq_facts::{lemma_filter_members, lemma_filter_no_duplicates};
use crate::tokens::{ParkResult, ParkToken};
use crate::validity::{lemma_valid_parked, lemma_valid_unparked, lemma_woken_one};
use instant::Instant;
use vstd::prelude::*;

verus! {

/// What a thread that wants to park has to do next.
#[derive(Copy, Clone, Eq, PartialEq, Debug, Structural)]
pub enum ParkStep {
    /// Return: the thread does not sleep.
    Return(ParkResult),
    /// Sleep until the thread is unparked, or until its timeout is reached.
    Sleep,
}

/// Parks a thread in the queue associated with the given key, whose bucket it
/// has locked.
///
/// The `validate` function is called while the queue is locked and can abort
/// the operation by returning false. If `validate` returns true then the
/// thread is appended to the queue. Either way the queue is unlocked.
///
/// The thread must then sleep until it is unparked or the given timeout is
/// reached. If it is unparked, it goes on with `park_unparked`. If the timeout
/// is reached, it goes on with `park_timed_out`.
pub fn park<V: FnOnce() -> bool>(
    lot: &mut ParkingLot,
    thread: usize,
    bucket: LockedBucket,
    key: usize,
    validate: V,
    park_token: ParkToken,
    timeout: Option<Instant>,
) -> (step: ParkStep)
    requires
        old(lot).wf(),
        old(lot)@.holds(bucket.bucket()),
        bucket.bucket() == old(lot)@.bucket_of(key),
        old(lot)@.is_thread(thread),
        !old(lot)@.threads[thread as int].parked,
        !old(lot)@.threads[thread as int].deadlock.deadlocked,
        call_requires(validate, ()),
    ensures
        final(lot).wf(),
        exists|valid: bool|
            #[trigger] call_ensures(validate, (), valid) && if valid {
                &&& step == ParkStep::Sleep
                &&& final(lot)@ == old(lot)@.parked(
                    thread,
                    key,
                    park_token,
                    timeout is Some,
                ).with_lock(bucket.bucket(), false)
            } else {
                &&& step == ParkStep::Return(ParkResult::Invalid)
                &&& final(lot)@ == old(lot)@.with_lock(bucket.bucket(), false)
            },
{
    // If the validation function fails, just return
    if !validate() {
        lot.unlock_bucket(bucket);
        return ParkStep::Return(ParkResult::Invalid);
    }
    // Append our thread data to the queue and unlock the bucket

    proof {
        lemma_valid_parked(lot@, thread, key, park_token, timeout is Some);
        assert(lot@.threads[thread as int] == lot.records@[thread as int]@);
    }
    lot.records[thread].parked_with_timeout = timeout.is_some();
    lot.records[thread].key = key;
    lot.records[thread].park_token = park_token;
    lot.records[thread].parker.prepare_park();
    proof {
        lemma_separate(old(lot)@);
        lot.lemma_same_links(*old(lot));
        assert forall|b: int| 0 <= b < lot@.buckets.len() implies !(#[trigger] lot@.queue(
            b,
        )).contains(thread) by {
            assert(lot@.queue(b) == old(lot)@.queue(b));
            assert(old(lot)@.bucket_valid(b));
        }
        assert(lot@.separate()) by {
            assert forall|b: int, c: int, t: usize|
                0 <= b < lot@.buckets.len() && 0 <= c < lot@.buckets.len() && #[trigger] lot@.queue(
                    b,
                ).contains(t) && #[trigger] lot@.queue(c).contains(t) implies b == c by {
                assert(old(lot)@.queue(b).contains(t) && old(lot)@.queue(c).contains(t));
            }
        }
    }
    lot.push_parked(bucket.index, thread);
    assert(lot@ =~= old(lot)@.parked(thread, key, park_token, timeout is Some));
    lot.unlock_bucket(bucket);
    ParkStep::Sleep
}

/// The result of `park` for a thread that was unparked.
pub open spec fn unparked_result(lot: LotView, thread: usize) -> ParkResult {
    ParkResult::Unparked(lot.threads[thread as int].unpark_token)
}

/// The result of `park` for a thread whose timeout was reached: it may have
/// been unparked in the meantime.
pub open spec fn timeout_result(lot: LotView, thread: usize) -> ParkResult {
    if lot.threads[thread as int].parked {
        ParkResult::TimedOut
    } else {
        unparked_result(lot, thread)
    }
}

/// What the `timed_out` function is passed: the key of the queue in which the
/// thread is, and whether it is the last thread in the queue.
pub open spec fn timeout_arguments(lot: LotView, thread: usize) -> (usize, bool) {
    let key = lot.threads[thread as int].key;
    (key, lot.parked_on(key) == seq![thread])
}

/// The result of `park` for a thread that was unparked: the token with which
/// it was unparked.
pub fn park_unparked(lot: &ParkingLot, thread: usize) -> (result: ParkResult)
    requires
        lot.wf(),
        lot@.is_thread(thread),
    ensures
        result == unparked_result(lot@, thread),
{
    assert(lot@.threads[thread as int] == lot.records@[thread as int]@);
    ParkResult::Unparked(lot.records[thread].unpark_token)
}

/// Goes on with `park` for a thread whose timeout was reached. The thread has
/// locked the bucket of the key on which it sleeps, which may be different
/// from the original key if `unpark_requeue` was called.
///
/// The thread may have been unparked in the meantime: then this is the result.
/// Otherwise it is removed from the queue, and the `timed_out` function is
/// called while the queue is locked. It is passed the key of the queue that
/// the thread was in and a bool which indicates whether it was the last thread
/// in the queue. Either way the queue is unlocked.
pub fn park_timed_out<T: FnOnce(usize, bool)>(
    lot: &mut ParkingLot,
    thread: usize,
    bucket: LockedBucket,
    timed_out: T,
) -> (result: ParkResult)
    requires
        old(lot).wf(),
        old(lot)@.is_thread(thread),
        old(lot)@.threads[thread as int].parked_with_timeout,
        old(lot)@.holds(bucket.bucket()),
        bucket.bucket() == old(lot)@.bucket_of(old(lot)@.threads[thread as int].key),
        old(lot)@.threads[thread as int].parked ==> call_requires(
            timed_out,
            timeout_arguments(old(lot)@, thread),
        ),
    ensures
        final(lot).wf(),
        result == timeout_result(old(lot)@, thread),
        ({
            let me = old(lot)@.threads[thread as int];
            if me.parked {
                &&& call_ensures(timed_out, timeout_arguments(old(lot)@, thread), ())
                &&& final(lot)@ == old(lot)@.unparked(
                    bucket.bucket(),
                    seq![thread],
                    me.unpark_token,
                ).with_lock(bucket.bucket(), false)
            } else {
                final(lot)@ == old(lot)@.with_lock(bucket.bucket(), false)
            }
        }),
{
    let ghost before = lot@;
    let ghost me = before.threads[thread as int];
    proof {
        assert(me == lot.records@[thread as int]@);
        assert(before.thread_valid(thread));
    }
    let key = lot.records[thread].key;

    // Now we need to check again if we were unparked or timed out. This is
    // precise because we hold the bucket lock.
    if !lot.records[thread].parker.timed_out() {
        let unpark_token = lot.records[thread].unpark_token;
        lot.unlock_bucket(bucket);
        return ParkResult::Unparked(unpark_token);
    }
    // We timed out, so we now need to remove our thread from the queue

    proof {
        lemma_separate(before);
    }
    let was_last_thread = lot.remove_thread(bucket.index, thread, key);
    let ghost gone = seq![thread];
    proof {
        lemma_last_thread(before, thread);
        assert forall|t: usize| #[trigger] gone.contains(t) implies before.queue(
            bucket.bucket(),
        ).contains(t) by {
            assert(t == thread);
        }
        lemma_valid_unparked(before, bucket.bucket(), gone, me.unpark_token);
    }
    let ghost removed = *lot;
    lot.records[thread].parker.unpark_lock();
    proof {
        lot.lemma_same_links(removed);
        assert(removed.records.len() == before.threads.len());
        lemma_woken_one(before.threads, thread, me.unpark_token);
        assert(lot@ =~= before.unparked(bucket.bucket(), gone, me.unpark_token));
    }

    // Callback to indicate that we timed out, and whether we were the
    // last thread on the queue.
    timed_out(key, was_last_thread);
    lot.unlock_bucket(bucket);
    ParkResult::TimedOut
}

/// Whether a thread is the only one that sleeps on its key.
pub(crate) proof fn lemma_last_thread(lot: LotView, thread: usize)
    requires
        lot.valid(),
        lot.is_queued(thread),
    ensures
        ({
            let key = lot.threads[thread as int].key;
            lot.parked_on(key) == seq![thread] <==> forall|t: usize| #[trigger]
                lot.queue(lot.bucket_of(key)).contains(t) && t != thread
                    ==> lot.threads[t as int].key != key
        }),
{
    let key = lot.threads[thread as int].key;
    let queue = lot.queue(lot.bucket_of(key));
    let sleepers = lot.parked_on(key);
    lemma_bucket_in_range(lot, key);
    assert(lot.bucket_valid(lot.bucket_of(key)));
    lemma_filter_members(queue, sleeps_on(lot.threads, key));
    lemma_filter_no_duplicates(queue, sleeps_on(lot.threads, key));
    assert(sleepers.contains(thread));
    if sleepers == seq![thread] {
        assert forall|t: usize| #[trigger] queue.contains(t) && t
            != thread implies lot.threads[t as int].key != key by {
            if lot.threads[t as int].key == key {
                assert(sleepers.contains(t));
            }
        }
    }
    if forall|t: usize| #[trigger] queue.contains(t) && t != thread ==> lot.threads[t as int].key
        != key {
        let i = choose|i: int| 0 <= i < sleepers.len() && sleepers[i] == thread;
        assert forall|j: int| 0 <= j < sleepers.len() implies #[trigger] sleepers[j] == thread by {
            assert(sleepers.contains(sleepers[j]));
        }
        assert(sleepers.len() == 1) by {
            if sleepers.len() > 1 {
                let j: int = if i == 0 {
                    1
                } else {
                    0
                };
                assert(sleepers[j] == sleepers[i]);
            }
        }
        assert(sleepers =~= seq![thread]);
    }
}

} // verus!
