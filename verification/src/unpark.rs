//! Unparking threads.
//!
//! An operation that unparks threads returns them. Their bucket is unlocked by
//! then, and they have to be woken in the given order.
use crate::fair_timeout::law_seed_stays_nonzero;
use crate::locking::LockedBucket;
use crate::lot::ParkingLot;
use crate::lot_queues::{fairness, lemma_separate};
use crate::model::{lemma_bucket_in_range, lemma_valid_at, lemma_valid_bucket, sleeps_on, without, woken, LotView};
use crate::queue::at;
use crate::queue_ops::{answered, lemma_let_go_members, let_go, sleeps_elsewhere, some_left};
use crate::seq_facts::{lemma_filter_agree, lemma_filter_keeps_all, lemma_filter_members, lemma_filter_no_duplicates};
use crate::time::Moment;
use crate::tokens::{FilterOp, ParkToken, UnparkResult, UnparkToken};
use crate::validity::lemma_valid_unparked;
use vstd::prelude::*;

verus! {

/// The lot after some threads of a bucket have been let go with a token. If
/// there are any, the bucket was asked whether the operation should be fair.
pub open spec fn released(
    before: LotView,
    after: LotView,
    bucket: int,
    gone: Seq<usize>,
    token: UnparkToken,
    be_fair: bool,
) -> bool {
    if gone.len() == 0 {
        !be_fair && after == before
    } else {
        exists|asked: LotView| #[trigger]
            fairness(before, asked, bucket, be_fair) && after == asked.unparked(
                bucket,
                gone,
                token,
            )
    }
}

/// The first thread of a queue, if there is one.
pub open spec fn front(queue: Seq<usize>) -> Seq<usize> {
    if queue.len() > 0 {
        queue.take(1)
    } else {
        queue
    }
}

/// Releasing threads keeps the lot valid.
pub proof fn lemma_valid_released(
    before: LotView,
    after: LotView,
    bucket: int,
    gone: Seq<usize>,
    token: UnparkToken,
    be_fair: bool,
)
    requires
        before.valid(),
        0 <= bucket < before.buckets.len(),
        released(before, after, bucket, gone, token, be_fair),
        forall|t: usize| #[trigger] gone.contains(t) ==> before.queue(bucket).contains(t),
    ensures
        after.valid(),
        after.buckets.len() == before.buckets.len(),
        forall|b: int|
            0 <= b < before.buckets.len() ==> (#[trigger] after.buckets[b]).locked
                == before.buckets[b].locked,
{
    if gone.len() > 0 {
        let asked = choose|asked: LotView| #[trigger]
            fairness(before, asked, bucket, be_fair) && after == asked.unparked(
                bucket,
                gone,
                token,
            );
        lemma_valid_asked(before, asked, bucket, be_fair);
        lemma_valid_unparked(asked, bucket, gone, token);
    }
}

/// Asking a bucket whether to be fair changes nothing else.
pub(crate) proof fn lemma_valid_asked(before: LotView, asked: LotView, bucket: int, be_fair: bool)
    requires
        before.valid(),
        0 <= bucket < before.buckets.len(),
        fairness(before, asked, bucket, be_fair),
    ensures
        asked.valid(),
        asked.queue(bucket) == before.queue(bucket),
        asked.threads == before.threads,
{
    assert(before.bucket_valid(bucket));
    law_seed_stays_nonzero(before.buckets[bucket].fair.seed);
    lemma_valid_bucket(before, bucket, asked.buckets[bucket]);
    lemma_valid_at(before.with_bucket(bucket, asked.buckets[bucket]), asked.latest);
}

/// A result that `unpark_one` can have with these sleepers.
pub open spec fn is_one_result(sleepers: Seq<usize>, result: UnparkResult) -> bool {
    &&& result.unparked_threads == front(sleepers).len()
    &&& result.requeued_threads == 0
    &&& result.have_more_threads == (sleepers.len() > 1)
    &&& sleepers.len() == 0 ==> !result.be_fair
}

/// The first sleeper of a key has been let go with a token.
pub open spec fn one_unparked(
    before: LotView,
    after: LotView,
    bucket: int,
    key: usize,
    token: UnparkToken,
    result: UnparkResult,
    thread: Option<usize>,
) -> bool {
    let sleepers = before.parked_on(key);
    &&& is_one_result(sleepers, result)
    &&& thread == at(sleepers, 0)
    &&& released(before, after, bucket, front(sleepers), token, result.be_fair)
}

/// What `unpark_one` does.
pub open spec fn unpark_one_done<C: FnOnce(UnparkResult) -> UnparkToken>(
    before: LotView,
    after: LotView,
    bucket: int,
    key: usize,
    callback: C,
    result: UnparkResult,
    thread: Option<usize>,
) -> bool {
    exists|token: UnparkToken, gone: LotView|
        #![trigger call_ensures(callback, (result,), token), gone.with_lock(bucket, false)]
        {
            &&& call_ensures(callback, (result,), token)
            &&& one_unparked(before, gone, bucket, key, token, result, thread)
            &&& after == gone.with_lock(bucket, false)
        }
}

/// Unparks one thread from the queue associated with the given key, whose
/// bucket the caller has locked.
///
/// The `callback` function is called while the queue is locked and before the
/// target thread is woken up. The `UnparkResult` argument to the function
/// indicates whether a thread was found in the queue and whether this was the
/// last thread in the queue. This value is also returned by `unpark_one`,
/// together with the thread.
///
/// The `callback` function should return an `UnparkToken` value which will be
/// passed to the thread that is unparked. If no thread is unparked then the
/// returned value is ignored.
pub fn unpark_one<C: FnOnce(UnparkResult) -> UnparkToken>(
    lot: &mut ParkingLot,
    bucket: LockedBucket,
    key: usize,
    callback: C,
) -> (unparked: (UnparkResult, Option<usize>))
    requires
        old(lot).wf(),
        old(lot)@.holds(bucket.bucket()),
        bucket.bucket() == old(lot)@.bucket_of(key),
        forall|result: UnparkResult|
            is_one_result(old(lot)@.parked_on(key), result) ==> #[trigger] call_requires(
                callback,
                (result,),
            ),
    ensures
        final(lot).wf(),
        unpark_one_done(
            old(lot)@,
            final(lot)@,
            bucket.bucket(),
            key,
            callback,
            unparked.0,
            unparked.1,
        ),
{
    let ghost before = lot@;
    let ghost sleepers = before.parked_on(key);
    let mut result = UnparkResult::default();
    proof {
        lemma_separate(before);
        lemma_sleepers(before, key);
    }

    // Find a thread with a matching key and remove it from the queue
    match lot.take_first(bucket.index, key) {
        Some((thread, more)) => {
            let ghost gone = front(sleepers);
            let ghost taken = lot@;
            proof {
                assert(sleepers.contains(sleepers[0]));
                assert(gone =~= seq![thread]);
            }
            result.have_more_threads = more;

            // Invoke the callback before waking up the thread
            result.unparked_threads = 1;
            result.be_fair = lot.should_timeout(bucket.index);
            let ghost asked = lot@;
            let token = callback(result);
            lot.let_thread_go(thread, token);
            proof {
                lemma_released(
                    before,
                    taken,
                    asked,
                    lot@,
                    bucket.bucket(),
                    gone,
                    token,
                    result.be_fair,
                );
                lemma_valid_released(
                    before,
                    lot@,
                    bucket.bucket(),
                    gone,
                    token,
                    result.be_fair,
                );
            }
            let ghost gone_lot = lot@;
            lot.unlock_bucket(bucket);
            proof {
                assert(one_unparked(
                    before,
                    gone_lot,
                    bucket.bucket(),
                    key,
                    token,
                    result,
                    Some(thread),
                ));
            }
            (result, Some(thread))
        },
        None => {
            // No threads with a matching key were found in the bucket
            let token = callback(result);
            lot.unlock_bucket(bucket);
            proof {
                assert(one_unparked(
                    before,
                    before,
                    bucket.bucket(),
                    key,
                    token,
                    result,
                    None,
                ));
            }
            (result, None)
        },
    }
}

/// The sleepers of a key are in its bucket, each once.
pub(crate) proof fn lemma_sleepers(lot: LotView, key: usize)
    requires
        lot.valid(),
        lot.has_table(),
    ensures
        0 <= lot.bucket_of(key) < lot.buckets.len(),
        lot.parked_on(key).no_duplicates(),
        forall|t: usize| #[trigger]
            lot.parked_on(key).contains(t) <==> lot.queue(lot.bucket_of(key)).contains(t)
                && lot.threads[t as int].key == key,
        forall|t: usize| #[trigger] lot.parked_on(key).contains(t) ==> lot.is_thread(t),
        forall|i: int|
            0 <= i < lot.parked_on(key).len() ==> #[trigger] lot.parked_on(key)[i]
                < lot.threads.len(),
{
    lemma_bucket_in_range(lot, key);
    let b = lot.bucket_of(key);
    assert(lot.bucket_valid(b));
    lemma_filter_members(lot.queue(b), sleeps_on(lot.threads, key));
    lemma_filter_no_duplicates(lot.queue(b), sleeps_on(lot.threads, key));
    assert forall|i: int| 0 <= i < lot.parked_on(key).len() implies #[trigger] lot.parked_on(key)[i]
        < lot.threads.len() by {
        assert(lot.parked_on(key).contains(lot.parked_on(key)[i]));
    }
}

/// Taking threads out of their queue, asking whether to be fair and letting
/// them go is to release them.
pub(crate) proof fn lemma_released(
    before: LotView,
    taken: LotView,
    asked: LotView,
    after: LotView,
    bucket: int,
    gone: Seq<usize>,
    token: UnparkToken,
    be_fair: bool,
)
    requires
        0 <= bucket < before.buckets.len(),
        gone.len() > 0,
        taken == before.with_queue(bucket, without(before.queue(bucket), gone)),
        fairness(taken, asked, bucket, be_fair),
        after == asked.with_threads(woken(asked.threads, gone, token)),
    ensures
        released(before, after, bucket, gone, token, be_fair),
{
    let now = choose|now: Moment|
        taken.reads(now) && be_fair == taken.buckets[bucket].fair.due(now) && asked
            == #[trigger] taken.asked_at(bucket, now);
    let first = before.asked_at(bucket, now);
    assert(fairness(before, first, bucket, be_fair));
    assert(after =~= first.unparked(bucket, gone, token));
}

/// Unparks all threads in the queue associated with the given key, whose
/// bucket the caller has locked.
///
/// The given `UnparkToken` is passed to all unparked threads.
///
/// This function returns the number of threads that were unparked, together
/// with the threads.
pub fn unpark_all(
    lot: &mut ParkingLot,
    bucket: LockedBucket,
    key: usize,
    unpark_token: UnparkToken,
) -> (unparked: (usize, Vec<usize>))
    requires
        old(lot).wf(),
        old(lot)@.holds(bucket.bucket()),
        bucket.bucket() == old(lot)@.bucket_of(key),
    ensures
        final(lot).wf(),
        unparked.0 == old(lot)@.parked_on(key).len(),
        unparked.1@ == old(lot)@.parked_on(key),
        final(lot)@ == old(lot)@.unparked(
            bucket.bucket(),
            old(lot)@.parked_on(key),
            unpark_token,
        ).with_lock(bucket.bucket(), false),
{
    let ghost before = lot@;
    let ghost gone = before.parked_on(key);
    proof {
        lemma_separate(before);
        lemma_sleepers(before, key);
        lemma_without_sleepers(before.queue(bucket.bucket()), before, key);
        lemma_valid_unparked(before, bucket.bucket(), gone, unpark_token);
    }

    // Remove all threads with the given key in the bucket
    let threads = lot.take_all(bucket.index, key, unpark_token);
    assert(lot@ =~= before.unparked(bucket.bucket(), gone, unpark_token));
    lot.unlock_bucket(bucket);

    // Now that we are outside the lock, all the threads that we removed from
    // the queue can be woken up.
    let num_threads = threads.len();
    (num_threads, threads.into_threads())
}

/// A queue without those that sleep on a key.
proof fn lemma_without_sleepers(queue: Seq<usize>, lot: LotView, key: usize)
    ensures
        queue.filter(sleeps_elsewhere(lot.threads, key)) == without(
            queue,
            queue.filter(sleeps_on(lot.threads, key)),
        ),
{
    let gone = queue.filter(sleeps_on(lot.threads, key));
    let p = sleeps_elsewhere(lot.threads, key);
    let q = |t: usize| !gone.contains(t);
    lemma_filter_members(queue, sleeps_on(lot.threads, key));
    assert forall|i: int| 0 <= i < queue.len() implies p(#[trigger] queue[i]) == q(queue[i]) by {
        assert(queue.contains(queue[i]));
    }
    lemma_filter_agree(queue, p, q);
}

/// A result that `unpark_filter` can have with these answers of the filter.
pub open spec fn is_filter_result(
    sleepers: Seq<usize>,
    answers: Seq<FilterOp>,
    result: UnparkResult,
) -> bool {
    let gone = let_go(sleepers, answers);
    &&& result.unparked_threads == gone.len()
    &&& result.requeued_threads == 0
    &&& result.have_more_threads == (gone.len() > 0 && some_left(answers))
    &&& gone.len() == 0 ==> !result.be_fair
}

/// The sleepers of a key that a filter has picked have been let go with a token.
pub open spec fn filter_unparked(
    before: LotView,
    after: LotView,
    bucket: int,
    key: usize,
    answers: Seq<FilterOp>,
    token: UnparkToken,
    result: UnparkResult,
    threads: Seq<usize>,
) -> bool {
    &&& threads == let_go(before.parked_on(key), answers)
    &&& is_filter_result(before.parked_on(key), answers, result)
    &&& released(before, after, bucket, threads, token, result.be_fair)
}

/// What `unpark_filter` does.
pub open spec fn unpark_filter_done<
    F: FnMut(ParkToken) -> FilterOp,
    C: FnOnce(UnparkResult) -> UnparkToken,
>(
    before: LotView,
    after: LotView,
    bucket: int,
    key: usize,
    filter: F,
    callback: C,
    result: UnparkResult,
    threads: Seq<usize>,
) -> bool {
    exists|answers: Seq<FilterOp>, token: UnparkToken, gone: LotView|
        {
            &&& answered(filter, before.threads, before.parked_on(key), answers)
            &&& call_ensures(callback, (result,), token)
            &&& #[trigger] filter_unparked(
                before,
                gone,
                bucket,
                key,
                answers,
                token,
                result,
                threads,
            )
            &&& after == gone.with_lock(bucket, false)
        }
}

/// Unparks a number of threads from the front of the queue associated with
/// `key` depending on the results of a filter function which inspects the
/// `ParkToken` associated with each thread. The caller has locked the bucket
/// of the key.
///
/// The `filter` function is called for each thread in the queue or until
/// `FilterOp::Stop` is returned. This function is passed the `ParkToken`
/// associated with a particular thread, which is unparked if `FilterOp::Unpark`
/// is returned.
///
/// The `callback` function is also called while the queue is locked. It is
/// passed an `UnparkResult` indicating the number of threads that were unparked
/// and whether there are still parked threads in the queue. This `UnparkResult`
/// value is also returned by `unpark_filter`, together with the threads.
///
/// The `callback` function should return an `UnparkToken` value which will be
/// passed to all threads that are unparked. If no thread is unparked then the
/// returned value is ignored.
pub fn unpark_filter<
    F: FnMut(ParkToken) -> FilterOp,
    C: FnOnce(UnparkResult) -> UnparkToken,
>(
    lot: &mut ParkingLot,
    bucket: LockedBucket,
    key: usize,
    filter: F,
    callback: C,
) -> (unparked: (UnparkResult, Vec<usize>))
    requires
        old(lot).wf(),
        old(lot)@.holds(bucket.bucket()),
        bucket.bucket() == old(lot)@.bucket_of(key),
        forall|t: usize| #[trigger]
            old(lot)@.parked_on(key).contains(t) ==> call_requires(
                filter,
                (old(lot)@.threads[t as int].park_token,),
            ),
        forall|answers: Seq<FilterOp>, result: UnparkResult|
            answered(filter, old(lot)@.threads, old(lot)@.parked_on(key), answers)
                && #[trigger] is_filter_result(old(lot)@.parked_on(key), answers, result)
                ==> call_requires(callback, (result,)),
    ensures
        final(lot).wf(),
        unpark_filter_done(
            old(lot)@,
            final(lot)@,
            bucket.bucket(),
            key,
            filter,
            callback,
            unparked.0,
            unparked.1@,
        ),
{
    let ghost before = lot@;
    let ghost sleepers = before.parked_on(key);
    let mut result = UnparkResult::default();
    proof {
        lemma_separate(before);
        lemma_sleepers(before, key);
    }

    // Go through the queue looking for threads with a matching key
    let (threads, have_more_threads, Ghost(answers)) = lot.take_filtered(
        bucket.index,
        key,
        filter,
    );
    let ghost gone = threads@;
    let ghost taken = lot@;
    proof {
        lemma_let_go_members(sleepers, answers);
        assert forall|t: usize| #[trigger] gone.contains(t) implies sleepers.contains(t) by {
            let i = choose|i: int|
                0 <= i < answers.len() && sleepers.take(answers.len() as int)[i] == t;
            assert(sleepers[i] == t);
        }
        assert forall|i: int| 0 <= i < gone.len() implies #[trigger] gone[i]
            < before.threads.len() by {
            assert(gone.contains(gone[i]));
        }
    }

    // Invoke the callback before waking up the threads
    result.unparked_threads = threads.len();
    if result.unparked_threads != 0 {
        result.have_more_threads = have_more_threads;
        result.be_fair = lot.should_timeout(bucket.index);
    }
    let ghost asked = lot@;
    assert(is_filter_result(sleepers, answers, result));
    let token = callback(result);

    // Pass the token to all threads that are going to be unparked and prepare
    // them for unparking.
    lot.let_threads_go(&threads, token);
    proof {
        if gone.len() == 0 {
            lemma_filter_keeps_all(
                before.queue(bucket.bucket()),
                |t: usize| !gone.contains(t),
            );
            assert(lot@ =~= before);
        } else {
            lemma_released(
                before,
                taken,
                asked,
                lot@,
                bucket.bucket(),
                gone,
                token,
                result.be_fair,
            );
        }
        lemma_valid_released(before, lot@, bucket.bucket(), gone, token, result.be_fair);
        assert(filter_unparked(
            before,
            lot@,
            bucket.bucket(),
            key,
            answers,
            token,
            result,
            gone,
        ));
    }
    lot.unlock_bucket(bucket);
    (result, threads.into_threads())
}

} // verus!
