//! What each operation makes of the threads, the buckets and the clock, field
//! by field, and what it leaves alone.
use crate::fair_timeout::xorshift;
use crate::lot_queues::fairness;
use crate::model::{lemma_bucket_in_range, sleeps_on, LotView};
use crate::park::{lemma_last_thread, timeout_arguments, timeout_result, unparked_result};
use crate::queue_ops::{answered, lemma_push_members, let_go};
use crate::requeue::{requeue_done, requeue_unparked, unpark_requeue_done};
use crate::requeue_walk::{concerned, to_move, to_wake};
use crate::seq_facts::{lemma_filter_agree, lemma_filter_keeps_all, lemma_filter_keeps_none, lemma_filter_nonempty, lemma_filter_twice};
use crate::thread_data::ThreadView;
use crate::time::{law_clock_reads_whole_duration, measured, Moment};
use crate::tokens::{nothing_unparked, FilterOp, ParkResult, ParkToken, RequeueOp, UnparkResult, UnparkToken};
use crate::unpark::{filter_unparked, front, lemma_sleepers, one_unparked, released, unpark_filter_done, unpark_one_done};
use vstd::prelude::*;

verus! {

/// A thread that parks is recorded with the key, the park token and the kind
/// of wait that it was given, whatever these are, and comes last in the bucket
/// of the key, which is unlocked. All else stays as it was.
pub proof fn law_park_records_its_arguments(
    before: LotView,
    after: LotView,
    bucket: int,
    thread: usize,
    key: usize,
    park_token: ParkToken,
    with_timeout: bool,
)
    requires
        0 <= bucket < before.buckets.len(),
        bucket == before.bucket_of(key),
        thread < before.threads.len(),
        after == before.parked(thread, key, park_token, with_timeout).with_lock(bucket, false),
    ensures
        after.threads[thread as int].park_token == park_token,
        after.threads[thread as int].key == key,
        after.threads[thread as int].parked_with_timeout == with_timeout,
        after.threads[thread as int].parked,
        after.threads[thread as int].live == before.threads[thread as int].live,
        after.threads[thread as int].unpark_token == before.threads[thread as int].unpark_token,
        after.threads[thread as int].deadlock == before.threads[thread as int].deadlock,
        after.threads.len() == before.threads.len(),
        forall|t: int|
            0 <= t < before.threads.len() && t != thread ==> #[trigger] after.threads[t]
                == before.threads[t],
        after.buckets[bucket].queue == before.buckets[bucket].queue.push(thread),
        !after.buckets[bucket].locked,
        after.buckets[bucket].fair == before.buckets[bucket].fair,
        after.buckets.len() == before.buckets.len(),
        forall|b: int|
            0 <= b < before.buckets.len() && b != bucket ==> #[trigger] after.buckets[b]
                == before.buckets[b],
        after.hash_bits == before.hash_bits,
        after.num_threads == before.num_threads,
        after.started == before.started,
        after.latest == before.latest,
{
}

/// Taking or freeing the lock of a bucket changes nothing else.
pub proof fn law_lock_changes_nothing_else(lot: LotView, bucket: int, locked: bool)
    requires
        0 <= bucket < lot.buckets.len(),
    ensures
        lot.with_lock(bucket, locked).buckets[bucket].locked == locked,
        lot.with_lock(bucket, locked).buckets[bucket].queue == lot.buckets[bucket].queue,
        lot.with_lock(bucket, locked).buckets[bucket].fair == lot.buckets[bucket].fair,
        lot.with_lock(bucket, locked).buckets.len() == lot.buckets.len(),
        forall|b: int|
            0 <= b < lot.buckets.len() && b != bucket
                ==> #[trigger] lot.with_lock(bucket, locked).buckets[b] == lot.buckets[b],
        lot.with_lock(bucket, locked).threads == lot.threads,
        lot.with_lock(bucket, locked).hash_bits == lot.hash_bits,
        lot.with_lock(bucket, locked).num_threads == lot.num_threads,
        lot.with_lock(bucket, locked).started == lot.started,
        lot.with_lock(bucket, locked).latest == lot.latest,
{
}

/// Taking or freeing all locks changes nothing else.
pub proof fn law_locks_change_nothing_else(lot: LotView, locked: bool)
    ensures
        lot.with_locks(locked).buckets.len() == lot.buckets.len(),
        forall|b: int|
            0 <= b < lot.buckets.len() ==> {
                &&& (#[trigger] lot.with_locks(locked).buckets[b]).locked == locked
                &&& lot.with_locks(locked).buckets[b].queue == lot.buckets[b].queue
                &&& lot.with_locks(locked).buckets[b].fair == lot.buckets[b].fair
            },
        lot.with_locks(locked).threads == lot.threads,
        lot.with_locks(locked).hash_bits == lot.hash_bits,
        lot.with_locks(locked).num_threads == lot.num_threads,
        lot.with_locks(locked).started == lot.started,
        lot.with_locks(locked).latest == lot.latest,
{
}

/// The sleepers of a key, by the records of the threads in its bucket.
proof fn lemma_raw_sleepers(lot: LotView, key: usize)
    requires
        lot.has_table(),
    ensures
        lot.parked_on(key) == lot.buckets[lot.bucket_of(key)].queue.filter(
            |t: usize| lot.threads[t as int].key == key,
        ),
{
    lemma_filter_agree(
        lot.queue(lot.bucket_of(key)),
        sleeps_on(lot.threads, key),
        |t: usize| lot.threads[t as int].key == key,
    );
}

/// What becomes of the lot when threads of a bucket are let go. If there are
/// any, the clock is read, and it decides whether to be fair.
proof fn lemma_release(
    before: LotView,
    after: LotView,
    bucket: int,
    gone: Seq<usize>,
    token: UnparkToken,
    be_fair: bool,
) -> (asked: (u64, u32))
    requires
        0 <= bucket < before.buckets.len(),
        before.threads.len() <= usize::MAX,
        released(before, after, bucket, gone, token, be_fair),
    ensures
        gone.len() == 0 ==> !be_fair && after == before,
        gone.len() > 0 ==> {
            &&& measured(before.started, asked.0, asked.1)
            &&& after.latest.nanos >= before.latest.nanos
            &&& after.latest.nanos >= asked.0 * 1_000_000_000 + asked.1
            &&& after.latest == before.latest || after.latest.nanos == asked.0 * 1_000_000_000
                + asked.1
            &&& be_fair == (after.latest.nanos > before.buckets[bucket].fair.timeout.nanos)
            &&& !be_fair ==> after.buckets[bucket].fair == before.buckets[bucket].fair
            &&& be_fair ==> after.buckets[bucket].fair.seed
                == xorshift(before.buckets[bucket].fair.seed)
            &&& be_fair ==> after.buckets[bucket].fair.timeout.nanos == after.latest.nanos
                + after.buckets[bucket].fair.seed % 1_000_000
        },
        after.threads.len() == before.threads.len(),
        forall|t: usize| #[trigger]
            gone.contains(t) && t < before.threads.len() ==> {
                &&& !after.threads[t as int].parked
                &&& after.threads[t as int].unpark_token == token
                &&& after.threads[t as int].live == before.threads[t as int].live
                &&& after.threads[t as int].key == before.threads[t as int].key
                &&& after.threads[t as int].park_token == before.threads[t as int].park_token
                &&& after.threads[t as int].parked_with_timeout
                    == before.threads[t as int].parked_with_timeout
                &&& after.threads[t as int].deadlock == before.threads[t as int].deadlock
            },
        forall|t: usize| #![trigger after.threads[t as int]]
            t < before.threads.len() && !gone.contains(t) ==> after.threads[t as int]
                == before.threads[t as int],
        gone.len() > 0 ==> after.buckets[bucket].queue == before.buckets[bucket].queue.filter(
            |t: usize| !gone.contains(t),
        ),
        after.buckets[bucket].locked == before.buckets[bucket].locked,
        after.buckets.len() == before.buckets.len(),
        forall|b: int|
            0 <= b < before.buckets.len() && b != bucket ==> #[trigger] after.buckets[b]
                == before.buckets[b],
        after.hash_bits == before.hash_bits,
        after.num_threads == before.num_threads,
        after.started == before.started,
{
    if gone.len() == 0 {
        (0, 0)
    } else {
        let asked = choose|asked: LotView| #[trigger]
            fairness(before, asked, bucket, be_fair) && after == asked.unparked(
                bucket,
                gone,
                token,
            );
        let now = choose|now: Moment|
            before.reads(now) && be_fair == before.buckets[bucket].fair.due(now) && asked
                == #[trigger] before.asked_at(bucket, now);
        law_clock_reads_whole_duration(before.started, before.latest, now)
    }
}

/// `unpark_one` wakes the first thread in the bucket that sleeps on the key,
/// with the token of the callback, and takes it out of the queue. It counts it,
/// says whether another one sleeps on the key, and asks the clock whether to be
/// fair. Where nobody sleeps on the key, it wakes nobody and asks nothing. The
/// bucket is unlocked, and all else stays as it was.
pub proof fn law_unpark_one_wakes_the_first<C: FnOnce(UnparkResult) -> UnparkToken>(
    before: LotView,
    after: LotView,
    bucket: int,
    key: usize,
    callback: C,
    result: UnparkResult,
    thread: Option<usize>,
) -> (called: (UnparkToken, (u64, u32)))
    requires
        before.valid(),
        before.threads.len() <= usize::MAX,
        0 <= bucket < before.buckets.len(),
        bucket == before.bucket_of(key),
        unpark_one_done(before, after, bucket, key, callback, result, thread),
    ensures
        call_ensures(callback, (result,), called.0),
        result.requeued_threads == 0,
        ({
            let queue = before.buckets[bucket].queue;
            let sleepers = queue.filter(|t: usize| before.threads[t as int].key == key);
            let asked = called.1;
            if sleepers.len() == 0 {
                &&& thread is None
                &&& result.unparked_threads == 0
                &&& !result.have_more_threads
                &&& !result.be_fair
                &&& after.threads == before.threads
                &&& after.latest == before.latest
                &&& after.buckets[bucket].queue == queue
                &&& after.buckets[bucket].fair == before.buckets[bucket].fair
            } else {
                let first = sleepers[0];
                &&& thread == Some(first)
                &&& result.unparked_threads == 1
                &&& result.have_more_threads == (sleepers.len() > 1)
                &&& after.buckets[bucket].queue == queue.filter(|t: usize| t != first)
                &&& after.threads.len() == before.threads.len()
                &&& forall|t: int|
                    0 <= t < before.threads.len() && t != first ==> #[trigger] after.threads[t]
                        == before.threads[t]
                &&& !after.threads[first as int].parked
                &&& after.threads[first as int].unpark_token == called.0
                &&& after.threads[first as int].live == before.threads[first as int].live
                &&& after.threads[first as int].key == before.threads[first as int].key
                &&& after.threads[first as int].park_token
                    == before.threads[first as int].park_token
                &&& after.threads[first as int].parked_with_timeout
                    == before.threads[first as int].parked_with_timeout
                &&& after.threads[first as int].deadlock == before.threads[first as int].deadlock
                &&& measured(before.started, asked.0, asked.1)
                &&& after.latest.nanos >= before.latest.nanos
                &&& after.latest.nanos >= asked.0 * 1_000_000_000 + asked.1
                &&& after.latest == before.latest || after.latest.nanos
                    == asked.0 * 1_000_000_000 + asked.1
                &&& result.be_fair
                    == (after.latest.nanos > before.buckets[bucket].fair.timeout.nanos)
                &&& !result.be_fair ==> after.buckets[bucket].fair == before.buckets[bucket].fair
                &&& result.be_fair ==> after.buckets[bucket].fair.seed
                    == xorshift(before.buckets[bucket].fair.seed)
                &&& result.be_fair ==> after.buckets[bucket].fair.timeout.nanos
                    == after.latest.nanos + after.buckets[bucket].fair.seed % 1_000_000
            }
        }),
        !after.buckets[bucket].locked,
        after.buckets.len() == before.buckets.len(),
        forall|b: int|
            0 <= b < before.buckets.len() && b != bucket ==> #[trigger] after.buckets[b]
                == before.buckets[b],
        after.hash_bits == before.hash_bits,
        after.num_threads == before.num_threads,
        after.started == before.started,
{
    let sleepers = before.parked_on(key);
    lemma_raw_sleepers(before, key);
    lemma_sleepers(before, key);
    let (token, gone) = choose|token: UnparkToken, gone: LotView|
        #![trigger call_ensures(callback, (result,), token), gone.with_lock(bucket, false)]
        {
            &&& call_ensures(callback, (result,), token)
            &&& one_unparked(before, gone, bucket, key, token, result, thread)
            &&& after == gone.with_lock(bucket, false)
        };
    let asked = lemma_release(
        before,
        gone,
        bucket,
        front(sleepers),
        token,
        result.be_fair,
    );
    if sleepers.len() > 0 {
        let first = sleepers[0];
        assert(sleepers.contains(first));
        assert(front(sleepers) =~= seq![first]);
        assert(front(sleepers).contains(first)) by {
            assert(seq![first][0] == first);
        }
        assert forall|t: int| 0 <= t < before.threads.len() && t != first
            implies #[trigger] after.threads[t]
            == before.threads[t] by {
            assert(!front(sleepers).contains(t as usize));
            assert(gone.threads[t as usize as int] == before.threads[t as usize as int]);
        }
        lemma_filter_agree(
            before.buckets[bucket].queue,
            |t: usize| !front(sleepers).contains(t),
            |t: usize| t != first,
        );
    }
    (token, asked)
}

/// `unpark_all` wakes everybody in the bucket who sleeps on the key, in order
/// and with the given token. The others stay in the queue, in order. The
/// bucket is unlocked, and all else stays as it was.
pub proof fn law_unpark_all_wakes_everybody(
    before: LotView,
    after: LotView,
    bucket: int,
    key: usize,
    token: UnparkToken,
)
    requires
        before.valid(),
        before.threads.len() <= usize::MAX,
        0 <= bucket < before.buckets.len(),
        bucket == before.bucket_of(key),
        after == before.unparked(bucket, before.parked_on(key), token).with_lock(bucket, false),
    ensures
        before.parked_on(key) == before.buckets[bucket].queue.filter(
            |t: usize| before.threads[t as int].key == key,
        ),
        after.buckets[bucket].queue == before.buckets[bucket].queue.filter(
            |t: usize| before.threads[t as int].key != key,
        ),
        after.threads.len() == before.threads.len(),
        forall|t: usize| #[trigger]
            before.buckets[bucket].queue.contains(t) && before.threads[t as int].key == key ==> {
                &&& !after.threads[t as int].parked
                &&& after.threads[t as int].unpark_token == token
                &&& after.threads[t as int].live == before.threads[t as int].live
                &&& after.threads[t as int].key == before.threads[t as int].key
                &&& after.threads[t as int].park_token == before.threads[t as int].park_token
                &&& after.threads[t as int].parked_with_timeout
                    == before.threads[t as int].parked_with_timeout
                &&& after.threads[t as int].deadlock == before.threads[t as int].deadlock
            },
        forall|t: usize| #![trigger after.threads[t as int]]
            t < before.threads.len() && !(before.buckets[bucket].queue.contains(t)
                && before.threads[t as int].key == key) ==> after.threads[t as int]
                == before.threads[t as int],
        after.buckets[bucket].fair == before.buckets[bucket].fair,
        !after.buckets[bucket].locked,
        after.buckets.len() == before.buckets.len(),
        forall|b: int|
            0 <= b < before.buckets.len() && b != bucket ==> #[trigger] after.buckets[b]
                == before.buckets[b],
        after.hash_bits == before.hash_bits,
        after.num_threads == before.num_threads,
        after.started == before.started,
        after.latest == before.latest,
{
    let queue = before.buckets[bucket].queue;
    let sleepers = before.parked_on(key);
    lemma_raw_sleepers(before, key);
    lemma_sleepers(before, key);
    let p = |t: usize| !sleepers.contains(t);
    let q = |t: usize| before.threads[t as int].key != key;
    assert forall|i: int| 0 <= i < queue.len() implies p(#[trigger] queue[i]) == q(queue[i]) by {
        assert(queue.contains(queue[i]));
    }
    lemma_filter_agree(queue, p, q);
    assert forall|t: usize| #[trigger]
        queue.contains(t) && before.threads[t as int].key == key implies t
        < before.threads.len() && sleepers.contains(t) by {
        assert(sleepers.contains(t));
    }
}

/// `unpark_filter` asks the filter about the threads in the bucket that sleep
/// on the key, in order, each by the park token in its record, until it stops
/// or all have been asked about. Those for which it answers so are woken, in
/// order, with the token of the callback; they are counted, and if there are
/// any, it is said whether the filter has left one that it was asked about,
/// and the clock is asked whether to be fair. The bucket is unlocked, and all
/// else stays as it was.
pub proof fn law_unpark_filter_wakes_those_answered<
    F: FnMut(ParkToken) -> FilterOp,
    C: FnOnce(UnparkResult) -> UnparkToken,
>(
    before: LotView,
    after: LotView,
    bucket: int,
    key: usize,
    filter: F,
    callback: C,
    result: UnparkResult,
    threads: Seq<usize>,
) -> (called: (Seq<FilterOp>, UnparkToken, (u64, u32)))
    requires
        before.valid(),
        before.threads.len() <= usize::MAX,
        0 <= bucket < before.buckets.len(),
        bucket == before.bucket_of(key),
        unpark_filter_done(before, after, bucket, key, filter, callback, result, threads),
    ensures
        ({
            let queue = before.buckets[bucket].queue;
            let sleepers = queue.filter(|t: usize| before.threads[t as int].key == key);
            let answers = called.0;
            let asked = called.2;
            &&& answers.len() <= sleepers.len()
            &&& forall|i: int|
                0 <= i < answers.len() ==> call_ensures(
                    filter,
                    (before.threads[sleepers[i] as int].park_token,),
                    #[trigger] answers[i],
                )
            &&& forall|i: int|
                0 <= i < answers.len() - 1 ==> #[trigger] answers[i] != FilterOp::Stop
            &&& answers.len() < sleepers.len() ==> answers.len() > 0 && answers.last()
                == FilterOp::Stop
            &&& forall|i: int|
                0 <= i < sleepers.len() ==> (threads.contains(#[trigger] sleepers[i]) <==> i
                    < answers.len() && answers[i] == FilterOp::Unpark)
            &&& forall|t: usize| #[trigger] threads.contains(t) ==> sleepers.contains(t)
            &&& threads == sleepers.filter(|t: usize| threads.contains(t))
            &&& call_ensures(callback, (result,), called.1)
            &&& result.unparked_threads == threads.len()
            &&& result.requeued_threads == 0
            &&& result.have_more_threads == (threads.len() > 0 && exists|i: int|
                0 <= i < answers.len() && #[trigger] answers[i] != FilterOp::Unpark)
            &&& after.buckets[bucket].queue == queue.filter(|t: usize| !threads.contains(t))
            &&& after.threads.len() == before.threads.len()
            &&& forall|t: usize| #[trigger]
                threads.contains(t) ==> {
                    &&& !after.threads[t as int].parked
                    &&& after.threads[t as int].unpark_token == called.1
                    &&& after.threads[t as int].live == before.threads[t as int].live
                    &&& after.threads[t as int].key == before.threads[t as int].key
                    &&& after.threads[t as int].park_token == before.threads[t as int].park_token
                    &&& after.threads[t as int].parked_with_timeout
                        == before.threads[t as int].parked_with_timeout
                    &&& after.threads[t as int].deadlock == before.threads[t as int].deadlock
                }
            &&& forall|t: usize| #![trigger after.threads[t as int]]
                t < before.threads.len() && !threads.contains(t) ==> after.threads[t as int]
                    == before.threads[t as int]
            &&& threads.len() > 0 ==> {
                &&& measured(before.started, asked.0, asked.1)
                &&& after.latest.nanos >= before.latest.nanos
                &&& after.latest.nanos >= asked.0 * 1_000_000_000 + asked.1
                &&& after.latest == before.latest || after.latest.nanos
                    == asked.0 * 1_000_000_000 + asked.1
                &&& result.be_fair
                    == (after.latest.nanos > before.buckets[bucket].fair.timeout.nanos)
                &&& !result.be_fair ==> after.buckets[bucket].fair == before.buckets[bucket].fair
                &&& result.be_fair ==> after.buckets[bucket].fair.seed
                    == xorshift(before.buckets[bucket].fair.seed)
                &&& result.be_fair ==> after.buckets[bucket].fair.timeout.nanos
                    == after.latest.nanos + after.buckets[bucket].fair.seed % 1_000_000
            }
            &&& threads.len() == 0 ==> {
                &&& !result.be_fair
                &&& after.latest == before.latest
                &&& after.buckets[bucket].fair == before.buckets[bucket].fair
            }
        }),
        !after.buckets[bucket].locked,
        after.buckets.len() == before.buckets.len(),
        forall|b: int|
            0 <= b < before.buckets.len() && b != bucket ==> #[trigger] after.buckets[b]
                == before.buckets[b],
        after.hash_bits == before.hash_bits,
        after.num_threads == before.num_threads,
        after.started == before.started,
{
    let queue = before.buckets[bucket].queue;
    let sleepers = before.parked_on(key);
    lemma_raw_sleepers(before, key);
    lemma_sleepers(before, key);
    let (answers, token, gone) = choose|answers: Seq<FilterOp>, token: UnparkToken, gone: LotView|
        {
            &&& answered(filter, before.threads, before.parked_on(key), answers)
            &&& call_ensures(callback, (result,), token)
            &&& #[trigger] filter_unparked(
                before,
                gone,
                bucket,
                key,
                answers,
                token,
                result,
                threads,
            )
            &&& after == gone.with_lock(bucket, false)
        };
    lemma_picks(sleepers, answers, answers.len() as int);
    assert(answers.take(answers.len() as int) =~= answers);
    assert(sleepers.take(answers.len() as int) + sleepers.skip(answers.len() as int) =~= sleepers);
    assert forall|t: usize| #[trigger] threads.contains(t) implies t < before.threads.len() by {
        assert(sleepers.contains(t));
    }
    let asked = lemma_release(before, gone, bucket, threads, token, result.be_fair);
    if threads.len() == 0 {
        lemma_filter_keeps_all(queue, |t: usize| !threads.contains(t));
    }
    (answers, token, asked)
}

/// The sleepers that a filter lets go, by its answers.
proof fn lemma_picks(sleepers: Seq<usize>, answers: Seq<FilterOp>, n: int)
    requires
        sleepers.no_duplicates(),
        0 <= n <= answers.len() <= sleepers.len(),
    ensures
        ({
            let threads = let_go(sleepers, answers.take(n));
            &&& forall|i: int|
                0 <= i < sleepers.len() ==> (threads.contains(#[trigger] sleepers[i]) <==> i < n
                    && answers[i] == FilterOp::Unpark)
            &&& forall|t: usize| #[trigger] threads.contains(t) ==> sleepers.contains(t)
            &&& threads == sleepers.filter(|t: usize| threads.contains(t))
        }),
    decreases n,
{
    let threads = let_go(sleepers, answers.take(n));
    if n == 0 {
        lemma_filter_keeps_none(sleepers, |t: usize| threads.contains(t));
    } else {
        lemma_picks(sleepers, answers, n - 1);
        let fewer = let_go(sleepers, answers.take(n - 1));
        assert(answers.take(n).drop_last() =~= answers.take(n - 1));
        let t = sleepers[n - 1];
        lemma_push_members(fewer, t);
        let front = sleepers.take(n - 1);
        let back = sleepers.skip(n);
        assert(sleepers =~= front.push(t) + back);
        let p = |x: usize| fewer.contains(x);
        let q = |x: usize| threads.contains(x);
        if answers[n - 1] == FilterOp::Unpark {
            assert(threads == fewer.push(t));
        } else {
            assert(threads == fewer);
        }
        assert forall|i: int| 0 <= i < sleepers.len() implies (threads.contains(
            #[trigger] sleepers[i],
        ) <==> i < n && answers[i] == FilterOp::Unpark) by {
            assert(fewer.contains(sleepers[i]) <==> i < n - 1 && answers[i] == FilterOp::Unpark);
        }
        assert(threads == sleepers.filter(q)) by {
            Seq::filter_distributes_over_add(front.push(t), back, p);
            Seq::filter_distributes_over_add(front.push(t), back, q);
            front.lemma_filter_push(t, p);
            front.lemma_filter_push(t, q);
            assert forall|i: int| 0 <= i < front.len() implies p(#[trigger] front[i])
                == q(front[i]) by {
                assert(front[i] == sleepers[i]);
            }
            lemma_filter_agree(front, p, q);
            assert forall|i: int| 0 <= i < back.len() implies !p(#[trigger] back[i]) && !q(
                back[i],
            ) by {
                assert(back[i] == sleepers[i + n]);
            }
            lemma_filter_keeps_none(back, p);
            lemma_filter_keeps_none(back, q);
            assert(!p(t)) by {
                assert(sleepers[n - 1] == t);
            }
            assert(q(t) <==> answers[n - 1] == FilterOp::Unpark);
            assert(fewer =~= front.filter(p));
        }
    }
}

/// A thread whose timeout is reached while it sleeps has timed out: it is told
/// its key and whether nobody else in the bucket sleeps on it, leaves the queue
/// and is awake. One that was unparked before goes on with the token in its
/// record, and nothing but the lock of the bucket changes.
pub proof fn law_timeout_takes_the_thread_out(
    before: LotView,
    after: LotView,
    bucket: int,
    thread: usize,
)
    requires
        before.valid(),
        before.threads.len() <= usize::MAX,
        0 <= bucket < before.buckets.len(),
        before.is_thread(thread),
        bucket == before.bucket_of(before.threads[thread as int].key),
        before.threads[thread as int].parked_with_timeout,
        after == if before.threads[thread as int].parked {
            before.unparked(
                bucket,
                seq![thread],
                before.threads[thread as int].unpark_token,
            ).with_lock(bucket, false)
        } else {
            before.with_lock(bucket, false)
        },
    ensures
        before.threads[thread as int].parked ==> {
            let key = before.threads[thread as int].key;
            &&& timeout_result(before, thread) == ParkResult::TimedOut
            &&& timeout_arguments(before, thread).0 == key
            &&& timeout_arguments(before, thread).1 <==> forall|t: usize| #[trigger]
                before.buckets[bucket].queue.contains(t) && t != thread
                    ==> before.threads[t as int].key != key
            &&& before.buckets[bucket].queue.contains(thread)
            &&& after.buckets[bucket].queue == before.buckets[bucket].queue.filter(
                |t: usize| t != thread,
            )
            &&& !after.threads[thread as int].parked
            &&& after.threads[thread as int].unpark_token
                == before.threads[thread as int].unpark_token
            &&& after.threads[thread as int].live == before.threads[thread as int].live
            &&& after.threads[thread as int].key == before.threads[thread as int].key
            &&& after.threads[thread as int].park_token == before.threads[thread as int].park_token
            &&& after.threads[thread as int].parked_with_timeout
                == before.threads[thread as int].parked_with_timeout
            &&& after.threads[thread as int].deadlock == before.threads[thread as int].deadlock
        },
        !before.threads[thread as int].parked ==> {
            &&& timeout_result(before, thread) == ParkResult::Unparked(
                before.threads[thread as int].unpark_token,
            )
            &&& after.threads[thread as int] == before.threads[thread as int]
            &&& after.buckets[bucket].queue == before.buckets[bucket].queue
        },
        after.threads.len() == before.threads.len(),
        forall|t: int|
            0 <= t < before.threads.len() && t != thread ==> #[trigger] after.threads[t]
                == before.threads[t],
        after.buckets[bucket].fair == before.buckets[bucket].fair,
        !after.buckets[bucket].locked,
        after.buckets.len() == before.buckets.len(),
        forall|b: int|
            0 <= b < before.buckets.len() && b != bucket ==> #[trigger] after.buckets[b]
                == before.buckets[b],
        after.hash_bits == before.hash_bits,
        after.num_threads == before.num_threads,
        after.started == before.started,
        after.latest == before.latest,
{
    let gone = seq![thread];
    assert(gone[0] == thread);
    assert(before.thread_valid(thread));
    assert forall|t: int| 0 <= t < before.threads.len() && t != thread
        implies #[trigger] after.threads[t]
        == before.threads[t] by {
        assert(!gone.contains(t as usize));
    }
    if before.threads[thread as int].parked {
        lemma_last_thread(before, thread);
        lemma_filter_agree(
            before.buckets[bucket].queue,
            |t: usize| !gone.contains(t),
            |t: usize| t != thread,
        );
    }
}

/// A thread that was unparked goes on with the token in its record.
pub proof fn law_unparked_thread_gets_its_token(lot: LotView, thread: usize)
    ensures
        unparked_result(lot, thread) == ParkResult::Unparked(
            lot.threads[thread as int].unpark_token,
        ),
{
}

/// Moving threads to another key, bucket by bucket.
proof fn lemma_moved(before: LotView, key_from: usize, key_to: usize, moved: Seq<usize>)
    requires
        before.valid(),
        before.has_table(),
        before.threads.len() <= usize::MAX,
        forall|t: usize| #[trigger]
            moved.contains(t) ==> before.buckets[before.bucket_of(key_from)].queue.contains(t),
    ensures
        ({
            let from = before.bucket_of(key_from);
            let to = before.bucket_of(key_to);
            let after = before.requeued(from, moved, key_to);
            &&& 0 <= from < before.buckets.len() && 0 <= to < before.buckets.len()
            &&& after.buckets.len() == before.buckets.len()
            &&& after.threads.len() == before.threads.len()
            &&& from != to ==> after.buckets[from].queue == before.buckets[from].queue.filter(
                |t: usize| !moved.contains(t),
            ) && after.buckets[to].queue == before.buckets[to].queue + moved
            &&& from == to ==> after.buckets[from].queue == before.buckets[from].queue.filter(
                |t: usize| !moved.contains(t),
            ) + moved
            &&& forall|b: int|
                0 <= b < before.buckets.len() ==> {
                    &&& (#[trigger] after.buckets[b]).locked == before.buckets[b].locked
                    &&& after.buckets[b].fair == before.buckets[b].fair
                    &&& b != from && b != to ==> after.buckets[b].queue == before.buckets[b].queue
                }
            &&& forall|t: usize| #![trigger after.threads[t as int]]
                t < before.threads.len() ==> after.threads[t as int] == if moved.contains(t) {
                    ThreadView { key: key_to, ..before.threads[t as int] }
                } else {
                    before.threads[t as int]
                }
        }),
{
    lemma_bucket_in_range(before, key_from);
    lemma_bucket_in_range(before, key_to);
}

/// `unpark_requeue` does to the threads in the bucket of the first key that
/// sleep on it what the operation says: it wakes the first of them with the
/// token of the callback, moves the others or the first one to the end of the
/// bucket of the second key, or leaves them. A thread that is moved sleeps on
/// the second key from then on, and is otherwise as it was. What was done is
/// counted, and if a thread was woken, the clock is asked whether to be fair.
/// Both buckets are unlocked, and all else stays as it was.
#[verifier::rlimit(50)]
pub proof fn law_unpark_requeue_does_what_it_is_told<
    V: FnOnce() -> RequeueOp,
    C: FnOnce(RequeueOp, UnparkResult) -> UnparkToken,
>(
    before: LotView,
    after: LotView,
    key_from: usize,
    key_to: usize,
    validate: V,
    callback: C,
    result: UnparkResult,
    thread: Option<usize>,
) -> (called: (RequeueOp, UnparkToken, (u64, u32)))
    requires
        before.valid(),
        before.has_table(),
        before.threads.len() <= usize::MAX,
        unpark_requeue_done(
            before,
            after,
            key_from,
            key_to,
            validate,
            callback,
            result,
            thread,
        ),
    ensures
        call_ensures(validate, (), called.0),
        called.0 != RequeueOp::Abort ==> call_ensures(callback, (called.0, result), called.1),
        ({
            let op = called.0;
            let asked = called.2;
            let from = before.bucket_of(key_from);
            let to = before.bucket_of(key_to);
            let queue = before.buckets[from].queue;
            let sleepers = queue.filter(|t: usize| before.threads[t as int].key == key_from);
            let first = sleepers[0];
            let wakes = sleepers.len() > 0 && (op == RequeueOp::UnparkOne || op
                == RequeueOp::UnparkOneRequeueRest);
            let moved = match op {
                RequeueOp::Abort => Seq::empty(),
                RequeueOp::UnparkOne => Seq::empty(),
                RequeueOp::UnparkOneRequeueRest => if sleepers.len() == 0 {
                    sleepers
                } else {
                    sleepers.skip(1)
                },
                RequeueOp::RequeueAll => sleepers,
                RequeueOp::RequeueOne => if sleepers.len() == 0 {
                    sleepers
                } else {
                    seq![first]
                },
            };
            let left = queue.filter(|t: usize| !moved.contains(t) && !(wakes && t == first));
            &&& thread == if wakes {
                Some(first)
            } else {
                None
            }
            &&& result.unparked_threads == if wakes {
                1int
            } else {
                0int
            }
            &&& result.requeued_threads == moved.len()
            &&& result.have_more_threads == (wakes && if op == RequeueOp::UnparkOne {
                sleepers.len() > 1
            } else {
                exists|i: int|
                    0 <= i < after.buckets[to].queue.len() && after.threads[(
                    #[trigger] after.buckets[to].queue[i]) as int].key == key_to
            })
            &&& after.threads.len() == before.threads.len()
            &&& wakes ==> {
                &&& !after.threads[first as int].parked
                &&& after.threads[first as int].unpark_token == called.1
                &&& after.threads[first as int].live == before.threads[first as int].live
                &&& after.threads[first as int].key == before.threads[first as int].key
                &&& after.threads[first as int].park_token
                    == before.threads[first as int].park_token
                &&& after.threads[first as int].parked_with_timeout
                    == before.threads[first as int].parked_with_timeout
                &&& after.threads[first as int].deadlock == before.threads[first as int].deadlock
                &&& measured(before.started, asked.0, asked.1)
                &&& after.latest.nanos >= before.latest.nanos
                &&& after.latest.nanos >= asked.0 * 1_000_000_000 + asked.1
                &&& after.latest == before.latest || after.latest.nanos
                    == asked.0 * 1_000_000_000 + asked.1
                &&& result.be_fair == (after.latest.nanos > before.buckets[from].fair.timeout.nanos)
                &&& !result.be_fair ==> after.buckets[from].fair == before.buckets[from].fair
                &&& result.be_fair ==> after.buckets[from].fair.seed
                    == xorshift(before.buckets[from].fair.seed)
                &&& result.be_fair ==> after.buckets[from].fair.timeout.nanos
                    == after.latest.nanos + after.buckets[from].fair.seed % 1_000_000
            }
            &&& !wakes ==> {
                &&& !result.be_fair
                &&& after.latest == before.latest
                &&& after.buckets[from].fair == before.buckets[from].fair
            }
            &&& forall|t: usize| #[trigger]
                moved.contains(t) ==> {
                    &&& after.threads[t as int].key == key_to
                    &&& after.threads[t as int].live == before.threads[t as int].live
                    &&& after.threads[t as int].parked == before.threads[t as int].parked
                    &&& after.threads[t as int].unpark_token
                        == before.threads[t as int].unpark_token
                    &&& after.threads[t as int].park_token == before.threads[t as int].park_token
                    &&& after.threads[t as int].parked_with_timeout
                        == before.threads[t as int].parked_with_timeout
                    &&& after.threads[t as int].deadlock == before.threads[t as int].deadlock
                }
            &&& forall|t: usize| #![trigger after.threads[t as int]]
                t < before.threads.len() && !moved.contains(t) && !(wakes && t == first)
                    ==> after.threads[t as int] == before.threads[t as int]
            &&& from != to ==> {
                &&& after.buckets[from].queue == left
                &&& after.buckets[to].queue == before.buckets[to].queue + moved
                &&& after.buckets[to].fair == before.buckets[to].fair
            }
            &&& from == to ==> after.buckets[from].queue == left + moved
            &&& !after.buckets[from].locked
            &&& !after.buckets[to].locked
            &&& after.buckets.len() == before.buckets.len()
            &&& forall|b: int|
                0 <= b < before.buckets.len() && b != from && b != to
                    ==> #[trigger] after.buckets[b]
                    == before.buckets[b]
        }),
        after.hash_bits == before.hash_bits,
        after.num_threads == before.num_threads,
        after.started == before.started,
{
    let from = before.bucket_of(key_from);
    let to = before.bucket_of(key_to);
    let queue = before.buckets[from].queue;
    let sleepers = before.parked_on(key_from);
    let first = sleepers[0];
    lemma_raw_sleepers(before, key_from);
    lemma_sleepers(before, key_from);
    lemma_bucket_in_range(before, key_to);
    if sleepers.len() > 0 {
        assert(sleepers.contains(first));
    }
    let op = choose|op: RequeueOp|
        call_ensures(validate, (), op) && #[trigger] requeue_done(
            before,
            after,
            key_from,
            key_to,
            op,
            callback,
            result,
            thread,
        );
    let none = Seq::<usize>::empty();
    if op == RequeueOp::Abort {
        let moved = none;
        let wakes = false;
        lemma_filter_keeps_all(queue, |t: usize| !moved.contains(t) && !(wakes && t == first));
        assert(queue + none =~= queue);
        assert(before.buckets[to].queue + none =~= before.buckets[to].queue);
        (op, UnparkToken(0), (0, 0))
    } else {
        let (token, gone) = choose|token: UnparkToken, gone: LotView|
            {
                &&& call_ensures(callback, (op, result), token)
                &&& #[trigger] requeue_unparked(
                    before,
                    gone,
                    key_from,
                    key_to,
                    op,
                    token,
                    result,
                    thread,
                )
                &&& after == gone.with_pair_unlocked(key_from, key_to)
            };
        let taken = concerned(op, sleepers);
        let picked = to_wake(op, taken);
        let moved = to_move(op, taken);
        let wakes = picked.len() > 0;
        let mid = before.requeued(from, moved, key_to);
        lemma_requeue_parts(op, sleepers);
        lemma_moved(before, key_from, key_to, moved);
        let asked = lemma_release(mid, gone, from, picked, token, result.be_fair);
        let rest = |t: usize| !moved.contains(t);
        let still = |t: usize| !picked.contains(t);
        let both = |t: usize| !moved.contains(t) && !(wakes && t == first);
        assert forall|t: usize| picked.contains(t) <==> wakes && t == first by {
            if wakes {
                assert(picked[0] == first);
            }
        }
        lemma_filter_twice(queue, rest, still, both);
        lemma_filter_keeps_all(moved, still);
        Seq::filter_distributes_over_add(queue.filter(rest), moved, still);
        if !wakes {
            lemma_filter_agree(queue, rest, both);
        }
        lemma_filter_nonempty(
            gone.buckets[to].queue,
            sleeps_on(gone.threads, key_to),
        );
        assert(after.buckets[to].queue == gone.buckets[to].queue);
        assert(wakes == (sleepers.len() > 0 && (op == RequeueOp::UnparkOne || op
            == RequeueOp::UnparkOneRequeueRest)));
        assert(from != to ==> after.buckets[from].queue == queue.filter(both));
        assert(from == to ==> after.buckets[from].queue == queue.filter(both) + moved);
        assert(from != to ==> after.buckets[to].queue == before.buckets[to].queue + moved);
        (op, token, asked)
    }
}

/// The parts into which a requeue operation divides the sleepers of a key.
proof fn lemma_requeue_parts(op: RequeueOp, sleepers: Seq<usize>)
    requires
        op != RequeueOp::Abort,
        sleepers.no_duplicates(),
    ensures
        ({
            let taken = concerned(op, sleepers);
            let picked = to_wake(op, taken);
            let moved = to_move(op, taken);
            let wakes = sleepers.len() > 0 && (op == RequeueOp::UnparkOne || op
                == RequeueOp::UnparkOneRequeueRest);
            &&& picked.len() == if wakes {
                1int
            } else {
                0int
            }
            &&& wakes ==> picked[0] == sleepers[0] && !moved.contains(sleepers[0])
            &&& (taken.len() < sleepers.len()) == (sleepers.len() > 1 && (op == RequeueOp::UnparkOne
                || op == RequeueOp::RequeueOne))
            &&& moved =~= match op {
                RequeueOp::Abort => Seq::empty(),
                RequeueOp::UnparkOne => Seq::empty(),
                RequeueOp::UnparkOneRequeueRest => if sleepers.len() == 0 {
                    sleepers
                } else {
                    sleepers.skip(1)
                },
                RequeueOp::RequeueAll => sleepers,
                RequeueOp::RequeueOne => if sleepers.len() == 0 {
                    sleepers
                } else {
                    seq![sleepers[0]]
                },
            }
            &&& forall|t: usize| #[trigger] moved.contains(t) ==> sleepers.contains(t)
        }),
{
    let moved = to_move(op, concerned(op, sleepers));
    assert forall|t: usize| #[trigger] moved.contains(t) implies sleepers.contains(t) by {
        let i = choose|i: int| 0 <= i < moved.len() && moved[i] == t;
        if op == RequeueOp::UnparkOneRequeueRest && sleepers.len() > 0 {
            assert(sleepers[i + 1] == t);
        } else {
            assert(sleepers[i] == t);
        }
    }
    if sleepers.len() > 0 && op == RequeueOp::UnparkOneRequeueRest {
        assert(!moved.contains(sleepers[0])) by {
            if moved.contains(sleepers[0]) {
                let i = choose|i: int| 0 <= i < moved.len() && moved[i] == sleepers[0];
                assert(sleepers[i + 1] == sleepers[0]);
            }
        }
    }
}

/// Once the clock has read a moment beyond the timeout of the bucket, an
/// `unpark_one` that wakes a thread is fair, and moves the timeout on.
pub proof fn law_unpark_one_is_fair_when_due<C: FnOnce(UnparkResult) -> UnparkToken>(
    before: LotView,
    after: LotView,
    bucket: int,
    key: usize,
    callback: C,
    result: UnparkResult,
    thread: usize,
)
    requires
        before.valid(),
        before.threads.len() <= usize::MAX,
        0 <= bucket < before.buckets.len(),
        bucket == before.bucket_of(key),
        unpark_one_done(before, after, bucket, key, callback, result, Some(thread)),
        before.latest.nanos > before.buckets[bucket].fair.timeout.nanos,
    ensures
        result.be_fair,
        after.buckets[bucket].fair.timeout.nanos >= before.latest.nanos,
{
    law_unpark_one_wakes_the_first(before, after, bucket, key, callback, result, Some(thread));
}

/// So does an `unpark_filter` that wakes a thread.
pub proof fn law_unpark_filter_is_fair_when_due<
    F: FnMut(ParkToken) -> FilterOp,
    C: FnOnce(UnparkResult) -> UnparkToken,
>(
    before: LotView,
    after: LotView,
    bucket: int,
    key: usize,
    filter: F,
    callback: C,
    result: UnparkResult,
    threads: Seq<usize>,
)
    requires
        before.valid(),
        before.threads.len() <= usize::MAX,
        0 <= bucket < before.buckets.len(),
        bucket == before.bucket_of(key),
        unpark_filter_done(before, after, bucket, key, filter, callback, result, threads),
        threads.len() > 0,
        before.latest.nanos > before.buckets[bucket].fair.timeout.nanos,
    ensures
        result.be_fair,
        after.buckets[bucket].fair.timeout.nanos >= before.latest.nanos,
{
    law_unpark_filter_wakes_those_answered(
        before,
        after,
        bucket,
        key,
        filter,
        callback,
        result,
        threads,
    );
}

/// So does an `unpark_requeue` that wakes a thread, whatever the operation.
pub proof fn law_unpark_requeue_is_fair_when_due<
    V: FnOnce() -> RequeueOp,
    C: FnOnce(RequeueOp, UnparkResult) -> UnparkToken,
>(
    before: LotView,
    after: LotView,
    key_from: usize,
    key_to: usize,
    validate: V,
    callback: C,
    result: UnparkResult,
    thread: usize,
)
    requires
        before.valid(),
        before.threads.len() <= usize::MAX,
        before.has_table(),
        unpark_requeue_done(
            before,
            after,
            key_from,
            key_to,
            validate,
            callback,
            result,
            Some(thread),
        ),
        before.latest.nanos > before.buckets[before.bucket_of(key_from)].fair.timeout.nanos,
    ensures
        result.be_fair,
        after.buckets[before.bucket_of(key_from)].fair.timeout.nanos >= before.latest.nanos,
{
    law_unpark_requeue_does_what_it_is_told(
        before,
        after,
        key_from,
        key_to,
        validate,
        callback,
        result,
        Some(thread),
    );
}

/// Where an unpark operation found no thread, nothing is counted and nothing
/// is to be done.
pub proof fn law_nothing_unparked_counts_nothing()
    ensures
        nothing_unparked().unparked_threads == 0,
        nothing_unparked().requeued_threads == 0,
        !nothing_unparked().have_more_threads,
        !nothing_unparked().be_fair,
{
}

} // verus!
