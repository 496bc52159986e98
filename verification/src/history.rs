//! What holds over any number of operations.
use crate::cycles::cycles_in;
use crate::deadlock_check::{all_told, finds, is_told, lemma_all_told, lemma_starts, search_starts};
use crate::deadlock_data::after_release;
use crate::deadlock_effects::{law_acquire_adds_one, law_release_removes_one};
use crate::deadlock_laws::{law_deadlock_is_reported, law_fast_pass_hides_no_deadlock};
use crate::effects::law_unpark_filter_wakes_those_answered;
use crate::hash_table::{fitting_bits, MAX_THREADS};
use crate::laws::{law_growth_makes_room, law_unparked_leave, lemma_released_queues};
use crate::locking::{bucket_attempt, pair_attempt, LockedBucket};
use crate::lot::{growth, joined};
use crate::lot_queues::fairness;
use crate::model::{lemma_bucket_in_range, sleeps_on, without, woken, LotView};
use crate::park::{lemma_last_thread, timeout_arguments, timeout_result, unparked_result};
use crate::queue_ops::{answered, lemma_let_go_members, let_go};
use crate::requeue::{lemma_concerned, lemma_requeue, requeue_done, requeue_unparked, unpark_requeue_done};
use crate::requeue_walk::{concerned, lemma_to_move_members, to_move, to_wake};
use crate::seq_facts::{lemma_filter_keeps_all, lemma_filter_keeps_none, lemma_filter_members};
use crate::thread_data::ThreadView;
use crate::time::{law_clock_reads_whole_duration, Moment};
use crate::tokens::{FilterOp, ParkResult, ParkToken, RequeueOp, UnparkResult, UnparkToken};
use crate::unpark::{filter_unparked, front, lemma_sleepers, lemma_valid_released, one_unparked, released, unpark_filter_done, unpark_one_done};
use crate::validity::{lemma_queued_in, lemma_valid_with_table, lemma_without_members};
use crate::wait_cycles::{is_wait_cycle, law_reported_cycles_are_real, next_place, waits_at};
use crate::wait_edges::{wait_edges, waits};
use crate::wait_graph::{has_cycle, is_search, SearchEvent};
use vstd::prelude::*;

verus! {

/// An operation on the lot, with what it was given and what came of it. Where
/// an operation lets threads go, `gone` is the lot before it is unlocked.
pub enum Operation {
    MakeTable { now: Moment },
    Grow { num_threads: nat, done: bool },
    Join { thread: usize, grown: LotView, thread_id: usize },
    Leave { thread: usize },
    LockBucket { key: usize, outcome: Option<LockedBucket> },
    LockPair { key1: usize, key2: usize, outcome: Option<(LockedBucket, Option<LockedBucket>)> },
    LockAll,
    Unlock { bucket: int },
    UnlockAll,
    Park { thread: usize, key: usize, park_token: ParkToken, with_timeout: bool },
    TimeOut { thread: usize },
    UnparkOne {
        key: usize,
        token: UnparkToken,
        result: UnparkResult,
        thread: Option<usize>,
        gone: LotView,
    },
    UnparkAll { key: usize, token: UnparkToken },
    UnparkFilter {
        key: usize,
        answers: Seq<FilterOp>,
        token: UnparkToken,
        result: UnparkResult,
        threads: Seq<usize>,
        gone: LotView,
    },
    UnparkRequeue {
        key_from: usize,
        key_to: usize,
        op: RequeueOp,
        token: UnparkToken,
        result: UnparkResult,
        thread: Option<usize>,
        gone: LotView,
    },
    Acquire { thread: usize, key: usize },
    Release { thread: usize, key: usize },
    Report { thread: usize },
    Check { now: Moment, events: Seq<SearchEvent>, cycles: Seq<Seq<usize>> },
}

/// What an operation makes of the lot.
pub open spec fn performs(before: LotView, operation: Operation, after: LotView) -> bool {
    match operation {
        Operation::MakeTable { now } => after == before.with_table(now),
        Operation::Grow { num_threads, done } => {
            num_threads <= MAX_THREADS && growth(before, after, num_threads, done)
        },
        Operation::Join { thread, grown, thread_id } => {
            &&& before.num_threads < MAX_THREADS
            &&& thread <= before.threads.len() && !before.is_thread(thread)
            &&& growth(before, grown, before.num_threads + 1, true)
            &&& after == joined(grown, thread, thread_id)
        },
        Operation::Leave { thread } => {
            &&& before.is_thread(thread) && !before.is_queued(thread)
            &&& after == (LotView {
                num_threads: (before.num_threads - 1) as nat,
                ..before.with_thread(
                    thread,
                    ThreadView { live: false, ..before.threads[thread as int] },
                )
            })
        },
        Operation::LockBucket { key, outcome } => bucket_attempt(before, after, key, outcome),
        Operation::LockPair { key1, key2, outcome } => pair_attempt(
            before,
            after,
            key1,
            key2,
            outcome,
        ),
        Operation::LockAll => after == if before.some_locked() {
            before
        } else {
            before.with_locks(true)
        },
        Operation::Unlock { bucket } => {
            before.holds(bucket) && after == before.with_lock(bucket, false)
        },
        Operation::UnlockAll => before.all_locked() && after == before.with_locks(false),
        Operation::Park { thread, key, park_token, with_timeout } => {
            &&& before.holds(before.bucket_of(key))
            &&& before.is_thread(thread)
            &&& !before.threads[thread as int].parked
            &&& !before.threads[thread as int].deadlock.deadlocked
            &&& after == before.parked(thread, key, park_token, with_timeout).with_lock(
                before.bucket_of(key),
                false,
            )
        },
        Operation::TimeOut { thread } => {
            let me = before.threads[thread as int];
            let bucket = before.bucket_of(me.key);
            &&& before.is_thread(thread) && me.parked_with_timeout && before.holds(bucket)
            &&& after == if me.parked {
                before.unparked(bucket, seq![thread], me.unpark_token).with_lock(bucket, false)
            } else {
                before.with_lock(bucket, false)
            }
        },
        Operation::UnparkOne { key, token, result, thread, gone } => {
            let bucket = before.bucket_of(key);
            &&& before.holds(bucket)
            &&& one_unparked(before, gone, bucket, key, token, result, thread)
            &&& after == gone.with_lock(bucket, false)
        },
        Operation::UnparkAll { key, token } => {
            let bucket = before.bucket_of(key);
            &&& before.holds(bucket)
            &&& after == before.unparked(bucket, before.parked_on(key), token).with_lock(
                bucket,
                false,
            )
        },
        Operation::UnparkFilter { key, answers, token, result, threads, gone } => {
            let bucket = before.bucket_of(key);
            &&& before.holds(bucket)
            &&& answers.len() <= before.parked_on(key).len()
            &&& filter_unparked(before, gone, bucket, key, answers, token, result, threads)
            &&& after == gone.with_lock(bucket, false)
        },
        Operation::UnparkRequeue { key_from, key_to, op, token, result, thread, gone } => {
            &&& before.holds(before.bucket_of(key_from))
            &&& before.holds(before.bucket_of(key_to))
            &&& if op == RequeueOp::Abort {
                after == before.with_pair_unlocked(key_from, key_to)
            } else {
                &&& requeue_unparked(before, gone, key_from, key_to, op, token, result, thread)
                &&& after == gone.with_pair_unlocked(key_from, key_to)
            }
        },
        Operation::Acquire { thread, key } => {
            &&& before.is_thread(thread)
            &&& after == before.with_resources(
                thread,
                before.threads[thread as int].deadlock.resources.push(key),
            )
        },
        Operation::Release { thread, key } => {
            &&& before.is_thread(thread)
            &&& before.threads[thread as int].deadlock.resources.contains(key)
            &&& after == before.with_resources(
                thread,
                after_release(before.threads[thread as int].deadlock.resources, key),
            )
        },
        Operation::Report { thread } => {
            &&& before.is_thread(thread)
            &&& before.threads[thread as int].deadlock.deadlocked
            &&& after == before.reported(thread)
        },
        Operation::Check { now, events, cycles } => finds(before, after, now, events, cycles),
    }
}

/// The thread that performs an operation on itself.
pub open spec fn acts(operation: Operation) -> Option<usize> {
    match operation {
        Operation::Join { thread, .. } => Some(thread),
        Operation::Leave { thread } => Some(thread),
        Operation::Park { thread, .. } => Some(thread),
        Operation::TimeOut { thread } => Some(thread),
        Operation::Acquire { thread, .. } => Some(thread),
        Operation::Release { thread, .. } => Some(thread),
        Operation::Report { thread } => Some(thread),
        _ => None,
    }
}

/// A run of the lot: each operation leads from one state to the next. What
/// every operation keeps holds of all of them.
pub open spec fn is_run(lots: Seq<LotView>, operations: Seq<Operation>) -> bool {
    &&& lots.len() == operations.len() + 1
    &&& forall|i: int| 0 <= i < lots.len() ==> (#[trigger] lots[i]).valid()
    &&& forall|i: int| 0 <= i < lots.len() ==> (#[trigger] lots[i]).threads.len() <= usize::MAX
    &&& forall|i: int, j: int|
        0 <= i && j == i + 1 && j < lots.len() ==> performs(
            #[trigger] lots[i],
            operations[i],
            #[trigger] lots[j],
        )
}

/// Threads that are in no queue.
proof fn lemma_not_among(lot: LotView, bucket: int, gone: Seq<usize>, t: usize)
    requires
        lot.valid(),
        0 <= bucket < lot.buckets.len(),
        t < lot.threads.len(),
        !lot.threads[t as int].parked,
        !lot.threads[t as int].deadlock.deadlocked,
        forall|x: usize| #[trigger] gone.contains(x) ==> lot.queue(bucket).contains(x),
    ensures
        !gone.contains(t),
{
    assert(lot.bucket_valid(bucket));
}

/// Making room changes no thread.
proof fn lemma_growth_threads(before: LotView, after: LotView, num_threads: nat, done: bool)
    requires
        growth(before, after, num_threads, done),
    ensures
        after.threads == before.threads,
{
}

/// What an operation does to a thread that is awake and does not perform it:
/// nothing.
proof fn lemma_bystander(before: LotView, operation: Operation, after: LotView, t: usize)
    requires
        before.valid(),
        before.threads.len() <= usize::MAX,
        performs(before, operation, after),
        acts(operation) != Some(t),
        before.is_thread(t),
        !before.threads[t as int].parked,
        !before.threads[t as int].deadlock.deadlocked,
    ensures
        t < after.threads.len(),
        after.threads[t as int] == before.threads[t as int],
{
    match operation {
        Operation::Grow { num_threads, done } => {
            lemma_growth_threads(before, after, num_threads, done);
        },
        Operation::Join { thread, grown, thread_id } => {
            lemma_growth_threads(before, grown, before.num_threads + 1, true);
        },
        Operation::TimeOut { thread } => {
            assert(seq![thread][0] == thread);
            assert(!seq![thread].contains(t));
        },
        Operation::UnparkOne { key, token, result, thread, gone } => {
            let bucket = before.bucket_of(key);
            let taken = front(before.parked_on(key));
            lemma_front(before, key);
            lemma_not_among(before, bucket, taken, t);
            lemma_released_queues(before, gone, bucket, taken, token, result.be_fair, key);
            assert(gone.threads[t as int] == woken(before.threads, taken, token)[t as int]);
            lemma_released_length(before, gone, bucket, taken, token, result.be_fair);
        },
        Operation::UnparkAll { key, token } => {
            lemma_sleepers(before, key);
            lemma_not_among(before, before.bucket_of(key), before.parked_on(key), t);
        },
        Operation::UnparkFilter { key, answers, token, result, threads, gone } => {
            let bucket = before.bucket_of(key);
            lemma_picked(before, key, answers);
            lemma_not_among(before, bucket, threads, t);
            lemma_released_queues(before, gone, bucket, threads, token, result.be_fair, key);
            assert(gone.threads[t as int] == woken(before.threads, threads, token)[t as int]);
            lemma_released_length(before, gone, bucket, threads, token, result.be_fair);
        },
        Operation::UnparkRequeue { key_from, key_to, op, token, result, thread, gone } => {
            if op != RequeueOp::Abort {
                lemma_requeue_threads(
                    before,
                    gone,
                    key_from,
                    key_to,
                    op,
                    token,
                    result,
                    thread,
                    t,
                );
                let from = before.bucket_of(key_from);
                let taken = concerned(op, before.parked_on(key_from));
                lemma_sleepers(before, key_from);
                lemma_concerned(op, before.parked_on(key_from));
                lemma_to_move_members(op, taken);
                lemma_not_among(before, from, to_wake(op, taken), t);
                lemma_not_among(before, from, to_move(op, taken), t);
            }
        },
        Operation::Check { now, events, cycles } => {
            let ready = before.with_table(now);
            lemma_valid_with_table(before, now);
            if has_cycle(wait_edges(ready)) {
                lemma_named_wait(ready, events);
                lemma_all_told(ready.threads, cycles);
                assert forall|c: int| 0 <= c < cycles.len() implies !(
                #[trigger] cycles[c]).contains(t) by {
                    if cycles[c].contains(t) {
                        assert(cycles_in(events).contains(cycles[c]));
                        lemma_named_queued(ready, cycles[c], t);
                    }
                }
                assert(after.threads[t as int] == all_told(ready.threads, cycles)[t as int]);
            }
        },
        _ => {},
    }
}

/// The first sleeper of a key is in its bucket.
proof fn lemma_front(lot: LotView, key: usize)
    requires
        lot.valid(),
        lot.has_table(),
    ensures
        0 <= lot.bucket_of(key) < lot.buckets.len(),
        forall|x: usize| #[trigger]
            front(lot.parked_on(key)).contains(x) ==> lot.queue(lot.bucket_of(key)).contains(x),
{
    lemma_sleepers(lot, key);
    let sleepers = lot.parked_on(key);
    let gone = front(sleepers);
    assert forall|x: usize| #[trigger] gone.contains(x) implies lot.queue(
        lot.bucket_of(key),
    ).contains(x) by {
        let i = choose|i: int| 0 <= i < gone.len() && gone[i] == x;
        assert(sleepers[i] == x);
        assert(sleepers.contains(x));
    }
}

/// The sleepers that a filter picks are in the bucket of the key.
proof fn lemma_picked(lot: LotView, key: usize, answers: Seq<FilterOp>)
    requires
        lot.valid(),
        lot.has_table(),
        answers.len() <= lot.parked_on(key).len(),
    ensures
        0 <= lot.bucket_of(key) < lot.buckets.len(),
        forall|x: usize| #[trigger]
            let_go(lot.parked_on(key), answers).contains(x) ==> lot.queue(
                lot.bucket_of(key),
            ).contains(x),
{
    lemma_sleepers(lot, key);
    let sleepers = lot.parked_on(key);
    lemma_let_go_members(sleepers, answers);
    assert forall|x: usize| #[trigger] let_go(sleepers, answers).contains(x) implies lot.queue(
        lot.bucket_of(key),
    ).contains(x) by {
        let asked = sleepers.take(answers.len() as int);
        let i = choose|i: int| 0 <= i < asked.len() && asked[i] == x;
        assert(sleepers[i] == x);
        assert(sleepers.contains(x));
    }
}

/// Releasing threads leaves as many.
proof fn lemma_released_length(
    before: LotView,
    after: LotView,
    bucket: int,
    gone: Seq<usize>,
    token: UnparkToken,
    be_fair: bool,
)
    requires
        released(before, after, bucket, gone, token, be_fair),
    ensures
        after.threads.len() == before.threads.len(),
{
}

/// What a requeue does to a thread.
proof fn lemma_requeue_threads(
    before: LotView,
    gone: LotView,
    key_from: usize,
    key_to: usize,
    op: RequeueOp,
    token: UnparkToken,
    result: UnparkResult,
    thread: Option<usize>,
    t: usize,
)
    requires
        before.valid(),
        before.has_table(),
        requeue_unparked(before, gone, key_from, key_to, op, token, result, thread),
        t < before.threads.len(),
    ensures
        ({
            let taken = concerned(op, before.parked_on(key_from));
            let moved = to_move(op, taken);
            let after = gone.threads[t as int];
            &&& gone.threads.len() == before.threads.len()
            &&& !to_wake(op, taken).contains(t) && !moved.contains(t) ==> after
                == before.threads[t as int]
            &&& to_wake(op, taken).contains(t) ==> after == (ThreadView {
                parked: false,
                unpark_token: token,
                ..before.threads[t as int]
            })
            &&& moved.contains(t) ==> after == (ThreadView {
                key: key_to,
                ..before.threads[t as int]
            })
        }),
{
    let from = before.bucket_of(key_from);
    let sleepers = before.parked_on(key_from);
    let taken = concerned(op, sleepers);
    let picked = to_wake(op, taken);
    let moved = to_move(op, taken);
    let requeued = before.requeued(from, moved, key_to);
    lemma_sleepers(before, key_from);
    lemma_concerned(op, sleepers);
    lemma_to_move_members(op, taken);
    lemma_requeue(before, key_from, key_to, op);
    lemma_released_queues(requeued, gone, from, picked, token, result.be_fair, key_from);
    lemma_released_length(requeued, gone, from, picked, token, result.be_fair);
    assert(gone.threads[t as int] == woken(requeued.threads, picked, token)[t as int]);
}

/// The cycles that a check finds are wait cycles.
pub(crate) proof fn lemma_named_wait(ready: LotView, events: Seq<SearchEvent>)
    requires
        is_search(wait_edges(ready), search_starts(wait_edges(ready)), events),
    ensures
        forall|cycle: Seq<usize>| #[trigger]
            cycles_in(events).contains(cycle) ==> is_wait_cycle(ready, cycle),
{
    lemma_starts(wait_edges(ready));
    law_reported_cycles_are_real(ready, search_starts(wait_edges(ready)), events);
}

/// The threads of a wait cycle sleep.
pub(crate) proof fn lemma_named_queued(lot: LotView, cycle: Seq<usize>, t: usize)
    requires
        lot.valid(),
        is_wait_cycle(lot, cycle),
        cycle.contains(t),
    ensures
        lot.is_thread(t),
        lot.is_queued(t),
        lot.threads[t as int].parked,
        !lot.threads[t as int].parked_with_timeout,
        !lot.threads[t as int].deadlock.deadlocked,
{
    let i = choose|i: int| 0 <= i < cycle.len() && cycle[i] == t;
    assert(waits_at(lot, cycle, i));
    lemma_queued_in(lot, lot.buckets.len() as int);
    let b = lot.bucket_of(lot.threads[t as int].key);
    lemma_bucket_in_range(lot, lot.threads[t as int].key);
    assert(lot.bucket_valid(b));
    let j = choose|j: int| 0 <= j < lot.queue(b).len() && lot.queue(b)[j] == t;
    assert(lot.queue(b)[j] == t);
}

/// A thread that has been unparked with a token and has not gone on yet.
pub open spec fn is_unparked_with(lot: LotView, thread: usize, token: UnparkToken) -> bool {
    let me = lot.threads[thread as int];
    &&& lot.is_thread(thread)
    &&& !me.parked && !me.deadlock.deadlocked
    &&& me.unpark_token == token
}

/// A thread that has been unparked with a token goes on with it, whatever others
/// do meanwhile: it is in no queue, and its `park` returns the token, also if
/// its timeout is reached only now.
pub proof fn law_unparked_thread_goes_on_with_token(
    lots: Seq<LotView>,
    operations: Seq<Operation>,
    i: int,
    j: int,
    thread: usize,
    token: UnparkToken,
)
    requires
        is_run(lots, operations),
        0 <= i <= j < lots.len(),
        is_unparked_with(lots[i], thread, token),
        forall|k: int| i <= k < j ==> acts(#[trigger] operations[k]) != Some(thread),
    ensures
        is_unparked_with(lots[j], thread, token),
        unparked_result(lots[j], thread) == ParkResult::Unparked(token),
        timeout_result(lots[j], thread) == ParkResult::Unparked(token),
        forall|b: int|
            0 <= b < lots[j].buckets.len() ==> !(#[trigger] lots[j].queue(b)).contains(thread),
    decreases j - i,
{
    if i < j {
        law_unparked_thread_goes_on_with_token(lots, operations, i, j - 1, thread, token);
        assert(performs(lots[j - 1], operations[j - 1], lots[j]));
        lemma_bystander(lots[j - 1], operations[j - 1], lots[j], thread);
    }
    assert forall|b: int| 0 <= b < lots[j].buckets.len() implies !(#[trigger] lots[j].queue(
        b,
    )).contains(thread) by {
        assert(lots[j].bucket_valid(b));
    }
}

/// The thread that `unpark_one` wakes is unparked with the token of the
/// callback, unless the deadlock detector holds it.
pub proof fn law_unpark_one_hands_token<C: FnOnce(UnparkResult) -> UnparkToken>(
    before: LotView,
    after: LotView,
    key: usize,
    callback: C,
    result: UnparkResult,
    thread: usize,
) -> (token: UnparkToken)
    requires
        before.valid(),
        before.has_table(),
        unpark_one_done(
            before,
            after,
            before.bucket_of(key),
            key,
            callback,
            result,
            Some(thread),
        ),
        !before.threads[thread as int].deadlock.deadlocked,
    ensures
        call_ensures(callback, (result,), token),
        is_unparked_with(after, thread, token),
{
    let bucket = before.bucket_of(key);
    let (token, gone) = choose|token: UnparkToken, gone: LotView|
        #![trigger call_ensures(callback, (result,), token), gone.with_lock(bucket, false)]
        {
            &&& call_ensures(callback, (result,), token)
            &&& one_unparked(before, gone, bucket, key, token, result, Some(thread))
            &&& after == gone.with_lock(bucket, false)
        };
    let taken = front(before.parked_on(key));
    lemma_front(before, key);
    lemma_sleepers(before, key);
    assert(before.parked_on(key).contains(thread));
    assert(taken[0] == thread);
    assert(taken.contains(thread));
    lemma_let_go(before, gone, bucket, taken, token, result.be_fair, thread);
    token
}

/// The threads that `unpark_all` wakes are unparked with its token, unless the
/// deadlock detector holds them.
pub proof fn law_unpark_all_hands_token(
    lot: LotView,
    key: usize,
    token: UnparkToken,
    thread: usize,
)
    requires
        lot.valid(),
        lot.has_table(),
        lot.parked_on(key).contains(thread),
        !lot.threads[thread as int].deadlock.deadlocked,
    ensures
        is_unparked_with(
            lot.unparked(lot.bucket_of(key), lot.parked_on(key), token).with_lock(
                lot.bucket_of(key),
                false,
            ),
            thread,
            token,
        ),
{
    lemma_sleepers(lot, key);
}

/// The threads that `unpark_filter` wakes are unparked with the token of the
/// callback, unless the deadlock detector holds them.
pub proof fn law_unpark_filter_hands_token<
    F: FnMut(ParkToken) -> FilterOp,
    C: FnOnce(UnparkResult) -> UnparkToken,
>(
    before: LotView,
    after: LotView,
    key: usize,
    filter: F,
    callback: C,
    result: UnparkResult,
    threads: Seq<usize>,
) -> (token: UnparkToken)
    requires
        before.valid(),
        before.has_table(),
        unpark_filter_done(
            before,
            after,
            before.bucket_of(key),
            key,
            filter,
            callback,
            result,
            threads,
        ),
    ensures
        call_ensures(callback, (result,), token),
        forall|thread: usize| #[trigger]
            threads.contains(thread) && !before.threads[thread as int].deadlock.deadlocked
                ==> is_unparked_with(after, thread, token),
{
    let bucket = before.bucket_of(key);
    let (answers, token, gone) = choose|
        answers: Seq<FilterOp>,
        token: UnparkToken,
        gone: LotView,
    |
        {
            &&& answered(filter, before.threads, before.parked_on(key), answers)
            &&& call_ensures(callback, (result,), token)
            &&& #[trigger] filter_unparked(
                before,
                gone,
                bucket,
                key,
                answers,
                token,
                result,
                threads,
            )
            &&& after == gone.with_lock(bucket, false)
        };
    lemma_picked(before, key, answers);
    assert forall|thread: usize| #[trigger]
        threads.contains(thread)
            && !before.threads[thread as int].deadlock.deadlocked implies is_unparked_with(
        after,
        thread,
        token,
    ) by {
        lemma_let_go(before, gone, bucket, threads, token, result.be_fair, thread);
    }
    token
}

/// The thread that `unpark_requeue` wakes is unparked with the token of the
/// callback, unless the deadlock detector holds it.
pub proof fn law_unpark_requeue_hands_token<
    V: FnOnce() -> RequeueOp,
    C: FnOnce(RequeueOp, UnparkResult) -> UnparkToken,
>(
    before: LotView,
    after: LotView,
    key_from: usize,
    key_to: usize,
    validate: V,
    callback: C,
    result: UnparkResult,
    thread: usize,
) -> (called: (RequeueOp, UnparkToken))
    requires
        before.valid(),
        before.has_table(),
        unpark_requeue_done(
            before,
            after,
            key_from,
            key_to,
            validate,
            callback,
            result,
            Some(thread),
        ),
        !before.threads[thread as int].deadlock.deadlocked,
    ensures
        call_ensures(validate, (), called.0),
        call_ensures(callback, (called.0, result), called.1),
        is_unparked_with(after, thread, called.1),
{
    let op = choose|op: RequeueOp|
        call_ensures(validate, (), op) && #[trigger] requeue_done(
            before,
            after,
            key_from,
            key_to,
            op,
            callback,
            result,
            Some(thread),
        );
    let (token, gone) = choose|token: UnparkToken, gone: LotView|
        {
            &&& call_ensures(callback, (op, result), token)
            &&& #[trigger] requeue_unparked(
                before,
                gone,
                key_from,
                key_to,
                op,
                token,
                result,
                Some(thread),
            )
            &&& after == gone.with_pair_unlocked(key_from, key_to)
        };
    let sleepers = before.parked_on(key_from);
    let taken = concerned(op, sleepers);
    let picked = to_wake(op, taken);
    lemma_sleepers(before, key_from);
    lemma_concerned(op, sleepers);
    lemma_to_move_members(op, taken);
    assert(picked[0] == thread);
    assert(picked.contains(thread));
    assert(sleepers.contains(thread));
    lemma_requeue_threads(
        before,
        gone,
        key_from,
        key_to,
        op,
        token,
        result,
        Some(thread),
        thread,
    );
    (op, token)
}

/// A thread that is let go is unparked with the token.
proof fn lemma_let_go(
    before: LotView,
    gone: LotView,
    bucket: int,
    threads: Seq<usize>,
    token: UnparkToken,
    be_fair: bool,
    thread: usize,
)
    requires
        before.valid(),
        0 <= bucket < before.buckets.len(),
        released(before, gone, bucket, threads, token, be_fair),
        forall|t: usize| #[trigger] threads.contains(t) ==> before.queue(bucket).contains(t),
        threads.contains(thread),
        !before.threads[thread as int].deadlock.deadlocked,
    ensures
        is_unparked_with(gone, thread, token),
{
    assert(before.bucket_valid(bucket));
    let i = choose|i: int|
        0 <= i < before.queue(bucket).len() && before.queue(bucket)[i] == thread;
    assert(before.is_thread(before.queue(bucket)[i]));
    lemma_released_queues(before, gone, bucket, threads, token, be_fair, 0);
    lemma_released_length(before, gone, bucket, threads, token, be_fair);
    assert(gone.threads[thread as int] == woken(before.threads, threads, token)[thread as int]);
}

/// A thread that was requeued while it slept, and that nobody has moved or
/// unparked since, times out on its new key: it is told that key, and whether
/// anybody else sleeps on it, and leaves the queue of that key.
pub proof fn law_requeued_thread_times_out_on_new_key(
    before: LotView,
    gone: LotView,
    key_from: usize,
    key_to: usize,
    op: RequeueOp,
    token: UnparkToken,
    result: UnparkResult,
    woken_thread: Option<usize>,
    later: LotView,
    thread: usize,
)
    requires
        before.valid(),
        before.has_table(),
        requeue_unparked(before, gone, key_from, key_to, op, token, result, woken_thread),
        to_move(op, concerned(op, before.parked_on(key_from))).contains(thread),
        !before.threads[thread as int].deadlock.deadlocked,
        later.valid(),
        later.threads.len() <= usize::MAX,
        later.is_thread(thread),
        later.threads[thread as int] == gone.threads[thread as int],
    ensures
        timeout_result(later, thread) == ParkResult::TimedOut,
        timeout_arguments(later, thread).0 == key_to,
        timeout_arguments(later, thread).1 <==> forall|other: usize| #[trigger]
            later.parked_on(key_to).contains(other) ==> other == thread,
        later.parked_on(key_to).contains(thread),
        later.unparked(
            later.bucket_of(key_to),
            seq![thread],
            later.threads[thread as int].unpark_token,
        ).parked_on(key_to) == without(later.parked_on(key_to), seq![thread]),
        !without(later.parked_on(key_to), seq![thread]).contains(thread),
{
    let sleepers = before.parked_on(key_from);
    let taken = concerned(op, sleepers);
    let from = before.bucket_of(key_from);
    lemma_sleepers(before, key_from);
    lemma_concerned(op, sleepers);
    lemma_to_move_members(op, taken);
    assert(before.bucket_valid(from));
    let i = choose|i: int| 0 <= i < before.queue(from).len() && before.queue(from)[i] == thread;
    assert(before.is_thread(before.queue(from)[i]));
    lemma_requeue_threads(
        before,
        gone,
        key_from,
        key_to,
        op,
        token,
        result,
        woken_thread,
        thread,
    );
    assert(later.thread_valid(thread));
    lemma_sleepers(later, key_to);
    lemma_last_thread(later, thread);
    let queue = later.queue(later.bucket_of(key_to));
    let out = seq![thread];
    assert(out[0] == thread);
    assert forall|t: usize| #[trigger] out.contains(t) implies queue.contains(t) by {
        assert(t == thread);
    }
    law_unparked_leave(
        later,
        later.bucket_of(key_to),
        out,
        later.threads[thread as int].unpark_token,
        key_to,
    );
    lemma_without_members(later.parked_on(key_to), out);
    assert(out.contains(thread));
    if forall|other: usize| #[trigger]
        later.parked_on(key_to).contains(other) ==> other == thread {
        assert forall|t: usize| #[trigger] queue.contains(t) && t
            != thread implies later.threads[t as int].key != key_to by {
            if later.threads[t as int].key == key_to {
                assert(later.parked_on(key_to).contains(t));
            }
        }
    }
}

/// Whether an operation is a check for deadlocks that names a thread.
pub open spec fn names(operation: Operation, thread: usize) -> bool {
    operation matches Operation::Check { cycles, .. } && exists|c: int|
        0 <= c < cycles.len() && #[trigger] cycles[c].contains(thread)
}

/// A thread that is known to be deadlocked stays so through any operation, as
/// long as it does not end.
proof fn lemma_stays_deadlocked(before: LotView, operation: Operation, after: LotView, t: usize)
    requires
        before.valid(),
        before.threads.len() <= usize::MAX,
        performs(before, operation, after),
        before.is_thread(t),
        before.threads[t as int].deadlock.deadlocked,
        operation != (Operation::Leave { thread: t }),
    ensures
        after.is_thread(t),
        after.threads[t as int].deadlock.deadlocked,
{
    match operation {
        Operation::Grow { num_threads, done } => {
            lemma_growth_threads(before, after, num_threads, done);
        },
        Operation::Join { thread, grown, thread_id } => {
            lemma_growth_threads(before, grown, before.num_threads + 1, true);
        },
        Operation::UnparkOne { key, token, result, thread, gone } => {
            let bucket = before.bucket_of(key);
            let taken = front(before.parked_on(key));
            lemma_front(before, key);
            lemma_released_queues(before, gone, bucket, taken, token, result.be_fair, key);
            lemma_released_length(before, gone, bucket, taken, token, result.be_fair);
            assert(gone.threads[t as int] == woken(before.threads, taken, token)[t as int]);
        },
        Operation::UnparkFilter { key, answers, token, result, threads, gone } => {
            let bucket = before.bucket_of(key);
            lemma_picked(before, key, answers);
            lemma_released_queues(before, gone, bucket, threads, token, result.be_fair, key);
            lemma_released_length(before, gone, bucket, threads, token, result.be_fair);
            assert(gone.threads[t as int] == woken(before.threads, threads, token)[t as int]);
        },
        Operation::UnparkRequeue { key_from, key_to, op, token, result, thread, gone } => {
            if op != RequeueOp::Abort {
                lemma_requeue_threads(
                    before,
                    gone,
                    key_from,
                    key_to,
                    op,
                    token,
                    result,
                    thread,
                    t,
                );
            }
        },
        Operation::Check { now, events, cycles } => {
            let ready = before.with_table(now);
            lemma_all_told(ready.threads, cycles);
            let told = all_told(ready.threads, cycles)[t as int];
            if !(exists|c: int| 0 <= c < cycles.len() && #[trigger] cycles[c].contains(t)) {
                assert(told == ready.threads[t as int]);
            }
        },
        _ => {},
    }
}

/// A thread that a check has named is known to be deadlocked from then on, as
/// long as it does not end.
proof fn lemma_named_stays_deadlocked(
    lots: Seq<LotView>,
    operations: Seq<Operation>,
    i: int,
    j: int,
    thread: usize,
)
    requires
        is_run(lots, operations),
        0 <= i < j < lots.len(),
        names(operations[i], thread),
        forall|k: int|
            i < k < j ==> #[trigger] operations[k] != (Operation::Leave { thread }),
    ensures
        lots[j].is_thread(thread),
        lots[j].threads[thread as int].deadlock.deadlocked,
    decreases j - i,
{
    assert(performs(lots[j - 1], operations[j - 1], lots[j]));
    if j == i + 1 {
        if let Operation::Check { now, events, cycles } = operations[i] {
            let ready = lots[i].with_table(now);
            lemma_valid_with_table(lots[i], now);
            let c = choose|c: int| 0 <= c < cycles.len() && #[trigger] cycles[c].contains(thread);
            lemma_named_wait(ready, events);
            assert(cycles_in(events).contains(cycles[c]));
            lemma_named_queued(ready, cycles[c], thread);
            lemma_all_told(ready.threads, cycles);
            assert(all_told(ready.threads, cycles)[thread as int].deadlock.deadlocked);
        }
    } else {
        lemma_named_stays_deadlocked(lots, operations, i, j - 1, thread);
        assert(operations[j - 1] != (Operation::Leave { thread }));
        lemma_stays_deadlocked(lots[j - 1], operations[j - 1], lots[j], thread);
    }
}

/// Over any number of checks, and whatever happens between them, no thread is
/// named twice: a cycle once reported is never reported again. A thread that
/// was named sleeps for good and does not end.
pub proof fn law_no_thread_is_named_twice(
    lots: Seq<LotView>,
    operations: Seq<Operation>,
    i: int,
    j: int,
    thread: usize,
)
    requires
        is_run(lots, operations),
        0 <= i < j < operations.len(),
        names(operations[i], thread),
        forall|k: int|
            i < k < j ==> #[trigger] operations[k] != (Operation::Leave { thread }),
    ensures
        !names(operations[j], thread),
{
    lemma_named_stays_deadlocked(lots, operations, i, j, thread);
    assert(performs(lots[j], operations[j], lots[j + 1]));
    if names(operations[j], thread) {
        if let Operation::Check { now, events, cycles } = operations[j] {
            let ready = lots[j].with_table(now);
            lemma_valid_with_table(lots[j], now);
            let c = choose|c: int| 0 <= c < cycles.len() && #[trigger] cycles[c].contains(thread);
            lemma_named_wait(ready, events);
            assert(cycles_in(events).contains(cycles[c]));
            lemma_named_queued(ready, cycles[c], thread);
        }
    }
}

/// Every thread that a check names is asleep without a timeout, in a cycle of
/// threads that wait for each other. If there is no such cycle, the check
/// names nobody and wakes nobody.
pub proof fn law_check_names_deadlocked_threads(
    before: LotView,
    after: LotView,
    now: Moment,
    events: Seq<SearchEvent>,
    cycles: Seq<Seq<usize>>,
    thread: usize,
)
    requires
        before.valid(),
        finds(before, after, now, events, cycles),
    ensures
        ({
            let ready = before.with_table(now);
            &&& forall|c: int| 0 <= c < cycles.len() ==> is_wait_cycle(ready, #[trigger] cycles[c])
            &&& (exists|c: int| 0 <= c < cycles.len() && #[trigger] cycles[c].contains(thread))
                ==> {
                &&& before.threads[thread as int].parked
                &&& !before.threads[thread as int].parked_with_timeout
            }
            &&& (forall|cycle: Seq<usize>| !is_wait_cycle(ready, cycle)) ==> cycles.len() == 0
                && after == ready
        }),
{
    let ready = before.with_table(now);
    lemma_valid_with_table(before, now);
    if has_cycle(wait_edges(ready)) {
        lemma_named_wait(ready, events);
        assert forall|c: int| 0 <= c < cycles.len() implies is_wait_cycle(
            ready,
            #[trigger] cycles[c],
        ) by {
            assert(cycles_in(events).contains(cycles[c]));
        }
        if exists|c: int| 0 <= c < cycles.len() && #[trigger] cycles[c].contains(thread) {
            let c = choose|c: int| 0 <= c < cycles.len() && #[trigger] cycles[c].contains(thread);
            lemma_named_queued(ready, cycles[c], thread);
        }
        if forall|cycle: Seq<usize>| !is_wait_cycle(ready, cycle) {
            if cycles.len() > 0 {
                assert(is_wait_cycle(ready, cycles[0]));
            }
            assert(after =~= ready);
        }
    }
}

/// Queues that are the same hold the same threads.
proof fn lemma_same_queued(before: LotView, after: LotView, n: int)
    requires
        after.buckets == before.buckets,
    ensures
        after.queued_in(n) == before.queued_in(n),
    decreases n,
{
    if n > 0 {
        lemma_same_queued(before, after, n - 1);
    }
}

/// A check leaves no cycle of waiting threads of which it has not named one.
proof fn lemma_no_cycle_left(
    before: LotView,
    after: LotView,
    now: Moment,
    events: Seq<SearchEvent>,
    cycles: Seq<Seq<usize>>,
    cycle: Seq<usize>,
)
    requires
        before.valid(),
        before.threads.len() <= usize::MAX,
        after.valid(),
        finds(before, after, now, events, cycles),
    ensures
        !is_wait_cycle(after, cycle),
{
    let ready = before.with_table(now);
    lemma_valid_with_table(before, now);
    if is_wait_cycle(after, cycle) {
        if has_cycle(wait_edges(ready)) {
            lemma_cycle_was_there(ready, after, cycles, cycle);
            let found = law_deadlock_is_reported(ready, events, cycle);
            let c = choose|c: int| 0 <= c < cycles.len() && cycles[c] == found.0;
            assert(cycles[c].contains(found.1));
            lemma_named_queued(ready, cycle, found.1);
            lemma_named_queued(after, cycle, found.1);
            lemma_all_told(ready.threads, cycles);
            assert(after.threads[found.1 as int] == all_told(
                ready.threads,
                cycles,
            )[found.1 as int]);
        } else {
            law_fast_pass_hides_no_deadlock(after, cycle);
        }
    }
}

/// Whether an operation makes no thread wait for anything new: it puts no
/// thread to sleep and moves none to another key, and who acquires or releases
/// a resource is awake.
pub open spec fn makes_nobody_wait(before: LotView, operation: Operation) -> bool {
    match operation {
        Operation::Park { .. } => false,
        Operation::UnparkRequeue { key_from, op, .. } => {
            op == RequeueOp::Abort || to_move(op, concerned(op, before.parked_on(key_from))).len()
                == 0
        },
        Operation::Acquire { thread, .. } => !before.threads[thread as int].parked,
        Operation::Release { thread, .. } => !before.threads[thread as int].parked,
        _ => true,
    }
}

/// A thread is queued exactly where it is in the queue of its key.
proof fn lemma_is_queued(lot: LotView, t: usize)
    requires
        lot.valid(),
        t < lot.threads.len(),
    ensures
        lot.is_queued(t) <==> lot.parked_on(lot.threads[t as int].key).contains(t),
        lot.is_queued(t) ==> lot.is_thread(t) && (lot.threads[t as int].parked
            || lot.threads[t as int].deadlock.deadlocked),
{
    if lot.has_table() {
        lemma_sleepers(lot, lot.threads[t as int].key);
        let b = lot.bucket_of(lot.threads[t as int].key);
        assert(lot.bucket_valid(b));
        if lot.is_queued(t) {
            let i = choose|i: int| 0 <= i < lot.queue(b).len() && lot.queue(b)[i] == t;
            assert(lot.queue(b)[i] == t);
        }
    }
}

/// Making a table leaves the queues alone.
proof fn lemma_table_queues(lot: LotView, now: Moment, key: usize)
    requires
        lot.valid(),
    ensures
        lot.with_table(now).parked_on(key) == lot.parked_on(key),
        lot.with_table(now).threads == lot.threads,
{
    let ready = lot.with_table(now);
    lemma_valid_with_table(lot, now);
    if !lot.has_table() {
        lemma_bucket_in_range(ready, key);
        let queue = ready.queue(ready.bucket_of(key));
        assert(queue =~= Seq::<usize>::empty());
        lemma_filter_keeps_none(queue, sleeps_on(ready.threads, key));
        assert(ready.parked_on(key) =~= lot.parked_on(key));
    }
}

/// Making room leaves the queues alone.
proof fn lemma_growth_queues(
    before: LotView,
    after: LotView,
    num_threads: nat,
    done: bool,
    key: usize,
)
    requires
        before.valid(),
        num_threads <= MAX_THREADS,
        growth(before, after, num_threads, done),
    ensures
        after.parked_on(key) == before.parked_on(key),
        after.threads == before.threads,
{
    if done {
        law_growth_makes_room(before, after, num_threads, key);
    } else {
        let now = choose|now: Moment| {
            let ready = #[trigger] before.with_table(now);
            before.ready_at(now) && after == ready
        };
        lemma_table_queues(before, now, key);
    }
}

/// Taking and freeing locks leaves the queues alone.
proof fn lemma_lock_queues(before: LotView, after: LotView, key: usize)
    requires
        after.hash_bits == before.hash_bits,
        after.threads == before.threads,
        after.buckets.len() == before.buckets.len(),
        before.has_table() ==> 0 <= before.bucket_of(key) < before.buckets.len(),
        forall|b: int|
            0 <= b < before.buckets.len() ==> (#[trigger] after.buckets[b]).queue
                == before.buckets[b].queue,
    ensures
        after.parked_on(key) == before.parked_on(key),
{
}

/// What an operation that makes nobody wait leaves of the sleepers of a key:
/// some or all of them.
#[verifier::rlimit(30)]
proof fn lemma_no_new_sleepers(
    before: LotView,
    operation: Operation,
    after: LotView,
    key: usize,
    t: usize,
)
    requires
        before.valid(),
        after.valid(),
        before.threads.len() <= usize::MAX,
        performs(before, operation, after),
        makes_nobody_wait(before, operation),
        t < after.threads.len(),
        after.threads[t as int].key == key,
        after.parked_on(key).contains(t),
        waits(after.threads[t as int]),
    ensures
        t < before.threads.len(),
        before.parked_on(key).contains(t),
        after.threads[t as int] == before.threads[t as int],
{
    lemma_is_queued(after, t);
    if before.has_table() {
        lemma_bucket_in_range(before, key);
    }
    match operation {
        Operation::MakeTable { now } => {
            lemma_table_queues(before, now, key);
        },
        Operation::Grow { num_threads, done } => {
            lemma_growth_queues(before, after, num_threads, done, key);
        },
        Operation::Join { thread, grown, thread_id } => {
            lemma_growth_queues(before, grown, before.num_threads + 1, true, key);
            assert(t != thread);
            lemma_queue_kept(grown, after, key, t);
        },
        Operation::Leave { thread } => {
            assert(t != thread);
            lemma_queue_kept(before, after, key, t);
        },
        Operation::LockBucket { key: k, outcome } => {
            let now = choose|now: Moment| {
                let ready = #[trigger] before.with_table(now);
                let b = ready.bucket_of(k);
                &&& before.ready_at(now)
                &&& match outcome {
                    Some(bucket) => !ready.holds(b) && bucket.bucket() == b && after
                        == ready.with_lock(b, true),
                    None => ready.holds(b) && after == ready,
                }
            };
            let ready = before.with_table(now);
            lemma_table_queues(before, now, key);
            lemma_valid_with_table(before, now);
            lemma_bucket_in_range(ready, key);
            lemma_bucket_in_range(ready, k);
            lemma_lock_queues(ready, after, key);
        },
        Operation::LockPair { key1, key2, outcome } => {
            let now = choose|now: Moment| {
                let ready = #[trigger] before.with_table(now);
                let b1 = ready.bucket_of(key1);
                let b2 = ready.bucket_of(key2);
                &&& before.ready_at(now)
                &&& match outcome {
                    Some(_) => after == ready.with_lock(b1, true).with_lock(b2, true),
                    None => after == ready,
                }
            };
            let ready = before.with_table(now);
            lemma_table_queues(before, now, key);
            lemma_valid_with_table(before, now);
            lemma_bucket_in_range(ready, key);
            lemma_bucket_in_range(ready, key1);
            lemma_bucket_in_range(ready, key2);
            lemma_lock_queues(ready, after, key);
        },
        Operation::LockAll => {
            lemma_lock_queues(before, after, key);
        },
        Operation::Unlock { bucket } => {
            lemma_lock_queues(before, after, key);
        },
        Operation::UnlockAll => {
            lemma_lock_queues(before, after, key);
        },
        Operation::TimeOut { thread } => {
            let me = before.threads[thread as int];
            let bucket = before.bucket_of(me.key);
            if me.parked {
                let out = seq![thread];
                assert(out[0] == thread);
                assert(before.thread_valid(thread));
                lemma_gone_from_queue(before, bucket, out, me.unpark_token, after, key, t);
            } else {
                lemma_lock_queues(before, after, key);
            }
        },
        Operation::UnparkOne { key: k, token, result, thread, gone } => {
            let bucket = before.bucket_of(k);
            let taken = front(before.parked_on(k));
            lemma_front(before, k);
            lemma_valid_released(before, gone, bucket, taken, token, result.be_fair);
            lemma_bucket_in_range(gone, key);
            lemma_lock_queues(gone, after, key);
            lemma_released_step(before, gone, bucket, taken, token, result.be_fair, key, t);
        },
        Operation::UnparkAll { key: k, token } => {
            lemma_sleepers(before, k);
            lemma_gone_from_queue(
                before,
                before.bucket_of(k),
                before.parked_on(k),
                token,
                after,
                key,
                t,
            );
        },
        Operation::UnparkFilter { key: k, answers, token, result, threads, gone } => {
            let bucket = before.bucket_of(k);
            lemma_picked(before, k, answers);
            lemma_valid_released(before, gone, bucket, threads, token, result.be_fair);
            lemma_bucket_in_range(gone, key);
            lemma_lock_queues(gone, after, key);
            lemma_released_step(before, gone, bucket, threads, token, result.be_fair, key, t);
        },
        Operation::UnparkRequeue { key_from, key_to, op, token, result, thread, gone } => {
            lemma_bucket_in_range(before, key_from);
            lemma_bucket_in_range(before, key_to);
            if op == RequeueOp::Abort {
                lemma_lock_queues(before, after, key);
            } else {
                let from = before.bucket_of(key_from);
                let taken = concerned(op, before.parked_on(key_from));
                let picked = to_wake(op, taken);
                lemma_sleepers(before, key_from);
                assert forall|x: usize| #[trigger] picked.contains(x) implies before.queue(
                    from,
                ).contains(x) by {
                    assert(before.parked_on(key_from).contains(x));
                }
                lemma_nobody_moved(before, from, to_move(op, taken), key_to);
                lemma_valid_released(before, gone, from, picked, token, result.be_fair);
                lemma_bucket_in_range(gone, key);
                lemma_lock_queues(gone, after, key);
                lemma_released_step(before, gone, from, picked, token, result.be_fair, key, t);
            }
        },
        Operation::Acquire { thread, key: k } => {
            assert(t != thread);
            lemma_queue_kept(before, after, key, t);
        },
        Operation::Release { thread, key: k } => {
            assert(t != thread);
            lemma_queue_kept(before, after, key, t);
        },
        Operation::Report { thread } => {
            assert(t != thread);
            lemma_queue_kept(before, after, key, t);
        },
        Operation::Check { now, events, cycles } => {
            let ready = before.with_table(now);
            lemma_table_queues(before, now, key);
            lemma_valid_with_table(before, now);
            if has_cycle(wait_edges(ready)) {
                lemma_all_told(ready.threads, cycles);
                assert(is_told(
                    ready.threads[t as int],
                    all_told(ready.threads, cycles)[t as int],
                    cycles,
                    t,
                ));
                lemma_bucket_in_range(ready, key);
                lemma_queue_kept(ready, after, key, t);
            }
        },
        _ => {},
    }
}

/// A thread whose own record stays, in queues that stay.
proof fn lemma_queue_kept(before: LotView, after: LotView, key: usize, t: usize)
    requires
        after.hash_bits == before.hash_bits,
        after.buckets == before.buckets,
        after.threads[t as int] == before.threads[t as int],
        after.parked_on(key).contains(t),
    ensures
        before.parked_on(key).contains(t),
{
    let queue = before.queue(before.bucket_of(key));
    lemma_filter_members(queue, sleeps_on(before.threads, key));
    lemma_filter_members(queue, sleeps_on(after.threads, key));
}

/// Who still sleeps after some threads of a bucket have been let go and the
/// bucket was unlocked.
proof fn lemma_gone_from_queue(
    before: LotView,
    bucket: int,
    gone: Seq<usize>,
    token: UnparkToken,
    after: LotView,
    key: usize,
    t: usize,
)
    requires
        before.valid(),
        0 <= bucket < before.buckets.len(),
        forall|x: usize| #[trigger] gone.contains(x) ==> before.queue(bucket).contains(x),
        after == before.unparked(bucket, gone, token).with_lock(bucket, false),
        after.parked_on(key).contains(t),
        t < before.threads.len(),
    ensures
        before.parked_on(key).contains(t),
        after.threads[t as int] == before.threads[t as int],
{
    let unlocked = before.unparked(bucket, gone, token);
    lemma_bucket_in_range(before, key);
    lemma_lock_queues(unlocked, after, key);
    law_unparked_leave(before, bucket, gone, token, key);
    lemma_without_members(before.parked_on(key), gone);
}

/// Who still sleeps after threads have been released.
proof fn lemma_released_step(
    before: LotView,
    after: LotView,
    bucket: int,
    threads: Seq<usize>,
    token: UnparkToken,
    be_fair: bool,
    key: usize,
    t: usize,
)
    requires
        before.valid(),
        0 <= bucket < before.buckets.len(),
        released(before, after, bucket, threads, token, be_fair),
        forall|x: usize| #[trigger] threads.contains(x) ==> before.queue(bucket).contains(x),
        after.parked_on(key).contains(t),
        t < after.threads.len(),
    ensures
        t < before.threads.len(),
        before.parked_on(key).contains(t),
        after.threads[t as int] == before.threads[t as int],
{
    lemma_released_queues(before, after, bucket, threads, token, be_fair, key);
    lemma_released_length(before, after, bucket, threads, token, be_fair);
    lemma_without_members(before.parked_on(key), threads);
    assert(after.threads[t as int] == woken(before.threads, threads, token)[t as int]);
}

/// Moving nobody to another key changes nothing.
proof fn lemma_nobody_moved(lot: LotView, from: int, moved: Seq<usize>, key_to: usize)
    requires
        moved.len() == 0,
        0 <= from < lot.buckets.len(),
        0 <= lot.bucket_of(key_to) < lot.buckets.len(),
    ensures
        lot.requeued(from, moved, key_to) == lot,
{
    lemma_filter_keeps_all(lot.queue(from), |t: usize| !moved.contains(t));
    assert(lot.requeued(from, moved, key_to).threads =~= lot.threads);
    assert(lot.with_queue(from, lot.queue(from)).buckets =~= lot.buckets);
    assert(lot.queue(lot.bucket_of(key_to)) + moved =~= lot.queue(lot.bucket_of(key_to)));
    assert(lot.requeued(from, moved, key_to).buckets =~= lot.buckets);
}

/// An operation that makes nobody wait closes no cycle.
proof fn lemma_no_new_cycle(
    before: LotView,
    operation: Operation,
    after: LotView,
    cycle: Seq<usize>,
)
    requires
        before.valid(),
        after.valid(),
        before.threads.len() <= usize::MAX,
        performs(before, operation, after),
        makes_nobody_wait(before, operation),
        is_wait_cycle(after, cycle),
    ensures
        is_wait_cycle(before, cycle),
{
    lemma_queued_in(before, before.buckets.len() as int);
    assert forall|t: usize| #[trigger] cycle.contains(t) implies {
        &&& before.all_queued().contains(t)
        &&& before.threads[t as int] == after.threads[t as int]
    } by {
        lemma_named_queued(after, cycle, t);
        let key = after.threads[t as int].key;
        lemma_is_queued(after, t);
        lemma_no_new_sleepers(before, operation, after, key, t);
        lemma_is_queued(before, t);
        if before.has_table() {
            lemma_bucket_in_range(before, key);
        }
    }
    assert forall|i: int| 0 <= i < cycle.len() implies #[trigger] waits_at(before, cycle, i) by {
        assert(waits_at(after, cycle, i));
        assert(cycle.contains(cycle[i]));
        assert(cycle.contains(cycle[next_place(cycle, i)]));
    }
}

/// From a check on, there is no cycle of waiting threads, until a thread is put
/// to sleep or moved to another key.
proof fn lemma_no_cycle_since(
    lots: Seq<LotView>,
    operations: Seq<Operation>,
    i: int,
    j: int,
    cycle: Seq<usize>,
)
    requires
        is_run(lots, operations),
        0 <= i < j < lots.len(),
        operations[i] is Check,
        forall|k: int|
            i < k < j ==> makes_nobody_wait(#[trigger] lots[k], #[trigger] operations[k]),
    ensures
        !is_wait_cycle(lots[j], cycle),
    decreases j - i,
{
    assert(performs(lots[j - 1], operations[j - 1], lots[j]));
    if j == i + 1 {
        if let Operation::Check { now, events, cycles } = operations[i] {
            lemma_no_cycle_left(lots[i], lots[j], now, events, cycles, cycle);
        }
    } else if is_wait_cycle(lots[j], cycle) {
        lemma_no_new_cycle(lots[j - 1], operations[j - 1], lots[j], cycle);
        lemma_no_cycle_since(lots, operations, i, j - 1, cycle);
    }
}

/// A check reports only deadlocks since the last one: if no thread was put to
/// sleep or moved to another key in between, whatever else was done, it names
/// nobody and wakes nobody. Who acquires or releases a resource is awake.
pub proof fn law_only_new_deadlocks_are_reported(
    lots: Seq<LotView>,
    operations: Seq<Operation>,
    i: int,
    j: int,
    now: Moment,
    events: Seq<SearchEvent>,
    cycles: Seq<Seq<usize>>,
)
    requires
        is_run(lots, operations),
        0 <= i < j < operations.len(),
        operations[i] is Check,
        operations[j] == (Operation::Check { now, events, cycles }),
        forall|k: int|
            i < k < j ==> makes_nobody_wait(#[trigger] lots[k], #[trigger] operations[k]),
    ensures
        cycles.len() == 0,
        lots[j + 1] == lots[j].with_table(now),
{
    assert(performs(lots[j], operations[j], lots[j + 1]));
    let ready = lots[j].with_table(now);
    lemma_valid_with_table(lots[j], now);
    law_check_names_deadlocked_threads(lots[j], lots[j + 1], now, events, cycles, 0);
    assert forall|cycle: Seq<usize>| !is_wait_cycle(ready, cycle) by {
        if is_wait_cycle(ready, cycle) {
            lemma_no_new_cycle(lots[j], Operation::MakeTable { now }, ready, cycle);
            lemma_no_cycle_since(lots, operations, i, j, cycle);
        }
    }
}

/// What no operation of others changes of a thread: the park token, which only
/// the thread itself sets when it parks, and the resources, which only the
/// thread itself acquires and releases.
proof fn lemma_own_affairs(before: LotView, operation: Operation, after: LotView, t: usize)
    requires
        before.valid(),
        before.threads.len() <= usize::MAX,
        performs(before, operation, after),
        t < before.threads.len(),
        !(operation is Join) || acts(operation) != Some(t),
    ensures
        t < after.threads.len(),
        !(operation is Park) || acts(operation) != Some(t) ==> after.threads[t as int].park_token
            == before.threads[t as int].park_token,
        (!(operation is Acquire) && !(operation is Release)) || acts(operation) != Some(t)
            ==> after.threads[t as int].deadlock.resources
            == before.threads[t as int].deadlock.resources,
{
    match operation {
        Operation::Grow { num_threads, done } => {
            lemma_growth_threads(before, after, num_threads, done);
        },
        Operation::Join { thread, grown, thread_id } => {
            lemma_growth_threads(before, grown, before.num_threads + 1, true);
        },
        Operation::UnparkOne { key, token, result, thread, gone } => {
            let bucket = before.bucket_of(key);
            let taken = front(before.parked_on(key));
            lemma_front(before, key);
            lemma_released_queues(before, gone, bucket, taken, token, result.be_fair, key);
            lemma_released_length(before, gone, bucket, taken, token, result.be_fair);
            assert(gone.threads[t as int] == woken(before.threads, taken, token)[t as int]);
        },
        Operation::UnparkFilter { key, answers, token, result, threads, gone } => {
            let bucket = before.bucket_of(key);
            lemma_picked(before, key, answers);
            lemma_released_queues(before, gone, bucket, threads, token, result.be_fair, key);
            lemma_released_length(before, gone, bucket, threads, token, result.be_fair);
            assert(gone.threads[t as int] == woken(before.threads, threads, token)[t as int]);
        },
        Operation::UnparkRequeue { key_from, key_to, op, token, result, thread, gone } => {
            if op != RequeueOp::Abort {
                lemma_requeue_threads(
                    before,
                    gone,
                    key_from,
                    key_to,
                    op,
                    token,
                    result,
                    thread,
                    t,
                );
            }
        },
        Operation::Check { now, events, cycles } => {
            let ready = before.with_table(now);
            lemma_all_told(ready.threads, cycles);
            if has_cycle(wait_edges(ready)) {
                assert(is_told(
                    ready.threads[t as int],
                    all_told(ready.threads, cycles)[t as int],
                    cycles,
                    t,
                ));
            }
        },
        _ => {},
    }
}

/// The park token with which a thread has parked stays in its record, whatever
/// is done meanwhile, as long as the thread does not park again and its record
/// goes to nobody else. So this is the token about which a filter is asked.
pub proof fn law_park_token_stays(
    lots: Seq<LotView>,
    operations: Seq<Operation>,
    i: int,
    j: int,
    thread: usize,
    key: usize,
    park_token: ParkToken,
    with_timeout: bool,
)
    requires
        is_run(lots, operations),
        0 <= i < j < lots.len(),
        operations[i] == (Operation::Park { thread, key, park_token, with_timeout }),
        forall|k: int|
            i < k < j ==> !(acts(#[trigger] operations[k]) == Some(thread) && (
            operations[k] is Park || operations[k] is Join)),
    ensures
        thread < lots[j].threads.len(),
        lots[j].threads[thread as int].park_token == park_token,
    decreases j - i,
{
    assert(performs(lots[j - 1], operations[j - 1], lots[j]));
    if j > i + 1 {
        law_park_token_stays(
            lots,
            operations,
            i,
            j - 1,
            thread,
            key,
            park_token,
            with_timeout,
        );
        assert(!(acts(operations[j - 1]) == Some(thread) && (operations[j - 1] is Park
            || operations[j - 1] is Join)));
        lemma_own_affairs(lots[j - 1], operations[j - 1], lots[j], thread);
    }
}

/// The filter of an `unpark_filter` is asked about a thread by the very token
/// with which the thread has parked, whatever was done meanwhile: the thread is
/// woken if the filter answers so for this token, and sleeps on if it answers
/// otherwise or stops before it is asked.
pub proof fn law_filter_is_asked_about_the_park_token<
    F: FnMut(ParkToken) -> FilterOp,
    C: FnOnce(UnparkResult) -> UnparkToken,
>(
    lots: Seq<LotView>,
    operations: Seq<Operation>,
    i: int,
    j: int,
    thread: usize,
    first_key: usize,
    park_token: ParkToken,
    with_timeout: bool,
    after: LotView,
    key: usize,
    filter: F,
    callback: C,
    result: UnparkResult,
    threads: Seq<usize>,
) -> (answer: Option<FilterOp>)
    requires
        is_run(lots, operations),
        0 <= i < j < lots.len(),
        operations[i] == (Operation::Park { thread, key: first_key, park_token, with_timeout }),
        forall|k: int|
            i < k < j ==> !(acts(#[trigger] operations[k]) == Some(thread) && (
            operations[k] is Park || operations[k] is Join)),
        lots[j].has_table(),
        lots[j].buckets[lots[j].bucket_of(key)].queue.contains(thread),
        lots[j].threads[thread as int].key == key,
        unpark_filter_done(
            lots[j],
            after,
            lots[j].bucket_of(key),
            key,
            filter,
            callback,
            result,
            threads,
        ),
    ensures
        answer matches Some(answer) ==> call_ensures(filter, (park_token,), answer),
        threads.contains(thread) <==> answer == Some(FilterOp::Unpark),
        after.threads[thread as int].parked <==> lots[j].threads[thread as int].parked && answer
            != Some(FilterOp::Unpark),
{
    let lot = lots[j];
    let bucket = lot.bucket_of(key);
    let queue = lot.buckets[bucket].queue;
    law_park_token_stays(
        lots,
        operations,
        i,
        j,
        thread,
        first_key,
        park_token,
        with_timeout,
    );
    lemma_bucket_in_range(lot, key);
    let called = law_unpark_filter_wakes_those_answered(
        lot,
        after,
        bucket,
        key,
        filter,
        callback,
        result,
        threads,
    );
    let answers = called.0;
    let sleepers = queue.filter(|t: usize| lot.threads[t as int].key == key);
    lemma_filter_members(queue, |t: usize| lot.threads[t as int].key == key);
    assert(sleepers.contains(thread));
    let k = choose|k: int| 0 <= k < sleepers.len() && sleepers[k] == thread;
    assert(sleepers[k] == thread);
    if !threads.contains(thread) {
        assert(after.threads[thread as int] == lot.threads[thread as int]);
    }
    if k < answers.len() {
        assert(call_ensures(
            filter,
            (lot.threads[sleepers[k] as int].park_token,),
            answers[k],
        ));
        Some(answers[k])
    } else {
        None
    }
}

/// How much more often a thread acquires a resource than it releases it, in the
/// operations from `i` up to `j`.
pub open spec fn acquired_more(
    operations: Seq<Operation>,
    i: int,
    j: int,
    thread: usize,
    key: usize,
) -> int
    decreases j - i,
{
    if j <= i {
        0
    } else {
        acquired_more(operations, i, j - 1, thread, key) + (if operations[j - 1]
            == (Operation::Acquire { thread, key }) {
            1int
        } else if operations[j - 1] == (Operation::Release { thread, key }) {
            -1
        } else {
            0
        })
    }
}

/// A thread owns a resource as often as it has acquired it and not released it,
/// whatever else is done meanwhile. So after more acquires than releases it
/// owns it.
pub proof fn law_resources_are_counted(
    lots: Seq<LotView>,
    operations: Seq<Operation>,
    i: int,
    j: int,
    thread: usize,
    key: usize,
)
    requires
        is_run(lots, operations),
        0 <= i <= j < lots.len(),
        thread < lots[i].threads.len(),
        forall|k: int|
            i <= k < j ==> !(acts(#[trigger] operations[k]) == Some(thread)
                && operations[k] is Join),
    ensures
        thread < lots[j].threads.len(),
        lots[j].threads[thread as int].deadlock.resources.to_multiset().count(key)
            == lots[i].threads[thread as int].deadlock.resources.to_multiset().count(key)
            + acquired_more(operations, i, j, thread, key),
        acquired_more(operations, i, j, thread, key) > 0
            ==> lots[j].threads[thread as int].deadlock.resources.contains(key),
    decreases j - i,
{
    if j > i {
        let before = lots[j - 1];
        let after = lots[j];
        let operation = operations[j - 1];
        assert(performs(before, operation, after));
        law_resources_are_counted(lots, operations, i, j - 1, thread, key);
        assert(!(acts(operation) == Some(thread) && operation is Join));
        lemma_own_affairs(before, operation, after, thread);
        match operation {
            Operation::Acquire { thread: who, key: what } => {
                if who == thread {
                    law_acquire_adds_one(before, after, thread, what);
                }
            },
            Operation::Release { thread: who, key: what } => {
                if who == thread {
                    law_release_removes_one(before, after, thread, what);
                    before.threads[thread as int].deadlock.resources.to_multiset_ensures();
                }
            },
            _ => {},
        }
    }
    lots[j].threads[thread as int].deadlock.resources.to_multiset_ensures();
}

/// Every operation goes by the same clock, which never goes back. Where a table
/// is made, that is at a moment that the clock reads.
pub proof fn law_clock_never_goes_back(before: LotView, operation: Operation, after: LotView)
    requires
        before.valid(),
        performs(before, operation, after),
        operation matches Operation::MakeTable { now } ==> before.ready_at(now),
        operation matches Operation::Check { now, .. } ==> before.ready_at(now),
    ensures
        after.started == before.started,
        after.latest.nanos >= before.latest.nanos,
{
    match operation {
        Operation::MakeTable { now } => {
            lemma_table_clock(before, now);
        },
        Operation::Grow { num_threads, done } => {
            lemma_growth_clock(before, after, num_threads, done);
        },
        Operation::Join { thread, grown, thread_id } => {
            lemma_growth_clock(before, grown, before.num_threads + 1, true);
        },
        Operation::LockBucket { key, outcome } => {
            let now = choose|now: Moment| {
                let ready = #[trigger] before.with_table(now);
                let b = ready.bucket_of(key);
                &&& before.ready_at(now)
                &&& match outcome {
                    Some(bucket) => !ready.holds(b) && bucket.bucket() == b && after
                        == ready.with_lock(b, true),
                    None => ready.holds(b) && after == ready,
                }
            };
            lemma_table_clock(before, now);
        },
        Operation::LockPair { key1, key2, outcome } => {
            let now = choose|now: Moment| {
                let ready = #[trigger] before.with_table(now);
                let b1 = ready.bucket_of(key1);
                let b2 = ready.bucket_of(key2);
                &&& before.ready_at(now)
                &&& match outcome {
                    Some(_) => after == ready.with_lock(b1, true).with_lock(b2, true),
                    None => after == ready,
                }
            };
            lemma_table_clock(before, now);
        },
        Operation::UnparkOne { key, token, result, thread, gone } => {
            lemma_released_clock(
                before,
                gone,
                before.bucket_of(key),
                front(before.parked_on(key)),
                token,
                result.be_fair,
            );
        },
        Operation::UnparkFilter { key, answers, token, result, threads, gone } => {
            lemma_released_clock(
                before,
                gone,
                before.bucket_of(key),
                threads,
                token,
                result.be_fair,
            );
        },
        Operation::UnparkRequeue { key_from, key_to, op, token, result, thread, gone } => {
            if op != RequeueOp::Abort {
                let from = before.bucket_of(key_from);
                let taken = concerned(op, before.parked_on(key_from));
                lemma_released_clock(
                    before.requeued(from, to_move(op, taken), key_to),
                    gone,
                    from,
                    to_wake(op, taken),
                    token,
                    result.be_fair,
                );
            }
        },
        Operation::Check { now, events, cycles } => {
            lemma_table_clock(before, now);
        },
        _ => {},
    }
}

/// A table is made at a moment that the clock reads.
proof fn lemma_table_clock(lot: LotView, now: Moment)
    requires
        lot.ready_at(now),
    ensures
        lot.with_table(now).started == lot.started,
        lot.with_table(now).latest.nanos >= lot.latest.nanos,
{
    if !lot.has_table() {
        law_clock_reads_whole_duration(lot.started, lot.latest, now);
    }
}

/// So is a larger one.
proof fn lemma_growth_clock(before: LotView, after: LotView, num_threads: nat, done: bool)
    requires
        growth(before, after, num_threads, done),
    ensures
        after.started == before.started,
        after.latest.nanos >= before.latest.nanos,
{
    let now = choose|now: Moment| {
        let ready = #[trigger] before.with_table(now);
        &&& before.ready_at(now)
        &&& if ready.roomy(num_threads) {
            done && after == ready
        } else if ready.some_locked() {
            !done && after == ready
        } else {
            done && exists|hash_bits: u32, then: Moment|
                ready.reads(then) && fitting_bits(hash_bits, num_threads) && after
                    == #[trigger] ready.grown(hash_bits, then)
        }
    };
    let ready = before.with_table(now);
    lemma_table_clock(before, now);
    if !ready.roomy(num_threads) && !ready.some_locked() {
        let (hash_bits, then) = choose|hash_bits: u32, then: Moment|
            ready.reads(then) && fitting_bits(hash_bits, num_threads) && after
                == #[trigger] ready.grown(hash_bits, then);
        law_clock_reads_whole_duration(ready.started, ready.latest, then);
    }
}

/// The clock is read where threads are let go.
proof fn lemma_released_clock(
    before: LotView,
    after: LotView,
    bucket: int,
    gone: Seq<usize>,
    token: UnparkToken,
    be_fair: bool,
)
    requires
        released(before, after, bucket, gone, token, be_fair),
    ensures
        after.started == before.started,
        after.latest.nanos >= before.latest.nanos,
{
    if gone.len() > 0 {
        let asked = choose|asked: LotView| #[trigger]
            fairness(before, asked, bucket, be_fair) && after == asked.unparked(
                bucket,
                gone,
                token,
            );
        let now = choose|now: Moment|
            before.reads(now) && be_fair == before.buckets[bucket].fair.due(now) && asked
                == #[trigger] before.asked_at(bucket, now);
        law_clock_reads_whole_duration(before.started, before.latest, now);
    }
}

/// A wait cycle that is left after threads have been told was there before.
proof fn lemma_cycle_was_there(
    ready: LotView,
    after: LotView,
    cycles: Seq<Seq<usize>>,
    cycle: Seq<usize>,
)
    requires
        after.valid(),
        ready.threads.len() <= usize::MAX,
        after == ready.with_threads(all_told(ready.threads, cycles)),
        is_wait_cycle(after, cycle),
    ensures
        is_wait_cycle(ready, cycle),
{
    lemma_same_queued(ready, after, ready.buckets.len() as int);
    lemma_all_told(ready.threads, cycles);
    assert forall|t: usize| #[trigger] cycle.contains(t) implies ready.threads[t as int]
        == after.threads[t as int] by {
        lemma_named_queued(after, cycle, t);
        assert(after.threads[t as int] == all_told(ready.threads, cycles)[t as int]);
        if exists|c: int| 0 <= c < cycles.len() && #[trigger] cycles[c].contains(t) {
            assert(after.threads[t as int].deadlock.deadlocked);
        }
    }
    assert forall|i: int| 0 <= i < cycle.len() implies #[trigger] waits_at(ready, cycle, i) by {
        assert(waits_at(after, cycle, i));
        assert(cycle.contains(cycle[i]));
        assert(cycle.contains(cycle[next_place(cycle, i)]));
    }
}

} // verus!
