//! What the operations of the parking lot make of the queues of the keys.
use crate::hash::lemma_hash_in_range;
use crate::hash_table::{belongs, fitting_bits, MAX_THREADS};
use crate::locking::{bucket_attempt, LockedBucket};
use crate::lot::growth;
use crate::lot_queues::{fairness, lemma_separate};
use crate::model::{lemma_bucket_in_range, sleeps_on, without, woken, LotView};
use crate::queue::at;
use crate::queue_ops::{lemma_let_go_members, lemma_push_members, let_go, some_left};
use crate::requeue::{lemma_concerned, lemma_requeue, requeue_unparked};
use crate::requeue_walk::{concerned, lemma_to_move_members, to_move, to_wake};
use crate::seq_facts::{lemma_filter_agree, lemma_filter_keeps_all, lemma_filter_keeps_none, lemma_filter_members, lemma_filter_twice};
use crate::time::Moment;
use crate::tokens::{FilterOp, ParkToken, RequeueOp, UnparkResult, UnparkToken};
use crate::unpark::{filter_unparked, front, lemma_sleepers, lemma_valid_asked, one_unparked, released};
use crate::validity::{lemma_valid_parked, lemma_valid_with_table, lemma_without_members};
use vstd::arithmetic::power2::{lemma2_to64, lemma_pow2_pos, lemma_pow2_strictly_increases, pow2};
use vstd::prelude::*;

verus! {

/// A thread that goes to sleep comes last in the queue of its key. The queues
/// of all other keys stay as they are.
pub proof fn law_park_appends(
    lot: LotView,
    thread: usize,
    key: usize,
    park_token: ParkToken,
    with_timeout: bool,
    other: usize,
)
    requires
        lot.valid(),
        lot.has_table(),
        lot.is_thread(thread),
        !lot.threads[thread as int].parked,
        !lot.threads[thread as int].deadlock.deadlocked,
    ensures
        ({
            let after = lot.parked(thread, key, park_token, with_timeout);
            &&& after.parked_on(key) == lot.parked_on(key).push(thread)
            &&& other != key ==> after.parked_on(other) == lot.parked_on(other)
        }),
{
    let after = lot.parked(thread, key, park_token, with_timeout);
    lemma_bucket_in_range(lot, key);
    lemma_bucket_in_range(lot, other);
    lemma_park_queue(lot, thread, key, park_token, with_timeout, key);
    lemma_park_queue(lot, thread, key, park_token, with_timeout, other);
}

proof fn lemma_park_queue(
    lot: LotView,
    thread: usize,
    key: usize,
    park_token: ParkToken,
    with_timeout: bool,
    k: usize,
)
    requires
        lot.valid(),
        lot.has_table(),
        lot.is_thread(thread),
        !lot.threads[thread as int].parked,
        !lot.threads[thread as int].deadlock.deadlocked,
    ensures
        lot.parked(thread, key, park_token, with_timeout).parked_on(k) == if k == key {
            lot.parked_on(k).push(thread)
        } else {
            lot.parked_on(k)
        },
{
    let after = lot.parked(thread, key, park_token, with_timeout);
    lemma_bucket_in_range(lot, key);
    lemma_bucket_in_range(lot, k);
    let b = lot.bucket_of(k);
    let queue = lot.queue(b);
    let p = sleeps_on(lot.threads, k);
    let q = sleeps_on(after.threads, k);
    assert(lot.bucket_valid(b));
    assert forall|i: int| 0 <= i < queue.len() implies p(#[trigger] queue[i]) == q(queue[i]) by {
        assert(queue[i] != thread);
    }
    lemma_filter_agree(queue, p, q);
    if b == lot.bucket_of(key) {
        queue.lemma_filter_push(thread, q);
    }
}

/// Where some threads of a bucket are let go, they leave the queues of their
/// keys. All others stay, in order.
pub proof fn law_unparked_leave(
    lot: LotView,
    bucket: int,
    gone: Seq<usize>,
    token: UnparkToken,
    key: usize,
)
    requires
        lot.valid(),
        0 <= bucket < lot.buckets.len(),
        forall|t: usize| #[trigger] gone.contains(t) ==> lot.queue(bucket).contains(t),
    ensures
        lot.unparked(bucket, gone, token).parked_on(key) == without(lot.parked_on(key), gone),
{
    let after = lot.unparked(bucket, gone, token);
    lemma_bucket_in_range(lot, key);
    let b = lot.bucket_of(key);
    let queue = lot.queue(b);
    let p = sleeps_on(lot.threads, key);
    let q = sleeps_on(after.threads, key);
    let stays = |t: usize| !gone.contains(t);
    let both = |t: usize| p(t) && stays(t);
    assert(lot.bucket_valid(b));
    assert forall|t: usize| queue.contains(t) implies p(t) == q(t) by {
        let i = choose|i: int| 0 <= i < queue.len() && queue[i] == t;
        assert(queue[i] == t);
        assert(lot.is_thread(t));
    }
    lemma_filter_twice(queue, p, stays, both);
    if b == bucket {
        lemma_without_members(queue, gone);
        let left = without(queue, gone);
        assert forall|i: int| 0 <= i < left.len() implies p(#[trigger] left[i]) == q(left[i]) by {
            assert(left.contains(left[i]));
        }
        lemma_filter_agree(left, p, q);
        lemma_filter_twice(queue, stays, p, both);
    } else {
        assert forall|i: int| 0 <= i < queue.len() implies p(#[trigger] queue[i]) == q(
            queue[i],
        ) by {
            assert(queue.contains(queue[i]));
        }
        lemma_filter_agree(queue, p, q);
        lemma_separate(lot);
        assert forall|i: int| 0 <= i < queue.len() implies p(#[trigger] queue[i]) == both(
            queue[i],
        ) by {
            assert(lot.queue(b).contains(queue[i]));
            if gone.contains(queue[i]) {
                assert(lot.queue(bucket).contains(queue[i]));
            }
        }
        lemma_filter_agree(queue, p, both);
    }
}

/// Asking whether to be fair leaves the queues alone.
pub(crate) proof fn lemma_released_queues(
    before: LotView,
    after: LotView,
    bucket: int,
    gone: Seq<usize>,
    token: UnparkToken,
    be_fair: bool,
    key: usize,
)
    requires
        before.valid(),
        0 <= bucket < before.buckets.len(),
        released(before, after, bucket, gone, token, be_fair),
        forall|t: usize| #[trigger] gone.contains(t) ==> before.queue(bucket).contains(t),
    ensures
        after.parked_on(key) == without(before.parked_on(key), gone),
        forall|t: usize|
            t < before.threads.len() ==> #[trigger] after.threads[t as int] == woken(
                before.threads,
                gone,
                token,
            )[t as int],
{
    if gone.len() == 0 {
        lemma_filter_keeps_all(before.parked_on(key), |t: usize| !gone.contains(t));
    } else {
        let asked = choose|asked: LotView| #[trigger]
            fairness(before, asked, bucket, be_fair) && after == asked.unparked(
                bucket,
                gone,
                token,
            );
        lemma_valid_asked(before, asked, bucket, be_fair);
        law_unparked_leave(asked, bucket, gone, token, key);
        lemma_bucket_in_range(before, key);
        assert(asked.queue(asked.bucket_of(key)) == before.queue(before.bucket_of(key)));
        assert(asked.parked_on(key) == before.parked_on(key));
    }
}

/// Those who sleep on another key are not among the sleepers of a key.
proof fn lemma_keys_apart(lot: LotView, key: usize, other: usize, gone: Seq<usize>)
    requires
        lot.valid(),
        lot.has_table(),
        key != other,
        forall|t: usize| #[trigger] gone.contains(t) ==> lot.parked_on(key).contains(t),
    ensures
        without(lot.parked_on(other), gone) == lot.parked_on(other),
{
    lemma_sleepers(lot, key);
    lemma_sleepers(lot, other);
    let sleepers = lot.parked_on(other);
    assert forall|i: int| 0 <= i < sleepers.len() implies !gone.contains(
        #[trigger] sleepers[i],
    ) by {
        assert(sleepers.contains(sleepers[i]));
    }
    lemma_filter_keeps_all(sleepers, |t: usize| !gone.contains(t));
}

/// A queue without its first thread.
proof fn lemma_without_first(queue: Seq<usize>)
    requires
        queue.no_duplicates(),
        queue.len() > 0,
    ensures
        without(queue, queue.take(1)) == queue.skip(1),
{
    let gone = queue.take(1);
    let p = |t: usize| !gone.contains(t);
    assert(queue =~= gone + queue.skip(1));
    Seq::filter_distributes_over_add(gone, queue.skip(1), p);
    assert forall|i: int| 0 <= i < gone.len() implies !p(#[trigger] gone[i]) by {
        assert(gone.contains(gone[i]));
    }
    lemma_filter_keeps_none(gone, p);
    assert forall|i: int| 0 <= i < queue.skip(1).len() implies p(#[trigger] queue.skip(1)[i]) by {
        if gone.contains(queue.skip(1)[i]) {
            assert(queue[0] == queue[i + 1]);
        }
    }
    lemma_filter_keeps_all(queue.skip(1), p);
}

/// `unpark_one` wakes the thread that has slept longest on the key. The others
/// keep their order, and the queues of all other keys stay as they are.
pub proof fn law_first_in_first_out(
    before: LotView,
    after: LotView,
    key: usize,
    token: UnparkToken,
    result: UnparkResult,
    thread: Option<usize>,
    other: usize,
)
    requires
        before.valid(),
        before.has_table(),
        one_unparked(before, after, before.bucket_of(key), key, token, result, thread),
    ensures
        before.parked_on(key).len() > 0 ==> {
            &&& thread == Some(before.parked_on(key)[0])
            &&& after.parked_on(key) == before.parked_on(key).skip(1)
        },
        before.parked_on(key).len() == 0 ==> thread is None && after.parked_on(key).len() == 0,
        other != key ==> after.parked_on(other) == before.parked_on(other),
        result.have_more_threads == (after.parked_on(key).len() > 0),
{
    let sleepers = before.parked_on(key);
    let gone = front(sleepers);
    let b = before.bucket_of(key);
    lemma_sleepers(before, key);
    assert forall|t: usize| #[trigger] gone.contains(t) implies sleepers.contains(t) by {
        let i = choose|i: int| 0 <= i < gone.len() && gone[i] == t;
        assert(sleepers[i] == t);
    }
    lemma_released_queues(before, after, b, gone, token, result.be_fair, key);
    if sleepers.len() > 0 {
        lemma_without_first(sleepers);
    } else {
        lemma_filter_keeps_all(sleepers, |t: usize| !gone.contains(t));
    }
    if other != key {
        lemma_released_queues(before, after, b, gone, token, result.be_fair, other);
        lemma_keys_apart(before, key, other, gone);
    }
}

/// The token with which a thread is unparked is the one that its `park`
/// returns, and the thread stays asleep no longer.
pub proof fn law_token_reaches_thread(
    before: LotView,
    after: LotView,
    bucket: int,
    gone: Seq<usize>,
    token: UnparkToken,
    be_fair: bool,
    thread: usize,
)
    requires
        before.valid(),
        0 <= bucket < before.buckets.len(),
        released(before, after, bucket, gone, token, be_fair),
        forall|t: usize| #[trigger] gone.contains(t) ==> before.queue(bucket).contains(t),
        thread < before.threads.len(),
    ensures
        gone.contains(thread) ==> after.threads[thread as int].unpark_token == token
            && !after.threads[thread as int].parked,
        !gone.contains(thread) ==> after.threads[thread as int] == before.threads[thread as int],
{
    lemma_released_queues(before, after, bucket, gone, token, be_fair, 0);
    assert(after.threads[thread as int] == woken(before.threads, gone, token)[thread as int]);
}

/// `unpark_all` leaves nobody asleep on the key, and all others asleep as they were.
pub proof fn law_unpark_all_empties(lot: LotView, key: usize, token: UnparkToken, other: usize)
    requires
        lot.valid(),
        lot.has_table(),
    ensures
        ({
            let after = lot.unparked(lot.bucket_of(key), lot.parked_on(key), token);
            &&& after.parked_on(key).len() == 0
            &&& other != key ==> after.parked_on(other) == lot.parked_on(other)
        }),
{
    let gone = lot.parked_on(key);
    lemma_sleepers(lot, key);
    law_unparked_leave(lot, lot.bucket_of(key), gone, token, key);
    assert forall|i: int| 0 <= i < gone.len() implies !(|t: usize| !gone.contains(t))(
        #[trigger] gone[i],
    ) by {
        assert(gone.contains(gone[i]));
    }
    lemma_filter_keeps_none(gone, |t: usize| !gone.contains(t));
    if other != key {
        law_unparked_leave(lot, lot.bucket_of(key), gone, token, other);
        lemma_keys_apart(lot, key, other, gone);
    }
}

/// A thread that sleeps is found in the queue of its key, unless the deadlock
/// detector holds it. So one that times out can always leave its queue.
pub proof fn law_sleeper_is_queued(lot: LotView, thread: usize)
    requires
        lot.valid(),
        lot.is_thread(thread),
        lot.threads[thread as int].parked,
        !lot.threads[thread as int].deadlock.deadlocked,
    ensures
        lot.parked_on(lot.threads[thread as int].key).contains(thread),
{
    assert(lot.thread_valid(thread));
    lemma_sleepers(lot, lot.threads[thread as int].key);
}

/// A thread is in the queue of one key only, and once.
pub proof fn law_queues_are_apart(lot: LotView, key: usize, other: usize, thread: usize)
    requires
        lot.valid(),
        lot.has_table(),
        lot.parked_on(key).contains(thread),
        lot.parked_on(other).contains(thread),
    ensures
        key == other,
        lot.parked_on(key).no_duplicates(),
        lot.is_thread(thread),
{
    lemma_sleepers(lot, key);
    lemma_sleepers(lot, other);
}

/// How many answers of a filter let a thread go.
pub open spec fn count_unparks(answers: Seq<FilterOp>) -> nat
    decreases answers.len(),
{
    if answers.len() == 0 {
        0
    } else {
        count_unparks(answers.drop_last()) + if answers.last() == FilterOp::Unpark {
            1nat
        } else {
            0nat
        }
    }
}

proof fn lemma_count_unparks(sleepers: Seq<usize>, answers: Seq<FilterOp>)
    ensures
        let_go(sleepers, answers).len() == count_unparks(answers),
    decreases answers.len(),
{
    if answers.len() > 0 {
        lemma_count_unparks(sleepers, answers.drop_last());
    }
}

/// A filter that lets everybody go it is asked about.
proof fn lemma_let_all_go(sleepers: Seq<usize>, answers: Seq<FilterOp>)
    requires
        answers.len() <= sleepers.len(),
        !some_left(answers),
    ensures
        let_go(sleepers, answers) == sleepers.take(answers.len() as int),
    decreases answers.len(),
{
    if answers.len() > 0 {
        let rest = answers.drop_last();
        assert(!some_left(rest)) by {
            if some_left(rest) {
                let i = choose|i: int| 0 <= i < rest.len() && #[trigger] rest[i] != FilterOp::Unpark;
                assert(answers[i] != FilterOp::Unpark);
            }
        }
        assert(answers[answers.len() - 1] == FilterOp::Unpark);
        lemma_let_all_go(sleepers, rest);
        assert(sleepers.take(answers.len() as int) =~= sleepers.take(rest.len() as int).push(
            sleepers[answers.len() - 1],
        ));
    }
}

/// A filter that leaves a thread that it is asked about.
proof fn lemma_left_behind(sleepers: Seq<usize>, answers: Seq<FilterOp>, i: int)
    requires
        answers.len() <= sleepers.len(),
        sleepers.no_duplicates(),
        0 <= i < answers.len(),
        answers[i] != FilterOp::Unpark,
    ensures
        !let_go(sleepers, answers).contains(sleepers[i]),
    decreases answers.len(),
{
    let rest = answers.drop_last();
    let before = let_go(sleepers, rest);
    if i < rest.len() {
        lemma_left_behind(sleepers, rest, i);
        if answers.last() == FilterOp::Unpark {
            let next = sleepers[answers.len() - 1];
            lemma_push_members(before, next);
            assert(sleepers[i] != next);
        }
    } else {
        lemma_let_go_members(sleepers, rest);
        if before.contains(sleepers[i]) {
            let front = sleepers.take(rest.len() as int);
            let j = choose|j: int| 0 <= j < front.len() && front[j] == sleepers[i];
            assert(sleepers[j] == sleepers[i]);
        }
    }
}

/// `unpark_filter` wakes the threads that the filter picks, in order, and says
/// truly how many they are and, if it wakes any, whether anybody is left asleep
/// on the key. The others keep their order, and the queues of all other keys stay as they are.
pub proof fn law_filter_wakes_those_picked(
    before: LotView,
    after: LotView,
    key: usize,
    answers: Seq<FilterOp>,
    token: UnparkToken,
    result: UnparkResult,
    threads: Seq<usize>,
    other: usize,
)
    requires
        before.valid(),
        before.has_table(),
        answers.len() <= before.parked_on(key).len(),
        answers.len() == before.parked_on(key).len() || (answers.len() > 0 && answers.last()
            == FilterOp::Stop),
        filter_unparked(
            before,
            after,
            before.bucket_of(key),
            key,
            answers,
            token,
            result,
            threads,
        ),
    ensures
        after.parked_on(key) == without(before.parked_on(key), threads),
        other != key ==> after.parked_on(other) == before.parked_on(other),
        result.unparked_threads == count_unparks(answers),
        result.have_more_threads == (threads.len() > 0 && after.parked_on(key).len() > 0),
{
    let sleepers = before.parked_on(key);
    let b = before.bucket_of(key);
    lemma_sleepers(before, key);
    lemma_let_go_members(sleepers, answers);
    lemma_count_unparks(sleepers, answers);
    assert forall|t: usize| #[trigger] threads.contains(t) implies sleepers.contains(t) by {
        let asked = sleepers.take(answers.len() as int);
        let i = choose|i: int| 0 <= i < asked.len() && asked[i] == t;
        assert(sleepers[i] == t);
    }
    lemma_released_queues(before, after, b, threads, token, result.be_fair, key);
    if other != key {
        lemma_released_queues(before, after, b, threads, token, result.be_fair, other);
        lemma_keys_apart(before, key, other, threads);
    }
    let stays = |t: usize| !threads.contains(t);
    if some_left(answers) {
        let i = choose|i: int| 0 <= i < answers.len() && #[trigger] answers[i] != FilterOp::Unpark;
        lemma_left_behind(sleepers, answers, i);
        lemma_filter_members(sleepers, stays);
        assert(sleepers.contains(sleepers[i]));
        assert(without(sleepers, threads).contains(sleepers[i]));
    } else {
        if answers.len() > 0 {
            assert(answers[answers.len() - 1] == FilterOp::Unpark);
        }
        lemma_let_all_go(sleepers, answers);
        assert(sleepers.take(answers.len() as int) =~= sleepers);
        assert forall|i: int| 0 <= i < sleepers.len() implies !stays(#[trigger] sleepers[i]) by {
            assert(threads.contains(sleepers[i]));
        }
        lemma_filter_keeps_none(sleepers, stays);
    }
}

/// What moving threads of a bucket to another key makes of the queues.
proof fn lemma_requeued_queues(
    lot: LotView,
    from: int,
    moved: Seq<usize>,
    key_to: usize,
    key: usize,
)
    requires
        lot.valid(),
        0 <= from < lot.buckets.len(),
        forall|t: usize| #[trigger] moved.contains(t) ==> lot.queue(from).contains(t),
    ensures
        lot.requeued(from, moved, key_to).parked_on(key) == if key == key_to {
            without(lot.parked_on(key), moved) + moved
        } else {
            without(lot.parked_on(key), moved)
        },
{
    let after = lot.requeued(from, moved, key_to);
    lemma_bucket_in_range(lot, key);
    lemma_bucket_in_range(lot, key_to);
    let b = lot.bucket_of(key);
    let queue = lot.queue(b);
    let left = without(queue, moved);
    let p = sleeps_on(lot.threads, key);
    let q = sleeps_on(after.threads, key);
    let stays = |t: usize| !moved.contains(t);
    let both = |t: usize| p(t) && stays(t);
    assert(lot.bucket_valid(b));
    lemma_separate(lot);
    lemma_without_members(queue, moved);
    if b != from {
        assert forall|i: int| 0 <= i < queue.len() implies stays(#[trigger] queue[i]) by {
            assert(lot.queue(b).contains(queue[i]));
            if moved.contains(queue[i]) {
                assert(lot.queue(from).contains(queue[i]));
            }
        }
        lemma_filter_keeps_all(queue, stays);
    }
    assert forall|i: int| 0 <= i < left.len() implies p(#[trigger] left[i]) == q(left[i]) by {
        assert(left.contains(left[i]));
        assert(queue.contains(left[i]));
        let j = choose|j: int| 0 <= j < queue.len() && queue[j] == left[i];
        assert(lot.is_thread(queue[j]));
    }
    lemma_filter_agree(left, p, q);
    lemma_filter_twice(queue, stays, p, both);
    lemma_filter_twice(queue, p, stays, both);
    assert(left.filter(q) == without(lot.parked_on(key), moved));
    if b == lot.bucket_of(key_to) {
        assert(after.queue(b) == left + moved);
        Seq::filter_distributes_over_add(left, moved, q);
        lemma_moved_keys(lot, from, moved, key_to);
        if key == key_to {
            lemma_filter_keeps_all(moved, q);
        } else {
            lemma_filter_keeps_none(moved, q);
            assert(left.filter(q) + moved.filter(q) =~= left.filter(q));
        }
    } else {
        assert(after.queue(b) == left);
    }
}

/// Threads that are requeued have the new key.
pub(crate) proof fn lemma_moved_keys(lot: LotView, from: int, moved: Seq<usize>, key_to: usize)
    requires
        lot.valid(),
        0 <= from < lot.buckets.len(),
        forall|t: usize| #[trigger] moved.contains(t) ==> lot.queue(from).contains(t),
    ensures
        forall|i: int|
            0 <= i < moved.len() ==> lot.requeued(
                from,
                moved,
                key_to,
            ).threads[#[trigger] moved[i] as int].key == key_to,
{
    let after = lot.requeued(from, moved, key_to);
    assert(lot.bucket_valid(from));
    assert forall|i: int| 0 <= i < moved.len() implies after.threads[#[trigger] moved[i] as int].key
        == key_to by {
        assert(moved.contains(moved[i]));
        let j = choose|j: int| 0 <= j < lot.queue(from).len() && lot.queue(from)[j] == moved[i];
        assert(lot.is_thread(lot.queue(from)[j]));
    }
}

/// `unpark_requeue` takes the threads that the operation concerns out of the
/// queue of one key, wakes the first if the operation says so, and appends the
/// others, in order, to the queue of the other key. Nobody is lost: whoever
/// slept on the first key is woken, sleeps on the second, or still sleeps on
/// the first. The queues of all other keys stay as they are.
pub proof fn law_requeue_loses_nobody(
    before: LotView,
    after: LotView,
    key_from: usize,
    key_to: usize,
    op: RequeueOp,
    token: UnparkToken,
    result: UnparkResult,
    thread: Option<usize>,
    other: usize,
)
    requires
        before.valid(),
        before.has_table(),
        requeue_unparked(before, after, key_from, key_to, op, token, result, thread),
    ensures
        ({
            let sleepers = before.parked_on(key_from);
            let taken = concerned(op, sleepers);
            let left = sleepers.skip(taken.len() as int);
            &&& sleepers == taken + left
            &&& taken == to_wake(op, taken) + to_move(op, taken)
            &&& thread == at(to_wake(op, taken), 0)
            &&& result.unparked_threads + result.requeued_threads + left.len() == sleepers.len()
            &&& result.have_more_threads == (thread is Some && if op
                == RequeueOp::UnparkOneRequeueRest {
                after.parked_on(key_to).len() > 0
            } else {
                left.len() > 0
            })
            &&& key_from != key_to ==> after.parked_on(key_from) == left && after.parked_on(key_to)
                == before.parked_on(key_to) + to_move(op, taken)
            &&& key_from == key_to ==> after.parked_on(key_from) == left + to_move(op, taken)
            &&& other != key_from && other != key_to ==> after.parked_on(other)
                == before.parked_on(other)
        }),
{
    let sleepers = before.parked_on(key_from);
    let taken = concerned(op, sleepers);
    lemma_sleepers(before, key_from);
    lemma_concerned(op, sleepers);
    assert(sleepers =~= taken + sleepers.skip(taken.len() as int));
    assert(taken =~= to_wake(op, taken) + to_move(op, taken));
    lemma_requeue_queue(before, after, key_from, key_to, op, token, result, thread, key_from);
    lemma_requeue_queue(before, after, key_from, key_to, op, token, result, thread, key_to);
    lemma_requeue_queue(before, after, key_from, key_to, op, token, result, thread, other);
}

/// What a requeue makes of the queue of one key.
proof fn lemma_requeue_queue(
    before: LotView,
    after: LotView,
    key_from: usize,
    key_to: usize,
    op: RequeueOp,
    token: UnparkToken,
    result: UnparkResult,
    thread: Option<usize>,
    key: usize,
)
    requires
        before.valid(),
        before.has_table(),
        requeue_unparked(before, after, key_from, key_to, op, token, result, thread),
    ensures
        ({
            let sleepers = before.parked_on(key_from);
            let taken = concerned(op, sleepers);
            let moved = to_move(op, taken);
            let stay = if key == key_from {
                sleepers.skip(taken.len() as int)
            } else {
                before.parked_on(key)
            };
            after.parked_on(key) == if key == key_to {
                stay + moved
            } else {
                stay
            }
        }),
{
    let from = before.bucket_of(key_from);
    let sleepers = before.parked_on(key_from);
    let taken = concerned(op, sleepers);
    let gone = to_wake(op, taken);
    let moved = to_move(op, taken);
    let requeued = before.requeued(from, moved, key_to);
    let stays = |t: usize| !gone.contains(t);
    lemma_sleepers(before, key_from);
    lemma_requeue(before, key_from, key_to, op);
    lemma_concerned(op, sleepers);
    lemma_to_move_members(op, taken);
    lemma_requeued_queues(before, from, moved, key_to, key);
    lemma_released_queues(requeued, after, from, gone, token, result.be_fair, key);
    assert forall|i: int| 0 <= i < moved.len() implies stays(#[trigger] moved[i]) by {
        assert(moved.contains(moved[i]));
    }
    lemma_filter_keeps_all(moved, stays);
    Seq::filter_distributes_over_add(without(before.parked_on(key), moved), moved, stays);
    if key == key_from {
        lemma_without_taken(op, sleepers);
    } else {
        lemma_keys_apart(before, key_from, key, moved);
        lemma_keys_apart(before, key_from, key, gone);
    }
}

/// The sleepers that an operation leaves.
proof fn lemma_without_taken(op: RequeueOp, sleepers: Seq<usize>)
    requires
        sleepers.no_duplicates(),
    ensures
        ({
            let taken = concerned(op, sleepers);
            without(without(sleepers, to_move(op, taken)), to_wake(op, taken)) == sleepers.skip(
                taken.len() as int,
            )
        }),
{
    let taken = concerned(op, sleepers);
    let left = sleepers.skip(taken.len() as int);
    let gone = to_wake(op, taken);
    let moved = to_move(op, taken);
    let p = |t: usize| !moved.contains(t);
    let q = |t: usize| !gone.contains(t);
    let r = |t: usize| !taken.contains(t);
    lemma_concerned(op, sleepers);
    lemma_to_move_members(op, taken);
    assert(taken =~= gone + moved);
    assert forall|t: usize| #[trigger] taken.contains(t) implies moved.contains(t)
        || gone.contains(t) by {
        let i = choose|i: int| 0 <= i < taken.len() && taken[i] == t;
        if i < gone.len() {
            assert(gone[i] == t);
        } else {
            assert(moved[i - gone.len()] == t);
        }
    }
    lemma_filter_twice(sleepers, p, q, r);
    assert(sleepers =~= taken + left);
    Seq::filter_distributes_over_add(taken, left, r);
    assert forall|i: int| 0 <= i < taken.len() implies !r(#[trigger] taken[i]) by {
        assert(taken.contains(taken[i]));
    }
    lemma_filter_keeps_none(taken, r);
    assert forall|i: int| 0 <= i < left.len() implies r(#[trigger] left[i]) by {
        if taken.contains(left[i]) {
            let j = choose|j: int| 0 <= j < taken.len() && taken[j] == left[i];
            assert(sleepers[j] == sleepers[taken.len() + i]);
        }
    }
    lemma_filter_keeps_all(left, r);
    assert(Seq::<usize>::empty() + left =~= left);
}

/// The sleepers of a key among the threads of the first buckets.
proof fn lemma_sleepers_below(lot: LotView, key: usize, n: int)
    requires
        lot.valid(),
        0 <= n <= lot.buckets.len(),
    ensures
        lot.queued_in(n).filter(sleeps_on(lot.threads, key)) == if lot.bucket_of(key) < n {
            lot.parked_on(key)
        } else {
            Seq::empty()
        },
    decreases n,
{
    let p = sleeps_on(lot.threads, key);
    if n == 0 {
        reveal(Seq::filter);
        if lot.has_table() {
            lemma_bucket_in_range(lot, key);
        } else {
            assert(lot.queued_in(0) =~= Seq::<usize>::empty());
        }
    } else {
        lemma_sleepers_below(lot, key, n - 1);
        let queue = lot.queue(n - 1);
        Seq::filter_distributes_over_add(lot.queued_in(n - 1), queue, p);
        assert(lot.bucket_valid(n - 1));
        if lot.bucket_of(key) == n - 1 {
            assert(Seq::<usize>::empty() + queue.filter(p) =~= queue.filter(p));
        } else {
            lemma_filter_keeps_none(queue, p);
            assert(lot.queued_in(n - 1).filter(p) + queue.filter(p) =~= lot.queued_in(n - 1).filter(
                p,
            ));
        }
    }
}

/// Growing the table moves threads to other buckets. It changes the queue of
/// no key.
pub proof fn law_growth_keeps_queues(lot: LotView, hash_bits: u32, now: Moment, key: usize)
    requires
        lot.valid(),
        lot.has_table(),
        1 <= hash_bits <= 31,
    ensures
        lot.grown(hash_bits, now).parked_on(key) == lot.parked_on(key),
{
    let after = lot.grown(hash_bits, now);
    let b = after.bucket_of(key);
    lemma_hash_in_range(key, hash_bits);
    lemma_bucket_in_range(lot, key);
    let p = sleeps_on(lot.threads, key);
    let here = belongs(lot.threads, hash_bits, b);
    assert(after.queue(b) == lot.all_queued().filter(here));
    lemma_filter_twice(lot.all_queued(), here, p, p);
    lemma_sleepers_below(lot, key, lot.buckets.len() as int);
    lemma_pow2_pos(hash_bits as nat);
}

/// While a bucket is locked, nobody else gets its lock, for any key that
/// belongs there.
pub proof fn law_locks_exclude(
    before: LotView,
    locked: LotView,
    after: LotView,
    key: usize,
    other: usize,
    bucket: LockedBucket,
    outcome: Option<LockedBucket>,
)
    requires
        before.valid(),
        bucket_attempt(before, locked, key, Some(bucket)),
        bucket_attempt(locked, after, other, outcome),
        locked.bucket_of(other) == locked.bucket_of(key),
    ensures
        locked.holds(bucket.bucket()),
        outcome is None,
        after == locked,
{
    let now = choose|now: Moment| {
        let ready = #[trigger] before.with_table(now);
        let b = ready.bucket_of(key);
        before.ready_at(now) && !ready.holds(b) && bucket.bucket() == b && locked == ready.with_lock(b, true)
    };
    lemma_valid_with_table(before, now);
    let ready = before.with_table(now);
    lemma_bucket_in_range(ready, key);
}

/// Freeing a lock that was free before restores what was.
pub proof fn law_unlock_undoes_lock(lot: LotView, bucket: int)
    requires
        0 <= bucket < lot.buckets.len(),
        !lot.holds(bucket),
    ensures
        lot.with_lock(bucket, true).holds(bucket),
        lot.with_lock(bucket, true).with_lock(bucket, false) == lot,
{
    assert(lot.with_lock(bucket, true).with_lock(bucket, false) =~= lot);
}

/// A table that has grown is large enough for the threads for which it was to
/// grow, and the queue of every key is what it was.
pub proof fn law_growth_makes_room(before: LotView, after: LotView, num_threads: nat, key: usize)
    requires
        before.valid(),
        num_threads <= MAX_THREADS,
        growth(before, after, num_threads, true),
    ensures
        after.roomy(num_threads),
        after.parked_on(key) == before.parked_on(key),
        after.threads == before.threads,
{
    let now = choose|now: Moment| {
        let ready = #[trigger] before.with_table(now);
        &&& before.ready_at(now)
        &&& if ready.roomy(num_threads) {
            after == ready
        } else {
            !ready.some_locked() && exists|hash_bits: u32, then: Moment|
                ready.reads(then) && fitting_bits(hash_bits, num_threads) && after == #[trigger] ready.grown(
                    hash_bits,
                    then,
                )
        }
    };
    let ready = before.with_table(now);
    lemma_valid_with_table(before, now);
    if !before.has_table() {
        lemma_bucket_in_range(ready, key);
        assert(ready.queue(ready.bucket_of(key)) =~= Seq::<usize>::empty());
        lemma_filter_keeps_none(
            ready.queue(ready.bucket_of(key)),
            sleeps_on(ready.threads, key),
        );
        assert(ready.parked_on(key) =~= before.parked_on(key));
    }
    if !ready.roomy(num_threads) {
        let (hash_bits, then) = choose|hash_bits: u32, then: Moment|
            ready.reads(then) && fitting_bits(hash_bits, num_threads) && after == #[trigger] ready.grown(
                hash_bits,
                then,
            );
        lemma2_to64();
        if hash_bits > 31 {
            if hash_bits > 32 {
                lemma_pow2_strictly_increases(31, (hash_bits - 1) as nat);
            }
            assert(pow2((hash_bits - 1) as nat) >= pow2(31));
        }
        law_growth_keeps_queues(ready, hash_bits, then, key);
    }
}

/// A thread that goes to sleep and then times out leaves the queues as they were.
pub proof fn law_timeout_undoes_park(
    lot: LotView,
    thread: usize,
    key: usize,
    park_token: ParkToken,
    token: UnparkToken,
    other: usize,
)
    requires
        lot.valid(),
        lot.has_table(),
        lot.is_thread(thread),
        !lot.threads[thread as int].parked,
        !lot.threads[thread as int].deadlock.deadlocked,
    ensures
        lot.parked(thread, key, park_token, true).unparked(
            lot.bucket_of(key),
            seq![thread],
            token,
        ).parked_on(other) == lot.parked_on(other),
{
    let asleep = lot.parked(thread, key, park_token, true);
    let b = lot.bucket_of(key);
    let gone = seq![thread];
    lemma_bucket_in_range(lot, key);
    lemma_valid_parked(lot, thread, key, park_token, true);
    law_park_appends(lot, thread, key, park_token, true, other);
    assert(asleep.queue(b)[lot.queue(b).len() as int] == thread);
    assert(asleep.queue(b).contains(thread));
    law_unparked_leave(asleep, b, gone, token, other);
    let sleepers = lot.parked_on(other);
    let stays = |t: usize| !gone.contains(t);
    lemma_sleepers(lot, other);
    assert forall|i: int| 0 <= i < sleepers.len() implies stays(#[trigger] sleepers[i]) by {
        assert(sleepers.contains(sleepers[i]));
        let c = lot.bucket_of(other);
        assert(lot.bucket_valid(c));
        let j = choose|j: int| 0 <= j < lot.queue(c).len() && lot.queue(c)[j] == sleepers[i];
        assert(lot.queue(c)[j] != thread);
    }
    lemma_filter_keeps_all(sleepers, stays);
    if other == key {
        sleepers.lemma_filter_push(thread, stays);
        assert(gone[0] == thread);
        assert(gone.contains(thread));
    }
}

/// `unpark_one` says that more threads are asleep only if it has woken one.
pub proof fn law_more_threads_only_if_unparked(
    before: LotView,
    after: LotView,
    bucket: int,
    key: usize,
    token: UnparkToken,
    result: UnparkResult,
    thread: Option<usize>,
)
    requires
        one_unparked(before, after, bucket, key, token, result, thread),
    ensures
        result.have_more_threads ==> result.unparked_threads == 1,
{
}

/// So does `unpark_filter`.
pub proof fn law_filter_more_threads_only_if_unparked(
    before: LotView,
    after: LotView,
    bucket: int,
    key: usize,
    answers: Seq<FilterOp>,
    token: UnparkToken,
    result: UnparkResult,
    threads: Seq<usize>,
)
    requires
        filter_unparked(before, after, bucket, key, answers, token, result, threads),
    ensures
        result.have_more_threads ==> result.unparked_threads > 0,
{
}

/// So does `unpark_requeue`, whatever the operation.
pub proof fn law_requeue_more_threads_only_if_unparked(
    before: LotView,
    after: LotView,
    key_from: usize,
    key_to: usize,
    op: RequeueOp,
    token: UnparkToken,
    result: UnparkResult,
    thread: Option<usize>,
)
    requires
        requeue_unparked(before, after, key_from, key_to, op, token, result, thread),
    ensures
        result.have_more_threads ==> result.unparked_threads == 1,
{
}

} // verus!
