//! Moving threads from one queue to another.
use crate::locking::LockedBucket;
use crate::lot::ParkingLot;
use crate::lot_queues::lemma_separate;
use crate::model::{lemma_bucket_in_range, rekeyed, sleeps_on, without, LotView};
use crate::queue::{at, Queue};
use crate::requeue_walk::{concerned, lemma_to_move_members, to_move, to_wake, Requeue};
use crate::seq_facts::{lemma_filter_agree, lemma_filter_keeps_all, lemma_filter_twice};
use crate::tokens::{nothing_unparked, RequeueOp, UnparkResult, UnparkToken};
use crate::unpark::{lemma_released, lemma_sleepers, lemma_valid_released, released};
use crate::validity::{lemma_valid_requeued, lemma_without_members};
use vstd::prelude::*;

verus! {

impl LotView {
    /// The lot after a requeue operation, with the thread that it unparks taken
    /// out of its queue.
    pub open spec fn requeued_by(self, op: RequeueOp, key_from: usize, key_to: usize) -> LotView {
        let from = self.bucket_of(key_from);
        let taken = concerned(op, self.parked_on(key_from));
        let requeued = self.requeued(from, to_move(op, taken), key_to);
        requeued.with_queue(from, without(requeued.queue(from), to_wake(op, taken)))
    }
}

/// A result that `unpark_requeue` can have for an operation. Whether there are
/// more threads is asked of the new queue where the rest has been requeued, and
/// of the source queue otherwise.
pub open spec fn is_requeue_result(
    lot: LotView,
    key_from: usize,
    key_to: usize,
    op: RequeueOp,
    result: UnparkResult,
) -> bool {
    let sleepers = lot.parked_on(key_from);
    let taken = concerned(op, sleepers);
    let gone = to_wake(op, taken);
    &&& result.unparked_threads == gone.len()
    &&& result.requeued_threads == to_move(op, taken).len()
    &&& result.have_more_threads == (gone.len() > 0 && if op
        == RequeueOp::UnparkOneRequeueRest {
        lot.requeued_by(op, key_from, key_to).parked_on(key_to).len() > 0
    } else {
        taken.len() < sleepers.len()
    })
    &&& gone.len() == 0 ==> !result.be_fair
}

/// The sleepers of a key have been let go and requeued as the operation says.
pub open spec fn requeue_unparked(
    before: LotView,
    after: LotView,
    key_from: usize,
    key_to: usize,
    op: RequeueOp,
    token: UnparkToken,
    result: UnparkResult,
    thread: Option<usize>,
) -> bool {
    let from = before.bucket_of(key_from);
    let sleepers = before.parked_on(key_from);
    let taken = concerned(op, sleepers);
    let gone = to_wake(op, taken);
    let moved = to_move(op, taken);
    &&& result.unparked_threads == gone.len()
    &&& result.requeued_threads == moved.len()
    &&& result.have_more_threads == (gone.len() > 0 && if op
        == RequeueOp::UnparkOneRequeueRest {
        after.parked_on(key_to).len() > 0
    } else {
        taken.len() < sleepers.len()
    })
    &&& thread == at(gone, 0)
    &&& released(
        before.requeued(from, moved, key_to),
        after,
        from,
        gone,
        token,
        result.be_fair,
    )
}

impl LotView {
    /// The lot with the buckets of two keys unlocked.
    pub open spec fn with_pair_unlocked(self, key1: usize, key2: usize) -> LotView {
        self.with_lock(self.bucket_of(key1), false).with_lock(self.bucket_of(key2), false)
    }
}

/// What `unpark_requeue` does once the operation is known. An operation that
/// is aborted does nothing, and its callback is not called.
pub open spec fn requeue_done<C: FnOnce(RequeueOp, UnparkResult) -> UnparkToken>(
    before: LotView,
    after: LotView,
    key_from: usize,
    key_to: usize,
    op: RequeueOp,
    callback: C,
    result: UnparkResult,
    thread: Option<usize>,
) -> bool {
    if op == RequeueOp::Abort {
        &&& result == nothing_unparked()
        &&& thread is None
        &&& after == before.with_pair_unlocked(key_from, key_to)
    } else {
        exists|token: UnparkToken, gone: LotView|
            {
                &&& call_ensures(callback, (op, result), token)
                &&& #[trigger] requeue_unparked(
                    before,
                    gone,
                    key_from,
                    key_to,
                    op,
                    token,
                    result,
                    thread,
                )
                &&& after == gone.with_pair_unlocked(key_from, key_to)
            }
    }
}

/// What `unpark_requeue` does.
pub open spec fn unpark_requeue_done<
    V: FnOnce() -> RequeueOp,
    C: FnOnce(RequeueOp, UnparkResult) -> UnparkToken,
>(
    before: LotView,
    after: LotView,
    key_from: usize,
    key_to: usize,
    validate: V,
    callback: C,
    result: UnparkResult,
    thread: Option<usize>,
) -> bool {
    exists|op: RequeueOp|
        call_ensures(validate, (), op) && #[trigger] requeue_done(
            before,
            after,
            key_from,
            key_to,
            op,
            callback,
            result,
            thread,
        )
}

impl ParkingLot {
    /// Frees the locks that `lock_bucket_pair` has taken.
    fn unlock_bucket_pair(
        &mut self,
        bucket1: LockedBucket,
        bucket2: Option<LockedBucket>,
        Ghost(key1): Ghost<usize>,
        Ghost(key2): Ghost<usize>,
    )
        requires
            old(self).wf(),
            old(self)@.holds(bucket1.bucket()),
            bucket1.bucket() == old(self)@.bucket_of(key1),
            bucket2 is None <==> old(self)@.bucket_of(key1) == old(self)@.bucket_of(key2),
            bucket2 matches Some(bucket2) ==> old(self)@.holds(bucket2.bucket())
                && bucket2.bucket() == old(self)@.bucket_of(key2),
        ensures
            final(self).wf(),
            final(self)@ == old(self)@.with_pair_unlocked(key1, key2),
    {
        self.unlock_bucket(bucket1);
        if let Some(bucket2) = bucket2 {
            self.unlock_bucket(bucket2);
        }
        assert(self@ =~= old(self)@.with_pair_unlocked(key1, key2));
    }

    /// Moves the threads that a requeue operation concerns. The one that it
    /// unparks, if any, has left its queue.
    #[verifier::rlimit(50)]
    fn requeue_threads(
        &mut self,
        from: usize,
        to: usize,
        key_from: usize,
        key_to: usize,
        op: RequeueOp,
    ) -> (requeue: Requeue)
        requires
            old(self).wf(),
            old(self)@.has_table(),
            from == old(self)@.bucket_of(key_from),
            to == old(self)@.bucket_of(key_to),
        ensures
            final(self).linked(),
            ({
                let sleepers = old(self)@.parked_on(key_from);
                let taken = concerned(op, sleepers);
                let gone = to_wake(op, taken);
                let moved = to_move(op, taken);
                let requeued = old(self)@.requeued(from as int, moved, key_to);
                &&& requeue.wakeup_thread == at(gone, 0)
                &&& gone.len() <= 1
                &&& requeue.requeued_threads == moved.len()
                &&& requeue.have_more_threads == (gone.len() > 0 && if op
                    == RequeueOp::UnparkOneRequeueRest {
                    final(self)@.parked_on(key_to).len() > 0
                } else {
                    taken.len() < sleepers.len()
                })
                &&& final(self)@ == requeued.with_queue(
                    from as int,
                    without(requeued.queue(from as int), gone),
                )
                &&& requeued.valid()
                &&& forall|t: usize| #[trigger]
                    gone.contains(t) ==> requeued.queue(from as int).contains(t)
                        && t < requeued.threads.len()
            }),
    {
        let ghost before = self@;
        let ghost sleepers = before.parked_on(key_from);
        let ghost taken = concerned(op, sleepers);
        let ghost gone = to_wake(op, taken);
        let ghost moved = to_move(op, taken);
        let ghost requeued = before.requeued(from as int, moved, key_to);
        proof {
            lemma_separate(before);
            lemma_requeue(before, key_from, key_to, op);
        }
        let requeue = self.take_for_requeue(from, key_from, key_to, op);
        proof {
            lemma_taken_out(before, self@, from as int, taken, moved);
        }
        self.append_requeued(to, requeue.requeue_threads);
        proof {
            lemma_requeue_moves(before, from as int, taken, op, key_to);
        }
        let have_more_threads = match requeue.wakeup_thread {
            None => false,
            Some(_) => if op == RequeueOp::UnparkOneRequeueRest {
                self.has_sleeper(to, key_to)
            } else {
                requeue.have_more_threads
            },
        };
        Requeue { requeue_threads: Queue::new(), have_more_threads, ..requeue }
    }
}

/// Removes all threads from the queue associated with `key_from`, optionally
/// unparks the first one and requeues the rest onto the queue associated with
/// `key_to`. The caller has locked the buckets of both keys.
///
/// The `validate` function is called while both queues are locked. Its return
/// value will determine which operation is performed, or whether the operation
/// should be aborted. See `RequeueOp` for details about the different possible
/// return values.
///
/// The `callback` function is also called while both queues are locked. It is
/// passed the `RequeueOp` returned by `validate` and an `UnparkResult`
/// indicating whether a thread was unparked and whether there are threads still
/// parked in the new queue. This `UnparkResult` value is also returned by
/// `unpark_requeue`, together with the thread that was unparked.
///
/// The `callback` function should return an `UnparkToken` value which will be
/// passed to the thread that is unparked. If no thread is unparked then the
/// returned value is ignored.
#[verifier::rlimit(50)]
pub fn unpark_requeue<
    V: FnOnce() -> RequeueOp,
    C: FnOnce(RequeueOp, UnparkResult) -> UnparkToken,
>(
    lot: &mut ParkingLot,
    bucket_from: LockedBucket,
    bucket_to: Option<LockedBucket>,
    key_from: usize,
    key_to: usize,
    validate: V,
    callback: C,
) -> (unparked: (UnparkResult, Option<usize>))
    requires
        old(lot).wf(),
        old(lot)@.holds(bucket_from.bucket()),
        bucket_from.bucket() == old(lot)@.bucket_of(key_from),
        bucket_to is None <==> old(lot)@.bucket_of(key_from) == old(lot)@.bucket_of(key_to),
        bucket_to matches Some(bucket_to) ==> old(lot)@.holds(bucket_to.bucket())
            && bucket_to.bucket() == old(lot)@.bucket_of(key_to),
        call_requires(validate, ()),
        forall|op: RequeueOp, result: UnparkResult|
            op != RequeueOp::Abort && call_ensures(validate, (), op) && is_requeue_result(
                old(lot)@,
                key_from,
                key_to,
                op,
                result,
            ) ==> #[trigger] call_requires(callback, (op, result)),
    ensures
        final(lot).wf(),
        unpark_requeue_done(
            old(lot)@,
            final(lot)@,
            key_from,
            key_to,
            validate,
            callback,
            unparked.0,
            unparked.1,
        ),
{
    let ghost before = lot@;
    let ghost from = before.bucket_of(key_from);

    // If the validation function fails, just return
    let mut result = UnparkResult::default();
    let op = validate();
    if op == RequeueOp::Abort {
        lot.unlock_bucket_pair(bucket_from, bucket_to, Ghost(key_from), Ghost(key_to));
        proof {
            assert(requeue_done(
                before,
                lot@,
                key_from,
                key_to,
                op,
                callback,
                result,
                None,
            ));
        }
        return (result, None);
    }
    let ghost taken = concerned(op, before.parked_on(key_from));
    let ghost gone = to_wake(op, taken);
    let ghost requeued = before.requeued(from, to_move(op, taken), key_to);

    // Remove all threads with the given key in the source bucket, and add the
    // requeued threads to the destination bucket
    let to = match &bucket_to {
        Some(bucket_to) => bucket_to.index,
        None => bucket_from.index,
    };
    let requeue = lot.requeue_threads(bucket_from.index, to, key_from, key_to, op);
    let ghost appended = lot@;
    result.requeued_threads = requeue.requeued_threads;
    result.have_more_threads = requeue.have_more_threads;

    // Invoke the callback before waking up the thread
    if let Some(_) = requeue.wakeup_thread {
        result.unparked_threads = 1;
        result.be_fair = lot.should_timeout(bucket_from.index);
    }
    let ghost asked = lot@;
    assert(appended == before.requeued_by(op, key_from, key_to));
    let token = callback(op, result);
    if let Some(wakeup_thread) = requeue.wakeup_thread {
        assert(gone.contains(gone[0]));
        lot.let_thread_go(wakeup_thread, token);
    }
    proof {
        if gone.len() == 0 {
            lemma_filter_keeps_all(requeued.queue(from), |t: usize| !gone.contains(t));
            assert(lot@ =~= requeued);
        } else {
            assert(gone =~= seq![requeue.wakeup_thread->0]);
            lemma_released(
                requeued,
                appended,
                asked,
                lot@,
                from,
                gone,
                token,
                result.be_fair,
            );
        }
        lemma_valid_released(requeued, lot@, from, gone, token, result.be_fair);
        lemma_same_sleepers(appended, lot@, key_to);
        assert(requeue_unparked(
            before,
            lot@,
            key_from,
            key_to,
            op,
            token,
            result,
            requeue.wakeup_thread,
        ));
    }
    lot.unlock_bucket_pair(bucket_from, bucket_to, Ghost(key_from), Ghost(key_to));
    proof {
        assert(requeue_done(
            before,
            lot@,
            key_from,
            key_to,
            op,
            callback,
            result,
            requeue.wakeup_thread,
        ));
    }
    (result, requeue.wakeup_thread)
}

/// The sleepers of a key do not change where queues and keys do not.
proof fn lemma_same_sleepers(before: LotView, after: LotView, key: usize)
    requires
        after.hash_bits == before.hash_bits,
        after.buckets.len() == before.buckets.len(),
        after.queue(before.bucket_of(key)) == before.queue(before.bucket_of(key)),
        forall|i: int|
            0 <= i < before.queue(before.bucket_of(key)).len()
                ==> after.threads[#[trigger] before.queue(before.bucket_of(key))[i] as int].key
                == before.threads[before.queue(before.bucket_of(key))[i] as int].key,
    ensures
        after.parked_on(key) == before.parked_on(key),
{
    let queue = before.queue(before.bucket_of(key));
    let p = sleeps_on(before.threads, key);
    let q = sleeps_on(after.threads, key);
    assert forall|i: int| 0 <= i < queue.len() implies p(#[trigger] queue[i]) == q(queue[i]) by {}
    lemma_filter_agree(queue, p, q);
}

/// Those concerned are sleepers.
pub(crate) proof fn lemma_concerned(op: RequeueOp, sleepers: Seq<usize>)
    requires
        sleepers.no_duplicates(),
    ensures
        concerned(op, sleepers).no_duplicates(),
        concerned(op, sleepers).len() <= sleepers.len(),
        forall|t: usize| #[trigger] concerned(op, sleepers).contains(t) ==> sleepers.contains(t),
{
    let taken = concerned(op, sleepers);
    assert forall|t: usize| #[trigger] taken.contains(t) implies sleepers.contains(t) by {
        let i = choose|i: int| 0 <= i < taken.len() && taken[i] == t;
        assert(sleepers[i] == t);
    }
}

/// What the source queue looks like after a requeue, without the thread that
/// is let go.
proof fn lemma_requeue_queues(
    lot: LotView,
    from: int,
    taken: Seq<usize>,
    op: RequeueOp,
    key_to: usize,
)
    requires
        taken.no_duplicates(),
    ensures
        ({
            let gone = to_wake(op, taken);
            let moved = to_move(op, taken);
            let queue = lot.queue(from);
            &&& without(without(queue, moved), gone) == without(queue, taken)
            &&& without(without(queue, moved) + moved, gone) == without(queue, taken) + moved
        }),
{
    let gone = to_wake(op, taken);
    let moved = to_move(op, taken);
    let queue = lot.queue(from);
    lemma_to_move_members(op, taken);
    let p = |t: usize| !moved.contains(t);
    let q = |t: usize| !gone.contains(t);
    let r = |t: usize| !taken.contains(t);
    assert forall|t: usize| #[trigger] taken.contains(t) implies moved.contains(t)
        || gone.contains(t) by {
        let i = choose|i: int| 0 <= i < taken.len() && taken[i] == t;
        if gone.len() > 0 {
            if i == 0 {
                assert(gone[0] == t);
            } else {
                assert(moved[i - 1] == t);
            }
        }
    }
    lemma_filter_twice(queue, p, q, r);
    Seq::filter_distributes_over_add(without(queue, moved), moved, q);
    assert forall|i: int| 0 <= i < moved.len() implies q(#[trigger] moved[i]) by {
        assert(moved.contains(moved[i]));
    }
    lemma_filter_keeps_all(moved, q);
}

/// Threads that a requeue does not move stay where they are.
proof fn lemma_still_there(
    lot: LotView,
    from: int,
    moved: Seq<usize>,
    key_to: usize,
    gone: Seq<usize>,
)
    requires
        0 <= from < lot.buckets.len(),
        0 <= lot.bucket_of(key_to) < lot.buckets.len(),
        forall|t: usize| #[trigger] gone.contains(t) ==> lot.queue(from).contains(t)
            && !moved.contains(t),
    ensures
        forall|t: usize| #[trigger]
            gone.contains(t) ==> lot.requeued(from, moved, key_to).queue(from).contains(t),
{
    lemma_without_members(lot.queue(from), moved);
    let left = without(lot.queue(from), moved);
    assert forall|t: usize| #[trigger] gone.contains(t) implies lot.requeued(
        from,
        moved,
        key_to,
    ).queue(from).contains(t) by {
        assert(left.contains(t));
        let i = choose|i: int| 0 <= i < left.len() && left[i] == t;
        assert((left + moved)[i] == t);
        let after = lot.requeued(from, moved, key_to);
        if lot.bucket_of(key_to) == from {
            assert(after.queue(from) == left + moved);
        } else {
            assert(after.queue(from) == left);
        }
    }
}

/// What a requeue operation starts from.
pub(crate) proof fn lemma_requeue(lot: LotView, key_from: usize, key_to: usize, op: RequeueOp)
    requires
        lot.valid(),
        lot.has_table(),
    ensures
        ({
            let from = lot.bucket_of(key_from);
            let taken = concerned(op, lot.parked_on(key_from));
            let gone = to_wake(op, taken);
            let moved = to_move(op, taken);
            let requeued = lot.requeued(from, moved, key_to);
            &&& 0 <= from < lot.buckets.len()
            &&& 0 <= lot.bucket_of(key_to) < lot.buckets.len()
            &&& taken.no_duplicates()
            &&& gone.len() <= 1
            &&& requeued.valid()
            &&& forall|t: usize| #[trigger]
                gone.contains(t) ==> requeued.queue(from).contains(t) && t
                    < requeued.threads.len()
            &&& forall|t: usize| #[trigger]
                moved.contains(t) ==> taken.contains(t) && lot.queue(from).contains(t)
        }),
{
    let from = lot.bucket_of(key_from);
    let sleepers = lot.parked_on(key_from);
    let taken = concerned(op, sleepers);
    lemma_sleepers(lot, key_from);
    lemma_bucket_in_range(lot, key_to);
    lemma_concerned(op, sleepers);
    lemma_to_move_members(op, taken);
    lemma_valid_requeued(lot, from, to_move(op, taken), key_to);
    lemma_still_there(lot, from, to_move(op, taken), key_to, to_wake(op, taken));
}

/// Threads that have been taken out of their queue are in none.
proof fn lemma_taken_out(
    before: LotView,
    after: LotView,
    from: int,
    taken: Seq<usize>,
    moved: Seq<usize>,
)
    requires
        before.separate(),
        0 <= from < before.buckets.len(),
        after.buckets == before.with_queue(from, without(before.queue(from), taken)).buckets,
        forall|t: usize| #[trigger]
            moved.contains(t) ==> taken.contains(t) && before.queue(from).contains(t),
    ensures
        after.separate(),
        forall|b: int, t: usize|
            0 <= b < after.buckets.len() && #[trigger] after.queue(b).contains(t)
                ==> !moved.contains(t),
{
    lemma_without_members(before.queue(from), taken);
    assert forall|b: int, t: usize|
        0 <= b < after.buckets.len() && #[trigger] after.queue(b).contains(t) implies {
        &&& !moved.contains(t)
        &&& before.queue(b).contains(t)
    } by {
        if b == from {
            assert(after.queue(b) == without(before.queue(from), taken));
        } else {
            assert(after.queue(b) == before.queue(b));
        }
    }
}

/// To take threads out of a queue and to append some of them to another is to
/// requeue these and to take out the rest.
proof fn lemma_requeue_moves(
    lot: LotView,
    from: int,
    taken: Seq<usize>,
    op: RequeueOp,
    key_to: usize,
)
    requires
        taken.no_duplicates(),
        0 <= from < lot.buckets.len(),
        0 <= lot.bucket_of(key_to) < lot.buckets.len(),
    ensures
        ({
            let gone = to_wake(op, taken);
            let moved = to_move(op, taken);
            let to = lot.bucket_of(key_to);
            let out = lot.with_queue(from, without(lot.queue(from), taken)).with_threads(
                rekeyed(lot.threads, moved, key_to),
            );
            let requeued = lot.requeued(from, moved, key_to);
            out.with_queue(to, out.queue(to) + moved) == requeued.with_queue(
                from,
                without(requeued.queue(from), gone),
            )
        }),
{
    let gone = to_wake(op, taken);
    let moved = to_move(op, taken);
    let to = lot.bucket_of(key_to);
    let out = lot.with_queue(from, without(lot.queue(from), taken)).with_threads(
        rekeyed(lot.threads, moved, key_to),
    );
    let requeued = lot.requeued(from, moved, key_to);
    lemma_requeue_queues(lot, from, taken, op, key_to);
    assert(out.with_queue(to, out.queue(to) + moved) =~= requeued.with_queue(
        from,
        without(requeued.queue(from), gone),
    ));
}

} // verus!
