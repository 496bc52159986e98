//! The walk that moves threads from one queue towards another.
use crate::model::{rekeyed, sleeps_on, without};
use crate::queue::{at, lemma_disjoint_linked, lemma_linked_elsewhere, lemma_links_through, Queue};
use crate::queue_ops::{lemma_drop_next, lemma_first_sleepers, lemma_keep_next, lemma_part_members, lemma_push_members, links_kept, sleeps_elsewhere};
use crate::seq_facts::{lemma_bounded_length, lemma_filter_agree, lemma_filter_keeps_all, lemma_filter_members, lemma_filter_no_duplicates, lemma_filter_nonempty, lemma_filter_take_next};
use crate::thread_data::{views, ThreadData, ThreadView};
use crate::tokens::RequeueOp;
use vstd::prelude::*;

verus! {

/// Whether the operation unparks the first thread.
pub open spec fn unparks_one(op: RequeueOp) -> bool {
    op == RequeueOp::UnparkOneRequeueRest || op == RequeueOp::UnparkOne
}

/// Whether the operation concerns the first thread only.
pub open spec fn first_only(op: RequeueOp) -> bool {
    op == RequeueOp::UnparkOne || op == RequeueOp::RequeueOne
}

/// The threads that the operation takes out of the queue.
pub open spec fn concerned(op: RequeueOp, sleepers: Seq<usize>) -> Seq<usize> {
    if first_only(op) && sleepers.len() > 1 {
        sleepers.take(1)
    } else {
        sleepers
    }
}

/// The threads that the operation unparks, of those that it takes.
pub open spec fn to_wake(op: RequeueOp, taken: Seq<usize>) -> Seq<usize> {
    if unparks_one(op) && taken.len() > 0 {
        taken.take(1)
    } else {
        Seq::empty()
    }
}

/// The threads that the operation requeues, of those that it takes.
pub open spec fn to_move(op: RequeueOp, taken: Seq<usize>) -> Seq<usize> {
    if unparks_one(op) && taken.len() > 0 {
        taken.skip(1)
    } else {
        taken
    }
}

/// What the walk has found.
pub struct Requeue {
    /// The thread to unpark.
    pub(crate) wakeup_thread: Option<usize>,
    /// The threads to requeue, linked in order.
    pub(crate) requeue_threads: Queue,
    /// Their number.
    pub(crate) requeued_threads: usize,
    /// Whether threads were left that the operation does not concern.
    pub(crate) have_more_threads: bool,
}

/// Giving one more thread another key.
proof fn lemma_rekeyed_next(threads: Seq<ThreadView>, moved: Seq<usize>, key: usize, t: usize)
    requires
        t < threads.len() <= usize::MAX,
    ensures
        rekeyed(threads, moved.push(t), key) == rekeyed(threads, moved, key).update(
            t as int,
            ThreadView { key, ..rekeyed(threads, moved, key)[t as int] },
        ),
{
    lemma_push_members(moved, t);
    assert(rekeyed(threads, moved.push(t), key) =~= rekeyed(threads, moved, key).update(
        t as int,
        ThreadView { key, ..rekeyed(threads, moved, key)[t as int] },
    ));
}

/// What is left of a queue without duplicates.
proof fn lemma_removed_members(queue: Seq<usize>, place: int)
    requires
        queue.no_duplicates(),
        0 <= place < queue.len(),
    ensures
        forall|t: usize| #[trigger]
            queue.remove(place).contains(t) <==> queue.contains(t) && t != queue[place],
{
    let rest = queue.remove(place);
    assert forall|t: usize| #[trigger] rest.contains(t) <==> queue.contains(t) && t
        != queue[place] by {
        if rest.contains(t) {
            let i = choose|i: int| 0 <= i < rest.len() && rest[i] == t;
            if i < place {
                assert(queue[i] == t);
            } else {
                assert(queue[i + 1] == t);
            }
        }
        if queue.contains(t) && t != queue[place] {
            let i = choose|i: int| 0 <= i < queue.len() && queue[i] == t;
            if i < place {
                assert(rest[i] == t);
            } else {
                assert(rest[i - 1] == t);
            }
        }
    }
}

impl Queue {
    /// Moves the thread at a place to the end of another queue and gives it
    /// another key. Returns the thread behind it.
    fn move_at(
        &mut self,
        records: &mut Vec<ThreadData>,
        previous: Option<usize>,
        current: usize,
        other: &mut Queue,
        key_to: usize,
        Ghost(place): Ghost<int>,
    ) -> (next: Option<usize>)
        requires
            old(self).linked(old(records)@),
            old(other).linked(old(records)@),
            0 <= place < old(self)@.len(),
            current == old(self)@[place],
            previous == at(old(self)@, place - 1),
            forall|t: usize| #[trigger] old(self)@.contains(t) ==> !old(other)@.contains(t),
        ensures
            final(self).linked(final(records)@),
            final(other).linked(final(records)@),
            final(self)@ == old(self)@.remove(place),
            final(other)@ == old(other)@.push(current),
            next == at(old(self)@, place + 1),
            forall|t: usize|
                t < old(records)@.len() && !old(self)@.contains(t) && !old(other)@.contains(t)
                    ==> (#[trigger] final(records)@[t as int]).next_in_queue == old(
                    records,
                )@[t as int].next_in_queue,
            views(final(records)@) == views(old(records)@).update(
                current as int,
                ThreadView { key: key_to, ..views(old(records)@)[current as int] },
            ),
    {
        let next = self.unlink(records, previous, current, Ghost(place));
        let ghost unlinked = records@;
        proof {
            assert(old(self)@.contains(old(self)@[place]));
            lemma_disjoint_linked(*other, old(records)@, unlinked, old(self)@);
        }
        other.push_back(records, current);
        let ghost pushed = records@;
        proof {
            lemma_push_members(old(other)@, current);
            lemma_removed_members(old(self)@, place);
            lemma_disjoint_linked(*self, unlinked, pushed, other@);
            lemma_links_through(old(records)@, unlinked, pushed, old(self)@, other@);
        }
        records[current].key = key_to;
        proof {
            lemma_linked_elsewhere(*self, pushed, records@);
            lemma_linked_elsewhere(*other, pushed, records@);
            assert(views(records@) =~= views(old(records)@).update(
                current as int,
                ThreadView { key: key_to, ..views(old(records)@)[current as int] },
            ));
        }
        next
    }
}

/// Taking one thread more.
proof fn lemma_take_one_more(op: RequeueOp, taken: Seq<usize>, t: usize)
    ensures
        unparks_one(op) && taken.len() == 0 ==> to_wake(op, taken.push(t)) == seq![t] && to_move(
            op,
            taken.push(t),
        ) == Seq::<usize>::empty(),
        !(unparks_one(op) && taken.len() == 0) ==> to_wake(op, taken.push(t)) == to_wake(op, taken)
            && to_move(op, taken.push(t)) == to_move(op, taken).push(t),
{
    if unparks_one(op) {
        if taken.len() == 0 {
            assert(taken.push(t).take(1) =~= seq![t]);
            assert(taken.push(t).skip(1) =~= Seq::<usize>::empty());
        } else {
            assert(taken.push(t).take(1) =~= taken.take(1));
            assert(taken.push(t).skip(1) =~= taken.skip(1).push(t));
        }
    }
}

/// Those that move have been taken.
pub(crate) proof fn lemma_to_move_members(op: RequeueOp, taken: Seq<usize>)
    ensures
        to_move(op, taken).len() <= taken.len(),
        forall|t: usize| #[trigger] to_move(op, taken).contains(t) ==> taken.contains(t),
        forall|t: usize| #[trigger] to_wake(op, taken).contains(t) ==> taken.contains(t),
        taken.no_duplicates() ==> to_move(op, taken).no_duplicates(),
        taken.no_duplicates() ==> forall|t: usize| #[trigger]
            to_wake(op, taken).contains(t) ==> !to_move(op, taken).contains(t),
{
    let moved = to_move(op, taken);
    let woken = to_wake(op, taken);
    let shift: int = if unparks_one(op) && taken.len() > 0 {
        1
    } else {
        0
    };
    assert forall|t: usize| #[trigger] moved.contains(t) implies taken.contains(t) by {
        let i = choose|i: int| 0 <= i < moved.len() && moved[i] == t;
        assert(taken[i + shift] == t);
    }
    assert forall|t: usize| #[trigger] woken.contains(t) implies taken.contains(t) by {
        let i = choose|i: int| 0 <= i < woken.len() && woken[i] == t;
        assert(taken[i] == t);
    }
    if taken.no_duplicates() {
        assert forall|i: int, j: int|
            0 <= i < moved.len() && 0 <= j < moved.len() && i != j implies moved[i]
            != moved[j] by {
            assert(taken[i + shift] != taken[j + shift]);
        }
        assert forall|t: usize| #[trigger] woken.contains(t) implies !moved.contains(t) by {
            let i = choose|i: int| 0 <= i < woken.len() && woken[i] == t;
            if moved.contains(t) {
                let j = choose|j: int| 0 <= j < moved.len() && moved[j] == t;
                assert(taken[i] != taken[j + shift]);
            }
        }
    }
}

/// What the walk does to the first threads of a queue.
proof fn lemma_walked(queue: Seq<usize>, n: int, threads: Seq<ThreadView>, key: usize)
    requires
        queue.no_duplicates(),
        0 <= n <= queue.len(),
    ensures
        ({
            let taken = queue.take(n).filter(sleeps_on(threads, key));
            let kept = queue.take(n).filter(sleeps_elsewhere(threads, key));
            &&& without(queue, taken) == kept + queue.skip(n)
            &&& taken.no_duplicates()
            &&& forall|t: usize| #[trigger]
                taken.contains(t) ==> queue.take(n).contains(t) && !(kept + queue.skip(n)).contains(
                    t,
                )
        }),
{
    let here = sleeps_on(threads, key);
    let away = sleeps_elsewhere(threads, key);
    let front = queue.take(n);
    let taken = front.filter(here);
    let kept = front.filter(away);
    let p = |t: usize| !taken.contains(t);
    lemma_filter_members(front, here);
    assert(front.no_duplicates());
    lemma_filter_no_duplicates(front, here);
    assert(queue =~= front + queue.skip(n));
    Seq::filter_distributes_over_add(front, queue.skip(n), p);
    assert forall|i: int| 0 <= i < front.len() implies p(#[trigger] front[i]) == away(front[i]) by {
        assert(front.contains(front[i]));
    }
    lemma_filter_agree(front, p, away);
    assert forall|i: int| 0 <= i < queue.skip(n).len() implies p(#[trigger] queue.skip(n)[i]) by {
        let t = queue.skip(n)[i];
        if taken.contains(t) {
            let j = choose|j: int| 0 <= j < front.len() && front[j] == t;
            assert(queue[j] == queue[n + i]);
        }
    }
    lemma_filter_keeps_all(queue.skip(n), p);
    lemma_filter_members(queue, p);
}

/// Whether more sleepers are still to be looked at.
proof fn lemma_more(
    queue: Seq<usize>,
    n: int,
    threads: Seq<ThreadView>,
    records: Seq<ThreadData>,
    kept: Seq<usize>,
    key: usize,
)
    requires
        0 <= n <= queue.len(),
        forall|i: int|
            n <= i < queue.len() ==> records[#[trigger] queue[i] as int].key
                == threads[queue[i] as int].key,
    ensures
        ({
            let p = sleeps_on(threads, key);
            let part = kept + queue.skip(n);
            (exists|i: int|
                kept.len() <= i < part.len() && records[#[trigger] part[i] as int].key == key)
                <==> queue.take(n).filter(p).len() < queue.filter(p).len()
        }),
{
    let p = sleeps_on(threads, key);
    let part = kept + queue.skip(n);
    let rest = queue.skip(n);
    assert(queue =~= queue.take(n) + rest);
    Seq::filter_distributes_over_add(queue.take(n), rest, p);
    lemma_filter_nonempty(rest, p);
    if exists|i: int|
        kept.len() <= i < part.len() && records[#[trigger] part[i] as int].key == key {
        let i = choose|i: int|
            kept.len() <= i < part.len() && records[#[trigger] part[i] as int].key == key;
        let j = i - kept.len();
        assert(part[i] == rest[j] && rest[j] == queue[n + j]);
        assert(p(rest[j]));
    }
    if exists|j: int| 0 <= j < rest.len() && p(#[trigger] rest[j]) {
        let j = choose|j: int| 0 <= j < rest.len() && p(#[trigger] rest[j]);
        assert(part[kept.len() + j] == rest[j] && rest[j] == queue[n + j]);
        assert(records[part[kept.len() + j] as int].key == key);
    }
}

/// What a walk is about.
pub(crate) struct Errand {
    pub(crate) queue: Seq<usize>,
    pub(crate) records: Seq<ThreadData>,
    pub(crate) op: RequeueOp,
    pub(crate) key_from: usize,
    pub(crate) key_to: usize,
}

impl Errand {
    pub(crate) open(crate) spec fn threads(self) -> Seq<ThreadView> {
        views(self.records)
    }

    /// The threads taken so far.
    pub(crate) open(crate) spec fn taken(self, n: int) -> Seq<usize> {
        self.queue.take(n).filter(sleeps_on(self.threads(), self.key_from))
    }

    /// The threads left so far.
    pub(crate) open(crate) spec fn kept(self, n: int) -> Seq<usize> {
        self.queue.take(n).filter(sleeps_elsewhere(self.threads(), self.key_from))
    }

    /// What is left of the queue.
    pub(crate) open(crate) spec fn left(self, n: int) -> Seq<usize> {
        self.kept(n) + self.queue.skip(n)
    }

    pub(crate) open(crate) spec fn moved(self, n: int) -> Seq<usize> {
        to_move(self.op, self.taken(n))
    }

    /// How things stand after `n` threads have been looked at.
    #[verifier::opaque]
    pub(crate) open(crate) spec fn done(
        self,
        n: int,
        queue: Queue,
        records: Seq<ThreadData>,
        requeue: Requeue,
    ) -> bool {
        &&& 0 <= n <= self.queue.len() <= usize::MAX
        &&& self.queue.no_duplicates()
        &&& self.records.len() <= usize::MAX
        &&& forall|i: int| 0 <= i < self.queue.len() ==> #[trigger] self.queue[i] < self.records.len()
        &&& queue.linked(records)
        &&& requeue.requeue_threads.linked(records)
        &&& queue@ == self.left(n)
        &&& requeue.wakeup_thread == at(to_wake(self.op, self.taken(n)), 0)
        &&& requeue.requeue_threads@ == self.moved(n)
        &&& requeue.requeued_threads == self.moved(n).len()
        &&& requeue.requeued_threads <= n
        &&& views(records) == rekeyed(self.threads(), self.moved(n), self.key_to)
        &&& links_kept(self.records, records, self.queue)
    }

    /// The walk starts with nothing done.
    proof fn lemma_start(self, queue: Queue, requeue: Requeue)
        requires
            queue.linked(self.records),
            self.queue == queue@,
            self.records.len() <= usize::MAX,
            requeue.wakeup_thread is None,
            requeue.requeue_threads@ == Seq::<usize>::empty(),
            requeue.requeue_threads.linked(self.records),
            requeue.requeued_threads == 0,
        ensures
            self.done(0, queue, self.records, requeue),
            self.taken(0).len() == 0,
            self.left(0) == queue@,
            self.kept(0).len() == 0,
    {
        reveal(Errand::done);
        reveal(Seq::filter);
        assert(self.queue.take(0) =~= Seq::<usize>::empty());
        assert(self.left(0) =~= queue@);
        assert(self.moved(0) =~= Seq::<usize>::empty());
        assert(views(self.records) =~= rekeyed(self.threads(), self.moved(0), self.key_to));
        lemma_bounded_length(queue@, self.records.len());
    }

    /// The threads that are still to be looked at.
    proof fn lemma_rest(self, n: int, queue: Queue, records: Seq<ThreadData>, requeue: Requeue)
        requires
            self.done(n, queue, records, requeue),
        ensures
            0 <= n <= self.queue.len(),
            queue.linked(records),
            queue@ == self.left(n),
            forall|i: int|
                n <= i < self.queue.len() ==> records[#[trigger] self.queue[i] as int].key
                    == self.threads()[self.queue[i] as int].key,
    {
        reveal(Errand::done);
        lemma_walked(self.queue, n, self.threads(), self.key_from);
        lemma_to_move_members(self.op, self.taken(n));
        assert forall|i: int| n <= i < self.queue.len() implies records[#[trigger] self.queue[i] as int].key
            == self.threads()[self.queue[i] as int].key by {
            let t = self.queue[i];
            assert(self.left(n)[self.kept(n).len() + i - n] == t);
            assert(self.left(n).contains(t));
            assert(!self.moved(n).contains(t));
            assert(views(records)[t as int] == records[t as int]@);
        }
    }

    /// The thread that is looked at next.
    proof fn lemma_next(self, n: int, queue: Queue, records: Seq<ThreadData>, requeue: Requeue)
        requires
            self.done(n, queue, records, requeue),
            n < self.queue.len(),
        ensures
            ({
                let here = self.queue[n];
                &&& 0 <= n
                &&& at(queue@, self.kept(n).len() as int) == Some(here)
                &&& here < records.len()
                &&& records.len() == self.records.len()
                &&& records[here as int].key == self.threads()[here as int].key
                &&& queue@.contains(here)
                &&& records[here as int].next_in_queue == at(
                    queue@,
                    self.kept(n).len() + 1int,
                )
            }),
    {
        reveal(Errand::done);
        let here = self.queue[n];
        let place = self.kept(n).len() as int;
        assert(queue@[place] == here);
        lemma_walked(self.queue, n, self.threads(), self.key_from);
        lemma_to_move_members(self.op, self.taken(n));
        assert(!self.moved(n).contains(here));
        assert(views(records)[here as int] == records[here as int]@);
    }

    /// A thread with another key stays.
    proof fn lemma_keep(self, n: int, queue: Queue, records: Seq<ThreadData>, requeue: Requeue)
        requires
            self.done(n, queue, records, requeue),
            n < self.queue.len(),
            self.threads()[self.queue[n] as int].key != self.key_from,
        ensures
            self.done(n + 1, queue, records, requeue),
            self.left(n + 1) == self.left(n),
            self.kept(n + 1) == self.kept(n).push(self.queue[n]),
            self.taken(n + 1) == self.taken(n),
    {
        reveal(Errand::done);
        lemma_filter_take_next(self.queue, n, sleeps_on(self.threads(), self.key_from));
        lemma_filter_take_next(self.queue, n, sleeps_elsewhere(self.threads(), self.key_from));
        lemma_keep_next(self.kept(n), self.queue, n);
    }

    /// What the queue is left with when a thread with the key goes.
    proof fn lemma_drop(self, n: int)
        requires
            0 <= n < self.queue.len(),
            self.threads()[self.queue[n] as int].key == self.key_from,
        ensures
            self.left(n + 1) == self.left(n).remove(self.kept(n).len() as int),
            self.kept(n + 1) == self.kept(n),
            self.taken(n + 1) == self.taken(n).push(self.queue[n]),
    {
        lemma_filter_take_next(self.queue, n, sleeps_on(self.threads(), self.key_from));
        lemma_filter_take_next(self.queue, n, sleeps_elsewhere(self.threads(), self.key_from));
        lemma_drop_next(self.kept(n), self.queue, n);
    }
}

impl Queue {
    /// Takes the thread that is looked at out of the queue, to be unparked.
    fn take_wakeup(
        &mut self,
        records: &mut Vec<ThreadData>,
        previous: Option<usize>,
        here: usize,
        requeue: &mut Requeue,
        Ghost(errand): Ghost<Errand>,
        Ghost(n): Ghost<int>,
    ) -> (next: Option<usize>)
        requires
            errand.done(n, *old(self), old(records)@, *old(requeue)),
            n < errand.queue.len(),
            here == errand.queue[n],
            errand.threads()[here as int].key == errand.key_from,
            previous == at(old(self)@, errand.kept(n).len() - 1),
            unparks_one(errand.op),
            old(requeue).wakeup_thread is None,
        ensures
            errand.done(n + 1, *final(self), final(records)@, *final(requeue)),
            final(self)@ == errand.left(n + 1),
            next == at(final(self)@, errand.kept(n + 1).len() as int),
            previous == at(final(self)@, errand.kept(n + 1).len() - 1),
            final(requeue).have_more_threads == old(requeue).have_more_threads,
    {
        proof {
            errand.lemma_next(n, *self, records@, *requeue);
            errand.lemma_drop(n);
            reveal(Errand::done);
            lemma_walked(errand.queue, n, errand.threads(), errand.key_from);
            lemma_to_move_members(errand.op, errand.taken(n));
            lemma_part_members(
                errand.kept(n),
                errand.queue,
                n,
                sleeps_elsewhere(errand.threads(), errand.key_from),
            );
            lemma_take_one_more(errand.op, errand.taken(n), here);
        }
        let next = self.unlink(records, previous, here, Ghost(errand.kept(n).len() as int));
        proof {
            assert(errand.taken(n).len() == 0);
            lemma_disjoint_linked(
                requeue.requeue_threads,
                old(records)@,
                records@,
                errand.left(n),
            );
            assert(views(records@) =~= views(old(records)@));
            assert(errand.moved(n) =~= Seq::<usize>::empty());
        }
        requeue.wakeup_thread = Some(here);
        next
    }

    /// Takes the thread that is looked at out of the queue, to be requeued.
    fn take_requeued(
        &mut self,
        records: &mut Vec<ThreadData>,
        previous: Option<usize>,
        here: usize,
        requeue: &mut Requeue,
        key_to: usize,
        Ghost(errand): Ghost<Errand>,
        Ghost(n): Ghost<int>,
    ) -> (next: Option<usize>)
        requires
            errand.done(n, *old(self), old(records)@, *old(requeue)),
            n < errand.queue.len(),
            here == errand.queue[n],
            key_to == errand.key_to,
            errand.threads()[here as int].key == errand.key_from,
            previous == at(old(self)@, errand.kept(n).len() - 1),
            !(unparks_one(errand.op) && old(requeue).wakeup_thread is None),
        ensures
            errand.done(n + 1, *final(self), final(records)@, *final(requeue)),
            final(self)@ == errand.left(n + 1),
            next == at(final(self)@, errand.kept(n + 1).len() as int),
            previous == at(final(self)@, errand.kept(n + 1).len() - 1),
            final(requeue).have_more_threads == old(requeue).have_more_threads,
    {
        proof {
            errand.lemma_next(n, *self, records@, *requeue);
            errand.lemma_drop(n);
            reveal(Errand::done);
            lemma_walked(errand.queue, n, errand.threads(), errand.key_from);
            lemma_to_move_members(errand.op, errand.taken(n));
            lemma_part_members(
                errand.kept(n),
                errand.queue,
                n,
                sleeps_elsewhere(errand.threads(), errand.key_from),
            );
            lemma_take_one_more(errand.op, errand.taken(n), here);
            lemma_rekeyed_next(errand.threads(), errand.moved(n), key_to, here);
        }
        let next = self.move_at(
            records,
            previous,
            here,
            &mut requeue.requeue_threads,
            key_to,
            Ghost(errand.kept(n).len() as int),
        );
        requeue.requeued_threads = requeue.requeued_threads + 1;
        proof {
            assert(records@.len() == views(records@).len());
            assert forall|t: usize|
                t < errand.records.len() && !errand.queue.contains(t) implies (
            #[trigger] records@[t as int]).next_in_queue
                == errand.records[t as int].next_in_queue by {
                if errand.moved(n).contains(t) {
                    let i = choose|i: int| 0 <= i < n && errand.queue.take(n)[i] == t;
                    assert(errand.queue[i] == t);
                }
                assert(old(records)@[t as int].next_in_queue
                    == errand.records[t as int].next_in_queue);
            }
        }
        next
    }

    /// Takes those threads with the key `key_from` out of the queue that the
    /// operation concerns. Those that it requeues get the key `key_to`.
    pub(crate) fn take_for_requeue(
        &mut self,
        records: &mut Vec<ThreadData>,
        key_from: usize,
        key_to: usize,
        op: RequeueOp,
    ) -> (requeue: Requeue)
        requires
            old(self).linked(old(records)@),
        ensures
            final(self).linked(final(records)@),
            requeue.requeue_threads.linked(final(records)@),
            links_kept(old(records)@, final(records)@, old(self)@),
            ({
                let sleepers = old(self)@.filter(sleeps_on(views(old(records)@), key_from));
                let taken = concerned(op, sleepers);
                &&& requeue.wakeup_thread == at(to_wake(op, taken), 0)
                &&& requeue.requeue_threads@ == to_move(op, taken)
                &&& requeue.requeued_threads == to_move(op, taken).len()
                &&& requeue.have_more_threads == (taken.len() < sleepers.len())
                &&& final(self)@ == without(old(self)@, taken)
                &&& views(final(records)@) == rekeyed(
                    views(old(records)@),
                    to_move(op, taken),
                    key_to,
                )
            }),
    {
        let mut current = self.head;
        let mut previous: Option<usize> = None;
        let mut requeue = Requeue {
            wakeup_thread: None,
            requeue_threads: Queue::new(),
            requeued_threads: 0,
            have_more_threads: false,
        };
        let mut finished = false;
        let ghost mut n: int = 0;
        let ghost errand = Errand { queue: self@, records: records@, op, key_from, key_to };
        let ghost sleepers = self@.filter(sleeps_on(views(records@), key_from));
        proof {
            assert(records.len() <= usize::MAX);
            errand.lemma_start(*self, requeue);
        }
        while current.is_some() && !finished
            invariant
                errand == (Errand {
                    queue: old(self)@,
                    records: old(records)@,
                    op,
                    key_from,
                    key_to,
                }),
                errand.done(n, *self, records@, requeue),
                0 <= n <= errand.queue.len(),
                sleepers == errand.queue.filter(sleeps_on(errand.threads(), key_from)),
                self@ == errand.left(n),
                current == at(self@, errand.kept(n).len() as int),
                previous == at(self@, errand.kept(n).len() - 1),
                finished <==> first_only(op) && errand.taken(n).len() > 0,
                finished ==> errand.taken(n).len() == 1,
                requeue.have_more_threads == (finished && errand.taken(n).len() < sleepers.len()),
            decreases
                errand.queue.len() - n,
                if finished {
                    0int
                } else {
                    1int
                },
        {
            let here = current.unwrap();
            proof {
                errand.lemma_next(n, *self, records@, requeue);
                assert(here == errand.queue[n]);
            }
            if records[here].key == key_from {
                proof {
                    errand.lemma_drop(n);
                }
                // Prepare the first thread for wakeup and requeue the rest.
                if (op == RequeueOp::UnparkOneRequeueRest || op == RequeueOp::UnparkOne)
                    && requeue.wakeup_thread.is_none() {
                    current =
                    self.take_wakeup(records, previous, here, &mut requeue, Ghost(errand), Ghost(n));
                } else {
                    current =
                    self.take_requeued(
                        records,
                        previous,
                        here,
                        &mut requeue,
                        key_to,
                        Ghost(errand),
                        Ghost(n),
                    );
                }
                proof {
                    n = n + 1;
                }
                if op == RequeueOp::UnparkOne || op == RequeueOp::RequeueOne {
                    // Scan the rest of the queue to see if there are any other
                    // entries with the given key.
                    requeue.have_more_threads =
                    self.more_to_come(
                        records,
                        current,
                        key_from,
                        Ghost(requeue),
                        Ghost(errand),
                        Ghost(n),
                    );
                    proof {
                        reveal(Errand::done);
                    }
                    finished = true;
                }
            } else {
                proof {
                    errand.lemma_keep(n, *self, records@, requeue);
                    n = n + 1;
                }
                previous = current;
                current = records[here].next_in_queue;
            }
        }
        proof {
            reveal(Errand::done);
            lemma_walked(errand.queue, n, errand.threads(), key_from);
            lemma_first_sleepers(errand.queue, n, sleeps_on(errand.threads(), key_from));
            if !finished {
                assert(errand.queue.take(n) =~= errand.queue);
            }
            assert(errand.taken(n) =~= concerned(op, sleepers));
        }
        requeue
    }

    /// Whether sleepers are still to be looked at.
    #[verifier::rlimit(50)]
    fn more_to_come(
        &self,
        records: &Vec<ThreadData>,
        next: Option<usize>,
        key_from: usize,
        Ghost(requeue): Ghost<Requeue>,
        Ghost(errand): Ghost<Errand>,
        Ghost(n): Ghost<int>,
    ) -> (more: bool)
        requires
            errand.done(n, *self, records@, requeue),
            key_from == errand.key_from,
            next == at(self@, errand.kept(n).len() as int),
        ensures
            more == (errand.taken(n).len() < errand.queue.filter(
                sleeps_on(errand.threads(), errand.key_from),
            ).len()),
    {
        proof {
            errand.lemma_rest(n, *self, records@, requeue);
            lemma_more(errand.queue, n, errand.threads(), records@, errand.kept(n), key_from);
        }
        self.scan_for_key(records, next, key_from, Ghost(errand.kept(n).len() as int))
    }
}

} // verus!
