//! The walks through the queue of a bucket, with all other buckets left as
//! they are.
use crate::fair_timeout::after_asking;
use crate::hash_table::HashTable;
use crate::lot::ParkingLot;
use crate::model::{rekeyed, sleeps_on, without, woken, LotView};
use crate::queue::{at, lemma_linked_elsewhere, Queue};
use crate::queue_ops::{answered, lemma_push_members, lemma_woken_next, let_go, links_kept, sleeps_elsewhere, some_left};
use crate::requeue_walk::{concerned, to_move, to_wake, Requeue};
use crate::seq_facts::{lemma_filter_nonempty, lemma_filter_take_next};
use crate::thread_data::{views, ThreadData};
use crate::time::Moment;
use crate::tokens::{FilterOp, ParkToken, RequeueOp, UnparkToken};
use crate::validity::{lemma_in_queue, lemma_woken_one};
use crate::wake_list::WakeList;
use vstd::prelude::*;

verus! {

impl LotView {
    /// No thread is in two queues.
    pub open spec fn separate(self) -> bool {
        forall|b: int, c: int, t: usize|
            0 <= b < self.buckets.len() && 0 <= c < self.buckets.len() && #[trigger] self.queue(
                b,
            ).contains(t) && #[trigger] self.queue(c).contains(t) ==> b == c
    }

    /// The lot after a bucket has been asked, at a given time, whether an
    /// unpark operation should be fair.
    pub open spec fn asked_at(self, bucket: int, now: Moment) -> LotView {
        LotView {
            latest: now,
            ..self.with_fair(bucket, after_asking(self.buckets[bucket].fair, now))
        }
    }
}

/// What a bucket answers that is asked whether an unpark operation should be
/// fair: that follows from the time at which it is asked.
pub open spec fn fairness(before: LotView, after: LotView, bucket: int, due: bool) -> bool {
    exists|now: Moment|
        before.reads(now) && due == before.buckets[bucket].fair.due(now) && after
            == #[trigger] before.asked_at(bucket, now)
}

/// In a valid lot, no thread is in two queues.
pub proof fn lemma_separate(lot: LotView)
    requires
        lot.valid(),
    ensures
        lot.separate(),
{
    assert forall|b: int, c: int, t: usize|
        0 <= b < lot.buckets.len() && 0 <= c < lot.buckets.len() && #[trigger] lot.queue(
            b,
        ).contains(t) && #[trigger] lot.queue(c).contains(t) implies b == c by {
        lemma_in_queue(lot, b, t);
        lemma_in_queue(lot, c, t);
    }
}

/// A table stays linked where only the links of threads in one of its queues,
/// or in none, change.
pub(crate) proof fn lemma_relinked(
    lot: LotView,
    before: HashTable,
    after: HashTable,
    records: Seq<ThreadData>,
    relinked: Seq<ThreadData>,
    b: int,
    changed: Seq<usize>,
)
    requires
        before.buckets() == lot.buckets,
        before.linked(records),
        before.entries@.len() == after.entries@.len(),
        forall|c: int|
            0 <= c < before.entries@.len() && c != b ==> (
            #[trigger] after.entries@[c]).queue.value() == before.entries@[c].queue.value(),
        after.entries@[b].linked(relinked),
        links_kept(records, relinked, changed),
        forall|c: int, t: usize|
            0 <= c < before.entries@.len() && c != b && #[trigger] lot.queue(c).contains(t)
                ==> !changed.contains(t),
    ensures
        after.linked(relinked),
{
    assert forall|c: int| 0 <= c < after.entries@.len() implies (
    #[trigger] after.entries@[c]).linked(relinked) by {
        if c != b {
            let queue = before.entries@[c].queue.value();
            assert(before.entries@[c].linked(records));
            assert(lot.queue(c) == queue@) by {
                assert(before.buckets()[c] == before.entries@[c]@);
            }
            assert forall|i: int| 0 <= i < queue@.len() implies relinked[#[trigger] queue@[i] as int].next_in_queue
                == records[queue@[i] as int].next_in_queue by {
                assert(lot.queue(c).contains(queue@[i]));
            }
            lemma_linked_elsewhere(queue, records, relinked);
        }
    }
}

impl ParkingLot {
    /// The records may change otherwise, as long as the links stay.
    pub(crate) proof fn lemma_same_links(self, before: ParkingLot)
        requires
            before.linked(),
            self.table == before.table,
            self.records@.len() == before.records@.len(),
            forall|i: int|
                0 <= i < self.records@.len() ==> (#[trigger] self.records@[i]).next_in_queue
                    == before.records@[i].next_in_queue,
        ensures
            self.linked(),
    {
        if let Some(table) = self.table {
            assert forall|b: int| 0 <= b < table.entries@.len() implies (
            #[trigger] table.entries@[b]).linked(self.records@) by {
                lemma_linked_elsewhere(
                    table.entries@[b].queue.value(),
                    before.records@,
                    self.records@,
                );
            }
        }
    }

    /// Appends a thread to the queue of a bucket.
    pub(crate) fn push_parked(&mut self, index: usize, thread: usize)
        requires
            old(self).linked(),
            index < old(self)@.buckets.len(),
            thread < old(self)@.threads.len(),
            old(self)@.separate(),
            forall|b: int|
                0 <= b < old(self)@.buckets.len() ==> !(#[trigger] old(self)@.queue(b)).contains(
                    thread,
                ),
        ensures
            final(self).linked(),
            final(self)@ == old(self)@.with_queue(
                index as int,
                old(self)@.queue(index as int).push(thread),
            ),
    {
        match &mut self.table {
            None => {},
            Some(table) => {
                assert(!old(self)@.queue(index as int).contains(thread));
                table.entries[index].queue.data.push_back(&mut self.records, thread);
            },
        }
        proof {
            let changed = old(self)@.queue(index as int).push(thread);
            lemma_push_members(old(self)@.queue(index as int), thread);
            lemma_relinked(
                old(self)@,
                old(self).table->0,
                self.table->0,
                old(self).records@,
                self.records@,
                index as int,
                changed,
            );
            assert(self@ =~= old(self)@.with_queue(index as int, changed));
        }
    }

    /// Takes a thread out of the queue of a bucket. Says whether no other
    /// thread in the queue has the given key.
    pub(crate) fn remove_thread(&mut self, index: usize, thread: usize, key: usize) -> (last: bool)
        requires
            old(self).linked(),
            index < old(self)@.buckets.len(),
            old(self)@.separate(),
            old(self)@.queue(index as int).contains(thread),
        ensures
            final(self).linked(),
            final(self)@ == old(self)@.with_queue(
                index as int,
                without(old(self)@.queue(index as int), seq![thread]),
            ),
            last == forall|t: usize| #[trigger]
                old(self)@.queue(index as int).contains(t) && t != thread
                    ==> old(self)@.threads[t as int].key != key,
    {
        let mut last: bool = false;
        match &mut self.table {
            None => {},
            Some(table) => {
                last = table.entries[index].queue.data.remove_thread(
                    &mut self.records,
                    thread,
                    key,
                );
            },
        }
        proof {
            let queue = old(self)@.queue(index as int);
            lemma_relinked(
                old(self)@,
                old(self).table->0,
                self.table->0,
                old(self).records@,
                self.records@,
                index as int,
                queue,
            );
            assert(self@ =~= old(self)@.with_queue(index as int, without(queue, seq![thread])));
            assert(old(self).table->0.entries@[index as int].linked(old(self).records@));
            if last {
                assert forall|t: usize| #[trigger] queue.contains(t) && t != thread implies old(
                    self,
                )@.threads[t as int].key != key by {
                    let i = choose|i: int| 0 <= i < queue.len() && queue[i] == t;
                    assert(queue[i] != thread);
                }
            } else {
                let i = choose|i: int|
                    0 <= i < queue.len() && queue[i] != thread && old(
                        self,
                    ).records@[#[trigger] queue[i] as int].key == key;
                assert(queue.contains(queue[i]));
                assert(old(self)@.threads[queue[i] as int] == old(
                    self,
                ).records@[queue[i] as int]@);
            }
        }
        last
    }

    /// Takes the first thread with the given key out of the queue of a bucket.
    /// Also says whether there are more of them.
    pub(crate) fn take_first(&mut self, index: usize, key: usize) -> (found: Option<(usize, bool)>)
        requires
            old(self).linked(),
            index < old(self)@.buckets.len(),
            old(self)@.separate(),
        ensures
            final(self).linked(),
            ({
                let queue = old(self)@.queue(index as int);
                let sleepers = queue.filter(sleeps_on(old(self)@.threads, key));
                match found {
                    None => sleepers.len() == 0 && final(self)@ == old(self)@,
                    Some((thread, more)) => {
                        &&& sleepers.len() > 0
                        &&& thread == sleepers[0]
                        &&& more == (sleepers.len() > 1)
                        &&& final(self)@ == old(self)@.with_queue(
                            index as int,
                            without(queue, seq![thread]),
                        )
                    },
                }
            }),
    {
        let mut found: Option<(usize, bool)> = None;
        match &mut self.table {
            None => {},
            Some(table) => {
                found = table.entries[index].queue.data.take_first(&mut self.records, key);
            },
        }
        proof {
            let queue = old(self)@.queue(index as int);
            lemma_relinked(
                old(self)@,
                old(self).table->0,
                self.table->0,
                old(self).records@,
                self.records@,
                index as int,
                queue,
            );
            match found {
                Some((thread, _)) => {
                    assert(self@ =~= old(self)@.with_queue(
                        index as int,
                        without(queue, seq![thread]),
                    ));
                },
                None => {
                    assert(self@ =~= old(self)@);
                },
            }
        }
        found
    }

    /// Takes all threads with the given key out of the queue of a bucket and
    /// lets them go with the given token. Returns them in order.
    pub(crate) fn take_all(&mut self, index: usize, key: usize, token: UnparkToken) -> (list:
        WakeList)
        requires
            old(self).linked(),
            index < old(self)@.buckets.len(),
            old(self)@.separate(),
        ensures
            final(self).linked(),
            ({
                let queue = old(self)@.queue(index as int);
                &&& list@ == queue.filter(sleeps_on(old(self)@.threads, key))
                &&& final(self)@ == old(self)@.with_queue(
                    index as int,
                    queue.filter(sleeps_elsewhere(old(self)@.threads, key)),
                ).with_threads(woken(old(self)@.threads, list@, token))
            }),
    {
        let mut list = WakeList::new();
        match &mut self.table {
            None => {},
            Some(table) => {
                list = table.entries[index].queue.data.unpark_all(&mut self.records, key, token);
            },
        }
        proof {
            let queue = old(self)@.queue(index as int);
            lemma_relinked(
                old(self)@,
                old(self).table->0,
                self.table->0,
                old(self).records@,
                self.records@,
                index as int,
                queue,
            );
            assert(self@ =~= old(self)@.with_queue(
                index as int,
                queue.filter(sleeps_elsewhere(old(self)@.threads, key)),
            ).with_threads(woken(old(self)@.threads, list@, token)));
        }
        list
    }

    /// Takes those threads with the given key out of the queue of a bucket for
    /// which the filter says so, until it stops.
    pub(crate) fn take_filtered<F: FnMut(ParkToken) -> FilterOp>(
        &mut self,
        index: usize,
        key: usize,
        filter: F,
    ) -> (taken: (WakeList, bool, Ghost<Seq<FilterOp>>))
        requires
            old(self).linked(),
            index < old(self)@.buckets.len(),
            old(self)@.separate(),
            forall|t: usize| #[trigger]
                old(self)@.queue(index as int).filter(
                    sleeps_on(old(self)@.threads, key),
                ).contains(t) ==> call_requires(
                    filter,
                    (old(self)@.threads[t as int].park_token,),
                ),
        ensures
            final(self).linked(),
            ({
                let queue = old(self)@.queue(index as int);
                let sleepers = queue.filter(sleeps_on(old(self)@.threads, key));
                let answers = taken.2@;
                &&& answered(filter, old(self)@.threads, sleepers, answers)
                &&& taken.0@ == let_go(sleepers, answers)
                &&& taken.1 == some_left(answers)
                &&& final(self)@ == old(self)@.with_queue(index as int, without(queue, taken.0@))
            }),
    {
        match &mut self.table {
            None => {
                assert(false);
                (WakeList::new(), false, Ghost(Seq::empty()))
            },
            Some(table) => {
                assert forall|t: usize| #[trigger]
                    table.entries@[index as int].queue.value()@.filter(
                        sleeps_on(views(self.records@), key),
                    ).contains(t) implies call_requires(
                    filter,
                    (views(self.records@)[t as int].park_token,),
                ) by {
                    let queue = old(self)@.queue(index as int);
                    assert(queue.filter(sleeps_on(old(self)@.threads, key)).contains(t));
                }
                let taken = table.entries[index].queue.data.take_filtered(
                    &mut self.records,
                    key,
                    filter,
                );
                proof {
                    let queue = old(self)@.queue(index as int);
                    lemma_relinked(
                        old(self)@,
                        old(self).table->0,
                        *table,
                        old(self).records@,
                        self.records@,
                        index as int,
                        queue,
                    );
                }
                taken
            },
        }
    }

    /// Takes those threads with the key `key_from` out of the queue of a bucket
    /// that the operation concerns. Those that it requeues get the key `key_to`.
    pub(crate) fn take_for_requeue(
        &mut self,
        from: usize,
        key_from: usize,
        key_to: usize,
        op: RequeueOp,
    ) -> (requeue: Requeue)
        requires
            old(self).linked(),
            from < old(self)@.buckets.len(),
            old(self)@.separate(),
        ensures
            final(self).linked(),
            requeue.requeue_threads.linked(final(self).records@),
            ({
                let queue = old(self)@.queue(from as int);
                let sleepers = queue.filter(sleeps_on(old(self)@.threads, key_from));
                let taken = concerned(op, sleepers);
                &&& requeue.wakeup_thread == at(to_wake(op, taken), 0)
                &&& requeue.requeue_threads@ == to_move(op, taken)
                &&& requeue.requeued_threads == to_move(op, taken).len()
                &&& requeue.have_more_threads == (taken.len() < sleepers.len())
                &&& final(self)@ == old(self)@.with_queue(
                    from as int,
                    without(queue, taken),
                ).with_threads(rekeyed(old(self)@.threads, to_move(op, taken), key_to))
            }),
    {
        match &mut self.table {
            None => {
                assert(false);
                Requeue {
                    wakeup_thread: None,
                    requeue_threads: Queue::new(),
                    requeued_threads: 0,
                    have_more_threads: false,
                }
            },
            Some(table) => {
                let requeue = table.entries[from].queue.data.take_for_requeue(
                    &mut self.records,
                    key_from,
                    key_to,
                    op,
                );
                proof {
                    lemma_relinked(
                        old(self)@,
                        old(self).table->0,
                        *table,
                        old(self).records@,
                        self.records@,
                        from as int,
                        old(self)@.queue(from as int),
                    );
                }
                requeue
            },
        }
    }

    /// Appends threads that are in no queue to the queue of a bucket.
    pub(crate) fn append_requeued(&mut self, to: usize, threads: Queue)
        requires
            old(self).linked(),
            to < old(self)@.buckets.len(),
            old(self)@.separate(),
            threads.linked(old(self).records@),
            forall|b: int, t: usize|
                0 <= b < old(self)@.buckets.len() && #[trigger] old(self)@.queue(b).contains(t)
                    ==> !threads@.contains(t),
        ensures
            final(self).linked(),
            final(self)@ == old(self)@.with_queue(
                to as int,
                old(self)@.queue(to as int) + threads@,
            ),
    {
        match &mut self.table {
            None => {},
            Some(table) => {
                assert forall|t: usize| table.entries@[to as int].queue.value()@.contains(
                    t,
                ) implies !threads@.contains(t) by {
                    assert(old(self)@.queue(to as int).contains(t));
                }
                table.entries[to].queue.data.append(&mut self.records, threads);
            },
        }
        proof {
            lemma_relinked(
                old(self)@,
                old(self).table->0,
                self.table->0,
                old(self).records@,
                self.records@,
                to as int,
                old(self)@.queue(to as int),
            );
            assert(self@ =~= old(self)@.with_queue(
                to as int,
                old(self)@.queue(to as int) + threads@,
            ));
        }
    }

    /// Asks whether an unpark operation on a bucket should be fair.
    pub(crate) fn should_timeout(&mut self, index: usize) -> (due: bool)
        requires
            old(self).linked(),
            index < old(self)@.buckets.len(),
        ensures
            final(self).linked(),
            fairness(old(self)@, final(self)@, index as int, due),
    {
        let now = self.clock.reading();
        let mut due: bool = false;
        match &mut self.table {
            None => {},
            Some(table) => {
                due = table.entries[index].fair_timeout.should_timeout_at(now);
            },
        }
        self.clock.note(now);
        assert(self@ =~= old(self)@.asked_at(index as int, now));
        due
    }

    /// Gives a thread that was taken out of its queue a token and lets it go.
    pub(crate) fn let_thread_go(&mut self, thread: usize, token: UnparkToken)
        requires
            old(self).linked(),
            thread < old(self)@.threads.len(),
        ensures
            final(self).linked(),
            final(self)@ == old(self)@.with_threads(
                woken(old(self)@.threads, seq![thread], token),
            ),
    {
        // Set the token for the target thread
        self.records[thread].unpark_token = token;
        self.records[thread].parker.unpark_lock();
        proof {
            self.lemma_same_links(*old(self));
            assert(old(self).records.len() == old(self)@.threads.len());
            lemma_woken_one(old(self)@.threads, thread, token);
            assert(self@ =~= old(self)@.with_threads(
                woken(old(self)@.threads, seq![thread], token),
            ));
        }
    }

    /// Gives the threads of a list a token and lets them go.
    pub(crate) fn let_threads_go(&mut self, list: &WakeList, token: UnparkToken)
        requires
            old(self).linked(),
            forall|i: int| 0 <= i < list@.len() ==> #[trigger] list@[i] < old(self)@.threads.len(),
        ensures
            final(self).linked(),
            final(self)@ == old(self)@.with_threads(woken(old(self)@.threads, list@, token)),
    {
        let mut i: usize = 0;
        let len = list.len();
        proof {
            assert(old(self).records.len() == old(self)@.threads.len());
            assert(self@ =~= old(self)@.with_threads(
                woken(old(self)@.threads, list@.take(0), token),
            ));
        }
        while i < len
            invariant
                len == list@.len(),
                i <= len,
                self.linked(),
                forall|j: int|
                    0 <= j < list@.len() ==> #[trigger] list@[j] < old(self)@.threads.len(),
                old(self)@.threads.len() <= usize::MAX,
                self@ == old(self)@.with_threads(
                    woken(old(self)@.threads, list@.take(i as int), token),
                ),
            decreases len - i,
        {
            let thread = list.get(i);
            let ghost before = self@;
            self.let_thread_go(thread, token);
            proof {
                lemma_woken_one(before.threads, thread, token);
                lemma_woken_next(old(self)@.threads, list@.take(i as int), token, thread);
                assert(list@.take(i + 1) =~= list@.take(i as int).push(thread));
            }
            i = i + 1;
        }
        assert(list@.take(i as int) =~= list@);
    }

    /// Whether a thread in the queue of a bucket has the given key.
    pub(crate) fn has_sleeper(&self, index: usize, key: usize) -> (found: bool)
        requires
            self.linked(),
            index < self@.buckets.len(),
        ensures
            found == (self@.queue(index as int).filter(sleeps_on(self@.threads, key)).len() > 0),
    {
        match &self.table {
            None => false,
            Some(table) => {
                let queue = &table.entries[index].queue.data;
                proof {
                    let p = sleeps_on(self@.threads, key);
                    assert(table.entries@[index as int].linked(self.records@));
                    assert(self@.buckets[index as int] == table.entries@[index as int]@);
                    lemma_filter_nonempty(queue@, p);
                    assert forall|i: int| 0 <= i < queue@.len() implies p(#[trigger] queue@[i])
                        == (self.records@[queue@[i] as int].key == key) by {
                        assert(self@.threads[queue@[i] as int]
                            == self.records@[queue@[i] as int]@);
                    }
                }
                queue.scan_for_key(&self.records, queue.head, key, Ghost(0))
            },
        }
    }

    /// The threads currently parked on a given key, in the order in which they
    /// are to be woken.
    pub fn parked_threads(&self, key: usize) -> (threads: Vec<usize>)
        requires
            self.wf(),
        ensures
            threads@ == self@.parked_on(key),
    {
        let mut threads: Vec<usize> = Vec::new();
        if self.table.is_some() {
            let index = self.bucket_index(key);
            let ghost queue = self@.queue(index as int);
            let ghost p = sleeps_on(self@.threads, key);
            let ghost mut n: int = 0;
            let mut current = match &self.table {
                None => None,
                Some(table) => table.entries[index].queue.data.head,
            };
            proof {
                reveal(Seq::filter);
                assert(self.table->0.entries@[index as int].linked(self.records@));
                assert(queue.take(0) =~= Seq::<usize>::empty());
            }
            while current.is_some()
                invariant
                    self.table is Some,
                    index < self.table->0.entries@.len(),
                    self.table->0.entries@[index as int].linked(self.records@),
                    queue == self.table->0.entries@[index as int].queue.value()@,
                    p == sleeps_on(self@.threads, key),
                    0 <= n <= queue.len(),
                    current == at(queue, n),
                    threads@ == queue.take(n).filter(p),
                decreases queue.len() - n,
            {
                let t = current.unwrap();
                proof {
                    lemma_filter_take_next(queue, n, p);
                    assert(self@.threads[t as int] == self.records@[t as int]@);
                }
                if self.records[t].key == key {
                    threads.push(t);
                }
                current = self.records[t].next_in_queue;
                proof {
                    n = n + 1;
                }
            }
            assert(queue.take(n) =~= queue);
        }
        threads
    }
}

} // verus!
