//! The walks through a queue that the parking operations make.
use crate::model::{sleeps_on, without, woken};
use crate::queue::{at, lemma_linked_elsewhere, only_links_change, Queue};
use crate::seq_facts::{lemma_filter_agree, lemma_filter_first, lemma_filter_keeps_all, lemma_filter_members, lemma_filter_no_duplicates, lemma_filter_nonempty, lemma_filter_take_next, lemma_remove_is_filter};
use crate::thread_data::{views, ThreadData, ThreadView};
use crate::tokens::{FilterOp, ParkToken, UnparkToken};
use crate::wake_list::WakeList;
use vstd::prelude::*;

verus! {

/// Taking one thread out of a queue.
pub(crate) proof fn lemma_without_one(queue: Seq<usize>, place: int)
    requires
        queue.no_duplicates(),
        0 <= place < queue.len(),
    ensures
        queue.remove(place) == without(queue, seq![queue[place]]),
{
    let gone = seq![queue[place]];
    let p = |t: usize| !gone.contains(t);
    assert forall|i: int| 0 <= i < queue.len() implies p(#[trigger] queue[i]) == (queue[i]
        != queue[place]) by {
        if queue[i] == queue[place] {
            assert(gone[0] == queue[i]);
        }
    }
    lemma_remove_is_filter(queue, place, p);
}

impl Queue {
    /// Takes a thread out of the queue. Says whether no other thread in the
    /// queue has the given key.
    pub(crate) fn remove_thread(
        &mut self,
        records: &mut Vec<ThreadData>,
        thread: usize,
        key: usize,
    ) -> (was_last_thread: bool)
        requires
            old(self).linked(old(records)@),
            old(self)@.contains(thread),
        ensures
            final(self).linked(final(records)@),
            final(self)@ == without(old(self)@, seq![thread]),
            only_links_change(old(records)@, final(records)@, old(self)@),
            was_last_thread == forall|i: int|
                0 <= i < old(self)@.len() && old(self)@[i] != thread ==> old(
                    records,
                )@[#[trigger] old(self)@[i] as int].key != key,
    {
        let mut current = self.head;
        let mut previous: Option<usize> = None;
        let mut was_last_thread = true;
        let ghost mut n: int = 0;
        let ghost queue = self@;
        while current != Some(thread)
            invariant
                *self == *old(self),
                *records == *old(records),
                queue == self@,
                self.linked(records@),
                queue.contains(thread),
                0 <= n < queue.len(),
                current == at(queue, n),
                previous == at(queue, n - 1),
                forall|i: int| 0 <= i < n ==> #[trigger] queue[i] != thread,
                was_last_thread == forall|i: int|
                    0 <= i < n ==> records@[#[trigger] queue[i] as int].key != key,
            decreases queue.len() - n,
        {
            let here = current.unwrap();
            if records[here].key == key {
                was_last_thread = false;
                assert(records@[queue[n] as int].key == key);
            }
            previous = current;
            current = records[here].next_in_queue;
            proof {
                if n + 1 == queue.len() {
                    let i = choose|i: int| 0 <= i < queue.len() && queue[i] == thread;
                    assert(queue[i] != thread);
                }
                n = n + 1;
            }
        }
        let next = self.unlink(records, previous, thread, Ghost(n));
        proof {
            lemma_without_one(queue, n);
            assert forall|i: int| n <= i < self@.len() implies #[trigger] self@[i] == queue[i
                + 1] by {}
        }
        // Scan the rest of the queue to see if there are any other
        // entries with the given key.
        if self.scan_for_key(records, next, key, Ghost(n)) {
            was_last_thread = false;
            proof {
                let i = choose|i: int|
                    n <= i < self@.len() && records@[#[trigger] self@[i] as int].key == key;
                let t = queue[i + 1];
                assert(self@[i] == t);
                assert(records@[t as int]@ == old(records)@[t as int]@);
                assert(t != thread);
            }
        } else {
            proof {
                assert forall|i: int|
                    n < i < queue.len() implies old(records)@[#[trigger] queue[i] as int].key
                    != key by {
                    assert(self@[i - 1] == queue[i]);
                    assert(records@[queue[i] as int]@ == old(records)@[queue[i] as int]@);
                }
            }
        }
        was_last_thread
    }

    /// Takes the first thread with the given key out of the queue. Also says
    /// whether there are more of them.
    pub(crate) fn take_first(
        &mut self,
        records: &mut Vec<ThreadData>,
        key: usize,
    ) -> (found: Option<(usize, bool)>)
        requires
            old(self).linked(old(records)@),
        ensures
            final(self).linked(final(records)@),
            only_links_change(old(records)@, final(records)@, old(self)@),
            ({
                let sleepers = old(self)@.filter(sleeps_on(views(old(records)@), key));
                match found {
                    None => sleepers.len() == 0 && final(self)@ == old(self)@,
                    Some((thread, more)) => {
                        &&& sleepers.len() > 0
                        &&& thread == sleepers[0]
                        &&& more == (sleepers.len() > 1)
                        &&& final(self)@ == without(old(self)@, seq![thread])
                    },
                }
            }),
    {
        let mut current = self.head;
        let mut previous: Option<usize> = None;
        let ghost mut n: int = 0;
        let ghost queue = self@;
        let ghost p = sleeps_on(views(records@), key);
        while current.is_some()
            invariant
                *self == *old(self),
                *records == *old(records),
                queue == self@,
                p == sleeps_on(views(records@), key),
                self.linked(records@),
                0 <= n <= queue.len(),
                current == at(queue, n),
                previous == at(queue, n - 1),
                forall|i: int| 0 <= i < n ==> !p(#[trigger] queue[i]),
            decreases queue.len() - n,
        {
            let here = current.unwrap();
            assert(here == queue[n]);
            if records[here].key == key {
                // Remove the thread from the queue
                let next = self.unlink(records, previous, here, Ghost(n));
                let more = self.scan_for_key(records, next, key, Ghost(n));
                proof {
                    lemma_without_one(queue, n);
                    lemma_filter_first(queue, n, p);
                    lemma_filter_nonempty(queue.skip(n + 1), p);
                    if more {
                        let i = choose|i: int|
                            n <= i < self@.len() && records@[#[trigger] self@[i] as int].key
                                == key;
                        assert(queue.skip(n + 1)[i - n] == self@[i]);
                        assert(records@[self@[i] as int]@ == old(records)@[self@[i] as int]@);
                        assert(p(queue.skip(n + 1)[i - n]));
                    }
                    if exists|i: int|
                        0 <= i < queue.skip(n + 1).len() && p(#[trigger] queue.skip(n + 1)[i]) {
                        let i = choose|i: int|
                            0 <= i < queue.skip(n + 1).len() && p(
                                #[trigger] queue.skip(n + 1)[i],
                            );
                        let t = queue[n + 1 + i];
                        assert(self@[n + i] == t);
                        assert(records@[t as int]@ == old(records)@[t as int]@);
                    }
                }
                return Some((here, more));
            }
            previous = current;
            current = records[here].next_in_queue;
            proof {
                n = n + 1;
            }
        }
        proof {
            lemma_filter_nonempty(queue, p);
        }
        None
    }
}

/// The threads that sleep on another key.
pub open spec fn sleeps_elsewhere(threads: Seq<ThreadView>, key: usize) -> spec_fn(usize) -> bool {
    |t: usize| threads[t as int].key != key
}

/// No link differs but those of threads in a queue.
pub(crate) open(crate) spec fn links_kept(
    before: Seq<ThreadData>,
    after: Seq<ThreadData>,
    queue: Seq<usize>,
) -> bool {
    &&& before.len() == after.len()
    &&& forall|t: usize|
        t < before.len() && !queue.contains(t) ==> (#[trigger] after[t as int]).next_in_queue
            == before[t as int].next_in_queue
}

/// The next thread to be looked at stays where it is.
pub(crate) proof fn lemma_keep_next(kept: Seq<usize>, queue: Seq<usize>, n: int)
    requires
        0 <= n < queue.len(),
    ensures
        kept + queue.skip(n) == kept.push(queue[n]) + queue.skip(n + 1),
{
    assert(kept + queue.skip(n) =~= kept.push(queue[n]) + queue.skip(n + 1));
}

/// The next thread to be looked at leaves.
pub(crate) proof fn lemma_drop_next(kept: Seq<usize>, queue: Seq<usize>, n: int)
    requires
        0 <= n < queue.len(),
    ensures
        (kept + queue.skip(n)).remove(kept.len() as int) == kept + queue.skip(n + 1),
{
    assert((kept + queue.skip(n)).remove(kept.len() as int) =~= kept + queue.skip(n + 1));
}

/// Letting one more thread go.
pub(crate) proof fn lemma_woken_next(
    threads: Seq<ThreadView>,
    gone: Seq<usize>,
    token: UnparkToken,
    t: usize,
)
    requires
        t < threads.len() <= usize::MAX,
    ensures
        woken(threads, gone.push(t), token) == woken(threads, gone, token).update(
            t as int,
            ThreadView {
                parked: false,
                unpark_token: token,
                ..woken(threads, gone, token)[t as int]
            },
        ),
{
    assert forall|i: int| 0 <= i < threads.len() implies (#[trigger] gone.push(t).contains(
        i as usize,
    ) <==> gone.contains(i as usize) || i == t) by {
        lemma_push_members(gone, t);
    }
    assert(woken(threads, gone.push(t), token) =~= woken(threads, gone, token).update(
        t as int,
        ThreadView { parked: false, unpark_token: token, ..woken(threads, gone, token)[t as int] },
    ));
}

pub(crate) proof fn lemma_push_members(s: Seq<usize>, t: usize)
    ensures
        forall|x: usize| #[trigger] s.push(t).contains(x) <==> s.contains(x) || x == t,
{
    assert forall|x: usize| #[trigger] s.push(t).contains(x) <==> s.contains(x) || x == t by {
        if s.contains(x) {
            let i = choose|i: int| 0 <= i < s.len() && s[i] == x;
            assert(s.push(t)[i] == x);
        }
        assert(s.push(t)[s.len() as int] == t);
    }
}

impl Queue {
    /// Takes the thread at a place out of the queue and lets it go with the
    /// given token. Returns the thread behind it.
    fn unpark_at(
        &mut self,
        records: &mut Vec<ThreadData>,
        previous: Option<usize>,
        current: usize,
        token: UnparkToken,
        Ghost(place): Ghost<int>,
    ) -> (next: Option<usize>)
        requires
            old(self).linked(old(records)@),
            0 <= place < old(self)@.len(),
            current == old(self)@[place],
            previous == at(old(self)@, place - 1),
        ensures
            final(self).linked(final(records)@),
            final(self)@ == old(self)@.remove(place),
            next == at(old(self)@, place + 1),
            links_kept(old(records)@, final(records)@, old(self)@),
            views(final(records)@) == views(old(records)@).update(
                current as int,
                ThreadView {
                    parked: false,
                    unpark_token: token,
                    ..views(old(records)@)[current as int]
                },
            ),
    {
        // Remove the thread from the queue
        let next = self.unlink(records, previous, current, Ghost(place));
        let ghost unlinked = records@;

        // Set the token for the target thread
        records[current].unpark_token = token;

        // Don't wake up threads while holding the queue lock. For now
        // just record which threads we need to wake up.
        records[current].parker.unpark_lock();
        proof {
            lemma_linked_elsewhere(*self, unlinked, records@);
            assert(old(self)@.contains(current));
            assert(views(records@) =~= views(old(records)@).update(
                current as int,
                ThreadView {
                    parked: false,
                    unpark_token: token,
                    ..views(old(records)@)[current as int]
                },
            ));
        }
        next
    }

    /// Takes all threads with the given key out of the queue and lets them go
    /// with the given token. Returns them in order.
    #[verifier::rlimit(50)]
    pub(crate) fn unpark_all(
        &mut self,
        records: &mut Vec<ThreadData>,
        key: usize,
        token: UnparkToken,
    ) -> (list: WakeList)
        requires
            old(self).linked(old(records)@),
        ensures
            final(self).linked(final(records)@),
            list@ == old(self)@.filter(sleeps_on(views(old(records)@), key)),
            final(self)@ == old(self)@.filter(sleeps_elsewhere(views(old(records)@), key)),
            links_kept(old(records)@, final(records)@, old(self)@),
            views(final(records)@) == woken(views(old(records)@), list@, token),
    {
        let mut current = self.head;
        let mut previous: Option<usize> = None;
        let mut threads = WakeList::new();
        let ghost mut n: int = 0;
        let ghost queue = self@;
        let ghost start = views(records@);
        let ghost here_p = sleeps_on(start, key);
        let ghost away_p = sleeps_elsewhere(start, key);
        let ghost mut kept: Seq<usize> = Seq::empty();
        proof {
            reveal(Seq::filter);
            assert(queue.take(0) =~= Seq::<usize>::empty());
            assert(self@ =~= kept + queue.skip(0));
            assert(views(records@) =~= woken(start, threads@, token));
        }
        while current.is_some()
            invariant
                0 <= n <= queue.len(),
                queue == old(self)@,
                start == views(old(records)@),
                here_p == sleeps_on(start, key),
                away_p == sleeps_elsewhere(start, key),
                old(self).linked(old(records)@),
                self.linked(records@),
                kept == queue.take(n).filter(away_p),
                threads@ == queue.take(n).filter(here_p),
                self@ == kept + queue.skip(n),
                current == at(self@, kept.len() as int),
                previous == at(self@, kept.len() - 1),
                views(records@) == woken(start, threads@, token),
                links_kept(old(records)@, records@, queue),
            decreases queue.len() - n,
        {
            let here = current.unwrap();
            let ghost before = records@;
            proof {
                assert(here == queue[n]);
                assert(old(self)@[n] < start.len());
                lemma_filter_take_next(queue, n, here_p);
                lemma_filter_take_next(queue, n, away_p);
                assert(views(records@)[here as int] == records@[here as int]@);
                assert(queue.contains(here));
            }
            if records[here].key == key {
                let next = self.unpark_at(
                    records,
                    previous,
                    here,
                    token,
                    Ghost(kept.len() as int),
                );
                proof {
                    lemma_drop_next(kept, queue, n);
                    assert(records.len() == start.len());
                    lemma_woken_next(start, threads@, token, here);
                    lemma_part_members(kept, queue, n, away_p);
                }
                threads.push(here);
                current = next;
            } else {
                proof {
                    lemma_keep_next(kept, queue, n);
                    kept = kept.push(here);
                }
                previous = current;
                current = records[here].next_in_queue;
            }
            proof {
                n = n + 1;
            }
        }
        proof {
            assert(queue.take(n) =~= queue);
            assert(self@ =~= kept);
        }
        threads
    }
}

/// Whoever is left or still to be looked at was in the queue.
pub(crate) proof fn lemma_part_members(
    kept: Seq<usize>,
    queue: Seq<usize>,
    n: int,
    p: spec_fn(usize) -> bool,
)
    requires
        0 <= n <= queue.len(),
        kept == queue.take(n).filter(p),
    ensures
        forall|t: usize| #[trigger] (kept + queue.skip(n)).contains(t) ==> queue.contains(t),
{
    lemma_filter_members(queue.take(n), p);
    assert forall|t: usize| #[trigger] (kept + queue.skip(n)).contains(t) implies queue.contains(
        t,
    ) by {
        let part = kept + queue.skip(n);
        let i = choose|i: int| 0 <= i < part.len() && part[i] == t;
        if i < kept.len() {
            assert(kept.contains(t));
            let j = choose|j: int| 0 <= j < queue.take(n).len() && queue.take(n)[j] == t;
            assert(queue[j] == t);
        } else {
            assert(queue[n + i - kept.len()] == t);
        }
    }
}

/// The threads that a filter has let go: those for which it answered so.
pub open spec fn let_go(sleepers: Seq<usize>, answers: Seq<FilterOp>) -> Seq<usize>
    decreases answers.len(),
{
    if answers.len() == 0 {
        Seq::empty()
    } else {
        let before = let_go(sleepers, answers.drop_last());
        if answers.last() == FilterOp::Unpark {
            before.push(sleepers[answers.len() - 1])
        } else {
            before
        }
    }
}

/// The answers of a filter that is asked about sleepers in turn, until it
/// stops or all have had their turn.
pub open spec fn answered<F: FnMut(ParkToken) -> FilterOp>(
    filter: F,
    threads: Seq<ThreadView>,
    sleepers: Seq<usize>,
    answers: Seq<FilterOp>,
) -> bool {
    &&& answers.len() <= sleepers.len()
    &&& forall|i: int|
        0 <= i < answers.len() ==> call_ensures(
            filter,
            (threads[sleepers[i] as int].park_token,),
            #[trigger] answers[i],
        )
    &&& forall|i: int| 0 <= i < answers.len() - 1 ==> #[trigger] answers[i] != FilterOp::Stop
    &&& answers.len() == sleepers.len() || (answers.len() > 0 && answers.last() == FilterOp::Stop)
}

/// Whether a filter has left a thread that it was asked about.
pub open spec fn some_left(answers: Seq<FilterOp>) -> bool {
    exists|i: int| 0 <= i < answers.len() && #[trigger] answers[i] != FilterOp::Unpark
}

/// One answer more.
proof fn lemma_next_answer(sleepers: Seq<usize>, answers: Seq<FilterOp>, op: FilterOp)
    ensures
        let_go(sleepers, answers.push(op)) == (if op == FilterOp::Unpark {
            let_go(sleepers, answers).push(sleepers[answers.len() as int])
        } else {
            let_go(sleepers, answers)
        }),
        some_left(answers.push(op)) == (some_left(answers) || op != FilterOp::Unpark),
{
    assert(answers.push(op).drop_last() =~= answers);
    if some_left(answers) {
        let i = choose|i: int| 0 <= i < answers.len() && #[trigger] answers[i] != FilterOp::Unpark;
        assert(answers.push(op)[i] != FilterOp::Unpark);
    }
    if op != FilterOp::Unpark {
        assert(answers.push(op)[answers.len() as int] != FilterOp::Unpark);
    }
    if some_left(answers.push(op)) && op == FilterOp::Unpark {
        let i = choose|i: int|
            0 <= i < answers.push(op).len() && #[trigger] answers.push(op)[i] != FilterOp::Unpark;
        assert(answers[i] != FilterOp::Unpark);
    }
}

/// Those let go are sleepers that the filter was asked about.
pub proof fn lemma_let_go_members(sleepers: Seq<usize>, answers: Seq<FilterOp>)
    requires
        answers.len() <= sleepers.len(),
        sleepers.no_duplicates(),
    ensures
        let_go(sleepers, answers).len() <= answers.len(),
        let_go(sleepers, answers).no_duplicates(),
        forall|t: usize| #[trigger]
            let_go(sleepers, answers).contains(t) ==> sleepers.take(answers.len() as int).contains(
                t,
            ),
    decreases answers.len(),
{
    if answers.len() > 0 {
        let rest = answers.drop_last();
        lemma_let_go_members(sleepers, rest);
        let before = let_go(sleepers, rest);
        let next = sleepers[answers.len() - 1];
        lemma_push_members(before, next);
        assert(!sleepers.take(rest.len() as int).contains(next)) by {
            if sleepers.take(rest.len() as int).contains(next) {
                let i = choose|i: int|
                    0 <= i < rest.len() && sleepers.take(rest.len() as int)[i] == next;
                assert(sleepers[i] == next);
            }
        }
        assert(!before.contains(next));
        assert forall|t: usize| #[trigger] let_go(sleepers, answers).contains(t) implies sleepers.take(
            answers.len() as int,
        ).contains(t) by {
            if before.contains(t) {
                let i = choose|i: int|
                    0 <= i < rest.len() && sleepers.take(rest.len() as int)[i] == t;
                assert(sleepers.take(answers.len() as int)[i] == t);
            } else {
                assert(sleepers.take(answers.len() as int)[answers.len() - 1] == t);
            }
        }
        assert(let_go(sleepers, answers).no_duplicates()) by {
            if answers.last() == FilterOp::Unpark {
                assert forall|i: int, j: int|
                    0 <= i < before.push(next).len() && 0 <= j < before.push(next).len() && i
                        != j implies before.push(next)[i] != before.push(next)[j] by {
                    if i < before.len() {
                        assert(before.contains(before[i]));
                    }
                    if j < before.len() {
                        assert(before.contains(before[j]));
                    }
                }
            }
        }
    }
}

/// A queue without some of its first threads.
proof fn lemma_without_front(queue: Seq<usize>, n: int, gone: Seq<usize>)
    requires
        queue.no_duplicates(),
        0 <= n <= queue.len(),
        forall|t: usize| #[trigger] gone.contains(t) ==> queue.take(n).contains(t),
    ensures
        without(queue, gone) == without(queue.take(n), gone) + queue.skip(n),
{
    let p = |t: usize| !gone.contains(t);
    assert(queue =~= queue.take(n) + queue.skip(n));
    Seq::filter_distributes_over_add(queue.take(n), queue.skip(n), p);
    assert forall|i: int| 0 <= i < queue.skip(n).len() implies p(#[trigger] queue.skip(n)[i]) by {
        let t = queue.skip(n)[i];
        if gone.contains(t) {
            let j = choose|j: int| 0 <= j < n && queue.take(n)[j] == t;
            assert(queue[j] == queue[n + i]);
        }
    }
    lemma_filter_keeps_all(queue.skip(n), p);
}

/// The sleepers among the first threads of a queue come first among its sleepers.
pub(crate) proof fn lemma_first_sleepers(queue: Seq<usize>, n: int, p: spec_fn(usize) -> bool)
    requires
        0 <= n <= queue.len(),
    ensures
        queue.filter(p).take(queue.take(n).filter(p).len() as int) == queue.take(n).filter(p),
        queue.take(n).filter(p).len() <= queue.filter(p).len(),
{
    assert(queue =~= queue.take(n) + queue.skip(n));
    Seq::filter_distributes_over_add(queue.take(n), queue.skip(n), p);
    let front = queue.take(n).filter(p);
    assert((front + queue.skip(n).filter(p)).take(front.len() as int) =~= front);
}

impl Queue {
    /// Takes those threads with the given key out of the queue for which the
    /// filter says so, until it stops. Returns them in order, says whether it
    /// has left any that it was asked about, and records its answers.
    #[verifier::rlimit(50)]
    pub(crate) fn take_filtered<F: FnMut(ParkToken) -> FilterOp>(
        &mut self,
        records: &mut Vec<ThreadData>,
        key: usize,
        filter: F,
    ) -> (taken: (WakeList, bool, Ghost<Seq<FilterOp>>))
        requires
            old(self).linked(old(records)@),
            forall|t: usize| #[trigger]
                old(self)@.filter(sleeps_on(views(old(records)@), key)).contains(t)
                    ==> call_requires(filter, (views(old(records)@)[t as int].park_token,)),
        ensures
            final(self).linked(final(records)@),
            only_links_change(old(records)@, final(records)@, old(self)@),
            ({
                let sleepers = old(self)@.filter(sleeps_on(views(old(records)@), key));
                let answers = taken.2@;
                &&& answered(filter, views(old(records)@), sleepers, answers)
                &&& taken.0@ == let_go(sleepers, answers)
                &&& taken.1 == some_left(answers)
                &&& final(self)@ == without(old(self)@, taken.0@)
            }),
    {
        let mut filter = filter;
        let ghost asked = filter;
        let mut current = self.head;
        let mut previous: Option<usize> = None;
        let mut threads = WakeList::new();
        let mut have_more_threads = false;
        let mut stopped = false;
        let ghost mut n: int = 0;
        let ghost mut answers: Seq<FilterOp> = Seq::empty();
        let ghost queue = self@;
        let ghost start = views(records@);
        let ghost p = sleeps_on(start, key);
        let ghost sleepers = queue.filter(p);
        let ghost mut kept: Seq<usize> = Seq::empty();
        proof {
            reveal(Seq::filter);
            assert(queue.take(0) =~= Seq::<usize>::empty());
            assert(sleepers.take(0) =~= Seq::<usize>::empty());
            assert(self@ =~= kept + queue.skip(0));
            lemma_filter_no_duplicates(queue, p);
        }
        while current.is_some() && !stopped
            invariant
                0 <= n <= queue.len(),
                queue == old(self)@,
                queue.no_duplicates(),
                start == views(old(records)@),
                p == sleeps_on(start, key),
                sleepers == queue.filter(p),
                sleepers.no_duplicates(),
                old(self).linked(old(records)@),
                forall|t: usize| #[trigger]
                    sleepers.contains(t) ==> call_requires(
                        filter,
                        (start[t as int].park_token,),
                    ),
                asked == filter,
                self.linked(records@),
                answers.len() <= sleepers.len(),
                stopped ==> answers.len() > 0 && answers.last() == FilterOp::Stop,
                forall|i: int| 0 <= i < answers.len() - 1 ==> #[trigger] answers[i] != FilterOp::Stop,
                !stopped ==> (answers.len() == 0 || answers.last() != FilterOp::Stop),
                forall|i: int|
                    0 <= i < answers.len() ==> call_ensures(
                        filter,
                        (start[sleepers[i] as int].park_token,),
                        #[trigger] answers[i],
                    ),
                !stopped ==> sleepers.take(answers.len() as int) == queue.take(n).filter(p),
                threads@ == let_go(sleepers, answers),
                forall|t: usize| #[trigger] threads@.contains(t) ==> queue.take(n).contains(t),
                have_more_threads == some_left(answers),
                kept == without(queue.take(n), threads@),
                self@ == kept + queue.skip(n),
                current == at(self@, kept.len() as int),
                previous == at(self@, kept.len() - 1),
                only_links_change(old(records)@, records@, queue),
            decreases
                queue.len() - n,
                if stopped {
                    0int
                } else {
                    1int
                },
        {
            let here = current.unwrap();
            let ghost before = records@;
            proof {
                assert(here == queue[n]);
                assert(views(records@) =~= start);
                assert(start[here as int] == records@[here as int]@);
                lemma_filter_take_next(queue, n, p);
                lemma_first_sleepers(queue, n, p);
                lemma_first_sleepers(queue, n + 1, p);
                assert(!queue.take(n).contains(here)) by {
                    if queue.take(n).contains(here) {
                        let i = choose|i: int| 0 <= i < n && queue.take(n)[i] == here;
                        assert(queue[i] == queue[n]);
                    }
                }
                assert(queue.take(n + 1) =~= queue.take(n).push(here));
                lemma_push_members(queue.take(n), here);
                queue.take(n).lemma_filter_push(here, |t: usize| !threads@.contains(t));
            }
            if records[here].key == key {
                // Call the filter function with the thread's ParkToken
                let ghost turn = answers.len() as int;
                proof {
                    assert(queue.take(n + 1).filter(p) == queue.take(n).filter(p).push(here));
                    assert(sleepers.take(turn + 1)[turn] == here);
                    assert(sleepers[turn] == here);
                    assert(sleepers.contains(here));
                }
                let op = filter(records[here].park_token);
                let ghost answers_before = answers;
                proof {
                    lemma_next_answer(sleepers, answers, op);
                    answers = answers.push(op);
                }
                match op {
                    FilterOp::Unpark => {
                        // Remove the thread from the queue
                        let next = self.unlink(records, previous, here, Ghost(kept.len() as int));
                        proof {
                            lemma_drop_next(kept, queue, n);
                            lemma_push_members(threads@, here);
                            lemma_without_next(queue.take(n), threads@, here);
                            lemma_part_without(kept, queue, n, threads@);
                            n = n + 1;
                        }
                        threads.push(here);
                        current = next;
                    },
                    FilterOp::Skip => {
                        have_more_threads = true;
                        proof {
                            lemma_keep_next(kept, queue, n);
                            kept = kept.push(here);
                            n = n + 1;
                        }
                        previous = current;
                        current = records[here].next_in_queue;
                    },
                    FilterOp::Stop => {
                        have_more_threads = true;
                        stopped = true;
                    },
                }
            } else {
                proof {
                    lemma_keep_next(kept, queue, n);
                    kept = kept.push(here);
                    n = n + 1;
                }
                previous = current;
                current = records[here].next_in_queue;
            }
        }
        proof {
            lemma_without_front(queue, n, threads@);
            if !stopped {
                assert(queue.take(n) =~= queue);
                assert(sleepers.take(answers.len() as int).len() == sleepers.len());
            }
        }
        (threads, have_more_threads, Ghost(answers))
    }
}

/// One thread more is gone that was not there anyway.
proof fn lemma_without_next(front: Seq<usize>, gone: Seq<usize>, t: usize)
    requires
        !front.contains(t),
    ensures
        without(front.push(t), gone.push(t)) == without(front, gone),
{
    lemma_push_members(gone, t);
    let p = |x: usize| !gone.contains(x);
    let q = |x: usize| !gone.push(t).contains(x);
    front.lemma_filter_push(t, q);
    assert forall|i: int| 0 <= i < front.len() implies p(#[trigger] front[i]) == q(front[i]) by {
        assert(front.contains(front[i]));
    }
    lemma_filter_agree(front, p, q);
}

/// Whoever is left or still to be looked at was in the queue.
proof fn lemma_part_without(kept: Seq<usize>, queue: Seq<usize>, n: int, gone: Seq<usize>)
    requires
        0 <= n <= queue.len(),
        kept == without(queue.take(n), gone),
    ensures
        forall|t: usize| #[trigger] (kept + queue.skip(n)).contains(t) ==> queue.contains(t),
{
    lemma_part_members(kept, queue, n, |t: usize| !gone.contains(t));
}

} // verus!
