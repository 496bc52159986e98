//! Looking for deadlocks.
use crate::cycles::{cycles_in, cycles_of_events, lists};
use crate::deadlock_data::DeadlockView;
use crate::locking::LockedHashTable;
use crate::lot::{lemma_queued_ignores_locks, ParkingLot};
use crate::model::{lemma_live_count_same, LotView};
use crate::queue_ops::lemma_push_members;
use crate::seq_facts::lemma_filter_members;
use crate::thread_data::ThreadView;
use crate::time::Moment;
use crate::validity::lemma_queued_in;
use crate::wait_cycles::{is_wait_cycle, law_reported_cycles_are_real, thread_nodes, waits_at};
use crate::wait_edges::{build_wait_graph, wait_edges};
use crate::wait_graph::{edges_of, graph_is_cyclic, graph_nodes, graph_search, has_cycle, is_search, nodes_of, search_events, SearchEvent, WaitGraph, THREAD};
use vstd::prelude::*;

verus! {

/// Where a search of some edges starts: at the threads, to get the correct
/// cycles of threads.
pub open spec fn search_starts(edges: Seq<((u8, usize), (u8, usize))>) -> Seq<(u8, usize)> {
    thread_nodes(nodes_of(edges))
}

/// The events of a search of some edges that starts at the threads.
pub open spec fn thread_search(edges: Seq<((u8, usize), (u8, usize))>) -> Seq<SearchEvent> {
    search_events(edges, search_starts(edges))
}

/// The search starts at threads.
pub(crate) proof fn lemma_starts(edges: Seq<((u8, usize), (u8, usize))>)
    ensures
        forall|n: (u8, usize)| #[trigger]
            search_starts(edges).contains(n) <==> nodes_of(edges).contains(n) && n.0 == THREAD,
{
    lemma_filter_members(nodes_of(edges), |n: (u8, usize)| n.0 == THREAD);
}

/// The threads among the nodes of a graph.
fn graph_threads(graph: &WaitGraph) -> (threads: Vec<(u8, usize)>)
    ensures
        threads@ == search_starts(edges_of(*graph)),
{
    let nodes = graph_nodes(graph);
    let mut threads: Vec<(u8, usize)> = Vec::new();
    let mut i: usize = 0;
    proof {
        reveal(Seq::filter);
        assert(nodes@.take(0) =~= Seq::<(u8, usize)>::empty());
    }
    while i < nodes.len()
        invariant
            i <= nodes@.len(),
            threads@ == thread_nodes(nodes@.take(i as int)),
        decreases nodes@.len() - i,
    {
        let n = nodes[i];
        proof {
            assert(nodes@.take(i + 1) =~= nodes@.take(i as int).push(n));
            nodes@.take(i as int).lemma_filter_push(n, |m: (u8, usize)| m.0 == THREAD);
        }
        if n.0 == THREAD {
            threads.push(n);
        }
        i = i + 1;
    }
    assert(nodes@.take(i as int) =~= nodes@);
    threads
}

/// Returns all thread cycles in the wait graph, as a depth first search from
/// its threads closes them. Every cycle of threads that wait for each other has
/// a thread in one of them.
fn graph_cycles(graph: &WaitGraph, Ghost(lot): Ghost<LotView>) -> (cycles: Vec<Vec<usize>>)
    requires
        edges_of(*graph) == wait_edges(lot),
    ensures
        is_search(wait_edges(lot), search_starts(wait_edges(lot)), thread_search(wait_edges(lot))),
        lists(cycles@) == cycles_in(thread_search(wait_edges(lot))),
{
    let threads = graph_threads(graph);
    let events = graph_search(graph, threads);
    proof {
        lemma_starts(wait_edges(lot));
        law_reported_cycles_are_real(lot, search_starts(wait_edges(lot)), events@);
    }
    cycles_of_events(&events)
}

/// A thread after it has been told to report to a cycle. If it was told before,
/// it reports to the cycle of which it was told first.
pub open spec fn told_thread(thread: ThreadView, number: usize) -> ThreadView {
    if thread.deadlock.deadlocked {
        thread
    } else {
        ThreadView {
            parked: false,
            deadlock: DeadlockView {
                deadlocked: true,
                report_to: Some(number),
                ..thread.deadlock
            },
            ..thread
        }
    }
}

/// The threads after those of a cycle have been told to report to it.
pub open spec fn told(threads: Seq<ThreadView>, cycle: Seq<usize>, number: usize) -> Seq<
    ThreadView,
> {
    Seq::new(
        threads.len(),
        |i: int|
            if cycle.contains(i as usize) {
                told_thread(threads[i], number)
            } else {
                threads[i]
            },
    )
}

/// The threads after those of all cycles have been told to report. One that is
/// in several reports to the first of them.
pub open spec fn all_told(threads: Seq<ThreadView>, cycles: Seq<Seq<usize>>) -> Seq<ThreadView>
    decreases cycles.len(),
{
    if cycles.len() == 0 {
        threads
    } else {
        told(
            all_told(threads, cycles.drop_last()),
            cycles.last(),
            (cycles.len() - 1) as usize,
        )
    }
}

/// Telling one thread more.
proof fn lemma_told_next(threads: Seq<ThreadView>, cycle: Seq<usize>, number: usize, t: usize)
    requires
        t < threads.len() <= usize::MAX,
    ensures
        ({
            let before = told(threads, cycle, number);
            told(threads, cycle.push(t), number) == before.update(
                t as int,
                told_thread(before[t as int], number),
            )
        }),
{
    lemma_push_members(cycle, t);
    let before = told(threads, cycle, number);
    assert(told(threads, cycle.push(t), number) =~= before.update(
        t as int,
        told_thread(before[t as int], number),
    ));
}

/// The first cycle that a thread is in.
pub open spec fn is_first_with(cycles: Seq<Seq<usize>>, thread: usize, c: int) -> bool {
    &&& 0 <= c < cycles.len()
    &&& cycles[c].contains(thread)
    &&& forall|b: int| 0 <= b < c ==> !(#[trigger] cycles[b]).contains(thread)
}

/// What becomes of a thread when the threads of some cycles are told to report.
pub open spec fn is_told(
    before: ThreadView,
    after: ThreadView,
    cycles: Seq<Seq<usize>>,
    thread: usize,
) -> bool {
    if before.deadlock.deadlocked || forall|c: int|
        0 <= c < cycles.len() ==> !(#[trigger] cycles[c]).contains(thread) {
        after == before
    } else {
        exists|c: int| #[trigger]
            is_first_with(cycles, thread, c) && after == told_thread(before, c as usize)
    }
}

/// What becomes of each thread when the threads of some cycles are told to report.
pub(crate) proof fn lemma_all_told(threads: Seq<ThreadView>, cycles: Seq<Seq<usize>>)
    requires
        threads.len() <= usize::MAX,
    ensures
        all_told(threads, cycles).len() == threads.len(),
        forall|t: usize|
            t < threads.len() ==> is_told(
                threads[t as int],
                #[trigger] all_told(threads, cycles)[t as int],
                cycles,
                t,
            ),
    decreases cycles.len(),
{
    if cycles.len() > 0 {
        let rest = cycles.drop_last();
        let last = cycles.len() - 1;
        lemma_all_told(threads, rest);
        let before = all_told(threads, rest);
        assert forall|t: usize| t < threads.len() implies is_told(
            threads[t as int],
            #[trigger] all_told(threads, cycles)[t as int],
            cycles,
            t,
        ) by {
            let first = threads[t as int];
            let then = before[t as int];
            assert(is_told(first, then, rest, t));
            if !first.deadlock.deadlocked {
                if forall|c: int| 0 <= c < rest.len() ==> !(#[trigger] rest[c]).contains(t) {
                    assert forall|c: int| 0 <= c < last implies !(#[trigger] cycles[c]).contains(
                        t,
                    ) by {
                        assert(!rest[c].contains(t));
                    }
                    if cycles[last].contains(t) {
                        assert(is_first_with(cycles, t, last));
                    }
                } else {
                    let c = choose|c: int| #[trigger]
                        is_first_with(rest, t, c) && then == told_thread(first, c as usize);
                    assert forall|b: int| 0 <= b < c implies !(#[trigger] cycles[b]).contains(
                        t,
                    ) by {
                        assert(!rest[b].contains(t));
                    }
                    assert(cycles[c] == rest[c]);
                    assert(is_first_with(cycles, t, c));
                }
            }
        }
    }
}

/// Telling threads that wait to report keeps the lot valid.
proof fn lemma_valid_told(lot: LotView, cycles: Seq<Seq<usize>>)
    requires
        lot.valid(),
        lot.threads.len() <= usize::MAX,
        forall|c: int|
            0 <= c < cycles.len() ==> is_wait_cycle(lot, #[trigger] cycles[c]),
    ensures
        lot.with_threads(all_told(lot.threads, cycles)).valid(),
{
    let after = lot.with_threads(all_told(lot.threads, cycles));
    lemma_all_told(lot.threads, cycles);
    assert forall|b: int| 0 <= b < after.buckets.len() implies #[trigger] after.bucket_valid(b) by {
        assert(lot.bucket_valid(b));
        assert(after.queue(b) == lot.queue(b));
        assert forall|i: int| 0 <= i < after.queue(b).len() implies {
            let t = #[trigger] after.queue(b)[i];
            &&& after.is_thread(t)
            &&& after.bucket_of(after.threads[t as int].key) == b
            &&& after.threads[t as int].parked || after.threads[t as int].deadlock.deadlocked
        } by {
            let t = lot.queue(b)[i];
            assert(after.threads[t as int] == all_told(lot.threads, cycles)[t as int]);
        }
    }
    assert forall|t: usize| t < after.threads.len() implies #[trigger] after.thread_valid(t) by {
        assert(lot.thread_valid(t));
        assert(after.threads[t as int] == all_told(lot.threads, cycles)[t as int]);
        if exists|c: int| 0 <= c < cycles.len() && #[trigger] cycles[c].contains(t) {
            let c = choose|c: int| 0 <= c < cycles.len() && #[trigger] cycles[c].contains(t);
            let i = choose|i: int| 0 <= i < cycles[c].len() && cycles[c][i] == t;
            assert(waits_at(lot, cycles[c], i));
        } else {
            assert forall|c: int| 0 <= c < cycles.len() implies !(#[trigger] cycles[c]).contains(
                t,
            ) by {}
        }
    }
    assert forall|i: int| 0 <= i < lot.threads.len() implies #[trigger] after.threads[i].live
        == lot.threads[i].live by {
        assert(after.threads[i as usize as int] == all_told(
            lot.threads,
            cycles,
        )[i as usize as int]);
    }
    lemma_live_count_same(lot.threads, after.threads);
}

impl ParkingLot {
    /// Tells the threads of a cycle to report to it.
    fn tell_cycle(&mut self, cycle: &Vec<usize>, number: usize)
        requires
            old(self).linked(),
            forall|j: int| 0 <= j < cycle@.len() ==> #[trigger] cycle@[j] < old(self)@.threads.len(),
        ensures
            final(self).linked(),
            final(self)@ == old(self)@.with_threads(told(old(self)@.threads, cycle@, number)),
    {
        let mut j: usize = 0;
        proof {
            assert(old(self).records.len() == old(self)@.threads.len());
            assert(self@ =~= old(self)@.with_threads(
                told(old(self)@.threads, cycle@.take(0), number),
            ));
        }
        while j < cycle.len()
            invariant
                j <= cycle@.len(),
                self.linked(),
                old(self)@.threads.len() <= usize::MAX,
                forall|k: int|
                    0 <= k < cycle@.len() ==> #[trigger] cycle@[k] < old(self)@.threads.len(),
                self@ == old(self)@.with_threads(
                    told(old(self)@.threads, cycle@.take(j as int), number),
                ),
            decreases cycle@.len() - j,
        {
            let t = cycle[j];
            let ghost before = *self;
            assert(self@.threads.len() == old(self)@.threads.len());
            assert(t == cycle@[j as int]);
            assert(self@.threads[t as int] == self.records@[t as int]@);
            if !self.records[t].deadlock_data.deadlocked {
                self.records[t].deadlock_data.deadlocked = true;
                self.records[t].deadlock_data.report_to = Some(number);

                // unpark the deadlocked thread!
                // on unpark it'll notice the deadlocked flag and report back
                self.records[t].parker.unpark_lock();
            }
            proof {
                self.lemma_same_links(before);
                lemma_told_next(old(self)@.threads, cycle@.take(j as int), number, t);
                assert(cycle@.take(j + 1) =~= cycle@.take(j as int).push(t));
                assert(self@ =~= old(self)@.with_threads(
                    told(old(self)@.threads, cycle@.take(j + 1), number),
                ));
            }
            j = j + 1;
        }
        assert(cycle@.take(j as int) =~= cycle@);
    }

    /// Tells the threads of all cycles to report.
    fn tell_cycles(&mut self, cycles: &Vec<Vec<usize>>)
        requires
            old(self).linked(),
            forall|i: int, j: int|
                0 <= i < cycles@.len() && 0 <= j < cycles@[i]@.len() ==> #[trigger] cycles@[i]@[j]
                    < old(self)@.threads.len(),
        ensures
            final(self).linked(),
            final(self)@ == old(self)@.with_threads(
                all_told(old(self)@.threads, lists(cycles@)),
            ),
    {
        let mut i: usize = 0;
        proof {
            assert(lists(cycles@).take(0) =~= Seq::<Seq<usize>>::empty());
            assert(self@ =~= old(self)@.with_threads(old(self)@.threads));
        }
        while i < cycles.len()
            invariant
                i <= cycles@.len(),
                self.linked(),
                self@.threads.len() == old(self)@.threads.len(),
                forall|i: int, j: int|
                    0 <= i < cycles@.len() && 0 <= j < cycles@[i]@.len()
                        ==> #[trigger] cycles@[i]@[j] < old(self)@.threads.len(),
                self@ == old(self)@.with_threads(
                    all_told(old(self)@.threads, lists(cycles@).take(i as int)),
                ),
            decreases cycles@.len() - i,
        {
            proof {
                assert(lists(cycles@).take(i + 1).drop_last() =~= lists(cycles@).take(i as int));
                assert(lists(cycles@).take(i + 1).last() == cycles@[i as int]@);
            }
            self.tell_cycle(&cycles[i], i);
            i = i + 1;
        }
        assert(lists(cycles@).take(i as int) =~= lists(cycles@));
    }
}

/// Builds a wait graph of the threads and the resources, then checks for the
/// presence of cycles (deadlocks).
pub fn check_wait_graph_fast(lot: &ParkingLot, locked: &LockedHashTable) -> (cyclic: bool)
    requires
        lot.wf(),
        locked.size() == lot@.buckets.len(),
        lot@.all_locked(),
    ensures
        cyclic == has_cycle(wait_edges(lot@)),
{
    let graph = build_wait_graph(lot);
    graph_is_cyclic(&graph)
}

/// The search of the wait graph of a lot.
pub open spec fn lot_search(lot: LotView) -> Seq<SearchEvent> {
    thread_search(wait_edges(lot))
}

/// The cycles that a search of the wait graph of a lot comes across are
/// reported, and their threads told.
pub open spec fn cycles_reported(
    before: LotView,
    after: LotView,
    cycles: Seq<Seq<usize>>,
) -> bool {
    &&& is_search(wait_edges(before), search_starts(wait_edges(before)), lot_search(before))
    &&& cycles == cycles_in(lot_search(before))
    &&& after == before.with_threads(all_told(before.threads, cycles))
}

/// Returns all detected thread wait cycles. Their threads must be woken, and
/// then report to the cycle whose number they are given.
///
/// Note that once a cycle is reported it's never reported again.
pub fn check_wait_graph_slow(lot: &mut ParkingLot, locked: LockedHashTable) -> (cycles: Vec<
    Vec<usize>,
>)
    requires
        old(lot).wf(),
        locked.size() == old(lot)@.buckets.len(),
        old(lot)@.all_locked(),
    ensures
        final(lot).wf(),
        cycles_reported(
            old(lot)@.with_locks(false),
            final(lot)@,
            lists(cycles@),
        ),
{
    let ghost free = lot@.with_locks(false);
    lot.unlock_all_queues(locked);
    let graph = build_wait_graph(lot);

    // find cycles
    let cycles = graph_cycles(&graph, Ghost(free));
    proof {
        assert(lot.records.len() == free.threads.len());
        lemma_starts(wait_edges(free));
        law_reported_cycles_are_real(free, search_starts(wait_edges(free)), lot_search(free));
        assert forall|c: int| 0 <= c < lists(cycles@).len() implies is_wait_cycle(
            free,
            #[trigger] lists(cycles@)[c],
        ) by {
            assert(cycles_in(lot_search(free)).contains(lists(cycles@)[c]));
        }
        lemma_queued_in(free, free.buckets.len() as int);
        assert forall|i: int, j: int|
            0 <= i < cycles@.len() && 0 <= j < cycles@[i]@.len() implies #[trigger] cycles@[i]@[j]
            < free.threads.len() by {
            assert(is_wait_cycle(free, lists(cycles@)[i]));
            assert(waits_at(free, lists(cycles@)[i], j));
        }
        lemma_valid_told(free, lists(cycles@));
    }
    lot.tell_cycles(&cycles);
    cycles
}

/// A check for deadlocks that finds these cycles, by a search with these events.
pub open spec fn finds(
    before: LotView,
    after: LotView,
    now: Moment,
    events: Seq<SearchEvent>,
    cycles: Seq<Seq<usize>>,
) -> bool {
    let ready = before.with_table(now);
    &&& !ready.some_locked()
    &&& if has_cycle(wait_edges(ready)) {
        &&& is_search(wait_edges(ready), search_starts(wait_edges(ready)), events)
        &&& cycles == cycles_in(events)
        &&& after == ready.with_threads(all_told(ready.threads, cycles))
    } else {
        cycles.len() == 0 && after == ready
    }
}

/// The outcome of a check for deadlocks. It does not wait for a lock that is held.
pub open spec fn deadlock_check(
    before: LotView,
    after: LotView,
    outcome: Option<Vec<Vec<usize>>>,
) -> bool {
    exists|now: Moment| {
        let ready = #[trigger] before.with_table(now);
        &&& before.ready_at(now)
        &&& match outcome {
            None => ready.some_locked() && after == ready,
            Some(cycles) => finds(before, after, now, lot_search(ready), lists(cycles@)),
        }
    }
}

/// Returns all deadlocks detected *since* the last call, unless some bucket is
/// locked. Each cycle consists of the threads that wait for each other: they
/// must be woken, and then report.
pub fn check_deadlock(lot: &mut ParkingLot) -> (cycles: Option<Vec<Vec<usize>>>)
    requires
        old(lot).wf(),
    ensures
        final(lot).wf(),
        deadlock_check(old(lot)@, final(lot)@, cycles),
{
    lot.get_hashtable();
    let ghost ready = lot@;
    match lot.lock_all_queues() {
        None => None,
        Some(locked) => {
            proof {
                lemma_locks_aside(ready);
            }
            // fast pass
            if check_wait_graph_fast(lot, &locked) {
                // double check
                Some(check_wait_graph_slow(lot, locked))
            } else {
                lot.unlock_all_queues(locked);
                Some(Vec::new())
            }
        },
    }
}

/// Locks that are taken and freed leave everything as it was.
proof fn lemma_locks_aside(lot: LotView)
    requires
        !lot.some_locked(),
    ensures
        lot.with_locks(true).with_locks(false) == lot,
        lot.with_locks(true).all_locked(),
        wait_edges(lot.with_locks(true)) == wait_edges(lot),
{
    assert forall|b: int| 0 <= b < lot.buckets.len() implies !(#[trigger] lot.buckets[b]).locked by {
        assert(!lot.holds(b));
    }
    assert(lot.with_locks(true).with_locks(false) =~= lot);
    lemma_queued_ignores_locks(lot, lot.buckets.len() as int);
}

} // verus!
