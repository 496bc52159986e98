//! What the deadlock detector keeps of the threads, finds among them and tells
//! them, by the fields of their records.
use crate::cycles::{closed_at, cycles_in, lists, normalized, path_of, law_normalized_starts_smallest, rotated, threads_in, with_cycle};
use crate::deadlock_check::{all_told, cycles_reported, deadlock_check, finds, is_first_with, is_told, lemma_all_told, lemma_starts, lot_search, search_starts};
use crate::deadlock_data::{after_release, law_release_takes_one};
use crate::deadlock_laws::{law_deadlock_is_reported, law_fast_pass_hides_no_deadlock, lemma_back_edge_counts};
use crate::history::{lemma_named_queued, lemma_named_wait};
use crate::model::{lemma_bucket_in_range, LotView};
use crate::thread_data::ThreadView;
use crate::time::Moment;
use crate::validity::{lemma_in_queue, lemma_queued_in, lemma_valid_with_table};
use crate::queue_ops::lemma_push_members;
use crate::seq_facts::{is_last_occurrence, lemma_has_last_occurrence};
use crate::wait_cycles::{is_wait_cycle, lemma_trail, next_place, waits_at};
use crate::wait_edges::{edges_from, is_edge_of, lemma_edges_from, wait_edges};
use crate::wait_graph::{has_cycle, is_search, open_nodes, SearchEvent, RESOURCE, THREAD};
use vstd::prelude::*;

verus! {

/// A list of lists keeps all of them.
pub proof fn law_lists_keep_all(cycles: Seq<Vec<usize>>)
    ensures
        lists(cycles).len() == cycles.len(),
        forall|c: int| 0 <= c < cycles.len() ==> #[trigger] lists(cycles)[c] == cycles[c]@,
{
}

/// The threads in all buckets are those in some bucket.
pub(crate) proof fn lemma_in_some_bucket(lot: LotView, t: usize)
    requires
        lot.valid(),
    ensures
        lot.all_queued().contains(t) <==> exists|b: int|
            0 <= b < lot.buckets.len() && #[trigger] lot.buckets[b].queue.contains(t),
{
    lemma_queued_in(lot, lot.buckets.len() as int);
    if lot.all_queued().contains(t) {
        let b = lot.bucket_of(lot.threads[t as int].key);
        lemma_bucket_in_range(lot, lot.threads[t as int].key);
        assert(lot.buckets[b].queue.contains(t));
    }
    if exists|b: int| 0 <= b < lot.buckets.len() && #[trigger] lot.buckets[b].queue.contains(t) {
        let b = choose|b: int|
            0 <= b < lot.buckets.len() && #[trigger] lot.buckets[b].queue.contains(t);
        assert(lot.queue(b).contains(t));
        lemma_in_queue(lot, b, t);
    }
}

/// The wait graph has an edge from each thread in a bucket that sleeps without
/// a timeout and was not found in a deadlock to the key on which it sleeps, and
/// one from each of its resources to the thread. It has no other edge.
pub proof fn law_wait_graph_edges(lot: LotView, edge: ((u8, usize), (u8, usize)))
    requires
        lot.valid(),
    ensures
        wait_edges(lot).contains(edge) <==> exists|b: int, t: usize|
            {
                &&& 0 <= b < lot.buckets.len()
                &&& #[trigger] lot.buckets[b].queue.contains(t)
                &&& !lot.threads[t as int].parked_with_timeout
                &&& !lot.threads[t as int].deadlock.deadlocked
                &&& {
                    ||| edge == ((THREAD, t), (RESOURCE, lot.threads[t as int].key))
                    ||| {
                        &&& lot.threads[t as int].deadlock.resources.contains(edge.0.1)
                        &&& edge == ((RESOURCE, edge.0.1), (THREAD, t))
                    }
                }
            },
{
    lemma_edges_from(lot.threads, lot.all_queued(), edge);
    if wait_edges(lot).contains(edge) {
        let t = choose|t: usize| #[trigger]
            lot.all_queued().contains(t) && is_edge_of(lot.threads[t as int], t, edge);
        lemma_in_some_bucket(lot, t);
        let b = choose|b: int|
            0 <= b < lot.buckets.len() && #[trigger] lot.buckets[b].queue.contains(t);
        assert(lot.buckets[b].queue.contains(t));
    }
    if exists|b: int, t: usize|
        {
            &&& 0 <= b < lot.buckets.len()
            &&& #[trigger] lot.buckets[b].queue.contains(t)
            &&& is_edge_of(lot.threads[t as int], t, edge)
        } {
        let (b, t) = choose|b: int, t: usize|
            {
                &&& 0 <= b < lot.buckets.len()
                &&& #[trigger] lot.buckets[b].queue.contains(t)
                &&& is_edge_of(lot.threads[t as int], t, edge)
            };
        lemma_in_some_bucket(lot, t);
        assert(lot.all_queued().contains(t));
    }
}

/// The edges of threads that agree in what counts.
proof fn lemma_same_edges(threads: Seq<ThreadView>, others: Seq<ThreadView>, queue: Seq<usize>)
    requires
        forall|t: usize| #[trigger]
            queue.contains(t) ==> {
                let thread = threads[t as int];
                let other = others[t as int];
                &&& thread.parked_with_timeout == other.parked_with_timeout
                &&& thread.deadlock.deadlocked == other.deadlock.deadlocked
                &&& thread.key == other.key
                &&& thread.deadlock.resources == other.deadlock.resources
            },
    ensures
        edges_from(threads, queue) == edges_from(others, queue),
    decreases queue.len(),
{
    if queue.len() > 0 {
        let rest = queue.drop_last();
        assert(queue.contains(queue.last()));
        assert forall|t: usize| #[trigger] rest.contains(t) implies queue.contains(t) by {
            let i = choose|i: int| 0 <= i < rest.len() && rest[i] == t;
            assert(queue[i] == t);
        }
        lemma_same_edges(threads, others, rest);
    }
}

proof fn lemma_same_buckets(lot: LotView, other: LotView, n: int)
    requires
        0 <= n <= lot.buckets.len(),
        lot.buckets.len() == other.buckets.len(),
        forall|b: int|
            0 <= b < lot.buckets.len() ==> (#[trigger] lot.buckets[b]).queue
                == other.buckets[b].queue,
    ensures
        lot.queued_in(n) == other.queued_in(n),
    decreases n,
{
    if n > 0 {
        lemma_same_buckets(lot, other, n - 1);
        assert(lot.buckets[n - 1].queue == other.buckets[n - 1].queue);
    }
}

/// Nothing but the queues, and of the threads in them the key, the resources,
/// whether they have a timeout and whether they were found in a deadlock, has a
/// part in the wait graph. Threads that differ only in their tokens have the
/// same edges.
pub proof fn law_tokens_have_no_part_in_the_wait_graph(lot: LotView, other: LotView)
    requires
        lot.valid(),
        lot.buckets.len() == other.buckets.len(),
        forall|b: int|
            0 <= b < lot.buckets.len() ==> (#[trigger] lot.buckets[b]).queue
                == other.buckets[b].queue,
        forall|t: int|
            0 <= t < lot.threads.len() ==> {
                let thread = #[trigger] lot.threads[t];
                let same = other.threads[t];
                &&& thread.parked_with_timeout == same.parked_with_timeout
                &&& thread.deadlock.deadlocked == same.deadlock.deadlocked
                &&& thread.key == same.key
                &&& thread.deadlock.resources == same.deadlock.resources
            },
    ensures
        wait_edges(lot) == wait_edges(other),
{
    lemma_same_buckets(lot, other, lot.buckets.len() as int);
    lemma_queued_in(lot, lot.buckets.len() as int);
    lemma_same_edges(lot.threads, other.threads, lot.all_queued());
}

/// Threads each of which sleeps on a resource of the next are a wait cycle.
proof fn lemma_raw_cycle(lot: LotView, cycle: Seq<usize>)
    requires
        lot.valid(),
        cycle.len() > 0,
        cycle.no_duplicates(),
        forall|i: int|
            0 <= i < cycle.len() ==> {
                let t = #[trigger] cycle[i];
                &&& exists|b: int|
                    0 <= b < lot.buckets.len() && #[trigger] lot.buckets[b].queue.contains(t)
                &&& !lot.threads[t as int].parked_with_timeout
                &&& !lot.threads[t as int].deadlock.deadlocked
            },
        forall|i: int, j: int|
            0 <= i < cycle.len() && j == (i + 1) % (cycle.len() as int)
                ==> lot.threads[#[trigger] cycle[j] as int].deadlock.resources.contains(
                lot.threads[#[trigger] cycle[i] as int].key,
            ),
    ensures
        is_wait_cycle(lot, cycle),
{
    assert forall|i: int| 0 <= i < cycle.len() implies #[trigger] waits_at(lot, cycle, i) by {
        let j = next_place(cycle, i);
        assert(j == (i + 1) % (cycle.len() as int)) by {
            if i + 1 < cycle.len() {
                vstd::arithmetic::div_mod::lemma_small_mod((i + 1) as nat, cycle.len());
            } else {
                vstd::arithmetic::div_mod::lemma_mod_self_0(cycle.len() as int);
            }
        }
        lemma_in_some_bucket(lot, cycle[i]);
        lemma_in_some_bucket(lot, cycle[j]);
    }
}

/// A check that no lock holds up finds every deadlock: of threads each of which
/// is in some bucket, sleeps without a timeout, was not found in a deadlock, and
/// sleeps on a resource of the next, around in a circle, it names at least one.
pub proof fn law_check_finds_every_deadlock(
    before: LotView,
    after: LotView,
    cycles: Vec<Vec<usize>>,
    cycle: Seq<usize>,
) -> (named: (int, usize))
    requires
        before.valid(),
        deadlock_check(before, after, Some(cycles)),
        cycle.len() > 0,
        cycle.no_duplicates(),
        forall|i: int|
            0 <= i < cycle.len() ==> {
                let t = #[trigger] cycle[i];
                &&& exists|b: int|
                    0 <= b < before.buckets.len() && #[trigger] before.buckets[b].queue.contains(t)
                &&& !before.threads[t as int].parked_with_timeout
                &&& !before.threads[t as int].deadlock.deadlocked
            },
        forall|i: int, j: int|
            0 <= i < cycle.len() && j == (i + 1) % (cycle.len() as int)
                ==> before.threads[#[trigger] cycle[j] as int].deadlock.resources.contains(
                before.threads[#[trigger] cycle[i] as int].key,
            ),
    ensures
        0 <= named.0 < cycles@.len(),
        cycles@[named.0]@.contains(named.1),
        cycle.contains(named.1),
{
    let t = cycle[0];
    let b = choose|b: int|
        0 <= b < before.buckets.len() && #[trigger] before.buckets[b].queue.contains(t);
    lemma_raw_cycle(before, cycle);
    law_fast_pass_hides_no_deadlock(before, cycle);
    let found = law_deadlock_is_reported(before, lot_search(before), cycle);
    let named = lists(cycles@);
    assert(named.contains(found.0));
    let c = choose|c: int| 0 <= c < named.len() && named[c] == found.0;
    (c, found.1)
}

/// A check for deadlocks finds nothing only where a bucket is locked, and then
/// it changes nothing. Where it finds something out, no bucket was locked.
pub proof fn law_check_is_held_up_by_locks_only(
    before: LotView,
    after: LotView,
    outcome: Option<Vec<Vec<usize>>>,
)
    requires
        before.valid(),
        deadlock_check(before, after, outcome),
    ensures
        outcome is None <==> exists|b: int|
            0 <= b < before.buckets.len() && #[trigger] before.buckets[b].locked,
        outcome is None ==> after == before,
{
    let now = choose|now: Moment| {
        let ready = #[trigger] before.with_table(now);
        &&& before.ready_at(now)
        &&& match outcome {
            None => ready.some_locked() && after == ready,
            Some(cycles) => finds(before, after, now, lot_search(ready), lists(cycles@)),
        }
    };
    let ready = before.with_table(now);
    if ready.some_locked() {
        let b = choose|b: int| #[trigger] ready.holds(b);
        assert(ready.buckets[b].locked);
    }
    if exists|b: int| 0 <= b < before.buckets.len() && #[trigger] before.buckets[b].locked {
        let b = choose|b: int| 0 <= b < before.buckets.len() && #[trigger] before.buckets[b].locked;
        assert(ready.holds(b));
    }
}

/// The cycles that a search comes across are in normal form, each once.
proof fn lemma_cycles_in(events: Seq<SearchEvent>)
    ensures
        cycles_in(events).no_duplicates(),
        forall|cycle: Seq<usize>| #[trigger]
            cycles_in(events).contains(cycle) ==> exists|nodes: Seq<usize>|
                cycle == #[trigger] normalized(nodes),
    decreases events.len(),
{
    if events.len() > 0 {
        let rest = events.drop_last();
        lemma_cycles_in(rest);
        if let SearchEvent::BackEdge(_, n) = events.last() {
            let found = cycles_in(rest);
            let new = closed_at(path_of(rest), n);
            let all = with_cycle(found, new);
            assert forall|cycle: Seq<usize>| #[trigger] all.contains(cycle) implies exists|
                nodes: Seq<usize>,
            | cycle == #[trigger] normalized(nodes) by {
                let i = choose|i: int| 0 <= i < all.len() && all[i] == cycle;
                if i < found.len() {
                    assert(found[i] == cycle);
                    assert(found.contains(cycle));
                }
            }
        }
    }
}

/// A cycle in normal form starts with its smallest number.
proof fn lemma_starts_smallest(nodes: Seq<usize>)
    requires
        normalized(nodes).len() > 0,
    ensures
        forall|i: int|
            0 <= i < normalized(nodes).len() ==> normalized(nodes)[0]
                <= #[trigger] normalized(nodes)[i],
{
    if nodes.len() > 0 {
        law_normalized_starts_smallest(nodes);
        let place = choose|place: int|
            0 <= place < nodes.len() && normalized(nodes) == #[trigger] rotated(nodes, place);
        assert forall|i: int| 0 <= i < normalized(nodes).len() implies normalized(nodes)[0]
            <= #[trigger] normalized(nodes)[i] by {
            if i < nodes.len() - place {
                assert(normalized(nodes)[i] == nodes[i + place]);
            } else {
                assert(normalized(nodes)[i] == nodes[i - (nodes.len() - place)]);
            }
        }
    }
}

/// A cycle in normal form is the cycle, entered at another place: each number is
/// followed by the one that followed it before, and the smallest comes first.
pub proof fn law_normal_form_is_turned(cycle: Seq<usize>) -> (place: int)
    requires
        cycle.len() > 0,
    ensures
        0 <= place < cycle.len(),
        normalized(cycle).len() == cycle.len(),
        forall|i: int|
            0 <= i < cycle.len() ==> #[trigger] normalized(cycle)[i] == cycle[(i + place)
                % (cycle.len() as int)],
        forall|i: int| 0 <= i < cycle.len() ==> normalized(cycle)[0] <= #[trigger] cycle[i],
{
    law_normalized_starts_smallest(cycle);
    let place = choose|place: int|
        0 <= place < cycle.len() && normalized(cycle) == #[trigger] rotated(cycle, place);
    assert forall|i: int| 0 <= i < cycle.len() implies #[trigger] normalized(cycle)[i] == cycle[(i
        + place) % (cycle.len() as int)] by {
        if i + place < cycle.len() {
            vstd::arithmetic::div_mod::lemma_small_mod((i + place) as nat, cycle.len());
        } else {
            vstd::arithmetic::div_mod::lemma_small_mod(
                (i + place - cycle.len()) as nat,
                cycle.len(),
            );
            vstd::arithmetic::div_mod::lemma_mod_sub_multiples_vanish(
                i + place,
                cycle.len() as int,
            );
        }
    }
    place
}

/// What a check finds is real: each cycle consists of threads, each in some
/// bucket, asleep without a timeout and not found in a deadlock before, each of
/// which sleeps on a resource of the next, around in a circle. It starts with
/// the smallest number, has every thread once, and no cycle is named twice.
pub proof fn law_found_deadlocks_are_real(
    before: LotView,
    after: LotView,
    cycles: Vec<Vec<usize>>,
    c: int,
)
    requires
        before.valid(),
        deadlock_check(before, after, Some(cycles)),
        0 <= c < cycles@.len(),
    ensures
        ({
            let cycle = cycles@[c]@;
            &&& cycle.len() > 0
            &&& cycle.no_duplicates()
            &&& forall|i: int|
                0 <= i < cycle.len() ==> {
                    let t = #[trigger] cycle[i];
                    &&& t < before.threads.len()
                    &&& exists|b: int|
                        0 <= b < before.buckets.len()
                            && #[trigger] before.buckets[b].queue.contains(
                            t,
                        )
                    &&& before.threads[t as int].live
                    &&& before.threads[t as int].parked
                    &&& !before.threads[t as int].parked_with_timeout
                    &&& !before.threads[t as int].deadlock.deadlocked
                    &&& cycle[0] <= t
                }
            &&& forall|i: int, j: int|
                0 <= i < cycle.len() && j == (i + 1) % (cycle.len() as int)
                    ==> before.threads[#[trigger] cycle[j] as int].deadlock.resources.contains(
                    before.threads[#[trigger] cycle[i] as int].key,
                )
            &&& forall|d: int|
                0 <= d < cycles@.len() && d != c ==> (#[trigger] cycles@[d])@ != cycle
        }),
{
    let now = choose|now: Moment| {
        let ready = #[trigger] before.with_table(now);
        &&& before.ready_at(now)
        &&& finds(before, after, now, lot_search(ready), lists(cycles@))
    };
    let ready = before.with_table(now);
    let events = lot_search(ready);
    let cycle = cycles@[c]@;
    lemma_valid_with_table(before, now);
    lemma_named_wait(ready, events);
    lemma_cycles_in(events);
    assert(lists(cycles@)[c] == cycle);
    assert(cycles_in(events).contains(cycle));
    let nodes = choose|nodes: Seq<usize>| cycle == #[trigger] normalized(nodes);
    lemma_starts_smallest(nodes);
    assert(before.has_table()) by {
        assert(cycle.contains(cycle[0]));
        lemma_named_queued(ready, cycle, cycle[0]);
        let key = ready.threads[cycle[0] as int].key;
        lemma_bucket_in_range(ready, key);
        assert(!before.has_table() ==> ready.buckets[ready.bucket_of(key)].queue.len() == 0);
    }
    assert forall|i: int| 0 <= i < cycle.len() implies {
        let t = #[trigger] cycle[i];
        &&& t < before.threads.len()
        &&& exists|b: int|
            0 <= b < before.buckets.len() && #[trigger] before.buckets[b].queue.contains(t)
        &&& before.threads[t as int].live
        &&& before.threads[t as int].parked
        &&& !before.threads[t as int].parked_with_timeout
        &&& !before.threads[t as int].deadlock.deadlocked
        &&& cycle[0] <= t
    } by {
        assert(cycle.contains(cycle[i]));
        lemma_named_queued(before, cycle, cycle[i]);
        assert(waits_at(before, cycle, i));
        lemma_in_some_bucket(before, cycle[i]);
    }
    assert forall|i: int, j: int|
        0 <= i < cycle.len() && j == (i + 1) % (cycle.len() as int)
            implies before.threads[#[trigger] cycle[j] as int].deadlock.resources.contains(
        before.threads[#[trigger] cycle[i] as int].key,
    ) by {
        assert(waits_at(before, cycle, i));
        if i + 1 < cycle.len() {
            vstd::arithmetic::div_mod::lemma_small_mod((i + 1) as nat, cycle.len());
        } else {
            vstd::arithmetic::div_mod::lemma_mod_self_0(cycle.len() as int);
        }
        assert(j == next_place(cycle, i));
    }
    assert forall|d: int| 0 <= d < cycles@.len() && d != c implies (#[trigger] cycles@[d])@
        != cycle by {
        assert(lists(cycles@)[d] == cycles@[d]@);
    }
}

/// A check wakes the threads that it names, and tells each to report to the
/// first cycle that it is in. Nothing else of them changes, no other thread
/// changes, and neither does anything else, but that the table is made if there
/// was none.
pub proof fn law_check_tells_those_it_names(
    before: LotView,
    after: LotView,
    cycles: Vec<Vec<usize>>,
    thread: usize,
)
    requires
        before.valid(),
        before.threads.len() <= usize::MAX,
        deadlock_check(before, after, Some(cycles)),
        thread < before.threads.len(),
    ensures
        ({
            let old_thread = before.threads[thread as int];
            let new_thread = after.threads[thread as int];
            &&& (forall|c: int| 0 <= c < cycles@.len()
                ==> !(#[trigger] cycles@[c])@.contains(thread))
                ==> new_thread == old_thread
            &&& forall|c: int|
                {
                    &&& 0 <= c < cycles@.len()
                    &&& (#[trigger] cycles@[c])@.contains(thread)
                    &&& forall|d: int| 0 <= d < c ==> !(#[trigger] cycles@[d])@.contains(thread)
                } ==> {
                    &&& !new_thread.parked
                    &&& new_thread.deadlock.deadlocked
                    &&& new_thread.deadlock.report_to == Some(c as usize)
                    &&& new_thread.deadlock.resources == old_thread.deadlock.resources
                    &&& new_thread.deadlock.thread_id == old_thread.deadlock.thread_id
                    &&& new_thread.live == old_thread.live
                    &&& new_thread.key == old_thread.key
                    &&& new_thread.unpark_token == old_thread.unpark_token
                    &&& new_thread.park_token == old_thread.park_token
                    &&& new_thread.parked_with_timeout == old_thread.parked_with_timeout
                }
        }),
        after.threads.len() == before.threads.len(),
        after.num_threads == before.num_threads,
        after.started == before.started,
        before.buckets.len() > 0 ==> {
            &&& after.buckets == before.buckets
            &&& after.hash_bits == before.hash_bits
            &&& after.latest == before.latest
        },
{
    let now = choose|now: Moment| {
        let ready = #[trigger] before.with_table(now);
        &&& before.ready_at(now)
        &&& finds(before, after, now, lot_search(ready), lists(cycles@))
    };
    let ready = before.with_table(now);
    let named = lists(cycles@);
    lemma_all_told(ready.threads, named);
    if has_cycle(wait_edges(ready)) {
        assert(is_told(
            before.threads[thread as int],
            all_told(ready.threads, named)[thread as int],
            named,
            thread,
        ));
        assert forall|c: int|
            {
                &&& 0 <= c < cycles@.len()
                &&& (#[trigger] cycles@[c])@.contains(thread)
                &&& forall|d: int| 0 <= d < c ==> !(#[trigger] cycles@[d])@.contains(thread)
            } implies {
            &&& is_first_with(named, thread, c)
            &&& !before.threads[thread as int].deadlock.deadlocked
        } by {
            law_found_deadlocks_are_real(before, after, cycles, c);
            let i = choose|i: int| 0 <= i < cycles@[c]@.len() && cycles@[c]@[i] == thread;
            assert(cycles@[c]@[i] == thread);
            assert(named[c] == cycles@[c]@);
            assert forall|d: int| 0 <= d < c implies !(#[trigger] named[d]).contains(thread) by {
                assert(named[d] == cycles@[d]@);
            }
        }
        assert forall|c: int| 0 <= c < named.len() implies #[trigger] named[c] == cycles@[c]@ by {}
    }
}

/// The fast pass sees every deadlock: where threads, each in some bucket, asleep
/// without a timeout and not found in a deadlock, sleep each on a resource of
/// the next, around in a circle, the wait graph has a cycle.
pub proof fn law_fast_pass_sees_every_deadlock(lot: LotView, cycle: Seq<usize>)
    requires
        lot.valid(),
        cycle.len() > 0,
        cycle.no_duplicates(),
        forall|i: int|
            0 <= i < cycle.len() ==> {
                let t = #[trigger] cycle[i];
                &&& exists|b: int|
                    0 <= b < lot.buckets.len() && #[trigger] lot.buckets[b].queue.contains(t)
                &&& !lot.threads[t as int].parked_with_timeout
                &&& !lot.threads[t as int].deadlock.deadlocked
            },
        forall|i: int, j: int|
            0 <= i < cycle.len() && j == (i + 1) % (cycle.len() as int)
                ==> lot.threads[#[trigger] cycle[j] as int].deadlock.resources.contains(
                lot.threads[#[trigger] cycle[i] as int].key,
            ),
    ensures
        has_cycle(wait_edges(lot)),
{
    lemma_raw_cycle(lot, cycle);
    law_fast_pass_hides_no_deadlock(lot, cycle);
}

/// So does the slow pass by itself.
pub proof fn law_slow_pass_finds_every_deadlock(
    before: LotView,
    after: LotView,
    cycles: Vec<Vec<usize>>,
    cycle: Seq<usize>,
) -> (named: (int, usize))
    requires
        before.valid(),
        cycles_reported(before, after, lists(cycles@)),
        cycle.len() > 0,
        cycle.no_duplicates(),
        forall|i: int|
            0 <= i < cycle.len() ==> {
                let t = #[trigger] cycle[i];
                &&& exists|b: int|
                    0 <= b < before.buckets.len() && #[trigger] before.buckets[b].queue.contains(t)
                &&& !before.threads[t as int].parked_with_timeout
                &&& !before.threads[t as int].deadlock.deadlocked
            },
        forall|i: int, j: int|
            0 <= i < cycle.len() && j == (i + 1) % (cycle.len() as int)
                ==> before.threads[#[trigger] cycle[j] as int].deadlock.resources.contains(
                before.threads[#[trigger] cycle[i] as int].key,
            ),
    ensures
        0 <= named.0 < cycles@.len(),
        cycles@[named.0]@.contains(named.1),
        cycle.contains(named.1),
{
    lemma_raw_cycle(before, cycle);
    let found = law_deadlock_is_reported(before, lot_search(before), cycle);
    let named = lists(cycles@);
    assert(named.contains(found.0));
    let c = choose|c: int| 0 <= c < named.len() && named[c] == found.0;
    (c, found.1)
}

/// So is what the slow pass finds by itself.
pub proof fn law_slow_pass_finds_real_deadlocks(
    before: LotView,
    after: LotView,
    cycles: Vec<Vec<usize>>,
    c: int,
)
    requires
        before.valid(),
        cycles_reported(before, after, lists(cycles@)),
        0 <= c < cycles@.len(),
    ensures
        ({
            let cycle = cycles@[c]@;
            &&& cycle.len() > 0
            &&& cycle.no_duplicates()
            &&& forall|i: int|
                0 <= i < cycle.len() ==> {
                    let t = #[trigger] cycle[i];
                    &&& t < before.threads.len()
                    &&& exists|b: int|
                        0 <= b < before.buckets.len()
                            && #[trigger] before.buckets[b].queue.contains(
                            t,
                        )
                    &&& before.threads[t as int].live
                    &&& before.threads[t as int].parked
                    &&& !before.threads[t as int].parked_with_timeout
                    &&& !before.threads[t as int].deadlock.deadlocked
                    &&& cycle[0] <= t
                }
            &&& forall|i: int, j: int|
                0 <= i < cycle.len() && j == (i + 1) % (cycle.len() as int)
                    ==> before.threads[#[trigger] cycle[j] as int].deadlock.resources.contains(
                    before.threads[#[trigger] cycle[i] as int].key,
                )
            &&& forall|d: int|
                0 <= d < cycles@.len() && d != c ==> (#[trigger] cycles@[d])@ != cycle
        }),
{
    let events = lot_search(before);
    let cycle = cycles@[c]@;
    lemma_named_wait(before, events);
    lemma_cycles_in(events);
    assert(lists(cycles@)[c] == cycle);
    assert(cycles_in(events).contains(cycle));
    let nodes = choose|nodes: Seq<usize>| cycle == #[trigger] normalized(nodes);
    lemma_starts_smallest(nodes);
    assert forall|i: int| 0 <= i < cycle.len() implies {
        let t = #[trigger] cycle[i];
        &&& t < before.threads.len()
        &&& exists|b: int|
            0 <= b < before.buckets.len() && #[trigger] before.buckets[b].queue.contains(t)
        &&& before.threads[t as int].live
        &&& before.threads[t as int].parked
        &&& !before.threads[t as int].parked_with_timeout
        &&& !before.threads[t as int].deadlock.deadlocked
        &&& cycle[0] <= t
    } by {
        assert(cycle.contains(cycle[i]));
        lemma_named_queued(before, cycle, cycle[i]);
        assert(waits_at(before, cycle, i));
        lemma_in_some_bucket(before, cycle[i]);
    }
    assert forall|i: int, j: int|
        0 <= i < cycle.len() && j == (i + 1) % (cycle.len() as int)
            implies before.threads[#[trigger] cycle[j] as int].deadlock.resources.contains(
        before.threads[#[trigger] cycle[i] as int].key,
    ) by {
        assert(waits_at(before, cycle, i));
        if i + 1 < cycle.len() {
            vstd::arithmetic::div_mod::lemma_small_mod((i + 1) as nat, cycle.len());
        } else {
            vstd::arithmetic::div_mod::lemma_mod_self_0(cycle.len() as int);
        }
        assert(j == next_place(cycle, i));
    }
    assert forall|d: int| 0 <= d < cycles@.len() && d != c implies (#[trigger] cycles@[d])@
        != cycle by {
        assert(lists(cycles@)[d] == cycles@[d]@);
    }
}

/// So does the slow pass by itself, and it changes nothing else at all.
pub proof fn law_slow_pass_tells_those_it_names(
    before: LotView,
    after: LotView,
    cycles: Vec<Vec<usize>>,
    thread: usize,
)
    requires
        before.valid(),
        before.threads.len() <= usize::MAX,
        cycles_reported(before, after, lists(cycles@)),
        thread < before.threads.len(),
    ensures
        ({
            let old_thread = before.threads[thread as int];
            let new_thread = after.threads[thread as int];
            &&& (forall|c: int| 0 <= c < cycles@.len()
                ==> !(#[trigger] cycles@[c])@.contains(thread))
                ==> new_thread == old_thread
            &&& forall|c: int|
                {
                    &&& 0 <= c < cycles@.len()
                    &&& (#[trigger] cycles@[c])@.contains(thread)
                    &&& forall|d: int| 0 <= d < c ==> !(#[trigger] cycles@[d])@.contains(thread)
                } ==> {
                    &&& !new_thread.parked
                    &&& new_thread.deadlock.deadlocked
                    &&& new_thread.deadlock.report_to == Some(c as usize)
                    &&& new_thread.deadlock.resources == old_thread.deadlock.resources
                    &&& new_thread.deadlock.thread_id == old_thread.deadlock.thread_id
                    &&& new_thread.live == old_thread.live
                    &&& new_thread.key == old_thread.key
                    &&& new_thread.unpark_token == old_thread.unpark_token
                    &&& new_thread.park_token == old_thread.park_token
                    &&& new_thread.parked_with_timeout == old_thread.parked_with_timeout
                }
        }),
        after.threads.len() == before.threads.len(),
        after.num_threads == before.num_threads,
        after.started == before.started,
        after.buckets == before.buckets,
        after.hash_bits == before.hash_bits,
        after.latest == before.latest,
{
    let named = lists(cycles@);
    lemma_all_told(before.threads, named);
    assert(is_told(
        before.threads[thread as int],
        all_told(before.threads, named)[thread as int],
        named,
        thread,
    ));
    assert forall|c: int|
        {
            &&& 0 <= c < cycles@.len()
            &&& (#[trigger] cycles@[c])@.contains(thread)
            &&& forall|d: int| 0 <= d < c ==> !(#[trigger] cycles@[d])@.contains(thread)
        } implies {
        &&& is_first_with(named, thread, c)
        &&& !before.threads[thread as int].deadlock.deadlocked
    } by {
        law_slow_pass_finds_real_deadlocks(before, after, cycles, c);
        let i = choose|i: int| 0 <= i < cycles@[c]@.len() && cycles@[c]@[i] == thread;
        assert(cycles@[c]@[i] == thread);
        assert(named[c] == cycles@[c]@);
        assert forall|d: int| 0 <= d < c implies !(#[trigger] named[d]).contains(thread) by {
            assert(named[d] == cycles@[d]@);
        }
    }
    assert forall|c: int| 0 <= c < named.len() implies #[trigger] named[c] == cycles@[c]@ by {}
}

/// The threads among some nodes.
proof fn lemma_thread_members(nodes: Seq<(u8, usize)>, t: usize)
    ensures
        threads_in(nodes).contains(t) <==> nodes.contains((THREAD, t)),
    decreases nodes.len(),
{
    if nodes.len() > 0 {
        let rest = nodes.drop_last();
        lemma_thread_members(rest, t);
        let last = nodes.last();
        assert(nodes =~= rest.push(last));
        if rest.contains((THREAD, t)) {
            let i = choose|i: int| 0 <= i < rest.len() && rest[i] == (THREAD, t);
            assert(nodes[i] == (THREAD, t));
        }
        if nodes.contains((THREAD, t)) && last != (THREAD, t) {
            let i = choose|i: int| 0 <= i < nodes.len() && nodes[i] == (THREAD, t);
            assert(rest[i] == (THREAD, t));
        }
        if last == (THREAD, t) {
            assert(nodes[nodes.len() - 1] == (THREAD, t));
        }
        if last.0 == THREAD {
            lemma_push_members(threads_in(rest), last.1);
        }
    }
}

/// The members of a cycle in normal form.
proof fn lemma_normal_members(nodes: Seq<usize>, t: usize)
    ensures
        normalized(nodes).contains(t) <==> nodes.contains(t),
{
    if nodes.len() > 0 {
        law_normalized_starts_smallest(nodes);
        let place = choose|place: int|
            0 <= place < nodes.len() && normalized(nodes) == #[trigger] rotated(nodes, place);
        let turned = rotated(nodes, place);
        if turned.contains(t) {
            let i = choose|i: int| 0 <= i < turned.len() && turned[i] == t;
            if i < nodes.len() - place {
                assert(nodes[i + place] == t);
            } else {
                assert(nodes[i - (nodes.len() - place)] == t);
            }
        }
        if nodes.contains(t) {
            let i = choose|i: int| 0 <= i < nodes.len() && nodes[i] == t;
            if i >= place {
                assert(turned[i - place] == t);
            } else {
                assert(turned[i + (nodes.len() - place)] == t);
            }
        }
    }
}

/// Each edge by which the search comes back to a node on its way closes a cycle
/// that is reported: it consists of the threads on the way from that node on.
pub proof fn law_every_edge_back_closes_a_cycle(
    lot: LotView,
    events: Seq<SearchEvent>,
    i: int,
    u: (u8, usize),
    v: (u8, usize),
    place: int,
) -> (cycle: Seq<usize>)
    requires
        is_search(wait_edges(lot), search_starts(wait_edges(lot)), events),
        0 <= i < events.len(),
        events[i] == SearchEvent::BackEdge(u, v),
        0 <= place < open_nodes(events.take(i)).len(),
        open_nodes(events.take(i))[place] == v,
    ensures
        cycles_in(events).contains(cycle),
        forall|t: usize| #[trigger]
            cycle.contains(t) <==> exists|j: int|
                place <= j < open_nodes(events.take(i)).len() && #[trigger] open_nodes(
                    events.take(i),
                )[j] == (THREAD, t),
{
    let starts = search_starts(wait_edges(lot));
    let open = open_nodes(events.take(i));
    lemma_starts(wait_edges(lot));
    lemma_trail(lot, starts, events, i);
    lemma_back_edge_counts(events, i, u, v, events.len() as int);
    assert(events.take(events.len() as int) =~= events);
    let found = choose|p: int| is_last_occurrence(open, v, p);
    lemma_has_last_occurrence(open, v);
    assert(found == place);
    let ring = open.skip(place);
    let cycle = closed_at(path_of(events.take(i)), v);
    assert forall|t: usize| #[trigger] cycle.contains(t) <==> exists|j: int|
        place <= j < open.len() && #[trigger] open[j] == (THREAD, t) by {
        lemma_normal_members(threads_in(ring), t);
        lemma_thread_members(ring, t);
        if ring.contains((THREAD, t)) {
            let j = choose|j: int| 0 <= j < ring.len() && ring[j] == (THREAD, t);
            assert(open[j + place] == (THREAD, t));
        }
        if exists|j: int| place <= j < open.len() && #[trigger] open[j] == (THREAD, t) {
            let j = choose|j: int| place <= j < open.len() && #[trigger] open[j] == (THREAD, t);
            assert(ring[j - place] == (THREAD, t));
        }
    }
    cycle
}

/// A thread that reports its deadlock goes back to sleep, and has nothing left
/// to report. All else stays as it was.
pub proof fn law_report_sends_back_to_sleep(before: LotView, after: LotView, thread: usize)
    requires
        thread < before.threads.len(),
        after == before.reported(thread),
    ensures
        ({
            let old_thread = before.threads[thread as int];
            let new_thread = after.threads[thread as int];
            &&& new_thread.parked
            &&& new_thread.deadlock.report_to is None
            &&& new_thread.deadlock.deadlocked == old_thread.deadlock.deadlocked
            &&& new_thread.deadlock.resources == old_thread.deadlock.resources
            &&& new_thread.deadlock.thread_id == old_thread.deadlock.thread_id
            &&& new_thread.live == old_thread.live
            &&& new_thread.key == old_thread.key
            &&& new_thread.unpark_token == old_thread.unpark_token
            &&& new_thread.park_token == old_thread.park_token
            &&& new_thread.parked_with_timeout == old_thread.parked_with_timeout
        }),
        after.threads.len() == before.threads.len(),
        forall|t: int|
            0 <= t < before.threads.len() && t != thread ==> #[trigger] after.threads[t]
                == before.threads[t],
        after.hash_bits == before.hash_bits,
        after.buckets == before.buckets,
        after.num_threads == before.num_threads,
        after.started == before.started,
        after.latest == before.latest,
{
}

/// A thread that acquires a resource owns it once more than before, whatever it
/// owned. It owns every other resource as often as before, and all else stays
/// as it was.
pub proof fn law_acquire_adds_one(before: LotView, after: LotView, thread: usize, key: usize)
    requires
        thread < before.threads.len(),
        after == before.with_resources(
            thread,
            before.threads[thread as int].deadlock.resources.push(key),
        ),
    ensures
        after.threads[thread as int].deadlock.resources.to_multiset()
            == before.threads[thread as int].deadlock.resources.to_multiset().insert(key),
        after.threads[thread as int].deadlock.resources.len()
            == before.threads[thread as int].deadlock.resources.len() + 1,
        after.threads[thread as int].deadlock.resources.contains(key),
        ({
            let old_thread = before.threads[thread as int];
            let new_thread = after.threads[thread as int];
            &&& new_thread.deadlock.deadlocked == old_thread.deadlock.deadlocked
            &&& new_thread.deadlock.report_to == old_thread.deadlock.report_to
            &&& new_thread.deadlock.thread_id == old_thread.deadlock.thread_id
            &&& new_thread.parked == old_thread.parked
            &&& new_thread.live == old_thread.live
            &&& new_thread.key == old_thread.key
            &&& new_thread.unpark_token == old_thread.unpark_token
            &&& new_thread.park_token == old_thread.park_token
            &&& new_thread.parked_with_timeout == old_thread.parked_with_timeout
        }),
        after.threads.len() == before.threads.len(),
        forall|t: int|
            0 <= t < before.threads.len() && t != thread ==> #[trigger] after.threads[t]
                == before.threads[t],
        after.hash_bits == before.hash_bits,
        after.buckets == before.buckets,
        after.num_threads == before.num_threads,
        after.started == before.started,
        after.latest == before.latest,
{
    broadcast use vstd::seq_lib::group_to_multiset_ensures;

    let resources = before.threads[thread as int].deadlock.resources;
    assert(resources.push(key)[resources.len() as int] == key);
}

/// A thread that releases a resource owns it once less than before, whatever
/// else it owns. It owns every other resource as often as before, and all else
/// stays as it was.
pub proof fn law_release_removes_one(before: LotView, after: LotView, thread: usize, key: usize)
    requires
        thread < before.threads.len(),
        before.threads[thread as int].deadlock.resources.contains(key),
        after == before.with_resources(
            thread,
            after_release(before.threads[thread as int].deadlock.resources, key),
        ),
    ensures
        after.threads[thread as int].deadlock.resources.to_multiset()
            == before.threads[thread as int].deadlock.resources.to_multiset().remove(key),
        after.threads[thread as int].deadlock.resources.len()
            == before.threads[thread as int].deadlock.resources.len() - 1,
        ({
            let old_thread = before.threads[thread as int];
            let new_thread = after.threads[thread as int];
            &&& new_thread.deadlock.deadlocked == old_thread.deadlock.deadlocked
            &&& new_thread.deadlock.report_to == old_thread.deadlock.report_to
            &&& new_thread.deadlock.thread_id == old_thread.deadlock.thread_id
            &&& new_thread.parked == old_thread.parked
            &&& new_thread.live == old_thread.live
            &&& new_thread.key == old_thread.key
            &&& new_thread.unpark_token == old_thread.unpark_token
            &&& new_thread.park_token == old_thread.park_token
            &&& new_thread.parked_with_timeout == old_thread.parked_with_timeout
        }),
        after.threads.len() == before.threads.len(),
        forall|t: int|
            0 <= t < before.threads.len() && t != thread ==> #[trigger] after.threads[t]
                == before.threads[t],
        after.hash_bits == before.hash_bits,
        after.buckets == before.buckets,
        after.num_threads == before.num_threads,
        after.started == before.started,
        after.latest == before.latest,
{
    let resources = before.threads[thread as int].deadlock.resources;
    law_release_takes_one(resources, key);
    resources.to_multiset_ensures();
    after_release(resources, key).to_multiset_ensures();
}

} // verus!
