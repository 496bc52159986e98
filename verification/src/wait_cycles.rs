//! The cycles that a search of the wait graph reports are cycles of threads
//! that wait for each other.
use crate::cycles::{closed_at, cycles_in, law_normalized_starts_smallest, normalized, path_of, rotated, threads_in, traceable};
use crate::model::LotView;
use crate::seq_facts::{is_last_occurrence, lemma_has_last_occurrence};
use crate::wait_edges::{is_edge_of, lemma_edges_from, wait_edges, waits};
use crate::wait_graph::{fits_at, in_order, is_search, open_nodes, SearchEvent, RESOURCE, THREAD};
use vstd::prelude::*;

verus! {

/// A thread waits for a resource that another one owns. Both are parked without
/// a timeout, and neither has been reported.
pub open spec fn waits_for(lot: LotView, a: usize, b: usize) -> bool {
    &&& lot.all_queued().contains(a) && waits(lot.threads[a as int])
    &&& lot.all_queued().contains(b) && waits(lot.threads[b as int])
    &&& lot.threads[b as int].deadlock.resources.contains(lot.threads[a as int].key)
}

/// The place that follows a place in a cycle.
pub open spec fn next_place(cycle: Seq<usize>, i: int) -> int {
    if i + 1 < cycle.len() {
        i + 1
    } else {
        0
    }
}

/// The thread at a place of a cycle waits for the next.
pub open spec fn waits_at(lot: LotView, cycle: Seq<usize>, i: int) -> bool {
    waits_for(lot, cycle[i], cycle[next_place(cycle, i)])
}

/// A cycle of threads each of which waits for the next.
pub open spec fn is_wait_cycle(lot: LotView, cycle: Seq<usize>) -> bool {
    &&& cycle.len() > 0
    &&& cycle.no_duplicates()
    &&& forall|i: int| 0 <= i < cycle.len() ==> #[trigger] waits_at(lot, cycle, i)
}

/// The nodes from which the graph is searched: those of threads.
pub open spec fn thread_nodes(nodes: Seq<(u8, usize)>) -> Seq<(u8, usize)> {
    nodes.filter(|n: (u8, usize)| n.0 == THREAD)
}

/// A wait cycle stays one wherever it is entered.
pub(crate) proof fn lemma_rotated_cycle(lot: LotView, cycle: Seq<usize>, place: int)
    requires
        is_wait_cycle(lot, cycle),
        0 <= place < cycle.len(),
    ensures
        is_wait_cycle(lot, rotated(cycle, place)),
{
    let turned = rotated(cycle, place);
    assert forall|i: int, j: int|
        0 <= i < turned.len() && 0 <= j < turned.len() && i != j implies turned[i] != turned[j] by {
        let a = if i < cycle.len() - place {
            i + place
        } else {
            i - (cycle.len() - place)
        };
        let b = if j < cycle.len() - place {
            j + place
        } else {
            j - (cycle.len() - place)
        };
        assert(turned[i] == cycle[a] && turned[j] == cycle[b]);
    }
    assert forall|i: int| 0 <= i < turned.len() implies #[trigger] waits_at(
        lot,
        turned,
        i,
    ) by {
        let a = if i < cycle.len() - place {
            i + place
        } else {
            i - (cycle.len() - place)
        };
        assert(turned[i] == cycle[a]);
        assert(turned[next_place(turned, i)] == cycle[next_place(cycle, a)]);
        assert(waits_at(lot, cycle, a));
    }
}

/// What an edge of the wait graph says.
pub(crate) proof fn lemma_edge(lot: LotView, a: (u8, usize), b: (u8, usize))
    requires
        wait_edges(lot).contains((a, b)),
    ensures
        a.0 == THREAD ==> {
            &&& b == (RESOURCE, lot.threads[a.1 as int].key)
            &&& lot.all_queued().contains(a.1)
            &&& waits(lot.threads[a.1 as int])
        },
        a.0 != THREAD ==> {
            &&& a.0 == RESOURCE
            &&& b.0 == THREAD
            &&& lot.all_queued().contains(b.1)
            &&& waits(lot.threads[b.1 as int])
            &&& lot.threads[b.1 as int].deadlock.resources.contains(a.1)
        },
{
    lemma_edges_from(lot.threads, lot.all_queued(), (a, b));
    let t = choose|t: usize| #[trigger]
        lot.all_queued().contains(t) && is_edge_of(lot.threads[t as int], t, (a, b));
}

/// How far a search has come: the way to where it is consists of threads and
/// resources in turn, each of which waits for the next.
pub open spec fn is_trail(lot: LotView, events: Seq<SearchEvent>) -> bool {
    let open = open_nodes(events);
    &&& path_of(events) == open
    &&& open.no_duplicates()
    &&& forall|j: int|
        0 <= j < open.len() ==> events.contains(SearchEvent::Discover(#[trigger] open[j]))
    &&& forall|j: int, k: int|
        0 <= j && k == j + 1 && k < open.len() ==> wait_edges(lot).contains(
            (#[trigger] open[j], #[trigger] open[k]),
        )
    &&& forall|j: int|
        0 <= j < open.len() ==> (#[trigger] open[j]).0 == if j % 2 == 0 {
            THREAD
        } else {
            RESOURCE
        }
}

/// A search of the wait graph from its threads leaves a trail.
pub(crate) proof fn lemma_trail(
    lot: LotView,
    starts: Seq<(u8, usize)>,
    events: Seq<SearchEvent>,
    n: int,
)
    requires
        in_order(wait_edges(lot), starts, events),
        forall|s: (u8, usize)| #[trigger] starts.contains(s) ==> s.0 == THREAD,
        0 <= n <= events.len(),
    ensures
        is_trail(lot, events.take(n)),
    decreases n,
{
    if n > 0 {
        lemma_trail(lot, starts, events, n - 1);
        let before = events.take(n - 1);
        let after = events.take(n);
        assert(after.drop_last() =~= before);
        let event = events[n - 1];
        assert(after.last() == event);
        assert(fits_at(wait_edges(lot), starts, events, n - 1));
        let open = open_nodes(before);
        assert forall|e: SearchEvent| before.contains(e) implies after.contains(e) by {
            let i = choose|i: int| 0 <= i < before.len() && before[i] == e;
            assert(after[i] == e);
        }
        match event {
            SearchEvent::Discover(v) => {
                assert(after[n - 1] == event);
                if open.len() > 0 {
                    let u = open.last();
                    assert(before.last() == SearchEvent::TreeEdge(u, v));
                    assert(events[n - 2] == before.last());
                    assert(fits_at(wait_edges(lot), starts, events, n - 2));
                    lemma_edge(lot, u, v);
                    assert(open[open.len() - 1] == u);
                }
                let next = open.push(v);
                assert(open_nodes(after) == next);
                if open.contains(v) {
                    let j = choose|j: int| 0 <= j < open.len() && open[j] == v;
                    assert(before.contains(SearchEvent::Discover(open[j])));
                }
                assert(next.no_duplicates());
            },
            SearchEvent::Finish(v) => {
                assert(open_nodes(after) == open.drop_last());
            },
            _ => {
                assert(open_nodes(after) == open);
            },
        }
    } else {
        assert(events.take(0) =~= Seq::<SearchEvent>::empty());
    }
}

/// The threads of a way on which threads and resources take turns.
proof fn lemma_threads_in_turn(nodes: Seq<(u8, usize)>, first: int)
    requires
        0 <= first <= 1,
        forall|j: int|
            0 <= j < nodes.len() ==> (#[trigger] nodes[j]).0 == if j % 2 == first {
                THREAD
            } else {
                RESOURCE
            },
    ensures
        threads_in(nodes).len() == (nodes.len() + 1 - first) / 2,
        forall|k: int, j: int|
            0 <= k < threads_in(nodes).len() && j == 2 * k + first ==> #[trigger] threads_in(
                nodes,
            )[k] == (#[trigger] nodes[j]).1,
    decreases nodes.len(),
{
    if nodes.len() > 0 {
        let rest = nodes.drop_last();
        assert forall|j: int| 0 <= j < rest.len() implies (#[trigger] rest[j]).0 == if j % 2
            == first {
            THREAD
        } else {
            RESOURCE
        } by {
            assert(rest[j] == nodes[j]);
        }
        lemma_threads_in_turn(rest, first);
        let last = nodes.len() - 1;
        assert(nodes[last] == nodes.last());
        assert forall|k: int, j: int|
            0 <= k < threads_in(nodes).len() && j == 2 * k + first implies #[trigger] threads_in(
            nodes,
        )[k] == (#[trigger] nodes[j]).1 by {
            if k < threads_in(rest).len() {
                assert(rest[j] == nodes[j]);
                assert(threads_in(rest)[k] == rest[j].1);
            }
        }
    }
}

/// A closed way on which threads and resources take turns is a wait cycle.
proof fn lemma_ring(lot: LotView, ring: Seq<(u8, usize)>, first: int)
    requires
        0 <= first <= 1,
        ring.len() >= 2,
        ring.len() % 2 == 0,
        ring.no_duplicates(),
        forall|j: int|
            0 <= j < ring.len() ==> (#[trigger] ring[j]).0 == if j % 2 == first {
                THREAD
            } else {
                RESOURCE
            },
        forall|j: int, k: int|
            0 <= j && k == j + 1 && k < ring.len() ==> wait_edges(lot).contains(
                (#[trigger] ring[j], #[trigger] ring[k]),
            ),
        wait_edges(lot).contains((ring.last(), ring[0])),
    ensures
        is_wait_cycle(lot, threads_in(ring)),
        threads_in(ring).len() == ring.len() / 2,
        first == 0 ==> threads_in(ring)[0] == ring[0].1,
        first == 1 ==> threads_in(ring).last() == ring.last().1,
{
    let cycle = threads_in(ring);
    lemma_threads_in_turn(ring, first);
    assert(cycle[0] == ring[first].1);
    assert(cycle[cycle.len() - 1] == ring[2 * (cycle.len() - 1) + first].1);
    assert forall|i: int, j: int|
        0 <= i < cycle.len() && 0 <= j < cycle.len() && i != j implies cycle[i] != cycle[j] by {
        assert(cycle[i] == ring[2 * i + first].1);
        assert(cycle[j] == ring[2 * j + first].1);
        assert(ring[2 * i + first].0 == ring[2 * j + first].0);
    }
    assert forall|k: int| 0 <= k < cycle.len() implies #[trigger] waits_at(lot, cycle, k) by {
        let i = 2 * k + first;
        let r = if i + 1 < ring.len() {
            i + 1
        } else {
            0
        };
        let t = if r + 1 < ring.len() {
            r + 1
        } else {
            0
        };
        let next = next_place(cycle, k);
        assert(t == 2 * next + first);
        assert(cycle[k] == ring[i].1);
        assert(cycle[next] == ring[t].1);
        assert(wait_edges(lot).contains((ring[i], ring[r])));
        assert(wait_edges(lot).contains((ring[r], ring[t])));
        assert(ring[i].0 == THREAD);
        assert(ring[r].0 == RESOURCE);
        lemma_edge(lot, ring[i], ring[r]);
        lemma_edge(lot, ring[r], ring[t]);
    }
}

/// Where a trail leads back to one of its nodes, it closes a wait cycle. If
/// the node is a thread, this is in it; if it is a resource, the thread that
/// waits for it is.
pub(crate) proof fn lemma_closed_trail(
    lot: LotView,
    events: Seq<SearchEvent>,
    u: (u8, usize),
    v: (u8, usize),
)
    requires
        is_trail(lot, events),
        open_nodes(events).len() > 0,
        open_nodes(events).last() == u,
        open_nodes(events).contains(v),
        wait_edges(lot).contains((u, v)),
    ensures
        path_of(events).contains(v),
        is_wait_cycle(lot, closed_at(path_of(events), v)),
        v.0 == THREAD ==> closed_at(path_of(events), v).contains(v.1),
        v.0 != THREAD ==> u.0 == THREAD && closed_at(path_of(events), v).contains(u.1),
{
    let open = open_nodes(events);
    lemma_has_last_occurrence(open, v);
    let place = choose|place: int| is_last_occurrence(open, v, place);
    let ring = open.skip(place);
    let first = place % 2;
    lemma_edge(lot, u, v);
    assert(open[open.len() - 1] == u);
    assert(open[place] == v);
    assert forall|j: int| 0 <= j < ring.len() implies (#[trigger] ring[j]).0 == if j % 2 == first {
        THREAD
    } else {
        RESOURCE
    } by {
        assert(ring[j] == open[place + j]);
    }
    assert forall|j: int, k: int| 0 <= j && k == j + 1 && k < ring.len() implies wait_edges(
        lot,
    ).contains((#[trigger] ring[j], #[trigger] ring[k])) by {
        assert(ring[j] == open[place + j]);
        assert(ring[k] == open[place + k]);
    }
    assert(ring.last() == u);
    assert(ring[0] == v);
    assert(ring.no_duplicates());
    lemma_ring(lot, ring, first);
    let cycle = threads_in(ring);
    law_normalized_starts_smallest(cycle);
    let turn = choose|turn: int|
        0 <= turn < cycle.len() && normalized(cycle) == #[trigger] rotated(cycle, turn);
    lemma_rotated_cycle(lot, cycle, turn);
    let named = if first == 0 {
        0
    } else {
        cycle.len() - 1
    };
    let turned = rotated(cycle, turn);
    if named < turn {
        assert(turned[cycle.len() - turn + named] == cycle[named]);
    } else {
        assert(turned[named - turn] == cycle[named]);
    }
}

/// Every cycle that a search of the wait graph reports is a cycle of threads
/// each of which waits, without a timeout, for a resource that the next one
/// owns. None of them has been reported before.
pub proof fn law_reported_cycles_are_real(
    lot: LotView,
    starts: Seq<(u8, usize)>,
    events: Seq<SearchEvent>,
)
    requires
        is_search(wait_edges(lot), starts, events),
        forall|s: (u8, usize)| #[trigger] starts.contains(s) ==> s.0 == THREAD,
    ensures
        traceable(events),
        forall|cycle: Seq<usize>| #[trigger]
            cycles_in(events).contains(cycle) ==> is_wait_cycle(lot, cycle),
{
    assert forall|i: int| 0 <= i < events.len() implies match #[trigger] events[i] {
        SearchEvent::BackEdge(_, n) => path_of(events.take(i)).contains(n),
        _ => true,
    } by {
        assert(fits_at(wait_edges(lot), starts, events, i));
        if let SearchEvent::BackEdge(u, n) = events[i] {
            lemma_trail(lot, starts, events, i);
            lemma_closed_trail(lot, events.take(i), u, n);
        }
    }
    lemma_cycles_real(lot, starts, events, events.len() as int);
    assert(events.take(events.len() as int) =~= events);
}

proof fn lemma_cycles_real(
    lot: LotView,
    starts: Seq<(u8, usize)>,
    events: Seq<SearchEvent>,
    n: int,
)
    requires
        in_order(wait_edges(lot), starts, events),
        forall|s: (u8, usize)| #[trigger] starts.contains(s) ==> s.0 == THREAD,
        0 <= n <= events.len(),
    ensures
        forall|cycle: Seq<usize>| #[trigger]
            cycles_in(events.take(n)).contains(cycle) ==> is_wait_cycle(lot, cycle),
    decreases n,
{
    if n > 0 {
        lemma_cycles_real(lot, starts, events, n - 1);
        let before = events.take(n - 1);
        assert(events.take(n).drop_last() =~= before);
        assert(events.take(n).last() == events[n - 1]);
        assert(fits_at(wait_edges(lot), starts, events, n - 1));
        match events[n - 1] {
            SearchEvent::BackEdge(u, v) => {
                lemma_trail(lot, starts, events, n - 1);
                lemma_closed_trail(lot, before, u, v);
                let found = cycles_in(before);
                let new = closed_at(path_of(before), v);
                assert forall|cycle: Seq<usize>| #[trigger]
                    cycles_in(events.take(n)).contains(cycle) implies is_wait_cycle(
                    lot,
                    cycle,
                ) by {
                    if !found.contains(cycle) {
                        let after = found.push(new);
                        let i = choose|i: int| 0 <= i < after.len() && after[i] == cycle;
                        if i < found.len() {
                            assert(found[i] == cycle);
                        }
                    }
                }
            },
            _ => {
                assert(cycles_in(events.take(n)) == cycles_in(before));
            },
        }
    } else {
        assert(events.take(0) =~= Seq::<SearchEvent>::empty());
    }
}

} // verus!
