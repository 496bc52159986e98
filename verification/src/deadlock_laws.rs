//! What the deadlock detector finds, and what it does not report again.
use crate::cycles::{closed_at, cycles_in, path_of, rotated, with_cycle};
use crate::deadlock_check::{all_told, is_told, lemma_all_told, lemma_starts, search_starts};
use crate::model::LotView;
use crate::search_facts::{law_search_closes_walk, reached};
use crate::wait_cycles::{is_wait_cycle, lemma_closed_trail, lemma_rotated_cycle, lemma_trail, next_place, waits_at};
use crate::wait_edges::{is_edge_of, lemma_edges_from, wait_edges, waits};
use crate::wait_graph::{fits_at, has_cycle, is_closed_walk, is_search, nodes_of, with_node, SearchEvent, RESOURCE, THREAD};
use vstd::prelude::*;

verus! {

/// The threads of a cycle and the resources for which they wait, in turn.
pub open spec fn wait_walk(lot: LotView, cycle: Seq<usize>) -> Seq<(u8, usize)> {
    Seq::new(
        2 * cycle.len() + 1,
        |i: int|
            if i % 2 == 1 {
                (RESOURCE, lot.threads[cycle[i / 2] as int].key)
            } else if i / 2 < cycle.len() {
                (THREAD, cycle[i / 2])
            } else {
                (THREAD, cycle[0])
            },
    )
}

/// The threads of a cycle and the resources for which they wait form a cycle
/// in the wait graph.
proof fn lemma_wait_walk(lot: LotView, cycle: Seq<usize>)
    requires
        is_wait_cycle(lot, cycle),
    ensures
        is_closed_walk(wait_edges(lot), wait_walk(lot, cycle)),
{
    let walk = wait_walk(lot, cycle);
    assert forall|i: int, j: int| 0 <= i && j == i + 1 && j < walk.len() implies wait_edges(
        lot,
    ).contains((#[trigger] walk[i], #[trigger] walk[j])) by {
        let k = i / 2;
        assert(waits_at(lot, cycle, k));
        let a = cycle[k];
        let key = lot.threads[a as int].key;
        lemma_edges_from(lot.threads, lot.all_queued(), (walk[i], walk[j]));
        if i % 2 == 0 {
            assert(walk[i] == (THREAD, a));
            assert(walk[j] == (RESOURCE, key));
            assert(lot.all_queued().contains(a) && is_edge_of(
                lot.threads[a as int],
                a,
                (walk[i], walk[j]),
            ));
        } else {
            let b = cycle[next_place(cycle, k)];
            assert(walk[i] == (RESOURCE, key));
            assert(walk[j] == (THREAD, b));
            assert(lot.all_queued().contains(b) && is_edge_of(
                lot.threads[b as int],
                b,
                (walk[i], walk[j]),
            ));
        }
    }
}

/// The fast pass misses no deadlock: where threads wait for each other in a
/// cycle, it finds the wait graph cyclic.
pub proof fn law_fast_pass_hides_no_deadlock(lot: LotView, cycle: Seq<usize>)
    requires
        is_wait_cycle(lot, cycle),
    ensures
        has_cycle(wait_edges(lot)),
{
    lemma_wait_walk(lot, cycle);
}

/// Every edge back leads to a cycle.
pub(crate) proof fn lemma_back_edge_counts(
    events: Seq<SearchEvent>,
    t: int,
    u: (u8, usize),
    v: (u8, usize),
    n: int,
)
    requires
        0 <= t < n <= events.len(),
        events[t] == SearchEvent::BackEdge(u, v),
    ensures
        cycles_in(events.take(n)).contains(closed_at(path_of(events.take(t)), v)),
    decreases n,
{
    let cycle = closed_at(path_of(events.take(t)), v);
    let before = events.take(n - 1);
    assert(events.take(n).drop_last() =~= before);
    assert(events.take(n).last() == events[n - 1]);
    let found = cycles_in(before);
    if t == n - 1 {
        assert(cycles_in(events.take(n)) == with_cycle(found, cycle));
        if !found.contains(cycle) {
            assert(found.push(cycle)[found.len() as int] == cycle);
        }
    } else {
        lemma_back_edge_counts(events, t, u, v, n - 1);
        match events[n - 1] {
            SearchEvent::BackEdge(_, w) => {
                let new = closed_at(path_of(before), w);
                assert(cycles_in(events.take(n)) == with_cycle(found, new));
                let i = choose|i: int| 0 <= i < found.len() && found[i] == cycle;
                assert(found.push(new)[i] == cycle);
            },
            _ => {
                assert(cycles_in(events.take(n)) == found);
            },
        }
    }
}

/// A closed walk through the wait graph leads to a cycle that is reported. It
/// has the thread at which the search has come to the walk, or the one that
/// waits for the resource at which it has.
proof fn lemma_walk_is_reported(
    lot: LotView,
    starts: Seq<(u8, usize)>,
    events: Seq<SearchEvent>,
    walk: Seq<(u8, usize)>,
    d: int,
) -> (reported: Seq<usize>)
    requires
        is_search(wait_edges(lot), starts, events),
        forall|s: (u8, usize)| #[trigger] starts.contains(s) ==> s.0 == THREAD,
        is_closed_walk(wait_edges(lot), walk),
        0 <= d < events.len(),
        events[d] == SearchEvent::Discover(walk[0]),
        forall|i: int| 0 <= i < walk.len() ==> !reached(events.take(d), #[trigger] walk[i]),
    ensures
        cycles_in(events).contains(reported),
        is_wait_cycle(lot, reported),
        walk[0].0 == THREAD ==> reported.contains(walk[0].1),
        walk[0].0 != THREAD ==> reported.contains(walk[walk.len() - 2].1),
{
    let t = law_search_closes_walk(wait_edges(lot), starts, events, walk, d);
    let u = walk[walk.len() - 2];
    let v = walk[0];
    assert(fits_at(wait_edges(lot), starts, events, t));
    lemma_trail(lot, starts, events, t);
    lemma_closed_trail(lot, events.take(t), u, v);
    lemma_back_edge_counts(events, t, u, v, events.len() as int);
    assert(events.take(events.len() as int) =~= events);
    closed_at(path_of(events.take(t)), v)
}

/// The ends of an edge are nodes.
proof fn lemma_ends_are_nodes(
    edges: Seq<((u8, usize), (u8, usize))>,
    edge: ((u8, usize), (u8, usize)),
)
    requires
        edges.contains(edge),
    ensures
        nodes_of(edges).contains(edge.0),
        nodes_of(edges).contains(edge.1),
    decreases edges.len(),
{
    let rest = edges.drop_last();
    let last = edges.last();
    let nodes = nodes_of(rest);
    let more = with_node(nodes, last.0);
    assert forall|n: (u8, usize)| nodes.contains(n) || n == last.0 implies more.contains(n) by {
        lemma_with_node(nodes, last.0, n);
    }
    assert forall|n: (u8, usize)| more.contains(n) || n == last.1 implies nodes_of(edges).contains(
        n,
    ) by {
        lemma_with_node(more, last.1, n);
    }
    if edge != last {
        let i = choose|i: int| 0 <= i < edges.len() && edges[i] == edge;
        assert(rest[i] == edge);
        lemma_ends_are_nodes(rest, edge);
    }
}

proof fn lemma_with_node(nodes: Seq<(u8, usize)>, m: (u8, usize), n: (u8, usize))
    requires
        nodes.contains(n) || n == m,
    ensures
        with_node(nodes, m).contains(n),
{
    if !nodes.contains(m) {
        let after = nodes.push(m);
        assert(after[nodes.len() as int] == m);
        if nodes.contains(n) {
            let i = choose|i: int| 0 <= i < nodes.len() && nodes[i] == n;
            assert(after[i] == n);
        }
    }
}

/// The first place at which something happens.
proof fn lemma_first_place(hits: spec_fn(int) -> bool, n: int) -> (d: int)
    requires
        0 <= n,
        hits(n),
    ensures
        0 <= d <= n,
        hits(d),
        forall|i: int| 0 <= i < d ==> !(#[trigger] hits(i)),
    decreases n,
{
    if exists|i: int| 0 <= i < n && #[trigger] hits(i) {
        let i = choose|i: int| 0 <= i < n && #[trigger] hits(i);
        lemma_first_place(hits, i)
    } else {
        n
    }
}

/// The walk along a wait cycle that starts and ends at the resource for which
/// its first thread waits.
proof fn lemma_resource_walk(lot: LotView, cycle: Seq<usize>) -> (walk: Seq<(u8, usize)>)
    requires
        is_wait_cycle(lot, cycle),
    ensures
        is_closed_walk(wait_edges(lot), walk),
        walk[0] == (RESOURCE, lot.threads[cycle[0] as int].key),
        walk[walk.len() - 2] == (THREAD, cycle[0]),
        forall|i: int|
            0 <= i < walk.len() ==> wait_walk(lot, cycle).contains(#[trigger] walk[i]),
{
    let round = wait_walk(lot, cycle);
    lemma_wait_walk(lot, cycle);
    let walk = round.skip(1).push(round[1]);
    let last = walk.len() - 1;
    assert forall|i: int, j: int| 0 <= i && j == i + 1 && j < walk.len() implies wait_edges(
        lot,
    ).contains((#[trigger] walk[i], #[trigger] walk[j])) by {
        assert(walk[i] == round[i + 1]);
        if j < last {
            assert(walk[j] == round[j + 1]);
            assert(wait_edges(lot).contains((round[i + 1], round[j + 1])));
        } else {
            assert(round[i + 1] == round[0]);
            assert(wait_edges(lot).contains((round[0], round[1])));
        }
    }
    assert forall|i: int| 0 <= i < walk.len() implies round.contains(#[trigger] walk[i]) by {
        if i < last {
            assert(walk[i] == round[i + 1]);
        } else {
            assert(walk[i] == round[1]);
        }
    }
    walk
}

/// The walk along a wait cycle has the same nodes wherever the cycle is entered.
proof fn lemma_turned_walk(lot: LotView, cycle: Seq<usize>, place: int)
    requires
        0 <= place < cycle.len(),
    ensures
        forall|n: (u8, usize)|
            wait_walk(lot, rotated(cycle, place)).contains(n) ==> #[trigger] wait_walk(
                lot,
                cycle,
            ).contains(n),
{
    let turned = rotated(cycle, place);
    let walk = wait_walk(lot, cycle);
    assert forall|n: (u8, usize)| wait_walk(lot, turned).contains(n) implies #[trigger] walk.contains(
        n,
    ) by {
        let i = choose|i: int|
            0 <= i < wait_walk(lot, turned).len() && wait_walk(lot, turned)[i] == n;
        let k = if i / 2 < cycle.len() {
            i / 2
        } else {
            0
        };
        let j = if k < cycle.len() - place {
            k + place
        } else {
            k - (cycle.len() - place)
        };
        assert(turned[k] == cycle[j]);
        if i % 2 == 1 {
            assert(walk[2 * j + 1] == n);
        } else {
            assert(walk[2 * j] == n);
        }
    }
}

/// No deadlock stays hidden: where threads wait for each other in a cycle, a
/// cycle with one of them is reported.
pub proof fn law_deadlock_is_reported(
    lot: LotView,
    events: Seq<SearchEvent>,
    cycle: Seq<usize>,
) -> (found: (Seq<usize>, usize))
    requires
        is_search(wait_edges(lot), search_starts(wait_edges(lot)), events),
        is_wait_cycle(lot, cycle),
    ensures
        cycles_in(events).contains(found.0),
        cycle.contains(found.1),
        found.0.contains(found.1),
        is_wait_cycle(lot, found.0),
{
    let edges = wait_edges(lot);
    let starts = search_starts(edges);
    lemma_starts(edges);
    // Some node of the cycle is reached
    let walk = wait_walk(lot, cycle);
    lemma_wait_walk(lot, cycle);
    assert(edges.contains((walk[0], walk[1])));
    lemma_ends_are_nodes(edges, (walk[0], walk[1]));
    assert(starts.contains(walk[0]));
    assert(events.contains(SearchEvent::Discover(walk[0])));
    let first = choose|i: int| 0 <= i < events.len() && events[i] == SearchEvent::Discover(walk[0]);
    let hits = |i: int|
        0 <= i < events.len() && exists|k: int|
            0 <= k < walk.len() && events[i] == SearchEvent::Discover(#[trigger] walk[k]);
    assert(hits(first));
    let d = lemma_first_place(hits, first);
    let k = choose|k: int|
        0 <= k < walk.len() && events[d] == SearchEvent::Discover(#[trigger] walk[k]);
    assert forall|n: (u8, usize)| #[trigger] walk.contains(n) implies !reached(
        events.take(d),
        n,
    ) by {
        if reached(events.take(d), n) {
            let i = choose|i: int| 0 <= i < walk.len() && walk[i] == n;
            let j = choose|j: int| 0 <= j < d && events.take(d)[j] == SearchEvent::Discover(n);
            assert(events[j] == SearchEvent::Discover(walk[i]));
            assert(hits(j));
        }
    }
    // The cycle, entered where it is reached first
    let place = if k / 2 < cycle.len() {
        k / 2
    } else {
        0
    };
    let turned = rotated(cycle, place);
    lemma_rotated_cycle(lot, cycle, place);
    lemma_turned_walk(lot, cycle, place);
    assert(turned[0] == cycle[place]);
    let round = wait_walk(lot, turned);
    if k % 2 == 1 {
        let from_resource = lemma_resource_walk(lot, turned);
        assert(walk[k] == from_resource[0]);
        assert forall|i: int| 0 <= i < from_resource.len() implies !reached(
            events.take(d),
            #[trigger] from_resource[i],
        ) by {
            assert(round.contains(from_resource[i]));
            assert(walk.contains(from_resource[i]));
        }
        let reported = lemma_walk_is_reported(lot, starts, events, from_resource, d);
        (reported, cycle[place])
    } else {
        lemma_wait_walk(lot, turned);
        assert(walk[k] == round[0]);
        assert forall|i: int| 0 <= i < round.len() implies !reached(
            events.take(d),
            #[trigger] round[i],
        ) by {
            assert(round.contains(round[i]));
            assert(walk.contains(round[i]));
        }
        let reported = lemma_walk_is_reported(lot, starts, events, round, d);
        (reported, cycle[place])
    }
}

/// Every thread of the cycles that are reported is woken and told to report to
/// the first of them that it is in, unless it was found in a deadlock before.
/// All others are left alone.
pub proof fn law_reported_threads_are_told(
    before: LotView,
    after: LotView,
    cycles: Seq<Seq<usize>>,
    thread: usize,
)
    requires
        after == before.with_threads(all_told(before.threads, cycles)),
        thread < before.threads.len() <= usize::MAX,
    ensures
        is_told(before.threads[thread as int], after.threads[thread as int], cycles, thread),
{
    lemma_all_told(before.threads, cycles);
    assert(after.threads[thread as int] == all_told(before.threads, cycles)[thread as int]);
}

} // verus!
