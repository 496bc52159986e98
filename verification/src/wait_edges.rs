//! Which thread waits for which resource, and which resource for which thread.
use crate::lot::ParkingLot;
use crate::model::LotView;
use crate::queue::at;
use crate::thread_data::ThreadView;
use crate::wait_graph::{edges_of, graph_add_edge, graph_with_capacity, with_edge, WaitGraph, MAX_CAPACITY, RESOURCE, THREAD};
use vstd::prelude::*;

verus! {

/// Whether a thread that is parked can only go on if another one unparks it,
/// and has not been reported.
pub open spec fn waits(thread: ThreadView) -> bool {
    !thread.parked_with_timeout && !thread.deadlock.deadlocked
}

/// Edges with those from the resources of a thread to the thread: they are
/// waiting for their owner.
pub open spec fn with_owner(
    edges: Seq<((u8, usize), (u8, usize))>,
    resources: Seq<usize>,
    t: usize,
) -> Seq<((u8, usize), (u8, usize))>
    decreases resources.len(),
{
    if resources.len() == 0 {
        edges
    } else {
        with_edge(
            with_owner(edges, resources.drop_last(), t),
            (RESOURCE, resources.last()),
            (THREAD, t),
        )
    }
}

/// Edges with those of a thread, if it waits.
pub open spec fn with_thread_edges(
    edges: Seq<((u8, usize), (u8, usize))>,
    thread: ThreadView,
    t: usize,
) -> Seq<((u8, usize), (u8, usize))> {
    if waits(thread) {
        with_edge(
            with_owner(edges, thread.deadlock.resources, t),
            (THREAD, t),
            (RESOURCE, thread.key),
        )
    } else {
        edges
    }
}

/// The edges of the threads of a queue, in order.
pub open spec fn edges_from(
    threads: Seq<ThreadView>,
    queue: Seq<usize>,
) -> Seq<((u8, usize), (u8, usize))>
    decreases queue.len(),
{
    if queue.len() == 0 {
        Seq::empty()
    } else {
        with_thread_edges(
            edges_from(threads, queue.drop_last()),
            threads[queue.last() as int],
            queue.last(),
        )
    }
}

/// The wait graph of the threads and the resources.
pub open spec fn wait_edges(lot: LotView) -> Seq<((u8, usize), (u8, usize))> {
    edges_from(lot.threads, lot.all_queued())
}

/// Whether an edge is one of a thread.
pub open spec fn is_edge_of(thread: ThreadView, t: usize, edge: ((u8, usize), (u8, usize))) -> bool {
    &&& waits(thread)
    &&& {
        ||| edge.0.0 == RESOURCE && thread.deadlock.resources.contains(edge.0.1) && edge.1 == (
            THREAD,
            t,
        )
        ||| edge == ((THREAD, t), (RESOURCE, thread.key))
    }
}

proof fn lemma_with_edge(
    edges: Seq<((u8, usize), (u8, usize))>,
    a: (u8, usize),
    b: (u8, usize),
    edge: ((u8, usize), (u8, usize)),
)
    ensures
        with_edge(edges, a, b).contains(edge) <==> edges.contains(edge) || edge == (a, b),
{
    if !edges.contains((a, b)) {
        let after = edges.push((a, b));
        assert(after[edges.len() as int] == (a, b));
        if edges.contains(edge) {
            let i = choose|i: int| 0 <= i < edges.len() && edges[i] == edge;
            assert(after[i] == edge);
        }
        if after.contains(edge) && edge != (a, b) {
            let i = choose|i: int| 0 <= i < after.len() && after[i] == edge;
            assert(edges[i] == edge);
        }
    }
}

proof fn lemma_with_owner(
    edges: Seq<((u8, usize), (u8, usize))>,
    resources: Seq<usize>,
    t: usize,
    edge: ((u8, usize), (u8, usize)),
)
    ensures
        with_owner(edges, resources, t).contains(edge) <==> edges.contains(edge) || (edge.0.0
            == RESOURCE && resources.contains(edge.0.1) && edge.1 == (THREAD, t)),
    decreases resources.len(),
{
    if resources.len() > 0 {
        let rest = resources.drop_last();
        lemma_with_owner(edges, rest, t, edge);
        lemma_with_edge(
            with_owner(edges, rest, t),
            (RESOURCE, resources.last()),
            (THREAD, t),
            edge,
        );
        if rest.contains(edge.0.1) {
            let i = choose|i: int| 0 <= i < rest.len() && rest[i] == edge.0.1;
            assert(resources[i] == edge.0.1);
        }
        if resources.contains(edge.0.1) && edge.0.1 != resources.last() {
            let i = choose|i: int| 0 <= i < resources.len() && resources[i] == edge.0.1;
            assert(rest[i] == edge.0.1);
        }
    }
}

/// The edges of a queue are those of its threads.
pub proof fn lemma_edges_from(
    threads: Seq<ThreadView>,
    queue: Seq<usize>,
    edge: ((u8, usize), (u8, usize)),
)
    ensures
        edges_from(threads, queue).contains(edge) <==> exists|t: usize| #[trigger]
            queue.contains(t) && is_edge_of(threads[t as int], t, edge),
    decreases queue.len(),
{
    if queue.len() > 0 {
        let rest = queue.drop_last();
        let last = queue.last();
        let thread = threads[last as int];
        lemma_edges_from(threads, rest, edge);
        lemma_with_owner(edges_from(threads, rest), thread.deadlock.resources, last, edge);
        lemma_with_edge(
            with_owner(edges_from(threads, rest), thread.deadlock.resources, last),
            (THREAD, last),
            (RESOURCE, thread.key),
            edge,
        );
        assert(queue.contains(last));
        if exists|t: usize| #[trigger]
            rest.contains(t) && is_edge_of(threads[t as int], t, edge) {
            let t = choose|t: usize| #[trigger]
                rest.contains(t) && is_edge_of(threads[t as int], t, edge);
            let i = choose|i: int| 0 <= i < rest.len() && rest[i] == t;
            assert(queue[i] == t);
            assert(queue.contains(t));
        }
        if exists|t: usize| #[trigger]
            queue.contains(t) && is_edge_of(threads[t as int], t, edge) {
            let t = choose|t: usize| #[trigger]
                queue.contains(t) && is_edge_of(threads[t as int], t, edge);
            if t != last {
                let i = choose|i: int| 0 <= i < queue.len() && queue[i] == t;
                assert(rest[i] == t);
                assert(rest.contains(t));
            }
        }
    }
}

/// Adds the edges of a thread to a graph, if it waits.
fn add_thread_edges(graph: &mut WaitGraph, lot: &ParkingLot, t: usize)
    requires
        t < lot@.threads.len(),
    ensures
        edges_of(*final(graph)) == with_thread_edges(
            edges_of(*old(graph)),
            lot@.threads[t as int],
            t,
        ),
{
    let thread = &lot.records[t];
    assert(lot@.threads[t as int] == thread@);
    if !thread.parked_with_timeout && !thread.deadlock_data.deadlocked {
        // .resources are waiting for their owner
        let ghost owned = thread@.deadlock.resources;
        let mut i: usize = 0;
        assert(owned.take(0) =~= Seq::<usize>::empty());
        while i < thread.deadlock_data.resources.len()
            invariant
                i <= owned.len(),
                owned == thread.deadlock_data.resources@,
                edges_of(*graph) == with_owner(edges_of(*old(graph)), owned.take(i as int), t),
            decreases owned.len() - i,
        {
            assert(owned.take(i + 1).drop_last() =~= owned.take(i as int));
            graph_add_edge(graph, (RESOURCE, thread.deadlock_data.resources[i]), (THREAD, t));
            i = i + 1;
        }
        assert(owned.take(i as int) =~= owned);
        // owner waits for resource .key
        graph_add_edge(graph, (THREAD, t), (RESOURCE, thread.key));
    }
}

/// Builds the wait graph of the threads and the resources.
pub(crate) fn build_wait_graph(lot: &ParkingLot) -> (graph: WaitGraph)
    requires
        lot.wf(),
    ensures
        edges_of(graph) == wait_edges(lot@),
{
    // The capacity is an estimate
    let capacity = if lot.num_threads < MAX_CAPACITY / 2 {
        lot.num_threads * 2
    } else {
        MAX_CAPACITY
    };
    let mut graph = graph_with_capacity(capacity, capacity);
    match &lot.table {
        None => {
            assert(lot@.all_queued() =~= Seq::<usize>::empty());
        },
        Some(table) => {
            let mut b: usize = 0;
            while b < table.entries.len()
                invariant
                    lot.wf(),
                    lot.table == Some(*table),
                    b <= table.entries@.len(),
                    table.entries@.len() == lot@.buckets.len(),
                    edges_of(graph) == edges_from(lot@.threads, lot@.queued_in(b as int)),
                decreases table.entries@.len() - b,
            {
                let ghost done = lot@.queued_in(b as int);
                let ghost queue = lot@.queue(b as int);
                let ghost mut n: int = 0;
                let mut current = table.entries[b].queue.data.head;
                proof {
                    assert(table.entries@[b as int].linked(lot.records@));
                    assert(lot@.buckets[b as int] == table.entries@[b as int]@);
                    assert(done + queue.take(0) =~= done);
                }
                while current.is_some()
                    invariant
                        lot.wf(),
                        lot.table == Some(*table),
                        b < table.entries@.len(),
                        table.entries@[b as int].linked(lot.records@),
                        queue == table.entries@[b as int].queue.value()@,
                        0 <= n <= queue.len(),
                        current == at(queue, n),
                        edges_of(graph) == edges_from(lot@.threads, done + queue.take(n)),
                    decreases queue.len() - n,
                {
                    let t = current.unwrap();
                    proof {
                        assert((done + queue.take(n + 1)).drop_last() =~= done + queue.take(n));
                        assert((done + queue.take(n + 1)).last() == t);
                    }
                    add_thread_edges(&mut graph, lot, t);
                    current = lot.records[t].next_in_queue;
                    proof {
                        n = n + 1;
                    }
                }
                proof {
                    assert(queue.take(n) =~= queue);
                    assert(lot@.queued_in(b + 1) == done + queue);
                }
                b = b + 1;
            }
        },
    }
    graph
}

} // verus!
