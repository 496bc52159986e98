//! Directed graphs of what waits for what, and searches in them.
use petgraph::graphmap::GraphMap;
use petgraph::visit::{depth_first_search, DfsEvent};
use petgraph::Directed;
use vstd::prelude::*;

verus! {

/// The kind of a node that stands for a thread.
pub const THREAD: u8 = 0;

/// The kind of a node that stands for a resource.
pub const RESOURCE: u8 = 1;

/// Up to how many nodes or edges a graph makes room for ahead of time.
pub const MAX_CAPACITY: usize = 0x100_0000;

/// A directed graph whose nodes are pairs of a kind and a number, such as
/// `petgraph::graphmap::DiGraphMap`.
pub type WaitGraph = GraphMap<(u8, usize), (), Directed>;

/// The outside type `petgraph::graphmap::GraphMap`, an opaque graph.
#[verifier::external_type_specification]
#[verifier::external_body]
#[verifier::reject_recursive_types(N)]
#[verifier::reject_recursive_types(E)]
#[verifier::reject_recursive_types(Ty)]
pub struct ExGraphMap<N, E, Ty>(petgraph::graphmap::GraphMap<N, E, Ty>);

/// The outside type `petgraph::Directed`, which marks a graph as directed.
#[verifier::external_type_specification]
#[verifier::external_body]
pub struct ExDirected(petgraph::Directed);

/// The edges that a `petgraph::graphmap::GraphMap` holds, in the order in which
/// they were added.
pub uninterp spec fn edges_of(graph: WaitGraph) -> Seq<((u8, usize), (u8, usize))>;

/// Edges with one more, unless it is among them.
pub open spec fn with_edge(
    edges: Seq<((u8, usize), (u8, usize))>,
    a: (u8, usize),
    b: (u8, usize),
) -> Seq<((u8, usize), (u8, usize))> {
    if edges.contains((a, b)) {
        edges
    } else {
        edges.push((a, b))
    }
}

/// Nodes with one more, unless it is among them.
pub open spec fn with_node(nodes: Seq<(u8, usize)>, n: (u8, usize)) -> Seq<(u8, usize)> {
    if nodes.contains(n) {
        nodes
    } else {
        nodes.push(n)
    }
}

/// The nodes that some edges connect, in the order in which they first occur.
pub open spec fn nodes_of(edges: Seq<((u8, usize), (u8, usize))>) -> Seq<(u8, usize)>
    decreases edges.len(),
{
    if edges.len() == 0 {
        Seq::empty()
    } else {
        with_node(with_node(nodes_of(edges.drop_last()), edges.last().0), edges.last().1)
    }
}

/// A walk along edges that ends where it starts.
pub open spec fn is_closed_walk(
    edges: Seq<((u8, usize), (u8, usize))>,
    walk: Seq<(u8, usize)>,
) -> bool {
    &&& walk.len() >= 2
    &&& walk.first() == walk.last()
    &&& forall|i: int, j: int|
        0 <= i && j == i + 1 && j < walk.len() ==> edges.contains(
            (#[trigger] walk[i], #[trigger] walk[j]),
        )
}

/// Whether some edges form a cycle.
pub open spec fn has_cycle(edges: Seq<((u8, usize), (u8, usize))>) -> bool {
    exists|walk: Seq<(u8, usize)>| is_closed_walk(edges, walk)
}

/// Calls `petgraph::graphmap::GraphMap::with_capacity`: a graph without edges.
#[verifier::external_body]
pub(crate) fn graph_with_capacity(nodes: usize, edges: usize) -> (graph: WaitGraph)
    requires
        nodes <= MAX_CAPACITY,
        edges <= MAX_CAPACITY,
    ensures
        edges_of(graph) == Seq::<((u8, usize), (u8, usize))>::empty(),
{
    GraphMap::with_capacity(nodes, edges)
}

/// Calls `petgraph::graphmap::GraphMap::add_edge`: the edge comes behind those
/// of the graph, unless it is already one of them.
#[verifier::external_body]
pub(crate) fn graph_add_edge(graph: &mut WaitGraph, a: (u8, usize), b: (u8, usize))
    ensures
        edges_of(*final(graph)) == with_edge(edges_of(*old(graph)), a, b),
{
    graph.add_edge(a, b, ());
}

/// Calls `petgraph::graphmap::GraphMap::nodes`: the ends of the edges, in the
/// order in which they were first added.
#[verifier::external_body]
pub(crate) fn graph_nodes(graph: &WaitGraph) -> (nodes: Vec<(u8, usize)>)
    ensures
        nodes@ == nodes_of(edges_of(*graph)),
{
    graph.nodes().collect()
}

/// Calls `petgraph::algo::is_cyclic_directed`: whether the graph contains a cycle.
#[verifier::external_body]
pub(crate) fn graph_is_cyclic(graph: &WaitGraph) -> (cyclic: bool)
    ensures
        cyclic == has_cycle(edges_of(*graph)),
{
    petgraph::algo::is_cyclic_directed(graph)
}

/// An event of a depth first search.
#[derive(Copy, Clone, Eq, PartialEq, Debug)]
pub enum SearchEvent {
    /// A node is reached for the first time.
    Discover((u8, usize)),
    /// An edge to a node that has not been reached.
    TreeEdge((u8, usize), (u8, usize)),
    /// An edge to a node that has been reached and not been left.
    BackEdge((u8, usize), (u8, usize)),
    /// An edge to a node that has been left.
    CrossForwardEdge((u8, usize), (u8, usize)),
    /// A node is left: all edges from it have been reported.
    Finish((u8, usize)),
}

/// The nodes that have been reached and not been left, in the order in which
/// they were reached.
pub open spec fn open_nodes(events: Seq<SearchEvent>) -> Seq<(u8, usize)>
    decreases events.len(),
{
    if events.len() == 0 {
        Seq::empty()
    } else {
        let open = open_nodes(events.drop_last());
        match events.last() {
            SearchEvent::Discover(n) => open.push(n),
            SearchEvent::Finish(_) => open.drop_last(),
            _ => open,
        }
    }
}

/// What holds of an event of a search, given those before it. An edge is
/// reported from the node that was reached last. If it leads to a node that
/// has not been reached, this one is reached next.
pub open spec fn event_fits(
    edges: Seq<((u8, usize), (u8, usize))>,
    starts: Seq<(u8, usize)>,
    before: Seq<SearchEvent>,
    event: SearchEvent,
) -> bool {
    let open = open_nodes(before);
    &&& before.len() > 0 ==> (before.last() matches SearchEvent::TreeEdge(_, v) ==> event
        == SearchEvent::Discover(v))
    &&& match event {
        SearchEvent::Discover(n) => {
            &&& !before.contains(event)
            &&& if open.len() == 0 {
                starts.contains(n)
            } else {
                before.last() == SearchEvent::TreeEdge(open.last(), n)
            }
        },
        SearchEvent::TreeEdge(u, v) => {
            &&& open.len() > 0 && open.last() == u && edges.contains((u, v))
            &&& !before.contains(SearchEvent::Discover(v))
        },
        SearchEvent::BackEdge(u, v) => {
            &&& open.len() > 0 && open.last() == u && edges.contains((u, v))
            &&& open.contains(v)
        },
        SearchEvent::CrossForwardEdge(u, v) => {
            &&& open.len() > 0 && open.last() == u && edges.contains((u, v))
            &&& before.contains(SearchEvent::Finish(v))
        },
        SearchEvent::Finish(n) => open.len() > 0 && open.last() == n,
    }
}

/// Whether an edge has been reported.
pub open spec fn reported(events: Seq<SearchEvent>, u: (u8, usize), v: (u8, usize)) -> bool {
    ||| events.contains(SearchEvent::TreeEdge(u, v))
    ||| events.contains(SearchEvent::BackEdge(u, v))
    ||| events.contains(SearchEvent::CrossForwardEdge(u, v))
}

/// Whether the event at a place fits those before it.
pub open spec fn fits_at(
    edges: Seq<((u8, usize), (u8, usize))>,
    starts: Seq<(u8, usize)>,
    events: Seq<SearchEvent>,
    i: int,
) -> bool {
    event_fits(edges, starts, events.take(i), events[i])
}

/// The events of a search follow each other as they must.
pub open spec fn in_order(
    edges: Seq<((u8, usize), (u8, usize))>,
    starts: Seq<(u8, usize)>,
    events: Seq<SearchEvent>,
) -> bool {
    forall|i: int| 0 <= i < events.len() ==> #[trigger] fits_at(edges, starts, events, i)
}

/// Every start is reached, every node that is reached is left, and all edges
/// of a node that is reached are reported.
pub open spec fn is_complete(
    edges: Seq<((u8, usize), (u8, usize))>,
    starts: Seq<(u8, usize)>,
    events: Seq<SearchEvent>,
) -> bool {
    &&& forall|n: (u8, usize)| #[trigger]
        starts.contains(n) ==> events.contains(SearchEvent::Discover(n))
    &&& forall|n: (u8, usize)| #[trigger]
        events.contains(SearchEvent::Discover(n)) ==> events.contains(SearchEvent::Finish(n))
    &&& forall|u: (u8, usize), v: (u8, usize)|
        events.contains(SearchEvent::Discover(u)) && #[trigger] edges.contains((u, v))
            ==> reported(events, u, v)
}

/// What holds of the events of a depth first search.
pub open spec fn is_search(
    edges: Seq<((u8, usize), (u8, usize))>,
    starts: Seq<(u8, usize)>,
    events: Seq<SearchEvent>,
) -> bool {
    in_order(edges, starts, events) && is_complete(edges, starts, events)
}

/// The events that `petgraph::visit::depth_first_search` reports for a graph with
/// these edges, in this order, from these nodes.
pub uninterp spec fn search_events(
    edges: Seq<((u8, usize), (u8, usize))>,
    starts: Seq<(u8, usize)>,
) -> Seq<SearchEvent>;

/// Adds an event to those recorded.
pub(crate) fn record_event(events: &mut Vec<SearchEvent>, event: SearchEvent)
    ensures
        final(events)@ == old(events)@.push(event),
{
    events.push(event);
}

/// Calls `petgraph::visit::depth_first_search` and records the events that it
/// reports. Which they are follows from the edges, in their order, and the
/// nodes from which the search starts; they are the events of a depth first
/// search.
#[verifier::external_body]
pub(crate) fn graph_search(graph: &WaitGraph, starts: Vec<(u8, usize)>) -> (events: Vec<
    SearchEvent,
>)
    ensures
        events@ == search_events(edges_of(*graph), starts@),
        is_search(edges_of(*graph), starts@, events@),
{
    let mut events = Vec::new();
    depth_first_search(graph, starts, |event| {
        record_event(&mut events, match event {
            DfsEvent::Discover(n, _) => SearchEvent::Discover(n),
            DfsEvent::TreeEdge(u, v) => SearchEvent::TreeEdge(u, v),
            DfsEvent::BackEdge(u, v) => SearchEvent::BackEdge(u, v),
            DfsEvent::CrossForwardEdge(u, v) => SearchEvent::CrossForwardEdge(u, v),
            DfsEvent::Finish(n, _) => SearchEvent::Finish(n),
        })
    });
    events
}

} // verus!
