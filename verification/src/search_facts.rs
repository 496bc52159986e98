//! What a depth first search comes across.
use crate::wait_graph::{fits_at, in_order, is_closed_walk, is_search, open_nodes, reported, SearchEvent};
use vstd::prelude::*;

verus! {

/// Whether a node has been reached.
pub open spec fn reached(events: Seq<SearchEvent>, n: (u8, usize)) -> bool {
    events.contains(SearchEvent::Discover(n))
}

/// Whether a node has been left.
pub open spec fn left(events: Seq<SearchEvent>, n: (u8, usize)) -> bool {
    events.contains(SearchEvent::Finish(n))
}

/// What has happened has happened later, too.
pub proof fn lemma_earlier(events: Seq<SearchEvent>, n: int, m: int, e: SearchEvent)
    requires
        0 <= n <= m <= events.len(),
        events.take(n).contains(e),
    ensures
        events.take(m).contains(e),
        events.contains(e),
{
    let i = choose|i: int| 0 <= i < n && events.take(n)[i] == e;
    assert(events.take(m)[i] == e);
    assert(events[i] == e);
}

/// What happens at a place.
proof fn lemma_happened(events: Seq<SearchEvent>, i: int, m: int)
    requires
        0 <= i < m <= events.len(),
    ensures
        events.take(m).contains(events[i]),
{
    assert(events.take(m)[i] == events[i]);
}

/// What has happened by then is what had happened before, and the last event.
proof fn lemma_last_event(events: Seq<SearchEvent>, n: int, e: SearchEvent)
    requires
        0 < n <= events.len(),
    ensures
        events.take(n).contains(e) <==> events.take(n - 1).contains(e) || events[n - 1] == e,
{
    lemma_happened(events, n - 1, n);
    if events.take(n - 1).contains(e) {
        lemma_earlier(events, n - 1, n, e);
    }
    if events.take(n).contains(e) && events[n - 1] != e {
        let i = choose|i: int| 0 <= i < n && events.take(n)[i] == e;
        assert(events.take(n - 1)[i] == e);
    }
}

/// The open nodes are those that have been reached and not been left.
pub proof fn lemma_open(
    edges: Seq<((u8, usize), (u8, usize))>,
    starts: Seq<(u8, usize)>,
    events: Seq<SearchEvent>,
    n: int,
)
    requires
        in_order(edges, starts, events),
        0 <= n <= events.len(),
    ensures
        open_nodes(events.take(n)).no_duplicates(),
        forall|y: (u8, usize)|
            #![trigger open_nodes(events.take(n)).contains(y)]
            #![trigger reached(events.take(n), y)]
            #![trigger left(events.take(n), y)]
            {
                &&& open_nodes(events.take(n)).contains(y) <==> reached(events.take(n), y) && !left(
                    events.take(n),
                    y,
                )
                &&& left(events.take(n), y) ==> reached(events.take(n), y)
            },
    decreases n,
{
    if n == 0 {
        assert(events.take(0) =~= Seq::<SearchEvent>::empty());
    } else {
        lemma_open(edges, starts, events, n - 1);
        let before = events.take(n - 1);
        let after = events.take(n);
        let event = events[n - 1];
        assert(after.drop_last() =~= before);
        assert(after.last() == event);
        assert(fits_at(edges, starts, events, n - 1));
        let open = open_nodes(before);
        let next = open_nodes(after);
        assert forall|y: (u8, usize)| next.contains(y) <==> open.contains(y) && event
            != SearchEvent::Finish(y) || event == SearchEvent::Discover(y) by {
            lemma_open_step(open, event, y);
        }
        assert(next.no_duplicates()) by {
            if let SearchEvent::Discover(v) = event {
                assert(!reached(before, v));
                assert(!open.contains(v));
            }
        }
        assert forall|y: (u8, usize)|
            #![trigger next.contains(y)]
            #![trigger reached(after, y)]
            #![trigger left(after, y)]
            {
                &&& next.contains(y) <==> reached(after, y) && !left(after, y)
                &&& left(after, y) ==> reached(after, y)
            } by {
            lemma_last_event(events, n, SearchEvent::Discover(y));
            lemma_last_event(events, n, SearchEvent::Finish(y));
            assert(open.contains(y) <==> reached(before, y) && !left(before, y));
            if event == SearchEvent::Finish(y) {
                assert(open[open.len() - 1] == y);
                assert(open.contains(y));
            }
        }
    }
}

/// What one event makes of the open nodes.
proof fn lemma_open_step(open: Seq<(u8, usize)>, event: SearchEvent, y: (u8, usize))
    requires
        open.no_duplicates(),
        event matches SearchEvent::Finish(v) ==> open.len() > 0 && open.last() == v,
    ensures
        ({
            let next = match event {
                SearchEvent::Discover(n) => open.push(n),
                SearchEvent::Finish(_) => open.drop_last(),
                _ => open,
            };
            next.contains(y) <==> open.contains(y) && event != SearchEvent::Finish(y) || event
                == SearchEvent::Discover(y)
        }),
{
    match event {
        SearchEvent::Discover(v) => {
            let next = open.push(v);
            assert(next[open.len() as int] == v);
            if open.contains(y) {
                let i = choose|i: int| 0 <= i < open.len() && open[i] == y;
                assert(next[i] == y);
            }
            if next.contains(y) && y != v {
                let i = choose|i: int| 0 <= i < next.len() && next[i] == y;
                assert(open[i] == y);
            }
        },
        SearchEvent::Finish(v) => {
            let next = open.drop_last();
            if open.contains(y) && y != v {
                let i = choose|i: int| 0 <= i < open.len() && open[i] == y;
                assert(next[i] == y);
            }
            if next.contains(y) {
                let i = choose|i: int| 0 <= i < next.len() && next[i] == y;
                assert(open[i] == y);
                assert(open[open.len() - 1] == v);
            }
        },
        _ => {},
    }
}

/// While a node is open, those below it stay.
proof fn lemma_below(
    edges: Seq<((u8, usize), (u8, usize))>,
    starts: Seq<(u8, usize)>,
    events: Seq<SearchEvent>,
    p: int,
    m: int,
    n: int,
)
    requires
        in_order(edges, starts, events),
        0 <= m <= n <= events.len(),
        0 <= p < open_nodes(events.take(m)).len(),
        !left(events.take(n), open_nodes(events.take(m))[p]),
    ensures
        p < open_nodes(events.take(n)).len(),
        open_nodes(events.take(n)).take(p + 1) == open_nodes(events.take(m)).take(p + 1),
    decreases n - m,
{
    if m < n {
        let x = open_nodes(events.take(m))[p];
        lemma_last_event(events, n, SearchEvent::Finish(x));
        lemma_below(edges, starts, events, p, m, n - 1);
        let before = events.take(n - 1);
        let after = events.take(n);
        assert(after.drop_last() =~= before);
        assert(after.last() == events[n - 1]);
        assert(fits_at(edges, starts, events, n - 1));
        let open = open_nodes(before);
        assert(open.take(p + 1)[p] == x);
        match events[n - 1] {
            SearchEvent::Discover(v) => {
                assert(open.push(v).take(p + 1) =~= open.take(p + 1));
            },
            SearchEvent::Finish(v) => {
                assert(open.drop_last().take(p + 1) =~= open.take(p + 1));
            },
            _ => {},
        }
    }
}

/// What is reached while a node is open is left before it.
proof fn lemma_inside(
    edges: Seq<((u8, usize), (u8, usize))>,
    starts: Seq<(u8, usize)>,
    events: Seq<SearchEvent>,
    x: (u8, usize),
    d: int,
    f: int,
    y: (u8, usize),
)
    requires
        in_order(edges, starts, events),
        0 <= d < f < events.len(),
        events[d] == SearchEvent::Discover(x),
        events[f] == SearchEvent::Finish(x),
        y != x,
        reached(events.take(f), y),
        !reached(events.take(d), y),
    ensures
        left(events.take(f), y),
{
    let opened = events.take(d + 1);
    assert(opened.drop_last() =~= events.take(d));
    let below = open_nodes(events.take(d));
    assert(open_nodes(opened) == below.push(x));
    let p = below.len() as int;
    let open = open_nodes(events.take(f));
    lemma_open(edges, starts, events, f);
    lemma_open(edges, starts, events, d);
    assert(fits_at(edges, starts, events, f));
    assert(open[open.len() - 1] == x);
    assert(open.contains(x));
    assert(!left(events.take(f), x));
    lemma_below(edges, starts, events, p, d + 1, f);
    assert(open.take(p + 1)[p] == x);
    assert(open[p] == open[open.len() - 1]);
    assert(open.len() == p + 1);
    assert(open =~= open.take(p + 1));
    assert(below.push(x).take(p + 1) =~= below.push(x));
    if !left(events.take(f), y) {
        assert(open.contains(y));
        let i = choose|i: int| 0 <= i < open.len() && open[i] == y;
        assert(below[i] == y);
        assert(below.contains(y));
        assert(reached(events.take(d), y));
    }
}

/// Whether a node is the given one, or was reached and left while it was open.
pub open spec fn within(
    events: Seq<SearchEvent>,
    x: (u8, usize),
    d: int,
    f: int,
    y: (u8, usize),
) -> bool {
    y == x || (!reached(events.take(d), y) && reached(events.take(f), y) && left(events.take(f), y))
}

/// An edge from a node that was left while another one was open is reported in
/// the meantime.
proof fn lemma_edge_within(
    edges: Seq<((u8, usize), (u8, usize))>,
    starts: Seq<(u8, usize)>,
    events: Seq<SearchEvent>,
    x: (u8, usize),
    d: int,
    f: int,
    u: (u8, usize),
    v: (u8, usize),
) -> (t: int)
    requires
        is_search(edges, starts, events),
        0 <= d < f < events.len(),
        events[d] == SearchEvent::Discover(x),
        events[f] == SearchEvent::Finish(x),
        within(events, x, d, f, u),
        edges.contains((u, v)),
    ensures
        d < t < f,
        events[t] == SearchEvent::TreeEdge(u, v) || events[t] == SearchEvent::BackEdge(u, v)
            || events[t] == SearchEvent::CrossForwardEdge(u, v),
{
    lemma_happened(events, d, f);
    if u != x {
        lemma_earlier(events, f, events.len() as int, SearchEvent::Discover(u));
    } else {
        lemma_earlier(events, f, events.len() as int, SearchEvent::Discover(x));
    }
    assert(events.contains(SearchEvent::Discover(u)));
    assert(reported(events, u, v));
    let t = if events.contains(SearchEvent::TreeEdge(u, v)) {
        choose|t: int| 0 <= t < events.len() && events[t] == SearchEvent::TreeEdge(u, v)
    } else if events.contains(SearchEvent::BackEdge(u, v)) {
        choose|t: int| 0 <= t < events.len() && events[t] == SearchEvent::BackEdge(u, v)
    } else {
        choose|t: int| 0 <= t < events.len() && events[t] == SearchEvent::CrossForwardEdge(u, v)
    };
    assert(fits_at(edges, starts, events, t));
    lemma_open(edges, starts, events, t);
    let open = open_nodes(events.take(t));
    assert(open[open.len() - 1] == u);
    assert(open.contains(u));
    assert(reached(events.take(t), u) && !left(events.take(t), u));
    if t <= d {
        lemma_earlier(events, t, d, SearchEvent::Discover(u));
        if u == x {
            assert(fits_at(edges, starts, events, d));
        }
    }
    if t > f {
        if u == x {
            lemma_happened(events, f, t);
        } else {
            lemma_earlier(events, f, t, SearchEvent::Finish(u));
        }
    }
    t
}

/// Where an edge leads from a node that was reached and left while another one
/// was open, unless that had been reached before.
proof fn lemma_next_within(
    edges: Seq<((u8, usize), (u8, usize))>,
    starts: Seq<(u8, usize)>,
    events: Seq<SearchEvent>,
    x: (u8, usize),
    d: int,
    f: int,
    u: (u8, usize),
    v: (u8, usize),
)
    requires
        is_search(edges, starts, events),
        0 <= d < f < events.len(),
        events[d] == SearchEvent::Discover(x),
        events[f] == SearchEvent::Finish(x),
        within(events, x, d, f, u),
        edges.contains((u, v)),
        !reached(events.take(d), v),
    ensures
        within(events, x, d, f, v),
{
    if v != x {
        let t = lemma_edge_within(edges, starts, events, x, d, f, u, v);
        assert(fits_at(edges, starts, events, t));
        assert(fits_at(edges, starts, events, t + 1));
        assert(events.take(t + 1).last() == events[t]);
        lemma_open(edges, starts, events, t);
        assert(reached(events.take(f), v)) by {
            if events[t] == SearchEvent::TreeEdge(u, v) {
                assert(events[t + 1] == SearchEvent::Discover(v));
                lemma_happened(events, t + 1, f);
            } else {
                assert(reached(events.take(t), v)) by {
                    if events[t] == SearchEvent::CrossForwardEdge(u, v) {
                        assert(left(events.take(t), v));
                    }
                }
                lemma_earlier(events, t, f, SearchEvent::Discover(v));
            }
        }
        lemma_inside(edges, starts, events, x, d, f, v);
    }
}

/// The nodes of a walk from a node, none of which had been reached before, are
/// reached and left while it is open.
proof fn lemma_walk_within(
    edges: Seq<((u8, usize), (u8, usize))>,
    starts: Seq<(u8, usize)>,
    events: Seq<SearchEvent>,
    d: int,
    f: int,
    walk: Seq<(u8, usize)>,
    n: int,
)
    requires
        is_search(edges, starts, events),
        is_closed_walk(edges, walk),
        0 <= d < f < events.len(),
        events[d] == SearchEvent::Discover(walk[0]),
        events[f] == SearchEvent::Finish(walk[0]),
        forall|i: int| 0 <= i < walk.len() ==> !reached(events.take(d), #[trigger] walk[i]),
        0 <= n < walk.len(),
    ensures
        within(events, walk[0], d, f, walk[n]),
    decreases n,
{
    if n > 0 {
        lemma_walk_within(edges, starts, events, d, f, walk, n - 1);
        assert(edges.contains((walk[n - 1], walk[n])));
        lemma_next_within(
            edges,
            starts,
            events,
            walk[0],
            d,
            f,
            walk[n - 1],
            walk[n],
        );
    }
}

/// A search that comes to a closed walk for the first time reports an edge back
/// to the node at which it has come to it.
pub proof fn law_search_closes_walk(
    edges: Seq<((u8, usize), (u8, usize))>,
    starts: Seq<(u8, usize)>,
    events: Seq<SearchEvent>,
    walk: Seq<(u8, usize)>,
    d: int,
) -> (t: int)
    requires
        is_search(edges, starts, events),
        is_closed_walk(edges, walk),
        0 <= d < events.len(),
        events[d] == SearchEvent::Discover(walk[0]),
        forall|i: int| 0 <= i < walk.len() ==> !reached(events.take(d), #[trigger] walk[i]),
    ensures
        0 <= t < events.len(),
        events[t] == SearchEvent::BackEdge(walk[walk.len() - 2], walk[0]),
{
    let x = walk[0];
    assert(events.contains(events[d]));
    assert(events.contains(SearchEvent::Finish(x)));
    let f = choose|f: int| 0 <= f < events.len() && events[f] == SearchEvent::Finish(x);
    assert(fits_at(edges, starts, events, f));
    lemma_open(edges, starts, events, f);
    let open = open_nodes(events.take(f));
    assert(open[open.len() - 1] == x);
    assert(open.contains(x));
    assert(reached(events.take(f), x) && !left(events.take(f), x));
    if f <= d {
        lemma_earlier(events, f, d, SearchEvent::Discover(x));
        assert(!reached(events.take(d), walk[0]));
    }
    let u = walk[walk.len() - 2];
    lemma_walk_within(edges, starts, events, d, f, walk, walk.len() - 2);
    assert(walk[walk.len() - 1] == x);
    assert(edges.contains((walk[walk.len() - 2], walk[walk.len() - 1])));
    let t = lemma_edge_within(edges, starts, events, x, d, f, u, x);
    assert(fits_at(edges, starts, events, t));
    lemma_happened(events, d, t);
    if left(events.take(t), x) {
        lemma_earlier(events, t, f, SearchEvent::Finish(x));
    }
    t
}

} // verus!
