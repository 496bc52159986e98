//! The cycles that a search of a wait graph comes across.
use crate::seq_facts::{is_last_occurrence, lemma_has_last_occurrence};
use crate::wait_graph::{SearchEvent, THREAD};
use vstd::prelude::*;

verus! {

/// The first place of the smallest number.
pub open spec fn is_first_min(s: Seq<usize>, place: int) -> bool {
    &&& 0 <= place < s.len()
    &&& forall|i: int| 0 <= i < s.len() ==> s[place] <= #[trigger] s[i]
    &&& forall|i: int| 0 <= i < place ==> s[place] < #[trigger] s[i]
}

/// A cycle that is entered at another place.
pub open spec fn rotated(s: Seq<usize>, place: int) -> Seq<usize> {
    s.skip(place) + s.take(place)
}

/// A cycle that is entered at its smallest number.
pub open spec fn normalized(s: Seq<usize>) -> Seq<usize> {
    if s.len() == 0 {
        s
    } else {
        rotated(s, choose|place: int| is_first_min(s, place))
    }
}

proof fn lemma_first_min(s: Seq<usize>, place: int)
    requires
        is_first_min(s, place),
    ensures
        normalized(s) == rotated(s, place),
{
    let chosen = choose|place: int| is_first_min(s, place);
    assert(is_first_min(s, chosen));
    if chosen < place {
        assert(s[place] < s[chosen]);
    } else if place < chosen {
        assert(s[chosen] < s[place]);
    }
}

/// Normalizes a cycle to start with the smallest number.
pub fn normalize_cycle(input: &[usize]) -> (cycle: Vec<usize>)
    ensures
        cycle@ == normalized(input@),
{
    let mut min_pos: usize = 0;
    let mut i: usize = 1;
    while i < input.len()
        invariant
            input@.len() > 0 ==> min_pos < input@.len(),
            input@.len() > 0 ==> min_pos < i <= input@.len(),
            i >= 1,
            forall|j: int| 0 <= j < i && j < input@.len() ==> input@[min_pos as int] <= #[trigger] input@[j],
            forall|j: int|
                0 <= j < min_pos && j < input@.len() ==> input@[min_pos as int] < #[trigger] input@[j],
        decreases input@.len() - i,
    {
        if input[i] < input[min_pos] {
            min_pos = i;
        }
        i = i + 1;
    }
    let mut cycle: Vec<usize> = Vec::new();
    let mut j: usize = min_pos;
    while j < input.len()
        invariant
            input@.len() == 0 ==> cycle@.len() == 0,
            input@.len() > 0 ==> min_pos <= j <= input@.len() && cycle@ == input@.subrange(
                min_pos as int,
                j as int,
            ),
        decreases input@.len() - j,
    {
        cycle.push(input[j]);
        j = j + 1;
        assert(cycle@ =~= input@.subrange(min_pos as int, j as int));
    }
    let mut k: usize = 0;
    while k < min_pos && k < input.len()
        invariant
            input@.len() == 0 ==> cycle@.len() == 0,
            input@.len() > 0 ==> k <= min_pos < input@.len() && cycle@ == input@.skip(
                min_pos as int,
            ) + input@.take(k as int),
        decreases min_pos - k,
    {
        cycle.push(input[k]);
        k = k + 1;
        assert(cycle@ =~= input@.skip(min_pos as int) + input@.take(k as int));
    }
    proof {
        if input@.len() > 0 {
            lemma_first_min(input@, min_pos as int);
        } else {
            assert(cycle@ =~= input@);
        }
    }
    cycle
}

/// The way from the start of the search to where it is: the nodes that have
/// been reached and not been left.
pub open spec fn path_of(events: Seq<SearchEvent>) -> Seq<(u8, usize)>
    decreases events.len(),
{
    if events.len() == 0 {
        Seq::empty()
    } else {
        let path = path_of(events.drop_last());
        match events.last() {
            SearchEvent::Discover(n) => path.push(n),
            SearchEvent::Finish(_) if path.len() > 0 => path.drop_last(),
            _ => path,
        }
    }
}

/// The threads among some nodes, in order.
pub open spec fn threads_in(nodes: Seq<(u8, usize)>) -> Seq<usize>
    decreases nodes.len(),
{
    if nodes.len() == 0 {
        Seq::empty()
    } else {
        let rest = threads_in(nodes.drop_last());
        if nodes.last().0 == THREAD {
            rest.push(nodes.last().1)
        } else {
            rest
        }
    }
}

/// The cycle that closes where a way comes back to one of its nodes: the
/// threads from that node on.
pub open spec fn closed_at(path: Seq<(u8, usize)>, node: (u8, usize)) -> Seq<usize> {
    normalized(
        threads_in(path.skip(choose|place: int| is_last_occurrence(path, node, place))),
    )
}

/// Cycles with one more, unless it is among them.
pub open spec fn with_cycle(cycles: Seq<Seq<usize>>, cycle: Seq<usize>) -> Seq<Seq<usize>> {
    if cycles.contains(cycle) {
        cycles
    } else {
        cycles.push(cycle)
    }
}

/// The cycles of threads that a search comes across: one for each edge back to
/// a node on the way, each cycle once.
pub open spec fn cycles_in(events: Seq<SearchEvent>) -> Seq<Seq<usize>>
    decreases events.len(),
{
    if events.len() == 0 {
        Seq::empty()
    } else {
        let before = events.drop_last();
        match events.last() {
            SearchEvent::BackEdge(_, n) => with_cycle(
                cycles_in(before),
                closed_at(path_of(before), n),
            ),
            _ => cycles_in(before),
        }
    }
}

/// Edges back lead to a node on the way.
pub open spec fn traceable(events: Seq<SearchEvent>) -> bool {
    forall|i: int|
        0 <= i < events.len() ==> match #[trigger] events[i] {
            SearchEvent::BackEdge(_, n) => path_of(events.take(i)).contains(n),
            _ => true,
        }
}

/// The numbers in some lists.
pub open spec fn lists(cycles: Seq<Vec<usize>>) -> Seq<Seq<usize>> {
    Seq::new(cycles.len(), |i: int| cycles[i]@)
}

/// Whether two lists hold the same.
fn same_list(a: &Vec<usize>, b: &Vec<usize>) -> (same: bool)
    ensures
        same == (a@ == b@),
{
    if a.len() != b.len() {
        return false;
    }
    let mut i: usize = 0;
    while i < a.len()
        invariant
            a@.len() == b@.len(),
            i <= a@.len(),
            forall|j: int| 0 <= j < i ==> a@[j] == b@[j],
        decreases a@.len() - i,
    {
        if a[i] != b[i] {
            return false;
        }
        i = i + 1;
    }
    assert(a@ =~= b@);
    true
}

/// Adds a cycle, unless it is among those found.
fn insert_cycle(cycles: &mut Vec<Vec<usize>>, cycle: Vec<usize>)
    ensures
        lists(final(cycles)@) == with_cycle(lists(old(cycles)@), cycle@),
{
    let mut i: usize = 0;
    while i < cycles.len()
        invariant
            cycles@ == old(cycles)@,
            i <= cycles@.len(),
            forall|j: int| 0 <= j < i ==> #[trigger] cycles@[j]@ != cycle@,
        decreases cycles@.len() - i,
    {
        if same_list(&cycles[i], &cycle) {
            assert(lists(cycles@)[i as int] == cycle@);
            return ;
        }
        i = i + 1;
    }
    proof {
        if lists(cycles@).contains(cycle@) {
            let j = choose|j: int| 0 <= j < cycles@.len() && lists(cycles@)[j] == cycle@;
            assert(cycles@[j]@ == cycle@);
        }
    }
    cycles.push(cycle);
    assert(lists(cycles@) =~= lists(old(cycles)@).push(cycle@));
}

/// The place at which a node occurs for the last time.
fn last_occurrence(path: &Vec<(u8, usize)>, node: (u8, usize)) -> (place: usize)
    requires
        path@.contains(node),
    ensures
        is_last_occurrence(path@, node, place as int),
{
    let mut place: usize = path.len();
    proof {
        lemma_has_last_occurrence(path@, node);
    }
    while place > 0
        invariant
            place <= path@.len(),
            exists|p: int| is_last_occurrence(path@, node, p),
            forall|i: int| place <= i < path@.len() ==> path@[i] != node,
        decreases place,
    {
        place = place - 1;
        if path[place].0 == node.0 && path[place].1 == node.1 {
            assert(path@[place as int] == node);
            return place;
        }
    }
    proof {
        let p = choose|p: int| is_last_occurrence(path@, node, p);
        assert(path@[p] == node);
    }
    0
}

/// The threads of a way from a place on.
fn threads_from(path: &Vec<(u8, usize)>, from: usize) -> (threads: Vec<usize>)
    requires
        from <= path@.len(),
    ensures
        threads@ == threads_in(path@.skip(from as int)),
{
    let mut threads: Vec<usize> = Vec::new();
    let mut i: usize = from;
    let ghost rest = path@.skip(from as int);
    assert(rest.take(0) =~= Seq::<(u8, usize)>::empty());
    while i < path.len()
        invariant
            from <= i <= path@.len(),
            rest == path@.skip(from as int),
            threads@ == threads_in(rest.take(i - from)),
        decreases path@.len() - i,
    {
        proof {
            assert(rest.take(i + 1 - from).drop_last() =~= rest.take(i - from));
            assert(rest.take(i + 1 - from).last() == path@[i as int]);
        }
        if path[i].0 == THREAD {
            threads.push(path[i].1);
        }
        i = i + 1;
    }
    assert(rest.take(i - from) =~= rest);
    threads
}

/// The cycles of threads in the events of a search.
pub fn cycles_of_events(events: &Vec<SearchEvent>) -> (cycles: Vec<Vec<usize>>)
    requires
        traceable(events@),
    ensures
        lists(cycles@) == cycles_in(events@),
{
    let mut cycles: Vec<Vec<usize>> = Vec::new();
    let mut path: Vec<(u8, usize)> = Vec::new();
    let mut i: usize = 0;
    proof {
        assert(events@.take(0) =~= Seq::<SearchEvent>::empty());
        assert(lists(cycles@) =~= Seq::<Seq<usize>>::empty());
    }
    while i < events.len()
        invariant
            i <= events@.len(),
            traceable(events@),
            path@ == path_of(events@.take(i as int)),
            lists(cycles@) == cycles_in(events@.take(i as int)),
        decreases events@.len() - i,
    {
        let ghost before = events@.take(i as int);
        proof {
            assert(events@.take(i + 1).drop_last() =~= before);
            assert(events@.take(i + 1).last() == events@[i as int]);
        }
        match events[i] {
            SearchEvent::Discover(n) => {
                path.push(n);
            },
            SearchEvent::Finish(_) => {
                path.pop();
                proof {
                    if path_of(before).len() > 0 {
                        assert(path@ =~= path_of(before).drop_last());
                    }
                }
            },
            SearchEvent::BackEdge(_, n) => {
                assert(events@[i as int] matches SearchEvent::BackEdge(_, m) && m == n);
                let from = last_occurrence(&path, n);
                proof {
                    let chosen = choose|place: int| is_last_occurrence(path@, n, place);
                    assert(is_last_occurrence(path@, n, chosen));
                    assert(chosen == from);
                }
                let threads = threads_from(&path, from);
                insert_cycle(&mut cycles, normalize_cycle(threads.as_slice()));
            },
            _ => {},
        }
        i = i + 1;
    }
    assert(events@.take(i as int) =~= events@);
    cycles
}

/// The same cycle has the same normal form wherever it is entered.
pub proof fn law_normalized_is_canonical(cycle: Seq<usize>, place: int)
    requires
        cycle.no_duplicates(),
        0 <= place < cycle.len(),
    ensures
        normalized(rotated(cycle, place)) == normalized(cycle),
{
    lemma_has_min(cycle);
    let m = choose|m: int| is_first_min(cycle, m);
    lemma_first_min(cycle, m);
    let turned = rotated(cycle, place);
    let n = if m >= place {
        m - place
    } else {
        m + cycle.len() - place
    };
    assert forall|i: int| 0 <= i < turned.len() implies turned[n] <= #[trigger] turned[i] by {
        if i < cycle.len() - place {
            assert(turned[i] == cycle[i + place]);
        } else {
            assert(turned[i] == cycle[i - (cycle.len() - place)]);
        }
    }
    assert forall|i: int| 0 <= i < n implies turned[n] < #[trigger] turned[i] by {
        let j = if i < cycle.len() - place {
            i + place
        } else {
            i - (cycle.len() - place)
        };
        assert(turned[i] == cycle[j]);
        assert(cycle[m] <= cycle[j]);
        assert(cycle[m] != cycle[j]);
    }
    lemma_first_min(turned, n);
    assert(rotated(turned, n) =~= rotated(cycle, m));
}

/// A normalized cycle is the cycle, entered at its smallest number.
pub proof fn law_normalized_starts_smallest(cycle: Seq<usize>)
    requires
        cycle.len() > 0,
    ensures
        normalized(cycle).len() == cycle.len(),
        forall|i: int| 0 <= i < cycle.len() ==> normalized(cycle)[0] <= #[trigger] cycle[i],
        exists|place: int|
            0 <= place < cycle.len() && normalized(cycle) == #[trigger] rotated(cycle, place),
{
    lemma_has_min(cycle);
    let m = choose|m: int| is_first_min(cycle, m);
    lemma_first_min(cycle, m);
    assert(normalized(cycle) == rotated(cycle, m));
}

proof fn lemma_has_min(s: Seq<usize>)
    requires
        s.len() > 0,
    ensures
        exists|place: int| is_first_min(s, place),
    decreases s.len(),
{
    if s.len() == 1 {
        assert(is_first_min(s, 0));
    } else {
        let front = s.drop_last();
        lemma_has_min(front);
        let m = choose|m: int| is_first_min(front, m);
        assert forall|i: int| 0 <= i < front.len() implies front[i] == s[i] by {}
        if s.last() < s[m] {
            assert forall|i: int| 0 <= i < s.len() implies s[s.len() - 1] <= #[trigger] s[i] by {
                if i < front.len() {
                    assert(front[m] <= front[i]);
                }
            }
            assert forall|i: int| 0 <= i < s.len() - 1 implies s[s.len() - 1] < #[trigger] s[i] by {
                assert(front[m] <= front[i]);
            }
            assert(is_first_min(s, s.len() - 1));
        } else {
            assert forall|i: int| 0 <= i < s.len() implies s[m] <= #[trigger] s[i] by {
                if i < front.len() {
                    assert(front[m] <= front[i]);
                }
            }
            assert forall|i: int| 0 <= i < m implies s[m] < #[trigger] s[i] by {
                assert(front[m] < front[i]);
            }
            assert(is_first_min(s, m));
        }
    }
}

} // verus!
