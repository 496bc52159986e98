//! Facts about filtered sequences.
use vstd::prelude::*;

verus! {

/// Filtering by predicates that agree on every element gives the same result.
pub proof fn lemma_filter_agree<A>(s: Seq<A>, p: spec_fn(A) -> bool, q: spec_fn(A) -> bool)
    requires
        forall|i: int| 0 <= i < s.len() ==> p(#[trigger] s[i]) == q(s[i]),
    ensures
        s.filter(p) == s.filter(q),
    decreases s.len(),
{
    reveal(Seq::filter);
    if s.len() > 0 {
        assert forall|i: int| 0 <= i < s.drop_last().len() implies p(
            #[trigger] s.drop_last()[i],
        ) == q(s.drop_last()[i]) by {
            assert(s.drop_last()[i] == s[i]);
        }
        lemma_filter_agree(s.drop_last(), p, q);
        assert(s.last() == s[s.len() - 1]);
    }
}

/// A predicate that holds of every element filters nothing out.
pub proof fn lemma_filter_keeps_all<A>(s: Seq<A>, p: spec_fn(A) -> bool)
    requires
        forall|i: int| 0 <= i < s.len() ==> p(#[trigger] s[i]),
    ensures
        s.filter(p) == s,
    decreases s.len(),
{
    reveal(Seq::filter);
    if s.len() > 0 {
        assert forall|i: int| 0 <= i < s.drop_last().len() implies p(
            #[trigger] s.drop_last()[i],
        ) by {
            assert(s.drop_last()[i] == s[i]);
        }
        lemma_filter_keeps_all(s.drop_last(), p);
        assert(p(s[s.len() - 1]));
        assert(s.drop_last().push(s.last()) =~= s);
    }
}

/// A predicate that holds of no element filters everything out.
pub proof fn lemma_filter_keeps_none<A>(s: Seq<A>, p: spec_fn(A) -> bool)
    requires
        forall|i: int| 0 <= i < s.len() ==> !p(#[trigger] s[i]),
    ensures
        s.filter(p) == Seq::<A>::empty(),
{
    s.lemma_all_neg_filter_empty(p);
    assert(s.filter(p) =~= Seq::<A>::empty());
}

/// Filtering twice is filtering by both predicates.
pub proof fn lemma_filter_twice<A>(
    s: Seq<A>,
    p: spec_fn(A) -> bool,
    q: spec_fn(A) -> bool,
    both: spec_fn(A) -> bool,
)
    requires
        forall|i: int| 0 <= i < s.len() ==> both(#[trigger] s[i]) == (p(s[i]) && q(s[i])),
    ensures
        s.filter(p).filter(q) == s.filter(both),
    decreases s.len(),
{
    reveal(Seq::filter);
    if s.len() > 0 {
        let rest = s.drop_last();
        assert forall|i: int| 0 <= i < rest.len() implies both(#[trigger] rest[i]) == (p(rest[i])
            && q(rest[i])) by {
            assert(rest[i] == s[i]);
        }
        lemma_filter_twice(rest, p, q, both);
        assert(s.last() == s[s.len() - 1]);
        if p(s.last()) {
            rest.filter(p).lemma_filter_push(s.last(), q);
        }
    }
}

/// What a filtered sequence contains.
pub proof fn lemma_filter_members<A>(s: Seq<A>, p: spec_fn(A) -> bool)
    ensures
        forall|x: A| #[trigger] s.filter(p).contains(x) <==> s.contains(x) && p(x),
{
    broadcast use vstd::seq_lib::group_filter_ensures;

    assert forall|x: A| #[trigger] s.filter(p).contains(x) <==> s.contains(x) && p(x) by {
        if s.filter(p).contains(x) {
            s.lemma_filter_contains_rev(p, x);
            let i = choose|i: int| 0 <= i < s.filter(p).len() && s.filter(p)[i] == x;
            assert(p(s.filter(p)[i]));
        }
        if s.contains(x) && p(x) {
            let i = choose|i: int| 0 <= i < s.len() && s[i] == x;
            assert(s.filter(p).contains(s[i]));
        }
    }
}

/// Filtering brings in no duplicates.
pub proof fn lemma_filter_no_duplicates<A>(s: Seq<A>, p: spec_fn(A) -> bool)
    requires
        s.no_duplicates(),
    ensures
        s.filter(p).no_duplicates(),
    decreases s.len(),
{
    reveal(Seq::filter);
    if s.len() > 0 {
        let rest = s.drop_last();
        assert(rest.no_duplicates()) by {
            assert forall|i: int, j: int|
                0 <= i < rest.len() && 0 <= j < rest.len() && i != j implies rest[i]
                != rest[j] by {
                assert(s[i] != s[j]);
            }
        }
        lemma_filter_no_duplicates(rest, p);
        lemma_filter_members(rest, p);
        if p(s.last()) {
            assert(!rest.contains(s.last())) by {
                if rest.contains(s.last()) {
                    let i = choose|i: int| 0 <= i < rest.len() && rest[i] == s.last();
                    assert(s[i] != s[s.len() - 1]);
                }
            }
            let f = rest.filter(p);
            assert forall|i: int, j: int|
                0 <= i < f.push(s.last()).len() && 0 <= j < f.push(s.last()).len() && i
                    != j implies f.push(s.last())[i] != f.push(s.last())[j] by {
                if i < f.len() && j < f.len() {
                } else if i < f.len() {
                    assert(f.contains(f[i]));
                } else {
                    assert(f.contains(f[j]));
                }
            }
        }
    }
}

/// Taking out one element of a sequence without duplicates.
pub proof fn lemma_remove_is_filter<A>(s: Seq<A>, pos: int, p: spec_fn(A) -> bool)
    requires
        s.no_duplicates(),
        0 <= pos < s.len(),
        forall|i: int| 0 <= i < s.len() ==> p(#[trigger] s[i]) == (s[i] != s[pos]),
    ensures
        s.remove(pos) == s.filter(p),
{
    let front = s.subrange(0, pos);
    let back = s.subrange(pos + 1, s.len() as int);
    assert(s =~= front + seq![s[pos]] + back);
    Seq::filter_distributes_over_add(front + seq![s[pos]], back, p);
    Seq::filter_distributes_over_add(front, seq![s[pos]], p);
    assert forall|i: int| 0 <= i < front.len() implies p(#[trigger] front[i]) by {
        assert(front[i] == s[i]);
    }
    assert forall|i: int| 0 <= i < back.len() implies p(#[trigger] back[i]) by {
        assert(back[i] == s[pos + 1 + i]);
    }
    lemma_filter_keeps_all(front, p);
    lemma_filter_keeps_all(back, p);
    let one = seq![s[pos]];
    assert forall|i: int| 0 <= i < one.len() implies !p(#[trigger] one[i]) by {
        assert(one[i] == s[pos]);
    }
    lemma_filter_keeps_none(one, p);
    assert(s.remove(pos) =~= front + back);
    assert(s.filter(p) =~= front + Seq::<A>::empty() + back);
}

/// Filtering one element more.
pub proof fn lemma_filter_take_next<A>(s: Seq<A>, n: int, p: spec_fn(A) -> bool)
    requires
        0 <= n < s.len(),
    ensures
        s.take(n + 1).filter(p) == (if p(s[n]) {
            s.take(n).filter(p).push(s[n])
        } else {
            s.take(n).filter(p)
        }),
{
    assert(s.take(n + 1) =~= s.take(n).push(s[n]));
    s.take(n).lemma_filter_push(s[n], p);
}

/// The first element that is kept, and whether others are.
pub proof fn lemma_filter_first<A>(s: Seq<A>, n: int, p: spec_fn(A) -> bool)
    requires
        0 <= n < s.len(),
        p(s[n]),
        forall|i: int| 0 <= i < n ==> !p(#[trigger] s[i]),
    ensures
        s.filter(p) == seq![s[n]] + s.skip(n + 1).filter(p),
{
    let front = s.take(n);
    let one = seq![s[n]];
    assert(s =~= front + one + s.skip(n + 1));
    Seq::filter_distributes_over_add(front + one, s.skip(n + 1), p);
    Seq::filter_distributes_over_add(front, one, p);
    assert forall|i: int| 0 <= i < front.len() implies !p(#[trigger] front[i]) by {
        assert(front[i] == s[i]);
    }
    lemma_filter_keeps_none(front, p);
    assert forall|i: int| 0 <= i < one.len() implies p(#[trigger] one[i]) by {}
    lemma_filter_keeps_all(one, p);
    assert(s.filter(p) =~= one + s.skip(n + 1).filter(p));
}

/// Whether anything is kept.
pub proof fn lemma_filter_nonempty<A>(s: Seq<A>, p: spec_fn(A) -> bool)
    ensures
        s.filter(p).len() > 0 <==> exists|i: int| 0 <= i < s.len() && p(#[trigger] s[i]),
{
    lemma_filter_members(s, p);
    if s.filter(p).len() > 0 {
        assert(s.filter(p).contains(s.filter(p)[0]));
        let x = s.filter(p)[0];
        let i = choose|i: int| 0 <= i < s.len() && s[i] == x;
        assert(p(s[i]));
    }
    if exists|i: int| 0 <= i < s.len() && p(#[trigger] s[i]) {
        let i = choose|i: int| 0 <= i < s.len() && p(#[trigger] s[i]);
        assert(s.contains(s[i]));
        assert(s.filter(p).contains(s[i]));
    }
}

/// Different numbers below a bound are no more than the bound.
pub proof fn lemma_bounded_length(s: Seq<usize>, bound: nat)
    requires
        s.no_duplicates(),
        forall|i: int| 0 <= i < s.len() ==> #[trigger] s[i] < bound,
    ensures
        s.len() <= bound,
    decreases bound,
{
    if bound == 0 {
        if s.len() > 0 {
            assert(s[0] < 0);
        }
    } else if s.contains((bound - 1) as usize) && bound - 1 <= usize::MAX {
        let place = choose|i: int| 0 <= i < s.len() && s[i] == (bound - 1) as usize;
        let rest = s.remove(place);
        assert forall|i: int| 0 <= i < rest.len() implies #[trigger] rest[i] < bound - 1 by {
            if i < place {
                assert(rest[i] == s[i]);
            } else {
                assert(rest[i] == s[i + 1]);
            }
        }
        assert forall|i: int, j: int|
            0 <= i < rest.len() && 0 <= j < rest.len() && i != j implies rest[i] != rest[j] by {
            let k = if i < place {
                i
            } else {
                i + 1
            };
            let l = if j < place {
                j
            } else {
                j + 1
            };
            assert(rest[i] == s[k] && rest[j] == s[l]);
        }
        lemma_bounded_length(rest, (bound - 1) as nat);
    } else {
        assert forall|i: int| 0 <= i < s.len() implies #[trigger] s[i] < bound - 1 by {
            assert(s.contains(s[i]));
        }
        lemma_bounded_length(s, (bound - 1) as nat);
    }
}

/// The place of the last occurrence of an element.
pub open spec fn is_last_occurrence<A>(s: Seq<A>, x: A, place: int) -> bool {
    &&& 0 <= place < s.len()
    &&& s[place] == x
    &&& forall|i: int| place < i < s.len() ==> s[i] != x
}

/// Where an element occurs, it occurs for the last time.
pub proof fn lemma_has_last_occurrence<A>(s: Seq<A>, x: A)
    requires
        s.contains(x),
    ensures
        exists|place: int| is_last_occurrence(s, x, place),
    decreases s.len(),
{
    if s.last() == x {
        assert(is_last_occurrence(s, x, s.len() - 1));
    } else {
        let front = s.drop_last();
        let i = choose|i: int| 0 <= i < s.len() && s[i] == x;
        assert(front[i] == x);
        lemma_has_last_occurrence(front, x);
        let place = choose|place: int| is_last_occurrence(front, x, place);
        assert(is_last_occurrence(s, x, place)) by {
            assert forall|j: int| place < j < s.len() implies s[j] != x by {
                if j < front.len() {
                    assert(front[j] == s[j]);
                }
            }
        }
    }
}

} // verus!
