//! The operations keep the invariant of the parking lot.
use crate::hash::lemma_hash_in_range;
use crate::hash_table::belongs;
use crate::model::{lemma_bucket_in_range, lemma_live_count_same, without, woken, LotView, INITIAL_BITS};
use crate::seq_facts::{lemma_filter_members, lemma_filter_no_duplicates};
use crate::thread_data::ThreadView;
use crate::time::Moment;
use crate::tokens::{ParkToken, UnparkToken};
use vstd::arithmetic::power2::{lemma2_to64, lemma_pow2_pos, lemma_pow2_strictly_increases, pow2};
use vstd::prelude::*;

verus! {

/// What a queue without some threads contains.
pub proof fn lemma_without_members(queue: Seq<usize>, gone: Seq<usize>)
    ensures
        forall|t: usize| #[trigger]
            without(queue, gone).contains(t) <==> queue.contains(t) && !gone.contains(t),
        queue.no_duplicates() ==> without(queue, gone).no_duplicates(),
{
    let p = |t: usize| !gone.contains(t);
    lemma_filter_members(queue, p);
    if queue.no_duplicates() {
        lemma_filter_no_duplicates(queue, p);
    }
}

/// A thread in a queue is in the queue of its key, and in no other.
pub proof fn lemma_in_queue(lot: LotView, b: int, t: usize)
    requires
        lot.valid(),
        0 <= b < lot.buckets.len(),
        lot.queue(b).contains(t),
    ensures
        lot.is_thread(t),
        lot.bucket_of(lot.threads[t as int].key) == b,
        lot.is_queued(t),
        lot.threads[t as int].parked || lot.threads[t as int].deadlock.deadlocked,
{
    assert(lot.bucket_valid(b));
    let i = choose|i: int| 0 <= i < lot.queue(b).len() && lot.queue(b)[i] == t;
    assert(lot.is_thread(lot.queue(b)[i]));
}

/// Whoever is in the queue of its key is a thread, and asleep.
pub proof fn lemma_queued_is_thread(lot: LotView, t: usize)
    requires
        lot.valid(),
        lot.is_queued(t),
    ensures
        lot.is_thread(t),
        lot.threads[t as int].parked || lot.threads[t as int].deadlock.deadlocked,
{
    lemma_bucket_in_range(lot, lot.threads[t as int].key);
    lemma_in_queue(lot, lot.bucket_of(lot.threads[t as int].key), t);
}

/// A bucket is valid if its members are.
proof fn lemma_bucket_valid(lot: LotView, b: int)
    requires
        lot.queue(b).no_duplicates(),
        lot.buckets[b].fair.seed != 0,
        forall|t: usize| #[trigger]
            lot.queue(b).contains(t) ==> {
                &&& lot.is_thread(t)
                &&& lot.bucket_of(lot.threads[t as int].key) == b
                &&& lot.threads[t as int].parked || lot.threads[t as int].deadlock.deadlocked
            },
    ensures
        lot.bucket_valid(b),
{
    assert forall|i: int| 0 <= i < lot.queue(b).len() implies ({
        let t = #[trigger] lot.queue(b)[i];
        &&& lot.is_thread(t)
        &&& lot.bucket_of(lot.threads[t as int].key) == b
        &&& lot.threads[t as int].parked || lot.threads[t as int].deadlock.deadlocked
    }) by {
        assert(lot.queue(b).contains(lot.queue(b)[i]));
    }
}

pub proof fn lemma_valid_parked(
    lot: LotView,
    thread: usize,
    key: usize,
    park_token: ParkToken,
    with_timeout: bool,
)
    requires
        lot.valid(),
        lot.has_table(),
        lot.is_thread(thread),
        !lot.threads[thread as int].parked,
        !lot.threads[thread as int].deadlock.deadlocked,
    ensures
        lot.parked(thread, key, park_token, with_timeout).valid(),
        forall|b: int| 0 <= b < lot.buckets.len() ==> !(#[trigger] lot.queue(b)).contains(thread),
{
    let after = lot.parked(thread, key, park_token, with_timeout);
    let home = lot.bucket_of(key);
    lemma_bucket_in_range(lot, key);
    assert forall|b: int| 0 <= b < lot.buckets.len() implies !(#[trigger] lot.queue(b)).contains(
        thread,
    ) by {
        if lot.queue(b).contains(thread) {
            lemma_in_queue(lot, b, thread);
        }
    }
    assert forall|b: int| 0 <= b < after.buckets.len() implies #[trigger] after.bucket_valid(b) by {
        assert(lot.bucket_valid(b));
        assert(!lot.queue(b).contains(thread));
        assert forall|t: usize| #[trigger] after.queue(b).contains(t) implies {
            &&& after.is_thread(t)
            &&& after.bucket_of(after.threads[t as int].key) == b
            &&& after.threads[t as int].parked || after.threads[t as int].deadlock.deadlocked
        } by {
            let i = choose|i: int| 0 <= i < after.queue(b).len() && after.queue(b)[i] == t;
            if i < lot.queue(b).len() {
                assert(lot.queue(b)[i] == t);
                lemma_in_queue(lot, b, t);
            }
        }
        assert(after.queue(b).no_duplicates()) by {
            let q = lot.queue(b);
            if b == home {
                assert forall|i: int, j: int|
                    0 <= i < after.queue(b).len() && 0 <= j < after.queue(b).len() && i
                        != j implies after.queue(b)[i] != after.queue(b)[j] by {
                    if i < q.len() {
                        assert(q.contains(q[i]));
                    }
                    if j < q.len() {
                        assert(q.contains(q[j]));
                    }
                }
            }
        }
        lemma_bucket_valid(after, b);
    }
    assert forall|t: usize| t < after.threads.len() implies #[trigger] after.thread_valid(t) by {
        assert(lot.thread_valid(t));
        if t == thread {
            assert(after.queue(home)[lot.queue(home).len() as int] == thread);
        } else if after.threads[t as int].parked && !after.threads[t as int].deadlock.deadlocked {
            let b = lot.bucket_of(lot.threads[t as int].key);
            lemma_bucket_in_range(lot, lot.threads[t as int].key);
            let i = choose|i: int| 0 <= i < lot.queue(b).len() && lot.queue(b)[i] == t;
            assert(after.queue(b)[i] == t);
        }
    }
    lemma_live_count_same(lot.threads, after.threads);
}

pub proof fn lemma_valid_unparked(lot: LotView, b: int, gone: Seq<usize>, token: UnparkToken)
    requires
        lot.valid(),
        0 <= b < lot.buckets.len(),
        forall|t: usize| #[trigger] gone.contains(t) ==> lot.queue(b).contains(t),
    ensures
        lot.unparked(b, gone, token).valid(),
{
    let after = lot.unparked(b, gone, token);
    lemma_without_members(lot.queue(b), gone);
    assert forall|c: int| 0 <= c < after.buckets.len() implies #[trigger] after.bucket_valid(c) by {
        assert(lot.bucket_valid(c));
        assert forall|t: usize| #[trigger] after.queue(c).contains(t) implies {
            &&& after.is_thread(t)
            &&& after.bucket_of(after.threads[t as int].key) == c
            &&& after.threads[t as int].parked || after.threads[t as int].deadlock.deadlocked
        } by {
            assert(lot.queue(c).contains(t));
            lemma_in_queue(lot, c, t);
            if gone.contains(t) {
                lemma_in_queue(lot, b, t);
            }
        }
        lemma_bucket_valid(after, c);
    }
    assert forall|t: usize| t < after.threads.len() implies #[trigger] after.thread_valid(t) by {
        assert(lot.thread_valid(t));
        if after.threads[t as int].parked && !after.threads[t as int].deadlock.deadlocked {
            assert(!gone.contains(t));
            lemma_bucket_in_range(lot, lot.threads[t as int].key);
        }
    }
    lemma_live_count_same(lot.threads, after.threads);
}

pub proof fn lemma_valid_requeued(lot: LotView, from: int, moved: Seq<usize>, key_to: usize)
    requires
        lot.valid(),
        0 <= from < lot.buckets.len(),
        moved.no_duplicates(),
        forall|t: usize| #[trigger] moved.contains(t) ==> lot.queue(from).contains(t),
    ensures
        lot.requeued(from, moved, key_to).valid(),
{
    let after = lot.requeued(from, moved, key_to);
    let left = lot.with_queue(from, without(lot.queue(from), moved));
    let to = lot.bucket_of(key_to);
    lemma_bucket_in_range(lot, key_to);
    lemma_without_members(lot.queue(from), moved);
    assert forall|c: int, t: usize| 0 <= c < lot.buckets.len() implies (#[trigger] left.queue(
        c,
    ).contains(t) <==> lot.queue(c).contains(t) && !moved.contains(t)) by {
        if c != from && lot.queue(c).contains(t) && moved.contains(t) {
            lemma_in_queue(lot, c, t);
            lemma_in_queue(lot, from, t);
        }
    }
    assert forall|c: int, t: usize| 0 <= c < lot.buckets.len() implies (#[trigger] after.queue(
        c,
    ).contains(t) <==> left.queue(c).contains(t) || (c == to && moved.contains(t))) by {
        if c == to {
            let q = left.queue(to);
            assert(after.queue(to) == q + moved);
            if after.queue(to).contains(t) {
                let i = choose|i: int| 0 <= i < after.queue(to).len() && after.queue(to)[i] == t;
                if i < q.len() {
                    assert(q[i] == t);
                } else {
                    assert(moved[i - q.len()] == t);
                }
            }
            if q.contains(t) {
                let i = choose|i: int| 0 <= i < q.len() && q[i] == t;
                assert((q + moved)[i] == t);
            }
            if moved.contains(t) {
                let i = choose|i: int| 0 <= i < moved.len() && moved[i] == t;
                assert((q + moved)[q.len() + i] == t);
            }
        }
    }
    assert forall|c: int| 0 <= c < after.buckets.len() implies #[trigger] after.bucket_valid(c) by {
        assert(lot.bucket_valid(c));
        assert forall|t: usize| #[trigger] after.queue(c).contains(t) implies {
            &&& after.is_thread(t)
            &&& after.bucket_of(after.threads[t as int].key) == c
            &&& after.threads[t as int].parked || after.threads[t as int].deadlock.deadlocked
        } by {
            if left.queue(c).contains(t) {
                lemma_in_queue(lot, c, t);
            } else {
                assert(moved.contains(t));
                lemma_in_queue(lot, from, t);
            }
        }
        assert(left.queue(c).no_duplicates());
        assert(after.queue(c).no_duplicates()) by {
            if c == to {
                let q = left.queue(to);
                let joined = q + moved;
                assert forall|i: int, j: int|
                    0 <= i < joined.len() && 0 <= j < joined.len() && i != j implies joined[i]
                    != joined[j] by {
                    if i < q.len() && j >= q.len() {
                        assert(left.queue(to).contains(q[i]));
                        assert(moved.contains(moved[j - q.len()]));
                    }
                    if j < q.len() && i >= q.len() {
                        assert(left.queue(to).contains(q[j]));
                        assert(moved.contains(moved[i - q.len()]));
                    }
                }
            }
        }
        lemma_bucket_valid(after, c);
    }
    assert forall|t: usize| t < after.threads.len() implies #[trigger] after.thread_valid(t) by {
        assert(lot.thread_valid(t));
        if after.threads[t as int].parked && !after.threads[t as int].deadlock.deadlocked {
            lemma_bucket_in_range(lot, lot.threads[t as int].key);
            if moved.contains(t) {
                assert(after.queue(to).contains(t));
            } else {
                let b = lot.bucket_of(lot.threads[t as int].key);
                assert(left.queue(b).contains(t));
                assert(after.queue(b).contains(t));
            }
        }
    }
    lemma_live_count_same(lot.threads, after.threads);
}

/// What the first buckets contain.
pub proof fn lemma_queued_in(lot: LotView, n: int)
    requires
        lot.valid(),
        0 <= n <= lot.buckets.len(),
    ensures
        lot.queued_in(n).no_duplicates(),
        forall|t: usize| #[trigger]
            lot.queued_in(n).contains(t) <==> t < lot.threads.len() && lot.is_queued(t)
                && lot.bucket_of(lot.threads[t as int].key) < n,
    decreases n,
{
    if n > 0 {
        lemma_queued_in(lot, n - 1);
        let front = lot.queued_in(n - 1);
        let back = lot.queue(n - 1);
        assert(lot.bucket_valid(n - 1));
        assert forall|t: usize| #[trigger] lot.queued_in(n).contains(t) <==> t < lot.threads.len()
            && lot.is_queued(t) && lot.bucket_of(lot.threads[t as int].key) < n by {
            if lot.queued_in(n).contains(t) {
                let i = choose|i: int|
                    0 <= i < lot.queued_in(n).len() && lot.queued_in(n)[i] == t;
                if i < front.len() {
                    assert(front[i] == t);
                    assert(front.contains(t));
                } else {
                    assert(back[i - front.len()] == t);
                    lemma_in_queue(lot, n - 1, t);
                }
            }
            if t < lot.threads.len() && lot.is_queued(t) && lot.bucket_of(
                lot.threads[t as int].key,
            ) < n {
                if lot.bucket_of(lot.threads[t as int].key) == n - 1 {
                    let i = choose|i: int| 0 <= i < back.len() && back[i] == t;
                    assert(lot.queued_in(n)[front.len() + i] == t);
                } else {
                    assert(front.contains(t));
                    let i = choose|i: int| 0 <= i < front.len() && front[i] == t;
                    assert(lot.queued_in(n)[i] == t);
                }
            }
        }
        let all = lot.queued_in(n);
        assert forall|i: int, j: int|
            0 <= i < all.len() && 0 <= j < all.len() && i != j implies all[i] != all[j] by {
            if i < front.len() && j >= front.len() {
                assert(front.contains(front[i]));
                assert(back.contains(back[j - front.len()]));
                lemma_in_queue(lot, n - 1, back[j - front.len()]);
            }
            if j < front.len() && i >= front.len() {
                assert(front.contains(front[j]));
                assert(back.contains(back[i - front.len()]));
                lemma_in_queue(lot, n - 1, back[i - front.len()]);
            }
        }
    } else {
        assert forall|t: usize| t < lot.threads.len() && lot.is_queued(t) implies lot.bucket_of(
            lot.threads[t as int].key,
        ) >= 0 by {
            lemma_bucket_in_range(lot, lot.threads[t as int].key);
        }
    }
}

pub proof fn lemma_valid_grown(lot: LotView, hash_bits: u32, now: Moment)
    requires
        lot.valid(),
        lot.has_table(),
        1 <= hash_bits <= 31,
    ensures
        lot.grown(hash_bits, now).valid(),
{
    let after = lot.grown(hash_bits, now);
    lemma_queued_in(lot, lot.buckets.len() as int);
    lemma_pow2_pos(hash_bits as nat);
    assert forall|b: int| 0 <= b < after.buckets.len() implies #[trigger] after.bucket_valid(b) by {
        let here = belongs(lot.threads, hash_bits, b);
        lemma_filter_members(lot.all_queued(), here);
        lemma_filter_no_duplicates(lot.all_queued(), here);
        lemma_seed(b, hash_bits);
        assert forall|t: usize| #[trigger] after.queue(b).contains(t) implies {
            &&& after.is_thread(t)
            &&& after.bucket_of(after.threads[t as int].key) == b
            &&& after.threads[t as int].parked || after.threads[t as int].deadlock.deadlocked
        } by {
            assert(lot.all_queued().contains(t));
            lemma_bucket_in_range(lot, lot.threads[t as int].key);
            lemma_in_queue(lot, lot.bucket_of(lot.threads[t as int].key), t);
        }
        lemma_bucket_valid(after, b);
    }
    assert forall|t: usize| t < after.threads.len() implies #[trigger] after.thread_valid(t) by {
        assert(lot.thread_valid(t));
        if lot.is_queued(t) {
            lemma_bucket_in_range(lot, lot.threads[t as int].key);
            assert(lot.all_queued().contains(t));
            let b = after.bucket_of(lot.threads[t as int].key);
            lemma_hash_in_range(lot.threads[t as int].key, hash_bits);
            lemma_filter_members(lot.all_queued(), belongs(lot.threads, hash_bits, b));
            assert(after.queue(b).contains(t));
        }
    }
}

/// No bucket of a new table has the seed zero.
proof fn lemma_seed(b: int, hash_bits: u32)
    requires
        hash_bits <= 31,
        0 <= b < pow2(hash_bits as nat),
    ensures
        (b + 1) as u32 != 0,
{
    lemma2_to64();
    if hash_bits < 31 {
        lemma_pow2_strictly_increases(hash_bits as nat, 31);
    }
}

pub proof fn lemma_valid_with_locks(lot: LotView, locked: bool)
    requires
        lot.valid(),
    ensures
        lot.with_locks(locked).valid(),
{
    let after = lot.with_locks(locked);
    assert forall|b: int| 0 <= b < after.buckets.len() implies #[trigger] after.bucket_valid(b) by {
        assert(lot.bucket_valid(b));
        assert(after.queue(b) == lot.queue(b));
    }
    assert forall|t: usize| t < after.threads.len() implies #[trigger] after.thread_valid(t) by {
        assert(lot.thread_valid(t));
        if lot.is_queued(t) {
            lemma_bucket_in_range(lot, lot.threads[t as int].key);
        }
    }
}

pub proof fn lemma_valid_with_table(lot: LotView, now: Moment)
    requires
        lot.valid(),
    ensures
        lot.with_table(now).valid(),
        lot.with_table(now).has_table(),
{
    let after = lot.with_table(now);
    if !lot.has_table() {
        lemma2_to64();
        lemma_pow2_pos(INITIAL_BITS as nat);
        assert forall|b: int| 0 <= b < after.buckets.len() implies #[trigger] after.bucket_valid(
            b,
        ) by {
            lemma_seed(b, INITIAL_BITS);
        }
        assert forall|t: usize| t < after.threads.len() implies #[trigger] after.thread_valid(
            t,
        ) by {
            assert(lot.thread_valid(t));
        }
    }
}

/// One thread that is let go.
pub proof fn lemma_woken_one(threads: Seq<ThreadView>, thread: usize, token: UnparkToken)
    requires
        thread < threads.len() <= usize::MAX,
    ensures
        woken(threads, seq![thread], token) == threads.update(
            thread as int,
            ThreadView { parked: false, unpark_token: token, ..threads[thread as int] },
        ),
{
    let gone = seq![thread];
    assert(gone[0] == thread);
    assert(woken(threads, gone, token) =~= threads.update(
        thread as int,
        ThreadView { parked: false, unpark_token: token, ..threads[thread as int] },
    ));
}

} // verus!
