//! What becomes of the table, of its locks and of the records of the threads,
//! field by field.
use crate::deadlock_data::identified;
use crate::deadlock_effects::lemma_in_some_bucket;
use crate::fair_timeout::{after_asking, xorshift, FairTimeout};
use crate::hash::hash_of;
use crate::hash_table::{fitting_bits, fresh_buckets, MAX_THREADS};
use crate::laws::law_growth_makes_room;
use crate::locking::{bucket_attempt, pair_attempt, LockedBucket};
use crate::lot::{growth, joining};
use crate::model::{lemma_bucket_in_range, sleeps_on, LotView};
use crate::seq_facts::{lemma_filter_agree, lemma_filter_members};
use crate::time::{law_clock_reads_whole_duration, measured, Moment};
use crate::tokens::{ParkToken, UnparkToken};
use instant::Instant;
use vstd::arithmetic::power2::{lemma2_to64, lemma_pow2_pos, lemma_pow2_unfold, pow2};
use vstd::prelude::*;

verus! {

/// A new lot has no thread, no table and a clock that nobody has read.
pub proof fn law_new_lot_is_empty(started: Instant)
    ensures
        LotView::empty(started).threads.len() == 0,
        LotView::empty(started).buckets.len() == 0,
        LotView::empty(started).num_threads == 0,
        LotView::empty(started).started == started,
        LotView::empty(started).latest.nanos == 0,
{
}

/// What is said of threads, buckets and locks in short.
pub proof fn law_short_words(lot: LotView, thread: usize, bucket: int)
    ensures
        lot.has_table() <==> lot.buckets.len() > 0,
        lot.is_thread(thread) <==> thread < lot.threads.len() && lot.threads[thread as int].live,
        lot.holds(bucket) <==> 0 <= bucket < lot.buckets.len() && lot.buckets[bucket].locked,
        lot.some_locked() <==> exists|b: int|
            0 <= b < lot.buckets.len() && #[trigger] lot.buckets[b].locked,
        lot.all_locked() <==> forall|b: int|
            0 <= b < lot.buckets.len() ==> #[trigger] lot.buckets[b].locked,
{
    if lot.some_locked() {
        let b = choose|b: int| #[trigger] lot.holds(b);
        assert(lot.buckets[b].locked);
    }
    if exists|b: int| 0 <= b < lot.buckets.len() && #[trigger] lot.buckets[b].locked {
        let b = choose|b: int| 0 <= b < lot.buckets.len() && #[trigger] lot.buckets[b].locked;
        assert(lot.holds(b));
    }
    if lot.all_locked() {
        assert forall|b: int| 0 <= b < lot.buckets.len()
            implies #[trigger] lot.buckets[b].locked by {
            assert(lot.holds(b));
        }
    }
}

/// The threads that are parked on a key are those in its bucket that sleep on
/// it, in order.
pub proof fn law_parked_threads_sleep_on_the_key(lot: LotView, key: usize)
    ensures
        lot.buckets.len() == 0 ==> lot.parked_on(key).len() == 0,
        lot.buckets.len() > 0 ==> lot.parked_on(key)
            == lot.buckets[lot.bucket_of(key)].queue.filter(
            |t: usize| lot.threads[t as int].key == key,
        ),
{
    if lot.buckets.len() > 0 {
        lemma_filter_agree(
            lot.buckets[lot.bucket_of(key)].queue,
            sleeps_on(lot.threads, key),
            |t: usize| lot.threads[t as int].key == key,
        );
    }
}

/// The first table has sixteen buckets, empty, unlocked, with seeds from one on,
/// and a fair unlock is due from the moment at which it is made. A table that
/// is there stays as it is.
pub proof fn law_first_table(lot: LotView, now: Moment)
    ensures
        lot.buckets.len() > 0 ==> lot.with_table(now) == lot,
        lot.buckets.len() == 0 ==> {
            let after = lot.with_table(now);
            &&& after.hash_bits == 4
            &&& after.buckets.len() == 16
            &&& forall|b: int|
                0 <= b < 16 ==> {
                    &&& (#[trigger] after.buckets[b]).queue.len() == 0
                    &&& !after.buckets[b].locked
                    &&& after.buckets[b].fair.timeout == now
                    &&& after.buckets[b].fair.seed == b + 1
                }
            &&& after.threads == lot.threads
            &&& after.num_threads == lot.num_threads
            &&& after.started == lot.started
            &&& after.latest == now
        },
{
    lemma2_to64();
}

/// The first table is made at the moment that the clock reads.
pub proof fn law_first_table_is_made_now(lot: LotView, now: Moment) -> (asked: (u64, u32))
    requires
        lot.buckets.len() == 0,
        lot.ready_at(now),
    ensures
        measured(lot.started, asked.0, asked.1),
        now.nanos >= lot.latest.nanos,
        now.nanos >= asked.0 * 1_000_000_000 + asked.1,
        now == lot.latest || now.nanos == asked.0 * 1_000_000_000 + asked.1,
{
    law_clock_reads_whole_duration(lot.started, lot.latest, now)
}

/// Whoever asks for a lock or for room where there is no table makes the first
/// one, and then goes on as if it had been there.
pub proof fn law_first_table_is_made_first(
    before: LotView,
    after: LotView,
    key1: usize,
    key2: usize,
    single: Option<LockedBucket>,
    pair: Option<(LockedBucket, Option<LockedBucket>)>,
    num_threads: nat,
    done: bool,
)
    requires
        before.buckets.len() == 0,
    ensures
        bucket_attempt(before, after, key1, single) ==> exists|now: Moment|
            before.ready_at(now) && bucket_attempt(
                #[trigger] before.with_table(now),
                after,
                key1,
                single,
            ),
        pair_attempt(before, after, key1, key2, pair) ==> exists|now: Moment|
            before.ready_at(now) && pair_attempt(
                #[trigger] before.with_table(now),
                after,
                key1,
                key2,
                pair,
            ),
        growth(before, after, num_threads, done) ==> exists|now: Moment|
            before.ready_at(now) && growth(
                #[trigger] before.with_table(now),
                after,
                num_threads,
                done,
            ),
{
    let any = Moment { nanos: 0 };
    lemma2_to64();
    if bucket_attempt(before, after, key1, single) {
        let now = choose|now: Moment| {
            let ready = #[trigger] before.with_table(now);
            let b = ready.bucket_of(key1);
            &&& before.ready_at(now)
            &&& match single {
                Some(bucket) => !ready.holds(b) && bucket.bucket() == b && after
                    == ready.with_lock(b, true),
                None => ready.holds(b) && after == ready,
            }
        };
        let ready = before.with_table(now);
        assert(ready.with_table(any) == ready);
        assert(bucket_attempt(ready, after, key1, single));
    }
    if pair_attempt(before, after, key1, key2, pair) {
        let now = choose|now: Moment| {
            let ready = #[trigger] before.with_table(now);
            let b1 = ready.bucket_of(key1);
            let b2 = ready.bucket_of(key2);
            &&& before.ready_at(now)
            &&& match pair {
                Some((bucket1, bucket2)) => {
                    &&& !ready.holds(b1) && !ready.holds(b2)
                    &&& bucket1.bucket() == b1
                    &&& bucket2 is None <==> b1 == b2
                    &&& bucket2 matches Some(bucket2) ==> bucket2.bucket() == b2
                    &&& after == ready.with_lock(b1, true).with_lock(b2, true)
                },
                None => (ready.holds(b1) || ready.holds(b2)) && after == ready,
            }
        };
        let ready = before.with_table(now);
        assert(ready.with_table(any) == ready);
        assert(pair_attempt(ready, after, key1, key2, pair));
    }
    if growth(before, after, num_threads, done) {
        let now = choose|now: Moment| {
            let ready = #[trigger] before.with_table(now);
            &&& before.ready_at(now)
            &&& if ready.roomy(num_threads) {
                done && after == ready
            } else if ready.some_locked() {
                !done && after == ready
            } else {
                done && exists|hash_bits: u32, then: Moment|
                    ready.reads(then) && fitting_bits(hash_bits, num_threads) && after
                        == #[trigger] ready.grown(hash_bits, then)
            }
        };
        let ready = before.with_table(now);
        assert(ready.with_table(any) == ready);
        assert(growth(ready, after, num_threads, done));
    }
}

/// A new table is made of empty, unlocked buckets, with seeds from one on, where
/// a fair unlock is due from the moment at which it is made.
pub proof fn law_new_table_is_empty(hash_bits: u32, now: Moment)
    requires
        hash_bits <= 31,
    ensures
        fresh_buckets(hash_bits, now).len() == pow2(hash_bits as nat),
        forall|b: int|
            0 <= b < pow2(hash_bits as nat) ==> {
                &&& (#[trigger] fresh_buckets(hash_bits, now)[b]).queue.len() == 0
                &&& !fresh_buckets(hash_bits, now)[b].locked
                &&& fresh_buckets(hash_bits, now)[b].fair.timeout == now
                &&& fresh_buckets(hash_bits, now)[b].fair.seed == b + 1
            },
{
    lemma2_to64();
    if hash_bits < 31 {
        vstd::arithmetic::power2::lemma_pow2_strictly_increases(hash_bits as nat, 31);
    }
}

/// The size of a table is the least power of two with three buckets for each
/// thread.
pub proof fn law_table_fits(hash_bits: u32, num_threads: nat)
    requires
        num_threads > 0,
    ensures
        fitting_bits(hash_bits, num_threads) ==> 3 * num_threads <= pow2(hash_bits as nat) < 6
            * num_threads,
        3 * num_threads <= pow2(hash_bits as nat) < 6 * num_threads ==> fitting_bits(
            hash_bits,
            num_threads,
        ),
{
    lemma2_to64();
    if hash_bits > 0 {
        lemma_pow2_unfold(hash_bits as nat);
    }
}

/// Where threads are in a table that has grown: in the bucket of their key, if
/// they were in some bucket.
proof fn lemma_grown_members(lot: LotView, hash_bits: u32, now: Moment, b: int, t: usize)
    requires
        lot.valid(),
        0 <= b < pow2(hash_bits as nat),
    ensures
        lot.grown(hash_bits, now).buckets[b].queue.contains(t) <==> lot.all_queued().contains(t)
            && hash_of(lot.threads[t as int].key, hash_bits) == b,
{
    lemma_filter_members(
        lot.all_queued(),
        crate::hash_table::belongs(lot.threads, hash_bits, b),
    );
}

/// A request to make room for so many threads is met unless a bucket is locked.
/// A table with three buckets for each thread is left alone. A larger one has
/// the least power of two of buckets that is enough; these are unlocked, with
/// seeds from one on, and a fair unlock is due from the moment at which it is
/// made. Nobody is lost: the sleepers of each key are the same, in order.
pub proof fn law_room_is_made(
    before: LotView,
    after: LotView,
    num_threads: nat,
    done: bool,
    key: usize,
) -> (asked: (u64, u32))
    requires
        before.valid(),
        before.buckets.len() > 0,
        num_threads <= MAX_THREADS,
        growth(before, after, num_threads, done),
    ensures
        done <==> before.buckets.len() >= 3 * num_threads || forall|b: int|
            0 <= b < before.buckets.len() ==> !(#[trigger] before.buckets[b]).locked,
        before.buckets.len() >= 3 * num_threads || !done ==> after == before,
        after.threads == before.threads,
        after.num_threads == before.num_threads,
        after.started == before.started,
        done ==> after.buckets.len() >= 3 * num_threads,
        done && before.buckets.len() < 3 * num_threads ==> {
            &&& measured(before.started, asked.0, asked.1)
            &&& after.latest.nanos >= before.latest.nanos
            &&& after.latest.nanos >= asked.0 * 1_000_000_000 + asked.1
            &&& after.latest == before.latest || after.latest.nanos == asked.0 * 1_000_000_000
                + asked.1
            &&& after.buckets.len() == pow2(after.hash_bits as nat)
            &&& after.buckets.len() < 6 * num_threads
            &&& forall|b: int|
                0 <= b < after.buckets.len() ==> {
                    &&& !(#[trigger] after.buckets[b]).locked
                    &&& after.buckets[b].fair.timeout == after.latest
                    &&& after.buckets[b].fair.seed == b + 1
                }
            &&& forall|b: int, t: usize|
                0 <= b < after.buckets.len() ==> (#[trigger] after.buckets[b].queue.contains(t)
                    <==> after.bucket_of(after.threads[t as int].key) == b && exists|c: int|
                    0 <= c < before.buckets.len() && #[trigger] before.buckets[c].queue.contains(t))
            &&& after.buckets[after.bucket_of(key)].queue.filter(
                |t: usize| after.threads[t as int].key == key,
            ) == before.buckets[before.bucket_of(key)].queue.filter(
                |t: usize| before.threads[t as int].key == key,
            )
        },
{
    law_short_words(before, 0, 0);
    let now = choose|now: Moment| {
        let ready = #[trigger] before.with_table(now);
        &&& before.ready_at(now)
        &&& if ready.roomy(num_threads) {
            done && after == ready
        } else if ready.some_locked() {
            !done && after == ready
        } else {
            done && exists|hash_bits: u32, then: Moment|
                ready.reads(then) && fitting_bits(hash_bits, num_threads) && after
                    == #[trigger] ready.grown(hash_bits, then)
        }
    };
    if done && before.buckets.len() < 3 * num_threads {
        let (hash_bits, then) = choose|hash_bits: u32, then: Moment|
            before.reads(then) && fitting_bits(hash_bits, num_threads) && after
                == #[trigger] before.grown(hash_bits, then);
        law_growth_makes_room(before, after, num_threads, key);
        law_parked_threads_sleep_on_the_key(before, key);
        law_parked_threads_sleep_on_the_key(after, key);
        lemma2_to64();
        if hash_bits > 0 {
            lemma_pow2_unfold(hash_bits as nat);
        }
        lemma_room_bits(hash_bits, num_threads);
        assert forall|b: int, t: usize|
            0 <= b < after.buckets.len() implies (#[trigger] after.buckets[b].queue.contains(t)
            <==> after.bucket_of(after.threads[t as int].key) == b && exists|c: int|
            0 <= c < before.buckets.len() && #[trigger] before.buckets[c].queue.contains(t)) by {
            lemma_grown_members(before, hash_bits, then, b, t);
            lemma_in_some_bucket(before, t);
        }
        law_clock_reads_whole_duration(before.started, before.latest, then)
    } else {
        (0, 0)
    }
}

/// The numbers of the buckets of a fitting table fit 32 bits.
proof fn lemma_room_bits(hash_bits: u32, num_threads: nat)
    requires
        fitting_bits(hash_bits, num_threads),
        num_threads <= MAX_THREADS,
    ensures
        pow2(hash_bits as nat) <= 0x8000_0000,
{
    lemma2_to64();
    if hash_bits > 31 {
        if hash_bits > 32 {
            vstd::arithmetic::power2::lemma_pow2_strictly_increases(31, (hash_bits - 1) as nat);
        }
    } else if hash_bits < 31 {
        vstd::arithmetic::power2::lemma_pow2_strictly_increases(hash_bits as nat, 31);
    }
}

/// A thread that gets a record is awake, owns nothing and is in no deadlock. All
/// other threads stay as they were, and there is one more.
pub proof fn law_new_thread_owns_nothing(before: LotView, after: LotView, thread: usize)
    requires
        thread <= before.threads.len(),
        joining(before, after, thread),
    ensures
        after.threads.len() == if thread < before.threads.len() {
            before.threads.len()
        } else {
            before.threads.len() + 1
        },
        after.threads[thread as int].live,
        !after.threads[thread as int].parked,
        !after.threads[thread as int].parked_with_timeout,
        after.threads[thread as int].key == 0,
        after.threads[thread as int].unpark_token == UnparkToken(0),
        after.threads[thread as int].park_token == ParkToken(0),
        after.threads[thread as int].deadlock.resources.len() == 0,
        !after.threads[thread as int].deadlock.deadlocked,
        after.threads[thread as int].deadlock.report_to is None,
        identified(after.threads[thread as int].deadlock.thread_id),
        forall|t: int|
            0 <= t < before.threads.len() && t != thread ==> #[trigger] after.threads[t]
                == before.threads[t],
        after.num_threads == before.num_threads + 1,
        after.started == before.started,
{
}

/// The lock of the bucket of a key is taken if it is free, and then nothing else
/// changes. If it is held, nothing changes at all.
pub proof fn law_free_lock_is_taken(
    before: LotView,
    after: LotView,
    key: usize,
    outcome: Option<LockedBucket>,
)
    requires
        before.valid(),
        before.buckets.len() > 0,
        bucket_attempt(before, after, key, outcome),
    ensures
        ({
            let b = before.bucket_of(key);
            &&& outcome is None <==> before.buckets[b].locked
            &&& outcome is None ==> after == before
            &&& outcome matches Some(bucket) ==> {
                &&& bucket.bucket() == b
                &&& after.buckets[b].locked
                &&& after.buckets[b].queue == before.buckets[b].queue
                &&& after.buckets[b].fair == before.buckets[b].fair
            }
            &&& forall|c: int|
                0 <= c < before.buckets.len() && c != b ==> #[trigger] after.buckets[c]
                    == before.buckets[c]
        }),
        after.buckets.len() == before.buckets.len(),
        after.threads == before.threads,
        after.hash_bits == before.hash_bits,
        after.num_threads == before.num_threads,
        after.started == before.started,
        after.latest == before.latest,
{
    lemma_bucket_in_range(before, key);
}

/// The locks of the buckets of two keys are taken if both are free, and then
/// nothing else changes. If one is held, nothing changes at all.
pub proof fn law_free_locks_are_taken(
    before: LotView,
    after: LotView,
    key1: usize,
    key2: usize,
    outcome: Option<(LockedBucket, Option<LockedBucket>)>,
)
    requires
        before.valid(),
        before.buckets.len() > 0,
        pair_attempt(before, after, key1, key2, outcome),
    ensures
        ({
            let b1 = before.bucket_of(key1);
            let b2 = before.bucket_of(key2);
            &&& outcome is None <==> before.buckets[b1].locked || before.buckets[b2].locked
            &&& outcome is None ==> after == before
            &&& outcome matches Some((bucket1, bucket2)) ==> {
                &&& bucket1.bucket() == b1
                &&& bucket2 is None <==> b1 == b2
                &&& bucket2 matches Some(bucket2) ==> bucket2.bucket() == b2
                &&& after.buckets[b1].locked && after.buckets[b2].locked
            }
            &&& forall|c: int|
                0 <= c < before.buckets.len() ==> {
                    &&& (#[trigger] after.buckets[c]).queue == before.buckets[c].queue
                    &&& after.buckets[c].fair == before.buckets[c].fair
                    &&& c != b1 && c != b2 ==> after.buckets[c].locked == before.buckets[c].locked
                }
        }),
        after.buckets.len() == before.buckets.len(),
        after.threads == before.threads,
        after.hash_bits == before.hash_bits,
        after.num_threads == before.num_threads,
        after.started == before.started,
        after.latest == before.latest,
{
    lemma_bucket_in_range(before, key1);
    lemma_bucket_in_range(before, key2);
}

/// A key belongs to the bucket whose number is made of the leading bits of the
/// low word of its product with the golden ratio of the word.
pub proof fn law_hash_is_the_leading_bits(key: usize, bits: u32)
    requires
        1 <= bits <= usize::BITS,
    ensures
        ({
            let ratio = if usize::BITS == 64 {
                0x9E37_79B9_7F4A_7C15int
            } else {
                0x9E37_79B9int
            };
            let word = (key * ratio) % (pow2(usize::BITS as nat) as int);
            let unit = pow2((usize::BITS - bits) as nat) as int;
            &&& hash_of(key, bits) * unit <= word
            &&& word < (hash_of(key, bits) + 1) * unit
        }),
{
    let ratio = if usize::BITS == 64 {
        0x9E37_79B9_7F4A_7C15int
    } else {
        0x9E37_79B9int
    };
    let word = (key * ratio) % (pow2(usize::BITS as nat) as int);
    let unit = pow2((usize::BITS - bits) as nat) as int;
    lemma_pow2_pos((usize::BITS - bits) as nat);
    let hash = hash_of(key, bits);
    assert(hash == word / unit);
    assert(hash * unit <= word && word < (hash + 1) * unit) by (nonlinear_arith)
        requires
            hash == word / unit,
            unit > 0,
    ;
}

/// The generator shifts by thirteen, seventeen and five bits.
pub proof fn law_generator_shifts(seed: u32)
    ensures
        ({
            let first = seed ^ (seed << 13);
            let second = first ^ (first >> 17);
            xorshift(seed) == second ^ (second << 5)
        }),
{
}

/// An unlock is fair once the timeout lies before the moment at which the bucket
/// is asked. Then the timeout moves to less than a millisecond after that
/// moment, by the next number of the generator. Otherwise nothing changes.
pub proof fn law_fair_unlock_is_due(fair: FairTimeout, now: Moment)
    requires
        now.nanos + 1_000_000 <= u128::MAX,
    ensures
        fair.due(now) <==> now.nanos > fair.timeout.nanos,
        now.nanos > fair.timeout.nanos ==> {
            &&& after_asking(fair, now).timeout.nanos == now.nanos + xorshift(fair.seed) % 1_000_000
            &&& after_asking(fair, now).timeout.nanos < now.nanos + 1_000_000
            &&& after_asking(fair, now).seed == xorshift(fair.seed)
        },
        now.nanos <= fair.timeout.nanos ==> after_asking(fair, now) == fair,
{
}

} // verus!
