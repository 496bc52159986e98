//! What the state of the parking lot is, and what its operations make of it.
use crate::fair_timeout::FairTimeout;
use crate::hash::{hash_of, lemma_hash_in_range};
use crate::hash_table::{belongs, fresh_bucket, fresh_buckets, BucketView, LOAD_FACTOR, MAX_THREADS};
use crate::thread_data::ThreadView;
use crate::time::{clock_reads, Moment};
use crate::tokens::{ParkToken, UnparkToken};
use instant::Instant;
use vstd::arithmetic::power2::pow2;
use vstd::prelude::*;

verus! {

/// Number of hash bits of the first table.
pub const INITIAL_BITS: u32 = 4;

/// The state of the parking lot.
#[verifier::ext_equal]
pub struct LotView {
    /// The threads, by their numbers. Some may be gone.
    pub threads: Seq<ThreadView>,
    /// Number of hash bits of the table.
    pub hash_bits: u32,
    /// The buckets of the table. There are none before the first is needed.
    pub buckets: Seq<BucketView>,
    /// The number of threads that are not gone.
    pub num_threads: nat,
    /// The instant at which the clock of the lot was started. Every operation
    /// reads the time from the same clock.
    pub started: Instant,
    /// The latest moment that was read from the clock.
    pub latest: Moment,
}

/// The threads that sleep on a key.
pub open spec fn sleeps_on(threads: Seq<ThreadView>, key: usize) -> spec_fn(usize) -> bool {
    |t: usize| threads[t as int].key == key
}

/// A queue without some of its threads.
pub open spec fn without(queue: Seq<usize>, gone: Seq<usize>) -> Seq<usize> {
    queue.filter(|t: usize| !gone.contains(t))
}

/// The threads after some have been let go with a token.
pub open spec fn woken(
    threads: Seq<ThreadView>,
    gone: Seq<usize>,
    token: UnparkToken,
) -> Seq<ThreadView> {
    Seq::new(
        threads.len(),
        |i: int|
            if gone.contains(i as usize) {
                ThreadView { parked: false, unpark_token: token, ..threads[i] }
            } else {
                threads[i]
            },
    )
}

/// The threads after some have been given another key.
pub open spec fn rekeyed(
    threads: Seq<ThreadView>,
    moved: Seq<usize>,
    key: usize,
) -> Seq<ThreadView> {
    Seq::new(
        threads.len(),
        |i: int|
            if moved.contains(i as usize) {
                ThreadView { key, ..threads[i] }
            } else {
                threads[i]
            },
    )
}

/// How many threads are not gone.
pub open spec fn live_count(threads: Seq<ThreadView>) -> nat
    decreases threads.len(),
{
    if threads.len() == 0 {
        0
    } else {
        live_count(threads.drop_last()) + if threads.last().live {
            1nat
        } else {
            0nat
        }
    }
}

impl LotView {
    /// A lot that nobody has used.
    pub open spec fn empty(started: Instant) -> LotView {
        LotView {
            threads: Seq::empty(),
            hash_bits: 0,
            buckets: Seq::empty(),
            num_threads: 0,
            started,
            latest: Moment { nanos: 0 },
        }
    }

    /// Whether the clock of the lot can read `now` next.
    pub open spec fn reads(self, now: Moment) -> bool {
        now.readable() && clock_reads(self.started, self.latest, now)
    }

    /// Whether a table that is needed can be made at `now`: that is read from
    /// the clock if there is none.
    pub open spec fn ready_at(self, now: Moment) -> bool {
        now.readable() && (!self.has_table() ==> self.reads(now))
    }

    pub open spec fn has_table(self) -> bool {
        self.buckets.len() > 0
    }

    /// The bucket to which a key belongs.
    pub open spec fn bucket_of(self, key: usize) -> int {
        hash_of(key, self.hash_bits)
    }

    /// Whether a number is that of a thread which is not gone.
    pub open spec fn is_thread(self, thread: usize) -> bool {
        thread < self.threads.len() && self.threads[thread as int].live
    }

    /// The queue of a bucket.
    pub open spec fn queue(self, bucket: int) -> Seq<usize> {
        self.buckets[bucket].queue
    }

    /// The queue associated with a key: the threads that sleep on it, in the
    /// order in which they are to be woken.
    pub open spec fn parked_on(self, key: usize) -> Seq<usize> {
        if self.has_table() {
            self.queue(self.bucket_of(key)).filter(sleeps_on(self.threads, key))
        } else {
            Seq::empty()
        }
    }

    /// Whether a thread is in the queue of its key.
    pub open spec fn is_queued(self, thread: usize) -> bool {
        &&& self.has_table()
        &&& self.queue(self.bucket_of(self.threads[thread as int].key)).contains(thread)
    }

    /// Whether the lock of a bucket is held.
    pub open spec fn holds(self, bucket: int) -> bool {
        0 <= bucket < self.buckets.len() && self.buckets[bucket].locked
    }

    pub open spec fn with_bucket(self, bucket: int, value: BucketView) -> LotView {
        LotView { buckets: self.buckets.update(bucket, value), ..self }
    }

    pub open spec fn with_queue(self, bucket: int, queue: Seq<usize>) -> LotView {
        self.with_bucket(bucket, BucketView { queue, ..self.buckets[bucket] })
    }

    pub open spec fn with_lock(self, bucket: int, locked: bool) -> LotView {
        self.with_bucket(bucket, BucketView { locked, ..self.buckets[bucket] })
    }

    pub open spec fn with_fair(self, bucket: int, fair: FairTimeout) -> LotView {
        self.with_bucket(bucket, BucketView { fair, ..self.buckets[bucket] })
    }

    pub open spec fn with_thread(self, thread: usize, value: ThreadView) -> LotView {
        LotView { threads: self.threads.update(thread as int, value), ..self }
    }

    pub open spec fn with_threads(self, threads: Seq<ThreadView>) -> LotView {
        LotView { threads, ..self }
    }

    /// The lot with its first `n` buckets locked or unlocked.
    pub open spec fn with_locks_below(self, n: int, locked: bool) -> LotView {
        LotView {
            buckets: Seq::new(
                self.buckets.len(),
                |b: int|
                    if b < n {
                        BucketView { locked, ..self.buckets[b] }
                    } else {
                        self.buckets[b]
                    },
            ),
            ..self
        }
    }

    /// The lot with all buckets locked or unlocked.
    pub open spec fn with_locks(self, locked: bool) -> LotView {
        LotView {
            buckets: Seq::new(
                self.buckets.len(),
                |b: int| BucketView { locked, ..self.buckets[b] },
            ),
            ..self
        }
    }

    /// The lot with a table, which is made at `now` if there was none.
    pub open spec fn with_table(self, now: Moment) -> LotView {
        if self.has_table() {
            self
        } else {
            LotView {
                hash_bits: INITIAL_BITS,
                buckets: fresh_buckets(INITIAL_BITS, now),
                latest: now,
                ..self
            }
        }
    }

    /// The lot after a thread has gone to sleep on a key.
    pub open spec fn parked(
        self,
        thread: usize,
        key: usize,
        park_token: ParkToken,
        with_timeout: bool,
    ) -> LotView {
        self.with_thread(
            thread,
            ThreadView {
                parked: true,
                key,
                park_token,
                parked_with_timeout: with_timeout,
                ..self.threads[thread as int]
            },
        ).with_queue(self.bucket_of(key), self.queue(self.bucket_of(key)).push(thread))
    }

    /// The lot after some threads of a bucket have been let go with a token.
    pub open spec fn unparked(
        self,
        bucket: int,
        gone: Seq<usize>,
        token: UnparkToken,
    ) -> LotView {
        self.with_queue(bucket, without(self.queue(bucket), gone)).with_threads(
            woken(self.threads, gone, token),
        )
    }

    /// The lot after some threads of a bucket have moved to the end of the
    /// queue of another key.
    pub open spec fn requeued(self, from: int, moved: Seq<usize>, key_to: usize) -> LotView {
        let left = self.with_queue(from, without(self.queue(from), moved));
        let to = self.bucket_of(key_to);
        left.with_queue(to, left.queue(to) + moved).with_threads(
            rekeyed(self.threads, moved, key_to),
        )
    }

    /// The threads in the first `n` buckets, bucket by bucket.
    pub open spec fn queued_in(self, n: int) -> Seq<usize>
        decreases n,
    {
        if n <= 0 {
            Seq::empty()
        } else {
            self.queued_in(n - 1) + self.queue(n - 1)
        }
    }

    /// The threads in all buckets, bucket by bucket.
    pub open spec fn all_queued(self) -> Seq<usize> {
        self.queued_in(self.buckets.len() as int)
    }

    /// A bucket of the table that a larger number of hash bits makes of this one.
    pub open spec fn grown_bucket(self, hash_bits: u32, now: Moment, b: int) -> BucketView {
        BucketView {
            queue: self.all_queued().filter(belongs(self.threads, hash_bits, b)),
            ..fresh_bucket(now, b)
        }
    }

    /// The lot with a new table, into whose buckets all threads have moved.
    pub open spec fn grown(self, hash_bits: u32, now: Moment) -> LotView {
        LotView {
            hash_bits,
            buckets: Seq::new(
                pow2(hash_bits as nat),
                |b: int| self.grown_bucket(hash_bits, now, b),
            ),
            latest: now,
            ..self
        }
    }

    /// Whether the table is large enough for so many threads.
    pub open spec fn roomy(self, num_threads: nat) -> bool {
        self.buckets.len() >= LOAD_FACTOR * num_threads
    }

    /// Whether some bucket is locked.
    pub open spec fn some_locked(self) -> bool {
        exists|b: int| #[trigger] self.holds(b)
    }

    /// Whether every bucket is locked.
    pub open spec fn all_locked(self) -> bool {
        forall|b: int| 0 <= b < self.buckets.len() ==> #[trigger] self.holds(b)
    }

    /// The threads of a bucket are threads that sleep there.
    pub open spec fn bucket_valid(self, b: int) -> bool {
        &&& self.queue(b).no_duplicates()
        &&& self.buckets[b].fair.seed != 0
        &&& forall|i: int|
            0 <= i < self.queue(b).len() ==> {
                let t = #[trigger] self.queue(b)[i];
                &&& self.is_thread(t)
                &&& self.bucket_of(self.threads[t as int].key) == b
                &&& self.threads[t as int].parked || self.threads[t as int].deadlock.deadlocked
            }
    }

    /// A thread that stays asleep is in the queue of its key, unless the
    /// deadlock detector holds it.
    pub open spec fn thread_valid(self, t: usize) -> bool {
        let thread = self.threads[t as int];
        &&& thread.parked && !thread.deadlock.deadlocked ==> self.is_queued(t)
        &&& thread.deadlock.deadlocked ==> !thread.parked_with_timeout
    }

    /// What every operation keeps.
    pub open spec fn valid(self) -> bool {
        &&& self.has_table() ==> {
            &&& 1 <= self.hash_bits <= 31
            &&& self.buckets.len() == pow2(self.hash_bits as nat)
        }
        &&& forall|b: int| 0 <= b < self.buckets.len() ==> #[trigger] self.bucket_valid(b)
        &&& forall|t: usize| t < self.threads.len() ==> #[trigger] self.thread_valid(t)
        &&& self.num_threads == live_count(self.threads)
        &&& self.num_threads <= MAX_THREADS
    }
}

/// Every key belongs to a bucket.
pub proof fn lemma_bucket_in_range(lot: LotView, key: usize)
    requires
        lot.valid(),
        lot.has_table(),
    ensures
        0 <= lot.bucket_of(key) < lot.buckets.len(),
{
    lemma_hash_in_range(key, lot.hash_bits);
}

/// Threads that come and go the same way are as many.
pub proof fn lemma_live_count_same(before: Seq<ThreadView>, after: Seq<ThreadView>)
    requires
        before.len() == after.len(),
        forall|i: int| 0 <= i < before.len() ==> #[trigger] after[i].live == before[i].live,
    ensures
        live_count(after) == live_count(before),
    decreases before.len(),
{
    if before.len() > 0 {
        assert forall|i: int| 0 <= i < before.drop_last().len() implies #[trigger] after.drop_last()[i].live
            == before.drop_last()[i].live by {
            assert(after[i].live == before[i].live);
        }
        lemma_live_count_same(before.drop_last(), after.drop_last());
        assert(after[after.len() - 1].live == before[before.len() - 1].live);
    }
}

/// A thread that comes is one more.
pub proof fn lemma_live_count_update(threads: Seq<ThreadView>, i: int, value: ThreadView)
    requires
        0 <= i < threads.len(),
    ensures
        live_count(threads.update(i, value)) + (if threads[i].live {
            1nat
        } else {
            0nat
        }) == live_count(threads) + (if value.live {
            1nat
        } else {
            0nat
        }),
    decreases threads.len(),
{
    let after = threads.update(i, value);
    if i == threads.len() - 1 {
        assert(after.drop_last() =~= threads.drop_last());
    } else {
        assert(after.drop_last() =~= threads.drop_last().update(i, value));
        lemma_live_count_update(threads.drop_last(), i, value);
    }
}

/// The clock may go on.
pub proof fn lemma_valid_at(lot: LotView, now: Moment)
    requires
        lot.valid(),
    ensures
        (LotView { latest: now, ..lot }).valid(),
{
    let after = LotView { latest: now, ..lot };
    assert forall|b: int| 0 <= b < after.buckets.len() implies #[trigger] after.bucket_valid(b) by {
        assert(lot.bucket_valid(b));
    }
    assert forall|t: usize| t < after.threads.len() implies #[trigger] after.thread_valid(t) by {
        assert(lot.thread_valid(t));
    }
}

/// Locks may be taken and freed, and fairness timeouts may move on.
pub proof fn lemma_valid_bucket(lot: LotView, b: int, value: BucketView)
    requires
        lot.valid(),
        0 <= b < lot.buckets.len(),
        value.queue == lot.queue(b),
        value.fair.seed != 0,
    ensures
        lot.with_bucket(b, value).valid(),
{
    let after = lot.with_bucket(b, value);
    assert forall|c: int| 0 <= c < after.buckets.len() implies #[trigger] after.bucket_valid(c) by {
        assert(lot.bucket_valid(c));
        assert(after.queue(c) == lot.queue(c));
    }
    assert forall|t: usize| t < after.threads.len() implies #[trigger] after.thread_valid(t) by {
        assert(lot.thread_valid(t));
        if lot.is_queued(t) {
            lemma_bucket_in_range(lot, lot.threads[t as int].key);
        }
    }
}

} // verus!
