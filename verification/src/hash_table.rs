//! The table of buckets in which parked threads are found by their key.
use crate::fair_timeout::FairTimeout;
use crate::hash::{hash, hash_of};
use crate::lock::SafeLock;
use crate::queue::{at, lemma_linked_elsewhere, Queue};
use crate::seq_facts::{lemma_filter_members, lemma_filter_take_next};
use crate::thread_data::{views, ThreadData, ThreadView};
use crate::time::Moment;
use vstd::arithmetic::power2::{lemma2_to64, lemma_pow2_strictly_increases, lemma_pow2_unfold, pow2};
use vstd::prelude::*;

verus! {

// Even with 3x more buckets than threads, the memory overhead per thread is
// still only a few hundred bytes per thread.
pub const LOAD_FACTOR: usize = 3;

/// The largest number of threads that a table can be made for: the seeds of
/// its buckets are numbered in 32 bits.
pub const MAX_THREADS: usize = 715_827_882;

/// One bucket of the table.
pub struct Bucket {
    /// Linked list of threads waiting on this bucket
    pub(crate) queue: SafeLock<Queue>,
    /// Next time at which point be_fair should be set
    pub(crate) fair_timeout: FairTimeout,
}

/// What a bucket holds.
#[verifier::ext_equal]
pub struct BucketView {
    pub queue: Seq<usize>,
    pub locked: bool,
    pub fair: FairTimeout,
}

impl View for Bucket {
    type V = BucketView;

    open(crate) spec fn view(&self) -> BucketView {
        BucketView {
            queue: self.queue.value()@,
            locked: self.queue.is_locked(),
            fair: self.fair_timeout,
        }
    }
}

impl Bucket {
    /// The records link the threads of the bucket.
    pub open(crate) spec fn linked(self, records: Seq<ThreadData>) -> bool {
        self.queue.value().linked(records)
    }

    /// An empty bucket that is not locked.
    pub fn new(timeout: Moment, seed: u32) -> (bucket: Self)
        ensures
            bucket@ == (BucketView {
                queue: Seq::empty(),
                locked: false,
                fair: FairTimeout { timeout, seed },
            }),
            forall|records: Seq<ThreadData>| bucket.linked(records),
    {
        Bucket {
            queue: SafeLock::new(Queue::new()),
            fair_timeout: FairTimeout::new(timeout, seed),
        }
    }
}

/// The table.
pub struct HashTable {
    /// Hash buckets for the table
    pub(crate) entries: Vec<Bucket>,
    /// Number of bits used for the hash function
    pub(crate) hash_bits: u32,
}

/// The bucket at a place of a new table.
pub open spec fn fresh_bucket(now: Moment, place: int) -> BucketView {
    BucketView {
        queue: Seq::empty(),
        locked: false,
        fair: FairTimeout { timeout: now, seed: (place + 1) as u32 },
    }
}

/// The buckets of a new table.
pub open spec fn fresh_buckets(hash_bits: u32, now: Moment) -> Seq<BucketView> {
    Seq::new(pow2(hash_bits as nat), |i: int| fresh_bucket(now, i))
}

/// The least number of bits that make a table for so many threads.
pub open spec fn fitting_bits(hash_bits: u32, num_threads: nat) -> bool {
    &&& pow2(hash_bits as nat) >= LOAD_FACTOR * num_threads
    &&& hash_bits > 0 ==> pow2((hash_bits - 1) as nat) < LOAD_FACTOR * num_threads
}

/// The threads whose keys belong into a bucket.
pub open spec fn belongs(threads: Seq<ThreadView>, hash_bits: u32, bucket: int) -> spec_fn(
    usize,
) -> bool {
    |t: usize| hash_of(threads[t as int].key, hash_bits) == bucket
}

impl HashTable {
    /// What the buckets hold.
    pub open(crate) spec fn buckets(self) -> Seq<BucketView> {
        Seq::new(self.entries@.len(), |i: int| self.entries@[i]@)
    }

    /// The number of bits is that of the buckets' numbers.
    pub open(crate) spec fn sized(self) -> bool {
        &&& 1 <= self.hash_bits <= 31
        &&& self.entries@.len() == pow2(self.hash_bits as nat)
    }

    /// The records link the threads of every bucket.
    pub open(crate) spec fn linked(self, records: Seq<ThreadData>) -> bool {
        forall|b: int|
            0 <= b < self.entries@.len() ==> (#[trigger] self.entries@[b]).linked(records)
    }

    /// Every thread is in the bucket of its key.
    pub open(crate) spec fn keyed(self, records: Seq<ThreadData>) -> bool {
        forall|b: int, i: int|
            0 <= b < self.entries@.len() && 0 <= i < self.entries@[b]@.queue.len() ==> hash_of(
                records[#[trigger] self.entries@[b]@.queue[i] as int].key,
                self.hash_bits,
            ) == b
    }

    /// Makes a table for so many threads.
    pub fn new(num_threads: usize, now: Moment) -> (table: HashTable)
        requires
            num_threads <= MAX_THREADS,
        ensures
            fitting_bits(table.hash_bits(), num_threads as nat),
            table.hash_bits() <= 31,
            table.buckets() == fresh_buckets(table.hash_bits(), now),
            forall|records: Seq<ThreadData>| table.linked(records),
    {
        let wanted: usize = num_threads * LOAD_FACTOR;
        let mut new_size: usize = 1;
        let mut hash_bits: u32 = 0;
        proof {
            lemma2_to64();
        }
        while new_size < wanted
            invariant
                wanted == num_threads * LOAD_FACTOR,
                wanted <= 0x8000_0000,
                hash_bits <= 31,
                new_size == pow2(hash_bits as nat),
                hash_bits > 0 ==> pow2((hash_bits - 1) as nat) < wanted,
            decreases 31 - hash_bits,
        {
            proof {
                lemma2_to64();
                if hash_bits == 31 {
                    assert(pow2(31) == 0x8000_0000);
                }
                if hash_bits < 30 {
                    lemma_pow2_strictly_increases(hash_bits as nat, 30);
                }
                lemma_pow2_unfold((hash_bits + 1) as nat);
            }
            new_size = new_size * 2;
            hash_bits = hash_bits + 1;
        }
        proof {
            lemma2_to64();
            if hash_bits < 31 {
                lemma_pow2_strictly_increases(hash_bits as nat, 31);
            }
        }

        let mut entries: Vec<Bucket> = Vec::with_capacity(new_size);
        let mut i: usize = 0;
        while i < new_size
            invariant
                i <= new_size <= 0x8000_0000,
                entries@.len() == i,
                forall|j: int| 0 <= j < i ==> (#[trigger] entries@[j])@ == fresh_bucket(now, j),
                forall|j: int, records: Seq<ThreadData>|
                    0 <= j < i ==> #[trigger] entries@[j].linked(records),
            decreases new_size - i,
        {
            // We must ensure the seed is not zero
            entries.push(Bucket::new(now, i as u32 + 1));
            i = i + 1;
        }
        let table = HashTable { entries, hash_bits };
        assert(table.buckets() =~= fresh_buckets(hash_bits, now));
        table
    }

    /// Number of bits used for the hash function.
    pub open(crate) spec fn hash_bits(self) -> u32 {
        self.hash_bits
    }
}

/// Moves the threads of a queue into the table, each into the bucket to which
/// its key corresponds for this table. The queue itself is given up.
pub(crate) fn rehash_bucket_into(
    queue: &Queue,
    records: &mut Vec<ThreadData>,
    table: &mut HashTable,
)
    requires
        queue.linked(old(records)@),
        old(table).sized(),
        old(table).linked(old(records)@),
        old(table).keyed(old(records)@),
        forall|b: int, t: usize|
            0 <= b < old(table).entries@.len() && queue@.contains(t) ==> !(#[trigger] old(table).entries@[b]@.queue.contains(t)),
    ensures
        final(table).sized(),
        final(table).hash_bits == old(table).hash_bits,
        final(table).linked(final(records)@),
        final(table).keyed(final(records)@),
        forall|b: int|
            0 <= b < old(table).entries@.len() ==> #[trigger] final(table).buckets()[b] == (
            BucketView {
                queue: old(table).buckets()[b].queue + queue@.filter(
                    belongs(views(old(records)@), old(table).hash_bits, b),
                ),
                ..old(table).buckets()[b]
            }),
        views(final(records)@) == views(old(records)@),
        forall|t: usize|
            t < old(records)@.len() && !queue@.contains(t) && (forall|b: int|
                0 <= b < old(table).entries@.len() ==> !(#[trigger] old(table).entries@[b]@.queue.contains(t))) ==> (#[trigger] final(records)@[t as int]).next_in_queue == old(records)@[t as int].next_in_queue,
{
    let mut current = queue.head;
    let ghost mut n: int = 0;
    let ghost threads = views(records@);
    let ghost bits = table.hash_bits;
    proof {
        assert forall|b: int| 0 <= b < table.entries@.len() implies table.entries@[b]@.queue
            == #[trigger] old(table).entries@[b]@.queue + queue@.take(0).filter(
            belongs(threads, bits, b),
        ) by {
            reveal(Seq::filter);
            assert(queue@.take(0) =~= Seq::<usize>::empty());
            assert(old(table).entries@[b]@.queue =~= old(table).entries@[b]@.queue
                + Seq::<usize>::empty());
        }
    }
    while current.is_some()
        invariant
            queue.linked(old(records)@),
            0 <= n <= queue@.len(),
            current == at(queue@, n),
            records@.len() == old(records)@.len(),
            views(records@) == threads,
            threads == views(old(records)@),
            bits == old(table).hash_bits,
            forall|i: int|
                n <= i < queue@.len() ==> records@[#[trigger] queue@[i] as int].next_in_queue
                    == old(records)@[queue@[i] as int].next_in_queue,
            table.sized(),
            table.hash_bits == bits,
            table.linked(records@),
            table.keyed(records@),
            table.entries@.len() == old(table).entries@.len(),
            forall|b: int|
                0 <= b < table.entries@.len() ==> table.entries@[b]@.queue == #[trigger] old(table).entries@[b]@.queue + queue@.take(n).filter(belongs(threads, bits, b)),
            forall|b: int|
                0 <= b < table.entries@.len() ==> (#[trigger] table.entries@[b])@.locked == old(table).entries@[b]@.locked && table.entries@[b]@.fair == old(table).entries@[b]@.fair,
            forall|b: int, t: usize|
                0 <= b < old(table).entries@.len() && queue@.contains(t) ==> !(#[trigger] old(table).entries@[b]@.queue.contains(t)),
            forall|t: usize|
                t < old(records)@.len() && !queue@.contains(t) && (forall|b: int|
                    0 <= b < old(table).entries@.len() ==> !(#[trigger] old(table).entries@[b]@.queue.contains(t))) ==> (#[trigger] records@[t as int]).next_in_queue
                    == old(records)@[t as int].next_in_queue,
        decreases queue@.len() - n,
    {
        let thread = current.unwrap();
        let next = records[thread].next_in_queue;
        let key = records[thread].key;
        let hash = hash(key, table.hash_bits);
        let ghost before = table.entries@;
        let ghost records_before = records@;
        proof {
            assert(queue@.contains(queue@[n]));
            assert(threads[thread as int] == records@[thread as int]@);
            // what the table holds now is what it held at first and what has been moved
            assert forall|b: int, t: usize|
                0 <= b < before.len() && #[trigger] before[b]@.queue.contains(t) implies old(table).entries@[b]@.queue.contains(t) || queue@.take(n).contains(t) by {
                let first = old(table).entries@[b]@.queue;
                let moved = queue@.take(n).filter(belongs(threads, bits, b));
                assert(before[b]@.queue == first + moved);
                lemma_filter_members(queue@.take(n), belongs(threads, bits, b));
                let i = choose|i: int|
                    0 <= i < before[b]@.queue.len() && before[b]@.queue[i] == t;
                if i < first.len() {
                    assert(first[i] == t);
                } else {
                    assert(moved[i - first.len()] == t);
                    assert(moved.contains(t));
                }
            }
            // so it holds no thread that is still to be moved
            assert forall|b: int, i: int|
                0 <= b < before.len() && n <= i < queue@.len() implies !(
            #[trigger] before[b]@.queue.contains(#[trigger] queue@[i])) by {
                assert(queue@.contains(queue@[i]));
                if before[b]@.queue.contains(queue@[i]) {
                    assert(!old(table).entries@[b]@.queue.contains(queue@[i]));
                    assert(queue@.take(n).contains(queue@[i]));
                    let j = choose|j: int|
                        0 <= j < queue@.take(n).len() && queue@.take(n)[j] == queue@[i];
                    assert(queue@[j] == queue@[i]);
                }
            }
        }
        table.entries[hash].queue.get_mut().push_back(records, thread);
        proof {
            let pushed = table.entries@[hash as int]@.queue;
            assert(pushed == before[hash as int]@.queue.push(thread));
            assert forall|t: usize| #[trigger] pushed.contains(t) implies t == thread
                || before[hash as int]@.queue.contains(t) by {
                let i = choose|i: int| 0 <= i < pushed.len() && pushed[i] == t;
                if i < before[hash as int]@.queue.len() {
                    assert(before[hash as int]@.queue[i] == t);
                }
            }
            assert(views(records@) =~= threads);
            // the other buckets are as they were
            assert forall|b: int| 0 <= b < table.entries@.len() implies (
            #[trigger] table.entries@[b]).linked(records@) by {
                if b != hash {
                    let other = table.entries@[b].queue.value();
                    assert(table.entries@[b] == before[b]);
                    assert(other.linked(records_before));
                    assert forall|i: int| 0 <= i < other@.len() implies records@[#[trigger] other@[i] as int].next_in_queue
                        == records_before[other@[i] as int].next_in_queue by {
                        assert(hash_of(
                            records_before[before[b]@.queue[i] as int].key,
                            table.hash_bits,
                        ) == b);
                        if pushed.contains(other@[i]) {
                            if other@[i] == thread {
                                assert(before[b]@.queue.contains(queue@[n]));
                            } else {
                                let j = choose|j: int|
                                    0 <= j < before[hash as int]@.queue.len()
                                        && before[hash as int]@.queue[j] == other@[i];
                                assert(hash_of(
                                    records_before[before[hash as int]@.queue[j] as int].key,
                                    table.hash_bits,
                                ) == hash);
                            }
                        }
                    }
                    lemma_linked_elsewhere(other, records_before, records@);
                }
            }
            assert forall|b: int, i: int|
                0 <= b < table.entries@.len() && 0 <= i
                    < table.entries@[b]@.queue.len() implies hash_of(
                records@[#[trigger] table.entries@[b]@.queue[i] as int].key,
                table.hash_bits,
            ) == b by {
                let t = table.entries@[b]@.queue[i];
                if b != hash {
                    assert(t == before[b]@.queue[i]);
                    assert(before[b].linked(records_before));
                } else if i < before[b]@.queue.len() {
                    assert(t == before[b]@.queue[i]);
                    assert(before[b].linked(records_before));
                } else {
                    assert(t == thread);
                }
                assert(records@[t as int]@ == records_before[t as int]@);
            }
            assert forall|i: int| n + 1 <= i < queue@.len() implies records@[#[trigger] queue@[i] as int].next_in_queue
                == old(records)@[queue@[i] as int].next_in_queue by {
                assert(queue@[i] != queue@[n]);
                assert(!before[hash as int]@.queue.contains(queue@[i]));
                assert(!pushed.contains(queue@[i]));
            }
            assert forall|b: int| 0 <= b < table.entries@.len() implies table.entries@[b]@.queue
                == #[trigger] old(table).entries@[b]@.queue + queue@.take(n + 1).filter(
                belongs(threads, bits, b),
            ) by {
                lemma_filter_take_next(queue@, n, belongs(threads, bits, b));
                assert(before[b]@.queue == old(table).entries@[b]@.queue + queue@.take(n).filter(
                    belongs(threads, bits, b),
                ));
                if b == hash {
                    assert(table.entries@[b]@.queue =~= old(table).entries@[b]@.queue
                        + queue@.take(n + 1).filter(belongs(threads, bits, b)));
                } else {
                    assert(table.entries@[b] == before[b]);
                }
            }
            assert forall|t: usize|
                t < old(records)@.len() && !queue@.contains(t) && (forall|b: int|
                    0 <= b < old(table).entries@.len() ==> !(#[trigger] old(table).entries@[b]@.queue.contains(t))) implies (
            #[trigger] records@[t as int]).next_in_queue == old(records)@[t as int].next_in_queue by {
                if pushed.contains(t) {
                    assert(before[hash as int]@.queue.contains(t));
                    assert(!old(table).entries@[hash as int]@.queue.contains(t));
                    assert(queue@.take(n).contains(t));
                    let j = choose|j: int| 0 <= j < queue@.take(n).len() && queue@.take(n)[j] == t;
                    assert(queue@[j] == t);
                }
                assert(records_before[t as int].next_in_queue == old(records)@[t as int].next_in_queue);
            }
            n = n + 1;
        }
        current = next;
    }
    proof {
        assert(queue@.take(n) =~= queue@);
        assert forall|b: int| 0 <= b < old(table).entries@.len() implies #[trigger] table.buckets()[b]
            == (BucketView {
            queue: old(table).buckets()[b].queue + queue@.filter(belongs(threads, bits, b)),
            ..old(table).buckets()[b]
        }) by {
            assert(table.entries@[b]@.queue == old(table).entries@[b]@.queue + queue@.take(
                n,
            ).filter(belongs(threads, bits, b)));
        }
    }
}

} // verus!
