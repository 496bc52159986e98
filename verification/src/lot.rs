//! The parking lot: the threads, and the table in which those that are parked
//! are found.
//!
//! Each method is one step of one thread. A step never waits: where a lock is
//! held, it says so and changes nothing, and the caller tries again later.
use crate::deadlock_data::identified;
use crate::hash_table::{belongs, fitting_bits, fresh_bucket, rehash_bucket_into, LOAD_FACTOR, MAX_THREADS, BucketView, HashTable};
use crate::locking::LockedHashTable;
use crate::model::{lemma_live_count_update, LotView, INITIAL_BITS};
use crate::queue::lemma_linked_elsewhere;
use crate::seq_facts::lemma_filter_members;
use crate::thread_data::{fresh_thread, views, ThreadData, ThreadView};
use crate::time::{observed, Clock, Moment};
use crate::validity::{lemma_in_queue, lemma_queued_is_thread, lemma_queued_in, lemma_valid_grown, lemma_valid_with_table};
use vstd::arithmetic::power2::{lemma2_to64, lemma_pow2_pos, lemma_pow2_strictly_increases};
use vstd::prelude::*;

verus! {

/// A parking lot.
pub struct ParkingLot {
    /// The records of the threads, by their numbers.
    pub(crate) records: Vec<ThreadData>,
    /// The currently active table, once there is one.
    pub(crate) table: Option<HashTable>,
    /// The number of records that belong to a thread.
    pub(crate) num_threads: usize,
    pub(crate) clock: Clock,
}

impl View for ParkingLot {
    type V = LotView;

    open(crate) spec fn view(&self) -> LotView {
        LotView {
            threads: views(self.records@),
            hash_bits: match self.table {
                Some(table) => table.hash_bits,
                None => 0,
            },
            buckets: match self.table {
                Some(table) => table.buckets(),
                None => Seq::empty(),
            },
            num_threads: self.num_threads as nat,
            started: self.clock.starting_instant(),
            latest: self.clock.latest_reading(),
        }
    }
}

impl ParkingLot {
    /// The records link the threads of every bucket.
    pub open(crate) spec fn linked(self) -> bool {
        self.table matches Some(table) ==> table.entries@.len() > 0 && table.linked(self.records@)
    }

    /// The lot is well formed.
    pub open(crate) spec fn wf(self) -> bool {
        &&& self.linked()
        &&& self@.valid()
    }

    /// A lot that nobody has used.
    pub fn new() -> (lot: Self)
        ensures
            lot.wf(),
            lot@ == LotView::empty(lot@.started),
            observed(lot@.started),
    {
        let lot = ParkingLot {
            records: Vec::new(),
            table: None,
            num_threads: 0,
            clock: Clock::start(),
        };
        assert(lot@ =~= LotView::empty(lot@.started));
        lot
    }

    /// Sees to it that there is a table, and makes one if there is none yet.
    pub fn get_hashtable(&mut self)
        requires
            old(self).wf(),
        ensures
            final(self).wf(),
            final(self)@.has_table(),
            exists|now: Moment|
                old(self)@.ready_at(now) && final(self)@ == #[trigger] old(self)@.with_table(now),
    {
        // If there is no table, create one
        if self.table.is_none() {
            self.create_hashtable();
        } else {
            assert(self@ == old(self)@.with_table(Moment { nanos: 0 }));
        }
    }

    /// Makes a table and puts it to use. If another table is in use by then,
    /// that one stays and the new one is dropped.
    pub fn create_hashtable(&mut self)
        requires
            old(self).wf(),
        ensures
            final(self).wf(),
            final(self)@.has_table(),
            exists|now: Moment|
                old(self)@.ready_at(now) && final(self)@ == #[trigger] old(self)@.with_table(now),
    {
        let now = self.clock.reading();
        let new_table = HashTable::new(LOAD_FACTOR, now);
        proof {
            lemma2_to64();
            if new_table.hash_bits > 4 {
                if new_table.hash_bits > 5 {
                    lemma_pow2_strictly_increases(4, (new_table.hash_bits - 1) as nat);
                }
            } else if new_table.hash_bits < 4 {
                if new_table.hash_bits < 3 {
                    lemma_pow2_strictly_increases(new_table.hash_bits as nat, 3);
                }
            }
            assert(new_table.hash_bits == INITIAL_BITS);
            lemma_valid_with_table(self@, now);
        }
        if self.table.is_none() {
            self.table = Some(new_table);
            self.clock.note(now);
        }
        assert(self@ =~= old(self)@.with_table(now));
    }
}

/// How a request to make room for so many threads may end. The table is made
/// first if there is none. It is left alone where it is large enough. Else it
/// is replaced by one of fitting size, unless a bucket is locked.
pub open spec fn growth(before: LotView, after: LotView, num_threads: nat, done: bool) -> bool {
    exists|now: Moment| {
        let ready = #[trigger] before.with_table(now);
        &&& before.ready_at(now)
        &&& if ready.roomy(num_threads) {
            done && after == ready
        } else if ready.some_locked() {
            !done && after == ready
        } else {
            done && exists|hash_bits: u32, then: Moment|
                ready.reads(then) && fitting_bits(hash_bits, num_threads) && after
                    == #[trigger] ready.grown(hash_bits, then)
        }
    }
}

impl ParkingLot {
    /// Grow the hash table so that it is big enough for the given number of threads.
    /// Says whether it is big enough now: it cannot be replaced while a bucket
    /// is locked.
    pub fn grow_hashtable(&mut self, num_threads: usize) -> (done: bool)
        requires
            old(self).wf(),
            num_threads <= MAX_THREADS,
        ensures
            final(self).wf(),
            final(self)@.has_table(),
            growth(old(self)@, final(self)@, num_threads as nat, done),
            done ==> final(self)@.roomy(num_threads as nat),
            final(self)@.threads == old(self)@.threads,
            final(self)@.num_threads == old(self)@.num_threads,
    {
        self.get_hashtable();
        let ghost ready = self@;

        // Check if we need to resize the existing table
        let size = match &self.table {
            Some(table) => table.entries.len(),
            None => 0,
        };
        if size >= LOAD_FACTOR * num_threads {
            return true;
        }
        // Lock all buckets in the existing table

        match self.lock_all_queues() {
            None => {
                return false;
            },
            Some(locked) => {
                assert forall|b: int| 0 <= b < self@.buckets.len() implies #[trigger] self@.holds(
                    b,
                ) by {}
                self.replace_table(locked, num_threads);
            },
        }
        proof {
            let (hash_bits, then) = choose|hash_bits: u32, then: Moment|
                ready.reads(then) && fitting_bits(hash_bits, num_threads as nat) && self@ == #[trigger] ready.with_locks(
                    true,
                ).grown(hash_bits, then);
            assert(ready.with_locks(true).grown(hash_bits, then) =~= ready.grown(hash_bits, then))
                by {
                lemma_grown_ignores_locks(ready, hash_bits, then);
            }
        }
        true
    }

    /// Replaces the table, all of whose buckets are locked, by a new one for
    /// so many threads. The locks of the old table end with it.
    pub(crate) fn replace_table(&mut self, locked: LockedHashTable, num_threads: usize)
        requires
            old(self).wf(),
            old(self)@.has_table(),
            locked.size() == old(self)@.buckets.len(),
            old(self)@.all_locked(),
            num_threads <= MAX_THREADS,
            !old(self)@.roomy(num_threads as nat),
        ensures
            final(self).wf(),
            final(self)@.has_table(),
            final(self)@.roomy(num_threads as nat),
            exists|hash_bits: u32, then: Moment|
                old(self)@.reads(then) && fitting_bits(hash_bits, num_threads as nat) && final(self)@ == #[trigger] old(
                    self,
                )@.grown(hash_bits, then),
    {
        // Create the new table
        let now = self.clock.reading();
        let mut new_table = HashTable::new(num_threads, now);
        let ghost lot = self@;
        let ghost bits = new_table.hash_bits;
        proof {
            lemma_pow2_pos(bits as nat);
            lemma2_to64();
            assert(lot.buckets.len() >= 1);
            assert(bits > 0);
            assert(new_table.buckets().len() == new_table.entries@.len());
            lemma_valid_grown(lot, bits, now);
            assert forall|b: int| 0 <= b < new_table.entries@.len() implies (
            #[trigger] new_table.entries@[b])@ == (BucketView {
                queue: lot.queued_in(0).filter(
                    belongs(lot.threads, bits, b),
                ),
                ..fresh_bucket(now, b)
            }) by {
                reveal(Seq::filter);
                assert(new_table.buckets()[b] == new_table.entries@[b]@);
            }
        }
        // Move the entries from the old table to the new one
        match &self.table {
            None => {},
            Some(old_table) => {
                let mut b: usize = 0;
                while b < old_table.entries.len()
                    invariant
                        b <= old_table.entries@.len(),
                        lot == old(self)@,
                        self.num_threads == old(self).num_threads,
                        self.clock == old(self).clock,
                        lot.valid(),
                        lot.has_table(),
                        lot.buckets == old_table.buckets(),
                        lot.hash_bits == old_table.hash_bits,
                        lot.threads == views(self.records@),
                        bits == new_table.hash_bits,
                        new_table.sized(),
                        new_table.linked(self.records@),
                        new_table.keyed(self.records@),
                        forall|i: int|
                            b <= i < old_table.entries@.len() ==> (
                            #[trigger] old_table.entries@[i]).linked(self.records@),
                        forall|i: int|
                            0 <= i < new_table.entries@.len() ==> (
                            #[trigger] new_table.entries@[i])@ == (BucketView {
                                queue: lot.queued_in(b as int).filter(
                                    belongs(lot.threads, bits, i),
                                ),
                                ..fresh_bucket(now, i)
                            }),
                    decreases old_table.entries@.len() - b,
                {
                    let ghost before = new_table.entries@;
                    let ghost records_before = self.records@;
                    let ghost queue = lot.queue(b as int);
                    proof {
                        assert(old_table.entries@[b as int].linked(self.records@));
                        lemma_queued_in(lot, b as int);
                        assert forall|c: int, t: usize|
                            0 <= c < before.len() && lot.queued_in(b as int).contains(
                                t,
                            ) == false implies !(#[trigger] before[c]@.queue.contains(t)) by {
                            lemma_filter_members(
                                lot.queued_in(b as int),
                                belongs(lot.threads, bits, c),
                            );
                        }
                        assert forall|c: int, t: usize|
                            0 <= c < before.len() && queue.contains(t) implies !(
                        #[trigger] before[c]@.queue.contains(t)) by {
                            lemma_in_queue(lot, b as int, t);
                            assert(!lot.queued_in(b as int).contains(t));
                        }
                    }
                    rehash_bucket_into(
                        &old_table.entries[b].queue.data,
                        &mut self.records,
                        &mut new_table,
                    );
                    proof {
                        assert forall|i: int|
                            b + 1 <= i < old_table.entries@.len() implies (
                        #[trigger] old_table.entries@[i]).linked(self.records@) by {
                            let other = old_table.entries@[i].queue.value();
                            assert(old_table.entries@[i].linked(records_before));
                            assert forall|j: int| 0 <= j < other@.len() implies self.records@[#[trigger] other@[j] as int].next_in_queue
                                == records_before[other@[j] as int].next_in_queue by {
                                let t = other@[j];
                                assert(lot.queue(i) == other@);
                                assert(lot.queue(i).contains(t));
                                lemma_in_queue(lot, i, t);
                                assert(!queue.contains(t)) by {
                                    if queue.contains(t) {
                                        lemma_in_queue(lot, b as int, t);
                                    }
                                }
                                assert(!lot.queued_in(b as int).contains(t));
                            }
                            lemma_linked_elsewhere(other, records_before, self.records@);
                        }
                        assert forall|i: int| 0 <= i < new_table.entries@.len() implies (
                        #[trigger] new_table.entries@[i])@ == (BucketView {
                            queue: lot.queued_in(b + 1).filter(
                                belongs(lot.threads, bits, i),
                            ),
                            ..fresh_bucket(now, i)
                        }) by {
                            let here = belongs(lot.threads, bits, i);
                            Seq::filter_distributes_over_add(
                                lot.queued_in(b as int),
                                queue,
                                here,
                            );
                            assert(new_table.buckets()[i] == new_table.entries@[i]@);
                            assert(before[i]@ == (BucketView {
                                queue: lot.queued_in(b as int).filter(here),
                                ..fresh_bucket(now, i)
                            }));
                        }
                    }
                    b = b + 1;
                }
            },
        }
        // Publish the new table
        self.table = Some(new_table);
        self.clock.note(now);
        assert(self@ =~= lot.grown(bits, now));
    }
}

proof fn lemma_grown_ignores_locks(lot: LotView, hash_bits: u32, now: Moment)
    ensures
        lot.with_locks(true).grown(hash_bits, now) == lot.grown(hash_bits, now),
{
    lemma_queued_ignores_locks(lot, lot.buckets.len() as int);
    assert(lot.with_locks(true).grown(hash_bits, now) =~= lot.grown(hash_bits, now));
}

pub(crate) proof fn lemma_queued_ignores_locks(lot: LotView, n: int)
    requires
        n <= lot.buckets.len(),
    ensures
        lot.with_locks(true).queued_in(n) == lot.queued_in(n),
    decreases n,
{
    if n > 0 {
        lemma_queued_ignores_locks(lot, n - 1);
    }
}

/// The lot after a thread has got a record with the given number.
pub open spec fn joined(lot: LotView, thread: usize, thread_id: usize) -> LotView {
    let value = fresh_thread(thread_id);
    LotView {
        threads: if thread < lot.threads.len() {
            lot.threads.update(thread as int, value)
        } else {
            lot.threads.push(value)
        },
        num_threads: lot.num_threads + 1,
        ..lot
    }
}

/// How a thread gets its record: the table grows if it has to.
pub open spec fn joining(before: LotView, after: LotView, thread: usize) -> bool {
    exists|grown: LotView, thread_id: usize|
        identified(thread_id) && growth(before, grown, before.num_threads + 1, true) && after
            == #[trigger] joined(grown, thread, thread_id)
}

impl ParkingLot {
    /// Gives the calling thread a record and returns its number, once there is
    /// room for one more thread. There is none while the table has to grow and
    /// a bucket is locked.
    pub fn new_thread(&mut self) -> (number: Option<usize>)
        requires
            old(self).wf(),
            old(self)@.num_threads < MAX_THREADS,
        ensures
            final(self).wf(),
            final(self)@.has_table(),
            number is None ==> growth(old(self)@, final(self)@, old(self)@.num_threads + 1, false),
            number matches Some(thread) ==> thread <= old(self)@.threads.len(),
            number matches Some(thread) ==> !old(self)@.is_thread(thread),
            number is Some ==> final(self)@.roomy(final(self)@.num_threads),
            number matches Some(thread) ==> joining(old(self)@, final(self)@, thread),
    {
        // Keep track of the total number of live ThreadData objects and resize
        // the hash table accordingly.
        let num_threads = self.num_threads + 1;
        if !self.grow_hashtable(num_threads) {
            return None;
        }
        let ghost lot = self@;
        self.num_threads = num_threads;
        let data = ThreadData::new();
        let ghost thread_id = data@.deadlock.thread_id;
        let mut thread: usize = 0;
        while thread < self.records.len() && self.records[thread].live
            invariant
                thread <= self.records@.len(),
            decreases self.records@.len() - thread,
        {
            thread = thread + 1;
        }
        let ghost before = self.records@;
        proof {
            assert(!lot.is_thread(thread)) by {
                if thread < before.len() {
                    assert(lot.threads[thread as int] == before[thread as int]@);
                }
            }
            lemma_valid_joined(lot, thread, thread_id);
        }
        if thread < self.records.len() {
            self.records[thread] = data;
        } else {
            self.records.push(data);
        }
        proof {
            assert(self@ =~= joined(lot, thread, thread_id));
            assert forall|t: usize| t < before.len() && lot.is_queued(t) implies (
            #[trigger] self.records@[t as int]).next_in_queue == before[t as int].next_in_queue by {
                lemma_queued_is_thread(lot, t);
            }
            self.lemma_stays_linked(before, lot);
            assert(joining(old(self)@, self@, thread));
        }
        Some(thread)
    }

    /// The number of threads that have a record.
    pub fn num_threads(&self) -> (num_threads: usize)
        requires
            self.wf(),
        ensures
            num_threads == self@.num_threads,
    {
        self.num_threads
    }

    /// Gives up the record of a thread that is in no queue.
    pub fn drop_thread(&mut self, thread: usize)
        requires
            old(self).wf(),
            old(self)@.is_thread(thread),
            !old(self)@.is_queued(thread),
        ensures
            final(self).wf(),
            final(self)@ == (LotView {
                threads: old(self)@.threads.update(
                    thread as int,
                    ThreadView { live: false, ..old(self)@.threads[thread as int] },
                ),
                num_threads: (old(self)@.num_threads - 1) as nat,
                ..old(self)@
            }),
    {
        let ghost lot = self@;
        let ghost before = self.records@;
        proof {
            assert(lot.threads[thread as int] == before[thread as int]@);
            lemma_valid_left(lot, thread);
        }
        self.records[thread].live = false;
        self.num_threads = self.num_threads - 1;
        proof {
            assert(self@ =~= LotView {
                threads: lot.threads.update(
                    thread as int,
                    ThreadView { live: false, ..lot.threads[thread as int] },
                ),
                num_threads: (lot.num_threads - 1) as nat,
                ..lot
            });
            self.lemma_stays_linked(before, lot);
        }
    }

    /// Buckets stay linked while the links of their threads stay.
    pub(crate) proof fn lemma_stays_linked(self, before: Seq<ThreadData>, lot: LotView)
        requires
            lot.valid(),
            lot.buckets == self@.buckets,
            lot.threads.len() == before.len(),
            before.len() <= self.records@.len(),
            self.table matches Some(table) ==> table.entries@.len() > 0 && table.linked(before),
            forall|t: usize|
                t < before.len() && lot.is_queued(t) ==> (
                #[trigger] self.records@[t as int]).next_in_queue
                    == before[t as int].next_in_queue,
        ensures
            self.linked(),
    {
        if let Some(table) = self.table {
            assert forall|b: int| 0 <= b < table.entries@.len() implies (
            #[trigger] table.entries@[b]).linked(self.records@) by {
                let queue = table.entries@[b].queue.value();
                assert(table.entries@[b].linked(before));
                assert(lot.buckets[b] == table.entries@[b]@);
                assert forall|i: int| 0 <= i < queue@.len() implies self.records@[#[trigger] queue@[i] as int].next_in_queue
                    == before[queue@[i] as int].next_in_queue by {
                    assert(lot.queue(b).contains(queue@[i]));
                    lemma_in_queue(lot, b, queue@[i]);
                }
                lemma_linked_elsewhere(queue, before, self.records@);
            }
        }
    }
}

proof fn lemma_valid_joined(lot: LotView, thread: usize, thread_id: usize)
    requires
        lot.valid(),
        thread <= lot.threads.len(),
        !lot.is_thread(thread),
        lot.num_threads < MAX_THREADS,
    ensures
        joined(lot, thread, thread_id).valid(),
{
    let after = joined(lot, thread, thread_id);
    assert forall|b: int| 0 <= b < after.buckets.len() implies #[trigger] after.bucket_valid(b) by {
        assert(lot.bucket_valid(b));
        assert(after.queue(b) == lot.queue(b));
        assert forall|i: int| 0 <= i < after.queue(b).len() implies ({
            let t = #[trigger] after.queue(b)[i];
            &&& after.is_thread(t)
            &&& after.bucket_of(after.threads[t as int].key) == b
            &&& after.threads[t as int].parked || after.threads[t as int].deadlock.deadlocked
        }) by {
            let t = lot.queue(b)[i];
            assert(lot.is_thread(t));
            assert(t != thread);
            assert(after.threads[t as int] == lot.threads[t as int]);
        }
    }
    assert forall|t: usize| t < after.threads.len() implies #[trigger] after.thread_valid(t) by {
        if t != thread {
            assert(lot.thread_valid(t));
            assert(after.threads[t as int] == lot.threads[t as int]);
        }
    }
    if thread < lot.threads.len() {
        lemma_live_count_update(lot.threads, thread as int, fresh_thread(thread_id));
    } else {
        assert(after.threads.drop_last() =~= lot.threads);
    }
}

proof fn lemma_valid_left(lot: LotView, thread: usize)
    requires
        lot.valid(),
        lot.is_thread(thread),
        !lot.is_queued(thread),
    ensures
        lot.num_threads > 0,
        (LotView {
            threads: lot.threads.update(
                thread as int,
                ThreadView { live: false, ..lot.threads[thread as int] },
            ),
            num_threads: (lot.num_threads - 1) as nat,
            ..lot
        }).valid(),
{
    let value = ThreadView { live: false, ..lot.threads[thread as int] };
    lemma_live_count_update(lot.threads, thread as int, value);
    let after = LotView {
        threads: lot.threads.update(thread as int, value),
        num_threads: (lot.num_threads - 1) as nat,
        ..lot
    };
    assert forall|b: int| 0 <= b < after.buckets.len() implies #[trigger] after.bucket_valid(b) by {
        assert(lot.bucket_valid(b));
        assert(after.queue(b) == lot.queue(b));
        assert forall|i: int| 0 <= i < after.queue(b).len() implies ({
            let t = #[trigger] after.queue(b)[i];
            &&& after.is_thread(t)
            &&& after.bucket_of(after.threads[t as int].key) == b
            &&& after.threads[t as int].parked || after.threads[t as int].deadlock.deadlocked
        }) by {
            let t = lot.queue(b)[i];
            assert(lot.queue(b).contains(t));
            lemma_in_queue(lot, b, t);
            assert(t != thread);
        }
    }
    assert forall|t: usize| t < after.threads.len() implies #[trigger] after.thread_valid(t) by {
        assert(lot.thread_valid(t));
    }
}

} // verus!
