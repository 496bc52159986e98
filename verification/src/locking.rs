//! The locks of the buckets.
//!
//! Which bucket has to be locked follows from the table, which may be replaced
//! while nobody holds a lock in it. So a caller who could not have a lock asks
//! again from the start: the bucket may be another one by then.
use crate::hash::hash;
use crate::hash_table::BucketView;
use crate::lot::ParkingLot;
use crate::model::{lemma_valid_bucket, LotView};
use crate::time::Moment;
use crate::validity::lemma_valid_with_locks;
use vstd::prelude::*;

verus! {

/// A bucket whose lock its owner holds. The lock is freed by the operation to
/// which the value is given, or by `unlock_bucket`.
#[must_use]
pub struct LockedBucket {
    pub(crate) index: usize,
}

impl LockedBucket {
    /// The number of the bucket.
    pub open(crate) spec fn bucket(self) -> int {
        self.index as int
    }
}

/// A table all of whose locks its owner holds.
#[must_use]
pub struct LockedHashTable {
    pub(crate) size: usize,
}

impl LockedHashTable {
    /// The number of buckets that were locked.
    pub open(crate) spec fn size(self) -> nat {
        self.size as nat
    }
}

impl LockedBucket {
    /// Locks the bucket with the given number, if its lock is free.
    pub fn new(lot: &mut ParkingLot, index: usize) -> (bucket: Option<LockedBucket>)
        requires
            old(lot).wf(),
            index < old(lot)@.buckets.len(),
        ensures
            final(lot).wf(),
            bucket is None <==> old(lot)@.holds(index as int),
            bucket is None ==> final(lot)@ == old(lot)@,
            bucket matches Some(bucket) ==> bucket.bucket() == index,
            bucket is Some ==> final(lot)@ == old(lot)@.with_lock(index as int, true),
    {
        proof {
            assert(lot@.bucket_valid(index as int));
            lemma_valid_bucket(
                lot@,
                index as int,
                BucketView { locked: true, ..lot@.buckets[index as int] },
            );
        }
        let mut acquired: bool = false;
        match &mut lot.table {
            None => {},
            Some(table) => {
                acquired = table.entries[index].queue.lock();
            },
        }
        assert(lot@ =~= old(lot)@.with_lock(index as int, true));
        if acquired {
            Some(LockedBucket { index })
        } else {
            assert(lot@ =~= old(lot)@);
            None
        }
    }
}

impl ParkingLot {
    /// Frees the lock of a bucket.
    pub fn unlock_bucket(&mut self, bucket: LockedBucket)
        requires
            old(self).wf(),
            old(self)@.holds(bucket.bucket()),
        ensures
            final(self).wf(),
            final(self)@ == old(self)@.with_lock(bucket.bucket(), false),
    {
        proof {
            assert(self@.bucket_valid(bucket.bucket()));
            lemma_valid_bucket(
                self@,
                bucket.bucket(),
                BucketView { locked: false, ..self@.buckets[bucket.bucket()] },
            );
        }
        match &mut self.table {
            None => {},
            Some(table) => {
                table.entries[bucket.index].queue.unlock();
            },
        }
        assert(self@ =~= old(self)@.with_lock(bucket.bucket(), false));
    }
}

impl ParkingLot {
    /// Locks all buckets of the table, if none of them is locked.
    pub fn lock_all_queues(&mut self) -> (locked: Option<LockedHashTable>)
        requires
            old(self).wf(),
        ensures
            final(self).wf(),
            locked is None <==> old(self)@.some_locked(),
            locked is None ==> final(self)@ == old(self)@,
            locked matches Some(locked) ==> locked.size() == old(self)@.buckets.len() && final(self)@ == old(self)@.with_locks(true),
    {
        let size = match &self.table {
            None => 0,
            Some(table) => table.entries.len(),
        };
        let mut b: usize = 0;
        while b < size
            invariant
                size == self@.buckets.len(),
                b <= size,
                *self == *old(self),
                old(self).wf(),
                forall|c: int| 0 <= c < b ==> !(#[trigger] self@.holds(c)),
            decreases size - b,
        {
            let locked = match &self.table {
                None => false,
                Some(table) => table.entries[b].queue.locked,
            };
            if locked {
                assert(self@.holds(b as int));
                return None;
            }
            assert(!self@.holds(b as int));
            b = b + 1;
        }
        proof {
            lemma_valid_with_locks(self@, true);
        }
        let mut b: usize = 0;
        while b < size
            invariant
                size == old(self)@.buckets.len(),
                b <= size,
                self.linked(),
                size == self@.buckets.len(),
                self@ == old(self)@.with_locks_below(b as int, true),
            decreases size - b,
        {
            let ghost before = self@;
            match &mut self.table {
                None => {},
                Some(table) => {
                    table.entries[b].queue.lock();
                },
            }
            assert(self@ =~= before.with_lock(b as int, true));
            b = b + 1;
            assert(self@ =~= old(self)@.with_locks_below(b as int, true));
        }
        assert(self@ =~= old(self)@.with_locks(true));
        Some(LockedHashTable { size })
    }
}

/// The outcome of an attempt to lock the bucket of a key.
pub open spec fn bucket_attempt(
    before: LotView,
    after: LotView,
    key: usize,
    outcome: Option<LockedBucket>,
) -> bool {
    exists|now: Moment| {
        let ready = #[trigger] before.with_table(now);
        let b = ready.bucket_of(key);
        &&& before.ready_at(now)
        &&& match outcome {
            Some(bucket) => !ready.holds(b) && bucket.bucket() == b && after == ready.with_lock(
                b,
                true,
            ),
            None => ready.holds(b) && after == ready,
        }
    }
}

/// The outcome of an attempt to lock the buckets of a pair of keys. If both
/// keys belong to the same bucket, there is no second one.
pub open spec fn pair_attempt(
    before: LotView,
    after: LotView,
    key1: usize,
    key2: usize,
    outcome: Option<(LockedBucket, Option<LockedBucket>)>,
) -> bool {
    exists|now: Moment| {
        let ready = #[trigger] before.with_table(now);
        let b1 = ready.bucket_of(key1);
        let b2 = ready.bucket_of(key2);
        &&& before.ready_at(now)
        &&& match outcome {
            Some((bucket1, bucket2)) => {
                &&& !ready.holds(b1) && !ready.holds(b2)
                &&& bucket1.bucket() == b1
                &&& bucket2 is None <==> b1 == b2
                &&& bucket2 matches Some(bucket2) ==> bucket2.bucket() == b2
                &&& after == ready.with_lock(b1, true).with_lock(b2, true)
            },
            None => (ready.holds(b1) || ready.holds(b2)) && after == ready,
        }
    }
}

impl ParkingLot {
    /// The number of the bucket to which a key belongs.
    pub(crate) fn bucket_index(&self, key: usize) -> (index: usize)
        requires
            self.wf(),
            self@.has_table(),
        ensures
            index == self@.bucket_of(key),
            index < self@.buckets.len(),
    {
        match &self.table {
            None => 0,
            Some(table) => hash(key, table.hash_bits),
        }
    }

    /// Locks the bucket for the given key, if its lock is free.
    pub fn lock_bucket(&mut self, key: usize) -> (bucket: Option<LockedBucket>)
        requires
            old(self).wf(),
        ensures
            final(self).wf(),
            bucket_attempt(old(self)@, final(self)@, key, bucket),
            bucket matches Some(bucket) ==> final(self)@.holds(bucket.bucket()),
            bucket matches Some(bucket) ==> bucket.bucket() == final(self)@.bucket_of(key),
    {
        self.get_hashtable();
        let index = self.bucket_index(key);
        LockedBucket::new(self, index)
    }

    /// Locks the bucket for the key on which a thread sleeps, if its lock is
    /// free. The key may be another than the one on which the thread went to
    /// sleep, due to a requeue: it is returned together with the bucket.
    pub fn lock_bucket_checked(&mut self, thread: usize) -> (bucket: Option<(usize, LockedBucket)>)
        requires
            old(self).wf(),
            old(self)@.is_thread(thread),
        ensures
            final(self).wf(),
            bucket_attempt(
                old(self)@,
                final(self)@,
                old(self)@.threads[thread as int].key,
                match bucket {
                    Some((_, bucket)) => Some(bucket),
                    None => None,
                },
            ),
            bucket matches Some((key, _)) ==> key == old(self)@.threads[thread as int].key,
            bucket matches Some((key, bucket)) ==> final(self)@.holds(bucket.bucket())
                && bucket.bucket() == final(self)@.bucket_of(key),
    {
        assert(self@.threads[thread as int] == self.records@[thread as int]@);
        let key = self.records[thread].key;
        match self.lock_bucket(key) {
            Some(bucket) => Some((key, bucket)),
            None => None,
        }
    }

    /// Locks the two buckets for the given pair of keys, if both locks are free.
    ///
    /// If both keys hash to the same value, the second bucket will be `None`.
    ///
    /// The bucket at the lowest index is locked first.
    pub fn lock_bucket_pair(&mut self, key1: usize, key2: usize) -> (buckets: Option<
        (LockedBucket, Option<LockedBucket>),
    >)
        requires
            old(self).wf(),
        ensures
            final(self).wf(),
            pair_attempt(old(self)@, final(self)@, key1, key2, buckets),
            buckets matches Some((bucket1, bucket2)) ==> {
                &&& final(self)@.holds(bucket1.bucket())
                &&& bucket1.bucket() == final(self)@.bucket_of(key1)
                &&& bucket2 matches Some(bucket2) ==> final(self)@.holds(bucket2.bucket())
                    && bucket2.bucket() == final(self)@.bucket_of(key2)
            },
    {
        self.get_hashtable();
        let ghost ready = self@;
        let hash1 = self.bucket_index(key1);
        let hash2 = self.bucket_index(key2);

        // Get the bucket at the lowest hash/index first
        let lowest = if hash1 <= hash2 {
            hash1
        } else {
            hash2
        };
        match LockedBucket::new(self, lowest) {
            None => None,
            Some(bucket1) => {
                // Now lock the second bucket and return the two buckets
                if hash1 == hash2 {
                    assert(self@ =~= ready.with_lock(hash1 as int, true).with_lock(
                        hash2 as int,
                        true,
                    ));
                    return Some((bucket1, None));
                }
                let highest = if hash1 < hash2 {
                    hash2
                } else {
                    hash1
                };
                match LockedBucket::new(self, highest) {
                    None => {
                        self.unlock_bucket(bucket1);
                        assert(ready.holds(highest as int));
                        assert(self@ =~= ready);
                        None
                    },
                    Some(bucket2) => {
                        assert(self@ =~= ready.with_lock(hash1 as int, true).with_lock(
                            hash2 as int,
                            true,
                        ));
                        if hash1 < hash2 {
                            Some((bucket1, Some(bucket2)))
                        } else {
                            Some((bucket2, Some(bucket1)))
                        }
                    },
                }
            },
        }
    }

    /// Frees the locks of all buckets.
    pub fn unlock_all_queues(&mut self, locked: LockedHashTable)
        requires
            old(self).wf(),
            locked.size() == old(self)@.buckets.len(),
            old(self)@.all_locked(),
        ensures
            final(self).wf(),
            final(self)@ == old(self)@.with_locks(false),
    {
        proof {
            lemma_valid_with_locks(self@, false);
        }
        let mut b: usize = 0;
        while b < locked.size
            invariant
                locked.size == old(self)@.buckets.len(),
                b <= locked.size,
                old(self)@.all_locked(),
                self.linked(),
                self@.buckets.len() == old(self)@.buckets.len(),
                self@ == old(self)@.with_locks_below(b as int, false),
            decreases locked.size - b,
        {
            let ghost before = self@;
            assert(old(self)@.holds(b as int));
            assert(before.buckets[b as int].locked);
            match &mut self.table {
                None => {},
                Some(table) => {
                    table.entries[b].queue.unlock();
                },
            }
            assert(self@ =~= before.with_lock(b as int, false));
            b = b + 1;
            assert(self@ =~= old(self)@.with_locks_below(b as int, false));
        }
        assert(self@ =~= old(self)@.with_locks(false));
    }
}

} // verus!
