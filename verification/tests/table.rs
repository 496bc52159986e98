//! The table, its locks, its threads and its clock.
use parking_lot_core::fair_timeout::FairTimeout;
use parking_lot_core::hash::hash;
use parking_lot_core::lock::SafeLock;
use parking_lot_core::lot::ParkingLot;
use parking_lot_core::park::park;
use parking_lot_core::time::{Clock, Moment};
use parking_lot_core::tokens::{ParkToken, UnparkToken};
use parking_lot_core::unpark::unpark_one;
use std::time::{Duration, Instant};

fn busy_wait(time: Duration) {
    let start = Instant::now();
    while start.elapsed() < time {}
}

fn sleep_on(lot: &mut ParkingLot, thread: usize, key: usize) {
    let bucket = lot.lock_bucket(key).unwrap();
    park(lot, thread, bucket, key, || true, ParkToken(0), None);
}

#[test]
fn hash_values() {
    if usize::BITS == 64 {
        assert_eq!(hash(0, 4), 0);
        assert_eq!(hash(1, 4), 0x9);
        assert_eq!(hash(1, 8), 0x9e);
        assert_eq!(hash(2, 4), 0x3);
        assert_eq!(hash(1, 31), 0x9E37_79B9 >> 1);
    }
    for key in 0..1000 {
        assert!(hash(key, 4) < 16);
    }
}

#[test]
fn generator_values() {
    let mut fair = FairTimeout::new(Moment { nanos: 0 }, 1);
    assert_eq!(fair.gen_u32(), 270369);
    assert_eq!(fair.gen_u32(), 67634689);
    assert_eq!(fair.gen_u32(), 2647435461);
}

#[test]
fn generator_does_not_get_stuck() {
    let mut fair = FairTimeout::new(Moment { nanos: 0 }, 7);
    let mut seen = Vec::new();
    for _ in 0..1000 {
        let value = fair.gen_u32();
        assert_ne!(value, 0);
        assert!(!seen.contains(&value));
        seen.push(value);
    }
}

#[test]
fn fair_timeout_moves_on() {
    let mut fair = FairTimeout::new(Moment { nanos: 100 }, 1);
    // The timeout is not passed when it is reached
    assert!(!fair.should_timeout_at(Moment { nanos: 100 }));
    assert_eq!(fair.seed, 1);
    assert!(fair.should_timeout_at(Moment { nanos: 101 }));
    // 270369 nanoseconds later
    assert_eq!(fair.timeout, Moment { nanos: 101 + 270369 });
    assert!(!fair.should_timeout_at(Moment { nanos: 101 + 270369 }));
    assert!(fair.should_timeout_at(Moment { nanos: 102 + 270369 }));
    // Less than a millisecond later
    assert_eq!(fair.timeout, Moment { nanos: 102 + 270369 + 67634689 % 1_000_000 });
}

#[test]
fn fair_timeout_by_the_clock() {
    let clock = Clock::start();
    let mut fair = FairTimeout::new(Moment { nanos: 0 }, 3);
    busy_wait(Duration::from_millis(1));
    assert!(fair.should_timeout(&clock));
    let next = fair.timeout;
    assert!(next.nanos >= 1_000_000);
    let mut late = FairTimeout::new(Moment { nanos: 3_600_000_000_000_000 }, 3);
    assert!(!late.should_timeout(&clock));
}

#[test]
fn clock_runs() {
    let clock = Clock::start();
    let first = clock.now();
    busy_wait(Duration::from_millis(2));
    let second = clock.now();
    assert!(second.nanos >= first.nanos + 2_000_000);
}

#[test]
fn moments_after_a_start() {
    assert_eq!(Moment::after_start(0, 0), Moment { nanos: 0 });
    assert_eq!(Moment::after_start(0, 999_999_999), Moment { nanos: 999_999_999 });
    assert_eq!(Moment::after_start(7, 5), Moment { nanos: 7_000_000_005 });
    assert_eq!(
        Moment::after_start(u64::MAX, 0),
        Moment { nanos: 18_446_744_073_709_551_615_000_000_000 }
    );
}

#[test]
fn unpark_is_fair_after_the_timeout() {
    let mut lot = ParkingLot::new();
    let thread = lot.new_thread().unwrap();
    busy_wait(Duration::from_millis(2));
    sleep_on(&mut lot, thread, 8);
    let bucket = lot.lock_bucket(8).unwrap();
    let (result, _) = unpark_one(&mut lot, bucket, 8, |_| UnparkToken(0));
    assert!(result.be_fair);
    // And again, at the latest a millisecond later
    busy_wait(Duration::from_millis(2));
    sleep_on(&mut lot, thread, 8);
    let bucket = lot.lock_bucket(8).unwrap();
    let (result, _) = unpark_one(&mut lot, bucket, 8, |_| UnparkToken(0));
    assert!(result.be_fair);
}

#[test]
fn safe_lock_is_taken_once() {
    let mut lock = SafeLock::new(5);
    *lock.get_mut() += 1;
    assert!(lock.lock());
    assert!(!lock.lock());
    *lock.assume_locked() += 1;
    lock.unlock();
    assert!(lock.lock());
    assert_eq!(*lock.get_mut(), 7);
}

#[test]
fn locked_bucket_is_not_given_twice() {
    let mut lot = ParkingLot::new();
    let bucket = lot.lock_bucket(1).unwrap();
    assert!(lot.lock_bucket(1).is_none());
    assert!(lot.lock_all_queues().is_none());
    assert!(lot.lock_bucket_pair(1, 2).is_none());
    assert!(lot.lock_bucket_pair(2, 1).is_none());
    // A bucket of another key is free
    assert_ne!(hash(1, 4), hash(2, 4));
    let other = lot.lock_bucket(2).unwrap();
    lot.unlock_bucket(other);
    lot.unlock_bucket(bucket);
    let locked = lot.lock_all_queues().unwrap();
    assert!(lot.lock_bucket(1).is_none());
    assert!(lot.lock_all_queues().is_none());
    lot.unlock_all_queues(locked);
    let bucket = lot.lock_bucket(1).unwrap();
    lot.unlock_bucket(bucket);
}

#[test]
fn pair_of_buckets() {
    let mut lot = ParkingLot::new();
    let (first, second) = lot.lock_bucket_pair(1, 2).unwrap();
    assert!(lot.lock_bucket(1).is_none());
    assert!(lot.lock_bucket(2).is_none());
    lot.unlock_bucket(first);
    lot.unlock_bucket(second.unwrap());
    // Both keys in one bucket
    let (first, second) = lot.lock_bucket_pair(1, 1).unwrap();
    assert!(second.is_none());
    lot.unlock_bucket(first);
    // The first is the bucket of the first key, whichever comes first
    let (first, second) = lot.lock_bucket_pair(2, 1).unwrap();
    lot.unlock_bucket(first);
    let free = lot.lock_bucket(2).unwrap();
    assert!(lot.lock_bucket(1).is_none());
    lot.unlock_bucket(free);
    lot.unlock_bucket(second.unwrap());
}

#[test]
fn table_does_not_grow_while_a_bucket_is_locked() {
    let mut lot = ParkingLot::new();
    for i in 0..5 {
        assert_eq!(lot.new_thread(), Some(i));
    }
    // There are sixteen buckets: enough for five threads, not for six
    assert!(lot.grow_hashtable(5));
    let bucket = lot.lock_bucket(1).unwrap();
    assert!(!lot.grow_hashtable(6));
    assert_eq!(lot.new_thread(), None);
    lot.unlock_bucket(bucket);
    assert_eq!(lot.new_thread(), Some(5));
    // Now there are thirty-two
    let bucket = lot.lock_bucket(1).unwrap();
    assert!(lot.grow_hashtable(10));
    assert!(!lot.grow_hashtable(11));
    lot.unlock_bucket(bucket);
}

#[test]
fn growth_keeps_the_queues() {
    let mut lot = ParkingLot::new();
    let keys = [3, 64, 1000, 3, 4096];
    for (i, key) in keys.iter().enumerate() {
        assert_eq!(lot.new_thread(), Some(i));
        sleep_on(&mut lot, i, *key);
    }
    for i in 5..100 {
        assert_eq!(lot.new_thread(), Some(i));
        sleep_on(&mut lot, i, 3);
    }
    let mut expected = vec![0, 3];
    expected.extend(5..100);
    assert_eq!(lot.parked_threads(3), expected);
    assert_eq!(lot.parked_threads(64), vec![1]);
    assert_eq!(lot.parked_threads(1000), vec![2]);
    assert_eq!(lot.parked_threads(4096), vec![4]);
    assert!(lot.grow_hashtable(5000));
    assert_eq!(lot.parked_threads(3), expected);
    assert_eq!(lot.parked_threads(4096), vec![4]);
}

#[test]
fn numbers_of_gone_threads_are_reused() {
    let mut lot = ParkingLot::new();
    assert_eq!(lot.new_thread(), Some(0));
    assert_eq!(lot.new_thread(), Some(1));
    assert_eq!(lot.num_threads(), 2);
    lot.drop_thread(0);
    assert_eq!(lot.num_threads(), 1);
    assert_eq!(lot.new_thread(), Some(0));
    assert_eq!(lot.new_thread(), Some(2));
    assert_eq!(lot.num_threads(), 3);
}

#[test]
fn empty_lot() {
    let lot = ParkingLot::new();
    assert!(lot.parked_threads(1).is_empty());
    let mut lot = lot;
    lot.get_hashtable();
    lot.get_hashtable();
    assert!(lot.parked_threads(1).is_empty());
}
