//! Parking and unparking, one step at a time.
use parking_lot_core::hash::hash;
use parking_lot_core::lot::ParkingLot;
use parking_lot_core::park::{park, park_timed_out, park_unparked, ParkStep};
use parking_lot_core::tokens::{
    FilterOp, ParkResult, ParkToken, RequeueOp, UnparkResult, UnparkToken,
};
use parking_lot_core::{unpark_all, unpark_filter, unpark_one, unpark_requeue};
use std::cell::RefCell;

const KEY: usize = 0x1000;
const OTHER: usize = 0x2000;

/// A lot with some threads, numbered from zero.
fn lot_with(threads: usize) -> ParkingLot {
    let mut lot = ParkingLot::new();
    for i in 0..threads {
        assert_eq!(lot.new_thread(), Some(i));
    }
    lot
}

fn sleep_on(lot: &mut ParkingLot, thread: usize, key: usize, token: usize) {
    let bucket = lot.lock_bucket(key).unwrap();
    let step = park(lot, thread, bucket, key, || true, ParkToken(token), None);
    assert_eq!(step, ParkStep::Sleep);
}

fn sleep_with_timeout(lot: &mut ParkingLot, thread: usize, key: usize) {
    let bucket = lot.lock_bucket(key).unwrap();
    let step = park(
        lot,
        thread,
        bucket,
        key,
        || true,
        ParkToken(0),
        Some(instant::Instant::now()),
    );
    assert_eq!(step, ParkStep::Sleep);
}

/// Unparks one thread; returns the result and the thread, and what the
/// callback was given.
fn wake_one(lot: &mut ParkingLot, key: usize, token: usize) -> (UnparkResult, Option<usize>) {
    let seen = RefCell::new(Vec::new());
    let bucket = lot.lock_bucket(key).unwrap();
    let (result, thread) = unpark_one(lot, bucket, key, |result| {
        seen.borrow_mut().push(result);
        UnparkToken(token)
    });
    assert_eq!(*seen.borrow(), vec![result]);
    (result, thread)
}

fn requeue(
    lot: &mut ParkingLot,
    from: usize,
    to: usize,
    op: RequeueOp,
) -> (UnparkResult, Option<usize>, usize) {
    let calls = RefCell::new(0);
    let (bucket_from, bucket_to) = lot.lock_bucket_pair(from, to).unwrap();
    let (result, thread) = unpark_requeue(
        lot,
        bucket_from,
        bucket_to,
        from,
        to,
        || op,
        |given, _| {
            assert_eq!(given, op);
            *calls.borrow_mut() += 1;
            UnparkToken(77)
        },
    );
    let calls = *calls.borrow();
    // Both locks are free again
    let (first, second) = lot.lock_bucket_pair(from, to).unwrap();
    lot.unlock_bucket(first);
    if let Some(second) = second {
        lot.unlock_bucket(second);
    }
    (result, thread, calls)
}

/// Two keys of the same bucket.
fn colliding_keys(bits: u32) -> (usize, usize) {
    let wanted = hash(KEY, bits);
    let mut key = KEY + 1;
    while hash(key, bits) != wanted {
        key += 1;
    }
    (KEY, key)
}

#[test]
fn unparked_thread_gets_the_token() {
    let mut lot = lot_with(1);
    sleep_on(&mut lot, 0, KEY, 0);
    assert_eq!(lot.parked_threads(KEY), vec![0]);
    let (result, thread) = wake_one(&mut lot, KEY, 42);
    assert_eq!(thread, Some(0));
    assert_eq!(result.unparked_threads, 1);
    assert_eq!(result.requeued_threads, 0);
    assert!(!result.have_more_threads);
    assert_eq!(park_unparked(&lot, 0), ParkResult::Unparked(UnparkToken(42)));
    assert!(lot.parked_threads(KEY).is_empty());
}

#[test]
fn failed_validation_parks_nobody() {
    let mut lot = lot_with(1);
    let bucket = lot.lock_bucket(KEY).unwrap();
    let step = park(&mut lot, 0, bucket, KEY, || false, ParkToken(0), None);
    assert_eq!(step, ParkStep::Return(ParkResult::Invalid));
    assert!(lot.parked_threads(KEY).is_empty());
    // The lock is free again
    let bucket = lot.lock_bucket(KEY).unwrap();
    lot.unlock_bucket(bucket);
}

#[test]
fn threads_are_woken_in_order() {
    let mut lot = lot_with(5);
    for thread in [3, 1, 4, 0, 2] {
        sleep_on(&mut lot, thread, KEY, 0);
    }
    assert_eq!(lot.parked_threads(KEY), vec![3, 1, 4, 0, 2]);
    let mut woken = Vec::new();
    for left in (0..5).rev() {
        let (result, thread) = wake_one(&mut lot, KEY, left);
        assert_eq!(result.have_more_threads, left > 0);
        woken.push(thread.unwrap());
    }
    assert_eq!(woken, vec![3, 1, 4, 0, 2]);
    assert_eq!(wake_one(&mut lot, KEY, 0).1, None);
}

#[test]
fn nobody_to_unpark() {
    let mut lot = lot_with(1);
    let (result, thread) = wake_one(&mut lot, KEY, 0);
    assert_eq!(thread, None);
    assert_eq!(result, UnparkResult::default());
    assert_eq!(result.unparked_threads, 0);
    assert_eq!(result.requeued_threads, 0);
    assert!(!result.have_more_threads);
    assert!(!result.be_fair);
}

#[test]
fn keys_of_one_bucket_are_kept_apart() {
    let (key, other) = colliding_keys(4);
    let mut lot = lot_with(4);
    sleep_on(&mut lot, 0, other, 0);
    sleep_on(&mut lot, 1, key, 0);
    sleep_on(&mut lot, 2, other, 0);
    sleep_on(&mut lot, 3, key, 0);
    let (result, thread) = wake_one(&mut lot, key, 0);
    assert_eq!(thread, Some(1));
    assert!(result.have_more_threads);
    assert_eq!(lot.parked_threads(key), vec![3]);
    assert_eq!(lot.parked_threads(other), vec![0, 2]);
    // The last thread of the bucket leaves, and a new one is appended
    let (result, thread) = wake_one(&mut lot, key, 0);
    assert_eq!(thread, Some(3));
    assert!(!result.have_more_threads);
    sleep_on(&mut lot, 3, other, 0);
    assert_eq!(lot.parked_threads(other), vec![0, 2, 3]);
}

#[test]
fn unpark_all_wakes_the_sleepers_of_the_key() {
    let (key, other) = colliding_keys(4);
    let mut lot = lot_with(5);
    for (thread, on) in [(0, key), (1, other), (2, key), (3, other), (4, key)] {
        sleep_on(&mut lot, thread, on, 0);
    }
    let bucket = lot.lock_bucket(key).unwrap();
    let (num, threads) = unpark_all(&mut lot, bucket, key, UnparkToken(9));
    assert_eq!(num, 3);
    assert_eq!(threads, vec![0, 2, 4]);
    for thread in threads {
        assert_eq!(park_unparked(&lot, thread), ParkResult::Unparked(UnparkToken(9)));
    }
    assert!(lot.parked_threads(key).is_empty());
    assert_eq!(lot.parked_threads(other), vec![1, 3]);
    let bucket = lot.lock_bucket(key).unwrap();
    assert_eq!(unpark_all(&mut lot, bucket, key, UnparkToken(9)), (0, vec![]));
}

#[test]
fn more_threads_than_fit_without_an_allocation() {
    let mut lot = lot_with(30);
    for thread in 0..30 {
        sleep_on(&mut lot, thread, KEY, thread);
    }
    let bucket = lot.lock_bucket(KEY).unwrap();
    let (num, threads) = unpark_all(&mut lot, bucket, KEY, UnparkToken(1));
    assert_eq!(num, 30);
    assert_eq!(threads, (0..30).collect::<Vec<usize>>());
}

#[test]
fn filter_picks_skips_and_stops() {
    let mut lot = lot_with(6);
    for thread in 0..6 {
        sleep_on(&mut lot, thread, KEY, 10 + thread);
    }
    let mut asked = Vec::new();
    let bucket = lot.lock_bucket(KEY).unwrap();
    let (result, threads) = unpark_filter(
        &mut lot,
        bucket,
        KEY,
        |token| {
            asked.push(token.0);
            match token.0 {
                10 | 12 => FilterOp::Unpark,
                14 => FilterOp::Stop,
                _ => FilterOp::Skip,
            }
        },
        |_| UnparkToken(5),
    );
    assert_eq!(asked, vec![10, 11, 12, 13, 14]);
    assert_eq!(threads, vec![0, 2]);
    assert_eq!(result.unparked_threads, 2);
    assert_eq!(result.requeued_threads, 0);
    assert!(result.have_more_threads);
    assert_eq!(lot.parked_threads(KEY), vec![1, 3, 4, 5]);
    assert_eq!(park_unparked(&lot, 0), ParkResult::Unparked(UnparkToken(5)));
    assert_eq!(park_unparked(&lot, 2), ParkResult::Unparked(UnparkToken(5)));
}

#[test]
fn filter_that_picks_everybody() {
    let mut lot = lot_with(12);
    for thread in 0..12 {
        sleep_on(&mut lot, thread, KEY, 0);
    }
    let bucket = lot.lock_bucket(KEY).unwrap();
    let (result, threads) =
        unpark_filter(&mut lot, bucket, KEY, |_| FilterOp::Unpark, |_| UnparkToken(1));
    assert_eq!(result.unparked_threads, 12);
    assert!(!result.have_more_threads);
    assert_eq!(threads, (0..12).collect::<Vec<usize>>());
    assert!(lot.parked_threads(KEY).is_empty());
}

#[test]
fn filter_that_picks_nobody() {
    let mut lot = lot_with(2);
    sleep_on(&mut lot, 0, KEY, 0);
    sleep_on(&mut lot, 1, KEY, 0);
    for op in [FilterOp::Skip, FilterOp::Stop] {
        let mut called = false;
        let bucket = lot.lock_bucket(KEY).unwrap();
        let (result, threads) = unpark_filter(
            &mut lot,
            bucket,
            KEY,
            |_| op,
            |_| {
                called = true;
                UnparkToken(1)
            },
        );
        assert!(called);
        assert!(threads.is_empty());
        assert_eq!(result, UnparkResult::default());
        assert!(!result.have_more_threads);
        assert_eq!(lot.parked_threads(KEY), vec![0, 1]);
    }
}

#[test]
fn requeue_aborts() {
    let mut lot = lot_with(2);
    sleep_on(&mut lot, 0, KEY, 0);
    sleep_on(&mut lot, 1, KEY, 0);
    let (result, thread, calls) = requeue(&mut lot, KEY, OTHER, RequeueOp::Abort);
    assert_eq!(result, UnparkResult::default());
    assert_eq!((thread, calls), (None, 0));
    assert_eq!(lot.parked_threads(KEY), vec![0, 1]);
}

#[test]
fn requeue_unparks_one_and_moves_the_rest() {
    let mut lot = lot_with(5);
    sleep_on(&mut lot, 4, OTHER, 0);
    for thread in 0..4 {
        sleep_on(&mut lot, thread, KEY, 0);
    }
    let (result, thread, calls) = requeue(&mut lot, KEY, OTHER, RequeueOp::UnparkOneRequeueRest);
    assert_eq!((thread, calls), (Some(0), 1));
    assert_eq!(result.unparked_threads, 1);
    assert_eq!(result.requeued_threads, 3);
    // There are threads in the new queue
    assert!(result.have_more_threads);
    assert_eq!(park_unparked(&lot, 0), ParkResult::Unparked(UnparkToken(77)));
    assert!(lot.parked_threads(KEY).is_empty());
    assert_eq!(lot.parked_threads(OTHER), vec![4, 1, 2, 3]);
    // Those that were requeued are woken under their new key
    assert_eq!(wake_one(&mut lot, OTHER, 0).1, Some(4));
    assert_eq!(wake_one(&mut lot, OTHER, 0).1, Some(1));
}

#[test]
fn requeue_moves_all() {
    let mut lot = lot_with(3);
    for thread in 0..3 {
        sleep_on(&mut lot, thread, KEY, 0);
    }
    let (result, thread, _) = requeue(&mut lot, KEY, OTHER, RequeueOp::RequeueAll);
    assert_eq!(thread, None);
    assert_eq!(result.unparked_threads, 0);
    assert_eq!(result.requeued_threads, 3);
    assert!(!result.have_more_threads);
    assert!(!result.be_fair);
    assert_eq!(lot.parked_threads(OTHER), vec![0, 1, 2]);
}

#[test]
fn requeue_unparks_one() {
    let mut lot = lot_with(3);
    for thread in 0..3 {
        sleep_on(&mut lot, thread, KEY, 0);
    }
    let (result, thread, _) = requeue(&mut lot, KEY, OTHER, RequeueOp::UnparkOne);
    assert_eq!(thread, Some(0));
    assert_eq!(result.unparked_threads, 1);
    assert_eq!(result.requeued_threads, 0);
    assert!(result.have_more_threads);
    assert_eq!(lot.parked_threads(KEY), vec![1, 2]);
    assert!(lot.parked_threads(OTHER).is_empty());
}

#[test]
fn requeue_moves_one() {
    let mut lot = lot_with(3);
    for thread in 0..3 {
        sleep_on(&mut lot, thread, KEY, 0);
    }
    let (result, thread, _) = requeue(&mut lot, KEY, OTHER, RequeueOp::RequeueOne);
    assert_eq!(thread, None);
    assert_eq!(result.unparked_threads, 0);
    assert_eq!(result.requeued_threads, 1);
    // Nobody was unparked
    assert!(!result.have_more_threads);
    assert_eq!(lot.parked_threads(KEY), vec![1, 2]);
    assert_eq!(lot.parked_threads(OTHER), vec![0]);
    let (result, _, _) = requeue(&mut lot, OTHER, KEY, RequeueOp::RequeueOne);
    assert!(!result.have_more_threads);
    assert_eq!(lot.parked_threads(KEY), vec![1, 2, 0]);
}

#[test]
fn requeue_tells_of_the_new_queue() {
    // Nobody is requeued, and nobody sleeps in the new queue
    let mut lot = lot_with(3);
    sleep_on(&mut lot, 0, KEY, 0);
    let (result, thread, _) = requeue(&mut lot, KEY, OTHER, RequeueOp::UnparkOneRequeueRest);
    assert_eq!(thread, Some(0));
    assert_eq!(result.requeued_threads, 0);
    assert!(!result.have_more_threads);
    // Nobody is requeued, but somebody sleeps in the new queue
    sleep_on(&mut lot, 0, KEY, 0);
    sleep_on(&mut lot, 1, OTHER, 0);
    let (result, thread, _) = requeue(&mut lot, KEY, OTHER, RequeueOp::UnparkOneRequeueRest);
    assert_eq!(thread, Some(0));
    assert_eq!(result.requeued_threads, 0);
    assert!(result.have_more_threads);
    // Somebody sleeps in the new queue, but nobody is unparked
    let (result, thread, _) = requeue(&mut lot, KEY, OTHER, RequeueOp::UnparkOneRequeueRest);
    assert_eq!(thread, None);
    assert!(!result.have_more_threads);
    // The last thread of the source queue
    sleep_on(&mut lot, 2, KEY, 0);
    let (result, thread, _) = requeue(&mut lot, KEY, OTHER, RequeueOp::UnparkOne);
    assert_eq!(thread, Some(2));
    assert!(!result.have_more_threads);
}

#[test]
fn requeue_within_one_bucket() {
    let (key, other) = colliding_keys(4);
    let mut lot = lot_with(5);
    for (thread, on) in [(0, key), (1, other), (2, key), (3, other), (4, key)] {
        sleep_on(&mut lot, thread, on, 0);
    }
    let (result, thread, _) = requeue(&mut lot, key, other, RequeueOp::UnparkOneRequeueRest);
    assert_eq!(thread, Some(0));
    assert_eq!(result.requeued_threads, 2);
    assert!(result.have_more_threads);
    assert_eq!(lot.parked_threads(other), vec![1, 3, 2, 4]);
    // Onto the same key
    let (result, thread, _) = requeue(&mut lot, other, other, RequeueOp::RequeueOne);
    assert_eq!(thread, None);
    assert_eq!(result.requeued_threads, 1);
    assert_eq!(lot.parked_threads(other), vec![3, 2, 4, 1]);
}

#[test]
fn requeue_with_nobody_asleep() {
    let mut lot = lot_with(1);
    for op in [
        RequeueOp::UnparkOneRequeueRest,
        RequeueOp::RequeueAll,
        RequeueOp::UnparkOne,
        RequeueOp::RequeueOne,
    ] {
        let (result, thread, calls) = requeue(&mut lot, KEY, OTHER, op);
        assert_eq!(result, UnparkResult::default());
        assert_eq!((thread, calls), (None, 1));
    }
}

#[test]
fn timed_out_thread_leaves_its_queue() {
    let mut lot = lot_with(3);
    sleep_on(&mut lot, 0, KEY, 0);
    sleep_with_timeout(&mut lot, 1, KEY);
    sleep_on(&mut lot, 2, KEY, 0);
    let mut seen = Vec::new();
    let (key, bucket) = lot.lock_bucket_checked(1).unwrap();
    assert_eq!(key, KEY);
    let result = park_timed_out(&mut lot, 1, bucket, |key, last| seen.push((key, last)));
    assert_eq!(result, ParkResult::TimedOut);
    assert!(!result.is_unparked());
    assert_eq!(seen, vec![(KEY, false)]);
    assert_eq!(lot.parked_threads(KEY), vec![0, 2]);
    // It may park again
    sleep_with_timeout(&mut lot, 1, KEY);
    assert_eq!(lot.parked_threads(KEY), vec![0, 2, 1]);
}

#[test]
fn last_thread_of_a_queue_times_out() {
    let (key, other) = colliding_keys(4);
    let mut lot = lot_with(3);
    sleep_on(&mut lot, 0, other, 0);
    sleep_with_timeout(&mut lot, 1, key);
    sleep_on(&mut lot, 2, other, 0);
    let mut seen = Vec::new();
    let (_, bucket) = lot.lock_bucket_checked(1).unwrap();
    let result = park_timed_out(&mut lot, 1, bucket, |key, last| seen.push((key, last)));
    assert_eq!(result, ParkResult::TimedOut);
    assert_eq!(seen, vec![(key, true)]);
    assert_eq!(lot.parked_threads(other), vec![0, 2]);
}

#[test]
fn first_thread_of_a_queue_times_out() {
    let mut lot = lot_with(2);
    sleep_with_timeout(&mut lot, 0, KEY);
    sleep_on(&mut lot, 1, KEY, 0);
    let mut last_thread = None;
    let (_, bucket) = lot.lock_bucket_checked(0).unwrap();
    park_timed_out(&mut lot, 0, bucket, |_, last| last_thread = Some(last));
    assert_eq!(last_thread, Some(false));
    assert_eq!(lot.parked_threads(KEY), vec![1]);
}

#[test]
fn requeued_thread_times_out_on_its_new_key() {
    let mut lot = lot_with(1);
    sleep_with_timeout(&mut lot, 0, KEY);
    requeue(&mut lot, KEY, OTHER, RequeueOp::RequeueAll);
    let mut seen = Vec::new();
    let (key, bucket) = lot.lock_bucket_checked(0).unwrap();
    assert_eq!(key, OTHER);
    let result = park_timed_out(&mut lot, 0, bucket, |key, last| seen.push((key, last)));
    assert_eq!(result, ParkResult::TimedOut);
    assert_eq!(seen, vec![(OTHER, true)]);
}

#[test]
fn unparked_just_before_the_timeout() {
    let mut lot = lot_with(1);
    sleep_with_timeout(&mut lot, 0, KEY);
    wake_one(&mut lot, KEY, 6);
    let mut called = false;
    let (_, bucket) = lot.lock_bucket_checked(0).unwrap();
    let result = park_timed_out(&mut lot, 0, bucket, |_, _| called = true);
    assert_eq!(result, ParkResult::Unparked(UnparkToken(6)));
    assert!(result.is_unparked());
    assert!(!called);
    let bucket = lot.lock_bucket(KEY).unwrap();
    lot.unlock_bucket(bucket);
}

#[test]
fn unparked_thread_keeps_its_token() {
    let mut lot = lot_with(4);
    sleep_with_timeout(&mut lot, 0, KEY);
    sleep_on(&mut lot, 1, KEY, 0);
    wake_one(&mut lot, KEY, 31);
    // Others go on
    wake_one(&mut lot, KEY, 32);
    sleep_on(&mut lot, 2, KEY, 0);
    requeue(&mut lot, KEY, OTHER, RequeueOp::RequeueAll);
    let bucket = lot.lock_bucket(OTHER).unwrap();
    unpark_all(&mut lot, bucket, OTHER, UnparkToken(33));
    assert_eq!(park_unparked(&lot, 0), ParkResult::Unparked(UnparkToken(31)));
    let (_, bucket) = lot.lock_bucket_checked(0).unwrap();
    let result = park_timed_out(&mut lot, 0, bucket, |_, _| panic!("called"));
    assert_eq!(result, ParkResult::Unparked(UnparkToken(31)));
}

#[test]
fn timeout_undoes_park() {
    let mut lot = lot_with(3);
    sleep_on(&mut lot, 0, KEY, 0);
    sleep_on(&mut lot, 1, OTHER, 0);
    sleep_with_timeout(&mut lot, 2, KEY);
    let (_, bucket) = lot.lock_bucket_checked(2).unwrap();
    park_timed_out(&mut lot, 2, bucket, |_, _| {});
    assert_eq!(lot.parked_threads(KEY), vec![0]);
    assert_eq!(lot.parked_threads(OTHER), vec![1]);
}

#[test]
fn default_values() {
    assert_eq!(UnparkToken::default(), UnparkToken(0));
    assert_eq!(ParkToken::default(), ParkToken(0));
    assert!(!ParkResult::Invalid.is_unparked());
    assert!(ParkResult::Unparked(UnparkToken(1)).is_unparked());
}
