//! Deadlock detection.
use parking_lot_core::cycles::{cycles_of_events, normalize_cycle};
use parking_lot_core::deadlock::{
    acquire_resource, on_unpark, owns_resource, pending_report, release_resource,
};
use parking_lot_core::deadlock_check::{
    check_deadlock, check_wait_graph_fast, check_wait_graph_slow,
};
use parking_lot_core::lot::ParkingLot;
use parking_lot_core::park::park;
use parking_lot_core::tokens::{ParkToken, UnparkToken};
use parking_lot_core::unpark::unpark_all;
use parking_lot_core::wait_graph::{SearchEvent, RESOURCE, THREAD};

const A: usize = 0x100;
const B: usize = 0x200;
const C: usize = 0x300;
const D: usize = 0x400;

fn lot_with(threads: usize) -> ParkingLot {
    let mut lot = ParkingLot::new();
    for i in 0..threads {
        assert_eq!(lot.new_thread(), Some(i));
    }
    lot
}

fn wait_for(lot: &mut ParkingLot, thread: usize, key: usize) {
    let bucket = lot.lock_bucket(key).unwrap();
    park(lot, thread, bucket, key, || true, ParkToken(0), None);
}

fn wait_with_timeout(lot: &mut ParkingLot, thread: usize, key: usize) {
    let bucket = lot.lock_bucket(key).unwrap();
    let timeout = Some(instant::Instant::now());
    park(lot, thread, bucket, key, || true, ParkToken(0), timeout);
}

fn fast_pass(lot: &mut ParkingLot) -> bool {
    let locked = lot.lock_all_queues().unwrap();
    let cyclic = check_wait_graph_fast(lot, &locked);
    lot.unlock_all_queues(locked);
    cyclic
}

#[test]
fn no_deadlock_without_threads() {
    let mut lot = ParkingLot::new();
    assert_eq!(check_deadlock(&mut lot), Some(vec![]));
}

#[test]
fn two_threads_in_a_deadlock() {
    let mut lot = lot_with(2);
    acquire_resource(&mut lot, 0, A);
    acquire_resource(&mut lot, 1, B);
    wait_for(&mut lot, 0, B);
    // Nobody waits for the first thread yet
    assert!(!fast_pass(&mut lot));
    assert_eq!(check_deadlock(&mut lot), Some(vec![]));
    wait_for(&mut lot, 1, A);
    assert!(fast_pass(&mut lot));
    assert_eq!(check_deadlock(&mut lot), Some(vec![vec![0, 1]]));
    for thread in 0..2 {
        assert_eq!(pending_report(&lot, thread), (true, Some(0)));
        let (cycle, report) = on_unpark(&mut lot, thread).unwrap();
        assert_eq!(cycle, 0);
        assert_eq!(report.thread_id(), thread_id::get());
        assert!(!report.backtrace().frames().is_empty());
        assert_eq!(pending_report(&lot, thread), (true, None));
    }
    // It is not reported again
    assert!(!fast_pass(&mut lot));
    assert_eq!(check_deadlock(&mut lot), Some(vec![]));
}

#[test]
fn three_threads_in_a_deadlock() {
    let mut lot = lot_with(4);
    // The cycle 3 -> 1 -> 2 -> 3
    acquire_resource(&mut lot, 1, A);
    acquire_resource(&mut lot, 2, B);
    acquire_resource(&mut lot, 3, C);
    wait_for(&mut lot, 3, A);
    wait_for(&mut lot, 1, B);
    wait_for(&mut lot, 2, C);
    assert_eq!(check_deadlock(&mut lot), Some(vec![vec![1, 2, 3]]));
    assert_eq!(pending_report(&lot, 0), (false, None));
    assert!(on_unpark(&mut lot, 0).is_none());
}

#[test]
fn thread_that_waits_for_itself() {
    let mut lot = lot_with(1);
    acquire_resource(&mut lot, 0, A);
    wait_for(&mut lot, 0, A);
    assert_eq!(check_deadlock(&mut lot), Some(vec![vec![0]]));
}

#[test]
fn two_deadlocks_at_once() {
    let mut lot = lot_with(3);
    acquire_resource(&mut lot, 0, A);
    acquire_resource(&mut lot, 1, B);
    acquire_resource(&mut lot, 2, C);
    wait_for(&mut lot, 2, C);
    wait_for(&mut lot, 1, A);
    wait_for(&mut lot, 0, B);
    let mut cycles = check_deadlock(&mut lot).unwrap();
    for (i, cycle) in cycles.iter().enumerate() {
        for thread in cycle {
            assert_eq!(pending_report(&lot, *thread), (true, Some(i)));
        }
    }
    cycles.sort();
    assert_eq!(cycles, vec![vec![0, 1], vec![2]]);
}

#[test]
fn timeout_breaks_the_deadlock() {
    let mut lot = lot_with(2);
    acquire_resource(&mut lot, 0, A);
    acquire_resource(&mut lot, 1, B);
    wait_for(&mut lot, 0, B);
    wait_with_timeout(&mut lot, 1, A);
    assert!(!fast_pass(&mut lot));
    assert_eq!(check_deadlock(&mut lot), Some(vec![]));
}

#[test]
fn released_resource_breaks_the_deadlock() {
    let mut lot = lot_with(2);
    acquire_resource(&mut lot, 0, A);
    acquire_resource(&mut lot, 1, B);
    release_resource(&mut lot, 0, A);
    wait_for(&mut lot, 0, B);
    wait_for(&mut lot, 1, A);
    assert_eq!(check_deadlock(&mut lot), Some(vec![]));
}

#[test]
fn resources_are_given_back_one_by_one() {
    let mut lot = lot_with(1);
    assert!(!owns_resource(&lot, 0, A));
    acquire_resource(&mut lot, 0, A);
    acquire_resource(&mut lot, 0, B);
    acquire_resource(&mut lot, 0, A);
    release_resource(&mut lot, 0, A);
    assert!(owns_resource(&lot, 0, A));
    release_resource(&mut lot, 0, A);
    assert!(!owns_resource(&lot, 0, A));
    assert!(owns_resource(&lot, 0, B));
    release_resource(&mut lot, 0, B);
    assert!(!owns_resource(&lot, 0, B));
}

#[test]
fn shared_resource_closes_two_cycles() {
    // Two readers share a resource for which a third thread waits, and each of
    // them waits for a resource of that thread
    let mut lot = lot_with(3);
    acquire_resource(&mut lot, 0, A);
    acquire_resource(&mut lot, 0, C);
    acquire_resource(&mut lot, 1, B);
    acquire_resource(&mut lot, 2, B);
    wait_for(&mut lot, 0, B);
    wait_for(&mut lot, 1, A);
    wait_for(&mut lot, 2, C);
    let mut cycles = check_deadlock(&mut lot).unwrap();
    assert_eq!(cycles.len(), 2);
    // A thread that is in both reports to the first of them
    assert_eq!(pending_report(&lot, 0), (true, Some(0)));
    for (i, cycle) in cycles.iter().enumerate() {
        for thread in cycle {
            if *thread != 0 {
                assert_eq!(pending_report(&lot, *thread), (true, Some(i)));
            }
        }
    }
    let (cycle, _) = on_unpark(&mut lot, 0).unwrap();
    assert_eq!(cycle, 0);
    cycles.sort();
    assert_eq!(cycles, vec![vec![0, 1], vec![0, 2]]);
}

#[test]
fn cycle_that_is_first_reached_at_a_resource() {
    // Thread 0 waits for a resource of the cycle and comes first in the graph
    let mut lot = lot_with(3);
    acquire_resource(&mut lot, 1, A);
    acquire_resource(&mut lot, 2, B);
    wait_for(&mut lot, 0, A);
    wait_for(&mut lot, 2, A);
    wait_for(&mut lot, 1, B);
    assert!(fast_pass(&mut lot));
    assert_eq!(check_deadlock(&mut lot), Some(vec![vec![1, 2]]));
    // The waiter itself is in no cycle
    assert_eq!(pending_report(&lot, 0), (false, None));
    assert_eq!(check_deadlock(&mut lot), Some(vec![]));
}

#[test]
fn waiter_behind_a_thread_that_waits_for_itself() {
    let mut lot = lot_with(2);
    acquire_resource(&mut lot, 1, A);
    wait_for(&mut lot, 0, A);
    wait_for(&mut lot, 1, A);
    assert_eq!(check_deadlock(&mut lot), Some(vec![vec![1]]));
}

#[test]
fn check_does_not_wait_for_a_lock() {
    let mut lot = lot_with(1);
    acquire_resource(&mut lot, 0, A);
    wait_for(&mut lot, 0, A);
    let bucket = lot.lock_bucket(B).unwrap();
    assert_eq!(check_deadlock(&mut lot), None);
    lot.unlock_bucket(bucket);
    let locked = lot.lock_all_queues().unwrap();
    assert_eq!(check_wait_graph_slow(&mut lot, locked), vec![vec![0]]);
    // All locks are free again
    let locked = lot.lock_all_queues().unwrap();
    lot.unlock_all_queues(locked);
}

#[test]
fn unparked_thread_is_in_no_deadlock() {
    let mut lot = lot_with(2);
    acquire_resource(&mut lot, 0, A);
    acquire_resource(&mut lot, 1, B);
    wait_for(&mut lot, 0, B);
    wait_for(&mut lot, 1, A);
    let bucket = lot.lock_bucket(A).unwrap();
    assert_eq!(unpark_all(&mut lot, bucket, A, UnparkToken(0)).0, 1);
    assert_eq!(check_deadlock(&mut lot), Some(vec![]));
    assert!(on_unpark(&mut lot, 1).is_none());
}

#[test]
fn only_new_deadlocks_are_reported() {
    let mut lot = lot_with(5);
    acquire_resource(&mut lot, 0, A);
    acquire_resource(&mut lot, 1, B);
    acquire_resource(&mut lot, 3, D);
    wait_for(&mut lot, 0, B);
    wait_for(&mut lot, 1, A);
    // This one is in no deadlock, but it waits
    wait_for(&mut lot, 2, D);
    wait_for(&mut lot, 4, C);
    assert_eq!(check_deadlock(&mut lot), Some(vec![vec![0, 1]]));
    // Resources change hands between threads that are awake, threads come and
    // go, the table grows, a sleeper is unparked and the deadlock is reported
    acquire_resource(&mut lot, 3, A);
    release_resource(&mut lot, 3, D);
    acquire_resource(&mut lot, 3, D);
    for i in 5..20 {
        assert_eq!(lot.new_thread(), Some(i));
    }
    lot.drop_thread(7);
    let bucket = lot.lock_bucket(C).unwrap();
    assert_eq!(unpark_all(&mut lot, bucket, C, UnparkToken(0)).0, 1);
    assert!(on_unpark(&mut lot, 0).is_some());
    assert_eq!(check_deadlock(&mut lot), Some(vec![]));
    // A thread that goes to sleep may close a cycle
    acquire_resource(&mut lot, 4, C);
    assert_eq!(check_deadlock(&mut lot), Some(vec![]));
    wait_for(&mut lot, 3, D);
    assert_eq!(check_deadlock(&mut lot), Some(vec![vec![3]]));
    assert_eq!(check_deadlock(&mut lot), Some(vec![]));
}

#[test]
fn cycles_start_with_the_smallest() {
    assert_eq!(normalize_cycle(&[]), Vec::<usize>::new());
    assert_eq!(normalize_cycle(&[7]), vec![7]);
    assert_eq!(normalize_cycle(&[3, 1, 2]), vec![1, 2, 3]);
    assert_eq!(normalize_cycle(&[1, 2, 3]), vec![1, 2, 3]);
    assert_eq!(normalize_cycle(&[2, 3, 1]), vec![1, 2, 3]);
    assert_eq!(normalize_cycle(&[3, 2, 1]), vec![1, 3, 2]);
    // The first of several
    assert_eq!(normalize_cycle(&[5, 1, 4, 1]), vec![1, 4, 1, 5]);
}

#[test]
fn cycles_in_the_events_of_a_search() {
    let t = |n: usize| (THREAD, n);
    let r = |n: usize| (RESOURCE, n);
    let events = vec![
        SearchEvent::Discover(t(5)),
        SearchEvent::TreeEdge(t(5), r(1)),
        SearchEvent::Discover(r(1)),
        SearchEvent::TreeEdge(r(1), t(2)),
        SearchEvent::Discover(t(2)),
        SearchEvent::TreeEdge(t(2), r(9)),
        SearchEvent::Discover(r(9)),
        SearchEvent::BackEdge(r(9), t(5)),
        SearchEvent::BackEdge(r(9), t(2)),
        SearchEvent::BackEdge(r(9), r(1)),
        SearchEvent::BackEdge(r(9), t(5)),
        SearchEvent::Finish(r(9)),
        SearchEvent::Finish(t(2)),
        SearchEvent::CrossForwardEdge(r(1), t(2)),
        SearchEvent::BackEdge(r(1), t(5)),
        SearchEvent::Finish(r(1)),
        SearchEvent::Finish(t(5)),
    ];
    assert_eq!(cycles_of_events(&events), vec![vec![2, 5], vec![2], vec![5]]);
    // An edge back to a resource
    let events = vec![
        SearchEvent::Discover(t(0)),
        SearchEvent::TreeEdge(t(0), r(1)),
        SearchEvent::Discover(r(1)),
        SearchEvent::TreeEdge(r(1), t(1)),
        SearchEvent::Discover(t(1)),
        SearchEvent::BackEdge(t(1), r(1)),
        SearchEvent::Finish(t(1)),
        SearchEvent::Finish(r(1)),
        SearchEvent::Finish(t(0)),
    ];
    assert_eq!(cycles_of_events(&events), vec![vec![1]]);
    assert_eq!(cycles_of_events(&Vec::new()), Vec::<Vec<usize>>::new());
}
