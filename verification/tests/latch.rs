//! A fair semaphore built on the parking lot, driven one step at a time.
use parking_lot_core::lot::ParkingLot;
use parking_lot_core::park::{park, park_unparked, ParkStep};
use parking_lot_core::tokens::{ParkResult, ParkToken, UnparkToken};
use parking_lot_core::unpark::{unpark_all, unpark_one};

/// A latch on which a number of threads wait.
struct SingleLatchTest {
    semaphore_addr: usize,
    semaphore: isize,
    num_threads: usize,
    num_awake: usize,
    asleep: Vec<usize>,
    last_awoken: Option<usize>,
}

impl SingleLatchTest {
    fn new(semaphore_addr: usize, num_threads: usize) -> Self {
        SingleLatchTest {
            semaphore_addr,
            semaphore: 0,
            num_threads,
            num_awake: 0,
            asleep: Vec::new(),
            last_awoken: None,
        }
    }

    /// A thread comes to the latch, and sleeps if it has to.
    fn run(&mut self, lot: &mut ParkingLot, thread: usize) {
        let old_semaphore_value = self.semaphore;
        self.semaphore -= 1;
        if old_semaphore_value > 0 {
            // We acquired the semaphore. Done.
            self.last_awoken = Some(thread);
            self.num_awake += 1;
            return;
        }
        // We need to wait.
        let bucket = lot.lock_bucket(self.semaphore_addr).unwrap();
        let step = park(
            lot,
            thread,
            bucket,
            self.semaphore_addr,
            || true,
            ParkToken::default(),
            None,
        );
        assert_eq!(step, ParkStep::Sleep);
        self.asleep.push(thread);
    }

    /// A thread that was unparked goes on.
    fn wake(&mut self, lot: &ParkingLot, thread: usize) {
        let place = self.asleep.iter().position(|t| *t == thread).unwrap();
        self.asleep.remove(place);
        assert_eq!(
            park_unparked(lot, thread),
            ParkResult::Unparked(UnparkToken::default())
        );
        self.last_awoken = Some(thread);
        self.num_awake += 1;
    }

    fn up(&mut self, lot: &mut ParkingLot) {
        let old_semaphore_value = self.semaphore;
        self.semaphore += 1;
        // Check if anyone was waiting on the semaphore. If they were, then pass ownership to them.
        if old_semaphore_value < 0 {
            let bucket = lot.lock_bucket(self.semaphore_addr).unwrap();
            let (result, thread) =
                unpark_one(lot, bucket, self.semaphore_addr, |_| UnparkToken::default());
            assert_eq!(result.unparked_threads, 1);
            self.wake(lot, thread.unwrap());
        }
    }

    fn unpark_one(&mut self, lot: &mut ParkingLot, single_unpark_index: usize) {
        // last_awoken should be empty at all times except between self.up() and at the bottom
        // of this method where it's reset again
        assert!(self.last_awoken.is_none());
        let queue = lot.parked_threads(self.semaphore_addr);
        assert!(queue.len() <= self.num_threads - single_unpark_index);
        let num_awake_before_up = self.num_awake;
        self.up(lot);
        assert_eq!(self.num_awake, num_awake_before_up + 1);
        let last_awoken = self.last_awoken.unwrap();
        if !queue.is_empty() {
            assert_eq!(queue[0], last_awoken);
        }
        self.last_awoken = None;
    }

    fn finish(&mut self, lot: &mut ParkingLot, num_single_unparks: usize) {
        // The amount of threads not unparked via unpark_one
        let mut num_threads_left = self.num_threads.checked_sub(num_single_unparks).unwrap();
        while num_threads_left > 0 {
            let num_waiting_on_address = lot.parked_threads(self.semaphore_addr).len();
            assert!(num_waiting_on_address <= num_threads_left);
            let num_awake_before_unpark = self.num_awake;
            let bucket = lot.lock_bucket(self.semaphore_addr).unwrap();
            let (num_unparked, threads) =
                unpark_all(lot, bucket, self.semaphore_addr, UnparkToken::default());
            assert!(num_unparked >= num_waiting_on_address);
            assert!(num_unparked <= num_threads_left);
            for thread in threads {
                self.wake(lot, thread);
            }
            assert_eq!(self.num_awake, num_awake_before_unpark + num_unparked);
            num_threads_left = num_threads_left.checked_sub(num_unparked).unwrap();
        }
        // By now, all threads should have been woken up
        assert_eq!(self.num_awake, self.num_threads);
        // Make sure no thread is parked on our semaphore address
        assert_eq!(lot.parked_threads(self.semaphore_addr).len(), 0);
    }
}

fn run_parking_test(
    repeats: usize,
    num_latches: usize,
    num_threads: usize,
    num_single_unparks: usize,
) {
    let mut lot = ParkingLot::new();
    for _ in 0..repeats {
        let mut tests = Vec::with_capacity(num_latches);
        let mut numbers = Vec::new();
        for i in 0..num_latches {
            let mut test = SingleLatchTest::new(0x7f00_0000 + 64 * i, num_threads);
            for _ in 0..num_threads {
                let thread = lot.new_thread().unwrap();
                numbers.push(thread);
                test.run(&mut lot, thread);
            }
            tests.push(test);
        }
        for unpark_index in 0..num_single_unparks {
            for test in tests.iter_mut() {
                test.unpark_one(&mut lot, unpark_index);
            }
        }
        for test in tests.iter_mut() {
            test.finish(&mut lot, num_single_unparks);
        }
        for thread in numbers {
            lot.drop_thread(thread);
        }
    }
}

#[test]
fn unpark_all_one_fast() {
    run_parking_test(10000, 1, 1, 0);
}

#[test]
fn unpark_all_hundred_fast() {
    run_parking_test(100, 1, 100, 0);
}

#[test]
fn unpark_one_one_fast() {
    run_parking_test(1000, 1, 1, 1);
}

#[test]
fn unpark_one_hundred_fast() {
    run_parking_test(20, 1, 100, 100);
}

#[test]
fn unpark_one_fifty_then_fifty_all_fast() {
    run_parking_test(50, 1, 100, 50);
}

#[test]
fn unpark_all_one() {
    run_parking_test(100, 1, 1, 0);
}

#[test]
fn unpark_all_hundred() {
    run_parking_test(100, 1, 100, 0);
}

#[test]
fn unpark_one_one() {
    run_parking_test(10, 1, 1, 1);
}

#[test]
fn unpark_one_fifty() {
    run_parking_test(1, 1, 50, 50);
}

#[test]
fn unpark_one_fifty_then_fifty_all() {
    run_parking_test(2, 1, 100, 50);
}

#[test]
fn hundred_unpark_all_one_fast() {
    run_parking_test(100, 100, 1, 0);
}

#[test]
fn hundred_unpark_all_one() {
    run_parking_test(1, 100, 1, 0);
}
