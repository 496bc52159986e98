//! Long runs of operations, held against plain queues.
use parking_lot_core::lot::ParkingLot;
use parking_lot_core::park::{park, park_timed_out, park_unparked, ParkStep};
use parking_lot_core::tokens::{FilterOp, ParkResult, ParkToken, RequeueOp, UnparkToken};
use parking_lot_core::{unpark_all, unpark_filter, unpark_one, unpark_requeue};

const KEYS: [usize; 6] = [0, 1, 0x1000, 0x1040, 0xdead_beef, usize::MAX];

/// A generator of numbers.
struct Numbers(u64);

impl Numbers {
    fn below(&mut self, bound: usize) -> usize {
        self.0 = self
            .0
            .wrapping_mul(6364136223846793005)
            .wrapping_add(1442695040888963407);
        (self.0 >> 33) as usize % bound
    }
}

/// What the lot is held against: who is awake, and the queue of each key.
struct Expected {
    awake: Vec<usize>,
    queues: Vec<Vec<usize>>,
}

fn step(lot: &mut ParkingLot, expected: &mut Expected, numbers: &mut Numbers) {
    let k = numbers.below(KEYS.len());
    let key = KEYS[k];
    let token = numbers.below(100);
    match numbers.below(8) {
        0..=2 => {
            if expected.awake.is_empty() {
                return;
            }
            let i = numbers.below(expected.awake.len());
            let thread = expected.awake.swap_remove(i);
            let bucket = lot.lock_bucket(key).unwrap();
            let timeout = Some(instant::Instant::now());
            let step = park(lot, thread, bucket, key, || true, ParkToken(thread), timeout);
            assert_eq!(step, ParkStep::Sleep);
            expected.queues[k].push(thread);
        }
        3 => {
            let bucket = lot.lock_bucket(key).unwrap();
            let (result, thread) = unpark_one(lot, bucket, key, |_| UnparkToken(token));
            let queue = &mut expected.queues[k];
            if queue.is_empty() {
                assert_eq!((result.unparked_threads, thread), (0, None));
            } else {
                let first = queue.remove(0);
                assert_eq!((result.unparked_threads, thread), (1, Some(first)));
                assert_eq!(park_unparked(lot, first), ParkResult::Unparked(UnparkToken(token)));
                expected.awake.push(first);
            }
            assert_eq!(result.have_more_threads, !queue.is_empty());
        }
        4 => {
            let bucket = lot.lock_bucket(key).unwrap();
            let (num, threads) = unpark_all(lot, bucket, key, UnparkToken(token));
            assert_eq!(threads, expected.queues[k]);
            assert_eq!(num, threads.len());
            expected.awake.append(&mut expected.queues[k]);
        }
        5 => {
            let picked = numbers.below(3);
            let bucket = lot.lock_bucket(key).unwrap();
            let (result, threads) = unpark_filter(
                lot,
                bucket,
                key,
                |token| {
                    if token.0 % 3 == picked {
                        FilterOp::Unpark
                    } else {
                        FilterOp::Skip
                    }
                },
                |_| UnparkToken(token),
            );
            let queue = std::mem::take(&mut expected.queues[k]);
            let (gone, stay): (Vec<usize>, Vec<usize>) =
                queue.into_iter().partition(|thread| thread % 3 == picked);
            assert_eq!(threads, gone);
            assert_eq!(result.unparked_threads, gone.len());
            assert_eq!(
                result.have_more_threads,
                !gone.is_empty() && !stay.is_empty()
            );
            expected.awake.extend(gone);
            expected.queues[k] = stay;
        }
        6 => {
            let to = numbers.below(KEYS.len());
            let op = [
                RequeueOp::Abort,
                RequeueOp::UnparkOneRequeueRest,
                RequeueOp::RequeueAll,
                RequeueOp::UnparkOne,
                RequeueOp::RequeueOne,
            ][numbers.below(5)];
            let (from_bucket, to_bucket) = lot.lock_bucket_pair(key, KEYS[to]).unwrap();
            let (result, thread) = unpark_requeue(
                lot,
                from_bucket,
                to_bucket,
                key,
                KEYS[to],
                || op,
                |_, _| UnparkToken(token),
            );
            let sleepers = std::mem::take(&mut expected.queues[k]);
            let taken = match op {
                RequeueOp::Abort => 0,
                RequeueOp::UnparkOne | RequeueOp::RequeueOne => sleepers.len().min(1),
                _ => sleepers.len(),
            };
            let woken = match op {
                RequeueOp::UnparkOne | RequeueOp::UnparkOneRequeueRest => taken.min(1),
                _ => 0,
            };
            assert_eq!(result.unparked_threads, woken);
            assert_eq!(result.requeued_threads, taken - woken);
            assert_eq!(thread, sleepers[..woken].first().copied());
            expected.awake.extend(&sleepers[..woken]);
            expected.queues[k] = sleepers[taken..].to_vec();
            expected.queues[to].extend(&sleepers[woken..taken]);
            let more = match op {
                RequeueOp::UnparkOneRequeueRest => !expected.queues[to].is_empty(),
                _ => !expected.queues[k].is_empty(),
            };
            assert_eq!(result.have_more_threads, woken > 0 && more);
        }
        _ => {
            if expected.queues[k].is_empty() {
                return;
            }
            let i = numbers.below(expected.queues[k].len());
            let thread = expected.queues[k].remove(i);
            let (found, bucket) = lot.lock_bucket_checked(thread).unwrap();
            assert_eq!(found, key);
            let mut seen = None;
            let result = park_timed_out(lot, thread, bucket, |key, last| seen = Some((key, last)));
            assert_eq!(result, ParkResult::TimedOut);
            assert_eq!(seen, Some((key, expected.queues[k].is_empty())));
            expected.awake.push(thread);
        }
    }
}

fn run(seed: u64, threads: usize, steps: usize) {
    let mut numbers = Numbers(seed);
    let mut lot = ParkingLot::new();
    let mut expected = Expected {
        awake: Vec::new(),
        queues: vec![Vec::new(); KEYS.len()],
    };
    for i in 0..steps {
        // Threads join as time goes by, so that the table grows under way
        if i * threads / steps >= lot.num_threads() {
            let number = lot.new_thread().unwrap();
            expected.awake.push(number);
        }
        step(&mut lot, &mut expected, &mut numbers);
        for (k, key) in KEYS.iter().enumerate() {
            assert_eq!(lot.parked_threads(*key), expected.queues[k]);
        }
    }
}

#[test]
fn random_steps_of_few_threads() {
    for seed in 0..20 {
        run(seed, 4, 500);
    }
}

#[test]
fn random_steps_of_many_threads() {
    for seed in 100..105 {
        run(seed, 60, 3000);
    }
}
