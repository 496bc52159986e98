//! The parking lot: queues of sleeping threads, keyed by address, from which
//! synchronization primitives of any size can be built.
//!
//! A thread parks itself in the queue associated with a key and sleeps until
//! another thread unparks it, or until a timeout. The queues live in the
//! buckets of a hash table, which grows with the number of threads. Each bucket
//! has a lock. A thread takes the lock of the bucket of its key, and hands the
//! proof that it holds it to the operation, which frees it.
//!
//! All state is in a [`lot::ParkingLot`]. Its operations are steps: none of
//! them waits, neither for a lock nor for a thread. Where a lock is held, the
//! attempt to take it says so. Where a thread has to sleep or to be woken, the
//! operation says so. The caller does the waiting, the sleeping and the waking.
//!
//! What an operation does is stated over [`model::LotView`]. What this means
//! for the threads, the buckets and the clock, field by field, is stated, and
//! proved, in [`effects`], [`table_effects`] and [`deadlock_effects`]. What it
//! means for the queues of the keys is in [`laws`], what the deadlock detector
//! finds is in [`deadlock_laws`], and what holds over any number of operations
//! is in [`history`].
pub mod cycles;
pub mod deadlock;
pub mod deadlock_check;
pub mod deadlock_data;
pub mod deadlock_effects;
pub mod deadlock_laws;
pub mod effects;
pub mod fair_timeout;
pub mod hash;
pub mod hash_table;
pub mod history;
pub mod laws;
pub mod lock;
pub mod locking;
pub mod lot;
pub mod lot_queues;
pub mod model;
pub mod park;
pub mod queue;
pub mod queue_ops;
pub mod requeue;
pub mod requeue_walk;
pub mod search_facts;
pub mod seq_facts;
pub mod table_effects;
pub mod thread_data;
pub mod time;
pub mod tokens;
pub mod unpark;
pub mod validity;
pub mod wait_cycles;
pub mod wait_edges;
pub mod wait_graph;
pub mod wake_list;

pub use crate::deadlock::{acquire_resource, owns_resource, release_resource, DeadlockedThread};
pub use crate::deadlock_check::check_deadlock;
pub use crate::lot::ParkingLot;
pub use crate::park::{park, park_timed_out, park_unparked, ParkStep};
pub use crate::requeue::unpark_requeue;
pub use crate::tokens::{
    FilterOp, ParkResult, ParkToken, RequeueOp, UnparkResult, UnparkToken,
};
pub use crate::unpark::{unpark_all, unpark_filter, unpark_one};
