# parking_lot_core

Queues of sleeping threads, keyed by address: the base on which mutexes,
condition variables and other synchronization primitives are built. The library
is written in Rust and verified with Verus.

- `src/` is the verified library. `lot::ParkingLot` holds all state: the records
  of the threads, and the hash table whose buckets hold the queues. Its
  operations are steps that never wait. `model.rs` says what the state is,
  `laws.rs`, `deadlock_laws.rs` and `history.rs` state what the operations
  promise together.
- `tests/` runs the library, one step at a time.
- `app/` shares one parking lot among the threads of a process: it does the
  waiting, the sleeping and the waking.
