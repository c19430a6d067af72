//! The in-memory storage of a task backend.
//!
//! Tasks live in a concurrent map. Every modification of a task is tracked in flags on the task and
//! in a sharded list of modified task ids, so that a snapshot can hand the modified tasks to the
//! persistence layer while they are modified again: a task that is touched during a snapshot is
//! copied first, and the copy is what the snapshot sees.
//!
//! * [`category`]: the categories of task data and their key spaces.
//! * [`task`]: a task, its flags and what a snapshot copies of it.
//! * [`sharded`]: the sharded list of modified task ids.
//! * [`maps`]: the calls into the `dashmap` crate.
//! * [`state`]: the storage as a mathematical value, and what each operation does to it.
//! * [`storage`]: the storage, write access to its tasks, and the end of a snapshot.
//! * [`snapshot`]: taking a snapshot and walking through what was modified.
//! * [`fields`]: what each operation does to each field.
//! * [`laws`]: what holds of the storage across operations.

pub mod category;
pub mod maps;
pub mod sharded;
pub mod snapshot;
pub mod state;
pub mod storage;
pub mod task;
pub mod fields;
pub mod laws;
