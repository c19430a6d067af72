# Task storage

The in-memory storage of a task backend, written in Rust and verified with Verus.

Tasks live in a concurrent map. Before a part of a task is modified, the modification is tracked, in
flags on the task and in a list of modified tasks. A snapshot takes that list and hands the modified
tasks to the persistence layer. Tasks may be modified while this goes on: where that happens, the
task is copied first, the snapshot hands out the copy, and the new modification becomes part of the
next snapshot.

* `src/` is the verified library. `state.rs` describes the storage as a mathematical value and each
  operation as a function on it; the contracts in `storage.rs` and `snapshot.rs` say that the
  operations do just that. `laws.rs` proves what holds across operations: that no task is listed
  twice, that no modification is lost, that a snapshot hands out every modified task once, as it was
  when the snapshot was started, and that the next one hands out what was modified meanwhile.
* `src/maps.rs` holds the calls into the `dashmap` crate. What it says of them is not proved.
* `tests/` runs the library.
* `app/` shares a storage between threads. It ends a snapshot when its last iterator is dropped.

The operations borrow the storage mutably, so each of them is verified as one undisturbed step. The
end of a snapshot consists of several such steps, which can also be called one by one; the laws are
about every order in which the steps of several users of the storage can follow each other.
