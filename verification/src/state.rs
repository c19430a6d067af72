//! The storage as a mathematical value, and what each operation does to it.

use crate::category::SpecificTaskDataCategory;
use crate::task::{TaskFlags, TaskId, TaskState};
use vstd::prelude::*;

verus! {

/// Everything that the storage holds.
#[verifier::ext_equal]
pub struct StorageState {
    pub snapshot_mode: bool,
    /// The ids of the tasks that were modified since the last snapshot, in shards.
    pub modified: Seq<Seq<TaskId>>,
    /// The tasks that were modified during the current snapshot.
    pub snapshots: Map<TaskId, Option<TaskState>>,
    pub tasks: Map<TaskId, TaskState>,
    /// The number of shards that the map of tasks was made with.
    pub task_shards: nat,
    /// The number of shards that the map of snapshots was made with.
    pub snapshot_shards: nat,
}

/// Whether a sequence holds each of the keys once, in whatever order.
pub open spec fn lists_once(order: Seq<TaskId>, keys: Set<TaskId>) -> bool {
    &&& order.no_duplicates()
    &&& forall|key: TaskId| #[trigger] order.contains(key) <==> keys.contains(key)
}

impl StorageState {
    /// A storage without any task. The map of snapshots has its own number of shards.
    pub open spec fn fresh(shard_amount: nat) -> StorageState {
        StorageState {
            snapshot_mode: false,
            modified: crate::sharded::no_keys(shard_amount),
            snapshots: Map::empty(),
            tasks: Map::empty(),
            task_shards: shard_amount,
            snapshot_shards: crate::storage::SNAPSHOT_SHARDS as nat,
        }
    }

    /// The list of modified tasks has at least one shard.
    pub open spec fn wf(self) -> bool {
        self.modified.len() > 0
    }

    pub open spec fn start(self) -> StorageState {
        StorageState { snapshot_mode: true, ..self }
    }

    pub open spec fn leave(self) -> StorageState {
        StorageState { snapshot_mode: false, ..self }
    }

    /// With a task of the given id: the one that is there, or else a fresh one.
    pub open spec fn access(self, key: TaskId) -> StorageState {
        if self.tasks.contains_key(key) {
            self
        } else {
            StorageState { tasks: self.tasks.insert(key, TaskState::fresh()), ..self }
        }
    }

    pub open spec fn with_task(self, key: TaskId, task: TaskState) -> StorageState {
        StorageState { tasks: self.tasks.insert(key, task), ..self }
    }

    pub open spec fn with_flags(self, key: TaskId, flags: TaskFlags) -> StorageState {
        self.with_task(key, self.tasks[key].with_flags(flags))
    }

    pub open spec fn with_snapshot(self, key: TaskId, copy: Option<TaskState>) -> StorageState {
        StorageState { snapshots: self.snapshots.insert(key, copy), ..self }
    }

    /// With the id appended to the list of modified tasks.
    pub open spec fn with_listed(self, key: TaskId) -> StorageState {
        StorageState { modified: crate::sharded::with_key(self.modified, key), ..self }
    }

    /// After a modification of one category of a task was tracked.
    ///
    /// Outside snapshot mode the category counts as modified, and the first modification of a task
    /// puts the task on the list. In snapshot mode the category counts as modified during the
    /// snapshot, and the first such modification of a task enters the task among the snapshots: with
    /// a copy where the task had been modified before, in whichever category, and else without.
    pub open spec fn track(self, key: TaskId, category: SpecificTaskDataCategory) -> StorageState {
        let flags = self.tasks[key].flags;
        if flags.snapshot(category) {
            self
        } else if self.snapshot_mode {
            let entered = if flags.some_snapshot() {
                self
            } else if flags.some_modified() {
                self.with_snapshot(key, Some(self.tasks[key].kept()))
            } else {
                self.with_snapshot(key, None)
            };
            entered.with_flags(key, flags.with_snapshot(category, true))
        } else if flags.modified(category) {
            self
        } else {
            let entered = if flags.some_snapshot() || flags.some_modified() {
                self
            } else {
                self.with_listed(key)
            };
            entered.with_flags(key, flags.with_modified(category, true))
        }
    }

    /// With the list of modified tasks taken away.
    pub open spec fn take_modified(self) -> StorageState {
        StorageState { modified: crate::sharded::no_keys(self.modified.len()), ..self }
    }

    /// With the copy of a task taken away. The task stays among the snapshots.
    pub open spec fn take_copy(self, key: TaskId) -> StorageState {
        if self.snapshots.contains_key(key) {
            self.with_snapshot(key, None)
        } else {
            self
        }
    }

    /// Whether the snapshot has a copy of the task that it has not handed out.
    pub open spec fn has_copy(self, key: TaskId) -> bool {
        self.snapshots.contains_key(key) && self.snapshots[key] is Some
    }

    /// Whether the snapshot hands the task out when it comes to it: from a copy, or else from the
    /// task itself where that is modified.
    pub open spec fn hands_out(self, key: TaskId) -> bool {
        self.tasks.contains_key(key) && (self.has_copy(key) || self.tasks[key].flags.some_modified())
    }

    /// How many of the ids come before the first that is handed out.
    pub open spec fn skipped(self, ids: Seq<TaskId>) -> nat
        decreases ids.len(),
    {
        if ids.len() == 0 || self.hands_out(ids[0]) {
            0
        } else {
            1 + self.skipped(ids.drop_first())
        }
    }

    /// The ids that are handed out in turn when nothing else happens to the storage.
    pub open spec fn walk(self, ids: Seq<TaskId>) -> Seq<TaskId>
        decreases ids.len(),
    {
        let n = self.skipped(ids) as int;
        if n >= ids.len() {
            Seq::empty()
        } else {
            seq![ids[n]] + self.take_copy(ids[n]).walk(ids.skip(n + 1))
        }
    }

    /// What the snapshot hands out for a task: the copy, if there is one, and else the task itself.
    pub open spec fn handed_out(self, key: TaskId) -> TaskState {
        if self.has_copy(key) {
            self.snapshots[key]->0
        } else {
            self.tasks[key]
        }
    }

    /// What the snapshot hands out for a category of a task: its bytes, where it is modified.
    pub open spec fn captured(self, key: TaskId, category: SpecificTaskDataCategory) -> Option<Seq<u8>> {
        let task = self.handed_out(key);
        if task.flags.modified(category) {
            Some(task.part(category))
        } else {
            None
        }
    }

    /// With the modifications of one task cleared.
    pub open spec fn clear(self, key: TaskId) -> StorageState {
        if self.tasks.contains_key(key) {
            self.with_flags(key, self.tasks[key].flags.with_modifications_cleared())
        } else {
            self
        }
    }

    /// With the modifications of all the given tasks cleared.
    pub open spec fn clear_all(self, keys: Set<TaskId>) -> StorageState {
        StorageState {
            tasks: Map::new(
                |key: TaskId| self.tasks.contains_key(key),
                |key: TaskId|
                    if keys.contains(key) {
                        self.tasks[key].with_flags(self.tasks[key].flags.with_modifications_cleared())
                    } else {
                        self.tasks[key]
                    },
            ),
            ..self
        }
    }

    /// With what was modified of one task during the snapshot counted as modified since, and the
    /// task on the list of modified tasks.
    pub open spec fn requeue(self, key: TaskId) -> StorageState {
        if self.tasks.contains_key(key) {
            self.with_listed(key).with_flags(key, self.tasks[key].flags.with_snapshot_as_modified())
        } else {
            self
        }
    }

    /// With all the given tasks requeued. Each shard gets its own in the given order.
    pub open spec fn requeue_all(self, order: Seq<TaskId>) -> StorageState {
        StorageState {
            tasks: Map::new(
                |key: TaskId| self.tasks.contains_key(key),
                |key: TaskId|
                    if order.contains(key) {
                        self.tasks[key].with_flags(self.tasks[key].flags.with_snapshot_as_modified())
                    } else {
                        self.tasks[key]
                    },
            ),
            modified: Seq::new(
                self.modified.len(),
                |i: int| self.modified[i] + order.filter(|key: TaskId| self.belongs(key, i)),
            ),
            ..self
        }
    }

    /// Whether a task of this id exists and belongs to the given shard of the list.
    pub open spec fn belongs(self, key: TaskId, shard: int) -> bool {
        self.tasks.contains_key(key) && crate::sharded::shard_of(key, self.modified.len()) == shard
    }

    pub open spec fn without_snapshots(self) -> StorageState {
        StorageState { snapshots: Map::empty(), ..self }
    }

    /// After the end of a snapshot that took the given lists. The tasks that were modified during
    /// the snapshot are requeued in the given order.
    pub open spec fn end(self, taken: Seq<Seq<TaskId>>, order: Seq<TaskId>) -> StorageState {
        self.clear_all(crate::sharded::listed_keys(taken)).leave().requeue_all(order).without_snapshots()
    }

    /// Without tasks. Snapshot mode stays as it is.
    pub open spec fn dropped(self) -> StorageState {
        StorageState {
            modified: crate::sharded::no_keys(self.modified.len()),
            snapshots: Map::empty(),
            tasks: Map::empty(),
            ..self
        }
    }
}

/// Requeuing nothing changes nothing.
pub proof fn lemma_requeue_none(state: StorageState)
    ensures
        state == state.requeue_all(Seq::empty()),
{
    let none = state.requeue_all(Seq::empty());
    assert forall|i: int| 0 <= i < state.modified.len() implies none.modified[i] == state.modified[i] by {
        let belongs = |key: TaskId| state.belongs(key, i);
        reveal(Seq::filter);
        assert(Seq::<TaskId>::empty().filter(belongs) =~= Seq::empty());
        assert(none.modified[i] =~= state.modified[i]);
    }
    assert(none.modified =~= state.modified);
    assert(none.tasks =~= state.tasks);
}

/// Requeuing one more task is a step of its own.
pub proof fn lemma_requeue_next(state: StorageState, order: Seq<TaskId>, key: TaskId)
    requires
        state.wf(),
    ensures
        state.requeue_all(order.push(key)) == state.requeue_all(order).requeue(key),
{
    let next = state.requeue_all(order.push(key));
    let step = state.requeue_all(order).requeue(key);
    assert forall|other: TaskId| order.push(key).contains(other) <==> order.contains(other) || other == key by {
        if order.contains(other) {
            let n = choose|n: int| 0 <= n < order.len() && order[n] == other;
            assert(order.push(key)[n] == other);
        }
        assert(order.push(key)[order.len() as int] == key);
    }
    assert(next.tasks =~= step.tasks);
    assert forall|i: int| 0 <= i < state.modified.len() implies next.modified[i] == step.modified[i] by {
        let belongs = |other: TaskId| state.belongs(other, i);
        assert(order.push(key).filter(belongs) =~= (if belongs(key) {
            order.filter(belongs).push(key)
        } else {
            order.filter(belongs)
        })) by {
            reveal(Seq::filter);
            assert(order.push(key).drop_last() =~= order);
        }
        assert(next.modified[i] =~= step.modified[i]);
    }
    assert(next.modified =~= step.modified);
}

} // verus!
