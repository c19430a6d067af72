use crate::storage::Storage;
use crate::task::{TaskId, TaskStorage};
use std::sync::Arc;
use vstd::prelude::*;

verus! {

/// The size that a scratch buffer starts with.
pub const SCRATCH_BUFFER_SIZE: usize = 4096;

/// The ids from a position on: those of the given list from the given index, and those of the lists
/// after it up to the given end.
pub open spec fn ids_from(lists: Seq<Seq<TaskId>>, shard: int, idx: int, end: int) -> Seq<TaskId>
    decreases end - shard,
{
    if shard >= end {
        Seq::empty()
    } else {
        lists[shard].skip(idx) + ids_from(lists, shard + 1, 0, end)
    }
}

/// Where the range of shards that a chunk covers starts, and where that of the chunk before it ends.
pub open spec fn chunk_start(chunk: int, chunk_size: int, shard_amount: int) -> int {
    if chunk * chunk_size <= shard_amount {
        chunk * chunk_size
    } else {
        shard_amount
    }
}

/// What a snapshot took.
pub struct SnapshotGuard {
    /// The ids of the tasks that were modified when the snapshot was taken.
    pub modified_tasks: Vec<Vec<TaskId>>,
}

impl SnapshotGuard {
    /// Ends the snapshot. This comes after the last use of its shards.
    pub fn release(&self, storage: &mut Storage)
        requires
            old(storage)@.wf(),
        ensures
            exists|order: Seq<TaskId>|
                {
                    &&& crate::state::lists_once(order, old(storage)@.snapshots.dom())
                    &&& final(storage)@ == old(storage)@.end(
                        crate::sharded::lists(self.modified_tasks@),
                        order,
                    )
                },
    {
        storage.end_snapshot(&self.modified_tasks);
    }
}

/// Walks through the tasks of a range of shards that a snapshot took.
pub struct SnapshotShard<'l, PP, P, PS> {
    /// End of the range of shards, exclusive.
    pub(crate) end_shard: usize,
    pub(crate) current_shard: usize,
    /// Index in the current shard.
    pub(crate) current_idx: usize,
    pub(crate) guard: Arc<SnapshotGuard>,
    pub(crate) preprocess: &'l PP,
    pub(crate) process: &'l P,
    pub(crate) process_snapshot: &'l PS,
    /// For encoding, and used again for each task.
    pub(crate) scratch_buffer: Vec<u8>,
}

impl<'l, PP, P, PS> SnapshotShard<'l, PP, P, PS> {
    /// Where the range of shards ends.
    pub open(crate) spec fn end_shard(self) -> int {
        self.end_shard as int
    }

    /// The shard in which the next id is looked for.
    pub open(crate) spec fn current_shard(self) -> int {
        self.current_shard as int
    }

    /// Where in that shard the next id is looked for.
    pub open(crate) spec fn current_idx(self) -> int {
        self.current_idx as int
    }

    /// The lists that the snapshot took.
    pub open(crate) spec fn lists(self) -> Seq<Seq<TaskId>> {
        crate::sharded::lists(self.guard.modified_tasks@)
    }

    pub open(crate) spec fn preprocess(self) -> PP {
        *self.preprocess
    }

    pub open(crate) spec fn process(self) -> P {
        *self.process
    }

    pub open(crate) spec fn process_snapshot(self) -> PS {
        *self.process_snapshot
    }

    pub open(crate) spec fn scratch_buffer(self) -> Vec<u8> {
        self.scratch_buffer
    }

    /// Whether two values are of the same walk: they may differ in the position that it has reached
    /// and in the scratch buffer.
    pub open spec fn same_walk(self, other: Self) -> bool {
        &&& self.end_shard() == other.end_shard()
        &&& self.lists() == other.lists()
        &&& self.preprocess() == other.preprocess()
        &&& self.process() == other.process()
        &&& self.process_snapshot() == other.process_snapshot()
    }

    /// The position is in the range of shards, or at its end.
    pub open spec fn wf(self) -> bool {
        &&& 0 <= self.current_shard() <= self.end_shard() <= self.lists().len()
        &&& self.current_shard() < self.end_shard() ==> 0 <= self.current_idx() <= self.lists()[self.current_shard()].len()
    }

    /// The ids that are still to be looked at, in order.
    pub open spec fn remaining(self) -> Seq<TaskId> {
        ids_from(self.lists(), self.current_shard(), self.current_idx(), self.end_shard())
    }

    /// What the snapshot took.
    pub fn guard(&self) -> (guard: Arc<SnapshotGuard>)
        ensures
            crate::sharded::lists(guard.modified_tasks@) == self.lists(),
    {
        self.guard.clone()
    }
}

impl Storage {
    /// Starts a snapshot, unless it was started already, and takes the list of modified tasks. Each
    /// of the returned shards walks through the tasks of a range of shards of that list, and applies
    /// the given functions to each task:
    /// - `preprocess` and then `process` to a task that was not modified during the snapshot,
    /// - `process_snapshot` to the copy of a task that was.
    ///
    /// Both `process` and `process_snapshot` get a scratch buffer.
    ///
    /// A chunk is a range of shards that one [`SnapshotShard`] covers. Its size should follow the
    /// parallelism of the machine.
    pub fn take_snapshot<'l, T, I, PP, P, PS>(
        &mut self,
        chunk_size: usize,
        preprocess: &'l PP,
        process: &'l P,
        process_snapshot: &'l PS,
    ) -> (shards: Vec<SnapshotShard<'l, PP, P, PS>>) where
        PP: Fn(TaskId, &TaskStorage) -> T + Sync,
        P: Fn(TaskId, T, &mut Vec<u8>) -> I + Sync,
        PS: Fn(TaskId, Box<TaskStorage>, &mut Vec<u8>) -> I + Sync,

        requires
            chunk_size > 0,
        ensures
            final(self)@ == old(self)@.start().take_modified(),
            (shards.len() - 1) * chunk_size < old(self)@.modified.len() <= shards.len() * chunk_size,
            forall|i: int|
                0 <= i < shards.len() ==> {
                    &&& (#[trigger] shards[i]).wf()
                    &&& shards[i].lists() == old(self)@.modified
                    &&& shards[i].current_shard() == chunk_start(
                        i,
                        chunk_size as int,
                        old(self)@.modified.len() as int,
                    )
                    &&& shards[i].end_shard() == chunk_start(
                        i + 1,
                        chunk_size as int,
                        old(self)@.modified.len() as int,
                    )
                    &&& shards[i].current_idx() == 0
                    &&& shards[i].current_shard() < shards[i].end_shard()
                    &&& shards[i].preprocess() == *preprocess
                    &&& shards[i].process() == *process
                    &&& shards[i].process_snapshot() == *process_snapshot
                    &&& shards[i].scratch_buffer()@ == Seq::<u8>::empty()
                },
    {
        if !self.snapshot_mode() {
            self.start_snapshot();
        }
        assert(self@ == old(self)@.start());
        let modified_tasks = self.take_modified();
        let num_shards = modified_tasks.len();
        let guard = Arc::new(SnapshotGuard { modified_tasks });
        let mut shards: Vec<SnapshotShard<'l, PP, P, PS>> = Vec::new();
        let mut start_shard: usize = 0;
        assert(0 * chunk_size == 0) by (nonlinear_arith);
        while start_shard < num_shards
            invariant
                chunk_size > 0,
                num_shards == guard.modified_tasks.len(),
                crate::sharded::lists(guard.modified_tasks@) == old(self)@.modified,
                start_shard == chunk_start(shards.len() as int, chunk_size as int, num_shards as int),
                (shards.len() - 1) * chunk_size < num_shards || shards.len() == 0,
                forall|i: int|
                    0 <= i < shards.len() ==> {
                        &&& (#[trigger] shards[i]).guard == guard
                        &&& shards[i].current_shard == chunk_start(i, chunk_size as int, num_shards as int)
                        &&& shards[i].current_shard < num_shards
                        &&& shards[i].current_idx == 0
                        &&& shards[i].end_shard == chunk_start(i + 1, chunk_size as int, num_shards as int)
                        &&& shards[i].current_shard < shards[i].end_shard <= num_shards
                        &&& *shards[i].preprocess == *preprocess
                        &&& *shards[i].process == *process
                        &&& *shards[i].process_snapshot == *process_snapshot
                        &&& shards[i].scratch_buffer@ == Seq::<u8>::empty()
                    },
            decreases num_shards - start_shard,
        {
            proof {
                let count = shards.len() as int;
                assert((count + 1) * chunk_size == count * chunk_size + chunk_size) by (nonlinear_arith);
            }
            let end_shard: usize = if num_shards - start_shard <= chunk_size {
                num_shards
            } else {
                start_shard + chunk_size
            };
            shards.push(
                SnapshotShard {
                    end_shard,
                    current_shard: start_shard,
                    current_idx: 0,
                    guard: guard.clone(),
                    preprocess,
                    process,
                    process_snapshot,
                    scratch_buffer: Vec::with_capacity(SCRATCH_BUFFER_SIZE),
                },
            );
            start_shard = end_shard;
        }
        proof {
            let count = shards.len() as int;
            assert(count == 0 ==> (count - 1) * chunk_size < 0) by (nonlinear_arith)
                requires
                    chunk_size > 0,
            ;
        }
        shards
    }
}

/// A position at which there is an id: the id comes first.
proof fn lemma_ids_from_id(lists: Seq<Seq<TaskId>>, shard: int, idx: int, end: int)
    requires
        0 <= shard < end <= lists.len(),
        0 <= idx < lists[shard].len(),
    ensures
        ids_from(lists, shard, idx, end).len() > 0,
        ids_from(lists, shard, idx, end)[0] == lists[shard][idx],
        ids_from(lists, shard, idx, end).drop_first() == ids_from(lists, shard, idx + 1, end),
{
    let ids = ids_from(lists, shard, idx, end);
    assert(ids[0] == lists[shard].skip(idx)[0]);
    assert(ids.drop_first() =~= ids_from(lists, shard, idx + 1, end));
}

/// A position at the end of a shard is the same as the start of the next one.
proof fn lemma_ids_from_shard(lists: Seq<Seq<TaskId>>, shard: int, end: int)
    requires
        0 <= shard < end <= lists.len(),
    ensures
        ids_from(lists, shard, lists[shard].len() as int, end) == ids_from(lists, shard + 1, 0, end),
{
    assert(ids_from(lists, shard, lists[shard].len() as int, end) =~= ids_from(lists, shard + 1, 0, end));
}

/// A task that a snapshot hands out.
pub enum Handout<T> {
    /// A task that has no copy, and what `preprocess` made of it.
    Task(TaskId, T),
    /// The copy of a task that was modified during the snapshot.
    Copy(TaskId, Box<TaskStorage>),
}

impl<'l, T, I, PP, P, PS> SnapshotShard<'l, PP, P, PS> where
    PP: Fn(TaskId, &TaskStorage) -> T + Sync,
    P: Fn(TaskId, T, &mut Vec<u8>) -> I + Sync,
    PS: Fn(TaskId, Box<TaskStorage>, &mut Vec<u8>) -> I + Sync,
 {
    /// Goes on to the next task that is to be handed out: from its copy, if there is one, and else,
    /// where it is modified, from the task itself. Ids whose task no longer exists are passed over.
    /// This calls `preprocess`, while the storage is borrowed.
    pub fn advance(&mut self, storage: &mut Storage) -> (handout: Option<Handout<T>>)
        requires
            old(self).wf(),
            forall|key: TaskId, task: &TaskStorage| #[trigger] call_requires(old(self).preprocess(), (key, task)),
        ensures
            final(self).wf(),
            final(self).same_walk(*old(self)),
            final(self).scratch_buffer() == old(self).scratch_buffer(),
            ({
                let ids = old(self).remaining();
                let n = old(storage)@.skipped(ids) as int;
                let key = ids[n];
                &&& handout is Some <==> n < ids.len()
                &&& handout is None ==> {
                    &&& final(self).remaining() == Seq::<TaskId>::empty()
                    &&& final(storage)@ == old(storage)@
                }
                &&& handout is Some ==> {
                    &&& final(self).remaining() == ids.skip(n + 1)
                    &&& final(storage)@ == old(storage)@.take_copy(key)
                }
                &&& handout is Some && old(storage)@.has_copy(key) ==> {
                    &&& handout->0 is Copy
                    &&& handout->0->Copy_0 == key
                    &&& handout->0->Copy_1@ == old(storage)@.snapshots[key]->0
                }
                &&& handout is Some && !old(storage)@.has_copy(key) ==> {
                    &&& handout->0 is Task
                    &&& handout->0->Task_0 == key
                    &&& exists|task: &TaskStorage|
                        {
                            &&& task@ == old(storage)@.tasks[key]
                            &&& #[trigger] call_ensures(old(self).preprocess(), (key, task), handout->0->Task_1)
                        }
                }
            }),
    {
        let ghost lists = crate::sharded::lists(self.guard.modified_tasks@);
        let ghost ids = self.remaining();
        let ghost state = storage@;
        let ghost mut passed: int = 0;
        assert(ids.skip(0) =~= ids);
        while self.current_shard < self.end_shard
            invariant
                self.wf(),
                *self == (SnapshotShard { current_shard: self.current_shard, current_idx: self.current_idx, ..*old(self) }),
                forall|key: TaskId, task: &TaskStorage| #[trigger] call_requires(old(self).preprocess(), (key, task)),
                lists == crate::sharded::lists(self.guard.modified_tasks@),
                ids == old(self).remaining(),
                state == old(storage)@,
                storage@ == state,
                0 <= passed <= ids.len(),
                self.remaining() == ids.skip(passed),
                state.skipped(ids) == passed + state.skipped(ids.skip(passed)),
            decreases self.end_shard - self.current_shard,
        {
            let ghost shard_index = self.current_shard;
            let guard = self.guard.clone();
            let shard = &guard.modified_tasks[self.current_shard];
            while self.current_idx < shard.len()
                invariant
                    self.wf(),
                    *self == (SnapshotShard { current_shard: self.current_shard, current_idx: self.current_idx, ..*old(self) }),
                    forall|key: TaskId, task: &TaskStorage| #[trigger] call_requires(old(self).preprocess(), (key, task)),
                    lists == crate::sharded::lists(self.guard.modified_tasks@),
                    ids == old(self).remaining(),
                    state == old(storage)@,
                    storage@ == state,
                    0 <= passed <= ids.len(),
                    self.remaining() == ids.skip(passed),
                    state.skipped(ids) == passed + state.skipped(ids.skip(passed)),
                    self.current_shard < self.end_shard,
                    self.current_shard == shard_index,
                    shard@ == lists[self.current_shard as int],
                decreases shard.len() - self.current_idx,
            {
                let task_id = shard[self.current_idx];
                proof {
                    lemma_ids_from_id(
                        lists,
                        self.current_shard as int,
                        self.current_idx as int,
                        self.end_shard as int,
                    );
                    assert(ids.skip(passed)[0] == ids[passed]);
                    assert(ids.skip(passed).drop_first() =~= ids.skip(passed + 1));
                }
                self.current_idx += 1;
                if let Some(flags) = storage.flags(task_id) {
                    // The entry stays in the map of snapshots, where the end of the snapshot finds it.
                    if let Some(copy) = storage.take_copy(task_id) {
                        return Some(Handout::Copy(task_id, copy));
                    }
                    assert(storage@ =~= state);
                    if flags.any_modified() {
                        let preprocess = self.preprocess;
                        assert(*preprocess == old(self).preprocess());
                        let preprocessed = storage.read(
                            task_id,
                            |task: &TaskStorage| -> (value: T)
                                requires
                                    call_requires(*preprocess, (task_id, task))
                                ensures
                                    call_ensures(*preprocess, (task_id, task), value)
                                { preprocess(task_id, task) },
                        );
                        let value = preprocessed.unwrap();
                        let ghost the_value = value;
                        let handout = Some(Handout::Task(task_id, value));
                        assert(handout->0->Task_1 == the_value);
                        return handout;
                    }
                }
                proof {
                    passed = passed + 1;
                }
            }
            proof {
                lemma_ids_from_shard(lists, self.current_shard as int, self.end_shard as int);
            }
            self.current_shard += 1;
            self.current_idx = 0;
        }
        None
    }

    /// Applies `process` or `process_snapshot` to a task that was handed out. The storage is not
    /// needed for it.
    pub fn finish(&mut self, handout: Handout<T>) -> (item: I)
        requires
            forall|key: TaskId, value: T, buffer: &mut Vec<u8>| #[trigger]
                call_requires(old(self).process(), (key, value, buffer)),
            forall|key: TaskId, copy: Box<TaskStorage>, buffer: &mut Vec<u8>| #[trigger]
                call_requires(old(self).process_snapshot(), (key, copy, buffer)),
        ensures
            final(self).same_walk(*old(self)),
            final(self).current_shard() == old(self).current_shard(),
            final(self).current_idx() == old(self).current_idx(),
            handout is Task ==> exists|buffer: &mut Vec<u8>|
                {
                    &&& *buffer == old(self).scratch_buffer()
                    &&& *final(buffer) == final(self).scratch_buffer()
                    &&& #[trigger] call_ensures(old(self).process(), (handout->Task_0, handout->Task_1, buffer), item)
                },
            handout is Copy ==> exists|buffer: &mut Vec<u8>|
                {
                    &&& *buffer == old(self).scratch_buffer()
                    &&& *final(buffer) == final(self).scratch_buffer()
                    &&& #[trigger] call_ensures(
                        old(self).process_snapshot(),
                        (handout->Copy_0, handout->Copy_1, buffer),
                        item,
                    )
                },
    {
        match handout {
            Handout::Task(key, value) => {
                let process = self.process;
                assert(*process == old(self).process());
                process(key, value, &mut self.scratch_buffer)
            },
            Handout::Copy(key, copy) => {
                let process_snapshot = self.process_snapshot;
                assert(*process_snapshot == old(self).process_snapshot());
                process_snapshot(key, copy, &mut self.scratch_buffer)
            },
        }
    }

    /// Goes on to the next task that is to be handed out, and applies the functions of the snapshot
    /// to it: `process_snapshot` to its copy, if there is one, and else `preprocess` and `process` to
    /// the task itself.
    pub fn next(&mut self, storage: &mut Storage) -> (item: Option<I>)
        requires
            old(self).wf(),
            forall|key: TaskId, task: &TaskStorage| #[trigger] call_requires(old(self).preprocess(), (key, task)),
            forall|key: TaskId, value: T, buffer: &mut Vec<u8>| #[trigger]
                call_requires(old(self).process(), (key, value, buffer)),
            forall|key: TaskId, copy: Box<TaskStorage>, buffer: &mut Vec<u8>| #[trigger]
                call_requires(old(self).process_snapshot(), (key, copy, buffer)),
        ensures
            final(self).wf(),
            final(self).same_walk(*old(self)),
            ({
                let ids = old(self).remaining();
                let n = old(storage)@.skipped(ids) as int;
                let key = ids[n];
                &&& item is Some <==> n < ids.len()
                &&& item is None ==> {
                    &&& final(self).remaining() == Seq::<TaskId>::empty()
                    &&& final(self).scratch_buffer() == old(self).scratch_buffer()
                    &&& final(storage)@ == old(storage)@
                }
                &&& item is Some ==> {
                    &&& final(self).remaining() == ids.skip(n + 1)
                    &&& final(storage)@ == old(storage)@.take_copy(key)
                }
                &&& item is Some && old(storage)@.has_copy(key) ==> exists|copy: Box<TaskStorage>, buffer: &mut Vec<u8>|
                    {
                        &&& copy@ == old(storage)@.snapshots[key]->0
                        &&& *buffer == old(self).scratch_buffer()
                        &&& *final(buffer) == final(self).scratch_buffer()
                        &&& #[trigger] call_ensures(old(self).process_snapshot(), (key, copy, buffer), item->0)
                    }
                &&& item is Some && !old(storage)@.has_copy(key) ==> exists|
                    task: &TaskStorage,
                    value: T,
                    buffer: &mut Vec<u8>,
                |
                    {
                        &&& task@ == old(storage)@.tasks[key]
                        &&& #[trigger] call_ensures(old(self).preprocess(), (key, task), value)
                        &&& *buffer == old(self).scratch_buffer()
                        &&& *final(buffer) == final(self).scratch_buffer()
                        &&& #[trigger] call_ensures(old(self).process(), (key, value, buffer), item->0)
                    }
            }),
    {
        match self.advance(storage) {
            None => None,
            Some(handout) => {
                let item = self.finish(handout);
                let result = Some(item);
                assert(result->0 == item);
                result
            },
        }
    }
}

} // verus!
