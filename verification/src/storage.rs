use crate::category::SpecificTaskDataCategory;
use crate::maps::{
    snapshot_map_clear, snapshot_map_insert, snapshot_map_keys, snapshot_map_shrink_to_fit,
    snapshot_map_get_mut, snapshot_map_with_capacity, task_map_clear, task_map_entry, task_map_get,
    task_map_get_mut, task_map_with_capacity, SnapshotMap, TaskMap,
};
use crate::sharded::Sharded;
use crate::state::StorageState;
use crate::task::{TaskFlags, TaskId, TaskState, TaskStorage};
use vstd::prelude::*;

verus! {

/// Number of shards of the map of snapshots. It is small: few tasks are modified during a snapshot.
pub const SNAPSHOT_SHARDS: usize = 16;

/// The tasks of a map, as values.
pub open spec fn task_states(tasks: Map<TaskId, Box<TaskStorage>>) -> Map<TaskId, TaskState> {
    tasks.map_values(|task: Box<TaskStorage>| task@)
}

pub open spec fn copy_state(copy: Option<Box<TaskStorage>>) -> Option<TaskState> {
    match copy {
        Some(task) => Some(task@),
        None => None,
    }
}

/// The copies of a map, as values.
pub open spec fn copy_states(copies: Map<TaskId, Option<Box<TaskStorage>>>) -> Map<TaskId, Option<TaskState>> {
    copies.map_values(|copy: Option<Box<TaskStorage>>| copy_state(copy))
}

/// The tasks, and which of them were modified since the last snapshot and during the current one.
pub struct Storage {
    snapshot_mode: bool,
    /// The ids of the tasks that were modified since the last snapshot. An id is put here when the
    /// first flag of its task is set, so that it stands here once.
    modified: Sharded,
    /// The tasks that were modified during the current snapshot.
    /// - `Some(copy)`: the task had been modified before snapshot mode and was modified again during
    ///   it; the copy is the state before, which the snapshot is to hand out.
    /// - `None`: the task was first modified during snapshot mode and is not part of the snapshot, or
    ///   the snapshot has taken the copy.
    snapshots: SnapshotMap,
    map: TaskMap,
}

impl View for Storage {
    type V = StorageState;

    closed spec fn view(&self) -> StorageState {
        StorageState {
            snapshot_mode: self.snapshot_mode,
            modified: self.modified@,
            snapshots: copy_states(crate::maps::snapshots_of(self.snapshots)),
            tasks: task_states(crate::maps::tasks_of(self.map)),
            task_shards: crate::maps::task_shards_of(self.map),
            snapshot_shards: crate::maps::snapshot_shards_of(self.snapshots),
        }
    }
}

impl Storage {
    /// The number of tasks that the map of tasks is asked to make room for at the start.
    pub fn map_capacity(small_preallocation: bool) -> (capacity: usize)
        ensures
            capacity == (if small_preallocation { 1024usize } else { 1048576usize }),
    {
        if small_preallocation {
            1024
        } else {
            1024 * 1024
        }
    }

    /// An empty storage, with room for a thousand tasks or for a million.
    pub fn new(shard_amount: usize, small_preallocation: bool) -> (storage: Storage)
        requires
            crate::maps::valid_shard_amount(shard_amount),
        ensures
            storage@ == StorageState::fresh(shard_amount as nat),
    {
        let map_capacity: usize = Storage::map_capacity(small_preallocation);
        proof {
            vstd::arithmetic::power2::lemma2_to64();
            assert(SNAPSHOT_SHARDS == vstd::arithmetic::power2::pow2(4));
        }
        let storage = Storage {
            snapshot_mode: false,
            modified: Sharded::new(shard_amount),
            snapshots: snapshot_map_with_capacity(0, SNAPSHOT_SHARDS),
            map: task_map_with_capacity(map_capacity, shard_amount),
        };
        assert(storage@ =~= StorageState::fresh(shard_amount as nat));
        storage
    }

    /// Starts snapshot mode.
    pub fn start_snapshot(&mut self)
        ensures
            final(self)@ == old(self)@.start(),
    {
        self.snapshot_mode = true;
    }

    /// Whether a snapshot is active: then modifications go to the map of snapshots, and else to the
    /// list of modified tasks.
    pub fn snapshot_mode(&self) -> (active: bool)
        ensures
            active == self@.snapshot_mode,
    {
        self.snapshot_mode
    }

    /// Calls `f` on a task.
    pub(crate) fn read<R, F: FnOnce(&TaskStorage) -> R>(&self, key: TaskId, f: F) -> (result: Option<R>)
        requires
            forall|task: &TaskStorage|
                self@.tasks.contains_key(key) && task@ == self@.tasks[key] ==> #[trigger] call_requires(
                    f,
                    (task,),
                ),
        ensures
            result is Some <==> self@.tasks.contains_key(key),
            result is Some ==> exists|task: &TaskStorage|
                task@ == self@.tasks[key] && #[trigger] call_ensures(f, (task,), result->0),
    {
        task_map_get(&self.map, key, f)
    }

    /// Calls `f` on a task, which it may change.
    pub(crate) fn write<R, F: FnOnce(&mut TaskStorage) -> R>(&mut self, key: TaskId, f: F) -> (result: Option<R>)
        requires
            forall|task: &mut TaskStorage|
                old(self)@.tasks.contains_key(key) && task@ == old(self)@.tasks[key]
                    ==> #[trigger] call_requires(f, (task,)),
        ensures
            result is Some <==> old(self)@.tasks.contains_key(key),
            result is None ==> final(self)@ == old(self)@,
            result is Some ==> exists|task: &mut TaskStorage|
                {
                    &&& task@ == old(self)@.tasks[key]
                    &&& #[trigger] call_ensures(f, (task,), result->0)
                    &&& final(self)@ == old(self)@.with_task(key, final(task)@)
                },
    {
        let result = task_map_get_mut(&mut self.map, key, f);
        proof {
            if result is Some {
                let value = result->0;
                let task = choose|task: &mut TaskStorage|
                    {
                        &&& *task == *crate::maps::tasks_of(old(self).map)[key]
                        &&& #[trigger] call_ensures(f, (task,), value)
                        &&& crate::maps::tasks_of(self.map) == crate::maps::tasks_of(old(self).map).insert(
                            key,
                            Box::new(*final(task)),
                        )
                    };
                assert(self@ =~= old(self)@.with_task(key, final(task)@));
            }
        }
        result
    }

    pub(crate) fn flags(&self, key: TaskId) -> (flags: Option<TaskFlags>)
        ensures
            flags == (if self@.tasks.contains_key(key) {
                Some(self@.tasks[key].flags)
            } else {
                None
            }),
    {
        self.read(
            key,
            |task: &TaskStorage| -> (flags: TaskFlags)
                ensures
                    flags == task.flags
                { task.flags },
        )
    }

    fn set_flags(&mut self, key: TaskId, flags: TaskFlags)
        requires
            old(self)@.tasks.contains_key(key),
        ensures
            final(self)@ == old(self)@.with_flags(key, flags),
    {
        let _ = self.write(
            key,
            |task: &mut TaskStorage|
                ensures
                    *final(task) == (TaskStorage { flags, ..*old(task) })
                {
                    task.flags = flags;
                },
        );
    }

    /// Enters a task among the snapshots, with or without a copy.
    fn insert_copy(&mut self, key: TaskId, copy: Option<Box<TaskStorage>>)
        ensures
            final(self)@ == old(self)@.with_snapshot(key, copy_state(copy)),
    {
        let _ = snapshot_map_insert(&mut self.snapshots, key, copy);
        assert(self@ =~= old(self)@.with_snapshot(key, copy_state(copy)));
    }

    /// A copy of what a snapshot keeps of a task that has the given flags: the persistent fields and
    /// the modified flags.
    fn copy_task(&self, key: TaskId, flags: TaskFlags) -> (copy: TaskStorage)
        requires
            self@.tasks.contains_key(key),
            self@.tasks[key].flags == flags,
        ensures
            copy@ == self@.tasks[key].kept(),
    {
        let copied = self.read(
            key,
            |task: &TaskStorage| -> (copy: TaskStorage)
                ensures
                    copy@ == task@.persistent()
                { task.clone_snapshot() },
        );
        let mut copy = copied.unwrap();
        copy.flags.set_modified(SpecificTaskDataCategory::Data, flags.data_modified);
        copy.flags.set_modified(SpecificTaskDataCategory::Meta, flags.meta_modified);
        copy
    }

    /// Takes the copy of a task, if there is one. The task stays among the snapshots, where the end
    /// of the snapshot finds it.
    pub(crate) fn take_copy(&mut self, key: TaskId) -> (copy: Option<Box<TaskStorage>>)
        ensures
            final(self)@ == old(self)@.take_copy(key),
            copy_state(copy) == (if old(self)@.snapshots.contains_key(key) {
                old(self)@.snapshots[key]
            } else {
                None
            }),
    {
        let taken = snapshot_map_get_mut(
            &mut self.snapshots,
            key,
            |copy: &mut Option<Box<TaskStorage>>| -> (taken: Option<Box<TaskStorage>>)
                ensures
                    taken == *old(copy) && *final(copy) is None
                { copy.take() },
        );
        assert(self@ =~= old(self)@.take_copy(key));
        match taken {
            Some(copy) => copy,
            None => None,
        }
    }

    /// Takes the list of modified tasks and leaves an empty one.
    pub(crate) fn take_modified(&mut self) -> (taken: Vec<Vec<TaskId>>)
        ensures
            crate::sharded::lists(taken@) == old(self)@.modified,
            final(self)@ == old(self)@.take_modified(),
    {
        self.modified.take()
    }

    /// Clears the modified flags of the tasks that a snapshot has taken. The snapshot is still
    /// active, so that tasks that are modified from now on enter the snapshots.
    pub fn clear_modified(&mut self, modified_tasks: &Vec<Vec<TaskId>>)
        ensures
            final(self)@ == old(self)@.clear_all(
                crate::sharded::listed_keys(crate::sharded::lists(modified_tasks@)),
            ),
    {
        let ghost taken = crate::sharded::lists(modified_tasks@);
        let ghost mut done: Set<TaskId> = Set::empty();
        assert(self@ =~= old(self)@.clear_all(done));
        for i in 0..modified_tasks.len()
            invariant
                taken == crate::sharded::lists(modified_tasks@),
                self@ == old(self)@.clear_all(done),
                forall|key: TaskId| done.contains(key) <==> crate::sharded::listed(taken.take(i as int), key),
        {
            let task_ids = &modified_tasks[i];
            for j in 0..task_ids.len()
                invariant
                    0 <= i < modified_tasks.len(),
                    taken == crate::sharded::lists(modified_tasks@),
                    task_ids@ == taken[i as int],
                    self@ == old(self)@.clear_all(done),
                    forall|key: TaskId| #[trigger] done.contains(key) <==> {
                        ||| crate::sharded::listed(taken.take(i as int), key)
                        ||| task_ids@.take(j as int).contains(key)
                    },
            {
                let task_id = task_ids[j];
                let ghost before = self@;
                if let Some(flags) = self.flags(task_id) {
                    let mut flags = flags;
                    flags.set_modified(SpecificTaskDataCategory::Data, false);
                    flags.set_modified(SpecificTaskDataCategory::Meta, false);
                    flags.new_persistent_task = false;
                    self.set_flags(task_id, flags);
                }
                proof {
                    assert(self@ =~= before.clear(task_id));
                    assert(self@ =~= old(self)@.clear_all(done.insert(task_id)));
                    assert(task_ids@.take(j + 1) =~= task_ids@.take(j as int).push(task_id));
                    let now = task_ids@.take(j + 1);
                    assert forall|key: TaskId| now.contains(key) <==> task_ids@.take(j as int).contains(key) || key == task_id by {
                        if task_ids@.take(j as int).contains(key) {
                            let n = choose|n: int| 0 <= n < j && task_ids@.take(j as int)[n] == key;
                            assert(now[n] == key);
                        }
                        assert(now[j as int] == task_id);
                    }
                    done = done.insert(task_id);
                }
            }
            proof {
                assert(task_ids@.take(task_ids@.len() as int) =~= task_ids@);
                let upto = taken.take(i + 1);
                assert forall|key: TaskId| done.contains(key) <==> crate::sharded::listed(upto, key) by {
                    if crate::sharded::listed(taken.take(i as int), key) {
                        let n = choose|n: int| 0 <= n < i && (#[trigger] taken.take(i as int)[n]).contains(key);
                        assert(upto[n] == taken.take(i as int)[n]);
                    }
                    assert(upto[i as int] == task_ids@);
                    if crate::sharded::listed(upto, key) {
                        let n = choose|n: int| 0 <= n < upto.len() && (#[trigger] upto[n]).contains(key);
                        if n < i {
                            assert(taken.take(i as int)[n] == upto[n]);
                        }
                    }
                }
            }
        }
        proof {
            assert(taken.take(modified_tasks@.len() as int) =~= taken);
            assert(done =~= crate::sharded::listed_keys(taken));
        }
    }

    /// Leaves snapshot mode: modifications go to the list of modified tasks again.
    pub fn leave_snapshot_mode(&mut self)
        ensures
            final(self)@ == old(self)@.leave(),
    {
        self.snapshot_mode = false;
    }

    /// The ids of the tasks among the snapshots, in whatever order.
    pub fn snapshot_keys(&self) -> (keys: Vec<TaskId>)
        ensures
            crate::state::lists_once(keys@, self@.snapshots.dom()),
    {
        snapshot_map_keys(&self.snapshots)
    }

    /// Empties the map of snapshots, and gives back the memory that it used.
    pub fn forget_snapshots(&mut self)
        ensures
            final(self)@ == old(self)@.without_snapshots(),
    {
        snapshot_map_clear(&mut self.snapshots);
        snapshot_map_shrink_to_fit(&mut self.snapshots);
        assert(self@ =~= old(self)@.without_snapshots());
    }

    /// Counts what was modified of the given tasks during the snapshot as modified since, and puts
    /// the tasks on the list of modified tasks.
    pub fn requeue_modified(&mut self, keys: &Vec<TaskId>)
        requires
            old(self)@.wf(),
        ensures
            final(self)@ == old(self)@.requeue_all(keys@),
    {
        assert(keys@.take(0) =~= Seq::<TaskId>::empty());
        proof {
            crate::state::lemma_requeue_none(self@);
        }
        for i in 0..keys.len()
            invariant
                old(self)@.wf(),
                self@ == old(self)@.requeue_all(keys@.take(i as int)),
        {
            let key = keys[i];
            let ghost before = self@;
            if let Some(flags) = self.flags(key) {
                let mut flags = flags;
                if flags.meta_snapshot {
                    flags.set_snapshot(SpecificTaskDataCategory::Meta, false);
                    flags.set_modified(SpecificTaskDataCategory::Meta, true);
                }
                if flags.data_snapshot {
                    flags.set_snapshot(SpecificTaskDataCategory::Data, false);
                    flags.set_modified(SpecificTaskDataCategory::Data, true);
                }
                self.set_flags(key, flags);
                self.modified.push(key);
            }
            proof {
                assert(self@ =~= before.requeue(key));
                crate::state::lemma_requeue_next(old(self)@, keys@.take(i as int), key);
                assert(keys@.take(i + 1) =~= keys@.take(i as int).push(key));
            }
        }
        assert(keys@.take(keys@.len() as int) =~= keys@);
    }

    /// Ends snapshot mode, for a snapshot that took the given tasks.
    /// Tasks that were modified during the snapshot are kept as modified. The other tasks that the
    /// snapshot took count as unmodified.
    pub fn end_snapshot(&mut self, modified_tasks: &Vec<Vec<TaskId>>)
        requires
            old(self)@.wf(),
        ensures
            exists|order: Seq<TaskId>|
                {
                    &&& crate::state::lists_once(order, old(self)@.snapshots.dom())
                    &&& final(self)@ == old(self)@.end(crate::sharded::lists(modified_tasks@), order)
                },
    {
        // The flags are cleared while snapshot mode is on, so that a modification that comes
        // between two of these steps enters the snapshots.
        self.clear_modified(modified_tasks);
        self.leave_snapshot_mode();
        // From here on modifications go to the list. The tasks among the snapshots are put there now.
        let keys = self.snapshot_keys();
        self.requeue_modified(&keys);
        self.forget_snapshots();
        assert(crate::state::lists_once(keys@, old(self)@.snapshots.dom()));
    }

    /// Write access to a task, which is created where it does not exist.
    pub fn access_mut(&mut self, key: TaskId) -> (guard: StorageWriteGuard<'_>)
        ensures
            guard.key() == key,
            guard.storage()@ == old(self)@.access(key),
            *final(self) == *final(guard.storage()),
    {
        self.ensure_task(key);
        StorageWriteGuard { storage: self, key }
    }

    /// Write access to two tasks, which are created where they do not exist.
    pub fn access_pair_mut(&mut self, key1: TaskId, key2: TaskId) -> (pair: StorageWriteGuardPair<'_>)
        ensures
            pair.key1() == key1,
            pair.key2() == key2,
            pair.storage()@ == old(self)@.access(key1).access(key2),
            *final(self) == *final(pair.storage()),
    {
        self.ensure_task(key1);
        self.ensure_task(key2);
        StorageWriteGuardPair { storage: self, key1, key2 }
    }

    fn ensure_task(&mut self, key: TaskId)
        ensures
            final(self)@ == old(self)@.access(key),
    {
        task_map_entry(&mut self.map, key, Box::new(TaskStorage::new()));
        assert(self@ =~= old(self)@.access(key));
    }

    /// Removes all tasks, and all that is known of their modifications.
    pub fn drop_contents(&mut self)
        ensures
            final(self)@ == old(self)@.dropped(),
    {
        task_map_clear(&mut self.map);
        let _ = self.modified.take();
        snapshot_map_clear(&mut self.snapshots);
        assert(self@ =~= old(self)@.dropped());
    }
}

/// Write access to a task. While it exists, nothing else touches the storage.
pub struct StorageWriteGuard<'a> {
    pub(crate) storage: &'a mut Storage,
    pub(crate) key: TaskId,
}

impl<'a> StorageWriteGuard<'a> {
    /// The storage that the task belongs to.
    pub open(crate) spec fn storage(self) -> &'a mut Storage {
        self.storage
    }

    /// The id of the task.
    pub open(crate) spec fn key(self) -> TaskId {
        self.key
    }

    /// Tracks that a category of the task is about to be modified. The name says what is
    /// modified; it does not influence what is tracked.
    pub fn track_modification(&mut self, category: SpecificTaskDataCategory, name: &str)
        requires
            old(self).storage()@.wf(),
            old(self).storage()@.tasks.contains_key(old(self).key()),
        ensures
            final(self).key() == old(self).key(),
            final(self).storage()@ == old(self).storage()@.track(old(self).key(), category),
            *final(final(self).storage()) == *final(old(self).storage()),
    {
        let _ = name;
        self.track_modification_internal(category);
    }

    /// Tracks that a category of the task is about to be modified, without a name.
    pub fn track_modification_internal(&mut self, category: SpecificTaskDataCategory)
        requires
            old(self).storage()@.wf(),
            old(self).storage()@.tasks.contains_key(old(self).key()),
        ensures
            final(self).key() == old(self).key(),
            final(self).storage()@ == old(self).storage()@.track(old(self).key(), category),
            *final(final(self).storage()) == *final(old(self).storage()),
    {
        let key = self.key;
        let mut flags = self.storage.flags(key).unwrap();
        if flags.is_snapshot(category) {
            return;
        }
        match (self.storage.snapshot_mode(), flags.is_modified(category)) {
            (false, false) => {
                if !flags.any_snapshot() && !flags.any_modified() {
                    // First modification: put the task on the list.
                    self.storage.modified.push(key);
                }
                flags.set_modified(category, true);
                self.storage.set_flags(key, flags);
            },
            (false, true) => {},
            (true, _) => {
                if !flags.any_snapshot() {
                    if flags.any_modified() {
                        // The task is part of the snapshot, which needs it as it is now. The other
                        // category may be the one that is part of it, and be modified later.
                        let copy = self.storage.copy_task(key, flags);
                        self.storage.insert_copy(key, Some(Box::new(copy)));
                    } else {
                        // The task is not part of the snapshot.
                        self.storage.insert_copy(key, None);
                    }
                }
                flags.set_snapshot(category, true);
                self.storage.set_flags(key, flags);
            },
        }
    }

    /// Calls `f` on the task.
    pub fn with<R, F: FnOnce(&TaskStorage) -> R>(&self, f: F) -> (result: R)
        requires
            self.storage()@.tasks.contains_key(self.key()),
            forall|task: &TaskStorage|
                task@ == self.storage()@.tasks[self.key()] ==> #[trigger] call_requires(f, (task,)),
        ensures
            exists|task: &TaskStorage|
                task@ == old(self.storage())@.tasks[self.key()] && #[trigger] call_ensures(f, (task,), result),
    {
        self.storage.read(self.key, f).unwrap()
    }

    /// Calls `f` on the task, which it may change.
    pub fn with_mut<R, F: FnOnce(&mut TaskStorage) -> R>(&mut self, f: F) -> (result: R)
        requires
            old(self).storage()@.tasks.contains_key(old(self).key()),
            forall|task: &mut TaskStorage|
                task@ == old(self).storage()@.tasks[old(self).key()] ==> #[trigger] call_requires(f, (task,)),
        ensures
            final(self).key() == old(self).key(),
            *final(final(self).storage()) == *final(old(self).storage()),
            exists|task: &mut TaskStorage|
                {
                    &&& task@ == old(self).storage()@.tasks[old(self).key()]
                    &&& #[trigger] call_ensures(f, (task,), result)
                    &&& final(self).storage()@ == old(self).storage()@.with_task(old(self).key(), final(task)@)
                },
    {
        self.storage.write(self.key, f).unwrap()
    }
}

/// Write access to two tasks, one at a time.
pub struct StorageWriteGuardPair<'a> {
    pub(crate) storage: &'a mut Storage,
    pub(crate) key1: TaskId,
    pub(crate) key2: TaskId,
}

impl<'a> StorageWriteGuardPair<'a> {
    /// The storage that the tasks belong to.
    pub open(crate) spec fn storage(self) -> &'a mut Storage {
        self.storage
    }

    /// The id of the first task.
    pub open(crate) spec fn key1(self) -> TaskId {
        self.key1
    }

    /// The id of the second task.
    pub open(crate) spec fn key2(self) -> TaskId {
        self.key2
    }

    pub fn first(&mut self) -> (guard: StorageWriteGuard<'_>)
        ensures
            guard.key() == old(self).key1(),
            guard.storage()@ == old(self).storage()@,
            final(self).key1() == old(self).key1(),
            final(self).key2() == old(self).key2(),
            *final(self).storage() == *final(guard.storage()),
            *final(final(self).storage()) == *final(old(self).storage()),
    {
        StorageWriteGuard { storage: &mut *self.storage, key: self.key1 }
    }

    pub fn second(&mut self) -> (guard: StorageWriteGuard<'_>)
        ensures
            guard.key() == old(self).key2(),
            guard.storage()@ == old(self).storage()@,
            final(self).key1() == old(self).key1(),
            final(self).key2() == old(self).key2(),
            *final(self).storage() == *final(guard.storage()),
            *final(final(self).storage()) == *final(old(self).storage()),
    {
        StorageWriteGuard { storage: &mut *self.storage, key: self.key2 }
    }
}

} // verus!
