//! What each operation does to each field of the storage, of a task and of its flags.
//!
//! The contracts describe an operation by one function on the whole storage. The laws of this module
//! say what comes of that for every field on its own: what an operation sets, to which value, and that
//! it leaves everything else as it was. They hold of every storage, also of one whose flags do not
//! agree with its lists.

use crate::category::{SpecificTaskDataCategory, TaskDataCategory};
use crate::snapshot::SnapshotShard;
use crate::state::StorageState;
use crate::task::{TaskFlags, TaskId, TaskState, TaskStorage};
use vstd::prelude::*;

verus! {

/// `Meta` and `Data` each cover their own part and no other, and `All` covers both.
pub proof fn law_covered_parts(category: TaskDataCategory, part: SpecificTaskDataCategory)
    ensures
        category.covers(part) <==> {
            ||| category is All
            ||| category is Meta && part is Meta
            ||| category is Data && part is Data
        },
{
}

/// Each category has a flag of its own for what was modified since the last snapshot and for what was
/// modified during the current one.
pub proof fn law_flags_of_categories(flags: TaskFlags)
    ensures
        flags.modified(SpecificTaskDataCategory::Meta) == flags.meta_modified,
        flags.modified(SpecificTaskDataCategory::Data) == flags.data_modified,
        flags.snapshot(SpecificTaskDataCategory::Meta) == flags.meta_snapshot,
        flags.snapshot(SpecificTaskDataCategory::Data) == flags.data_snapshot,
        flags.some_modified() <==> flags.meta_modified || flags.data_modified,
        flags.some_snapshot() <==> flags.meta_snapshot || flags.data_snapshot,
{
}

/// At first no flag is set.
pub proof fn law_no_flags()
    ensures
        !TaskFlags::spec_none().meta_modified,
        !TaskFlags::spec_none().data_modified,
        !TaskFlags::spec_none().meta_snapshot,
        !TaskFlags::spec_none().data_snapshot,
        !TaskFlags::spec_none().new_persistent_task,
{
}

/// Setting the modified flag of a category sets that flag to the given value, and no other flag.
pub proof fn law_set_modified_sets_one_flag(flags: TaskFlags, category: SpecificTaskDataCategory, value: bool)
    ensures
        ({
            let after = flags.with_modified(category, value);
            &&& category is Meta ==> after.meta_modified == value && after.data_modified == flags.data_modified
            &&& category is Data ==> after.data_modified == value && after.meta_modified == flags.meta_modified
            &&& after.meta_snapshot == flags.meta_snapshot
            &&& after.data_snapshot == flags.data_snapshot
            &&& after.new_persistent_task == flags.new_persistent_task
        }),
{
}

/// Setting the snapshot flag of a category sets that flag to the given value, and no other flag.
pub proof fn law_set_snapshot_sets_one_flag(flags: TaskFlags, category: SpecificTaskDataCategory, value: bool)
    ensures
        ({
            let after = flags.with_snapshot(category, value);
            &&& category is Meta ==> after.meta_snapshot == value && after.data_snapshot == flags.data_snapshot
            &&& category is Data ==> after.data_snapshot == value && after.meta_snapshot == flags.meta_snapshot
            &&& after.meta_modified == flags.meta_modified
            &&& after.data_modified == flags.data_modified
            &&& after.new_persistent_task == flags.new_persistent_task
        }),
{
}

/// A task as a value has the flags and the bytes that the task has.
pub proof fn law_task_is_seen_as_it_is(task: TaskStorage)
    ensures
        task@.flags == task.flags,
        task@.meta == task.meta@,
        task@.data == task.data@,
        task@.transient == task.transient@,
{
}

/// A fresh task has no flag set and no bytes.
pub proof fn law_fresh_task_is_blank()
    ensures
        !TaskState::fresh().flags.meta_modified,
        !TaskState::fresh().flags.data_modified,
        !TaskState::fresh().flags.meta_snapshot,
        !TaskState::fresh().flags.data_snapshot,
        !TaskState::fresh().flags.new_persistent_task,
        TaskState::fresh().meta.len() == 0,
        TaskState::fresh().data.len() == 0,
        TaskState::fresh().transient.len() == 0,
{
}

/// Other flags change none of the fields.
pub proof fn law_flags_leave_fields(task: TaskState, flags: TaskFlags)
    ensures
        task.with_flags(flags).flags == flags,
        task.with_flags(flags).meta == task.meta,
        task.with_flags(flags).data == task.data,
        task.with_flags(flags).transient == task.transient,
{
}

/// A copy of the persistent fields has the bytes of both parts, no transient bytes and no flag.
pub proof fn law_persistent_fields_of_task(task: TaskState)
    ensures
        task.persistent().meta == task.meta,
        task.persistent().data == task.data,
        task.persistent().transient.len() == 0,
        !task.persistent().flags.meta_modified,
        !task.persistent().flags.data_modified,
        !task.persistent().flags.meta_snapshot,
        !task.persistent().flags.data_snapshot,
        !task.persistent().flags.new_persistent_task,
{
}

/// What a snapshot keeps of a task has the bytes of both parts and the modified flags, no transient
/// bytes and no other flag.
pub proof fn law_kept_fields_of_task(task: TaskState)
    ensures
        task.kept().meta == task.meta,
        task.kept().data == task.data,
        task.kept().transient.len() == 0,
        task.kept().flags.meta_modified == task.flags.meta_modified,
        task.kept().flags.data_modified == task.flags.data_modified,
        !task.kept().flags.meta_snapshot,
        !task.kept().flags.data_snapshot,
        !task.kept().flags.new_persistent_task,
{
}

/// The bytes of a part are those of the field of that name.
pub proof fn law_parts_of_task(task: TaskState)
    ensures
        task.part(SpecificTaskDataCategory::Meta) == task.meta,
        task.part(SpecificTaskDataCategory::Data) == task.data,
{
}

/// Each key has one of the shards. The first keys have one each, in order, and from there on the
/// shards come around again.
pub proof fn law_shards_come_around(key: TaskId, shard_amount: nat, later: TaskId)
    requires
        shard_amount > 0,
    ensures
        0 <= crate::sharded::shard_of(key, shard_amount) < shard_amount,
        key < shard_amount ==> crate::sharded::shard_of(key, shard_amount) == key,
        later == key + shard_amount ==> crate::sharded::shard_of(later, shard_amount) == crate::sharded::shard_of(
            key,
            shard_amount,
        ),
{
    if key < shard_amount {
        vstd::arithmetic::div_mod::lemma_small_mod(key as nat, shard_amount);
    }
    vstd::arithmetic::div_mod::lemma_mod_add_multiples_vanish(key as int, shard_amount as int);
}

/// The maps of tasks and of copies as values have the same keys, with each task and each copy as it is.
pub proof fn law_maps_are_seen_as_they_are(
    tasks: Map<TaskId, Box<TaskStorage>>,
    copies: Map<TaskId, Option<Box<TaskStorage>>>,
    key: TaskId,
)
    ensures
        ({
            let seen = crate::storage::task_states(tasks);
            &&& seen.contains_key(key) <==> tasks.contains_key(key)
            &&& tasks.contains_key(key) ==> seen[key] == tasks[key]@
        }),
        ({
            let seen = crate::storage::copy_states(copies);
            &&& seen.contains_key(key) <==> copies.contains_key(key)
            &&& copies.contains_key(key) ==> {
                &&& seen[key] is Some <==> copies[key] is Some
                &&& copies[key] is Some ==> seen[key]->0 == (copies[key]->0)@
            }
        }),
{
}

/// Lists of ids as plain sequences hold the same ids in the same places.
pub proof fn law_lists_are_seen_as_they_are(shards: Seq<Vec<TaskId>>, i: int)
    ensures
        crate::sharded::lists(shards).len() == shards.len(),
        0 <= i < shards.len() ==> crate::sharded::lists(shards)[i] == shards[i]@,
{
}

/// A key is listed if and only if it stands in some place of some list.
pub proof fn law_listed_keys_stand_in_lists(lists: Seq<Seq<TaskId>>, key: TaskId)
    ensures
        crate::sharded::listed(lists, key) <==> exists|i: int, a: int|
            0 <= i < lists.len() && 0 <= a < lists[i].len() && #[trigger] lists[i][a] == key,
        crate::sharded::listed_keys(lists).contains(key) <==> exists|i: int, a: int|
            0 <= i < lists.len() && 0 <= a < lists[i].len() && #[trigger] lists[i][a] == key,
{
    if crate::sharded::listed(lists, key) {
        let i = choose|i: int| 0 <= i < lists.len() && (#[trigger] lists[i]).contains(key);
        let a = choose|a: int| 0 <= a < lists[i].len() && lists[i][a] == key;
        assert(lists[i][a] == key);
    }
    if exists|i: int, a: int| 0 <= i < lists.len() && 0 <= a < lists[i].len() && #[trigger] lists[i][a] == key {
        let (i, a) = choose|i: int, a: int|
            0 <= i < lists.len() && 0 <= a < lists[i].len() && #[trigger] lists[i][a] == key;
        assert(lists[i].contains(key));
    }
}

/// Appending a key appends it to the list of its shard and leaves the other lists as they were.
pub proof fn law_key_is_appended_to_its_shard(lists: Seq<Seq<TaskId>>, key: TaskId, i: int)
    requires
        lists.len() > 0,
        0 <= i < lists.len(),
    ensures
        ({
            let after = crate::sharded::with_key(lists, key);
            &&& after.len() == lists.len()
            &&& i == crate::sharded::shard_of(key, lists.len()) ==> {
                &&& after[i].len() == lists[i].len() + 1
                &&& after[i].last() == key
                &&& after[i].drop_last() == lists[i]
            }
            &&& i != crate::sharded::shard_of(key, lists.len()) ==> after[i] == lists[i]
        }),
{
    if i == crate::sharded::shard_of(key, lists.len()) {
        assert(crate::sharded::with_key(lists, key)[i].drop_last() =~= lists[i]);
    }
}

/// Empty lists hold no id.
pub proof fn law_no_keys_are_listed(shard_amount: nat, i: int)
    ensures
        crate::sharded::no_keys(shard_amount).len() == shard_amount,
        0 <= i < shard_amount ==> crate::sharded::no_keys(shard_amount)[i].len() == 0,
{
}

/// Listing each key once means that no key stands in two places, and that those which stand in a place
/// are the given ones.
pub proof fn law_listing_once(order: Seq<TaskId>, keys: Set<TaskId>)
    ensures
        crate::state::lists_once(order, keys) <==> {
            &&& forall|a: int, b: int|
                0 <= a < b < order.len() ==> #[trigger] order[a] != #[trigger] order[b]
            &&& forall|a: int| 0 <= a < order.len() ==> keys.contains(#[trigger] order[a])
            &&& forall|key: TaskId| #[trigger]
                keys.contains(key) ==> exists|a: int| 0 <= a < order.len() && order[a] == key
        },
{
    assert forall|a: int| 0 <= a < order.len() implies order.contains(#[trigger] order[a]) by {}
    if crate::state::lists_once(order, keys) {
        assert forall|key: TaskId| #[trigger] keys.contains(key) implies exists|a: int|
            0 <= a < order.len() && order[a] == key by {
            assert(order.contains(key));
        }
    }
}

/// A new storage has no task, nothing listed and nothing among the snapshots, and is not in snapshot
/// mode. Its list and its map of tasks have the given number of shards, and its map of snapshots has
/// sixteen, whatever that number is.
pub proof fn law_new_storage_is_blank(shard_amount: nat, key: TaskId, i: int)
    ensures
        ({
            let state = StorageState::fresh(shard_amount);
            &&& !state.snapshot_mode
            &&& !state.tasks.contains_key(key)
            &&& !state.snapshots.contains_key(key)
            &&& state.modified.len() == shard_amount
            &&& 0 <= i < shard_amount ==> state.modified[i].len() == 0
            &&& state.task_shards == shard_amount
            &&& state.snapshot_shards == 16
        }),
{
}

/// Starting and leaving snapshot mode change the mode and nothing else.
pub proof fn law_mode_switch_changes_mode_only(state: StorageState)
    ensures
        state.start().snapshot_mode,
        state.start().tasks == state.tasks,
        state.start().snapshots == state.snapshots,
        state.start().modified == state.modified,
        state.start().task_shards == state.task_shards,
        state.start().snapshot_shards == state.snapshot_shards,
        !state.leave().snapshot_mode,
        state.leave().tasks == state.tasks,
        state.leave().snapshots == state.snapshots,
        state.leave().modified == state.modified,
        state.leave().task_shards == state.task_shards,
        state.leave().snapshot_shards == state.snapshot_shards,
{
}

/// After access to a task the task exists. If it did not exist, it is blank; if it did, it is as it
/// was, as is every other task. Nothing else changes.
pub proof fn law_access_creates_blank_tasks_only(state: StorageState, key: TaskId, other: TaskId)
    ensures
        ({
            let after = state.access(key);
            &&& after.tasks.contains_key(key)
            &&& !state.tasks.contains_key(key) ==> {
                &&& !after.tasks[key].flags.meta_modified
                &&& !after.tasks[key].flags.data_modified
                &&& !after.tasks[key].flags.meta_snapshot
                &&& !after.tasks[key].flags.data_snapshot
                &&& !after.tasks[key].flags.new_persistent_task
                &&& after.tasks[key].meta.len() == 0
                &&& after.tasks[key].data.len() == 0
                &&& after.tasks[key].transient.len() == 0
            }
            &&& state.tasks.contains_key(key) ==> after.tasks[key] == state.tasks[key]
            &&& other != key ==> {
                &&& after.tasks.contains_key(other) <==> state.tasks.contains_key(other)
                &&& after.tasks[other] == state.tasks[other]
            }
            &&& after.snapshot_mode == state.snapshot_mode
            &&& after.modified == state.modified
            &&& after.snapshots == state.snapshots
            &&& after.task_shards == state.task_shards
            &&& after.snapshot_shards == state.snapshot_shards
        }),
{
}

/// A task that is written is read back as it was written, and writing it changes nothing else.
pub proof fn law_write_is_read_back(state: StorageState, key: TaskId, task: TaskState, other: TaskId)
    ensures
        ({
            let after = state.with_task(key, task);
            &&& after.tasks.contains_key(key)
            &&& after.tasks[key].flags == task.flags
            &&& after.tasks[key].meta == task.meta
            &&& after.tasks[key].data == task.data
            &&& after.tasks[key].transient == task.transient
            &&& other != key ==> {
                &&& after.tasks.contains_key(other) <==> state.tasks.contains_key(other)
                &&& after.tasks[other] == state.tasks[other]
            }
            &&& after.snapshot_mode == state.snapshot_mode
            &&& after.modified == state.modified
            &&& after.snapshots == state.snapshots
            &&& after.task_shards == state.task_shards
            &&& after.snapshot_shards == state.snapshot_shards
        }),
{
}

/// Setting the flags of a task changes none of its bytes, no other task, and nothing else.
pub proof fn law_setting_flags_sets_flags_only(state: StorageState, key: TaskId, flags: TaskFlags, other: TaskId)
    requires
        state.tasks.contains_key(key),
    ensures
        ({
            let after = state.with_flags(key, flags);
            &&& after.tasks.contains_key(other) <==> state.tasks.contains_key(other)
            &&& after.tasks[key].flags == flags
            &&& after.tasks[key].meta == state.tasks[key].meta
            &&& after.tasks[key].data == state.tasks[key].data
            &&& after.tasks[key].transient == state.tasks[key].transient
            &&& other != key ==> after.tasks[other] == state.tasks[other]
            &&& after.snapshot_mode == state.snapshot_mode
            &&& after.modified == state.modified
            &&& after.snapshots == state.snapshots
            &&& after.task_shards == state.task_shards
            &&& after.snapshot_shards == state.snapshot_shards
        }),
{
}

/// Entering a task among the snapshots enters it as given, and changes nothing else.
pub proof fn law_entering_snapshots(state: StorageState, key: TaskId, copy: Option<TaskState>, other: TaskId)
    ensures
        ({
            let after = state.with_snapshot(key, copy);
            &&& after.snapshots.contains_key(key)
            &&& after.snapshots[key] == copy
            &&& other != key ==> {
                &&& after.snapshots.contains_key(other) <==> state.snapshots.contains_key(other)
                &&& after.snapshots[other] == state.snapshots[other]
            }
            &&& after.tasks == state.tasks
            &&& after.modified == state.modified
            &&& after.snapshot_mode == state.snapshot_mode
            &&& after.task_shards == state.task_shards
            &&& after.snapshot_shards == state.snapshot_shards
        }),
{
}

/// Tracking a modification changes none of the bytes of the task, and no other task. Of its flags it
/// sets the one of the category that was modified: in snapshot mode the snapshot flag, and else the
/// modified flag, unless the category was modified during a snapshot that has not been requeued yet.
pub proof fn law_tracking_sets_one_flag(
    state: StorageState,
    key: TaskId,
    category: SpecificTaskDataCategory,
    other: TaskId,
)
    requires
        state.tasks.contains_key(key),
    ensures
        ({
            let after = state.track(key, category);
            let task = state.tasks[key];
            let task_after = after.tasks[key];
            let mode = state.snapshot_mode;
            &&& after.tasks.contains_key(other) <==> state.tasks.contains_key(other)
            &&& other != key ==> after.tasks[other] == state.tasks[other]
            &&& task_after.meta == task.meta
            &&& task_after.data == task.data
            &&& task_after.transient == task.transient
            &&& task_after.flags.new_persistent_task == task.flags.new_persistent_task
            &&& task_after.flags.meta_modified <==> {
                ||| task.flags.meta_modified
                ||| category is Meta && !mode && !task.flags.meta_snapshot
            }
            &&& task_after.flags.data_modified <==> {
                ||| task.flags.data_modified
                ||| category is Data && !mode && !task.flags.data_snapshot
            }
            &&& task_after.flags.meta_snapshot <==> task.flags.meta_snapshot || (category is Meta && mode)
            &&& task_after.flags.data_snapshot <==> task.flags.data_snapshot || (category is Data && mode)
            &&& after.snapshot_mode == state.snapshot_mode
            &&& after.task_shards == state.task_shards
            &&& after.snapshot_shards == state.snapshot_shards
        }),
{
}

/// Tracking puts a task on the list if and only if snapshot mode is off and none of its flags of
/// modifications was set: at the end of the list of its shard. The list is otherwise unchanged.
pub proof fn law_tracking_lists_first_modification(
    state: StorageState,
    key: TaskId,
    category: SpecificTaskDataCategory,
    i: int,
)
    requires
        state.tasks.contains_key(key),
        0 <= i < state.modified.len(),
    ensures
        ({
            let after = state.track(key, category);
            let flags = state.tasks[key].flags;
            let first = !state.snapshot_mode && !flags.meta_modified && !flags.data_modified && !flags.meta_snapshot
                && !flags.data_snapshot;
            &&& after.modified.len() == state.modified.len()
            &&& first && i == crate::sharded::shard_of(key, state.modified.len()) ==> {
                &&& after.modified[i].len() == state.modified[i].len() + 1
                &&& after.modified[i].last() == key
                &&& after.modified[i].drop_last() == state.modified[i]
            }
            &&& !first || i != crate::sharded::shard_of(key, state.modified.len()) ==> after.modified[i]
                == state.modified[i]
        }),
{
    law_key_is_appended_to_its_shard(state.modified, key, i);
}

/// Tracking enters a task among the snapshots if and only if snapshot mode is on and neither of its
/// snapshot flags was set. It is then there with a copy if one of its modified flags is set: with the
/// bytes of both parts as they are, no transient bytes, and the modified flags. Else it is there
/// without a copy. The map of snapshots is otherwise unchanged.
pub proof fn law_tracking_copies_modified_tasks(
    state: StorageState,
    key: TaskId,
    category: SpecificTaskDataCategory,
    other: TaskId,
)
    requires
        state.tasks.contains_key(key),
    ensures
        ({
            let after = state.track(key, category);
            let task = state.tasks[key];
            let enters = state.snapshot_mode && !task.flags.meta_snapshot && !task.flags.data_snapshot;
            let copy = after.snapshots[key]->0;
            &&& enters ==> after.snapshots.contains_key(key)
            &&& enters && !task.flags.meta_modified && !task.flags.data_modified ==> after.snapshots[key] is None
            &&& enters && (task.flags.meta_modified || task.flags.data_modified) ==> {
                &&& after.snapshots[key] is Some
                &&& copy.meta == task.meta
                &&& copy.data == task.data
                &&& copy.transient.len() == 0
                &&& copy.flags.meta_modified == task.flags.meta_modified
                &&& copy.flags.data_modified == task.flags.data_modified
                &&& !copy.flags.meta_snapshot
                &&& !copy.flags.data_snapshot
                &&& !copy.flags.new_persistent_task
            }
            &&& !enters || other != key ==> {
                &&& after.snapshots.contains_key(other) <==> state.snapshots.contains_key(other)
                &&& after.snapshots[other] == state.snapshots[other]
            }
        }),
{
}

/// Taking the list leaves as many empty lists, and nothing else changes.
pub proof fn law_taking_the_list_empties_it(state: StorageState, i: int)
    ensures
        state.take_modified().modified.len() == state.modified.len(),
        0 <= i < state.modified.len() ==> state.take_modified().modified[i].len() == 0,
        state.take_modified().snapshot_mode == state.snapshot_mode,
        state.take_modified().tasks == state.tasks,
        state.take_modified().snapshots == state.snapshots,
        state.take_modified().task_shards == state.task_shards,
        state.take_modified().snapshot_shards == state.snapshot_shards,
{
}

/// A task is handed out if and only if it exists, and there is a copy of it or it is modified.
pub proof fn law_what_is_handed_out(state: StorageState, key: TaskId)
    ensures
        state.has_copy(key) <==> state.snapshots.contains_key(key) && state.snapshots[key] is Some,
        state.hands_out(key) <==> {
            &&& state.tasks.contains_key(key)
            &&& {
                ||| state.snapshots.contains_key(key) && state.snapshots[key] is Some
                ||| state.tasks[key].flags.meta_modified
                ||| state.tasks[key].flags.data_modified
            }
        },
{
}

/// What is captured of a part is its bytes in the copy, if there is one, and else in the task itself:
/// if and only if the part is modified there.
pub proof fn law_captured_bytes(state: StorageState, key: TaskId)
    ensures
        ({
            let copied = state.snapshots.contains_key(key) && state.snapshots[key] is Some;
            let task = if copied {
                state.snapshots[key]->0
            } else {
                state.tasks[key]
            };
            let meta = state.captured(key, SpecificTaskDataCategory::Meta);
            let data = state.captured(key, SpecificTaskDataCategory::Data);
            &&& meta is Some <==> task.flags.meta_modified
            &&& task.flags.meta_modified ==> meta->0 == task.meta
            &&& data is Some <==> task.flags.data_modified
            &&& task.flags.data_modified ==> data->0 == task.data
        }),
{
}

/// A walk passes over the ids that are not handed out, up to the first one that is, and over no other.
pub proof fn law_walk_stops_at_first_to_hand_out(state: StorageState, ids: Seq<TaskId>, i: int)
    ensures
        state.skipped(ids) <= ids.len(),
        0 <= i < state.skipped(ids) ==> !state.hands_out(ids[i]),
        state.skipped(ids) < ids.len() ==> state.hands_out(ids[state.skipped(ids) as int]),
    decreases ids.len(),
{
    if ids.len() > 0 && !state.hands_out(ids[0]) {
        let rest = ids.drop_first();
        law_walk_stops_at_first_to_hand_out(state, rest, i - 1);
        if 0 < i < ids.len() {
            assert(ids[i] == rest[i - 1]);
        }
    }
}

/// Taking the copy of a task leaves the task among the snapshots without a copy, if it was there, and
/// changes nothing else.
pub proof fn law_taking_a_copy_keeps_the_entry(state: StorageState, key: TaskId, other: TaskId)
    ensures
        ({
            let after = state.take_copy(key);
            &&& after.snapshots.contains_key(other) <==> state.snapshots.contains_key(other)
            &&& state.snapshots.contains_key(key) ==> after.snapshots[key] is None
            &&& other != key ==> after.snapshots[other] == state.snapshots[other]
            &&& after.tasks == state.tasks
            &&& after.modified == state.modified
            &&& after.snapshot_mode == state.snapshot_mode
            &&& after.task_shards == state.task_shards
            &&& after.snapshot_shards == state.snapshot_shards
        }),
{
}

/// Clearing the tasks of given ids unsets their modified flags and marks them as persisted. It changes
/// none of their bytes and no other flag, no other task, and nothing else.
pub proof fn law_clearing_unsets_modified_flags(state: StorageState, keys: Set<TaskId>, key: TaskId)
    ensures
        ({
            let after = state.clear_all(keys);
            let task = state.tasks[key];
            let task_after = after.tasks[key];
            &&& after.tasks.contains_key(key) <==> state.tasks.contains_key(key)
            &&& state.tasks.contains_key(key) ==> {
                &&& task_after.meta == task.meta
                &&& task_after.data == task.data
                &&& task_after.transient == task.transient
                &&& task_after.flags.meta_snapshot == task.flags.meta_snapshot
                &&& task_after.flags.data_snapshot == task.flags.data_snapshot
                &&& task_after.flags.meta_modified <==> task.flags.meta_modified && !keys.contains(key)
                &&& task_after.flags.data_modified <==> task.flags.data_modified && !keys.contains(key)
                &&& task_after.flags.new_persistent_task <==> task.flags.new_persistent_task && !keys.contains(key)
            }
            &&& after.snapshot_mode == state.snapshot_mode
            &&& after.modified == state.modified
            &&& after.snapshots == state.snapshots
            &&& after.task_shards == state.task_shards
            &&& after.snapshot_shards == state.snapshot_shards
        }),
{
}

/// Requeuing the tasks of given ids turns their snapshot flags into modified flags. It changes none of
/// their bytes and no other flag, no other task, and neither the mode nor the map of snapshots.
pub proof fn law_requeuing_turns_flags(state: StorageState, order: Seq<TaskId>, key: TaskId)
    ensures
        ({
            let after = state.requeue_all(order);
            let task = state.tasks[key];
            let task_after = after.tasks[key];
            let requeued = order.contains(key);
            &&& after.tasks.contains_key(key) <==> state.tasks.contains_key(key)
            &&& state.tasks.contains_key(key) ==> {
                &&& task_after.meta == task.meta
                &&& task_after.data == task.data
                &&& task_after.transient == task.transient
                &&& task_after.flags.meta_modified <==> {
                    ||| task.flags.meta_modified
                    ||| requeued && task.flags.meta_snapshot
                }
                &&& task_after.flags.data_modified <==> {
                    ||| task.flags.data_modified
                    ||| requeued && task.flags.data_snapshot
                }
                &&& task_after.flags.meta_snapshot <==> task.flags.meta_snapshot && !requeued
                &&& task_after.flags.data_snapshot <==> task.flags.data_snapshot && !requeued
                &&& task_after.flags.new_persistent_task == task.flags.new_persistent_task
            }
            &&& after.snapshot_mode == state.snapshot_mode
            &&& after.snapshots == state.snapshots
            &&& after.task_shards == state.task_shards
            &&& after.snapshot_shards == state.snapshot_shards
        }),
{
}

/// Requeuing no task leaves the list as it was. Requeuing one more task appends its id to the list of
/// its shard if the task exists, and else leaves the list as it was.
pub proof fn law_requeuing_lists_each_task(state: StorageState, order: Seq<TaskId>, key: TaskId, i: int)
    requires
        0 <= i < state.modified.len(),
    ensures
        ({
            let before = state.requeue_all(order).modified;
            let after = state.requeue_all(order.push(key)).modified;
            let shard = crate::sharded::shard_of(key, state.modified.len());
            &&& state.requeue_all(Seq::empty()).modified == state.modified
            &&& before.len() == state.modified.len()
            &&& after.len() == state.modified.len()
            &&& state.tasks.contains_key(key) && i == shard ==> {
                &&& after[i].len() == before[i].len() + 1
                &&& after[i].last() == key
                &&& after[i].drop_last() == before[i]
            }
            &&& !state.tasks.contains_key(key) || i != shard ==> after[i] == before[i]
        }),
{
    crate::state::lemma_requeue_none(state);
    crate::state::lemma_requeue_next(state, order, key);
    law_key_is_appended_to_its_shard(state.requeue_all(order).modified, key, i);
}

/// Emptying the map of snapshots leaves nothing in it and changes nothing else.
pub proof fn law_forgetting_empties_snapshots(state: StorageState, key: TaskId)
    ensures
        !state.without_snapshots().snapshots.contains_key(key),
        state.without_snapshots().tasks == state.tasks,
        state.without_snapshots().modified == state.modified,
        state.without_snapshots().snapshot_mode == state.snapshot_mode,
        state.without_snapshots().task_shards == state.task_shards,
        state.without_snapshots().snapshot_shards == state.snapshot_shards,
{
}

/// The end of a snapshot leaves snapshot mode and nothing among the snapshots. It changes the bytes of
/// no task. The modified flags of a task whose id was taken are unset; the snapshot flags of a task
/// that was among the snapshots become its modified flags.
pub proof fn law_end_of_snapshot_by_field(
    state: StorageState,
    lists: Seq<Seq<TaskId>>,
    order: Seq<TaskId>,
    key: TaskId,
)
    requires
        crate::state::lists_once(order, state.snapshots.dom()),
    ensures
        ({
            let after = state.end(lists, order);
            let task = state.tasks[key];
            let task_after = after.tasks[key];
            let taken = exists|i: int, a: int|
                0 <= i < lists.len() && 0 <= a < lists[i].len() && #[trigger] lists[i][a] == key;
            let touched = state.snapshots.contains_key(key);
            &&& !after.snapshot_mode
            &&& !after.snapshots.contains_key(key)
            &&& after.tasks.contains_key(key) <==> state.tasks.contains_key(key)
            &&& state.tasks.contains_key(key) ==> {
                &&& task_after.meta == task.meta
                &&& task_after.data == task.data
                &&& task_after.transient == task.transient
                &&& task_after.flags.meta_modified <==> {
                    ||| task.flags.meta_modified && !taken
                    ||| task.flags.meta_snapshot && touched
                }
                &&& task_after.flags.data_modified <==> {
                    ||| task.flags.data_modified && !taken
                    ||| task.flags.data_snapshot && touched
                }
                &&& task_after.flags.meta_snapshot <==> task.flags.meta_snapshot && !touched
                &&& task_after.flags.data_snapshot <==> task.flags.data_snapshot && !touched
                &&& task_after.flags.new_persistent_task <==> task.flags.new_persistent_task && !taken
            }
            &&& after.task_shards == state.task_shards
            &&& after.snapshot_shards == state.snapshot_shards
        }),
{
    law_listed_keys_stand_in_lists(lists, key);
    assert(order.contains(key) <==> state.snapshots.dom().contains(key));
}

/// The end of a snapshot appends to the list of each shard the ids of the tasks that exist, belong to
/// the shard and were among the snapshots, each of them once.
pub proof fn law_end_of_snapshot_lists_touched_tasks(
    state: StorageState,
    lists: Seq<Seq<TaskId>>,
    order: Seq<TaskId>,
    key: TaskId,
    i: int,
)
    requires
        crate::state::lists_once(order, state.snapshots.dom()),
        0 <= i < state.modified.len(),
    ensures
        ({
            let after = state.end(lists, order).modified;
            let len = state.modified[i].len() as int;
            &&& after.len() == state.modified.len()
            &&& after[i].len() >= len
            &&& after[i].take(len) == state.modified[i]
            &&& after[i].skip(len).no_duplicates()
            &&& after[i].skip(len).contains(key) <==> {
                &&& state.snapshots.contains_key(key)
                &&& state.tasks.contains_key(key)
                &&& crate::sharded::shard_of(key, state.modified.len()) == i
            }
        }),
{
    let cleared = state.clear_all(crate::sharded::listed_keys(lists)).leave();
    let belongs = |other: TaskId| cleared.belongs(other, i);
    let after = state.end(lists, order).modified;
    let len = state.modified[i].len() as int;
    lemma_filter_keeps_places(order, belongs, key);
    assert(after[i] == state.modified[i] + order.filter(belongs));
    assert(after[i].take(len) =~= state.modified[i]);
    assert(after[i].skip(len) =~= order.filter(belongs));
    assert(order.contains(key) <==> state.snapshots.dom().contains(key));
}

proof fn lemma_filter_keeps_places(ids: Seq<TaskId>, keep: spec_fn(TaskId) -> bool, key: TaskId)
    requires
        ids.no_duplicates(),
    ensures
        ids.filter(keep).no_duplicates(),
        ids.filter(keep).contains(key) <==> ids.contains(key) && keep(key),
    decreases ids.len(),
{
    reveal(Seq::filter);
    if ids.len() > 0 {
        let earlier = ids.drop_last();
        let last = ids.last();
        lemma_filter_keeps_places(earlier, keep, key);
        lemma_filter_keeps_places(earlier, keep, last);
        assert(ids =~= earlier.push(last));
        assert(!earlier.contains(last)) by {
            if earlier.contains(last) {
                let n = choose|n: int| 0 <= n < earlier.len() && earlier[n] == last;
                assert(ids[n] == ids[ids.len() - 1]);
            }
        }
        assert(ids.contains(key) <==> earlier.contains(key) || key == last) by {
            if earlier.contains(key) {
                let n = choose|n: int| 0 <= n < earlier.len() && earlier[n] == key;
                assert(ids[n] == key);
            }
            if ids.contains(key) {
                let n = choose|n: int| 0 <= n < ids.len() && ids[n] == key;
                if n < earlier.len() {
                    assert(earlier[n] == key);
                }
            }
            assert(ids[ids.len() - 1] == last);
        }
        if keep(last) {
            let kept = earlier.filter(keep);
            assert(ids.filter(keep) =~= kept.push(last));
            assert(kept.push(last).contains(key) <==> kept.contains(key) || key == last) by {
                if kept.contains(key) {
                    let n = choose|n: int| 0 <= n < kept.len() && kept[n] == key;
                    assert(kept.push(last)[n] == key);
                }
                assert(kept.push(last)[kept.len() as int] == last);
            }
            assert forall|a: int, b: int| 0 <= a < b < kept.push(last).len() implies kept.push(last)[a]
                != kept.push(last)[b] by {
                assert(kept.contains(kept[a]));
            }
        }
    }
}

/// Removing all tasks leaves no task, nothing listed and nothing among the snapshots, whatever the
/// storage held. The mode and the numbers of shards stay as they are.
pub proof fn law_removal_leaves_nothing(state: StorageState, key: TaskId, i: int)
    ensures
        ({
            let after = state.dropped();
            &&& !after.tasks.contains_key(key)
            &&& !after.snapshots.contains_key(key)
            &&& after.modified.len() == state.modified.len()
            &&& 0 <= i < state.modified.len() ==> after.modified[i].len() == 0
            &&& after.snapshot_mode == state.snapshot_mode
            &&& after.task_shards == state.task_shards
            &&& after.snapshot_shards == state.snapshot_shards
        }),
{
}

/// After all tasks are removed, access to any task gives a blank one.
pub proof fn law_removed_tasks_come_back_blank(state: StorageState, key: TaskId)
    ensures
        ({
            let task = state.dropped().access(key).tasks[key];
            &&& task.meta.len() == 0
            &&& task.data.len() == 0
            &&& task.transient.len() == 0
            &&& !task.flags.meta_modified
            &&& !task.flags.data_modified
            &&& !task.flags.meta_snapshot
            &&& !task.flags.data_snapshot
            &&& !task.flags.new_persistent_task
        }),
{
}

/// The ids from a position on are the id at that position and the ids after it. At the end of a list
/// they are those of the next list, and at the end of the range there are none.
pub proof fn law_ids_come_in_order(lists: Seq<Seq<TaskId>>, shard: int, idx: int, end: int)
    requires
        0 <= shard <= end <= lists.len(),
        shard < end ==> 0 <= idx <= lists[shard].len(),
    ensures
        ({
            let ids = crate::snapshot::ids_from(lists, shard, idx, end);
            &&& shard == end ==> ids.len() == 0
            &&& shard < end && idx == lists[shard].len() ==> ids == crate::snapshot::ids_from(lists, shard + 1, 0, end)
            &&& shard < end && idx < lists[shard].len() ==> {
                &&& ids.len() > 0
                &&& ids[0] == lists[shard][idx]
                &&& ids.drop_first() == crate::snapshot::ids_from(lists, shard, idx + 1, end)
            }
        }),
{
    let ids = crate::snapshot::ids_from(lists, shard, idx, end);
    if shard < end {
        if idx < lists[shard].len() {
            assert(lists[shard].skip(idx)[0] == lists[shard][idx]);
            assert(ids.drop_first() =~= crate::snapshot::ids_from(lists, shard, idx + 1, end));
        } else {
            assert(ids =~= crate::snapshot::ids_from(lists, shard + 1, 0, end));
        }
    }
}

/// The first chunk starts at the first shard. Each chunk ends where the next one starts, and covers as
/// many shards as a chunk is to cover, or as there are left.
pub proof fn law_chunks_follow_each_other(chunk: int, chunk_size: int, shard_amount: int)
    requires
        chunk >= 0,
        chunk_size > 0,
        shard_amount >= 0,
    ensures
        ({
            let start = crate::snapshot::chunk_start(chunk, chunk_size, shard_amount);
            let end = crate::snapshot::chunk_start(chunk + 1, chunk_size, shard_amount);
            &&& crate::snapshot::chunk_start(0, chunk_size, shard_amount) == 0
            &&& 0 <= start <= end <= shard_amount
            &&& end == start + chunk_size || (end == shard_amount && shard_amount - start < chunk_size)
        }),
{
    assert(0 * chunk_size == 0) by (nonlinear_arith);
    assert(chunk * chunk_size >= 0) by (nonlinear_arith)
        requires
            chunk >= 0,
            chunk_size > 0,
    ;
    assert((chunk + 1) * chunk_size == chunk * chunk_size + chunk_size) by (nonlinear_arith);
}

/// A shard of a snapshot has left the ids of its range of lists, from its position on: the id at that
/// position comes first. At the end of its range it has none left.
pub proof fn law_shard_has_its_lists_left<'l, PP, P, PS>(shard: SnapshotShard<'l, PP, P, PS>)
    requires
        shard.wf(),
    ensures
        ({
            let list = shard.lists()[shard.current_shard()];
            let ids = shard.remaining();
            &&& shard.current_shard() == shard.end_shard() ==> ids.len() == 0
            &&& shard.current_shard() < shard.end_shard() && shard.current_idx() < list.len() ==> {
                &&& ids.len() > 0
                &&& ids[0] == list[shard.current_idx()]
            }
            &&& ids == crate::snapshot::ids_from(
                shard.lists(),
                shard.current_shard(),
                shard.current_idx(),
                shard.end_shard(),
            )
        }),
{
    law_ids_come_in_order(shard.lists(), shard.current_shard(), shard.current_idx(), shard.end_shard());
}

/// The range, the lists and the functions of a walk do not change while it goes on.
pub proof fn law_walk_keeps_range_and_functions<'l, PP, P, PS>(
    shard: SnapshotShard<'l, PP, P, PS>,
    later: SnapshotShard<'l, PP, P, PS>,
)
    requires
        later.same_walk(shard),
    ensures
        later.end_shard() == shard.end_shard(),
        later.lists() == shard.lists(),
        later.preprocess() == shard.preprocess(),
        later.process() == shard.process(),
        later.process_snapshot() == shard.process_snapshot(),
{
}

} // verus!
