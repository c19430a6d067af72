//! The maps of the storage. They are `dashmap` maps, and what this module says of them is taken
//! from the documentation and the source of that crate.
//!
//! Every method of a `DashMap` takes a shared reference and locks a part of the map. The functions
//! here that change a map borrow it mutably instead. So no other reference into the map exists
//! during a call, no call waits for a lock, and the contents before and after a call are definite.
//! The number of shards is fixed when a map is made, and no call changes it.

use crate::task::{TaskId, TaskStorage};
use dashmap::DashMap;
use rustc_hash::FxBuildHasher;
use vstd::prelude::*;

verus! {

/// The map type of `dashmap`. Its contents are known only through the names below.
#[verifier::external_type_specification]
#[verifier::external_body]
#[verifier::reject_recursive_types(K)]
#[verifier::reject_recursive_types(V)]
#[verifier::reject_recursive_types(S)]
pub struct ExDashMap<K, V, S>(DashMap<K, V, S>);

/// The hasher of the maps. Nothing is known of the hashes that it computes.
#[verifier::external_type_specification]
#[verifier::external_body]
pub struct ExFxBuildHasher(FxBuildHasher);

/// The tasks, by id.
pub type TaskMap = DashMap<TaskId, Box<TaskStorage>, FxBuildHasher>;

/// For each task that was modified during the current snapshot, the copy that the snapshot needs,
/// if it needs one.
pub type SnapshotMap = DashMap<TaskId, Option<Box<TaskStorage>>, FxBuildHasher>;

/// The key-value pairs that a task map holds.
pub uninterp spec fn tasks_of(map: TaskMap) -> Map<TaskId, Box<TaskStorage>>;

/// The key-value pairs that a snapshot map holds.
pub uninterp spec fn snapshots_of(map: SnapshotMap) -> Map<TaskId, Option<Box<TaskStorage>>>;

/// The number of shards that a task map was made with.
pub uninterp spec fn task_shards_of(map: TaskMap) -> nat;

/// The number of shards that a snapshot map was made with.
pub uninterp spec fn snapshot_shards_of(map: SnapshotMap) -> nat;

/// Whether a map can be made with this number of shards: it is a power of two other than one, and
/// an array of as many shards, of at most 256 bytes each, can be allocated.
pub open spec fn valid_shard_amount(shard_amount: usize) -> bool {
    &&& shard_amount > 1
    &&& exists|e: nat| shard_amount == #[trigger] vstd::arithmetic::power2::pow2(e)
    &&& shard_amount * 256 <= isize::MAX
}

/// Calls `DashMap::with_capacity_and_hasher_and_shard_amount`: a new map is empty, and has
/// the given number of shards. That function
/// panics unless the number of shards is a power of two greater than one, and where the sizes that
/// it computes overflow; a bound on the capacity rules that out. The capacity is a hint that shows
/// nowhere in the contents.
#[verifier::external_body]
pub(crate) fn task_map_with_capacity(capacity: usize, shard_amount: usize) -> (map: TaskMap)
    requires
        valid_shard_amount(shard_amount),
        capacity <= 1024 * 1024,
    ensures
        tasks_of(map).dom() == Set::<TaskId>::empty(),
        task_shards_of(map) == shard_amount,
{
    DashMap::with_capacity_and_hasher_and_shard_amount(capacity, FxBuildHasher, shard_amount)
}

/// Calls `DashMap::entry` and `Entry::or_insert`: a value that is present stays, and where none is,
/// the given one is inserted. No other key is touched.
#[verifier::external_body]
pub(crate) fn task_map_entry(map: &mut TaskMap, key: TaskId, value: Box<TaskStorage>)
    ensures
        tasks_of(*final(map)) == (if tasks_of(*old(map)).contains_key(key) {
            tasks_of(*old(map))
        } else {
            tasks_of(*old(map)).insert(key, value)
        }),
        task_shards_of(*final(map)) == task_shards_of(*old(map)),
{
    map.entry(key).or_insert(value);
}

/// Calls `DashMap::get`, and `f` on the value behind the reference that it returns: there is one if
/// and only if the key is present, and it refers to the value of that key.
#[verifier::external_body]
pub(crate) fn task_map_get<R, F: FnOnce(&TaskStorage) -> R>(map: &TaskMap, key: TaskId, f: F) -> (result: Option<R>)
    requires
        tasks_of(*map).contains_key(key) ==> call_requires(f, (&*tasks_of(*map)[key],)),
    ensures
        result is Some <==> tasks_of(*map).contains_key(key),
        result is Some ==> call_ensures(f, (&*tasks_of(*map)[key],), result->0),
{
    match map.get(&key) {
        Some(entry) => Some(f(entry.value())),
        None => None,
    }
}

/// Calls `DashMap::get_mut`, and `f` on the value behind the reference that it returns: there is one
/// if and only if the key is present, it refers to the value of that key, and what `f` leaves behind
/// it is the new value of that key. No other key is touched.
#[verifier::external_body]
pub(crate) fn task_map_get_mut<R, F: FnOnce(&mut TaskStorage) -> R>(map: &mut TaskMap, key: TaskId, f: F) -> (result: Option<R>)
    requires
        forall|task: &mut TaskStorage|
            tasks_of(*old(map)).contains_key(key) && *task == *tasks_of(*old(map))[key]
                ==> #[trigger] call_requires(f, (task,)),
    ensures
        result is Some <==> tasks_of(*old(map)).contains_key(key),
        task_shards_of(*final(map)) == task_shards_of(*old(map)),
        result is None ==> tasks_of(*final(map)) == tasks_of(*old(map)),
        result is Some ==> exists|task: &mut TaskStorage|
            {
                &&& *task == *tasks_of(*old(map))[key]
                &&& #[trigger] call_ensures(f, (task,), result->0)
                &&& tasks_of(*final(map)) == tasks_of(*old(map)).insert(key, Box::new(*final(task)))
            },
{
    match map.get_mut(&key) {
        Some(mut entry) => Some(f(entry.value_mut())),
        None => None,
    }
}

/// Calls `DashMap::clear`: nothing is left in the map.
#[verifier::external_body]
pub(crate) fn task_map_clear(map: &mut TaskMap)
    ensures
        tasks_of(*final(map)).dom() == Set::<TaskId>::empty(),
        task_shards_of(*final(map)) == task_shards_of(*old(map)),
{
    map.clear();
}

/// Calls `DashMap::with_capacity_and_hasher_and_shard_amount`, as [`task_map_with_capacity`] does.
#[verifier::external_body]
pub(crate) fn snapshot_map_with_capacity(capacity: usize, shard_amount: usize) -> (map: SnapshotMap)
    requires
        valid_shard_amount(shard_amount),
        capacity <= 1024 * 1024,
    ensures
        snapshots_of(map).dom() == Set::<TaskId>::empty(),
        snapshot_shards_of(map) == shard_amount,
{
    DashMap::with_capacity_and_hasher_and_shard_amount(capacity, FxBuildHasher, shard_amount)
}

/// Calls `DashMap::insert`: the key now has the given value, the value that it had is returned, and
/// no other key is touched.
#[verifier::external_body]
pub(crate) fn snapshot_map_insert(map: &mut SnapshotMap, key: TaskId, value: Option<Box<TaskStorage>>) -> (previous: Option<Option<Box<TaskStorage>>>)
    ensures
        snapshots_of(*final(map)) == snapshots_of(*old(map)).insert(key, value),
        snapshot_shards_of(*final(map)) == snapshot_shards_of(*old(map)),
        previous == (if snapshots_of(*old(map)).contains_key(key) {
            Some(snapshots_of(*old(map))[key])
        } else {
            None
        }),
{
    map.insert(key, value)
}

/// Calls `DashMap::get_mut`, and `f` on the value behind the reference that it returns, as
/// [`task_map_get_mut`] does.
#[verifier::external_body]
pub(crate) fn snapshot_map_get_mut<R, F: FnOnce(&mut Option<Box<TaskStorage>>) -> R>(map: &mut SnapshotMap, key: TaskId, f: F) -> (result: Option<R>)
    requires
        forall|copy: &mut Option<Box<TaskStorage>>|
            snapshots_of(*old(map)).contains_key(key) && *copy == snapshots_of(*old(map))[key]
                ==> #[trigger] call_requires(f, (copy,)),
    ensures
        snapshot_shards_of(*final(map)) == snapshot_shards_of(*old(map)),
        result is Some <==> snapshots_of(*old(map)).contains_key(key),
        result is None ==> snapshots_of(*final(map)) == snapshots_of(*old(map)),
        result is Some ==> exists|copy: &mut Option<Box<TaskStorage>>|
            {
                &&& *copy == snapshots_of(*old(map))[key]
                &&& #[trigger] call_ensures(f, (copy,), result->0)
                &&& snapshots_of(*final(map)) == snapshots_of(*old(map)).insert(key, *final(copy))
            },
{
    match map.get_mut(&key) {
        Some(mut entry) => Some(f(entry.value_mut())),
        None => None,
    }
}

/// Calls `DashMap::iter`, which walks through the whole map and meets each key once. The order of
/// the walk is left open: it depends on the hashes and on how the machine lays out the table.
#[verifier::external_body]
pub(crate) fn snapshot_map_keys(map: &SnapshotMap) -> (keys: Vec<TaskId>)
    ensures
        keys@.no_duplicates(),
        forall|key: TaskId| #[trigger] keys@.contains(key) <==> snapshots_of(*map).contains_key(key),
{
    map.iter().map(|entry| *entry.key()).collect()
}

/// Calls `DashMap::clear`: nothing is left in the map.
#[verifier::external_body]
pub(crate) fn snapshot_map_clear(map: &mut SnapshotMap)
    ensures
        snapshots_of(*final(map)).dom() == Set::<TaskId>::empty(),
        snapshot_shards_of(*final(map)) == snapshot_shards_of(*old(map)),
{
    map.clear();
}

/// Calls `DashMap::shrink_to_fit`, which gives unused memory back and keeps the contents.
#[verifier::external_body]
pub(crate) fn snapshot_map_shrink_to_fit(map: &mut SnapshotMap)
    ensures
        snapshots_of(*final(map)) == snapshots_of(*old(map)),
        snapshot_shards_of(*final(map)) == snapshot_shards_of(*old(map)),
{
    map.shrink_to_fit();
}

} // verus!
