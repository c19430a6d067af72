use std::sync::Arc;
use task_storage::category::SpecificTaskDataCategory::{self, Data, Meta};
use task_storage::snapshot::{SnapshotGuard, SnapshotShard};
use task_storage::storage::Storage;
use task_storage::task::{TaskFlags, TaskId, TaskStorage};

/// What a snapshot handed out for a task.
#[derive(Debug, PartialEq, Eq)]
struct Item {
    id: TaskId,
    from_copy: bool,
    meta: Option<Vec<u8>>,
    data: Option<Vec<u8>>,
}

fn item(id: TaskId, from_copy: bool, task: &TaskStorage) -> Item {
    Item {
        id,
        from_copy,
        meta: if task.flags.meta_modified { Some(task.meta.clone()) } else { None },
        data: if task.flags.data_modified { Some(task.data.clone()) } else { None },
    }
}

fn live(id: TaskId, task: &TaskStorage) -> Item {
    item(id, false, task)
}

fn pass(id: TaskId, item: Item, buffer: &mut Vec<u8>) -> Item {
    buffer.push(id as u8);
    item
}

fn copied(id: TaskId, task: Box<TaskStorage>, buffer: &mut Vec<u8>) -> Item {
    buffer.push(100 + id as u8);
    item(id, true, &task)
}

fn track(storage: &mut Storage, id: TaskId, category: SpecificTaskDataCategory) {
    storage.access_mut(id).track_modification(category, "field");
}

fn modify(storage: &mut Storage, id: TaskId, category: SpecificTaskDataCategory, bytes: &[u8]) {
    let mut guard = storage.access_mut(id);
    guard.track_modification(category, "field");
    guard.with_mut(|task| match category {
        Meta => task.meta = bytes.to_vec(),
        Data => task.data = bytes.to_vec(),
    });
}

fn flags(storage: &mut Storage, id: TaskId) -> TaskFlags {
    storage.access_mut(id).with(|task| task.flags)
}

/// Takes a snapshot, hands out everything and ends it.
fn snapshot(storage: &mut Storage, chunk_size: usize) -> Vec<Item> {
    let mut shards = storage.take_snapshot(chunk_size, &live, &pass, &copied);
    let guard: Arc<SnapshotGuard> = shards[0].guard();
    let mut items = Vec::new();
    for shard in shards.iter_mut() {
        while let Some(item) = shard.next(storage) {
            items.push(item);
        }
        assert!(shard.next(storage).is_none());
    }
    guard.release(storage);
    items
}

fn ids(items: &[Item]) -> Vec<TaskId> {
    items.iter().map(|item| item.id).collect()
}

#[test]
fn new_storage_has_nothing_modified() {
    for small in [true, false] {
        for shard_amount in [2, 4, 64] {
            let mut storage = Storage::new(shard_amount, small);
            assert!(!storage.snapshot_mode());
            let shards = storage.take_snapshot(1, &live, &pass, &copied);
            assert_eq!(shards.len(), shard_amount);
            assert!(storage.snapshot_mode());
            assert_eq!(shards[0].guard().modified_tasks, vec![Vec::<TaskId>::new(); shard_amount]);
        }
    }
}

#[test]
fn access_creates_a_fresh_task_once() {
    let mut storage = Storage::new(4, true);
    storage.access_mut(9).with(|task| {
        assert_eq!(task.flags, TaskFlags::none());
        assert!(task.meta.is_empty() && task.data.is_empty() && task.transient.is_empty());
    });
    storage.access_mut(9).with_mut(|task| task.transient.push(5));
    assert_eq!(storage.access_mut(9).with(|task| task.transient.clone()), vec![5]);
    // Looking a task up does not modify it.
    assert_eq!(snapshot(&mut storage, 1), vec![]);
}

#[test]
fn write_access_returns_what_the_function_returns() {
    let mut storage = Storage::new(4, true);
    let mut guard = storage.access_mut(1);
    assert_eq!(
        guard.with_mut(|task| {
            task.data.extend([1, 2, 3]);
            task.data.len()
        }),
        3
    );
    assert_eq!(guard.with(|task| task.data[1]), 2);
}

#[test]
fn pair_access_creates_and_tracks_both() {
    let mut storage = Storage::new(4, true);
    modify(&mut storage, 5, Meta, &[1]);
    let mut pair = storage.access_pair_mut(5, 9);
    assert_eq!(pair.first().with(|task| task.meta.clone()), vec![1]);
    pair.second().track_modification(Data, "field");
    pair.second().with_mut(|task| task.data.push(2));
    pair.first().track_modification(Data, "field");
    let items = snapshot(&mut storage, 4);
    assert_eq!(ids(&items), vec![5, 9]);
    assert_eq!(items[0].meta, Some(vec![1]));
    assert_eq!(items[0].data, Some(vec![]));
    assert_eq!(items[1].data, Some(vec![2]));
    assert_eq!(items[1].meta, None);
}

#[test]
fn first_modification_lists_a_task_once() {
    let mut storage = Storage::new(4, true);
    for id in [6, 2, 3] {
        track(&mut storage, id, Meta);
        track(&mut storage, id, Meta);
        track(&mut storage, id, Data);
    }
    let shards = storage.take_snapshot(4, &live, &pass, &copied);
    assert_eq!(shards[0].guard().modified_tasks, vec![vec![], vec![], vec![6, 2], vec![3]]);
}

#[test]
fn tracking_sets_the_flag_of_the_category() {
    let mut storage = Storage::new(2, true);
    track(&mut storage, 1, Data);
    let expected = TaskFlags { data_modified: true, ..TaskFlags::none() };
    assert_eq!(flags(&mut storage, 1), expected);
    track(&mut storage, 1, Data);
    assert_eq!(flags(&mut storage, 1), expected);
    storage.start_snapshot();
    track(&mut storage, 1, Data);
    let expected = TaskFlags { data_snapshot: true, ..expected };
    assert_eq!(flags(&mut storage, 1), expected);
    track(&mut storage, 1, Data);
    assert_eq!(flags(&mut storage, 1), expected);
    track(&mut storage, 2, Meta);
    assert_eq!(flags(&mut storage, 2), TaskFlags { meta_snapshot: true, ..TaskFlags::none() });
}

#[test]
fn snapshot_hands_out_modified_tasks_in_order_and_clears_them() {
    let mut storage = Storage::new(4, true);
    for id in [1, 5, 2, 9, 4] {
        modify(&mut storage, id, Data, &[id as u8]);
    }
    storage.access_mut(5).with_mut(|task| task.flags.new_persistent_task = true);
    storage.access_mut(7);
    let items = snapshot(&mut storage, 1);
    assert_eq!(ids(&items), vec![4, 1, 5, 9, 2]);
    for item in &items {
        assert!(!item.from_copy);
        assert_eq!(item.data, Some(vec![item.id as u8]));
        assert_eq!(item.meta, None);
    }
    assert!(!storage.snapshot_mode());
    for id in [1, 5, 2, 9, 4, 7] {
        assert_eq!(flags(&mut storage, id), TaskFlags::none());
    }
    assert_eq!(snapshot(&mut storage, 1), vec![]);
    // A task that was persisted is listed again when it is modified again.
    modify(&mut storage, 5, Meta, &[8]);
    assert_eq!(
        snapshot(&mut storage, 1),
        vec![Item { id: 5, from_copy: false, meta: Some(vec![8]), data: None }]
    );
}

#[test]
fn chunks_cover_every_shard_once() {
    for chunk_size in [1, 2, 3, 4, 5, 8, 9, usize::MAX] {
        let mut storage = Storage::new(8, true);
        for id in 0..40 {
            track(&mut storage, id, Meta);
        }
        let mut shards = storage.take_snapshot(chunk_size, &live, &pass, &copied);
        assert_eq!(shards.len(), 8usize.div_ceil(chunk_size));
        let mut seen = Vec::new();
        for (i, shard) in shards.iter_mut().enumerate() {
            let mut lists = Vec::new();
            while let Some(item) = shard.next(&mut storage) {
                seen.push(item.id);
                lists.push(item.id as usize % 8);
            }
            lists.dedup();
            let start = i * chunk_size;
            let end = start.saturating_add(chunk_size).min(8);
            assert_eq!(lists, (start..end).collect::<Vec<usize>>());
        }
        assert_eq!(seen.len(), 40);
        seen.sort();
        assert_eq!(seen, (0..40).collect::<Vec<TaskId>>());
    }
}

#[test]
fn snapshot_sees_the_state_before_a_modification() {
    let mut storage = Storage::new(2, true);
    modify(&mut storage, 1, Meta, &[1]);
    modify(&mut storage, 1, Data, &[2]);
    storage.access_mut(1).with_mut(|task| task.transient.push(9));
    let mut shards = storage.take_snapshot(2, &live, &pass, &copied);
    // Both categories are modified again, one before and one after the task is handed out.
    modify(&mut storage, 1, Data, &[22]);
    let handed_out = shards[0].next(&mut storage).unwrap();
    assert_eq!(
        handed_out,
        Item { id: 1, from_copy: true, meta: Some(vec![1]), data: Some(vec![2]) }
    );
    modify(&mut storage, 1, Meta, &[11]);
    assert!(shards[0].next(&mut storage).is_none());
    shards[0].guard().release(&mut storage);
    assert_eq!(
        flags(&mut storage, 1),
        TaskFlags { meta_modified: true, data_modified: true, ..TaskFlags::none() }
    );
    assert_eq!(
        snapshot(&mut storage, 2),
        vec![Item { id: 1, from_copy: false, meta: Some(vec![11]), data: Some(vec![22]) }]
    );
}

#[test]
fn copy_keeps_the_modified_flags_and_no_others() {
    let mut storage = Storage::new(2, true);
    track(&mut storage, 1, Data);
    storage.access_mut(1).with_mut(|task| {
        task.transient.push(9);
        task.flags.new_persistent_task = true;
    });
    let keep = |_id: TaskId, task: Box<TaskStorage>, _buffer: &mut Vec<u8>| (task.flags, task.transient);
    let read = |_id: TaskId, task: &TaskStorage| task.flags;
    let done = |_id: TaskId, flags: TaskFlags, _buffer: &mut Vec<u8>| (flags, Vec::<u8>::new());
    let mut shards = storage.take_snapshot(2, &read, &done, &keep);
    track(&mut storage, 1, Data);
    assert_eq!(
        shards[0].next(&mut storage),
        Some((TaskFlags { data_modified: true, ..TaskFlags::none() }, vec![]))
    );
}

#[test]
fn task_first_modified_during_a_snapshot_is_part_of_the_next() {
    let mut storage = Storage::new(2, true);
    modify(&mut storage, 2, Data, &[1]);
    let mut shards = storage.take_snapshot(2, &live, &pass, &copied);
    modify(&mut storage, 4, Meta, &[7]);
    assert_eq!(
        shards[0].next(&mut storage),
        Some(Item { id: 2, from_copy: false, meta: None, data: Some(vec![1]) })
    );
    assert_eq!(shards[0].next(&mut storage), None);
    shards[0].guard().release(&mut storage);
    assert_eq!(
        snapshot(&mut storage, 2),
        vec![Item { id: 4, from_copy: false, meta: Some(vec![7]), data: None }]
    );
}

#[test]
fn modification_between_start_and_take_is_kept_apart() {
    let mut storage = Storage::new(2, true);
    modify(&mut storage, 2, Data, &[1]);
    storage.start_snapshot();
    storage.start_snapshot();
    modify(&mut storage, 2, Data, &[2]);
    assert_eq!(
        snapshot(&mut storage, 2),
        vec![Item { id: 2, from_copy: true, meta: None, data: Some(vec![1]) }]
    );
    assert_eq!(
        snapshot(&mut storage, 2),
        vec![Item { id: 2, from_copy: false, meta: None, data: Some(vec![2]) }]
    );
}

#[test]
fn first_touch_in_the_other_category_makes_a_copy() {
    let mut storage = Storage::new(2, true);
    modify(&mut storage, 2, Data, &[1]);
    storage.start_snapshot();
    modify(&mut storage, 2, Meta, &[5]);
    modify(&mut storage, 2, Data, &[6]);
    assert_eq!(
        flags(&mut storage, 2),
        TaskFlags { data_modified: true, meta_snapshot: true, data_snapshot: true, ..TaskFlags::none() }
    );
    // The snapshot sees the task as it was before it was modified again, in either category.
    assert_eq!(
        snapshot(&mut storage, 2),
        vec![Item { id: 2, from_copy: true, meta: None, data: Some(vec![1]) }]
    );
    assert_eq!(
        snapshot(&mut storage, 2),
        vec![Item { id: 2, from_copy: false, meta: Some(vec![5]), data: Some(vec![6]) }]
    );
}

#[test]
fn copy_after_a_touch_in_the_other_category_has_the_flags_before() {
    let mut storage = Storage::new(4, true);
    modify(&mut storage, 1, Meta, &[3]);
    storage.start_snapshot();
    track(&mut storage, 1, Data);
    let keep = |_id: TaskId, task: Box<TaskStorage>, _buffer: &mut Vec<u8>| (task.flags, task.meta);
    let read = |_id: TaskId, task: &TaskStorage| task.flags;
    let done = |_id: TaskId, flags: TaskFlags, _buffer: &mut Vec<u8>| (flags, Vec::<u8>::new());
    let mut shards = storage.take_snapshot(4, &read, &done, &keep);
    assert_eq!(
        shards[0].next(&mut storage),
        Some((TaskFlags { meta_modified: true, ..TaskFlags::none() }, vec![3]))
    );
    assert!(flags(&mut storage, 1).data_snapshot);
}

#[test]
fn next_snapshot_hands_out_what_was_tracked_during_the_last() {
    let mut storage = Storage::new(4, true);
    for id in [1, 2, 3] {
        modify(&mut storage, id, Meta, &[0]);
    }
    let mut shards = storage.take_snapshot(2, &live, &pass, &copied);
    track(&mut storage, 2, Data);
    assert_eq!(shards[0].next(&mut storage).unwrap().id, 1);
    track(&mut storage, 1, Meta);
    track(&mut storage, 7, Data);
    while shards[0].next(&mut storage).is_some() {}
    while shards[1].next(&mut storage).is_some() {}
    shards[0].guard().release(&mut storage);
    let mut items = ids(&snapshot(&mut storage, 3));
    items.sort();
    assert_eq!(items, vec![1, 2, 7]);
    assert_eq!(snapshot(&mut storage, 3), vec![]);
}

#[test]
fn walk_ends_while_the_storage_changes() {
    let mut storage = Storage::new(2, true);
    for id in [2, 4, 6, 8] {
        track(&mut storage, id, Data);
    }
    let mut shards = storage.take_snapshot(2, &live, &pass, &copied);
    let mut items = Vec::new();
    for _ in 0..4 {
        for id in [2, 4, 6, 8, 10] {
            modify(&mut storage, id, Meta, &[1]);
        }
        items.push(shards[0].next(&mut storage).unwrap().id);
    }
    assert_eq!(items, vec![2, 4, 6, 8]);
    track(&mut storage, 12, Data);
    assert!(shards[0].next(&mut storage).is_none());
    assert!(shards[0].next(&mut storage).is_none());
}

#[test]
fn snapshot_mode_follows_starts_and_ends() {
    let mut storage = Storage::new(2, true);
    track(&mut storage, 1, Data);
    assert!(!storage.snapshot_mode());
    storage.start_snapshot();
    assert!(storage.snapshot_mode());
    let mut shards = storage.take_snapshot(2, &live, &pass, &copied);
    assert!(shards[0].next(&mut storage).is_some());
    track(&mut storage, 1, Meta);
    storage.access_pair_mut(3, 4);
    storage.drop_contents();
    assert!(storage.snapshot_mode());
    shards[0].guard().release(&mut storage);
    assert!(!storage.snapshot_mode());
    track(&mut storage, 1, Meta);
    assert!(!storage.snapshot_mode());
    storage.take_snapshot(2, &live, &pass, &copied);
    assert!(storage.snapshot_mode());
}

#[test]
fn tracking_in_one_mode_leaves_the_flags_of_the_other() {
    let mut storage = Storage::new(2, true);
    storage.access_mut(1).track_modification_internal(Meta);
    storage.access_mut(1).track_modification_internal(Meta);
    assert_eq!(flags(&mut storage, 1), TaskFlags { meta_modified: true, ..TaskFlags::none() });
    assert!(storage.snapshot_keys().is_empty());
    let shards = storage.take_snapshot(2, &live, &pass, &copied);
    assert_eq!(shards[0].guard().modified_tasks, vec![vec![], vec![1]]);
    storage.access_mut(1).track_modification_internal(Data);
    assert_eq!(
        flags(&mut storage, 1),
        TaskFlags { meta_modified: true, data_snapshot: true, ..TaskFlags::none() }
    );
    assert_eq!(storage.snapshot_keys(), vec![1]);
}

#[test]
fn ending_after_a_removal_keeps_what_was_tracked_since() {
    let mut storage = Storage::new(2, true);
    for id in [1, 2, 3] {
        modify(&mut storage, id, Data, &[1]);
    }
    let shards = storage.take_snapshot(2, &live, &pass, &copied);
    track(&mut storage, 2, Data);
    storage.drop_contents();
    storage.access_mut(1).with_mut(|task| task.flags.new_persistent_task = true);
    modify(&mut storage, 3, Meta, &[7]);
    shards[0].guard().release(&mut storage);
    assert!(!storage.snapshot_mode());
    assert_eq!(flags(&mut storage, 1), TaskFlags::none());
    assert_eq!(flags(&mut storage, 2), TaskFlags::none());
    assert_eq!(flags(&mut storage, 3), TaskFlags { meta_modified: true, ..TaskFlags::none() });
    assert_eq!(
        snapshot(&mut storage, 2),
        vec![Item { id: 3, from_copy: false, meta: Some(vec![7]), data: None }]
    );
}

#[test]
fn preallocation() {
    assert_eq!(Storage::map_capacity(true), 1024);
    assert_eq!(Storage::map_capacity(false), 1024 * 1024);
}

#[test]
fn end_keeps_tasks_whose_copy_was_taken() {
    let mut storage = Storage::new(16, true);
    for id in 0..30 {
        modify(&mut storage, id, Data, &[0]);
    }
    let mut shards = storage.take_snapshot(3, &live, &pass, &copied);
    for id in 10..40 {
        modify(&mut storage, id, Data, &[1]);
    }
    let mut count = 0;
    for shard in shards.iter_mut() {
        while let Some(item) = shard.next(&mut storage) {
            assert_eq!(item.from_copy, item.id >= 10);
            assert_eq!(item.data, Some(vec![0]));
            count += 1;
        }
    }
    assert_eq!(count, 30);
    shards[0].guard().release(&mut storage);
    for id in 0..40 {
        assert_eq!(flags(&mut storage, id), TaskFlags { data_modified: id >= 10, ..TaskFlags::none() });
    }
    let mut again = ids(&snapshot(&mut storage, 16));
    again.sort();
    assert_eq!(again, (10..40).collect::<Vec<TaskId>>());
}

#[test]
fn modifications_between_the_stages_of_the_end_are_not_lost() {
    let mut storage = Storage::new(2, true);
    modify(&mut storage, 2, Data, &[1]);
    modify(&mut storage, 4, Data, &[1]);
    modify(&mut storage, 6, Data, &[1]);
    let shards = storage.take_snapshot(2, &live, &pass, &copied);
    let guard = shards[0].guard();
    track(&mut storage, 4, Data);
    storage.clear_modified(&guard.modified_tasks);
    assert_eq!(flags(&mut storage, 2), TaskFlags::none());
    // Still in snapshot mode: the task enters the snapshots.
    track(&mut storage, 2, Meta);
    assert_eq!(flags(&mut storage, 2), TaskFlags { meta_snapshot: true, ..TaskFlags::none() });
    storage.leave_snapshot_mode();
    // Not in snapshot mode any more, and not requeued yet.
    track(&mut storage, 4, Meta);
    assert_eq!(
        flags(&mut storage, 4),
        TaskFlags { data_snapshot: true, meta_modified: true, ..TaskFlags::none() }
    );
    track(&mut storage, 6, Meta);
    let mut keys = storage.snapshot_keys();
    keys.sort();
    assert_eq!(keys, vec![2, 4]);
    storage.requeue_modified(&vec![4, 2]);
    // Requeued, and still among the snapshots.
    track(&mut storage, 2, Data);
    storage.forget_snapshots();
    assert!(storage.snapshot_keys().is_empty());
    let shards = storage.take_snapshot(2, &live, &pass, &copied);
    assert_eq!(shards[0].guard().modified_tasks, vec![vec![6, 4, 2], vec![]]);
    for id in [2, 4] {
        assert_eq!(
            flags(&mut storage, id),
            TaskFlags { meta_modified: true, data_modified: true, ..TaskFlags::none() }
        );
    }
}

#[test]
fn requeuing_passes_over_tasks_that_do_not_exist() {
    let mut storage = Storage::new(2, true);
    storage.requeue_modified(&vec![3]);
    storage.clear_modified(&vec![vec![3], vec![]]);
    let shards = storage.take_snapshot(2, &live, &pass, &copied);
    assert_eq!(shards[0].guard().modified_tasks, vec![Vec::<TaskId>::new(); 2]);
}

#[test]
fn walk_passes_over_removed_tasks() {
    let mut storage = Storage::new(2, true);
    for id in [1, 2, 3, 4] {
        modify(&mut storage, id, Meta, &[id as u8]);
    }
    let mut shards = storage.take_snapshot(2, &live, &pass, &copied);
    storage.drop_contents();
    modify(&mut storage, 4, Meta, &[40]);
    storage.access_mut(1);
    assert!(storage.snapshot_mode());
    // Tasks 2 and 3 are gone, and tasks 1 and 4 are new and not modified before the snapshot.
    assert_eq!(shards[0].next(&mut storage), None);
    shards[0].guard().release(&mut storage);
    assert_eq!(
        snapshot(&mut storage, 2),
        vec![Item { id: 4, from_copy: false, meta: Some(vec![40]), data: None }]
    );
}

#[test]
fn dropped_contents_leave_nothing() {
    let mut storage = Storage::new(2, true);
    modify(&mut storage, 1, Meta, &[1]);
    storage.drop_contents();
    assert!(storage.access_mut(1).with(|task| task.meta.is_empty() && !task.flags.any_modified()));
    assert_eq!(snapshot(&mut storage, 2), vec![]);
    modify(&mut storage, 1, Meta, &[1]);
    storage.start_snapshot();
    modify(&mut storage, 1, Meta, &[2]);
    storage.drop_contents();
    assert!(storage.snapshot_mode());
    assert_eq!(snapshot(&mut storage, 2), vec![]);
    assert_eq!(snapshot(&mut storage, 2), vec![]);
}

#[test]
fn finishing_a_task_does_not_need_the_storage() {
    let mut storage = Storage::new(2, true);
    modify(&mut storage, 2, Data, &[1]);
    modify(&mut storage, 4, Data, &[1]);
    let mut shards = storage.take_snapshot(2, &live, &pass, &copied);
    modify(&mut storage, 4, Data, &[2]);
    let first = shards[0].advance(&mut storage).unwrap();
    modify(&mut storage, 2, Data, &[2]);
    let second = shards[0].advance(&mut storage).unwrap();
    assert!(shards[0].advance(&mut storage).is_none());
    drop(storage);
    assert_eq!(shards[0].finish(second).data, Some(vec![1]));
    assert_eq!(shards[0].finish(first).data, Some(vec![1]));
}

#[test]
fn scratch_buffer_is_handed_on() {
    let mut storage = Storage::new(2, true);
    for id in [2, 4, 6] {
        track(&mut storage, id, Data);
    }
    let read = |_id: TaskId, _task: &TaskStorage| ();
    let write = |id: TaskId, _task: (), buffer: &mut Vec<u8>| {
        assert!(buffer.capacity() >= 4096);
        buffer.push(id as u8);
        buffer.clone()
    };
    let write_copy = |id: TaskId, _task: Box<TaskStorage>, buffer: &mut Vec<u8>| {
        buffer.push(100 + id as u8);
        buffer.clone()
    };
    let mut shards = storage.take_snapshot(2, &read, &write, &write_copy);
    track(&mut storage, 4, Data);
    let shard: &mut SnapshotShard<_, _, _> = &mut shards[0];
    assert_eq!(shard.next(&mut storage), Some(vec![2]));
    assert_eq!(shard.next(&mut storage), Some(vec![2, 104]));
    assert_eq!(shard.next(&mut storage), Some(vec![2, 104, 6]));
    assert_eq!(shard.next(&mut storage), None);
}
