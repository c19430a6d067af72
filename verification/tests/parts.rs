use task_storage::category::SpecificTaskDataCategory::{Data, Meta};
use task_storage::sharded::Sharded;
use task_storage::task::{TaskFlags, TaskStorage};

#[test]
fn flags_by_category() {
    let mut flags = TaskFlags::none();
    assert!(!flags.any_modified() && !flags.any_snapshot());
    flags.set_modified(Data, true);
    assert!(flags.any_modified() && flags.is_modified(Data) && !flags.is_modified(Meta));
    assert!(!flags.any_snapshot());
    flags.set_snapshot(Meta, true);
    assert!(flags.any_snapshot() && flags.is_snapshot(Meta) && !flags.is_snapshot(Data));
    flags.set_modified(Data, false);
    flags.set_snapshot(Meta, false);
    assert_eq!(flags, TaskFlags::none());
}

#[test]
fn snapshot_copy_has_persistent_fields_only() {
    let mut task = TaskStorage::new();
    task.meta = vec![1, 2];
    task.data = vec![3];
    task.transient = vec![4];
    task.flags.set_modified(Meta, true);
    task.flags.new_persistent_task = true;
    let copy = task.clone_snapshot();
    assert_eq!(copy.meta, vec![1, 2]);
    assert_eq!(copy.data, vec![3]);
    assert!(copy.transient.is_empty());
    assert_eq!(copy.flags, TaskFlags::none());
    assert_eq!(task.transient, vec![4]);
}

#[test]
fn sharded_list_keeps_keys_in_their_shard() {
    let mut list = Sharded::new(4);
    for key in [7, 4, 3, 8, 1] {
        list.push(key);
    }
    assert_eq!(list.take(), vec![vec![4, 8], vec![1], vec![], vec![7, 3]]);
    assert_eq!(list.take(), vec![Vec::<u32>::new(); 4]);
}
