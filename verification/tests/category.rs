use task_storage::category::{KeySpace, SpecificTaskDataCategory, TaskDataCategory};

#[test]
fn specific_category_of_meta_and_data() {
    assert_eq!(TaskDataCategory::Meta.into_specific(), SpecificTaskDataCategory::Meta);
    assert_eq!(TaskDataCategory::Data.into_specific(), SpecificTaskDataCategory::Data);
}

#[test]
fn included_parts() {
    assert!(TaskDataCategory::Meta.includes_meta());
    assert!(!TaskDataCategory::Meta.includes_data());
    assert!(!TaskDataCategory::Data.includes_meta());
    assert!(TaskDataCategory::Data.includes_data());
    assert!(TaskDataCategory::All.includes_meta());
    assert!(TaskDataCategory::All.includes_data());
}

#[test]
fn key_spaces() {
    assert_eq!(SpecificTaskDataCategory::Meta.key_space(), KeySpace::TaskMeta);
    assert_eq!(SpecificTaskDataCategory::Data.key_space(), KeySpace::TaskData);
}
