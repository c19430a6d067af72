use vstd::prelude::*;

verus! {

/// The part of a task that an operation is about.
#[derive(Debug, Clone, Copy, PartialEq, Eq, Hash, Structural)]
pub enum TaskDataCategory {
    Meta,
    Data,
    All,
}

/// One of the two parts of a task that are stored separately.
#[derive(Debug, Clone, Copy, PartialEq, Eq, Hash, Structural)]
pub enum SpecificTaskDataCategory {
    Meta,
    Data,
}

/// A key space of the database that holds a part of the tasks.
#[derive(Debug, Clone, Copy, PartialEq, Eq, Hash, Structural)]
pub enum KeySpace {
    TaskMeta,
    TaskData,
}

impl TaskDataCategory {
    /// Whether this category covers the given part of a task.
    pub open spec fn covers(self, part: SpecificTaskDataCategory) -> bool {
        match self {
            TaskDataCategory::Meta => part is Meta,
            TaskDataCategory::Data => part is Data,
            TaskDataCategory::All => true,
        }
    }

    /// The single part that this category stands for. `All` stands for no single part.
    pub fn into_specific(self) -> (part: SpecificTaskDataCategory)
        requires
            !(self is All),
        ensures
            forall|other: SpecificTaskDataCategory| self.covers(other) <==> other == part,
            part is Meta <==> self is Meta,
            part is Data <==> self is Data,
    {
        match self {
            TaskDataCategory::Meta => SpecificTaskDataCategory::Meta,
            TaskDataCategory::Data => SpecificTaskDataCategory::Data,
            TaskDataCategory::All => vstd::pervasive::unreached(),
        }
    }

    pub fn includes_data(self) -> (included: bool)
        ensures
            included == self.covers(SpecificTaskDataCategory::Data),
            included <==> self is Data || self is All,
    {
        matches!(self, TaskDataCategory::Data | TaskDataCategory::All)
    }

    pub fn includes_meta(self) -> (included: bool)
        ensures
            included == self.covers(SpecificTaskDataCategory::Meta),
            included <==> self is Meta || self is All,
    {
        matches!(self, TaskDataCategory::Meta | TaskDataCategory::All)
    }
}

impl SpecificTaskDataCategory {
    /// The key space that stores data of this category.
    pub fn key_space(self) -> (space: KeySpace)
        ensures
            space == (match self {
                SpecificTaskDataCategory::Meta => KeySpace::TaskMeta,
                SpecificTaskDataCategory::Data => KeySpace::TaskData,
            }),
    {
        match self {
            SpecificTaskDataCategory::Meta => KeySpace::TaskMeta,
            SpecificTaskDataCategory::Data => KeySpace::TaskData,
        }
    }
}

} // verus!
