use crate::category::SpecificTaskDataCategory;
use vstd::prelude::*;

verus! {

/// Identifies a task. Ids are plain integers, so that the maps are keyed by a type whose equality
/// and hash come from the standard library.
pub type TaskId = u32;

/// What the storage tracks about a task. None of these flags is persisted.
#[derive(Debug, Clone, Copy, PartialEq, Eq, Structural)]
pub struct TaskFlags {
    /// The meta part was modified since the last snapshot.
    pub meta_modified: bool,
    /// The data part was modified since the last snapshot.
    pub data_modified: bool,
    /// The meta part was modified during the current snapshot.
    pub meta_snapshot: bool,
    /// The data part was modified during the current snapshot.
    pub data_snapshot: bool,
    /// The task has not been part of a snapshot yet.
    pub new_persistent_task: bool,
}

impl TaskFlags {
    pub open spec fn spec_none() -> TaskFlags {
        TaskFlags {
            meta_modified: false,
            data_modified: false,
            meta_snapshot: false,
            data_snapshot: false,
            new_persistent_task: false,
        }
    }

    pub open spec fn modified(self, category: SpecificTaskDataCategory) -> bool {
        match category {
            SpecificTaskDataCategory::Meta => self.meta_modified,
            SpecificTaskDataCategory::Data => self.data_modified,
        }
    }

    pub open spec fn snapshot(self, category: SpecificTaskDataCategory) -> bool {
        match category {
            SpecificTaskDataCategory::Meta => self.meta_snapshot,
            SpecificTaskDataCategory::Data => self.data_snapshot,
        }
    }

    pub open spec fn some_modified(self) -> bool {
        self.meta_modified || self.data_modified
    }

    pub open spec fn some_snapshot(self) -> bool {
        self.meta_snapshot || self.data_snapshot
    }

    pub open spec fn with_modified(self, category: SpecificTaskDataCategory, value: bool) -> TaskFlags {
        match category {
            SpecificTaskDataCategory::Meta => TaskFlags { meta_modified: value, ..self },
            SpecificTaskDataCategory::Data => TaskFlags { data_modified: value, ..self },
        }
    }

    pub open spec fn with_snapshot(self, category: SpecificTaskDataCategory, value: bool) -> TaskFlags {
        match category {
            SpecificTaskDataCategory::Meta => TaskFlags { meta_snapshot: value, ..self },
            SpecificTaskDataCategory::Data => TaskFlags { data_snapshot: value, ..self },
        }
    }

    /// The flags of a task whose modifications the snapshot has handed out.
    pub open spec fn with_modifications_cleared(self) -> TaskFlags {
        TaskFlags {
            meta_modified: false,
            data_modified: false,
            new_persistent_task: false,
            ..self
        }
    }

    /// The flags once modifications that were made during a snapshot count as modifications since
    /// the last snapshot.
    pub open spec fn with_snapshot_as_modified(self) -> TaskFlags {
        TaskFlags {
            meta_modified: self.meta_modified || self.meta_snapshot,
            data_modified: self.data_modified || self.data_snapshot,
            meta_snapshot: false,
            data_snapshot: false,
            ..self
        }
    }

    /// No flag set.
    pub fn none() -> (flags: TaskFlags)
        ensures
            flags == TaskFlags::spec_none(),
    {
        TaskFlags {
            meta_modified: false,
            data_modified: false,
            meta_snapshot: false,
            data_snapshot: false,
            new_persistent_task: false,
        }
    }

    pub fn any_modified(&self) -> (any: bool)
        ensures
            any == self.some_modified(),
    {
        self.meta_modified || self.data_modified
    }

    pub fn any_snapshot(&self) -> (any: bool)
        ensures
            any == self.some_snapshot(),
    {
        self.meta_snapshot || self.data_snapshot
    }

    pub fn is_modified(&self, category: SpecificTaskDataCategory) -> (modified: bool)
        ensures
            modified == self.modified(category),
    {
        match category {
            SpecificTaskDataCategory::Meta => self.meta_modified,
            SpecificTaskDataCategory::Data => self.data_modified,
        }
    }

    pub fn is_snapshot(&self, category: SpecificTaskDataCategory) -> (snapshot: bool)
        ensures
            snapshot == self.snapshot(category),
    {
        match category {
            SpecificTaskDataCategory::Meta => self.meta_snapshot,
            SpecificTaskDataCategory::Data => self.data_snapshot,
        }
    }

    pub fn set_modified(&mut self, category: SpecificTaskDataCategory, value: bool)
        ensures
            *final(self) == old(self).with_modified(category, value),
    {
        match category {
            SpecificTaskDataCategory::Meta => {
                self.meta_modified = value;
            },
            SpecificTaskDataCategory::Data => {
                self.data_modified = value;
            },
        }
    }

    pub fn set_snapshot(&mut self, category: SpecificTaskDataCategory, value: bool)
        ensures
            *final(self) == old(self).with_snapshot(category, value),
    {
        match category {
            SpecificTaskDataCategory::Meta => {
                self.meta_snapshot = value;
            },
            SpecificTaskDataCategory::Data => {
                self.data_snapshot = value;
            },
        }
    }
}

/// A task as a value: its flags and its fields.
#[verifier::ext_equal]
pub struct TaskState {
    pub flags: TaskFlags,
    pub meta: Seq<u8>,
    pub data: Seq<u8>,
    pub transient: Seq<u8>,
}

impl TaskState {
    /// A task that nothing has been stored in.
    pub open spec fn fresh() -> TaskState {
        TaskState {
            flags: TaskFlags::spec_none(),
            meta: Seq::empty(),
            data: Seq::empty(),
            transient: Seq::empty(),
        }
    }

    pub open spec fn with_flags(self, flags: TaskFlags) -> TaskState {
        TaskState { flags, ..self }
    }

    /// The persistent fields alone.
    pub open spec fn persistent(self) -> TaskState {
        TaskState { flags: TaskFlags::spec_none(), transient: Seq::empty(), ..self }
    }

    /// What a snapshot keeps of the task: the persistent fields and the modified flags.
    pub open spec fn kept(self) -> TaskState {
        self.persistent().with_flags(
            TaskFlags {
                meta_modified: self.flags.meta_modified,
                data_modified: self.flags.data_modified,
                ..TaskFlags::spec_none()
            },
        )
    }

    /// The bytes of one of the two persistent parts.
    pub open spec fn part(self, category: SpecificTaskDataCategory) -> Seq<u8> {
        match category {
            SpecificTaskDataCategory::Meta => self.meta,
            SpecificTaskDataCategory::Data => self.data,
        }
    }
}

/// A task: its flags and its encoded fields. The fields of the two persistent parts are apart,
/// since they are tracked and stored apart; transient fields are never stored.
#[derive(Debug)]
pub struct TaskStorage {
    pub flags: TaskFlags,
    pub meta: Vec<u8>,
    pub data: Vec<u8>,
    pub transient: Vec<u8>,
}

impl View for TaskStorage {
    type V = TaskState;

    open spec fn view(&self) -> TaskState {
        TaskState {
            flags: self.flags,
            meta: self.meta@,
            data: self.data@,
            transient: self.transient@,
        }
    }
}

impl TaskStorage {
    pub fn new() -> (task: TaskStorage)
        ensures
            task@ == TaskState::fresh(),
    {
        TaskStorage {
            flags: TaskFlags::none(),
            meta: Vec::new(),
            data: Vec::new(),
            transient: Vec::new(),
        }
    }

    /// A copy of the persistent fields. Flags and transient fields are left out.
    pub fn clone_snapshot(&self) -> (copy: TaskStorage)
        ensures
            copy@ == self@.persistent(),
    {
        let meta = self.meta.clone();
        let data = self.data.clone();
        assert(meta@ =~= self.meta@);
        assert(data@ =~= self.data@);
        TaskStorage { flags: TaskFlags::none(), meta, data, transient: Vec::new() }
    }
}

} // verus!
