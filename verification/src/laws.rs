//! What holds of the storage across operations.
//!
//! The operations are taken apart into the steps during which the storage is locked. Between two
//! steps any other step may come that [`Progress::allows`] admits, so that what is shown here of every
//! sequence of steps holds however the operations of several users of the storage interleave.

use crate::category::SpecificTaskDataCategory;
use crate::state::StorageState;
use crate::task::{TaskFlags, TaskId, TaskState};
use vstd::prelude::*;

verus! {

/// A step of an operation.
pub enum Step {
    /// A task is looked up, and created where it does not exist.
    Access(TaskId),
    /// A modification of a category of a task is tracked.
    Track(TaskId, SpecificTaskDataCategory),
    /// The fields of a task are changed.
    Edit(TaskId, TaskState),
    /// Snapshot mode is started.
    Start,
    /// The list of modified tasks is taken.
    Take,
    /// A task is handed out, with its copy if it has one.
    HandOut(TaskId),
    /// At the end of a snapshot: the modifications of a task whose id was taken are cleared.
    Clear(TaskId),
    /// Snapshot mode is left.
    Leave,
    /// A task that was modified during the snapshot is put on the list.
    Requeue(TaskId),
    /// The map of snapshots is emptied.
    Forget,
    /// All tasks are removed.
    Drop,
}

/// A storage, and the tasks that a snapshot has taken and not cleared yet, if one has taken any.
#[verifier::ext_equal]
pub struct Progress {
    pub state: StorageState,
    pub taken: Option<Set<TaskId>>,
}

/// No list holds a key twice, and keys stand in the list of their shard: so each key stands in all
/// the lists at most once.
pub open spec fn listed_once(lists: Seq<Seq<TaskId>>) -> bool {
    forall|i: int| 0 <= i < lists.len() ==> {
        &&& (#[trigger] lists[i]).no_duplicates()
        &&& forall|key: TaskId| #[trigger] lists[i].contains(key) ==> crate::sharded::shard_of(key, lists.len()) == i
    }
}

impl Progress {
    pub open spec fn fresh(shard_amount: nat) -> Progress {
        Progress { state: StorageState::fresh(shard_amount), taken: None }
    }

    /// Whether the snapshot is yet to be told of a modification of the task: it is on the list, or
    /// was taken.
    pub open spec fn due(self, key: TaskId) -> bool {
        ||| crate::sharded::listed(self.state.modified, key)
        ||| self.taken is Some && self.taken->0.contains(key)
    }

    /// The flags of a task say where the task stands.
    pub open spec fn task_consistent(self, key: TaskId) -> bool {
        let flags = self.state.tasks[key].flags;
        let mode = self.state.snapshot_mode;
        let listed = crate::sharded::listed(self.state.modified, key);
        &&& self.due(key) ==> flags.some_modified()
        &&& flags.some_modified() ==> self.due(key) || (!mode && flags.some_snapshot())
        &&& flags.some_snapshot() ==> self.state.snapshots.contains_key(key)
        &&& self.state.snapshots.contains_key(key) && !flags.some_snapshot() ==> !mode && listed
        &&& !mode && flags.some_snapshot() ==> !listed
    }

    /// The flags of the tasks agree with the list of modified tasks, with the map of snapshots and
    /// with what was taken; no task stands on the list twice.
    pub open spec fn consistent(self) -> bool {
        &&& self.state.wf()
        &&& listed_once(self.state.modified)
        &&& self.taken is Some ==> self.state.snapshot_mode
        &&& forall|key: TaskId| #[trigger]
            crate::sharded::listed(self.state.modified, key) ==> self.state.tasks.contains_key(key) && self.taken is None
        &&& forall|key: TaskId|
            self.taken is Some && #[trigger] self.taken->0.contains(key) ==> self.state.tasks.contains_key(key)
        &&& forall|key: TaskId| #[trigger]
            self.state.snapshots.contains_key(key) ==> self.state.tasks.contains_key(key)
        &&& forall|key: TaskId| #[trigger]
            self.state.tasks.contains_key(key) ==> self.task_consistent(key)
    }

    /// No snapshot is active or being ended.
    pub open spec fn at_rest(self) -> bool {
        !self.state.snapshot_mode && self.state.snapshots.dom() == Set::<TaskId>::empty()
    }

    /// Whether an operation can take this step now. Fields are edited and tracked only in tasks that
    /// exist, and an edit leaves the flags of modifications alone. A snapshot goes through its stages
    /// in order: it is not started before the last one has ended, takes the list once, clears all that
    /// it took before it leaves snapshot mode, and requeues each task before it empties the map of
    /// snapshots. It may come to ids whose task was removed meanwhile, or removed and created anew.
    pub open spec fn allows(self, step: Step) -> bool {
        match step {
            Step::Access(key) => true,
            Step::Track(key, category) => self.state.tasks.contains_key(key),
            Step::Edit(key, task) => {
                &&& self.state.tasks.contains_key(key)
                &&& task.flags == TaskFlags {
                    new_persistent_task: task.flags.new_persistent_task,
                    ..self.state.tasks[key].flags
                }
            },
            Step::Start => self.state.snapshot_mode || self.at_rest(),
            Step::Take => self.state.snapshot_mode && self.taken is None,
            Step::HandOut(key) => true,
            Step::Clear(key) => self.taken is Some,
            Step::Leave => self.taken == Some(Set::<TaskId>::empty()),
            Step::Requeue(key) => {
                &&& !self.state.snapshot_mode
                &&& self.state.tasks.contains_key(key) ==> self.state.tasks[key].flags.some_snapshot()
            },
            Step::Forget => {
                &&& !self.state.snapshot_mode
                &&& forall|key: TaskId| #[trigger]
                    self.state.tasks.contains_key(key) ==> !self.state.tasks[key].flags.some_snapshot()
            },
            Step::Drop => true,
        }
    }

    pub open spec fn after(self, step: Step) -> Progress {
        match step {
            Step::Access(key) => Progress { state: self.state.access(key), ..self },
            Step::Track(key, category) => Progress { state: self.state.track(key, category), ..self },
            Step::Edit(key, task) => Progress { state: self.state.with_task(key, task), ..self },
            Step::Start => Progress { state: self.state.start(), ..self },
            Step::Take => Progress {
                state: self.state.take_modified(),
                taken: Some(crate::sharded::listed_keys(self.state.modified)),
            },
            Step::HandOut(key) => Progress { state: self.state.take_copy(key), ..self },
            Step::Clear(key) => Progress { state: self.state.clear(key), taken: Some(self.taken->0.remove(key)) },
            Step::Leave => Progress { state: self.state.leave(), taken: None },
            Step::Requeue(key) => Progress { state: self.state.requeue(key), ..self },
            Step::Forget => Progress { state: self.state.without_snapshots(), ..self },
            Step::Drop => Progress {
                state: self.state.dropped(),
                taken: if self.taken is Some { Some(Set::empty()) } else { None },
            },
        }
    }

    /// After a sequence of steps.
    pub open spec fn run(self, steps: Seq<Step>) -> Progress
        decreases steps.len(),
    {
        if steps.len() == 0 {
            self
        } else {
            self.run(steps.drop_last()).after(steps.last())
        }
    }

    /// Whether each step of a sequence can be taken when it comes to it.
    pub open spec fn allows_all(self, steps: Seq<Step>) -> bool
        decreases steps.len(),
    {
        steps.len() == 0 || (self.allows_all(steps.drop_last()) && self.run(steps.drop_last()).allows(steps.last()))
    }

    /// Whether a step leaves a category of a task to the snapshot: the step does not hand the task
    /// out, clear it, end the snapshot or remove the task, and edits the category only if that
    /// modification was tracked.
    pub open spec fn spares(self, step: Step, key: TaskId, category: SpecificTaskDataCategory) -> bool {
        match step {
            Step::Edit(edited, task) => edited == key && task.part(category) != self.state.tasks[key].part(category)
                ==> self.state.tasks[key].flags.snapshot(category),
            Step::HandOut(other) => other != key,
            Step::Clear(other) => other != key,
            Step::Leave => false,
            Step::Drop => false,
            _ => true,
        }
    }

    /// If the task was modified during the snapshot, there is a copy of it if and only if it is part
    /// of the snapshot. So it is until the task is handed out.
    pub open spec fn copied_if_due(self, key: TaskId) -> bool {
        let flags = self.state.tasks[key].flags;
        flags.some_snapshot() ==> (self.state.has_copy(key) <==> flags.some_modified())
    }

    pub open spec fn spares_all(self, steps: Seq<Step>, key: TaskId, category: SpecificTaskDataCategory) -> bool
        decreases steps.len(),
    {
        steps.len() == 0 || (self.spares_all(steps.drop_last(), key, category) && self.run(steps.drop_last()).spares(
            steps.last(),
            key,
            category,
        ))
    }

    /// Whether a modification of a category of a task will be part of the next snapshot.
    pub open spec fn will_persist(self, key: TaskId, category: SpecificTaskDataCategory) -> bool {
        &&& self.state.tasks.contains_key(key)
        &&& {
            let flags = self.state.tasks[key].flags;
            flags.snapshot(category) || (!self.state.snapshot_mode && flags.modified(category))
        }
    }
}

proof fn lemma_with_key(lists: Seq<Seq<TaskId>>, key: TaskId)
    requires
        lists.len() > 0,
    ensures
        crate::sharded::with_key(lists, key).len() == lists.len(),
        forall|other: TaskId| #[trigger]
            crate::sharded::listed(crate::sharded::with_key(lists, key), other) <==> crate::sharded::listed(lists, other)
                || other == key,
        listed_once(lists) && !crate::sharded::listed(lists, key) ==> listed_once(crate::sharded::with_key(lists, key)),
{
    let shard = crate::sharded::shard_of(key, lists.len());
    let longer = crate::sharded::with_key(lists, key);
    assert(0 <= shard < lists.len());
    assert(longer[shard] == lists[shard].push(key));
    assert(longer[shard][lists[shard].len() as int] == key);
    assert forall|i: int, other: TaskId| 0 <= i < lists.len() implies (#[trigger] longer[i].contains(other) <==> lists[i].contains(other)
        || (i == shard && other == key)) by {
        if lists[i].contains(other) {
            let n = choose|n: int| 0 <= n < lists[i].len() && lists[i][n] == other;
            assert(longer[i][n] == other);
        }
        if longer[i].contains(other) {
            let n = choose|n: int| 0 <= n < longer[i].len() && longer[i][n] == other;
            if n < lists[i].len() {
                assert(lists[i][n] == other);
            }
        }
    }
    assert forall|other: TaskId| #[trigger]
        crate::sharded::listed(longer, other) <==> crate::sharded::listed(lists, other) || other == key by {
        if crate::sharded::listed(lists, other) {
            let i = choose|i: int| 0 <= i < lists.len() && (#[trigger] lists[i]).contains(other);
            assert(longer[i].contains(other));
        }
        assert(longer[shard].contains(key));
        if crate::sharded::listed(longer, other) {
            let i = choose|i: int| 0 <= i < longer.len() && (#[trigger] longer[i]).contains(other);
            assert(lists[i].contains(other) || other == key);
        }
    }
    if listed_once(lists) && !crate::sharded::listed(lists, key) {
        assert(!lists[shard].contains(key));
        assert forall|i: int| 0 <= i < longer.len() implies {
            &&& (#[trigger] longer[i]).no_duplicates()
            &&& forall|other: TaskId| #[trigger] longer[i].contains(other) ==> crate::sharded::shard_of(other, longer.len()) == i
        } by {
            assert(lists[i].no_duplicates());
            if i == shard {
                assert forall|a: int, b: int| 0 <= a < b < longer[i].len() implies longer[i][a] != longer[i][b] by {
                    assert(lists[i].contains(lists[i][a]));
                }
            }
        }
    }
}

proof fn lemma_no_keys(shard_amount: nat)
    ensures
        listed_once(crate::sharded::no_keys(shard_amount)),
        forall|key: TaskId| !#[trigger] crate::sharded::listed(crate::sharded::no_keys(shard_amount), key),
{
}

/// A new storage is consistent, and no snapshot is active.
pub proof fn law_fresh_is_consistent(shard_amount: nat)
    requires
        shard_amount > 0,
    ensures
        Progress::fresh(shard_amount).consistent(),
        Progress::fresh(shard_amount).at_rest(),
{
    lemma_no_keys(shard_amount);
}

/// Every step keeps the storage consistent. In particular a task is never put on the list of
/// modified tasks a second time.
pub proof fn law_step_keeps_consistency(before: Progress, step: Step)
    requires
        before.consistent(),
        before.allows(step),
    ensures
        before.after(step).consistent(),
{
    let after = before.after(step);
    lemma_no_keys(before.state.modified.len());
    match step {
        Step::Track(key, category) => {
            lemma_with_key(before.state.modified, key);
            assert(before.task_consistent(key));
            assert forall|other: TaskId| #[trigger] after.state.tasks.contains_key(other) implies after.task_consistent(other) by {
                assert(before.task_consistent(other));
            }
        },
        Step::Requeue(key) => {
            lemma_with_key(before.state.modified, key);
            if before.state.tasks.contains_key(key) {
                assert(before.task_consistent(key));
            }
            assert forall|other: TaskId| #[trigger] after.state.tasks.contains_key(other) implies after.task_consistent(other) by {
                assert(before.task_consistent(other));
            }
        },
        _ => {
            assert forall|other: TaskId| #[trigger] after.state.tasks.contains_key(other) implies after.task_consistent(other) by {
                if before.state.tasks.contains_key(other) {
                    assert(before.task_consistent(other));
                }
            }
        },
    }
}

/// Every sequence of steps keeps the storage consistent.
pub proof fn law_steps_keep_consistency(before: Progress, steps: Seq<Step>)
    requires
        before.consistent(),
        before.allows_all(steps),
    ensures
        before.run(steps).consistent(),
    decreases steps.len(),
{
    if steps.len() > 0 {
        law_steps_keep_consistency(before, steps.drop_last());
        law_step_keeps_consistency(before.run(steps.drop_last()), steps.last());
    }
}

/// A modification that is tracked will be part of the next snapshot, whether or not a snapshot is
/// active.
pub proof fn law_tracked_will_persist(before: Progress, key: TaskId, category: SpecificTaskDataCategory)
    requires
        before.state.tasks.contains_key(key),
    ensures
        before.after(Step::Track(key, category)).will_persist(key, category),
{
}

proof fn lemma_step_keeps_modification(
    before: Progress,
    step: Step,
    key: TaskId,
    category: SpecificTaskDataCategory,
)
    requires
        before.consistent(),
        before.will_persist(key, category),
        before.allows(step),
        !(step is Drop),
        step is Start ==> before.state.snapshot_mode,
    ensures
        before.after(step).will_persist(key, category),
{
    assert(before.task_consistent(key));
}

/// A modification that will be part of the next snapshot is not lost, whatever steps follow, until
/// the next snapshot is started or all tasks are removed. Once no snapshot is active, the category
/// counts as modified and the task is on the list.
pub proof fn law_modification_is_not_lost(
    before: Progress,
    steps: Seq<Step>,
    key: TaskId,
    category: SpecificTaskDataCategory,
)
    requires
        before.consistent(),
        before.will_persist(key, category),
        before.allows_all(steps),
        forall|i: int|
            0 <= i < steps.len() ==> !(steps[i] is Drop) && (#[trigger] steps[i] is Start ==> before.run(
                steps.take(i),
            ).state.snapshot_mode),
    ensures
        before.run(steps).will_persist(key, category),
        before.run(steps).at_rest() ==> {
            &&& before.run(steps).state.tasks[key].flags.modified(category)
            &&& crate::sharded::listed(before.run(steps).state.modified, key)
        },
    decreases steps.len(),
{
    law_steps_keep_consistency(before, steps);
    if steps.len() > 0 {
        let earlier = steps.drop_last();
        assert forall|i: int| 0 <= i < earlier.len() implies !(earlier[i] is Drop) && (#[trigger] earlier[i] is Start
            ==> before.run(earlier.take(i)).state.snapshot_mode) by {
            assert(earlier[i] == steps[i]);
            assert(earlier.take(i) =~= steps.take(i));
        }
        law_modification_is_not_lost(before, earlier, key, category);
        law_steps_keep_consistency(before, earlier);
        assert(steps.take(steps.len() - 1) =~= earlier);
        assert(steps[steps.len() - 1] == steps.last());
        lemma_step_keeps_modification(before.run(earlier), steps.last(), key, category);
    }
    assert(before.run(steps).state.tasks.contains_key(key));
    assert(before.run(steps).task_consistent(key));
}

/// A snapshot takes the tasks that are modified, all of them and no others.
pub proof fn law_snapshot_takes_modified_tasks(before: Progress, key: TaskId)
    requires
        before.consistent(),
        before.allows(Step::Take),
    ensures
        before.after(Step::Take).taken->0.contains(key) <==> {
            &&& before.state.tasks.contains_key(key)
            &&& before.state.tasks[key].flags.some_modified()
        },
{
    if before.state.tasks.contains_key(key) {
        assert(before.task_consistent(key));
    }
}

/// Until the modifications of a task that was taken are cleared, the snapshot hands the task out
/// when it comes to it.
pub proof fn law_taken_tasks_are_handed_out(now: Progress, key: TaskId)
    requires
        now.consistent(),
        now.taken is Some,
        now.taken->0.contains(key),
    ensures
        now.state.hands_out(key),
{
    assert(now.state.tasks.contains_key(key));
    assert(now.task_consistent(key));
}

/// Handing a task out keeps it among the snapshots, so that the end of the snapshot requeues it, and
/// touches no task.
pub proof fn law_handing_out_keeps_snapshots(state: StorageState, key: TaskId)
    ensures
        state.take_copy(key).snapshots.dom() == state.snapshots.dom(),
        state.take_copy(key).tasks == state.tasks,
        state.take_copy(key).modified == state.modified,
        !state.take_copy(key).has_copy(key),
{
    assert(state.take_copy(key).snapshots.dom() =~= state.snapshots.dom());
}

/// Tracking the same modification again changes nothing.
pub proof fn law_tracking_is_idempotent(state: StorageState, key: TaskId, category: SpecificTaskDataCategory)
    requires
        state.tasks.contains_key(key),
    ensures
        state.track(key, category).track(key, category) == state.track(key, category),
{
}

/// Tracking touches no other task and no other entry of the map of snapshots, and of the task itself
/// nothing but the flags. It clears no flag and leaves those of the other category alone.
pub proof fn law_tracking_touches_only_flags(
    state: StorageState,
    key: TaskId,
    category: SpecificTaskDataCategory,
    other: TaskId,
    part: SpecificTaskDataCategory,
)
    requires
        state.tasks.contains_key(key),
    ensures
        ({
            let after = state.track(key, category);
            let flags = state.tasks[key].flags;
            let flags_after = after.tasks[key].flags;
            &&& after.tasks.dom() == state.tasks.dom()
            &&& other != key ==> {
                &&& after.tasks[other] == state.tasks[other]
                &&& after.snapshots.contains_key(other) <==> state.snapshots.contains_key(other)
                &&& after.snapshots[other] == state.snapshots[other]
            }
            &&& after.tasks[key] == state.tasks[key].with_flags(flags_after)
            &&& after.tasks[key].meta == state.tasks[key].meta
            &&& after.tasks[key].data == state.tasks[key].data
            &&& after.tasks[key].transient == state.tasks[key].transient
            &&& flags.modified(part) ==> flags_after.modified(part)
            &&& flags.snapshot(part) ==> flags_after.snapshot(part)
            &&& part != category ==> {
                &&& flags_after.modified(part) == flags.modified(part)
                &&& flags_after.snapshot(part) == flags.snapshot(part)
            }
            &&& flags_after.new_persistent_task == flags.new_persistent_task
            &&& after.snapshot_mode == state.snapshot_mode
        }),
{
    let after = state.track(key, category);
    assert(after.tasks.dom() =~= state.tasks.dom());
}

/// In snapshot mode a modification goes to the map of snapshots: the list of modified tasks and the
/// modified flags stay as they are. Outside snapshot mode it goes to the list: the map of snapshots
/// and the snapshot flags stay as they are. Tracking does not change the mode.
pub proof fn law_tracking_follows_mode(
    state: StorageState,
    key: TaskId,
    category: SpecificTaskDataCategory,
    part: SpecificTaskDataCategory,
)
    requires
        state.tasks.contains_key(key),
    ensures
        ({
            let after = state.track(key, category);
            &&& after.snapshot_mode == state.snapshot_mode
            &&& state.snapshot_mode ==> {
                &&& after.modified == state.modified
                &&& after.tasks[key].flags.modified(part) == state.tasks[key].flags.modified(part)
            }
            &&& !state.snapshot_mode ==> {
                &&& after.snapshots == state.snapshots
                &&& after.tasks[key].flags.snapshot(part) == state.tasks[key].flags.snapshot(part)
            }
        }),
{
}

/// No key stands in two places of the lists.
pub open spec fn no_key_twice(lists: Seq<Seq<TaskId>>) -> bool {
    forall|i: int, a: int, j: int, b: int|
        #![trigger lists[i][a], lists[j][b]]
        0 <= i < lists.len() && 0 <= a < lists[i].len() && 0 <= j < lists.len() && 0 <= b < lists[j].len()
            && lists[i][a] == lists[j][b] ==> i == j && a == b
}

/// Tracking does not put a task on the list a second time, as long as a listed task has a modified
/// flag; and that stays so.
pub proof fn law_tracking_lists_once(state: StorageState, key: TaskId, category: SpecificTaskDataCategory)
    requires
        state.wf(),
        state.tasks.contains_key(key),
        no_key_twice(state.modified),
        crate::sharded::listed(state.modified, key) ==> state.tasks[key].flags.some_modified(),
    ensures
        no_key_twice(state.track(key, category).modified),
        crate::sharded::listed(state.track(key, category).modified, key) ==> state.track(
            key,
            category,
        ).tasks[key].flags.some_modified(),
{
    let lists = state.modified;
    let after = state.track(key, category).modified;
    lemma_with_key(lists, key);
    if after != lists {
        let shard = crate::sharded::shard_of(key, lists.len());
        assert(after == crate::sharded::with_key(lists, key));
        assert forall|i: int, a: int, j: int, b: int|
            #![trigger after[i][a], after[j][b]]
            0 <= i < after.len() && 0 <= a < after[i].len() && 0 <= j < after.len() && 0 <= b < after[j].len()
                && after[i][a] == after[j][b] implies i == j && a == b by {
            assert forall|n: int, c: int| 0 <= n < after.len() && 0 <= c < after[n].len() implies if n == shard && c
                == lists[n].len() {
                #[trigger] after[n][c] == key
            } else {
                c < lists[n].len() && after[n][c] == lists[n][c] && lists[n][c] != key
            } by {
                if c < lists[n].len() {
                    assert(lists[n].contains(lists[n][c]));
                }
            }
            if after[i][a] != key {
                assert(lists[i][a] == lists[j][b]);
            }
        }
    }
}

/// In a consistent storage no task stands on the list twice.
pub proof fn law_no_task_is_listed_twice(now: Progress)
    requires
        now.consistent(),
    ensures
        no_key_twice(now.state.modified),
{
    let lists = now.state.modified;
    assert forall|i: int, a: int, j: int, b: int|
        #![trigger lists[i][a], lists[j][b]]
        0 <= i < lists.len() && 0 <= a < lists[i].len() && 0 <= j < lists.len() && 0 <= b < lists[j].len()
            && lists[i][a] == lists[j][b] implies i == j && a == b by {
        assert(lists[i].contains(lists[i][a]));
        assert(lists[j].contains(lists[j][b]));
        assert(lists[i].no_duplicates());
    }
}

/// Looking up a task again changes nothing, and looking up a task never changes one that exists.
pub proof fn law_access_is_idempotent(state: StorageState, key: TaskId, other: TaskId)
    ensures
        state.access(key).access(key) == state.access(key),
        state.access(key).tasks.contains_key(key),
        state.tasks.contains_key(other) ==> {
            &&& state.access(key).tasks.contains_key(other)
            &&& state.access(key).tasks[other] == state.tasks[other]
        },
{
}

proof fn lemma_filter_none(ids: Seq<TaskId>, keep: spec_fn(TaskId) -> bool)
    requires
        forall|i: int| 0 <= i < ids.len() ==> !keep(#[trigger] ids[i]),
    ensures
        ids.filter(keep) == Seq::<TaskId>::empty(),
    decreases ids.len(),
{
    reveal(Seq::filter);
    if ids.len() > 0 {
        lemma_filter_none(ids.drop_last(), keep);
    }
}

proof fn lemma_filter_all(ids: Seq<TaskId>, keep: spec_fn(TaskId) -> bool)
    requires
        forall|i: int| 0 <= i < ids.len() ==> keep(#[trigger] ids[i]),
    ensures
        ids.filter(keep) == ids,
    decreases ids.len(),
{
    reveal(Seq::filter);
    if ids.len() > 0 {
        lemma_filter_all(ids.drop_last(), keep);
        assert(ids.drop_last().push(ids.last()) =~= ids);
    }
}

proof fn lemma_filter_same(ids: Seq<TaskId>, keep: spec_fn(TaskId) -> bool, other: spec_fn(TaskId) -> bool)
    requires
        forall|i: int| 0 <= i < ids.len() ==> keep(#[trigger] ids[i]) == other(ids[i]),
    ensures
        ids.filter(keep) == ids.filter(other),
    decreases ids.len(),
{
    reveal(Seq::filter);
    if ids.len() > 0 {
        lemma_filter_same(ids.drop_last(), keep, other);
        assert(ids[ids.len() - 1] == ids.last());
    }
}

/// The ids that are passed over are not handed out, and the one after them is.
proof fn lemma_skipped(state: StorageState, ids: Seq<TaskId>)
    ensures
        state.skipped(ids) <= ids.len(),
        forall|i: int| 0 <= i < state.skipped(ids) ==> !state.hands_out(#[trigger] ids[i]),
        state.skipped(ids) < ids.len() ==> state.hands_out(ids[state.skipped(ids) as int]),
    decreases ids.len(),
{
    if ids.len() > 0 && !state.hands_out(ids[0]) {
        let rest = ids.drop_first();
        lemma_skipped(state, rest);
        assert forall|i: int| 0 <= i < state.skipped(ids) implies !state.hands_out(#[trigger] ids[i]) by {
            if i > 0 {
                assert(ids[i] == rest[i - 1]);
            }
        }
    }
}

/// A walk that nothing else comes between hands out, in order, the tasks that are to be handed out
/// when it starts.
pub proof fn law_walk_hands_out_in_order(state: StorageState, ids: Seq<TaskId>)
    requires
        ids.no_duplicates(),
    ensures
        state.walk(ids) == ids.filter(|key: TaskId| state.hands_out(key)),
    decreases ids.len(),
{
    let keep = |key: TaskId| state.hands_out(key);
    let n = state.skipped(ids) as int;
    lemma_skipped(state, ids);
    if n >= ids.len() {
        lemma_filter_none(ids, keep);
    } else {
        let key = ids[n];
        let rest = ids.skip(n + 1);
        let later = state.take_copy(key);
        let keep_later = |other: TaskId| later.hands_out(other);
        assert(rest.no_duplicates());
        law_walk_hands_out_in_order(later, rest);
        assert forall|i: int| 0 <= i < rest.len() implies keep_later(#[trigger] rest[i]) == keep(rest[i]) by {
            assert(rest[i] == ids[n + 1 + i]);
        }
        lemma_filter_same(rest, keep_later, keep);
        assert(ids =~= ids.take(n) + (seq![key] + rest));
        Seq::filter_distributes_over_add(ids.take(n), seq![key] + rest, keep);
        Seq::filter_distributes_over_add(seq![key], rest, keep);
        lemma_filter_none(ids.take(n), keep);
        lemma_filter_all(seq![key], keep);
        assert(ids.filter(keep) =~= state.walk(ids));
    }
}

/// A walk through tasks that a snapshot has taken, which nothing else comes between, hands out each
/// of them once.
pub proof fn law_walk_hands_out_every_taken_task(now: Progress, ids: Seq<TaskId>)
    requires
        now.consistent(),
        now.taken is Some,
        ids.no_duplicates(),
        forall|i: int| 0 <= i < ids.len() ==> now.taken->0.contains(#[trigger] ids[i]),
    ensures
        now.state.walk(ids) == ids,
{
    let keep = |key: TaskId| now.state.hands_out(key);
    law_walk_hands_out_in_order(now.state, ids);
    assert forall|i: int| 0 <= i < ids.len() implies keep(#[trigger] ids[i]) by {
        law_taken_tasks_are_handed_out(now, ids[i]);
    }
    lemma_filter_all(ids, keep);
}

/// The ids that a shard of a snapshot walks through.
pub open spec fn chunk_ids(lists: Seq<Seq<TaskId>>, chunk_size: int, chunk: int) -> Seq<TaskId> {
    crate::snapshot::ids_from(
        lists,
        crate::snapshot::chunk_start(chunk, chunk_size, lists.len() as int),
        0,
        crate::snapshot::chunk_start(chunk + 1, chunk_size, lists.len() as int),
    )
}

/// The ids that the first of the given number of shards of a snapshot walk through, one after the
/// other.
pub open spec fn chunked_ids(lists: Seq<Seq<TaskId>>, chunk_size: int, chunks: nat) -> Seq<TaskId>
    decreases chunks,
{
    if chunks == 0 {
        Seq::empty()
    } else {
        chunked_ids(lists, chunk_size, (chunks - 1) as nat) + chunk_ids(lists, chunk_size, chunks - 1)
    }
}

proof fn lemma_ids_from_split(lists: Seq<Seq<TaskId>>, start: int, middle: int, end: int)
    requires
        0 <= start <= middle <= end <= lists.len(),
    ensures
        crate::snapshot::ids_from(lists, start, 0, middle) + crate::snapshot::ids_from(lists, middle, 0, end)
            == crate::snapshot::ids_from(lists, start, 0, end),
    decreases middle - start,
{
    if start < middle {
        lemma_ids_from_split(lists, start + 1, middle, end);
    }
    assert(crate::snapshot::ids_from(lists, start, 0, middle) + crate::snapshot::ids_from(lists, middle, 0, end)
        =~= crate::snapshot::ids_from(lists, start, 0, end));
}

proof fn lemma_ids_from_contains(lists: Seq<Seq<TaskId>>, start: int, end: int, key: TaskId)
    requires
        0 <= start <= end <= lists.len(),
    ensures
        crate::snapshot::ids_from(lists, start, 0, end).contains(key) <==> exists|i: int|
            start <= i < end && (#[trigger] lists[i]).contains(key),
    decreases end - start,
{
    let ids = crate::snapshot::ids_from(lists, start, 0, end);
    if start < end {
        let rest = crate::snapshot::ids_from(lists, start + 1, 0, end);
        lemma_ids_from_contains(lists, start + 1, end, key);
        assert(lists[start].skip(0) =~= lists[start]);
        assert(ids =~= lists[start] + rest);
        if lists[start].contains(key) {
            let n = choose|n: int| 0 <= n < lists[start].len() && lists[start][n] == key;
            assert(ids[n] == key);
        }
        if rest.contains(key) {
            let n = choose|n: int| 0 <= n < rest.len() && rest[n] == key;
            assert(ids[lists[start].len() + n] == key);
        }
        if ids.contains(key) {
            let n = choose|n: int| 0 <= n < ids.len() && ids[n] == key;
            if n < lists[start].len() {
                assert(lists[start][n] == key);
            } else {
                assert(rest[n - lists[start].len()] == key);
            }
        }
    }
}

proof fn lemma_ids_from_no_duplicates(lists: Seq<Seq<TaskId>>, start: int, end: int)
    requires
        0 <= start <= end <= lists.len(),
        listed_once(lists),
    ensures
        crate::snapshot::ids_from(lists, start, 0, end).no_duplicates(),
    decreases end - start,
{
    if start < end {
        let ids = crate::snapshot::ids_from(lists, start, 0, end);
        let rest = crate::snapshot::ids_from(lists, start + 1, 0, end);
        lemma_ids_from_no_duplicates(lists, start + 1, end);
        assert(lists[start].skip(0) =~= lists[start]);
        assert(ids =~= lists[start] + rest);
        assert(lists[start].no_duplicates());
        assert forall|a: int, b: int| 0 <= a < b < ids.len() implies ids[a] != ids[b] by {
            let len = lists[start].len();
            if a < len && b >= len {
                let key = ids[b];
                assert(rest[b - len] == key);
                assert(rest.contains(key));
                lemma_ids_from_contains(lists, start + 1, end, key);
                let i = choose|i: int| start + 1 <= i < end && (#[trigger] lists[i]).contains(key);
                assert(crate::sharded::shard_of(key, lists.len()) == i);
                assert(lists[start].contains(lists[start][a]));
            } else if a >= len {
                assert(rest[a - len] != rest[b - len]);
            }
        }
    }
}

proof fn lemma_chunked_ids(lists: Seq<Seq<TaskId>>, chunk_size: int, chunks: nat)
    requires
        chunk_size > 0,
    ensures
        chunked_ids(lists, chunk_size, chunks) == crate::snapshot::ids_from(
            lists,
            0,
            0,
            crate::snapshot::chunk_start(chunks as int, chunk_size, lists.len() as int),
        ),
    decreases chunks,
{
    let n = lists.len() as int;
    if chunks == 0 {
        assert(0 * chunk_size == 0) by (nonlinear_arith);
    } else {
        lemma_chunked_ids(lists, chunk_size, (chunks - 1) as nat);
        assert(0 <= (chunks - 1) * chunk_size <= chunks * chunk_size) by (nonlinear_arith)
            requires
                chunk_size > 0,
                chunks >= 1,
        ;
        lemma_ids_from_split(
            lists,
            0,
            crate::snapshot::chunk_start(chunks - 1, chunk_size, n),
            crate::snapshot::chunk_start(chunks as int, chunk_size, n),
        );
    }
}

/// The shards of a snapshot together walk through every id of the lists that the snapshot took, and
/// through each of them once. The number of shards is as [`take_snapshot`] returns it.
///
/// [`take_snapshot`]: crate::storage::Storage::take_snapshot
pub proof fn law_shards_cover_lists_once(lists: Seq<Seq<TaskId>>, chunk_size: int, chunks: nat, key: TaskId)
    requires
        chunk_size > 0,
        lists.len() <= chunks * chunk_size,
        listed_once(lists),
    ensures
        chunked_ids(lists, chunk_size, chunks).no_duplicates(),
        chunked_ids(lists, chunk_size, chunks).contains(key) <==> crate::sharded::listed(lists, key),
{
    let n = lists.len() as int;
    lemma_chunked_ids(lists, chunk_size, chunks);
    assert(crate::snapshot::chunk_start(chunks as int, chunk_size, n) == n);
    lemma_ids_from_no_duplicates(lists, 0, n);
    lemma_ids_from_contains(lists, 0, n, key);
}

/// The steps at the end of a snapshot: the tasks with the first ids are cleared, snapshot mode is
/// left, and those with the other ids are requeued.
pub open spec fn end_steps(cleared: Seq<TaskId>, requeued: Seq<TaskId>) -> Seq<Step> {
    cleared.map_values(|key: TaskId| Step::Clear(key)) + seq![Step::Leave] + requeued.map_values(
        |key: TaskId| Step::Requeue(key),
    ) + seq![Step::Forget]
}

proof fn lemma_run_join(before: Progress, first: Seq<Step>, second: Seq<Step>)
    ensures
        before.run(first + second) == before.run(first).run(second),
        before.allows_all(first + second) <==> before.allows_all(first) && before.run(first).allows_all(second),
    decreases second.len(),
{
    let steps = first + second;
    if second.len() == 0 {
        assert(steps =~= first);
    } else {
        assert(steps.drop_last() =~= first + second.drop_last());
        assert(steps.last() == second.last());
        lemma_run_join(before, first, second.drop_last());
    }
}

proof fn lemma_run_one(before: Progress, step: Step)
    ensures
        before.run(seq![step]) == before.after(step),
        before.allows_all(seq![step]) <==> before.allows(step),
{
    let steps = seq![step];
    assert(steps.drop_last() =~= Seq::<Step>::empty());
    assert(steps.last() == step);
    reveal_with_fuel(Progress::run, 2);
    reveal_with_fuel(Progress::allows_all, 2);
}

proof fn lemma_run_clears(before: Progress, ids: Seq<TaskId>)
    requires
        before.taken is Some,
        ids.no_duplicates(),
    ensures
        ({
            let steps = ids.map_values(|key: TaskId| Step::Clear(key));
            &&& before.allows_all(steps)
            &&& before.run(steps) == Progress {
                state: before.state.clear_all(ids.to_set()),
                taken: Some(before.taken->0.difference(ids.to_set())),
            }
        }),
    decreases ids.len(),
{
    let steps = ids.map_values(|key: TaskId| Step::Clear(key));
    let end = Progress {
        state: before.state.clear_all(ids.to_set()),
        taken: Some(before.taken->0.difference(ids.to_set())),
    };
    if ids.len() == 0 {
        assert(end.state.tasks =~= before.state.tasks);
        assert(end.taken->0 =~= before.taken->0);
        assert(end =~= before);
    } else {
        let earlier = ids.drop_last();
        let key = ids.last();
        lemma_run_clears(before, earlier);
        assert(steps.drop_last() =~= earlier.map_values(|key: TaskId| Step::Clear(key)));
        assert forall|other: TaskId| ids.contains(other) <==> earlier.contains(other) || other == key by {
            if earlier.contains(other) {
                let n = choose|n: int| 0 <= n < earlier.len() && earlier[n] == other;
                assert(ids[n] == other);
            }
            if ids.contains(other) {
                let n = choose|n: int| 0 <= n < ids.len() && ids[n] == other;
                if n < earlier.len() {
                    assert(earlier[n] == other);
                }
            }
            assert(ids[ids.len() - 1] == key);
        }
        assert(!earlier.contains(key)) by {
            if earlier.contains(key) {
                let n = choose|n: int| 0 <= n < earlier.len() && earlier[n] == key;
                assert(ids[n] == ids[ids.len() - 1]);
            }
        }
        let middle = before.run(steps.drop_last());
        assert(middle.after(Step::Clear(key)).state.tasks =~= end.state.tasks);
        assert(middle.after(Step::Clear(key)).taken->0 =~= end.taken->0);
        assert(middle.after(Step::Clear(key)) =~= end);
        assert(steps.last() == Step::Clear(key));
    }
}

proof fn lemma_run_requeues(before: Progress, order: Seq<TaskId>)
    requires
        before.state.wf(),
        !before.state.snapshot_mode,
        order.no_duplicates(),
        forall|i: int|
            0 <= i < order.len() ==> {
                &&& before.state.tasks.contains_key(#[trigger] order[i])
                &&& before.state.tasks[order[i]].flags.some_snapshot()
            },
    ensures
        ({
            let steps = order.map_values(|key: TaskId| Step::Requeue(key));
            &&& before.allows_all(steps)
            &&& before.run(steps) == Progress { state: before.state.requeue_all(order), ..before }
        }),
    decreases order.len(),
{
    let steps = order.map_values(|key: TaskId| Step::Requeue(key));
    if order.len() == 0 {
        assert(order =~= Seq::<TaskId>::empty());
        crate::state::lemma_requeue_none(before.state);
    } else {
        let earlier = order.drop_last();
        let key = order.last();
        lemma_run_requeues(before, earlier);
        assert(steps.drop_last() =~= earlier.map_values(|key: TaskId| Step::Requeue(key)));
        assert(order =~= earlier.push(key));
        crate::state::lemma_requeue_next(before.state, earlier, key);
        assert(before.state.tasks.contains_key(order[order.len() - 1]));
        assert(!earlier.contains(key)) by {
            if earlier.contains(key) {
                let n = choose|n: int| 0 <= n < earlier.len() && earlier[n] == key;
                assert(order[n] == order[order.len() - 1]);
            }
        }
        assert(steps.last() == Step::Requeue(key));
    }
}

/// The end of a snapshot is a sequence of steps: the tasks that were taken are cleared, snapshot
/// mode is left, the tasks that were modified during the snapshot are requeued, and the map of
/// snapshots is emptied. So what holds of every sequence of steps holds of it, and of what comes
/// between its steps. Of the tasks that were taken, some may have been removed meanwhile.
pub proof fn law_end_is_its_steps(
    before: Progress,
    lists: Seq<Seq<TaskId>>,
    taken: Seq<TaskId>,
    order: Seq<TaskId>,
)
    requires
        before.consistent(),
        before.taken is Some,
        before.taken->0.subset_of(crate::sharded::listed_keys(lists)),
        crate::state::lists_once(taken, crate::sharded::listed_keys(lists)),
        crate::state::lists_once(order, before.state.snapshots.dom()),
    ensures
        before.allows_all(end_steps(taken, order)),
        before.run(end_steps(taken, order)) == (Progress { state: before.state.end(lists, order), taken: None }),
{
    let clears = taken.map_values(|key: TaskId| Step::Clear(key));
    let requeues = order.map_values(|key: TaskId| Step::Requeue(key));
    let keys = crate::sharded::listed_keys(lists);
    assert(taken.to_set() =~= keys);
    lemma_run_clears(before, taken);
    let cleared = before.run(clears);
    assert(cleared.taken->0 =~= Set::<TaskId>::empty());
    lemma_run_join(before, clears, seq![Step::Leave]);
    lemma_run_one(cleared, Step::Leave);
    let left = cleared.after(Step::Leave);
    assert forall|i: int| 0 <= i < order.len() implies {
        &&& left.state.tasks.contains_key(#[trigger] order[i])
        &&& left.state.tasks[order[i]].flags.some_snapshot()
    } by {
        assert(order.contains(order[i]));
        assert(before.state.snapshots.contains_key(order[i]));
        assert(before.task_consistent(order[i]));
    }
    lemma_run_requeues(left, order);
    lemma_run_join(before, clears + seq![Step::Leave], requeues);
    let requeued = left.run(requeues);
    assert forall|key: TaskId| #[trigger] requeued.state.tasks.contains_key(key) implies !requeued.state.tasks[key].flags.some_snapshot() by {
        assert(before.task_consistent(key));
        if before.state.tasks[key].flags.some_snapshot() {
            assert(order.contains(key));
        }
    }
    lemma_run_join(before, clears + seq![Step::Leave] + requeues, seq![Step::Forget]);
    lemma_run_one(requeued, Step::Forget);
}

/// The end of a snapshot leaves no snapshot active and the storage consistent. A category of a task
/// then counts as modified if and only if it was modified during the snapshot, and a task is on the
/// list if and only if one of its categories was. Fields are untouched. Of the tasks that were taken,
/// some may have been removed meanwhile.
pub proof fn law_end_keeps_what_was_modified_during_snapshot(
    before: Progress,
    lists: Seq<Seq<TaskId>>,
    order: Seq<TaskId>,
    key: TaskId,
    category: SpecificTaskDataCategory,
)
    requires
        before.consistent(),
        before.taken is Some,
        before.taken->0.subset_of(crate::sharded::listed_keys(lists)),
        listed_once(lists),
        crate::state::lists_once(order, before.state.snapshots.dom()),
    ensures
        ({
            let after = Progress { state: before.state.end(lists, order), taken: None };
            &&& after.consistent()
            &&& after.at_rest()
            &&& after.state.tasks.dom() == before.state.tasks.dom()
            &&& before.state.tasks.contains_key(key) ==> {
                let flags = before.state.tasks[key].flags;
                let flags_after = after.state.tasks[key].flags;
                &&& after.state.tasks[key] == before.state.tasks[key].with_flags(flags_after)
                &&& after.state.tasks[key].meta == before.state.tasks[key].meta
                &&& after.state.tasks[key].data == before.state.tasks[key].data
                &&& after.state.tasks[key].transient == before.state.tasks[key].transient
                &&& flags_after.modified(category) <==> flags.snapshot(category)
                &&& !flags_after.some_snapshot()
                &&& crate::sharded::listed(after.state.modified, key) <==> flags.some_snapshot()
                &&& flags_after.new_persistent_task <==> flags.new_persistent_task && !crate::sharded::listed(lists, key)
            }
        }),
{
    let after = Progress { state: before.state.end(lists, order), taken: None };
    let n = lists.len() as int;
    let taken = crate::snapshot::ids_from(lists, 0, 0, n);
    lemma_ids_from_no_duplicates(lists, 0, n);
    assert forall|other: TaskId| #[trigger] taken.contains(other) <==> crate::sharded::listed(lists, other) by {
        lemma_ids_from_contains(lists, 0, n, other);
    }
    law_end_is_its_steps(before, lists, taken, order);
    law_steps_keep_consistency(before, end_steps(taken, order));
    assert(after.state.tasks.dom() =~= before.state.tasks.dom());
    if before.state.tasks.contains_key(key) {
        assert(before.task_consistent(key));
        assert(after.task_consistent(key));
        assert(order.contains(key) <==> before.state.snapshots.contains_key(key));
    }
}

/// The copy of a task stays as it is, whatever steps follow, until the task is handed out, the map of
/// snapshots is emptied at the end of the snapshot, or all tasks are removed.
pub proof fn law_copy_stays(before: Progress, steps: Seq<Step>, key: TaskId)
    requires
        before.consistent(),
        before.state.has_copy(key),
        before.allows_all(steps),
        forall|i: int|
            0 <= i < steps.len() ==> #[trigger] steps[i] != Step::HandOut(key) && !(steps[i] is Forget) && !(steps[i] is Drop),
    ensures
        before.run(steps).state.has_copy(key),
        before.run(steps).state.handed_out(key) == before.state.handed_out(key),
    decreases steps.len(),
{
    if steps.len() > 0 {
        let earlier = steps.drop_last();
        assert forall|i: int| 0 <= i < earlier.len() implies #[trigger] earlier[i] != Step::HandOut(key) && !(earlier[i] is Forget)
            && !(earlier[i] is Drop) by {
            assert(earlier[i] == steps[i]);
        }
        law_copy_stays(before, earlier, key);
        law_steps_keep_consistency(before, earlier);
        assert(steps[steps.len() - 1] == steps.last());
        let middle = before.run(earlier);
        assert(middle.state.snapshots.contains_key(key));
        assert(middle.task_consistent(key));
    }
}

/// A task that had been modified before snapshot mode and is modified again during it is handed out
/// as it was before: from a copy with the persistent fields and the modified flags that it had when
/// the first modification was tracked, whatever is done to it from then on. It does not matter in
/// which category it is modified. The call of [`next`] that comes to the task finds this copy and
/// applies `process_snapshot` to it. The task itself holds what was written to it last.
///
/// [`next`]: crate::snapshot::SnapshotShard::next
pub proof fn law_snapshot_hands_out_state_before_modification(
    before: Progress,
    key: TaskId,
    category: SpecificTaskDataCategory,
    steps: Seq<Step>,
)
    requires
        before.consistent(),
        before.state.snapshot_mode,
        before.state.tasks.contains_key(key),
        before.state.tasks[key].flags.some_modified(),
        !before.state.tasks[key].flags.some_snapshot(),
        before.after(Step::Track(key, category)).allows_all(steps),
        forall|i: int|
            0 <= i < steps.len() ==> #[trigger] steps[i] != Step::HandOut(key) && !(steps[i] is Forget) && !(steps[i] is Drop),
    ensures
        ({
            let now = before.after(Step::Track(key, category)).run(steps).state;
            &&& now.hands_out(key)
            &&& now.has_copy(key)
            &&& now.snapshots[key] == Some(before.state.tasks[key].kept())
            &&& steps.len() > 0 && steps.last() is Edit && steps.last()->Edit_0 == key ==> {
                &&& now.tasks[key] == steps.last()->Edit_1
                &&& now.take_copy(key).tasks[key] == steps.last()->Edit_1
            }
        }),
{
    let touched = before.after(Step::Track(key, category));
    law_step_keeps_consistency(before, Step::Track(key, category));
    law_copy_stays(touched, steps, key);
    law_steps_keep_consistency(touched, steps);
}

proof fn lemma_step_keeps_captured(
    before: Progress,
    step: Step,
    key: TaskId,
    category: SpecificTaskDataCategory,
)
    requires
        before.consistent(),
        before.state.snapshot_mode,
        before.state.tasks.contains_key(key),
        before.copied_if_due(key),
        before.allows(step),
        before.spares(step, key, category),
    ensures
        before.after(step).state.captured(key, category) == before.state.captured(key, category),
        before.after(step).state.tasks[key].flags.some_modified() == before.state.tasks[key].flags.some_modified(),
        before.after(step).state.snapshot_mode,
        before.after(step).state.tasks.contains_key(key),
        before.after(step).copied_if_due(key),
{
    assert(before.task_consistent(key));
}

/// What a snapshot hands out for a category of a task does not change, whatever steps follow, until
/// the snapshot is done with the task, as long as edits are tracked.
pub proof fn law_captured_stays(
    before: Progress,
    steps: Seq<Step>,
    key: TaskId,
    category: SpecificTaskDataCategory,
)
    requires
        before.consistent(),
        before.state.snapshot_mode,
        before.state.tasks.contains_key(key),
        before.copied_if_due(key),
        before.allows_all(steps),
        before.spares_all(steps, key, category),
    ensures
        before.run(steps).state.captured(key, category) == before.state.captured(key, category),
        before.run(steps).state.tasks[key].flags.some_modified() == before.state.tasks[key].flags.some_modified(),
        before.run(steps).state.snapshot_mode,
        before.run(steps).state.tasks.contains_key(key),
        before.run(steps).copied_if_due(key),
    decreases steps.len(),
{
    if steps.len() > 0 {
        law_captured_stays(before, steps.drop_last(), key, category);
        law_steps_keep_consistency(before, steps.drop_last());
        lemma_step_keeps_captured(before.run(steps.drop_last()), steps.last(), key, category);
    }
}

/// A snapshot hands out the categories that were modified when it was started, with the bytes that
/// they had then, whatever is modified during the snapshot, as long as edits are tracked. Among the
/// snapshots, a task that was modified before snapshot mode has a copy, and one that was first
/// modified during it has none.
pub proof fn law_snapshot_is_as_of_its_start(
    before: Progress,
    steps: Seq<Step>,
    key: TaskId,
    category: SpecificTaskDataCategory,
)
    requires
        before.consistent(),
        before.at_rest(),
        before.state.tasks.contains_key(key),
        before.after(Step::Start).allows_all(steps),
        before.after(Step::Start).spares_all(steps, key, category),
    ensures
        before.after(Step::Start).run(steps).state.captured(key, category) == (if before.state.tasks[key].flags.modified(
            category,
        ) {
            Some(before.state.tasks[key].part(category))
        } else {
            None
        }),
        before.after(Step::Start).run(steps).state.snapshots.contains_key(key) ==> (
        before.after(Step::Start).run(steps).state.snapshots[key] is Some
            <==> before.state.tasks[key].flags.some_modified()),
{
    let started = before.after(Step::Start);
    law_step_keeps_consistency(before, Step::Start);
    assert(!before.state.snapshots.dom().contains(key));
    assert(started.task_consistent(key));
    law_captured_stays(started, steps, key, category);
    law_steps_keep_consistency(started, steps);
    assert(started.run(steps).task_consistent(key));
}

/// Whether a sequence of steps tracks a modification of the task, and does not remove it afterwards.
pub open spec fn tracks(steps: Seq<Step>, key: TaskId) -> bool {
    exists|i: int|
        {
            &&& 0 <= i < steps.len()
            &&& (#[trigger] steps[i]) is Track
            &&& steps[i]->Track_0 == key
            &&& forall|j: int| i < j < steps.len() ==> !((#[trigger] steps[j]) is Drop)
        }
}

proof fn lemma_tracks_last(steps: Seq<Step>, key: TaskId)
    requires
        steps.len() > 0,
    ensures
        tracks(steps, key) <==> {
            ||| steps.last() is Track && steps.last()->Track_0 == key
            ||| tracks(steps.drop_last(), key) && !(steps.last() is Drop)
        },
{
    let earlier = steps.drop_last();
    let last = steps.len() - 1;
    assert(steps[last] == steps.last());
    if tracks(earlier, key) && !(steps.last() is Drop) {
        let i = choose|i: int|
            {
                &&& 0 <= i < earlier.len()
                &&& (#[trigger] earlier[i]) is Track
                &&& earlier[i]->Track_0 == key
                &&& forall|j: int| i < j < earlier.len() ==> !((#[trigger] earlier[j]) is Drop)
            };
        assert(steps[i] == earlier[i]);
        assert forall|j: int| i < j < steps.len() implies !((#[trigger] steps[j]) is Drop) by {
            if j < last {
                assert(earlier[j] == steps[j]);
            }
        }
    }
    if tracks(steps, key) {
        let i = choose|i: int|
            {
                &&& 0 <= i < steps.len()
                &&& (#[trigger] steps[i]) is Track
                &&& steps[i]->Track_0 == key
                &&& forall|j: int| i < j < steps.len() ==> !((#[trigger] steps[j]) is Drop)
            };
        if i < last {
            assert(earlier[i] == steps[i]);
            assert forall|j: int| i < j < earlier.len() implies !((#[trigger] earlier[j]) is Drop) by {
                assert(earlier[j] == steps[j]);
            }
        }
    }
}

/// A step of something else than tracking or a stage of a snapshot after its start. A walk may hand
/// tasks out, and all tasks may be removed.
pub open spec fn quiet(step: Step) -> bool {
    step is Access || step is Edit || step is HandOut || step is Start || step is Drop
}

/// A step between the start of a snapshot and its end.
pub open spec fn within_snapshot(step: Step) -> bool {
    quiet(step) || step is Track || step is Take
}

proof fn lemma_steps_within_snapshot(started: Progress, steps: Seq<Step>)
    requires
        started.consistent(),
        started.state.snapshot_mode,
        started.state.snapshots.dom() == Set::<TaskId>::empty(),
        started.allows_all(steps),
        forall|i: int| 0 <= i < steps.len() ==> within_snapshot(#[trigger] steps[i]),
    ensures
        ({
            let now = started.run(steps);
            &&& now.state.snapshot_mode
            &&& now.state.modified.len() == started.state.modified.len()
            &&& forall|key: TaskId| #[trigger] now.state.tasks.contains_key(key) ==> (
            now.state.tasks[key].flags.some_snapshot() <==> tracks(steps, key))
            &&& forall|key: TaskId| #[trigger] tracks(steps, key) ==> now.state.tasks.contains_key(key)
        }),
    decreases steps.len(),
{
    let now = started.run(steps);
    if steps.len() == 0 {
        assert forall|key: TaskId| #[trigger] now.state.tasks.contains_key(key) implies !now.state.tasks[key].flags.some_snapshot() by {
            assert(started.task_consistent(key));
            assert(!started.state.snapshots.dom().contains(key));
        }
    } else {
        let earlier = steps.drop_last();
        let step = steps.last();
        assert forall|i: int| 0 <= i < earlier.len() implies within_snapshot(#[trigger] earlier[i]) by {
            assert(earlier[i] == steps[i]);
        }
        lemma_steps_within_snapshot(started, earlier);
        law_steps_keep_consistency(started, earlier);
        let before = started.run(earlier);
        assert(within_snapshot(steps[steps.len() - 1]));
        assert forall|key: TaskId| #[trigger] now.state.tasks.contains_key(key) implies (
        now.state.tasks[key].flags.some_snapshot() <==> tracks(steps, key)) by {
            lemma_tracks_last(steps, key);
            if before.state.tasks.contains_key(key) {
                assert(before.task_consistent(key));
            } else {
                assert(!tracks(earlier, key));
            }
        }
        assert forall|key: TaskId| #[trigger] tracks(steps, key) implies now.state.tasks.contains_key(key) by {
            lemma_tracks_last(steps, key);
        }
    }
}

proof fn lemma_taken_shrinks(before: Progress, steps: Seq<Step>)
    requires
        before.taken is Some,
        before.allows_all(steps),
        forall|i: int| 0 <= i < steps.len() ==> within_snapshot(#[trigger] steps[i]),
    ensures
        before.run(steps).taken is Some,
        before.run(steps).taken->0.subset_of(before.taken->0),
    decreases steps.len(),
{
    if steps.len() > 0 {
        let earlier = steps.drop_last();
        assert forall|i: int| 0 <= i < earlier.len() implies within_snapshot(#[trigger] earlier[i]) by {
            assert(earlier[i] == steps[i]);
        }
        lemma_taken_shrinks(before, earlier);
        assert(within_snapshot(steps[steps.len() - 1]));
    }
}

proof fn lemma_quiet_steps(before: Progress, steps: Seq<Step>)
    requires
        before.consistent(),
        before.taken is None,
        before.state.snapshots.dom() == Set::<TaskId>::empty(),
        before.allows_all(steps),
        forall|i: int| 0 <= i < steps.len() ==> quiet(#[trigger] steps[i]),
    ensures
        ({
            let now = before.run(steps);
            &&& now.consistent()
            &&& now.taken is None
            &&& now.state.modified.len() == before.state.modified.len()
            &&& now.state.snapshots.dom() == Set::<TaskId>::empty()
            &&& forall|key: TaskId| #[trigger]
                crate::sharded::listed(now.state.modified, key) <==> {
                    &&& crate::sharded::listed(before.state.modified, key)
                    &&& forall|i: int| 0 <= i < steps.len() ==> !((#[trigger] steps[i]) is Drop)
                }
        }),
    decreases steps.len(),
{
    law_steps_keep_consistency(before, steps);
    if steps.len() > 0 {
        let earlier = steps.drop_last();
        let last = steps.len() - 1;
        assert forall|i: int| 0 <= i < earlier.len() implies quiet(#[trigger] earlier[i]) by {
            assert(earlier[i] == steps[i]);
        }
        lemma_quiet_steps(before, earlier);
        let now = before.run(steps);
        assert(quiet(steps[last]));
        assert(now.state.snapshots.dom() =~= Set::<TaskId>::empty());
        lemma_no_keys(before.state.modified.len());
        assert((forall|i: int| 0 <= i < steps.len() ==> !((#[trigger] steps[i]) is Drop)) <==> {
            &&& forall|i: int| 0 <= i < earlier.len() ==> !((#[trigger] earlier[i]) is Drop)
            &&& !(steps.last() is Drop)
        }) by {
            assert(steps[last] == steps.last());
            assert forall|i: int| 0 <= i < earlier.len() implies #[trigger] earlier[i] == steps[i] by {}
            if forall|i: int| 0 <= i < steps.len() ==> !((#[trigger] steps[i]) is Drop) {
                assert forall|i: int| 0 <= i < earlier.len() implies !((#[trigger] earlier[i]) is Drop) by {
                    assert(!(steps[i] is Drop));
                }
            }
            if (forall|i: int| 0 <= i < earlier.len() ==> !((#[trigger] earlier[i]) is Drop)) && !(steps.last() is Drop) {
                assert forall|i: int| 0 <= i < steps.len() implies !((#[trigger] steps[i]) is Drop) by {
                    if i < last {
                        assert(!(earlier[i] is Drop));
                    }
                }
            }
        }
    }
}

proof fn lemma_tracks_before_quiet(steps: Seq<Step>, later: Seq<Step>, key: TaskId)
    requires
        forall|i: int| 0 <= i < later.len() ==> quiet(#[trigger] later[i]),
    ensures
        tracks(steps + later, key) <==> tracks(steps, key) && (forall|i: int|
            0 <= i < later.len() ==> !((#[trigger] later[i]) is Drop)),
    decreases later.len(),
{
    if later.len() == 0 {
        assert(steps + later =~= steps);
    } else {
        let earlier = later.drop_last();
        let last = later.len() - 1;
        assert((steps + later).drop_last() =~= steps + earlier);
        assert((steps + later).last() == later.last());
        assert forall|i: int| 0 <= i < earlier.len() implies quiet(#[trigger] earlier[i]) by {
            assert(earlier[i] == later[i]);
        }
        lemma_tracks_last(steps + later, key);
        lemma_tracks_before_quiet(steps, earlier, key);
        assert(quiet(later[last]));
        if forall|i: int| 0 <= i < later.len() ==> !((#[trigger] later[i]) is Drop) {
            assert forall|i: int| 0 <= i < earlier.len() implies !((#[trigger] earlier[i]) is Drop) by {
                assert(!(later[i] is Drop));
            }
            assert(!(later[last] is Drop));
        }
        if (forall|i: int| 0 <= i < earlier.len() ==> !((#[trigger] earlier[i]) is Drop)) && !(later.last() is Drop) {
            assert forall|i: int| 0 <= i < later.len() implies !((#[trigger] later[i]) is Drop) by {
                if i < last {
                    assert(!(earlier[i] is Drop));
                }
            }
        }
    }
}

/// The steps of a snapshot up to its end: some before the list is taken, and some after.
pub open spec fn snapshot_steps(early: Seq<Step>, steps: Seq<Step>) -> Seq<Step> {
    early + seq![Step::Take] + steps
}

/// The storage after a snapshot with these steps, which requeues tasks in the given order, and after
/// further steps.
pub open spec fn after_snapshot(
    started: Progress,
    early: Seq<Step>,
    steps: Seq<Step>,
    order: Seq<TaskId>,
    later: Seq<Step>,
) -> Progress {
    Progress {
        state: started.run(snapshot_steps(early, steps)).state.end(started.run(early).state.modified, order),
        taken: None,
    }.run(later)
}

/// The next snapshot hands out exactly the tasks of which a modification was tracked during the last
/// one, each of them once, whether or not they were part of that one. Tasks that were removed after
/// the modification was tracked are left out. Nothing may be tracked after the last snapshot has
/// ended.
///
/// The snapshot mode of the last snapshot has just been started. The shards of the next snapshot walk
/// through the ids of their chunks.
pub proof fn law_next_snapshot_hands_out_what_was_tracked(
    started: Progress,
    early: Seq<Step>,
    steps: Seq<Step>,
    order: Seq<TaskId>,
    later: Seq<Step>,
    chunk_size: int,
    chunks: nat,
    key: TaskId,
)
    requires
        started.consistent(),
        started.state.snapshot_mode,
        started.state.snapshots.dom() == Set::<TaskId>::empty(),
        started.taken is None,
        started.allows_all(snapshot_steps(early, steps)),
        forall|i: int| 0 <= i < early.len() ==> within_snapshot(#[trigger] early[i]),
        forall|i: int| 0 <= i < steps.len() ==> within_snapshot(#[trigger] steps[i]),
        crate::state::lists_once(order, started.run(snapshot_steps(early, steps)).state.snapshots.dom()),
        after_snapshot(started, early, steps, order, Seq::empty()).allows_all(later),
        forall|i: int| 0 <= i < later.len() ==> quiet(#[trigger] later[i]),
        chunk_size > 0,
        started.state.modified.len() <= chunks * chunk_size,
    ensures
        ({
            let before = after_snapshot(started, early, steps, order, later);
            let lists = before.state.start().modified;
            let now = before.state.start().take_modified();
            let ids = chunked_ids(lists, chunk_size, chunks);
            &&& before.consistent()
            &&& before.taken is None
            &&& before.state.snapshots.dom() == Set::<TaskId>::empty()
            &&& before.state.snapshot_mode <==> exists|i: int| 0 <= i < later.len() && (#[trigger] later[i]) is Start
            &&& lists.len() == started.state.modified.len()
            &&& ids.no_duplicates()
            &&& ids.contains(key) <==> tracks(snapshot_steps(early, steps) + later, key)
            &&& now.walk(ids) == ids
            &&& forall|i: int|
                0 <= i < chunks ==> now.walk(#[trigger] chunk_ids(lists, chunk_size, i)) == chunk_ids(lists, chunk_size, i)
            &&& now.take_copy(key) == now
        }),
{
    let all = snapshot_steps(early, steps);
    let ending = started.run(all);
    let middle = started.run(early);
    let lists_taken = middle.state.modified;
    assert forall|i: int| 0 <= i < all.len() implies within_snapshot(#[trigger] all[i]) by {
        if i < early.len() {
            assert(all[i] == early[i]);
        } else if i > early.len() {
            assert(all[i] == steps[i - early.len() - 1]);
        }
    }
    lemma_run_join(started, early + seq![Step::Take], steps);
    lemma_run_join(started, early, seq![Step::Take]);
    lemma_run_one(middle, Step::Take);
    lemma_taken_shrinks(middle.after(Step::Take), steps);
    lemma_steps_within_snapshot(started, all);
    law_steps_keep_consistency(started, early);
    law_steps_keep_consistency(started, all);
    let ended = Progress { state: ending.state.end(lists_taken, order), taken: None };
    assert(after_snapshot(started, early, steps, order, Seq::empty()) == ended);
    assert forall|other: TaskId| #[trigger] crate::sharded::listed(ended.state.modified, other) <==> tracks(all, other) by {
        law_end_keeps_what_was_modified_during_snapshot(
            ending,
            lists_taken,
            order,
            other,
            SpecificTaskDataCategory::Meta,
        );
    }
    law_end_keeps_what_was_modified_during_snapshot(ending, lists_taken, order, key, SpecificTaskDataCategory::Meta);
    lemma_quiet_steps(ended, later);
    lemma_tracks_before_quiet(all, later, key);
    law_snapshot_mode_over_steps(ended, later);
    let before = ended.run(later);
    assert forall|i: int| 0 <= i < later.len() implies !((#[trigger] later[i]) is Leave) by {
        assert(quiet(later[i]));
    }
    let lists = before.state.modified;
    let begun = before.after(Step::Start);
    let now = begun.after(Step::Take);
    law_step_keeps_consistency(before, Step::Start);
    law_step_keeps_consistency(begun, Step::Take);
    law_shards_cover_lists_once(lists, chunk_size, chunks, key);
    let ids = chunked_ids(lists, chunk_size, chunks);
    assert forall|i: int| 0 <= i < ids.len() implies now.taken->0.contains(#[trigger] ids[i]) by {
        assert(ids.contains(ids[i]));
        law_shards_cover_lists_once(lists, chunk_size, chunks, ids[i]);
    }
    law_walk_hands_out_every_taken_task(now, ids);
    assert forall|i: int| 0 <= i < chunks implies now.state.walk(#[trigger] chunk_ids(lists, chunk_size, i)) == chunk_ids(
        lists,
        chunk_size,
        i,
    ) by {
        lemma_chunk_of_ids(lists, chunk_size, i);
        let chunk = chunk_ids(lists, chunk_size, i);
        assert forall|j: int| 0 <= j < chunk.len() implies now.taken->0.contains(#[trigger] chunk[j]) by {
            assert(chunk.contains(chunk[j]));
        }
        law_walk_hands_out_every_taken_task(now, chunk);
    }
    assert(!now.state.snapshots.dom().contains(key));
}

proof fn lemma_chunk_of_ids(lists: Seq<Seq<TaskId>>, chunk_size: int, chunk: int)
    requires
        listed_once(lists),
        chunk_size > 0,
        chunk >= 0,
    ensures
        chunk_ids(lists, chunk_size, chunk).no_duplicates(),
        forall|key: TaskId| #[trigger]
            chunk_ids(lists, chunk_size, chunk).contains(key) ==> crate::sharded::listed(lists, key),
{
    let n = lists.len() as int;
    assert(0 <= chunk * chunk_size <= (chunk + 1) * chunk_size) by (nonlinear_arith)
        requires
            chunk_size > 0,
            chunk >= 0,
    ;
    let start = crate::snapshot::chunk_start(chunk, chunk_size, n);
    let end = crate::snapshot::chunk_start(chunk + 1, chunk_size, n);
    lemma_ids_from_no_duplicates(lists, start, end);
    assert forall|key: TaskId| #[trigger] chunk_ids(lists, chunk_size, chunk).contains(key) implies crate::sharded::listed(
        lists,
        key,
    ) by {
        lemma_ids_from_contains(lists, start, end, key);
    }
}

/// A snapshot during which nothing is tracked leaves every task unmodified and the list empty, and
/// if nothing is tracked after it either, the shards of the next snapshot have nothing to walk
/// through. So nothing is handed out a second time. Tasks may be created, edited and removed
/// meanwhile, and snapshot mode may be started again.
///
/// The storage is as it is when no task is among the snapshots, whether or not snapshot mode has been
/// started.
pub proof fn law_undisturbed_snapshot_clears_everything(
    before: Progress,
    steps: Seq<Step>,
    order: Seq<TaskId>,
    later: Seq<Step>,
    chunk_size: int,
    chunk: int,
    key: TaskId,
)
    requires
        before.consistent(),
        before.state.snapshots.dom() == Set::<TaskId>::empty(),
        before.taken is None,
        before.after(Step::Start).after(Step::Take).allows_all(steps),
        forall|i: int| 0 <= i < steps.len() ==> quiet(#[trigger] steps[i]),
        crate::state::lists_once(
            order,
            before.after(Step::Start).after(Step::Take).run(steps).state.snapshots.dom(),
        ),
        after_snapshot(before.after(Step::Start), Seq::empty(), steps, order, Seq::empty()).allows_all(later),
        forall|i: int| 0 <= i < later.len() ==> quiet(#[trigger] later[i]),
        chunk_size > 0,
        chunk >= 0,
    ensures
        ({
            let after = after_snapshot(before.after(Step::Start), Seq::empty(), steps, order, later);
            &&& after.state.snapshots.dom() == Set::<TaskId>::empty()
            &&& after.state.snapshot_mode <==> exists|i: int| 0 <= i < later.len() && (#[trigger] later[i]) is Start
            &&& after.state.tasks.contains_key(key) ==> !after.state.tasks[key].flags.some_modified()
            &&& !crate::sharded::listed(after.state.modified, key)
            &&& chunk_ids(after.state.start().modified, chunk_size, chunk) == Seq::<TaskId>::empty()
        }),
{
    let started = before.after(Step::Start);
    let none = Seq::<Step>::empty();
    let all = snapshot_steps(none, steps);
    assert(all =~= seq![Step::Take] + steps);
    law_step_keeps_consistency(before, Step::Start);
    lemma_run_one(started, Step::Take);
    lemma_run_join(started, seq![Step::Take], steps);
    let n = started.state.modified.len();
    assert forall|i: int| 0 <= i < steps.len() implies within_snapshot(#[trigger] steps[i]) by {
        assert(quiet(steps[i]));
    }
    let after = after_snapshot(started, none, steps, order, later);
    let lists = after.state.modified;
    assert(n <= n * chunk_size) by (nonlinear_arith)
        requires
            chunk_size > 0,
            n >= 0,
    ;
    assert forall|other: TaskId| !#[trigger] tracks(all + later, other) by {
        if tracks(all, other) {
            let i = choose|i: int|
                {
                    &&& 0 <= i < all.len()
                    &&& (#[trigger] all[i]) is Track
                    &&& all[i]->Track_0 == other
                    &&& forall|j: int| i < j < all.len() ==> !((#[trigger] all[j]) is Drop)
                };
            assert(all[i] == steps[i - 1]);
            assert(quiet(steps[i - 1]));
        }
        lemma_tracks_before_quiet(all, later, other);
    }
    assert forall|other: TaskId| !#[trigger] crate::sharded::listed(lists, other) by {
        law_next_snapshot_hands_out_what_was_tracked(started, none, steps, order, later, chunk_size, n, other);
        assert(!tracks(all + later, other));
        law_shards_cover_lists_once(lists, chunk_size, n, other);
    }
    law_next_snapshot_hands_out_what_was_tracked(started, none, steps, order, later, chunk_size, n, key);
    if after.state.tasks.contains_key(key) {
        assert(after.task_consistent(key));
        assert(!after.state.snapshots.dom().contains(key));
    }
    lemma_chunk_of_ids(lists, chunk_size, chunk);
    let ids = chunk_ids(lists, chunk_size, chunk);
    if ids.len() > 0 {
        assert(ids.contains(ids[0]));
    }
    assert(ids =~= Seq::<TaskId>::empty());
}

/// What a walk through the ids does when [`next`](crate::snapshot::SnapshotShard::next) is called in
/// each of the given states,
/// one after the other, from a position on: for each time the position of the id that is handed out,
/// or none.
pub open spec fn visits(states: Seq<StorageState>, ids: Seq<TaskId>, start: int) -> Seq<Option<int>>
    decreases states.len(),
{
    if states.len() == 0 {
        Seq::empty()
    } else {
        let n = states[0].skipped(ids.skip(start)) as int;
        if n < ids.skip(start).len() {
            seq![Some(start + n)] + visits(states.drop_first(), ids, start + n + 1)
        } else {
            seq![None] + visits(states.drop_first(), ids, ids.len() as int)
        }
    }
}

proof fn lemma_visits(states: Seq<StorageState>, ids: Seq<TaskId>, start: int)
    requires
        0 <= start <= ids.len(),
    ensures
        ({
            let visited = visits(states, ids, start);
            &&& visited.len() == states.len()
            &&& forall|i: int|
                0 <= i < visited.len() && (#[trigger] visited[i]) is Some ==> {
                    &&& start + i <= visited[i]->0 < ids.len()
                    &&& states[i].hands_out(ids[visited[i]->0])
                }
            &&& forall|i: int, j: int|
                0 <= i < j < visited.len() && (#[trigger] visited[j]) is Some ==> (#[trigger] visited[i]) is Some
                    && visited[i]->0 < visited[j]->0
        }),
    decreases states.len(),
{
    if states.len() > 0 {
        let visited = visits(states, ids, start);
        let left = ids.skip(start);
        let n = states[0].skipped(left) as int;
        let next = if n < left.len() {
            start + n + 1
        } else {
            ids.len() as int
        };
        let rest = visits(states.drop_first(), ids, next);
        lemma_skipped(states[0], left);
        lemma_visits(states.drop_first(), ids, next);
        if n < left.len() {
            assert(left[n] == ids[start + n]);
            assert(visited =~= seq![Some(start + n)] + rest);
        } else {
            assert(visited =~= seq![None::<int>] + rest);
        }
        assert forall|i: int| 0 <= i < visited.len() && (#[trigger] visited[i]) is Some implies {
            &&& start + i <= visited[i]->0 < ids.len()
            &&& states[i].hands_out(ids[visited[i]->0])
        } by {
            if i > 0 {
                assert(visited[i] == rest[i - 1]);
                assert(states.drop_first()[i - 1] == states[i]);
            }
        }
        assert forall|i: int, j: int| 0 <= i < j < visited.len() && (#[trigger] visited[j]) is Some implies (
        #[trigger] visited[i]) is Some && visited[i]->0 < visited[j]->0 by {
            assert(visited[j] == rest[j - 1]);
            if i > 0 {
                assert(visited[i] == rest[i - 1]);
            }
        }
    }
}

/// However the storage changes between the calls, a walk hands out ids in their order, each position
/// at most once, and at most as often as there are ids: only the first as many calls can give an item,
/// and once a call gives none, no later one does.
pub proof fn law_walk_is_bounded(states: Seq<StorageState>, ids: Seq<TaskId>)
    ensures
        ({
            let visited = visits(states, ids, 0);
            &&& visited.len() == states.len()
            &&& forall|i: int|
                0 <= i < visited.len() && (#[trigger] visited[i]) is Some ==> {
                    &&& i < ids.len()
                    &&& 0 <= visited[i]->0 < ids.len()
                    &&& states[i].hands_out(ids[visited[i]->0])
                }
            &&& forall|i: int, j: int|
                0 <= i < j < visited.len() && (#[trigger] visited[j]) is Some ==> (#[trigger] visited[i]) is Some
                    && visited[i]->0 < visited[j]->0
        }),
{
    lemma_visits(states, ids, 0);
}

/// A walk through tasks that a snapshot has taken hands out each of them once, in order, whatever
/// comes between the calls: each call gives the next id, as long as the task of that id is still taken
/// when the call comes to it. After the last one the calls give nothing.
pub proof fn law_interrupted_walk_hands_out_every_taken_task(progress: Seq<Progress>, ids: Seq<TaskId>)
    requires
        forall|i: int|
            0 <= i < progress.len() && i < ids.len() ==> {
                &&& (#[trigger] progress[i]).consistent()
                &&& progress[i].taken is Some
                &&& progress[i].taken->0.contains(ids[i])
            },
    ensures
        ({
            let visited = visits(progress.map_values(|now: Progress| now.state), ids, 0);
            &&& visited.len() == progress.len()
            &&& forall|i: int|
                0 <= i < visited.len() ==> #[trigger] visited[i] == (if i < ids.len() {
                    Some(i)
                } else {
                    None
                })
        }),
{
    lemma_interrupted_walk(progress, ids, 0);
}

proof fn lemma_interrupted_walk(progress: Seq<Progress>, ids: Seq<TaskId>, start: int)
    requires
        0 <= start <= ids.len(),
        forall|i: int|
            0 <= i < progress.len() && start + i < ids.len() ==> {
                &&& (#[trigger] progress[i]).consistent()
                &&& progress[i].taken is Some
                &&& progress[i].taken->0.contains(ids[start + i])
            },
    ensures
        ({
            let visited = visits(progress.map_values(|now: Progress| now.state), ids, start);
            &&& visited.len() == progress.len()
            &&& forall|i: int|
                0 <= i < visited.len() ==> #[trigger] visited[i] == (if start + i < ids.len() {
                    Some(start + i)
                } else {
                    None
                })
        }),
    decreases progress.len(),
{
    let states = progress.map_values(|now: Progress| now.state);
    let visited = visits(states, ids, start);
    if progress.len() > 0 {
        let left = ids.skip(start);
        let next = if start < ids.len() {
            start + 1
        } else {
            start
        };
        let rest_progress = progress.drop_first();
        let rest = visits(states.drop_first(), ids, next);
        assert(states.drop_first() =~= rest_progress.map_values(|now: Progress| now.state));
        if start < ids.len() {
            assert(progress[0].taken->0.contains(ids[start + 0]));
            law_taken_tasks_are_handed_out(progress[0], ids[start]);
            assert(left[0] == ids[start]);
            assert(visited =~= seq![Some(start)] + rest);
        } else {
            assert(visited =~= seq![None::<int>] + rest);
        }
        assert forall|i: int| 0 <= i < rest_progress.len() && next + i < ids.len() implies {
            &&& (#[trigger] rest_progress[i]).consistent()
            &&& rest_progress[i].taken is Some
            &&& rest_progress[i].taken->0.contains(ids[next + i])
        } by {
            assert(rest_progress[i] == progress[i + 1]);
        }
        lemma_interrupted_walk(rest_progress, ids, next);
        assert forall|i: int| 0 <= i < visited.len() implies #[trigger] visited[i] == (if start + i < ids.len() {
            Some(start + i)
        } else {
            None
        }) by {
            if i > 0 {
                assert(visited[i] == rest[i - 1]);
            }
        }
    }
}

/// A task that a snapshot has taken stays taken, whatever steps follow, until its modifications are
/// cleared at the end of the snapshot or all tasks are removed.
pub proof fn law_taken_task_stays_taken(before: Progress, steps: Seq<Step>, key: TaskId)
    requires
        before.taken is Some,
        before.taken->0.contains(key),
        before.allows_all(steps),
        forall|i: int| 0 <= i < steps.len() ==> #[trigger] steps[i] != Step::Clear(key) && !(steps[i] is Drop),
    ensures
        before.run(steps).taken is Some,
        before.run(steps).taken->0.contains(key),
    decreases steps.len(),
{
    if steps.len() > 0 {
        let earlier = steps.drop_last();
        assert forall|i: int| 0 <= i < earlier.len() implies #[trigger] earlier[i] != Step::Clear(key) && !(earlier[i] is Drop) by {
            assert(earlier[i] == steps[i]);
        }
        law_taken_task_stays_taken(before, earlier, key);
        assert(steps[steps.len() - 1] == steps.last());
    }
}

/// Of something that is switched on and off: it is on if and only if it was switched on after the
/// last time that it was switched off, or was on at first and was never switched off.
proof fn lemma_last_switch(modes: Seq<bool>, on: Seq<bool>, off: Seq<bool>, n: int)
    requires
        0 <= n <= on.len(),
        on.len() == off.len(),
        modes.len() == on.len() + 1,
        forall|k: int|
            #![trigger on[k]]
            0 <= k < on.len() ==> modes[k + 1] == (on[k] || (!off[k] && modes[k])),
    ensures
        modes[n] <==> {
            ||| modes[0] && (forall|j: int| 0 <= j < n ==> !#[trigger] off[j])
            ||| exists|i: int| 0 <= i < n && #[trigger] on[i] && (forall|j: int| i < j < n ==> !#[trigger] off[j])
        },
    decreases n,
{
    if n > 0 {
        let k = n - 1;
        lemma_last_switch(modes, on, off, k);
        assert(modes[n] == (on[k] || (!off[k] && modes[k])));
        if !on[k] && !off[k] && modes[k] {
            if exists|i: int| 0 <= i < k && #[trigger] on[i] && (forall|j: int| i < j < k ==> !#[trigger] off[j]) {
                let i = choose|i: int| 0 <= i < k && #[trigger] on[i] && (forall|j: int| i < j < k ==> !#[trigger] off[j]);
                assert(on[i]);
            }
        }
    }
}

/// Over every sequence of steps: snapshot mode is on if and only if a start came after the last time
/// that it was left, or it was on at first and was never left.
pub proof fn law_snapshot_mode_over_steps(before: Progress, steps: Seq<Step>)
    ensures
        before.run(steps).state.snapshot_mode <==> {
            ||| before.state.snapshot_mode && (forall|j: int|
                0 <= j < steps.len() ==> !((#[trigger] steps[j]) is Leave))
            ||| exists|i: int|
                0 <= i < steps.len() && (#[trigger] steps[i]) is Start && (forall|j: int|
                    i < j < steps.len() ==> !((#[trigger] steps[j]) is Leave))
        },
{
    let n = steps.len();
    let modes = Seq::new(n + 1, |k: int| before.run(steps.take(k)).state.snapshot_mode);
    let on = Seq::new(n, |k: int| steps[k] is Start);
    let off = Seq::new(n, |k: int| steps[k] is Leave);
    assert forall|k: int| #![trigger on[k]] 0 <= k < n implies modes[k + 1] == (on[k] || (!off[k] && modes[k])) by {
        assert(steps.take(k + 1).drop_last() =~= steps.take(k));
        assert(steps.take(k + 1).last() == steps[k]);
    }
    lemma_last_switch(modes, on, off, n as int);
    assert(steps.take(n as int) =~= steps);
    assert(steps.take(0) =~= Seq::<Step>::empty());
    assert forall|k: int| 0 <= k < n implies (#[trigger] steps[k] is Start) == on[k] && (steps[k] is Leave) == off[k] by {}
}

/// A call of an operation that may change the storage.
pub enum Call {
    AccessMut(TaskId),
    AccessPairMut(TaskId, TaskId),
    TrackModification(TaskId, SpecificTaskDataCategory),
    /// The fields of a task are changed through write access.
    WithMut(TaskId, TaskState),
    StartSnapshot,
    TakeSnapshot,
    /// A shard of a snapshot that has these ids left is asked for the next item.
    Next(Seq<TaskId>),
    /// A snapshot that took these lists is ended, and requeues tasks in this order.
    EndSnapshot(Seq<Seq<TaskId>>, Seq<TaskId>),
    ClearModified(Seq<Seq<TaskId>>),
    LeaveSnapshotMode,
    RequeueModified(Seq<TaskId>),
    ForgetSnapshots,
    DropContents,
}

impl Call {
    pub open spec fn starts_snapshot(self) -> bool {
        self is StartSnapshot || self is TakeSnapshot
    }

    pub open spec fn ends_snapshot(self) -> bool {
        self is EndSnapshot || self is LeaveSnapshotMode
    }

    /// The storage after the call, as the contract of the operation states it.
    pub open spec fn result(self, state: StorageState) -> StorageState {
        match self {
            Call::AccessMut(key) => state.access(key),
            Call::AccessPairMut(key1, key2) => state.access(key1).access(key2),
            Call::TrackModification(key, category) => state.track(key, category),
            Call::WithMut(key, task) => state.with_task(key, task),
            Call::StartSnapshot => state.start(),
            Call::TakeSnapshot => state.start().take_modified(),
            Call::Next(ids) => if state.skipped(ids) < ids.len() {
                state.take_copy(ids[state.skipped(ids) as int])
            } else {
                state
            },
            Call::EndSnapshot(lists, order) => state.end(lists, order),
            Call::ClearModified(lists) => state.clear_all(crate::sharded::listed_keys(lists)),
            Call::LeaveSnapshotMode => state.leave(),
            Call::RequeueModified(order) => state.requeue_all(order),
            Call::ForgetSnapshots => state.without_snapshots(),
            Call::DropContents => state.dropped(),
        }
    }
}

/// The storage after a sequence of calls.
pub open spec fn run_calls(before: StorageState, calls: Seq<Call>) -> StorageState
    decreases calls.len(),
{
    if calls.len() == 0 {
        before
    } else {
        calls.last().result(run_calls(before, calls.drop_last()))
    }
}

/// Over every sequence of calls on a new storage: snapshot mode is on if and only if a snapshot was
/// started or taken after the last one was ended. No other operation changes it.
pub proof fn law_snapshot_mode_over_calls(shard_amount: nat, calls: Seq<Call>)
    ensures
        run_calls(StorageState::fresh(shard_amount), calls).snapshot_mode <==> exists|i: int|
            0 <= i < calls.len() && (#[trigger] calls[i]).starts_snapshot() && (forall|j: int|
                i < j < calls.len() ==> !(#[trigger] calls[j]).ends_snapshot()),
{
    let before = StorageState::fresh(shard_amount);
    let n = calls.len();
    let modes = Seq::new(n + 1, |k: int| run_calls(before, calls.take(k)).snapshot_mode);
    let on = Seq::new(n, |k: int| calls[k].starts_snapshot());
    let off = Seq::new(n, |k: int| calls[k].ends_snapshot());
    assert forall|k: int| #![trigger on[k]] 0 <= k < n implies modes[k + 1] == (on[k] || (!off[k] && modes[k])) by {
        assert(calls.take(k + 1).drop_last() =~= calls.take(k));
        assert(calls.take(k + 1).last() == calls[k]);
    }
    lemma_last_switch(modes, on, off, n as int);
    assert(calls.take(n as int) =~= calls);
    assert(calls.take(0) =~= Seq::<Call>::empty());
    assert forall|k: int| 0 <= k < n implies (#[trigger] calls[k]).starts_snapshot() == on[k] && calls[k].ends_snapshot() == off[k] by {}
}

} // verus!
