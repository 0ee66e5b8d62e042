//! The scheduler: the single writer that selects a batch of tasks, has it
//! executed and commits what came of it, as a state machine that is driven
//! by events.
//!
//! The work on the indexes is not done here. A step that selects a batch
//! hands it out with `Action::Execute`; whoever runs the loop performs the
//! work and hands back `Event::Executed` with the outcome of each task.
//! Cancellations and deletions of tasks touch the store alone and are
//! executed by the scheduler itself.

use crate::autobatcher::{
    create_next_batch, enqueued, enqueued_cancelations, is_next_batch, lemma_next_batch_exists,
    lemma_next_batch_members, lemma_whole_queue_is_one_batch, mergeable, record_uids,
};
use crate::bitmap::{
    ascending_seq, bitmap_set, is_ascending, lemma_ascending_exists, lemma_ascending_len,
};
use crate::file_store::{uuids_ascending, FileStore};
use crate::index_mapper::{IndexMapper, IndexMapperView};
use crate::processing::ProcessingTasks;
use crate::query::Query;
use crate::store::{bitmap_of, Error, TaskStore};
use crate::table::bucket_of;
use crate::task::{Details, Kind, KindWithContent, ResponseError, Status, Task};
use crate::view::{by_kind, canceled, details_fit, refined, transitioned, StoreView};
use vstd::prelude::*;

verus! {

/// A point of a scheduler step at which a test can plan a failure.
#[derive(Clone, Copy, Debug, PartialEq, Eq, Structural)]
pub enum FailureLocation {
    /// Before the batch is selected.
    CreatingBatch,
    /// While the members of the batch are marked as processing, after
    /// `marked` of them have been marked.
    MarkingProcessing { marked: usize },
    /// Before the outcomes are committed.
    Committing,
}

/// A failure planned for one iteration of the scheduler.
#[derive(Clone, Copy, Debug, PartialEq, Eq, Structural)]
pub struct PlannedFailure {
    pub iteration: u64,
    pub location: FailureLocation,
}

/// What came of the execution of one task of a batch.
#[derive(Debug)]
pub struct TaskOutcome {
    pub uid: u32,
    pub succeeded: bool,
    /// The count of what the task did, for its details.
    pub count: Option<u64>,
    /// The error of a task that failed.
    pub error: Option<ResponseError>,
}

/// The state of the scheduler between two steps.
#[derive(Clone, Copy, Debug, PartialEq, Eq, Structural)]
pub enum Phase {
    /// Nothing to do until a wake signal comes.
    Idle,
    /// About to select the next batch.
    Selecting,
    /// A batch has been handed out and is being executed.
    Executing,
    /// The outcomes of the batch are known and wait to be committed.
    Committing,
    /// The scheduler has been asked to stop and picks no more work.
    Stopped,
}

/// A message to the scheduler.
#[derive(Debug)]
pub enum Event {
    /// There may be work: a task was enqueued, or someone asks to look.
    Wake,
    /// Stop after the work in flight.
    Stop,
    /// The batch that was handed out has been executed.
    Executed(Vec<TaskOutcome>),
}

/// What the scheduler asks of whoever runs its loop.
#[derive(Debug)]
pub enum Action {
    /// Block until the next event.
    Wait,
    /// Step again at once.
    Continue,
    /// A failure occurred and nothing was changed; step again after a pause.
    Retry,
    /// Execute these tasks, then hand back `Event::Executed`.
    Execute(Vec<u32>),
    /// Leave the loop.
    Exit,
}

/// An action as a mathematical value.
pub ghost enum ActionView {
    Wait,
    Continue,
    Retry,
    Execute(Seq<u32>),
    Exit,
}

impl View for Action {
    type V = ActionView;

    open spec fn view(&self) -> ActionView {
        match self {
            Action::Wait => ActionView::Wait,
            Action::Continue => ActionView::Continue,
            Action::Retry => ActionView::Retry,
            Action::Execute(batch) => ActionView::Execute(batch@),
            Action::Exit => ActionView::Exit,
        }
    }
}

/// Whether a failure is planned for this iteration at this point.
pub open spec fn planned(
    plans: Seq<PlannedFailure>,
    iteration: u64,
    location: FailureLocation,
) -> bool {
    exists|i: int|
        0 <= i < plans.len() && #[trigger] plans[i] == (PlannedFailure { iteration, location })
}

/// Whether a failure is planned for this iteration while a batch of
/// `members` tasks is marked as processing.
pub open spec fn marking_fails(plans: Seq<PlannedFailure>, iteration: u64, members: nat) -> bool {
    exists|k: usize|
        k < members && #[trigger] planned(
            plans,
            iteration,
            FailureLocation::MarkingProcessing { marked: k },
        )
}

/// The iteration counter after one more iteration. It never decreases.
pub open spec fn next_iteration(iteration: u64) -> u64 {
    if iteration < u64::MAX {
        (iteration + 1) as u64
    } else {
        iteration
    }
}

/// The batch that the policy selects.
pub open spec fn next_batch(v: StoreView, autobatching: bool) -> Seq<u32> {
    choose|batch: Seq<u32>| is_next_batch(v, autobatching, batch)
}

/// The policy selects one batch and no other.
pub proof fn lemma_next_batch_unique(v: StoreView, autobatching: bool, a: Seq<u32>, b: Seq<u32>)
    requires
        is_next_batch(v, autobatching, a),
        is_next_batch(v, autobatching, b),
    ensures
        a == b,
        a == next_batch(v, autobatching),
{
    if a.len() < b.len() {
        assert(a =~= b);
    } else if b.len() < a.len() {
        assert(a =~= b);
    } else {
        assert(a =~= b);
    }
    let c = next_batch(v, autobatching);
    if a.len() < c.len() {
        assert(a =~= c);
    } else if c.len() < a.len() {
        assert(a =~= c);
    } else {
        assert(a =~= c);
    }
}

/// The store after each task of a batch has started processing.
pub open spec fn after_mark(v: StoreView, batch: Seq<u32>, now: i128) -> StoreView
    decreases batch.len(),
{
    if batch.len() == 0 {
        v
    } else {
        after_mark(v, batch.drop_last(), now).after_transition(
            batch.last(),
            Status::Processing,
            now,
            None,
            None,
        )
    }
}

/// The first outcome that is given for a task.
pub open spec fn find_outcome(outcomes: Seq<TaskOutcome>, uid: u32) -> Option<TaskOutcome>
    decreases outcomes.len(),
{
    if outcomes.len() == 0 {
        None
    } else if outcomes[0].uid == uid {
        Some(outcomes[0])
    } else {
        find_outcome(outcomes.drop_first(), uid)
    }
}

/// Whether the outcomes report that a task succeeded.
pub open spec fn reported_success(outcomes: Seq<TaskOutcome>, uid: u32) -> bool {
    match find_outcome(outcomes, uid) {
        Some(o) => o.succeeded,
        None => false,
    }
}

/// The record of a member of a batch once the outcomes have been
/// committed at the date `now`. The member is settled by the first outcome
/// that is given for it, and by no other: it has succeeded or failed as
/// that outcome says, its details carry the count of that outcome and its
/// record the error of that outcome. A member without an outcome has
/// failed, and its details are as they were.
pub open spec fn settled(before: Task, outcomes: Seq<TaskOutcome>, now: i128) -> Task {
    match find_outcome(outcomes, before.uid) {
        Some(o) => transitioned(
            before,
            if o.succeeded {
                Status::Succeeded
            } else {
                Status::Failed
            },
            now,
            o.count,
            o.error,
        ),
        None => transitioned(before, Status::Failed, now, None, None),
    }
}

/// The store after the outcome of one task of a batch has been committed.
/// A task that is still processing becomes `Succeeded` or `Failed` as its
/// outcome says, and `Failed` where no outcome is given for it. A task that
/// is no longer processing is left as it is.
pub open spec fn after_commit_one(
    v: StoreView,
    uid: u32,
    outcomes: Seq<TaskOutcome>,
    now: i128,
) -> StoreView {
    if v.contains(uid) && v.task(uid).status == Status::Processing {
        match find_outcome(outcomes, uid) {
            Some(o) => v.after_transition(
                uid,
                if o.succeeded {
                    Status::Succeeded
                } else {
                    Status::Failed
                },
                now,
                o.count,
                o.error,
            ),
            None => v.after_transition(uid, Status::Failed, now, None, None),
        }
    } else {
        v
    }
}

/// The store after the outcomes of a batch have been committed.
pub open spec fn after_commit(
    v: StoreView,
    batch: Seq<u32>,
    outcomes: Seq<TaskOutcome>,
    now: i128,
) -> StoreView
    decreases batch.len(),
{
    if batch.len() == 0 {
        v
    } else {
        after_commit_one(
            after_commit(v, batch.drop_last(), outcomes, now),
            batch.last(),
            outcomes,
            now,
        )
    }
}

/// Whether the scheduler executes an operation itself: it does so for the
/// cancellation and the deletion of tasks, which touch the store alone.
pub open spec fn is_internal(kind: KindWithContent) -> bool {
    kind is TaskCancelation || kind is TaskDeletion
}

/// The store after the scheduler has executed the task `uid` itself. A
/// cancellation cancels the tasks that it names, but for itself; a deletion
/// deletes the tasks that it names.
pub open spec fn after_internal(v: StoreView, uid: u32, kind: KindWithContent, now: i128) -> StoreView {
    match kind {
        KindWithContent::TaskCancelation { tasks, .. } => v.after_cancel_all(
            ascending_seq(bitmap_set(tasks).remove(uid)),
            uid,
            now,
        ),
        KindWithContent::TaskDeletion { tasks, .. } => v.after_delete_all(
            ascending_seq(bitmap_set(tasks)),
        ),
        _ => v,
    }
}

/// How many tasks the scheduler cancels or deletes when it executes the
/// task `uid` itself.
pub open spec fn internal_count(v: StoreView, uid: u32, kind: KindWithContent, now: i128) -> nat {
    match kind {
        KindWithContent::TaskCancelation { tasks, .. } => v.canceled_count(
            ascending_seq(bitmap_set(tasks).remove(uid)),
            uid,
            now,
        ),
        KindWithContent::TaskDeletion { tasks, .. } => v.deleted_count(
            ascending_seq(bitmap_set(tasks)),
        ),
        _ => 0,
    }
}

/// The tasks that a cancellation or a deletion of tasks names.
pub open spec fn named_tasks(kind: KindWithContent) -> Set<u32> {
    match kind {
        KindWithContent::TaskCancelation { tasks, .. } => bitmap_set(tasks),
        KindWithContent::TaskDeletion { tasks, .. } => bitmap_set(tasks),
        _ => Set::empty(),
    }
}

/// The tasks that the cancellation task `canceling` cancels when it names
/// the tasks `named`: those of them that are in the store and have not
/// reached a terminal status, but for the cancellation itself.
pub open spec fn canceled_by(v: StoreView, canceling: u32, named: Set<u32>) -> Set<u32> {
    Set::new(|uid: u32| named.contains(uid) && uid != canceling && v.cancelable(uid))
}

/// What becomes of a record when the cancellation task `canceling`, which
/// names the tasks `named`, is executed at the date `now` and committed at
/// the date `later` with the count `count`. The cancellation itself
/// succeeds and has the count in its details; a task that it names and
/// that has not reached a terminal status is canceled by it; any other
/// record stays as it is.
pub open spec fn after_cancelation(
    t: Task,
    canceling: u32,
    named: Set<u32>,
    count: u64,
    now: i128,
    later: i128,
) -> Task {
    if t.uid == canceling {
        transitioned(
            transitioned(t, Status::Processing, now, None, None),
            Status::Succeeded,
            later,
            Some(count),
            None,
        )
    } else if named.contains(t.uid) && !t.status.terminal() {
        canceled(t, canceling, now)
    } else {
        t
    }
}

/// What a scheduler holds.
pub struct SchedulerView {
    pub store: StoreView,
    pub processing: Set<u32>,
    pub autobatching_enabled: bool,
    pub must_stop_processing: bool,
    pub run_loop_iteration: u64,
    pub planned_failures: Seq<PlannedFailure>,
    pub phase: Phase,
    pub batch: Seq<u32>,
    pub outcomes: Seq<TaskOutcome>,
    pub index_mapper: IndexMapperView,
    pub file_store: Seq<u128>,
}

impl SchedulerView {
    /// Whether a batch is in flight.
    pub open spec fn in_flight(self) -> bool {
        self.phase == Phase::Executing || self.phase == Phase::Committing
    }

    /// What holds of a scheduler between any two steps: the store is
    /// consistent; the processing set holds exactly the tasks whose status
    /// is `Processing`; these are the members of the batch in flight, and
    /// there are none while no batch is in flight.
    pub open spec fn inv(self) -> bool {
        &&& self.store.consistent()
        &&& self.processing == bucket_of(self.store.status, Status::Processing)
        &&& self.processing == self.batch.to_set()
        &&& is_ascending(self.batch)
        &&& self.in_flight() ==> self.batch.len() > 0
        &&& !self.in_flight() ==> self.batch.len() == 0 && self.outcomes.len() == 0
        &&& self.phase == Phase::Executing ==> self.outcomes.len() == 0
        &&& self.index_mapper.inv()
        &&& uuids_ascending(self.file_store)
    }

    /// The scheduler after a step in which a planned failure occurred:
    /// nothing has changed but the iteration counter.
    pub open spec fn failed(self) -> SchedulerView {
        SchedulerView { run_loop_iteration: next_iteration(self.run_loop_iteration), ..self }
    }

    /// Whether the selection of the next batch fails as planned.
    pub open spec fn select_fails(self) -> bool {
        ||| planned(
            self.planned_failures,
            self.run_loop_iteration,
            FailureLocation::CreatingBatch,
        )
        ||| marking_fails(
            self.planned_failures,
            self.run_loop_iteration,
            next_batch(self.store, self.autobatching_enabled).len(),
        )
    }

    /// The scheduler after it has selected the next batch.
    ///
    /// Where a failure is planned nothing changes: members that were marked
    /// before the failure are enqueued again. Where nothing is enqueued the
    /// scheduler falls idle. Otherwise every member of the batch starts
    /// processing at the date `now` and the processing set holds the batch.
    /// A batch that the scheduler executes itself is executed at once and
    /// waits to be committed; any other batch is handed out.
    pub open spec fn selected(self, now: i128) -> SchedulerView {
        let batch = next_batch(self.store, self.autobatching_enabled);
        if self.select_fails() {
            self.failed()
        } else if batch.len() == 0 {
            SchedulerView { phase: Phase::Idle, ..self }
        } else {
            let marked = after_mark(self.store, batch, now);
            let first = batch[0];
            let kind = self.store.task(first).kind;
            if is_internal(kind) {
                SchedulerView {
                    store: after_internal(marked, first, kind, now),
                    processing: batch.to_set(),
                    phase: Phase::Committing,
                    batch,
                    outcomes: seq![
                        TaskOutcome {
                            uid: first,
                            succeeded: true,
                            count: Some(internal_count(marked, first, kind, now) as u64),
                            error: None,
                        },
                    ],
                    ..self
                }
            } else {
                SchedulerView {
                    store: marked,
                    processing: batch.to_set(),
                    phase: Phase::Executing,
                    batch,
                    ..self
                }
            }
        }
    }

    /// Whether the commit fails as planned.
    pub open spec fn commit_fails(self) -> bool {
        planned(self.planned_failures, self.run_loop_iteration, FailureLocation::Committing)
    }

    /// The scheduler after it has committed the outcomes of the batch in
    /// flight: every member has its terminal status, the processing set is
    /// empty, and one more iteration is counted. The scheduler goes on to
    /// select the next batch, unless it has been asked to stop.
    pub open spec fn committed(self, now: i128) -> SchedulerView {
        if self.commit_fails() {
            self.failed()
        } else {
            SchedulerView {
                store: after_commit(self.store, self.batch, self.outcomes, now),
                processing: Set::empty(),
                batch: Seq::empty(),
                outcomes: Seq::empty(),
                run_loop_iteration: next_iteration(self.run_loop_iteration),
                phase: if self.must_stop_processing {
                    Phase::Stopped
                } else {
                    Phase::Selecting
                },
                ..self
            }
        }
    }

    /// The scheduler after it has received a wake signal.
    pub open spec fn woken(self) -> SchedulerView {
        if self.phase == Phase::Idle {
            SchedulerView { phase: Phase::Selecting, ..self }
        } else {
            self
        }
    }

    /// The scheduler after it has been asked to stop: it picks no further
    /// work, and the batch in flight, if there is one, is not rolled back.
    pub open spec fn stopping(self) -> SchedulerView {
        SchedulerView {
            must_stop_processing: true,
            phase: if self.in_flight() {
                self.phase
            } else {
                Phase::Stopped
            },
            ..self
        }
    }

    /// The scheduler after the outcomes of the batch in flight have been
    /// handed back. Outcomes that come while no batch is being executed are
    /// dropped.
    pub open spec fn executed(self, outcomes: Seq<TaskOutcome>) -> SchedulerView {
        if self.phase == Phase::Executing {
            SchedulerView { outcomes, phase: Phase::Committing, ..self }
        } else {
            self
        }
    }

    /// The scheduler after it has received an event.
    pub open spec fn received(self, event: Option<Event>) -> SchedulerView {
        match event {
            None => self,
            Some(Event::Wake) => self.woken(),
            Some(Event::Stop) => self.stopping(),
            Some(Event::Executed(outcomes)) => self.executed(outcomes@),
        }
    }

    /// The scheduler after it has done the work of its phase.
    pub open spec fn advanced(self, now: i128) -> SchedulerView {
        match self.phase {
            Phase::Selecting => self.selected(now),
            Phase::Committing => self.committed(now),
            _ => self,
        }
    }

    /// What the scheduler asks for after it has done the work of its phase.
    pub open spec fn action(self, now: i128) -> ActionView {
        match self.phase {
            Phase::Idle => ActionView::Wait,
            Phase::Executing => ActionView::Wait,
            Phase::Stopped => ActionView::Exit,
            Phase::Selecting => if self.select_fails() {
                ActionView::Retry
            } else {
                match self.selected(now).phase {
                    Phase::Executing => ActionView::Execute(self.selected(now).batch),
                    Phase::Committing => ActionView::Continue,
                    _ => ActionView::Wait,
                }
            },
            Phase::Committing => if self.commit_fails() {
                ActionView::Retry
            } else if self.must_stop_processing {
                ActionView::Exit
            } else {
                ActionView::Continue
            },
        }
    }
}

/// Marking a batch of enqueued tasks keeps the store consistent, moves the
/// members from the enqueued tasks to the processing ones, and touches no
/// other status.
pub proof fn lemma_after_mark(v: StoreView, batch: Seq<u32>, now: i128)
    requires
        v.consistent(),
        is_ascending(batch),
        forall|i: int| 0 <= i < batch.len() ==> enqueued(v).contains(#[trigger] batch[i]),
    ensures
        after_mark(v, batch, now).consistent(),
        after_mark(v, batch, now).next_uid == v.next_uid,
        bucket_of(after_mark(v, batch, now).status, Status::Processing) == bucket_of(
            v.status,
            Status::Processing,
        ) + batch.to_set(),
        bucket_of(after_mark(v, batch, now).status, Status::Enqueued) == bucket_of(
            v.status,
            Status::Enqueued,
        ).difference(batch.to_set()),
    decreases batch.len(),
{
    let p = bucket_of(v.status, Status::Processing);
    let e = bucket_of(v.status, Status::Enqueued);
    if batch.len() == 0 {
        assert(p + batch.to_set() =~= p);
        assert(e.difference(batch.to_set()) =~= e);
    } else {
        let rest = batch.drop_last();
        let last = batch.last();
        let g = after_mark(v, rest, now);
        lemma_after_mark(v, rest, now);
        assert(batch[batch.len() - 1] == last);
        assert(!rest.contains(last)) by {
            if rest.contains(last) {
                let j = choose|j: int| 0 <= j < rest.len() && rest[j] == last;
                assert(batch[j] < batch[batch.len() - 1]);
            }
        }
        assert(bucket_of(g.status, Status::Enqueued).contains(last));
        g.lemma_status_bucket(Status::Enqueued);
        g.lemma_after_transition_consistent(last, Status::Processing, now, None, None);
        g.lemma_after_transition_status(last, Status::Processing, now, None, None);
        let f = g.after_transition(last, Status::Processing, now, None, None);
        assert forall|x: u32| batch.to_set().contains(x) == (rest.to_set().contains(x) || x
            == last) by {
            if rest.contains(x) {
                let j = choose|j: int| 0 <= j < rest.len() && rest[j] == x;
                assert(batch[j] == x);
            }
            if batch.contains(x) && x != last {
                let j = choose|j: int| 0 <= j < batch.len() && batch[j] == x;
                assert(rest[j] == x);
            }
        }
        assert(bucket_of(f.status, Status::Processing) =~= p + batch.to_set());
        assert(bucket_of(f.status, Status::Enqueued) =~= e.difference(batch.to_set()));
    }
}

/// Committing one outcome keeps the store consistent and takes the task out
/// of the processing ones.
pub proof fn lemma_after_commit_one(v: StoreView, uid: u32, outcomes: Seq<TaskOutcome>, now: i128)
    requires
        v.consistent(),
    ensures
        after_commit_one(v, uid, outcomes, now).consistent(),
        after_commit_one(v, uid, outcomes, now).next_uid == v.next_uid,
        bucket_of(after_commit_one(v, uid, outcomes, now).status, Status::Processing) == bucket_of(
            v.status,
            Status::Processing,
        ).remove(uid),
{
    let p = bucket_of(v.status, Status::Processing);
    v.lemma_status_bucket(Status::Processing);
    if v.contains(uid) && v.task(uid).status == Status::Processing {
        match find_outcome(outcomes, uid) {
            Some(o) => {
                let to = if o.succeeded {
                    Status::Succeeded
                } else {
                    Status::Failed
                };
                v.lemma_after_transition_consistent(uid, to, now, o.count, o.error);
                v.lemma_after_transition_status(uid, to, now, o.count, o.error);
            },
            None => {
                v.lemma_after_transition_consistent(uid, Status::Failed, now, None, None);
                v.lemma_after_transition_status(uid, Status::Failed, now, None, None);
            },
        }
    } else {
        assert(p.remove(uid) =~= p);
    }
}

/// Committing a batch keeps the store consistent and takes its members out
/// of the processing tasks.
pub proof fn lemma_after_commit(v: StoreView, batch: Seq<u32>, outcomes: Seq<TaskOutcome>, now: i128)
    requires
        v.consistent(),
    ensures
        after_commit(v, batch, outcomes, now).consistent(),
        after_commit(v, batch, outcomes, now).next_uid == v.next_uid,
        bucket_of(after_commit(v, batch, outcomes, now).status, Status::Processing) == bucket_of(
            v.status,
            Status::Processing,
        ).difference(batch.to_set()),
    decreases batch.len(),
{
    let p = bucket_of(v.status, Status::Processing);
    if batch.len() == 0 {
        assert(p.difference(batch.to_set()) =~= p);
    } else {
        let rest = batch.drop_last();
        let last = batch.last();
        let g = after_commit(v, rest, outcomes, now);
        lemma_after_commit(v, rest, outcomes, now);
        lemma_after_commit_one(g, last, outcomes, now);
        let f = after_commit_one(g, last, outcomes, now);
        assert(batch[batch.len() - 1] == last);
        assert forall|x: u32| batch.to_set().contains(x) == (rest.to_set().contains(x) || x
            == last) by {
            if rest.contains(x) {
                let j = choose|j: int| 0 <= j < rest.len() && rest[j] == x;
                assert(batch[j] == x);
            }
            if batch.contains(x) && x != last {
                let j = choose|j: int| 0 <= j < batch.len() && batch[j] == x;
                assert(rest[j] == x);
            }
        }
        assert(bucket_of(f.status, Status::Processing) =~= p.difference(batch.to_set()));
    }
}

/// What marking a batch does to each record: every member passes from
/// `Enqueued` to `Processing` with the same date of start, and every other
/// record stays as it is.
pub proof fn lemma_after_mark_records(v: StoreView, batch: Seq<u32>, now: i128)
    requires
        v.consistent(),
        is_ascending(batch),
        forall|i: int| 0 <= i < batch.len() ==> enqueued(v).contains(#[trigger] batch[i]),
    ensures
        after_mark(v, batch, now).records.len() == v.records.len(),
        forall|i: int|
            0 <= i < v.records.len() ==> #[trigger] after_mark(v, batch, now).records[i] == (
            if batch.contains(v.records[i].uid) {
                transitioned(v.records[i], Status::Processing, now, None, None)
            } else {
                v.records[i]
            }),
    decreases batch.len(),
{
    if batch.len() > 0 {
        let rest = batch.drop_last();
        let last = batch.last();
        let g = after_mark(v, rest, now);
        let f = after_mark(v, batch, now);
        lemma_after_mark_records(v, rest, now);
        lemma_after_mark(v, rest, now);
        assert(batch[batch.len() - 1] == last);
        assert(!rest.contains(last)) by {
            if rest.contains(last) {
                let j = choose|j: int| 0 <= j < rest.len() && rest[j] == last;
                assert(batch[j] < batch[batch.len() - 1]);
            }
        }
        assert(bucket_of(g.status, Status::Enqueued).contains(last));
        g.lemma_status_bucket(Status::Enqueued);
        g.lemma_after_transition_records(last, Status::Processing, now, None, None);
        assert forall|i: int| 0 <= i < v.records.len() implies #[trigger] f.records[i] == (
        if batch.contains(v.records[i].uid) {
            transitioned(v.records[i], Status::Processing, now, None, None)
        } else {
            v.records[i]
        }) by {
            let x = v.records[i].uid;
            assert(g.records[i].uid == x);
            if rest.contains(x) {
                let j = choose|j: int| 0 <= j < rest.len() && rest[j] == x;
                assert(batch[j] == x);
            }
            if batch.contains(x) && x != last {
                let j = choose|j: int| 0 <= j < batch.len() && batch[j] == x;
                assert(rest[j] == x);
            }
        }
    }
}

/// What a commit does to each record: every member of the batch that is
/// processing is settled by its own outcome, so that it reaches
/// `Succeeded` or `Failed`, gets its date of end, and has in its details
/// the count that its own outcome gives; every other record stays as it
/// is.
pub proof fn lemma_after_commit_records(
    v: StoreView,
    batch: Seq<u32>,
    outcomes: Seq<TaskOutcome>,
    now: i128,
)
    requires
        v.consistent(),
    ensures
        after_commit(v, batch, outcomes, now).records.len() == v.records.len(),
        forall|i: int|
            0 <= i < v.records.len() ==> {
                let before = v.records[i];
                let after = #[trigger] after_commit(v, batch, outcomes, now).records[i];
                if batch.contains(before.uid) && before.status == Status::Processing {
                    after == settled(before, outcomes, now)
                } else {
                    after == before
                }
            },
    decreases batch.len(),
{
    if batch.len() > 0 {
        let rest = batch.drop_last();
        let last = batch.last();
        let g = after_commit(v, rest, outcomes, now);
        let f = after_commit(v, batch, outcomes, now);
        lemma_after_commit_records(v, rest, outcomes, now);
        lemma_after_commit(v, rest, outcomes, now);
        assert(batch[batch.len() - 1] == last);
        if g.contains(last) {
            g.lemma_task_at(g.index_of(last));
            if g.task(last).status == Status::Processing {
                match find_outcome(outcomes, last) {
                    Some(o) => {
                        let to = if o.succeeded {
                            Status::Succeeded
                        } else {
                            Status::Failed
                        };
                        g.lemma_after_transition_records(last, to, now, o.count, o.error);
                    },
                    None => {
                        g.lemma_after_transition_records(last, Status::Failed, now, None, None);
                    },
                }
            }
        }
        assert forall|i: int| 0 <= i < v.records.len() implies {
            let before = v.records[i];
            let after = #[trigger] f.records[i];
            if batch.contains(before.uid) && before.status == Status::Processing {
                after == settled(before, outcomes, now)
            } else {
                after == before
            }
        } by {
            let x = v.records[i].uid;
            let mid = g.records[i];
            if rest.contains(x) {
                let j = choose|j: int| 0 <= j < rest.len() && rest[j] == x;
                assert(batch[j] == x);
            }
            if batch.contains(x) && x != last {
                let j = choose|j: int| 0 <= j < batch.len() && batch[j] == x;
                assert(rest[j] == x);
            }
            assert(mid.uid == x);
            if x == last {
                g.lemma_task_at(i);
            } else if g.contains(last) {
                g.lemma_uid_unique(g.index_of(last));
            }
        }
    }
}

impl SchedulerView {
    /// No task is ever stranded: the tasks whose status is `Processing` are
    /// the members of the batch in flight, and while no batch is in flight
    /// every task is enqueued or has reached a terminal status.
    pub proof fn lemma_no_task_stranded(self, uid: u32)
        requires
            self.inv(),
            self.store.contains(uid),
        ensures
            self.store.task(uid).status == Status::Processing <==> self.batch.contains(uid),
            !self.in_flight() ==> self.store.task(uid).status == Status::Enqueued
                || self.store.task(uid).status.terminal(),
            self.processing.contains(uid) <==> self.store.task(uid).status == Status::Processing,
    {
        self.store.lemma_status_bucket(Status::Processing);
        assert(self.batch.to_set().contains(uid) == self.batch.contains(uid));
    }

    /// A selection that fails on the way, after some members of the batch
    /// have been marked and before all of them are, leaves nothing behind:
    /// the store and the processing set are as they were, and the scheduler
    /// selects again.
    pub proof fn lemma_failed_selection_is_undone(self, now: i128)
        requires
            self.inv(),
            self.phase == Phase::Selecting,
            self.select_fails(),
        ensures
            self.selected(now).store == self.store,
            self.selected(now).processing == self.processing,
            self.selected(now).phase == Phase::Selecting,
            self.selected(now).inv(),
    {
    }

    /// A selection that succeeds starts all the members of the batch
    /// together: each passes from `Enqueued` to `Processing` at the date
    /// `now`, the processing set holds exactly the members, and no record
    /// outside the batch is touched by the marking.
    pub proof fn lemma_selection_starts_batch_together(self, now: i128, batch: Seq<u32>)
        requires
            self.inv(),
            self.phase == Phase::Selecting,
            !self.select_fails(),
            is_next_batch(self.store, self.autobatching_enabled, batch),
            batch.len() > 0,
        ensures
            ({
                let marked = after_mark(self.store, batch, now);
                &&& self.selected(now).batch == batch
                &&& self.selected(now).processing == batch.to_set()
                &&& marked.records.len() == self.store.records.len()
                &&& forall|i: int|
                    0 <= i < self.store.records.len() ==> #[trigger] marked.records[i] == (
                    if batch.contains(self.store.records[i].uid) {
                        transitioned(
                            self.store.records[i],
                            Status::Processing,
                            now,
                            None,
                            None,
                        )
                    } else {
                        self.store.records[i]
                    })
            }),
    {
        lemma_next_batch_unique(
            self.store,
            self.autobatching_enabled,
            batch,
            next_batch(self.store, self.autobatching_enabled),
        );
        lemma_next_batch_members(self.store, self.autobatching_enabled, batch);
        lemma_after_mark_records(self.store, batch, now);
    }

    /// Where all that the store holds are enqueued tasks of one index that
    /// can be merged with the oldest of them, as additions of documents by
    /// one method are, a selection with autobatching starts them all
    /// together: the batch holds every task, each passes from `Enqueued`
    /// to `Processing` at the date `now`, and the batch is handed out to be
    /// executed.
    pub proof fn lemma_whole_queue_starts_together(self, now: i128, index: Seq<char>)
        requires
            self.inv(),
            self.phase == Phase::Selecting,
            !self.select_fails(),
            self.autobatching_enabled,
            self.store.records.len() > 0,
            forall|i: int|
                0 <= i < self.store.records.len() ==> {
                    let t = #[trigger] self.store.records[i];
                    &&& t.status == Status::Enqueued
                    &&& t.kind.index_uid() == Some(index)
                    &&& mergeable(self.store.records[0].kind, t.kind)
                },
        ensures
            self.selected(now).phase == Phase::Executing,
            self.selected(now).batch == record_uids(self.store.records),
            self.selected(now).processing == record_uids(self.store.records).to_set(),
            self.selected(now).store.records.len() == self.store.records.len(),
            forall|i: int|
                0 <= i < self.store.records.len() ==> #[trigger] self.selected(
                    now,
                ).store.records[i] == transitioned(
                    self.store.records[i],
                    Status::Processing,
                    now,
                    None,
                    None,
                ),
    {
        let batch = next_batch(self.store, true);
        let all = record_uids(self.store.records);
        lemma_next_batch_exists(self.store, true);
        lemma_whole_queue_is_one_batch(self.store, batch, index);
        self.lemma_selection_starts_batch_together(now, batch);
        assert(batch[0] == self.store.records[0].uid);
        self.store.lemma_task_at(0);
        assert forall|i: int| 0 <= i < self.store.records.len() implies batch.contains(
            #[trigger] self.store.records[i].uid,
        ) by {
            assert(all[i] == self.store.records[i].uid);
        }
    }

    /// A cancellation that is enqueued is carried out before anything
    /// else, and by the scheduler itself. The selection takes the oldest
    /// enqueued cancellation alone, cancels every task that it names and
    /// that has not reached a terminal status, and leaves the cancellation
    /// to be committed; the commit makes it `Succeeded`, and its details
    /// carry the number of the tasks that it canceled. Each canceled task is
    /// `Canceled` by the cancellation at the date of the selection, and no
    /// other record is touched.
    pub proof fn lemma_cancelation_is_carried_out(self, now: i128, later: i128)
        requires
            self.inv(),
            self.phase == Phase::Selecting,
            !self.select_fails(),
            enqueued_cancelations(self.store) != Set::<u32>::empty(),
            !self.selected(now).commit_fails(),
        ensures
            ({
                let canceling = ascending_seq(enqueued_cancelations(self.store))[0];
                let kind = self.store.task(canceling).kind;
                let done = self.selected(now).committed(later);
                let count = internal_count(
                    after_mark(self.store, seq![canceling], now),
                    canceling,
                    kind,
                    now,
                ) as u64;
                &&& self.store.contains(canceling)
                &&& self.store.task(canceling).status == Status::Enqueued
                &&& kind is TaskCancelation
                &&& self.selected(now).phase == Phase::Committing
                &&& self.selected(now).batch == seq![canceling]
                &&& done.store.consistent()
                &&& done.processing == Set::<u32>::empty()
                &&& count == canceled_by(self.store, canceling, named_tasks(kind)).len()
                &&& done.store.records.len() == self.store.records.len()
                &&& forall|i: int|
                    0 <= i < self.store.records.len() ==> #[trigger] done.store.records[i]
                        == after_cancelation(
                        self.store.records[i],
                        canceling,
                        named_tasks(kind),
                        count,
                        now,
                        later,
                    )
            }),
    {
        let v = self.store;
        let waiting = enqueued_cancelations(v);
        lemma_ascending_exists(waiting);
        let canceling = ascending_seq(waiting)[0];
        assert(ascending_seq(waiting).len() > 0) by {
            if ascending_seq(waiting).len() == 0 {
                assert(waiting =~= Set::<u32>::empty()) by {
                    assert forall|x: u32| !waiting.contains(x) by {
                        assert(ascending_seq(waiting).to_set().contains(x) == ascending_seq(
                            waiting,
                        ).contains(x));
                    }
                }
            }
        }
        assert(ascending_seq(waiting).contains(canceling));
        assert(ascending_seq(waiting).to_set().contains(canceling));
        assert(waiting.contains(canceling));
        v.lemma_status_bucket(Status::Enqueued);
        v.lemma_filed_iff(v.kind, by_kind(), Kind::TaskCancelation, canceling);
        let kind = v.task(canceling).kind;
        assert(kind.kind() == Kind::TaskCancelation);
        let batch = seq![canceling];
        assert(is_next_batch(v, self.autobatching_enabled, batch));
        lemma_next_batch_unique(
            v,
            self.autobatching_enabled,
            batch,
            next_batch(v, self.autobatching_enabled),
        );
        assert(batch[0] == canceling);
        assert(batch.contains(canceling));
        lemma_after_mark(v, batch, now);
        lemma_after_mark_records(v, batch, now);
        let marked = after_mark(v, batch, now);
        let named = named_tasks(kind);
        let list = ascending_seq(named.remove(canceling));
        lemma_ascending_exists(named.remove(canceling));
        marked.lemma_after_cancel_all(list, canceling, now);
        let executed = marked.after_cancel_all(list, canceling, now);
        assert(self.selected(now).store == executed);
        let outcomes = self.selected(now).outcomes;
        let count = internal_count(marked, canceling, kind, now) as u64;
        assert(count == canceled_by(v, canceling, named).len()) by {
            if list.len() > 0 {
                lemma_ascending_len(list, list.len() - 1);
            }
            marked.lemma_canceled_count(list, canceling, now);
            assert forall|x: u32|
                marked.cancelable_among(list).contains(x) == canceled_by(
                    v,
                    canceling,
                    named,
                ).contains(x) by {
                assert(list.to_set().contains(x) == list.contains(x));
                if x != canceling {
                    if v.contains(x) {
                        let i = v.index_of(x);
                        v.lemma_task_at(i);
                        assert(!batch.contains(x)) by {
                            if batch.contains(x) {
                                let j = choose|j: int| 0 <= j < batch.len() && batch[j] == x;
                            }
                        }
                        assert(marked.records[i] == v.records[i]);
                        marked.lemma_task_at(i);
                    }
                    if marked.contains(x) {
                        let i = marked.index_of(x);
                        assert(marked.records[i].uid == x);
                        assert(v.records[i].uid == x);
                    }
                }
            }
            assert(marked.cancelable_among(list) =~= canceled_by(v, canceling, named));
        }
        assert(find_outcome(outcomes, canceling) == Some(outcomes[0]));
        lemma_after_commit(executed, batch, outcomes, later);
        lemma_after_commit_records(executed, batch, outcomes, later);
        let done = self.selected(now).committed(later);
        assert forall|i: int| 0 <= i < v.records.len() implies #[trigger] done.store.records[i]
            == after_cancelation(v.records[i], canceling, named, count, now, later) by {
            let x = v.records[i].uid;
            assert(list.to_set().contains(x) == list.contains(x));
            assert(marked.records[i].uid == x);
            assert(executed.records[i].uid == x);
            if x == canceling {
                assert(!list.contains(x));
            } else {
                assert(!batch.contains(x)) by {
                    if batch.contains(x) {
                        let j = choose|j: int| 0 <= j < batch.len() && batch[j] == x;
                    }
                }
            }
        }
    }

    /// A commit settles the whole batch: afterwards no task is processing,
    /// the processing set is empty, and each member has reached
    /// `Succeeded` or `Failed`, each by its own outcome. The details of a
    /// member carry the count of its own outcome, not that of another
    /// member nor a total of the batch. No record outside the batch is
    /// touched.
    pub proof fn lemma_commit_settles_batch(self, now: i128)
        requires
            self.inv(),
            self.phase == Phase::Committing,
            !self.commit_fails(),
        ensures
            self.committed(now).inv(),
            self.committed(now).processing == Set::<u32>::empty(),
            bucket_of(self.committed(now).store.status, Status::Processing) == Set::<u32>::empty(),
            self.committed(now).run_loop_iteration >= self.run_loop_iteration,
            self.committed(now).store.records.len() == self.store.records.len(),
            forall|i: int|
                0 <= i < self.store.records.len() && self.batch.contains(
                    self.store.records[i].uid,
                ) ==> {
                    let before = self.store.records[i];
                    let after = #[trigger] self.committed(now).store.records[i];
                    &&& after == settled(before, self.outcomes, now)
                    &&& after.status == Status::Succeeded || after.status == Status::Failed
                    &&& after.finished_at == Some(now)
                    &&& (after.status == Status::Succeeded <==> reported_success(
                        self.outcomes,
                        after.uid,
                    ))
                    &&& forall|o: TaskOutcome, c: u64|
                        find_outcome(self.outcomes, before.uid) == Some(o) && o.count == Some(c)
                            ==> after.details == refined(before.details, c)
                },
            forall|i: int|
                0 <= i < self.store.records.len() && !self.batch.contains(
                    self.store.records[i].uid,
                ) ==> #[trigger] self.committed(now).store.records[i] == self.store.records[i],
    {
        lemma_after_commit(self.store, self.batch, self.outcomes, now);
        lemma_after_commit_records(self.store, self.batch, self.outcomes, now);
        let p = bucket_of(self.store.status, Status::Processing);
        assert(p.difference(self.batch.to_set()) =~= Set::<u32>::empty());
        assert(Seq::<u32>::empty().to_set() =~= Set::<u32>::empty());
        self.store.lemma_status_bucket(Status::Processing);
        assert forall|i: int|
            0 <= i < self.store.records.len() && self.batch.contains(
                self.store.records[i].uid,
            ) implies self.store.records[i].status == Status::Processing by {
            assert(self.batch.to_set().contains(self.store.records[i].uid));
        }
    }
}

/// The scheduler.
pub struct IndexScheduler {
    store: TaskStore,
    processing_tasks: ProcessingTasks,
    autobatching_enabled: bool,
    must_stop_processing: bool,
    run_loop_iteration: u64,
    planned_failures: Vec<PlannedFailure>,
    phase: Phase,
    batch: Vec<u32>,
    outcomes: Vec<TaskOutcome>,
    index_mapper: IndexMapper,
    file_store: FileStore,
}

impl View for IndexScheduler {
    type V = SchedulerView;

    closed spec fn view(&self) -> SchedulerView {
        SchedulerView {
            store: self.store@,
            processing: self.processing_tasks@,
            autobatching_enabled: self.autobatching_enabled,
            must_stop_processing: self.must_stop_processing,
            run_loop_iteration: self.run_loop_iteration,
            planned_failures: self.planned_failures@,
            phase: self.phase,
            batch: self.batch@,
            outcomes: self.outcomes@,
            index_mapper: self.index_mapper@,
            file_store: self.file_store@,
        }
    }
}

/// A copy of an error.
fn clone_error(e: &Option<ResponseError>) -> (r: Option<ResponseError>)
    ensures
        r == *e,
{
    match e {
        None => None,
        Some(e) => Some(
            ResponseError {
                code: e.code,
                message: e.message.clone(),
                error_code: e.error_code.clone(),
                error_type: e.error_type.clone(),
                error_link: e.error_link.clone(),
            },
        ),
    }
}

/// A copy of a list of identifiers.
fn copy_ids(v: &Vec<u32>) -> (r: Vec<u32>)
    ensures
        r@ == v@,
{
    let mut out: Vec<u32> = Vec::new();
    let mut i: usize = 0;
    while i < v.len()
        invariant
            i <= v@.len(),
            out@ == v@.take(i as int),
        decreases v.len() - i,
    {
        out.push(v[i]);
        assert(out@ =~= v@.take(i + 1));
        i = i + 1;
    }
    assert(v@.take(v@.len() as int) =~= v@);
    out
}

/// Whether a failure is planned for this iteration at this point.
fn is_planned(plans: &Vec<PlannedFailure>, iteration: u64, location: FailureLocation) -> (b: bool)
    ensures
        b == planned(plans@, iteration, location),
{
    let mut i: usize = 0;
    while i < plans.len()
        invariant
            i <= plans@.len(),
            forall|j: int| 0 <= j < i ==> #[trigger] plans@[j] != (PlannedFailure { iteration, location }),
        decreases plans.len() - i,
    {
        if plans[i].iteration == iteration && plans[i].location == location {
            return true;
        }
        i = i + 1;
    }
    false
}

/// The position of the first outcome that is given for a task.
fn find(outcomes: &Vec<TaskOutcome>, uid: u32) -> (r: Option<usize>)
    ensures
        match r {
            Some(j) => j < outcomes@.len() && find_outcome(outcomes@, uid) == Some(
                outcomes@[j as int],
            ),
            None => find_outcome(outcomes@, uid) is None,
        },
{
    let mut i: usize = 0;
    proof {
        assert(outcomes@.skip(0) =~= outcomes@);
    }
    while i < outcomes.len()
        invariant
            i <= outcomes@.len(),
            find_outcome(outcomes@, uid) == find_outcome(outcomes@.skip(i as int), uid),
        decreases outcomes.len() - i,
    {
        proof {
            assert(outcomes@.skip(i as int)[0] == outcomes@[i as int]);
            assert(outcomes@.skip(i as int).drop_first() =~= outcomes@.skip(i + 1));
        }
        if outcomes[i].uid == uid {
            return Some(i);
        }
        i = i + 1;
    }
    None
}

/// What is known of a batch while its first `k` members have been marked.
proof fn lemma_marked_so_far(start: StoreView, batch: Seq<u32>, k: int, now: i128)
    requires
        start.consistent(),
        is_ascending(batch),
        forall|i: int| 0 <= i < batch.len() ==> enqueued(start).contains(#[trigger] batch[i]),
        0 <= k < batch.len(),
    ensures
        after_mark(start, batch.take(k), now).consistent(),
        after_mark(start, batch.take(k), now).contains(batch[k]),
        after_mark(start, batch.take(k), now).task(batch[k]).status == Status::Enqueued,
        after_mark(start, batch.take(k + 1), now) == after_mark(
            start,
            batch.take(k),
            now,
        ).after_transition(batch[k], Status::Processing, now, None, None),
{
    let done = batch.take(k);
    let g = after_mark(start, done, now);
    lemma_after_mark(start, done, now);
    assert(!done.contains(batch[k])) by {
        if done.contains(batch[k]) {
            let j = choose|j: int| 0 <= j < done.len() && done[j] == batch[k];
            assert(batch[j] < batch[k]);
        }
    }
    assert(bucket_of(g.status, Status::Enqueued).contains(batch[k]));
    g.lemma_status_bucket(Status::Enqueued);
    assert(batch.take(k + 1).drop_last() =~= done);
    assert(batch.take(k + 1).last() == batch[k]);
}

/// Undoes the start of the first `k` members of a batch.
fn roll_back(
    store: &mut TaskStore,
    batch: &Vec<u32>,
    k: usize,
    now: i128,
    Ghost(start): Ghost<StoreView>,
)
    requires
        old(store).wf(),
        k <= batch@.len(),
        is_ascending(batch@),
        start.consistent(),
        forall|i: int| 0 <= i < batch@.len() ==> enqueued(start).contains(#[trigger] batch@[i]),
        old(store)@ == after_mark(start, batch@.take(k as int), now),
    ensures
        final(store).wf(),
        final(store)@ == start,
{
    let mut j: usize = k;
    while j > 0
        invariant
            store.wf(),
            j <= k <= batch@.len(),
            is_ascending(batch@),
            start.consistent(),
            forall|i: int| 0 <= i < batch@.len() ==> enqueued(start).contains(#[trigger] batch@[i]),
            store@ == after_mark(start, batch@.take(j as int), now),
        decreases j,
    {
        j = j - 1;
        proof {
            lemma_marked_so_far(start, batch@, j as int, now);
            after_mark(start, batch@.take(j as int), now).lemma_revert_undoes_start(
                batch@[j as int],
                now,
            );
        }
        let _ = store.revert_start(batch[j]);
    }
    proof {
        assert(batch@.take(0).len() == 0);
    }
}

/// Marks each member of a batch as processing, unless a failure is planned
/// on the way: then the members that were marked are enqueued again, and
/// the store is as it was.
fn mark_processing(
    store: &mut TaskStore,
    plans: &Vec<PlannedFailure>,
    iteration: u64,
    batch: &Vec<u32>,
    now: i128,
) -> (ok: bool)
    requires
        old(store).wf(),
        is_ascending(batch@),
        forall|i: int| 0 <= i < batch@.len() ==> enqueued(old(store)@).contains(#[trigger] batch@[i]),
    ensures
        final(store).wf(),
        ok == !marking_fails(plans@, iteration, batch@.len()),
        ok ==> final(store)@ == after_mark(old(store)@, batch@, now),
        !ok ==> final(store)@ == old(store)@,
{
    let ghost start = store@;
    proof {
        store.lemma_wf_consistent();
        assert(batch@.take(0).len() == 0);
    }
    let mut k: usize = 0;
    while k < batch.len()
        invariant
            store.wf(),
            k <= batch@.len(),
            is_ascending(batch@),
            start.consistent(),
            forall|i: int| 0 <= i < batch@.len() ==> enqueued(start).contains(#[trigger] batch@[i]),
            store@ == after_mark(start, batch@.take(k as int), now),
            start == old(store)@,
            forall|j: usize|
                j < k ==> !(#[trigger] planned(
                    plans@,
                    iteration,
                    FailureLocation::MarkingProcessing { marked: j },
                )),
        decreases batch.len() - k,
    {
        if is_planned(plans, iteration, FailureLocation::MarkingProcessing { marked: k }) {
            roll_back(store, batch, k, now, Ghost(start));
            return false;
        }
        proof {
            lemma_marked_so_far(start, batch@, k as int, now);
        }
        match store.transition(batch[k], Status::Processing, now, None, None) {
            Ok(()) => {},
            Err(_) => {
                assert(false);
            },
        }
        k = k + 1;
    }
    proof {
        assert(batch@.take(batch@.len() as int) =~= batch@);
    }
    true
}

/// Commits the outcome of each member of a batch.
fn commit_batch(store: &mut TaskStore, batch: &Vec<u32>, outcomes: &Vec<TaskOutcome>, now: i128)
    requires
        old(store).wf(),
    ensures
        final(store).wf(),
        final(store)@ == after_commit(old(store)@, batch@, outcomes@, now),
{
    let ghost start = store@;
    proof {
        assert(batch@.take(0).len() == 0);
    }
    let mut k: usize = 0;
    while k < batch.len()
        invariant
            store.wf(),
            k <= batch@.len(),
            store@ == after_commit(start, batch@.take(k as int), outcomes@, now),
        decreases batch.len() - k,
    {
        let uid = batch[k];
        proof {
            assert(batch@.take(k + 1).drop_last() =~= batch@.take(k as int));
            assert(batch@.take(k + 1).last() == uid);
            store.lemma_wf_consistent();
        }
        let processing = match store.get(uid) {
            Ok(task) => task.status == Status::Processing,
            Err(_) => false,
        };
        if processing {
            let r = match find(outcomes, uid) {
                Some(j) => {
                    let to = if outcomes[j].succeeded {
                        Status::Succeeded
                    } else {
                        Status::Failed
                    };
                    store.transition(uid, to, now, outcomes[j].count, clone_error(&outcomes[j].error))
                },
                None => store.transition(uid, Status::Failed, now, None, None),
            };
            match r {
                Ok(()) => {},
                Err(_) => {
                    assert(false);
                },
            }
        }
        k = k + 1;
    }
    proof {
        assert(batch@.take(batch@.len() as int) =~= batch@);
    }
}

impl IndexScheduler {
    /// The invariant of the scheduler.
    pub closed spec fn wf(&self) -> bool {
        self.store.wf() && self.index_mapper.wf() && self.file_store.wf() && self@.inv()
    }

    /// What holds of a well-formed scheduler.
    pub proof fn lemma_wf_inv(&self)
        requires
            self.wf(),
        ensures
            self@.inv(),
    {
    }

    /// A scheduler with an empty store, idle, in which `index_capacity`
    /// indexes can be open at once.
    pub fn new(autobatching_enabled: bool, index_capacity: usize) -> (s: Self)
        ensures
            s@.index_mapper.entries.len() == 0,
            s@.index_mapper.open.len() == 0,
            s@.file_store.len() == 0,
            s.wf(),
            s@.store.records.len() == 0,
            s@.store.next_uid == 0,
            s@.processing == Set::<u32>::empty(),
            s@.autobatching_enabled == autobatching_enabled,
            !s@.must_stop_processing,
            s@.run_loop_iteration == 0,
            s@.planned_failures.len() == 0,
            s@.phase == Phase::Idle,
            s@.batch.len() == 0,
            s@.outcomes.len() == 0,
    {
        let s = IndexScheduler {
            store: TaskStore::new(),
            processing_tasks: ProcessingTasks::new(),
            autobatching_enabled,
            must_stop_processing: false,
            run_loop_iteration: 0,
            planned_failures: Vec::new(),
            phase: Phase::Idle,
            batch: Vec::new(),
            outcomes: Vec::new(),
            index_mapper: IndexMapper::new(index_capacity),
            file_store: FileStore::new(),
        };
        proof {
            s.store.lemma_wf_consistent();
            s.index_mapper.lemma_wf_inv();
            s.file_store.lemma_wf_ascending();
            assert(s@.batch.to_set() =~= Set::<u32>::empty());
            assert(bucket_of(s@.store.status, Status::Processing) =~= Set::<u32>::empty());
        }
        s
    }

    /// A scheduler over a store that was read back after a restart. The
    /// tasks that were processing when the store was saved are enqueued
    /// again: their batch did not reach its commit, and nothing of its
    /// start is kept. The scheduler is idle and no task is in flight.
    pub fn recover(store: TaskStore, autobatching_enabled: bool, index_capacity: usize) -> (s: Self)
        requires
            store.wf(),
        ensures
            s.wf(),
            s@.store == store@.after_revert_all(
                ascending_seq(bucket_of(store@.status, Status::Processing)),
            ),
            s@.store.records.len() == store@.records.len(),
            s@.store.next_uid == store@.next_uid,
            bucket_of(s@.store.status, Status::Processing) == Set::<u32>::empty(),
            s@.processing == Set::<u32>::empty(),
            s@.autobatching_enabled == autobatching_enabled,
            !s@.must_stop_processing,
            s@.run_loop_iteration == 0,
            s@.planned_failures.len() == 0,
            s@.phase == Phase::Idle,
            s@.batch.len() == 0,
            s@.outcomes.len() == 0,
            s@.index_mapper.entries.len() == 0,
            s@.file_store.len() == 0,
    {
        let mut store = store;
        let _ = store.requeue_processing();
        let s = IndexScheduler {
            store,
            processing_tasks: ProcessingTasks::new(),
            autobatching_enabled,
            must_stop_processing: false,
            run_loop_iteration: 0,
            planned_failures: Vec::new(),
            phase: Phase::Idle,
            batch: Vec::new(),
            outcomes: Vec::new(),
            index_mapper: IndexMapper::new(index_capacity),
            file_store: FileStore::new(),
        };
        proof {
            s.store.lemma_wf_consistent();
            s.index_mapper.lemma_wf_inv();
            s.file_store.lemma_wf_ascending();
            assert(s@.batch.to_set() =~= Set::<u32>::empty());
        }
        s
    }

    /// The task store.
    pub fn store(&self) -> (s: &TaskStore)
        requires
            self.wf(),
        ensures
            s.wf(),
            s@ == self@.store,
    {
        &self.store
    }

    /// Whether compatible tasks are merged into one batch.
    pub fn autobatching_enabled(&self) -> (b: bool)
        ensures
            b == self@.autobatching_enabled,
    {
        self.autobatching_enabled
    }

    /// Sets whether compatible tasks are merged into one batch.
    pub fn set_autobatching(&mut self, enabled: bool)
        requires
            old(self).wf(),
        ensures
            final(self).wf(),
            final(self)@ == (SchedulerView { autobatching_enabled: enabled, ..old(self)@ }),
    {
        self.autobatching_enabled = enabled;
    }

    /// The registry of the indexes.
    pub fn index_mapper(&self) -> (m: &IndexMapper)
        requires
            self.wf(),
        ensures
            m.wf(),
            m@ == self@.index_mapper,
    {
        &self.index_mapper
    }

    /// The references to the payloads.
    pub fn file_store(&self) -> (f: &FileStore)
        requires
            self.wf(),
        ensures
            f.wf(),
            f@ == self@.file_store,
    {
        &self.file_store
    }

    /// Replaces the registry of the indexes, and hands out the one that
    /// was there: this is how the registry is changed while the scheduler
    /// owns it.
    pub fn set_index_mapper(&mut self, mapper: IndexMapper) -> (before: IndexMapper)
        requires
            old(self).wf(),
            mapper.wf(),
        ensures
            final(self).wf(),
            final(self)@ == (SchedulerView { index_mapper: mapper@, ..old(self)@ }),
            before.wf(),
            before@ == old(self)@.index_mapper,
    {
        proof {
            mapper.lemma_wf_inv();
        }
        let mut mapper = mapper;
        std::mem::swap(&mut self.index_mapper, &mut mapper);
        mapper
    }

    /// Replaces the references to the payloads, and hands out the ones that
    /// were there.
    pub fn set_file_store(&mut self, files: FileStore) -> (before: FileStore)
        requires
            old(self).wf(),
            files.wf(),
        ensures
            final(self).wf(),
            final(self)@ == (SchedulerView { file_store: files@, ..old(self)@ }),
            before.wf(),
            before@ == old(self)@.file_store,
    {
        proof {
            files.lemma_wf_ascending();
        }
        let mut files = files;
        std::mem::swap(&mut self.file_store, &mut files);
        files
    }

    /// The processing set.
    pub fn processing_tasks(&self) -> (p: &ProcessingTasks)
        ensures
            p@ == self@.processing,
    {
        &self.processing_tasks
    }

    /// The phase in which the scheduler is.
    pub fn phase(&self) -> (p: Phase)
        ensures
            p == self@.phase,
    {
        self.phase
    }

    /// How many iterations the scheduler has run.
    pub fn run_loop_iteration(&self) -> (n: u64)
        ensures
            n == self@.run_loop_iteration,
    {
        self.run_loop_iteration
    }

    /// Whether the scheduler has been asked to stop.
    pub fn must_stop_processing(&self) -> (b: bool)
        ensures
            b == self@.must_stop_processing,
    {
        self.must_stop_processing
    }

    /// The batch in flight.
    pub fn batch(&self) -> (b: &Vec<u32>)
        ensures
            b@ == self@.batch,
    {
        &self.batch
    }

    /// Plans a failure for a test: the step of the given iteration behaves
    /// as if a failure had occurred at the given point. Without a plan no
    /// step ever fails.
    pub fn plan_failure(&mut self, iteration: u64, location: FailureLocation)
        requires
            old(self).wf(),
        ensures
            final(self).wf(),
            final(self)@ == (SchedulerView {
                planned_failures: old(self)@.planned_failures.push(
                    PlannedFailure { iteration, location },
                ),
                ..old(self)@
            }),
    {
        self.planned_failures.push(PlannedFailure { iteration, location });
    }

    /// Records a new task, as [`TaskStore::enqueue`] does. The scheduler is
    /// not woken: send it `Event::Wake`.
    pub fn register(&mut self, kind: KindWithContent, details: Option<Details>, now: i128) -> (r:
        Result<u32, Error>)
        requires
            old(self).wf(),
        ensures
            final(self).wf(),
            match r {
                Ok(uid) => {
                    &&& details_fit(kind, details)
                    &&& old(self)@.store.next_uid < u32::MAX
                    &&& uid == old(self)@.store.next_uid
                    &&& final(self)@ == (SchedulerView {
                        store: old(self)@.store.after_enqueue(kind, details, now),
                        ..old(self)@
                    })
                },
                Err(e) => {
                    &&& final(self)@ == old(self)@
                    &&& if !details_fit(kind, details) {
                        e == Error::InvalidDetails
                    } else {
                        old(self)@.store.next_uid == u32::MAX && e == Error::NoSpaceLeftInTaskQueue
                    }
                },
            },
    {
        proof {
            self@.store.lemma_after_enqueue_processing(kind, details, now);
        }
        let r = self.store.enqueue(kind, details, now);
        proof {
            self.store.lemma_wf_consistent();
        }
        r
    }

    /// The record of a task.
    pub fn get_task(&self, uid: u32) -> (r: Result<&Task, Error>)
        requires
            self.wf(),
        ensures
            match r {
                Ok(t) => self@.store.contains(uid) && *t == self@.store.task(uid),
                Err(e) => !self@.store.contains(uid) && e == Error::TaskNotFound(uid),
            },
    {
        self.store.get(uid)
    }

    /// The identifiers of the tasks that pass a filter.
    pub fn get_task_ids(&self, q: &Query) -> (r: Vec<u32>)
        requires
            self.wf(),
        ensures
            r@ == (if q.reverse {
                ascending_seq(self@.store.matching(*q)).reverse()
            } else {
                ascending_seq(self@.store.matching(*q))
            }),
    {
        self.store.query(q)
    }

    /// Counts one more iteration.
    fn bump(&mut self)
        ensures
            final(self).store == old(self).store,
            final(self).index_mapper == old(self).index_mapper,
            final(self).file_store == old(self).file_store,
            final(self)@ == old(self)@.failed(),
    {
        if self.run_loop_iteration < u64::MAX {
            self.run_loop_iteration = self.run_loop_iteration + 1;
        }
    }

    /// Selects the next batch and starts it.
    fn select(&mut self, now: i128) -> (action: Action)
        requires
            old(self).wf(),
            old(self)@.phase == Phase::Selecting,
        ensures
            final(self).wf(),
            final(self)@ == old(self)@.selected(now),
            action@ == old(self)@.action(now),
    {
        let ghost before = self@;
        let ghost v = before.store;
        if is_planned(
            &self.planned_failures,
            self.run_loop_iteration,
            FailureLocation::CreatingBatch,
        ) {
            self.bump();
            return Action::Retry;
        }
        let batch = create_next_batch(&self.store, self.autobatching_enabled);
        proof {
            lemma_next_batch_unique(
                v,
                self.autobatching_enabled,
                batch@,
                next_batch(v, self.autobatching_enabled),
            );
        }
        if batch.len() == 0 {
            self.phase = Phase::Idle;
            return Action::Wait;
        }
        let first = batch[0];
        proof {
            v.lemma_status_bucket(Status::Enqueued);
        }
        let internal = match self.store.get(first) {
            Ok(task) => match &task.kind {
                KindWithContent::TaskCancelation { tasks, .. } => Some((true, tasks.clone())),
                KindWithContent::TaskDeletion { tasks, .. } => Some((false, tasks.clone())),
                _ => None,
            },
            Err(_) => None,
        };
        if !mark_processing(
            &mut self.store,
            &self.planned_failures,
            self.run_loop_iteration,
            &batch,
            now,
        ) {
            self.bump();
            return Action::Retry;
        }
        let ghost marked = self.store@;
        proof {
            lemma_after_mark(v, batch@, now);
            assert(bucket_of(v.status, Status::Processing) + batch@.to_set() =~= batch@.to_set());
        }
        let ids = bitmap_of(&batch);
        proof {
            assert(bitmap_set(ids) =~= batch@.to_set());
        }
        self.processing_tasks.set(ids);
        match internal {
            Some((cancelation, tasks)) => {
                let ghost kind = v.task(first).kind;
                proof {
                    // a task that the scheduler executes itself is alone in its batch
                    assert(kind.index_uid() is None);
                    assert(batch@ =~= seq![first]);
                    assert(batch@.to_set() =~= set![first]);
                }
                let n = if cancelation {
                    let mut tasks = tasks;
                    let _ = tasks.remove(first);
                    proof {
                        let list = ascending_seq(bitmap_set(tasks));
                        lemma_ascending_exists(bitmap_set(tasks));
                        marked.lemma_after_cancel_all(list, first, now);
                        marked.lemma_after_cancel_all_processing(list, first, now);
                        assert(set![first].difference(list.to_set()) =~= set![first]);
                    }
                    self.store.cancel(&tasks, first, now)
                } else {
                    proof {
                        let list = ascending_seq(bitmap_set(tasks));
                        marked.lemma_after_delete_all(list);
                        marked.lemma_after_delete_all_processing(list);
                    }
                    self.store.delete(&tasks)
                };
                let mut outcomes = Vec::new();
                outcomes.push(TaskOutcome { uid: first, succeeded: true, count: Some(n), error: None });
                self.outcomes = outcomes;
                self.batch = batch;
                self.phase = Phase::Committing;
                proof {
                    assert(self@.outcomes =~= before.selected(now).outcomes);
                }
                Action::Continue
            },
            None => {
                let handed = copy_ids(&batch);
                self.batch = batch;
                self.phase = Phase::Executing;
                Action::Execute(handed)
            },
        }
    }

    /// Commits the outcomes of the batch in flight.
    fn commit(&mut self, now: i128) -> (action: Action)
        requires
            old(self).wf(),
            old(self)@.phase == Phase::Committing,
        ensures
            final(self).wf(),
            final(self)@ == old(self)@.committed(now),
            action@ == old(self)@.action(now),
    {
        if is_planned(&self.planned_failures, self.run_loop_iteration, FailureLocation::Committing) {
            self.bump();
            return Action::Retry;
        }
        proof {
            lemma_after_commit(self@.store, self@.batch, self@.outcomes, now);
            let p = bucket_of(self@.store.status, Status::Processing);
            assert(p.difference(self@.batch.to_set()) =~= Set::<u32>::empty());
        }
        commit_batch(&mut self.store, &self.batch, &self.outcomes, now);
        self.processing_tasks.clear();
        self.batch = Vec::new();
        self.outcomes = Vec::new();
        if self.run_loop_iteration < u64::MAX {
            self.run_loop_iteration = self.run_loop_iteration + 1;
        }
        proof {
            assert(self@.batch.to_set() =~= Set::<u32>::empty());
        }
        if self.must_stop_processing {
            self.phase = Phase::Stopped;
            Action::Exit
        } else {
            self.phase = Phase::Selecting;
            Action::Continue
        }
    }

    /// One step of the scheduler: takes in an event, if there is one, then
    /// does the work of the phase in which the scheduler is.
    ///
    /// While idle the scheduler waits for a wake signal; woken, it selects
    /// the next batch. While a batch is being executed it waits for the
    /// outcomes; once they are handed back, it commits them. Asked to stop,
    /// it finishes the batch in flight and selects no more.
    pub fn step(&mut self, event: Option<Event>, now: i128) -> (action: Action)
        requires
            old(self).wf(),
        ensures
            final(self).wf(),
            final(self)@ == old(self)@.received(event).advanced(now),
            action@ == old(self)@.received(event).action(now),
    {
        match event {
            None => {},
            Some(Event::Wake) => {
                if self.phase == Phase::Idle {
                    self.phase = Phase::Selecting;
                }
            },
            Some(Event::Stop) => {
                self.must_stop_processing = true;
                if !(self.phase == Phase::Executing || self.phase == Phase::Committing) {
                    self.phase = Phase::Stopped;
                }
            },
            Some(Event::Executed(outcomes)) => {
                if self.phase == Phase::Executing {
                    self.outcomes = outcomes;
                    self.phase = Phase::Committing;
                }
            },
        }
        match self.phase {
            Phase::Selecting => self.select(now),
            Phase::Committing => self.commit(now),
            Phase::Idle => Action::Wait,
            Phase::Executing => Action::Wait,
            Phase::Stopped => Action::Exit,
        }
    }
}

} // verus!
