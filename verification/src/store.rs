//! The task record store: the table of task records, keyed by an
//! identifier that only grows, and the secondary indices that are kept in
//! step with it.

use crate::bitmap::{
    ascending_seq, bitmap_intersection, bitmap_members, bitmap_set, lemma_ascending_exists,
    lemma_u32_set_finite,
};
use crate::query::{date_matches, Query};
use crate::table::{
    bucket_of, filed_under, in_range, lemma_filed_under, lemma_same_buckets, lemma_unfiled_under,
    unfiled_under, BitmapTable,
};
use crate::task::{swap_names, Details, Kind, KindWithContent, ResponseError, Status, Task};
use crate::view::{
    by_enqueued_at, by_finished_at, by_index, by_kind, by_started_at, by_status, canceled,
    details_fit, refined, reverted, task_wf, transitioned, StoreView,
};
use roaring::RoaringBitmap;
use vstd::prelude::*;

verus! {

/// Why an operation of the scheduler was refused.
#[derive(Debug)]
pub enum Error {
    /// No task has this identifier.
    TaskNotFound(u32),
    /// The task may not pass from the first status to the second.
    InvalidTransition { uid: u32, from: Status, to: Status },
    /// The details do not have the shape that the kind of the task asks for.
    InvalidDetails,
    /// Every identifier has been given out.
    NoSpaceLeftInTaskQueue,
    /// No index has this name.
    IndexNotFound(String),
    /// An index of this name exists already.
    IndexAlreadyExists(String),
    /// The records of the tasks cannot be those of a store.
    CorruptedTaskQueue,
}

/// Whether the details have the shape that belongs to the kind.
pub fn check_details(kind: &KindWithContent, details: &Option<Details>) -> (b: bool)
    ensures
        b == details_fit(*kind, *details),
{
    match kind {
        KindWithContent::DocumentAdditionOrUpdate { .. } => match details {
            Some(Details::DocumentAdditionOrUpdate { .. }) => true,
            _ => false,
        },
        KindWithContent::DocumentDeletion { .. } => match details {
            Some(Details::DocumentDeletion { .. }) => true,
            _ => false,
        },
        KindWithContent::DocumentDeletionByFilter { .. } => match details {
            Some(Details::DocumentDeletionByFilter { .. }) => true,
            _ => false,
        },
        KindWithContent::DocumentClear { .. } => match details {
            Some(Details::ClearAll { .. }) => true,
            _ => false,
        },
        KindWithContent::SettingsUpdate { .. } => match details {
            Some(Details::SettingsUpdate { .. }) => true,
            _ => false,
        },
        KindWithContent::IndexDeletion { .. } => match details {
            Some(Details::ClearAll { .. }) => true,
            _ => false,
        },
        KindWithContent::IndexCreation { .. } => match details {
            Some(Details::IndexInfo { .. }) => true,
            _ => false,
        },
        KindWithContent::IndexUpdate { .. } => match details {
            Some(Details::IndexInfo { .. }) => true,
            _ => false,
        },
        KindWithContent::IndexSwap { .. } => match details {
            Some(Details::IndexSwap { .. }) => true,
            _ => false,
        },
        KindWithContent::TaskCancelation { .. } => match details {
            Some(Details::TaskCancelation { .. }) => true,
            _ => false,
        },
        KindWithContent::TaskDeletion { .. } => match details {
            Some(Details::TaskDeletion { .. }) => true,
            _ => false,
        },
        KindWithContent::DumpCreation => match details {
            Some(Details::Dump { .. }) => true,
            _ => false,
        },
        KindWithContent::SnapshotCreation => details.is_none(),
    }
}

/// Sets the count of what execution did.
pub fn refine(details: Option<Details>, count: u64) -> (r: Option<Details>)
    ensures
        r == refined(details, count),
{
    match details {
        Some(Details::DocumentAdditionOrUpdate { received_documents, indexed_documents: _ }) => Some(
            Details::DocumentAdditionOrUpdate { received_documents, indexed_documents: Some(count) },
        ),
        Some(Details::DocumentDeletion { provided_ids, deleted_documents: _ }) => Some(
            Details::DocumentDeletion { provided_ids, deleted_documents: Some(count) },
        ),
        Some(Details::DocumentDeletionByFilter { original_filter, deleted_documents: _ }) => Some(
            Details::DocumentDeletionByFilter { original_filter, deleted_documents: Some(count) },
        ),
        Some(Details::ClearAll { deleted_documents: _ }) => Some(
            Details::ClearAll { deleted_documents: Some(count) },
        ),
        Some(Details::TaskCancelation { matched_tasks, canceled_tasks: _, original_filter }) => Some(
            Details::TaskCancelation { matched_tasks, canceled_tasks: Some(count), original_filter },
        ),
        Some(Details::TaskDeletion { matched_tasks, deleted_tasks: _, original_filter }) => Some(
            Details::TaskDeletion { matched_tasks, deleted_tasks: Some(count), original_filter },
        ),
        other => other,
    }
}

/// Changes a record as [`canceled`] says.
fn apply_cancel(task: &mut Task, canceling: u32, now: i128)
    ensures
        *final(task) == canceled(*old(task), canceling, now),
{
    task.status = Status::Canceled;
    task.canceled_by = Some(canceling);
    task.finished_at = Some(now);
}

/// Whether a record is well formed.
pub fn check_task(t: &Task) -> (b: bool)
    ensures
        b == task_wf(*t),
{
    let dates = match t.status {
        Status::Enqueued => t.started_at.is_none() && t.finished_at.is_none(),
        Status::Processing => t.started_at.is_some() && t.finished_at.is_none(),
        Status::Succeeded => t.started_at.is_some() && t.finished_at.is_some(),
        Status::Failed => t.started_at.is_some() && t.finished_at.is_some(),
        Status::Canceled => t.finished_at.is_some(),
    };
    let canceler = match t.canceled_by {
        Some(_) => t.status == Status::Canceled,
        None => true,
    };
    dates && canceler && check_details(&t.kind, &t.details)
}

/// The tasks of a list in the opposite order.
fn reversed_tasks(v: Vec<Task>) -> (r: Vec<Task>)
    ensures
        r@ == v@.reverse(),
{
    let mut v = v;
    let ghost all = v@;
    let mut out: Vec<Task> = Vec::new();
    while v.len() > 0
        invariant
            v@.len() <= all.len(),
            v@ == all.take(v@.len() as int),
            out@.len() == all.len() - v@.len(),
            forall|j: int| 0 <= j < out@.len() ==> out@[j] == all[all.len() - 1 - j],
        decreases v.len(),
    {
        match v.pop() {
            Some(t) => {
                out.push(t);
            },
            None => {},
        }
        proof {
            assert(v@ =~= all.take(v@.len() as int));
        }
    }
    assert(out@ =~= all.reverse());
    out
}

/// Changes a record as [`reverted`] says.
fn apply_revert(task: &mut Task)
    ensures
        *final(task) == reverted(*old(task)),
{
    task.status = Status::Enqueued;
    task.started_at = None;
}

/// Changes a record as [`transitioned`] says.
fn apply_transition(
    task: &mut Task,
    new_status: Status,
    timestamp: i128,
    count: Option<u64>,
    error: Option<ResponseError>,
)
    ensures
        *final(task) == transitioned(*old(task), new_status, timestamp, count, error),
{
    if new_status == Status::Processing {
        task.started_at = Some(timestamp);
    }
    if new_status.is_terminal() {
        task.finished_at = Some(timestamp);
    }
    if error.is_some() {
        task.error = error;
    }
    match count {
        Some(c) => {
            let details = task.details.take();
            task.details = refine(details, c);
        },
        None => {},
    }
    task.status = new_status;
}

/// The task store.
pub struct TaskStore {
    all_tasks: Vec<Task>,
    next_uid: u32,
    status: BitmapTable<Status>,
    kind: BitmapTable<Kind>,
    index_tasks: BitmapTable<String>,
    canceled_by: BitmapTable<u32>,
    enqueued_at: BitmapTable<i128>,
    started_at: BitmapTable<i128>,
    finished_at: BitmapTable<i128>,
}

impl View for TaskStore {
    type V = StoreView;

    closed spec fn view(&self) -> StoreView {
        StoreView {
            records: self.all_tasks@,
            next_uid: self.next_uid,
            status: self.status@,
            kind: self.kind@,
            index_tasks: self.index_tasks@,
            canceled_by: self.canceled_by@,
            enqueued_at: self.enqueued_at@,
            started_at: self.started_at@,
            finished_at: self.finished_at@,
        }
    }
}

impl TaskStore {
    /// The invariant of the store: each secondary index is kept in its
    /// canonical form, and the records and the indices are consistent.
    pub closed spec fn wf(&self) -> bool {
        &&& self.status.wf()
        &&& self.kind.wf()
        &&& self.index_tasks.wf()
        &&& self.canceled_by.wf()
        &&& self.enqueued_at.wf()
        &&& self.started_at.wf()
        &&& self.finished_at.wf()
        &&& self@.consistent()
    }

    /// The maps of well-formed tables have no empty buckets.
    proof fn lemma_indices_canonical(&self)
        requires
            self.status.wf(),
            self.kind.wf(),
            self.index_tasks.wf(),
            self.canceled_by.wf(),
            self.enqueued_at.wf(),
            self.started_at.wf(),
            self.finished_at.wf(),
        ensures
            self@.indices_canonical(),
    {
        self.status.lemma_canonical_view();
        self.kind.lemma_canonical_view();
        self.index_tasks.lemma_canonical_view();
        self.canceled_by.lemma_canonical_view();
        self.enqueued_at.lemma_canonical_view();
        self.started_at.lemma_canonical_view();
        self.finished_at.lemma_canonical_view();
    }

    /// A store that is built anew from the records of another, with the
    /// same next identifier, holds what the other holds: the records are
    /// all that has to be saved.
    pub proof fn lemma_restore_is_exact(&self, restored: &TaskStore)
        requires
            self.wf(),
            restored.wf(),
            restored@.records == self@.records,
            restored@.next_uid == self@.next_uid,
        ensures
            restored@ == self@,
    {
        restored@.lemma_determined_by_records(self@);
    }

    /// A well-formed store is consistent.
    pub proof fn lemma_wf_consistent(&self)
        requires
            self.wf(),
        ensures
            self@.consistent(),
    {
    }

    /// An empty store, whose first task will get the identifier 0.
    pub fn new() -> (s: Self)
        ensures
            s.wf(),
            s@.records.len() == 0,
            s@.next_uid == 0,
            s@.status == Map::<Status, Set<u32>>::empty(),
            s@.kind == Map::<Kind, Set<u32>>::empty(),
            s@.index_tasks == Map::<Seq<char>, Set<u32>>::empty(),
            s@.canceled_by == Map::<u32, Set<u32>>::empty(),
            s@.enqueued_at == Map::<i128, Set<u32>>::empty(),
            s@.started_at == Map::<i128, Set<u32>>::empty(),
            s@.finished_at == Map::<i128, Set<u32>>::empty(),
    {
        TaskStore {
            all_tasks: Vec::new(),
            next_uid: 0,
            status: BitmapTable::new(),
            kind: BitmapTable::new(),
            index_tasks: BitmapTable::new(),
            canceled_by: BitmapTable::new(),
            enqueued_at: BitmapTable::new(),
            started_at: BitmapTable::new(),
            finished_at: BitmapTable::new(),
        }
    }

    /// Builds a store from the records of tasks, as they are read back
    /// after a restart: every secondary index is filed anew from the
    /// records.
    ///
    /// Records that cannot be those of a store are refused: each record
    /// has to be well formed, and the identifiers have to increase strictly
    /// and to lie below the next identifier. The store that comes out holds
    /// exactly the records, and since a consistent store holds nothing that
    /// its records do not say, it is the store that was saved.
    pub fn restore(records: Vec<Task>, next_uid: u32) -> (r: Result<TaskStore, Error>)
        ensures
            match r {
                Ok(s) => {
                    &&& StoreView::valid_records(records@, next_uid)
                    &&& s.wf()
                    &&& s@ == StoreView::of_records(records@, next_uid)
                    &&& s@.records == records@
                    &&& s@.next_uid == next_uid
                },
                Err(e) => !StoreView::valid_records(records@, next_uid) && e
                    == Error::CorruptedTaskQueue,
            },
    {
        let ghost all = records@;
        let mut pending = reversed_tasks(records);
        let mut store = TaskStore::new();
        store.next_uid = next_uid;
        let mut last: Option<u32> = None;
        proof {
            assert(all.take(0) =~= Seq::<Task>::empty());
            assert(store@.records =~= Seq::<Task>::empty());
            assert(store@ == StoreView::of_records(all.take(0), next_uid));
        }
        while pending.len() > 0
            invariant
                all == records@,
                pending@.len() <= all.len(),
                forall|j: int|
                    0 <= j < pending@.len() ==> pending@[j] == all[all.len() - 1 - j],
                store.status.wf(),
                store.kind.wf(),
                store.index_tasks.wf(),
                store.canceled_by.wf(),
                store.enqueued_at.wf(),
                store.started_at.wf(),
                store.finished_at.wf(),
                StoreView::valid_records(all.take(all.len() - pending@.len()), next_uid),
                store@ == StoreView::of_records(all.take(all.len() - pending@.len()), next_uid),
                store@.records == all.take(all.len() - pending@.len()),
                match last {
                    Some(uid) => all.len() - pending@.len() > 0 && uid == all[all.len()
                        - pending@.len() - 1].uid,
                    None => all.len() - pending@.len() == 0,
                },
            decreases pending.len(),
        {
            let ghost n = all.len() - pending@.len();
            let ghost done = all.take(n);
            let ghost before = store@;
            let task = match pending.pop() {
                Some(task) => task,
                None => {
                    return Err(Error::CorruptedTaskQueue);
                },
            };
            proof {
                assert(task == all[n]);
                assert(all.take(n + 1).drop_last() =~= done);
                assert(all.take(n + 1).last() == task);
            }
            let above = match last {
                Some(uid) => uid < task.uid,
                None => true,
            };
            if !(above && task.uid < next_uid && check_task(&task)) {
                proof {
                    if StoreView::valid_records(all, next_uid) {
                        if n > 0 {
                            assert(last == Some(all[n - 1].uid));
                            assert(all[n - 1].uid < all[n].uid);
                        }
                        assert(all[n].uid < next_uid);
                        assert(task_wf(all[n]));
                        assert(false);
                    }
                }
                return Err(Error::CorruptedTaskQueue);
            }
            proof {
                StoreView::lemma_of_records(done, next_uid);
                assert(before.accepts(task)) by {
                    assert forall|i: int| 0 <= i < before.records.len() implies (
                    #[trigger] before.records[i]).uid < task.uid by {
                        if i < n - 1 {
                            assert(done[i].uid < done[n - 1].uid);
                        }
                    }
                }
                before.lemma_with_record_consistent(task);
                assert(StoreView::valid_records(all.take(n + 1), next_uid)) by {
                    let next = all.take(n + 1);
                    let f = before.with_record(task);
                    assert(f.records =~= next);
                }
            }
            let uid = task.uid;
            store.status.insert(task.status, uid);
            store.kind.insert(task.kind.as_kind(), uid);
            store.enqueued_at.insert(task.enqueued_at, uid);
            file_targets(&mut store.index_tasks, &task.kind, uid);
            match task.canceled_by {
                Some(c) => {
                    store.canceled_by.insert(c, uid);
                },
                None => {},
            }
            match task.started_at {
                Some(at) => {
                    store.started_at.insert(at, uid);
                },
                None => {},
            }
            match task.finished_at {
                Some(at) => {
                    store.finished_at.insert(at, uid);
                },
                None => {},
            }
            store.all_tasks.push(task);
            last = Some(uid);
            proof {
                let after = store@;
                store.lemma_indices_canonical();
                lemma_filed_under(before.index_tasks, task.kind.targets(), uid);
                lemma_same_buckets(
                    after.index_tasks,
                    filed_under(before.index_tasks, task.kind.targets(), uid),
                );
                assert(after.records == before.records.push(task));
                assert(after == before.with_record(task));
                assert(after.records =~= all.take(n + 1));
            }
        }
        proof {
            assert(all.take(all.len() as int) =~= all);
            StoreView::lemma_of_records(all, next_uid);
        }
        Ok(store)
    }

    /// The records of the store, to be saved: what [`TaskStore::restore`]
    /// builds the store from again.
    pub fn records(&self) -> (r: &Vec<Task>)
        ensures
            r@ == self@.records,
    {
        &self.all_tasks
    }

    /// Enqueues again every task that is processing, as after a restart in
    /// the middle of a batch: nothing of the start of these tasks is left.
    pub fn requeue_processing(&mut self) -> (n: usize)
        requires
            old(self).wf(),
        ensures
            final(self).wf(),
            final(self)@ == old(self)@.after_revert_all(
                ascending_seq(bucket_of(old(self)@.status, Status::Processing)),
            ),
            bucket_of(final(self)@.status, Status::Processing) == Set::<u32>::empty(),
            final(self)@.records.len() == old(self)@.records.len(),
            final(self)@.next_uid == old(self)@.next_uid,
            n == bucket_of(old(self)@.status, Status::Processing).len(),
    {
        let ghost start = self@;
        let ghost p = bucket_of(start.status, Status::Processing);
        let ids = match self.status.get(&Status::Processing) {
            Some(ids) => bitmap_members(ids),
            None => {
                proof {
                    lemma_ascending_exists(p);
                    let q = ascending_seq(p);
                    if q.len() > 0 {
                        assert(q.contains(q[0]));
                        assert(q.to_set().contains(q[0]));
                    }
                    assert(p =~= Set::<u32>::empty());
                }
                return 0;
            },
        };
        let mut j: usize = 0;
        proof {
            self.lemma_wf_consistent();
            assert(ids@.take(0).len() == 0);
        }
        while j < ids.len()
            invariant
                j <= ids@.len(),
                self.wf(),
                start.consistent(),
                self@ == start.after_revert_all(ids@.take(j as int)),
            decreases ids.len() - j,
        {
            proof {
                assert(ids@.take(j + 1).drop_last() =~= ids@.take(j as int));
                assert(ids@.take(j + 1).last() == ids@[j as int]);
            }
            let _ = self.revert_start(ids[j]);
            j = j + 1;
        }
        proof {
            assert(ids@.take(ids@.len() as int) =~= ids@);
            start.lemma_after_revert_all(ids@);
            assert(p.difference(ids@.to_set()) =~= Set::<u32>::empty());
            lemma_u32_set_finite(p);
            ids@.unique_seq_to_set();
        }
        ids.len()
    }

    /// The number of task records.
    pub fn len(&self) -> (n: usize)
        ensures
            n == self@.records.len(),
    {
        self.all_tasks.len()
    }

    /// The identifier that the next task will get.
    pub fn next_uid(&self) -> (uid: u32)
        ensures
            uid == self@.next_uid,
    {
        self.next_uid
    }

    /// The record at a position of the record table.
    pub fn task_at(&self, i: usize) -> (t: &Task)
        requires
            i < self@.records.len(),
        ensures
            *t == self@.records[i as int],
    {
        &self.all_tasks[i]
    }

    /// The position of the record with this identifier.
    fn find(&self, uid: u32) -> (r: Option<usize>)
        requires
            self.wf(),
        ensures
            match r {
                Some(i) => i < self@.records.len() && self@.records[i as int].uid == uid,
                None => !self@.contains(uid),
            },
    {
        let mut lo: usize = 0;
        let mut hi: usize = self.all_tasks.len();
        while lo < hi
            invariant
                self.wf(),
                lo <= hi <= self.all_tasks@.len(),
                forall|j: int| 0 <= j < lo ==> #[trigger] self.all_tasks@[j].uid < uid,
                forall|j: int| hi <= j < self.all_tasks@.len() ==> #[trigger] self.all_tasks@[j].uid > uid,
            decreases hi - lo,
        {
            let mid = lo + (hi - lo) / 2;
            let at = self.all_tasks[mid].uid;
            if at == uid {
                return Some(mid);
            } else if at < uid {
                assert forall|j: int| 0 <= j < mid + 1 implies #[trigger] self.all_tasks@[j].uid < uid by {
                    if j < mid {
                        assert(self@.records[j].uid < self@.records[mid as int].uid);
                    }
                }
                lo = mid + 1;
            } else {
                assert forall|j: int| mid <= j < self.all_tasks@.len() implies #[trigger] self.all_tasks@[j].uid > uid by {
                    if j > mid {
                        assert(self@.records[mid as int].uid < self@.records[j].uid);
                    }
                }
                hi = mid;
            }
        }
        None
    }

    /// The record of a task.
    pub fn get(&self, uid: u32) -> (r: Result<&Task, Error>)
        requires
            self.wf(),
        ensures
            match r {
                Ok(t) => self@.contains(uid) && *t == self@.task(uid),
                Err(e) => !self@.contains(uid) && e == Error::TaskNotFound(uid),
            },
    {
        match self.find(uid) {
            Some(i) => {
                proof {
                    self@.lemma_task_at(i as int);
                }
                Ok(&self.all_tasks[i])
            },
            None => Err(Error::TaskNotFound(uid)),
        }
    }

    /// The secondary index by status.
    pub fn status_table(&self) -> (t: &BitmapTable<Status>)
        requires
            self.wf(),
        ensures
            t.wf(),
            t@ == self@.status,
    {
        &self.status
    }

    /// The secondary index by kind.
    pub fn kind_table(&self) -> (t: &BitmapTable<Kind>)
        requires
            self.wf(),
        ensures
            t.wf(),
            t@ == self@.kind,
    {
        &self.kind
    }

    /// The secondary index by the name of a targeted index.
    pub fn index_tasks_table(&self) -> (t: &BitmapTable<String>)
        requires
            self.wf(),
        ensures
            t.wf(),
            t@ == self@.index_tasks,
    {
        &self.index_tasks
    }

    /// The secondary index by the task that canceled.
    pub fn canceled_by_table(&self) -> (t: &BitmapTable<u32>)
        requires
            self.wf(),
        ensures
            t.wf(),
            t@ == self@.canceled_by,
    {
        &self.canceled_by
    }

    /// The secondary index by the date of enqueuing.
    pub fn enqueued_at_table(&self) -> (t: &BitmapTable<i128>)
        requires
            self.wf(),
        ensures
            t.wf(),
            t@ == self@.enqueued_at,
    {
        &self.enqueued_at
    }

    /// The secondary index by the date at which processing started.
    pub fn started_at_table(&self) -> (t: &BitmapTable<i128>)
        requires
            self.wf(),
        ensures
            t.wf(),
            t@ == self@.started_at,
    {
        &self.started_at
    }

    /// The secondary index by the date at which the task was finished.
    pub fn finished_at_table(&self) -> (t: &BitmapTable<i128>)
        requires
            self.wf(),
        ensures
            t.wf(),
            t@ == self@.finished_at,
    {
        &self.finished_at
    }

    /// Records a new task.
    ///
    /// The task gets the next identifier, which is greater than every
    /// identifier given out before, and starts in the status `Enqueued`. It
    /// is filed by its status, its kind, its date of enqueuing and each
    /// index that it targets. Details whose shape does not belong to the
    /// kind are refused, and so is a task when the identifiers have run out;
    /// the store is then left as it was.
    pub fn enqueue(&mut self, kind: KindWithContent, details: Option<Details>, now: i128) -> (r:
        Result<u32, Error>)
        requires
            old(self).wf(),
        ensures
            final(self).wf(),
            match r {
                Ok(uid) => {
                    &&& details_fit(kind, details)
                    &&& old(self)@.next_uid < u32::MAX
                    &&& uid == old(self)@.next_uid
                    &&& final(self)@ == old(self)@.after_enqueue(kind, details, now)
                },
                Err(e) => {
                    &&& final(self)@ == old(self)@
                    &&& if !details_fit(kind, details) {
                        e == Error::InvalidDetails
                    } else {
                        old(self)@.next_uid == u32::MAX && e == Error::NoSpaceLeftInTaskQueue
                    }
                },
            },
    {
        if !check_details(&kind, &details) {
            return Err(Error::InvalidDetails);
        }
        if self.next_uid == u32::MAX {
            return Err(Error::NoSpaceLeftInTaskQueue);
        }
        let uid = self.next_uid;
        let ghost before = self@;
        proof {
            assert(before.consistent());
            assert(!before.contains(uid));
        }
        self.status.insert(Status::Enqueued, uid);
        self.kind.insert(kind.as_kind(), uid);
        self.enqueued_at.insert(now, uid);
        file_targets(&mut self.index_tasks, &kind, uid);
        let task = Task {
            uid,
            enqueued_at: now,
            started_at: None,
            finished_at: None,
            error: None,
            canceled_by: None,
            details,
            status: Status::Enqueued,
            kind,
        };
        self.all_tasks.push(task);
        self.next_uid = uid + 1;
        proof {
            let after = self@;
            self.lemma_indices_canonical();
            lemma_filed_under(before.index_tasks, kind.targets(), uid);
            lemma_same_buckets(
                after.index_tasks,
                filed_under(before.index_tasks, kind.targets(), uid),
            );
            assert(after.records == before.records.push(task));
            assert(after == before.after_enqueue(kind, details, now));
            before.lemma_after_enqueue_consistent(kind, details, now);
        }
        Ok(uid)
    }

    /// Moves a task to a new status.
    ///
    /// An unknown identifier is refused with `TaskNotFound`, and a move
    /// that the life of a task does not allow with `InvalidTransition`; the
    /// store is then left as it was. Otherwise the record and the secondary
    /// indices by status and by date change together, as
    /// [`StoreView::after_transition`] says.
    pub fn transition(
        &mut self,
        uid: u32,
        new_status: Status,
        timestamp: i128,
        details_patch: Option<u64>,
        error: Option<ResponseError>,
    ) -> (r: Result<(), Error>)
        requires
            old(self).wf(),
        ensures
            final(self).wf(),
            match r {
                Ok(()) => {
                    &&& old(self)@.contains(uid)
                    &&& old(self)@.task(uid).status.may_become(new_status)
                    &&& final(self)@ == old(self)@.after_transition(
                        uid,
                        new_status,
                        timestamp,
                        details_patch,
                        error,
                    )
                },
                Err(e) => {
                    &&& final(self)@ == old(self)@
                    &&& if !old(self)@.contains(uid) {
                        e == Error::TaskNotFound(uid)
                    } else {
                        &&& !old(self)@.task(uid).status.may_become(new_status)
                        &&& e == (Error::InvalidTransition {
                            uid,
                            from: old(self)@.task(uid).status,
                            to: new_status,
                        })
                    }
                },
            },
    {
        let i = match self.find(uid) {
            Some(i) => i,
            None => {
                return Err(Error::TaskNotFound(uid));
            },
        };
        let ghost before = self@;
        proof {
            assert(before.consistent());
            before.lemma_task_at(i as int);
        }
        let from = self.all_tasks[i].status;
        if !from.can_become(new_status) {
            return Err(Error::InvalidTransition { uid, from, to: new_status });
        }
        self.status.remove(&from, uid);
        self.status.insert(new_status, uid);
        if new_status == Status::Processing {
            self.started_at.insert(timestamp, uid);
        }
        if new_status.is_terminal() {
            self.finished_at.insert(timestamp, uid);
        }
        apply_transition(&mut self.all_tasks[i], new_status, timestamp, details_patch, error);
        proof {
            let after = self@;
            let t2 = transitioned(
                before.records[i as int],
                new_status,
                timestamp,
                details_patch,
                error,
            );
            assert(after.records == before.records.update(i as int, t2));
            assert(after == before.after_transition(
                uid,
                new_status,
                timestamp,
                details_patch,
                error,
            ));
            before.lemma_after_transition_consistent(
                uid,
                new_status,
                timestamp,
                details_patch,
                error,
            );
        }
        Ok(())
    }

    /// Cancels one task, if it can still be canceled; tells whether it did.
    fn cancel_one(&mut self, uid: u32, canceling: u32, now: i128) -> (done: bool)
        requires
            old(self).wf(),
        ensures
            final(self).wf(),
            done == old(self)@.cancelable(uid),
            final(self)@ == old(self)@.after_cancel(uid, canceling, now),
    {
        let i = match self.find(uid) {
            Some(i) => i,
            None => {
                return false;
            },
        };
        let ghost before = self@;
        proof {
            assert(before.consistent());
            before.lemma_task_at(i as int);
        }
        let from = self.all_tasks[i].status;
        if from.is_terminal() {
            return false;
        }
        self.status.remove(&from, uid);
        self.status.insert(Status::Canceled, uid);
        self.canceled_by.insert(canceling, uid);
        self.finished_at.insert(now, uid);
        apply_cancel(&mut self.all_tasks[i], canceling, now);
        proof {
            let after = self@;
            let t2 = canceled(before.records[i as int], canceling, now);
            assert(after.records == before.records.update(i as int, t2));
            assert(after == before.after_cancel(uid, canceling, now));
            before.lemma_after_cancel_consistent(uid, canceling, now);
        }
        true
    }

    /// Cancels tasks on behalf of the task `canceling_task_uid`.
    ///
    /// Each task of `uids` that is in the store and has not reached a
    /// terminal status becomes `Canceled` at the date `now`, with
    /// `canceled_by` set, and is filed under the canceling task. The others
    /// are left untouched: to cancel a finished task, or one that does not
    /// exist, is no error. The result is the number of tasks canceled.
    pub fn cancel(&mut self, uids: &RoaringBitmap, canceling_task_uid: u32, now: i128) -> (n: u64)
        requires
            old(self).wf(),
        ensures
            final(self).wf(),
            final(self)@ == old(self)@.after_cancel_all(
                ascending_seq(bitmap_set(*uids)),
                canceling_task_uid,
                now,
            ),
            n == old(self)@.canceled_count(
                ascending_seq(bitmap_set(*uids)),
                canceling_task_uid,
                now,
            ),
            final(self)@.records.len() == old(self)@.records.len(),
            forall|i: int|
                0 <= i < old(self)@.records.len() ==> #[trigger] final(self)@.records[i] == (
                if bitmap_set(*uids).contains(old(self)@.records[i].uid)
                    && !old(self)@.records[i].status.terminal() {
                    canceled(old(self)@.records[i], canceling_task_uid, now)
                } else {
                    old(self)@.records[i]
                }),
    {
        let v = bitmap_members(uids);
        let mut n: u64 = 0;
        let mut j: usize = 0;
        while j < v.len()
            invariant
                j <= v.len(),
                self.wf(),
                n <= j,
                self@ == old(self)@.after_cancel_all(v@.take(j as int), canceling_task_uid, now),
                n == old(self)@.canceled_count(v@.take(j as int), canceling_task_uid, now),
            decreases v.len() - j,
        {
            proof {
                assert(v@.take(j + 1).drop_last() =~= v@.take(j as int));
                assert(v@.take(j + 1).last() == v@[j as int]);
            }
            if self.cancel_one(v[j], canceling_task_uid, now) {
                n = n + 1;
            }
            j = j + 1;
        }
        proof {
            assert(v@.take(v@.len() as int) =~= v@);
            old(self).lemma_wf_consistent();
            old(self)@.lemma_after_cancel_all(v@, canceling_task_uid, now);
            assert forall|x: u32| v@.contains(x) == bitmap_set(*uids).contains(x) by {
                assert(v@.to_set().contains(x) == v@.contains(x));
            }
        }
        n
    }

    /// Undoes the start of a task that is processing: the task is enqueued
    /// again, as if it had never started. Tells whether it did.
    pub fn revert_start(&mut self, uid: u32) -> (done: bool)
        requires
            old(self).wf(),
        ensures
            final(self).wf(),
            done == old(self)@.revertible(uid),
            final(self)@ == old(self)@.after_revert(uid),
    {
        let i = match self.find(uid) {
            Some(i) => i,
            None => {
                return false;
            },
        };
        let ghost before = self@;
        proof {
            assert(before.consistent());
            before.lemma_task_at(i as int);
        }
        if self.all_tasks[i].status != Status::Processing {
            return false;
        }
        self.status.remove(&Status::Processing, uid);
        self.status.insert(Status::Enqueued, uid);
        match self.all_tasks[i].started_at {
            Some(at) => {
                self.started_at.remove(&at, uid);
            },
            None => {},
        }
        apply_revert(&mut self.all_tasks[i]);
        proof {
            let after = self@;
            let t2 = reverted(before.records[i as int]);
            assert(after.records == before.records.update(i as int, t2));
            assert(after == before.after_revert(uid));
            before.lemma_after_revert_consistent(uid);
        }
        true
    }

    /// Deletes one task, if it has reached a terminal status; tells whether
    /// it did.
    fn delete_one(&mut self, uid: u32) -> (done: bool)
        requires
            old(self).wf(),
        ensures
            final(self).wf(),
            done == old(self)@.deletable(uid),
            final(self)@ == old(self)@.after_delete(uid),
    {
        let i = match self.find(uid) {
            Some(i) => i,
            None => {
                return false;
            },
        };
        let ghost before = self@;
        proof {
            assert(before.consistent());
            before.lemma_task_at(i as int);
        }
        if !self.all_tasks[i].status.is_terminal() {
            return false;
        }
        let t = self.all_tasks.remove(i);
        self.status.remove(&t.status, uid);
        let k = t.kind.as_kind();
        self.kind.remove(&k, uid);
        self.enqueued_at.remove(&t.enqueued_at, uid);
        unfile_targets(&mut self.index_tasks, &t.kind, uid);
        match t.canceled_by {
            Some(c) => {
                self.canceled_by.remove(&c, uid);
            },
            None => {},
        }
        match t.started_at {
            Some(at) => {
                self.started_at.remove(&at, uid);
            },
            None => {},
        }
        match t.finished_at {
            Some(at) => {
                self.finished_at.remove(&at, uid);
            },
            None => {},
        }
        proof {
            let after = self@;
            self.lemma_indices_canonical();
            lemma_unfiled_under(before.index_tasks, t.kind.targets(), uid);
            lemma_same_buckets(
                after.index_tasks,
                unfiled_under(before.index_tasks, t.kind.targets(), uid),
            );
            assert(after.records == before.records.remove(i as int));
            assert(after == before.after_delete(uid));
            before.lemma_after_delete_consistent(uid);
        }
        true
    }

    /// Deletes finished tasks from the store.
    ///
    /// Each task of `uids` that is in the store and has reached a terminal
    /// status leaves the table of records and every secondary index. The
    /// others are left untouched. The next identifier does not move, so
    /// that no identifier is ever given out twice. The result is the number
    /// of tasks deleted.
    pub fn delete(&mut self, uids: &RoaringBitmap) -> (n: u64)
        requires
            old(self).wf(),
        ensures
            final(self).wf(),
            final(self)@ == old(self)@.after_delete_all(ascending_seq(bitmap_set(*uids))),
            n == old(self)@.deleted_count(ascending_seq(bitmap_set(*uids))),
            final(self)@.next_uid == old(self)@.next_uid,
    {
        let v = bitmap_members(uids);
        let mut n: u64 = 0;
        let mut j: usize = 0;
        while j < v.len()
            invariant
                j <= v.len(),
                self.wf(),
                n <= j,
                self@ == old(self)@.after_delete_all(v@.take(j as int)),
                n == old(self)@.deleted_count(v@.take(j as int)),
            decreases v.len() - j,
        {
            proof {
                assert(v@.take(j + 1).drop_last() =~= v@.take(j as int));
                assert(v@.take(j + 1).last() == v@[j as int]);
            }
            if self.delete_one(v[j]) {
                n = n + 1;
            }
            j = j + 1;
        }
        proof {
            assert(v@.take(v@.len() as int) =~= v@);
            old(self).lemma_wf_consistent();
            old(self)@.lemma_after_delete_all(v@);
        }
        n
    }

    /// The identifiers of the tasks that pass a filter, in increasing order,
    /// or in decreasing order where the filter asks for it.
    ///
    /// The answer is computed from the secondary indices alone: the buckets
    /// of each part of the filter are united, and the parts intersected.
    pub fn query(&self, q: &Query) -> (r: Vec<u32>)
        requires
            self.wf(),
        ensures
            r@ == (if q.reverse {
                ascending_seq(self@.matching(*q)).reverse()
            } else {
                ascending_seq(self@.matching(*q))
            }),
    {
        let ghost v = self@;
        proof {
            assert(v.consistent());
        }
        let mut acc = self.status.union_all();
        proof {
            assert forall|uid: u32| bitmap_set(acc).contains(uid) == v.contains(uid) by {
                if bitmap_set(acc).contains(uid) {
                    let k = choose|k: Status| (#[trigger] bucket_of(v.status, k).contains(uid));
                    v.lemma_filed_iff(v.status, by_status(), k, uid);
                }
                if v.contains(uid) {
                    let k = v.task(uid).status;
                    v.lemma_filed_iff(v.status, by_status(), k, uid);
                    assert(bucket_of(v.status, k).contains(uid));
                }
            }
        }
        if q.statuses.len() > 0 {
            let allowed = self.status.union_of(&q.statuses);
            proof {
                assert forall|uid: u32| v.contains(uid) implies (bitmap_set(allowed).contains(uid)
                    <==> q.status_ok(v.task(uid))) by {
                    assert forall|j: int| 0 <= j < q.statuses@.len() implies (bucket_of(
                        v.status,
                        q.statuses@[j]@,
                    ).contains(uid) <==> q.statuses@[j] == v.task(uid).status) by {
                        v.lemma_filed_iff(v.status, by_status(), q.statuses@[j]@, uid);
                    }
                    if q.status_ok(v.task(uid)) {
                        let j = choose|j: int|
                            0 <= j < q.statuses@.len() && (#[trigger] q.statuses@[j]) == v.task(
                                uid,
                            ).status;
                        assert(bucket_of(v.status, q.statuses@[j]@).contains(uid));
                    }
                }
            }
            acc = bitmap_intersection(&acc, &allowed);
        }
        assert(forall|uid: u32|
            bitmap_set(acc).contains(uid) <==> v.contains(uid) && q.status_ok(v.task(uid)));
        if q.kinds.len() > 0 {
            let allowed = self.kind.union_of(&q.kinds);
            proof {
                assert forall|uid: u32| v.contains(uid) implies (bitmap_set(allowed).contains(uid)
                    <==> q.kind_ok(v.task(uid))) by {
                    assert forall|j: int| 0 <= j < q.kinds@.len() implies (bucket_of(
                        v.kind,
                        q.kinds@[j]@,
                    ).contains(uid) <==> q.kinds@[j] == v.task(uid).kind.kind()) by {
                        v.lemma_filed_iff(v.kind, by_kind(), q.kinds@[j]@, uid);
                    }
                    if q.kind_ok(v.task(uid)) {
                        let j = choose|j: int|
                            0 <= j < q.kinds@.len() && (#[trigger] q.kinds@[j]) == v.task(
                                uid,
                            ).kind.kind();
                        assert(bucket_of(v.kind, q.kinds@[j]@).contains(uid));
                    }
                }
            }
            acc = bitmap_intersection(&acc, &allowed);
        }
        assert(forall|uid: u32|
            bitmap_set(acc).contains(uid) <==> v.contains(uid) && q.status_ok(v.task(uid))
                && q.kind_ok(v.task(uid)));
        if q.index_uids.len() > 0 {
            let allowed = self.index_tasks.union_of(&q.index_uids);
            proof {
                assert forall|uid: u32| v.contains(uid) implies (bitmap_set(allowed).contains(uid)
                    <==> q.index_ok(v.task(uid))) by {
                    assert forall|j: int| 0 <= j < q.index_uids@.len() implies (bucket_of(
                        v.index_tasks,
                        q.index_uids@[j]@,
                    ).contains(uid) <==> v.task(uid).kind.targets().contains(q.index_uids@[j]@)) by {
                        v.lemma_filed_iff(v.index_tasks, by_index(), q.index_uids@[j]@, uid);
                    }
                    if q.index_ok(v.task(uid)) {
                        let j = choose|j: int|
                            0 <= j < q.index_uids@.len() && v.task(uid).kind.targets().contains(
                                (#[trigger] q.index_uids@[j])@,
                            );
                        assert(bucket_of(v.index_tasks, q.index_uids@[j]@).contains(uid));
                    }
                }
            }
            acc = bitmap_intersection(&acc, &allowed);
        }
        assert(forall|uid: u32|
            bitmap_set(acc).contains(uid) <==> v.contains(uid) && q.status_ok(v.task(uid))
                && q.kind_ok(v.task(uid)) && q.index_ok(v.task(uid)));
        if q.uids.len() > 0 {
            let allowed = bitmap_of(&q.uids);
            acc = bitmap_intersection(&acc, &allowed);
        }
        assert(forall|uid: u32|
            bitmap_set(acc).contains(uid) <==> v.contains(uid) && q.status_ok(v.task(uid))
                && q.kind_ok(v.task(uid)) && q.index_ok(v.task(uid)) && q.uid_ok(v.task(uid)));
        if q.after_enqueued_at.is_some() || q.before_enqueued_at.is_some() {
            let allowed = self.enqueued_at.union_in_range(
                q.after_enqueued_at,
                q.before_enqueued_at,
            );
            proof {
                assert forall|uid: u32| v.contains(uid) implies (bitmap_set(allowed).contains(uid)
                    <==> date_matches(
                    Some(v.task(uid).enqueued_at),
                    q.after_enqueued_at,
                    q.before_enqueued_at,
                )) by {
                    let at = v.task(uid).enqueued_at;
                    v.lemma_filed_iff(v.enqueued_at, by_enqueued_at(), at, uid);
                    assert(bucket_of(v.enqueued_at, at).contains(uid));
                    if bitmap_set(allowed).contains(uid) {
                        let k = choose|k: i128|
                            in_range(k, q.after_enqueued_at, q.before_enqueued_at) && (
                            #[trigger] bucket_of(v.enqueued_at, k)).contains(uid);
                        v.lemma_filed_iff(v.enqueued_at, by_enqueued_at(), k, uid);
                    }
                }
            }
            acc = bitmap_intersection(&acc, &allowed);
        }
        if q.after_started_at.is_some() || q.before_started_at.is_some() {
            let allowed = self.started_at.union_in_range(q.after_started_at, q.before_started_at);
            proof {
                assert forall|uid: u32| v.contains(uid) implies (bitmap_set(allowed).contains(uid)
                    <==> date_matches(
                    v.task(uid).started_at,
                    q.after_started_at,
                    q.before_started_at,
                )) by {
                    if v.task(uid).started_at is Some {
                        let at = v.task(uid).started_at->0;
                        v.lemma_filed_iff(v.started_at, by_started_at(), at, uid);
                        assert(bucket_of(v.started_at, at).contains(uid));
                    }
                    if bitmap_set(allowed).contains(uid) {
                        let k = choose|k: i128|
                            in_range(k, q.after_started_at, q.before_started_at) && (
                            #[trigger] bucket_of(v.started_at, k)).contains(uid);
                        v.lemma_filed_iff(v.started_at, by_started_at(), k, uid);
                    }
                }
            }
            acc = bitmap_intersection(&acc, &allowed);
        }
        if q.after_finished_at.is_some() || q.before_finished_at.is_some() {
            let allowed = self.finished_at.union_in_range(
                q.after_finished_at,
                q.before_finished_at,
            );
            proof {
                assert forall|uid: u32| v.contains(uid) implies (bitmap_set(allowed).contains(uid)
                    <==> date_matches(
                    v.task(uid).finished_at,
                    q.after_finished_at,
                    q.before_finished_at,
                )) by {
                    if v.task(uid).finished_at is Some {
                        let at = v.task(uid).finished_at->0;
                        v.lemma_filed_iff(v.finished_at, by_finished_at(), at, uid);
                        assert(bucket_of(v.finished_at, at).contains(uid));
                    }
                    if bitmap_set(allowed).contains(uid) {
                        let k = choose|k: i128|
                            in_range(k, q.after_finished_at, q.before_finished_at) && (
                            #[trigger] bucket_of(v.finished_at, k)).contains(uid);
                        v.lemma_filed_iff(v.finished_at, by_finished_at(), k, uid);
                    }
                }
            }
            acc = bitmap_intersection(&acc, &allowed);
        }
        proof {
            assert(bitmap_set(acc) =~= v.matching(*q));
        }
        let members = bitmap_members(&acc);
        if q.reverse {
            reversed(&members)
        } else {
            members
        }
    }
}

/// Files `uid` under each index that the operation targets.
fn file_targets(table: &mut BitmapTable<String>, kind: &KindWithContent, uid: u32)
    requires
        old(table).wf(),
    ensures
        final(table).wf(),
        forall|name: Seq<char>| (#[trigger] bucket_of(final(table)@, name)) == (if kind.targets().contains(name) {
                bucket_of(old(table)@, name).insert(uid)
            } else {
                bucket_of(old(table)@, name)
            }),
{
    match kind {
        KindWithContent::IndexSwap { swaps } => {
            let mut i: usize = 0;
            while i < swaps.len()
                invariant
                    i <= swaps.len(),
                    table.wf(),
                    forall|name: Seq<char>| (#[trigger] bucket_of(table@, name)) == (if swap_names(swaps@.take(i as int)).contains(
                            name,
                        ) {
                            bucket_of(old(table)@, name).insert(uid)
                        } else {
                            bucket_of(old(table)@, name)
                        }),
                decreases swaps.len() - i,
            {
                table.insert(swaps[i].indexes.0.clone(), uid);
                table.insert(swaps[i].indexes.1.clone(), uid);
                proof {
                    let done = swaps@.take(i as int);
                    let next = swaps@.take(i + 1);
                    assert forall|name: Seq<char>|
                        swap_names(next).contains(name) == (swap_names(done).contains(name)
                            || name == swaps@[i as int].indexes.0@ || name
                            == swaps@[i as int].indexes.1@) by {
                        if swap_names(done).contains(name) {
                            let j = choose|j: int|
                                0 <= j < done.len() && (done[j].indexes.0@ == name
                                    || done[j].indexes.1@ == name);
                            assert(next[j] == done[j]);
                        }
                        assert(next[i as int] == swaps@[i as int]);
                        if swap_names(next).contains(name) {
                            let j = choose|j: int|
                                0 <= j < next.len() && (next[j].indexes.0@ == name
                                    || next[j].indexes.1@ == name);
                            if j < i {
                                assert(done[j] == next[j]);
                            }
                        }
                    }
                    assert forall|name: Seq<char>| (#[trigger] bucket_of(table@, name)) == (if swap_names(next).contains(name) {
                            bucket_of(old(table)@, name).insert(uid)
                        } else {
                            bucket_of(old(table)@, name)
                        }) by {
                        assert(bucket_of(old(table)@, name).insert(uid).insert(uid)
                            =~= bucket_of(old(table)@, name).insert(uid));
                    }
                }
                i = i + 1;
            }
            proof {
                assert(swaps@.take(swaps@.len() as int) =~= swaps@);
            }
        },
        _ => {
            match kind.single_index() {
                Some(name) => {
                    table.insert(name.clone(), uid);
                    assert(kind.targets() =~= set![name@]);
                },
                None => {
                    assert(kind.targets() =~= Set::<Seq<char>>::empty());
                },
            }
        },
    }
}

/// Takes `uid` out of the bucket of each index that the operation targets.
fn unfile_targets(table: &mut BitmapTable<String>, kind: &KindWithContent, uid: u32)
    requires
        old(table).wf(),
    ensures
        final(table).wf(),
        forall|name: Seq<char>|
            (#[trigger] bucket_of(final(table)@, name)) == (if kind.targets().contains(name) {
                bucket_of(old(table)@, name).remove(uid)
            } else {
                bucket_of(old(table)@, name)
            }),
{
    match kind {
        KindWithContent::IndexSwap { swaps } => {
            let mut i: usize = 0;
            while i < swaps.len()
                invariant
                    i <= swaps.len(),
                    table.wf(),
                    forall|name: Seq<char>|
                        (#[trigger] bucket_of(table@, name)) == (if swap_names(
                            swaps@.take(i as int),
                        ).contains(name) {
                            bucket_of(old(table)@, name).remove(uid)
                        } else {
                            bucket_of(old(table)@, name)
                        }),
                decreases swaps.len() - i,
            {
                table.remove(&swaps[i].indexes.0, uid);
                table.remove(&swaps[i].indexes.1, uid);
                proof {
                    let done = swaps@.take(i as int);
                    let next = swaps@.take(i + 1);
                    assert forall|name: Seq<char>|
                        swap_names(next).contains(name) == (swap_names(done).contains(name)
                            || name == swaps@[i as int].indexes.0@ || name
                            == swaps@[i as int].indexes.1@) by {
                        if swap_names(done).contains(name) {
                            let j = choose|j: int|
                                0 <= j < done.len() && (done[j].indexes.0@ == name
                                    || done[j].indexes.1@ == name);
                            assert(next[j] == done[j]);
                        }
                        assert(next[i as int] == swaps@[i as int]);
                        if swap_names(next).contains(name) {
                            let j = choose|j: int|
                                0 <= j < next.len() && (next[j].indexes.0@ == name
                                    || next[j].indexes.1@ == name);
                            if j < i {
                                assert(done[j] == next[j]);
                            }
                        }
                    }
                    assert forall|name: Seq<char>|
                        (#[trigger] bucket_of(table@, name)) == (if swap_names(next).contains(name) {
                            bucket_of(old(table)@, name).remove(uid)
                        } else {
                            bucket_of(old(table)@, name)
                        }) by {
                        assert(bucket_of(old(table)@, name).remove(uid).remove(uid)
                            =~= bucket_of(old(table)@, name).remove(uid));
                    }
                }
                i = i + 1;
            }
            proof {
                assert(swaps@.take(swaps@.len() as int) =~= swaps@);
            }
        },
        _ => {
            match kind.single_index() {
                Some(name) => {
                    table.remove(name, uid);
                    assert(kind.targets() =~= set![name@]);
                },
                None => {
                    assert(kind.targets() =~= Set::<Seq<char>>::empty());
                },
            }
        },
    }
}

/// A bitmap of the given integers.
pub fn bitmap_of(uids: &Vec<u32>) -> (r: RoaringBitmap)
    ensures
        bitmap_set(r) == Set::new(
            |uid: u32| exists|j: int| 0 <= j < uids@.len() && (#[trigger] uids@[j]) == uid,
        ),
{
    let mut acc = RoaringBitmap::new();
    let mut i: usize = 0;
    while i < uids.len()
        invariant
            i <= uids@.len(),
            bitmap_set(acc) == Set::new(
                |uid: u32| exists|j: int| 0 <= j < i && (#[trigger] uids@[j]) == uid,
            ),
        decreases uids.len() - i,
    {
        let ghost before = bitmap_set(acc);
        let ghost want = Set::new(
            |uid: u32| exists|j: int| 0 <= j < i + 1 && (#[trigger] uids@[j]) == uid,
        );
        let _ = acc.insert(uids[i]);
        proof {
            assert forall|uid: u32| bitmap_set(acc).contains(uid) == want.contains(uid) by {
                if before.contains(uid) {
                    let j = choose|j: int| 0 <= j < i && (#[trigger] uids@[j]) == uid;
                    assert(uids@[j] == uid);
                }
                if uid == uids@[i as int] {
                }
                if want.contains(uid) {
                    let j = choose|j: int| 0 <= j < i + 1 && (#[trigger] uids@[j]) == uid;
                    if j < i {
                        assert(before.contains(uid));
                    }
                }
            }
            assert(bitmap_set(acc) =~= want);
        }
        i = i + 1;
    }
    acc
}

/// The items of a list in the opposite order.
pub fn reversed(v: &Vec<u32>) -> (r: Vec<u32>)
    ensures
        r@ == v@.reverse(),
{
    let mut out: Vec<u32> = Vec::new();
    let mut i: usize = v.len();
    while i > 0
        invariant
            i <= v@.len(),
            out@.len() == v@.len() - i,
            forall|j: int| 0 <= j < out@.len() ==> out@[j] == v@[v@.len() - 1 - j],
        decreases i,
    {
        i = i - 1;
        out.push(v[i]);
    }
    assert(out@ =~= v@.reverse());
    out
}


} // verus!
