//! What a task store holds, seen as mathematical values: the records, the
//! secondary indices as maps, the rules that keep them consistent, and what
//! each operation of the store makes of them.

use crate::query::Query;
use crate::table::{
    bucket_of, canonical, filed, filed_under, lemma_filed, lemma_filed_under,
    lemma_same_buckets, lemma_unfiled, lemma_unfiled_under, unfiled, unfiled_under,
};
use crate::task::{Details, Kind, KindWithContent, ResponseError, Status, Task};
use vstd::prelude::*;

verus! {

/// The details have the shape that belongs to the kind of the operation.
pub open spec fn details_fit(kind: KindWithContent, details: Option<Details>) -> bool {
    match kind {
        KindWithContent::DocumentAdditionOrUpdate { .. } => details matches Some(
            Details::DocumentAdditionOrUpdate { .. },
        ),
        KindWithContent::DocumentDeletion { .. } => details matches Some(
            Details::DocumentDeletion { .. },
        ),
        KindWithContent::DocumentDeletionByFilter { .. } => details matches Some(
            Details::DocumentDeletionByFilter { .. },
        ),
        KindWithContent::DocumentClear { .. } => details matches Some(Details::ClearAll { .. }),
        KindWithContent::SettingsUpdate { .. } => details matches Some(
            Details::SettingsUpdate { .. },
        ),
        KindWithContent::IndexDeletion { .. } => details matches Some(Details::ClearAll { .. }),
        KindWithContent::IndexCreation { .. } => details matches Some(Details::IndexInfo { .. }),
        KindWithContent::IndexUpdate { .. } => details matches Some(Details::IndexInfo { .. }),
        KindWithContent::IndexSwap { .. } => details matches Some(Details::IndexSwap { .. }),
        KindWithContent::TaskCancelation { .. } => details matches Some(
            Details::TaskCancelation { .. },
        ),
        KindWithContent::TaskDeletion { .. } => details matches Some(Details::TaskDeletion { .. }),
        KindWithContent::DumpCreation => details matches Some(Details::Dump { .. }),
        KindWithContent::SnapshotCreation => details is None,
    }
}

/// The details with the count of what execution did set to `count`. Only
/// that count changes; details without such a count stay as they are.
pub open spec fn refined(details: Option<Details>, count: u64) -> Option<Details> {
    match details {
        Some(Details::DocumentAdditionOrUpdate { received_documents, indexed_documents }) => Some(
            Details::DocumentAdditionOrUpdate { received_documents, indexed_documents: Some(count) },
        ),
        Some(Details::DocumentDeletion { provided_ids, deleted_documents }) => Some(
            Details::DocumentDeletion { provided_ids, deleted_documents: Some(count) },
        ),
        Some(Details::DocumentDeletionByFilter { original_filter, deleted_documents }) => Some(
            Details::DocumentDeletionByFilter { original_filter, deleted_documents: Some(count) },
        ),
        Some(Details::ClearAll { deleted_documents }) => Some(
            Details::ClearAll { deleted_documents: Some(count) },
        ),
        Some(Details::TaskCancelation { matched_tasks, canceled_tasks, original_filter }) => Some(
            Details::TaskCancelation { matched_tasks, canceled_tasks: Some(count), original_filter },
        ),
        Some(Details::TaskDeletion { matched_tasks, deleted_tasks, original_filter }) => Some(
            Details::TaskDeletion { matched_tasks, deleted_tasks: Some(count), original_filter },
        ),
        other => other,
    }
}

/// Refining the count keeps the shape of the details.
pub proof fn lemma_refined_fits(kind: KindWithContent, details: Option<Details>, count: u64)
    requires
        details_fit(kind, details),
    ensures
        details_fit(kind, refined(details, count)),
{
}

/// What holds of every task record at every moment of its life.
pub open spec fn task_wf(t: Task) -> bool {
    &&& t.status == Status::Enqueued ==> t.started_at is None && t.finished_at is None
    &&& t.status == Status::Processing ==> t.started_at is Some && t.finished_at is None
    &&& t.status.terminal() ==> t.finished_at is Some
    &&& t.status == Status::Succeeded || t.status == Status::Failed ==> t.started_at is Some
    &&& t.canceled_by is Some ==> t.status == Status::Canceled
    &&& details_fit(t.kind, t.details)
}

/// The record of a task after it has passed to `new_status` at the date
/// `timestamp`. Entering `Processing` sets the date of start, reaching a
/// terminal status sets the date of end; a count refines the details, an
/// error is recorded; the identifier, the kind, the date of enqueuing and
/// the canceling task stay as they are.
pub open spec fn transitioned(
    t: Task,
    new_status: Status,
    timestamp: i128,
    count: Option<u64>,
    error: Option<ResponseError>,
) -> Task {
    Task {
        uid: t.uid,
        enqueued_at: t.enqueued_at,
        started_at: if new_status == Status::Processing {
            Some(timestamp)
        } else {
            t.started_at
        },
        finished_at: if new_status.terminal() {
            Some(timestamp)
        } else {
            t.finished_at
        },
        error: if error is Some {
            error
        } else {
            t.error
        },
        canceled_by: t.canceled_by,
        details: match count {
            Some(c) => refined(t.details, c),
            None => t.details,
        },
        status: new_status,
        kind: t.kind,
    }
}

/// The record of a task after the task `canceling` has canceled it at the
/// date `now`.
pub open spec fn canceled(t: Task, canceling: u32, now: i128) -> Task {
    Task { status: Status::Canceled, canceled_by: Some(canceling), finished_at: Some(now), ..t }
}

/// The record of a task whose start of processing has been undone.
pub open spec fn reverted(t: Task) -> Task {
    Task { status: Status::Enqueued, started_at: None, ..t }
}

/// An identifier that is filed under `from` alone is, after it has been
/// moved to `to`, filed under `to` alone.
pub proof fn lemma_refiled<K>(
    before: Map<K, Set<u32>>,
    from: K,
    to: K,
    uid: u32,
    after: Map<K, Set<u32>>,
)
    requires
        after == filed(unfiled(before, from, uid), to, uid),
        forall|k: K| (#[trigger] bucket_of(before, k).contains(uid)) ==> k == from,
    ensures
        forall|k: K|
            (#[trigger] bucket_of(after, k)) == (if k == to {
                bucket_of(before, k).insert(uid)
            } else {
                bucket_of(before, k).remove(uid)
            }),
{
    let mid = unfiled(before, from, uid);
    lemma_unfiled(before, from, uid);
    lemma_filed(mid, to, uid);
    assert forall|k: K|
        (#[trigger] bucket_of(after, k)) == (if k == to {
            bucket_of(before, k).insert(uid)
        } else {
            bucket_of(before, k).remove(uid)
        }) by {
        let b = bucket_of(before, k);
        assert(bucket_of(mid, k) == if k == from { b.remove(uid) } else { b });
        if k == to {
            assert(b.remove(uid).insert(uid) =~= b.insert(uid));
        } else if k != from {
            assert(!b.contains(uid));
            assert(b.remove(uid) =~= b);
        }
    }
}

/// An identifier that is filed nowhere is, after it has been filed under
/// `to`, filed under `to` alone.
pub proof fn lemma_filed_fresh<K>(before: Map<K, Set<u32>>, to: K, uid: u32, after: Map<K, Set<u32>>)
    requires
        after == filed(before, to, uid),
        forall|k: K| !(#[trigger] bucket_of(before, k).contains(uid)),
    ensures
        forall|k: K|
            (#[trigger] bucket_of(after, k)) == (if k == to {
                bucket_of(before, k).insert(uid)
            } else {
                bucket_of(before, k).remove(uid)
            }),
{
    lemma_filed(before, to, uid);
    assert forall|k: K|
        (#[trigger] bucket_of(after, k)) == (if k == to {
            bucket_of(before, k).insert(uid)
        } else {
            bucket_of(before, k).remove(uid)
        }) by {
        let b = bucket_of(before, k);
        assert(!b.contains(uid));
        assert(b.remove(uid) =~= b);
    }
}

/// Whether some record has this identifier.
pub open spec fn has_uid(records: Seq<Task>, uid: u32) -> bool {
    exists|i: int| 0 <= i < records.len() && #[trigger] records[i].uid == uid
}

/// A secondary index files only identifiers of the record table.
pub open spec fn table_closed<K>(table: Map<K, Set<u32>>, records: Seq<Task>) -> bool {
    forall|k: K, uid: u32| (#[trigger] bucket_of(table, k).contains(uid)) ==> has_uid(records, uid)
}

/// A secondary index files every record under exactly the keys that
/// `files` gives for it.
pub open spec fn table_agrees<K>(
    table: Map<K, Set<u32>>,
    records: Seq<Task>,
    files: spec_fn(Task, K) -> bool,
) -> bool {
    forall|i: int, k: K|
        0 <= i < records.len() ==> ((#[trigger] bucket_of(table, k).contains(records[i].uid))
            <==> files(records[i], k))
}

/// A task is filed under its status.
pub open spec fn by_status() -> spec_fn(Task, Status) -> bool {
    |t: Task, k: Status| t.status == k
}

/// A task is filed under its kind.
pub open spec fn by_kind() -> spec_fn(Task, Kind) -> bool {
    |t: Task, k: Kind| t.kind.kind() == k
}

/// A task is filed under the name of each index that it targets.
pub open spec fn by_index() -> spec_fn(Task, Seq<char>) -> bool {
    |t: Task, k: Seq<char>| t.kind.targets().contains(k)
}

/// A canceled task is filed under the task that canceled it.
pub open spec fn by_canceler() -> spec_fn(Task, u32) -> bool {
    |t: Task, k: u32| t.canceled_by == Some(k)
}

/// A task is filed under the date at which it was enqueued.
pub open spec fn by_enqueued_at() -> spec_fn(Task, i128) -> bool {
    |t: Task, k: i128| t.enqueued_at == k
}

/// A task is filed under the date at which its processing started.
pub open spec fn by_started_at() -> spec_fn(Task, i128) -> bool {
    |t: Task, k: i128| t.started_at == Some(k)
}

/// A task is filed under the date at which it was finished.
pub open spec fn by_finished_at() -> spec_fn(Task, i128) -> bool {
    |t: Task, k: i128| t.finished_at == Some(k)
}

/// A secondary index stays closed and in agreement when a record with a
/// new identifier is appended and filed under its keys.
pub proof fn lemma_table_after_push<K>(
    before: Map<K, Set<u32>>,
    after: Map<K, Set<u32>>,
    records: Seq<Task>,
    t: Task,
    files: spec_fn(Task, K) -> bool,
)
    requires
        table_closed(before, records),
        table_agrees(before, records, files),
        !has_uid(records, t.uid),
        forall|k: K|
            (#[trigger] bucket_of(after, k)) == (if files(t, k) {
                bucket_of(before, k).insert(t.uid)
            } else {
                bucket_of(before, k)
            }),
    ensures
        table_closed(after, records.push(t)),
        table_agrees(after, records.push(t), files),
{
    let next = records.push(t);
    assert(next[records.len() as int].uid == t.uid);
    assert forall|k: K, uid: u32| (#[trigger] bucket_of(after, k).contains(uid)) implies has_uid(
        next,
        uid,
    ) by {
        if uid != t.uid {
            assert(bucket_of(before, k).contains(uid));
            let i = choose|i: int| 0 <= i < records.len() && #[trigger] records[i].uid == uid;
            assert(next[i].uid == uid);
        }
    }
    assert forall|i: int, k: K| 0 <= i < next.len() implies ((#[trigger] bucket_of(
        after,
        k,
    ).contains(next[i].uid)) <==> files(next[i], k)) by {
        if i < records.len() {
            assert(next[i] == records[i]);
            assert(records[i].uid != t.uid);
            assert(bucket_of(before, k).contains(records[i].uid) <==> files(records[i], k));
        } else {
            assert(!bucket_of(before, k).contains(t.uid));
        }
    }
}

/// A secondary index stays closed and in agreement when one record is
/// replaced by a record of the same identifier and filed anew: under the
/// keys of the new record, and under no others.
pub proof fn lemma_table_after_update<K>(
    before: Map<K, Set<u32>>,
    after: Map<K, Set<u32>>,
    records: Seq<Task>,
    at: int,
    t: Task,
    files: spec_fn(Task, K) -> bool,
)
    requires
        0 <= at < records.len(),
        records[at].uid == t.uid,
        forall|j: int| 0 <= j < records.len() && j != at ==> (#[trigger] records[j]).uid != t.uid,
        table_closed(before, records),
        table_agrees(before, records, files),
        forall|k: K|
            (#[trigger] bucket_of(after, k)) == (if files(t, k) {
                bucket_of(before, k).insert(t.uid)
            } else {
                bucket_of(before, k).remove(t.uid)
            }),
    ensures
        table_closed(after, records.update(at, t)),
        table_agrees(after, records.update(at, t), files),
{
    let next = records.update(at, t);
    assert(next[at].uid == t.uid);
    assert forall|k: K, uid: u32| (#[trigger] bucket_of(after, k).contains(uid)) implies has_uid(
        next,
        uid,
    ) by {
        if uid != t.uid {
            assert(bucket_of(before, k).contains(uid));
            let i = choose|i: int| 0 <= i < records.len() && #[trigger] records[i].uid == uid;
            assert(next[i].uid == uid);
        }
    }
    assert forall|i: int, k: K| 0 <= i < next.len() implies ((#[trigger] bucket_of(
        after,
        k,
    ).contains(next[i].uid)) <==> files(next[i], k)) by {
        if i != at {
            assert(next[i] == records[i]);
            assert(records[i].uid != t.uid);
            assert(bucket_of(before, k).contains(records[i].uid) <==> files(records[i], k));
        }
    }
}

/// A secondary index stays closed and in agreement when one record is
/// removed and its identifier is taken out of every bucket.
pub proof fn lemma_table_after_remove<K>(
    before: Map<K, Set<u32>>,
    after: Map<K, Set<u32>>,
    records: Seq<Task>,
    at: int,
    files: spec_fn(Task, K) -> bool,
)
    requires
        0 <= at < records.len(),
        forall|j: int|
            0 <= j < records.len() && j != at ==> (#[trigger] records[j]).uid != records[at].uid,
        table_closed(before, records),
        table_agrees(before, records, files),
        forall|k: K| (#[trigger] bucket_of(after, k)) == bucket_of(before, k).remove(records[at].uid),
    ensures
        table_closed(after, records.remove(at)),
        table_agrees(after, records.remove(at), files),
{
    let next = records.remove(at);
    let gone = records[at].uid;
    assert forall|k: K, uid: u32| (#[trigger] bucket_of(after, k).contains(uid)) implies has_uid(
        next,
        uid,
    ) by {
        assert(bucket_of(before, k).contains(uid));
        let i = choose|i: int| 0 <= i < records.len() && #[trigger] records[i].uid == uid;
        if i < at {
            assert(next[i].uid == uid);
        } else {
            assert(next[i - 1].uid == uid);
        }
    }
    assert forall|i: int, k: K| 0 <= i < next.len() implies ((#[trigger] bucket_of(
        after,
        k,
    ).contains(next[i].uid)) <==> files(next[i], k)) by {
        let i0 = if i < at { i } else { i + 1 };
        assert(next[i] == records[i0]);
        assert(records[i0].uid != gone);
        assert(bucket_of(before, k).contains(records[i0].uid) <==> files(records[i0], k));
    }
}

/// An identifier that is filed under `from` alone is, after it has been
/// taken out from there, filed nowhere.
pub proof fn lemma_unfiled_everywhere<K>(
    before: Map<K, Set<u32>>,
    from: K,
    uid: u32,
    after: Map<K, Set<u32>>,
)
    requires
        after == unfiled(before, from, uid),
        forall|k: K| (#[trigger] bucket_of(before, k).contains(uid)) ==> k == from,
    ensures
        forall|k: K| (#[trigger] bucket_of(after, k)) == bucket_of(before, k).remove(uid),
{
    lemma_unfiled(before, from, uid);
    assert forall|k: K| (#[trigger] bucket_of(after, k)) == bucket_of(before, k).remove(uid) by {
        let b = bucket_of(before, k);
        if k != from {
            assert(!b.contains(uid));
            assert(b.remove(uid) =~= b);
        }
    }
}

/// To take an identifier that is filed nowhere out of every bucket changes
/// no bucket.
pub proof fn lemma_filed_nowhere<K>(table: Map<K, Set<u32>>, uid: u32)
    requires
        forall|k: K| !(#[trigger] bucket_of(table, k).contains(uid)),
    ensures
        forall|k: K| (#[trigger] bucket_of(table, k)) == bucket_of(table, k).remove(uid),
{
    assert forall|k: K| (#[trigger] bucket_of(table, k)) == bucket_of(table, k).remove(uid) by {
        let b = bucket_of(table, k);
        assert(!b.contains(uid));
        assert(b.remove(uid) =~= b);
    }
}

/// A secondary index that is left alone stays closed and in agreement when
/// one record is replaced by a record that is filed under the same keys.
pub proof fn lemma_table_untouched<K>(
    table: Map<K, Set<u32>>,
    records: Seq<Task>,
    at: int,
    t: Task,
    files: spec_fn(Task, K) -> bool,
)
    requires
        0 <= at < records.len(),
        records[at].uid == t.uid,
        table_closed(table, records),
        table_agrees(table, records, files),
        forall|k: K| (#[trigger] bucket_of(table, k).contains(t.uid)) <==> files(t, k),
    ensures
        table_closed(table, records.update(at, t)),
        table_agrees(table, records.update(at, t), files),
{
    let next = records.update(at, t);
    assert forall|k: K, uid: u32| (#[trigger] bucket_of(table, k).contains(uid)) implies has_uid(
        next,
        uid,
    ) by {
        let i = choose|i: int| 0 <= i < records.len() && #[trigger] records[i].uid == uid;
        assert(next[i].uid == uid);
    }
    assert forall|i: int, k: K| 0 <= i < next.len() implies ((#[trigger] bucket_of(
        table,
        k,
    ).contains(next[i].uid)) <==> files(next[i], k)) by {
        if i != at {
            assert(next[i] == records[i]);
            assert(bucket_of(table, k).contains(records[i].uid) <==> files(records[i], k));
        }
    }
}

/// What a task store holds: the records in the order of their identifiers,
/// the identifier that the next task will get, and the secondary indices,
/// each a map from a key to the set of the identifiers filed under it.
pub struct StoreView {
    pub records: Seq<Task>,
    pub next_uid: u32,
    pub status: Map<Status, Set<u32>>,
    pub kind: Map<Kind, Set<u32>>,
    pub index_tasks: Map<Seq<char>, Set<u32>>,
    pub canceled_by: Map<u32, Set<u32>>,
    pub enqueued_at: Map<i128, Set<u32>>,
    pub started_at: Map<i128, Set<u32>>,
    pub finished_at: Map<i128, Set<u32>>,
}

impl StoreView {
    /// Whether the record table holds a task with this identifier.
    pub open spec fn contains(self, uid: u32) -> bool {
        has_uid(self.records, uid)
    }

    /// The position of the record with this identifier.
    pub open spec fn index_of(self, uid: u32) -> int {
        choose|i: int| 0 <= i < self.records.len() && #[trigger] self.records[i].uid == uid
    }

    /// The record with this identifier.
    pub open spec fn task(self, uid: u32) -> Task {
        self.records[self.index_of(uid)]
    }

    /// The identifiers of all the records.
    pub open spec fn uids(self) -> Set<u32> {
        Set::new(|uid: u32| self.contains(uid))
    }

    /// The records stand in the strict order of their identifiers, all of
    /// which lie below the next identifier, and each record is well formed.
    pub open spec fn records_wf(self) -> bool {
        &&& forall|i: int, j: int|
            0 <= i < j < self.records.len() ==> (#[trigger] self.records[i]).uid
                < (#[trigger] self.records[j]).uid
        &&& forall|i: int|
            0 <= i < self.records.len() ==> (#[trigger] self.records[i]).uid < self.next_uid
        &&& forall|i: int| 0 <= i < self.records.len() ==> task_wf(#[trigger] self.records[i])
    }

    /// Every secondary index files only identifiers of the record table.
    pub open spec fn indices_closed(self) -> bool {
        &&& table_closed(self.status, self.records)
        &&& table_closed(self.kind, self.records)
        &&& table_closed(self.index_tasks, self.records)
        &&& table_closed(self.canceled_by, self.records)
        &&& table_closed(self.enqueued_at, self.records)
        &&& table_closed(self.started_at, self.records)
        &&& table_closed(self.finished_at, self.records)
    }

    /// Every record is filed in each secondary index under exactly the keys
    /// that its fields give: its status, its kind, the indexes that it
    /// targets, the task that canceled it, and its three dates.
    pub open spec fn indices_agree(self) -> bool {
        &&& table_agrees(self.status, self.records, by_status())
        &&& table_agrees(self.kind, self.records, by_kind())
        &&& table_agrees(self.index_tasks, self.records, by_index())
        &&& table_agrees(self.canceled_by, self.records, by_canceler())
        &&& table_agrees(self.enqueued_at, self.records, by_enqueued_at())
        &&& table_agrees(self.started_at, self.records, by_started_at())
        &&& table_agrees(self.finished_at, self.records, by_finished_at())
    }

    /// No secondary index keeps an empty bucket.
    pub open spec fn indices_canonical(self) -> bool {
        &&& canonical(self.status)
        &&& canonical(self.kind)
        &&& canonical(self.index_tasks)
        &&& canonical(self.canceled_by)
        &&& canonical(self.enqueued_at)
        &&& canonical(self.started_at)
        &&& canonical(self.finished_at)
    }

    /// The identifiers of the tasks that pass a filter.
    pub open spec fn matching(self, q: Query) -> Set<u32> {
        Set::new(|uid: u32| self.contains(uid) && q.matches(self.task(uid)))
    }

    /// An identifier is filed under a key exactly when its record is in the
    /// table of records and is to be filed under that key.
    pub proof fn lemma_filed_iff<K>(
        self,
        table: Map<K, Set<u32>>,
        files: spec_fn(Task, K) -> bool,
        k: K,
        uid: u32,
    )
        requires
            self.records_wf(),
            table_closed(table, self.records),
            table_agrees(table, self.records, files),
        ensures
            bucket_of(table, k).contains(uid) <==> (self.contains(uid) && files(self.task(uid), k)),
    {
        if self.contains(uid) {
            let i = self.index_of(uid);
            self.lemma_task_at(i);
            assert(bucket_of(table, k).contains(self.records[i].uid) <==> files(
                self.records[i],
                k,
            ));
        }
    }

    /// The records and the secondary indices tell the same story.
    pub open spec fn consistent(self) -> bool {
        &&& self.records_wf()
        &&& self.indices_canonical()
        &&& self.indices_closed()
        &&& self.indices_agree()
    }

    /// The store after a task of the given kind has been enqueued at the
    /// date `now`: the task gets the next identifier and the status
    /// `Enqueued`, and is filed under its status, its kind, its date and
    /// each index that it targets.
    pub open spec fn after_enqueue(
        self,
        kind: KindWithContent,
        details: Option<Details>,
        now: i128,
    ) -> StoreView {
        let uid = self.next_uid;
        StoreView {
            records: self.records.push(
                Task {
                    uid,
                    enqueued_at: now,
                    started_at: None,
                    finished_at: None,
                    error: None,
                    canceled_by: None,
                    details,
                    status: Status::Enqueued,
                    kind,
                },
            ),
            next_uid: (uid + 1) as u32,
            status: filed(self.status, Status::Enqueued, uid),
            kind: filed(self.kind, kind.kind(), uid),
            index_tasks: filed_under(self.index_tasks, kind.targets(), uid),
            enqueued_at: filed(self.enqueued_at, now, uid),
            ..self
        }
    }

    /// The identifiers filed under any status.
    pub open spec fn all_by_status(self) -> Set<u32> {
        bucket_of(self.status, Status::Enqueued) + bucket_of(self.status, Status::Processing)
            + bucket_of(self.status, Status::Succeeded) + bucket_of(self.status, Status::Failed)
            + bucket_of(self.status, Status::Canceled)
    }

    /// The identifiers filed under any kind.
    pub open spec fn all_by_kind(self) -> Set<u32> {
        bucket_of(self.kind, Kind::DocumentAdditionOrUpdate) + bucket_of(
            self.kind,
            Kind::DocumentDeletion,
        ) + bucket_of(self.kind, Kind::SettingsUpdate) + bucket_of(self.kind, Kind::IndexCreation)
            + bucket_of(self.kind, Kind::IndexDeletion) + bucket_of(self.kind, Kind::IndexUpdate)
            + bucket_of(self.kind, Kind::IndexSwap) + bucket_of(self.kind, Kind::TaskCancelation)
            + bucket_of(self.kind, Kind::TaskDeletion) + bucket_of(self.kind, Kind::DumpCreation)
            + bucket_of(self.kind, Kind::SnapshotCreation)
    }

    /// Every task of the record table is filed under its own status and
    /// under no other.
    pub proof fn lemma_filed_under_own_status(self, uid: u32)
        requires
            self.consistent(),
            self.contains(uid),
        ensures
            forall|s: Status|
                bucket_of(self.status, s).contains(uid) <==> s == self.task(uid).status,
    {
        assert forall|s: Status|
            bucket_of(self.status, s).contains(uid) <==> s == self.task(uid).status by {
            self.lemma_filed_iff(self.status, by_status(), s, uid);
        }
    }

    /// No identifier is filed under two statuses.
    pub proof fn lemma_status_buckets_disjoint(self, uid: u32, a: Status, b: Status)
        requires
            self.consistent(),
            bucket_of(self.status, a).contains(uid),
            bucket_of(self.status, b).contains(uid),
        ensures
            a == b,
    {
        self.lemma_filed_iff(self.status, by_status(), a, uid);
        self.lemma_filed_iff(self.status, by_status(), b, uid);
    }

    /// The buckets of the five statuses together hold exactly the
    /// identifiers of the record table.
    pub proof fn lemma_status_closure(self)
        requires
            self.consistent(),
        ensures
            self.all_by_status() == self.uids(),
    {
        assert forall|uid: u32| self.all_by_status().contains(uid) == self.uids().contains(uid) by {
            self.lemma_filed_iff(self.status, by_status(), Status::Enqueued, uid);
            self.lemma_filed_iff(self.status, by_status(), Status::Processing, uid);
            self.lemma_filed_iff(self.status, by_status(), Status::Succeeded, uid);
            self.lemma_filed_iff(self.status, by_status(), Status::Failed, uid);
            self.lemma_filed_iff(self.status, by_status(), Status::Canceled, uid);
        }
        assert(self.all_by_status() =~= self.uids());
    }

    /// The buckets of all the kinds together hold exactly the identifiers
    /// of the record table.
    pub proof fn lemma_kind_closure(self)
        requires
            self.consistent(),
        ensures
            self.all_by_kind() == self.uids(),
    {
        assert forall|uid: u32| self.all_by_kind().contains(uid) == self.uids().contains(uid) by {
            self.lemma_filed_iff(self.kind, by_kind(), Kind::DocumentAdditionOrUpdate, uid);
            self.lemma_filed_iff(self.kind, by_kind(), Kind::DocumentDeletion, uid);
            self.lemma_filed_iff(self.kind, by_kind(), Kind::SettingsUpdate, uid);
            self.lemma_filed_iff(self.kind, by_kind(), Kind::IndexCreation, uid);
            self.lemma_filed_iff(self.kind, by_kind(), Kind::IndexDeletion, uid);
            self.lemma_filed_iff(self.kind, by_kind(), Kind::IndexUpdate, uid);
            self.lemma_filed_iff(self.kind, by_kind(), Kind::IndexSwap, uid);
            self.lemma_filed_iff(self.kind, by_kind(), Kind::TaskCancelation, uid);
            self.lemma_filed_iff(self.kind, by_kind(), Kind::TaskDeletion, uid);
            self.lemma_filed_iff(self.kind, by_kind(), Kind::DumpCreation, uid);
            self.lemma_filed_iff(self.kind, by_kind(), Kind::SnapshotCreation, uid);
        }
        assert(self.all_by_kind() =~= self.uids());
    }

    /// A task that is asked to be canceled is, from then on, in a terminal
    /// status or not in the store.
    pub proof fn lemma_cancel_settles(self, uid: u32, canceling: u32, now: i128)
        requires
            self.consistent(),
        ensures
            !self.after_cancel(uid, canceling, now).cancelable(uid),
            self.cancelable(uid) ==> {
                let t = self.after_cancel(uid, canceling, now).task(uid);
                t.status == Status::Canceled && t.canceled_by == Some(canceling)
            },
    {
        let after = self.after_cancel(uid, canceling, now);
        if self.cancelable(uid) {
            let i = self.index_of(uid);
            self.lemma_task_at(i);
            assert(after.records[i].uid == uid);
            let j = after.index_of(uid);
            assert(after.records[j].uid == uid);
            assert(self.records[j].uid == uid);
            if j < i {
                assert(self.records[j].uid < self.records[i].uid);
            } else if i < j {
                assert(self.records[i].uid < self.records[j].uid);
            }
        }
    }

    /// To cancel a task that has reached a terminal status, or one that is
    /// not in the store, changes nothing.
    pub proof fn lemma_cancel_terminal_is_noop(self, uid: u32, canceling: u32, now: i128)
        requires
            self.contains(uid) ==> self.task(uid).status.terminal(),
        ensures
            self.after_cancel(uid, canceling, now) == self,
    {
    }

    /// To cancel the same task twice gives the same store as to cancel it
    /// once, whoever asks the second time and whenever.
    pub proof fn lemma_cancel_twice(
        self,
        uid: u32,
        canceling: u32,
        now: i128,
        canceling_again: u32,
        later: i128,
    )
        requires
            self.consistent(),
        ensures
            self.after_cancel(uid, canceling, now).after_cancel(uid, canceling_again, later)
                == self.after_cancel(uid, canceling, now),
    {
        self.lemma_cancel_settles(uid, canceling, now);
    }

    /// The identifier of a task that is enqueued lies above the identifier
    /// of every task in the store, and the next one lies above it: the
    /// identifiers that successive enqueues give out strictly increase.
    pub proof fn lemma_enqueue_gives_fresh_uid(
        self,
        kind: KindWithContent,
        details: Option<Details>,
        now: i128,
    )
        requires
            self.consistent(),
            self.next_uid < u32::MAX,
        ensures
            forall|i: int| 0 <= i < self.records.len() ==> (#[trigger] self.records[i]).uid
                < self.next_uid,
            !self.contains(self.next_uid),
            self.after_enqueue(kind, details, now).next_uid == self.next_uid + 1,
            self.after_enqueue(kind, details, now).records.last().uid == self.next_uid,
    {
    }

    /// Neither a transition nor a cancellation moves the next identifier:
    /// an identifier that was given out is never given out again.
    pub proof fn lemma_next_uid_kept(
        self,
        uid: u32,
        new_status: Status,
        timestamp: i128,
        count: Option<u64>,
        error: Option<ResponseError>,
        uids: Seq<u32>,
        canceling: u32,
    )
        ensures
            self.after_transition(uid, new_status, timestamp, count, error).next_uid
                == self.next_uid,
            self.after_cancel(uid, canceling, timestamp).next_uid == self.next_uid,
            self.after_cancel_all(uids, canceling, timestamp).next_uid == self.next_uid,
        decreases uids.len(),
    {
        if uids.len() > 0 {
            self.lemma_next_uid_kept(
                uid,
                new_status,
                timestamp,
                count,
                error,
                uids.drop_last(),
                canceling,
            );
        }
    }

    /// The store after the record of a task has been put behind the last
    /// record and filed under every key that its fields give. The next
    /// identifier does not move.
    pub open spec fn with_record(self, t: Task) -> StoreView {
        StoreView {
            records: self.records.push(t),
            next_uid: self.next_uid,
            status: filed(self.status, t.status, t.uid),
            kind: filed(self.kind, t.kind.kind(), t.uid),
            index_tasks: filed_under(self.index_tasks, t.kind.targets(), t.uid),
            canceled_by: match t.canceled_by {
                Some(c) => filed(self.canceled_by, c, t.uid),
                None => self.canceled_by,
            },
            enqueued_at: filed(self.enqueued_at, t.enqueued_at, t.uid),
            started_at: match t.started_at {
                Some(at) => filed(self.started_at, at, t.uid),
                None => self.started_at,
            },
            finished_at: match t.finished_at {
                Some(at) => filed(self.finished_at, at, t.uid),
                None => self.finished_at,
            },
        }
    }

    /// Whether the record of a task may be put behind the last record: the
    /// record is well formed and its identifier lies above those of all
    /// the records and below the next identifier.
    pub open spec fn accepts(self, t: Task) -> bool {
        &&& task_wf(t)
        &&& t.uid < self.next_uid
        &&& forall|i: int| 0 <= i < self.records.len() ==> (#[trigger] self.records[i]).uid < t.uid
    }

    /// A store stays consistent when a record that it accepts is put
    /// behind the last record.
    pub proof fn lemma_with_record_consistent(self, t: Task)
        requires
            self.consistent(),
            self.accepts(t),
        ensures
            self.with_record(t).consistent(),
    {
        let after = self.with_record(t);
        let r = self.records;
        let uid = t.uid;
        assert(!self.contains(uid));
        lemma_filed(self.status, t.status, uid);
        lemma_filed(self.kind, t.kind.kind(), uid);
        lemma_filed(self.enqueued_at, t.enqueued_at, uid);
        lemma_filed_under(self.index_tasks, t.kind.targets(), uid);
        if t.canceled_by is Some {
            lemma_filed(self.canceled_by, t.canceled_by->0, uid);
        }
        if t.started_at is Some {
            lemma_filed(self.started_at, t.started_at->0, uid);
        }
        if t.finished_at is Some {
            lemma_filed(self.finished_at, t.finished_at->0, uid);
        }
        lemma_table_after_push(self.status, after.status, r, t, by_status());
        lemma_table_after_push(self.kind, after.kind, r, t, by_kind());
        lemma_table_after_push(self.index_tasks, after.index_tasks, r, t, by_index());
        lemma_table_after_push(self.canceled_by, after.canceled_by, r, t, by_canceler());
        lemma_table_after_push(self.enqueued_at, after.enqueued_at, r, t, by_enqueued_at());
        lemma_table_after_push(self.started_at, after.started_at, r, t, by_started_at());
        lemma_table_after_push(self.finished_at, after.finished_at, r, t, by_finished_at());
        assert(after.records_wf()) by {
            assert forall|i: int, j: int| 0 <= i < j < after.records.len() implies (
            #[trigger] after.records[i]).uid < (#[trigger] after.records[j]).uid by {
                if j < r.len() {
                    assert(r[i].uid < r[j].uid);
                } else {
                    assert(r[i].uid < uid);
                }
            }
        }
    }

    /// The store that holds the given records and nothing else: each
    /// record in its turn put behind the last one.
    pub open spec fn of_records(records: Seq<Task>, next_uid: u32) -> StoreView
        decreases records.len(),
    {
        if records.len() == 0 {
            StoreView {
                records: Seq::empty(),
                next_uid,
                status: Map::empty(),
                kind: Map::empty(),
                index_tasks: Map::empty(),
                canceled_by: Map::empty(),
                enqueued_at: Map::empty(),
                started_at: Map::empty(),
                finished_at: Map::empty(),
            }
        } else {
            Self::of_records(records.drop_last(), next_uid).with_record(records.last())
        }
    }

    /// Whether records can be those of a store: each of them is well
    /// formed, their identifiers strictly increase and lie below the next
    /// identifier.
    pub open spec fn valid_records(records: Seq<Task>, next_uid: u32) -> bool {
        &&& forall|i: int, j: int|
            0 <= i < j < records.len() ==> (#[trigger] records[i]).uid < (#[trigger] records[j]).uid
        &&& forall|i: int| 0 <= i < records.len() ==> (#[trigger] records[i]).uid < next_uid
        &&& forall|i: int| 0 <= i < records.len() ==> task_wf(#[trigger] records[i])
    }

    /// The store of valid records is consistent and holds these records.
    pub proof fn lemma_of_records(records: Seq<Task>, next_uid: u32)
        requires
            Self::valid_records(records, next_uid),
        ensures
            Self::of_records(records, next_uid).consistent(),
            Self::of_records(records, next_uid).records == records,
            Self::of_records(records, next_uid).next_uid == next_uid,
        decreases records.len(),
    {
        if records.len() > 0 {
            let rest = records.drop_last();
            assert forall|i: int, j: int| 0 <= i < j < rest.len() implies (#[trigger] rest[i]).uid
                < (#[trigger] rest[j]).uid by {
                assert(records[i].uid < records[j].uid);
            }
            assert forall|i: int| 0 <= i < rest.len() implies (#[trigger] rest[i]).uid
                < next_uid by {
                assert(rest[i] == records[i]);
            }
            assert forall|i: int| 0 <= i < rest.len() implies task_wf(#[trigger] rest[i]) by {
                assert(rest[i] == records[i]);
            }
            Self::lemma_of_records(rest, next_uid);
            let g = Self::of_records(rest, next_uid);
            let t = records.last();
            assert(records[records.len() - 1] == t);
            assert(g.accepts(t)) by {
                assert forall|i: int| 0 <= i < g.records.len() implies (#[trigger] g.records[i]).uid
                    < t.uid by {
                    assert(records[i].uid < records[records.len() - 1].uid);
                }
            }
            g.lemma_with_record_consistent(t);
            assert(g.with_record(t).records =~= records);
        } else {
            let e = Self::of_records(records, next_uid);
            assert(e.records =~= records);
        }
    }

    /// A consistent store is determined by its records and its next
    /// identifier: the secondary indices hold nothing that the records do
    /// not say. So a store that is built anew from the records of another
    /// is that store again.
    pub proof fn lemma_determined_by_records(self, other: StoreView)
        requires
            self.consistent(),
            other.consistent(),
            self.records == other.records,
            self.next_uid == other.next_uid,
        ensures
            self == other,
    {
        assert forall|k: Status| #[trigger] bucket_of(self.status, k) == bucket_of(other.status, k) by {
            assert forall|uid: u32|
                bucket_of(self.status, k).contains(uid) == bucket_of(other.status, k).contains(
                    uid,
                ) by {
                self.lemma_filed_iff(self.status, by_status(), k, uid);
                other.lemma_filed_iff(other.status, by_status(), k, uid);
            }
            assert(bucket_of(self.status, k) =~= bucket_of(other.status, k));
        }
        lemma_same_buckets(self.status, other.status);
        assert forall|k: Kind| #[trigger] bucket_of(self.kind, k) == bucket_of(other.kind, k) by {
            assert forall|uid: u32|
                bucket_of(self.kind, k).contains(uid) == bucket_of(other.kind, k).contains(uid) by {
                self.lemma_filed_iff(self.kind, by_kind(), k, uid);
                other.lemma_filed_iff(other.kind, by_kind(), k, uid);
            }
            assert(bucket_of(self.kind, k) =~= bucket_of(other.kind, k));
        }
        lemma_same_buckets(self.kind, other.kind);
        assert forall|k: Seq<char>| #[trigger]
            bucket_of(self.index_tasks, k) == bucket_of(other.index_tasks, k) by {
            assert forall|uid: u32|
                bucket_of(self.index_tasks, k).contains(uid) == bucket_of(
                    other.index_tasks,
                    k,
                ).contains(uid) by {
                self.lemma_filed_iff(self.index_tasks, by_index(), k, uid);
                other.lemma_filed_iff(other.index_tasks, by_index(), k, uid);
            }
            assert(bucket_of(self.index_tasks, k) =~= bucket_of(other.index_tasks, k));
        }
        lemma_same_buckets(self.index_tasks, other.index_tasks);
        assert forall|k: u32| #[trigger]
            bucket_of(self.canceled_by, k) == bucket_of(other.canceled_by, k) by {
            assert forall|uid: u32|
                bucket_of(self.canceled_by, k).contains(uid) == bucket_of(
                    other.canceled_by,
                    k,
                ).contains(uid) by {
                self.lemma_filed_iff(self.canceled_by, by_canceler(), k, uid);
                other.lemma_filed_iff(other.canceled_by, by_canceler(), k, uid);
            }
            assert(bucket_of(self.canceled_by, k) =~= bucket_of(other.canceled_by, k));
        }
        lemma_same_buckets(self.canceled_by, other.canceled_by);
        assert forall|k: i128| #[trigger]
            bucket_of(self.enqueued_at, k) == bucket_of(other.enqueued_at, k) by {
            assert forall|uid: u32|
                bucket_of(self.enqueued_at, k).contains(uid) == bucket_of(
                    other.enqueued_at,
                    k,
                ).contains(uid) by {
                self.lemma_filed_iff(self.enqueued_at, by_enqueued_at(), k, uid);
                other.lemma_filed_iff(other.enqueued_at, by_enqueued_at(), k, uid);
            }
            assert(bucket_of(self.enqueued_at, k) =~= bucket_of(other.enqueued_at, k));
        }
        lemma_same_buckets(self.enqueued_at, other.enqueued_at);
        assert forall|k: i128| #[trigger]
            bucket_of(self.started_at, k) == bucket_of(other.started_at, k) by {
            assert forall|uid: u32|
                bucket_of(self.started_at, k).contains(uid) == bucket_of(
                    other.started_at,
                    k,
                ).contains(uid) by {
                self.lemma_filed_iff(self.started_at, by_started_at(), k, uid);
                other.lemma_filed_iff(other.started_at, by_started_at(), k, uid);
            }
            assert(bucket_of(self.started_at, k) =~= bucket_of(other.started_at, k));
        }
        lemma_same_buckets(self.started_at, other.started_at);
        assert forall|k: i128| #[trigger]
            bucket_of(self.finished_at, k) == bucket_of(other.finished_at, k) by {
            assert forall|uid: u32|
                bucket_of(self.finished_at, k).contains(uid) == bucket_of(
                    other.finished_at,
                    k,
                ).contains(uid) by {
                self.lemma_filed_iff(self.finished_at, by_finished_at(), k, uid);
                other.lemma_filed_iff(other.finished_at, by_finished_at(), k, uid);
            }
            assert(bucket_of(self.finished_at, k) =~= bucket_of(other.finished_at, k));
        }
        lemma_same_buckets(self.finished_at, other.finished_at);
    }

    /// What undoing a start does to the index by status.
    pub proof fn lemma_after_revert_status(self, uid: u32)
        requires
            self.consistent(),
        ensures
            forall|k: Status|
                (#[trigger] bucket_of(self.after_revert(uid).status, k)) == (if !self.revertible(
                    uid,
                ) {
                    bucket_of(self.status, k)
                } else if k == Status::Enqueued {
                    bucket_of(self.status, k).insert(uid)
                } else {
                    bucket_of(self.status, k).remove(uid)
                }),
    {
        if self.revertible(uid) {
            self.lemma_task_at(self.index_of(uid));
            assert forall|k: Status| (#[trigger] bucket_of(self.status, k).contains(uid)) implies k
                == Status::Processing by {
                self.lemma_filed_iff(self.status, by_status(), k, uid);
            }
            lemma_refiled(
                self.status,
                Status::Processing,
                Status::Enqueued,
                uid,
                self.after_revert(uid).status,
            );
        }
    }

    /// The store after the start of each task of `uids` in turn has been
    /// undone.
    pub open spec fn after_revert_all(self, uids: Seq<u32>) -> StoreView
        decreases uids.len(),
    {
        if uids.len() == 0 {
            self
        } else {
            self.after_revert_all(uids.drop_last()).after_revert(uids.last())
        }
    }

    /// Undoing the start of a list of tasks keeps the store consistent and
    /// takes them, and no others, out of the tasks that are processing.
    pub proof fn lemma_after_revert_all(self, uids: Seq<u32>)
        requires
            self.consistent(),
        ensures
            self.after_revert_all(uids).consistent(),
            self.after_revert_all(uids).next_uid == self.next_uid,
            self.after_revert_all(uids).records.len() == self.records.len(),
            bucket_of(self.after_revert_all(uids).status, Status::Processing) == bucket_of(
                self.status,
                Status::Processing,
            ).difference(uids.to_set()),
        decreases uids.len(),
    {
        let p = bucket_of(self.status, Status::Processing);
        if uids.len() == 0 {
            assert(p.difference(uids.to_set()) =~= p);
        } else {
            let rest = uids.drop_last();
            let last = uids.last();
            let g = self.after_revert_all(rest);
            self.lemma_after_revert_all(rest);
            g.lemma_after_revert_consistent(last);
            g.lemma_after_revert_status(last);
            g.lemma_status_bucket(Status::Processing);
            let f = g.after_revert(last);
            assert(uids[uids.len() - 1] == last);
            assert forall|x: u32|
                bucket_of(f.status, Status::Processing).contains(x) == p.difference(
                    uids.to_set(),
                ).contains(x) by {
                if rest.contains(x) {
                    let j = choose|j: int| 0 <= j < rest.len() && rest[j] == x;
                    assert(uids[j] == x);
                }
                if uids.contains(x) && x != last {
                    let j = choose|j: int| 0 <= j < uids.len() && uids[j] == x;
                    assert(rest[j] == x);
                }
            }
            assert(bucket_of(f.status, Status::Processing) =~= p.difference(uids.to_set()));
        }
    }

    /// The start of a task can be undone while the task is processing.
    pub open spec fn revertible(self, uid: u32) -> bool {
        self.contains(uid) && self.task(uid).status == Status::Processing
    }

    /// The store after the start of the task `uid` has been undone: the
    /// task is enqueued again, as if it had never started.
    pub open spec fn after_revert(self, uid: u32) -> StoreView {
        if self.revertible(uid) {
            let t = self.task(uid);
            StoreView {
                records: self.records.update(self.index_of(uid), reverted(t)),
                status: filed(unfiled(self.status, Status::Processing, uid), Status::Enqueued, uid),
                started_at: match t.started_at {
                    Some(at) => unfiled(self.started_at, at, uid),
                    None => self.started_at,
                },
                ..self
            }
        } else {
            self
        }
    }

    /// To undo the start of a task keeps the store consistent.
    pub proof fn lemma_after_revert_consistent(self, uid: u32)
        requires
            self.consistent(),
        ensures
            self.after_revert(uid).consistent(),
    {
        if self.revertible(uid) {
            let after = self.after_revert(uid);
            let r = self.records;
            let i = self.index_of(uid);
            let t = r[i];
            let t2 = reverted(t);
            self.lemma_task_at(i);
            self.lemma_uid_unique(i);
            assert(task_wf(t2));
            self.lemma_records_wf_after_update(i, t2, after);
            lemma_unfiled(self.status, Status::Processing, uid);
            lemma_filed(unfiled(self.status, Status::Processing, uid), Status::Enqueued, uid);
            assert forall|k: Status| (#[trigger] bucket_of(self.status, k).contains(uid)) implies k
                == t.status by {}
            lemma_refiled(self.status, Status::Processing, Status::Enqueued, uid, after.status);
            lemma_table_after_update(self.status, after.status, r, i, t2, by_status());
            let at = t.started_at->0;
            lemma_unfiled(self.started_at, at, uid);
            assert forall|k: i128| (#[trigger] bucket_of(self.started_at, k).contains(uid)) implies k
                == at by {}
            lemma_unfiled_everywhere(self.started_at, at, uid, after.started_at);
            assert forall|k: i128|
                (#[trigger] bucket_of(after.started_at, k)) == (if by_started_at()(t2, k) {
                    bucket_of(self.started_at, k).insert(uid)
                } else {
                    bucket_of(self.started_at, k).remove(uid)
                }) by {}
            lemma_table_after_update(self.started_at, after.started_at, r, i, t2, by_started_at());
            lemma_table_untouched(self.finished_at, r, i, t2, by_finished_at());
            lemma_table_untouched(self.kind, r, i, t2, by_kind());
            lemma_table_untouched(self.index_tasks, r, i, t2, by_index());
            lemma_table_untouched(self.canceled_by, r, i, t2, by_canceler());
            lemma_table_untouched(self.enqueued_at, r, i, t2, by_enqueued_at());
        }
    }

    /// To start an enqueued task and then to undo the start gives back the
    /// store as it was: nothing of the start is left behind.
    pub proof fn lemma_revert_undoes_start(self, uid: u32, now: i128)
        requires
            self.consistent(),
            self.contains(uid),
            self.task(uid).status == Status::Enqueued,
        ensures
            self.after_transition(uid, Status::Processing, now, None, None).revertible(uid),
            self.after_transition(uid, Status::Processing, now, None, None).after_revert(uid)
                == self,
    {
        let w = self.after_transition(uid, Status::Processing, now, None, None);
        let i = self.index_of(uid);
        let t = self.records[i];
        self.lemma_task_at(i);
        self.lemma_after_transition_consistent(uid, Status::Processing, now, None, None);
        assert(w.records[i].uid == uid);
        w.lemma_task_at(i);
        let back = w.after_revert(uid);
        assert(reverted(w.records[i]) == t);
        assert(back.records =~= self.records);
        // the index by status is what it was
        lemma_unfiled(self.status, Status::Enqueued, uid);
        lemma_filed(unfiled(self.status, Status::Enqueued, uid), Status::Processing, uid);
        lemma_unfiled(w.status, Status::Processing, uid);
        lemma_filed(unfiled(w.status, Status::Processing, uid), Status::Enqueued, uid);
        assert forall|k: Status| #[trigger] bucket_of(back.status, k) == bucket_of(self.status, k) by {
            let b = bucket_of(self.status, k);
            self.lemma_filed_iff(self.status, by_status(), k, uid);
            if k == Status::Enqueued {
                assert(b.remove(uid).insert(uid) =~= b);
            } else if k == Status::Processing {
                assert(b.insert(uid).remove(uid) =~= b);
            }
        }
        lemma_same_buckets(back.status, self.status);
        // the index by date of start is what it was
        lemma_filed(self.started_at, now, uid);
        lemma_unfiled(w.started_at, now, uid);
        assert forall|k: i128| #[trigger] bucket_of(back.started_at, k) == bucket_of(
            self.started_at,
            k,
        ) by {
            let b = bucket_of(self.started_at, k);
            self.lemma_filed_iff(self.started_at, by_started_at(), k, uid);
            if k == now {
                assert(b.insert(uid).remove(uid) =~= b);
            }
        }
        lemma_same_buckets(back.started_at, self.started_at);
    }

    /// What a transition does to each record.
    pub proof fn lemma_after_transition_records(
        self,
        uid: u32,
        new_status: Status,
        timestamp: i128,
        count: Option<u64>,
        error: Option<ResponseError>,
    )
        requires
            self.consistent(),
            self.contains(uid),
        ensures
            ({
                let f = self.after_transition(uid, new_status, timestamp, count, error);
                &&& f.records.len() == self.records.len()
                &&& forall|i: int|
                    0 <= i < self.records.len() ==> #[trigger] f.records[i] == (if self.records[i].uid
                        == uid {
                        transitioned(self.records[i], new_status, timestamp, count, error)
                    } else {
                        self.records[i]
                    })
            }),
    {
        let at = self.index_of(uid);
        self.lemma_task_at(at);
        self.lemma_uid_unique(at);
    }

    /// The tasks filed under a status are the tasks of the record table
    /// that have it.
    pub proof fn lemma_status_bucket(self, s: Status)
        requires
            self.consistent(),
        ensures
            forall|uid: u32|
                bucket_of(self.status, s).contains(uid) <==> (self.contains(uid) && self.task(
                    uid,
                ).status == s),
            forall|i: int|
                0 <= i < self.records.len() ==> (bucket_of(self.status, s).contains(
                    (#[trigger] self.records[i]).uid,
                ) <==> self.records[i].status == s),
    {
        assert forall|uid: u32|
            bucket_of(self.status, s).contains(uid) <==> (self.contains(uid) && self.task(
                uid,
            ).status == s) by {
            self.lemma_filed_iff(self.status, by_status(), s, uid);
        }
        assert forall|i: int| 0 <= i < self.records.len() implies (bucket_of(self.status, s).contains(
            (#[trigger] self.records[i]).uid,
        ) <==> self.records[i].status == s) by {
            self.lemma_task_at(i);
            self.lemma_filed_iff(self.status, by_status(), s, self.records[i].uid);
        }
    }

    /// What a transition does to the index by status: the task is filed
    /// under its new status and under no other.
    pub proof fn lemma_after_transition_status(
        self,
        uid: u32,
        new_status: Status,
        timestamp: i128,
        count: Option<u64>,
        error: Option<ResponseError>,
    )
        requires
            self.consistent(),
            self.contains(uid),
        ensures
            forall|k: Status|
                (#[trigger] bucket_of(
                    self.after_transition(uid, new_status, timestamp, count, error).status,
                    k,
                )) == (if k == new_status {
                    bucket_of(self.status, k).insert(uid)
                } else {
                    bucket_of(self.status, k).remove(uid)
                }),
    {
        let t = self.task(uid);
        self.lemma_task_at(self.index_of(uid));
        assert forall|k: Status| (#[trigger] bucket_of(self.status, k).contains(uid)) implies k
            == t.status by {
            self.lemma_filed_iff(self.status, by_status(), k, uid);
        }
        lemma_refiled(
            self.status,
            t.status,
            new_status,
            uid,
            self.after_transition(uid, new_status, timestamp, count, error).status,
        );
    }

    /// What a cancellation does to the index by status.
    pub proof fn lemma_after_cancel_status(self, uid: u32, canceling: u32, now: i128)
        requires
            self.consistent(),
        ensures
            forall|k: Status|
                (#[trigger] bucket_of(self.after_cancel(uid, canceling, now).status, k)) == (
                if !self.cancelable(uid) {
                    bucket_of(self.status, k)
                } else if k == Status::Canceled {
                    bucket_of(self.status, k).insert(uid)
                } else {
                    bucket_of(self.status, k).remove(uid)
                }),
    {
        if self.cancelable(uid) {
            let t = self.task(uid);
            self.lemma_task_at(self.index_of(uid));
            assert forall|k: Status| (#[trigger] bucket_of(self.status, k).contains(uid)) implies k
                == t.status by {
                self.lemma_filed_iff(self.status, by_status(), k, uid);
            }
            lemma_refiled(
                self.status,
                t.status,
                Status::Canceled,
                uid,
                self.after_cancel(uid, canceling, now).status,
            );
        }
    }

    /// The cancellation of a list of tasks takes them, and no others, out
    /// of the tasks that are processing.
    pub proof fn lemma_after_cancel_all_processing(self, uids: Seq<u32>, canceling: u32, now: i128)
        requires
            self.consistent(),
        ensures
            bucket_of(self.after_cancel_all(uids, canceling, now).status, Status::Processing)
                == bucket_of(self.status, Status::Processing).difference(uids.to_set()),
        decreases uids.len(),
    {
        let p = bucket_of(self.status, Status::Processing);
        if uids.len() == 0 {
            assert(p.difference(uids.to_set()) =~= p);
        } else {
            let rest = uids.drop_last();
            let last = uids.last();
            let g = self.after_cancel_all(rest, canceling, now);
            self.lemma_after_cancel_all_processing(rest, canceling, now);
            self.lemma_after_cancel_all(rest, canceling, now);
            g.lemma_after_cancel_status(last, canceling, now);
            g.lemma_status_bucket(Status::Processing);
            let f = g.after_cancel(last, canceling, now);
            assert forall|x: u32|
                bucket_of(f.status, Status::Processing).contains(x) == p.difference(
                    uids.to_set(),
                ).contains(x) by {
                assert(uids[uids.len() - 1] == last);
                if rest.contains(x) {
                    let j = choose|j: int| 0 <= j < rest.len() && rest[j] == x;
                    assert(uids[j] == x);
                }
                if uids.contains(x) && x != last {
                    let j = choose|j: int| 0 <= j < uids.len() && uids[j] == x;
                    assert(rest[j] == x);
                }
            }
            assert(bucket_of(f.status, Status::Processing) =~= p.difference(uids.to_set()));
        }
    }

    /// The deletion of a list of tasks leaves the tasks that are processing
    /// alone.
    pub proof fn lemma_after_delete_all_processing(self, uids: Seq<u32>)
        requires
            self.consistent(),
        ensures
            bucket_of(self.after_delete_all(uids).status, Status::Processing) == bucket_of(
                self.status,
                Status::Processing,
            ),
        decreases uids.len(),
    {
        if uids.len() > 0 {
            let rest = uids.drop_last();
            let last = uids.last();
            let g = self.after_delete_all(rest);
            self.lemma_after_delete_all_processing(rest);
            self.lemma_after_delete_all(rest);
            if g.deletable(last) {
                lemma_unfiled(g.status, g.task(last).status, last);
            }
        }
    }

    /// Enqueuing leaves the tasks that are processing alone.
    pub proof fn lemma_after_enqueue_processing(
        self,
        kind: KindWithContent,
        details: Option<Details>,
        now: i128,
    )
        ensures
            bucket_of(self.after_enqueue(kind, details, now).status, Status::Processing)
                == bucket_of(self.status, Status::Processing),
    {
        lemma_filed(self.status, Status::Enqueued, self.next_uid);
    }

    /// A task can be deleted once it has reached a terminal status.
    pub open spec fn deletable(self, uid: u32) -> bool {
        self.contains(uid) && self.task(uid).status.terminal()
    }

    /// The store after the deletion of the task `uid` has been asked for.
    /// The record of a finished task leaves the table of records, and its
    /// identifier every secondary index; for any other identifier the store
    /// stays as it is. The next identifier does not move.
    pub open spec fn after_delete(self, uid: u32) -> StoreView {
        if self.deletable(uid) {
            let t = self.task(uid);
            StoreView {
                records: self.records.remove(self.index_of(uid)),
                next_uid: self.next_uid,
                status: unfiled(self.status, t.status, uid),
                kind: unfiled(self.kind, t.kind.kind(), uid),
                index_tasks: unfiled_under(self.index_tasks, t.kind.targets(), uid),
                canceled_by: match t.canceled_by {
                    Some(c) => unfiled(self.canceled_by, c, uid),
                    None => self.canceled_by,
                },
                enqueued_at: unfiled(self.enqueued_at, t.enqueued_at, uid),
                started_at: match t.started_at {
                    Some(at) => unfiled(self.started_at, at, uid),
                    None => self.started_at,
                },
                finished_at: match t.finished_at {
                    Some(at) => unfiled(self.finished_at, at, uid),
                    None => self.finished_at,
                },
            }
        } else {
            self
        }
    }

    /// The store after the deletion of each task of `uids` in turn.
    pub open spec fn after_delete_all(self, uids: Seq<u32>) -> StoreView
        decreases uids.len(),
    {
        if uids.len() == 0 {
            self
        } else {
            self.after_delete_all(uids.drop_last()).after_delete(uids.last())
        }
    }

    /// How many tasks the deletion of each task of `uids` in turn deletes.
    pub open spec fn deleted_count(self, uids: Seq<u32>) -> nat
        decreases uids.len(),
    {
        if uids.len() == 0 {
            0
        } else {
            self.deleted_count(uids.drop_last()) + (if self.after_delete_all(
                uids.drop_last(),
            ).deletable(uids.last()) {
                1nat
            } else {
                0nat
            })
        }
    }

    /// A deletion keeps the store consistent, and does not move the next
    /// identifier.
    pub proof fn lemma_after_delete_consistent(self, uid: u32)
        requires
            self.consistent(),
        ensures
            self.after_delete(uid).consistent(),
            self.after_delete(uid).next_uid == self.next_uid,
    {
        if self.deletable(uid) {
            let after = self.after_delete(uid);
            let r = self.records;
            let i = self.index_of(uid);
            let t = r[i];
            self.lemma_task_at(i);
            self.lemma_uid_unique(i);
            assert(after.records_wf()) by {
                assert forall|a: int| 0 <= a < after.records.len() implies #[trigger] after.records[a]
                    == r[if a < i { a } else { a + 1 }] by {}
                assert forall|a: int, b: int| 0 <= a < b < after.records.len() implies (
                #[trigger] after.records[a]).uid < (#[trigger] after.records[b]).uid by {
                    let a0 = if a < i { a } else { a + 1 };
                    let b0 = if b < i { b } else { b + 1 };
                    assert(r[a0].uid < r[b0].uid);
                }
            }
            lemma_unfiled(self.status, t.status, uid);
            lemma_unfiled(self.kind, t.kind.kind(), uid);
            lemma_unfiled(self.enqueued_at, t.enqueued_at, uid);
            lemma_unfiled_under(self.index_tasks, t.kind.targets(), uid);
            // by status
            assert forall|k: Status| (#[trigger] bucket_of(self.status, k).contains(uid)) implies k
                == t.status by {}
            lemma_unfiled_everywhere(self.status, t.status, uid, after.status);
            lemma_table_after_remove(self.status, after.status, r, i, by_status());
            // by kind
            assert forall|k: Kind| (#[trigger] bucket_of(self.kind, k).contains(uid)) implies k
                == t.kind.kind() by {}
            lemma_unfiled_everywhere(self.kind, t.kind.kind(), uid, after.kind);
            lemma_table_after_remove(self.kind, after.kind, r, i, by_kind());
            // by date of enqueuing
            assert forall|k: i128| (#[trigger] bucket_of(self.enqueued_at, k).contains(uid)) implies k
                == t.enqueued_at by {}
            lemma_unfiled_everywhere(self.enqueued_at, t.enqueued_at, uid, after.enqueued_at);
            lemma_table_after_remove(self.enqueued_at, after.enqueued_at, r, i, by_enqueued_at());
            // by targeted index
            assert forall|k: Seq<char>| (#[trigger] bucket_of(after.index_tasks, k)) == bucket_of(
                self.index_tasks,
                k,
            ).remove(uid) by {
                let b = bucket_of(self.index_tasks, k);
                assert(b.contains(r[i].uid) <==> t.kind.targets().contains(k));
                if !t.kind.targets().contains(k) {
                    assert(b.remove(uid) =~= b);
                }
            }
            lemma_table_after_remove(self.index_tasks, after.index_tasks, r, i, by_index());
            // by canceling task
            match t.canceled_by {
                Some(c) => {
                    lemma_unfiled(self.canceled_by, c, uid);
                    assert forall|k: u32| (#[trigger] bucket_of(self.canceled_by, k).contains(uid)) implies k
                        == c by {}
                    lemma_unfiled_everywhere(self.canceled_by, c, uid, after.canceled_by);
                },
                None => {
                    assert forall|k: u32| !(#[trigger] bucket_of(self.canceled_by, k).contains(uid)) by {}
                    lemma_filed_nowhere(self.canceled_by, uid);
                },
            }
            lemma_table_after_remove(self.canceled_by, after.canceled_by, r, i, by_canceler());
            // by date of start
            match t.started_at {
                Some(at) => {
                    lemma_unfiled(self.started_at, at, uid);
                    assert forall|k: i128| (#[trigger] bucket_of(self.started_at, k).contains(uid)) implies k
                        == at by {}
                    lemma_unfiled_everywhere(self.started_at, at, uid, after.started_at);
                },
                None => {
                    assert forall|k: i128| !(#[trigger] bucket_of(self.started_at, k).contains(uid)) by {}
                    lemma_filed_nowhere(self.started_at, uid);
                },
            }
            lemma_table_after_remove(self.started_at, after.started_at, r, i, by_started_at());
            // by date of end
            match t.finished_at {
                Some(at) => {
                    lemma_unfiled(self.finished_at, at, uid);
                    assert forall|k: i128| (#[trigger] bucket_of(self.finished_at, k).contains(uid)) implies k
                        == at by {}
                    lemma_unfiled_everywhere(self.finished_at, at, uid, after.finished_at);
                },
                None => {
                    assert forall|k: i128| !(#[trigger] bucket_of(self.finished_at, k).contains(uid)) by {}
                    lemma_filed_nowhere(self.finished_at, uid);
                },
            }
            lemma_table_after_remove(self.finished_at, after.finished_at, r, i, by_finished_at());
        }
    }

    /// The deletion of a list of tasks keeps the store consistent, and does
    /// not move the next identifier: the identifier of a deleted task is
    /// never given out again.
    pub proof fn lemma_after_delete_all(self, uids: Seq<u32>)
        requires
            self.consistent(),
        ensures
            self.after_delete_all(uids).consistent(),
            self.after_delete_all(uids).next_uid == self.next_uid,
        decreases uids.len(),
    {
        if uids.len() > 0 {
            self.lemma_after_delete_all(uids.drop_last());
            self.after_delete_all(uids.drop_last()).lemma_after_delete_consistent(uids.last());
        }
    }

    /// A task can be canceled while it is in the record table and has not
    /// reached a terminal status.
    pub open spec fn cancelable(self, uid: u32) -> bool {
        self.contains(uid) && !self.task(uid).status.terminal()
    }

    /// The store after the task `canceling` has asked to cancel the task
    /// `uid` at the date `now`. A task that can be canceled becomes
    /// `Canceled`, and is filed under the canceling task and under the date;
    /// for any other identifier the store stays as it is.
    pub open spec fn after_cancel(self, uid: u32, canceling: u32, now: i128) -> StoreView {
        if self.cancelable(uid) {
            let t = self.task(uid);
            StoreView {
                records: self.records.update(self.index_of(uid), canceled(t, canceling, now)),
                status: filed(unfiled(self.status, t.status, uid), Status::Canceled, uid),
                canceled_by: filed(self.canceled_by, canceling, uid),
                finished_at: filed(self.finished_at, now, uid),
                ..self
            }
        } else {
            self
        }
    }

    /// The store after the cancellation of each task of `uids` in turn.
    pub open spec fn after_cancel_all(self, uids: Seq<u32>, canceling: u32, now: i128) -> StoreView
        decreases uids.len(),
    {
        if uids.len() == 0 {
            self
        } else {
            self.after_cancel_all(uids.drop_last(), canceling, now).after_cancel(
                uids.last(),
                canceling,
                now,
            )
        }
    }

    /// How many tasks the cancellation of each task of `uids` in turn
    /// cancels.
    pub open spec fn canceled_count(self, uids: Seq<u32>, canceling: u32, now: i128) -> nat
        decreases uids.len(),
    {
        if uids.len() == 0 {
            0
        } else {
            self.canceled_count(uids.drop_last(), canceling, now) + (if self.after_cancel_all(
                uids.drop_last(),
                canceling,
                now,
            ).cancelable(uids.last()) {
                1nat
            } else {
                0nat
            })
        }
    }

    /// The store after the task `uid` has passed to `new_status` at the
    /// date `timestamp`: its record is changed, it is filed under its new
    /// status in place of the old one, and under the date where the
    /// transition sets a date.
    pub open spec fn after_transition(
        self,
        uid: u32,
        new_status: Status,
        timestamp: i128,
        count: Option<u64>,
        error: Option<ResponseError>,
    ) -> StoreView {
        let t = self.task(uid);
        StoreView {
            records: self.records.update(
                self.index_of(uid),
                transitioned(t, new_status, timestamp, count, error),
            ),
            status: filed(unfiled(self.status, t.status, uid), new_status, uid),
            started_at: if new_status == Status::Processing {
                filed(self.started_at, timestamp, uid)
            } else {
                self.started_at
            },
            finished_at: if new_status.terminal() {
                filed(self.finished_at, timestamp, uid)
            } else {
                self.finished_at
            },
            ..self
        }
    }

    /// No two records have the same identifier.
    pub proof fn lemma_uid_unique(self, i: int)
        requires
            self.records_wf(),
            0 <= i < self.records.len(),
        ensures
            forall|j: int|
                0 <= j < self.records.len() && j != i ==> (#[trigger] self.records[j]).uid
                    != self.records[i].uid,
    {
        let r = self.records;
        assert forall|j: int| 0 <= j < r.len() && j != i implies (#[trigger] r[j]).uid
            != r[i].uid by {
            if j < i {
                assert(r[j].uid < r[i].uid);
            } else {
                assert(r[i].uid < r[j].uid);
            }
        }
    }

    /// The records stay well formed when one of them is replaced by a well
    /// formed record of the same identifier.
    pub proof fn lemma_records_wf_after_update(self, i: int, t: Task, after: StoreView)
        requires
            self.records_wf(),
            0 <= i < self.records.len(),
            t.uid == self.records[i].uid,
            task_wf(t),
            after.records == self.records.update(i, t),
            after.next_uid == self.next_uid,
        ensures
            after.records_wf(),
    {
        let r = self.records;
        assert forall|a: int| 0 <= a < after.records.len() implies (#[trigger] after.records[a]).uid
            == r[a].uid by {}
        assert forall|a: int| 0 <= a < after.records.len() implies task_wf(
            #[trigger] after.records[a],
        ) by {
            if a != i {
                assert(after.records[a] == r[a]);
            }
        }
        assert forall|a: int, b: int| 0 <= a < b < after.records.len() implies (
        #[trigger] after.records[a]).uid < (#[trigger] after.records[b]).uid by {
            assert(r[a].uid < r[b].uid);
        }
    }

    /// Enqueuing keeps the store consistent.
    pub proof fn lemma_after_enqueue_consistent(
        self,
        kind: KindWithContent,
        details: Option<Details>,
        now: i128,
    )
        requires
            self.consistent(),
            self.next_uid < u32::MAX,
            details_fit(kind, details),
        ensures
            self.after_enqueue(kind, details, now).consistent(),
    {
        let after = self.after_enqueue(kind, details, now);
        let uid = self.next_uid;
        let r = self.records;
        let task = after.records[r.len() as int];
        assert(after.records == r.push(task));
        assert(!self.contains(uid));
        lemma_filed(self.status, Status::Enqueued, uid);
        lemma_filed(self.kind, kind.kind(), uid);
        lemma_filed(self.enqueued_at, now, uid);
        lemma_filed_under(self.index_tasks, kind.targets(), uid);
        lemma_table_after_push(self.status, after.status, r, task, by_status());
        lemma_table_after_push(self.kind, after.kind, r, task, by_kind());
        lemma_table_after_push(self.index_tasks, after.index_tasks, r, task, by_index());
        lemma_table_after_push(self.canceled_by, after.canceled_by, r, task, by_canceler());
        lemma_table_after_push(self.enqueued_at, after.enqueued_at, r, task, by_enqueued_at());
        lemma_table_after_push(self.started_at, after.started_at, r, task, by_started_at());
        lemma_table_after_push(self.finished_at, after.finished_at, r, task, by_finished_at());
        assert(after.records_wf());
    }

    /// A transition that the life of a task allows keeps the store
    /// consistent.
    pub proof fn lemma_after_transition_consistent(
        self,
        uid: u32,
        new_status: Status,
        timestamp: i128,
        count: Option<u64>,
        error: Option<ResponseError>,
    )
        requires
            self.consistent(),
            self.contains(uid),
            self.task(uid).status.may_become(new_status),
        ensures
            self.after_transition(uid, new_status, timestamp, count, error).consistent(),
    {
        let after = self.after_transition(uid, new_status, timestamp, count, error);
        let r = self.records;
        let i = self.index_of(uid);
        let t = r[i];
        let t2 = transitioned(t, new_status, timestamp, count, error);
        self.lemma_task_at(i);
        self.lemma_uid_unique(i);
        lemma_refined_fits(t.kind, t.details, 0);
        if count is Some {
            lemma_refined_fits(t.kind, t.details, count->0);
        }
        assert(task_wf(t2));
        self.lemma_records_wf_after_update(i, t2, after);
        lemma_unfiled(self.status, t.status, uid);
        lemma_filed(unfiled(self.status, t.status, uid), new_status, uid);
        lemma_filed(self.started_at, timestamp, uid);
        lemma_filed(self.finished_at, timestamp, uid);
        assert forall|k: Status| (#[trigger] bucket_of(self.status, k).contains(uid)) implies k
            == t.status by {}
        lemma_refiled(self.status, t.status, new_status, uid, after.status);
        lemma_table_after_update(self.status, after.status, r, i, t2, by_status());
        if new_status == Status::Processing {
            assert forall|k: i128| !(#[trigger] bucket_of(self.started_at, k).contains(uid)) by {}
            lemma_filed_fresh(self.started_at, timestamp, uid, after.started_at);
            lemma_table_after_update(self.started_at, after.started_at, r, i, t2, by_started_at());
        } else {
            lemma_table_untouched(self.started_at, r, i, t2, by_started_at());
        }
        if new_status.terminal() {
            assert forall|k: i128| !(#[trigger] bucket_of(self.finished_at, k).contains(uid)) by {}
            lemma_filed_fresh(self.finished_at, timestamp, uid, after.finished_at);
            lemma_table_after_update(
                self.finished_at,
                after.finished_at,
                r,
                i,
                t2,
                by_finished_at(),
            );
        } else {
            lemma_table_untouched(self.finished_at, r, i, t2, by_finished_at());
        }
        lemma_table_untouched(self.kind, r, i, t2, by_kind());
        lemma_table_untouched(self.index_tasks, r, i, t2, by_index());
        lemma_table_untouched(self.canceled_by, r, i, t2, by_canceler());
        lemma_table_untouched(self.enqueued_at, r, i, t2, by_enqueued_at());
    }

    /// A cancellation keeps the store consistent.
    pub proof fn lemma_after_cancel_consistent(self, uid: u32, canceling: u32, now: i128)
        requires
            self.consistent(),
        ensures
            self.after_cancel(uid, canceling, now).consistent(),
    {
        if self.cancelable(uid) {
            let after = self.after_cancel(uid, canceling, now);
            let r = self.records;
            let i = self.index_of(uid);
            let t = r[i];
            let t2 = canceled(t, canceling, now);
            self.lemma_task_at(i);
            self.lemma_uid_unique(i);
            assert(task_wf(t2));
            self.lemma_records_wf_after_update(i, t2, after);
            lemma_unfiled(self.status, t.status, uid);
            lemma_filed(unfiled(self.status, t.status, uid), Status::Canceled, uid);
            lemma_filed(self.canceled_by, canceling, uid);
            lemma_filed(self.finished_at, now, uid);
            assert forall|k: Status| (#[trigger] bucket_of(self.status, k).contains(uid)) implies k
                == t.status by {}
            lemma_refiled(self.status, t.status, Status::Canceled, uid, after.status);
            lemma_table_after_update(self.status, after.status, r, i, t2, by_status());
            assert forall|k: u32| !(#[trigger] bucket_of(self.canceled_by, k).contains(uid)) by {}
            lemma_filed_fresh(self.canceled_by, canceling, uid, after.canceled_by);
            lemma_table_after_update(self.canceled_by, after.canceled_by, r, i, t2, by_canceler());
            assert forall|k: i128| !(#[trigger] bucket_of(self.finished_at, k).contains(uid)) by {}
            lemma_filed_fresh(self.finished_at, now, uid, after.finished_at);
            lemma_table_after_update(
                self.finished_at,
                after.finished_at,
                r,
                i,
                t2,
                by_finished_at(),
            );
            lemma_table_untouched(self.started_at, r, i, t2, by_started_at());
            lemma_table_untouched(self.kind, r, i, t2, by_kind());
            lemma_table_untouched(self.index_tasks, r, i, t2, by_index());
            lemma_table_untouched(self.enqueued_at, r, i, t2, by_enqueued_at());
        }
    }

    /// What a cancellation does to each record: the record of the task,
    /// if it has not reached a terminal status, is canceled; every other
    /// record stays as it is.
    pub proof fn lemma_after_cancel_records(self, uid: u32, canceling: u32, now: i128)
        requires
            self.consistent(),
        ensures
            ({
                let f = self.after_cancel(uid, canceling, now);
                &&& f.records.len() == self.records.len()
                &&& forall|i: int|
                    0 <= i < self.records.len() ==> #[trigger] f.records[i] == (if self.records[i].uid
                        == uid && !self.records[i].status.terminal() {
                        canceled(self.records[i], canceling, now)
                    } else {
                        self.records[i]
                    })
            }),
    {
        let f = self.after_cancel(uid, canceling, now);
        if self.contains(uid) {
            let at = self.index_of(uid);
            self.lemma_task_at(at);
            self.lemma_uid_unique(at);
        }
        assert forall|i: int| 0 <= i < self.records.len() implies #[trigger] f.records[i] == (if self.records[i].uid
            == uid && !self.records[i].status.terminal() {
            canceled(self.records[i], canceling, now)
        } else {
            self.records[i]
        }) by {
            if self.records[i].uid == uid {
                self.lemma_task_at(i);
            }
        }
    }

    /// What the cancellation of a list of tasks does: the store stays
    /// consistent; the record of each listed task that has not reached a
    /// terminal status is canceled, and every other record stays as it is.
    pub proof fn lemma_after_cancel_all(self, uids: Seq<u32>, canceling: u32, now: i128)
        requires
            self.consistent(),
        ensures
            ({
                let f = self.after_cancel_all(uids, canceling, now);
                &&& f.consistent()
                &&& f.records.len() == self.records.len()
                &&& forall|i: int|
                    0 <= i < self.records.len() ==> #[trigger] f.records[i] == (if uids.contains(
                        self.records[i].uid,
                    ) && !self.records[i].status.terminal() {
                        canceled(self.records[i], canceling, now)
                    } else {
                        self.records[i]
                    })
            }),
        decreases uids.len(),
    {
        if uids.len() > 0 {
            let rest = uids.drop_last();
            let last = uids.last();
            let g = self.after_cancel_all(rest, canceling, now);
            let f = g.after_cancel(last, canceling, now);
            self.lemma_after_cancel_all(rest, canceling, now);
            g.lemma_after_cancel_consistent(last, canceling, now);
            g.lemma_after_cancel_records(last, canceling, now);
            assert(uids.contains(last)) by {
                assert(uids[uids.len() - 1] == last);
            }
            assert forall|i: int| 0 <= i < self.records.len() implies #[trigger] f.records[i] == (if uids.contains(
                self.records[i].uid,
            ) && !self.records[i].status.terminal() {
                canceled(self.records[i], canceling, now)
            } else {
                self.records[i]
            }) by {
                let x = self.records[i].uid;
                assert(g.records[i] == (if rest.contains(x) && !self.records[i].status.terminal() {
                    canceled(self.records[i], canceling, now)
                } else {
                    self.records[i]
                }));
                if rest.contains(x) {
                    let j = choose|j: int| 0 <= j < rest.len() && rest[j] == x;
                    assert(uids[j] == x);
                }
                if uids.contains(x) && x != last {
                    let j = choose|j: int| 0 <= j < uids.len() && uids[j] == x;
                    assert(rest[j] == x);
                }
            }
        }
    }

    /// The tasks of a list that can be canceled.
    pub open spec fn cancelable_among(self, uids: Seq<u32>) -> Set<u32> {
        Set::new(|uid: u32| uids.contains(uid) && self.cancelable(uid))
    }

    /// The count of a cancellation is the number of the tasks that it
    /// cancels: the tasks of the list that had not reached a terminal
    /// status.
    pub proof fn lemma_canceled_count(self, uids: Seq<u32>, canceling: u32, now: i128)
        requires
            self.consistent(),
            uids.no_duplicates(),
        ensures
            self.cancelable_among(uids).finite(),
            self.canceled_count(uids, canceling, now) == self.cancelable_among(uids).len(),
            self.canceled_count(uids, canceling, now) <= uids.len(),
        decreases uids.len(),
    {
        let all = self.cancelable_among(uids);
        if uids.len() == 0 {
            assert(all =~= Set::<u32>::empty());
        } else {
            let rest = uids.drop_last();
            let last = uids.last();
            let g = self.after_cancel_all(rest, canceling, now);
            let fewer = self.cancelable_among(rest);
            self.lemma_canceled_count(rest, canceling, now);
            self.lemma_after_cancel_all(rest, canceling, now);
            assert(uids[uids.len() - 1] == last);
            assert(!rest.contains(last)) by {
                if rest.contains(last) {
                    let j = choose|j: int| 0 <= j < rest.len() && rest[j] == last;
                    assert(uids[j] == uids[uids.len() - 1]);
                }
            }
            assert(g.cancelable(last) == self.cancelable(last)) by {
                if self.contains(last) {
                    let i = self.index_of(last);
                    self.lemma_task_at(i);
                    assert(g.records[i] == self.records[i]);
                    g.lemma_task_at(i);
                }
                if g.contains(last) {
                    let i = g.index_of(last);
                    assert(g.records[i].uid == last);
                    assert(self.records[i].uid == last);
                }
            }
            assert forall|x: u32| uids.contains(x) == (rest.contains(x) || x == last) by {
                if rest.contains(x) {
                    let j = choose|j: int| 0 <= j < rest.len() && rest[j] == x;
                    assert(uids[j] == x);
                }
                if uids.contains(x) && x != last {
                    let j = choose|j: int| 0 <= j < uids.len() && uids[j] == x;
                    assert(rest[j] == x);
                }
            }
            if self.cancelable(last) {
                assert(all =~= fewer.insert(last));
            } else {
                assert(all =~= fewer);
            }
        }
    }

    /// To cancel tasks that have all reached a terminal status changes
    /// nothing.
    pub proof fn lemma_cancel_all_terminal_is_noop(self, uids: Seq<u32>, canceling: u32, now: i128)
        requires
            self.consistent(),
            forall|i: int|
                0 <= i < self.records.len() && uids.contains((#[trigger] self.records[i]).uid)
                    ==> self.records[i].status.terminal(),
        ensures
            self.after_cancel_all(uids, canceling, now) == self,
        decreases uids.len(),
    {
        if uids.len() > 0 {
            let rest = uids.drop_last();
            let last = uids.last();
            assert forall|i: int|
                0 <= i < self.records.len() && rest.contains((#[trigger] self.records[i]).uid)
                implies self.records[i].status.terminal() by {
                let j = choose|j: int| 0 <= j < rest.len() && rest[j] == self.records[i].uid;
                assert(uids[j] == self.records[i].uid);
            }
            self.lemma_cancel_all_terminal_is_noop(rest, canceling, now);
            assert(uids[uids.len() - 1] == last);
            if self.contains(last) {
                self.lemma_task_at(self.index_of(last));
            }
        }
    }

    /// To cancel the same tasks twice gives the same store as to cancel
    /// them once, whoever asks the second time and whenever.
    pub proof fn lemma_cancel_all_twice(
        self,
        uids: Seq<u32>,
        canceling: u32,
        now: i128,
        canceling_again: u32,
        later: i128,
    )
        requires
            self.consistent(),
        ensures
            self.after_cancel_all(uids, canceling, now).after_cancel_all(
                uids,
                canceling_again,
                later,
            ) == self.after_cancel_all(uids, canceling, now),
    {
        let f = self.after_cancel_all(uids, canceling, now);
        self.lemma_after_cancel_all(uids, canceling, now);
        f.lemma_cancel_all_terminal_is_noop(uids, canceling_again, later);
    }

    /// The record at a position is the record of its identifier.
    pub proof fn lemma_task_at(self, i: int)
        requires
            self.records_wf(),
            0 <= i < self.records.len(),
        ensures
            self.contains(self.records[i].uid),
            self.index_of(self.records[i].uid) == i,
            self.task(self.records[i].uid) == self.records[i],
    {
        let uid = self.records[i].uid;
        let j = self.index_of(uid);
        assert(0 <= j < self.records.len() && self.records[j].uid == uid);
        if j < i {
            assert(self.records[j].uid < self.records[i].uid);
        } else if i < j {
            assert(self.records[i].uid < self.records[j].uid);
        }
    }
}

} // verus!
