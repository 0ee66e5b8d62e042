//! The batching policy: which enqueued tasks are executed next, and
//! together.

use crate::bitmap::{
    ascending_seq, bitmap_intersection, bitmap_members, bitmap_set, is_ascending,
    lemma_ascending_exists, lemma_ascending_unique,
};
use crate::store::TaskStore;
use crate::table::{bucket_of, BitmapTable, TableKey};
use crate::task::{Kind, KindWithContent, Status, Task};
use crate::view::{by_index, by_kind, by_status, StoreView};
use roaring::RoaringBitmap;
use vstd::prelude::*;

verus! {

/// Whether the task `next` can be executed together with the task `first`
/// of the same index: additions of documents with the same method go
/// together, and so do deletions of documents by their identifiers. Any
/// other operation is executed alone.
pub open spec fn mergeable(first: KindWithContent, next: KindWithContent) -> bool {
    match (first, next) {
        (
            KindWithContent::DocumentAdditionOrUpdate { method: a, .. },
            KindWithContent::DocumentAdditionOrUpdate { method: b, .. },
        ) => a == b,
        (KindWithContent::DocumentDeletion { .. }, KindWithContent::DocumentDeletion { .. }) => true,
        _ => false,
    }
}

/// Whether two operations can be executed together.
pub fn can_merge(first: &KindWithContent, next: &KindWithContent) -> (b: bool)
    ensures
        b == mergeable(*first, *next),
{
    match first {
        KindWithContent::DocumentAdditionOrUpdate { method: a, .. } => match next {
            KindWithContent::DocumentAdditionOrUpdate { method: b, .. } => *a == *b,
            _ => false,
        },
        KindWithContent::DocumentDeletion { .. } => match next {
            KindWithContent::DocumentDeletion { .. } => true,
            _ => false,
        },
        _ => false,
    }
}

/// The enqueued tasks.
pub open spec fn enqueued(v: StoreView) -> Set<u32> {
    bucket_of(v.status, Status::Enqueued)
}

/// The enqueued tasks that ask for a cancellation.
pub open spec fn enqueued_cancelations(v: StoreView) -> Set<u32> {
    enqueued(v).intersect(bucket_of(v.kind, Kind::TaskCancelation))
}

/// The enqueued tasks that target an index.
pub open spec fn enqueued_on(v: StoreView, index: Seq<char>) -> Set<u32> {
    enqueued(v).intersect(bucket_of(v.index_tasks, index))
}

/// Whether `batch` is the batch that the policy selects.
///
/// A cancellation never waits behind the work that it may cancel: where a
/// cancellation is enqueued, the oldest one is the batch. Otherwise the
/// batch starts with the oldest enqueued task. Without autobatching, and for
/// a task that does not work on one index, it ends there. With
/// autobatching it goes on through the enqueued tasks of the same index, in
/// the order of their identifiers, as long as they can be merged with the
/// first one, and stops before the first task that cannot. Where nothing is
/// enqueued the batch is empty.
pub open spec fn is_next_batch(v: StoreView, autobatching: bool, batch: Seq<u32>) -> bool {
    if enqueued_cancelations(v) != Set::<u32>::empty() {
        batch == seq![ascending_seq(enqueued_cancelations(v))[0]]
    } else if enqueued(v) == Set::<u32>::empty() {
        batch == Seq::<u32>::empty()
    } else {
        let first = ascending_seq(enqueued(v))[0];
        if !autobatching || v.task(first).kind.index_uid() is None {
            batch == seq![first]
        } else {
            let same = ascending_seq(enqueued_on(v, v.task(first).kind.index_uid()->0));
            &&& 1 <= batch.len() <= same.len()
            &&& batch == same.take(batch.len() as int)
            &&& batch[0] == first
            &&& forall|i: int|
                1 <= i < batch.len() ==> mergeable(
                    v.task(first).kind,
                    v.task(#[trigger] same[i]).kind,
                )
            &&& batch.len() < same.len() ==> !mergeable(
                v.task(first).kind,
                v.task(same[batch.len() as int]).kind,
            )
        }
    }
}

/// The identifiers filed under a key, or an empty bitmap where the key has
/// no bucket.
fn bucket<K: TableKey>(table: &BitmapTable<K>, key: &K) -> (r:
    RoaringBitmap)
    requires
        table.wf(),
    ensures
        bitmap_set(r) == bucket_of(table@, key@),
{
    match table.get(key) {
        Some(ids) => ids.clone(),
        None => RoaringBitmap::new(),
    }
}

/// An increasing sequence is empty exactly when its set of members is.
proof fn lemma_members_empty(s: Set<u32>)
    ensures
        is_ascending(ascending_seq(s)),
        ascending_seq(s).to_set() == s,
        (ascending_seq(s).len() == 0) == (s == Set::<u32>::empty()),
        forall|i: int| 0 <= i < ascending_seq(s).len() ==> s.contains(#[trigger] ascending_seq(s)[i]),
{
    lemma_ascending_exists(s);
    let q = ascending_seq(s);
    if q.len() == 0 {
        assert(s =~= Set::<u32>::empty()) by {
            assert forall|x: u32| !s.contains(x) by {
                assert(q.to_set().contains(x) == q.contains(x));
            }
        }
    } else {
        assert(q.contains(q[0]));
        assert(q.to_set().contains(q[0]));
    }
    assert forall|i: int| 0 <= i < q.len() implies s.contains(#[trigger] q[i]) by {
        assert(q.contains(q[i]));
        assert(q.to_set().contains(q[i]));
    }
}

/// The members of the batch that the policy selects are enqueued tasks, in
/// the increasing order of their identifiers.
pub proof fn lemma_next_batch_members(v: StoreView, autobatching: bool, batch: Seq<u32>)
    requires
        is_next_batch(v, autobatching, batch),
    ensures
        is_ascending(batch),
        forall|i: int| 0 <= i < batch.len() ==> enqueued(v).contains(#[trigger] batch[i]),
{
    lemma_members_empty(enqueued_cancelations(v));
    lemma_members_empty(enqueued(v));
    if enqueued_cancelations(v) != Set::<u32>::empty() {
    } else if enqueued(v) == Set::<u32>::empty() {
    } else {
        let first = ascending_seq(enqueued(v))[0];
        if !autobatching || v.task(first).kind.index_uid() is None {
        } else {
            let index = v.task(first).kind.index_uid()->0;
            lemma_members_empty(enqueued_on(v, index));
            let same = ascending_seq(enqueued_on(v, index));
            assert forall|i: int| 0 <= i < batch.len() implies enqueued(v).contains(
                #[trigger] batch[i],
            ) by {
                assert(batch[i] == same[i]);
                assert(enqueued_on(v, index).contains(same[i]));
            }
            assert forall|i: int, j: int| 0 <= i < j < batch.len() implies batch[i] < batch[j] by {
                assert(batch[i] == same[i] && batch[j] == same[j]);
            }
        }
    }
}

/// A run of tasks that can be merged with the first one ends somewhere: at
/// the end of the list, or before the first task that cannot be merged.
proof fn lemma_run_ends(v: StoreView, first: KindWithContent, same: Seq<u32>, k: int) -> (n: int)
    requires
        1 <= k <= same.len(),
        forall|i: int| 1 <= i < k ==> mergeable(first, v.task(#[trigger] same[i]).kind),
    ensures
        k <= n <= same.len(),
        forall|i: int| 1 <= i < n ==> mergeable(first, v.task(#[trigger] same[i]).kind),
        n < same.len() ==> !mergeable(first, v.task(same[n]).kind),
    decreases same.len() - k,
{
    if k < same.len() && mergeable(first, v.task(same[k]).kind) {
        lemma_run_ends(v, first, same, k + 1)
    } else {
        k
    }
}

/// The policy selects a batch from every consistent store.
pub proof fn lemma_next_batch_exists(v: StoreView, autobatching: bool)
    requires
        v.consistent(),
    ensures
        exists|batch: Seq<u32>| is_next_batch(v, autobatching, batch),
{
    lemma_members_empty(enqueued_cancelations(v));
    lemma_members_empty(enqueued(v));
    if enqueued_cancelations(v) != Set::<u32>::empty() {
        assert(is_next_batch(v, autobatching, seq![ascending_seq(enqueued_cancelations(v))[0]]));
    } else if enqueued(v) == Set::<u32>::empty() {
        assert(is_next_batch(v, autobatching, Seq::<u32>::empty()));
    } else {
        let all = ascending_seq(enqueued(v));
        let first = all[0];
        if !autobatching || v.task(first).kind.index_uid() is None {
            assert(is_next_batch(v, autobatching, seq![first]));
        } else {
            let index = v.task(first).kind.index_uid()->0;
            let same = ascending_seq(enqueued_on(v, index));
            lemma_members_empty(enqueued_on(v, index));
            v.lemma_status_bucket(Status::Enqueued);
            v.lemma_filed_iff(v.index_tasks, by_index(), index, first);
            assert(v.task(first).kind.targets().contains(index));
            assert(enqueued_on(v, index).contains(first));
            assert(same.to_set().contains(first));
            assert(same.contains(first));
            let at = choose|i: int| 0 <= i < same.len() && same[i] == first;
            assert(enqueued(v).contains(same[0]));
            assert(all.to_set().contains(same[0]));
            assert(all.contains(same[0]));
            let back = choose|i: int| 0 <= i < all.len() && all[i] == same[0];
            if back > 0 {
                assert(all[0] < all[back]);
            }
            if at > 0 {
                assert(same[0] < same[at]);
            }
            assert(same[0] == first);
            let n = lemma_run_ends(v, v.task(first).kind, same, 1);
            let batch = same.take(n);
            assert(batch =~= same.take(batch.len() as int));
            assert(is_next_batch(v, autobatching, batch));
        }
    }
}

/// The identifiers of the records, in the order of the records.
pub open spec fn record_uids(records: Seq<Task>) -> Seq<u32> {
    Seq::new(records.len(), |i: int| records[i].uid)
}

/// With autobatching, the enqueued tasks of one index that can all be
/// executed together are one batch: where no cancellation is enqueued and
/// every enqueued task of the index of the oldest enqueued task can be
/// merged with that task, the batch holds all of them, in the order of
/// their identifiers.
pub proof fn lemma_mergeable_tasks_are_one_batch(v: StoreView, batch: Seq<u32>)
    requires
        is_next_batch(v, true, batch),
        enqueued_cancelations(v) == Set::<u32>::empty(),
        enqueued(v) != Set::<u32>::empty(),
        ({
            let first = v.task(ascending_seq(enqueued(v))[0]).kind;
            &&& first.index_uid() is Some
            &&& forall|uid: u32|
                enqueued_on(v, first.index_uid()->0).contains(uid) ==> mergeable(
                    first,
                    #[trigger] v.task(uid).kind,
                )
        }),
    ensures
        batch == ascending_seq(
            enqueued_on(v, v.task(ascending_seq(enqueued(v))[0]).kind.index_uid()->0),
        ),
{
    let first = v.task(ascending_seq(enqueued(v))[0]).kind;
    let index = first.index_uid()->0;
    let same = ascending_seq(enqueued_on(v, index));
    lemma_members_empty(enqueued_on(v, index));
    if batch.len() < same.len() {
        let next = same[batch.len() as int];
        assert(enqueued_on(v, index).contains(next));
        assert(mergeable(first, v.task(next).kind));
    }
    assert(batch =~= same);
}

/// Where all that the store holds are enqueued tasks of one index that can
/// be merged with the oldest of them, as additions of documents by one
/// method are, autobatching selects them all as one batch.
pub proof fn lemma_whole_queue_is_one_batch(v: StoreView, batch: Seq<u32>, index: Seq<char>)
    requires
        v.consistent(),
        is_next_batch(v, true, batch),
        forall|i: int|
            0 <= i < v.records.len() ==> {
                let t = #[trigger] v.records[i];
                &&& t.status == Status::Enqueued
                &&& t.kind.index_uid() == Some(index)
                &&& mergeable(v.records[0].kind, t.kind)
            },
    ensures
        batch == record_uids(v.records),
{
    let q = record_uids(v.records);
    v.lemma_status_bucket(Status::Enqueued);
    assert forall|uid: u32| enqueued(v).contains(uid) == v.uids().contains(uid) by {
        if v.contains(uid) {
            v.lemma_task_at(v.index_of(uid));
        }
    }
    assert(enqueued(v) =~= v.uids());
    assert forall|uid: u32| !enqueued_cancelations(v).contains(uid) by {
        v.lemma_filed_iff(v.kind, by_kind(), Kind::TaskCancelation, uid);
        if v.contains(uid) {
            v.lemma_task_at(v.index_of(uid));
        }
    }
    assert(enqueued_cancelations(v) =~= Set::<u32>::empty());
    assert forall|uid: u32| enqueued_on(v, index).contains(uid) == v.uids().contains(uid) by {
        v.lemma_filed_iff(v.index_tasks, by_index(), index, uid);
        if v.contains(uid) {
            v.lemma_task_at(v.index_of(uid));
            assert(v.task(uid).kind.targets() =~= set![index]);
        }
    }
    assert(enqueued_on(v, index) =~= v.uids());
    assert forall|uid: u32| q.to_set().contains(uid) == v.uids().contains(uid) by {
        assert(q.to_set().contains(uid) == q.contains(uid));
        if q.contains(uid) {
            let i = choose|i: int| 0 <= i < q.len() && q[i] == uid;
            assert(v.records[i].uid == uid);
        }
        if v.contains(uid) {
            let i = v.index_of(uid);
            assert(q[i] == uid);
        }
    }
    assert(q.to_set() =~= v.uids());
    assert(is_ascending(q));
    lemma_ascending_exists(v.uids());
    lemma_ascending_unique(q, ascending_seq(v.uids()));
    if v.records.len() == 0 {
        assert(v.uids() =~= Set::<u32>::empty());
        assert(batch =~= q);
    } else {
        assert(v.contains(v.records[0].uid));
        assert(q[0] == v.records[0].uid);
        v.lemma_task_at(0);
        assert forall|uid: u32| enqueued_on(v, index).contains(uid) implies mergeable(
            v.records[0].kind,
            #[trigger] v.task(uid).kind,
        ) by {
            v.lemma_task_at(v.index_of(uid));
        }
        lemma_mergeable_tasks_are_one_batch(v, batch);
    }
}

/// Selects the next batch.
pub fn create_next_batch(store: &TaskStore, autobatching: bool) -> (batch: Vec<u32>)
    requires
        store.wf(),
    ensures
        is_next_batch(store@, autobatching, batch@),
        forall|i: int| 0 <= i < batch@.len() ==> enqueued(store@).contains(#[trigger] batch@[i]),
        is_ascending(batch@),
{
    let ghost v = store@;
    proof {
        store.lemma_wf_consistent();
    }
    let waiting = bucket(store.status_table(), &Status::Enqueued);
    let cancelations = bitmap_intersection(
        &waiting,
        &bucket(store.kind_table(), &Kind::TaskCancelation),
    );
    proof {
        lemma_members_empty(enqueued_cancelations(v));
        lemma_members_empty(enqueued(v));
    }
    let urgent = bitmap_members(&cancelations);
    if urgent.len() > 0 {
        let mut batch = Vec::new();
        batch.push(urgent[0]);
        assert(batch@ =~= seq![ascending_seq(enqueued_cancelations(v))[0]]);
        return batch;
    }
    let queue = bitmap_members(&waiting);
    if queue.len() == 0 {
        return Vec::new();
    }
    let first = queue[0];
    let mut batch = Vec::new();
    batch.push(first);
    assert(batch@ =~= seq![first]);
    if !autobatching {
        return batch;
    }
    proof {
        v.lemma_filed_iff(v.status, by_status(), Status::Enqueued, first);
    }
    let head = match store.get(first) {
        Ok(task) => task,
        Err(_) => {
            return batch;
        },
    };
    let index = match head.kind.single_index() {
        Some(index) => index,
        None => {
            return batch;
        },
    };
    let same_index = bitmap_intersection(&waiting, &bucket(store.index_tasks_table(), index));
    let same = bitmap_members(&same_index);
    proof {
        lemma_members_empty(enqueued_on(v, index@));
        v.lemma_filed_iff(v.index_tasks, by_index(), index@, first);
        assert(head.kind.targets().contains(index@));
        assert(enqueued_on(v, index@).contains(first));
        // the oldest enqueued task is the oldest one of its index
        assert(same@.to_set().contains(first));
        assert(same@.contains(first));
        let at = choose|at: int| 0 <= at < same@.len() && same@[at] == first;
        if at > 0 {
            assert(same@[0] < same@[at]);
            assert(enqueued(v).contains(same@[0]));
            assert(queue@.to_set().contains(same@[0]));
            assert(queue@.contains(same@[0]));
            let j = choose|j: int| 0 <= j < queue@.len() && queue@[j] == same@[0];
            if j > 0 {
                assert(queue@[0] < queue@[j]);
            }
        }
        assert(same@[0] == first);
    }
    let mut i: usize = 1;
    while i < same.len()
        invariant
            store.wf(),
            v == store@,
            v.consistent(),
            1 <= i <= same@.len(),
            batch@ == same@.take(i as int),
            autobatching,
            is_ascending(same@),
            same@[0] == first,
            same@ == ascending_seq(enqueued_on(v, index@)),
            head.kind.index_uid() == Some(index@),
            enqueued_cancelations(v) == Set::<u32>::empty(),
            enqueued(v) != Set::<u32>::empty(),
            first == ascending_seq(enqueued(v))[0],
            *head == v.task(first),
            forall|j: int| 0 <= j < same@.len() ==> enqueued(v).contains(#[trigger] same@[j]),
            forall|j: int|
                1 <= j < i ==> mergeable(v.task(first).kind, v.task(#[trigger] same@[j]).kind),
        decreases same.len() - i,
    {
        proof {
            v.lemma_filed_iff(v.status, by_status(), Status::Enqueued, same@[i as int]);
        }
        let merge = match store.get(same[i]) {
            Ok(next) => can_merge(&head.kind, &next.kind),
            Err(_) => false,
        };
        if !merge {
            return batch;
        }
        batch.push(same[i]);
        proof {
            assert(batch@ =~= same@.take(i + 1));
        }
        i = i + 1;
    }
    proof {
        assert(same@.take(same@.len() as int) =~= same@);
    }
    batch
}

} // verus!
