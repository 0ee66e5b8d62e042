use index_scheduler::query::Query;
use index_scheduler::store::{Error, TaskStore};
use index_scheduler::task::{
    Details, IndexDocumentsMethod, IndexSwap, Kind, KindWithContent, ResponseError, Status,
};
use roaring::RoaringBitmap;

fn addition(index: &str, count: u64) -> (KindWithContent, Option<Details>) {
    (
        KindWithContent::DocumentAdditionOrUpdate {
            index_uid: index.to_string(),
            primary_key: None,
            method: IndexDocumentsMethod::ReplaceDocuments,
            content_file: 0,
            documents_count: count,
            allow_index_creation: true,
        },
        Some(Details::DocumentAdditionOrUpdate { received_documents: count, indexed_documents: None }),
    )
}

fn creation(index: &str) -> (KindWithContent, Option<Details>) {
    (
        KindWithContent::IndexCreation { index_uid: index.to_string(), primary_key: None },
        Some(Details::IndexInfo { primary_key: None }),
    )
}

fn swap(a: &str, b: &str) -> (KindWithContent, Option<Details>) {
    (
        KindWithContent::IndexSwap {
            swaps: vec![IndexSwap { indexes: (a.to_string(), b.to_string()) }],
        },
        Some(Details::IndexSwap {
            swaps: vec![IndexSwap { indexes: (a.to_string(), b.to_string()) }],
        }),
    )
}

fn ids(bitmap: Option<&RoaringBitmap>) -> Vec<u32> {
    match bitmap {
        Some(b) => b.iter().collect(),
        None => vec![],
    }
}

fn bitmap(values: &[u32]) -> RoaringBitmap {
    values.iter().copied().collect()
}

fn filled() -> TaskStore {
    let mut store = TaskStore::new();
    let (k, d) = addition("doggos", 3);
    store.enqueue(k, d, 10).unwrap();
    let (k, d) = creation("catto");
    store.enqueue(k, d, 11).unwrap();
    let (k, d) = addition("doggos", 5);
    store.enqueue(k, d, 12).unwrap();
    let (k, d) = swap("catto", "doggos");
    store.enqueue(k, d, 12).unwrap();
    store
}

#[test]
fn enqueue_gives_increasing_uids() {
    let mut store = TaskStore::new();
    let (k, d) = addition("doggos", 3);
    assert_eq!(store.enqueue(k, d, 10).unwrap(), 0);
    let (k, d) = addition("doggos", 5);
    assert_eq!(store.enqueue(k, d, 11).unwrap(), 1);
    let (k, d) = addition("catto", 1);
    assert_eq!(store.enqueue(k, d, 12).unwrap(), 2);
    assert_eq!(store.len(), 3);
    assert_eq!(store.next_uid(), 3);
    let task = store.get(1).unwrap();
    assert_eq!(task.uid, 1);
    assert_eq!(task.status, Status::Enqueued);
    assert_eq!(task.enqueued_at, 11);
    assert_eq!(task.started_at, None);
    assert_eq!(task.finished_at, None);
    assert_eq!(task.kind.as_kind(), Kind::DocumentAdditionOrUpdate);
    assert!(matches!(store.get(7), Err(Error::TaskNotFound(7))));
}

#[test]
fn enqueue_files_the_task_in_every_index() {
    let store = filled();
    assert_eq!(ids(store.status_table().get(&Status::Enqueued)), vec![0, 1, 2, 3]);
    assert_eq!(ids(store.status_table().get(&Status::Processing)), Vec::<u32>::new());
    assert_eq!(ids(store.kind_table().get(&Kind::DocumentAdditionOrUpdate)), vec![0, 2]);
    assert_eq!(ids(store.kind_table().get(&Kind::IndexCreation)), vec![1]);
    assert_eq!(ids(store.kind_table().get(&Kind::IndexSwap)), vec![3]);
    assert_eq!(ids(store.index_tasks_table().get(&"doggos".to_string())), vec![0, 2, 3]);
    assert_eq!(ids(store.index_tasks_table().get(&"catto".to_string())), vec![1, 3]);
    assert_eq!(ids(store.enqueued_at_table().get(&12)), vec![2, 3]);
    assert_eq!(store.started_at_table().len(), 0);
    assert_eq!(store.finished_at_table().len(), 0);
    assert_eq!(store.canceled_by_table().len(), 0);
}

#[test]
fn enqueue_refuses_details_of_another_shape() {
    let mut store = TaskStore::new();
    let (k, _) = addition("doggos", 3);
    let r = store.enqueue(k, Some(Details::ClearAll { deleted_documents: None }), 1);
    assert!(matches!(r, Err(Error::InvalidDetails)));
    assert_eq!(store.len(), 0);
    assert_eq!(store.next_uid(), 0);
    let r = store.enqueue(KindWithContent::SnapshotCreation, None, 1);
    assert_eq!(r.unwrap(), 0);
    let r = store.enqueue(KindWithContent::DumpCreation, None, 1);
    assert!(matches!(r, Err(Error::InvalidDetails)));
}

#[test]
fn transition_moves_the_task_between_buckets() {
    let mut store = filled();
    store.transition(0, Status::Processing, 20, None, None).unwrap();
    assert_eq!(ids(store.status_table().get(&Status::Enqueued)), vec![1, 2, 3]);
    assert_eq!(ids(store.status_table().get(&Status::Processing)), vec![0]);
    assert_eq!(ids(store.started_at_table().get(&20)), vec![0]);
    let task = store.get(0).unwrap();
    assert_eq!(task.status, Status::Processing);
    assert_eq!(task.started_at, Some(20));
    assert_eq!(task.finished_at, None);

    store.transition(0, Status::Succeeded, 30, Some(3), None).unwrap();
    assert_eq!(store.status_table().get(&Status::Processing), None);
    assert_eq!(ids(store.status_table().get(&Status::Succeeded)), vec![0]);
    assert_eq!(ids(store.finished_at_table().get(&30)), vec![0]);
    let task = store.get(0).unwrap();
    assert_eq!(task.status, Status::Succeeded);
    assert_eq!(task.started_at, Some(20));
    assert_eq!(task.finished_at, Some(30));
    assert!(matches!(
        task.details,
        Some(Details::DocumentAdditionOrUpdate { received_documents: 3, indexed_documents: Some(3) })
    ));
    assert!(task.error.is_none());
}

#[test]
fn transition_records_the_error_of_a_failed_task() {
    let mut store = filled();
    store.transition(1, Status::Processing, 20, None, None).unwrap();
    let error = ResponseError {
        code: 400,
        message: "Index `catto` already exists.".to_string(),
        error_code: "index_already_exists".to_string(),
        error_type: "invalid_request".to_string(),
        error_link: "https://docs.meilisearch.com/errors#index_already_exists".to_string(),
    };
    store.transition(1, Status::Failed, 21, None, Some(error)).unwrap();
    let task = store.get(1).unwrap();
    assert_eq!(task.status, Status::Failed);
    assert_eq!(task.error.as_ref().unwrap().error_code, "index_already_exists");
    assert_eq!(ids(store.status_table().get(&Status::Failed)), vec![1]);
}

#[test]
fn transition_refuses_unknown_tasks_and_forbidden_moves() {
    let mut store = filled();
    assert!(matches!(
        store.transition(9, Status::Processing, 20, None, None),
        Err(Error::TaskNotFound(9))
    ));
    assert!(matches!(
        store.transition(0, Status::Succeeded, 20, None, None),
        Err(Error::InvalidTransition { uid: 0, from: Status::Enqueued, to: Status::Succeeded })
    ));
    store.transition(0, Status::Processing, 20, None, None).unwrap();
    store.transition(0, Status::Failed, 21, None, None).unwrap();
    assert!(matches!(
        store.transition(0, Status::Enqueued, 22, None, None),
        Err(Error::InvalidTransition { uid: 0, from: Status::Failed, to: Status::Enqueued })
    ));
    assert!(matches!(
        store.transition(0, Status::Processing, 22, None, None),
        Err(Error::InvalidTransition { .. })
    ));
    let task = store.get(0).unwrap();
    assert_eq!(task.status, Status::Failed);
    assert_eq!(task.finished_at, Some(21));
}

#[test]
fn every_task_is_in_exactly_one_status_bucket() {
    let mut store = filled();
    store.transition(0, Status::Processing, 20, None, None).unwrap();
    store.transition(0, Status::Succeeded, 21, None, None).unwrap();
    store.transition(1, Status::Processing, 22, None, None).unwrap();
    store.cancel(&bitmap(&[2]), 3, 23);
    let all = [
        Status::Enqueued,
        Status::Processing,
        Status::Succeeded,
        Status::Failed,
        Status::Canceled,
    ];
    let mut union = RoaringBitmap::new();
    for uid in 0..4u32 {
        let status = store.get(uid).unwrap().status;
        let mut holders = 0;
        for s in all {
            if ids(store.status_table().get(&s)).contains(&uid) {
                holders += 1;
                assert_eq!(s, status);
            }
        }
        assert_eq!(holders, 1);
    }
    for s in all {
        for uid in ids(store.status_table().get(&s)) {
            union.insert(uid);
        }
    }
    assert_eq!(union.iter().collect::<Vec<u32>>(), vec![0, 1, 2, 3]);
    let mut kinds = RoaringBitmap::new();
    for i in 0..store.kind_table().len() {
        kinds |= store.kind_table().ids_at(i);
    }
    assert_eq!(kinds.iter().collect::<Vec<u32>>(), vec![0, 1, 2, 3]);
}

#[test]
fn cancel_affects_only_unfinished_tasks() {
    let mut store = filled();
    store.transition(0, Status::Processing, 20, None, None).unwrap();
    store.transition(0, Status::Succeeded, 21, Some(3), None).unwrap();
    store.transition(1, Status::Processing, 22, None, None).unwrap();
    let n = store.cancel(&bitmap(&[0, 1, 2, 40]), 3, 25);
    assert_eq!(n, 2);
    assert_eq!(store.get(0).unwrap().status, Status::Succeeded);
    assert_eq!(store.get(0).unwrap().canceled_by, None);
    assert_eq!(store.get(0).unwrap().finished_at, Some(21));
    for uid in [1u32, 2] {
        let task = store.get(uid).unwrap();
        assert_eq!(task.status, Status::Canceled);
        assert_eq!(task.canceled_by, Some(3));
        assert_eq!(task.finished_at, Some(25));
    }
    assert_eq!(store.get(1).unwrap().started_at, Some(22));
    assert_eq!(store.get(2).unwrap().started_at, None);
    assert_eq!(store.get(3).unwrap().status, Status::Enqueued);
    assert_eq!(ids(store.canceled_by_table().get(&3)), vec![1, 2]);
    assert_eq!(ids(store.status_table().get(&Status::Canceled)), vec![1, 2]);
    assert_eq!(ids(store.status_table().get(&Status::Enqueued)), vec![3]);
    assert_eq!(ids(store.finished_at_table().get(&25)), vec![1, 2]);
}

#[test]
fn cancel_twice_is_the_same_as_once() {
    let mut store = filled();
    let first = store.cancel(&bitmap(&[0, 2]), 3, 25);
    assert_eq!(first, 2);
    let once = index_scheduler::insta_snapshot::snapshot_all_tasks(&store);
    let status = index_scheduler::insta_snapshot::snapshot_status(store.status_table());
    let canceled_by = index_scheduler::insta_snapshot::snapshot_canceled_by(store.canceled_by_table());
    let second = store.cancel(&bitmap(&[0, 2]), 1, 99);
    assert_eq!(second, 0);
    assert_eq!(index_scheduler::insta_snapshot::snapshot_all_tasks(&store), once);
    assert_eq!(index_scheduler::insta_snapshot::snapshot_status(store.status_table()), status);
    assert_eq!(
        index_scheduler::insta_snapshot::snapshot_canceled_by(store.canceled_by_table()),
        canceled_by
    );
    assert_eq!(store.get(0).unwrap().canceled_by, Some(3));
    assert_eq!(store.get(0).unwrap().finished_at, Some(25));
}

#[test]
fn delete_removes_finished_tasks_and_never_reuses_a_uid() {
    let mut store = filled();
    store.cancel(&bitmap(&[0, 1]), 3, 25);
    let n = store.delete(&bitmap(&[0, 1, 2, 77]));
    assert_eq!(n, 2);
    assert_eq!(store.len(), 2);
    assert!(matches!(store.get(0), Err(Error::TaskNotFound(0))));
    assert!(matches!(store.get(1), Err(Error::TaskNotFound(1))));
    assert_eq!(store.get(2).unwrap().status, Status::Enqueued);
    assert_eq!(store.status_table().get(&Status::Canceled), None);
    assert_eq!(store.canceled_by_table().len(), 0);
    assert_eq!(store.index_tasks_table().get(&"catto".to_string()).map(|b| b.len()), Some(1));
    assert_eq!(ids(store.index_tasks_table().get(&"doggos".to_string())), vec![2, 3]);
    assert_eq!(store.kind_table().get(&Kind::IndexCreation), None);
    assert_eq!(store.enqueued_at_table().len(), 1);
    assert_eq!(store.finished_at_table().len(), 0);
    assert_eq!(store.next_uid(), 4);
    let (k, d) = addition("doggos", 1);
    assert_eq!(store.enqueue(k, d, 30).unwrap(), 4);
    let n = store.delete(&bitmap(&[2, 3, 4]));
    assert_eq!(n, 0);
    store.cancel(&bitmap(&[2, 3, 4]), 4, 31);
    assert_eq!(store.delete(&bitmap(&[2, 3, 4])), 3);
    assert_eq!(store.len(), 0);
    let (k, d) = addition("doggos", 1);
    assert_eq!(store.enqueue(k, d, 32).unwrap(), 5);
}

#[test]
fn query_intersects_the_parts_of_the_filter() {
    let mut store = filled();
    store.transition(0, Status::Processing, 20, None, None).unwrap();
    store.transition(0, Status::Succeeded, 25, None, None).unwrap();
    store.transition(2, Status::Processing, 26, None, None).unwrap();

    assert_eq!(store.query(&Query::new()), vec![0, 1, 2, 3]);

    let mut q = Query::new();
    q.reverse = true;
    assert_eq!(store.query(&q), vec![3, 2, 1, 0]);

    let mut q = Query::new();
    q.statuses = vec![Status::Enqueued, Status::Processing];
    assert_eq!(store.query(&q), vec![1, 2, 3]);

    let mut q = Query::new();
    q.index_uids = vec!["doggos".to_string()];
    assert_eq!(store.query(&q), vec![0, 2, 3]);
    q.kinds = vec![Kind::DocumentAdditionOrUpdate];
    assert_eq!(store.query(&q), vec![0, 2]);
    q.statuses = vec![Status::Succeeded];
    assert_eq!(store.query(&q), vec![0]);
    q.uids = vec![2, 3];
    assert_eq!(store.query(&q), Vec::<u32>::new());

    let mut q = Query::new();
    q.uids = vec![3, 1, 42];
    assert_eq!(store.query(&q), vec![1, 3]);

    let mut q = Query::new();
    q.index_uids = vec!["catto".to_string(), "girafos".to_string()];
    assert_eq!(store.query(&q), vec![1, 3]);

    let mut q = Query::new();
    q.after_enqueued_at = Some(10);
    assert_eq!(store.query(&q), vec![1, 2, 3]);
    q.before_enqueued_at = Some(12);
    assert_eq!(store.query(&q), vec![1]);

    let mut q = Query::new();
    q.before_started_at = Some(100);
    assert_eq!(store.query(&q), vec![0, 2]);
    q.after_started_at = Some(20);
    assert_eq!(store.query(&q), vec![2]);

    let mut q = Query::new();
    q.after_finished_at = Some(0);
    assert_eq!(store.query(&q), vec![0]);
    q.after_finished_at = Some(25);
    assert_eq!(store.query(&q), Vec::<u32>::new());
}

#[test]
fn revert_start_puts_the_task_back() {
    let mut store = filled();
    let before = index_scheduler::insta_snapshot::snapshot_all_tasks(&store);
    store.transition(2, Status::Processing, 20, None, None).unwrap();
    assert!(store.revert_start(2));
    assert!(!store.revert_start(2));
    assert!(!store.revert_start(50));
    assert_eq!(index_scheduler::insta_snapshot::snapshot_all_tasks(&store), before);
    assert_eq!(ids(store.status_table().get(&Status::Enqueued)), vec![0, 1, 2, 3]);
    assert_eq!(store.status_table().get(&Status::Processing), None);
    assert_eq!(store.started_at_table().len(), 0);
    assert_eq!(store.get(2).unwrap().started_at, None);
}

fn texts(store: &TaskStore) -> Vec<String> {
    vec![
        index_scheduler::insta_snapshot::snapshot_all_tasks(store),
        index_scheduler::insta_snapshot::snapshot_status(store.status_table()),
        index_scheduler::insta_snapshot::snapshot_kind(store.kind_table()),
        index_scheduler::insta_snapshot::snapshot_index_tasks(store.index_tasks_table()),
        index_scheduler::insta_snapshot::snapshot_canceled_by(store.canceled_by_table()),
        index_scheduler::insta_snapshot::snapshot_date_db(store.enqueued_at_table()),
        index_scheduler::insta_snapshot::snapshot_date_db(store.started_at_table()),
        index_scheduler::insta_snapshot::snapshot_date_db(store.finished_at_table()),
        format!("{:?}", store.records().iter().map(|t| (t.enqueued_at, t.started_at, t.finished_at)).collect::<Vec<_>>()),
    ]
}

#[test]
fn restore_builds_the_same_store_from_its_records() {
    let mut store = filled();
    store.transition(0, Status::Processing, 20, None, None).unwrap();
    store.transition(0, Status::Succeeded, 25, Some(3), None).unwrap();
    store.transition(2, Status::Processing, 26, None, None).unwrap();
    store.cancel(&bitmap(&[1]), 3, 27);
    store.delete(&bitmap(&[0]));
    let restored = TaskStore::restore(store.records().clone(), store.next_uid()).unwrap();
    assert_eq!(texts(&restored), texts(&store));
    assert_eq!(restored.next_uid(), 4);
    assert_eq!(restored.len(), 3);
    assert_eq!(ids(restored.status_table().get(&Status::Processing)), vec![2]);
    assert_eq!(ids(restored.canceled_by_table().get(&3)), vec![1]);

    let empty = TaskStore::restore(vec![], 9).unwrap();
    assert_eq!(empty.len(), 0);
    assert_eq!(empty.next_uid(), 9);
}

#[test]
fn restore_refuses_records_that_are_no_store() {
    let store = filled();
    let good = store.records().clone();
    assert!(TaskStore::restore(good.clone(), 4).is_ok());
    // an identifier at or above the next one
    assert!(matches!(TaskStore::restore(good.clone(), 3), Err(Error::CorruptedTaskQueue)));
    // identifiers out of order, or twice
    let mut swapped = good.clone();
    swapped.swap(1, 2);
    assert!(matches!(TaskStore::restore(swapped, 4), Err(Error::CorruptedTaskQueue)));
    let mut twice = good.clone();
    twice[2].uid = 1;
    assert!(matches!(TaskStore::restore(twice, 4), Err(Error::CorruptedTaskQueue)));
    // a status that the dates do not bear out
    let mut started = good.clone();
    started[0].status = Status::Processing;
    assert!(matches!(TaskStore::restore(started, 4), Err(Error::CorruptedTaskQueue)));
    let mut finished = good.clone();
    finished[0].finished_at = Some(3);
    assert!(matches!(TaskStore::restore(finished, 4), Err(Error::CorruptedTaskQueue)));
    let mut succeeded = good.clone();
    succeeded[0].status = Status::Succeeded;
    succeeded[0].finished_at = Some(3);
    assert!(matches!(TaskStore::restore(succeeded, 4), Err(Error::CorruptedTaskQueue)));
    // a canceling task on a task that is not canceled
    let mut canceled = good.clone();
    canceled[0].canceled_by = Some(3);
    assert!(matches!(TaskStore::restore(canceled, 4), Err(Error::CorruptedTaskQueue)));
    // details of another shape
    let mut details = good.clone();
    details[1].details = None;
    assert!(matches!(TaskStore::restore(details, 4), Err(Error::CorruptedTaskQueue)));
}

#[test]
fn requeue_puts_every_processing_task_back() {
    let mut store = filled();
    let before = texts(&store);
    assert_eq!(store.requeue_processing(), 0);
    store.transition(0, Status::Processing, 20, None, None).unwrap();
    store.transition(2, Status::Processing, 20, None, None).unwrap();
    store.transition(3, Status::Processing, 21, None, None).unwrap();
    assert_eq!(store.requeue_processing(), 3);
    assert_eq!(texts(&store), before);
    assert_eq!(store.status_table().get(&Status::Processing), None);
    assert_eq!(store.started_at_table().len(), 0);
}
