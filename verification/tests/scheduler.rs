use index_scheduler::insta_snapshot::snapshot_index_scheduler;
use index_scheduler::scheduler::{
    Action, Event, FailureLocation, IndexScheduler, Phase, TaskOutcome,
};
use index_scheduler::store::Error;
use index_scheduler::task::{
    Details, IndexDocumentsMethod, KindWithContent, ResponseError, Status,
};
use roaring::RoaringBitmap;

fn addition(index: &str, count: u64) -> (KindWithContent, Option<Details>) {
    (
        KindWithContent::DocumentAdditionOrUpdate {
            index_uid: index.to_string(),
            primary_key: Some("id".to_string()),
            method: IndexDocumentsMethod::ReplaceDocuments,
            content_file: count as u128,
            documents_count: count,
            allow_index_creation: true,
        },
        Some(Details::DocumentAdditionOrUpdate { received_documents: count, indexed_documents: None }),
    )
}

fn update(index: &str, count: u64) -> (KindWithContent, Option<Details>) {
    (
        KindWithContent::DocumentAdditionOrUpdate {
            index_uid: index.to_string(),
            primary_key: None,
            method: IndexDocumentsMethod::UpdateDocuments,
            content_file: count as u128,
            documents_count: count,
            allow_index_creation: true,
        },
        Some(Details::DocumentAdditionOrUpdate { received_documents: count, indexed_documents: None }),
    )
}

fn settings(index: &str) -> (KindWithContent, Option<Details>) {
    (
        KindWithContent::SettingsUpdate {
            index_uid: index.to_string(),
            new_settings: "Settings { .. }".to_string(),
            is_deletion: false,
            allow_index_creation: true,
        },
        Some(Details::SettingsUpdate { settings: "Settings { .. }".to_string() }),
    )
}

fn cancelation(tasks: &[u32]) -> (KindWithContent, Option<Details>) {
    (
        KindWithContent::TaskCancelation {
            query: "test_query".to_string(),
            tasks: tasks.iter().copied().collect(),
        },
        Some(Details::TaskCancelation {
            matched_tasks: tasks.len() as u64,
            canceled_tasks: None,
            original_filter: "test_query".to_string(),
        }),
    )
}

fn deletion(tasks: &[u32]) -> (KindWithContent, Option<Details>) {
    (
        KindWithContent::TaskDeletion {
            query: "test_query".to_string(),
            tasks: tasks.iter().copied().collect(),
        },
        Some(Details::TaskDeletion {
            matched_tasks: tasks.len() as u64,
            deleted_tasks: None,
            original_filter: "test_query".to_string(),
        }),
    )
}

fn ok(uid: u32, count: u64) -> TaskOutcome {
    TaskOutcome { uid, succeeded: true, count: Some(count), error: None }
}

fn processing(s: &IndexScheduler) -> Vec<u32> {
    s.processing_tasks().snapshot().iter().collect()
}

fn status(s: &IndexScheduler, uid: u32) -> Status {
    s.get_task(uid).unwrap().status
}

fn executes(action: Action) -> Vec<u32> {
    match action {
        Action::Execute(batch) => batch,
        other => panic!("expected a batch, got {:?}", other),
    }
}

#[test]
fn three_additions_on_one_index_are_one_batch() {
    let mut s = IndexScheduler::new(true, 4);
    for (n, now) in [(3u64, 1i128), (5, 2), (8, 3)] {
        let (k, d) = addition("doggos", n);
        s.register(k, d, now).unwrap();
    }
    assert_eq!(s.phase(), Phase::Idle);
    assert!(matches!(s.step(None, 9), Action::Wait));

    let batch = executes(s.step(Some(Event::Wake), 10));
    assert_eq!(batch, vec![0, 1, 2]);
    assert_eq!(s.phase(), Phase::Executing);
    assert_eq!(processing(&s), vec![0, 1, 2]);
    for uid in 0..3 {
        let task = s.get_task(uid).unwrap();
        assert_eq!(task.status, Status::Processing);
        assert_eq!(task.started_at, Some(10));
        assert_eq!(task.finished_at, None);
    }
    assert!(matches!(s.step(None, 11), Action::Wait));
    assert!(matches!(s.step(Some(Event::Wake), 11), Action::Wait));

    let outcomes = vec![ok(0, 3), ok(1, 5), ok(2, 8)];
    assert!(matches!(s.step(Some(Event::Executed(outcomes)), 20), Action::Continue));
    assert_eq!(s.phase(), Phase::Selecting);
    assert_eq!(s.run_loop_iteration(), 1);
    assert_eq!(processing(&s), Vec::<u32>::new());
    for (uid, n) in [(0u32, 3u64), (1, 5), (2, 8)] {
        let task = s.get_task(uid).unwrap();
        assert_eq!(task.status, Status::Succeeded);
        assert_eq!(task.started_at, Some(10));
        assert_eq!(task.finished_at, Some(20));
        match &task.details {
            Some(Details::DocumentAdditionOrUpdate { received_documents, indexed_documents }) => {
                assert_eq!(*received_documents, n);
                assert_eq!(*indexed_documents, Some(n));
            }
            other => panic!("unexpected details {:?}", other),
        }
    }
    assert!(matches!(s.step(None, 21), Action::Wait));
    assert_eq!(s.phase(), Phase::Idle);
}

#[test]
fn each_member_of_a_batch_has_its_own_outcome() {
    let mut s = IndexScheduler::new(true, 4);
    for n in [3u64, 5, 8] {
        let (k, d) = addition("doggos", n);
        s.register(k, d, 1).unwrap();
    }
    assert_eq!(executes(s.step(Some(Event::Wake), 10)), vec![0, 1, 2]);
    let failure = ResponseError {
        code: 400,
        message: "bad document".to_string(),
        error_code: "malformed_payload".to_string(),
        error_type: "invalid_request".to_string(),
        error_link: "link".to_string(),
    };
    let outcomes = vec![
        TaskOutcome { uid: 1, succeeded: false, count: Some(0), error: Some(failure) },
        ok(0, 3),
    ];
    assert!(matches!(s.step(Some(Event::Executed(outcomes)), 20), Action::Continue));
    assert_eq!(status(&s, 0), Status::Succeeded);
    assert_eq!(status(&s, 1), Status::Failed);
    assert_eq!(s.get_task(1).unwrap().error.as_ref().unwrap().message, "bad document");
    // no outcome was handed back for the last member
    assert_eq!(status(&s, 2), Status::Failed);
    assert!(s.get_task(2).unwrap().error.is_none());
    assert_eq!(s.get_task(2).unwrap().finished_at, Some(20));
    assert_eq!(processing(&s), Vec::<u32>::new());
}

#[test]
fn without_autobatching_the_batch_is_the_oldest_task() {
    let mut s = IndexScheduler::new(false, 4);
    for n in [3u64, 5] {
        let (k, d) = addition("doggos", n);
        s.register(k, d, 1).unwrap();
    }
    assert_eq!(executes(s.step(Some(Event::Wake), 10)), vec![0]);
    assert_eq!(status(&s, 0), Status::Processing);
    assert_eq!(status(&s, 1), Status::Enqueued);
    assert!(matches!(s.step(Some(Event::Executed(vec![ok(0, 3)])), 11), Action::Continue));
    assert_eq!(executes(s.step(None, 12)), vec![1]);
}

#[test]
fn a_settings_update_ends_the_batch() {
    let mut s = IndexScheduler::new(true, 4);
    let (k, d) = addition("doggos", 1);
    s.register(k, d, 1).unwrap();
    let (k, d) = addition("catto", 2);
    s.register(k, d, 1).unwrap();
    let (k, d) = addition("doggos", 3);
    s.register(k, d, 1).unwrap();
    let (k, d) = settings("doggos");
    s.register(k, d, 1).unwrap();
    let (k, d) = addition("doggos", 4);
    s.register(k, d, 1).unwrap();
    let (k, d) = update("catto", 5);
    s.register(k, d, 1).unwrap();

    assert_eq!(executes(s.step(Some(Event::Wake), 10)), vec![0, 2]);
    assert!(matches!(
        s.step(Some(Event::Executed(vec![ok(0, 1), ok(2, 3)])), 11),
        Action::Continue
    ));
    // the addition on the other index, alone: an update does not merge with it
    assert_eq!(executes(s.step(None, 12)), vec![1]);
    assert!(matches!(s.step(Some(Event::Executed(vec![ok(1, 2)])), 13), Action::Continue));
    assert_eq!(executes(s.step(None, 14)), vec![3]);
    assert!(matches!(s.step(Some(Event::Executed(vec![ok(3, 0)])), 15), Action::Continue));
    assert_eq!(executes(s.step(None, 16)), vec![4]);
    assert!(matches!(s.step(Some(Event::Executed(vec![ok(4, 4)])), 17), Action::Continue));
    assert_eq!(executes(s.step(None, 18)), vec![5]);
    assert_eq!(s.run_loop_iteration(), 4);
}

#[test]
fn a_cancelation_cancels_the_task_that_it_names() {
    let mut s = IndexScheduler::new(true, 4);
    let (k, d) = addition("doggos", 3);
    assert_eq!(s.register(k, d, 1).unwrap(), 0);
    let (k, d) = cancelation(&[0]);
    assert_eq!(s.register(k, d, 2).unwrap(), 1);

    assert!(matches!(s.step(Some(Event::Wake), 10), Action::Continue));
    assert_eq!(s.phase(), Phase::Committing);
    assert_eq!(processing(&s), vec![1]);
    let target = s.get_task(0).unwrap();
    assert_eq!(target.status, Status::Canceled);
    assert_eq!(target.canceled_by, Some(1));
    assert_eq!(target.started_at, None);
    assert_eq!(target.finished_at, Some(10));

    assert!(matches!(s.step(None, 11), Action::Continue));
    let canceler = s.get_task(1).unwrap();
    assert_eq!(canceler.status, Status::Succeeded);
    assert_eq!(canceler.finished_at, Some(11));
    assert!(matches!(
        canceler.details,
        Some(Details::TaskCancelation { matched_tasks: 1, canceled_tasks: Some(1), .. })
    ));
    let by: Vec<u32> = s.store().canceled_by_table().get(&1).unwrap().iter().collect();
    assert_eq!(by, vec![0]);
    assert!(matches!(s.step(None, 12), Action::Wait));
    assert_eq!(s.phase(), Phase::Idle);
}

#[test]
fn a_cancelation_does_not_cancel_itself_nor_finished_tasks() {
    let mut s = IndexScheduler::new(true, 4);
    let (k, d) = addition("doggos", 3);
    s.register(k, d, 1).unwrap();
    assert_eq!(executes(s.step(Some(Event::Wake), 2)), vec![0]);
    assert!(matches!(s.step(Some(Event::Executed(vec![ok(0, 3)])), 3), Action::Continue));
    let (k, d) = addition("doggos", 4);
    s.register(k, d, 4).unwrap();
    let (k, d) = cancelation(&[0, 1, 2, 3]);
    assert_eq!(s.register(k, d, 5).unwrap(), 2);
    assert!(matches!(s.step(None, 10), Action::Continue));
    assert!(matches!(s.step(None, 11), Action::Continue));
    assert_eq!(status(&s, 0), Status::Succeeded);
    assert_eq!(status(&s, 1), Status::Canceled);
    assert_eq!(status(&s, 2), Status::Succeeded);
    assert!(matches!(
        s.get_task(2).unwrap().details,
        Some(Details::TaskCancelation { matched_tasks: 4, canceled_tasks: Some(1), .. })
    ));
}

#[test]
fn a_deletion_deletes_finished_tasks() {
    let mut s = IndexScheduler::new(true, 4);
    let (k, d) = addition("doggos", 3);
    s.register(k, d, 1).unwrap();
    assert_eq!(executes(s.step(Some(Event::Wake), 2)), vec![0]);
    assert!(matches!(s.step(Some(Event::Executed(vec![ok(0, 3)])), 3), Action::Continue));
    let (k, d) = addition("doggos", 4);
    s.register(k, d, 4).unwrap();
    let (k, d) = deletion(&[0, 1]);
    assert_eq!(s.register(k, d, 5).unwrap(), 2);
    // the oldest enqueued task comes first
    assert_eq!(executes(s.step(None, 6)), vec![1]);
    assert!(matches!(s.step(Some(Event::Executed(vec![ok(1, 4)])), 7), Action::Continue));
    assert!(matches!(s.step(None, 8), Action::Continue));
    assert_eq!(s.phase(), Phase::Committing);
    assert!(matches!(s.get_task(0), Err(Error::TaskNotFound(0))));
    assert!(matches!(s.get_task(1), Err(Error::TaskNotFound(1))));
    assert!(matches!(s.step(None, 9), Action::Continue));
    assert!(matches!(
        s.get_task(2).unwrap().details,
        Some(Details::TaskDeletion { matched_tasks: 2, deleted_tasks: Some(2), .. })
    ));
    assert_eq!(status(&s, 2), Status::Succeeded);
    let (k, d) = addition("doggos", 4);
    assert_eq!(s.register(k, d, 10).unwrap(), 3);
}

#[test]
fn a_failure_while_marking_leaves_nothing_behind() {
    let mut s = IndexScheduler::new(true, 4);
    for n in [3u64, 5, 8] {
        let (k, d) = addition("doggos", n);
        s.register(k, d, 1).unwrap();
    }
    s.plan_failure(0, FailureLocation::MarkingProcessing { marked: 2 });
    let before = snapshot_index_scheduler(&s);
    assert!(matches!(s.step(Some(Event::Wake), 10), Action::Retry));
    assert_eq!(snapshot_index_scheduler(&s), before);
    assert_eq!(s.phase(), Phase::Selecting);
    assert_eq!(s.run_loop_iteration(), 1);
    assert_eq!(processing(&s), Vec::<u32>::new());
    for uid in 0..3 {
        let task = s.get_task(uid).unwrap();
        assert_eq!(task.status, Status::Enqueued);
        assert_eq!(task.started_at, None);
    }
    assert_eq!(s.store().started_at_table().len(), 0);
    // the next iteration has no failure planned
    assert_eq!(executes(s.step(None, 11)), vec![0, 1, 2]);
    assert_eq!(s.get_task(1).unwrap().started_at, Some(11));
}

#[test]
fn a_failure_planned_behind_the_batch_does_not_occur() {
    let mut s = IndexScheduler::new(true, 4);
    for n in [3u64, 5] {
        let (k, d) = addition("doggos", n);
        s.register(k, d, 1).unwrap();
    }
    s.plan_failure(0, FailureLocation::MarkingProcessing { marked: 2 });
    s.plan_failure(7, FailureLocation::CreatingBatch);
    assert_eq!(executes(s.step(Some(Event::Wake), 10)), vec![0, 1]);
}

#[test]
fn failures_before_selecting_and_before_committing_change_nothing() {
    let mut s = IndexScheduler::new(true, 4);
    let (k, d) = addition("doggos", 3);
    s.register(k, d, 1).unwrap();
    s.plan_failure(0, FailureLocation::CreatingBatch);
    s.plan_failure(1, FailureLocation::Committing);
    let before = snapshot_index_scheduler(&s);
    assert!(matches!(s.step(Some(Event::Wake), 10), Action::Retry));
    assert_eq!(snapshot_index_scheduler(&s), before);
    assert_eq!(executes(s.step(None, 11)), vec![0]);
    let during = snapshot_index_scheduler(&s);
    assert!(matches!(s.step(Some(Event::Executed(vec![ok(0, 3)])), 12), Action::Retry));
    assert_eq!(snapshot_index_scheduler(&s), during);
    assert_eq!(s.phase(), Phase::Committing);
    assert_eq!(s.run_loop_iteration(), 2);
    assert!(matches!(s.step(None, 13), Action::Continue));
    assert_eq!(status(&s, 0), Status::Succeeded);
    assert_eq!(s.get_task(0).unwrap().finished_at, Some(13));
}

#[test]
fn stop_finishes_the_batch_in_flight_and_picks_no_more() {
    let mut s = IndexScheduler::new(false, 4);
    for n in [3u64, 5] {
        let (k, d) = addition("doggos", n);
        s.register(k, d, 1).unwrap();
    }
    assert_eq!(executes(s.step(Some(Event::Wake), 10)), vec![0]);
    assert!(matches!(s.step(Some(Event::Stop), 11), Action::Wait));
    assert!(s.must_stop_processing());
    assert_eq!(s.phase(), Phase::Executing);
    assert_eq!(status(&s, 0), Status::Processing);
    assert!(matches!(s.step(Some(Event::Executed(vec![ok(0, 3)])), 12), Action::Exit));
    assert_eq!(s.phase(), Phase::Stopped);
    assert_eq!(status(&s, 0), Status::Succeeded);
    assert_eq!(status(&s, 1), Status::Enqueued);
    assert!(matches!(s.step(Some(Event::Wake), 13), Action::Exit));
    assert_eq!(status(&s, 1), Status::Enqueued);

    let mut idle = IndexScheduler::new(true, 4);
    assert!(matches!(idle.step(Some(Event::Stop), 1), Action::Exit));
    assert_eq!(idle.phase(), Phase::Stopped);
}

#[test]
fn outcomes_without_a_batch_are_dropped() {
    let mut s = IndexScheduler::new(true, 4);
    let (k, d) = addition("doggos", 3);
    s.register(k, d, 1).unwrap();
    assert!(matches!(s.step(Some(Event::Executed(vec![ok(0, 3)])), 5), Action::Wait));
    assert_eq!(status(&s, 0), Status::Enqueued);
    assert_eq!(s.phase(), Phase::Idle);
}

#[test]
fn processing_set_is_replaced_wholesale() {
    let mut p = index_scheduler::processing::ProcessingTasks::new();
    assert!(!p.contains(3));
    let ids: RoaringBitmap = [3u32, 9].into_iter().collect();
    p.set(ids);
    assert!(p.contains(3));
    assert_eq!(p.snapshot().iter().collect::<Vec<u32>>(), vec![3, 9]);
    let ids: RoaringBitmap = [4u32].into_iter().collect();
    p.set(ids);
    assert!(!p.contains(3));
    assert_eq!(p.ids().len(), 1);
    p.clear();
    assert!(p.snapshot().is_empty());
}

#[test]
fn recovery_leaves_no_task_in_flight() {
    let mut s = IndexScheduler::new(true, 4);
    for n in [3u64, 5, 8] {
        let (k, d) = addition("doggos", n);
        s.register(k, d, 1).unwrap();
    }
    let (k, d) = settings("doggos");
    s.register(k, d, 2).unwrap();
    let before = snapshot_index_scheduler(&s);
    assert_eq!(executes(s.step(Some(Event::Wake), 10)), vec![0, 1, 2]);
    // the process dies here; the records are read back
    let saved = s.store().records().clone();
    let store = index_scheduler::store::TaskStore::restore(saved, s.store().next_uid()).unwrap();
    let mut recovered = IndexScheduler::recover(store, true, 4);
    assert_eq!(recovered.phase(), Phase::Idle);
    assert_eq!(processing(&recovered), Vec::<u32>::new());
    assert_eq!(snapshot_index_scheduler(&recovered), before);
    for uid in 0..4 {
        assert_eq!(status(&recovered, uid), Status::Enqueued);
        assert_eq!(recovered.get_task(uid).unwrap().started_at, None);
    }
    // the batch is selected again, whole
    assert_eq!(executes(recovered.step(Some(Event::Wake), 20)), vec![0, 1, 2]);
    assert!(matches!(
        recovered.step(Some(Event::Executed(vec![ok(0, 3), ok(1, 5), ok(2, 8)])), 21),
        Action::Continue
    ));
    assert_eq!(executes(recovered.step(None, 22)), vec![3]);
    assert_eq!(status(&recovered, 1), Status::Succeeded);
}

fn section<'a>(export: &'a str, title: &str) -> Vec<&'a str> {
    let start = export.find(title).unwrap() + title.len();
    let rest = &export[start..];
    let end = rest.find("----------------------------------------------------------------------").unwrap();
    rest[..end].lines().filter(|l| !l.is_empty()).collect()
}

#[test]
fn export_shows_the_batch_in_flight_and_then_each_count() {
    let mut s = IndexScheduler::new(true, 4);
    for (n, now) in [(3u64, 1i128), (5, 2), (8, 3)] {
        let (k, d) = addition("doggos", n);
        s.register(k, d, now).unwrap();
    }
    assert_eq!(executes(s.step(Some(Event::Wake), 10)), vec![0, 1, 2]);
    let export = snapshot_index_scheduler(&s);
    assert!(export.starts_with("### Autobatching Enabled = true\n### Processing Tasks:\n[0,1,2,]\n"));
    assert_eq!(section(&export, "### Status:\n"), vec!["processing [0,1,2,]"]);
    let lines = section(&export, "### All Tasks:\n");
    assert_eq!(lines.len(), 3);
    for (uid, line) in lines.iter().enumerate() {
        assert!(line.starts_with(&format!("{} {{uid: {}, status: processing, ", uid, uid)), "{line}");
    }

    let outcomes = vec![ok(0, 3), ok(1, 5), ok(2, 8)];
    assert!(matches!(s.step(Some(Event::Executed(outcomes)), 20), Action::Continue));
    let export = snapshot_index_scheduler(&s);
    assert!(export.starts_with("### Autobatching Enabled = true\n### Processing Tasks:\n[]\n"));
    assert_eq!(section(&export, "### Status:\n"), vec!["succeeded [0,1,2,]"]);
    let lines = section(&export, "### All Tasks:\n");
    for (uid, n) in [(0usize, 3u64), (1, 5), (2, 8)] {
        let head = format!(
            "{} {{uid: {}, status: succeeded, details: {{ received_documents: {}, indexed_documents: Some({}) }}, kind: ",
            uid, uid, n, n
        );
        assert!(lines[uid].starts_with(&head), "{}", lines[uid]);
    }
    // the same state is exported as the same text
    assert_eq!(export, snapshot_index_scheduler(&s));
}

#[test]
fn export_shows_who_canceled_a_task() {
    let mut s = IndexScheduler::new(true, 4);
    let (k, d) = addition("doggos", 3);
    assert_eq!(s.register(k, d, 1).unwrap(), 0);
    let (k, d) = cancelation(&[0]);
    assert_eq!(s.register(k, d, 2).unwrap(), 1);
    assert!(matches!(s.step(Some(Event::Wake), 10), Action::Continue));
    assert!(matches!(s.step(None, 11), Action::Continue));
    assert!(matches!(s.step(None, 12), Action::Wait));

    let export = snapshot_index_scheduler(&s);
    assert!(export.starts_with("### Autobatching Enabled = true\n### Processing Tasks:\n[]\n"));
    let lines = section(&export, "### All Tasks:\n");
    assert!(lines[0].starts_with("0 {uid: 0, status: canceled, canceled_by: 1, details: "), "{}", lines[0]);
    assert!(
        lines[1].starts_with(
            "1 {uid: 1, status: succeeded, details: { matched_tasks: 1, canceled_tasks: Some(1), original_filter: "
        ),
        "{}",
        lines[1]
    );
    assert_eq!(section(&export, "### Status:\n"), vec!["succeeded [1,]", "canceled [0,]"]);
    assert_eq!(section(&export, "### Canceled By:\n"), vec!["1 [0,]"]);
}

#[test]
fn additions_by_another_method_end_the_batch() {
    let mut s = IndexScheduler::new(true, 4);
    let (k, d) = addition("doggos", 3);
    s.register(k, d, 1).unwrap();
    let (k, d) = addition("doggos", 5);
    s.register(k, d, 2).unwrap();
    let (k, d) = update("doggos", 8);
    s.register(k, d, 3).unwrap();
    let (k, d) = addition("doggos", 9);
    s.register(k, d, 4).unwrap();
    assert_eq!(executes(s.step(Some(Event::Wake), 10)), vec![0, 1]);
}
