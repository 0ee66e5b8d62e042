use index_scheduler::file_store::FileStore;
use index_scheduler::index_mapper::{IndexMapper, IndexStats};
use index_scheduler::insta_snapshot::{
    snapshot_all_tasks, snapshot_bitmap, snapshot_canceled_by, snapshot_date_db, snapshot_details,
    snapshot_file_store, snapshot_index_mapper, snapshot_index_scheduler, snapshot_index_tasks,
    snapshot_kind, snapshot_kind_with_content, snapshot_status, snapshot_task,
};
use index_scheduler::scheduler::{Event, IndexScheduler, TaskOutcome};
use index_scheduler::store::TaskStore;
use index_scheduler::task::{
    Details, IndexDocumentsMethod, IndexSwap, KindWithContent, ResponseError, Status, Task,
};
use roaring::RoaringBitmap;

fn addition(index: &str, count: u64) -> (KindWithContent, Option<Details>) {
    (
        KindWithContent::DocumentAdditionOrUpdate {
            index_uid: index.to_string(),
            primary_key: Some("id".to_string()),
            method: IndexDocumentsMethod::ReplaceDocuments,
            content_file: 0x0123_4567_89ab_cdef_0011_2233_4455_6677,
            documents_count: count,
            allow_index_creation: true,
        },
        Some(Details::DocumentAdditionOrUpdate { received_documents: count, indexed_documents: None }),
    )
}

#[test]
fn bitmap_is_listed_in_increasing_order() {
    let mut r = RoaringBitmap::new();
    assert_eq!(snapshot_bitmap(&r), "[]");
    r.insert(70000);
    r.insert(3);
    r.insert(12);
    r.insert(3);
    r.insert(0);
    assert_eq!(snapshot_bitmap(&r), "[0,3,12,70000,]");
    r.insert(u32::MAX);
    assert_eq!(snapshot_bitmap(&r), "[0,3,12,70000,4294967295,]");
}

#[test]
fn details_of_each_shape() {
    let d = Details::DocumentAdditionOrUpdate { received_documents: 12, indexed_documents: Some(10) };
    assert_eq!(snapshot_details(&d), "{ received_documents: 12, indexed_documents: Some(10) }");
    let d = Details::DocumentAdditionOrUpdate { received_documents: 0, indexed_documents: None };
    assert_eq!(snapshot_details(&d), "{ received_documents: 0, indexed_documents: None }");
    let d = Details::SettingsUpdate { settings: "Settings { displayed: Set([\"a\"]) }".to_string() };
    assert_eq!(snapshot_details(&d), "{ settings: Settings { displayed: Set([\"a\"]) } }");
    let d = Details::IndexInfo { primary_key: Some("mouse".to_string()) };
    assert_eq!(snapshot_details(&d), "{ primary_key: Some(\"mouse\") }");
    let d = Details::IndexInfo { primary_key: None };
    assert_eq!(snapshot_details(&d), "{ primary_key: None }");
    let d = Details::DocumentDeletion { provided_ids: 2, deleted_documents: Some(1) };
    assert_eq!(snapshot_details(&d), "{ received_document_ids: 2, deleted_documents: Some(1) }");
    let d = Details::DocumentDeletionByFilter {
        original_filter: "\"doggo = bernese\"".to_string(),
        deleted_documents: None,
    };
    assert_eq!(
        snapshot_details(&d),
        "{ original_filter: \"doggo = bernese\", deleted_documents: None }"
    );
    let d = Details::ClearAll { deleted_documents: Some(100) };
    assert_eq!(snapshot_details(&d), "{ deleted_documents: Some(100) }");
    let d = Details::TaskCancelation {
        matched_tasks: 3,
        canceled_tasks: Some(2),
        original_filter: "?uids=0,1,2".to_string(),
    };
    assert_eq!(
        snapshot_details(&d),
        "{ matched_tasks: 3, canceled_tasks: Some(2), original_filter: \"?uids=0,1,2\" }"
    );
    let d = Details::TaskDeletion {
        matched_tasks: 1,
        deleted_tasks: None,
        original_filter: "a \"quoted\" \\ filter\n".to_string(),
    };
    assert_eq!(
        snapshot_details(&d),
        "{ matched_tasks: 1, deleted_tasks: None, original_filter: \"a \\\"quoted\\\" \\\\ filter\\n\" }"
    );
    let d = Details::Dump { dump_uid: None };
    assert_eq!(snapshot_details(&d), "{ dump_uid: None }");
    let d = Details::IndexSwap {
        swaps: vec![
            IndexSwap { indexes: ("a".to_string(), "b".to_string()) },
            IndexSwap { indexes: ("c".to_string(), "d".to_string()) },
        ],
    };
    assert_eq!(
        snapshot_details(&d),
        "{ swaps: [IndexSwap { indexes: (\"a\", \"b\") }, IndexSwap { indexes: (\"c\", \"d\") }] }"
    );
    let d = Details::IndexSwap { swaps: vec![] };
    assert_eq!(snapshot_details(&d), "{ swaps: [] }");
}

#[test]
fn kinds_with_their_payload() {
    let (k, _) = addition("doggos", 12);
    assert_eq!(
        snapshot_kind_with_content(&k),
        "DocumentAdditionOrUpdate { index_uid: \"doggos\", primary_key: Some(\"id\"), method: ReplaceDocuments, content_file: 01234567-89ab-cdef-0011-223344556677, documents_count: 12, allow_index_creation: true }"
    );
    let k = KindWithContent::DocumentAdditionOrUpdate {
        index_uid: "doggos".to_string(),
        primary_key: None,
        method: IndexDocumentsMethod::UpdateDocuments,
        content_file: 0,
        documents_count: 0,
        allow_index_creation: false,
    };
    assert_eq!(
        snapshot_kind_with_content(&k),
        "DocumentAdditionOrUpdate { index_uid: \"doggos\", primary_key: None, method: UpdateDocuments, content_file: 00000000-0000-0000-0000-000000000000, documents_count: 0, allow_index_creation: false }"
    );
    let k = KindWithContent::DocumentDeletion {
        index_uid: "doggos".to_string(),
        documents_ids: vec!["1".to_string(), "2".to_string(), "x y".to_string()],
    };
    assert_eq!(
        snapshot_kind_with_content(&k),
        "DocumentDeletion { index_uid: \"doggos\", documents_ids: [\"1\", \"2\", \"x y\"] }"
    );
    let k = KindWithContent::DocumentDeletion { index_uid: "d".to_string(), documents_ids: vec![] };
    assert_eq!(snapshot_kind_with_content(&k), "DocumentDeletion { index_uid: \"d\", documents_ids: [] }");
    let k = KindWithContent::DocumentDeletionByFilter {
        index_uid: "doggos".to_string(),
        filter_expr: serde_json::Value::String("doggo = bernese".to_string()),
    };
    assert_eq!(
        snapshot_kind_with_content(&k),
        "DocumentDeletionByFilter { index_uid: \"doggos\", filter_expr: String(\"doggo = bernese\") }"
    );
    let k = KindWithContent::DocumentDeletionByFilter {
        index_uid: "doggos".to_string(),
        filter_expr: serde_json::Value::String("name = \"kefir\"\n".to_string()),
    };
    assert_eq!(
        snapshot_kind_with_content(&k),
        "DocumentDeletionByFilter { index_uid: \"doggos\", filter_expr: String(\"name = \\\"kefir\\\"\\n\") }"
    );
    let k = KindWithContent::DocumentDeletionByFilter {
        index_uid: "doggos".to_string(),
        filter_expr: serde_json::from_str("[\"age > 3\", [\"a = 1\", \"b = 2\"], 4, null, true]").unwrap(),
    };
    assert_eq!(
        snapshot_kind_with_content(&k),
        "DocumentDeletionByFilter { index_uid: \"doggos\", filter_expr: Array [String(\"age > 3\"), Array [String(\"a = 1\"), String(\"b = 2\")], Number(4), Null, Bool(true)] }"
    );
    assert_eq!(snapshot_kind_with_content(&k), format!("{:?}", k));
    let k = KindWithContent::DocumentClear { index_uid: "doggos".to_string() };
    assert_eq!(snapshot_kind_with_content(&k), "DocumentClear { index_uid: \"doggos\" }");
    let k = KindWithContent::SettingsUpdate {
        index_uid: "doggos".to_string(),
        new_settings: "Settings { .. }".to_string(),
        is_deletion: true,
        allow_index_creation: false,
    };
    assert_eq!(
        snapshot_kind_with_content(&k),
        "SettingsUpdate { index_uid: \"doggos\", new_settings: Settings { .. }, is_deletion: true, allow_index_creation: false }"
    );
    let k = KindWithContent::IndexDeletion { index_uid: "doggos".to_string() };
    assert_eq!(snapshot_kind_with_content(&k), "IndexDeletion { index_uid: \"doggos\" }");
    let k = KindWithContent::IndexCreation {
        index_uid: "catto".to_string(),
        primary_key: Some("mouse".to_string()),
    };
    assert_eq!(
        snapshot_kind_with_content(&k),
        "IndexCreation { index_uid: \"catto\", primary_key: Some(\"mouse\") }"
    );
    let k = KindWithContent::IndexUpdate { index_uid: "catto".to_string(), primary_key: None };
    assert_eq!(snapshot_kind_with_content(&k), "IndexUpdate { index_uid: \"catto\", primary_key: None }");
    let k = KindWithContent::IndexSwap {
        swaps: vec![IndexSwap { indexes: ("a".to_string(), "b".to_string()) }],
    };
    assert_eq!(
        snapshot_kind_with_content(&k),
        "IndexSwap { swaps: [IndexSwap { indexes: (\"a\", \"b\") }] }"
    );
    let k = KindWithContent::TaskCancelation {
        query: "test_query".to_string(),
        tasks: [1u32, 0, 300].into_iter().collect(),
    };
    assert_eq!(
        snapshot_kind_with_content(&k),
        "TaskCancelation { query: \"test_query\", tasks: RoaringBitmap<[0, 1, 300]> }"
    );
    // up to 15 tasks are listed; from 16 on their number is written
    for n in [1u32, 15, 16, 17, 100_000] {
        let tasks: RoaringBitmap = (7..7 + n).collect();
        let k = KindWithContent::TaskCancelation { query: "q".to_string(), tasks: tasks.clone() };
        assert_eq!(
            snapshot_kind_with_content(&k),
            format!("TaskCancelation {{ query: \"q\", tasks: {:?} }}", tasks)
        );
    }
    let tasks: RoaringBitmap = (0..16).collect();
    let k = KindWithContent::TaskCancelation { query: "q".to_string(), tasks };
    assert_eq!(
        snapshot_kind_with_content(&k),
        "TaskCancelation { query: \"q\", tasks: RoaringBitmap<16 values between 0 and 15> }"
    );
    let tasks: RoaringBitmap = [3u32, 9, 4_000_000_000].into_iter().chain(100..113).collect();
    let k = KindWithContent::TaskDeletion { query: "q".to_string(), tasks };
    assert_eq!(
        snapshot_kind_with_content(&k),
        "TaskDeletion { query: \"q\", tasks: RoaringBitmap<16 values between 3 and 4000000000> }"
    );
    let tasks: RoaringBitmap = (0..15).collect();
    let k = KindWithContent::TaskDeletion { query: "q".to_string(), tasks };
    assert_eq!(
        snapshot_kind_with_content(&k),
        "TaskDeletion { query: \"q\", tasks: RoaringBitmap<[0, 1, 2, 3, 4, 5, 6, 7, 8, 9, 10, 11, 12, 13, 14]> }"
    );
    let k = KindWithContent::TaskDeletion { query: "q".to_string(), tasks: RoaringBitmap::new() };
    assert_eq!(snapshot_kind_with_content(&k), "TaskDeletion { query: \"q\", tasks: RoaringBitmap<[]> }");
    assert_eq!(snapshot_kind_with_content(&KindWithContent::DumpCreation), "DumpCreation");
    assert_eq!(snapshot_kind_with_content(&KindWithContent::SnapshotCreation), "SnapshotCreation");
}

#[test]
fn task_with_and_without_its_optional_parts() {
    let task = Task {
        uid: 7,
        enqueued_at: 1,
        started_at: Some(2),
        finished_at: Some(3),
        error: None,
        canceled_by: None,
        details: None,
        status: Status::Succeeded,
        kind: KindWithContent::SnapshotCreation,
    };
    assert_eq!(snapshot_task(&task), "{uid: 7, status: succeeded, kind: SnapshotCreation}");
    let task = Task {
        uid: 12,
        enqueued_at: 1,
        started_at: None,
        finished_at: Some(3),
        error: Some(ResponseError {
            code: 404,
            message: "Index `doggos` not found.".to_string(),
            error_code: "index_not_found".to_string(),
            error_type: "invalid_request".to_string(),
            error_link: "https://docs.meilisearch.com/errors#index_not_found".to_string(),
        }),
        canceled_by: Some(13),
        details: Some(Details::ClearAll { deleted_documents: Some(0) }),
        status: Status::Canceled,
        kind: KindWithContent::DocumentClear { index_uid: "doggos".to_string() },
    };
    assert_eq!(
        snapshot_task(&task),
        "{uid: 12, status: canceled, canceled_by: 13, error: ResponseError { code: 404, message: \"Index `doggos` not found.\", error_code: \"index_not_found\", error_type: \"invalid_request\", error_link: \"https://docs.meilisearch.com/errors#index_not_found\" }, details: { deleted_documents: Some(0) }, kind: DocumentClear { index_uid: \"doggos\" }}"
    );
}

fn filled() -> TaskStore {
    let mut store = TaskStore::new();
    let (k, d) = addition("doggos", 3);
    store.enqueue(k, d, 10).unwrap();
    store
        .enqueue(
            KindWithContent::IndexCreation { index_uid: "catto".to_string(), primary_key: None },
            Some(Details::IndexInfo { primary_key: None }),
            5,
        )
        .unwrap();
    store
        .enqueue(
            KindWithContent::IndexCreation { index_uid: "Zebra".to_string(), primary_key: None },
            Some(Details::IndexInfo { primary_key: None }),
            10,
        )
        .unwrap();
    store.transition(0, Status::Processing, 20, None, None).unwrap();
    store.transition(0, Status::Succeeded, 25, Some(3), None).unwrap();
    let canceled: RoaringBitmap = [1u32].into_iter().collect();
    store.cancel(&canceled, 2, 26);
    store
}

#[test]
fn tables_of_a_store() {
    let store = filled();
    assert_eq!(
        snapshot_all_tasks(&store),
        "0 {uid: 0, status: succeeded, details: { received_documents: 3, indexed_documents: Some(3) }, kind: DocumentAdditionOrUpdate { index_uid: \"doggos\", primary_key: Some(\"id\"), method: ReplaceDocuments, content_file: 01234567-89ab-cdef-0011-223344556677, documents_count: 3, allow_index_creation: true }}\n\
         1 {uid: 1, status: canceled, canceled_by: 2, details: { primary_key: None }, kind: IndexCreation { index_uid: \"catto\", primary_key: None }}\n\
         2 {uid: 2, status: enqueued, details: { primary_key: None }, kind: IndexCreation { index_uid: \"Zebra\", primary_key: None }}\n"
    );
    assert_eq!(snapshot_status(store.status_table()), "enqueued [2,]\nsucceeded [0,]\ncanceled [1,]\n");
    assert_eq!(
        snapshot_kind(store.kind_table()),
        "\"documentAdditionOrUpdate\" [0,]\n\"indexCreation\" [1,2,]\n"
    );
    assert_eq!(
        snapshot_index_tasks(store.index_tasks_table()),
        "Zebra [2,]\ncatto [1,]\ndoggos [0,]\n"
    );
    assert_eq!(snapshot_canceled_by(store.canceled_by_table()), "2 [1,]\n");
    assert_eq!(
        snapshot_date_db(store.enqueued_at_table()),
        "[timestamp] [1,]\n[timestamp] [0,2,]\n"
    );
    assert_eq!(snapshot_date_db(store.started_at_table()), "[timestamp] [0,]\n");
    assert_eq!(
        snapshot_date_db(store.finished_at_table()),
        "[timestamp] [0,]\n[timestamp] [1,]\n"
    );
    assert_eq!(snapshot_status(TaskStore::new().status_table()), "");
}

#[test]
fn index_mapper_and_file_store() {
    let mut mapper = IndexMapper::new(2);
    mapper.create("doggos".to_string()).unwrap();
    mapper.create("catto".to_string()).unwrap();
    let mut stats = IndexStats::new(12);
    stats.set_field("id".to_string(), 12);
    stats.set_field("breed".to_string(), 10);
    mapper.set_stats("doggos", stats).unwrap();
    assert_eq!(
        snapshot_index_mapper(&mapper),
        "catto: { number_of_documents: 0, field_distribution: {} }\n\
         doggos: { number_of_documents: 12, field_distribution: {\"breed\": 10, \"id\": 12} }\n"
    );
    let mut files = FileStore::new();
    assert_eq!(snapshot_file_store(&files), "");
    files.insert(0xffff_ffff_ffff_ffff_ffff_ffff_ffff_ffff);
    files.insert(1);
    files.insert(0x1000_0000_0000_0000_0000_0000_0000_0000);
    files.insert(1);
    assert_eq!(
        snapshot_file_store(&files),
        "00000000-0000-0000-0000-000000000001\n\
         10000000-0000-0000-0000-000000000000\n\
         ffffffff-ffff-ffff-ffff-ffffffffffff\n"
    );
}

#[test]
fn whole_scheduler() {
    let mut s = IndexScheduler::new(true, 4);
    let empty = "### Autobatching Enabled = true\n\
### Processing Tasks:\n\
[]\n\
----------------------------------------------------------------------\n\
### All Tasks:\n\
----------------------------------------------------------------------\n\
### Status:\n\
----------------------------------------------------------------------\n\
### Kind:\n\
----------------------------------------------------------------------\n\
### Index Tasks:\n\
----------------------------------------------------------------------\n\
### Index Mapper:\n\
\n\
----------------------------------------------------------------------\n\
### Canceled By:\n\
\n\
----------------------------------------------------------------------\n\
### Enqueued At:\n\
----------------------------------------------------------------------\n\
### Started At:\n\
----------------------------------------------------------------------\n\
### Finished At:\n\
----------------------------------------------------------------------\n\
### File Store:\n\
\n\
----------------------------------------------------------------------\n";
    assert_eq!(snapshot_index_scheduler(&s), empty);

    s.register(
        KindWithContent::IndexCreation { index_uid: "doggos".to_string(), primary_key: None },
        Some(Details::IndexInfo { primary_key: None }),
        1,
    )
    .unwrap();
    s.register(KindWithContent::SnapshotCreation, None, 2).unwrap();
    let mut mapper = IndexMapper::new(4);
    mapper.create("doggos".to_string()).unwrap();
    s.set_index_mapper(mapper);
    let mut files = FileStore::new();
    files.insert(42);
    s.set_file_store(files);
    s.set_autobatching(false);
    match s.step(Some(Event::Wake), 10) {
        index_scheduler::scheduler::Action::Execute(batch) => assert_eq!(batch, vec![0]),
        other => panic!("unexpected {:?}", other),
    }
    let processing = "### Autobatching Enabled = false\n\
### Processing Tasks:\n\
[0,]\n\
----------------------------------------------------------------------\n\
### All Tasks:\n\
0 {uid: 0, status: processing, details: { primary_key: None }, kind: IndexCreation { index_uid: \"doggos\", primary_key: None }}\n\
1 {uid: 1, status: enqueued, kind: SnapshotCreation}\n\
----------------------------------------------------------------------\n\
### Status:\n\
enqueued [1,]\n\
processing [0,]\n\
----------------------------------------------------------------------\n\
### Kind:\n\
\"indexCreation\" [0,]\n\
\"snapshotCreation\" [1,]\n\
----------------------------------------------------------------------\n\
### Index Tasks:\n\
doggos [0,]\n\
----------------------------------------------------------------------\n\
### Index Mapper:\n\
doggos: { number_of_documents: 0, field_distribution: {} }\n\
\n\
----------------------------------------------------------------------\n\
### Canceled By:\n\
\n\
----------------------------------------------------------------------\n\
### Enqueued At:\n\
[timestamp] [0,]\n\
[timestamp] [1,]\n\
----------------------------------------------------------------------\n\
### Started At:\n\
[timestamp] [0,]\n\
----------------------------------------------------------------------\n\
### Finished At:\n\
----------------------------------------------------------------------\n\
### File Store:\n\
00000000-0000-0000-0000-00000000002a\n\
\n\
----------------------------------------------------------------------\n";
    assert_eq!(snapshot_index_scheduler(&s), processing);
    // exporting twice without a change in between gives the same bytes
    assert_eq!(snapshot_index_scheduler(&s), snapshot_index_scheduler(&s));
    let outcome = TaskOutcome { uid: 0, succeeded: true, count: None, error: None };
    s.step(Some(Event::Executed(vec![outcome])), 11);
    assert!(snapshot_index_scheduler(&s).contains("succeeded [0,]\n"));
    assert!(snapshot_index_scheduler(&s).contains("### Processing Tasks:\n[]\n"));
}
