use index_scheduler::file_store::FileStore;
use index_scheduler::index_mapper::{IndexMapper, IndexStats};
use index_scheduler::store::Error;

fn stats(n: u64) -> IndexStats {
    let mut stats = IndexStats::new(n);
    stats.set_field("id".to_string(), n);
    stats
}

#[test]
fn create_keeps_the_names_in_order_and_refuses_a_second_one() {
    let mut m = IndexMapper::new(3);
    m.create("doggos".to_string()).unwrap();
    m.create("catto".to_string()).unwrap();
    m.create("girafos".to_string()).unwrap();
    m.create("Zebra".to_string()).unwrap();
    assert_eq!(m.index_names(), vec!["Zebra", "catto", "doggos", "girafos"]);
    match m.create("catto".to_string()) {
        Err(Error::IndexAlreadyExists(name)) => assert_eq!(name, "catto"),
        other => panic!("unexpected {:?}", other),
    }
    assert_eq!(m.len(), 4);
    assert!(m.contains("Zebra"));
    assert!(!m.contains("zebra"));
    assert_eq!(m.entry_at(1).name, "catto");
    assert_eq!(m.stats_of("catto").unwrap().number_of_documents(), 0);
    assert!(m.stats_of("catto").unwrap().fields().is_empty());
    assert_eq!(m.open_count(), 0);
}

#[test]
fn unknown_names_are_reported() {
    let mut m = IndexMapper::new(3);
    m.create("doggos".to_string()).unwrap();
    match m.stats_of("catto") {
        Err(Error::IndexNotFound(name)) => assert_eq!(name, "catto"),
        other => panic!("unexpected {:?}", other.map(|s| s.number_of_documents())),
    }
    assert!(matches!(m.delete("catto"), Err(Error::IndexNotFound(_))));
    assert!(matches!(m.resolve("catto"), Err(Error::IndexNotFound(_))));
    assert!(matches!(m.set_stats("catto", stats(1)), Err(Error::IndexNotFound(_))));
    match m.swap("catto", "doggos") {
        Err(Error::IndexNotFound(name)) => assert_eq!(name, "catto"),
        other => panic!("unexpected {:?}", other),
    }
    match m.swap("doggos", "girafos") {
        Err(Error::IndexNotFound(name)) => assert_eq!(name, "girafos"),
        other => panic!("unexpected {:?}", other),
    }
    match m.swap("a", "b") {
        Err(Error::IndexNotFound(name)) => assert_eq!(name, "a"),
        other => panic!("unexpected {:?}", other),
    }
    assert_eq!(m.len(), 1);
}

#[test]
fn resolve_closes_the_least_recently_used_index() {
    let mut m = IndexMapper::new(2);
    for name in ["a", "b", "c"] {
        m.create(name.to_string()).unwrap();
    }
    assert_eq!(m.resolve("a").unwrap(), None);
    assert_eq!(m.resolve("b").unwrap(), None);
    assert_eq!(m.open_count(), 2);
    // using `a` again makes `b` the least recently used one
    assert_eq!(m.resolve("a").unwrap(), None);
    assert_eq!(m.resolve("c").unwrap(), Some("b".to_string()));
    assert_eq!(m.open_count(), 2);
    assert!(m.is_open("a"));
    assert!(!m.is_open("b"));
    assert!(m.is_open("c"));
    // a closed index is opened again when it is used
    assert_eq!(m.resolve("b").unwrap(), Some("a".to_string()));
    assert!(m.is_open("b"));
    assert_eq!(m.open_count(), 2);

    let mut one = IndexMapper::new(0);
    one.create("a".to_string()).unwrap();
    one.create("b".to_string()).unwrap();
    assert_eq!(one.resolve("a").unwrap(), None);
    assert_eq!(one.resolve("a").unwrap(), None);
    assert_eq!(one.resolve("b").unwrap(), Some("a".to_string()));
    assert_eq!(one.open_count(), 1);
}

#[test]
fn delete_and_swap() {
    let mut m = IndexMapper::new(4);
    for name in ["a", "b", "c"] {
        m.create(name.to_string()).unwrap();
        m.resolve(name).unwrap();
    }
    m.set_stats("a", stats(1)).unwrap();
    m.set_stats("b", stats(2)).unwrap();
    m.swap("a", "b").unwrap();
    assert_eq!(m.stats_of("a").unwrap().number_of_documents(), 2);
    assert_eq!(m.stats_of("b").unwrap().number_of_documents(), 1);
    assert_eq!(m.stats_of("b").unwrap().fields(), &vec![("id".to_string(), 1)]);
    assert_eq!(m.index_names(), vec!["a", "b", "c"]);
    assert!(!m.is_open("a"));
    assert!(!m.is_open("b"));
    assert!(m.is_open("c"));
    m.swap("c", "a").unwrap();
    assert_eq!(m.stats_of("c").unwrap().number_of_documents(), 2);
    assert_eq!(m.stats_of("a").unwrap().number_of_documents(), 0);
    m.swap("b", "b").unwrap();
    assert_eq!(m.stats_of("b").unwrap().number_of_documents(), 1);
    m.resolve("b").unwrap();
    m.delete("b").unwrap();
    assert_eq!(m.index_names(), vec!["a", "c"]);
    assert!(!m.is_open("b"));
    assert_eq!(m.open_count(), 0);
    assert!(matches!(m.delete("b"), Err(Error::IndexNotFound(_))));
}

#[test]
fn file_store_keeps_each_reference_once() {
    let mut f = FileStore::new();
    assert!(f.insert(9));
    assert!(f.insert(3));
    assert!(!f.insert(9));
    assert!(f.insert(5));
    assert_eq!(f.all_uuids(), &vec![3, 5, 9]);
    assert!(f.contains(5));
    assert!(!f.contains(4));
    assert!(f.delete(5));
    assert!(!f.delete(5));
    assert_eq!(f.all_uuids(), &vec![3, 9]);
}

#[test]
fn resolve_may_create_the_index_on_the_way() {
    let mut m = IndexMapper::new(2);
    match m.resolve_or_create("doggos", false) {
        Err(Error::IndexNotFound(name)) => assert_eq!(name, "doggos"),
        other => panic!("unexpected {:?}", other),
    }
    assert_eq!(m.len(), 0);
    assert_eq!(m.resolve_or_create("doggos", true).unwrap(), None);
    assert_eq!(m.index_names(), vec!["doggos"]);
    assert!(m.is_open("doggos"));
    assert_eq!(m.stats_of("doggos").unwrap().number_of_documents(), 0);
    m.set_stats("doggos", stats(7)).unwrap();
    assert_eq!(m.resolve_or_create("catto", true).unwrap(), None);
    assert_eq!(m.resolve_or_create("doggos", true).unwrap(), None);
    assert_eq!(m.stats_of("doggos").unwrap().number_of_documents(), 7);
    assert_eq!(m.resolve_or_create("zebra", true).unwrap(), Some("catto".to_string()));
    assert_eq!(m.index_names(), vec!["catto", "doggos", "zebra"]);
    assert_eq!(m.resolve_or_create("catto", false).unwrap(), Some("doggos".to_string()));
}

#[test]
fn the_scheduler_hands_out_its_registry_to_be_changed() {
    let mut s = index_scheduler::scheduler::IndexScheduler::new(true, 3);
    let mut mapper = s.set_index_mapper(IndexMapper::new(3));
    mapper.create("doggos".to_string()).unwrap();
    let empty = s.set_index_mapper(mapper);
    assert_eq!(empty.len(), 0);
    assert_eq!(s.index_mapper().index_names(), vec!["doggos"]);
    let mut files = s.set_file_store(FileStore::new());
    files.insert(7);
    s.set_file_store(files);
    assert_eq!(s.file_store().all_uuids(), &vec![7]);
}

#[test]
fn names_stand_in_the_order_of_their_bytes() {
    let mut m = IndexMapper::new(3);
    let names = ["b", "", "a", "ab", "B", "é", "z", "aa", "a\u{10348}", "a\u{ffff}", "~", "a b", "0"];
    for name in names {
        m.create(name.to_string()).unwrap();
    }
    let mut sorted: Vec<String> = names.iter().map(|s| s.to_string()).collect();
    sorted.sort();
    assert_eq!(m.index_names(), sorted);
    for name in names {
        assert!(m.contains(name));
    }
    assert!(!m.contains("A"));
    assert!(!m.contains("a "));
}

#[test]
fn fields_of_the_statistics_stand_in_the_order_of_their_names() {
    let mut stats = IndexStats::new(12);
    assert_eq!(stats.number_of_documents(), 12);
    assert!(stats.fields().is_empty());
    stats.set_field("id".to_string(), 12);
    stats.set_field("breed".to_string(), 10);
    stats.set_field("name".to_string(), 11);
    stats.set_field("age".to_string(), 3);
    assert_eq!(
        stats.fields(),
        &vec![
            ("age".to_string(), 3),
            ("breed".to_string(), 10),
            ("id".to_string(), 12),
            ("name".to_string(), 11),
        ]
    );
    // the count of a field that is there is replaced
    stats.set_field("id".to_string(), 9);
    stats.set_field("age".to_string(), 4);
    stats.set_field("name".to_string(), 1);
    assert_eq!(
        stats.fields(),
        &vec![
            ("age".to_string(), 4),
            ("breed".to_string(), 10),
            ("id".to_string(), 9),
            ("name".to_string(), 1),
        ]
    );
    assert_eq!(stats.number_of_documents(), 12);
}

#[test]
fn export_lists_the_fields_in_the_order_of_their_names() {
    let mut m = IndexMapper::new(2);
    m.create("doggos".to_string()).unwrap();
    let mut stats = IndexStats::new(4);
    for (name, count) in [("name", 4u64), ("age", 2), ("id", 4), ("breed", 3), ("age", 1)] {
        stats.set_field(name.to_string(), count);
    }
    m.set_stats("doggos", stats).unwrap();
    assert_eq!(
        index_scheduler::insta_snapshot::snapshot_index_mapper(&m),
        "doggos: { number_of_documents: 4, field_distribution: {\"age\": 1, \"breed\": 3, \"id\": 4, \"name\": 4} }\n"
    );
}
