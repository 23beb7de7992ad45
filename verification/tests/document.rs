use sink::document::{Document, DocumentStore, UtcTime};
use uuid::Uuid;

fn clock_now() -> UtcTime {
    let now = chrono::Utc::now();
    UtcTime { secs: now.timestamp(), nanos: now.timestamp_subsec_nanos() }
}

fn fresh_id() -> u128 {
    Uuid::new_v4().as_u128()
}

#[test]
fn test_document_creation() {
    let doc = Document::new("test.txt".to_string(), fresh_id(), clock_now());
    assert_eq!(doc.name, "test.txt");
    assert_eq!(doc.content, "");
    assert_eq!(doc.version, 0);
}

#[test]
fn test_document_update() {
    let mut doc = Document::new("test.txt".to_string(), fresh_id(), clock_now());
    let client_id = Uuid::new_v4().as_u128();
    let timestamp = clock_now();

    doc.update_content("Hello, world!".to_string(), client_id, timestamp);

    assert_eq!(doc.content, "Hello, world!");
    assert_eq!(doc.last_modified_by, Some(client_id));
    assert_eq!(doc.version, 1);
}

#[test]
fn test_document_store() {
    let mut store = DocumentStore::new();

    let doc = store.create_document("test.txt".to_string(), fresh_id(), clock_now());
    let doc_id = doc.id;

    assert!(store.document_exists(&doc_id));
    assert_eq!(store.list_documents().len(), 1);

    let client_id = Uuid::new_v4().as_u128();
    let updated_doc = store.update_document(
        &doc_id,
        "Updated content".to_string(),
        client_id,
        clock_now(),
    );

    assert!(updated_doc.is_some());
    assert_eq!(updated_doc.unwrap().content, "Updated content");
}

fn at_secs(secs: i64) -> UtcTime {
    UtcTime { secs, nanos: 0 }
}

#[test]
fn stale_update_is_ignored() {
    let mut doc = Document::new("a".to_string(), 7, at_secs(100));
    doc.update_content("new".to_string(), 1, at_secs(50));
    assert_eq!(doc.content, "");
    assert_eq!(doc.version, 0);
    assert_eq!(doc.last_modified, at_secs(100));
    assert_eq!(doc.last_modified_by, None);
}

#[test]
fn update_at_same_instant_is_applied() {
    let mut doc = Document::new("a".to_string(), 7, at_secs(100));
    doc.update_content("same".to_string(), 3, at_secs(100));
    assert_eq!(doc.content, "same");
    assert_eq!(doc.version, 1);
    assert_eq!(doc.last_modified_by, Some(3));
}

#[test]
fn later_write_wins_in_either_order() {
    let base = Document::new("a".to_string(), 7, at_secs(0));
    let mut x = base.clone();
    x.update_content("early".to_string(), 1, at_secs(10));
    x.update_content("late".to_string(), 2, at_secs(20));
    let mut y = base.clone();
    y.update_content("late".to_string(), 2, at_secs(20));
    y.update_content("early".to_string(), 1, at_secs(10));
    assert_eq!(x.content, "late");
    assert_eq!(y.content, "late");
    assert_eq!(x.last_modified, y.last_modified);
    assert_eq!(x.last_modified_by, Some(2));
    assert_eq!(y.last_modified_by, Some(2));
    assert_eq!(x.version, 2);
    assert_eq!(y.version, 1);
}

#[test]
fn nanoseconds_break_ties_between_seconds() {
    let a = UtcTime { secs: 5, nanos: 10 };
    let b = UtcTime { secs: 5, nanos: 20 };
    assert!(a.is_before(&b));
    assert!(!b.is_before(&a));
    assert!(!a.is_before(&a));
}

#[test]
fn document_info_counts_bytes() {
    let mut doc = Document::new("notes".to_string(), 42, at_secs(1));
    doc.update_content("héllo".to_string(), 9, at_secs(2));
    let info = doc.get_info();
    assert_eq!(info.id, 42);
    assert_eq!(info.name, "notes");
    assert_eq!(info.last_modified, at_secs(2));
    assert_eq!(info.content_length, 6);
}

#[test]
fn store_lookups() {
    let mut store = DocumentStore::new();
    assert!(store.get_document(&1).is_none());
    assert!(store.update_document(&1, "x".to_string(), 2, at_secs(3)).is_none());
    let id = store.create_document("one".to_string(), 11, at_secs(1)).id;
    store.create_document("two".to_string(), 12, at_secs(2));
    assert_eq!(store.get_document(&id).unwrap().name, "one");
    {
        let d = store.get_document_mut(&id).unwrap();
        d.name = "renamed".to_string();
    }
    assert_eq!(store.get_document(&id).unwrap().name, "renamed");
    let mut names: Vec<String> = store.list_documents().into_iter().map(|i| i.name).collect();
    names.sort();
    assert_eq!(names, vec!["renamed".to_string(), "two".to_string()]);
    assert!(!store.document_exists(&(id ^ 1)));
}

#[test]
fn created_document_carries_given_identity() {
    let mut store = DocumentStore::new();
    let d = store.create_document("x".to_string(), 99, at_secs(5));
    assert_eq!(d.id, 99);
    assert_eq!(d.last_modified, at_secs(5));
    assert_eq!(d.version, 0);
    assert!(store.document_exists(&99));
}

#[test]
fn creating_a_document_adds_one_summary() {
    let mut store = DocumentStore::new();
    for n in 0..3 {
        assert_eq!(store.list_documents().len(), n);
        let id = fresh_id();
        assert!(!store.document_exists(&id));
        store.create_document(format!("doc{}.txt", n), id, clock_now());
        assert_eq!(store.list_documents().len(), n + 1);
    }
}

#[test]
fn stored_documents_keep_their_own_key() {
    let mut store = DocumentStore::new();
    let first = store.create_document("a.txt".to_string(), 11, at_secs(1)).id;
    let second = store.create_document("b.txt".to_string(), 22, at_secs(1)).id;
    assert_eq!((first, second), (11, 22));
    let updated = store.update_document(&22, "new".to_string(), 5, at_secs(2)).unwrap();
    assert_eq!(updated.id, 22);
    assert_eq!(store.get_document(&11).unwrap().id, 11);
    assert_eq!(store.get_document(&22).unwrap().id, 22);
    assert_eq!(store.get_document(&22).unwrap().content, "new");
}
