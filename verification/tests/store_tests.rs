use magentadb::db::{DBError, InMemoryDB};
use magentadb::document::DocumentStored;
use magentadb::materialize::materialize_field;
use magentadb::token::tokenize;

const KEY: [u8; 32] = [42u8; 32];

fn doc_with(id: &str, fields: &[(&str, &str)]) -> DocumentStored {
    let mut doc = DocumentStored::new(id.to_string());
    for (name, value) in fields {
        doc.set_field(name.to_string(), materialize_field(value, &KEY));
    }
    doc
}

#[test]
fn upsert_and_get_roundtrip() {
    let mut db = InMemoryDB::new();
    db.upsert(doc_with("D1", &[("a", "x")])).unwrap();
    let got = db.get("D1").unwrap();
    assert_eq!(got.id, "D1");
    assert_eq!(got.fields.len(), 1);
    assert_eq!(got.fields[0].name, "a");
    assert_eq!(got.fields[0].record.token, tokenize(&KEY, "x"));
}

#[test]
fn get_missing_is_not_found() {
    let db = InMemoryDB::new();
    let err = db.get("D9").unwrap_err();
    assert!(matches!(&err, DBError::NotFound(id) if id == "D9"));
    assert_eq!(err.message(), "Document not found: D9");
}

#[test]
fn upsert_returns_previous_document() {
    let mut db = InMemoryDB::new();
    let first = db.upsert(doc_with("D1", &[("a", "x")])).unwrap();
    assert!(first.is_none());
    let second = db.upsert(doc_with("D1", &[("a", "x2")])).unwrap();
    let prev = second.expect("previous document must be returned");
    assert_eq!(prev.id, "D1");
    assert_eq!(prev.fields[0].record.token, tokenize(&KEY, "x"));
}

#[test]
fn index_consistency_after_update() {
    let mut db = InMemoryDB::new();
    db.upsert(doc_with("D1", &[("a", "x"), ("b", "y")])).unwrap();
    assert_eq!(db.stats().token_index_size, 2);

    db.upsert(doc_with("D1", &[("a", "x2")])).unwrap();

    let stale = db.query_by_token(&tokenize(&KEY, "y"));
    assert!(stale.is_empty());
    let fresh = db.query_by_token(&tokenize(&KEY, "x2"));
    assert_eq!(fresh.len(), 1);
    assert_eq!(fresh[0].id, "D1");
    assert_eq!(db.stats().token_index_size, 1);
}

#[test]
fn index_cleanup_on_delete() {
    let mut db = InMemoryDB::new();
    db.upsert(doc_with("D1", &[("a", "x")])).unwrap();
    db.upsert(doc_with("D2", &[("b", "y")])).unwrap();
    assert_eq!(db.stats().token_index_size, 2);

    db.remove("D1").unwrap();

    assert!(db.query_by_token(&tokenize(&KEY, "x")).is_empty());
    assert_eq!(db.stats().token_index_size, 1);
    assert_eq!(db.stats().field_index_size, 1);
    assert_eq!(db.stats().document_count, 1);
}

#[test]
fn many_inserts_all_resolve() {
    let mut db = InMemoryDB::new();
    let n = 20;
    for i in 0..n {
        let id = format!("doc-{}", i);
        let value = format!("value-{}", i);
        db.upsert(doc_with(&id, &[("payload", &value)])).unwrap();
    }
    assert_eq!(db.stats().document_count, n);
    for i in 0..n {
        let id = format!("doc-{}", i);
        let value = format!("value-{}", i);
        let hits = db.query_by_token(&tokenize(&KEY, &value));
        assert_eq!(hits.len(), 1);
        assert_eq!(hits[0].id, id);
    }
}

#[test]
fn shared_token_queries_both_documents() {
    let mut db = InMemoryDB::new();
    db.upsert(doc_with("D1", &[("a", "common")])).unwrap();
    db.upsert(doc_with("D2", &[("b", "common")])).unwrap();
    let mut hits: Vec<String> =
        db.query_by_token(&tokenize(&KEY, "common")).into_iter().map(|d| d.id).collect();
    hits.sort();
    assert_eq!(hits, vec!["D1".to_string(), "D2".to_string()]);

    db.remove("D1").unwrap();
    let hits = db.query_by_token(&tokenize(&KEY, "common"));
    assert_eq!(hits.len(), 1);
    assert_eq!(hits[0].id, "D2");
    assert_eq!(db.stats().token_index_size, 1);
}

#[test]
fn clear_is_idempotent() {
    let mut db = InMemoryDB::new();
    db.upsert(doc_with("D1", &[("a", "x")])).unwrap();
    db.upsert(doc_with("D2", &[("b", "y")])).unwrap();

    db.clear();
    let s = db.stats();
    assert_eq!(s.document_count, 0);
    assert_eq!(s.token_index_size, 0);
    assert_eq!(s.field_index_size, 0);
    assert!(matches!(db.get("D1"), Err(DBError::NotFound(_))));

    db.clear();
    let s = db.stats();
    assert_eq!(s.document_count, 0);
    assert_eq!(s.token_index_size, 0);
    assert_eq!(s.field_index_size, 0);

    let (stats, not_found) = db.clear_leaves_nothing("D2");
    assert_eq!(stats.document_count, 0);
    assert_eq!(stats.token_index_size, 0);
    assert_eq!(stats.field_index_size, 0);
    assert!(not_found);
}

#[test]
fn remove_missing_is_not_found() {
    let mut db = InMemoryDB::new();
    let err = db.remove("nope").unwrap_err();
    assert!(matches!(&err, DBError::NotFound(id) if id == "nope"));
}

#[test]
fn remove_returns_document() {
    let mut db = InMemoryDB::new();
    db.upsert(doc_with("D1", &[("a", "x")])).unwrap();
    let removed = db.remove("D1").unwrap();
    assert_eq!(removed.id, "D1");
    assert!(matches!(db.get("D1"), Err(DBError::NotFound(_))));
}

#[test]
fn all_ids_lists_everything() {
    let mut db = InMemoryDB::new();
    db.upsert(doc_with("D1", &[("a", "x")])).unwrap();
    db.upsert(doc_with("D2", &[("b", "y")])).unwrap();
    let mut ids = db.all_ids();
    ids.sort();
    assert_eq!(ids, vec!["D1".to_string(), "D2".to_string()]);
}

#[test]
fn query_without_match_is_empty() {
    let db = InMemoryDB::new();
    assert!(db.query_by_token(&tokenize(&KEY, "absent")).is_empty());
}

#[test]
fn set_field_replaces_and_appends() {
    let mut doc = DocumentStored::new("D1".to_string());
    doc.set_field("a".to_string(), materialize_field("one", &KEY));
    doc.set_field("b".to_string(), materialize_field("two", &KEY));
    assert_eq!(doc.fields.len(), 2);

    doc.set_field("a".to_string(), materialize_field("three", &KEY));
    assert_eq!(doc.fields.len(), 2);

    let rec = doc.get_field(&"a".to_string()).expect("field a must exist");
    assert_eq!(rec.token, tokenize(&KEY, "three"));
    assert!(doc.get_field(&"c".to_string()).is_none());
}

#[test]
fn error_messages_render() {
    assert_eq!(DBError::StorageError("disk".to_string()).message(), "Storage error: disk");
    assert_eq!(DBError::Duplicate("D1".to_string()).message(), "Duplicate document: D1");
}
