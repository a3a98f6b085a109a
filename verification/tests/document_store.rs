use path_sense_lsp::document_store::{changes_apply_cleanly, ContentChange, DocumentStore};
use path_sense_lsp::text::{Position, Range};

fn change(start: (u32, u32), end: (u32, u32), text: &str) -> ContentChange {
    ContentChange {
        range: Some(Range::new(Position::new(start.0, start.1), Position::new(end.0, end.1))),
        text: text.to_string(),
    }
}

fn open_rust(store: &mut DocumentStore, uri: &str) {
    store.open(
        uri.to_string(),
        "Rust".to_string(),
        "let path = \"./src/ma\";".to_string(),
        Some(1),
        Some("/tmp/app.rs".to_string()),
    );
}

#[test]
fn applies_incremental_insert_delete_and_replace() {
    let uri = "file:///tmp/app.rs".to_string();
    let mut store = DocumentStore::default();
    open_rust(&mut store, &uri);

    store.apply_changes(&uri, vec![change((0, 20), (0, 20), "i")], Some(2));
    assert_eq!(store.snapshot(&uri).expect("snapshot").text.as_str(), "let path = \"./src/mai\";");

    store.apply_changes(&uri, vec![change((0, 20), (0, 21), "")], Some(3));
    assert_eq!(store.snapshot(&uri).expect("snapshot").text.as_str(), "let path = \"./src/ma\";");

    store.apply_changes(&uri, vec![change((0, 18), (0, 20), "in")], Some(4));
    assert_eq!(store.snapshot(&uri).expect("snapshot").text.as_str(), "let path = \"./src/in\";");
}

#[test]
fn applies_multiple_changes_in_order() {
    let uri = "file:///tmp/app.rs".to_string();
    let mut store = DocumentStore::default();
    open_rust(&mut store, &uri);

    store.apply_changes(&uri, vec![change((0, 18), (0, 20), "in"), change((0, 20), (0, 20), ".rs")], Some(2));

    let snapshot = store.snapshot(&uri).expect("snapshot");
    assert_eq!(snapshot.text.as_str(), "let path = \"./src/in.rs\";");
    assert!(snapshot.syntax.is_some());
    assert_eq!(snapshot.version, Some(2));
}

#[test]
fn full_text_change_rebuilds_document() {
    let uri = "file:///tmp/app.rs".to_string();
    let mut store = DocumentStore::default();
    open_rust(&mut store, &uri);

    store.apply_changes(
        &uri,
        vec![ContentChange { range: None, text: "let path = \"./src/main.rs\";".to_string() }],
        Some(2),
    );

    let snapshot = store.snapshot(&uri).expect("snapshot");
    assert_eq!(snapshot.text.as_str(), "let path = \"./src/main.rs\";");
    assert!(snapshot.syntax.is_some());
}

#[test]
fn invalid_incremental_range_keeps_existing_text_consistent() {
    let uri = "file:///tmp/app.rs".to_string();
    let mut store = DocumentStore::default();
    open_rust(&mut store, &uri);

    store.apply_changes(&uri, vec![change((99, 0), (99, 1), "broken")], Some(2));

    let snapshot = store.snapshot(&uri).expect("snapshot");
    assert_eq!(snapshot.text.as_str(), "let path = \"./src/ma\";");
    assert!(snapshot.syntax.is_some());
}

#[test]
fn unsupported_languages_still_update_text() {
    let uri = "file:///tmp/app.txt".to_string();
    let mut store = DocumentStore::default();
    store.open(uri.clone(), "Plain Text".to_string(), "open ./src/ma".to_string(), Some(1), Some("/tmp/app.txt".to_string()));

    store.apply_changes(&uri, vec![change((0, 11), (0, 13), "in")], Some(2));

    let snapshot = store.snapshot(&uri).expect("snapshot");
    assert_eq!(snapshot.text.as_str(), "open ./src/in");
    assert!(snapshot.syntax.is_none());
}

#[test]
fn closing_forgets_only_that_document() {
    let mut store = DocumentStore::default();
    let a = "file:///tmp/a.rs".to_string();
    let b = "file:///tmp/b.rs".to_string();
    open_rust(&mut store, &a);
    open_rust(&mut store, &b);
    store.close(&a);
    assert!(store.snapshot(&a).is_none());
    assert!(store.snapshot(&b).is_some());
    store.apply_changes(&a, vec![change((0, 0), (0, 0), "x")], Some(5));
    assert!(store.snapshot(&a).is_none());
}

#[test]
fn reversed_ranges_are_reported_before_applying() {
    assert!(changes_apply_cleanly("abc", &[change((0, 1), (0, 2), "x")]));
    assert!(!changes_apply_cleanly("abc", &[change((0, 2), (0, 1), "x")]));
    assert!(changes_apply_cleanly("abc", &[change((0, 9), (0, 1), "x")]));
    assert!(!changes_apply_cleanly("abc", &[change((0, 0), (0, 3), "abcdef"), change((0, 5), (0, 4), "")]));
}
