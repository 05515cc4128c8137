use microbin::pasta::{Pasta, PastaKind};
use microbin::persist::{load_snapshot, save_snapshot};
use microbin::store::PastaStore;
use microbin::StoreError;

fn sample(id: u64, content: &str, file: &str, created: u64, kind: PastaKind, expiration: u64) -> Pasta {
    Pasta {
        id,
        content: content.to_string(),
        file: file.to_string(),
        created,
        kind,
        expiration,
    }
}

#[test]
fn save_load_roundtrip_field_for_field() {
    let pastas = vec![
        sample(5, "hello there", "no-file", 10, PastaKind::Text, 0),
        sample(65535, "https://example.com/x", "no-file", 20, PastaKind::Url, 80),
        sample(0, "see attachment", "report_final.txt", 30, PastaKind::File, 0),
        sample(7, "", "no-file", 40, PastaKind::Text, 100),
    ];
    let text = save_snapshot(&pastas);
    let loaded = load_snapshot(text.as_str()).unwrap();
    assert_eq!(loaded.len(), pastas.len());
    for (a, b) in pastas.iter().zip(loaded.iter()) {
        assert_eq!(a.id, b.id);
        assert_eq!(a.content, b.content);
        assert_eq!(a.file, b.file);
        assert_eq!(a.created, b.created);
        assert_eq!(a.kind, b.kind);
        assert_eq!(a.expiration, b.expiration);
    }
}

#[test]
fn save_empty_is_count_only() {
    let text = save_snapshot(&Vec::new());
    assert_eq!(text, "0\n");
    assert_eq!(load_snapshot("0\n").unwrap().len(), 0);
}

#[test]
fn exact_snapshot_text() {
    let pastas = vec![sample(5, "hi", "no-file", 10, PastaKind::Text, 0)];
    assert_eq!(save_snapshot(&pastas), "1\n5\n10\n0\ntext\n2\nhi7\nno-file");
}

#[test]
fn content_with_newlines_roundtrips() {
    let pastas = vec![sample(1, "line one\nline two\n\n4\n", "no-file", 2, PastaKind::Text, 0)];
    let text = save_snapshot(&pastas);
    let loaded = load_snapshot(text.as_str()).unwrap();
    assert_eq!(loaded[0].content, "line one\nline two\n\n4\n");
}

#[test]
fn load_empty_text_is_corrupt() {
    assert_eq!(load_snapshot(""), Err(StoreError::PersistenceCorrupt));
}

#[test]
fn load_garbage_is_corrupt() {
    assert_eq!(load_snapshot("hello"), Err(StoreError::PersistenceCorrupt));
    assert_eq!(load_snapshot("1\n"), Err(StoreError::PersistenceCorrupt));
    assert_eq!(load_snapshot("2\n5\n10\n0\ntext\n2\nhi7\nno-file"), Err(StoreError::PersistenceCorrupt));
}

#[test]
fn load_trailing_garbage_is_corrupt() {
    let pastas = vec![sample(5, "hi", "no-file", 10, PastaKind::Text, 0)];
    let mut text = save_snapshot(&pastas);
    text.push('x');
    assert_eq!(load_snapshot(text.as_str()), Err(StoreError::PersistenceCorrupt));
}

#[test]
fn store_snapshot_roundtrips_through_store() {
    let mut store = PastaStore::new();
    store
        .create("https://example.com/x".to_string(), None, "never", 1000)
        .unwrap();
    store
        .create("plain words".to_string(), None, "1week", 1000)
        .unwrap();
    let text = store.snapshot();
    let loaded = load_snapshot(text.as_str()).unwrap();
    let reopened = PastaStore::from_pastas(loaded);
    assert_eq!(reopened.pastas.len(), 2);
    assert_eq!(reopened.pastas[0].kind, PastaKind::Url);
    assert_eq!(reopened.pastas[1].expiration, 1000 + 604800);
}
