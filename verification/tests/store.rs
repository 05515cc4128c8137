use microbin::pasta::{is_valid_url, Pasta, PastaKind};
use microbin::store::PastaStore;
use microbin::StoreError;

#[test]
fn url_alone_is_url() {
    assert!(is_valid_url("https://example.com/x"));
}

#[test]
fn url_with_trailing_text_is_not_url() {
    assert!(!is_valid_url("https://example.com/x please visit"));
}

#[test]
fn create_classifies_url() {
    let mut store = PastaStore::new();
    let id = store
        .create("https://example.com/x".to_string(), None, "never", 1000)
        .unwrap();
    let p = store.find(id, 1000).unwrap();
    assert_eq!(p.kind, PastaKind::Url);
    assert_eq!(p.content, "https://example.com/x");
    assert_eq!(p.created, 1000);
    assert_eq!(p.expiration, 0);
    assert_eq!(p.file, "no-file");
}

#[test]
fn create_classifies_text() {
    let mut store = PastaStore::new();
    let id = store
        .create(
            "https://example.com/x please visit".to_string(),
            None,
            "never",
            1000,
        )
        .unwrap();
    let p = store.find(id, 1000).unwrap();
    assert_eq!(p.kind, PastaKind::Text);
}

#[test]
fn create_with_file_classifies_file() {
    let mut store = PastaStore::new();
    let id = store
        .create(
            "see attachment".to_string(),
            Some("report final.txt".to_string()),
            "never",
            1000,
        )
        .unwrap();
    let p = store.find(id, 1000).unwrap();
    assert_eq!(p.kind, PastaKind::File);
    assert_eq!(p.file, "report_final.txt");
}

#[test]
fn empty_filename_means_no_file() {
    let mut store = PastaStore::new();
    let id = store
        .create("plain words".to_string(), Some(String::new()), "never", 1000)
        .unwrap();
    let p = store.find(id, 1000).unwrap();
    assert_eq!(p.kind, PastaKind::Text);
    assert_eq!(p.file, "no-file");
}

#[test]
fn expiration_boundary_found_before() {
    let mut store = PastaStore::new();
    let id = store
        .create("short-lived".to_string(), None, "1min", 1000)
        .unwrap();
    let p = store.find(id, 1059).unwrap();
    assert_eq!(p.expiration, 1060);
}

#[test]
fn expiration_boundary_absent_at_deadline() {
    // The boundary is pinned: at exactly created + 60 the paste is gone.
    let mut store = PastaStore::new();
    let id = store
        .create("short-lived".to_string(), None, "1min", 1000)
        .unwrap();
    assert!(store.find(id, 1060).is_none());
}

#[test]
fn expiration_boundary_absent_after() {
    let mut store = PastaStore::new();
    let id = store
        .create("short-lived".to_string(), None, "1min", 1000)
        .unwrap();
    assert!(store.find(id, 1061).is_none());
}

#[test]
fn never_expires_survives_any_jump() {
    let mut store = PastaStore::new();
    let id = store
        .create("eternal".to_string(), None, "never", 1000)
        .unwrap();
    assert!(store.find(id, u64::MAX - 700000).is_some());
    assert!(store.find(id, u64::MAX).is_some());
}

#[test]
fn sweep_twice_yields_same_survivors() {
    let mut store = PastaStore::new();
    store.create("a".to_string(), None, "1min", 1000).unwrap();
    store.create("b".to_string(), None, "never", 1000).unwrap();
    store.create("c".to_string(), None, "1hour", 1000).unwrap();
    store.remove_expired(2000);
    let first: Vec<u64> = store.list(2000).iter().map(|p| p.id).collect();
    store.remove_expired(2000);
    let second: Vec<u64> = store.list(2000).iter().map(|p| p.id).collect();
    assert_eq!(first, second);
    assert_eq!(first.len(), 2);
}

#[test]
fn remove_then_find_is_absent() {
    let mut store = PastaStore::new();
    let id = store
        .create("to be removed".to_string(), None, "never", 1000)
        .unwrap();
    assert_eq!(store.remove(id, 1000), Ok(()));
    assert!(store.find(id, 1000).is_none());
}

#[test]
fn remove_nonexistent_leaves_collection() {
    let mut store = PastaStore::new();
    store.create("keeper".to_string(), None, "never", 1000).unwrap();
    // Generated ids fit 16 bits, so this id is never present.
    assert_eq!(store.remove(70000, 1000), Err(StoreError::NotFound));
    assert_eq!(store.list(1000).len(), 1);
}

#[test]
fn successive_creates_all_present() {
    let mut store = PastaStore::new();
    let mut ids: Vec<u64> = Vec::new();
    for i in 0..5 {
        let id = store
            .create(format!("paste number {}", i), None, "never", 1000)
            .unwrap();
        ids.push(id);
    }
    let listed = store.list(1000);
    assert_eq!(listed.len(), 5);
    let mut listed_ids: Vec<u64> = listed.iter().map(|p| p.id).collect();
    ids.sort();
    listed_ids.sort();
    assert_eq!(ids, listed_ids);
}

#[test]
fn invalid_expiration_choice_rejected() {
    let mut store = PastaStore::new();
    assert_eq!(
        store.create("x".to_string(), None, "2min", 1000),
        Err(StoreError::InvalidExpirationChoice)
    );
    assert_eq!(store.list(1000).len(), 0);
}

#[test]
fn expiration_offsets_exact() {
    let cases: [(&str, u64); 6] = [
        ("1min", 1060),
        ("10min", 1600),
        ("1hour", 4600),
        ("24hour", 87400),
        ("1week", 605800),
        ("never", 0),
    ];
    for (choice, expected) in cases {
        let mut store = PastaStore::new();
        let id = store.create("x".to_string(), None, choice, 1000).unwrap();
        let p = store.find(id, 1000).unwrap();
        assert_eq!(p.expiration, expected, "choice {}", choice);
    }
}

#[test]
fn generated_ids_fit_sixteen_bits() {
    let mut store = PastaStore::new();
    for _ in 0..20 {
        let id = store.create("x".to_string(), None, "never", 1000).unwrap();
        assert!(id <= 0xFFFF);
    }
}

#[test]
fn list_keeps_insertion_order() {
    let mut store = PastaStore::new();
    for i in 0..4 {
        store
            .create(format!("entry {}", i), None, "never", 1000 + i)
            .unwrap();
    }
    let listed = store.list(2000);
    let contents: Vec<&str> = listed.iter().map(|p| p.content.as_str()).collect();
    assert_eq!(contents, vec!["entry 0", "entry 1", "entry 2", "entry 3"]);
}

#[test]
fn find_returns_first_match_on_collision() {
    let older = Pasta {
        id: 42,
        content: "older".to_string(),
        file: "no-file".to_string(),
        created: 1,
        kind: PastaKind::Text,
        expiration: 0,
    };
    let newer = Pasta {
        id: 42,
        content: "newer".to_string(),
        file: "no-file".to_string(),
        created: 2,
        kind: PastaKind::Text,
        expiration: 0,
    };
    let mut store = PastaStore::from_pastas(vec![older, newer]);
    let found = store.find(42, 10).unwrap();
    assert_eq!(found.content, "older");
}
