use corpus::manifest::{content_hash, Manifest};

#[test]
fn unchanged_content_yields_unchanged_hash() {
    let a = content_hash(b"# Title\n\nhello");
    let b = content_hash(b"# Title\n\nhello");
    assert_eq!(a, b);
}

#[test]
fn changed_content_yields_different_hash() {
    let a = content_hash(b"hello");
    let b = content_hash(b"hello!");
    assert_ne!(a, b);
}

#[test]
fn is_unchanged_tracks_the_recorded_hash() {
    let mut m = Manifest::default();
    let h = content_hash(b"body");
    m.upsert("a.md", h.clone(), vec!["a.md#0".into()]);
    assert!(m.is_unchanged("a.md", &h));
    assert!(!m.is_unchanged("a.md", "deadbeef"));
    assert!(!m.is_unchanged("missing.md", &h));
}

#[test]
fn remove_returns_chunk_ids() {
    let mut m = Manifest::default();
    m.upsert("a.md", "h".into(), vec!["a.md#0".into(), "a.md#1".into()]);
    let ids = m.remove("a.md").unwrap();
    assert_eq!(ids, vec!["a.md#0", "a.md#1"]);
    assert!(m.remove("a.md").is_none());
}

#[test]
fn the_hash_is_blake3_in_lower_case_hexadecimal() {
    assert_eq!(
        content_hash(b""),
        "af1349b9f5f9a1a6a0404dea36dcc9499bcb25c9adc112b7cc9a93cae41f3262"
    );
    assert_eq!(content_hash(b"body"), blake3::hash(b"body").to_hex().to_string());
}

#[test]
fn hash_of_gives_the_recorded_hash() {
    let mut m = Manifest::default();
    assert_eq!(m.hash_of("a.md"), None);
    m.upsert("a.md", "h1".into(), vec!["a.md#0".into()]);
    assert_eq!(m.hash_of("a.md"), Some("h1"));
    m.upsert("a.md", "h2".into(), vec![]);
    assert_eq!(m.hash_of("a.md"), Some("h2"));
    assert_eq!(m.remove("a.md"), Some(vec![]));
}

#[test]
fn entries_come_in_ascending_order_of_paths() {
    let mut m = Manifest::default();
    for path in ["b.md", "a/z.md", "é.md", "a.md", "A.md"] {
        m.upsert(path, "h".into(), vec![]);
    }
    let mut sorted = vec!["b.md", "a/z.md", "é.md", "a.md", "A.md"];
    sorted.sort();
    let found: Vec<&str> = (0..m.files.len()).map(|i| m.files.entry(i).0.as_str()).collect();
    assert_eq!(found, sorted);
}
