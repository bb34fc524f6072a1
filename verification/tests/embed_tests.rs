use serve_static::embed::EmbedBundle;
use serve_static::paths::resolve_request_path;

fn bundle() -> EmbedBundle {
    let mut b = EmbedBundle::new();
    b.insert("index.html".to_string(), b"Index page".to_vec());
    b.insert("test1.txt".to_string(), b"copy1".to_vec());
    b.insert("dir2/test3.txt".to_string(), b"dir2 test3".to_vec());
    b.insert(".secret/data.txt".to_string(), b"hidden".to_vec());
    b
}

#[test]
fn test_embed_exact_lookup() {
    let b = bundle();
    assert_eq!(b.get("test1.txt").map(|v| v.as_slice()), Some(b"copy1".as_slice()));
    assert!(b.get("test1111.txt").is_none());
    assert_eq!(
        b.get("dir2/test3.txt").map(|v| v.as_slice()),
        Some(b"dir2 test3".as_slice())
    );
}

#[test]
fn test_embed_fallback_serves_default_on_miss() {
    let b = bundle();
    // An existing key is returned unchanged.
    let hit = b.resolve_with_fallback("test1.txt", Some("index.html"), true);
    assert_eq!(hit.map(|v| v.as_slice()), Some(b"copy1".as_slice()));
    // A miss serves the fallback's content.
    let fb = b.resolve_with_fallback("test1111.txt", Some("index.html"), true);
    assert_eq!(fb.map(|v| v.as_slice()), Some(b"Index page".as_slice()));
    // No fallback configured: a miss stays a miss.
    assert!(b.resolve_with_fallback("test1111.txt", None, true).is_none());
    // A fallback that itself misses degrades to not-found, never fails.
    assert!(b.resolve_with_fallback("abc.txt", Some("notexist.html"), true).is_none());
}

#[test]
fn test_embed_dot_files_policy() {
    let b = bundle();
    // The key exists in storage, yet dot-file policy makes it a miss.
    assert!(b.resolve(".secret/data.txt", false).is_none());
    assert_eq!(
        b.resolve(".secret/data.txt", true).map(|v| v.as_slice()),
        Some(b"hidden".as_slice())
    );
    // The policy also wins over a configured fallback target that is hidden.
    assert!(b.resolve_with_fallback("missing", Some(".secret/data.txt"), false).is_none());
}

#[test]
fn test_embed_resolution_repeatable() {
    let b = bundle();
    let r1 = b.resolve("dir2/test3.txt", true).map(|v| v.clone());
    let r2 = b.resolve("dir2/test3.txt", true).map(|v| v.clone());
    assert_eq!(r1, r2);
    let safe = resolve_request_path("dir2/../dir2/test3.txt");
    let r3 = b.resolve(&safe, true).map(|v| v.clone());
    assert_eq!(r1, r3);
}

#[test]
fn test_embed_synthesized_directories() {
    let b = bundle();
    assert!(b.is_dir_like(""));
    assert!(b.is_dir_like("dir2"));
    assert!(!b.is_dir_like("dir2/test3.txt"));
    assert!(!b.is_dir_like("nope"));
    let empty = EmbedBundle::new();
    assert!(!empty.is_dir_like(""));
}
