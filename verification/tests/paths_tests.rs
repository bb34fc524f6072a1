use serve_static::paths::{encode_url_path, format_url_path_safely, resolve_request_path};

#[test]
fn test_normalize_collapses_dot_dot() {
    assert_eq!(format_url_path_safely("a/../a/b.txt"), "a/b.txt");
    assert_eq!(format_url_path_safely("a/b.txt"), "a/b.txt");
}

#[test]
fn test_normalize_never_escapes_root() {
    assert_eq!(format_url_path_safely("../../../etc/passwd"), "etc/passwd");
    assert_eq!(format_url_path_safely("..\\girl\\love\\eat.txt"), "girl/love/eat.txt");
    assert_eq!(format_url_path_safely("/../girl/love/eat.txt"), "girl/love/eat.txt");
}

#[test]
fn test_normalize_mixed_separators() {
    assert_eq!(format_url_path_safely("dir1\\..\\dir1\\test3.txt"), "dir1/test3.txt");
    assert_eq!(format_url_path_safely("/dir1/../dir1/test3.txt"), "dir1/test3.txt");
    assert_eq!(format_url_path_safely("dir1/dir2/test3.txt"), "dir1/dir2/test3.txt");
}

#[test]
fn test_normalize_degenerate_inputs() {
    assert_eq!(format_url_path_safely(""), "");
    assert_eq!(format_url_path_safely("/"), "");
    assert_eq!(format_url_path_safely("//./.."), "");
    assert_eq!(format_url_path_safely("..."), "...");
    assert_eq!(format_url_path_safely(".hidden/./x"), ".hidden/x");
}

#[test]
fn test_normalize_idempotent_on_samples() {
    let samples = ["a/../a/b.txt", "..\\..\\x", "dir1//dir2/", "%41", ""];
    for s in samples {
        let once = format_url_path_safely(s);
        let twice = format_url_path_safely(&once);
        assert_eq!(once, twice);
    }
}

#[test]
fn test_resolve_request_path_decodes_separators() {
    // %2F decodes to `/`, so the decoded `..` must still be collapsed.
    assert_eq!(resolve_request_path("a%2F..%2Fb"), "b");
    assert_eq!(resolve_request_path("%2e%2e/secret"), "secret");
    assert_eq!(resolve_request_path("%2e%2e%5Cgirl%5Ceat.txt"), "girl/eat.txt");
    assert_eq!(resolve_request_path("dir1/%2E%2E/dir1/test3.txt"), "dir1/test3.txt");
}

#[test]
fn test_containment_over_adversarial_interleavings() {
    // Interleavings of dots, empty segments, both separators and
    // percent-encoded variants: the resolved path must never carry a `..`,
    // a `.`, an empty segment, a leading separator or a backslash.
    let pieces = ["", ".", "..", "a", ".h", "%2e%2e", "%2F", "b.txt"];
    let seps = ["/", "\\", "//", "/\\", "%5C"];
    for p1 in pieces {
        for s1 in seps {
            for p2 in pieces {
                for s2 in seps {
                    for p3 in pieces {
                        let raw = format!("{p1}{s1}{p2}{s2}{p3}");
                        let safe = resolve_request_path(&raw);
                        assert!(!safe.starts_with('/'));
                        assert!(!safe.contains('\\'));
                        if !safe.is_empty() {
                            for seg in safe.split('/') {
                                assert!(!seg.is_empty() && seg != "." && seg != "..");
                            }
                        }
                        // Idempotence: a safe path is a fixed point.
                        assert_eq!(format_url_path_safely(&safe), safe);
                    }
                }
            }
        }
    }
}

#[test]
fn test_encode_url_path_encodes_controls_only() {
    assert_eq!(encode_url_path("plain/name.txt"), "plain/name.txt");
    assert_eq!(encode_url_path("a b/c"), "a b/c");
    assert_eq!(encode_url_path("line\nbreak"), "line%0Abreak");
    assert_eq!(encode_url_path("tab\tdir/x\u{1}y"), "tab%09dir/x%01y");
}
