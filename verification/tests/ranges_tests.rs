use serve_static::mime::content_type_for;
use serve_static::ranges::{
    chunk_plan, content_range_text, parse_range_header, satisfy_range, ByteSpan, RangeRequest,
};

#[test]
fn test_range_prefix_of_file() {
    // Bytes [0, 100) of a 1000-byte file: partial content with exactly 100 bytes.
    let req = parse_range_header("bytes=0-99").unwrap();
    assert_eq!(req, RangeRequest::FromTo(0, 99));
    let span = satisfy_range(req, 1000).unwrap();
    assert_eq!(span, ByteSpan { offset: 0, len: 100 });
}

#[test]
fn test_range_beyond_size_is_unsatisfiable() {
    assert!(satisfy_range(RangeRequest::From(1000), 100).is_err());
    assert!(satisfy_range(RangeRequest::FromTo(5, 10), 3).is_err());
    assert!(satisfy_range(RangeRequest::From(0), 0).is_err());
    assert!(satisfy_range(RangeRequest::Suffix(0), 10).is_err());
}

#[test]
fn test_range_clamps_inclusive_end() {
    let span = satisfy_range(RangeRequest::FromTo(2, 999), 10).unwrap();
    assert_eq!(span, ByteSpan { offset: 2, len: 8 });
    let span = satisfy_range(RangeRequest::From(4), 10).unwrap();
    assert_eq!(span, ByteSpan { offset: 4, len: 6 });
}

#[test]
fn test_range_suffix() {
    let span = satisfy_range(RangeRequest::Suffix(4), 10).unwrap();
    assert_eq!(span, ByteSpan { offset: 6, len: 4 });
    let span = satisfy_range(RangeRequest::Suffix(100), 10).unwrap();
    assert_eq!(span, ByteSpan { offset: 0, len: 10 });
}

#[test]
fn test_range_header_parsing() {
    assert_eq!(parse_range_header("bytes=1-2"), Some(RangeRequest::FromTo(1, 2)));
    assert_eq!(parse_range_header("bytes=5-"), Some(RangeRequest::From(5)));
    assert_eq!(parse_range_header("bytes=-7"), Some(RangeRequest::Suffix(7)));
    assert_eq!(parse_range_header("bytes="), None);
    assert_eq!(parse_range_header("bytes=-"), None);
    assert_eq!(parse_range_header("octets=1-2"), None);
    assert_eq!(parse_range_header("bytes=a-b"), None);
    assert_eq!(parse_range_header("bytes=1-2-3"), None);
    assert_eq!(parse_range_header("bytes=1-2,3-4"), None);
    assert_eq!(parse_range_header("bytes=99999999999999999999-"), None);
    assert_eq!(parse_range_header(""), None);
}

#[test]
fn test_content_range_indicator() {
    assert_eq!(content_range_text(0, 100, 1000), "bytes 0-99/1000");
    assert_eq!(content_range_text(6, 4, 10), "bytes 6-9/10");
    assert_eq!(content_range_text(0, 1, 1), "bytes 0-0/1");
}

#[test]
fn test_chunk_plan_tiles_span() {
    let plan = chunk_plan(0, 10, 4);
    assert_eq!(
        plan,
        vec![
            ByteSpan { offset: 0, len: 4 },
            ByteSpan { offset: 4, len: 4 },
            ByteSpan { offset: 8, len: 2 },
        ]
    );
    assert_eq!(chunk_plan(7, 0, 4), vec![]);
    assert_eq!(chunk_plan(3, 2, 1024), vec![ByteSpan { offset: 3, len: 2 }]);
}

#[test]
fn test_content_type_table() {
    assert_eq!(content_type_for("a/b.html"), "text/html");
    assert_eq!(content_type_for("x.json"), "application/json");
    assert_eq!(content_type_for("x.txt"), "text/plain");
    assert_eq!(content_type_for("x.bin"), "application/octet-stream");
    assert_eq!(content_type_for("noext"), "application/octet-stream");
    assert_eq!(content_type_for("dir.d/x"), "application/octet-stream");
    assert_eq!(content_type_for("archive.tar.gz"), "application/octet-stream");
    assert_eq!(content_type_for("pic.jpeg"), "image/jpeg");
}
