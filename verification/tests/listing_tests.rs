use serve_static::listing::{
    filter_visible, negotiate, render_listing, DirEntry, EntryKind, ListFormat,
};

fn dir1_entries() -> Vec<DirEntry> {
    vec![
        DirEntry { name: "test3.txt".to_string(), kind: EntryKind::File, size: Some(5) },
        DirEntry { name: "dir2".to_string(), kind: EntryKind::Directory, size: None },
    ]
}

#[test]
fn test_listing_xml_format() {
    let entries = dir1_entries();
    let (body, media) = render_listing("dir1", &entries, "text/xml");
    assert!(body.starts_with("<list>"));
    assert!(body.contains("test3.txt") && body.contains("dir2"));
    assert_eq!(media, "text/xml");
    assert_eq!(
        body,
        "<list><file name=\"test3.txt\" size=\"5\"/><dir name=\"dir2\"/></list>"
    );
}

#[test]
fn test_listing_text_format() {
    let entries = dir1_entries();
    let (body, media) = render_listing("dir1", &entries, "text/plain");
    assert!(body.contains("test3.txt") && body.contains("dir2"));
    assert_eq!(media, "text/plain");
    assert_eq!(body, "test3.txt\ndir2/\n");
}

#[test]
fn test_listing_json_format() {
    let entries = dir1_entries();
    let (body, media) = render_listing("dir1", &entries, "application/json");
    assert!(body.starts_with('{'));
    assert!(body.contains("test3.txt") && body.contains("dir2"));
    assert_eq!(media, "application/json");
    assert_eq!(
        body,
        "{\"dir1\":[{\"name\":\"test3.txt\",\"is_dir\":false,\"size\":5},{\"name\":\"dir2\",\"is_dir\":true}]}"
    );
}

#[test]
fn test_listing_html_format() {
    let entries = dir1_entries();
    let (body, media) = render_listing("dir1", &entries, "text/html");
    assert!(body.contains("<html>"));
    assert!(body.contains("test3.txt") && body.contains("dir2"));
    assert_eq!(media, "text/html");
    // A non-root listing carries a parent link.
    assert!(body.contains("<li><a href=\"../\">..</a></li>"));
    let (root_body, _) = render_listing("", &entries, "text/html");
    assert!(!root_body.contains("\"../\""));
}

#[test]
fn test_listing_escapes_markup_names() {
    let entries = vec![DirEntry {
        name: "<script>".to_string(),
        kind: EntryKind::File,
        size: Some(1),
    }];
    let (body, _) = render_listing("d", &entries, "text/xml");
    assert!(!body.contains("<script>"));
    assert!(body.contains("&lt;script&gt;"));
    let (html, _) = render_listing("d", &entries, "text/html");
    assert!(!html.contains("<script>"));
}

#[test]
fn test_listing_json_escapes_quotes() {
    let entries = vec![DirEntry {
        name: "a\"b\\c".to_string(),
        kind: EntryKind::File,
        size: None,
    }];
    let (body, _) = render_listing("d", &entries, "application/json");
    assert!(body.contains("a\\\"b\\\\c"));
}

#[test]
fn test_negotiation_precedence() {
    assert_eq!(negotiate("text/xml"), ListFormat::Xml);
    assert_eq!(negotiate("application/json, text/html"), ListFormat::Html);
    assert_eq!(negotiate("application/json"), ListFormat::Json);
    assert_eq!(negotiate("text/xml, text/html, application/json"), ListFormat::Xml);
    assert_eq!(negotiate("*/*"), ListFormat::Text);
    assert_eq!(negotiate(""), ListFormat::Text);
}

#[test]
fn test_filter_visible_hides_dot_entries() {
    let entries = vec![
        DirEntry { name: ".hidden".to_string(), kind: EntryKind::File, size: Some(1) },
        DirEntry { name: "shown".to_string(), kind: EntryKind::File, size: Some(2) },
    ];
    let kept = filter_visible(&entries, false);
    assert_eq!(kept.len(), 1);
    assert_eq!(kept[0].name, "shown");
    let all = filter_visible(&entries, true);
    assert_eq!(all.len(), 2);
}
