//! Directory-listing rendering. A pure negotiation function picks one of a
//! closed set of four formats from the accept hint; each renderer emits the
//! entries with name, kind and (for files) size, escaping markup-significant
//! characters so that hostile entry names cannot corrupt the document, and
//! percent-encoding names inside generated links.

use vstd::prelude::*;
use vstd::string::*;

use crate::paths::{encode_segments, encode_url_path, join_slash, slash_segments};
use crate::strutil::{contains_sub, dec_chars, str_has, u64_to_dec};

verus! {

#[derive(Clone, Copy, PartialEq, Eq, Structural, Debug)]
pub enum EntryKind {
    File,
    Directory,
}

/// One item of a directory listing: display name, kind, and byte size
/// (directories may omit it).
#[derive(Clone, Debug)]
pub struct DirEntry {
    pub name: String,
    pub kind: EntryKind,
    pub size: Option<u64>,
}

/// The mathematical content of a `DirEntry`.
pub struct EntryInfo {
    pub name: Seq<char>,
    pub is_dir: bool,
    pub size: Option<u64>,
}

impl View for DirEntry {
    type V = EntryInfo;

    open spec fn view(&self) -> EntryInfo {
        EntryInfo { name: self.name@, is_dir: self.kind == EntryKind::Directory, size: self.size }
    }
}

pub open spec fn entry_views(es: Seq<DirEntry>) -> Seq<EntryInfo> {
    es.map_values(|e: DirEntry| e@)
}

/// The closed set of listing output formats.
#[derive(Clone, Copy, PartialEq, Eq, Structural, Debug)]
pub enum ListFormat {
    Xml,
    Html,
    Json,
    Text,
}

/// Format selection from the accept hint, in fixed precedence: XML, then
/// HTML, then JSON; plain text is the universal fallback.
pub open spec fn negotiate_spec(accept: Seq<char>) -> ListFormat {
    if str_has(accept, "text/xml"@) {
        ListFormat::Xml
    } else if str_has(accept, "text/html"@) {
        ListFormat::Html
    } else if str_has(accept, "application/json"@) {
        ListFormat::Json
    } else {
        ListFormat::Text
    }
}

/// Pick the listing format for an accept hint.
pub fn negotiate(accept: &str) -> (f: ListFormat)
    ensures
        f == negotiate_spec(accept@),
{
    if contains_sub(accept, "text/xml") {
        ListFormat::Xml
    } else if contains_sub(accept, "text/html") {
        ListFormat::Html
    } else if contains_sub(accept, "application/json") {
        ListFormat::Json
    } else {
        ListFormat::Text
    }
}

/// The media type each format is served as.
pub open spec fn media_type_spec(f: ListFormat) -> Seq<char> {
    match f {
        ListFormat::Xml => "text/xml"@,
        ListFormat::Html => "text/html"@,
        ListFormat::Json => "application/json"@,
        ListFormat::Text => "text/plain"@,
    }
}

/// Markup escaping, character by character.
pub open spec fn escape_char(c: char) -> Seq<char> {
    if c == '&' {
        "&amp;"@
    } else if c == '<' {
        "&lt;"@
    } else if c == '>' {
        "&gt;"@
    } else if c == '"' {
        "&quot;"@
    } else if c == '\'' {
        "&#39;"@
    } else {
        seq![c]
    }
}

pub open spec fn escape_text(s: Seq<char>) -> Seq<char>
    decreases s.len(),
{
    if s.len() == 0 {
        Seq::empty()
    } else {
        escape_text(s.drop_last()) + escape_char(s.last())
    }
}

/// Escape the markup-significant characters of `s` for HTML/XML output.
pub fn escape_markup(s: &str) -> (r: String)
    ensures
        r@ == escape_text(s@),
{
    let n = s.unicode_len();
    let mut out = String::new();
    let mut i: usize = 0;
    proof {
        assert(s@.subrange(0, 0) =~= Seq::<char>::empty());
    }
    while i < n
        invariant
            n == s@.len(),
            i <= n,
            out@ == escape_text(s@.subrange(0, i as int)),
        decreases n - i,
    {
        let c = s.get_char(i);
        if c == '&' {
            out.append("&amp;");
        } else if c == '<' {
            out.append("&lt;");
        } else if c == '>' {
            out.append("&gt;");
        } else if c == '"' {
            out.append("&quot;");
        } else if c == '\'' {
            out.append("&#39;");
        } else {
            let piece = s.substring_char(i, i + 1);
            out.append(piece);
            proof {
                assert(s@.subrange(i as int, i + 1) =~= seq![s@[i as int]]);
            }
        }
        proof {
            assert(s@.subrange(0, i + 1).drop_last() =~= s@.subrange(0, i as int));
            assert(s@.subrange(0, i + 1).last() == s@[i as int]);
        }
        i += 1;
    }
    proof {
        assert(s@.subrange(0, n as int) =~= s@);
    }
    out
}

/// JSON string escaping: backslash and double quote.
pub open spec fn json_escape_char(c: char) -> Seq<char> {
    if c == '\\' {
        "\\\\"@
    } else if c == '"' {
        "\\\""@
    } else {
        seq![c]
    }
}

pub open spec fn json_escape_text(s: Seq<char>) -> Seq<char>
    decreases s.len(),
{
    if s.len() == 0 {
        Seq::empty()
    } else {
        json_escape_text(s.drop_last()) + json_escape_char(s.last())
    }
}

/// Escape `s` for inclusion in a JSON string literal.
pub fn escape_json(s: &str) -> (r: String)
    ensures
        r@ == json_escape_text(s@),
{
    let n = s.unicode_len();
    let mut out = String::new();
    let mut i: usize = 0;
    proof {
        assert(s@.subrange(0, 0) =~= Seq::<char>::empty());
    }
    while i < n
        invariant
            n == s@.len(),
            i <= n,
            out@ == json_escape_text(s@.subrange(0, i as int)),
        decreases n - i,
    {
        let c = s.get_char(i);
        if c == '\\' {
            out.append("\\\\");
        } else if c == '"' {
            out.append("\\\"");
        } else {
            let piece = s.substring_char(i, i + 1);
            out.append(piece);
            proof {
                assert(s@.subrange(i as int, i + 1) =~= seq![s@[i as int]]);
            }
        }
        proof {
            assert(s@.subrange(0, i + 1).drop_last() =~= s@.subrange(0, i as int));
            assert(s@.subrange(0, i + 1).last() == s@[i as int]);
        }
        i += 1;
    }
    proof {
        assert(s@.subrange(0, n as int) =~= s@);
    }
    out
}

/// The decimal size text: empty when the size is unknown.
pub open spec fn size_chars(sz: Option<u64>) -> Seq<char> {
    match sz {
        Some(n) => dec_chars(n as nat),
        None => Seq::empty(),
    }
}

/// One plain-text line: name, `/` for directories, newline.
pub open spec fn text_line(e: EntryInfo) -> Seq<char> {
    if e.is_dir {
        e.name + "/\n"@
    } else {
        e.name + "\n"@
    }
}

pub open spec fn text_lines(es: Seq<EntryInfo>) -> Seq<char>
    decreases es.len(),
{
    if es.len() == 0 {
        Seq::empty()
    } else {
        text_lines(es.drop_last()) + text_line(es.last())
    }
}

/// One XML element per entry, name escaped.
pub open spec fn xml_entry(e: EntryInfo) -> Seq<char> {
    if e.is_dir {
        "<dir name=\""@ + escape_text(e.name) + "\"/>"@
    } else {
        "<file name=\""@ + escape_text(e.name) + "\" size=\""@ + size_chars(e.size) + "\"/>"@
    }
}

pub open spec fn xml_entries(es: Seq<EntryInfo>) -> Seq<char>
    decreases es.len(),
{
    if es.len() == 0 {
        Seq::empty()
    } else {
        xml_entries(es.drop_last()) + xml_entry(es.last())
    }
}

pub open spec fn xml_body(es: Seq<EntryInfo>) -> Seq<char> {
    "<list>"@ + xml_entries(es) + "</list>"@
}

/// The link target for an entry name: each `/`-separated piece
/// percent-encoded.
pub open spec fn href_of(name: Seq<char>) -> Seq<char> {
    join_slash(encode_segments(slash_segments(name)))
}

/// One HTML list item per entry: a link whose target is percent-encoded and
/// whose display text is markup-escaped; directories carry a trailing `/`.
pub open spec fn html_entry(e: EntryInfo) -> Seq<char> {
    if e.is_dir {
        "<li><a href=\""@ + escape_text(href_of(e.name)) + "/\">"@ + escape_text(e.name)
            + "/</a></li>"@
    } else {
        "<li><a href=\""@ + escape_text(href_of(e.name)) + "\">"@ + escape_text(e.name)
            + "</a></li>"@
    }
}

pub open spec fn html_entries(es: Seq<EntryInfo>) -> Seq<char>
    decreases es.len(),
{
    if es.len() == 0 {
        Seq::empty()
    } else {
        html_entries(es.drop_last()) + html_entry(es.last())
    }
}

/// A minimal HTML document; non-root listings start with a parent link.
pub open spec fn html_body(root: bool, es: Seq<EntryInfo>) -> Seq<char> {
    "<html><body><ul>"@ + (if root {
        Seq::<char>::empty()
    } else {
        "<li><a href=\"../\">..</a></li>"@
    }) + html_entries(es) + "</ul></body></html>"@
}

/// One JSON object per entry.
pub open spec fn json_entry(e: EntryInfo) -> Seq<char> {
    "{\"name\":\""@ + json_escape_text(e.name) + "\",\"is_dir\":"@ + (if e.is_dir {
        "true"@
    } else {
        "false"@
    }) + (match e.size {
        Some(n) => ",\"size\":"@ + dec_chars(n as nat),
        None => Seq::<char>::empty(),
    }) + "}"@
}

pub open spec fn json_list(es: Seq<EntryInfo>) -> Seq<char>
    decreases es.len(),
{
    if es.len() == 0 {
        Seq::empty()
    } else if es.len() == 1 {
        json_entry(es[0])
    } else {
        json_list(es.drop_last()) + ","@ + json_entry(es.last())
    }
}

/// An object keyed by the directory path, holding the entry array.
pub open spec fn json_body(dir_path: Seq<char>, es: Seq<EntryInfo>) -> Seq<char> {
    "{\""@ + json_escape_text(dir_path) + "\":["@ + json_list(es) + "]}"@
}

/// Render the entries one per line, a trailing `/` marking directories.
pub fn render_text(entries: &Vec<DirEntry>) -> (r: String)
    ensures
        r@ == text_lines(entry_views(entries@)),
{
    let ghost es = entry_views(entries@);
    let mut out = String::new();
    let mut j: usize = 0;
    proof {
        assert(es.take(0) =~= Seq::<EntryInfo>::empty());
    }
    while j < entries.len()
        invariant
            j <= entries@.len(),
            es == entry_views(entries@),
            out@ == text_lines(es.take(j as int)),
        decreases entries@.len() - j,
    {
        let ghost pre = out@;
        let e = &entries[j];
        out.append(e.name.as_str());
        if e.kind == EntryKind::Directory {
            out.append("/\n");
        } else {
            out.append("\n");
        }
        proof {
            assert(es.take(j + 1).drop_last() =~= es.take(j as int));
            assert(es.take(j + 1).last() == es[j as int]);
            assert(es[j as int] == entries@[j as int]@);
            assert(out@ =~= pre + text_line(es[j as int]));
        }
        j += 1;
    }
    proof {
        assert(es.take(entries@.len() as int) =~= es);
    }
    out
}

/// Render the entries as an XML listing rooted at `<list>`.
pub fn render_xml(entries: &Vec<DirEntry>) -> (r: String)
    ensures
        r@ == xml_body(entry_views(entries@)),
{
    let ghost es = entry_views(entries@);
    let mut out = String::new();
    out.append("<list>");
    let mut j: usize = 0;
    proof {
        assert(es.take(0) =~= Seq::<EntryInfo>::empty());
        assert(out@ =~= "<list>"@ + xml_entries(es.take(0)));
    }
    while j < entries.len()
        invariant
            j <= entries@.len(),
            es == entry_views(entries@),
            out@ == "<list>"@ + xml_entries(es.take(j as int)),
        decreases entries@.len() - j,
    {
        let ghost pre = out@;
        let e = &entries[j];
        let escaped = escape_markup(e.name.as_str());
        if e.kind == EntryKind::Directory {
            out.append("<dir name=\"");
            out.append(escaped.as_str());
            out.append("\"/>");
        } else {
            out.append("<file name=\"");
            out.append(escaped.as_str());
            out.append("\" size=\"");
            match e.size {
                Some(sz) => {
                    let d = u64_to_dec(sz);
                    out.append(d.as_str());
                },
                None => {},
            }
            out.append("\"/>");
        }
        proof {
            assert(es.take(j + 1).drop_last() =~= es.take(j as int));
            assert(es.take(j + 1).last() == es[j as int]);
            assert(es[j as int] == entries@[j as int]@);
            assert(out@ =~= pre + xml_entry(es[j as int]));
            assert(out@ =~= "<list>"@ + xml_entries(es.take(j + 1)));
        }
        j += 1;
    }
    out.append("</list>");
    proof {
        assert(es.take(entries@.len() as int) =~= es);
        assert(out@ =~= xml_body(es));
    }
    out
}

/// Render the entries as a minimal HTML document of links.
pub fn render_html(dir_path: &str, entries: &Vec<DirEntry>) -> (r: String)
    ensures
        r@ == html_body(dir_path@.len() == 0, entry_views(entries@)),
{
    let ghost es = entry_views(entries@);
    let ghost root = dir_path@.len() == 0;
    let mut out = String::new();
    out.append("<html><body><ul>");
    if !dir_path.is_empty() {
        out.append("<li><a href=\"../\">..</a></li>");
    }
    let ghost head = out@;
    proof {
        assert(es.take(0) =~= Seq::<EntryInfo>::empty());
        assert(head =~= "<html><body><ul>"@ + (if root {
            Seq::<char>::empty()
        } else {
            "<li><a href=\"../\">..</a></li>"@
        }));
    }
    let mut j: usize = 0;
    while j < entries.len()
        invariant
            j <= entries@.len(),
            es == entry_views(entries@),
            out@ == head + html_entries(es.take(j as int)),
        decreases entries@.len() - j,
    {
        let ghost pre = out@;
        let e = &entries[j];
        let encoded = encode_url_path(e.name.as_str());
        let href = escape_markup(encoded.as_str());
        let escaped = escape_markup(e.name.as_str());
        out.append("<li><a href=\"");
        out.append(href.as_str());
        if e.kind == EntryKind::Directory {
            out.append("/\">");
            out.append(escaped.as_str());
            out.append("/</a></li>");
        } else {
            out.append("\">");
            out.append(escaped.as_str());
            out.append("</a></li>");
        }
        proof {
            assert(es.take(j + 1).drop_last() =~= es.take(j as int));
            assert(es.take(j + 1).last() == es[j as int]);
            assert(es[j as int] == entries@[j as int]@);
            assert(out@ =~= pre + html_entry(es[j as int]));
            assert(out@ =~= head + html_entries(es.take(j + 1)));
        }
        j += 1;
    }
    out.append("</ul></body></html>");
    proof {
        assert(es.take(entries@.len() as int) =~= es);
        assert(out@ =~= html_body(root, es));
    }
    out
}

/// Render the entries as a JSON object keyed by the directory path.
#[verifier::rlimit(60)]
pub fn render_json(dir_path: &str, entries: &Vec<DirEntry>) -> (r: String)
    ensures
        r@ == json_body(dir_path@, entry_views(entries@)),
{
    let ghost es = entry_views(entries@);
    let mut out = String::new();
    out.append("{\"");
    let dp = escape_json(dir_path);
    out.append(dp.as_str());
    out.append("\":[");
    let ghost head = out@;
    proof {
        assert(es.take(0) =~= Seq::<EntryInfo>::empty());
        assert(head =~= "{\""@ + json_escape_text(dir_path@) + "\":["@);
    }
    let mut j: usize = 0;
    while j < entries.len()
        invariant
            j <= entries@.len(),
            es == entry_views(entries@),
            out@ == head + json_list(es.take(j as int)),
        decreases entries@.len() - j,
    {
        let ghost pre = out@;
        if j > 0 {
            out.append(",");
        }
        let e = &entries[j];
        let escaped = escape_json(e.name.as_str());
        out.append("{\"name\":\"");
        out.append(escaped.as_str());
        out.append("\",\"is_dir\":");
        if e.kind == EntryKind::Directory {
            out.append("true");
        } else {
            out.append("false");
        }
        match e.size {
            Some(sz) => {
                out.append(",\"size\":");
                let d = u64_to_dec(sz);
                out.append(d.as_str());
            },
            None => {},
        }
        out.append("}");
        proof {
            assert(es.take(j + 1).drop_last() =~= es.take(j as int));
            assert(es.take(j + 1).last() == es[j as int]);
            assert(es[j as int] == entries@[j as int]@);
            if j == 0 {
                assert(out@ =~= pre + json_entry(es[0]));
                assert(json_list(es.take(1)) == json_entry(es.take(1)[0]));
                assert(es.take(1)[0] == es[0]);
                assert(out@ =~= head + json_list(es.take(1)));
            } else {
                assert(out@ =~= pre + ","@ + json_entry(es[j as int]));
                assert(out@ =~= head + json_list(es.take(j + 1)));
            }
        }
        j += 1;
    }
    out.append("]}");
    proof {
        assert(es.take(entries@.len() as int) =~= es);
        assert(out@ =~= json_body(dir_path@, es));
    }
    out
}

/// The body each format renders.
pub open spec fn listing_body(
    f: ListFormat,
    dir_path: Seq<char>,
    es: Seq<EntryInfo>,
) -> Seq<char> {
    match f {
        ListFormat::Xml => xml_body(es),
        ListFormat::Html => html_body(dir_path.len() == 0, es),
        ListFormat::Json => json_body(dir_path, es),
        ListFormat::Text => text_lines(es),
    }
}

/// Render a listing for `dir_path` in the format negotiated from `accept`,
/// returning the body and the media type it is served as.
pub fn render_listing(dir_path: &str, entries: &Vec<DirEntry>, accept: &str) -> (res: (
    String,
    &'static str,
))
    ensures
        res.0@ == listing_body(negotiate_spec(accept@), dir_path@, entry_views(entries@)),
        res.1@ == media_type_spec(negotiate_spec(accept@)),
{
    let f = negotiate(accept);
    match f {
        ListFormat::Xml => (render_xml(entries), "text/xml"),
        ListFormat::Html => (render_html(dir_path, entries), "text/html"),
        ListFormat::Json => (render_json(dir_path, entries), "application/json"),
        ListFormat::Text => (render_text(entries), "text/plain"),
    }
}

/// The entries kept by dot-file policy: when dot files are disallowed,
/// entries whose name starts with `.` are excluded from listings.
pub open spec fn visible_views(es: Seq<EntryInfo>, allow_dot: bool) -> Seq<EntryInfo>
    decreases es.len(),
{
    if es.len() == 0 {
        Seq::empty()
    } else {
        visible_views(es.drop_last(), allow_dot) + (if entry_visible(es.last(), allow_dot) {
            seq![es.last()]
        } else {
            Seq::<EntryInfo>::empty()
        })
    }
}

pub open spec fn entry_visible(e: EntryInfo, allow_dot: bool) -> bool {
    allow_dot || e.name.len() == 0 || e.name[0] != '.'
}

/// Drop the entries that dot-file policy hides.
pub fn filter_visible(entries: &Vec<DirEntry>, allow_dot: bool) -> (r: Vec<DirEntry>)
    ensures
        entry_views(r@) == visible_views(entry_views(entries@), allow_dot),
{
    let ghost es = entry_views(entries@);
    let mut out: Vec<DirEntry> = Vec::new();
    let mut j: usize = 0;
    proof {
        assert(es.take(0) =~= Seq::<EntryInfo>::empty());
        assert(entry_views(out@) =~= Seq::<EntryInfo>::empty());
    }
    while j < entries.len()
        invariant
            j <= entries@.len(),
            es == entry_views(entries@),
            entry_views(out@) == visible_views(es.take(j as int), allow_dot),
        decreases entries@.len() - j,
    {
        let ghost pre = entry_views(out@);
        let e = &entries[j];
        let name = e.name.as_str();
        let keep = allow_dot || name.unicode_len() == 0 || name.get_char(0) != '.';
        if keep {
            let kept = DirEntry { name: e.name.clone(), kind: e.kind, size: e.size };
            proof {
                assert(kept@ == es[j as int]);
            }
            out.push(kept);
            proof {
                assert(entry_views(out@) =~= pre.push(es[j as int]));
            }
        }
        proof {
            assert(es.take(j + 1).drop_last() =~= es.take(j as int));
            assert(es.take(j + 1).last() == es[j as int]);
            assert(keep == entry_visible(es[j as int], allow_dot));
            if keep {
                assert(pre.push(es[j as int]) =~= pre + seq![es[j as int]]);
            } else {
                assert(pre =~= pre + Seq::<EntryInfo>::empty());
            }
        }
        j += 1;
    }
    proof {
        assert(es.take(entries@.len() as int) =~= es);
    }
    out
}

} // verus!
