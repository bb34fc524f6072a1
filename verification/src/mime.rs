//! Content-type selection for streamed files: the extension of the final
//! path segment looked up in a fixed table, defaulting to an opaque octet
//! type when unknown.

use vstd::prelude::*;
use vstd::string::*;

use crate::paths::is_sep;
use crate::strutil::str_eq;

verus! {

/// The extension of the final path segment: the characters after the last
/// `.`, provided that `.` comes after every separator; `None` when the last
/// segment has no dot.
pub open spec fn ext_rec(s: Seq<char>) -> Option<Seq<char>>
    decreases s.len(),
{
    if s.len() == 0 {
        None
    } else if s.last() == '.' {
        Some(Seq::empty())
    } else if is_sep(s.last()) {
        None
    } else {
        match ext_rec(s.drop_last()) {
            Some(e) => Some(e.push(s.last())),
            None => None,
        }
    }
}

/// The fixed extension-to-media-type table.
pub open spec fn content_type_spec(ext: Option<Seq<char>>) -> Seq<char> {
    match ext {
        None => "application/octet-stream"@,
        Some(e) => if e == "html"@ || e == "htm"@ {
            "text/html"@
        } else if e == "txt"@ {
            "text/plain"@
        } else if e == "css"@ {
            "text/css"@
        } else if e == "js"@ {
            "application/javascript"@
        } else if e == "json"@ {
            "application/json"@
        } else if e == "xml"@ {
            "text/xml"@
        } else if e == "png"@ {
            "image/png"@
        } else if e == "jpg"@ || e == "jpeg"@ {
            "image/jpeg"@
        } else if e == "gif"@ {
            "image/gif"@
        } else if e == "svg"@ {
            "image/svg+xml"@
        } else if e == "pdf"@ {
            "application/pdf"@
        } else {
            "application/octet-stream"@
        },
    }
}

/// The extension of the final segment of `path`, if any.
pub fn extension_of(path: &str) -> (r: Option<String>)
    ensures
        match r {
            Some(e) => ext_rec(path@) == Some(e@),
            None => ext_rec(path@) == None::<Seq<char>>,
        },
{
    let n = path.unicode_len();
    let mut i: usize = n;
    proof {
        assert(path@.subrange(0, n as int) =~= path@);
        assert(path@.subrange(n as int, n as int) =~= Seq::<char>::empty());
        if ext_rec(path@) is Some {
            let e = ext_rec(path@)->Some_0;
            assert(e + Seq::<char>::empty() =~= e);
        }
    }
    while i > 0
        invariant
            n == path@.len(),
            i <= n,
            forall|k: int| i <= k < n ==> path@[k] != '.' && !is_sep(path@[k]),
            ext_rec(path@) == match ext_rec(path@.subrange(0, i as int)) {
                Some(e) => Some(e + path@.subrange(i as int, n as int)),
                None => None::<Seq<char>>,
            },
        decreases i,
    {
        let c = path.get_char(i - 1);
        let ghost pre = path@.subrange(0, i as int);
        proof {
            assert(pre.len() == i);
            assert(pre.last() == path@[i - 1]);
            assert(pre.drop_last() =~= path@.subrange(0, i - 1));
        }
        if c == '.' {
            proof {
                assert(ext_rec(pre) == Some(Seq::<char>::empty()));
                assert(Seq::<char>::empty() + path@.subrange(i as int, n as int) =~= path@.subrange(
                    i as int,
                    n as int,
                ));
            }
            let e = path.substring_char(i, n);
            return Some(e.to_owned());
        }
        if c == '/' || c == '\\' {
            proof {
                assert(ext_rec(pre) == None::<Seq<char>>);
            }
            return None;
        }
        proof {
            assert(ext_rec(pre) == match ext_rec(pre.drop_last()) {
                Some(e) => Some(e.push(path@[i - 1])),
                None => None::<Seq<char>>,
            });
            if ext_rec(pre.drop_last()) is Some {
                let e = ext_rec(pre.drop_last())->Some_0;
                assert(e.push(path@[i - 1]) + path@.subrange(i as int, n as int) =~= e
                    + path@.subrange(i - 1, n as int));
            }
        }
        i -= 1;
    }
    proof {
        assert(path@.subrange(0, 0) =~= Seq::<char>::empty());
        assert(ext_rec(Seq::<char>::empty()) == None::<Seq<char>>);
    }
    None
}

/// The media type served for a file at `path`, from the fixed table.
pub fn content_type_for(path: &str) -> (r: &'static str)
    ensures
        r@ == content_type_spec(ext_rec(path@)),
{
    let ext = extension_of(path);
    match ext {
        None => "application/octet-stream",
        Some(e) => {
            let e = e.as_str();
            if str_eq(e, "html") || str_eq(e, "htm") {
                "text/html"
            } else if str_eq(e, "txt") {
                "text/plain"
            } else if str_eq(e, "css") {
                "text/css"
            } else if str_eq(e, "js") {
                "application/javascript"
            } else if str_eq(e, "json") {
                "application/json"
            } else if str_eq(e, "xml") {
                "text/xml"
            } else if str_eq(e, "png") {
                "image/png"
            } else if str_eq(e, "jpg") || str_eq(e, "jpeg") {
                "image/jpeg"
            } else if str_eq(e, "gif") {
                "image/gif"
            } else if str_eq(e, "svg") {
                "image/svg+xml"
            } else if str_eq(e, "pdf") {
                "application/pdf"
            } else {
                "application/octet-stream"
            }
        },
    }
}

} // verus!
