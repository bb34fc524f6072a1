//! Byte-range semantics and chunk planning for file streaming. A requested
//! range is either honoured exactly or reported unsatisfiable — never
//! silently clamped to an empty success — and a whole-file stream is cut
//! into chunks that tile the file without altering the bytes delivered.

use vstd::prelude::*;
use vstd::string::*;

use crate::strutil::{dec_chars, u64_to_dec};

verus! {

/// A contiguous span of bytes inside a resource.
#[derive(Clone, Copy, PartialEq, Eq, Structural, Debug)]
pub struct ByteSpan {
    pub offset: u64,
    pub len: u64,
}

/// A parsed byte-range request: `bytes=a-b` (inclusive), `bytes=a-`, or a
/// suffix `bytes=-k`.
#[derive(Clone, Copy, PartialEq, Eq, Structural, Debug)]
pub enum RangeRequest {
    FromTo(u64, u64),
    From(u64),
    Suffix(u64),
}

/// Whether `req` can be satisfied against a resource of `total` bytes:
/// a range starting beyond the size is an error, not an empty success.
pub open spec fn range_sat(req: RangeRequest, total: u64) -> bool {
    match req {
        RangeRequest::FromTo(a, b) => a < total && a <= b,
        RangeRequest::From(a) => a < total,
        RangeRequest::Suffix(k) => k > 0 && total > 0,
    }
}

/// The span served for a satisfiable request: an inclusive upper bound is
/// clamped to the last byte, a suffix takes the final `min(k, total)` bytes.
pub open spec fn range_span(req: RangeRequest, total: u64) -> ByteSpan {
    match req {
        RangeRequest::FromTo(a, b) => {
            let hi = if b < total - 1 {
                b
            } else {
                (total - 1) as u64
            };
            ByteSpan { offset: a, len: (hi - a + 1) as u64 }
        },
        RangeRequest::From(a) => ByteSpan { offset: a, len: (total - a) as u64 },
        RangeRequest::Suffix(k) => {
            let n = if k < total {
                k
            } else {
                total
            };
            ByteSpan { offset: (total - n) as u64, len: n }
        },
    }
}

/// Decide a range request against the resource size: the exact span with
/// partial-content semantics, or a range-not-satisfiable error.
pub fn satisfy_range(req: RangeRequest, total: u64) -> (r: Result<ByteSpan, ()>)
    ensures
        match r {
            Ok(sp) => range_sat(req, total) && sp == range_span(req, total) && sp.offset + sp.len
                <= total && sp.len > 0,
            Err(_) => !range_sat(req, total),
        },
{
    match req {
        RangeRequest::FromTo(a, b) => {
            if a < total && a <= b {
                let hi = if b < total - 1 {
                    b
                } else {
                    total - 1
                };
                Ok(ByteSpan { offset: a, len: hi - a + 1 })
            } else {
                Err(())
            }
        },
        RangeRequest::From(a) => {
            if a < total {
                Ok(ByteSpan { offset: a, len: total - a })
            } else {
                Err(())
            }
        },
        RangeRequest::Suffix(k) => {
            if k > 0 && total > 0 {
                let n = if k < total {
                    k
                } else {
                    total
                };
                Ok(ByteSpan { offset: total - n, len: n })
            } else {
                Err(())
            }
        },
    }
}

pub open spec fn is_digit_char(c: char) -> bool {
    c == '0' || c == '1' || c == '2' || c == '3' || c == '4' || c == '5' || c == '6' || c == '7'
        || c == '8' || c == '9'
}

pub open spec fn digit_val_of(c: char) -> nat {
    if c == '0' {
        0
    } else if c == '1' {
        1
    } else if c == '2' {
        2
    } else if c == '3' {
        3
    } else if c == '4' {
        4
    } else if c == '5' {
        5
    } else if c == '6' {
        6
    } else if c == '7' {
        7
    } else if c == '8' {
        8
    } else {
        9
    }
}

pub open spec fn all_digits(s: Seq<char>) -> bool {
    forall|k: int| 0 <= k < s.len() ==> is_digit_char(#[trigger] s[k])
}

/// The numeric value of a digit string.
pub open spec fn digits_val(s: Seq<char>) -> nat
    decreases s.len(),
{
    if s.len() == 0 {
        0
    } else {
        digits_val(s.drop_last()) * 10 + digit_val_of(s.last())
    }
}

/// Extending a digit string never shrinks its value.
proof fn lemma_digits_val_grows(s: Seq<char>, j: int)
    requires
        0 <= j <= s.len(),
    ensures
        digits_val(s) >= digits_val(s.take(j)),
    decreases s.len() - j,
{
    if j == s.len() {
        assert(s.take(j) =~= s);
    } else {
        lemma_digits_val_grows(s, j + 1);
        assert(s.take(j + 1).drop_last() =~= s.take(j));
        assert(digits_val(s.take(j + 1)) == digits_val(s.take(j)) * 10 + digit_val_of(
            s.take(j + 1).last(),
        ));
    }
}

/// Parse `s[from..to]` as a decimal `u64`: `Some` exactly when the span is
/// non-empty, all digits, and the value fits.
fn parse_u64_digits(s: &str, from: usize, to: usize) -> (r: Option<u64>)
    requires
        from <= to <= s@.len(),
    ensures
        match r {
            Some(v) => {
                let sub = s@.subrange(from as int, to as int);
                sub.len() > 0 && all_digits(sub) && digits_val(sub) == v
            },
            None => {
                let sub = s@.subrange(from as int, to as int);
                sub.len() == 0 || !all_digits(sub) || digits_val(sub) > u64::MAX
            },
        },
{
    let ghost sub = s@.subrange(from as int, to as int);
    if from == to {
        return None;
    }
    let mut acc: u64 = 0;
    let mut j = from;
    proof {
        assert(sub.take(0) =~= Seq::<char>::empty());
    }
    while j < to
        invariant
            from <= j <= to <= s@.len(),
            sub == s@.subrange(from as int, to as int),
            all_digits(sub.take(j - from)),
            acc == digits_val(sub.take(j - from)),
        decreases to - j,
    {
        let c = s.get_char(j);
        proof {
            assert(sub[j - from] == s@[j as int]);
        }
        let d: u64 = if c == '0' {
            0
        } else if c == '1' {
            1
        } else if c == '2' {
            2
        } else if c == '3' {
            3
        } else if c == '4' {
            4
        } else if c == '5' {
            5
        } else if c == '6' {
            6
        } else if c == '7' {
            7
        } else if c == '8' {
            8
        } else if c == '9' {
            9
        } else {
            proof {
                assert(!is_digit_char(sub[j - from]));
            }
            return None;
        };
        proof {
            assert(is_digit_char(sub[j - from]) && digit_val_of(sub[j - from]) == d);
            assert(sub.take(j - from + 1).drop_last() =~= sub.take(j - from));
            assert(sub.take(j - from + 1).last() == sub[j - from]);
        }
        let shifted = match acc.checked_mul(10) {
            Some(x) => x,
            None => {
                proof {
                    lemma_digits_val_grows(sub, j - from + 1);
                }
                return None;
            },
        };
        acc = match shifted.checked_add(d) {
            Some(x) => x,
            None => {
                proof {
                    lemma_digits_val_grows(sub, j - from + 1);
                }
                return None;
            },
        };
        j += 1;
    }
    proof {
        assert(sub.take(to - from) =~= sub);
    }
    Some(acc)
}

/// The position of the first `-` in `s`.
pub open spec fn first_dash(s: Seq<char>) -> Option<int>
    decreases s.len(),
{
    if s.len() == 0 {
        None
    } else if s[0] == '-' {
        Some(0int)
    } else {
        match first_dash(s.drop_first()) {
            Some(i) => Some(i + 1),
            None => None,
        }
    }
}

proof fn lemma_first_dash_at(s: Seq<char>, t: int)
    requires
        0 <= t < s.len(),
        forall|k: int| 0 <= k < t ==> s[k] != '-',
        s[t] == '-',
    ensures
        first_dash(s) == Some(t),
    decreases t,
{
    if t == 0 {
    } else {
        assert(forall|k: int| 0 <= k < t - 1 ==> s.drop_first()[k] == s[k + 1]);
        lemma_first_dash_at(s.drop_first(), t - 1);
    }
}

proof fn lemma_first_dash_none(s: Seq<char>)
    requires
        forall|k: int| 0 <= k < s.len() ==> s[k] != '-',
    ensures
        first_dash(s) == None::<int>,
    decreases s.len(),
{
    if s.len() > 0 {
        assert(forall|k: int| 0 <= k < s.drop_first().len() ==> s.drop_first()[k] == s[k + 1]);
        lemma_first_dash_none(s.drop_first());
    }
}

/// What a `Range` header value means: `bytes=` followed by one span —
/// `a-b`, `a-`, or `-k` — with decimal bounds that fit in 64 bits; anything
/// else requests no range.
pub open spec fn parse_range_spec(s: Seq<char>) -> Option<RangeRequest> {
    if s.len() < 6 || s.subrange(0, 6) != "bytes="@ {
        None
    } else {
        let body = s.subrange(6, s.len() as int);
        match first_dash(body) {
            None => None,
            Some(d) => {
                let lo = body.subrange(0, d);
                let hi = body.subrange(d + 1, body.len() as int);
                if lo.len() > 0 && hi.len() > 0 {
                    if all_digits(lo) && all_digits(hi) && digits_val(lo) <= u64::MAX
                        && digits_val(hi) <= u64::MAX {
                        Some(
                            RangeRequest::FromTo(
                                digits_val(lo) as u64,
                                digits_val(hi) as u64,
                            ),
                        )
                    } else {
                        None
                    }
                } else if lo.len() > 0 {
                    if all_digits(lo) && digits_val(lo) <= u64::MAX {
                        Some(RangeRequest::From(digits_val(lo) as u64))
                    } else {
                        None
                    }
                } else if hi.len() > 0 {
                    if all_digits(hi) && digits_val(hi) <= u64::MAX {
                        Some(RangeRequest::Suffix(digits_val(hi) as u64))
                    } else {
                        None
                    }
                } else {
                    None
                }
            },
        }
    }
}

/// Parse a `Range` header value; an unparseable header requests no range.
pub fn parse_range_header(h: &str) -> (r: Option<RangeRequest>)
    ensures
        r == parse_range_spec(h@),
{
    let n = h.unicode_len();
    if n < 6 {
        return None;
    }
    let prefix = h.substring_char(0, 6);
    if !crate::strutil::str_eq(prefix, "bytes=") {
        return None;
    }
    let ghost body = h@.subrange(6, n as int);
    let mut i: usize = 6;
    while i < n
        invariant
            n == h@.len(),
            6 <= i <= n,
            body == h@.subrange(6, n as int),
            h@.subrange(0, 6) == "bytes="@,
            forall|k: int| 6 <= k < i ==> h@[k] != '-',
        decreases n - i,
    {
        if h.get_char(i) == '-' {
            let ghost d = i - 6;
            proof {
                assert(forall|k: int| 0 <= k < body.len() ==> body[k] == h@[k + 6]);
                lemma_first_dash_at(body, d);
                assert(body.subrange(0, d) =~= h@.subrange(6, i as int));
                assert(body.subrange(d + 1, body.len() as int) =~= h@.subrange(i + 1, n as int));
            }
            let lo = parse_u64_digits(h, 6, i);
            let hi = parse_u64_digits(h, i + 1, n);
            if i > 6 && i + 1 < n {
                return match (lo, hi) {
                    (Some(a), Some(b)) => Some(RangeRequest::FromTo(a, b)),
                    _ => None,
                };
            } else if i > 6 {
                return match lo {
                    Some(a) => Some(RangeRequest::From(a)),
                    None => None,
                };
            } else if i + 1 < n {
                return match hi {
                    Some(b) => Some(RangeRequest::Suffix(b)),
                    None => None,
                };
            } else {
                return None;
            }
        }
        i += 1;
    }
    proof {
        assert(forall|k: int| 0 <= k < body.len() ==> body[k] == h@[k + 6]);
        lemma_first_dash_none(body);
    }
    None
}

/// The chunk plan for streaming `len` bytes from `offset`: spans of at most
/// `sz` bytes, in order, tiling the range exactly.
pub open spec fn chunks_spec(offset: u64, len: u64, sz: u64) -> Seq<ByteSpan>
    decreases len,
    when sz >= 1 && offset + len <= u64::MAX
{
    if len == 0 {
        Seq::empty()
    } else if len <= sz {
        seq![ByteSpan { offset, len }]
    } else {
        seq![ByteSpan { offset, len: sz }] + chunks_spec((offset + sz) as u64, (len - sz) as u64, sz)
    }
}

/// Cut `[offset, offset + len)` into chunks of at most `chunk_size` bytes.
/// Chunking bounds peak memory only; it never alters the bytes delivered.
pub fn chunk_plan(offset: u64, len: u64, chunk_size: u64) -> (r: Vec<ByteSpan>)
    requires
        chunk_size >= 1,
        offset + len <= u64::MAX,
    ensures
        r@ == chunks_spec(offset, len, chunk_size),
{
    let mut out: Vec<ByteSpan> = Vec::new();
    let mut off = offset;
    let mut rem = len;
    proof {
        assert(out@ + chunks_spec(off, rem, chunk_size) =~= chunks_spec(offset, len, chunk_size));
    }
    while rem > 0
        invariant
            chunk_size >= 1,
            off + rem == offset + len,
            offset + len <= u64::MAX,
            out@ + chunks_spec(off, rem, chunk_size) == chunks_spec(offset, len, chunk_size),
        decreases rem,
    {
        let ghost pre = out@;
        let step = if rem < chunk_size {
            rem
        } else {
            chunk_size
        };
        out.push(ByteSpan { offset: off, len: step });
        proof {
            if rem <= chunk_size {
                assert(chunks_spec(off, rem, chunk_size) =~= seq![
                    ByteSpan { offset: off, len: rem },
                ]);
                assert(chunks_spec((off + rem) as u64, 0, chunk_size) =~= Seq::<ByteSpan>::empty());
            }
            assert(out@ =~= pre.push(ByteSpan { offset: off, len: step }));
            assert(out@ + chunks_spec((off + step) as u64, (rem - step) as u64, chunk_size)
                =~= pre + chunks_spec(off, rem, chunk_size));
        }
        off = off + step;
        rem = rem - step;
    }
    proof {
        assert(chunks_spec(off, 0, chunk_size) =~= Seq::<ByteSpan>::empty());
        assert(out@ + Seq::<ByteSpan>::empty() =~= out@);
    }
    out
}

/// The total-size indicator sent with a partial response: the served
/// inclusive byte range and the full resource size.
pub open spec fn content_range_spec(offset: u64, len: u64, total: u64) -> Seq<char> {
    "bytes "@ + dec_chars(offset as nat) + "-"@ + dec_chars((offset + len - 1) as nat) + "/"@
        + dec_chars(total as nat)
}

/// Render the `Content-Range` indicator for a served span.
pub fn content_range_text(offset: u64, len: u64, total: u64) -> (r: String)
    requires
        len > 0,
        offset + len <= total,
    ensures
        r@ == content_range_spec(offset, len, total),
{
    let mut out = String::new();
    out.append("bytes ");
    let a = u64_to_dec(offset);
    out.append(a.as_str());
    out.append("-");
    let b = u64_to_dec(offset + len - 1);
    out.append(b.as_str());
    out.append("/");
    let c = u64_to_dec(total);
    out.append(c.as_str());
    proof {
        assert(out@ =~= content_range_spec(offset, len, total));
    }
    out
}

/// The chunk plan tiles `[offset, offset + len)` exactly: the first span
/// starts at `offset`, each span follows the one before without gap or
/// overlap, every span is non-empty and at most `sz` long, and the last
/// span ends at `offset + len`.
pub proof fn lemma_chunks_cover(offset: u64, len: u64, sz: u64)
    requires
        sz >= 1,
        offset + len <= u64::MAX,
    ensures
        len == 0 <==> chunks_spec(offset, len, sz).len() == 0,
        len > 0 ==> chunks_spec(offset, len, sz)[0].offset == offset,
        len > 0 ==> chunks_spec(offset, len, sz).last().offset + chunks_spec(
            offset,
            len,
            sz,
        ).last().len == offset + len,
        forall|i: int|
            0 <= i < chunks_spec(offset, len, sz).len() ==> 0 < (
            #[trigger] chunks_spec(offset, len, sz)[i]).len <= sz,
        forall|i: int|
            0 <= i < chunks_spec(offset, len, sz).len() - 1 ==> (#[trigger] chunks_spec(
                offset,
                len,
                sz,
            )[i]).offset + chunks_spec(offset, len, sz)[i].len == chunks_spec(
                offset,
                len,
                sz,
            )[i + 1].offset,
    decreases len,
{
    let cs = chunks_spec(offset, len, sz);
    if len == 0 {
    } else if len <= sz {
        assert(cs =~= seq![ByteSpan { offset, len }]);
    } else {
        lemma_chunks_cover((offset + sz) as u64, (len - sz) as u64, sz);
        let tail = chunks_spec((offset + sz) as u64, (len - sz) as u64, sz);
        assert(cs =~= seq![ByteSpan { offset, len: sz }] + tail);
        assert(cs[0] == ByteSpan { offset, len: sz });
        assert(forall|i: int| 1 <= i < cs.len() ==> cs[i] == tail[i - 1]);
        assert(cs.last() == tail.last());
    }
}

} // verus!
