//! Lexical path resolution: splitting a raw request path into segments,
//! collapsing `.` / `..` / empty segments with a stack, and joining the
//! surviving segments with `/`. This is a pure transform over characters;
//! it never touches storage, so it is immune to symlink races and total on
//! adversarial input.

use vstd::prelude::*;
use vstd::string::*;

verus! {

/// Characters treated as path separators in incoming request paths.
/// Backslash counts because the threat model is an adversarial client,
/// not a local filesystem convention.
pub open spec fn is_sep(c: char) -> bool {
    c == '/' || c == '\\'
}

/// Which characters split a path: both separators for incoming paths,
/// only `/` when re-encoding an already-normalized path.
pub open spec fn splits_at(both: bool, c: char) -> bool {
    if both {
        is_sep(c)
    } else {
        c == '/'
    }
}

/// Split `s` at separator characters, `cur` being the (reversed-in-time)
/// prefix of the current segment already consumed. Always yields at least
/// one segment; an empty string yields one empty segment, exactly as
/// `str::split` does.
pub open spec fn seg_split(s: Seq<char>, cur: Seq<char>, both: bool) -> Seq<Seq<char>>
    decreases s.len(),
{
    if s.len() == 0 {
        seq![cur]
    } else if splits_at(both, s[0]) {
        seq![cur] + seg_split(s.subrange(1, s.len() as int), seq![], both)
    } else {
        seg_split(s.subrange(1, s.len() as int), cur.push(s[0]), both)
    }
}

/// The segments of a raw request path, split at `/` and `\`.
pub open spec fn path_segments(s: Seq<char>) -> Seq<Seq<char>> {
    seg_split(s, seq![], true)
}

/// The segments of a normalized path, split at `/` only.
pub open spec fn slash_segments(s: Seq<char>) -> Seq<Seq<char>> {
    seg_split(s, seq![], false)
}

pub open spec fn dot_seg() -> Seq<char> {
    seq!['.']
}

pub open spec fn dot_dot_seg() -> Seq<char> {
    seq!['.', '.']
}

/// A segment that survives collapsing: non-empty and neither `.` nor `..`.
pub open spec fn plain_segment(s: Seq<char>) -> bool {
    s.len() > 0 && s != dot_seg() && s != dot_dot_seg()
}

/// One step of the collapsing stack machine: empty and `.` segments are
/// dropped, `..` pops the last accepted segment (a no-op at the root),
/// anything else is accepted verbatim.
pub open spec fn collapse_step(pre: Seq<Seq<char>>, seg: Seq<char>) -> Seq<Seq<char>> {
    if seg.len() == 0 || seg == dot_seg() {
        pre
    } else if seg == dot_dot_seg() {
        if pre.len() > 0 {
            pre.drop_last()
        } else {
            pre
        }
    } else {
        pre.push(seg)
    }
}

/// Collapse a segment sequence left to right with the stack machine.
pub open spec fn collapse_segs(segs: Seq<Seq<char>>) -> Seq<Seq<char>>
    decreases segs.len(),
{
    if segs.len() == 0 {
        seq![]
    } else {
        collapse_step(collapse_segs(segs.drop_last()), segs.last())
    }
}

/// Join segments with a single `/`.
pub open spec fn join_slash(segs: Seq<Seq<char>>) -> Seq<char>
    decreases segs.len(),
{
    if segs.len() == 0 {
        seq![]
    } else if segs.len() == 1 {
        segs[0]
    } else {
        join_slash(segs.drop_last()) + seq!['/'] + segs.last()
    }
}

/// The safe relative path produced for a raw request path: split at both
/// separators, collapse, join with `/`. Total on every input; the empty
/// result denotes the root itself.
pub open spec fn normalize_spec(s: Seq<char>) -> Seq<char> {
    join_slash(collapse_segs(path_segments(s)))
}

/// Splitting always yields at least one segment.
pub proof fn lemma_seg_split_nonempty(s: Seq<char>, cur: Seq<char>, both: bool)
    ensures
        seg_split(s, cur, both).len() >= 1,
    decreases s.len(),
{
    if s.len() == 0 {
    } else if splits_at(both, s[0]) {
    } else {
        lemma_seg_split_nonempty(s.subrange(1, s.len() as int), cur.push(s[0]), both);
    }
}

/// Splitting is compositional: the split of a concatenation is the split of
/// the first part, whose last (unterminated) segment seeds the split of the
/// second part.
pub proof fn lemma_seg_split_append(s1: Seq<char>, s2: Seq<char>, cur: Seq<char>, both: bool)
    ensures
        seg_split(s1 + s2, cur, both) == seg_split(s1, cur, both).drop_last() + seg_split(
            s2,
            seg_split(s1, cur, both).last(),
            both,
        ),
    decreases s1.len(),
{
    lemma_seg_split_nonempty(s1, cur, both);
    if s1.len() == 0 {
        assert(s1 + s2 =~= s2);
        assert(seg_split(s1, cur, both) =~= seq![cur]);
        assert(seg_split(s1, cur, both).drop_last() =~= Seq::<Seq<char>>::empty());
        assert(seg_split(s1 + s2, cur, both) =~= seg_split(s2, cur, both));
    } else {
        let rest = s1.subrange(1, s1.len() as int);
        assert((s1 + s2).subrange(1, (s1 + s2).len() as int) =~= rest + s2);
        if splits_at(both, s1[0]) {
            lemma_seg_split_append(rest, s2, seq![], both);
            lemma_seg_split_nonempty(rest, seq![], both);
            assert(seg_split(s1 + s2, cur, both) =~= seq![cur] + seg_split(rest + s2, seq![], both));
            assert(seg_split(s1, cur, both).drop_last() =~= seq![cur] + seg_split(
                rest,
                seq![],
                both,
            ).drop_last());
            assert(seg_split(s1 + s2, cur, both) =~= seg_split(s1, cur, both).drop_last()
                + seg_split(s2, seg_split(s1, cur, both).last(), both));
        } else {
            lemma_seg_split_append(rest, s2, cur.push(s1[0]), both);
        }
    }
}

/// Appending a separator ends the current segment and opens a fresh empty one.
pub proof fn lemma_seg_split_push_sep(s: Seq<char>, c: char, both: bool)
    requires
        splits_at(both, c),
    ensures
        seg_split(s.push(c), seq![], both) == seg_split(s, seq![], both).push(seq![]),
{
    lemma_seg_split_nonempty(s, seq![], both);
    assert(s.push(c) =~= s + seq![c]);
    lemma_seg_split_append(s, seq![c], seq![], both);
    let r = seg_split(s, seq![], both);
    assert(seg_split(seq![c], r.last(), both) =~= seq![r.last()] + seg_split(
        Seq::<char>::empty(),
        seq![],
        both,
    )) by {
        assert(seq![c].subrange(1, 1) =~= Seq::<char>::empty());
    }
    assert(seg_split(s + seq![c], seq![], both) =~= r.push(seq![]));
}

/// Appending a non-separator character extends the last (unterminated) segment.
pub proof fn lemma_seg_split_push_char(s: Seq<char>, c: char, both: bool)
    requires
        !splits_at(both, c),
    ensures
        seg_split(s.push(c), seq![], both) == seg_split(s, seq![], both).drop_last().push(
            seg_split(s, seq![], both).last().push(c),
        ),
{
    lemma_seg_split_nonempty(s, seq![], both);
    assert(s.push(c) =~= s + seq![c]);
    lemma_seg_split_append(s, seq![c], seq![], both);
    let r = seg_split(s, seq![], both);
    assert(seg_split(seq![c], r.last(), both) =~= seq![r.last().push(c)]) by {
        assert(seq![c].subrange(1, 1) =~= Seq::<char>::empty());
        assert(seg_split(Seq::<char>::empty(), r.last().push(c), both) =~= seq![
            r.last().push(c),
        ]);
        assert(seq![c][0] == c);
    }
    assert(seg_split(s + seq![c], seq![], both) =~= r.drop_last().push(r.last().push(c)));
}

/// A segment containing no separator character.
pub open spec fn seg_sep_free(s: Seq<char>) -> bool {
    forall|k: int| 0 <= k < s.len() ==> !is_sep(s[k])
}

/// Every segment accepted by the collapsing machine is plain: non-empty,
/// not `.`, not `..`. This is the containment mechanism: a joined path of
/// plain segments can never climb above its root.
pub proof fn lemma_collapse_plain(segs: Seq<Seq<char>>)
    ensures
        forall|k: int|
            0 <= k < collapse_segs(segs).len() ==> plain_segment(
                #[trigger] collapse_segs(segs)[k],
            ),
    decreases segs.len(),
{
    if segs.len() == 0 {
    } else {
        lemma_collapse_plain(segs.drop_last());
        let pre = collapse_segs(segs.drop_last());
        let last = segs.last();
        if last.len() == 0 || last == dot_seg() {
        } else if last == dot_dot_seg() {
            if pre.len() > 0 {
                assert(forall|k: int|
                    0 <= k < pre.drop_last().len() ==> pre.drop_last()[k] == pre[k]);
            }
        } else {
            assert(plain_segment(last));
            assert(forall|k: int| 0 <= k < pre.len() ==> pre.push(last)[k] == pre[k]);
        }
    }
}

/// Splitting a string yields separator-free segments, given a separator-free
/// seed segment.
pub proof fn lemma_seg_split_sep_free(s: Seq<char>, cur: Seq<char>, both: bool)
    requires
        both,
        seg_sep_free(cur),
    ensures
        forall|j: int|
            0 <= j < seg_split(s, cur, both).len() ==> seg_sep_free(
                #[trigger] seg_split(s, cur, both)[j],
            ),
    decreases s.len(),
{
    if s.len() == 0 {
        assert forall|j: int| 0 <= j < seg_split(s, cur, both).len() implies seg_sep_free(
            #[trigger] seg_split(s, cur, both)[j],
        ) by {
            assert(seg_split(s, cur, both) =~= seq![cur]);
            assert(seg_split(s, cur, both)[j] == cur);
        }
    } else if splits_at(both, s[0]) {
        lemma_seg_split_sep_free(s.subrange(1, s.len() as int), seq![], both);
        let tail = seg_split(s.subrange(1, s.len() as int), seq![], both);
        assert(seg_split(s, cur, both) =~= seq![cur] + tail);
        assert forall|j: int| 0 <= j < seg_split(s, cur, both).len() implies seg_sep_free(
            #[trigger] seg_split(s, cur, both)[j],
        ) by {
            if j == 0 {
                assert(seg_split(s, cur, both)[j] == cur);
            } else {
                assert(seg_split(s, cur, both)[j] == tail[j - 1]);
                assert(seg_sep_free(tail[j - 1]));
            }
        }
    } else {
        assert(!is_sep(s[0]));
        assert(seg_sep_free(cur.push(s[0]))) by {
            assert(forall|k: int| 0 <= k < cur.len() ==> cur.push(s[0])[k] == cur[k]);
        }
        lemma_seg_split_sep_free(s.subrange(1, s.len() as int), cur.push(s[0]), both);
        let tail = seg_split(s.subrange(1, s.len() as int), cur.push(s[0]), both);
        assert forall|j: int| 0 <= j < seg_split(s, cur, both).len() implies seg_sep_free(
            #[trigger] seg_split(s, cur, both)[j],
        ) by {
            assert(seg_split(s, cur, both)[j] == tail[j]);
            assert(seg_sep_free(tail[j]));
        }
    }
}

/// Collapsing keeps only segments that were already present, so any
/// per-segment property of the input survives; here: separator-freeness.
pub proof fn lemma_collapse_sep_free(segs: Seq<Seq<char>>)
    requires
        forall|j: int| 0 <= j < segs.len() ==> seg_sep_free(#[trigger] segs[j]),
    ensures
        forall|k: int|
            0 <= k < collapse_segs(segs).len() ==> seg_sep_free(#[trigger] collapse_segs(segs)[k]),
    decreases segs.len(),
{
    if segs.len() == 0 {
    } else {
        assert(forall|j: int|
            0 <= j < segs.drop_last().len() ==> #[trigger] segs.drop_last()[j] == segs[j]);
        lemma_collapse_sep_free(segs.drop_last());
        let pre = collapse_segs(segs.drop_last());
        let last = segs.last();
        if last.len() == 0 || last == dot_seg() {
        } else if last == dot_dot_seg() {
            if pre.len() > 0 {
                assert(forall|k: int|
                    0 <= k < pre.drop_last().len() ==> pre.drop_last()[k] == pre[k]);
            }
        } else {
            assert(seg_sep_free(last));
            assert(forall|k: int| 0 <= k < pre.len() ==> pre.push(last)[k] == pre[k]);
        }
    }
}

/// Splitting a separator-free string yields exactly one segment: the seed
/// followed by the whole string.
pub proof fn lemma_seg_split_of_sep_free(s: Seq<char>, cur: Seq<char>, both: bool)
    requires
        seg_sep_free(s),
    ensures
        seg_split(s, cur, both) == seq![cur + s],
    decreases s.len(),
{
    if s.len() == 0 {
        assert(cur + s =~= cur);
    } else {
        assert(!is_sep(s[0]));
        let rest = s.subrange(1, s.len() as int);
        assert(seg_sep_free(rest));
        lemma_seg_split_of_sep_free(rest, cur.push(s[0]), both);
        assert(cur.push(s[0]) + rest =~= cur + s);
    }
}

/// Splitting inverts joining: for a non-empty sequence of non-empty,
/// separator-free segments, splitting the joined path gives the segments back.
pub proof fn lemma_split_of_join(ss: Seq<Seq<char>>, both: bool)
    requires
        ss.len() > 0,
        forall|j: int| 0 <= j < ss.len() ==> (#[trigger] ss[j]).len() > 0 && seg_sep_free(ss[j]),
    ensures
        seg_split(join_slash(ss), seq![], both) == ss,
    decreases ss.len(),
{
    if ss.len() == 1 {
        lemma_seg_split_of_sep_free(ss[0], seq![], both);
        assert(Seq::<char>::empty() + ss[0] =~= ss[0]);
        assert(seq![ss[0]] =~= ss);
    } else {
        let dl = ss.drop_last();
        assert(forall|j: int| 0 <= j < dl.len() ==> #[trigger] dl[j] == ss[j]);
        lemma_split_of_join(dl, both);
        let a = join_slash(dl);
        let b = seq!['/'] + ss.last();
        assert(join_slash(ss) =~= a + b);
        lemma_seg_split_append(a, b, seq![], both);
        assert(seg_split(a, seq![], both) == dl);
        assert(splits_at(both, b[0]));
        assert(b.subrange(1, b.len() as int) =~= ss.last());
        lemma_seg_split_of_sep_free(ss.last(), seq![], both);
        assert(Seq::<char>::empty() + ss.last() =~= ss.last());
        assert(seg_split(b, dl.last(), both) =~= seq![dl.last()] + seq![ss.last()]);
        assert(seg_split(a + b, seq![], both) =~= dl.drop_last() + seq![dl.last()] + seq![
            ss.last(),
        ]);
        assert(dl.drop_last() + seq![dl.last()] =~= dl);
        assert(dl + seq![ss.last()] =~= ss);
        assert(seg_split(a + b, seq![], both) =~= ss);
    }
}

/// Collapsing a sequence of plain segments changes nothing.
pub proof fn lemma_collapse_of_plain(ss: Seq<Seq<char>>)
    requires
        forall|j: int| 0 <= j < ss.len() ==> plain_segment(#[trigger] ss[j]),
    ensures
        collapse_segs(ss) == ss,
    decreases ss.len(),
{
    if ss.len() == 0 {
        assert(collapse_segs(ss) =~= ss);
    } else {
        let dl = ss.drop_last();
        assert(forall|j: int| 0 <= j < dl.len() ==> #[trigger] dl[j] == ss[j]);
        lemma_collapse_of_plain(dl);
        assert(plain_segment(ss.last()));
        assert(dl.push(ss.last()) =~= ss);
    }
}

/// Containment: a non-empty normalized path consists solely of plain
/// segments — no segment is empty, `.` or `..`, and none holds a separator —
/// so appending it to any root directory can never name anything outside
/// that root. (An empty normalized path denotes the root itself.)
pub proof fn lemma_normalize_contained(s: Seq<char>)
    ensures
        normalize_spec(s).len() > 0 ==> forall|k: int|
            0 <= k < path_segments(normalize_spec(s)).len() ==> plain_segment(
                #[trigger] path_segments(normalize_spec(s))[k],
            ) && seg_sep_free(path_segments(normalize_spec(s))[k]),
{
    let cc = collapse_segs(path_segments(s));
    lemma_collapse_plain(path_segments(s));
    lemma_seg_split_sep_free(s, seq![], true);
    lemma_collapse_sep_free(path_segments(s));
    if cc.len() == 0 {
        assert(normalize_spec(s).len() == 0);
    } else {
        lemma_split_of_join(cc, true);
    }
}

/// The views of a vector of owned segments.
pub open spec fn seg_views(parts: Seq<String>) -> Seq<Seq<char>> {
    parts.map_values(|p: String| p@)
}

/// Feed one raw segment, `path[start..end]`, to the collapsing stack held in
/// `parts`.
fn apply_segment(parts: &mut Vec<String>, path: &str, start: usize, end: usize)
    requires
        start <= end <= path@.len(),
    ensures
        seg_views(final(parts)@) == collapse_step(
            seg_views(old(parts)@),
            path@.subrange(start as int, end as int),
        ),
{
    let ghost sub = path@.subrange(start as int, end as int);
    let seg_len = end - start;
    if seg_len == 0 {
        proof {
            assert(sub =~= Seq::<char>::empty());
        }
    } else if seg_len == 1 && path.get_char(start) == '.' {
        proof {
            assert(sub =~= dot_seg());
        }
    } else if seg_len == 2 && path.get_char(start) == '.' && path.get_char(start + 1) == '.' {
        proof {
            assert(sub =~= dot_dot_seg());
        }
        if parts.len() > 0 {
            let ghost before = parts@;
            let _ = parts.pop();
            proof {
                assert(seg_views(parts@) =~= seg_views(before).drop_last());
            }
        } else {
            proof {
                assert(seg_views(parts@).len() == 0);
            }
        }
    } else {
        proof {
            assert(dot_seg().len() == 1 && dot_seg()[0] == '.');
            assert(dot_dot_seg().len() == 2 && dot_dot_seg()[0] == '.' && dot_dot_seg()[1] == '.');
            assert(sub.len() == seg_len);
            assert(sub[0] == path@[start as int]);
            if seg_len == 2 {
                assert(sub[1] == path@[start as int + 1]);
            }
            assert(sub != dot_seg() && sub != dot_dot_seg());
        }
        let seg = path.substring_char(start, end);
        let ghost before = parts@;
        parts.push(seg.to_owned());
        proof {
            assert(seg_views(parts@) =~= seg_views(before).push(sub));
        }
    }
}

/// Join the accepted segments with a single `/`.
fn join_parts(parts: &Vec<String>) -> (r: String)
    ensures
        r@ == join_slash(seg_views(parts@)),
{
    let mut out = String::new();
    let mut j: usize = 0;
    while j < parts.len()
        invariant
            j <= parts.len(),
            out@ == join_slash(seg_views(parts@).take(j as int)),
        decreases parts.len() - j,
    {
        if j > 0 {
            out.append("/");
        }
        out.append(parts[j].as_str());
        proof {
            reveal_strlit("/");
            let sv = seg_views(parts@);
            assert(sv.take(j + 1).drop_last() =~= sv.take(j as int));
            assert(sv.take(j + 1).last() == sv[j as int]);
            if j == 0 {
                assert(join_slash(sv.take(1)) == sv.take(1)[0]);
                assert(Seq::<char>::empty() + sv[0] =~= sv[0]);
            }
        }
        j += 1;
    }
    proof {
        assert(seg_views(parts@).take(parts@.len() as int) =~= seg_views(parts@));
    }
    out
}

/// Normalize a request path into a safe relative path: the input is split
/// at `/` and `\`, empty and `.` segments are dropped, `..` pops (a no-op
/// at the root), and the survivors are joined with `/`. Total on every
/// input; an empty result denotes the root itself.
pub fn format_url_path_safely(path: &str) -> (r: String)
    ensures
        r@ == normalize_spec(path@),
{
    let n = path.unicode_len();
    let mut parts: Vec<String> = Vec::new();
    let mut start: usize = 0;
    let mut i: usize = 0;
    proof {
        assert(path@.subrange(0, 0) =~= Seq::<char>::empty());
        assert(seg_split(Seq::<char>::empty(), seq![], true) =~= seq![Seq::<char>::empty()]);
        assert(seq![Seq::<char>::empty()].drop_last() =~= Seq::<Seq<char>>::empty());
        assert(seg_views(parts@) =~= Seq::<Seq<char>>::empty());
    }
    while i < n
        invariant
            n == path@.len(),
            start <= i <= n,
            seg_split(path@.subrange(0, i as int), seq![], true).last() == path@.subrange(
                start as int,
                i as int,
            ),
            seg_views(parts@) == collapse_segs(
                seg_split(path@.subrange(0, i as int), seq![], true).drop_last(),
            ),
        decreases n - i,
    {
        let ghost prefix = path@.subrange(0, i as int);
        let ghost segs = seg_split(prefix, seq![], true);
        let c = path.get_char(i);
        proof {
            lemma_seg_split_nonempty(prefix, seq![], true);
            assert(path@.subrange(0, i + 1) =~= prefix.push(c));
        }
        if c == '/' || c == '\\' {
            apply_segment(&mut parts, path, start, i);
            proof {
                lemma_seg_split_push_sep(prefix, c, true);
                let segs2 = seg_split(prefix.push(c), seq![], true);
                assert(segs2.drop_last() =~= segs);
                assert(segs.drop_last().push(segs.last()) =~= segs);
                assert(collapse_segs(segs) == collapse_step(
                    collapse_segs(segs.drop_last()),
                    segs.last(),
                ));
                assert(segs2.last() =~= path@.subrange(i + 1, i + 1));
            }
            start = i + 1;
        } else {
            proof {
                lemma_seg_split_push_char(prefix, c, true);
                let segs2 = seg_split(prefix.push(c), seq![], true);
                assert(segs2.drop_last() =~= segs.drop_last());
                assert(segs2.last() == segs.last().push(c));
                assert(path@.subrange(start as int, i as int).push(c) =~= path@.subrange(
                    start as int,
                    i + 1,
                ));
            }
        }
        i += 1;
    }
    apply_segment(&mut parts, path, start, n);
    proof {
        let whole = path@.subrange(0, n as int);
        assert(whole =~= path@);
        let segs = seg_split(path@, seq![], true);
        lemma_seg_split_nonempty(path@, seq![], true);
        assert(segs.drop_last().push(segs.last()) =~= segs);
        assert(collapse_segs(segs) == collapse_step(
            collapse_segs(segs.drop_last()),
            segs.last(),
        ));
    }
    join_parts(&parts)
}

/// What `percent_encoding::utf8_percent_encode` with the `CONTROLS` set
/// returns for a given string: a function of the characters alone.
pub uninterp spec fn control_encoded(s: Seq<char>) -> Seq<char>;

/// What `percent_encoding::percent_decode_str(..).decode_utf8_lossy()`
/// returns for a given string: a function of the characters alone.
pub uninterp spec fn percent_decoded_lossy(s: Seq<char>) -> Seq<char>;

/// Relies on `percent_encoding::utf8_percent_encode` with `CONTROLS`:
/// the result depends on the input characters alone, and an empty input
/// encodes to an empty string.
#[verifier::external_body]
fn encode_segment(seg: &str) -> (r: String)
    ensures
        r@ == control_encoded(seg@),
        seg@.len() == 0 ==> r@.len() == 0,
{
    percent_encoding::utf8_percent_encode(seg, percent_encoding::CONTROLS).to_string()
}

/// Relies on `percent_encoding::percent_decode_str` and
/// `PercentDecode::decode_utf8_lossy`: the result depends on the input
/// characters alone; decoding replaces each `%`-plus-two-hex-digits sequence
/// by a byte and repairs invalid UTF-8 lossily, so an input without `%` is
/// returned unchanged and an empty input stays empty.
#[verifier::external_body]
pub(crate) fn decode_url_path_safely(path: &str) -> (r: String)
    ensures
        r@ == percent_decoded_lossy(path@),
        path@.len() == 0 ==> r@.len() == 0,
        (forall|k: int| 0 <= k < path@.len() ==> path@[k] != '%') ==> r@ == path@,
{
    percent_encoding::percent_decode_str(path).decode_utf8_lossy().to_string()
}

/// Each segment percent-encoded for inclusion in a generated URL.
pub open spec fn encode_segments(ss: Seq<Seq<char>>) -> Seq<Seq<char>> {
    ss.map_values(|g: Seq<char>| control_encoded(g))
}

/// Percent-encode each `/`-separated segment of `path` independently,
/// leaving `/` as the only unencoded structural character, for safe
/// inclusion in generated listing links.
pub fn encode_url_path(path: &str) -> (r: String)
    ensures
        r@ == join_slash(encode_segments(slash_segments(path@))),
{
    let n = path.unicode_len();
    let mut parts: Vec<String> = Vec::new();
    let mut start: usize = 0;
    let mut i: usize = 0;
    proof {
        assert(path@.subrange(0, 0) =~= Seq::<char>::empty());
        assert(seg_split(Seq::<char>::empty(), seq![], false) =~= seq![Seq::<char>::empty()]);
        assert(seq![Seq::<char>::empty()].drop_last() =~= Seq::<Seq<char>>::empty());
        assert(seg_views(parts@) =~= Seq::<Seq<char>>::empty());
        assert(encode_segments(Seq::<Seq<char>>::empty()) =~= Seq::<Seq<char>>::empty());
    }
    while i < n
        invariant
            n == path@.len(),
            start <= i <= n,
            seg_split(path@.subrange(0, i as int), seq![], false).last() == path@.subrange(
                start as int,
                i as int,
            ),
            seg_views(parts@) == encode_segments(
                seg_split(path@.subrange(0, i as int), seq![], false).drop_last(),
            ),
        decreases n - i,
    {
        let ghost prefix = path@.subrange(0, i as int);
        let ghost segs = seg_split(prefix, seq![], false);
        let c = path.get_char(i);
        proof {
            lemma_seg_split_nonempty(prefix, seq![], false);
            assert(path@.subrange(0, i + 1) =~= prefix.push(c));
        }
        if c == '/' {
            let seg = path.substring_char(start, i);
            let enc = encode_segment(seg);
            let ghost before = parts@;
            parts.push(enc);
            proof {
                lemma_seg_split_push_sep(prefix, c, false);
                let segs2 = seg_split(prefix.push(c), seq![], false);
                assert(segs2.drop_last() =~= segs);
                assert(segs.drop_last().push(segs.last()) =~= segs);
                assert(seg_views(parts@) =~= seg_views(before).push(enc@));
                assert(encode_segments(segs) =~= encode_segments(segs.drop_last()).push(
                    control_encoded(segs.last()),
                ));
                assert(segs2.last() =~= path@.subrange(i + 1, i + 1));
            }
            start = i + 1;
        } else {
            proof {
                lemma_seg_split_push_char(prefix, c, false);
                let segs2 = seg_split(prefix.push(c), seq![], false);
                assert(segs2.drop_last() =~= segs.drop_last());
                assert(segs2.last() == segs.last().push(c));
                assert(path@.subrange(start as int, i as int).push(c) =~= path@.subrange(
                    start as int,
                    i + 1,
                ));
            }
        }
        i += 1;
    }
    let seg = path.substring_char(start, n);
    let enc = encode_segment(seg);
    let ghost before = parts@;
    parts.push(enc);
    proof {
        let whole = path@.subrange(0, n as int);
        assert(whole =~= path@);
        let segs = seg_split(path@, seq![], false);
        lemma_seg_split_nonempty(path@, seq![], false);
        assert(segs.drop_last().push(segs.last()) =~= segs);
        assert(seg_views(parts@) =~= seg_views(before).push(enc@));
        assert(encode_segments(segs) =~= encode_segments(segs.drop_last()).push(
            control_encoded(segs.last()),
        ));
    }
    join_parts(&parts)
}

/// Resolve a raw, possibly percent-encoded request path into a safe relative
/// path: percent-decode lossily, then normalize lexically. Total on every
/// input; the result never escapes a root it is appended to.
pub fn resolve_request_path(raw: &str) -> (r: String)
    ensures
        r@ == normalize_spec(percent_decoded_lossy(raw@)),
{
    let decoded = decode_url_path_safely(raw);
    format_url_path_safely(decoded.as_str())
}

/// Normalization is idempotent: a safe path is a fixed point, so resolving
/// an already-normalized path re-normalizes to itself.
pub proof fn lemma_normalize_idempotent(s: Seq<char>)
    ensures
        normalize_spec(normalize_spec(s)) == normalize_spec(s),
{
    let cc = collapse_segs(path_segments(s));
    lemma_collapse_plain(path_segments(s));
    lemma_seg_split_sep_free(s, seq![], true);
    lemma_collapse_sep_free(path_segments(s));
    if cc.len() == 0 {
        assert(normalize_spec(s) =~= Seq::<char>::empty());
        assert(path_segments(Seq::<char>::empty()) =~= seq![Seq::<char>::empty()]);
        assert(collapse_segs(seq![Seq::<char>::empty()]) =~= Seq::<Seq<char>>::empty()) by {
            assert(seq![Seq::<char>::empty()].drop_last() =~= Seq::<Seq<char>>::empty());
            assert(collapse_segs(Seq::<Seq<char>>::empty()) =~= Seq::<Seq<char>>::empty());
            assert(seq![Seq::<char>::empty()].last().len() == 0);
        }
    } else {
        lemma_split_of_join(cc, true);
        assert(path_segments(normalize_spec(s)) == cc);
        lemma_collapse_of_plain(cc);
    }
}

} // verus!
