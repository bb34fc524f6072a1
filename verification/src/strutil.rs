//! Small verified string utilities shared by the listing renderers and the
//! negotiation and policy code: character-exact equality, substring search,
//! decimal rendering of sizes, and the dot-file test on path segments.

use vstd::prelude::*;
use vstd::string::*;

use crate::paths::{is_sep, lemma_seg_split_nonempty, lemma_seg_split_push_char,
    lemma_seg_split_push_sep, path_segments, seg_split};

verus! {

/// Character-exact string equality.
pub fn str_eq(a: &str, b: &str) -> (r: bool)
    ensures
        r == (a@ == b@),
{
    let na = a.unicode_len();
    let nb = b.unicode_len();
    if na != nb {
        return false;
    }
    let mut i: usize = 0;
    while i < na
        invariant
            na == a@.len(),
            nb == b@.len(),
            na == nb,
            i <= na,
            forall|j: int| 0 <= j < i ==> a@[j] == b@[j],
        decreases na - i,
    {
        if a.get_char(i) != b.get_char(i) {
            return false;
        }
        i += 1;
    }
    proof {
        assert(a@ =~= b@);
    }
    true
}

/// `pat` occurs in `s` starting at position `i`.
pub open spec fn has_substring_at(s: Seq<char>, pat: Seq<char>, i: int) -> bool {
    0 <= i && i + pat.len() <= s.len() && s.subrange(i, i + pat.len()) == pat
}

/// `pat` occurs somewhere in `s`.
pub open spec fn str_has(s: Seq<char>, pat: Seq<char>) -> bool {
    exists|i: int| has_substring_at(s, pat, i)
}

/// Substring search, exact in both directions.
pub fn contains_sub(s: &str, pat: &str) -> (r: bool)
    ensures
        r == str_has(s@, pat@),
{
    let n = s.unicode_len();
    let m = pat.unicode_len();
    if m > n {
        assert(forall|i: int| !has_substring_at(s@, pat@, i));
        return false;
    }
    if m == 0 {
        proof {
            assert(s@.subrange(0, 0) =~= pat@);
            assert(has_substring_at(s@, pat@, 0));
        }
        return true;
    }
    let mut i: usize = 0;
    while i <= n - m
        invariant
            n == s@.len(),
            m == pat@.len(),
            1 <= m <= n,
            i <= n - m + 1,
            forall|q: int| 0 <= q < i ==> !has_substring_at(s@, pat@, q),
        decreases n - i,
    {
        let mut j: usize = 0;
        let mut hit = true;
        while j < m
            invariant
                n == s@.len(),
                m == pat@.len(),
                m <= n,
                i <= n - m,
                j <= m,
                hit ==> forall|k: int| 0 <= k < j ==> s@[i + k] == pat@[k],
                !hit ==> !has_substring_at(s@, pat@, i as int),
            decreases m - j,
        {
            if hit {
                if s.get_char(i + j) != pat.get_char(j) {
                    proof {
                        let ghost jj = j as int;
                        assert(s@.subrange(i as int, i + m) != pat@) by {
                            assert(s@.subrange(i as int, i + m)[jj] == s@[i + jj]);
                        }
                    }
                    hit = false;
                }
            }
            j += 1;
        }
        if hit {
            proof {
                assert(s@.subrange(i as int, i + m) =~= pat@);
                assert(has_substring_at(s@, pat@, i as int));
            }
            return true;
        }
        i += 1;
    }
    proof {
        assert forall|q: int| !has_substring_at(s@, pat@, q) by {
            if 0 <= q && q + pat@.len() <= s@.len() {
                assert(q < i);
            }
        }
    }
    false
}

/// The decimal digit character for `d < 10`.
pub open spec fn dec_digit(d: nat) -> char {
    if d == 0 {
        '0'
    } else if d == 1 {
        '1'
    } else if d == 2 {
        '2'
    } else if d == 3 {
        '3'
    } else if d == 4 {
        '4'
    } else if d == 5 {
        '5'
    } else if d == 6 {
        '6'
    } else if d == 7 {
        '7'
    } else if d == 8 {
        '8'
    } else {
        '9'
    }
}

/// The usual decimal rendering of `n`, without leading zeros (except for 0).
pub open spec fn dec_chars(n: nat) -> Seq<char>
    decreases n,
{
    if n < 10 {
        seq![dec_digit(n)]
    } else {
        dec_chars(n / 10).push(dec_digit(n % 10))
    }
}

fn digit_str(d: u64) -> (r: &'static str)
    requires
        d < 10,
    ensures
        r@ == seq![dec_digit(d as nat)],
{
    proof {
        reveal_strlit("0");
        reveal_strlit("1");
        reveal_strlit("2");
        reveal_strlit("3");
        reveal_strlit("4");
        reveal_strlit("5");
        reveal_strlit("6");
        reveal_strlit("7");
        reveal_strlit("8");
        reveal_strlit("9");
    }
    match d {
        0 => "0",
        1 => "1",
        2 => "2",
        3 => "3",
        4 => "4",
        5 => "5",
        6 => "6",
        7 => "7",
        8 => "8",
        _ => "9",
    }
}

/// Render `n` in decimal.
pub fn u64_to_dec(n: u64) -> (r: String)
    ensures
        r@ == dec_chars(n as nat),
    decreases n,
{
    if n < 10 {
        let d = digit_str(n);
        d.to_owned()
    } else {
        proof {
            assert(n / 10 < n);
        }
        let mut s = u64_to_dec(n / 10);
        s.append(digit_str(n % 10));
        s
    }
}

/// A segment that dot-file policy hides: non-empty and starting with `.`.
pub open spec fn seg_hidden(s: Seq<char>) -> bool {
    s.len() > 0 && s[0] == '.'
}

pub open spec fn any_hidden(ss: Seq<Seq<char>>) -> bool {
    exists|j: int| 0 <= j < ss.len() && seg_hidden(#[trigger] ss[j])
}

/// Some separator-delimited segment of `s` starts with `.`.
pub open spec fn has_hidden_segment(s: Seq<char>) -> bool {
    any_hidden(path_segments(s))
}

proof fn lemma_any_hidden_push(ss: Seq<Seq<char>>, y: Seq<char>)
    ensures
        any_hidden(ss.push(y)) == (any_hidden(ss) || seg_hidden(y)),
{
    if any_hidden(ss) {
        let j = choose|j: int| 0 <= j < ss.len() && seg_hidden(#[trigger] ss[j]);
        assert(ss.push(y)[j] == ss[j]);
    }
    if seg_hidden(y) {
        assert(ss.push(y)[ss.len() as int] == y);
    }
    if any_hidden(ss.push(y)) {
        let j = choose|j: int| 0 <= j < ss.push(y).len() && seg_hidden(#[trigger] ss.push(y)[j]);
        if j < ss.len() {
            assert(ss.push(y)[j] == ss[j]);
        } else {
            assert(ss.push(y)[j] == y);
        }
    }
}

/// Whether any segment of `path` (split at `/` and `\`) starts with `.`;
/// with dot files disallowed such a path must miss without touching storage.
pub fn path_has_hidden_segment(path: &str) -> (r: bool)
    ensures
        r == has_hidden_segment(path@),
{
    let n = path.unicode_len();
    let mut acc = false;
    let mut start: usize = 0;
    let mut i: usize = 0;
    proof {
        assert(path@.subrange(0, 0) =~= Seq::<char>::empty());
        assert(seg_split(Seq::<char>::empty(), seq![], true) =~= seq![Seq::<char>::empty()]);
        assert(seq![Seq::<char>::empty()].drop_last() =~= Seq::<Seq<char>>::empty());
        assert(!any_hidden(Seq::<Seq<char>>::empty()));
    }
    while i < n
        invariant
            n == path@.len(),
            start <= i <= n,
            seg_split(path@.subrange(0, i as int), seq![], true).last() == path@.subrange(
                start as int,
                i as int,
            ),
            acc == any_hidden(seg_split(path@.subrange(0, i as int), seq![], true).drop_last()),
        decreases n - i,
    {
        let ghost prefix = path@.subrange(0, i as int);
        let ghost segs = seg_split(prefix, seq![], true);
        let c = path.get_char(i);
        proof {
            lemma_seg_split_nonempty(prefix, seq![], true);
            assert(path@.subrange(0, i + 1) =~= prefix.push(c));
        }
        if c == '/' || c == '\\' {
            let ghost partial = path@.subrange(start as int, i as int);
            if i > start && path.get_char(start) == '.' {
                acc = true;
                proof {
                    assert(partial.len() > 0 && partial[0] == '.');
                }
            } else {
                proof {
                    assert(!seg_hidden(partial));
                }
            }
            proof {
                lemma_seg_split_push_sep(prefix, c, true);
                let segs2 = seg_split(prefix.push(c), seq![], true);
                assert(segs2.drop_last() =~= segs);
                assert(segs.drop_last().push(segs.last()) =~= segs);
                lemma_any_hidden_push(segs.drop_last(), segs.last());
                assert(segs2.last() =~= path@.subrange(i + 1, i + 1));
            }
            start = i + 1;
        } else {
            proof {
                lemma_seg_split_push_char(prefix, c, true);
                let segs2 = seg_split(prefix.push(c), seq![], true);
                assert(segs2.drop_last() =~= segs.drop_last());
                assert(segs2.last() == segs.last().push(c));
                assert(path@.subrange(start as int, i as int).push(c) =~= path@.subrange(
                    start as int,
                    i + 1,
                ));
            }
        }
        i += 1;
    }
    let ghost whole = path@.subrange(0, n as int);
    let ghost segs = seg_split(path@, seq![], true);
    let ghost partial = path@.subrange(start as int, n as int);
    proof {
        assert(whole =~= path@);
        lemma_seg_split_nonempty(path@, seq![], true);
        assert(segs.drop_last().push(segs.last()) =~= segs);
        lemma_any_hidden_push(segs.drop_last(), segs.last());
    }
    if n > start && path.get_char(start) == '.' {
        proof {
            assert(partial.len() > 0 && partial[0] == '.');
        }
        true
    } else {
        proof {
            assert(!seg_hidden(partial));
        }
        acc
    }
}

} // verus!
