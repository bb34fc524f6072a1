//! Embedded asset bundles: an immutable flat key space standing in for a
//! filesystem tree. Lookup is an exact key match on the safe relative path;
//! "directory-ness" is synthesized from key prefixes; a configured fallback
//! resource is re-resolved on every miss, so a misconfigured fallback
//! degrades to ordinary not-found rather than failing.

use vstd::prelude::*;
use vstd::string::*;

use crate::strutil::{has_hidden_segment, path_has_hidden_segment, str_eq};

verus! {

/// An immutable bundle of `(key, content)` pairs, keyed by normalized
/// relative path.
pub struct EmbedBundle {
    pub entries: Vec<(String, Vec<u8>)>,
}

/// The mathematical content of a bundle.
pub open spec fn bundle_view(b: &EmbedBundle) -> Seq<(Seq<char>, Seq<u8>)> {
    b.entries@.map_values(|p: (String, Vec<u8>)| (p.0@, p.1@))
}

/// The content stored under `path`: the first pair with that key.
pub open spec fn lookup_spec(bv: Seq<(Seq<char>, Seq<u8>)>, path: Seq<char>) -> Option<Seq<u8>>
    decreases bv.len(),
{
    if bv.len() == 0 {
        None
    } else if bv[0].0 == path {
        Some(bv[0].1)
    } else {
        lookup_spec(bv.drop_first(), path)
    }
}

/// Resolution against a bundle: a hidden segment misses without touching
/// the key space when dot files are disallowed; otherwise an exact lookup.
pub open spec fn embed_resolve_spec(
    bv: Seq<(Seq<char>, Seq<u8>)>,
    path: Seq<char>,
    dot_files: bool,
) -> Option<Seq<u8>> {
    if !dot_files && has_hidden_segment(path) {
        None
    } else {
        lookup_spec(bv, path)
    }
}

/// Resolution with an optional fallback resource: a primary hit is returned
/// unchanged; on a miss the fallback name, when configured, is resolved as a
/// fresh lookup, and a fallback miss is an ordinary overall miss.
pub open spec fn fallback_resolve_spec(
    bv: Seq<(Seq<char>, Seq<u8>)>,
    path: Seq<char>,
    fallback: Option<Seq<char>>,
    dot_files: bool,
) -> Option<Seq<u8>> {
    match embed_resolve_spec(bv, path, dot_files) {
        Some(c) => Some(c),
        None => match fallback {
            Some(f) => embed_resolve_spec(bv, f, dot_files),
            None => None,
        },
    }
}

/// `key` lies strictly inside the directory `path`: for the root every key
/// qualifies, otherwise `path` must be a strict prefix followed by `/`.
pub open spec fn key_in_dir(key: Seq<char>, path: Seq<char>) -> bool {
    if path.len() == 0 {
        key.len() > 0
    } else {
        key.len() > path.len() && key.subrange(0, path.len() as int) == path && key[path.len() as int]
            == '/'
    }
}

/// The bundle synthesizes a directory at `path` when some key lies inside it.
pub open spec fn dir_like_spec(bv: Seq<(Seq<char>, Seq<u8>)>, path: Seq<char>) -> bool {
    exists|j: int| 0 <= j < bv.len() && key_in_dir(#[trigger] bv[j].0, path)
}

impl EmbedBundle {
    /// An empty bundle.
    pub fn new() -> (r: EmbedBundle)
        ensures
            bundle_view(&r) == Seq::<(Seq<char>, Seq<u8>)>::empty(),
    {
        let r = EmbedBundle { entries: Vec::new() };
        proof {
            assert(bundle_view(&r) =~= Seq::<(Seq<char>, Seq<u8>)>::empty());
        }
        r
    }

    /// Add a `(key, content)` pair.
    pub fn insert(&mut self, key: String, content: Vec<u8>)
        ensures
            bundle_view(final(self)) == bundle_view(old(self)).push((key@, content@)),
    {
        let ghost pre = bundle_view(self);
        self.entries.push((key, content));
        proof {
            assert(bundle_view(self) =~= pre.push(
                (self.entries@.last().0@, self.entries@.last().1@),
            ));
        }
    }

    /// Exact key lookup, first match winning.
    pub fn get(&self, path: &str) -> (r: Option<&Vec<u8>>)
        ensures
            match r {
                Some(v) => lookup_spec(bundle_view(self), path@) == Some(v@),
                None => lookup_spec(bundle_view(self), path@) == None::<Seq<u8>>,
            },
    {
        let ghost bv = bundle_view(self);
        let mut j: usize = 0;
        proof {
            assert(bv.skip(0) =~= bv);
        }
        while j < self.entries.len()
            invariant
                j <= self.entries@.len(),
                bv == bundle_view(self),
                bv.len() == self.entries@.len(),
                lookup_spec(bv, path@) == lookup_spec(bv.skip(j as int), path@),
                forall|k: int| 0 <= k < bv.len() ==> (#[trigger] bv[k]) == (
                    self.entries@[k].0@,
                    self.entries@[k].1@,
                ),
            decreases self.entries@.len() - j,
        {
            let hit = str_eq(self.entries[j].0.as_str(), path);
            proof {
                assert(bv.skip(j as int)[0] == bv[j as int]);
            }
            if hit {
                return Some(&self.entries[j].1);
            }
            proof {
                assert(bv.skip(j as int).drop_first() =~= bv.skip(j + 1));
            }
            j += 1;
        }
        proof {
            assert(bv.skip(j as int).len() == 0);
        }
        None
    }

    /// Whether the bundle synthesizes a directory at `path`.
    pub fn is_dir_like(&self, path: &str) -> (r: bool)
        ensures
            r == dir_like_spec(bundle_view(self), path@),
    {
        let ghost bv = bundle_view(self);
        let mut j: usize = 0;
        while j < self.entries.len()
            invariant
                j <= self.entries@.len(),
                bv == bundle_view(self),
                bv.len() == self.entries@.len(),
                forall|k: int| 0 <= k < j ==> !key_in_dir((#[trigger] bv[k]).0, path@),
                forall|k: int| 0 <= k < bv.len() ==> (#[trigger] bv[k]) == (
                    self.entries@[k].0@,
                    self.entries@[k].1@,
                ),
            decreases self.entries@.len() - j,
        {
            let key = self.entries[j].0.as_str();
            let kn = key.unicode_len();
            let pn = path.unicode_len();
            if pn == 0 {
                if kn > 0 {
                    proof {
                        assert(key_in_dir(bv[j as int].0, path@));
                    }
                    return true;
                }
            } else if kn > pn {
                let mut is_prefix = true;
                let mut t: usize = 0;
                while t < pn
                    invariant
                        pn == path@.len(),
                        kn == key@.len(),
                        pn < kn,
                        t <= pn,
                        is_prefix ==> forall|q: int| 0 <= q < t ==> key@[q] == path@[q],
                        !is_prefix ==> key@.subrange(0, pn as int) != path@,
                    decreases pn - t,
                {
                    if is_prefix {
                        if key.get_char(t) != path.get_char(t) {
                            proof {
                                let ghost tt = t as int;
                                assert(key@.subrange(0, pn as int)[tt] == key@[tt]);
                            }
                            is_prefix = false;
                        }
                    }
                    t += 1;
                }
                if is_prefix && key.get_char(pn) == '/' {
                    proof {
                        assert(key@.subrange(0, pn as int) =~= path@);
                        assert(key_in_dir(bv[j as int].0, path@));
                    }
                    return true;
                }
                proof {
                    assert(!key_in_dir(bv[j as int].0, path@));
                }
            } else {
                proof {
                    assert(!key_in_dir(bv[j as int].0, path@));
                }
            }
            j += 1;
        }
        proof {
            assert(!dir_like_spec(bv, path@)) by {
                if dir_like_spec(bv, path@) {
                    let w = choose|w: int| 0 <= w < bv.len() && key_in_dir(#[trigger] bv[w].0, path@);
                    assert(!key_in_dir(bv[w].0, path@));
                }
            }
        }
        false
    }

    /// Resolve a safe relative path against the bundle under dot-file
    /// policy: a path with a hidden segment misses without touching the key
    /// space.
    pub fn resolve(&self, safe_path: &str, dot_files: bool) -> (r: Option<&Vec<u8>>)
        ensures
            match r {
                Some(v) => embed_resolve_spec(bundle_view(self), safe_path@, dot_files) == Some(
                    v@,
                ),
                None => embed_resolve_spec(bundle_view(self), safe_path@, dot_files) == None::<
                    Seq<u8>,
                >,
            },
            !dot_files && has_hidden_segment(safe_path@) ==> r is None,
    {
        if !dot_files && path_has_hidden_segment(safe_path) {
            return None;
        }
        self.get(safe_path)
    }

    /// Resolve with an optional fallback resource (single-root, embedded
    /// serving): a miss retries the configured fallback name, and a missing
    /// fallback target is an ordinary miss, never fatal.
    pub fn resolve_with_fallback(
        &self,
        safe_path: &str,
        fallback: Option<&str>,
        dot_files: bool,
    ) -> (r: Option<&Vec<u8>>)
        ensures
            match r {
                Some(v) => fallback_resolve_spec(
                    bundle_view(self),
                    safe_path@,
                    match fallback {
                        Some(f) => Some(f@),
                        None => None,
                    },
                    dot_files,
                ) == Some(v@),
                None => fallback_resolve_spec(
                    bundle_view(self),
                    safe_path@,
                    match fallback {
                        Some(f) => Some(f@),
                        None => None,
                    },
                    dot_files,
                ) == None::<Seq<u8>>,
            },
    {
        let primary = self.resolve(safe_path, dot_files);
        match primary {
            Some(v) => Some(v),
            None => match fallback {
                Some(f) => self.resolve(f, dot_files),
                None => None,
            },
        }
    }
}

/// Resolution is deterministic: resolving the same safe path twice against
/// an unmodified bundle yields identical content.
pub proof fn lemma_resolve_repeatable(
    bv: Seq<(Seq<char>, Seq<u8>)>,
    path: Seq<char>,
    dot_files: bool,
    r1: Option<Seq<u8>>,
    r2: Option<Seq<u8>>,
)
    requires
        r1 == embed_resolve_spec(bv, path, dot_files),
        r2 == embed_resolve_spec(bv, path, dot_files),
    ensures
        r1 == r2,
{
}

} // verus!
