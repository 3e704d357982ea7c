//! Clip catalog: directory stems, display labels, newest-first ordering
//! and name-based selection.

use vstd::prelude::*;
use crate::errors::CatalogError;
use crate::errors::SelectError;
use crate::meta::decode_clip;
use crate::meta::spec_decode_clip;
use crate::meta::view_clip;
use crate::meta::ClipDescriptor;
use crate::strutil::str_eq;
use vstd::multiset::Multiset;
use vstd::seq_lib::group_to_multiset_ensures;
use vstd::seq_lib::to_multiset_insert;
use vstd::seq_lib::to_multiset_remove;

verus! {

/// A catalog entry: the clip directory, its filesystem modification
/// timestamp (seconds, used only for ordering) and the decoded metadata.
#[derive(Debug)]
pub struct Clip {
    pub path: String,
    pub modified: u64,
    pub info: ClipDescriptor,
}

/// Suffix of `s` after the last occurrence of `c`; `s` itself when `c`
/// does not occur.
pub open spec fn after_last(s: Seq<char>, c: char) -> Seq<char>
    decreases s.len(),
{
    if s.len() == 0 {
        s
    } else if s.last() == c {
        Seq::empty()
    } else {
        after_last(s.drop_last(), c).push(s.last())
    }
}

/// Prefix of `s` before the last occurrence of `c`; empty when `c` does
/// not occur.
pub open spec fn before_last(s: Seq<char>, c: char) -> Seq<char>
    decreases s.len(),
{
    if s.len() == 0 {
        s
    } else if s.last() == c {
        s.drop_last()
    } else {
        before_last(s.drop_last(), c)
    }
}

/// The final path component contains a `.` somewhere after its first
/// character, i.e. it carries an extension to strip.
pub open spec fn has_dot_after_start(f: Seq<char>) -> bool {
    exists|i: int| 1 <= i < f.len() && f[i] == '.'
}

/// Stem of a path: the component after the last `/`, with an extension
/// after the last `.` stripped unless the only `.` starts the name.
pub open spec fn stem_of(p: Seq<char>) -> Seq<char> {
    let f = after_last(p, '/');
    if has_dot_after_start(f) {
        before_last(f, '.')
    } else {
        f
    }
}

proof fn lemma_after_last_at(s: Seq<char>, c: char, i: int)
    requires
        0 <= i < s.len(),
        s[i] == c,
        forall|j: int| i < j < s.len() ==> s[j] != c,
    ensures
        after_last(s, c) =~= s.subrange(i + 1, s.len() as int),
    decreases s.len(),
{
    if i == s.len() - 1 {
    } else {
        lemma_after_last_at(s.drop_last(), c, i);
        assert(s.drop_last().subrange(i + 1, s.len() - 1) =~=
            s.subrange(i + 1, s.len() as int).drop_last());
    }
}

proof fn lemma_after_last_absent(s: Seq<char>, c: char)
    requires
        forall|j: int| 0 <= j < s.len() ==> s[j] != c,
    ensures
        after_last(s, c) =~= s,
    decreases s.len(),
{
    if s.len() > 0 {
        lemma_after_last_absent(s.drop_last(), c);
    }
}

proof fn lemma_before_last_at(s: Seq<char>, c: char, i: int)
    requires
        0 <= i < s.len(),
        s[i] == c,
        forall|j: int| i < j < s.len() ==> s[j] != c,
    ensures
        before_last(s, c) =~= s.subrange(0, i),
    decreases s.len(),
{
    if i == s.len() - 1 {
        assert(s.drop_last() =~= s.subrange(0, i));
    } else {
        lemma_before_last_at(s.drop_last(), c, i);
        assert(s.drop_last().subrange(0, i) =~= s.subrange(0, i));
    }
}

/// Executable stem computation, proved to match `stem_of`.
pub fn dir_stem(path: &str) -> (r: String)
    ensures
        r@ == stem_of(path@),
{
    let n = path.unicode_len();
    let mut last_slash: Option<usize> = None;
    let mut i: usize = 0;
    while i < n
        invariant
            n == path@.len(),
            i <= n,
            match last_slash {
                Some(k) => 0 <= k < i && path@[k as int] == '/'
                    && (forall|j: int| k < j < i ==> path@[j] != '/'),
                None => forall|j: int| 0 <= j < i ==> path@[j] != '/',
            },
        decreases n - i,
    {
        if path.get_char(i) == '/' {
            last_slash = Some(i);
        }
        i += 1;
    }
    let start: usize = match last_slash {
        Some(k) => k + 1,
        None => 0,
    };
    let fname = path.substring_char(start, n);
    proof {
        match last_slash {
            Some(k) => lemma_after_last_at(path@, '/', k as int),
            None => lemma_after_last_absent(path@, '/'),
        }
        assert(fname@ == after_last(path@, '/'));
    }
    let flen = fname.unicode_len();
    let mut last_dot: Option<usize> = None;
    let mut k: usize = 0;
    while k < flen
        invariant
            flen == fname@.len(),
            k <= flen,
            match last_dot {
                Some(d) => 1 <= d < k && fname@[d as int] == '.'
                    && (forall|j: int| d < j < k ==> fname@[j] != '.'),
                None => forall|j: int| 1 <= j < k ==> fname@[j] != '.',
            },
        decreases flen - k,
    {
        if k >= 1 && fname.get_char(k) == '.' {
            last_dot = Some(k);
        }
        k += 1;
    }
    match last_dot {
        Some(d) => {
            proof {
                lemma_before_last_at(fname@, '.', d as int);
            }
            let stem = fname.substring_char(0, d);
            stem.to_owned()
        },
        None => {
            proof {
                assert(!has_dot_after_start(fname@));
            }
            fname.to_owned()
        },
    }
}

/// Display label of a clip: the metadata title when present, else the
/// directory stem when non-empty, else the `"???"` placeholder.
pub open spec fn spec_label(c: Clip) -> Seq<char> {
    if c.info.name is Some {
        c.info.name->0@
    } else if stem_of(c.path@).len() > 0 {
        stem_of(c.path@)
    } else {
        "???"@
    }
}

/// Human-readable label, in the priority order of `spec_label`.
pub fn display_label(c: &Clip) -> (r: String)
    ensures
        r@ == spec_label(*c),
{
    match &c.info.name {
        Some(n) => n.clone(),
        None => {
            let stem = dir_stem(c.path.as_str());
            if stem.as_str().unicode_len() > 0 {
                stem
            } else {
                "???".to_owned()
            }
        },
    }
}

/// Newest first: modification timestamps never increase along the
/// catalog.
pub open spec fn newest_first(s: Seq<Clip>) -> bool {
    forall|i: int, j: int| 0 <= i < j < s.len() ==> s[i].modified >= s[j].modified
}

/// Orders clips newest-first by modification timestamp.  The result is a
/// permutation of the input; the relative order of equal timestamps is
/// unspecified.
pub fn sort_newest_first(clips: Vec<Clip>) -> (r: Vec<Clip>)
    ensures
        r@.len() == clips@.len(),
        r@.to_multiset() == clips@.to_multiset(),
        newest_first(r@),
{
    broadcast use group_to_multiset_ensures;

    let ghost orig = clips@;
    let mut rest = clips;
    let mut out: Vec<Clip> = Vec::new();
    while rest.len() > 0
        invariant
            out@.to_multiset().add(rest@.to_multiset()) =~= orig.to_multiset(),
            out@.len() + rest@.len() == orig.len(),
            newest_first(out@),
        decreases rest@.len(),
    {
        let ghost pre = rest@;
        let x = match rest.pop() {
            Some(x) => x,
            None => { proof { assert(false); } unreached() },
        };
        proof {
            broadcast use group_to_multiset_ensures;
            broadcast use vstd::multiset::group_multiset_axioms;

            assert(pre.drop_last() =~= pre.remove(pre.len() - 1));
            to_multiset_remove(pre, pre.len() - 1);
            assert(pre.contains(x)) by {
                assert(pre[pre.len() - 1] == x);
            }
            assert(pre.to_multiset().count(x) > 0);
        }
        let mut pos: usize = 0;
        while pos < out.len() && out[pos].modified >= x.modified
            invariant
                pos <= out@.len(),
                forall|i: int| 0 <= i < pos ==> out@[i].modified >= x.modified,
            decreases out@.len() - pos,
        {
            pos += 1;
        }
        let ghost before = out@;
        proof {
            to_multiset_insert(before, pos as int, x);
        }
        out.insert(pos, x);
        proof {
            broadcast use group_to_multiset_ensures;
            broadcast use vstd::multiset::group_multiset_axioms;

            assert(out@.to_multiset() =~= before.to_multiset().insert(x));
            assert(out@.to_multiset().add(rest@.to_multiset()) =~= orig.to_multiset());
            assert(newest_first(out@)) by {
                assert(forall|i: int| 0 <= i < pos ==> out@[i] == before[i]);
                assert(forall|i: int| pos < i < out@.len() ==> out@[i] == before[i - 1]);
                assert(out@[pos as int] == x);
                assert(pos < before.len() ==> before[pos as int].modified < x.modified);
            }
        }
    }
    proof {
        assert(rest@.to_multiset() =~= Multiset::empty());
        assert(out@.to_multiset() =~= orig.to_multiset());
    }
    out
}

/// What the filesystem knows of one clip directory before decoding: its
/// path, its modification timestamp (seconds) and the raw bytes of its
/// metadata file.
#[derive(Debug)]
pub struct RawEntry {
    pub path: String,
    pub modified: u64,
    pub metadata: Vec<u8>,
}

/// The clip a catalog entry decodes to.
pub open spec fn decodes_to(e: RawEntry, c: Clip) -> bool {
    &&& c.path@ == e.path@
    &&& c.modified == e.modified
    &&& spec_decode_clip(e.metadata@) == Some(view_clip(c.info))
}

/// The clip is the decoding of some catalog entry.
pub open spec fn from_some_entry(entries: Seq<RawEntry>, c: Clip) -> bool {
    exists|i: int| 0 <= i < entries.len() && decodes_to(#[trigger] entries[i], c)
}

/// The entry's decoding appears somewhere in the catalog.
pub open spec fn listed_somewhere(e: RawEntry, clips: Seq<Clip>) -> bool {
    exists|k: int| 0 <= k < clips.len() && decodes_to(e, #[trigger] clips[k])
}

/// Builds the catalog: decodes every entry's metadata and orders the
/// clips newest-first.  Fail-fast: one undecodable entry fails the whole
/// listing with `CatalogLoad`, so a partial catalog is never shown.
pub fn list(entries: Vec<RawEntry>) -> (r: Result<Vec<Clip>, CatalogError>)
    ensures
        match r {
            Ok(clips) => {
                &&& clips@.len() == entries@.len()
                &&& newest_first(clips@)
                &&& (forall|k: int| 0 <= k < clips@.len()
                    ==> from_some_entry(entries@, #[trigger] clips@[k]))
                &&& (forall|i: int| 0 <= i < entries@.len()
                    ==> listed_somewhere(#[trigger] entries@[i], clips@))
            },
            Err(e) => e == CatalogError::CatalogLoad
                && (exists|i: int| 0 <= i < entries@.len()
                    && spec_decode_clip(#[trigger] entries@[i].metadata@) is None),
        },
{
    broadcast use group_to_multiset_ensures;

    let mut decoded: Vec<Clip> = Vec::new();
    let mut rest = entries;
    let ghost orig = rest@;
    proof {
        assert(orig.skip(0) =~= orig);
    }
    while rest.len() > 0
        invariant
            orig == entries@,
            decoded@.len() + rest@.len() == orig.len(),
            rest@ =~= orig.skip(decoded@.len() as int),
            forall|k: int| 0 <= k < decoded@.len()
                ==> decodes_to(orig[k], #[trigger] decoded@[k]),
        decreases rest@.len(),
    {
        let ghost done = decoded@.len() as int;
        let e = rest.remove(0);
        proof {
            assert(e == orig[done]);
            assert(rest@ =~= orig.skip(done + 1));
        }
        let info = match decode_clip(&e.metadata) {
            Ok(info) => info,
            Err(_) => {
                proof {
                    assert(0 <= done < entries@.len()
                        && spec_decode_clip(entries@[done].metadata@) is None);
                }
                return Err(CatalogError::CatalogLoad);
            },
        };
        decoded.push(Clip { path: e.path, modified: e.modified, info });
    }
    let ghost decodedv = decoded@;
    let clips = sort_newest_first(decoded);
    proof {
        broadcast use vstd::multiset::group_multiset_axioms;

        assert forall|k: int| 0 <= k < clips@.len() implies from_some_entry(
            entries@,
            #[trigger] clips@[k],
        ) by {
            assert(clips@.to_multiset().count(clips@[k]) > 0) by {
                assert(clips@.contains(clips@[k]));
            }
            assert(decodedv.to_multiset().count(clips@[k]) > 0);
            assert(decodedv.contains(clips@[k]));
            let j = choose|j: int| 0 <= j < decodedv.len() && decodedv[j] == clips@[k];
            assert(decodes_to(entries@[j], clips@[k]));
        }
        assert forall|i: int| 0 <= i < entries@.len() implies listed_somewhere(
            #[trigger] entries@[i],
            clips@,
        ) by {
            assert(decodedv.to_multiset().count(decodedv[i]) > 0) by {
                assert(decodedv.contains(decodedv[i]));
            }
            assert(clips@.to_multiset().count(decodedv[i]) > 0);
            assert(clips@.contains(decodedv[i]));
            let k = choose|k: int| 0 <= k < clips@.len() && clips@[k] == decodedv[i];
            assert(decodes_to(entries@[i], clips@[k]));
        }
    }
    Ok(clips)
}

/// What `resolve` decided: a definite index, or a request that the
/// caller run the interactive selector over the display labels.
#[derive(Clone, Copy, Debug, PartialEq, Eq, Structural)]
pub enum Resolution {
    Chosen(usize),
    Prompt,
}

/// Selects a clip.  With a name, the first clip whose directory stem
/// equals the name exactly (case-sensitive) is chosen, and a missing
/// name is `ClipNotFound`.  Without a name the interactive selector is
/// delegated to, unless the catalog is empty (`EmptyCatalog`).
pub fn resolve(clips: &Vec<Clip>, name: Option<&String>) -> (r: Result<Resolution, SelectError>)
    ensures
        match name {
            Some(n) => match r {
                Ok(Resolution::Chosen(i)) => 0 <= i < clips@.len()
                    && stem_of(clips@[i as int].path@) == n@
                    && (forall|j: int| 0 <= j < i ==> stem_of(clips@[j].path@) != n@),
                Err(SelectError::ClipNotFound) =>
                    forall|j: int| 0 <= j < clips@.len() ==> stem_of(clips@[j].path@) != n@,
                _ => false,
            },
            None => {
                if clips@.len() == 0 {
                    r == Err::<Resolution, SelectError>(SelectError::EmptyCatalog)
                } else {
                    r == Ok::<Resolution, SelectError>(Resolution::Prompt)
                }
            },
        },
{
    match name {
        Some(n) => {
            let mut i: usize = 0;
            while i < clips.len()
                invariant
                    name == Some(n),
                    i <= clips@.len(),
                    forall|j: int| 0 <= j < i ==> stem_of(clips@[j].path@) != n@,
                decreases clips@.len() - i,
            {
                let stem = dir_stem(clips[i].path.as_str());
                if str_eq(stem.as_str(), n.as_str()) {
                    return Ok(Resolution::Chosen(i));
                }
                i += 1;
            }
            Err(SelectError::ClipNotFound)
        },
        None => {
            if clips.len() == 0 {
                Err(SelectError::EmptyCatalog)
            } else {
                Ok(Resolution::Prompt)
            }
        },
    }
}

} // verus!

