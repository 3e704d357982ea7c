//! Stream reconstruction: locating the segment directory, ordering the
//! fragment files of each elementary stream numerically, and planning the
//! byte-level concatenation that rebuilds the two streams.

use vstd::prelude::*;
use crate::catalog::Clip;
use crate::errors::PipelineError;
use crate::meta::ClipDescriptor;
use crate::strutil::all_digits;
use crate::strutil::digit_val;
use crate::strutil::digits_val;
use crate::strutil::is_digit;
use crate::strutil::lemma_digits_val_bound;
use crate::strutil::pow10;
use crate::strutil::spec_is_digit;
use crate::strutil::str_eq;
use vstd::multiset::Multiset;
use vstd::seq_lib::group_to_multiset_ensures;
use vstd::seq_lib::to_multiset_insert;
use vstd::seq_lib::to_multiset_remove;

verus! {

/// The recording id the pipeline uses: the first timeline's first
/// recording's id, when all three levels are present.
pub open spec fn spec_first_recording_id(d: ClipDescriptor) -> Option<Seq<char>> {
    if d.timelines@.len() > 0 && d.timelines@[0].recordings@.len() > 0
        && d.timelines@[0].recordings@[0].recording_id is Some {
        Some(d.timelines@[0].recordings@[0].recording_id->0@)
    } else {
        None
    }
}

/// First timeline's first recording's id, or `MissingRecordingId` when
/// any level of the nesting is absent.
pub fn first_recording_id(d: &ClipDescriptor) -> (r: Result<&String, PipelineError>)
    ensures
        match r {
            Ok(s) => spec_first_recording_id(*d) == Some(s@),
            Err(e) => e == PipelineError::MissingRecordingId
                && spec_first_recording_id(*d) is None,
        },
{
    if d.timelines.len() == 0 {
        return Err(PipelineError::MissingRecordingId);
    }
    if d.timelines[0].recordings.len() == 0 {
        return Err(PipelineError::MissingRecordingId);
    }
    match &d.timelines[0].recordings[0].recording_id {
        Some(s) => Ok(s),
        None => Err(PipelineError::MissingRecordingId),
    }
}

/// `<clip>/video/<recording_id>`: the segment directory of a recording.
pub fn video_dir_path(clip_path: &str, rid: &str) -> (r: String)
    ensures
        r@ == clip_path@ + "/video/"@ + rid@,
{
    let mut p = clip_path.to_owned();
    p.append("/video/");
    p.append(rid);
    p
}

/// `<clip>/output.mp4`: the final multiplexed file, at the clip's root.
pub fn output_path(clip_path: &str) -> (r: String)
    ensures
        r@ == clip_path@ + "/output.mp4"@,
{
    let mut p = clip_path.to_owned();
    p.append("/output.mp4");
    p
}

/// Name of the required initialization segment of a stream.
pub open spec fn init_name(stream: u8) -> Seq<char> {
    if stream == 0 {
        "init-stream0.m4s"@
    } else {
        "init-stream1.m4s"@
    }
}

/// Common prefix of a stream's chunk fragment file names.
pub open spec fn chunk_prefix(stream: u8) -> Seq<char> {
    if stream == 0 {
        "chunk-stream0-"@
    } else {
        "chunk-stream1-"@
    }
}

/// A chunk fragment name: the stream's chunk prefix followed by a run of
/// decimal digits.  The suffix is read as an unsigned 64-bit counter, so
/// a run longer than 18 digits is not recognised as a fragment.
pub open spec fn is_chunk_name(name: Seq<char>, stream: u8) -> bool {
    let p = chunk_prefix(stream);
    name.len() > p.len() && name.len() <= p.len() + 18
        && name.subrange(0, p.len() as int) == p
        && all_digits(name.subrange(p.len() as int, name.len() as int))
}

/// Numeric value of a chunk fragment's suffix, the concatenation key.
pub open spec fn chunk_index(name: Seq<char>, stream: u8) -> nat {
    digits_val(name.subrange(chunk_prefix(stream).len() as int, name.len() as int))
}

/// The chunk-name predicate as a function value, for `Seq::filter`.
pub open spec fn chunk_pred(stream: u8) -> spec_fn(String) -> bool {
    |s: String| is_chunk_name(s@, stream)
}

proof fn lemma_pow10_pos(n: nat)
    ensures
        pow10(n) >= 1,
    decreases n,
{
    if n > 0 {
        lemma_pow10_pos((n - 1) as nat);
    }
}

proof fn lemma_pow10_mono(a: nat, b: nat)
    requires
        a <= b,
    ensures
        pow10(a) <= pow10(b),
    decreases b,
{
    if a < b {
        lemma_pow10_mono(a, (b - 1) as nat);
        lemma_pow10_pos((b - 1) as nat);
    }
}

proof fn lemma_pow10_17()
    ensures
        pow10(17) == 100_000_000_000_000_000,
{
    assert(pow10(17) == 100_000_000_000_000_000) by {
        reveal_with_fuel(pow10, 18);
    }
}

/// Parses a chunk fragment name of the given stream into its numeric
/// suffix; `None` exactly when the name is not such a fragment.
pub fn parse_chunk(name: &str, stream: u8) -> (r: Option<u64>)
    requires
        stream <= 1,
    ensures
        match r {
            Some(v) => is_chunk_name(name@, stream) && v as nat == chunk_index(name@, stream),
            None => !is_chunk_name(name@, stream),
        },
{
    let prefix: &str = if stream == 0 {
        "chunk-stream0-"
    } else {
        "chunk-stream1-"
    };
    proof {
        reveal_strlit("chunk-stream0-");
        reveal_strlit("chunk-stream1-");
        assert(prefix@ == chunk_prefix(stream));
        assert(chunk_prefix(stream).len() == 14);
    }
    let n = name.unicode_len();
    if n <= 14 || n > 32 {
        return None;
    }
    if !str_eq(name.substring_char(0, 14), prefix) {
        return None;
    }
    let ghost suffix = name@.subrange(14, n as int);
    let mut val: u64 = 0;
    let mut j: usize = 14;
    while j < n
        invariant
            stream <= 1,
            chunk_prefix(stream).len() == 14,
            n == name@.len(),
            14 < n <= 32,
            14 <= j <= n,
            suffix == name@.subrange(14, n as int),
            forall|k: int| 14 <= k < j ==> spec_is_digit(name@[k]),
            val as nat == digits_val(name@.subrange(14, j as int)),
        decreases n - j,
    {
        let c = name.get_char(j);
        if !is_digit(c) {
            proof {
                assert(!all_digits(suffix)) by {
                    assert(suffix[j - 14] == name@[j as int]);
                }
            }
            return None;
        }
        let d: u64 = (c as u32 - 48) as u64;
        proof {
            let pre = name@.subrange(14, j as int);
            assert(forall|k: int| 0 <= k < pre.len() ==> spec_is_digit(pre[k])) by {
                assert(forall|k: int| 0 <= k < pre.len() ==> pre[k] == name@[14 + k]);
            }
            lemma_digits_val_bound(pre);
            assert(pre.len() <= 17);
            lemma_pow10_mono(pre.len(), 17);
            lemma_pow10_17();
            assert(val < 100_000_000_000_000_000);
            assert(d as nat == digit_val(c));
            assert(name@.subrange(14, j + 1).drop_last() =~= pre);
            assert(name@.subrange(14, j + 1).last() == c);
        }
        val = val * 10 + d;
        j += 1;
    }
    proof {
        assert(name@.subrange(14, j as int) == suffix);
        assert(all_digits(suffix));
        assert(is_chunk_name(name@, stream));
    }
    Some(val)
}

/// Ascending by numeric suffix: the only correct concatenation order.
pub open spec fn chunks_ordered(s: Seq<String>, stream: u8) -> bool {
    forall|a: int, b: int| 0 <= a < b < s.len()
        ==> chunk_index(s[a]@, stream) <= chunk_index(s[b]@, stream)
}

/// Orders chunk fragment names ascending by their numeric suffix.
fn sort_chunks(chunks: Vec<String>, stream: u8) -> (r: Vec<String>)
    requires
        stream <= 1,
        forall|k: int| 0 <= k < chunks@.len() ==> is_chunk_name(chunks@[k]@, stream),
    ensures
        r@.len() == chunks@.len(),
        r@.to_multiset() == chunks@.to_multiset(),
        forall|k: int| 0 <= k < r@.len() ==> is_chunk_name(#[trigger] r@[k]@, stream),
        chunks_ordered(r@, stream),
{
    let ghost orig = chunks@;
    let mut rest = chunks;
    let mut out: Vec<String> = Vec::new();
    proof {
        broadcast use group_to_multiset_ensures;
        broadcast use vstd::multiset::group_multiset_axioms;

        assert(out@.to_multiset().add(rest@.to_multiset()) =~= orig.to_multiset());
    }
    while rest.len() > 0
        invariant
            stream <= 1,
            out@.to_multiset().add(rest@.to_multiset()) =~= orig.to_multiset(),
            out@.len() + rest@.len() == orig.len(),
            forall|k: int| 0 <= k < rest@.len() ==> is_chunk_name(#[trigger] rest@[k]@, stream),
            forall|k: int| 0 <= k < out@.len() ==> is_chunk_name(#[trigger] out@[k]@, stream),
            chunks_ordered(out@, stream),
        decreases rest@.len(),
    {
        let ghost pre = rest@;
        let x = match rest.pop() {
            Some(x) => x,
            None => { proof { assert(false); } unreached() },
        };
        proof {
            broadcast use group_to_multiset_ensures;
            broadcast use vstd::multiset::group_multiset_axioms;

            assert(pre.drop_last() =~= pre.remove(pre.len() - 1));
            to_multiset_remove(pre, pre.len() - 1);
            assert(pre.contains(x)) by {
                assert(pre[pre.len() - 1] == x);
            }
            assert(pre.to_multiset().count(x) > 0);
        }
        let xv = match parse_chunk(x.as_str(), stream) {
            Some(v) => v,
            None => { proof { assert(false); } unreached() },
        };
        let mut pos: usize = 0;
        let mut scanning = true;
        while scanning && pos < out.len()
            invariant
                stream <= 1,
                xv as nat == chunk_index(x@, stream),
                forall|k: int| 0 <= k < out@.len() ==> is_chunk_name(#[trigger] out@[k]@, stream),
                pos <= out@.len(),
                forall|i: int| 0 <= i < pos ==> chunk_index(out@[i]@, stream) <= xv as nat,
                !scanning ==> pos < out@.len() && chunk_index(out@[pos as int]@, stream) > xv as nat,
            decreases out@.len() - pos + (if scanning { 1int } else { 0int }),
        {
            let ov = match parse_chunk(out[pos].as_str(), stream) {
                Some(v) => v,
                None => { proof { assert(false); } unreached() },
            };
            if ov <= xv {
                pos += 1;
            } else {
                scanning = false;
            }
        }
        let ghost before = out@;
        proof {
            broadcast use group_to_multiset_ensures;

            to_multiset_insert(before, pos as int, x);
        }
        out.insert(pos, x);
        proof {
            broadcast use vstd::multiset::group_multiset_axioms;

            assert(out@.to_multiset() =~= before.to_multiset().insert(x));
            assert(out@.to_multiset().add(rest@.to_multiset()) =~= orig.to_multiset());
            assert(forall|i: int| 0 <= i < pos ==> out@[i] == before[i]);
            assert(forall|i: int| pos < i < out@.len() ==> out@[i] == before[i - 1]);
            assert(out@[pos as int] == x);
            assert(pos < before.len() ==> chunk_index(before[pos as int]@, stream) > xv as nat);
            assert(chunks_ordered(out@, stream));
        }
    }
    proof {
        broadcast use group_to_multiset_ensures;

        assert(rest@.to_multiset() =~= Multiset::empty());
        assert(out@.to_multiset() =~= orig.to_multiset());
    }
    out
}

/// A correct per-stream concatenation plan over a directory listing: the
/// init segment first, then exactly the chunk fragments of the stream in
/// ascending numeric order.
pub open spec fn plan_ok(plan: Seq<String>, names: Seq<String>, stream: u8) -> bool {
    &&& plan.len() >= 1
    &&& plan[0]@ == init_name(stream)
    &&& (exists|j: int| 0 <= j < names.len() && #[trigger] names[j]@ == init_name(stream))
    &&& (forall|k: int| 1 <= k < plan.len() ==> is_chunk_name(#[trigger] plan[k]@, stream))
    &&& chunks_ordered(plan.skip(1), stream)
    &&& plan.skip(1).to_multiset() == names.filter(chunk_pred(stream)).to_multiset()
}

/// Plans one stream's concatenation inside the segment directory
/// listing: the required init segment followed by every chunk fragment,
/// ascending by numeric suffix.  `FragmentMissing` exactly when the init
/// segment is absent; zero chunks is not an error.
pub fn plan_stream(names: &Vec<String>, stream: u8) -> (r: Result<Vec<String>, PipelineError>)
    requires
        stream <= 1,
    ensures
        match r {
            Ok(plan) => plan_ok(plan@, names@, stream),
            Err(e) => e == PipelineError::FragmentMissing(stream)
                && (forall|j: int| 0 <= j < names@.len()
                    ==> #[trigger] names@[j]@ != init_name(stream)),
        },
{
    let init_lit: &str = if stream == 0 {
        "init-stream0.m4s"
    } else {
        "init-stream1.m4s"
    };
    proof {
        assert(init_lit@ == init_name(stream));
    }
    let mut has_init = false;
    let mut chunks: Vec<String> = Vec::new();
    let mut i: usize = 0;
    while i < names.len()
        invariant
            stream <= 1,
            init_lit@ == init_name(stream),
            i <= names@.len(),
            has_init <==> (exists|j: int| 0 <= j < i && #[trigger] names@[j]@ == init_name(stream)),
            chunks@ == names@.take(i as int).filter(chunk_pred(stream)),
            forall|k: int| 0 <= k < chunks@.len() ==> is_chunk_name(#[trigger] chunks@[k]@, stream),
        decreases names@.len() - i,
    {
        if str_eq(names[i].as_str(), init_lit) {
            has_init = true;
        }
        let is_chunk = match parse_chunk(names[i].as_str(), stream) {
            Some(_) => true,
            None => false,
        };
        proof {
            reveal(Seq::filter);
            let pred = chunk_pred(stream);
            assert(names@.take(i + 1).drop_last() =~= names@.take(i as int));
            assert(names@.take(i + 1).last() == names@[i as int]);
            assert(pred(names@[i as int]) == is_chunk_name(names@[i as int]@, stream));
            if is_chunk {
                assert(names@.take(i + 1).filter(pred) =~= names@.take(i as int).filter(
                    pred,
                ).push(names@[i as int]));
            } else {
                assert(names@.take(i + 1).filter(pred) =~= names@.take(i as int).filter(pred));
            }
        }
        if is_chunk {
            chunks.push(names[i].clone());
        }
        i += 1;
    }
    if !has_init {
        return Err(PipelineError::FragmentMissing(stream));
    }
    proof {
        assert(names@.take(names@.len() as int) =~= names@);
    }
    let sorted = sort_chunks(chunks, stream);
    let ghost sortedv = sorted@;
    let mut plan: Vec<String> = Vec::new();
    plan.push(init_lit.to_owned());
    let mut tail = sorted;
    plan.append(&mut tail);
    proof {
        assert(plan@.skip(1) =~= sortedv);
    }
    Ok(plan)
}

/// Everything the caller must do to reconstruct a clip: where the
/// segments live, the exact concatenation order of each stream, and
/// where the muxed result goes.
#[derive(Debug)]
pub struct ReconstructionPlan {
    pub video_dir: String,
    pub stream0: Vec<String>,
    pub stream1: Vec<String>,
    pub output: String,
}

/// Plans the whole reconstruction of one clip.  `listing` is the
/// contents of the clip's `video/<recording_id>` directory, or `None`
/// when that directory is absent on disk.  No step is retried; the first
/// failing step names the error.
pub fn build_plan(clip: &Clip, listing: Option<&Vec<String>>) -> (r: Result<
    ReconstructionPlan,
    PipelineError,
>)
    ensures
        match r {
            Ok(p) => {
                &&& spec_first_recording_id(clip.info) matches Some(rid)
                    && p.video_dir@ == clip.path@ + "/video/"@ + rid
                &&& listing matches Some(names) && plan_ok(p.stream0@, names@, 0)
                    && plan_ok(p.stream1@, names@, 1)
                &&& p.output@ == clip.path@ + "/output.mp4"@
            },
            Err(PipelineError::MissingRecordingId) => spec_first_recording_id(clip.info) is None,
            Err(PipelineError::MissingSegmentDir) =>
                spec_first_recording_id(clip.info) is Some && listing is None,
            Err(PipelineError::FragmentMissing(st)) => st <= 1
                && spec_first_recording_id(clip.info) is Some
                && (listing matches Some(names)
                    && (forall|j: int| 0 <= j < names@.len()
                        ==> #[trigger] names@[j]@ != init_name(st))
                    && (st == 1 ==> exists|j: int| 0 <= j < names@.len()
                        && #[trigger] names@[j]@ == init_name(0))),
            _ => false,
        },
{
    let rid = match first_recording_id(&clip.info) {
        Ok(s) => s,
        Err(e) => {
            return Err(e);
        },
    };
    let names = match listing {
        Some(names) => names,
        None => {
            return Err(PipelineError::MissingSegmentDir);
        },
    };
    let stream0 = match plan_stream(names, 0) {
        Ok(p) => p,
        Err(e) => {
            return Err(e);
        },
    };
    let stream1 = match plan_stream(names, 1) {
        Ok(p) => p,
        Err(e) => {
            return Err(e);
        },
    };
    Ok(ReconstructionPlan {
        video_dir: video_dir_path(clip.path.as_str(), rid.as_str()),
        stream0,
        stream1,
        output: output_path(clip.path.as_str()),
    })
}

/// View of each byte buffer in a sequence.
pub open spec fn views_of(pieces: Seq<Vec<u8>>) -> Seq<Seq<u8>> {
    pieces.map_values(|p: Vec<u8>| p@)
}

/// Concatenation of a sequence of byte strings, in order.
pub open spec fn concat_of(pieces: Seq<Seq<u8>>) -> Seq<u8>
    decreases pieces.len(),
{
    if pieces.len() == 0 {
        Seq::empty()
    } else {
        concat_of(pieces.drop_last()) + pieces.last()
    }
}

/// Byte-level concatenation of ordered fragment contents: the
/// reconstructed stream is exactly the fragments laid end to end.
pub fn concat_fragments(pieces: &Vec<Vec<u8>>) -> (r: Vec<u8>)
    ensures
        r@ == concat_of(views_of(pieces@)),
{
    let mut out: Vec<u8> = Vec::new();
    let mut i: usize = 0;
    while i < pieces.len()
        invariant
            i <= pieces@.len(),
            out@ == concat_of(views_of(pieces@).take(i as int)),
        decreases pieces@.len() - i,
    {
        out.extend_from_slice(pieces[i].as_slice());
        proof {
            assert(views_of(pieces@).take(i + 1).drop_last() =~= views_of(pieces@).take(i as int));
            assert(views_of(pieces@).take(i + 1).last() == pieces@[i as int]@);
        }
        i += 1;
    }
    proof {
        assert(views_of(pieces@).take(pieces@.len() as int) =~= views_of(pieces@));
    }
    out
}

} // verus!
