//! Typed clip metadata and its binary decoder.
//!
//! The metadata file is a length-delimited binary record format: a
//! stream of fields, each a varint key `(field_number << 3) | wire_type`
//! followed by a payload whose shape the wire type gives (0 = varint,
//! 1 = eight bytes, 2 = length-delimited, 5 = four bytes).  The decoder
//! is schema-tolerant: unknown fields are skipped, never rejected.  The
//! schema decoded here: a clip has `name` (field 1, string) and
//! `timelines` (field 2, repeated message); a timeline has `recordings`
//! (field 1, repeated message); a recording has `recording_id` (field 1,
//! string).  For a singular field that occurs twice the last value wins.

use vstd::prelude::*;
use crate::errors::MetaError;
use vstd::utf8::decode_utf8;
use vstd::utf8::valid_utf8;

verus! {

/// One recording inside a timeline; `recording_id` names the on-disk
/// segment subdirectory and may be absent.
#[derive(Debug)]
pub struct Recording {
    pub recording_id: Option<String>,
}

/// One timeline of a clip: an ordered sequence of recordings.
#[derive(Debug)]
pub struct Timeline {
    pub recordings: Vec<Recording>,
}

/// Decoded metadata of one clip.  `name` is the user-facing title and is
/// absent for auto-named clips; `timelines` may be empty when the
/// metadata carries none (schema-tolerant decoding).
#[derive(Debug)]
pub struct ClipDescriptor {
    pub name: Option<String>,
    pub timelines: Vec<Timeline>,
}

/// Mathematical model of a recording.
pub struct SRecording {
    pub recording_id: Option<Seq<char>>,
}

/// Mathematical model of a timeline.
pub struct STimeline {
    pub recordings: Seq<SRecording>,
}

/// Mathematical model of a clip descriptor.
pub struct SClip {
    pub name: Option<Seq<char>>,
    pub timelines: Seq<STimeline>,
}

/// Model of a recording value.
pub open spec fn view_recording(r: Recording) -> SRecording {
    SRecording {
        recording_id: match r.recording_id {
            Some(s) => Some(s@),
            None => None,
        },
    }
}

/// Model of a timeline value.
pub open spec fn view_timeline(t: Timeline) -> STimeline {
    STimeline { recordings: t.recordings@.map_values(|r: Recording| view_recording(r)) }
}

/// Model of a clip descriptor value.
pub open spec fn view_clip(c: ClipDescriptor) -> SClip {
    SClip {
        name: match c.name {
            Some(s) => Some(s@),
            None => None,
        },
        timelines: c.timelines@.map_values(|t: Timeline| view_timeline(t)),
    }
}

/// Powers of 128, the radix of varint groups.
pub open spec fn pow128(n: nat) -> nat
    decreases n,
{
    if n == 0 {
        1
    } else {
        128 * pow128((n - 1) as nat)
    }
}

/// A base-128 varint at `[i, end)` of at most `rem` bytes: its value and
/// the index after it.  Each byte carries seven low-order bits, least
/// significant group first; a high bit of zero ends the number.
pub open spec fn spec_varint_rec(s: Seq<u8>, i: int, end: int, rem: nat) -> Option<(nat, int)>
    decreases rem,
{
    if i < 0 || i >= end || end > s.len() || rem == 0 {
        None
    } else {
        let b = s[i];
        if b < 128 {
            Some((b as nat, i + 1))
        } else {
            match spec_varint_rec(s, i + 1, end, (rem - 1) as nat) {
                Some((v, j)) => Some(((b - 128) as nat + v * 128, j)),
                None => None,
            }
        }
    }
}

/// A varint of at most ten bytes, the wire format's limit.
pub open spec fn spec_varint(s: Seq<u8>, i: int, end: int) -> Option<(nat, int)> {
    spec_varint_rec(s, i, end, 10)
}

proof fn lemma_varint_bound(s: Seq<u8>, i: int, end: int, rem: nat)
    ensures
        spec_varint_rec(s, i, end, rem) matches Some((v, j))
            ==> v < pow128(rem) && i < j <= end,
    decreases rem,
{
    if !(i < 0 || i >= end || end > s.len() || rem == 0) {
        lemma_varint_bound(s, i + 1, end, (rem - 1) as nat);
        lemma_pow128_pos((rem - 1) as nat);
        assert(pow128(rem) >= 128);
        if s[i] >= 128 {
            let res = spec_varint_rec(s, i + 1, end, (rem - 1) as nat);
            if res is Some {
                let v = (res->0).0;
                assert((s[i] - 128) as nat + v * 128 < pow128(rem)) by {
                    assert(v * 128 <= (pow128((rem - 1) as nat) - 1) * 128);
                }
            }
        }
    }
}

proof fn lemma_pow128_mono(a: nat, b: nat)
    requires
        a <= b,
    ensures
        pow128(a) <= pow128(b),
    decreases b,
{
    if a < b {
        lemma_pow128_mono(a, (b - 1) as nat);
        assert(pow128((b - 1) as nat) >= 1) by {
            lemma_pow128_pos((b - 1) as nat);
        }
    }
}

proof fn lemma_pow128_pos(n: nat)
    ensures
        pow128(n) >= 1,
    decreases n,
{
    if n > 0 {
        lemma_pow128_pos((n - 1) as nat);
    }
}

proof fn lemma_pow128_10()
    ensures
        pow128(10) == 0x40_0000_0000_0000_0000,
{
    assert(pow128(10) == 0x40_0000_0000_0000_0000) by {
        reveal_with_fuel(pow128, 11);
    }
}

/// Executable varint reader, the mirror of `spec_varint_rec`.
fn read_varint_rec(s: &Vec<u8>, i: usize, end: usize, rem: u8) -> (r: Option<(u128, usize)>)
    requires
        i <= end <= s@.len(),
        rem <= 10,
    ensures
        match r {
            Some((v, j)) => spec_varint_rec(s@, i as int, end as int, rem as nat)
                == Some((v as nat, j as int)) && i < j <= end,
            None => spec_varint_rec(s@, i as int, end as int, rem as nat) is None,
        },
    decreases rem,
{
    if i >= end || rem == 0 {
        return None;
    }
    let b = s[i];
    if b < 128 {
        Some((b as u128, i + 1))
    } else {
        match read_varint_rec(s, i + 1, end, rem - 1) {
            Some((v, j)) => {
                proof {
                    lemma_varint_bound(s@, i + 1 as int, end as int, (rem - 1) as nat);
                    lemma_pow128_mono((rem - 1) as nat, 10);
                    lemma_pow128_10();
                }
                Some(((b - 128) as u128 + v * 128, j))
            },
            None => None,
        }
    }
}

/// Executable ten-byte varint reader, the mirror of `spec_varint`.
fn read_varint(s: &Vec<u8>, i: usize, end: usize) -> (r: Option<(u128, usize)>)
    requires
        i <= end <= s@.len(),
    ensures
        match r {
            Some((v, j)) => spec_varint(s@, i as int, end as int) == Some((v as nat, j as int))
                && i < j <= end,
            None => spec_varint(s@, i as int, end as int) is None,
        },
{
    read_varint_rec(s, i, end, 10)
}

/// Index after an unknown field's payload, by wire type, with the field
/// key already consumed up to `j`; `None` when the payload is truncated
/// or the wire type has no defined shape.
pub open spec fn spec_skip_payload(s: Seq<u8>, j: int, end: int, wire: nat) -> Option<int> {
    if wire == 0 {
        match spec_varint(s, j, end) {
            Some((_, k)) => Some(k),
            None => None,
        }
    } else if wire == 1 {
        if j + 8 <= end {
            Some(j + 8)
        } else {
            None
        }
    } else if wire == 2 {
        match spec_varint(s, j, end) {
            Some((len, k)) => {
                if k + len <= end {
                    Some(k + len)
                } else {
                    None
                }
            },
            None => None,
        }
    } else if wire == 5 {
        if j + 4 <= end {
            Some(j + 4)
        } else {
            None
        }
    } else {
        None
    }
}

/// Executable mirror of `spec_skip_payload`.
fn skip_payload(s: &Vec<u8>, j: usize, end: usize, wire: u8) -> (r: Option<usize>)
    requires
        j <= end <= s@.len(),
    ensures
        match r {
            Some(k) => spec_skip_payload(s@, j as int, end as int, wire as nat)
                == Some(k as int) && j <= k <= end,
            None => spec_skip_payload(s@, j as int, end as int, wire as nat) is None,
        },
{
    if wire == 0 {
        match read_varint(s, j, end) {
            Some((_, k)) => Some(k),
            None => None,
        }
    } else if wire == 1 {
        if end - j >= 8 {
            Some(j + 8)
        } else {
            None
        }
    } else if wire == 2 {
        match read_varint(s, j, end) {
            Some((len, k)) => {
                if len <= (end - k) as u128 {
                    Some(k + (len as usize))
                } else {
                    None
                }
            },
            None => None,
        }
    } else if wire == 5 {
        if end - j >= 4 {
            Some(j + 4)
        } else {
            None
        }
    } else {
        None
    }
}

/// The fields of a recording message at `[i, end)`, folded onto `acc`.
pub open spec fn spec_recording_fields(s: Seq<u8>, i: int, end: int, acc: SRecording) -> Option<
    SRecording,
>
    decreases end - i when 0 <= i <= end <= s.len()
{
    if i == end {
        Some(acc)
    } else {
        match spec_varint(s, i, end) {
            Some((tag, j)) => {
                if !(i < j <= end) {
                    None
                } else if tag == 10 {
                    // recording_id: field 1, length-delimited string
                    match spec_varint(s, j, end) {
                        Some((len, k)) => {
                            if !(j < k <= end) || k + len > end {
                                None
                            } else {
                                let payload = s.subrange(k, k + len);
                                if valid_utf8(payload) {
                                    spec_recording_fields(
                                        s,
                                        k + len,
                                        end,
                                        SRecording { recording_id: Some(decode_utf8(payload)) },
                                    )
                                } else {
                                    None
                                }
                            }
                        },
                        None => None,
                    }
                } else {
                    match spec_skip_payload(s, j, end, tag % 8) {
                        Some(k) => {
                            if j <= k <= end {
                                spec_recording_fields(s, k, end, acc)
                            } else {
                                None
                            }
                        },
                        None => None,
                    }
                }
            },
            None => None,
        }
    }
}

/// The fields of a timeline message at `[i, end)`, folded onto `acc`.
pub open spec fn spec_timeline_fields(s: Seq<u8>, i: int, end: int, acc: STimeline) -> Option<
    STimeline,
>
    decreases end - i when 0 <= i <= end <= s.len()
{
    if i == end {
        Some(acc)
    } else {
        match spec_varint(s, i, end) {
            Some((tag, j)) => {
                if !(i < j <= end) {
                    None
                } else if tag == 10 {
                    // recordings: field 1, repeated nested message
                    match spec_varint(s, j, end) {
                        Some((len, k)) => {
                            if !(j < k <= end) || k + len > end {
                                None
                            } else {
                                match spec_recording_fields(
                                    s,
                                    k,
                                    k + len,
                                    SRecording { recording_id: None },
                                ) {
                                    Some(rec) => spec_timeline_fields(
                                        s,
                                        k + len,
                                        end,
                                        STimeline { recordings: acc.recordings.push(rec) },
                                    ),
                                    None => None,
                                }
                            }
                        },
                        None => None,
                    }
                } else {
                    match spec_skip_payload(s, j, end, tag % 8) {
                        Some(k) => {
                            if j <= k <= end {
                                spec_timeline_fields(s, k, end, acc)
                            } else {
                                None
                            }
                        },
                        None => None,
                    }
                }
            },
            None => None,
        }
    }
}

/// The fields of a clip message at `[i, end)`, folded onto `acc`.
pub open spec fn spec_clip_fields(s: Seq<u8>, i: int, end: int, acc: SClip) -> Option<SClip>
    decreases end - i when 0 <= i <= end <= s.len()
{
    if i == end {
        Some(acc)
    } else {
        match spec_varint(s, i, end) {
            Some((tag, j)) => {
                if !(i < j <= end) {
                    None
                } else if tag == 10 {
                    // name: field 1, length-delimited string
                    match spec_varint(s, j, end) {
                        Some((len, k)) => {
                            if !(j < k <= end) || k + len > end {
                                None
                            } else {
                                let payload = s.subrange(k, k + len);
                                if valid_utf8(payload) {
                                    spec_clip_fields(
                                        s,
                                        k + len,
                                        end,
                                        SClip { name: Some(decode_utf8(payload)), ..acc },
                                    )
                                } else {
                                    None
                                }
                            }
                        },
                        None => None,
                    }
                } else if tag == 18 {
                    // timelines: field 2, repeated nested message
                    match spec_varint(s, j, end) {
                        Some((len, k)) => {
                            if !(j < k <= end) || k + len > end {
                                None
                            } else {
                                match spec_timeline_fields(
                                    s,
                                    k,
                                    k + len,
                                    STimeline { recordings: Seq::empty() },
                                ) {
                                    Some(tl) => spec_clip_fields(
                                        s,
                                        k + len,
                                        end,
                                        SClip { timelines: acc.timelines.push(tl), ..acc },
                                    ),
                                    None => None,
                                }
                            }
                        },
                        None => None,
                    }
                } else {
                    match spec_skip_payload(s, j, end, tag % 8) {
                        Some(k) => {
                            if j <= k <= end {
                                spec_clip_fields(s, k, end, acc)
                            } else {
                                None
                            }
                        },
                        None => None,
                    }
                }
            },
            None => None,
        }
    }
}

/// The clip descriptor a metadata byte string decodes to, or `None`
/// when the bytes are malformed.
pub open spec fn spec_decode_clip(bytes: Seq<u8>) -> Option<SClip> {
    spec_clip_fields(
        bytes,
        0,
        bytes.len() as int,
        SClip { name: None, timelines: Seq::empty() },
    )
}

/// Copy of the byte range `[from, to)`.
fn subvec(s: &Vec<u8>, from: usize, to: usize) -> (r: Vec<u8>)
    requires
        from <= to <= s@.len(),
    ensures
        r@ == s@.subrange(from as int, to as int),
{
    let mut out: Vec<u8> = Vec::new();
    let mut i: usize = from;
    while i < to
        invariant
            from <= i <= to <= s@.len(),
            out@ == s@.subrange(from as int, i as int),
        decreases to - i,
    {
        out.push(s[i]);
        proof {
            assert(s@.subrange(from as int, i + 1) =~= s@.subrange(from as int, i as int).push(
                s@[i as int],
            ));
        }
        i += 1;
    }
    out
}

/// Relies on String::from_utf8: `Ok` exactly on valid UTF-8 input, and
/// the returned string's characters are the decoding of the bytes.
#[verifier::external_body]
fn bytes_to_string(b: Vec<u8>) -> (r: Option<String>)
    ensures
        match r {
            Some(s) => valid_utf8(b@) && s@ == decode_utf8(b@),
            None => !valid_utf8(b@),
        },
{
    match String::from_utf8(b) {
        Ok(s) => Some(s),
        Err(_) => None,
    }
}

/// Executable mirror of `spec_recording_fields`.
fn recording_fields(s: &Vec<u8>, i: usize, end: usize, acc: Recording) -> (r: Result<
    Recording,
    MetaError,
>)
    requires
        i <= end <= s@.len(),
    ensures
        match r {
            Ok(rec) => spec_recording_fields(s@, i as int, end as int, view_recording(acc))
                == Some(view_recording(rec)),
            Err(e) => e == MetaError::MetadataDecode
                && spec_recording_fields(s@, i as int, end as int, view_recording(acc)) is None,
        },
    decreases end - i,
{
    if i == end {
        return Ok(acc);
    }
    let (tag, j) = match read_varint(s, i, end) {
        Some(p) => p,
        None => {
            return Err(MetaError::MetadataDecode);
        },
    };
    if tag == 10 {
        let (len, k) = match read_varint(s, j, end) {
            Some(p) => p,
            None => {
                return Err(MetaError::MetadataDecode);
            },
        };
        if len > (end - k) as u128 {
            return Err(MetaError::MetadataDecode);
        }
        let kend = k + (len as usize);
        let payload = subvec(s, k, kend);
        match bytes_to_string(payload) {
            Some(text) => recording_fields(s, kend, end, Recording { recording_id: Some(text) }),
            None => Err(MetaError::MetadataDecode),
        }
    } else {
        let wire = (tag % 8) as u8;
        match skip_payload(s, j, end, wire) {
            Some(k) => recording_fields(s, k, end, acc),
            None => Err(MetaError::MetadataDecode),
        }
    }
}

/// Executable mirror of `spec_timeline_fields`.
fn timeline_fields(s: &Vec<u8>, i: usize, end: usize, acc: Timeline) -> (r: Result<
    Timeline,
    MetaError,
>)
    requires
        i <= end <= s@.len(),
    ensures
        match r {
            Ok(tl) => spec_timeline_fields(s@, i as int, end as int, view_timeline(acc))
                == Some(view_timeline(tl)),
            Err(e) => e == MetaError::MetadataDecode
                && spec_timeline_fields(s@, i as int, end as int, view_timeline(acc)) is None,
        },
    decreases end - i,
{
    if i == end {
        return Ok(acc);
    }
    let (tag, j) = match read_varint(s, i, end) {
        Some(p) => p,
        None => {
            return Err(MetaError::MetadataDecode);
        },
    };
    if tag == 10 {
        let (len, k) = match read_varint(s, j, end) {
            Some(p) => p,
            None => {
                return Err(MetaError::MetadataDecode);
            },
        };
        if len > (end - k) as u128 {
            return Err(MetaError::MetadataDecode);
        }
        let kend = k + (len as usize);
        let rec = match recording_fields(s, k, kend, Recording { recording_id: None }) {
            Ok(rec) => rec,
            Err(e) => {
                return Err(e);
            },
        };
        let mut acc2 = acc;
        let ghost accv = view_timeline(acc2);
        acc2.recordings.push(rec);
        proof {
            assert(view_timeline(acc2).recordings =~= accv.recordings.push(view_recording(rec)));
        }
        timeline_fields(s, kend, end, acc2)
    } else {
        let wire = (tag % 8) as u8;
        match skip_payload(s, j, end, wire) {
            Some(k) => timeline_fields(s, k, end, acc),
            None => Err(MetaError::MetadataDecode),
        }
    }
}

/// Executable mirror of `spec_clip_fields`.
fn clip_fields(s: &Vec<u8>, i: usize, end: usize, acc: ClipDescriptor) -> (r: Result<
    ClipDescriptor,
    MetaError,
>)
    requires
        i <= end <= s@.len(),
    ensures
        match r {
            Ok(c) => spec_clip_fields(s@, i as int, end as int, view_clip(acc))
                == Some(view_clip(c)),
            Err(e) => e == MetaError::MetadataDecode
                && spec_clip_fields(s@, i as int, end as int, view_clip(acc)) is None,
        },
    decreases end - i,
{
    if i == end {
        return Ok(acc);
    }
    let (tag, j) = match read_varint(s, i, end) {
        Some(p) => p,
        None => {
            return Err(MetaError::MetadataDecode);
        },
    };
    if tag == 10 || tag == 18 {
        let (len, k) = match read_varint(s, j, end) {
            Some(p) => p,
            None => {
                return Err(MetaError::MetadataDecode);
            },
        };
        if len > (end - k) as u128 {
            return Err(MetaError::MetadataDecode);
        }
        let kend = k + (len as usize);
        if tag == 10 {
            let payload = subvec(s, k, kend);
            match bytes_to_string(payload) {
                Some(text) => {
                    let acc2 = ClipDescriptor { name: Some(text), timelines: acc.timelines };
                    clip_fields(s, kend, end, acc2)
                },
                None => Err(MetaError::MetadataDecode),
            }
        } else {
            let tl_init = Timeline { recordings: Vec::new() };
            proof {
                assert(view_timeline(tl_init).recordings =~= Seq::<SRecording>::empty());
            }
            let tl = match timeline_fields(s, k, kend, tl_init) {
                Ok(tl) => tl,
                Err(e) => {
                    return Err(e);
                },
            };
            let mut acc2 = acc;
            let ghost accv = view_clip(acc2);
            acc2.timelines.push(tl);
            proof {
                assert(view_clip(acc2).timelines =~= accv.timelines.push(view_timeline(tl)));
            }
            clip_fields(s, kend, end, acc2)
        }
    } else {
        let wire = (tag % 8) as u8;
        match skip_payload(s, j, end, wire) {
            Some(k) => clip_fields(s, k, end, acc),
            None => Err(MetaError::MetadataDecode),
        }
    }
}

/// A `timelines` field record (tag 18) occurs at the top level of the
/// clip message in `[i, end)`, walking the same field boundaries the
/// decoder walks.
pub open spec fn spec_mentions_timelines(s: Seq<u8>, i: int, end: int) -> bool
    decreases end - i when 0 <= i <= end <= s.len()
{
    if i >= end {
        false
    } else {
        match spec_varint(s, i, end) {
            Some((tag, j)) => {
                if !(i < j <= end) {
                    false
                } else if tag == 18 {
                    true
                } else {
                    match spec_skip_payload(s, j, end, tag % 8) {
                        Some(k) => {
                            if j <= k <= end {
                                spec_mentions_timelines(s, k, end)
                            } else {
                                false
                            }
                        },
                        None => false,
                    }
                }
            },
            None => false,
        }
    }
}

proof fn lemma_no_timelines_unchanged(s: Seq<u8>, i: int, end: int, acc: SClip)
    requires
        0 <= i <= end <= s.len(),
        !spec_mentions_timelines(s, i, end),
    ensures
        spec_clip_fields(s, i, end, acc) matches Some(c) ==> c.timelines == acc.timelines,
    decreases end - i,
{
    if i < end {
        let vr = spec_varint(s, i, end);
        if vr is Some {
            let tag = (vr->0).0;
            let j = (vr->0).1;
            if i < j <= end && tag != 18 {
                if tag == 10 {
                    let lr = spec_varint(s, j, end);
                    if lr is Some {
                        let len = (lr->0).0;
                        let k = (lr->0).1;
                        if j < k <= end && k + len <= end {
                            assert(spec_skip_payload(s, j, end, tag % 8) == Some(k + len));
                            let payload = s.subrange(k, k + len as int);
                            if valid_utf8(payload) {
                                lemma_no_timelines_unchanged(
                                    s,
                                    k + len as int,
                                    end,
                                    SClip { name: Some(decode_utf8(payload)), ..acc },
                                );
                            }
                        }
                    }
                } else {
                    let sr = spec_skip_payload(s, j, end, tag % 8);
                    if sr is Some {
                        let k = sr->0;
                        if j <= k <= end {
                            lemma_no_timelines_unchanged(s, k, end, acc);
                        }
                    }
                }
            }
        }
    }
}

/// Schema tolerance: a metadata byte string whose top-level fields never
/// include `timelines` decodes, whenever it decodes at all, to a
/// descriptor with an empty timeline sequence.  Together with
/// `decode_clip`'s contract this says such bytes either yield an
/// empty-timelines descriptor or fail with `MetadataDecode`; `decode_clip`
/// is a verified total function, so no such input makes it panic.
pub proof fn lemma_missing_timelines_decodes_empty(bytes: Seq<u8>)
    requires
        !spec_mentions_timelines(bytes, 0, bytes.len() as int),
    ensures
        spec_decode_clip(bytes) matches Some(c) ==> c.timelines.len() == 0,
{
    lemma_no_timelines_unchanged(
        bytes,
        0,
        bytes.len() as int,
        SClip { name: None, timelines: Seq::empty() },
    );
}

/// Decodes a clip's raw metadata bytes; `MetadataDecode` exactly when
/// the bytes are truncated or otherwise malformed.  A verified total
/// function: no input makes it panic.
pub fn decode_clip(bytes: &Vec<u8>) -> (r: Result<ClipDescriptor, MetaError>)
    ensures
        match r {
            Ok(c) => spec_decode_clip(bytes@) == Some(view_clip(c)),
            Err(e) => e == MetaError::MetadataDecode && spec_decode_clip(bytes@) is None,
        },
{
    let empty = ClipDescriptor { name: None, timelines: Vec::new() };
    proof {
        assert(view_clip(empty).timelines =~= Seq::<STimeline>::empty());
    }
    clip_fields(bytes, 0, bytes.len(), empty)
}

} // verus!
