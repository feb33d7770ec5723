//! The parser: decodes a patch byte stream into a [`Patch`], hunk by hunk, in
//! stream order. Parsing is pure: the same buffer always yields the same
//! hunk sequence, and a malformed buffer is rejected as a whole.

use vstd::prelude::*;
use crate::bytes::{
    be16_at, be24_at, is_end_marker_at, lemma_be24_bound, lemma_end_marker_value,
};
use crate::patch::{encodable_hunk, encodable_hunks, views_of, Hunk, HunkModel, Patch};

verus! {

/// Why a patch byte stream was rejected. Every variant carries the byte
/// position within the buffer at which decoding failed.
#[derive(Clone, Copy, Debug, PartialEq, Eq, Structural)]
pub enum FormatError {
    /// The buffer is shorter than the five-byte magic tag, or the tag does
    /// not match.
    BadMagic,
    /// A field or the payload of the record starting at `pos` would read past
    /// the end of the buffer; or the buffer ended at `pos` without the end
    /// marker.
    UnexpectedEnd { pos: usize },
    /// The record starting at `pos` declares a run of zero bytes; a hunk
    /// always writes at least one byte.
    EmptyRun { pos: usize },
    /// Bytes remain at `pos`, after the end marker.
    TrailingData { pos: usize },
}

/// True when the five bytes at the start of `b` are the magic tag `PATCH`.
pub open spec fn has_magic(b: Seq<u8>) -> bool {
    b.len() >= 5 && b[0] == 0x50u8 && b[1] == 0x41u8 && b[2] == 0x54u8 && b[3] == 0x43u8 && b[4]
        == 0x48u8
}

/// The meaning of the record stream of `b` from position `pos` on: the hunks
/// it encodes, or the error at which decoding stops. One record is three
/// offset bytes and two length bytes; a nonzero length is followed by that
/// many literal payload bytes, a zero length by a two-byte repeat count and
/// one fill byte. The stream ends at the three-byte end marker, which must
/// close the buffer exactly.
pub open spec fn spec_parse_records(b: Seq<u8>, pos: int) -> Result<Seq<HunkModel>, FormatError>
    decreases b.len() - pos,
{
    if pos + 3 > b.len() {
        Err(FormatError::UnexpectedEnd { pos: pos as usize })
    } else if is_end_marker_at(b, pos) {
        if pos + 3 == b.len() {
            Ok(Seq::empty())
        } else {
            Err(FormatError::TrailingData { pos: (pos + 3) as usize })
        }
    } else if pos + 5 > b.len() {
        Err(FormatError::UnexpectedEnd { pos: pos as usize })
    } else {
        let offset = be24_at(b, pos);
        let len = be16_at(b, pos + 3) as int;
        if len > 0 {
            if pos + 5 + len > b.len() {
                Err(FormatError::UnexpectedEnd { pos: pos as usize })
            } else {
                match spec_parse_records(b, pos + 5 + len) {
                    Ok(rest) => Ok(
                        seq![HunkModel { offset, payload: b.subrange(pos + 5, pos + 5 + len) }]
                            + rest,
                    ),
                    Err(e) => Err(e),
                }
            }
        } else {
            if pos + 8 > b.len() {
                Err(FormatError::UnexpectedEnd { pos: pos as usize })
            } else {
                let count = be16_at(b, pos + 5) as int;
                if count == 0 {
                    Err(FormatError::EmptyRun { pos: pos as usize })
                } else {
                    match spec_parse_records(b, pos + 8) {
                        Ok(rest) => Ok(
                            seq![
                                HunkModel {
                                    offset,
                                    payload: Seq::new(count as nat, |i: int| b[pos + 7]),
                                },
                            ] + rest,
                        ),
                        Err(e) => Err(e),
                    }
                }
            }
        }
    }
}

/// The meaning of a whole patch buffer: its hunks in stream order, or the
/// error at which decoding stops.
pub open spec fn spec_parse(b: Seq<u8>) -> Result<Seq<HunkModel>, FormatError> {
    if !has_magic(b) {
        Err(FormatError::BadMagic)
    } else {
        spec_parse_records(b, 5)
    }
}

/// The bytes `b[start .. start + n]`, copied out.
fn copy_range(b: &Vec<u8>, start: usize, n: usize) -> (out: Vec<u8>)
    requires
        start + n <= b@.len(),
    ensures
        out@ == b@.subrange(start as int, start as int + n as int),
{
    let blen = b.len();
    let mut out: Vec<u8> = Vec::new();
    let mut j: usize = 0;
    while j < n
        invariant
            j <= n,
            start + n <= blen,
            blen == b@.len(),
            out@ == b@.subrange(start as int, start as int + j as int),
        decreases n - j,
    {
        out.push(b[start + j]);
        j = j + 1;
        proof {
            assert(out@ =~= b@.subrange(start as int, start as int + j as int));
        }
    }
    out
}

/// `n` copies of `fill`.
fn repeat_byte(fill: u8, n: usize) -> (out: Vec<u8>)
    ensures
        out@ == Seq::new(n as nat, |i: int| fill),
{
    let mut out: Vec<u8> = Vec::new();
    let mut j: usize = 0;
    while j < n
        invariant
            j <= n,
            out@ == Seq::new(j as nat, |i: int| fill),
        decreases n - j,
    {
        out.push(fill);
        j = j + 1;
        proof {
            assert(out@ =~= Seq::new(j as nat, |i: int| fill));
        }
    }
    out
}

/// Decodes a patch buffer. Returns the patch whose hunks are exactly those
/// `spec_parse` gives for the buffer, in stream order, and rejects exactly
/// the buffers `spec_parse` rejects, with the same error.
pub fn parse(bytes: &Vec<u8>) -> (r: Result<Patch, FormatError>)
    ensures
        (match spec_parse(bytes@) {
            Ok(hs) => r matches Ok(p) && p@ == hs,
            Err(e) => r matches Err(pe) && pe == e,
        }),
{
    let n = bytes.len();
    if n < 5 || bytes[0] != 0x50 || bytes[1] != 0x41 || bytes[2] != 0x54 || bytes[3] != 0x43
        || bytes[4] != 0x48 {
        return Err(FormatError::BadMagic);
    }
    assert(has_magic(bytes@));
    let mut hunks: Vec<Hunk> = Vec::new();
    let mut pos: usize = 5;
    loop
        invariant
            5 <= pos <= n,
            n == bytes@.len(),
            has_magic(bytes@),
            spec_parse_records(bytes@, 5) == (match spec_parse_records(bytes@, pos as int) {
                Ok(rest) => Ok::<Seq<HunkModel>, FormatError>(views_of(hunks@) + rest),
                Err(e) => Err::<Seq<HunkModel>, FormatError>(e),
            }),
        decreases n - pos,
    {
        let ghost b = bytes@;
        let ghost acc = views_of(hunks@);
        if n - pos < 3 {
            return Err(FormatError::UnexpectedEnd { pos });
        }
        let b0 = bytes[pos];
        let b1 = bytes[pos + 1];
        let b2 = bytes[pos + 2];
        if b0 == 0x45 && b1 == 0x4f && b2 == 0x46 {
            if pos + 3 == n {
                proof {
                    assert(spec_parse_records(b, pos as int) == Ok::<Seq<HunkModel>, FormatError>(
                        Seq::empty(),
                    ));
                    assert(acc + Seq::<HunkModel>::empty() =~= acc);
                }
                let p = Patch::from_hunks(hunks);
                return Ok(p);
            } else {
                return Err(FormatError::TrailingData { pos: pos + 3 });
            }
        }
        assert(!is_end_marker_at(b, pos as int));
        if n - pos < 5 {
            return Err(FormatError::UnexpectedEnd { pos });
        }
        let offset: u32 = ((b0 as u32) << 16) | ((b1 as u32) << 8) | (b2 as u32);
        proof {
            assert(offset == be24_at(b, pos as int));
            lemma_be24_bound(b0, b1, b2);
        }
        let l0 = bytes[pos + 3];
        let l1 = bytes[pos + 4];
        let len: u16 = ((l0 as u16) << 8) | (l1 as u16);
        assert(len == be16_at(b, pos as int + 3));
        if len > 0 {
            let len_us = len as usize;
            if len_us > n - (pos + 5) {
                return Err(FormatError::UnexpectedEnd { pos });
            }
            let payload = copy_range(bytes, pos + 5, len_us);
            let h = Hunk::new(offset, payload);
            hunks.push(h);
            let ghost pos2 = pos as int + 5 + len as int;
            proof {
                assert(views_of(hunks@) =~= acc.push(h@));
                lemma_invariant_step(b, pos as int, pos2, acc, h@, views_of(hunks@));
            }
            pos = pos + 5 + len_us;
        } else {
            if n - pos < 8 {
                return Err(FormatError::UnexpectedEnd { pos });
            }
            let c0 = bytes[pos + 5];
            let c1 = bytes[pos + 6];
            let count: u16 = ((c0 as u16) << 8) | (c1 as u16);
            assert(count == be16_at(b, pos as int + 5));
            if count == 0 {
                return Err(FormatError::EmptyRun { pos });
            }
            let fill = bytes[pos + 7];
            let payload = repeat_byte(fill, count as usize);
            let h = Hunk::new(offset, payload);
            hunks.push(h);
            let ghost pos2 = pos as int + 8;
            proof {
                assert(h@.payload =~= Seq::new(count as nat, |i: int| b[pos as int + 7]));
                assert(views_of(hunks@) =~= acc.push(h@));
                lemma_invariant_step(b, pos as int, pos2, acc, h@, views_of(hunks@));
            }
            pos = pos + 8;
        }
    }
}

/// Every hunk a record stream yields is encodable: its offset fits in 24
/// bits and is not the end-marker value, and its payload holds one to 0xFFFF
/// bytes: a parsed hunk never has an empty payload.
proof fn lemma_parsed_records_encodable(b: Seq<u8>, pos: int)
    requires
        0 <= pos <= b.len(),
    ensures
        (spec_parse_records(b, pos) matches Ok(hs) ==> encodable_hunks(hs)),
    decreases b.len() - pos,
{
    if pos + 3 > b.len() {
    } else if is_end_marker_at(b, pos) {
    } else if pos + 5 > b.len() {
    } else {
        lemma_be24_bound(b[pos], b[pos + 1], b[pos + 2]);
        lemma_end_marker_value(b[pos], b[pos + 1], b[pos + 2]);
        let offset = be24_at(b, pos);
        let len = be16_at(b, pos + 3) as int;
        if len > 0 {
            if pos + 5 + len <= b.len() {
                lemma_parsed_records_encodable(b, pos + 5 + len);
                match spec_parse_records(b, pos + 5 + len) {
                    Ok(rest) => {
                        let head = HunkModel {
                            offset,
                            payload: b.subrange(pos + 5, pos + 5 + len),
                        };
                        assert(head.payload.len() == len);
                        assert(encodable_hunk(head));
                        lemma_cons_encodable(head, rest);
                    },
                    Err(_) => {},
                }
            }
        } else {
            if pos + 8 <= b.len() {
                let count = be16_at(b, pos + 5) as int;
                if count != 0 {
                    lemma_parsed_records_encodable(b, pos + 8);
                    match spec_parse_records(b, pos + 8) {
                        Ok(rest) => {
                            let head = HunkModel {
                                offset,
                                payload: Seq::new(count as nat, |i: int| b[pos + 7]),
                            };
                            assert(encodable_hunk(head));
                            lemma_cons_encodable(head, rest);
                        },
                        Err(_) => {},
                    }
                }
            }
        }
    }
}

/// A sequence headed by an encodable hunk, with an encodable tail, is
/// encodable throughout.
proof fn lemma_cons_encodable(head: HunkModel, rest: Seq<HunkModel>)
    requires
        encodable_hunk(head),
        encodable_hunks(rest),
    ensures
        encodable_hunks(seq![head] + rest),
{
    let s = seq![head] + rest;
    assert forall|i: int| 0 <= i < s.len() implies encodable_hunk(#[trigger] s[i]) by {
        if i == 0 {
            assert(s[i] == head);
        } else {
            assert(s[i] == rest[i - 1]);
        }
    }
}

/// Every hunk the parser yields is encodable, so a parsed patch can always
/// be framed back into bytes.
pub proof fn lemma_parsed_hunks_encodable(b: Seq<u8>)
    ensures
        (spec_parse(b) matches Ok(hs) ==> encodable_hunks(hs)),
{
    if b.len() >= 5 {
        lemma_parsed_records_encodable(b, 5);
    }
}

/// The parser rejects truncation: a buffer that parses successfully has no
/// strict prefix that parses; cutting it at any byte boundary before its
/// final byte leaves a buffer the parser rejects with an error, never a
/// silently shortened hunk sequence.
pub proof fn lemma_parse_rejects_truncation(b: Seq<u8>, k: int)
    requires
        spec_parse(b) is Ok,
        0 <= k < b.len(),
    ensures
        spec_parse(b.take(k)) is Err,
{
    let c = b.take(k);
    assert(has_magic(b));
    if k < 5 {
        assert(!has_magic(c));
    } else {
        assert(c[0] == b[0] && c[1] == b[1] && c[2] == b[2] && c[3] == b[3] && c[4] == b[4]);
        assert(has_magic(c));
        lemma_records_reject_truncation(b, 5, k);
    }
}

/// The inductive core of truncation rejection: when the record stream of `b`
/// parses from `pos` on, the stream of any strict prefix of `b` errs from
/// `pos` on: some field, payload, or the end marker itself is cut.
proof fn lemma_records_reject_truncation(b: Seq<u8>, pos: int, k: int)
    requires
        0 <= pos <= b.len(),
        spec_parse_records(b, pos) is Ok,
        pos <= k < b.len(),
    ensures
        spec_parse_records(b.take(k), pos) is Err,
    decreases b.len() - pos,
{
    let c = b.take(k);
    assert(c.len() == k);
    assert(pos + 3 <= b.len());
    if is_end_marker_at(b, pos) {
        // success forces the marker to close the buffer, so the cut falls
        // inside the marker itself
        assert(pos + 3 == b.len());
        assert(pos + 3 > c.len());
    } else {
        assert(pos + 5 <= b.len());
        let len = be16_at(b, pos + 3) as int;
        let pos2 = if len > 0 {
            pos + 5 + len
        } else {
            pos + 8
        };
        assert(pos2 <= b.len());
        assert(spec_parse_records(b, pos2) is Ok);
        if k < pos + 3 {
            assert(pos + 3 > c.len());
        } else {
            assert(c[pos] == b[pos] && c[pos + 1] == b[pos + 1] && c[pos + 2] == b[pos + 2]);
            assert(!is_end_marker_at(c, pos));
            if k < pos + 5 {
                assert(pos + 5 > c.len());
            } else {
                assert(c[pos + 3] == b[pos + 3] && c[pos + 4] == b[pos + 4]);
                assert(be16_at(c, pos + 3) == be16_at(b, pos + 3));
                if len > 0 {
                    if k < pos2 {
                        assert(pos + 5 + len > c.len());
                    } else {
                        lemma_records_reject_truncation(b, pos2, k);
                    }
                } else {
                    if k < pos + 8 {
                        assert(pos + 8 > c.len());
                    } else {
                        assert(c[pos + 5] == b[pos + 5] && c[pos + 6] == b[pos + 6]);
                        assert(be16_at(c, pos + 5) == be16_at(b, pos + 5));
                        assert(be16_at(b, pos + 5) as int != 0);
                        lemma_records_reject_truncation(b, pos2, k);
                    }
                }
            }
        }
    }
}

/// One step of the parse loop: when the record at `pos` decodes to `head` and
/// continues at `pos2`, folding `head` into the accumulator keeps the loop
/// invariant.
proof fn lemma_invariant_step(
    b: Seq<u8>,
    pos: int,
    pos2: int,
    acc: Seq<HunkModel>,
    head: HunkModel,
    acc2: Seq<HunkModel>,
)
    requires
        spec_parse_records(b, pos) == (match spec_parse_records(b, pos2) {
            Ok(rest) => Ok::<Seq<HunkModel>, FormatError>(seq![head] + rest),
            Err(e) => Err::<Seq<HunkModel>, FormatError>(e),
        }),
        spec_parse_records(b, 5) == (match spec_parse_records(b, pos) {
            Ok(rest) => Ok::<Seq<HunkModel>, FormatError>(acc + rest),
            Err(e) => Err::<Seq<HunkModel>, FormatError>(e),
        }),
        acc2 == acc.push(head),
    ensures
        spec_parse_records(b, 5) == (match spec_parse_records(b, pos2) {
            Ok(rest) => Ok::<Seq<HunkModel>, FormatError>(acc2 + rest),
            Err(e) => Err::<Seq<HunkModel>, FormatError>(e),
        }),
{
    match spec_parse_records(b, pos2) {
        Ok(rest) => {
            assert(acc + (seq![head] + rest) =~= acc.push(head) + rest);
        },
        Err(_) => {},
    }
}

} // verus!
