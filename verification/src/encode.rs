//! The encoder: frames a patch back into the byte format, as literal
//! records between the magic tag and the end marker. Parsing the encoded
//! bytes gives the hunk sequence back unchanged: the round trip is proved in
//! [`lemma_encode_parse_roundtrip`].

use vstd::prelude::*;
use crate::bytes::{
    be16_bytes, be24_bytes, end_marker_seq, lemma_be16_roundtrip, lemma_be24_not_end_marker,
    lemma_be24_roundtrip, magic_seq,
};
use crate::parse::{has_magic, spec_parse, spec_parse_records, FormatError};
use crate::patch::{encodable_hunk, encodable_hunks, HunkModel, Patch};

verus! {

/// The record framing one hunk: three offset bytes, two length bytes, then
/// the literal payload. A run-length hunk, once parsed, is framed literally
/// too; the hunks it writes are the same.
pub open spec fn spec_encode_hunk(h: HunkModel) -> Seq<u8> {
    be24_bytes(h.offset) + be16_bytes(h.payload.len() as u16) + h.payload
}

/// The records of all hunks of `s`, in order.
pub open spec fn spec_encode_records(s: Seq<HunkModel>) -> Seq<u8>
    decreases s.len(),
{
    if s.len() == 0 {
        Seq::empty()
    } else {
        spec_encode_hunk(s[0]) + spec_encode_records(s.drop_first())
    }
}

/// The whole byte stream of a patch: magic tag, records, end marker.
pub open spec fn spec_encode(s: Seq<HunkModel>) -> Seq<u8> {
    magic_seq() + spec_encode_records(s) + end_marker_seq()
}

/// Appending one hunk appends its record.
pub proof fn lemma_encode_records_push(s: Seq<HunkModel>, h: HunkModel)
    ensures
        spec_encode_records(s.push(h)) == spec_encode_records(s) + spec_encode_hunk(h),
    decreases s.len(),
{
    if s.len() == 0 {
        assert(s.push(h)[0] == h);
        assert(s.push(h).drop_first() =~= Seq::<HunkModel>::empty());
        assert(spec_encode_records(Seq::<HunkModel>::empty()) == Seq::<u8>::empty());
        assert(spec_encode_records(s.push(h)) =~= spec_encode_records(s) + spec_encode_hunk(h));
    } else {
        assert(s.push(h)[0] == s[0]);
        assert(s.push(h).drop_first() =~= s.drop_first().push(h));
        lemma_encode_records_push(s.drop_first(), h);
        assert(spec_encode_hunk(s[0]) + (spec_encode_records(s.drop_first())
            + spec_encode_hunk(h)) =~= (spec_encode_hunk(s[0]) + spec_encode_records(
            s.drop_first(),
        )) + spec_encode_hunk(h));
    }
}

/// Appends a copy of `src` to `out`.
fn push_bytes(out: &mut Vec<u8>, src: &Vec<u8>)
    ensures
        final(out)@ == old(out)@ + src@,
{
    let n = src.len();
    let mut j: usize = 0;
    while j < n
        invariant
            j <= n,
            n == src@.len(),
            out@ == old(out)@ + src@.take(j as int),
        decreases n - j,
    {
        out.push(src[j]);
        j = j + 1;
        proof {
            assert(old(out)@ + src@.take(j as int) =~= (old(out)@ + src@.take(j as int - 1)).push(
                src@[j as int - 1],
            ));
        }
    }
    proof {
        assert(old(out)@ + src@.take(n as int) =~= old(out)@ + src@);
    }
}

/// Frames `patch` into bytes: exactly `spec_encode` of its hunks. Every hunk
/// must be encodable: the format stores offsets in 24 bits and lengths in 16
/// bits, and an offset must not spell the end marker.
#[verifier::loop_isolation(false)]
pub fn encode(patch: &Patch) -> (out: Vec<u8>)
    requires
        encodable_hunks(patch@),
    ensures
        out@ == spec_encode(patch@),
{
    let mut out: Vec<u8> = Vec::new();
    out.push(0x50);
    out.push(0x41);
    out.push(0x54);
    out.push(0x43);
    out.push(0x48);
    proof {
        assert(out@ =~= magic_seq());
        assert(patch@.take(0) =~= Seq::<HunkModel>::empty());
        assert(out@ =~= magic_seq() + spec_encode_records(patch@.take(0)));
    }
    let count = patch.hunk_count();
    let mut i: usize = 0;
    while i < count
        invariant
            i <= count,
            count == patch@.len(),
            out@ == magic_seq() + spec_encode_records(patch@.take(i as int)),
        decreases count - i,
    {
        let h = patch.hunk(i);
        let off = h.offset();
        let pay = h.payload();
        let plen = pay.len();
        assert(encodable_hunk(patch@[i as int]));
        let ghost out_before = out@;
        out.push((off >> 16) as u8);
        out.push((off >> 8) as u8);
        out.push(off as u8);
        let len16: u16 = plen as u16;
        out.push((len16 >> 8) as u8);
        out.push(len16 as u8);
        push_bytes(&mut out, pay);
        proof {
            assert(len16 == h@.payload.len() as u16);
            assert(out@ =~= out_before + spec_encode_hunk(patch@[i as int]));
            assert(patch@.take(i as int + 1) =~= patch@.take(i as int).push(patch@[i as int]));
            lemma_encode_records_push(patch@.take(i as int), patch@[i as int]);
            assert(out@ =~= magic_seq() + spec_encode_records(patch@.take(i as int + 1)));
        }
        i = i + 1;
    }
    out.push(0x45);
    out.push(0x4f);
    out.push(0x46);
    proof {
        assert(patch@.take(count as int) =~= patch@);
        assert(out@ =~= magic_seq() + spec_encode_records(patch@) + end_marker_seq());
    }
    out
}

/// The record stream of `s`, followed by the end marker, parses back to
/// exactly `s`: stated over any buffer whose suffix from `pos` is that
/// stream.
proof fn lemma_parse_encoded_records(b: Seq<u8>, pos: int, s: Seq<HunkModel>)
    requires
        0 <= pos <= b.len(),
        encodable_hunks(s),
        b.subrange(pos, b.len() as int) == spec_encode_records(s) + end_marker_seq(),
    ensures
        spec_parse_records(b, pos) == Ok::<Seq<HunkModel>, FormatError>(s),
    decreases s.len(),
{
    let tail = spec_encode_records(s) + end_marker_seq();
    assert(b.len() - pos == tail.len());
    assert(forall|k: int| 0 <= k < tail.len() ==> b[pos + k] == #[trigger] tail[k]) by {
        assert(forall|k: int|
            0 <= k < tail.len() ==> b.subrange(pos, b.len() as int)[k] == #[trigger] tail[k]);
    }
    if s.len() == 0 {
        assert(tail =~= end_marker_seq());
        assert(b[pos] == 0x45u8 && b[pos + 1] == 0x4fu8 && b[pos + 2] == 0x46u8);
        assert(pos + 3 == b.len());
        assert(spec_parse_records(b, pos) == Ok::<Seq<HunkModel>, FormatError>(Seq::empty()));
        assert(s =~= Seq::<HunkModel>::empty());
    } else {
        let h = s[0];
        let eh = spec_encode_hunk(h);
        let plen = h.payload.len() as int;
        let a = be24_bytes(h.offset);
        let lb = be16_bytes(h.payload.len() as u16);
        let rest2 = spec_encode_records(s.drop_first()) + end_marker_seq();
        assert(encodable_hunk(h));
        assert(eh.len() == 5 + plen);
        assert(tail =~= eh + rest2) by {
            assert(spec_encode_records(s) == eh + spec_encode_records(s.drop_first()));
        }
        assert forall|k: int| 0 <= k < eh.len() implies #[trigger] tail[k] == eh[k] by {
            assert((eh + rest2)[k] == eh[k]);
        }
        assert forall|k: int| 0 <= k < 5 implies #[trigger] eh[k] == (a + lb)[k] by {
            assert(((a + lb) + h.payload)[k] == (a + lb)[k]);
        }
        assert((a + lb)[0] == a[0]);
        assert((a + lb)[1] == a[1]);
        assert((a + lb)[2] == a[2]);
        assert((a + lb)[3] == lb[0]);
        assert((a + lb)[4] == lb[1]);
        assert(b[pos] == tail[0] && b[pos + 1] == tail[1] && b[pos + 2] == tail[2] && b[pos + 3]
            == tail[3] && b[pos + 4] == tail[4]);
        assert(tail[0] == eh[0] && tail[1] == eh[1] && tail[2] == eh[2] && tail[3] == eh[3]
            && tail[4] == eh[4]);
        assert(a[0] == (h.offset >> 16) as u8 && a[1] == (h.offset >> 8) as u8 && a[2] == h.offset
            as u8);
        assert(lb[0] == ((plen as u16) >> 8) as u8 && lb[1] == (plen as u16) as u8);
        // the five header bytes of the record
        assert(b[pos] == (h.offset >> 16) as u8);
        assert(b[pos + 1] == (h.offset >> 8) as u8);
        assert(b[pos + 2] == h.offset as u8);
        assert(b[pos + 3] == ((plen as u16) >> 8) as u8);
        assert(b[pos + 4] == (plen as u16) as u8);
        lemma_be24_not_end_marker(h.offset);
        lemma_be24_roundtrip(h.offset);
        lemma_be16_roundtrip(plen as u16);
        assert(!crate::bytes::is_end_marker_at(b, pos));
        assert(crate::bytes::be24_at(b, pos) == h.offset);
        assert(crate::bytes::be16_at(b, pos + 3) == plen as u16);
        assert(plen as u16 as int == plen);
        // the payload bytes
        assert(pos + 5 + plen <= b.len());
        assert forall|k: int| 0 <= k < plen implies b[pos + 5 + k] == #[trigger] h.payload[k] by {
            assert(b[pos + 5 + k] == tail[5 + k]);
            assert(tail[5 + k] == eh[5 + k]);
            assert(((a + lb) + h.payload)[5 + k] == h.payload[k]);
        }
        assert(b.subrange(pos + 5, pos + 5 + plen) =~= h.payload);
        // the rest of the stream
        let pos2 = pos + 5 + plen;
        assert(b.subrange(pos2, b.len() as int) =~= rest2) by {
            assert forall|k: int| 0 <= k < b.len() - pos2 implies b.subrange(
                pos2,
                b.len() as int,
            )[k] == rest2[k] by {
                assert(b[pos2 + k] == tail[eh.len() + k]);
                assert((eh + rest2)[eh.len() + k] == rest2[k]);
            }
        }
        lemma_parse_encoded_records(b, pos2, s.drop_first());
        assert(spec_parse_records(b, pos) == Ok::<Seq<HunkModel>, FormatError>(
            seq![HunkModel { offset: h.offset, payload: b.subrange(pos + 5, pos + 5 + plen) }]
                + s.drop_first(),
        ));
        assert(seq![h] + s.drop_first() =~= s);
    }
}

/// Round trip: framing any sequence of encodable hunks and parsing the bytes
/// back yields the identical hunk sequence: same offsets, same payload
/// bytes, same order.
pub proof fn lemma_encode_parse_roundtrip(s: Seq<HunkModel>)
    requires
        encodable_hunks(s),
    ensures
        spec_parse(spec_encode(s)) == Ok::<Seq<HunkModel>, FormatError>(s),
{
    let b = spec_encode(s);
    assert(b.len() >= 8);
    assert(forall|k: int| 0 <= k < 5 ==> b[k] == #[trigger] magic_seq()[k]);
    assert(has_magic(b));
    assert(b.subrange(5, b.len() as int) =~= spec_encode_records(s) + end_marker_seq());
    lemma_parse_encoded_records(b, 5, s);
}

} // verus!
