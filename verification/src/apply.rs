//! The applicator: writes every hunk of a patch into an in-memory target, in
//! sequence order. Bytes outside the hunk ranges are untouched and the
//! target's length never changes. When a hunk reaches past the end of the
//! target the run stops there: earlier hunks stay applied, and the error says
//! which hunk failed.

use vstd::prelude::*;
use crate::patch::{HunkModel, Patch};

verus! {

/// Why a hunk could not be applied: the hunk at `hunk_index` would write the
/// range `[offset, offset + payload_len)`, which reaches past the end of a
/// target of `target_len` bytes.
#[derive(Clone, Copy, Debug, PartialEq, Eq, Structural)]
pub struct ApplyError {
    pub hunk_index: usize,
    pub offset: u32,
    pub payload_len: usize,
    pub target_len: usize,
}

/// `t` with `pay` written at byte position `off`; every other byte of `t`
/// kept, and the length kept.
pub open spec fn spec_write(t: Seq<u8>, off: int, pay: Seq<u8>) -> Seq<u8> {
    Seq::new(
        t.len(),
        |i: int|
            if off <= i < off + pay.len() {
                pay[i - off]
            } else {
                t[i]
            },
    )
}

/// Whether the hunk's write stays inside a target of `tlen` bytes.
pub open spec fn hunk_fits(h: HunkModel, tlen: int) -> bool {
    h.offset + h.payload.len() <= tlen
}

pub open spec fn all_fit(s: Seq<HunkModel>, tlen: int) -> bool {
    forall|i: int| 0 <= i < s.len() ==> hunk_fits(#[trigger] s[i], tlen)
}

/// The target after the hunks of `s` are written to `t`, first hunk first.
pub open spec fn spec_apply(t: Seq<u8>, s: Seq<HunkModel>) -> Seq<u8>
    decreases s.len(),
{
    if s.len() == 0 {
        t
    } else {
        spec_apply(spec_write(t, s[0].offset as int, s[0].payload), s.drop_first())
    }
}

/// Applying hunks never changes the target's length.
pub proof fn lemma_spec_apply_len(t: Seq<u8>, s: Seq<HunkModel>)
    ensures
        spec_apply(t, s).len() == t.len(),
    decreases s.len(),
{
    if s.len() == 0 {
    } else {
        lemma_spec_apply_len(spec_write(t, s[0].offset as int, s[0].payload), s.drop_first());
    }
}

/// Appending one hunk to a sequence applies it last.
pub proof fn lemma_spec_apply_push(t: Seq<u8>, s: Seq<HunkModel>, h: HunkModel)
    ensures
        spec_apply(t, s.push(h)) == spec_write(spec_apply(t, s), h.offset as int, h.payload),
    decreases s.len(),
{
    if s.len() == 0 {
        assert(s.push(h)[0] == h);
        assert(s.push(h).drop_first() =~= Seq::<HunkModel>::empty());
        let tw = spec_write(t, h.offset as int, h.payload);
        assert(spec_apply(t, s.push(h)) == spec_apply(tw, Seq::<HunkModel>::empty()));
        assert(spec_apply(tw, Seq::<HunkModel>::empty()) == tw);
        assert(spec_apply(t, s) == t);
    } else {
        assert(s.push(h)[0] == s[0]);
        assert(s.push(h).drop_first() =~= s.drop_first().push(h));
        let t1 = spec_write(t, s[0].offset as int, s[0].payload);
        assert(spec_apply(t, s.push(h)) == spec_apply(t1, s.drop_first().push(h)));
        assert(spec_apply(t, s) == spec_apply(t1, s.drop_first()));
        lemma_spec_apply_push(t1, s.drop_first(), h);
    }
}

/// Writes every hunk of `patch` into `target`, in sequence order. On success
/// the target is exactly `spec_apply` of its old bytes; success is owed
/// precisely when every hunk fits. On failure the error names the first hunk
/// that does not fit, and exactly the hunks before it are applied: there is
/// no rollback, reapplying to a fresh copy is always safe.
#[verifier::loop_isolation(false)]
pub fn apply(target: &mut Vec<u8>, patch: &Patch) -> (r: Result<(), ApplyError>)
    ensures
        final(target)@.len() == old(target)@.len(),
        r is Ok <==> all_fit(patch@, old(target)@.len() as int),
        r is Ok ==> final(target)@ == spec_apply(old(target)@, patch@),
        (r matches Err(e) ==> {
            &&& e.hunk_index < patch@.len()
            &&& !hunk_fits(patch@[e.hunk_index as int], old(target)@.len() as int)
            &&& all_fit(patch@.take(e.hunk_index as int), old(target)@.len() as int)
            &&& final(target)@ == spec_apply(old(target)@, patch@.take(e.hunk_index as int))
            &&& e.offset == patch@[e.hunk_index as int].offset
            &&& e.payload_len == patch@[e.hunk_index as int].payload.len()
            &&& e.target_len == old(target)@.len()
        }),
{
    let ghost t0 = target@;
    let tlen = target.len();
    let count = patch.hunk_count();
    let mut i: usize = 0;
    while i < count
        invariant
            i <= count,
            count == patch@.len(),
            tlen == t0.len(),
            target@.len() == t0.len(),
            all_fit(patch@.take(i as int), t0.len() as int),
            target@ == spec_apply(t0, patch@.take(i as int)),
        decreases count - i,
    {
        let h = patch.hunk(i);
        let off = h.offset() as usize;
        let pay = h.payload();
        let plen = pay.len();
        if plen > tlen || off > tlen - plen {
            assert(!hunk_fits(patch@[i as int], t0.len() as int));
            assert(!all_fit(patch@, t0.len() as int));
            return Err(ApplyError {
                hunk_index: i,
                offset: h.offset(),
                payload_len: plen,
                target_len: tlen,
            });
        }
        assert(hunk_fits(patch@[i as int], t0.len() as int));
        let ghost before = target@;
        let mut j: usize = 0;
        while j < plen
            invariant
                j <= plen,
                off + plen <= target@.len(),
                target@.len() == tlen,
                target@.len() == before.len(),
                pay@ == patch@[i as int].payload,
                plen == pay@.len(),
                forall|p: int|
                    off <= p < off + j ==> target@[p] == pay@[p - off],
                forall|p: int|
                    0 <= p < target@.len() && !(off <= p < off + j) ==> target@[p] == before[p],
            decreases plen - j,
        {
            target.set(off + j, pay[j]);
            j = j + 1;
        }
        proof {
            assert(target@ =~= spec_write(before, off as int, pay@));
            assert(patch@.take(i as int + 1) =~= patch@.take(i as int).push(patch@[i as int]));
            lemma_spec_apply_push(t0, patch@.take(i as int), patch@[i as int]);
        }
        i = i + 1;
    }
    proof {
        assert(patch@.take(count as int) =~= patch@);
    }
    Ok(())
}

/// Reapplying to a byte-identical copy: one patch applied to two identical
/// targets produces identical results, so a failed run can always be redone
/// on a fresh copy of the original.
pub proof fn lemma_apply_deterministic(t1: Seq<u8>, t2: Seq<u8>, s: Seq<HunkModel>)
    requires
        t1 == t2,
    ensures
        spec_apply(t1, s) == spec_apply(t2, s),
{
}

/// True when `p` lies inside the range the hunk writes.
pub open spec fn hunk_covers(h: HunkModel, p: int) -> bool {
    h.offset <= p < h.offset + h.payload.len()
}

/// True when the two hunks write non-overlapping ranges.
pub open spec fn ranges_disjoint(a: HunkModel, b: HunkModel) -> bool {
    a.offset + a.payload.len() <= b.offset || b.offset + b.payload.len() <= a.offset
}

pub open spec fn pairwise_disjoint(s: Seq<HunkModel>) -> bool {
    forall|i: int, j: int|
        0 <= i < j < s.len() ==> ranges_disjoint(#[trigger] s[i], #[trigger] s[j])
}

/// A byte inside no hunk's range is never written, whatever the layout of
/// the hunks.
proof fn lemma_no_cover_unchanged(t: Seq<u8>, s: Seq<HunkModel>, p: int)
    requires
        0 <= p < t.len(),
        forall|i: int| 0 <= i < s.len() ==> !hunk_covers(#[trigger] s[i], p),
    ensures
        spec_apply(t, s)[p] == t[p],
    decreases s.len(),
{
    if s.len() == 0 {
    } else {
        let t1 = spec_write(t, s[0].offset as int, s[0].payload);
        assert(!hunk_covers(s[0], p));
        assert(t1[p] == t[p]);
        assert(forall|i: int|
            0 <= i < s.drop_first().len() ==> !hunk_covers(#[trigger] s.drop_first()[i], p)) by {
            assert(forall|i: int|
                0 <= i < s.drop_first().len() ==> s.drop_first()[i] == s[i + 1]);
        }
        lemma_no_cover_unchanged(t1, s.drop_first(), p);
    }
}

/// Non-interference: applying a patch whose hunks have pairwise-disjoint
/// ranges leaves every byte outside those ranges bit-for-bit unchanged.
pub proof fn lemma_untouched_byte_unchanged(t: Seq<u8>, s: Seq<HunkModel>, p: int)
    requires
        pairwise_disjoint(s),
        0 <= p < t.len(),
        forall|i: int| 0 <= i < s.len() ==> !hunk_covers(#[trigger] s[i], p),
    ensures
        spec_apply(t, s)[p] == t[p],
{
    lemma_no_cover_unchanged(t, s, p);
}

/// On a patch of pairwise-disjoint hunks that all fit, every hunk's range
/// ends up holding exactly that hunk's payload.
pub proof fn lemma_hunk_bytes_written(t: Seq<u8>, s: Seq<HunkModel>, i: int, p: int)
    requires
        pairwise_disjoint(s),
        all_fit(s, t.len() as int),
        0 <= i < s.len(),
        hunk_covers(s[i], p),
    ensures
        spec_apply(t, s)[p] == s[i].payload[p - s[i].offset],
    decreases s.len(),
{
    let t1 = spec_write(t, s[0].offset as int, s[0].payload);
    assert(forall|k: int| 0 <= k < s.drop_first().len() ==> s.drop_first()[k] == s[k + 1]);
    assert(pairwise_disjoint(s.drop_first()));
    assert(t1.len() == t.len());
    assert(all_fit(s.drop_first(), t1.len() as int));
    if i == 0 {
        assert(hunk_fits(s[0], t.len() as int));
        assert(0 <= p < t.len());
        assert(t1[p] == s[0].payload[p - s[0].offset]);
        assert(forall|k: int|
            0 <= k < s.drop_first().len() ==> !hunk_covers(#[trigger] s.drop_first()[k], p)) by {
            assert(forall|k: int|
                0 <= k < s.drop_first().len() ==> ranges_disjoint(s[0], #[trigger] s[k + 1]));
        }
        lemma_no_cover_unchanged(t1, s.drop_first(), p);
    } else {
        assert(hunk_covers(s.drop_first()[i - 1], p));
        lemma_hunk_bytes_written(t1, s.drop_first(), i - 1, p);
    }
}

/// Overlap resolution: in a patch of two hunks with overlapping ranges, every
/// byte of the overlap ends up as the later hunk's payload byte, not the
/// earlier one's.
pub proof fn lemma_overlap_last_wins(t: Seq<u8>, first: HunkModel, second: HunkModel, p: int)
    requires
        hunk_covers(first, p),
        hunk_covers(second, p),
        0 <= p < t.len(),
    ensures
        spec_apply(t, seq![first, second])[p] == second.payload[p - second.offset],
{
    let s = seq![first, second];
    let t1 = spec_write(t, first.offset as int, first.payload);
    let t2 = spec_write(t1, second.offset as int, second.payload);
    assert(s[0] == first);
    assert(s.drop_first() =~= seq![second]);
    assert(seq![second][0] == second);
    assert(seq![second].drop_first() =~= Seq::<HunkModel>::empty());
    assert(spec_apply(t, s) == spec_apply(t1, seq![second]));
    assert(spec_apply(t1, seq![second]) == spec_apply(t2, Seq::<HunkModel>::empty()));
    assert(spec_apply(t2, Seq::<HunkModel>::empty()) == t2);
    assert(t2[p] == second.payload[p - second.offset]);
}

} // verus!
