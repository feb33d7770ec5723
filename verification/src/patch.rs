//! The data model: a [`Hunk`] is one edit instruction, a [`Patch`] is an
//! ordered sequence of hunks, and [`Patch::build`] constructs the one-hunk
//! synthetic patch that carries a tunable parameter byte.

use vstd::prelude::*;
use crate::bytes::end_marker_value;

verus! {

/// The abstract value of one hunk: where it writes and what it writes.
pub ghost struct HunkModel {
    pub offset: u32,
    pub payload: Seq<u8>,
}

/// A hunk the format can carry: a 24-bit offset and one to 0xFFFF payload
/// bytes. A hunk always writes at least one byte.
pub open spec fn wf_hunk(h: HunkModel) -> bool {
    h.offset <= 0xFFFFFF && 1 <= h.payload.len() <= 0xFFFF
}

/// A hunk the encoder can frame: well formed, and its offset is not the value
/// whose bytes spell the end marker, which the parser reads as the end of the
/// patch.
pub open spec fn encodable_hunk(h: HunkModel) -> bool {
    wf_hunk(h) && h.offset != end_marker_value()
}

pub open spec fn wf_hunks(s: Seq<HunkModel>) -> bool {
    forall|i: int| 0 <= i < s.len() ==> wf_hunk(#[trigger] s[i])
}

pub open spec fn encodable_hunks(s: Seq<HunkModel>) -> bool {
    forall|i: int| 0 <= i < s.len() ==> encodable_hunk(#[trigger] s[i])
}

/// The models of a sequence of hunks, in the same order.
pub open spec fn views_of(hunks: Seq<Hunk>) -> Seq<HunkModel> {
    hunks.map_values(|h: Hunk| h@)
}

/// One atomic edit instruction: `payload` is written starting at byte
/// position `offset` of the target.
#[derive(Debug)]
pub struct Hunk {
    offset: u32,
    payload: Vec<u8>,
}

impl View for Hunk {
    type V = HunkModel;

    closed spec fn view(&self) -> HunkModel {
        HunkModel { offset: self.offset, payload: self.payload@ }
    }
}

impl Hunk {
    /// A literal hunk. The format stores offsets in 24 bits and lengths in 16
    /// bits, and a hunk always writes at least one byte.
    pub fn new(offset: u32, payload: Vec<u8>) -> (h: Hunk)
        requires
            offset <= 0xFFFFFF,
            1 <= payload@.len() <= 0xFFFF,
        ensures
            h@ == (HunkModel { offset, payload: payload@ }),
    {
        Hunk { offset, payload }
    }

    pub fn offset(&self) -> (o: u32)
        ensures
            o == self@.offset,
    {
        self.offset
    }

    pub fn payload(&self) -> (p: &Vec<u8>)
        ensures
            p@ == self@.payload,
    {
        &self.payload
    }
}

/// An ordered sequence of hunks describing all edits for one target file.
/// Hunks are applied in exactly the order they stand here; the parser and the
/// builder never reorder, merge, or drop a hunk.
#[derive(Debug)]
pub struct Patch {
    hunks: Vec<Hunk>,
}

impl View for Patch {
    type V = Seq<HunkModel>;

    closed spec fn view(&self) -> Seq<HunkModel> {
        views_of(self.hunks@)
    }
}

impl Patch {
    /// A patch holding the given hunks, in the given order.
    pub fn from_hunks(hunks: Vec<Hunk>) -> (p: Patch)
        ensures
            p@ == views_of(hunks@),
    {
        Patch { hunks }
    }

    pub fn hunk_count(&self) -> (n: usize)
        ensures
            n == self@.len(),
    {
        self.hunks.len()
    }

    pub fn hunk(&self, i: usize) -> (h: &Hunk)
        requires
            i < self@.len(),
        ensures
            h@ == self@[i as int],
    {
        &self.hunks[i]
    }

    /// The synthetic one-hunk patch that stores a validated parameter byte at
    /// a fixed offset. The stored byte is the validated input offset by one,
    /// the on-disk representation of the parameter. `tag` and `trailer` are
    /// the fixed framing of the stored variant of this patch; they are not
    /// part of the hunk sequence (the encoder writes the frame itself), so
    /// the built value ignores them.
    #[allow(unused_variables)]
    pub fn build(tag: [u8; 4], offset: u32, parameter_byte: u8, trailer: [u8; 2]) -> (p: Patch)
        requires
            offset <= 0xFFFFFF,
            1 < parameter_byte <= 254,
        ensures
            p@ == seq![HunkModel { offset, payload: seq![(parameter_byte + 1) as u8] }],
    {
        let stored: u8 = parameter_byte + 1;
        let mut payload: Vec<u8> = Vec::new();
        payload.push(stored);
        let h = Hunk::new(offset, payload);
        let mut hunks: Vec<Hunk> = Vec::new();
        hunks.push(h);
        let p = Patch { hunks };
        proof {
            assert(p@ =~= seq![HunkModel { offset, payload: seq![(parameter_byte + 1) as u8] }]);
        }
        p
    }
}

} // verus!
