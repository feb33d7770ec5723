//! The byte-level vocabulary of the patch format: the magic tag, the end
//! marker, and big-endian 16- and 24-bit fields.

use vstd::prelude::*;

verus! {

/// The five magic bytes `PATCH` that open every patch stream.
pub open spec fn magic_seq() -> Seq<u8> {
    seq![0x50u8, 0x41u8, 0x54u8, 0x43u8, 0x48u8]
}

/// The three bytes `EOF` that close every patch stream.
pub open spec fn end_marker_seq() -> Seq<u8> {
    seq![0x45u8, 0x4fu8, 0x46u8]
}

/// The 24-bit value whose big-endian bytes spell the end marker. A record
/// cannot start with this value in its offset field: the parser reads those
/// three bytes as the end of the patch.
pub open spec fn end_marker_value() -> u32 {
    0x454f46u32
}

/// True when the three bytes at `pos` spell the end-of-patch marker.
pub open spec fn is_end_marker_at(b: Seq<u8>, pos: int) -> bool {
    b[pos] == 0x45u8 && b[pos + 1] == 0x4fu8 && b[pos + 2] == 0x46u8
}

/// The value of a big-endian 24-bit field with bytes `b0 b1 b2`.
pub open spec fn be24_value(b0: u8, b1: u8, b2: u8) -> u32 {
    ((b0 as u32) << 16) | ((b1 as u32) << 8) | (b2 as u32)
}

/// The big-endian 24-bit field stored at `pos`.
pub open spec fn be24_at(b: Seq<u8>, pos: int) -> u32 {
    be24_value(b[pos], b[pos + 1], b[pos + 2])
}

/// The value of a big-endian 16-bit field with bytes `b0 b1`.
pub open spec fn be16_value(b0: u8, b1: u8) -> u16 {
    ((b0 as u16) << 8) | (b1 as u16)
}

/// The big-endian 16-bit field stored at `pos`.
pub open spec fn be16_at(b: Seq<u8>, pos: int) -> u16 {
    be16_value(b[pos], b[pos + 1])
}

/// The three-byte big-endian encoding of a 24-bit value.
pub open spec fn be24_bytes(n: u32) -> Seq<u8> {
    seq![(n >> 16) as u8, (n >> 8) as u8, n as u8]
}

/// The two-byte big-endian encoding of a 16-bit value.
pub open spec fn be16_bytes(n: u16) -> Seq<u8> {
    seq![(n >> 8) as u8, n as u8]
}

/// A 24-bit field always reads back below 2^24.
pub proof fn lemma_be24_bound(b0: u8, b1: u8, b2: u8)
    ensures
        be24_value(b0, b1, b2) <= 0xFFFFFF,
{
    assert(((b0 as u32) << 16) | ((b1 as u32) << 8) | (b2 as u32) <= 0xFFFFFF) by (bit_vector);
}

/// Decoding the three bytes that encode `n` gives `n` back.
pub proof fn lemma_be24_roundtrip(n: u32)
    requires
        n <= 0xFFFFFF,
    ensures
        be24_value((n >> 16) as u8, (n >> 8) as u8, n as u8) == n,
{
    assert(((((n >> 16) as u8) as u32) << 16) | ((((n >> 8) as u8) as u32) << 8) | ((n as u8) as u32)
        == n) by (bit_vector)
        requires
            n <= 0xFFFFFF,
    ;
}

/// Decoding the two bytes that encode `n` gives `n` back.
pub proof fn lemma_be16_roundtrip(n: u16)
    ensures
        be16_value((n >> 8) as u8, n as u8) == n,
{
    assert(((((n >> 8) as u8) as u16) << 8) | ((n as u8) as u16) == n) by (bit_vector);
}

/// The encoded offset of a record never spells the end marker, as long as the
/// offset value itself is not the marker value.
pub proof fn lemma_be24_not_end_marker(n: u32)
    requires
        n <= 0xFFFFFF,
        n != end_marker_value(),
    ensures
        !((n >> 16) as u8 == 0x45u8 && (n >> 8) as u8 == 0x4fu8 && n as u8 == 0x46u8),
{
    assert(!((n >> 16) as u8 == 0x45u8 && (n >> 8) as u8 == 0x4fu8 && n as u8 == 0x46u8))
        by (bit_vector)
        requires
            n <= 0xFFFFFF,
            n != 0x454f46u32,
    ;
}

/// Three bytes decode to the marker value exactly when they spell the end
/// marker.
pub proof fn lemma_end_marker_value(b0: u8, b1: u8, b2: u8)
    ensures
        (be24_value(b0, b1, b2) == end_marker_value()) <==> (b0 == 0x45u8 && b1 == 0x4fu8 && b2
            == 0x46u8),
{
    assert((((b0 as u32) << 16) | ((b1 as u32) << 8) | (b2 as u32) == 0x454f46u32) <==> (b0
        == 0x45u8 && b1 == 0x4fu8 && b2 == 0x46u8)) by (bit_vector);
}

} // verus!
