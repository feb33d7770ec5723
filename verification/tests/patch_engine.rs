//! End-to-end tests of the patch engine: parsing, framing, applying, and the
//! synthetic one-hunk builder, on concrete byte buffers.

use binpatch::apply::apply;
use binpatch::encode::encode;
use binpatch::parse::{parse, FormatError};
use binpatch::patch::{Hunk, Patch};

/// A well-formed buffer: magic, one literal record, one run-length record,
/// end marker.
fn sample_buffer() -> Vec<u8> {
    let mut b: Vec<u8> = Vec::new();
    b.extend_from_slice(b"PATCH");
    // literal hunk: offset 10, payload [0xAA, 0xBB]
    b.extend_from_slice(&[0x00, 0x00, 0x0A, 0x00, 0x02, 0xAA, 0xBB]);
    // run-length hunk: offset 500, length 0, count 3, fill 0x11
    b.extend_from_slice(&[0x00, 0x01, 0xF4, 0x00, 0x00, 0x00, 0x03, 0x11]);
    b.extend_from_slice(b"EOF");
    b
}

#[test]
fn parses_hunks_in_stream_order() {
    let p = parse(&sample_buffer()).unwrap();
    assert_eq!(p.hunk_count(), 2);
    assert_eq!(p.hunk(0).offset(), 10);
    assert_eq!(p.hunk(0).payload(), &vec![0xAA, 0xBB]);
    assert_eq!(p.hunk(1).offset(), 500);
    assert_eq!(p.hunk(1).payload(), &vec![0x11, 0x11, 0x11]);
}

#[test]
fn run_length_hunk_expands_to_fill_bytes() {
    let mut b: Vec<u8> = Vec::new();
    b.extend_from_slice(b"PATCH");
    // length 0, count 4, fill 0xFF at offset 7
    b.extend_from_slice(&[0x00, 0x00, 0x07, 0x00, 0x00, 0x00, 0x04, 0xFF]);
    b.extend_from_slice(b"EOF");
    let p = parse(&b).unwrap();
    assert_eq!(p.hunk_count(), 1);
    assert_eq!(p.hunk(0).offset(), 7);
    assert_eq!(p.hunk(0).payload(), &vec![0xFF, 0xFF, 0xFF, 0xFF]);

    // applying it overwrites exactly four consecutive bytes
    let mut target = vec![0u8; 20];
    apply(&mut target, &p).unwrap();
    for (i, &byte) in target.iter().enumerate() {
        if (7..11).contains(&i) {
            assert_eq!(byte, 0xFF);
        } else {
            assert_eq!(byte, 0x00);
        }
    }
}

#[test]
fn end_to_end_two_hunk_patch() {
    let mut target = vec![0u8; 1000];
    let p = parse(&sample_buffer()).unwrap();
    apply(&mut target, &p).unwrap();
    assert_eq!(target.len(), 1000);
    for (i, &byte) in target.iter().enumerate() {
        match i {
            10 => assert_eq!(byte, 0xAA),
            11 => assert_eq!(byte, 0xBB),
            500..=502 => assert_eq!(byte, 0x11),
            _ => assert_eq!(byte, 0x00),
        }
    }
}

#[test]
fn round_trip_encode_then_parse() {
    let p = parse(&sample_buffer()).unwrap();
    let framed = encode(&p);
    let q = parse(&framed).unwrap();
    assert_eq!(q.hunk_count(), p.hunk_count());
    for i in 0..q.hunk_count() {
        assert_eq!(q.hunk(i).offset(), p.hunk(i).offset());
        assert_eq!(q.hunk(i).payload(), p.hunk(i).payload());
    }
}

#[test]
fn round_trip_of_built_hunks() {
    let h1 = Hunk::new(0x000000, vec![0x01]);
    let h2 = Hunk::new(0xFFFFFF, vec![0xFE; 0xFFFF]);
    let p = Patch::from_hunks(vec![h1, h2]);
    let q = parse(&encode(&p)).unwrap();
    assert_eq!(q.hunk_count(), 2);
    assert_eq!(q.hunk(0).offset(), 0x000000);
    assert_eq!(q.hunk(0).payload(), &vec![0x01]);
    assert_eq!(q.hunk(1).offset(), 0xFFFFFF);
    assert_eq!(q.hunk(1).payload(), &vec![0xFE; 0xFFFF]);
}

#[test]
fn reapplication_to_identical_copy_is_identical() {
    let p = parse(&sample_buffer()).unwrap();
    let original = vec![0x5Au8; 600];
    let mut first = original.clone();
    let mut second = original.clone();
    apply(&mut first, &p).unwrap();
    apply(&mut second, &p).unwrap();
    assert_eq!(first, second);
}

#[test]
fn disjoint_hunks_leave_other_bytes_unchanged() {
    let p = parse(&sample_buffer()).unwrap();
    let original: Vec<u8> = (0..600u32).map(|i| (i % 251) as u8).collect();
    let mut patched = original.clone();
    apply(&mut patched, &p).unwrap();
    for i in 0..600usize {
        let in_hunk = (10..12).contains(&i) || (500..503).contains(&i);
        if !in_hunk {
            assert_eq!(patched[i], original[i]);
        }
    }
}

#[test]
fn overlapping_hunks_later_wins() {
    let mut b: Vec<u8> = Vec::new();
    b.extend_from_slice(b"PATCH");
    // first hunk: offset 4, payload [0x01, 0x02, 0x03]
    b.extend_from_slice(&[0x00, 0x00, 0x04, 0x00, 0x03, 0x01, 0x02, 0x03]);
    // second hunk: offset 5, payload [0x09, 0x08]
    b.extend_from_slice(&[0x00, 0x00, 0x05, 0x00, 0x02, 0x09, 0x08]);
    b.extend_from_slice(b"EOF");
    let p = parse(&b).unwrap();
    let mut target = vec![0u8; 10];
    apply(&mut target, &p).unwrap();
    assert_eq!(target, vec![0, 0, 0, 0, 0x01, 0x09, 0x08, 0, 0, 0]);
}

#[test]
fn truncation_at_every_boundary_is_rejected() {
    let b = sample_buffer();
    for k in 0..b.len() {
        let prefix = b[..k].to_vec();
        assert!(parse(&prefix).is_err(), "prefix of {} bytes parsed", k);
    }
}

#[test]
fn rejects_missing_or_wrong_magic() {
    assert_eq!(parse(&Vec::new()).unwrap_err(), FormatError::BadMagic);
    assert_eq!(parse(&b"PAT".to_vec()).unwrap_err(), FormatError::BadMagic);
    let mut b = sample_buffer();
    b[0] = 0x51;
    assert_eq!(parse(&b).unwrap_err(), FormatError::BadMagic);
}

#[test]
fn rejects_buffer_without_end_marker() {
    // magic and one whole literal record, but no end marker
    let mut b: Vec<u8> = Vec::new();
    b.extend_from_slice(b"PATCH");
    b.extend_from_slice(&[0x00, 0x00, 0x0A, 0x00, 0x02, 0xAA, 0xBB]);
    assert_eq!(parse(&b).unwrap_err(), FormatError::UnexpectedEnd { pos: 12 });
}

#[test]
fn rejects_cut_payload() {
    let mut b: Vec<u8> = Vec::new();
    b.extend_from_slice(b"PATCH");
    // declares two payload bytes, carries one
    b.extend_from_slice(&[0x00, 0x00, 0x0A, 0x00, 0x02, 0xAA]);
    assert_eq!(parse(&b).unwrap_err(), FormatError::UnexpectedEnd { pos: 5 });
}

#[test]
fn rejects_zero_length_run() {
    let mut b: Vec<u8> = Vec::new();
    b.extend_from_slice(b"PATCH");
    // run-length record with repeat count zero
    b.extend_from_slice(&[0x00, 0x00, 0x0A, 0x00, 0x00, 0x00, 0x00, 0xFF]);
    b.extend_from_slice(b"EOF");
    assert_eq!(parse(&b).unwrap_err(), FormatError::EmptyRun { pos: 5 });
}

#[test]
fn rejects_bytes_after_end_marker() {
    let mut b = sample_buffer();
    let pos = b.len();
    b.push(0x00);
    assert_eq!(parse(&b).unwrap_err(), FormatError::TrailingData { pos });
}

#[test]
fn apply_stops_at_first_hunk_past_the_end() {
    let p = parse(&sample_buffer()).unwrap();
    // room for the first hunk only: the second writes [500, 503)
    let mut target = vec![0u8; 100];
    let e = apply(&mut target, &p).unwrap_err();
    assert_eq!(e.hunk_index, 1);
    assert_eq!(e.offset, 500);
    assert_eq!(e.payload_len, 3);
    assert_eq!(e.target_len, 100);
    // the first hunk stays applied, the length is unchanged
    assert_eq!(target.len(), 100);
    assert_eq!(target[10], 0xAA);
    assert_eq!(target[11], 0xBB);
}

#[test]
fn builder_places_stored_parameter_byte() {
    let tag = [0x59, 0x47, 0x4F, 0x21];
    let trailer = [0x00, 0x00];
    // validated input 5 is stored as 6
    let p = Patch::build(tag, 0x17E400, 5, trailer);
    assert_eq!(p.hunk_count(), 1);
    assert_eq!(p.hunk(0).offset(), 0x17E400);
    assert_eq!(p.hunk(0).payload(), &vec![0x06]);

    let mut target = vec![0u8; 0x17E401];
    target[0x17E400] = 0x05;
    apply(&mut target, &p).unwrap();
    for (i, &byte) in target.iter().enumerate() {
        if i == 0x17E400 {
            assert_eq!(byte, 0x06);
        } else {
            assert_eq!(byte, 0x00);
        }
    }
}

#[test]
fn built_patch_round_trips_through_the_parser() {
    let p = Patch::build([0x59, 0x47, 0x4F, 0x21], 0x17E400, 5, [0x00, 0x00]);
    let q = parse(&encode(&p)).unwrap();
    assert_eq!(q.hunk_count(), 1);
    assert_eq!(q.hunk(0).offset(), 0x17E400);
    assert_eq!(q.hunk(0).payload(), &vec![0x06]);
}

#[test]
fn empty_patch_applies_to_nothing() {
    let mut b: Vec<u8> = Vec::new();
    b.extend_from_slice(b"PATCH");
    b.extend_from_slice(b"EOF");
    let p = parse(&b).unwrap();
    assert_eq!(p.hunk_count(), 0);
    let original = vec![0x42u8; 16];
    let mut target = original.clone();
    apply(&mut target, &p).unwrap();
    assert_eq!(target, original);
}
