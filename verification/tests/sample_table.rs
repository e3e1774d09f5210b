//! Sample-table walker.

use cmafly::demux::moov::{ByteRange, ChunkOffsets, SampleTableLocs};
use cmafly::demux::sample_table::{
    payload_len, payload_room, read_ctts, read_payload, read_payload_into, read_stsz, walk,
    RawSampleEntry,
};
use cmafly::{PackagerError, SliceReader};

/// Compose a contiguous payload-only buffer plus a `SampleTableLocs`
/// that points into it. The buffer here is not a real MP4 - each table's
/// `ByteRange` indexes directly into the payload bytes for that table.
struct SampleTableHarness {
    bytes: Vec<u8>,
    locs: SampleTableLocs,
}

fn full_box_payload(version: u8, body: &[u8]) -> Vec<u8> {
    let mut out = Vec::with_capacity(4 + body.len());
    out.push(version);
    out.extend_from_slice(&[0, 0, 0]); // flags
    out.extend_from_slice(body);
    out
}

fn append(bytes: &mut Vec<u8>, payload: Vec<u8>) -> ByteRange {
    let offset = bytes.len() as u64;
    let len = payload.len() as u64;
    bytes.extend_from_slice(&payload);
    ByteRange { offset, len }
}

fn build_harness(
    sample_sizes: &[u32],
    stts_runs: &[(u32, u32)],
    stsc_entries: &[(u32, u32, u32)],
    chunk_offsets: ChunkOffsetsBuilder,
    stss: Option<&[u32]>,
    ctts_runs: Option<&[(u32, i32)]>,
) -> SampleTableHarness {
    let mut bytes = Vec::new();

    let mut stsz_body = Vec::new();
    stsz_body.extend_from_slice(&0u32.to_be_bytes()); // sample_size = 0
    stsz_body.extend_from_slice(&(sample_sizes.len() as u32).to_be_bytes());
    for s in sample_sizes {
        stsz_body.extend_from_slice(&s.to_be_bytes());
    }
    let stsz = append(&mut bytes, full_box_payload(0, &stsz_body));

    let mut stts_body = Vec::new();
    stts_body.extend_from_slice(&(stts_runs.len() as u32).to_be_bytes());
    for (count, delta) in stts_runs {
        stts_body.extend_from_slice(&count.to_be_bytes());
        stts_body.extend_from_slice(&delta.to_be_bytes());
    }
    let stts = append(&mut bytes, full_box_payload(0, &stts_body));

    let mut stsc_body = Vec::new();
    stsc_body.extend_from_slice(&(stsc_entries.len() as u32).to_be_bytes());
    for (fc, spc, sdi) in stsc_entries {
        stsc_body.extend_from_slice(&fc.to_be_bytes());
        stsc_body.extend_from_slice(&spc.to_be_bytes());
        stsc_body.extend_from_slice(&sdi.to_be_bytes());
    }
    let stsc = append(&mut bytes, full_box_payload(0, &stsc_body));

    let chunk_offsets = match chunk_offsets {
        ChunkOffsetsBuilder::Stco(offs) => {
            let mut body = Vec::new();
            body.extend_from_slice(&(offs.len() as u32).to_be_bytes());
            for o in &offs {
                body.extend_from_slice(&o.to_be_bytes());
            }
            let r = append(&mut bytes, full_box_payload(0, &body));
            ChunkOffsets::Stco(r)
        }
        ChunkOffsetsBuilder::Co64(offs) => {
            let mut body = Vec::new();
            body.extend_from_slice(&(offs.len() as u32).to_be_bytes());
            for o in &offs {
                body.extend_from_slice(&o.to_be_bytes());
            }
            let r = append(&mut bytes, full_box_payload(0, &body));
            ChunkOffsets::Co64(r)
        }
    };

    let stss_range = stss.map(|samples| {
        let mut body = Vec::new();
        body.extend_from_slice(&(samples.len() as u32).to_be_bytes());
        for s in samples {
            body.extend_from_slice(&s.to_be_bytes());
        }
        append(&mut bytes, full_box_payload(0, &body))
    });

    let ctts_range = ctts_runs.map(|runs| {
        let mut body = Vec::new();
        body.extend_from_slice(&(runs.len() as u32).to_be_bytes());
        for (count, off) in runs {
            body.extend_from_slice(&count.to_be_bytes());
            body.extend_from_slice(&(*off as u32).to_be_bytes());
        }
        append(&mut bytes, full_box_payload(0, &body))
    });

    SampleTableHarness {
        bytes,
        locs: SampleTableLocs {
            stts,
            stsc,
            stsz,
            chunk_offsets,
            stss: stss_range,
            ctts: ctts_range,
        },
    }
}

enum ChunkOffsetsBuilder {
    Stco(Vec<u32>),
    Co64(Vec<u64>),
}

#[test]
fn four_samples_mixed_sync() {
    let h = build_harness(
        &[10, 20, 30, 40],
        &[(4, 100)],
        &[(1, 4, 1)],
        ChunkOffsetsBuilder::Stco(vec![1000]),
        Some(&[1, 3]),
        None,
    );
    let reader = SliceReader(&h.bytes);
    let walked = walk(&reader, &h.locs).unwrap();
    assert!(!walked.stss_absent);
    let s = &walked.samples;
    assert_eq!(s.len(), 4);
    assert_eq!(
        s[0],
        RawSampleEntry {
            offset: 1000,
            size: 10,
            dts_delta: 100,
            cts_offset: 0,
            is_sync: true
        }
    );
    assert_eq!(
        s[1],
        RawSampleEntry {
            offset: 1010,
            size: 20,
            dts_delta: 100,
            cts_offset: 0,
            is_sync: false
        }
    );
    assert_eq!(
        s[2],
        RawSampleEntry {
            offset: 1030,
            size: 30,
            dts_delta: 100,
            cts_offset: 0,
            is_sync: true
        }
    );
    assert_eq!(
        s[3],
        RawSampleEntry {
            offset: 1060,
            size: 40,
            dts_delta: 100,
            cts_offset: 0,
            is_sync: false
        }
    );
}

#[test]
fn stss_absent_means_all_sync() {
    let h = build_harness(
        &[10, 10, 10, 10],
        &[(4, 100)],
        &[(1, 4, 1)],
        ChunkOffsetsBuilder::Stco(vec![1000]),
        None,
        None,
    );
    let reader = SliceReader(&h.bytes);
    let walked = walk(&reader, &h.locs).unwrap();
    assert!(walked.stss_absent);
    assert!(walked.samples.iter().all(|s| s.is_sync));
}

#[test]
fn ctts_offsets_are_applied() {
    let h = build_harness(
        &[10, 10, 10, 10],
        &[(4, 100)],
        &[(1, 4, 1)],
        ChunkOffsetsBuilder::Stco(vec![1000]),
        None,
        Some(&[(1, 0), (2, 50), (1, 0)]),
    );
    let reader = SliceReader(&h.bytes);
    let walked = walk(&reader, &h.locs).unwrap();
    let cts: Vec<i32> = walked.samples.iter().map(|s| s.cts_offset).collect();
    assert_eq!(cts, vec![0, 50, 50, 0]);
}

#[test]
fn co64_chunk_offsets_supported() {
    let h = build_harness(
        &[5, 5],
        &[(2, 33)],
        &[(1, 1, 1), (2, 1, 1)],
        ChunkOffsetsBuilder::Co64(vec![5_000_000_000, 5_000_000_010]),
        None,
        None,
    );
    let reader = SliceReader(&h.bytes);
    let walked = walk(&reader, &h.locs).unwrap();
    assert_eq!(walked.samples.len(), 2);
    assert_eq!(walked.samples[0].offset, 5_000_000_000);
    assert_eq!(walked.samples[1].offset, 5_000_000_010);
}

#[test]
fn stsc_index_out_of_range_rejected() {
    let h = build_harness(
        &[10, 10],
        &[(2, 100)],
        &[(1, 1, 1), (5, 1, 1)], // claims chunk 5 but only 2 chunks present
        ChunkOffsetsBuilder::Stco(vec![100, 200]),
        None,
        None,
    );
    let reader = SliceReader(&h.bytes);
    let err = walk(&reader, &h.locs).unwrap_err();
    assert!(matches!(err, PackagerError::SampleTableInconsistent(_)));
}

#[test]
fn stts_count_mismatch_rejected() {
    let h = build_harness(
        &[10, 10, 10, 10],
        &[(3, 100)], // covers only 3 of 4 samples
        &[(1, 4, 1)],
        ChunkOffsetsBuilder::Stco(vec![100]),
        None,
        None,
    );
    let reader = SliceReader(&h.bytes);
    let err = walk(&reader, &h.locs).unwrap_err();
    assert!(matches!(err, PackagerError::SampleTableInconsistent(_)));
}

fn raw_ctts(version: u8, entries: &[(u32, u32)]) -> (Vec<u8>, ByteRange) {
    let mut bytes = Vec::new();
    let mut body = Vec::new();
    body.extend_from_slice(&(entries.len() as u32).to_be_bytes());
    for (count, off_bits) in entries {
        body.extend_from_slice(&count.to_be_bytes());
        body.extend_from_slice(&off_bits.to_be_bytes());
    }
    let range = append(&mut bytes, full_box_payload(version, &body));
    (bytes, range)
}

#[test]
fn ctts_v1_negative_offsets_preserved() {
    let raw = (-7i32) as u32;
    let (bytes, range) = raw_ctts(1, &[(2, raw)]);
    let reader = SliceReader(&bytes);
    assert_eq!(read_ctts(&reader, range).unwrap(), vec![(2, -7)]);
}

#[test]
fn ctts_v0_offset_above_i32_max_rejected() {
    let (bytes, range) = raw_ctts(0, &[(1, 0x8000_0000)]);
    let reader = SliceReader(&bytes);
    let err = read_ctts(&reader, range).unwrap_err();
    assert!(matches!(
        err,
        PackagerError::MalformedAtom { atom: "ctts", .. }
    ));
}

#[test]
fn ctts_unsupported_version_rejected() {
    let (bytes, range) = raw_ctts(2, &[]);
    let reader = SliceReader(&bytes);
    let err = read_ctts(&reader, range).unwrap_err();
    assert!(matches!(
        err,
        PackagerError::MalformedAtom { atom: "ctts", .. }
    ));
}

#[test]
fn stsc_first_chunk_one_past_chunk_count_rejected() {
    // chunk_count = 2, but stsc[1].first_chunk = 3 - entry covers no chunk.
    let h = build_harness(
        &[10, 10],
        &[(2, 100)],
        &[(1, 1, 1), (3, 1, 1)],
        ChunkOffsetsBuilder::Stco(vec![100, 200]),
        None,
        None,
    );
    let reader = SliceReader(&h.bytes);
    let err = walk(&reader, &h.locs).unwrap_err();
    assert!(matches!(err, PackagerError::SampleTableInconsistent(_)));
}

#[test]
fn stsc_sample_description_index_must_be_one() {
    let h = build_harness(
        &[10],
        &[(1, 100)],
        &[(1, 1, 2)],
        ChunkOffsetsBuilder::Stco(vec![100]),
        None,
        None,
    );
    let reader = SliceReader(&h.bytes);
    let err = walk(&reader, &h.locs).unwrap_err();
    assert!(matches!(
        err,
        PackagerError::MalformedAtom { atom: "stsc", .. }
    ));
}

#[test]
fn stsz_constant_size_with_trailing_bytes_rejected() {
    // sample_size != 0 must mean "no per-sample table follows."
    let mut bytes = Vec::new();
    let mut body = Vec::new();
    body.extend_from_slice(&7u32.to_be_bytes()); // sample_size
    body.extend_from_slice(&3u32.to_be_bytes()); // sample_count
    body.extend_from_slice(&[0u8; 12]); // illegal trailing per-sample data
    let range = append(&mut bytes, full_box_payload(0, &body));
    let reader = SliceReader(&bytes);
    let err = read_stsz(&reader, range).unwrap_err();
    assert!(matches!(
        err,
        PackagerError::MalformedAtom { atom: "stsz", .. }
    ));
}

#[test]
fn payload_lengths_are_checked_before_memory_is_asked_for() {
    let range = |len: u64| ByteRange { offset: 1, len };
    assert_eq!(payload_len(range(8), 8).unwrap(), 8);
    assert_eq!(payload_len(range(9), 8).unwrap(), 9);
    let bytes = [0u8; 4];
    for err in [
        payload_len(range(7), 8).unwrap_err(),
        read_payload(&SliceReader(&bytes), range(7), 8).unwrap_err(),
        read_payload_into(&SliceReader(&bytes), range(7), 8, None).unwrap_err(),
    ] {
        assert!(matches!(
            err,
            PackagerError::MalformedAtom {
                atom: "<sample-table>",
                reason: "payload shorter than minimum full-box header"
            }
        ));
    }
}

#[test]
fn refused_memory_is_reported() {
    assert_eq!(payload_room(Vec::new(), 3, true), Some(vec![0, 0, 0]));
    assert_eq!(payload_room(Vec::new(), 3, false), None);
    let bytes = [1u8, 2, 3, 4];
    let range = ByteRange { offset: 1, len: 2 };
    let reader = SliceReader(&bytes);
    assert_eq!(read_payload(&reader, range, 1).unwrap(), vec![2, 3]);
    assert_eq!(
        read_payload_into(&reader, range, 1, payload_room(Vec::new(), 2, true)).unwrap(),
        vec![2, 3]
    );
    assert!(matches!(
        read_payload_into(&reader, range, 1, None),
        Err(PackagerError::MalformedAtom {
            atom: "<sample-table>",
            reason: "sample-table payload too large to allocate"
        })
    ));
    // More than any machine can hold.
    let huge = ByteRange { offset: 0, len: u64::MAX };
    assert!(matches!(
        read_payload(&reader, huge, 8),
        Err(PackagerError::MalformedAtom { atom: "<sample-table>", .. })
    ));
}
