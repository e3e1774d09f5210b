//! Media-segment writer.

use byteorder::{BigEndian, ByteOrder};
use cmafly::demux::reader::{BoxHeader, BoxIter};
use cmafly::fmp4::media::{
    TRUN_FLAG_FIRST_SAMPLE_FLAGS, TRUN_FLAG_SAMPLE_CTS_OFFSET, VIDEO_FIRST_SAMPLE_FLAGS_SYNC,
};
use cmafly::fmp4::write_media_segment;
use cmafly::{
    AudioTrackMeta, IndexView, PackagerError, SampleEntry, SegmentEntry, SliceReader,
    VideoTrackMeta,
};

fn fcc(name: &[u8; 4]) -> u32 {
    u32::from_be_bytes(*name)
}

fn vsample(offset: u64, size: u32, dts_delta: u32, cts_offset: i32, sync: bool) -> SampleEntry {
    SampleEntry {
        offset,
        size,
        dts_delta,
        cts_offset,
        flags: if sync { 1 } else { 0 },
    }
}

fn asample(offset: u64, size: u32, dts_delta: u32) -> SampleEntry {
    SampleEntry {
        offset,
        size,
        dts_delta,
        cts_offset: 0,
        flags: 1,
    }
}

/// Two-segment fixture: 4 video samples (sync at 0 and 2), 4 audio samples,
/// segment 0 = first half, segment 1 = second half.
struct Fixture {
    source: Vec<u8>,
    video_samples: Vec<SampleEntry>,
    audio_samples: Vec<SampleEntry>,
    segments: Vec<SegmentEntry>,
}

impl Fixture {
    fn build(video_has_ctts: bool) -> Self {
        // Source layout: [v0 v1 v2 v3 a0 a1 a2 a3] each 4 bytes.
        let mut source = Vec::new();
        for tag in [b"VID0", b"VID1", b"VID2", b"VID3"] {
            source.extend_from_slice(tag);
        }
        for tag in [b"AUD0", b"AUD1", b"AUD2", b"AUD3"] {
            source.extend_from_slice(tag);
        }
        let video = vec![
            vsample(0, 4, 100, if video_has_ctts { 50 } else { 0 }, true),
            vsample(4, 4, 100, if video_has_ctts { -10 } else { 0 }, false),
            vsample(8, 4, 100, if video_has_ctts { 20 } else { 0 }, true),
            // Last sample's `cts_offset` is 0 in either fixture; a non-zero
            // earlier sample is enough to flip the track-level `has_ctts`.
            vsample(12, 4, 100, 0, false),
        ];
        let audio = vec![
            asample(16, 4, 50),
            asample(20, 4, 50),
            asample(24, 4, 50),
            asample(28, 4, 50),
        ];
        let segments = vec![
            SegmentEntry {
                video_sample_start: 0,
                video_sample_count: 2,
                audio_sample_start: 0,
                audio_sample_count: 2,
                video_base_dts: 0,
                audio_base_dts: 0,
            },
            SegmentEntry {
                video_sample_start: 2,
                video_sample_count: 2,
                audio_sample_start: 2,
                audio_sample_count: 2,
                video_base_dts: 200,
                audio_base_dts: 100,
            },
        ];
        Self {
            source,
            video_samples: video,
            audio_samples: audio,
            segments,
        }
    }
}

fn fake_avc1() -> Vec<u8> {
    // Minimal avc1 byte-blob; the writer copies it verbatim and never
    // parses the payload, so the contents only need a valid box header.
    let mut bx = vec![0u8; 16];
    BigEndian::write_u32(&mut bx[..4], 16);
    bx[4..8].copy_from_slice(b"avc1");
    bx
}

fn fake_mp4a() -> Vec<u8> {
    let mut bx = vec![0u8; 16];
    BigEndian::write_u32(&mut bx[..4], 16);
    bx[4..8].copy_from_slice(b"mp4a");
    bx
}

fn build_view<'a>(
    fixture: &'a Fixture,
    avc1: &'a [u8],
    mp4a: &'a [u8],
    blake3: &'a [u8; 32],
) -> IndexView<'a> {
    let video_meta = VideoTrackMeta {
        timescale: 90_000,
        fourcc: *b"avc1",
        width: 1920,
        height: 1080,
        sample_entry: avc1,
        elst: &[],
    };
    let audio_meta = AudioTrackMeta {
        timescale: 48_000,
        fourcc: *b"mp4a",
        sample_rate: 48_000,
        channel_count: 2,
        sample_entry: mp4a,
        elst: &[],
    };
    IndexView::from_parts(
        64,
        fixture.source.len() as u64,
        *blake3,
        video_meta,
        audio_meta,
        fixture.video_samples.clone(),
        fixture.audio_samples.clone(),
        fixture.segments.clone(),
        &[],
        None,
    )
}

#[test]
fn top_level_is_styp_then_moof_then_mdat() {
    let f = Fixture::build(false);
    let avc1 = fake_avc1();
    let mp4a = fake_mp4a();
    let blake3 = [0u8; 32];
    let view = build_view(&f, &avc1, &mp4a, &blake3);
    let src = SliceReader(&f.source);

    let mut out: Vec<u8> = Vec::new();
    write_media_segment(&view, 0, &src, &mut out).expect("write");

    let reader = SliceReader(&out);
    let mut iter = BoxIter::new(&reader, 0, out.len() as u64);
    let styp = iter.next_header().unwrap().unwrap();
    let moof = iter.next_header().unwrap().unwrap();
    let mdat = iter.next_header().unwrap().unwrap();
    assert_eq!(styp.box_type, fcc(b"styp"));
    assert_eq!(moof.box_type, fcc(b"moof"));
    assert_eq!(mdat.box_type, fcc(b"mdat"));
    assert!(iter.next_header().unwrap().is_none());
}

#[test]
fn styp_carries_msdh_major_and_compatible_brands() {
    let f = Fixture::build(false);
    let avc1 = fake_avc1();
    let mp4a = fake_mp4a();
    let blake3 = [0u8; 32];
    let view = build_view(&f, &avc1, &mp4a, &blake3);
    let src = SliceReader(&f.source);

    let mut out: Vec<u8> = Vec::new();
    write_media_segment(&view, 0, &src, &mut out).expect("write");

    // styp: size + 'styp' + 'msdh' + minor + ['msdh','cmfc'] = 24 B
    assert_eq!(BigEndian::read_u32(&out[0..4]), 24);
    assert_eq!(&out[4..8], b"styp");
    assert_eq!(&out[8..12], b"msdh");
    assert_eq!(BigEndian::read_u32(&out[12..16]), 0);
    assert_eq!(&out[16..20], b"msdh");
    assert_eq!(&out[20..24], b"cmfc");
}

#[test]
fn moof_contains_mfhd_and_two_traf() {
    let f = Fixture::build(false);
    let avc1 = fake_avc1();
    let mp4a = fake_mp4a();
    let blake3 = [0u8; 32];
    let view = build_view(&f, &avc1, &mp4a, &blake3);
    let src = SliceReader(&f.source);

    let mut out: Vec<u8> = Vec::new();
    write_media_segment(&view, 1, &src, &mut out).expect("write");

    let reader = SliceReader(&out);
    let mut top = BoxIter::new(&reader, 0, out.len() as u64);
    let _styp = top.next_header().unwrap().unwrap();
    let moof = top.next_header().unwrap().unwrap();
    let mut child = BoxIter::new(&reader, moof.payload_offset, moof.end());
    let names: Vec<u32> = std::iter::from_fn(|| child.next_header().unwrap())
        .map(|h| h.box_type)
        .collect();
    assert_eq!(names, vec![fcc(b"mfhd"), fcc(b"traf"), fcc(b"traf")]);
}

#[test]
fn mfhd_sequence_number_is_segment_idx_plus_one() {
    let f = Fixture::build(false);
    let avc1 = fake_avc1();
    let mp4a = fake_mp4a();
    let blake3 = [0u8; 32];
    let view = build_view(&f, &avc1, &mp4a, &blake3);
    let src = SliceReader(&f.source);

    for (idx, expected) in [(0u32, 1u32), (1, 2)] {
        let mut out: Vec<u8> = Vec::new();
        write_media_segment(&view, idx, &src, &mut out).expect("write");
        let mfhd_box = locate_descendant(&out, &[*b"moof", *b"mfhd"]);
        // mfhd payload: 4 (ver+flags) + 4 (sequence_number)
        let p = mfhd_box.payload_offset as usize;
        assert_eq!(BigEndian::read_u32(&out[p + 4..p + 8]), expected);
    }
}

#[test]
fn tfdt_carries_per_track_base_media_decode_time() {
    let f = Fixture::build(false);
    let avc1 = fake_avc1();
    let mp4a = fake_mp4a();
    let blake3 = [0u8; 32];
    let view = build_view(&f, &avc1, &mp4a, &blake3);
    let src = SliceReader(&f.source);

    let mut out: Vec<u8> = Vec::new();
    write_media_segment(&view, 1, &src, &mut out).expect("write");

    // Locate both `traf`s, then their `tfdt`s.
    let trafs = collect_trafs(&out);
    assert_eq!(trafs.len(), 2);
    let video_tfdt = locate_child(&out, &trafs[0], *b"tfdt");
    let p = video_tfdt.payload_offset as usize;
    assert_eq!(BigEndian::read_u64(&out[p + 4..p + 12]), 200);

    let audio_tfdt = locate_child(&out, &trafs[1], *b"tfdt");
    let p = audio_tfdt.payload_offset as usize;
    assert_eq!(BigEndian::read_u64(&out[p + 4..p + 12]), 100);
}

#[test]
fn mdat_payload_concatenates_video_then_audio_samples() {
    let f = Fixture::build(false);
    let avc1 = fake_avc1();
    let mp4a = fake_mp4a();
    let blake3 = [0u8; 32];
    let view = build_view(&f, &avc1, &mp4a, &blake3);
    let src = SliceReader(&f.source);

    let mut out: Vec<u8> = Vec::new();
    write_media_segment(&view, 0, &src, &mut out).expect("write");

    let mdat = locate_top(&out, *b"mdat");
    let p = mdat.payload_offset as usize;
    // Segment 0 = video[0..2] + audio[0..2] = "VID0VID1AUD0AUD1"
    assert_eq!(&out[p..p + 16], b"VID0VID1AUD0AUD1");
}

#[test]
fn trun_data_offsets_point_into_mdat_payload() {
    let f = Fixture::build(false);
    let avc1 = fake_avc1();
    let mp4a = fake_mp4a();
    let blake3 = [0u8; 32];
    let view = build_view(&f, &avc1, &mp4a, &blake3);
    let src = SliceReader(&f.source);

    let mut out: Vec<u8> = Vec::new();
    write_media_segment(&view, 0, &src, &mut out).expect("write");

    let moof = locate_top(&out, *b"moof");
    let mdat = locate_top(&out, *b"mdat");
    let mdat_payload_abs = mdat.payload_offset;

    let trafs = collect_trafs(&out);
    let video_trun = locate_child(&out, &trafs[0], *b"trun");
    let audio_trun = locate_child(&out, &trafs[1], *b"trun");

    let video_data_offset =
        read_trun_data_offset(&out, &video_trun, /* has_first_flags: */ true);
    let audio_data_offset =
        read_trun_data_offset(&out, &audio_trun, /* has_first_flags: */ false);

    let video_video_payload_bytes = 8u64; // 2 video samples x 4 bytes
    assert_eq!(
        video_data_offset as i64,
        (mdat_payload_abs - moof.start) as i64,
    );
    assert_eq!(
        audio_data_offset as i64,
        (mdat_payload_abs + video_video_payload_bytes - moof.start) as i64,
    );

    // Sanity: feeding the offsets back into a slice from `moof` start
    // should reproduce the segment's expected sample bytes.
    let video_slice_start = (moof.start as i64 + video_data_offset as i64) as usize;
    let audio_slice_start = (moof.start as i64 + audio_data_offset as i64) as usize;
    assert_eq!(&out[video_slice_start..video_slice_start + 8], b"VID0VID1");
    assert_eq!(&out[audio_slice_start..audio_slice_start + 8], b"AUD0AUD1");
}

#[test]
fn video_trun_omits_cts_offset_when_track_has_no_ctts() {
    let f = Fixture::build(/* video_has_ctts: */ false);
    let avc1 = fake_avc1();
    let mp4a = fake_mp4a();
    let blake3 = [0u8; 32];
    let view = build_view(&f, &avc1, &mp4a, &blake3);
    let src = SliceReader(&f.source);

    let mut out: Vec<u8> = Vec::new();
    write_media_segment(&view, 0, &src, &mut out).expect("write");

    let trafs = collect_trafs(&out);
    let video_trun = locate_child(&out, &trafs[0], *b"trun");
    let p = video_trun.payload_offset as usize;
    let version = out[p];
    let flags = BigEndian::read_u32(&out[p..p + 4]) & 0x00FF_FFFF;
    assert_eq!(version, 0);
    assert_eq!(flags & TRUN_FLAG_SAMPLE_CTS_OFFSET, 0);
}

#[test]
fn video_trun_includes_cts_offset_when_track_has_ctts() {
    let f = Fixture::build(/* video_has_ctts: */ true);
    let avc1 = fake_avc1();
    let mp4a = fake_mp4a();
    let blake3 = [0u8; 32];
    let view = build_view(&f, &avc1, &mp4a, &blake3);
    let src = SliceReader(&f.source);

    let mut out: Vec<u8> = Vec::new();
    write_media_segment(&view, 0, &src, &mut out).expect("write");

    let trafs = collect_trafs(&out);
    let video_trun = locate_child(&out, &trafs[0], *b"trun");
    let p = video_trun.payload_offset as usize;
    let version = out[p];
    let flags = BigEndian::read_u32(&out[p..p + 4]) & 0x00FF_FFFF;
    assert_eq!(
        version, 1,
        "version 1 -> signed sample_composition_time_offset"
    );
    assert!(flags & TRUN_FLAG_SAMPLE_CTS_OFFSET != 0);

    // sample_count
    let sc_pos = p + 4;
    assert_eq!(BigEndian::read_u32(&out[sc_pos..sc_pos + 4]), 2);
    // skip data_offset(4) + first_sample_flags(4) -> first sample row.
    let first_row = sc_pos + 4 + 4 + 4;
    // Each row: duration(4) + size(4) + cts_offset(4 signed)
    let cts0 = BigEndian::read_i32(&out[first_row + 8..first_row + 12]);
    assert_eq!(cts0, 50);
    let cts1 = BigEndian::read_i32(&out[first_row + 12 + 8..first_row + 12 + 12]);
    assert_eq!(cts1, -10);
}

#[test]
fn video_trun_first_sample_flags_mark_idr_as_sync() {
    let f = Fixture::build(false);
    let avc1 = fake_avc1();
    let mp4a = fake_mp4a();
    let blake3 = [0u8; 32];
    let view = build_view(&f, &avc1, &mp4a, &blake3);
    let src = SliceReader(&f.source);

    let mut out: Vec<u8> = Vec::new();
    write_media_segment(&view, 0, &src, &mut out).expect("write");

    let trafs = collect_trafs(&out);
    let video_trun = locate_child(&out, &trafs[0], *b"trun");
    let p = video_trun.payload_offset as usize;
    // first_sample_flags lives after ver+flags(4) + sample_count(4) +
    // data_offset(4) (always present in our flag set).
    let first_flags = BigEndian::read_u32(&out[p + 12..p + 16]);
    assert_eq!(first_flags, VIDEO_FIRST_SAMPLE_FLAGS_SYNC);
}

#[test]
fn audio_trun_omits_first_sample_flags() {
    let f = Fixture::build(false);
    let avc1 = fake_avc1();
    let mp4a = fake_mp4a();
    let blake3 = [0u8; 32];
    let view = build_view(&f, &avc1, &mp4a, &blake3);
    let src = SliceReader(&f.source);

    let mut out: Vec<u8> = Vec::new();
    write_media_segment(&view, 0, &src, &mut out).expect("write");

    let trafs = collect_trafs(&out);
    let audio_trun = locate_child(&out, &trafs[1], *b"trun");
    let p = audio_trun.payload_offset as usize;
    let flags = BigEndian::read_u32(&out[p..p + 4]) & 0x00FF_FFFF;
    assert_eq!(flags & TRUN_FLAG_FIRST_SAMPLE_FLAGS, 0);
}

#[test]
fn out_of_range_segment_idx_returns_typed_error() {
    let f = Fixture::build(false);
    let avc1 = fake_avc1();
    let mp4a = fake_mp4a();
    let blake3 = [0u8; 32];
    let view = build_view(&f, &avc1, &mp4a, &blake3);
    let src = SliceReader(&f.source);

    let mut out: Vec<u8> = Vec::new();
    let err = write_media_segment(&view, 99, &src, &mut out).unwrap_err();
    match err {
        PackagerError::SegmentIndexOutOfRange { idx, count } => {
            assert_eq!(idx, 99);
            assert_eq!(count, 2);
        }
        other => panic!("expected SegmentIndexOutOfRange, got {other:?}"),
    }
}

#[test]
fn writes_both_segments_without_panicking_box_size_invariant() {
    // Each emitted box runs the always-on size assertion in
    // `BoxWriter::finish` / `finish_expecting`. Walking both segments
    // exercises every box site in the writer; reaching this assertion
    // proves no invariant fired.
    let f = Fixture::build(true);
    let avc1 = fake_avc1();
    let mp4a = fake_mp4a();
    let blake3 = [0u8; 32];
    let view = build_view(&f, &avc1, &mp4a, &blake3);
    let src = SliceReader(&f.source);

    for idx in 0..view.segment_count() {
        let mut out: Vec<u8> = Vec::new();
        write_media_segment(&view, idx, &src, &mut out).expect("write");
        assert!(out.len() > 24, "segment {idx} should contain payload");
    }
}

fn locate_top(buf: &[u8], target: [u8; 4]) -> BoxHeader {
    let reader = SliceReader(buf);
    let mut iter = BoxIter::new(&reader, 0, buf.len() as u64);
    while let Some(h) = iter.next_header().unwrap() {
        if h.box_type == fcc(&target) {
            return h;
        }
    }
    panic!("top-level {target:?} missing");
}

fn locate_child(
    buf: &[u8],
    parent: &BoxHeader,
    target: [u8; 4],
) -> BoxHeader {
    let reader = SliceReader(buf);
    let mut iter = BoxIter::new(&reader, parent.payload_offset, parent.end());
    while let Some(h) = iter.next_header().unwrap() {
        if h.box_type == fcc(&target) {
            return h;
        }
    }
    panic!("child {target:?} missing in {:?}", parent.box_type);
}

fn locate_descendant(buf: &[u8], path: &[[u8; 4]]) -> BoxHeader {
    let mut current = locate_top(buf, path[0]);
    for &kind in &path[1..] {
        current = locate_child(buf, &current, kind);
    }
    current
}

fn collect_trafs(buf: &[u8]) -> Vec<BoxHeader> {
    let moof = locate_top(buf, *b"moof");
    let reader = SliceReader(buf);
    let mut iter = BoxIter::new(&reader, moof.payload_offset, moof.end());
    let mut out = Vec::new();
    while let Some(h) = iter.next_header().unwrap() {
        if h.box_type == fcc(b"traf") {
            out.push(h);
        }
    }
    out
}

fn read_trun_data_offset(
    buf: &[u8],
    trun: &BoxHeader,
    has_first_flags: bool,
) -> i32 {
    // trun: ver+flags(4) + sample_count(4) + data_offset(4) [+ first_sample_flags(4)]
    let p = trun.payload_offset as usize;
    let _ = has_first_flags;
    BigEndian::read_i32(&buf[p + 8..p + 12])
}
