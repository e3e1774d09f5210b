//! Init-segment writer.

use byteorder::{BigEndian, ByteOrder};
use cmafly::demux::reader::{BoxHeader, BoxIter};
use cmafly::fmp4::init::{
    AUDIO_DEFAULT_SAMPLE_FLAGS, AUDIO_TRACK_ID, MOVIE_TIMESCALE, NEXT_TRACK_ID,
    VIDEO_DEFAULT_SAMPLE_FLAGS, VIDEO_TRACK_ID,
};
use cmafly::fmp4::write_init_segment;
use cmafly::{
    AudioTrackMeta, IndexView, SampleEntry, SegmentEntry, SliceReader, VideoTrackMeta,
};

fn fcc(name: &[u8; 4]) -> u32 {
    u32::from_be_bytes(*name)
}

/// Construct a minimal AVC1 visual sample-entry box. Layout follows
/// ISO/IEC 14496-12 VisualSampleEntry: 8 B SampleEntry header + 70 B
/// VisualSampleEntry fixed prefix + an `avcC` child. The exact bytes
/// don't matter for the writer - we only verify they survive
/// verbatim from `IndexView::video_track().sample_entry`.
/// Wrap `payload` in `[size:u32 BE | fourcc:4 | payload...]` and patch the
/// size header.
fn make_box(fourcc: &[u8; 4], payload: &[u8]) -> Vec<u8> {
    let mut bx = Vec::with_capacity(8 + payload.len());
    bx.extend_from_slice(&[0u8; 8]);
    bx.extend_from_slice(payload);
    let size = bx.len() as u32;
    BigEndian::write_u32(&mut bx[..4], size);
    bx[4..8].copy_from_slice(fourcc);
    bx
}

fn fake_avc1() -> Vec<u8> {
    let avcc = make_box(
        b"avcC",
        &[0x01, 0x42, 0xC0, 0x1E, 0xFF, 0xE1, 0x00, 0x00, 0x01, 0x00],
    );
    let mut payload = Vec::new();
    payload.extend_from_slice(&[0u8; 6]); // SampleEntry reserved
    payload.extend_from_slice(&[0x00, 0x01]); // data_reference_index
    payload.extend_from_slice(&[0u8; 16]); // pre_defined / reserved
    payload.extend_from_slice(&[0x07, 0x80]); // width = 1920
    payload.extend_from_slice(&[0x04, 0x38]); // height = 1080
    payload.extend_from_slice(&[0x00, 0x48, 0x00, 0x00]); // h-resolution
    payload.extend_from_slice(&[0x00, 0x48, 0x00, 0x00]); // v-resolution
    payload.extend_from_slice(&[0u8; 4]); // reserved
    payload.extend_from_slice(&[0x00, 0x01]); // frame_count
    payload.extend_from_slice(&[0u8; 32]); // compressorname
    payload.extend_from_slice(&[0x00, 0x18]); // depth = 24
    payload.extend_from_slice(&[0xFF, 0xFF]); // pre_defined
    payload.extend_from_slice(&avcc);
    make_box(b"avc1", &payload)
}

fn fake_mp4a() -> Vec<u8> {
    let esds = {
        let mut p = Vec::new();
        p.extend_from_slice(&[0u8; 4]); // version+flags
        p.extend_from_slice(&[0x03, 0x05, 0x00, 0x01, 0x00]); // minimal ES_Descriptor stub
        make_box(b"esds", &p)
    };
    let mut payload = Vec::new();
    payload.extend_from_slice(&[0u8; 6]); // SampleEntry reserved
    payload.extend_from_slice(&[0x00, 0x01]); // data_reference_index
    payload.extend_from_slice(&[0u8; 8]); // reserved (audio)
    payload.extend_from_slice(&[0x00, 0x02]); // channel_count = 2
    payload.extend_from_slice(&[0x00, 0x10]); // sample_size = 16
    payload.extend_from_slice(&[0u8; 4]); // pre_defined / reserved
    payload.extend_from_slice(&[0xBB, 0x80, 0x00, 0x00]); // sample_rate = 48000<<16
    payload.extend_from_slice(&esds);
    make_box(b"mp4a", &payload)
}

/// Hand-crafted `edts/elst` box to verify verbatim passthrough.
fn fake_edts() -> Vec<u8> {
    let elst = {
        let mut p = Vec::new();
        p.extend_from_slice(&[0u8; 4]); // version+flags
        p.extend_from_slice(&[0, 0, 0, 1]); // entry_count
        p.extend_from_slice(&[0, 0, 0, 100]); // segment_duration
        p.extend_from_slice(&[0, 0, 0, 50]); // media_time
        p.extend_from_slice(&[0, 1, 0, 0]); // media_rate (1.0)
        make_box(b"elst", &p)
    };
    make_box(b"edts", &elst)
}

fn build_view<'a>(
    avc1: &'a [u8],
    mp4a: &'a [u8],
    video_elst: &'a [u8],
    audio_elst: &'a [u8],
    blake3: &'a [u8; 32],
) -> IndexView<'a> {
    let video = VideoTrackMeta {
        timescale: 90_000,
        fourcc: *b"avc1",
        width: 1920,
        height: 1080,
        sample_entry: avc1,
        elst: video_elst,
    };
    let audio = AudioTrackMeta {
        timescale: 48_000,
        fourcc: *b"mp4a",
        sample_rate: 48_000,
        channel_count: 2,
        sample_entry: mp4a,
        elst: audio_elst,
    };
    IndexView::from_parts(
        0,
        0,
        *blake3,
        video,
        audio,
        Vec::<SampleEntry>::new(),
        Vec::<SampleEntry>::new(),
        Vec::<SegmentEntry>::new(),
        &[],
        None,
    )
}

#[test]
fn init_segment_top_level_is_ftyp_then_moov() {
    let avc1 = fake_avc1();
    let mp4a = fake_mp4a();
    let blake3 = [0u8; 32];
    let view = build_view(&avc1, &mp4a, &[], &[], &blake3);

    let mut buf: Vec<u8> = Vec::new();
    write_init_segment(&view, &mut buf).expect("write");

    let reader = SliceReader(&buf);
    let mut iter = BoxIter::new(&reader, 0, buf.len() as u64);
    let first = iter.next_header().unwrap().expect("ftyp");
    assert_eq!(first.box_type, fcc(b"ftyp"));
    let second = iter.next_header().unwrap().expect("moov");
    assert_eq!(second.box_type, fcc(b"moov"));
    assert!(
        iter.next_header().unwrap().is_none(),
        "init has only two boxes"
    );
    assert_eq!(first.start + first.declared_size, second.start);
    assert_eq!(second.end(), buf.len() as u64);
}

#[test]
fn ftyp_carries_cmfc_and_iso6() {
    let avc1 = fake_avc1();
    let mp4a = fake_mp4a();
    let blake3 = [0u8; 32];
    let view = build_view(&avc1, &mp4a, &[], &[], &blake3);

    let mut buf: Vec<u8> = Vec::new();
    write_init_segment(&view, &mut buf).expect("write");

    // ftyp = size(4) + 'ftyp'(4) + 'cmfc'(4) + minor(4) + brands [iso6, cmfc] = 24 B
    assert_eq!(BigEndian::read_u32(&buf[0..4]), 24);
    assert_eq!(&buf[4..8], b"ftyp");
    assert_eq!(&buf[8..12], b"cmfc");
    assert_eq!(BigEndian::read_u32(&buf[12..16]), 0);
    assert_eq!(&buf[16..20], b"iso6");
    assert_eq!(&buf[20..24], b"cmfc");
}

#[test]
fn moov_contains_mvhd_two_traks_and_mvex_in_order() {
    let avc1 = fake_avc1();
    let mp4a = fake_mp4a();
    let blake3 = [0u8; 32];
    let view = build_view(&avc1, &mp4a, &[], &[], &blake3);

    let mut buf: Vec<u8> = Vec::new();
    write_init_segment(&view, &mut buf).expect("write");

    let reader = SliceReader(&buf);
    let mut top = BoxIter::new(&reader, 0, buf.len() as u64);
    let _ftyp = top.next_header().unwrap().unwrap();
    let moov = top.next_header().unwrap().unwrap();

    let mut child = BoxIter::new(&reader, moov.payload_offset, moov.end());
    let names: Vec<u32> = std::iter::from_fn(|| child.next_header().unwrap())
        .map(|h| h.box_type)
        .collect();
    assert_eq!(
        names,
        vec![fcc(b"mvhd"), fcc(b"trak"), fcc(b"trak"), fcc(b"mvex")],
        "moov children in CMAF order",
    );
}

#[test]
fn video_trak_carries_track_id_one_and_video_handler() {
    let avc1 = fake_avc1();
    let mp4a = fake_mp4a();
    let blake3 = [0u8; 32];
    let view = build_view(&avc1, &mp4a, &[], &[], &blake3);

    let mut buf: Vec<u8> = Vec::new();
    write_init_segment(&view, &mut buf).expect("write");

    let trak = locate_trak(&buf, 0);
    let tkhd = locate_child(&buf, &trak, *b"tkhd");
    // tkhd v1 layout: 4 (ver+flags) + 8+8 (times) + 4 (track_id)
    let track_id = BigEndian::read_u32(
        &buf[(tkhd.payload_offset + 4 + 8 + 8) as usize
            ..(tkhd.payload_offset + 4 + 8 + 8 + 4) as usize],
    );
    assert_eq!(track_id, VIDEO_TRACK_ID);

    let mdia = locate_child(&buf, &trak, *b"mdia");
    let hdlr = locate_child(&buf, &mdia, *b"hdlr");
    // hdlr layout: 4 (ver+flags) + 4 (pre_defined) + 4 (handler_type)
    let handler_type =
        &buf[(hdlr.payload_offset + 8) as usize..(hdlr.payload_offset + 12) as usize];
    assert_eq!(handler_type, b"vide");
}

#[test]
fn audio_trak_carries_track_id_two_and_sound_handler() {
    let avc1 = fake_avc1();
    let mp4a = fake_mp4a();
    let blake3 = [0u8; 32];
    let view = build_view(&avc1, &mp4a, &[], &[], &blake3);

    let mut buf: Vec<u8> = Vec::new();
    write_init_segment(&view, &mut buf).expect("write");

    let trak = locate_trak(&buf, 1);
    let tkhd = locate_child(&buf, &trak, *b"tkhd");
    let track_id = BigEndian::read_u32(
        &buf[(tkhd.payload_offset + 4 + 8 + 8) as usize
            ..(tkhd.payload_offset + 4 + 8 + 8 + 4) as usize],
    );
    assert_eq!(track_id, AUDIO_TRACK_ID);

    let mdia = locate_child(&buf, &trak, *b"mdia");
    let hdlr = locate_child(&buf, &mdia, *b"hdlr");
    let handler_type =
        &buf[(hdlr.payload_offset + 8) as usize..(hdlr.payload_offset + 12) as usize];
    assert_eq!(handler_type, b"soun");
}

#[test]
fn sample_entry_passes_through_byte_for_byte() {
    let avc1 = fake_avc1();
    let mp4a = fake_mp4a();
    let blake3 = [0u8; 32];
    let view = build_view(&avc1, &mp4a, &[], &[], &blake3);

    let mut buf: Vec<u8> = Vec::new();
    write_init_segment(&view, &mut buf).expect("write");

    for (track_idx, expected) in [(0usize, &avc1[..]), (1, &mp4a[..])] {
        let trak = locate_trak(&buf, track_idx);
        let mdia = locate_child(&buf, &trak, *b"mdia");
        let minf = locate_child(&buf, &mdia, *b"minf");
        let stbl = locate_child(&buf, &minf, *b"stbl");
        let stsd = locate_child(&buf, &stbl, *b"stsd");
        // stsd payload: 4 (ver+flags) + 4 (entry_count) + sample_entry
        let entry_start = (stsd.payload_offset + 8) as usize;
        let entry_end = entry_start + expected.len();
        assert_eq!(&buf[entry_start..entry_end], expected);
    }
}

#[test]
fn elst_passes_through_byte_for_byte_when_present() {
    let avc1 = fake_avc1();
    let mp4a = fake_mp4a();
    let edts = fake_edts();
    let blake3 = [0u8; 32];
    let view = build_view(&avc1, &mp4a, &edts, &[], &blake3);

    let mut buf: Vec<u8> = Vec::new();
    write_init_segment(&view, &mut buf).expect("write");

    // The video trak's child sequence is `tkhd`, then `edts` (verbatim),
    // then `mdia`. Locate the bytes for the verbatim `edts` block.
    let trak = locate_trak(&buf, 0);
    let edts_box = locate_child(&buf, &trak, *b"edts");
    let edts_start = edts_box.start as usize;
    let edts_end = edts_box.end() as usize;
    assert_eq!(&buf[edts_start..edts_end], edts.as_slice());
}

#[test]
fn elst_is_omitted_when_input_lacked_one() {
    let avc1 = fake_avc1();
    let mp4a = fake_mp4a();
    let blake3 = [0u8; 32];
    let view = build_view(&avc1, &mp4a, &[], &[], &blake3);

    let mut buf: Vec<u8> = Vec::new();
    write_init_segment(&view, &mut buf).expect("write");

    let trak = locate_trak(&buf, 0);
    let reader = SliceReader(&buf);
    let mut iter = BoxIter::new(&reader, trak.payload_offset, trak.end());
    let names: Vec<u32> = std::iter::from_fn(|| iter.next_header().unwrap())
        .map(|h| h.box_type)
        .collect();
    assert_eq!(names, vec![fcc(b"tkhd"), fcc(b"mdia")]);
}

#[test]
fn mvex_emits_video_then_audio_trex_with_default_flags() {
    let avc1 = fake_avc1();
    let mp4a = fake_mp4a();
    let blake3 = [0u8; 32];
    let view = build_view(&avc1, &mp4a, &[], &[], &blake3);

    let mut buf: Vec<u8> = Vec::new();
    write_init_segment(&view, &mut buf).expect("write");

    let reader = SliceReader(&buf);
    let mut top = BoxIter::new(&reader, 0, buf.len() as u64);
    let _ftyp = top.next_header().unwrap().unwrap();
    let moov = top.next_header().unwrap().unwrap();
    let mvex = locate_child(&buf, &moov, *b"mvex");

    let mut iter = BoxIter::new(&reader, mvex.payload_offset, mvex.end());
    let trex_video = iter.next_header().unwrap().expect("trex video");
    assert_eq!(trex_video.box_type, fcc(b"trex"));
    // payload: 4 (ver+flags) + 4 (track_id) + 4 (idx) + 4 (dur) + 4 (size)
    // + 4 (default_sample_flags)
    let p = trex_video.payload_offset as usize;
    assert_eq!(BigEndian::read_u32(&buf[p + 4..p + 8]), VIDEO_TRACK_ID);
    assert_eq!(
        BigEndian::read_u32(&buf[p + 20..p + 24]),
        VIDEO_DEFAULT_SAMPLE_FLAGS,
    );

    let trex_audio = iter.next_header().unwrap().expect("trex audio");
    let p = trex_audio.payload_offset as usize;
    assert_eq!(BigEndian::read_u32(&buf[p + 4..p + 8]), AUDIO_TRACK_ID);
    assert_eq!(
        BigEndian::read_u32(&buf[p + 20..p + 24]),
        AUDIO_DEFAULT_SAMPLE_FLAGS,
    );
    assert!(iter.next_header().unwrap().is_none(), "mvex has two trex");
}

#[test]
fn mvhd_uses_movie_timescale_and_zero_durations() {
    let avc1 = fake_avc1();
    let mp4a = fake_mp4a();
    let blake3 = [0u8; 32];
    let view = build_view(&avc1, &mp4a, &[], &[], &blake3);

    let mut buf: Vec<u8> = Vec::new();
    write_init_segment(&view, &mut buf).expect("write");

    let reader = SliceReader(&buf);
    let mut top = BoxIter::new(&reader, 0, buf.len() as u64);
    let _ftyp = top.next_header().unwrap().unwrap();
    let moov = top.next_header().unwrap().unwrap();
    let mvhd = locate_child(&buf, &moov, *b"mvhd");
    let p = mvhd.payload_offset as usize;
    // v1 mvhd: 4 (ver+flags) + 8+8 (times) + 4 (timescale) + 8 (duration)
    let timescale = BigEndian::read_u32(&buf[p + 20..p + 24]);
    let duration = BigEndian::read_u64(&buf[p + 24..p + 32]);
    assert_eq!(timescale, MOVIE_TIMESCALE);
    assert_eq!(duration, 0);

    // mvhd v1 closes with `next_track_id` at the very end of the box.
    let nti_offset = mvhd.end() as usize - 4;
    assert_eq!(
        BigEndian::read_u32(&buf[nti_offset..mvhd.end() as usize]),
        NEXT_TRACK_ID
    );
}

/// Locate the `index`-th `trak` (0 = video, 1 = audio) inside the moov.
fn locate_trak(buf: &[u8], index: usize) -> BoxHeader {
    let reader = SliceReader(buf);
    let mut top = BoxIter::new(&reader, 0, buf.len() as u64);
    let _ftyp = top.next_header().unwrap().unwrap();
    let moov = top.next_header().unwrap().unwrap();
    let mut child = BoxIter::new(&reader, moov.payload_offset, moov.end());
    let mut found = None;
    let mut count = 0;
    while let Some(h) = child.next_header().unwrap() {
        if h.box_type == fcc(b"trak") {
            if count == index {
                found = Some(h);
                break;
            }
            count += 1;
        }
    }
    found.expect("trak missing")
}

fn locate_child(
    buf: &[u8],
    parent: &BoxHeader,
    target: [u8; 4],
) -> BoxHeader {
    let reader = SliceReader(buf);
    let mut iter = BoxIter::new(&reader, parent.payload_offset, parent.end());
    while let Some(h) = iter.next_header().unwrap() {
        if h.box_type == fcc(&target) {
            return h;
        }
    }
    panic!("child {:?} not found inside {:?}", target, parent.box_type);
}
