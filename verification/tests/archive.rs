//! From a source to replies: what is built is served.

use std::cell::Cell;

use cmafly::index::builder::{read_byte_range, render_playlist};
use cmafly::indexer::sync_note;
use cmafly::serve::handlers::{
    admit_segment, init_body, parse_segment_idx, playlist_body, segment_body,
};
use cmafly::serve::registry::check_pair;
use cmafly::serve::ApiError;
use cmafly::{
    demux::moov::{parse_top_level, ByteRange},
    fmp4, IndexBuilder, IndexView, IoError, PackagerError, ReadAt,
    SegmentDuration, SliceReader,
};

fn secs(s: f64) -> SegmentDuration {
    SegmentDuration::from_bits(s.to_bits())
}

// -- synthetic-MP4 builders --------------------------------------------------

fn make_box(fourcc: &[u8; 4], payload: &[u8]) -> Vec<u8> {
    let total = (8 + payload.len()) as u32;
    let mut out = Vec::with_capacity(total as usize);
    out.extend_from_slice(&total.to_be_bytes());
    out.extend_from_slice(fourcc);
    out.extend_from_slice(payload);
    out
}

fn make_full_box(fourcc: &[u8; 4], version: u8, flags: [u8; 3], body: &[u8]) -> Vec<u8> {
    let mut payload = Vec::with_capacity(4 + body.len());
    payload.push(version);
    payload.extend_from_slice(&flags);
    payload.extend_from_slice(body);
    make_box(fourcc, &payload)
}

fn ftyp() -> Vec<u8> {
    let mut body = Vec::new();
    body.extend_from_slice(b"mp42");
    body.extend_from_slice(&0u32.to_be_bytes());
    body.extend_from_slice(b"isom");
    body.extend_from_slice(b"mp42");
    make_box(b"ftyp", &body)
}

fn tkhd_v0(track_id: u32, width: u32, height: u32) -> Vec<u8> {
    let mut body = Vec::with_capacity(80);
    body.extend_from_slice(&[0u8; 8]); // ctime + mtime
    body.extend_from_slice(&track_id.to_be_bytes());
    body.extend_from_slice(&[0u8; 4]); // reserved
    body.extend_from_slice(&[0u8; 4]); // duration
    body.extend_from_slice(&[0u8; 8]); // reserved
    body.extend_from_slice(&[0u8; 2]); // layer
    body.extend_from_slice(&[0u8; 2]); // alternate_group
    body.extend_from_slice(&[0u8; 2]); // volume
    body.extend_from_slice(&[0u8; 2]); // reserved
    body.extend_from_slice(&[0u8; 36]); // matrix
    body.extend_from_slice(&(width << 16).to_be_bytes());
    body.extend_from_slice(&(height << 16).to_be_bytes());
    make_full_box(b"tkhd", 0, [0, 0, 0], &body)
}

fn mdhd_v0(timescale: u32) -> Vec<u8> {
    let mut body = Vec::with_capacity(20);
    body.extend_from_slice(&[0u8; 4]); // ctime
    body.extend_from_slice(&[0u8; 4]); // mtime
    body.extend_from_slice(&timescale.to_be_bytes());
    body.extend_from_slice(&[0u8; 4]); // duration
    body.extend_from_slice(&[0u8; 4]); // language + pre_defined
    make_full_box(b"mdhd", 0, [0, 0, 0], &body)
}

fn hdlr(handler: &[u8; 4]) -> Vec<u8> {
    let mut body = Vec::with_capacity(20);
    body.extend_from_slice(&[0u8; 4]); // pre_defined
    body.extend_from_slice(handler);
    body.extend_from_slice(&[0u8; 12]); // reserved
    body.push(0);
    make_full_box(b"hdlr", 0, [0, 0, 0], &body)
}

fn avc1_sample_entry() -> Vec<u8> {
    let mut body = Vec::with_capacity(78);
    body.extend_from_slice(&[0u8; 6]); // reserved
    body.extend_from_slice(&[0, 1]); // data_reference_index
    body.extend_from_slice(&[0u8; 16]); // pre_defined + reserved
    body.extend_from_slice(&[0x07, 0x80]); // width = 1920
    body.extend_from_slice(&[0x04, 0x38]); // height = 1080
    body.extend_from_slice(&[0u8; 4]);
    body.extend_from_slice(&[0u8; 4]);
    body.extend_from_slice(&[0u8; 4]);
    body.extend_from_slice(&[0, 1]); // frame_count
    body.extend_from_slice(&[0u8; 32]); // compressorname
    body.extend_from_slice(&[0, 24]); // depth
    body.extend_from_slice(&[0xff, 0xff]); // pre_defined
    make_box(b"avc1", &body)
}

fn mp4a_sample_entry() -> Vec<u8> {
    let mut body = Vec::with_capacity(28);
    body.extend_from_slice(&[0u8; 6]); // reserved
    body.extend_from_slice(&[0, 1]); // data_reference_index
    body.extend_from_slice(&[0, 0]); // version
    body.extend_from_slice(&[0, 0]); // revision
    body.extend_from_slice(&[0u8; 4]); // vendor
    body.extend_from_slice(&[0, 2]); // channel_count = 2
    body.extend_from_slice(&[0, 16]); // samplesize
    body.extend_from_slice(&[0, 0]); // compression_id
    body.extend_from_slice(&[0, 0]); // packet_size
    body.extend_from_slice(&(48_000u32 << 16).to_be_bytes());
    make_box(b"mp4a", &body)
}

fn stsd(entry: &[u8]) -> Vec<u8> {
    let mut body = Vec::new();
    body.extend_from_slice(&1u32.to_be_bytes());
    body.extend_from_slice(entry);
    make_full_box(b"stsd", 0, [0, 0, 0], &body)
}

fn stts_constant(count: u32, delta: u32) -> Vec<u8> {
    let mut body = Vec::new();
    body.extend_from_slice(&1u32.to_be_bytes()); // entry_count
    body.extend_from_slice(&count.to_be_bytes());
    body.extend_from_slice(&delta.to_be_bytes());
    make_full_box(b"stts", 0, [0, 0, 0], &body)
}

fn stsc_one_chunk(samples_per_chunk: u32) -> Vec<u8> {
    let mut body = Vec::new();
    body.extend_from_slice(&1u32.to_be_bytes()); // entry_count
    body.extend_from_slice(&1u32.to_be_bytes()); // first_chunk
    body.extend_from_slice(&samples_per_chunk.to_be_bytes());
    body.extend_from_slice(&1u32.to_be_bytes()); // sample_description_index
    make_full_box(b"stsc", 0, [0, 0, 0], &body)
}

fn stsz_constant(sample_size: u32, sample_count: u32) -> Vec<u8> {
    let mut body = Vec::new();
    body.extend_from_slice(&sample_size.to_be_bytes());
    body.extend_from_slice(&sample_count.to_be_bytes());
    make_full_box(b"stsz", 0, [0, 0, 0], &body)
}

fn stco(offset: u32) -> Vec<u8> {
    let mut body = Vec::new();
    body.extend_from_slice(&1u32.to_be_bytes()); // entry_count
    body.extend_from_slice(&offset.to_be_bytes());
    make_full_box(b"stco", 0, [0, 0, 0], &body)
}

fn stss(samples_one_indexed: &[u32]) -> Vec<u8> {
    let mut body = Vec::new();
    body.extend_from_slice(&(samples_one_indexed.len() as u32).to_be_bytes());
    for s in samples_one_indexed {
        body.extend_from_slice(&s.to_be_bytes());
    }
    make_full_box(b"stss", 0, [0, 0, 0], &body)
}

#[allow(clippy::too_many_arguments)]
fn build_stbl(
    sample_entry: &[u8],
    sample_count: u32,
    sample_size: u32,
    dts_delta: u32,
    chunk_offset: u32,
    stss_entries: Option<&[u32]>,
) -> Vec<u8> {
    let mut payload = Vec::new();
    payload.extend_from_slice(&stsd(sample_entry));
    payload.extend_from_slice(&stts_constant(sample_count, dts_delta));
    payload.extend_from_slice(&stsc_one_chunk(sample_count));
    payload.extend_from_slice(&stsz_constant(sample_size, sample_count));
    payload.extend_from_slice(&stco(chunk_offset));
    if let Some(samples) = stss_entries {
        payload.extend_from_slice(&stss(samples));
    }
    make_box(b"stbl", &payload)
}

#[allow(clippy::too_many_arguments)]
fn build_trak(
    track_id: u32,
    width: u32,
    height: u32,
    handler: &[u8; 4],
    timescale: u32,
    sample_entry: &[u8],
    sample_count: u32,
    sample_size: u32,
    dts_delta: u32,
    chunk_offset: u32,
    stss_entries: Option<&[u32]>,
) -> Vec<u8> {
    let mut payload = Vec::new();
    payload.extend_from_slice(&tkhd_v0(track_id, width, height));
    let stbl = build_stbl(
        sample_entry,
        sample_count,
        sample_size,
        dts_delta,
        chunk_offset,
        stss_entries,
    );
    let minf = make_box(b"minf", &stbl);
    let mut mdia_payload = Vec::new();
    mdia_payload.extend_from_slice(&mdhd_v0(timescale));
    mdia_payload.extend_from_slice(&hdlr(handler));
    mdia_payload.extend_from_slice(&minf);
    payload.extend_from_slice(&make_box(b"mdia", &mdia_payload));
    make_box(b"trak", &payload)
}

/// Build a 6-video / 6-audio synthetic MP4. The mdat is laid down last
/// (trailing-moov) so chunk offsets reach into a section the builder can
/// stream-read.
///
/// Timing summary:
/// - Video timescale 30, dts_delta 10 -> 6 samples = 60 ticks = 2 s.
/// - Sync samples at 1-indexed positions 1 and 4 -> 0-indexed [0, 3].
/// - Audio timescale 48 000, dts_delta 16 000 -> 6 samples = 96 000 ticks
///   ~ 2 s.
/// - Nominal cut 0.5 s = 15 video ticks -> snaps forward to the second
///   sync at video-DTS 30 -> segments [0..3) and [3..6).
/// - Audio split at video DTS 30 = 30 / 30 x 48 000 = 48 000 audio ticks.
///   After audio sample 3 cumulative DTS = 48 000 -> audio segments
///   [0..3) and [3..6).
fn synthetic_mp4() -> SyntheticMp4 {
    let video_count = 6u32;
    let video_size = 8u32; // each video sample 8 B
    let audio_count = 6u32;
    let audio_size = 4u32;
    let video_payload_bytes = video_count * video_size;
    let audio_payload_bytes = audio_count * audio_size;
    let mdat_payload_len = video_payload_bytes + audio_payload_bytes;

    // Compute moov size first so we know where mdat lands.
    // We build moov twice: once with placeholder offsets to size it,
    // once with the resolved offsets. This is fine because the box sizes
    // do not depend on the offset values.
    let placeholder_video_offset = 0u32;
    let placeholder_audio_offset = 0u32;
    let moov_placeholder = build_moov(
        placeholder_video_offset,
        placeholder_audio_offset,
        video_count,
        video_size,
        audio_count,
        audio_size,
    );
    let ftyp_bytes = ftyp();
    let mdat_header_offset = (ftyp_bytes.len() + moov_placeholder.len()) as u32;
    let mdat_payload_offset = mdat_header_offset + 8;
    let video_chunk_offset = mdat_payload_offset;
    let audio_chunk_offset = mdat_payload_offset + video_payload_bytes;

    let moov = build_moov(
        video_chunk_offset,
        audio_chunk_offset,
        video_count,
        video_size,
        audio_count,
        audio_size,
    );
    assert_eq!(moov.len(), moov_placeholder.len(), "moov layout stable");

    // mdat payload: 6 video samples then 6 audio samples.
    let mut mdat_payload = Vec::with_capacity(mdat_payload_len as usize);
    for i in 0..video_count {
        let mut tag = [b'V', b'D', b'_', b'_', b'_', b'_', b'_', b'0' + i as u8];
        tag[2] = b'0' + (i / 10) as u8;
        tag[3] = b'0' + (i % 10) as u8;
        mdat_payload.extend_from_slice(&tag);
    }
    for i in 0..audio_count {
        let tag = [b'A', b'D', b'0' + (i / 10) as u8, b'0' + (i % 10) as u8];
        mdat_payload.extend_from_slice(&tag);
    }
    let mdat_bytes = make_box(b"mdat", &mdat_payload);

    let mut bytes = Vec::with_capacity(ftyp_bytes.len() + moov.len() + mdat_bytes.len());
    bytes.extend_from_slice(&ftyp_bytes);
    bytes.extend_from_slice(&moov);
    bytes.extend_from_slice(&mdat_bytes);

    SyntheticMp4 {
        bytes,
        video_count,
        video_size,
        audio_count,
        audio_size,
        video_chunk_offset,
        audio_chunk_offset,
    }
}

fn build_moov(
    video_chunk_offset: u32,
    audio_chunk_offset: u32,
    video_count: u32,
    video_size: u32,
    audio_count: u32,
    audio_size: u32,
) -> Vec<u8> {
    let video_trak = build_trak(
        1,
        1920,
        1080,
        b"vide",
        30,
        &avc1_sample_entry(),
        video_count,
        video_size,
        10,
        video_chunk_offset,
        Some(&[1, 4]),
    );
    let audio_trak = build_trak(
        2,
        0,
        0,
        b"soun",
        48_000,
        &mp4a_sample_entry(),
        audio_count,
        audio_size,
        16_000,
        audio_chunk_offset,
        None,
    );
    let mut moov_payload = Vec::new();
    moov_payload.extend_from_slice(&video_trak);
    moov_payload.extend_from_slice(&audio_trak);
    make_box(b"moov", &moov_payload)
}

struct SyntheticMp4 {
    bytes: Vec<u8>,
    video_count: u32,
    video_size: u32,
    audio_count: u32,
    audio_size: u32,
    video_chunk_offset: u32,
    audio_chunk_offset: u32,
}

/// The synthetic MP4 with a `ctts` of 7 on both tracks.
fn mp4_with_composition_offsets() -> Vec<u8> {
    let ctts = {
        let mut body = Vec::new();
        body.extend_from_slice(&1u32.to_be_bytes());
        body.extend_from_slice(&6u32.to_be_bytes());
        body.extend_from_slice(&7u32.to_be_bytes());
        make_full_box(b"ctts", 0, [0, 0, 0], &body)
    };
    let mp4 = synthetic_mp4();
    let mut bytes = mp4.bytes;
    // Insert a `ctts` at the end of either `stbl` and grow the boxes around
    // it; the sample data moves by the size of both.
    for _ in 0..2 {
        let grow = ctts.len() as u32;
        let stbls: Vec<usize> = find_all(&bytes, b"stbl");
        let at = stbls
            .into_iter()
            .find(|at| {
                let at = *at;
                let end = at - 4 + read_size(&bytes, at - 4) as usize;
                find_all(&bytes[at..end], b"ctts").is_empty()
            })
            .expect("a stbl without ctts");
        let end = at - 4 + read_size(&bytes, at - 4) as usize;
        let around: Vec<usize> = [b"moov", b"trak", b"mdia", b"minf", b"stbl"]
            .iter()
            .flat_map(|name| find_all(&bytes, name))
            .map(|p| p - 4)
            .filter(|p| *p < at && p + read_size(&bytes, *p) as usize >= end)
            .collect();
        for p in around {
            let size = read_size(&bytes, p) + grow;
            bytes[p..p + 4].copy_from_slice(&size.to_be_bytes());
        }
        bytes.splice(end..end, ctts.iter().copied());
        for p in find_all(&bytes, b"stco") {
            let offset = read_size(&bytes, p + 12) + grow;
            bytes[p + 12..p + 16].copy_from_slice(&offset.to_be_bytes());
        }
    }
    bytes
}

fn find_all(bytes: &[u8], name: &[u8; 4]) -> Vec<usize> {
    bytes
        .windows(4)
        .enumerate()
        .filter(|(_, w)| *w == name)
        .map(|(i, _)| i)
        .collect()
}

fn read_size(bytes: &[u8], at: usize) -> u32 {
    u32::from_be_bytes([bytes[at], bytes[at + 1], bytes[at + 2], bytes[at + 3]])
}

#[test]
fn audio_rows_have_no_composition_offset() {
    let bytes = mp4_with_composition_offsets();
    let idx = build(&bytes).expect("build");
    let view = IndexView::open(&idx).expect("open");
    assert!(view.video_samples().iter().all(|s| s.cts_offset == 7));
    assert!(view.audio_samples().iter().all(|s| s.cts_offset == 0));
    assert!(view.video_samples().iter().all(|s| s.flags <= 1));
    let v = view.video_samples()[0].offset as usize;
    assert_eq!(&bytes[v..v + 2], b"VD");
}

fn build(bytes: &[u8]) -> Result<Vec<u8>, PackagerError> {
    IndexBuilder::build(&SliceReader(bytes), bytes.len() as u64, secs(0.5))
}

/// A source that hands out one byte at a time.
struct Trickle<'a>(&'a [u8]);

impl ReadAt for Trickle<'_> {
    fn read_at(&self, offset: u64, buf: &mut [u8]) -> std::io::Result<usize> {
        let off = offset as usize;
        if off >= self.0.len() || buf.is_empty() {
            return Ok(0);
        }
        buf[0] = self.0[off];
        Ok(1)
    }
}

/// A source that fails after some reads.
struct Flaky<'a> {
    bytes: &'a [u8],
    left: Cell<u32>,
}

impl ReadAt for Flaky<'_> {
    fn read_at(&self, offset: u64, buf: &mut [u8]) -> std::io::Result<usize> {
        if self.left.get() == 0 {
            return Err(std::io::Error::new(std::io::ErrorKind::Other, "unplugged"));
        }
        self.left.set(self.left.get() - 1);
        SliceReader(self.bytes).read_at(offset, buf)
    }
}

#[test]
fn every_listed_segment_is_answered() {
    let mp4 = synthetic_mp4();
    let idx = build(&mp4.bytes).expect("build");
    let playlist = String::from_utf8(playlist_body(&idx, "a").expect("playlist")).expect("ascii");
    let names: Vec<&str> = playlist.lines().filter(|l| l.starts_with("seg_")).collect();
    assert_eq!(names, vec!["seg_0001.m4s", "seg_0002.m4s"]);
    let source = SliceReader(&mp4.bytes);
    let mut largest = 0;
    for (k, name) in names.iter().enumerate() {
        let i = parse_segment_idx(name).expect("listed names parse");
        assert_eq!(i as usize, k);
        let capacity = admit_segment(&idx, "a", i).expect("admitted");
        let body = segment_body(&idx, "a", i, &source, capacity).expect("assembled");
        assert!(body.len() <= capacity as usize);
        largest = largest.max(body.len());
        assert_eq!(&body[4..8], b"styp");
    }
    assert_eq!(largest, admit_segment(&idx, "a", 0).unwrap() as usize);
    assert!(matches!(
        admit_segment(&idx, "a", 2),
        Err(ApiError::NotFound)
    ));
    assert!(matches!(
        segment_body(&idx, "a", 2, &source, 0),
        Err(ApiError::NotFound)
    ));
    let init = init_body(&idx, "a").expect("init");
    assert_eq!(&init[4..8], b"ftyp");
}

#[test]
fn segments_hold_the_sample_bytes() {
    let mp4 = synthetic_mp4();
    let idx = build(&mp4.bytes).expect("build");
    let body = segment_body(&idx, "a", 1, &SliceReader(&mp4.bytes), 0).expect("assembled");
    let v = mp4.video_chunk_offset as usize + 3 * mp4.video_size as usize;
    let a = mp4.audio_chunk_offset as usize + 3 * mp4.audio_size as usize;
    let mut expected = mp4.bytes[v..v + 24].to_vec();
    expected.extend_from_slice(&mp4.bytes[a..a + 12]);
    assert_eq!(&body[body.len() - 36..], expected.as_slice());
}

#[test]
fn pair_check_compares_lengths() {
    let mp4 = synthetic_mp4();
    let len = mp4.bytes.len() as u64;
    let idx = build(&mp4.bytes).expect("build");
    assert!(check_pair(&idx, true, len, "a").is_ok());
    match check_pair(&idx, true, len + 1, "a") {
        Err(ApiError::Internal(msg)) => assert_eq!(
            msg,
            format!(
                "source_mp4_len mismatch for `a`: idx_records={len} mp4_actual={}",
                len + 1
            )
        ),
        other => panic!("expected Internal, got {other:?}"),
    }
}

#[test]
fn note_is_given_without_stss_only() {
    let mp4 = synthetic_mp4();
    let idx = build(&mp4.bytes).expect("build");
    assert_eq!(sync_note(&idx).expect("open"), None);

    // Rename the only `stss`, so that the parser does not see it.
    let mut bytes = mp4.bytes.clone();
    let at = bytes.windows(4).position(|w| w == b"stss").expect("stss");
    bytes[at..at + 4].copy_from_slice(b"free");
    let idx = build(&bytes).expect("build");
    assert_eq!(
        sync_note(&idx).expect("open"),
        Some("note: all video samples are sync (input likely lacked stss)")
    );
}

#[test]
fn short_reads_do_not_change_the_image() {
    let mp4 = synthetic_mp4();
    let idx = build(&mp4.bytes).expect("build");
    let trickled = IndexBuilder::build(
        &Trickle(&mp4.bytes),
        mp4.bytes.len() as u64,
        secs(0.5),
    )
    .expect("build");
    assert_eq!(idx, trickled);
}

#[test]
fn source_failures_are_passed_on() {
    let mp4 = synthetic_mp4();
    let mut failed = 0;
    for reads in 0..200 {
        let source = Flaky {
            bytes: &mp4.bytes,
            left: Cell::new(reads),
        };
        match IndexBuilder::build(&source, mp4.bytes.len() as u64, secs(0.5)) {
            Ok(idx) => assert_eq!(idx, build(&mp4.bytes).unwrap()),
            Err(e) => {
                assert!(matches!(e, PackagerError::Io(IoError::Source(_))));
                assert_eq!(e.message(), "io error: unplugged");
                failed += 1;
            }
        }
    }
    assert!(failed > 50);
}

#[test]
fn image_records_length_and_digest_of_the_source() {
    let mp4 = synthetic_mp4();
    let idx = build(&mp4.bytes).expect("build");
    let view = IndexView::open(&idx).expect("open");
    assert_eq!(view.source_mp4_len(), mp4.bytes.len() as u64);
    assert_eq!(
        view.source_mp4_blake3(),
        blake3::hash(&mp4.bytes).as_bytes()
    );
}

/// More than one hash buffer.
#[test]
fn digest_covers_long_sources() {
    let mut mp4 = synthetic_mp4();
    mp4.bytes.extend_from_slice(&make_box(b"free", &vec![0x5a; 200_000]));
    let idx = build(&mp4.bytes).expect("build");
    let view = IndexView::open(&idx).expect("open");
    assert_eq!(
        view.source_mp4_blake3(),
        blake3::hash(&mp4.bytes).as_bytes()
    );
}

/// The declared length may exceed the bytes: the scan reads past the end.
#[test]
fn missing_bytes_are_reported() {
    let mp4 = synthetic_mp4();
    let len = mp4.bytes.len() as u64;
    let r = IndexBuilder::build(&SliceReader(&mp4.bytes), len + 8, secs(0.5));
    assert!(matches!(r, Err(PackagerError::Io(IoError::ShortRead))));
}

#[test]
fn truncated_sample_data_is_reported() {
    let mp4 = synthetic_mp4();
    let idx = build(&mp4.bytes).expect("build");
    let view = IndexView::open(&idx).expect("open");
    let cut = mp4.audio_chunk_offset as usize + 2;
    let mut out = vec![7u8];
    match fmp4::write_media_segment(&view, 0, &SliceReader(&mp4.bytes[..cut]), &mut out) {
        Err(PackagerError::Io(IoError::SampleTruncated { offset, remaining })) => {
            assert_eq!(offset, cut as u64);
            assert_eq!(remaining, 2);
        }
        other => panic!("expected SampleTruncated, got {other:?}"),
    }
    assert_eq!(out[0], 7);
    match segment_body(&idx, "a", 0, &SliceReader(&mp4.bytes[..cut]), 0) {
        Err(ApiError::Internal(msg)) => assert_eq!(
            msg,
            format!(
                "assemble segment for `a`: io error: ReadAt returned EOF mid-sample \
                 at offset {cut} (still need 2 bytes)"
            )
        ),
        other => panic!("expected Internal, got {other:?}"),
    }
}

#[test]
fn segments_are_appended_to_what_is_there() {
    let mp4 = synthetic_mp4();
    let idx = build(&mp4.bytes).expect("build");
    let view = IndexView::open(&idx).expect("open");
    let source = SliceReader(&mp4.bytes);
    let mut alone = Vec::new();
    fmp4::write_media_segment(&view, 0, &source, &mut alone).expect("write");
    let mut behind = vec![1u8, 2, 3];
    fmp4::write_media_segment(&view, 0, &source, &mut behind).expect("write");
    assert_eq!(&behind[..3], &[1, 2, 3]);
    assert_eq!(&behind[3..], alone.as_slice());
}

#[test]
fn nominal_duration_decides_the_cuts() {
    let mp4 = synthetic_mp4();
    let len = mp4.bytes.len() as u64;
    let source = SliceReader(&mp4.bytes);
    for (s, count) in [(0.5, 2), (1.0, 2), (1.01, 1), (1e-300, 2), (1e300, 1)] {
        let idx = IndexBuilder::build(&source, len, secs(s)).expect("build");
        assert_eq!(IndexView::open(&idx).unwrap().segment_count(), count, "{s}");
    }
    for bad in [0.0, -0.0, -1.0, f64::NAN, f64::INFINITY, f64::NEG_INFINITY] {
        assert!(matches!(
            IndexBuilder::build(&source, len, secs(bad)),
            Err(PackagerError::SampleTableInconsistent(
                "segment nominal duration must be positive and finite"
            ))
        ));
    }
}

#[test]
fn rendered_playlist_is_padded_with_newlines() {
    let mp4 = synthetic_mp4();
    let idx = build(&mp4.bytes).expect("build");
    let view = IndexView::open(&idx).expect("open");
    let text = render_playlist(&view).expect("render");
    assert_eq!(text.len() % 8, 0);
    assert_eq!(view.playlist_bytes(), Some(text.as_slice()));
    assert!(String::from_utf8(text)
        .unwrap()
        .trim_end_matches('\n')
        .ends_with("#EXT-X-ENDLIST"));
}

#[test]
fn byte_ranges_are_read_whole_or_not_at_all() {
    let bytes = [1u8, 2, 3, 4];
    let source = SliceReader(&bytes);
    let range = |offset, len| ByteRange { offset, len };
    assert_eq!(read_byte_range(&source, range(1, 2)).unwrap(), vec![2, 3]);
    assert_eq!(read_byte_range(&source, range(9, 0)).unwrap(), Vec::<u8>::new());
    assert!(matches!(
        read_byte_range(&source, range(3, 2)),
        Err(PackagerError::Io(IoError::ShortRead))
    ));
}

/// A sample group that does not mark encryption is no reason to refuse a
/// file, wherever it stands; one that does is.
#[test]
fn only_encryption_groups_are_refused() {
    let mp4 = synthetic_mp4();
    for (grouping, refused) in [(b"roll", false), (b"seig", true)] {
        for kind in [b"sgpd", b"sbgp"] {
            let mut payload = vec![0u8; 4];
            payload.extend_from_slice(grouping);
            let mut bytes = mp4.bytes.clone();
            bytes.extend_from_slice(&make_box(kind, &payload));
            match build(&bytes) {
                Ok(_) => assert!(!refused),
                Err(e) => {
                    assert!(refused);
                    assert!(matches!(e, PackagerError::EncryptedInput));
                }
            }
        }
    }
    let mut bytes = mp4.bytes.clone();
    bytes.extend_from_slice(&make_box(b"sgpd", &[0u8; 7]));
    assert!(matches!(
        build(&bytes),
        Err(PackagerError::MalformedAtom {
            atom: "sgpd",
            reason: "payload truncated before grouping_type"
        })
    ));
}

/// Appended to a file, a sample group that does not mark encryption leaves the
/// parse as it was, whichever form its header has and whatever the file ends
/// in.
#[test]
fn appended_sample_groups_leave_the_parse_unchanged() {
    let parse = |bytes: &[u8]| {
        let found = parse_top_level(&SliceReader(bytes), bytes.len() as u64).expect("parse");
        format!("{found:?}")
    };
    let closed = synthetic_mp4().bytes;
    let mut open = closed.clone();
    open.extend_from_slice(&[0, 0, 0, 0]);
    open.extend_from_slice(b"free");
    for kind in [b"sgpd", b"sbgp"] {
        let mut payload = vec![0u8; 4];
        payload.extend_from_slice(b"roll");
        let short = make_box(kind, &payload);
        let mut to_end = short.clone();
        to_end[..4].copy_from_slice(&[0; 4]);
        let mut long = vec![0, 0, 0, 1];
        long.extend_from_slice(kind);
        long.extend_from_slice(&24u64.to_be_bytes());
        long.extend_from_slice(&payload);
        for file in [&closed, &open] {
            for group in [&short, &to_end, &long] {
                let mut bytes = file.clone();
                bytes.extend_from_slice(group);
                assert_eq!(parse(&bytes), parse(file));
            }
        }
    }
}

/// No segment is looked for in the source when there is none of that number.
#[test]
fn segments_out_of_range_are_refused_without_a_read() {
    let mp4 = synthetic_mp4();
    let idx = build(&mp4.bytes).expect("build");
    let view = IndexView::open(&idx).expect("open");
    let source = Flaky { bytes: &mp4.bytes, left: Cell::new(0) };
    let mut out = vec![7u8];
    match fmp4::write_media_segment(&view, 2, &source, &mut out) {
        Err(PackagerError::SegmentIndexOutOfRange { idx, count }) => assert_eq!((idx, count), (2, 2)),
        other => panic!("expected SegmentIndexOutOfRange, got {other:?}"),
    }
    assert_eq!(out, vec![7]);
    assert!(matches!(segment_body(&idx, "a", 2, &source, 0), Err(ApiError::NotFound)));
    assert!(matches!(
        segment_body(&idx, "a", 1, &source, 0),
        Err(ApiError::Internal(_))
    ));
    match segment_body(&idx[..10], "a", 2, &source, 0) {
        Err(ApiError::Internal(msg)) => assert!(msg.starts_with("open idx for segment for `a`: ")),
        other => panic!("expected Internal, got {other:?}"),
    }
}

/// What is wrong with the boxes of a file is found before any table is held
/// in memory.
#[test]
fn parse_failures_come_before_tables() {
    let mut bytes = synthetic_mp4().bytes;
    let at = bytes.windows(4).position(|w| w == b"stsz").unwrap();
    bytes[at - 4..at].copy_from_slice(&8u32.to_be_bytes());
    bytes[at + 4..at + 8].copy_from_slice(&12u32.to_be_bytes());
    bytes[at + 8..at + 12].copy_from_slice(b"free");
    assert!(matches!(
        build(&bytes),
        Err(PackagerError::MalformedAtom {
            atom: "<sample-table>",
            reason: "payload shorter than minimum full-box header"
        })
    ));
    bytes.extend_from_slice(&make_box(b"moof", &[]));
    assert!(matches!(build(&bytes), Err(PackagerError::FragmentedInput)));
}

#[test]
fn slices_are_read_as_far_as_they_go() {
    let source = SliceReader(&[1, 2, 3, 4, 5]);
    let mut buf = [9u8; 3];
    assert_eq!(source.read_at(1, &mut buf).unwrap(), 3);
    assert_eq!(buf, [2, 3, 4]);
    assert_eq!(source.read_at(3, &mut buf).unwrap(), 2);
    assert_eq!(buf, [4, 5, 4]);
    assert_eq!(source.read_at(5, &mut buf).unwrap(), 0);
    assert_eq!(source.read_at(u64::MAX, &mut buf).unwrap(), 0);
    assert_eq!(source.read_at(0, &mut []).unwrap(), 0);
    assert_eq!(buf, [4, 5, 4]);
}

/// An image that does not lie where its rows can is refused; what is wrong
/// with it before its rows comes first.
#[test]
fn misplaced_images_are_refused() {
    let mp4 = synthetic_mp4();
    let len = mp4.bytes.len() as u64;
    let idx = build(&mp4.bytes).expect("build");
    assert!(IndexView::open_at(&idx, true).is_ok());
    assert!(matches!(
        IndexView::open_at(&idx, false),
        Err(PackagerError::MalformedIndexSection(
            "VideoSampleTable rows misaligned for SampleEntry"
        ))
    ));
    assert!(matches!(
        IndexView::open_at(&idx[..10], false),
        Err(PackagerError::MalformedIndexDirectory(
            "file shorter than fixed header"
        ))
    ));
    match check_pair(&idx, false, len, "a") {
        Err(ApiError::Internal(msg)) => assert_eq!(
            msg,
            "open idx for `a`: malformed `.idx` section: \
             VideoSampleTable rows misaligned for SampleEntry"
        ),
        other => panic!("expected Internal, got {other:?}"),
    }
}
