//! Inputs that are refused, and why.

use cmafly::fmp4::write_media_segment;
use cmafly::index::digest::blake3_of_source;
use cmafly::index::format::{
    KIND_AUDIO_SAMPLE_TABLE, KIND_AUDIO_TRACK_META, KIND_INIT_SEGMENT_BYTES, KIND_SEGMENT_TABLE,
    KIND_VIDEO_SAMPLE_TABLE, KIND_VIDEO_TRACK_META,
};
use cmafly::playlist::write_media_playlist;
use cmafly::{
    AudioTrackMeta, IndexBuilder, IndexView, IoError, PackagerError, SampleEntry, SegmentDuration,
    SegmentEntry, SliceReader, VideoTrackMeta,
};

fn secs(s: f64) -> SegmentDuration {
    SegmentDuration::from_bits(s.to_bits())
}

// -- synthetic-MP4 builders --------------------------------------------------

fn make_box(fourcc: &[u8; 4], payload: &[u8]) -> Vec<u8> {
    let total = (8 + payload.len()) as u32;
    let mut out = Vec::with_capacity(total as usize);
    out.extend_from_slice(&total.to_be_bytes());
    out.extend_from_slice(fourcc);
    out.extend_from_slice(payload);
    out
}

fn make_full_box(fourcc: &[u8; 4], version: u8, flags: [u8; 3], body: &[u8]) -> Vec<u8> {
    let mut payload = Vec::with_capacity(4 + body.len());
    payload.push(version);
    payload.extend_from_slice(&flags);
    payload.extend_from_slice(body);
    make_box(fourcc, &payload)
}

fn ftyp() -> Vec<u8> {
    let mut body = Vec::new();
    body.extend_from_slice(b"mp42");
    body.extend_from_slice(&0u32.to_be_bytes());
    body.extend_from_slice(b"isom");
    body.extend_from_slice(b"mp42");
    make_box(b"ftyp", &body)
}

fn tkhd_v0(track_id: u32, width: u32, height: u32) -> Vec<u8> {
    let mut body = Vec::with_capacity(80);
    body.extend_from_slice(&[0u8; 8]); // ctime + mtime
    body.extend_from_slice(&track_id.to_be_bytes());
    body.extend_from_slice(&[0u8; 4]); // reserved
    body.extend_from_slice(&[0u8; 4]); // duration
    body.extend_from_slice(&[0u8; 8]); // reserved
    body.extend_from_slice(&[0u8; 2]); // layer
    body.extend_from_slice(&[0u8; 2]); // alternate_group
    body.extend_from_slice(&[0u8; 2]); // volume
    body.extend_from_slice(&[0u8; 2]); // reserved
    body.extend_from_slice(&[0u8; 36]); // matrix
    body.extend_from_slice(&(width << 16).to_be_bytes());
    body.extend_from_slice(&(height << 16).to_be_bytes());
    make_full_box(b"tkhd", 0, [0, 0, 0], &body)
}

fn mdhd_v0(timescale: u32) -> Vec<u8> {
    let mut body = Vec::with_capacity(20);
    body.extend_from_slice(&[0u8; 4]); // ctime
    body.extend_from_slice(&[0u8; 4]); // mtime
    body.extend_from_slice(&timescale.to_be_bytes());
    body.extend_from_slice(&[0u8; 4]); // duration
    body.extend_from_slice(&[0u8; 4]); // language + pre_defined
    make_full_box(b"mdhd", 0, [0, 0, 0], &body)
}

fn hdlr(handler: &[u8; 4]) -> Vec<u8> {
    let mut body = Vec::with_capacity(20);
    body.extend_from_slice(&[0u8; 4]); // pre_defined
    body.extend_from_slice(handler);
    body.extend_from_slice(&[0u8; 12]); // reserved
    body.push(0);
    make_full_box(b"hdlr", 0, [0, 0, 0], &body)
}

fn avc1_sample_entry() -> Vec<u8> {
    let mut body = Vec::with_capacity(78);
    body.extend_from_slice(&[0u8; 6]); // reserved
    body.extend_from_slice(&[0, 1]); // data_reference_index
    body.extend_from_slice(&[0u8; 16]); // pre_defined + reserved
    body.extend_from_slice(&[0x07, 0x80]); // width = 1920
    body.extend_from_slice(&[0x04, 0x38]); // height = 1080
    body.extend_from_slice(&[0u8; 4]);
    body.extend_from_slice(&[0u8; 4]);
    body.extend_from_slice(&[0u8; 4]);
    body.extend_from_slice(&[0, 1]); // frame_count
    body.extend_from_slice(&[0u8; 32]); // compressorname
    body.extend_from_slice(&[0, 24]); // depth
    body.extend_from_slice(&[0xff, 0xff]); // pre_defined
    make_box(b"avc1", &body)
}

fn mp4a_sample_entry() -> Vec<u8> {
    let mut body = Vec::with_capacity(28);
    body.extend_from_slice(&[0u8; 6]); // reserved
    body.extend_from_slice(&[0, 1]); // data_reference_index
    body.extend_from_slice(&[0, 0]); // version
    body.extend_from_slice(&[0, 0]); // revision
    body.extend_from_slice(&[0u8; 4]); // vendor
    body.extend_from_slice(&[0, 2]); // channel_count = 2
    body.extend_from_slice(&[0, 16]); // samplesize
    body.extend_from_slice(&[0, 0]); // compression_id
    body.extend_from_slice(&[0, 0]); // packet_size
    body.extend_from_slice(&(48_000u32 << 16).to_be_bytes());
    make_box(b"mp4a", &body)
}

fn stsd(entry: &[u8]) -> Vec<u8> {
    let mut body = Vec::new();
    body.extend_from_slice(&1u32.to_be_bytes());
    body.extend_from_slice(entry);
    make_full_box(b"stsd", 0, [0, 0, 0], &body)
}

fn stts_constant(count: u32, delta: u32) -> Vec<u8> {
    let mut body = Vec::new();
    body.extend_from_slice(&1u32.to_be_bytes()); // entry_count
    body.extend_from_slice(&count.to_be_bytes());
    body.extend_from_slice(&delta.to_be_bytes());
    make_full_box(b"stts", 0, [0, 0, 0], &body)
}

fn stsc_one_chunk(samples_per_chunk: u32) -> Vec<u8> {
    let mut body = Vec::new();
    body.extend_from_slice(&1u32.to_be_bytes()); // entry_count
    body.extend_from_slice(&1u32.to_be_bytes()); // first_chunk
    body.extend_from_slice(&samples_per_chunk.to_be_bytes());
    body.extend_from_slice(&1u32.to_be_bytes()); // sample_description_index
    make_full_box(b"stsc", 0, [0, 0, 0], &body)
}

fn stsz_constant(sample_size: u32, sample_count: u32) -> Vec<u8> {
    let mut body = Vec::new();
    body.extend_from_slice(&sample_size.to_be_bytes());
    body.extend_from_slice(&sample_count.to_be_bytes());
    make_full_box(b"stsz", 0, [0, 0, 0], &body)
}

fn stco(offset: u32) -> Vec<u8> {
    let mut body = Vec::new();
    body.extend_from_slice(&1u32.to_be_bytes()); // entry_count
    body.extend_from_slice(&offset.to_be_bytes());
    make_full_box(b"stco", 0, [0, 0, 0], &body)
}

fn stss(samples_one_indexed: &[u32]) -> Vec<u8> {
    let mut body = Vec::new();
    body.extend_from_slice(&(samples_one_indexed.len() as u32).to_be_bytes());
    for s in samples_one_indexed {
        body.extend_from_slice(&s.to_be_bytes());
    }
    make_full_box(b"stss", 0, [0, 0, 0], &body)
}

#[allow(clippy::too_many_arguments)]
fn build_stbl(
    sample_entry: &[u8],
    sample_count: u32,
    sample_size: u32,
    dts_delta: u32,
    chunk_offset: u32,
    stss_entries: Option<&[u32]>,
) -> Vec<u8> {
    let mut payload = Vec::new();
    payload.extend_from_slice(&stsd(sample_entry));
    payload.extend_from_slice(&stts_constant(sample_count, dts_delta));
    payload.extend_from_slice(&stsc_one_chunk(sample_count));
    payload.extend_from_slice(&stsz_constant(sample_size, sample_count));
    payload.extend_from_slice(&stco(chunk_offset));
    if let Some(samples) = stss_entries {
        payload.extend_from_slice(&stss(samples));
    }
    make_box(b"stbl", &payload)
}

#[allow(clippy::too_many_arguments)]
fn build_trak(
    track_id: u32,
    width: u32,
    height: u32,
    handler: &[u8; 4],
    timescale: u32,
    sample_entry: &[u8],
    sample_count: u32,
    sample_size: u32,
    dts_delta: u32,
    chunk_offset: u32,
    stss_entries: Option<&[u32]>,
) -> Vec<u8> {
    let mut payload = Vec::new();
    payload.extend_from_slice(&tkhd_v0(track_id, width, height));
    let stbl = build_stbl(
        sample_entry,
        sample_count,
        sample_size,
        dts_delta,
        chunk_offset,
        stss_entries,
    );
    let minf = make_box(b"minf", &stbl);
    let mut mdia_payload = Vec::new();
    mdia_payload.extend_from_slice(&mdhd_v0(timescale));
    mdia_payload.extend_from_slice(&hdlr(handler));
    mdia_payload.extend_from_slice(&minf);
    payload.extend_from_slice(&make_box(b"mdia", &mdia_payload));
    make_box(b"trak", &payload)
}

/// Build a 6-video / 6-audio synthetic MP4. The mdat is laid down last
/// (trailing-moov) so chunk offsets reach into a section the builder can
/// stream-read.
///
/// Timing summary:
/// - Video timescale 30, dts_delta 10 -> 6 samples = 60 ticks = 2 s.
/// - Sync samples at 1-indexed positions 1 and 4 -> 0-indexed [0, 3].
/// - Audio timescale 48 000, dts_delta 16 000 -> 6 samples = 96 000 ticks
///   ~ 2 s.
/// - Nominal cut 0.5 s = 15 video ticks -> snaps forward to the second
///   sync at video-DTS 30 -> segments [0..3) and [3..6).
/// - Audio split at video DTS 30 = 30 / 30 x 48 000 = 48 000 audio ticks.
///   After audio sample 3 cumulative DTS = 48 000 -> audio segments
///   [0..3) and [3..6).
fn synthetic_mp4() -> SyntheticMp4 {
    let video_count = 6u32;
    let video_size = 8u32; // each video sample 8 B
    let audio_count = 6u32;
    let audio_size = 4u32;
    let video_payload_bytes = video_count * video_size;
    let audio_payload_bytes = audio_count * audio_size;
    let mdat_payload_len = video_payload_bytes + audio_payload_bytes;

    // Compute moov size first so we know where mdat lands.
    // We build moov twice: once with placeholder offsets to size it,
    // once with the resolved offsets. This is fine because the box sizes
    // do not depend on the offset values.
    let placeholder_video_offset = 0u32;
    let placeholder_audio_offset = 0u32;
    let moov_placeholder = build_moov(
        placeholder_video_offset,
        placeholder_audio_offset,
        video_count,
        video_size,
        audio_count,
        audio_size,
    );
    let ftyp_bytes = ftyp();
    let mdat_header_offset = (ftyp_bytes.len() + moov_placeholder.len()) as u32;
    let mdat_payload_offset = mdat_header_offset + 8;
    let video_chunk_offset = mdat_payload_offset;
    let audio_chunk_offset = mdat_payload_offset + video_payload_bytes;

    let moov = build_moov(
        video_chunk_offset,
        audio_chunk_offset,
        video_count,
        video_size,
        audio_count,
        audio_size,
    );
    assert_eq!(moov.len(), moov_placeholder.len(), "moov layout stable");

    // mdat payload: 6 video samples then 6 audio samples.
    let mut mdat_payload = Vec::with_capacity(mdat_payload_len as usize);
    for i in 0..video_count {
        let mut tag = [b'V', b'D', b'_', b'_', b'_', b'_', b'_', b'0' + i as u8];
        tag[2] = b'0' + (i / 10) as u8;
        tag[3] = b'0' + (i % 10) as u8;
        mdat_payload.extend_from_slice(&tag);
    }
    for i in 0..audio_count {
        let tag = [b'A', b'D', b'0' + (i / 10) as u8, b'0' + (i % 10) as u8];
        mdat_payload.extend_from_slice(&tag);
    }
    let mdat_bytes = make_box(b"mdat", &mdat_payload);

    let mut bytes = Vec::with_capacity(ftyp_bytes.len() + moov.len() + mdat_bytes.len());
    bytes.extend_from_slice(&ftyp_bytes);
    bytes.extend_from_slice(&moov);
    bytes.extend_from_slice(&mdat_bytes);

    SyntheticMp4 {
        bytes,
        video_count,
        video_size,
        audio_count,
        audio_size,
        video_chunk_offset,
        audio_chunk_offset,
    }
}

fn build_moov(
    video_chunk_offset: u32,
    audio_chunk_offset: u32,
    video_count: u32,
    video_size: u32,
    audio_count: u32,
    audio_size: u32,
) -> Vec<u8> {
    let video_trak = build_trak(
        1,
        1920,
        1080,
        b"vide",
        30,
        &avc1_sample_entry(),
        video_count,
        video_size,
        10,
        video_chunk_offset,
        Some(&[1, 4]),
    );
    let audio_trak = build_trak(
        2,
        0,
        0,
        b"soun",
        48_000,
        &mp4a_sample_entry(),
        audio_count,
        audio_size,
        16_000,
        audio_chunk_offset,
        None,
    );
    let mut moov_payload = Vec::new();
    moov_payload.extend_from_slice(&video_trak);
    moov_payload.extend_from_slice(&audio_trak);
    make_box(b"moov", &moov_payload)
}

struct SyntheticMp4 {
    bytes: Vec<u8>,
    video_count: u32,
    video_size: u32,
    audio_count: u32,
    audio_size: u32,
    video_chunk_offset: u32,
    audio_chunk_offset: u32,
}

fn refusal(bytes: &[u8]) -> PackagerError {
    IndexBuilder::build(&SliceReader(bytes), bytes.len() as u64, secs(0.5)).expect_err("refused")
}

fn find(bytes: &[u8], name: &[u8; 4]) -> usize {
    bytes.windows(4).position(|w| w == name).expect("box")
}

fn renamed(from: &[u8; 4], to: &[u8; 4]) -> Vec<u8> {
    let mut bytes = synthetic_mp4().bytes;
    let at = find(&bytes, from);
    bytes[at..at + 4].copy_from_slice(to);
    bytes
}

#[test]
fn missing_boxes_are_named() {
    for (name, missing) in [
        (b"ftyp", "ftyp"),
        (b"moov", "moov"),
        (b"tkhd", "tkhd"),
        (b"mdia", "mdia"),
        (b"mdhd", "mdhd"),
        (b"hdlr", "hdlr"),
        (b"minf", "minf"),
        (b"stbl", "stbl"),
        (b"stsd", "stsd"),
        (b"stts", "stts"),
        (b"stsc", "stsc"),
        (b"stsz", "stsz"),
        (b"stco", "stco|co64"),
    ] {
        match refusal(&renamed(name, b"free")) {
            PackagerError::MissingAtom(atom) => assert_eq!(atom, missing),
            other => panic!("{missing}: got {other:?}"),
        }
    }
}

#[test]
fn track_layout_and_codecs_are_checked() {
    assert!(matches!(
        refusal(&renamed(b"trak", b"free")),
        PackagerError::UnsupportedTrackLayout { video: 0, audio: 1 }
    ));
    assert!(matches!(
        refusal(&renamed(b"soun", b"text")),
        PackagerError::UnsupportedTrackLayout { video: 1, audio: 0 }
    ));
    assert!(matches!(
        refusal(&renamed(b"avc1", b"vp09")),
        PackagerError::UnsupportedVideoCodec
    ));
    assert!(matches!(
        refusal(&renamed(b"mp4a", b"ac-3")),
        PackagerError::UnsupportedAudioCodec
    ));
}

#[test]
fn repeated_moov_and_truncated_containers_are_malformed() {
    let mut bytes = synthetic_mp4().bytes;
    bytes.extend_from_slice(&make_box(b"moov", &[]));
    assert!(matches!(
        refusal(&bytes),
        PackagerError::MalformedAtom {
            atom: "moov",
            reason: "more than one top-level moov"
        }
    ));
    let mut bytes = synthetic_mp4().bytes;
    bytes.extend_from_slice(&[0, 0, 0]);
    assert!(matches!(
        refusal(&bytes),
        PackagerError::MalformedAtom {
            atom: "<box-header>",
            reason: "fewer than 8 bytes remain for size and type"
        }
    ));
}

#[test]
fn field_faults_are_named() {
    let cases: Vec<(&[u8; 4], usize, u8, &str, &str)> = vec![
        (b"tkhd", 4, 2, "tkhd", "unsupported version"),
        (b"mdhd", 4, 2, "mdhd", "unsupported version"),
        (b"stts", 4, 1, "stts", "unsupported full-box version"),
        (b"stsc", 4, 1, "stsc", "unsupported full-box version"),
        (b"stsz", 4, 1, "stsz", "unsupported full-box version"),
        (b"stco", 4, 1, "stco", "unsupported full-box version"),
        (b"stts", 11, 2, "stts", "entry table size disagrees with entry_count"),
        (b"stsc", 23, 2, "stsc", "sample_description_index must be 1"),
        (b"stsd", 11, 2, "stsd", "entry_count must be 1"),
        (b"mp4a", 13, 2, "mp4a", "unsupported AudioSampleEntry version"),
        (b"mp4a", 20, 1, "mp4a", "channel_count exceeds u8 range"),
    ];
    for (name, at, value, atom, reason) in cases {
        let mut bytes = synthetic_mp4().bytes;
        let p = find(&bytes, name) + at;
        bytes[p] = value;
        match refusal(&bytes) {
            PackagerError::MalformedAtom {
                atom: got_atom,
                reason: got_reason,
            } => assert_eq!((got_atom, got_reason), (atom, reason)),
            other => panic!("{atom}: {reason}: got {other:?}"),
        }
    }
}

#[test]
fn table_contradictions_are_named() {
    let cases: Vec<(&[u8; 4], usize, u8, &str)> = vec![
        (b"stts", 15, 7, "stts run-counts exceed stsz sample count"),
        (b"stts", 15, 5, "stts run-counts disagree with stsz sample count"),
        (b"stsc", 15, 2, "stsc first entry does not start at chunk 1"),
        (b"stsc", 19, 7, "stsc sample count exceeds stsz"),
        (b"stsc", 19, 5, "stsc sample count disagrees with stsz"),
        (b"stss", 15, 0, "stss sample_number out of range"),
        (b"stss", 15, 7, "stss sample_number out of range"),
        (b"stss", 15, 2, "first video sample is not a sync sample"),
        (b"mdhd", 19, 0, "track timescale is zero"),
    ];
    for (name, at, value, reason) in cases {
        let mut bytes = synthetic_mp4().bytes;
        let p = find(&bytes, name) + at;
        bytes[p] = value;
        match refusal(&bytes) {
            PackagerError::SampleTableInconsistent(got) => assert_eq!(got, reason),
            other => panic!("{reason}: got {other:?}"),
        }
    }
}

/// Section payloads that an image must hold.
fn sections() -> Vec<(u32, Vec<u8>)> {
    let mut meta = vec![0u8; 24];
    meta[3] = 1;
    let table = vec![0u8; 8];
    vec![
        (KIND_VIDEO_TRACK_META, meta.clone()),
        (KIND_AUDIO_TRACK_META, meta),
        (KIND_VIDEO_SAMPLE_TABLE, table.clone()),
        (KIND_AUDIO_SAMPLE_TABLE, table.clone()),
        (KIND_SEGMENT_TABLE, table),
        (KIND_INIT_SEGMENT_BYTES, vec![1, 2, 3]),
    ]
}

fn image(sections: &[(u32, Vec<u8>)]) -> Vec<u8> {
    let mut bytes = vec![0u8; 56 + 16 * sections.len()];
    bytes[..4].copy_from_slice(b"HCMI");
    bytes[48..52].copy_from_slice(&(sections.len() as u32).to_be_bytes());
    for (i, (kind, payload)) in sections.iter().enumerate() {
        while bytes.len() % 8 != 0 {
            bytes.push(0);
        }
        let pos = 56 + 16 * i;
        let offset = bytes.len() as u64;
        bytes[pos..pos + 4].copy_from_slice(&kind.to_be_bytes());
        bytes[pos + 8..pos + 16].copy_from_slice(&offset.to_be_bytes());
        bytes.extend_from_slice(payload);
    }
    bytes
}

#[test]
fn missing_sections_are_named() {
    let all = sections();
    let view_bytes = image(&all);
    let view = IndexView::open(&view_bytes).expect("open");
    assert_eq!(view.segment_count(), 0);
    assert_eq!(view.init_segment_bytes(), &[1, 2, 3]);
    for (i, name) in [
        "missing VideoTrackMeta section",
        "missing AudioTrackMeta section",
        "missing VideoSampleTable section",
        "missing AudioSampleTable section",
        "missing SegmentTable section",
        "missing InitSegmentBytes section",
    ]
    .iter()
    .enumerate()
    {
        let mut some = all.clone();
        some.remove(i);
        match IndexView::open(&image(&some)) {
            Err(PackagerError::MalformedIndexSection(reason)) => assert_eq!(reason, *name),
            other => panic!("{name}: got {other:?}"),
        }
    }
}

#[test]
fn section_faults_are_named() {
    let cases: Vec<(usize, Vec<u8>, &str)> = vec![
        (0, vec![0; 16], "VideoTrackMeta truncated before sample_entry_size"),
        (1, vec![0; 16], "AudioTrackMeta truncated before sample_entry_size"),
        (
            0,
            [vec![0; 19], vec![9], vec![0; 4]].concat(),
            "VideoTrackMeta truncated before elst_size",
        ),
        (
            1,
            [vec![0; 23], vec![9]].concat(),
            "AudioTrackMeta truncated before elst end",
        ),
        (
            0,
            vec![0; 32],
            "VideoTrackMeta has non-canonical trailing padding",
        ),
        (
            1,
            [vec![0; 13], vec![1], vec![0; 10]].concat(),
            "AudioTrackMeta padding bytes are nonzero",
        ),
        (2, vec![0; 0], "VideoSampleTable shorter than 8-byte prefix"),
        (
            3,
            vec![0, 0, 0, 0, 0, 0, 0, 1],
            "AudioSampleTable padding word is nonzero",
        ),
        (
            3,
            vec![0, 0, 0, 1, 0, 0, 0, 0],
            "AudioSampleTable body length disagrees with n_samples",
        ),
        (
            4,
            vec![0, 0, 0, 1, 0, 0, 0, 0],
            "SegmentTable body length disagrees with n_segments",
        ),
        (
            4,
            vec![0, 0, 0, 0, 1, 0, 0, 0],
            "SegmentTable padding word is nonzero",
        ),
    ];
    for (i, payload, reason) in cases {
        let mut some = sections();
        if payload.is_empty() {
            // Only the last section may be empty.
            let (kind, _) = some.remove(i);
            some.push((kind, payload));
        } else {
            some[i].1 = payload;
        }
        match IndexView::open(&image(&some)) {
            Err(PackagerError::MalformedIndexSection(got)) => assert_eq!(got, reason),
            other => panic!("{reason}: got {other:?}"),
        }
    }
}

#[test]
fn directory_faults_are_named() {
    let good = image(&sections());
    let with = |at: usize, value: u8| {
        let mut bytes = good.clone();
        bytes[at] = value;
        bytes
    };
    let cases: Vec<(Vec<u8>, &str)> = vec![
        (good[..55].to_vec(), "file shorter than fixed header"),
        (with(55, 1), "reserved word at offset 52 is nonzero"),
        (with(51, 65), "section_count exceeds MAX_SECTIONS"),
        (with(51, 0), "section_count is zero"),
        (good[..100].to_vec(), "directory truncated"),
        (with(63, 1), "section directory _pad word is nonzero"),
        (with(71, 0), "first section offset does not equal header end"),
        (with(87, 0), "section offsets must be strictly ascending"),
        (with(150, 255), "last section offset exceeds file length"),
        (with(87, 177), "section offset is not 8-byte aligned"),
        (with(75, 1), "duplicate section kind"),
    ];
    for (bytes, reason) in cases {
        match IndexView::open(&bytes) {
            Err(PackagerError::MalformedIndexDirectory(got)) => assert_eq!(got, reason),
            other => panic!("{reason}: got {other:?}"),
        }
    }
}

fn one_segment(video_size: u32, segment: SegmentEntry) -> IndexView<'static> {
    let sample = |size| SampleEntry {
        offset: 0,
        size,
        dts_delta: 1,
        cts_offset: 0,
        flags: 1,
    };
    IndexView::from_parts(
        0,
        0,
        [0u8; 32],
        VideoTrackMeta {
            timescale: 1,
            fourcc: *b"avc1",
            width: 0,
            height: 0,
            sample_entry: &[],
            elst: &[],
        },
        AudioTrackMeta {
            timescale: 1,
            fourcc: *b"mp4a",
            sample_rate: 0,
            channel_count: 0,
            sample_entry: &[],
            elst: &[],
        },
        vec![sample(video_size)],
        vec![sample(1)],
        vec![segment],
        &[],
        None,
    )
}

fn segment(video: (u32, u32), audio: (u32, u32)) -> SegmentEntry {
    SegmentEntry {
        video_sample_start: video.0,
        video_sample_count: video.1,
        audio_sample_start: audio.0,
        audio_sample_count: audio.1,
        video_base_dts: 0,
        audio_base_dts: 0,
    }
}

#[test]
fn segments_that_cannot_be_assembled_are_refused() {
    let src = SliceReader(&[]);
    let mut out = Vec::new();
    for (s, reason) in [
        (
            segment((0, 2), (0, 1)),
            "segment sample range exceeds sample table length",
        ),
        (
            segment((0, 1), (u32::MAX, u32::MAX)),
            "segment sample range exceeds sample table length",
        ),
        (
            segment((1, 0), (0, 1)),
            "media segment with zero video or audio samples",
        ),
    ] {
        match write_media_segment(&one_segment(1, s), 0, &src, &mut out) {
            Err(PackagerError::Io(IoError::BadSegment { reason: got })) => assert_eq!(got, reason),
            other => panic!("{reason}: got {other:?}"),
        }
    }
    match write_media_segment(
        &one_segment(u32::MAX, segment((0, 1), (0, 1))),
        0,
        &src,
        &mut out,
    ) {
        Err(PackagerError::Io(IoError::MdatTooLarge { size })) => {
            assert_eq!(size, u64::from(u32::MAX) + 9)
        }
        other => panic!("expected MdatTooLarge, got {other:?}"),
    }
}

#[test]
fn refused_playlists_write_nothing() {
    let mut out = vec![5u8];
    let view = one_segment(1, segment((0, 2), (0, 1)));
    assert!(write_media_playlist(&view, &mut out).is_err());
    assert_eq!(out, vec![5]);
}

#[test]
fn hashing_past_the_end_is_reported() {
    let bytes = [1u8, 2, 3];
    match blake3_of_source(&SliceReader(&bytes), 5) {
        Err(PackagerError::Io(IoError::SourceTruncated { offset, remaining })) => {
            assert_eq!((offset, remaining), (3, 2))
        }
        other => panic!("expected SourceTruncated, got {other:?}"),
    }
    assert_eq!(
        blake3_of_source(&SliceReader(&bytes), 2).unwrap(),
        *blake3::hash(&bytes[..2]).as_bytes()
    );
}
