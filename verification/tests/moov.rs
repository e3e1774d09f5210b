//! `moov` parser.

use cmafly::demux::moov::parse_top_level;
use cmafly::demux::reader::read_exact;
use cmafly::{PackagerError, SliceReader};

fn fcc(name: &[u8; 4]) -> u32 {
    u32::from_be_bytes(*name)
}

fn make_box(fourcc: &[u8; 4], payload: &[u8]) -> Vec<u8> {
    let total = (8 + payload.len()) as u32;
    let mut out = Vec::with_capacity(total as usize);
    out.extend_from_slice(&total.to_be_bytes());
    out.extend_from_slice(fourcc);
    out.extend_from_slice(payload);
    out
}

fn make_full_box(fourcc: &[u8; 4], version: u8, flags: [u8; 3], body: &[u8]) -> Vec<u8> {
    let mut payload = Vec::with_capacity(4 + body.len());
    payload.push(version);
    payload.extend_from_slice(&flags);
    payload.extend_from_slice(body);
    make_box(fourcc, &payload)
}

fn tkhd_v0(track_id: u32, width: u32, height: u32) -> Vec<u8> {
    let mut body = Vec::with_capacity(80);
    body.extend_from_slice(&[0u8; 8]); // ctime + mtime
    body.extend_from_slice(&track_id.to_be_bytes());
    body.extend_from_slice(&[0u8; 4]); // reserved
    body.extend_from_slice(&[0u8; 4]); // duration
    body.extend_from_slice(&[0u8; 8]); // reserved
    body.extend_from_slice(&[0u8; 2]); // layer
    body.extend_from_slice(&[0u8; 2]); // alternate_group
    body.extend_from_slice(&[0u8; 2]); // volume
    body.extend_from_slice(&[0u8; 2]); // reserved
    body.extend_from_slice(&[0u8; 36]); // matrix
    body.extend_from_slice(&(width << 16).to_be_bytes());
    body.extend_from_slice(&(height << 16).to_be_bytes());
    make_full_box(b"tkhd", 0, [0, 0, 0], &body)
}

fn mdhd_v0(timescale: u32) -> Vec<u8> {
    let mut body = Vec::with_capacity(20);
    body.extend_from_slice(&[0u8; 4]); // ctime
    body.extend_from_slice(&[0u8; 4]); // mtime
    body.extend_from_slice(&timescale.to_be_bytes());
    body.extend_from_slice(&[0u8; 4]); // duration
    body.extend_from_slice(&[0u8; 4]); // language + pre_defined
    make_full_box(b"mdhd", 0, [0, 0, 0], &body)
}

fn hdlr(handler: &[u8; 4]) -> Vec<u8> {
    let mut body = Vec::with_capacity(20);
    body.extend_from_slice(&[0u8; 4]); // pre_defined
    body.extend_from_slice(handler);
    body.extend_from_slice(&[0u8; 12]); // reserved
    body.push(0); // empty name
    make_full_box(b"hdlr", 0, [0, 0, 0], &body)
}

fn avc1_sample_entry() -> Vec<u8> {
    // SampleEntry(8) + VisualSampleEntry(70) = 78 bytes payload, no children.
    let mut body = Vec::with_capacity(78);
    body.extend_from_slice(&[0u8; 6]); // reserved
    body.extend_from_slice(&[0, 1]); // data_reference_index = 1
    body.extend_from_slice(&[0u8; 16]); // pre_defined + reserved
    body.extend_from_slice(&[0x07, 0x80]); // width = 1920
    body.extend_from_slice(&[0x04, 0x38]); // height = 1080
    body.extend_from_slice(&[0u8; 4]); // horizresolution
    body.extend_from_slice(&[0u8; 4]); // vertresolution
    body.extend_from_slice(&[0u8; 4]); // reserved
    body.extend_from_slice(&[0, 1]); // frame_count
    body.extend_from_slice(&[0u8; 32]); // compressorname
    body.extend_from_slice(&[0, 24]); // depth
    body.extend_from_slice(&[0xff, 0xff]); // pre_defined
    make_box(b"avc1", &body)
}

fn mp4a_sample_entry(sample_rate: u32, channels: u16) -> Vec<u8> {
    let mut body = Vec::with_capacity(28);
    body.extend_from_slice(&[0u8; 6]); // reserved
    body.extend_from_slice(&[0, 1]); // data_reference_index
    body.extend_from_slice(&[0, 0]); // version (V0)
    body.extend_from_slice(&[0, 0]); // revision_level
    body.extend_from_slice(&[0u8; 4]); // vendor
    body.extend_from_slice(&channels.to_be_bytes());
    body.extend_from_slice(&[0, 16]); // samplesize
    body.extend_from_slice(&[0, 0]); // compression_id
    body.extend_from_slice(&[0, 0]); // packet_size
    body.extend_from_slice(&(sample_rate << 16).to_be_bytes());
    make_box(b"mp4a", &body)
}

fn stsd(entry: &[u8]) -> Vec<u8> {
    let mut body = Vec::new();
    body.extend_from_slice(&1u32.to_be_bytes()); // entry_count
    body.extend_from_slice(entry);
    make_full_box(b"stsd", 0, [0, 0, 0], &body)
}

fn empty_full(fourcc: &[u8; 4]) -> Vec<u8> {
    // Most of the sample-table full boxes are version+flags + 4-byte
    // entry_count + entries. Empty entries -> entry_count = 0.
    make_full_box(fourcc, 0, [0, 0, 0], &0u32.to_be_bytes())
}

fn stsz_empty() -> Vec<u8> {
    // version+flags + sample_size + sample_count.
    let mut body = Vec::new();
    body.extend_from_slice(&0u32.to_be_bytes()); // sample_size = 0 (per-sample table follows)
    body.extend_from_slice(&0u32.to_be_bytes()); // sample_count
    make_full_box(b"stsz", 0, [0, 0, 0], &body)
}

fn stbl(sample_entry_box: &[u8]) -> Vec<u8> {
    let mut payload = Vec::new();
    payload.extend_from_slice(&stsd(sample_entry_box));
    payload.extend_from_slice(&empty_full(b"stts"));
    payload.extend_from_slice(&empty_full(b"stsc"));
    payload.extend_from_slice(&stsz_empty());
    payload.extend_from_slice(&empty_full(b"stco"));
    make_box(b"stbl", &payload)
}

fn minf(stbl_box: &[u8]) -> Vec<u8> {
    make_box(b"minf", stbl_box)
}

fn mdia(timescale: u32, handler: &[u8; 4], stbl_box: &[u8]) -> Vec<u8> {
    let mut payload = Vec::new();
    payload.extend_from_slice(&mdhd_v0(timescale));
    payload.extend_from_slice(&hdlr(handler));
    payload.extend_from_slice(&minf(stbl_box));
    make_box(b"mdia", &payload)
}

fn trak_video() -> Vec<u8> {
    let mut payload = Vec::new();
    payload.extend_from_slice(&tkhd_v0(1, 1920, 1080));
    payload.extend_from_slice(&mdia(90_000, b"vide", &stbl(&avc1_sample_entry())));
    make_box(b"trak", &payload)
}

fn trak_audio() -> Vec<u8> {
    let mut payload = Vec::new();
    payload.extend_from_slice(&tkhd_v0(2, 0, 0));
    payload.extend_from_slice(&mdia(48_000, b"soun", &stbl(&mp4a_sample_entry(48_000, 2))));
    make_box(b"trak", &payload)
}

fn ftyp(major: &[u8; 4], compat: &[&[u8; 4]]) -> Vec<u8> {
    let mut body = Vec::new();
    body.extend_from_slice(major);
    body.extend_from_slice(&0u32.to_be_bytes()); // minor
    for b in compat {
        body.extend_from_slice(*b);
    }
    make_box(b"ftyp", &body)
}

fn make_minimal_mp4() -> Vec<u8> {
    let mut bytes = Vec::new();
    bytes.extend_from_slice(&ftyp(b"mp42", &[b"isom", b"mp42"]));
    let mut moov_payload = Vec::new();
    moov_payload.extend_from_slice(&trak_video());
    moov_payload.extend_from_slice(&trak_audio());
    bytes.extend_from_slice(&make_box(b"moov", &moov_payload));
    bytes
}

#[test]
fn parses_minimal_dual_track_mp4() {
    let bytes = make_minimal_mp4();
    let reader = SliceReader(&bytes);
    let parse = parse_top_level(&reader, bytes.len() as u64).unwrap();

    assert_eq!(parse.video.timescale, 90_000);
    assert_eq!(parse.video.fourcc, fcc(b"avc1"));
    assert_eq!(parse.video.width, 1920);
    assert_eq!(parse.video.height, 1080);
    assert!(parse.video.elst.is_none());

    assert_eq!(parse.audio.timescale, 48_000);
    assert_eq!(parse.audio.fourcc, fcc(b"mp4a"));
    assert_eq!(parse.audio.sample_rate, 48_000);
    assert_eq!(parse.audio.channel_count, 2);

    // Sample-entry byte range: read it back and confirm it equals the
    // exact `avc1` box bytes we synthesized.
    let mut buf = vec![0u8; parse.video.sample_entry.len as usize];
    read_exact(&reader, parse.video.sample_entry.offset, &mut buf)
        .unwrap();
    assert_eq!(buf, avc1_sample_entry());
}

#[test]
fn rejects_unknown_brand() {
    let mut bytes = Vec::new();
    bytes.extend_from_slice(&ftyp(b"qqqq", &[b"qqqq"]));
    let mut moov_payload = Vec::new();
    moov_payload.extend_from_slice(&trak_video());
    moov_payload.extend_from_slice(&trak_audio());
    bytes.extend_from_slice(&make_box(b"moov", &moov_payload));

    let reader = SliceReader(&bytes);
    let err = parse_top_level(&reader, bytes.len() as u64).unwrap_err();
    assert!(matches!(err, PackagerError::UnsupportedBrand));
}

#[test]
fn rejects_top_level_moof() {
    let mut bytes = Vec::new();
    bytes.extend_from_slice(&ftyp(b"mp42", &[]));
    bytes.extend_from_slice(&make_box(b"moof", &[]));
    let mut moov_payload = Vec::new();
    moov_payload.extend_from_slice(&trak_video());
    moov_payload.extend_from_slice(&trak_audio());
    bytes.extend_from_slice(&make_box(b"moov", &moov_payload));

    let reader = SliceReader(&bytes);
    let err = parse_top_level(&reader, bytes.len() as u64).unwrap_err();
    assert!(matches!(err, PackagerError::FragmentedInput));
}

#[test]
fn rejects_video_only() {
    let mut bytes = Vec::new();
    bytes.extend_from_slice(&ftyp(b"mp42", &[]));
    bytes.extend_from_slice(&make_box(b"moov", &trak_video()));

    let reader = SliceReader(&bytes);
    let err = parse_top_level(&reader, bytes.len() as u64).unwrap_err();
    assert!(matches!(
        err,
        PackagerError::UnsupportedTrackLayout { video: 1, audio: 0 }
    ));
}

#[test]
fn rejects_unsupported_video_codec() {
    let mut bytes = Vec::new();
    bytes.extend_from_slice(&ftyp(b"mp42", &[]));
    let mut payload = Vec::new();
    payload.extend_from_slice(&tkhd_v0(1, 1920, 1080));
    // Replace avc1 with vp09 (not in allow-list).
    let mut entry = avc1_sample_entry();
    entry[4..8].copy_from_slice(b"vp09");
    payload.extend_from_slice(&mdia(90_000, b"vide", &stbl(&entry)));
    let video = make_box(b"trak", &payload);
    let mut moov_payload = Vec::new();
    moov_payload.extend_from_slice(&video);
    moov_payload.extend_from_slice(&trak_audio());
    bytes.extend_from_slice(&make_box(b"moov", &moov_payload));

    let reader = SliceReader(&bytes);
    let err = parse_top_level(&reader, bytes.len() as u64).unwrap_err();
    assert!(matches!(err, PackagerError::UnsupportedVideoCodec));
}

#[test]
fn captures_edts_passthrough() {
    // Wrap the video trak with an `edts` box and verify the byte range.
    let mut payload = Vec::new();
    payload.extend_from_slice(&tkhd_v0(1, 1920, 1080));
    let edts_payload = b"\x00\x00\x00\x10elst\x00\x00\x00\x00\x00\x00\x00\x00";
    let edts = make_box(b"edts", edts_payload);
    payload.extend_from_slice(&edts);
    payload.extend_from_slice(&mdia(90_000, b"vide", &stbl(&avc1_sample_entry())));
    let video = make_box(b"trak", &payload);

    let mut bytes = Vec::new();
    bytes.extend_from_slice(&ftyp(b"mp42", &[]));
    let mut moov_payload = Vec::new();
    moov_payload.extend_from_slice(&video);
    moov_payload.extend_from_slice(&trak_audio());
    bytes.extend_from_slice(&make_box(b"moov", &moov_payload));

    let reader = SliceReader(&bytes);
    let parse = parse_top_level(&reader, bytes.len() as u64).unwrap();
    let elst = parse.video.elst.expect("edts captured");
    let mut buf = vec![0u8; elst.len as usize];
    read_exact(&reader, elst.offset, &mut buf).unwrap();
    assert_eq!(buf, edts);
}

#[test]
fn rejects_encryption_marker() {
    let mut bytes = Vec::new();
    bytes.extend_from_slice(&ftyp(b"mp42", &[]));
    bytes.extend_from_slice(&make_box(b"sinf", &[]));
    let mut moov_payload = Vec::new();
    moov_payload.extend_from_slice(&trak_video());
    moov_payload.extend_from_slice(&trak_audio());
    bytes.extend_from_slice(&make_box(b"moov", &moov_payload));

    let reader = SliceReader(&bytes);
    let err = parse_top_level(&reader, bytes.len() as u64).unwrap_err();
    assert!(matches!(err, PackagerError::EncryptedInput));
}

#[test]
fn rejects_extra_track_even_when_av_pair_present() {
    // 1 video + 1 audio + 1 hint trak - total != 2.
    let mut payload = Vec::new();
    payload.extend_from_slice(&tkhd_v0(3, 0, 0));
    payload.extend_from_slice(&mdia(90_000, b"hint", &stbl(&mp4a_sample_entry(48_000, 2))));
    let hint = make_box(b"trak", &payload);

    let mut bytes = Vec::new();
    bytes.extend_from_slice(&ftyp(b"mp42", &[]));
    let mut moov_payload = Vec::new();
    moov_payload.extend_from_slice(&trak_video());
    moov_payload.extend_from_slice(&trak_audio());
    moov_payload.extend_from_slice(&hint);
    bytes.extend_from_slice(&make_box(b"moov", &moov_payload));

    let reader = SliceReader(&bytes);
    let err = parse_top_level(&reader, bytes.len() as u64).unwrap_err();
    assert!(matches!(
        err,
        PackagerError::UnsupportedTrackLayout { video: 1, audio: 1 }
    ));
}

#[test]
fn encrypted_sample_entry_reports_encrypted_input() {
    // `encv` is the standard "encrypted video" sample-entry fourcc; it
    // wraps a `sinf` child carrying the original codec scheme. Without
    // the verify_no_encryption check ordering, this would surface as
    // UnsupportedVideoCodec, which is misleading.
    let mut entry_body = Vec::new();
    entry_body.extend_from_slice(&[0u8; 6]); // reserved
    entry_body.extend_from_slice(&[0, 1]); // data_reference_index
    entry_body.extend_from_slice(&[0u8; 70]); // VisualSampleEntry rest
    entry_body.extend_from_slice(&make_box(b"sinf", b"")); // encryption marker
    let entry = make_box(b"encv", &entry_body);

    let mut payload = Vec::new();
    payload.extend_from_slice(&tkhd_v0(1, 1920, 1080));
    payload.extend_from_slice(&mdia(90_000, b"vide", &stbl(&entry)));
    let video = make_box(b"trak", &payload);

    let mut bytes = Vec::new();
    bytes.extend_from_slice(&ftyp(b"mp42", &[]));
    let mut moov_payload = Vec::new();
    moov_payload.extend_from_slice(&video);
    moov_payload.extend_from_slice(&trak_audio());
    bytes.extend_from_slice(&make_box(b"moov", &moov_payload));

    let reader = SliceReader(&bytes);
    let err = parse_top_level(&reader, bytes.len() as u64).unwrap_err();
    assert!(matches!(err, PackagerError::EncryptedInput));
}

#[test]
fn stsd_entry_count_above_one_rejected() {
    // Two sample-entry boxes inside stsd - still wrapped in a real moov
    // so the malformed atom is the only differentiator.
    let mut stsd_body = Vec::new();
    stsd_body.extend_from_slice(&2u32.to_be_bytes()); // entry_count
    stsd_body.extend_from_slice(&avc1_sample_entry());
    stsd_body.extend_from_slice(&avc1_sample_entry());
    let stsd = make_full_box(b"stsd", 0, [0, 0, 0], &stsd_body);

    let mut stbl_payload = Vec::new();
    stbl_payload.extend_from_slice(&stsd);
    stbl_payload.extend_from_slice(&empty_full(b"stts"));
    stbl_payload.extend_from_slice(&empty_full(b"stsc"));
    stbl_payload.extend_from_slice(&stsz_empty());
    stbl_payload.extend_from_slice(&empty_full(b"stco"));
    let stbl_box = make_box(b"stbl", &stbl_payload);

    let mut payload = Vec::new();
    payload.extend_from_slice(&tkhd_v0(1, 1920, 1080));
    payload.extend_from_slice(&mdia(90_000, b"vide", &stbl_box));
    let video = make_box(b"trak", &payload);

    let mut bytes = Vec::new();
    bytes.extend_from_slice(&ftyp(b"mp42", &[]));
    let mut moov_payload = Vec::new();
    moov_payload.extend_from_slice(&video);
    moov_payload.extend_from_slice(&trak_audio());
    bytes.extend_from_slice(&make_box(b"moov", &moov_payload));

    let reader = SliceReader(&bytes);
    let err = parse_top_level(&reader, bytes.len() as u64).unwrap_err();
    assert!(matches!(
        err,
        PackagerError::MalformedAtom { atom: "stsd", .. }
    ));
}
