//! Index view.

use cmafly::index::format::{
    HEADER_FIXED_LEN, KIND_AUDIO_SAMPLE_TABLE, KIND_AUDIO_TRACK_META, KIND_INIT_SEGMENT_BYTES,
    KIND_SEGMENT_TABLE, KIND_VIDEO_SAMPLE_TABLE, KIND_VIDEO_TRACK_META, MAGIC, MAX_SECTIONS,
    SECTION_DIR_ENTRY_LEN,
};
use cmafly::{IndexView, PackagerError, SampleEntry, SegmentEntry};

/// Build a minimal valid `.idx` byte image for `IndexView::open` tests.
/// Layout matches what `IndexBuilder::build` emits.
fn build_minimal_idx() -> Vec<u8> {
    let video_sample_entry = vec![0xAAu8, 0xBB, 0xCC];
    let audio_sample_entry = vec![0x11u8, 0x22];
    let init_bytes = vec![1u8, 2, 3, 4, 5];
    let blake3 = [0xEEu8; 32];

    let video_samples: Vec<SampleEntry> = vec![SampleEntry {
        offset: 100,
        size: 50,
        dts_delta: 3000,
        cts_offset: 0,
        flags: 1,
    }];
    let audio_samples: Vec<SampleEntry> = vec![SampleEntry {
        offset: 200,
        size: 30,
        dts_delta: 1024,
        cts_offset: 0,
        flags: 1,
    }];
    let segments: Vec<SegmentEntry> = vec![SegmentEntry {
        video_sample_start: 0,
        video_sample_count: 1,
        audio_sample_start: 0,
        audio_sample_count: 1,
        video_base_dts: 0,
        audio_base_dts: 0,
    }];

    // Build per-section payloads, then lay them out with inter-section
    // 8-byte padding only (no trailing padding after the last section,
    // because the final section's length is `file_len - directory[last]`,
    // and padding there would corrupt e.g. exact-bytes round-trip on
    // `init_segment_bytes()`).
    let mut sections: Vec<(u32, Vec<u8>)> = Vec::new();

    let mut s: Vec<u8> = Vec::new();
    s.extend_from_slice(&90_000u32.to_be_bytes());
    s.extend_from_slice(b"avc1");
    s.extend_from_slice(&1920u32.to_be_bytes());
    s.extend_from_slice(&1080u32.to_be_bytes());
    s.extend_from_slice(&(video_sample_entry.len() as u32).to_be_bytes());
    s.extend_from_slice(&video_sample_entry);
    s.extend_from_slice(&0u32.to_be_bytes());
    sections.push((KIND_VIDEO_TRACK_META, s));

    let mut s: Vec<u8> = Vec::new();
    s.extend_from_slice(&48_000u32.to_be_bytes());
    s.extend_from_slice(b"mp4a");
    s.extend_from_slice(&48_000u32.to_be_bytes());
    s.push(2u8);
    s.extend_from_slice(&[0u8; 3]);
    s.extend_from_slice(&(audio_sample_entry.len() as u32).to_be_bytes());
    s.extend_from_slice(&audio_sample_entry);
    s.extend_from_slice(&0u32.to_be_bytes());
    sections.push((KIND_AUDIO_TRACK_META, s));

    let mut s: Vec<u8> = Vec::new();
    s.extend_from_slice(&(video_samples.len() as u32).to_be_bytes());
    s.extend_from_slice(&0u32.to_be_bytes());
    for x in &video_samples {
        s.extend_from_slice(&x.offset.to_le_bytes());
        s.extend_from_slice(&x.size.to_le_bytes());
        s.extend_from_slice(&x.dts_delta.to_le_bytes());
        s.extend_from_slice(&x.cts_offset.to_le_bytes());
        s.extend_from_slice(&x.flags.to_le_bytes());
    }
    sections.push((KIND_VIDEO_SAMPLE_TABLE, s));

    let mut s: Vec<u8> = Vec::new();
    s.extend_from_slice(&(audio_samples.len() as u32).to_be_bytes());
    s.extend_from_slice(&0u32.to_be_bytes());
    for x in &audio_samples {
        s.extend_from_slice(&x.offset.to_le_bytes());
        s.extend_from_slice(&x.size.to_le_bytes());
        s.extend_from_slice(&x.dts_delta.to_le_bytes());
        s.extend_from_slice(&x.cts_offset.to_le_bytes());
        s.extend_from_slice(&x.flags.to_le_bytes());
    }
    sections.push((KIND_AUDIO_SAMPLE_TABLE, s));

    let mut s: Vec<u8> = Vec::new();
    s.extend_from_slice(&(segments.len() as u32).to_be_bytes());
    s.extend_from_slice(&0u32.to_be_bytes());
    for x in &segments {
        s.extend_from_slice(&x.video_sample_start.to_le_bytes());
        s.extend_from_slice(&x.video_sample_count.to_le_bytes());
        s.extend_from_slice(&x.audio_sample_start.to_le_bytes());
        s.extend_from_slice(&x.audio_sample_count.to_le_bytes());
        s.extend_from_slice(&x.video_base_dts.to_le_bytes());
        s.extend_from_slice(&x.audio_base_dts.to_le_bytes());
    }
    sections.push((KIND_SEGMENT_TABLE, s));

    sections.push((KIND_INIT_SEGMENT_BYTES, init_bytes.clone()));

    let n_sections = sections.len();
    let header_end = HEADER_FIXED_LEN + n_sections * SECTION_DIR_ENTRY_LEN;
    let mut bytes: Vec<u8> = vec![0u8; header_end];
    assert_eq!(bytes.len() % 8, 0);

    let mut directory: Vec<(u32, u64)> = Vec::with_capacity(n_sections);
    for (i, (kind, content)) in sections.iter().enumerate() {
        let off = bytes.len() as u64;
        assert_eq!(off % 8, 0);
        bytes.extend_from_slice(content);
        directory.push((*kind, off));
        if i + 1 < n_sections {
            let rem = bytes.len() & 7;
            if rem != 0 {
                bytes.resize(bytes.len() + (8 - rem), 0);
            }
        }
    }

    bytes[0..4].copy_from_slice(&MAGIC.to_be_bytes());
    bytes[4..8].copy_from_slice(&77u32.to_be_bytes());
    bytes[8..16].copy_from_slice(&12_345u64.to_be_bytes());
    bytes[16..48].copy_from_slice(&blake3);
    bytes[48..52].copy_from_slice(&(n_sections as u32).to_be_bytes());
    bytes[52..56].copy_from_slice(&0u32.to_be_bytes());

    for (i, (kind, offset)) in directory.iter().enumerate() {
        let pos = HEADER_FIXED_LEN + i * SECTION_DIR_ENTRY_LEN;
        bytes[pos..pos + 4].copy_from_slice(&kind.to_be_bytes());
        bytes[pos + 4..pos + 8].copy_from_slice(&0u32.to_be_bytes());
        bytes[pos + 8..pos + 16].copy_from_slice(&offset.to_be_bytes());
    }

    bytes
}

#[test]
fn open_minimal_idx_round_trips_accessors() {
    let buf = build_minimal_idx();
    let view = IndexView::open(buf.as_slice()).expect("open");
    assert_eq!(view.max_segment_size(), 77);
    assert_eq!(view.source_mp4_len(), 12_345);
    assert_eq!(view.source_mp4_blake3(), &[0xEEu8; 32]);
    assert_eq!(view.video_track().timescale, 90_000);
    assert_eq!(view.video_track().fourcc, *b"avc1");
    assert_eq!(view.video_track().width, 1920);
    assert_eq!(view.video_track().height, 1080);
    assert_eq!(view.video_track().sample_entry, &[0xAAu8, 0xBB, 0xCC]);
    assert!(view.video_track().elst.is_empty());
    assert_eq!(view.audio_track().timescale, 48_000);
    assert_eq!(view.audio_track().fourcc, *b"mp4a");
    assert_eq!(view.audio_track().sample_rate, 48_000);
    assert_eq!(view.audio_track().channel_count, 2);
    assert_eq!(view.audio_track().sample_entry, &[0x11u8, 0x22]);
    assert!(view.audio_track().elst.is_empty());
    assert_eq!(view.video_samples().len(), 1);
    assert_eq!(view.video_samples()[0].offset, 100);
    assert_eq!(view.video_samples()[0].size, 50);
    assert_eq!(view.audio_samples().len(), 1);
    assert_eq!(view.audio_samples()[0].size, 30);
    assert_eq!(view.segments().len(), 1);
    assert_eq!(view.segments()[0].video_sample_count, 1);
    assert_eq!(view.init_segment_bytes(), &[1u8, 2, 3, 4, 5]);
    assert!(view.playlist_bytes().is_none());
}

#[test]
fn nonzero_track_meta_trailing_padding_returns_malformed_section() {
    // Layout of the synthetic VideoTrackMeta payload from
    // `build_minimal_idx`:
    //   timescale(4) + fourcc(4) + width(4) + height(4) +
    //   sample_entry_size(4) + sample_entry_bytes(3) +
    //   elst_size(4) = 27 bytes.
    // The first byte after that is inter-section zero pad. Flip it
    // to a non-zero and confirm the parser rejects.
    let mut buf = build_minimal_idx();
    let off_pos = HEADER_FIXED_LEN + 8;
    let video_meta_start =
        u64::from_be_bytes(buf.as_slice()[off_pos..off_pos + 8].try_into().unwrap()) as usize;
    let trailing_pad_offset = video_meta_start + 27;
    buf.as_mut_slice()[trailing_pad_offset] = 0xFF;

    assert!(matches!(
        IndexView::open(buf.as_slice()),
        Err(PackagerError::MalformedIndexSection(_)),
    ));
}

#[test]
fn corrupt_magic_returns_index_magic_mismatch() {
    let mut buf = build_minimal_idx();
    buf.as_mut_slice()[0] = b'X';
    assert!(matches!(
        IndexView::open(buf.as_slice()),
        Err(PackagerError::IndexMagicMismatch),
    ));
}

#[test]
fn truncated_header_returns_malformed_directory() {
    let raw = build_minimal_idx();
    let short = raw[..40].to_vec();
    assert!(matches!(
        IndexView::open(short.as_slice()),
        Err(PackagerError::MalformedIndexDirectory(_)),
    ));
}

#[test]
fn section_count_above_max_returns_malformed_directory() {
    let mut buf = build_minimal_idx();
    buf.as_mut_slice()[48..52].copy_from_slice(&((MAX_SECTIONS as u32) + 1).to_be_bytes());
    assert!(matches!(
        IndexView::open(buf.as_slice()),
        Err(PackagerError::MalformedIndexDirectory(_)),
    ));
}

#[test]
fn nonzero_reserved_returns_malformed_directory() {
    let mut buf = build_minimal_idx();
    buf.as_mut_slice()[52..56].copy_from_slice(&1u32.to_be_bytes());
    assert!(matches!(
        IndexView::open(buf.as_slice()),
        Err(PackagerError::MalformedIndexDirectory(_)),
    ));
}

#[test]
fn duplicate_section_kind_returns_malformed_directory() {
    let mut buf = build_minimal_idx();
    // Overwrite the second directory entry's kind to match the first.
    let pos = HEADER_FIXED_LEN + SECTION_DIR_ENTRY_LEN;
    buf.as_mut_slice()[pos..pos + 4].copy_from_slice(&KIND_VIDEO_TRACK_META.to_be_bytes());
    assert!(matches!(
        IndexView::open(buf.as_slice()),
        Err(PackagerError::MalformedIndexDirectory(_)),
    ));
}

#[test]
fn non_ascending_offsets_return_malformed_directory() {
    let mut buf = build_minimal_idx();
    // Swap the first two directory entries' offsets - first now points
    // past the second.
    let pos1 = HEADER_FIXED_LEN + 8;
    let pos2 = HEADER_FIXED_LEN + SECTION_DIR_ENTRY_LEN + 8;
    let off1 = u64::from_be_bytes(buf.as_slice()[pos1..pos1 + 8].try_into().unwrap());
    let off2 = u64::from_be_bytes(buf.as_slice()[pos2..pos2 + 8].try_into().unwrap());
    buf.as_mut_slice()[pos1..pos1 + 8].copy_from_slice(&off2.to_be_bytes());
    buf.as_mut_slice()[pos2..pos2 + 8].copy_from_slice(&off1.to_be_bytes());
    assert!(matches!(
        IndexView::open(buf.as_slice()),
        Err(PackagerError::MalformedIndexDirectory(_)),
    ));
}

#[test]
fn misaligned_section_offset_returns_malformed_directory() {
    let mut buf = build_minimal_idx();
    // Bump the first section offset by 1 - now no longer 8-aligned.
    let pos = HEADER_FIXED_LEN + 8;
    let off = u64::from_be_bytes(buf.as_slice()[pos..pos + 8].try_into().unwrap());
    buf.as_mut_slice()[pos..pos + 8].copy_from_slice(&(off + 1).to_be_bytes());
    assert!(matches!(
        IndexView::open(buf.as_slice()),
        Err(PackagerError::MalformedIndexDirectory(_)),
    ));
}

#[test]
fn first_offset_below_header_end_returns_malformed_directory() {
    let mut buf = build_minimal_idx();
    let pos = HEADER_FIXED_LEN + 8;
    // Force the first offset to 8 - way before header_end.
    buf.as_mut_slice()[pos..pos + 8].copy_from_slice(&8u64.to_be_bytes());
    assert!(matches!(
        IndexView::open(buf.as_slice()),
        Err(PackagerError::MalformedIndexDirectory(_)),
    ));
}
