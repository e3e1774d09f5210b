//! Offline-indexer decisions.

use cmafly::indexer::{all_video_samples_sync, sync_note, tmp_sibling};
use cmafly::{PackagerError, SampleEntry};

fn sample(flags: u32) -> SampleEntry {
    SampleEntry {
        offset: 0,
        size: 1,
        dts_delta: 1,
        cts_offset: 0,
        flags,
    }
}

#[test]
fn tmp_sibling_appends_dot_tmp_to_dst() {
    let tmp = tmp_sibling("/tmp/foo.idx");
    assert_eq!(tmp, "/tmp/foo.idx.tmp");
}

#[test]
fn tmp_sibling_preserves_directory() {
    let tmp = tmp_sibling("/var/data/sub/out.idx");
    assert_eq!(tmp, "/var/data/sub/out.idx.tmp");
}

#[test]
fn note_heuristic_true_when_every_sample_sync() {
    let v = [sample(1), sample(1)];
    assert!(all_video_samples_sync(&v));
}

#[test]
fn note_heuristic_false_when_any_non_sync() {
    let v = [sample(1), sample(0), sample(1)];
    assert!(!all_video_samples_sync(&v));
}

#[test]
fn note_heuristic_false_for_empty() {
    assert!(!all_video_samples_sync(&[]));
}

/// Only bit 0 of the flags counts.
#[test]
fn note_heuristic_reads_bit_zero() {
    assert!(sample(3).is_sync());
    assert!(!sample(2).is_sync());
    assert!(!all_video_samples_sync(&[sample(1), sample(2)]));
}

#[test]
fn note_needs_an_index() {
    assert!(matches!(
        sync_note(&[0u8; 80]),
        Err(PackagerError::IndexMagicMismatch)
    ));
}
