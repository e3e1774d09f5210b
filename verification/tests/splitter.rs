//! Segment splitter.

use cmafly::demux::sample_table::RawSampleEntry;
use cmafly::segment::splitter::split;
use cmafly::{PackagerError, SegmentDuration};

fn secs(s: f64) -> SegmentDuration {
    SegmentDuration::from_bits(s.to_bits())
}

fn vsample(dts_delta: u32, is_sync: bool) -> RawSampleEntry {
    RawSampleEntry {
        offset: 0,
        size: 1,
        dts_delta,
        cts_offset: 0,
        is_sync,
    }
}

fn asample(dts_delta: u32) -> RawSampleEntry {
    RawSampleEntry {
        offset: 0,
        size: 1,
        dts_delta,
        cts_offset: 0,
        is_sync: true,
    }
}

/// 60 frames at 30 fps with sync every 30 frames, nominal 1.0 s ->
/// 2 segments of 30 video samples each.
#[test]
fn sync_every_30_frames_produces_two_one_second_segments() {
    let video: Vec<RawSampleEntry> = (0..60).map(|i| vsample(1, i % 30 == 0)).collect();
    let audio: Vec<RawSampleEntry> = (0..60).map(|_| asample(1)).collect();

    let segments = split(&video, &audio, 30, 30, secs(1.0)).expect("split succeeds");
    assert_eq!(segments.len(), 2);

    assert_eq!(segments[0].video_sample_start, 0);
    assert_eq!(segments[0].video_sample_count, 30);
    assert_eq!(segments[0].video_base_dts, 0);
    assert_eq!(segments[0].audio_sample_start, 0);
    assert_eq!(segments[0].audio_sample_count, 30);
    assert_eq!(segments[0].audio_base_dts, 0);

    assert_eq!(segments[1].video_sample_start, 30);
    assert_eq!(segments[1].video_sample_count, 30);
    assert_eq!(segments[1].video_base_dts, 30);
    assert_eq!(segments[1].audio_sample_start, 30);
    assert_eq!(segments[1].audio_sample_count, 30);
    assert_eq!(segments[1].audio_base_dts, 30);
}

/// 60 frames with a sync sample only at frame 0, nominal 1.0 s ->
/// 1 segment of 60 video samples (the tail-segment fallback).
#[test]
fn sparse_sync_yields_single_tail_segment() {
    let video: Vec<RawSampleEntry> = (0..60).map(|i| vsample(1, i == 0)).collect();
    let audio: Vec<RawSampleEntry> = (0..60).map(|_| asample(1)).collect();

    let segments = split(&video, &audio, 30, 30, secs(1.0)).expect("split succeeds");
    assert_eq!(segments.len(), 1);
    assert_eq!(segments[0].video_sample_start, 0);
    assert_eq!(segments[0].video_sample_count, 60);
    assert_eq!(segments[0].audio_sample_start, 0);
    assert_eq!(segments[0].audio_sample_count, 60);
    assert_eq!(segments[0].video_base_dts, 0);
    assert_eq!(segments[0].audio_base_dts, 0);
}

/// Audio in a different timescale than video. Boundary must respect
/// rational scaling: 30 video ticks @ ts=30 = 45 audio ticks @ ts=45.
#[test]
fn audio_split_respects_track_timescale_difference() {
    // Video: 60 frames at ts=30, sync every 30 frames (2 s of media).
    let video: Vec<RawSampleEntry> = (0..60).map(|i| vsample(1, i % 30 == 0)).collect();
    // Audio: 90 frames at ts=45, dts_delta=1 (also 2 s of media).
    let audio: Vec<RawSampleEntry> = (0..90).map(|_| asample(1)).collect();

    let segments = split(&video, &audio, 30, 45, secs(1.0)).expect("split succeeds");
    assert_eq!(segments.len(), 2);

    assert_eq!(segments[0].audio_sample_start, 0);
    assert_eq!(segments[0].audio_sample_count, 45);
    assert_eq!(segments[1].audio_sample_start, 45);
    assert_eq!(segments[1].audio_base_dts, 45);
    assert_eq!(segments[1].audio_sample_count, 45);

    // Audio coverage is contiguous and fully accounted for.
    assert_eq!(
        segments[0].audio_sample_start + segments[0].audio_sample_count,
        segments[1].audio_sample_start
    );
    assert_eq!(
        segments[1].audio_sample_start + segments[1].audio_sample_count,
        audio.len() as u32
    );
}

/// Sync samples land at non-uniform spacing; the first sync sample past
/// the nominal mark wins, even if a closer one came too early.
#[test]
fn cuts_snap_forward_to_next_sync_after_nominal() {
    // Sync at frames 0, 25, 70 in a 90-frame stream at ts=30, nominal=1.0 s.
    // At frame 25 elapsed is 25 ticks < 30, so the cut waits; at frame 70
    // elapsed is 70 >= 30, so the cut lands there.
    let video: Vec<RawSampleEntry> = (0..90)
        .map(|i| vsample(1, [0, 25, 70].contains(&i)))
        .collect();

    let audio: Vec<RawSampleEntry> = (0..90).map(|_| asample(1)).collect();
    let segments = split(&video, &audio, 30, 30, secs(1.0)).expect("split succeeds");
    assert_eq!(segments.len(), 2);
    assert_eq!(segments[0].video_sample_start, 0);
    assert_eq!(segments[0].video_sample_count, 70);
    assert_eq!(segments[1].video_sample_start, 70);
    assert_eq!(segments[1].video_sample_count, 20);
}

/// Fractional video->audio projection: an audio sample whose start lies
/// strictly before the real boundary must remain with the preceding
/// segment. Floor-division would have moved it forward.
#[test]
fn fractional_audio_boundary_keeps_straddling_sample_with_previous_segment() {
    // Cut at video DTS 2 in ts=3 (= 2/3 s). Projected to ts=4 that is
    // 8/3 = 2.666... - the audio sample starting at tick 2 still belongs
    // to segment 0; the sample starting at tick 3 opens segment 1.
    let video: Vec<RawSampleEntry> = (0..4).map(|i| vsample(1, i == 0 || i == 2)).collect();
    let audio: Vec<RawSampleEntry> = (0..5).map(|_| asample(1)).collect();

    let segments = split(&video, &audio, 3, 4, secs(0.5)).expect("split succeeds");
    assert_eq!(segments.len(), 2);

    assert_eq!(segments[0].video_sample_start, 0);
    assert_eq!(segments[0].video_sample_count, 2);
    assert_eq!(segments[0].audio_sample_start, 0);
    assert_eq!(segments[0].audio_sample_count, 3);

    assert_eq!(segments[1].video_sample_start, 2);
    assert_eq!(segments[1].video_sample_count, 2);
    assert_eq!(segments[1].audio_sample_start, 3);
    assert_eq!(segments[1].audio_sample_count, 2);
    assert_eq!(segments[1].audio_base_dts, 3);
}

#[test]
fn first_video_sample_must_be_sync() {
    let video = vec![vsample(1, false), vsample(1, true)];
    let audio = vec![asample(1)];
    let err = split(&video, &audio, 30, 30, secs(1.0)).unwrap_err();
    assert!(matches!(err, PackagerError::SampleTableInconsistent(_)));
}

#[test]
fn empty_video_rejected() {
    let video: Vec<RawSampleEntry> = vec![];
    let audio = vec![asample(1)];
    let err = split(&video, &audio, 30, 30, secs(1.0)).unwrap_err();
    assert!(matches!(err, PackagerError::SampleTableInconsistent(_)));
}

#[test]
fn empty_audio_rejected() {
    let video = vec![vsample(1, true)];
    let audio: Vec<RawSampleEntry> = vec![];
    let err = split(&video, &audio, 30, 30, secs(1.0)).unwrap_err();
    assert!(matches!(err, PackagerError::SampleTableInconsistent(_)));
}

#[test]
fn nonpositive_nominal_rejected() {
    let video = vec![vsample(1, true)];
    let audio = vec![asample(1)];
    for bad in [0.0_f64, -1.0, f64::NAN, f64::INFINITY] {
        let err = split(&video, &audio, 30, 30, secs(bad)).unwrap_err();
        assert!(matches!(err, PackagerError::SampleTableInconsistent(_)));
    }
}

#[test]
fn splitter_zero_timescale_rejected() {
    let video = vec![vsample(1, true)];
    let audio = vec![asample(1)];
    let err = split(&video, &audio, 0, 30, secs(1.0)).unwrap_err();
    assert!(matches!(err, PackagerError::SampleTableInconsistent(_)));
    let err = split(&video, &audio, 30, 0, secs(1.0)).unwrap_err();
    assert!(matches!(err, PackagerError::SampleTableInconsistent(_)));
}
