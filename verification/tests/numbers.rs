//! Roundings, against the floating-point unit.

use cmafly::playlist::write_media_playlist;
use cmafly::{AudioTrackMeta, IndexView, SampleEntry, SegmentDuration, SegmentEntry, VideoTrackMeta};

/// A small generator of test values.
struct Lcg(u64);

impl Lcg {
    fn next(&mut self) -> u64 {
        self.0 = self.0.wrapping_mul(6364136223846793005).wrapping_add(1442695040888963407);
        self.0 ^ (self.0 >> 29)
    }
}

fn float_ticks(secs: f64, timescale: u32) -> u64 {
    ((secs * f64::from(timescale)).ceil() as u64).max(1)
}

#[test]
fn durations_in_ticks_match_floating_point() {
    let mut cases: Vec<f64> = vec![
        0.1, 0.2, 0.3, 0.5, 1.0, 1.001, 2.0, 6.0, 6.006, 10.0, 1e-9, 1e-300, 5e-324, 1e18, 1e300,
        f64::MAX, f64::MIN_POSITIVE, 4.35, 1.0 / 3.0, 9007199254740993.0, 18446744073709551615.0,
    ];
    let mut gen = Lcg(7);
    for _ in 0..3000 {
        let x = f64::from_bits(gen.next() & 0x7fff_ffff_ffff_ffff);
        if x.is_finite() && x > 0.0 {
            cases.push(x);
        }
        cases.push((gen.next() % 1_000_000) as f64 / 7919.0 + 1e-6);
    }
    for secs in cases {
        for timescale in [1u32, 3, 30, 90_000, 48_000, 44_100, 1_000_003, u32::MAX] {
            let d = SegmentDuration::from_bits(secs.to_bits());
            assert!(d.is_valid());
            assert_eq!(
                d.ticks(timescale),
                float_ticks(secs, timescale),
                "{secs:e} at {timescale}"
            );
        }
    }
}

#[test]
fn invalid_durations_are_told_apart() {
    for bad in [0.0, -0.0, -1.0, f64::NAN, -f64::NAN, f64::INFINITY, f64::NEG_INFINITY] {
        assert!(!SegmentDuration::from_bits(bad.to_bits()).is_valid());
    }
}

/// The playlist of segments with the given durations.
fn playlist_for(ticks: &[Vec<u32>], timescale: u32) -> String {
    let mut samples = Vec::new();
    let mut segments = Vec::new();
    for deltas in ticks {
        segments.push(SegmentEntry {
            video_sample_start: samples.len() as u32,
            video_sample_count: deltas.len() as u32,
            audio_sample_start: 0,
            audio_sample_count: 0,
            video_base_dts: 0,
            audio_base_dts: 0,
        });
        for d in deltas {
            samples.push(SampleEntry {
                offset: 0,
                size: 1,
                dts_delta: *d,
                cts_offset: 0,
                flags: 1,
            });
        }
    }
    let view = IndexView::from_parts(
        0,
        0,
        [0u8; 32],
        VideoTrackMeta {
            timescale,
            fourcc: *b"avc1",
            width: 0,
            height: 0,
            sample_entry: &[],
            elst: &[],
        },
        AudioTrackMeta {
            timescale: 1,
            fourcc: *b"mp4a",
            sample_rate: 0,
            channel_count: 0,
            sample_entry: &[],
            elst: &[],
        },
        samples,
        Vec::new(),
        segments,
        &[],
        None,
    );
    let mut out = Vec::new();
    write_media_playlist(&view, &mut out).expect("write");
    String::from_utf8(out).expect("ascii")
}

#[test]
fn printed_durations_match_floating_point() {
    let mut gen = Lcg(11);
    for timescale in [1u32, 7, 30, 64, 128, 256, 1000, 24_000, 44_100, 90_000, 1 << 31, u32::MAX] {
        let mut segments: Vec<Vec<u32>> = vec![vec![0], vec![1], vec![2], vec![3], vec![u32::MAX]];
        for _ in 0..200 {
            let n = (gen.next() % 4) as usize;
            segments.push((0..n).map(|_| gen.next() as u32).collect());
            segments.push(vec![(gen.next() % 100_000) as u32]);
        }
        let text = playlist_for(&segments, timescale);
        let printed: Vec<&str> = text
            .lines()
            .filter(|l| l.starts_with("#EXTINF:"))
            .collect();
        assert_eq!(printed.len(), segments.len());
        let mut longest = 0u64;
        for (line, deltas) in printed.iter().zip(&segments) {
            let ticks: u64 = deltas.iter().map(|d| u64::from(*d)).sum();
            longest = longest.max(ticks);
            let secs = (ticks as f64) / f64::from(timescale);
            assert_eq!(*line, format!("#EXTINF:{secs:.6},"));
        }
        let target = longest.div_ceil(u64::from(timescale));
        assert!(text.contains(&format!("#EXT-X-TARGETDURATION:{target}\n")));
    }
}

/// Half a microsecond rounds to the even digit.
#[test]
fn ties_round_to_even() {
    let text = playlist_for(&[vec![1], vec![3]], 128);
    assert!(text.contains("#EXTINF:0.007812,\n"));
    assert!(text.contains("#EXTINF:0.023438,\n"));
}
