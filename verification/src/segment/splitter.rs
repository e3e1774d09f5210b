//! Segment splitter.
//!
//! Produces the segment table from the per-track sample rows. A segment
//! covers a half-open range of video samples whose first sample is a sync
//! sample (IDR); audio samples are partitioned by projecting the DTS of the
//! video boundary onto the audio timescale.
//!
//! - The first segment opens at sample 0, which must be a sync sample.
//! - A segment closes at the first later sync sample at which it has lasted
//!   for the nominal duration; the next one opens there.
//! - What is left when no such sample comes forms the trailing segment.
//! - The audio boundary is the first audio sample that starts at or after the
//!   video boundary. An audio sample that straddles the boundary stays with
//!   the segment it started in.

use vstd::prelude::*;

use crate::binary64::ceil_div;
use crate::demux::sample_table::{inconsistent, ok_seq, RawSampleEntry};
use crate::error::PackagerError;
use crate::index::format::SegmentEntry;
use crate::segment::duration::SegmentDuration;

verus! {

/// The DTS at which sample `n` starts.
pub open spec fn dts(samples: Seq<RawSampleEntry>, n: int) -> nat
    decreases n,
{
    if n <= 0 {
        0
    } else {
        dts(samples, n - 1) + samples[n - 1].dts_delta as nat
    }
}

/// What the splitter is given.
pub ghost struct Tracks {
    pub video: Seq<RawSampleEntry>,
    pub audio: Seq<RawSampleEntry>,
    pub video_timescale: u32,
    pub audio_timescale: u32,
    pub nominal_ticks: u64,
}

impl Tracks {
    /// A segment that opened at `start` may close at sample `i`.
    pub open spec fn may_cut(self, start: int, i: int) -> bool {
        self.video[i].is_sync && dts(self.video, i) - dts(self.video, start) >= self.nominal_ticks
    }

    /// The first sample from `i` on at which a segment that opened at `start`
    /// may close, or the end of the track.
    pub open spec fn next_cut(self, start: int, i: int) -> int
        decreases self.video.len() - i,
    {
        if i >= self.video.len() {
            self.video.len() as int
        } else if self.may_cut(start, i) {
            i
        } else {
            self.next_cut(start, i + 1)
        }
    }

    /// The first audio tick at or after the start of video sample `i`.
    pub open spec fn audio_target(self, i: int) -> nat {
        ceil_div(dts(self.video, i) * self.audio_timescale as nat, self.video_timescale as nat)
    }

    /// The first audio sample from `k` on that starts at or after `target`, or
    /// the end of the track.
    pub open spec fn audio_boundary(self, k: int, target: nat) -> int
        decreases self.audio.len() - k,
    {
        if k >= self.audio.len() {
            self.audio.len() as int
        } else if dts(self.audio, k) >= target {
            k
        } else {
            self.audio_boundary(k + 1, target)
        }
    }

    /// The segment with the given bounds.
    pub open spec fn segment(self, v0: int, v1: int, a0: int, a1: int) -> SegmentEntry {
        SegmentEntry {
            video_sample_start: v0 as u32,
            video_sample_count: (v1 - v0) as u32,
            audio_sample_start: a0 as u32,
            audio_sample_count: (a1 - a0) as u32,
            video_base_dts: dts(self.video, v0) as u64,
            audio_base_dts: dts(self.audio, a0) as u64,
        }
    }

    /// The segments from video sample `v` and audio sample `a` on.
    pub open spec fn segments_from(self, v: int, a: int) -> Result<Seq<SegmentEntry>, PackagerError>
        decreases self.video.len() - v,
    {
        let cut = self.next_cut(v, v + 1);
        if v < 0 || cut <= v || cut >= self.video.len() {
            if a >= self.audio.len() {
                inconsistent("splitter produced an empty segment")
            } else {
                Ok(
                    seq![
                        self.segment(v, self.video.len() as int, a, self.audio.len() as int),
                    ],
                )
            }
        } else if self.audio_target(cut) > u64::MAX {
            inconsistent("scaled audio DTS overflows u64")
        } else {
            let b = self.audio_boundary(a, self.audio_target(cut));
            if b <= a {
                inconsistent("splitter produced an empty segment")
            } else {
                match self.segments_from(cut, b) {
                    Err(e) => Err(e),
                    Ok(rest) => Ok(seq![self.segment(v, cut, a, b)] + rest),
                }
            }
        }
    }
}

/// The segment table of a file.
pub open spec fn segments_of(
    video: Seq<RawSampleEntry>,
    audio: Seq<RawSampleEntry>,
    video_timescale: u32,
    audio_timescale: u32,
    nominal: SegmentDuration,
) -> Result<Seq<SegmentEntry>, PackagerError> {
    if video.len() == 0 {
        inconsistent("splitter requires at least one video sample")
    } else if audio.len() == 0 {
        inconsistent("splitter requires at least one audio sample")
    } else if !video[0].is_sync {
        inconsistent("first video sample is not a sync sample")
    } else if video_timescale == 0 || audio_timescale == 0 {
        inconsistent("track timescale is zero")
    } else if !nominal.valid() {
        inconsistent("segment nominal duration must be positive and finite")
    } else if video.len() > u32::MAX {
        inconsistent("video sample count exceeds u32::MAX")
    } else if audio.len() > u32::MAX {
        inconsistent("audio sample count exceeds u32::MAX")
    } else {
        let nominal_ticks = nominal.spec_ticks(video_timescale);
        Tracks { video, audio, video_timescale, audio_timescale, nominal_ticks }.segments_from(0, 0)
    }
}

/// A track of at most `u32::MAX` samples lasts less than 2^64 ticks.
pub proof fn lemma_dts_bound(samples: Seq<RawSampleEntry>, n: int)
    requires
        0 <= n <= samples.len(),
    ensures
        dts(samples, n) <= n * u32::MAX,
    decreases n,
{
    if n > 0 {
        lemma_dts_bound(samples, n - 1);
    }
}

/// Samples start in the order of their numbers.
pub proof fn lemma_dts_monotone(samples: Seq<RawSampleEntry>, m: int, n: int)
    requires
        m <= n,
    ensures
        dts(samples, m) <= dts(samples, n),
    decreases n - m,
{
    if m < n {
        lemma_dts_monotone(samples, m, n - 1);
    }
}

/// Projects a video DTS onto the first audio tick at or after it.
///
/// The quotient is rounded up so that an audio sample that starts strictly
/// before the video boundary stays with the preceding segment.
pub fn scale_dts_ceil(video_dts: u64, video_timescale: u32, audio_timescale: u32) -> (r: Result<
    u64,
    PackagerError,
>)
    requires
        video_timescale > 0,
    ensures
        r == {
            let scaled = ceil_div(
                video_dts as nat * audio_timescale as nat,
                video_timescale as nat,
            );
            if scaled > u64::MAX {
                inconsistent("scaled audio DTS overflows u64")
            } else {
                Ok(scaled as u64)
            }
        },
{
    assert(video_dts * audio_timescale <= u64::MAX * u32::MAX) by (nonlinear_arith)
        requires
            0 <= video_dts <= u64::MAX,
            0 <= audio_timescale <= u32::MAX,
    ;
    let num: u128 = video_dts as u128 * audio_timescale as u128;
    let den: u128 = video_timescale as u128;
    assert(num / den <= num) by (nonlinear_arith)
        requires
            den >= 1,
    ;
    let scaled: u128 = if num % den == 0 { num / den } else { num / den + 1 };
    if scaled > u64::MAX as u128 {
        return Err(PackagerError::SampleTableInconsistent("scaled audio DTS overflows u64"));
    }
    Ok(scaled as u64)
}

/// Steps over the audio samples that start before `target`.
///
/// A sample that starts before the boundary but ends past it is stepped over
/// too, so it stays with the preceding segment.
fn advance_audio_to(
    cursor: u32,
    cursor_dts: u64,
    audio: &[RawSampleEntry],
    target: u64,
    Ghost(tracks): Ghost<Tracks>,
) -> (r: (u32, u64))
    requires
        audio@ == tracks.audio,
        audio@.len() <= u32::MAX,
        cursor <= audio@.len(),
        cursor_dts == dts(audio@, cursor as int),
    ensures
        r.0 == tracks.audio_boundary(cursor as int, target as nat),
        cursor <= r.0 <= audio@.len(),
        r.1 == dts(audio@, r.0 as int),
{
    let mut at: u32 = cursor;
    let mut at_dts: u64 = cursor_dts;
    while (at as usize) < audio.len() && at_dts < target
        invariant
            audio@ == tracks.audio,
            audio@.len() <= u32::MAX,
            cursor <= at <= audio@.len(),
            at_dts == dts(audio@, at as int),
            tracks.audio_boundary(at as int, target as nat) == tracks.audio_boundary(
                cursor as int,
                target as nat,
            ),
        decreases audio@.len() - at,
    {
        proof {
            lemma_dts_bound(audio@, at + 1);
            assert((at + 1) * u32::MAX <= u32::MAX * u32::MAX) by (nonlinear_arith)
                requires
                    0 <= at + 1 <= u32::MAX,
            ;
        }
        at_dts = at_dts + audio[at as usize].dts_delta as u64;
        at += 1;
    }
    (at, at_dts)
}

/// Puts the segments found so far before those still to come.
pub open spec fn after(done: Seq<SegmentEntry>, rest: Result<Seq<SegmentEntry>, PackagerError>) -> Result<
    Seq<SegmentEntry>,
    PackagerError,
> {
    match rest {
        Err(e) => Err(e),
        Ok(rest) => Ok(done + rest),
    }
}

/// Builds the segment table.
///
/// Returns `SampleTableInconsistent` for missing tracks, a non-sync first
/// video sample, a duration that is not positive and finite, zero timescales,
/// or a segment without audio samples.
#[verifier::rlimit(40)]
pub fn split(
    video: &[RawSampleEntry],
    audio: &[RawSampleEntry],
    video_timescale: u32,
    audio_timescale: u32,
    nominal: SegmentDuration,
) -> (r: Result<Vec<SegmentEntry>, PackagerError>)
    ensures
        ok_seq(r) == segments_of(video@, audio@, video_timescale, audio_timescale, nominal),
        r matches Ok(segments) ==> segments@.len() <= u32::MAX,
{
    if video.len() == 0 {
        return Err(
            PackagerError::SampleTableInconsistent("splitter requires at least one video sample"),
        );
    }
    if audio.len() == 0 {
        return Err(
            PackagerError::SampleTableInconsistent("splitter requires at least one audio sample"),
        );
    }
    if !video[0].is_sync {
        return Err(
            PackagerError::SampleTableInconsistent("first video sample is not a sync sample"),
        );
    }
    if video_timescale == 0 || audio_timescale == 0 {
        return Err(PackagerError::SampleTableInconsistent("track timescale is zero"));
    }
    if !nominal.is_valid() {
        return Err(
            PackagerError::SampleTableInconsistent(
                "segment nominal duration must be positive and finite",
            ),
        );
    }
    if video.len() > u32::MAX as usize {
        return Err(PackagerError::SampleTableInconsistent("video sample count exceeds u32::MAX"));
    }
    if audio.len() > u32::MAX as usize {
        return Err(PackagerError::SampleTableInconsistent("audio sample count exceeds u32::MAX"));
    }
    let video_count: u32 = video.len() as u32;
    let audio_count: u32 = audio.len() as u32;
    // Per-segment minimum duration in the video track's timescale.
    let nominal_ticks: u64 = nominal.ticks(video_timescale);
    let ghost tracks = Tracks {
        video: video@,
        audio: audio@,
        video_timescale,
        audio_timescale,
        nominal_ticks,
    };
    let ghost expected = tracks.segments_from(0, 0);

    let mut segments: Vec<SegmentEntry> = Vec::new();
    let mut v_start: u32 = 0;
    let mut v_base_dts: u64 = 0;
    let mut v_dts: u64 = 0;
    let mut a_start: u32 = 0;
    let mut a_base_dts: u64 = 0;
    let mut i: u32 = 0;
    proof {
        if let Ok(rest) = expected {
            assert(segments@ + rest =~= rest);
        }
    }
    while i < video_count
        invariant
            video_count == video@.len(),
            audio_count == audio@.len(),
            audio_count > 0,
            video_timescale > 0,
            tracks == (Tracks {
                video: video@,
                audio: audio@,
                video_timescale,
                audio_timescale,
                nominal_ticks,
            }),
            segments_of(video@, audio@, video_timescale, audio_timescale, nominal) == expected,
            expected == after(segments@, tracks.segments_from(v_start as int, a_start as int)),
            v_start <= i <= video_count,
            v_start == i ==> i == 0,
            v_start < video_count,
            a_start <= audio_count,
            v_dts == dts(video@, i as int),
            v_base_dts == dts(video@, v_start as int),
            a_base_dts == dts(audio@, a_start as int),
            tracks.next_cut(v_start as int, v_start + 1) == tracks.next_cut(
                v_start as int,
                if i > v_start {
                    i as int
                } else {
                    v_start + 1
                },
            ),
        decreases video_count - i,
    {
        let sample: RawSampleEntry = video[i as usize];
        proof {
            lemma_dts_monotone(video@, v_start as int, i as int);
            lemma_dts_bound(video@, i + 1);
            assert((i + 1) * u32::MAX <= u32::MAX * u32::MAX) by (nonlinear_arith)
                requires
                    0 <= i + 1 <= u32::MAX,
            ;
        }
        // Close the active segment at a later sync sample once it has lasted
        // for the nominal duration.
        if i > v_start && sample.is_sync && v_dts - v_base_dts >= nominal_ticks {
            assert(tracks.next_cut(v_start as int, v_start + 1) == i);
            let target: u64 = scale_dts_ceil(v_dts, video_timescale, audio_timescale)?;
            let (a_cursor, a_dts) = advance_audio_to(
                a_start,
                a_base_dts,
                audio,
                target,
                Ghost(tracks),
            );
            if a_cursor == a_start {
                return Err(
                    PackagerError::SampleTableInconsistent("splitter produced an empty segment"),
                );
            }
            let entry = SegmentEntry {
                video_sample_start: v_start,
                video_sample_count: i - v_start,
                audio_sample_start: a_start,
                audio_sample_count: a_cursor - a_start,
                video_base_dts: v_base_dts,
                audio_base_dts: a_base_dts,
            };
            proof {
                assert(entry == tracks.segment(
                    v_start as int,
                    i as int,
                    a_start as int,
                    a_cursor as int,
                ));
                if let Ok(rest) = tracks.segments_from(i as int, a_cursor as int) {
                    assert(segments@ + (seq![entry] + rest) =~= segments@.push(entry) + rest);
                }
            }
            segments.push(entry);
            v_start = i;
            v_base_dts = v_dts;
            a_start = a_cursor;
            a_base_dts = a_dts;
        }
        v_dts = v_dts + sample.dts_delta as u64;
        i += 1;
    }
    // Trailing segment: everything that is left of both tracks.
    if a_start == audio_count {
        return Err(PackagerError::SampleTableInconsistent("splitter produced an empty segment"));
    }
    let ghost done = segments@;
    let entry = SegmentEntry {
        video_sample_start: v_start,
        video_sample_count: video_count - v_start,
        audio_sample_start: a_start,
        audio_sample_count: audio_count - a_start,
        video_base_dts: v_base_dts,
        audio_base_dts: a_base_dts,
    };
    segments.push(entry);
    proof {
        let (v, a) = (video_count as int, audio_count as int);
        assert(entry == tracks.segment(v_start as int, v, a_start as int, a));
        assert(segments@ =~= done + seq![entry]);
        lemma_segment_count(tracks, 0, 0);
    }
    Ok(segments)
}

impl Tracks {
    /// Segment `k` of `segments` is cut as it should be.
    pub open spec fn well_cut(self, segments: Seq<SegmentEntry>, k: int) -> bool {
        let s = segments[k];
        let v0 = s.video_sample_start as int;
        let v1 = v0 + s.video_sample_count;
        let a0 = s.audio_sample_start as int;
        let a1 = a0 + s.audio_sample_count;
        let last = k + 1 == segments.len();
        &&& v0 < v1 <= self.video.len()
        &&& a0 < a1 <= self.audio.len()
        &&& self.video[v0].is_sync
        &&& s.video_base_dts == dts(self.video, v0)
        &&& s.audio_base_dts == dts(self.audio, a0)
        &&& forall|i: int| v0 < i < v1 ==> !#[trigger] self.may_cut(v0, i)
        &&& last ==> v1 == self.video.len() && a1 == self.audio.len()
        &&& !last ==> {
            &&& segments[k + 1].video_sample_start == v1
            &&& segments[k + 1].audio_sample_start == a1
            &&& self.may_cut(v0, v1)
            &&& forall|j: int| a0 <= j < a1 ==> #[trigger] dts(self.audio, j) < self.audio_target(v1)
            &&& a1 < self.audio.len() ==> dts(self.audio, a1) >= self.audio_target(v1)
        }
    }
}

proof fn lemma_next_cut(tracks: Tracks, start: int, i: int)
    requires
        i <= tracks.video.len(),
    ensures
        i <= tracks.next_cut(start, i) <= tracks.video.len(),
        tracks.next_cut(start, i) < tracks.video.len() ==> tracks.may_cut(
            start,
            tracks.next_cut(start, i),
        ),
        forall|j: int| i <= j < tracks.next_cut(start, i) ==> !#[trigger] tracks.may_cut(start, j),
    decreases tracks.video.len() - i,
{
    if i < tracks.video.len() && !tracks.may_cut(start, i) {
        lemma_next_cut(tracks, start, i + 1);
    }
}

proof fn lemma_audio_boundary(tracks: Tracks, k: int, target: nat)
    requires
        k <= tracks.audio.len(),
    ensures
        k <= tracks.audio_boundary(k, target) <= tracks.audio.len(),
        tracks.audio_boundary(k, target) < tracks.audio.len() ==> dts(
            tracks.audio,
            tracks.audio_boundary(k, target),
        ) >= target,
        forall|j: int|
            k <= j < tracks.audio_boundary(k, target) ==> #[trigger] dts(tracks.audio, j) < target,
    decreases tracks.audio.len() - k,
{
    if k < tracks.audio.len() && dts(tracks.audio, k) < target {
        lemma_audio_boundary(tracks, k + 1, target);
    }
}

/// Every segment from `v` and `a` on is cut as it should be.
#[verifier::rlimit(40)]
pub proof fn lemma_well_cut(tracks: Tracks, v: int, a: int)
    requires
        0 <= v < tracks.video.len() <= u32::MAX,
        0 <= a <= tracks.audio.len() <= u32::MAX,
        tracks.video[v].is_sync,
        tracks.segments_from(v, a) is Ok,
    ensures
        ({
            let segments = tracks.segments_from(v, a)->Ok_0;
            &&& segments.len() > 0
            &&& segments[0].video_sample_start == v
            &&& segments[0].audio_sample_start == a
            &&& forall|k: int| 0 <= k < segments.len() ==> #[trigger] tracks.well_cut(segments, k)
        }),
    decreases tracks.video.len() - v,
{
    let segments = tracks.segments_from(v, a)->Ok_0;
    lemma_next_cut(tracks, v, v + 1);
    lemma_dts_bound(tracks.video, v);
    lemma_dts_bound(tracks.audio, a);
    assert(v * u32::MAX <= u32::MAX * u32::MAX && a * u32::MAX <= u32::MAX * u32::MAX)
        by (nonlinear_arith)
        requires
            0 <= v <= u32::MAX,
            0 <= a <= u32::MAX,
    ;
    let cut = tracks.next_cut(v, v + 1);
    if cut < tracks.video.len() {
        let target = tracks.audio_target(cut);
        lemma_audio_boundary(tracks, a, target);
        let b = tracks.audio_boundary(a, target);
        lemma_well_cut(tracks, cut, b);
        let rest = tracks.segments_from(cut, b)->Ok_0;
        assert(segments == seq![tracks.segment(v, cut, a, b)] + rest);
        assert forall|k: int| 0 <= k < segments.len() implies #[trigger] tracks.well_cut(
            segments,
            k,
        ) by {
            if k > 0 {
                assert(tracks.well_cut(rest, k - 1));
                assert(segments[k] == rest[k - 1]);
            }
            if k + 1 < segments.len() {
                assert(segments[k + 1] == rest[k]);
            }
        }
    } else {
        assert(tracks.well_cut(segments, 0));
    }
}

/// There are at most as many segments as video samples.
pub proof fn lemma_segment_count(tracks: Tracks, v: int, a: int)
    requires
        0 <= v < tracks.video.len(),
        tracks.segments_from(v, a) is Ok,
    ensures
        tracks.segments_from(v, a)->Ok_0.len() <= tracks.video.len() - v,
    decreases tracks.video.len() - v,
{
    lemma_next_cut(tracks, v, v + 1);
    let cut = tracks.next_cut(v, v + 1);
    if cut < tracks.video.len() {
        let b = tracks.audio_boundary(a, tracks.audio_target(cut));
        lemma_segment_count(tracks, cut, b);
    }
}

/// `x` is below the rounded-up quotient exactly when it is below the quotient.
pub proof fn lemma_below_ceil(x: nat, num: nat, den: nat)
    requires
        den > 0,
    ensures
        x < ceil_div(num, den) <==> x * den < num,
{
    let q = num / den;
    let r = num % den;
    assert(num == q * den + r && 0 <= r < den) by (nonlinear_arith)
        requires
            den > 0,
            q == num / den,
            r == num % den,
    ;
    if x < q {
        assert(x * den < q * den) by (nonlinear_arith)
            requires
                x < q,
                den > 0,
        ;
    } else if x > q {
        assert(x * den >= q * den + den) by (nonlinear_arith)
            requires
                x >= q + 1,
                den > 0,
        ;
    } else {
        assert(x * den == q * den);
    }
}

/// The segment table that `split` returns for a file.
pub open spec fn splits_into(tracks: Tracks, nominal: SegmentDuration, segments: Seq<SegmentEntry>) -> bool {
    &&& tracks.nominal_ticks == nominal.spec_ticks(tracks.video_timescale)
    &&& segments_of(
        tracks.video,
        tracks.audio,
        tracks.video_timescale,
        tracks.audio_timescale,
        nominal,
    ) == Ok::<_, PackagerError>(segments)
}

/// The segments cover every video and every audio sample exactly once, in
/// order: each segment starts where the one before it ends, the first starts
/// at sample 0 of both tracks, the last ends with both tracks, and none is
/// empty.
pub proof fn law_segments_partition_both_tracks(
    tracks: Tracks,
    nominal: SegmentDuration,
    segments: Seq<SegmentEntry>,
)
    requires
        splits_into(tracks, nominal, segments),
    ensures
        segments.len() > 0,
        segments[0].video_sample_start == 0,
        segments[0].audio_sample_start == 0,
        segments.last().video_sample_start + segments.last().video_sample_count
            == tracks.video.len(),
        segments.last().audio_sample_start + segments.last().audio_sample_count
            == tracks.audio.len(),
        forall|k: int|
            0 <= k < segments.len() ==> (#[trigger] segments[k]).video_sample_count > 0
                && segments[k].audio_sample_count > 0,
        forall|k: int|
            0 <= k < segments.len() - 1 ==> {
                &&& (#[trigger] segments[k]).video_sample_start + segments[k].video_sample_count
                    == segments[k + 1].video_sample_start
                &&& segments[k].audio_sample_start + segments[k].audio_sample_count == segments[k
                    + 1].audio_sample_start
            },
{
    lemma_well_cut(tracks, 0, 0);
    assert(tracks.well_cut(segments, segments.len() - 1));
    assert forall|k: int| 0 <= k < segments.len() implies (
    #[trigger] segments[k]).video_sample_count > 0 && segments[k].audio_sample_count > 0 by {
        assert(tracks.well_cut(segments, k));
    }
    assert forall|k: int| 0 <= k < segments.len() - 1 implies {
        &&& (#[trigger] segments[k]).video_sample_start + segments[k].video_sample_count
            == segments[k + 1].video_sample_start
        &&& segments[k].audio_sample_start + segments[k].audio_sample_count == segments[k
            + 1].audio_sample_start
    } by {
        assert(tracks.well_cut(segments, k));
    }
}

/// Every segment starts at a sync sample, and its base times are the DTS of
/// its first video and its first audio sample.
pub proof fn law_segments_start_at_sync_samples(
    tracks: Tracks,
    nominal: SegmentDuration,
    segments: Seq<SegmentEntry>,
    k: int,
)
    requires
        splits_into(tracks, nominal, segments),
        0 <= k < segments.len(),
    ensures
        tracks.video[segments[k].video_sample_start as int].is_sync,
        segments[k].video_base_dts == dts(tracks.video, segments[k].video_sample_start as int),
        segments[k].audio_base_dts == dts(tracks.audio, segments[k].audio_sample_start as int),
{
    lemma_well_cut(tracks, 0, 0);
    assert(tracks.well_cut(segments, k));
}

/// A segment other than the last lasts for at least the nominal duration, and
/// ends at the first sync sample at which it does.
pub proof fn law_cuts_snap_forward_to_the_next_sync_sample(
    tracks: Tracks,
    nominal: SegmentDuration,
    segments: Seq<SegmentEntry>,
    k: int,
)
    requires
        splits_into(tracks, nominal, segments),
        0 <= k < segments.len() - 1,
    ensures
        segments[k + 1].video_base_dts - segments[k].video_base_dts >= tracks.nominal_ticks,
        forall|i: int|
            segments[k].video_sample_start < i < segments[k + 1].video_sample_start
                && #[trigger] tracks.video[i].is_sync ==> dts(tracks.video, i)
                - segments[k].video_base_dts < tracks.nominal_ticks,
{
    lemma_well_cut(tracks, 0, 0);
    assert(tracks.well_cut(segments, k));
    assert(tracks.well_cut(segments, k + 1));
    let v0 = segments[k].video_sample_start as int;
    assert forall|i: int|
        v0 < i < segments[k + 1].video_sample_start && #[trigger] tracks.video[i].is_sync implies dts(
        tracks.video,
        i,
    ) - segments[k].video_base_dts < tracks.nominal_ticks by {
        assert(!tracks.may_cut(v0, i));
    }
}

/// An audio sample belongs to the segment in which it starts. Times of the
/// two tracks are compared across their timescales: the audio samples of a
/// segment start before the next segment does, and those after it do not.
pub proof fn law_audio_samples_belong_where_they_start(
    tracks: Tracks,
    nominal: SegmentDuration,
    segments: Seq<SegmentEntry>,
    k: int,
    j: int,
)
    requires
        splits_into(tracks, nominal, segments),
        0 <= k < segments.len() - 1,
        segments[k].audio_sample_start <= j < tracks.audio.len(),
    ensures
        j < segments[k + 1].audio_sample_start <==> dts(tracks.audio, j) * (
        tracks.video_timescale as nat) < (segments[k + 1].video_base_dts as nat) * (
        tracks.audio_timescale as nat),
{
    lemma_well_cut(tracks, 0, 0);
    assert(tracks.well_cut(segments, k));
    assert(tracks.well_cut(segments, k + 1));
    let v1 = segments[k + 1].video_sample_start as int;
    let a1 = segments[k + 1].audio_sample_start as int;
    lemma_below_ceil(
        dts(tracks.audio, j),
        dts(tracks.video, v1) * tracks.audio_timescale as nat,
        tracks.video_timescale as nat,
    );
    if j >= a1 {
        lemma_dts_monotone(tracks.audio, a1, j);
    }
}

} // verus!
