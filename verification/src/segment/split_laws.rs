//! How a file is cut, in terms of the times of its samples.

use vstd::arithmetic::power2::{lemma_pow2_pos, pow2};
use vstd::prelude::*;

use crate::binary64::{ceil_div, half_even, round53, unit};
use crate::demux::sample_table::RawSampleEntry;
use crate::error::PackagerError;
use crate::index::format::SegmentEntry;
use crate::segment::duration::{exponent, mantissa, scaled_up, SegmentDuration};
use crate::segment::splitter::{dts, lemma_below_ceil, lemma_well_cut, segments_of, Tracks};

verus! {

/// Whether `times` are the times at which samples start, from 0 on, followed
/// by the time at which the last one ends.
pub open spec fn start_times(times: Seq<int>, samples: Seq<RawSampleEntry>) -> bool {
    &&& times.len() == samples.len() + 1
    &&& times[0] == 0
    &&& forall|i: int|
        0 <= i < samples.len() ==> #[trigger] times[i + 1] == times[i] + samples[i].dts_delta
}

proof fn lemma_times(times: Seq<int>, samples: Seq<RawSampleEntry>, n: int)
    requires
        start_times(times, samples),
        0 <= n <= samples.len(),
    ensures
        dts(samples, n) == times[n],
    decreases n,
{
    if n > 0 {
        lemma_times(times, samples, n - 1);
        assert(times[(n - 1) + 1] == times[n - 1] + samples[n - 1].dts_delta);
    }
}

/// Two tracks and the times of their samples.
pub ghost struct TimedTracks {
    pub video: Seq<RawSampleEntry>,
    pub audio: Seq<RawSampleEntry>,
    pub video_timescale: u32,
    pub audio_timescale: u32,
    pub video_times: Seq<int>,
    pub audio_times: Seq<int>,
}

impl TimedTracks {
    /// The times are those of the samples.
    pub open spec fn timed(self) -> bool {
        &&& start_times(self.video_times, self.video)
        &&& start_times(self.audio_times, self.audio)
    }

    /// Whether a segment that starts with video sample `from` and lasts at
    /// least `ticks` may end before video sample `i`.
    pub open spec fn may_end(self, ticks: u64, from: int, i: int) -> bool {
        self.video[i].is_sync && self.video_times[i] - self.video_times[from] >= ticks
    }

    /// Whether audio sample `j` starts before video sample `i`.
    pub open spec fn starts_before(self, j: int, i: int) -> bool {
        self.audio_times[j] * self.video_timescale < self.video_times[i] * self.audio_timescale
    }

    /// Whether segment `k` is cut as it should be: it starts at a sync sample
    /// with the times of its first samples, holds samples of both tracks, and
    /// ends at the first sync sample at which it has lasted for `ticks`, where
    /// the next one starts; it holds the audio samples that start before that
    /// one does. The last one takes what is left.
    pub open spec fn rightly_cut(self, ticks: u64, segments: Seq<SegmentEntry>, k: int) -> bool {
        let s = segments[k];
        let v0 = s.video_sample_start as int;
        let v1 = v0 + s.video_sample_count;
        let a0 = s.audio_sample_start as int;
        let a1 = a0 + s.audio_sample_count;
        &&& v0 < v1 <= self.video.len()
        &&& a0 < a1 <= self.audio.len()
        &&& self.video[v0].is_sync
        &&& s.video_base_dts == self.video_times[v0]
        &&& s.audio_base_dts == self.audio_times[a0]
        &&& forall|i: int| v0 < i < v1 ==> !#[trigger] self.may_end(ticks, v0, i)
        &&& if k + 1 == segments.len() {
            v1 == self.video.len() && a1 == self.audio.len()
        } else {
            &&& segments[k + 1].video_sample_start == v1
            &&& segments[k + 1].audio_sample_start == a1
            &&& v1 < self.video.len()
            &&& self.may_end(ticks, v0, v1)
            &&& forall|j: int| a0 <= j < a1 ==> #[trigger] self.starts_before(j, v1)
            &&& a1 < self.audio.len() ==> !self.starts_before(a1, v1)
        }
    }

    /// Whether a segment table cuts the tracks as they should be cut.
    pub open spec fn cut_into(self, ticks: u64, segments: Seq<SegmentEntry>) -> bool {
        &&& segments.len() > 0
        &&& segments[0].video_sample_start == 0
        &&& segments[0].audio_sample_start == 0
        &&& forall|k: int|
            0 <= k < segments.len() ==> #[trigger] self.rightly_cut(ticks, segments, k)
    }

    spec fn tracks(self, ticks: u64) -> Tracks {
        Tracks {
            video: self.video,
            audio: self.audio,
            video_timescale: self.video_timescale,
            audio_timescale: self.audio_timescale,
            nominal_ticks: ticks,
        }
    }
}

/// An audio sample starts before a video sample if its time is below the
/// projected one.
proof fn lemma_starts_before(t: TimedTracks, ticks: u64, j: int, i: int)
    requires
        t.timed(),
        t.video_timescale > 0,
        0 <= j <= t.audio.len(),
        0 <= i <= t.video.len(),
    ensures
        t.starts_before(j, i) <==> dts(t.audio, j) < t.tracks(ticks).audio_target(i),
{
    lemma_times(t.audio_times, t.audio, j);
    lemma_times(t.video_times, t.video, i);
    lemma_below_ceil(
        dts(t.audio, j),
        dts(t.video, i) * t.audio_timescale as nat,
        t.video_timescale as nat,
    );
}

/// A file that is split is cut as it should be.
#[verifier::rlimit(40)]
pub proof fn law_files_are_cut_at_sync_samples(t: TimedTracks, nominal: SegmentDuration)
    requires
        t.timed(),
        segments_of(t.video, t.audio, t.video_timescale, t.audio_timescale, nominal) is Ok,
    ensures
        t.cut_into(
            nominal.spec_ticks(t.video_timescale),
            segments_of(
                t.video,
                t.audio,
                t.video_timescale,
                t.audio_timescale,
                nominal,
            )->Ok_0,
        ),
{
    let ticks = nominal.spec_ticks(t.video_timescale);
    let segments = segments_of(
        t.video,
        t.audio,
        t.video_timescale,
        t.audio_timescale,
        nominal,
    )->Ok_0;
    let tracks = t.tracks(ticks);
    lemma_well_cut(tracks, 0, 0);
    assert forall|k: int| 0 <= k < segments.len() implies #[trigger] t.rightly_cut(
        ticks,
        segments,
        k,
    ) by {
        assert(tracks.well_cut(segments, k));
        let s = segments[k];
        let v0 = s.video_sample_start as int;
        let v1 = v0 + s.video_sample_count;
        let a0 = s.audio_sample_start as int;
        let a1 = a0 + s.audio_sample_count;
        lemma_times(t.video_times, t.video, v0);
        lemma_times(t.audio_times, t.audio, a0);
        assert forall|i: int| v0 < i < v1 implies !#[trigger] t.may_end(ticks, v0, i) by {
            lemma_times(t.video_times, t.video, i);
            assert(!tracks.may_cut(v0, i));
        }
        if k + 1 < segments.len() {
            assert(tracks.well_cut(segments, k + 1));
            lemma_times(t.video_times, t.video, v1);
            assert forall|j: int| a0 <= j < a1 implies #[trigger] t.starts_before(j, v1) by {
                lemma_starts_before(t, ticks, j, v1);
                assert(dts(tracks.audio, j) < tracks.audio_target(v1));
            }
            if a1 < t.audio.len() {
                lemma_starts_before(t, ticks, a1, v1);
            }
        }
    }
}

proof fn lemma_next_cut_is(tracks: Tracks, start: int, i: int, cut: int)
    requires
        i <= cut <= tracks.video.len(),
        forall|j: int| i <= j < cut ==> !#[trigger] tracks.may_cut(start, j),
        cut < tracks.video.len() ==> tracks.may_cut(start, cut),
    ensures
        tracks.next_cut(start, i) == cut,
    decreases cut - i,
{
    if i < cut {
        assert(!tracks.may_cut(start, i));
        lemma_next_cut_is(tracks, start, i + 1, cut);
    }
}

proof fn lemma_audio_boundary_is(tracks: Tracks, k: int, target: nat, b: int)
    requires
        k <= b <= tracks.audio.len(),
        forall|j: int| k <= j < b ==> #[trigger] dts(tracks.audio, j) < target,
        b < tracks.audio.len() ==> dts(tracks.audio, b) >= target,
    ensures
        tracks.audio_boundary(k, target) == b,
    decreases b - k,
{
    if k < b {
        assert(dts(tracks.audio, k) < target);
        lemma_audio_boundary_is(tracks, k + 1, target, b);
    }
}

/// From segment `k` on, the table is the one that the splitter makes.
#[verifier::rlimit(60)]
proof fn lemma_cut_is_made(t: TimedTracks, ticks: u64, segments: Seq<SegmentEntry>, k: int)
    requires
        t.timed(),
        t.video_timescale > 0,
        t.video.len() <= u32::MAX,
        t.audio.len() <= u32::MAX,
        t.cut_into(ticks, segments),
        0 <= k < segments.len(),
        forall|i: int|
            0 <= i <= t.video.len() ==> (#[trigger] t.video_times[i]) * t.audio_timescale
                <= 0xffff_ffff_ffff_ffff * t.video_timescale,
    ensures
        t.tracks(ticks).segments_from(
            segments[k].video_sample_start as int,
            segments[k].audio_sample_start as int,
        ) == Ok::<_, PackagerError>(segments.skip(k)),
    decreases segments.len() - k,
{
    let tracks = t.tracks(ticks);
    let s = segments[k];
    let v0 = s.video_sample_start as int;
    let v1 = v0 + s.video_sample_count;
    let a0 = s.audio_sample_start as int;
    let a1 = a0 + s.audio_sample_count;
    assert(t.rightly_cut(ticks, segments, k));
    lemma_times(t.video_times, t.video, v0);
    lemma_times(t.audio_times, t.audio, a0);
    assert(s == tracks.segment(v0, v1, a0, a1));
    assert forall|i: int| v0 + 1 <= i < v1 implies !#[trigger] tracks.may_cut(v0, i) by {
        assert(!t.may_end(ticks, v0, i));
        lemma_times(t.video_times, t.video, i);
    }
    if k + 1 == segments.len() {
        lemma_next_cut_is(tracks, v0, v0 + 1, v1);
        assert(segments.skip(k) =~= seq![s]);
    } else {
        lemma_times(t.video_times, t.video, v1);
        assert(tracks.may_cut(v0, v1));
        lemma_next_cut_is(tracks, v0, v0 + 1, v1);
        let target = tracks.audio_target(v1);
        assert forall|j: int| a0 <= j < a1 implies #[trigger] dts(tracks.audio, j) < target by {
            assert(t.starts_before(j, v1));
            lemma_starts_before(t, ticks, j, v1);
        }
        if a1 < t.audio.len() {
            lemma_starts_before(t, ticks, a1, v1);
        }
        lemma_audio_boundary_is(tracks, a0, target, a1);
        assert(target <= u64::MAX) by {
            let num = dts(t.video, v1) * t.audio_timescale as nat;
            assert(num == t.video_times[v1] * t.audio_timescale);
            lemma_below_ceil(0xffff_ffff_ffff_ffff, num, t.video_timescale as nat);
        }
        lemma_cut_is_made(t, ticks, segments, k + 1);
        assert(segments.skip(k) =~= seq![s] + segments.skip(k + 1));
    }
}

/// And there is no other way to cut it: where a table cuts a file as it should
/// be cut, and the file can be cut at all (both tracks have samples and a
/// timescale, the duration is positive and finite, and times stay within 64
/// bits), the splitter makes that table.
pub proof fn law_right_cuts_are_made(
    t: TimedTracks,
    nominal: SegmentDuration,
    segments: Seq<SegmentEntry>,
)
    requires
        t.timed(),
        t.video_timescale > 0,
        t.audio_timescale > 0,
        0 < t.video.len() <= 0xffff_ffff,
        0 < t.audio.len() <= 0xffff_ffff,
        0 < nominal.bits < 0x7ff0_0000_0000_0000,
        forall|i: int|
            0 <= i <= t.video.len() ==> (#[trigger] t.video_times[i]) * t.audio_timescale
                <= 0xffff_ffff_ffff_ffff * t.video_timescale,
        t.cut_into(nominal.spec_ticks(t.video_timescale), segments),
    ensures
        segments_of(t.video, t.audio, t.video_timescale, t.audio_timescale, nominal) == Ok::<
            _,
            PackagerError,
        >(segments),
{
    let ticks = nominal.spec_ticks(t.video_timescale);
    assert(t.rightly_cut(ticks, segments, 0));
    lemma_cut_is_made(t, ticks, segments, 0);
    assert(segments.skip(0) =~= segments);
}

/// A file that cannot be cut is refused: a track without samples or timescale,
/// a first video sample that is no sync sample, a duration that is not
/// positive and finite.
pub proof fn law_uncuttable_files_are_refused(
    video: Seq<RawSampleEntry>,
    audio: Seq<RawSampleEntry>,
    video_timescale: u32,
    audio_timescale: u32,
    nominal: SegmentDuration,
)
    requires
        ({
            ||| video.len() == 0
            ||| audio.len() == 0
            ||| !video[0].is_sync
            ||| video_timescale == 0
            ||| audio_timescale == 0
            ||| nominal.bits == 0
            ||| nominal.bits >= 0x7ff0_0000_0000_0000
        }),
    ensures
        segments_of(video, audio, video_timescale, audio_timescale, nominal) is Err,
        segments_of(video, audio, video_timescale, audio_timescale, nominal)->Err_0 is SampleTableInconsistent,
{
}

/// Rounding to 53 bits is off by one part in 2^53 at most.
proof fn lemma_round53_near(n: nat)
    ensures
        n * 0x1f_ffff_ffff_ffff <= round53(n) * 0x20_0000_0000_0000 <= n * 0x20_0000_0000_0001,
{
    lemma_unit(n);
    let u = unit(n) as int;
    let q = n as int / u;
    let r = n as int % u;
    assert(n == q * u + r && 0 <= r < u) by (nonlinear_arith)
        requires
            u > 0,
            q == n as int / u,
            r == n as int % u,
    ;
    let h = half_even(n, u as nat) as int;
    assert(h == q || h == q + 1);
    assert((q + 1) * u == q * u + u) by (nonlinear_arith);
    assert(2 * (h * u) <= 2 * n + u && 2 * (h * u) >= 2 * n - u);
    if u == 1 {
        assert(r == 0);
        assert(q * 1 == q);
        assert(h == q);
        assert(h * u == n);
    }
}

/// The unit of a number is 1, or small beside it.
proof fn lemma_unit(n: nat)
    ensures
        unit(n) > 0,
        unit(n) == 1 || unit(n) * 0x10_0000_0000_0000 <= n,
    decreases n,
{
    if n >= 0x20_0000_0000_0000 {
        lemma_unit(n / 2);
    }
}

/// The ticks of a duration are its seconds times the timescale, rounded up, but
/// for one part in 2^53. The duration is given by the fields of a binary64
/// number: `fraction` and an exponent below that of 2^52, so that it is
/// `(2^52 + fraction) / 2^scale` seconds.
pub proof fn law_nominal_ticks(fraction: u64, scale: nat, timescale: u32, nominal: SegmentDuration)
    requires
        fraction < 0x10_0000_0000_0000,
        1 <= scale <= 1074,
        timescale > 0,
        nominal.bits == (1075 - scale) * 0x10_0000_0000_0000 + fraction,
    ensures
        ({
            let ticks = nominal.spec_ticks(timescale);
            let product = (0x10_0000_0000_0000 + fraction) * timescale;
            &&& ticks >= 1
            &&& ticks < u64::MAX ==> product * 0x1f_ffff_ffff_ffff <= ticks * pow2(scale)
                * 0x20_0000_0000_0000
            &&& ticks > 1 ==> (ticks - 1) * pow2(scale) * 0x20_0000_0000_0000 < product
                * 0x20_0000_0000_0001
        }),
{
    let bits = nominal.bits as int;
    let field = 1075 - scale;
    assert(bits / 0x10_0000_0000_0000 == field && bits % 0x10_0000_0000_0000 == fraction)
        by (nonlinear_arith)
        requires
            bits == field * 0x10_0000_0000_0000 + fraction,
            0 <= fraction < 0x10_0000_0000_0000,
            field >= 1,
    ;
    assert(bits >= 0x10_0000_0000_0000);
    let m = (0x10_0000_0000_0000 + fraction) as nat;
    assert(mantissa(nominal.bits) == m);
    assert(exponent(nominal.bits) == -scale);
    let product = m * timescale as nat;
    lemma_round53_near(product);
    let rounded = round53(product);
    lemma_pow2_pos(scale);
    let d = pow2(scale);
    let n = ceil_div(rounded, d);
    assert(scaled_up(rounded, -scale) == n);
    lemma_below_ceil(n, rounded, d);
    assert(n * d >= rounded);
    if n > 0 {
        lemma_below_ceil((n - 1) as nat, rounded, d);
        assert((n - 1) * d < rounded);
    }
    let ticks = nominal.spec_ticks(timescale);
    if ticks > 1 {
        assert((ticks - 1) * d <= (n - 1) * d) by (nonlinear_arith)
            requires
                ticks <= n,
                d > 0,
        ;
    }
    if ticks < u64::MAX {
        assert(ticks * d >= rounded) by (nonlinear_arith)
            requires
                n * d >= rounded,
                ticks >= n,
                d > 0,
        ;
    }
}

} // verus!
