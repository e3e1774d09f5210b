//! Media-playlist writer.
//!
//! Emits a single VOD HLS media playlist: `#EXT-X-VERSION:7`, an `#EXT-X-MAP`
//! that refers to `init.mp4`, and one `#EXTINF` and segment URI per segment.
//! The video track is the timeline master: segment boundaries are
//! video-driven.
//!
//! A segment's `EXTINF` is the sum of its video sample durations over the
//! video timescale, as a binary64 quotient with 6 decimals.
//! `EXT-X-TARGETDURATION` comes from the same sums by integer division,
//! rounded up.

use vstd::prelude::*;

use crate::binary64::{
    ceil_div, divide_to_micros, drop_below, half_even, lemma_quotient_micros_at_most, lift,
    quotient_micros, round53, round_to_53, unit, MANTISSA_END,
};
use crate::bytes::{ascii, push_text};
use crate::demux::sample_table::inconsistent;
use crate::error::PackagerError;
use crate::fmp4::boxes::appends;
use crate::index::format::{SampleEntry, SegmentEntry};
use crate::index::view::{IndexModel, IndexView};
use crate::playlist::decimal::{digits, push_digits};

verus! {

/// The durations of all `samples` together.
pub open spec fn ticks_sum(samples: Seq<SampleEntry>) -> nat
    decreases samples.len(),
{
    if samples.len() == 0 {
        0
    } else {
        ticks_sum(samples.drop_last()) + samples.last().dts_delta as nat
    }
}

/// How long a segment lasts, in the video timescale.
pub open spec fn video_ticks(segment: SegmentEntry, samples: Seq<SampleEntry>) -> Result<
    u64,
    PackagerError,
> {
    let start = segment.video_sample_start;
    let end = start + segment.video_sample_count;
    if end > usize::MAX {
        inconsistent("segment sample range overflows usize")
    } else if end > samples.len() {
        inconsistent("segment sample range exceeds video sample table")
    } else {
        Ok(ticks_sum(samples.subrange(start as int, end)) as u64)
    }
}

/// How long each of the segments lasts; the first that cannot be summed up
/// decides the error.
pub open spec fn all_ticks(segments: Seq<SegmentEntry>, samples: Seq<SampleEntry>) -> Result<
    Seq<u64>,
    PackagerError,
>
    decreases segments.len(),
{
    if segments.len() == 0 {
        Ok(Seq::empty())
    } else {
        match all_ticks(segments.drop_last(), samples) {
            Err(e) => Err(e),
            Ok(before) => match video_ticks(segments.last(), samples) {
                Err(e) => Err(e),
                Ok(ticks) => Ok(before.push(ticks)),
            },
        }
    }
}

/// The largest of some numbers, or 0.
pub open spec fn largest(ticks: Seq<u64>) -> u64
    decreases ticks.len(),
{
    if ticks.len() == 0 {
        0
    } else if ticks.last() > largest(ticks.drop_last()) {
        ticks.last()
    } else {
        largest(ticks.drop_last())
    }
}

/// The target duration in whole seconds: the longest segment, rounded up.
pub open spec fn target_duration(ticks: Seq<u64>, timescale: u32) -> nat {
    ceil_div(largest(ticks) as nat, timescale as nat)
}

/// A segment's duration in microseconds, as it is printed.
pub open spec fn extinf_micros(ticks: u64, timescale: u32) -> nat {
    quotient_micros(round53(ticks as nat), timescale as nat)
}

/// The name of segment `n`, counted from 1: at least four digits.
pub open spec fn segment_name(n: nat) -> Seq<u8> {
    ascii("seg_"@) + digits(n, 4) + ascii(".m4s"@)
}

/// The two lines of one segment.
pub open spec fn segment_lines(n: nat, ticks: u64, timescale: u32) -> Seq<u8> {
    let micros = extinf_micros(ticks, timescale);
    ascii("#EXTINF:"@) + digits(micros / 1_000_000, 1) + ascii("."@) + digits(
        micros % 1_000_000,
        6,
    ) + ascii(",\n"@) + segment_name(n) + ascii("\n"@)
}

/// The lines of the segments, in order.
pub open spec fn body_lines(ticks: Seq<u64>, timescale: u32) -> Seq<u8>
    decreases ticks.len(),
{
    if ticks.len() == 0 {
        Seq::empty()
    } else {
        body_lines(ticks.drop_last(), timescale) + segment_lines(
            ticks.len(),
            ticks.last(),
            timescale,
        )
    }
}

/// The text of a playlist for segments of the given durations.
pub open spec fn playlist_text(ticks: Seq<u64>, timescale: u32) -> Seq<u8> {
    ascii("#EXTM3U\n#EXT-X-VERSION:7\n#EXT-X-INDEPENDENT-SEGMENTS\n#EXT-X-TARGETDURATION:"@)
        + digits(target_duration(ticks, timescale), 1) + ascii(
        "\n#EXT-X-PLAYLIST-TYPE:VOD\n#EXT-X-MAP:URI=\"init.mp4\"\n"@,
    ) + body_lines(ticks, timescale) + ascii("#EXT-X-ENDLIST\n"@)
}

/// The media playlist of an index.
pub open spec fn playlist(index: IndexModel) -> Result<Seq<u8>, PackagerError> {
    if index.video_track.timescale == 0 {
        inconsistent("video timescale is zero (cannot compute EXTINF)")
    } else {
        match all_ticks(index.segments, index.video_samples) {
            Err(e) => Err(e),
            Ok(ticks) => Ok(playlist_text(ticks, index.video_track.timescale)),
        }
    }
}

proof fn lemma_ticks_bound(samples: Seq<SampleEntry>)
    ensures
        ticks_sum(samples) <= samples.len() * u32::MAX,
    decreases samples.len(),
{
    if samples.len() > 0 {
        lemma_ticks_bound(samples.drop_last());
    }
}

/// Adds up the video durations of a segment.
fn segment_video_ticks(segment: &SegmentEntry, video_samples: &[SampleEntry]) -> (r: Result<
    u64,
    PackagerError,
>)
    ensures
        r == video_ticks(*segment, video_samples@),
{
    let start: usize = segment.video_sample_start as usize;
    let end: usize = match start.checked_add(segment.video_sample_count as usize) {
        Some(end) => end,
        None => {
            return Err(
                PackagerError::SampleTableInconsistent("segment sample range overflows usize"),
            );
        },
    };
    if end > video_samples.len() {
        return Err(
            PackagerError::SampleTableInconsistent(
                "segment sample range exceeds video sample table",
            ),
        );
    }
    let mut ticks: u64 = 0;
    let mut i: usize = start;
    let ghost window = video_samples@.subrange(start as int, end as int);
    assert(window.take(0) =~= Seq::<SampleEntry>::empty());
    while i < end
        invariant
            start <= i <= end <= video_samples@.len(),
            end - start <= u32::MAX,
            window == video_samples@.subrange(start as int, end as int),
            ticks == ticks_sum(window.take(i - start)),
        decreases end - i,
    {
        proof {
            let n = i + 1 - start;
            assert(window.take(n).drop_last() =~= window.take(i - start));
            lemma_ticks_bound(window.take(n));
            assert(n * u32::MAX <= u32::MAX * u32::MAX) by (nonlinear_arith)
                requires
                    0 <= n <= u32::MAX,
            ;
        }
        ticks = ticks + video_samples[i].dts_delta as u64;
        i += 1;
    }
    assert(window.take(end - start) =~= window);
    Ok(ticks)
}

proof fn lemma_all_ticks_fail(segments: Seq<SegmentEntry>, samples: Seq<SampleEntry>, n: int)
    requires
        0 <= n <= segments.len(),
        all_ticks(segments.take(n), samples) is Err,
    ensures
        all_ticks(segments, samples) == all_ticks(segments.take(n), samples),
    decreases segments.len(),
{
    if n < segments.len() {
        assert(segments.drop_last().take(n) =~= segments.take(n));
        lemma_all_ticks_fail(segments.drop_last(), samples, n);
    } else {
        assert(segments.take(n) =~= segments);
    }
}

/// Adds up the video durations of every segment.
fn collect_ticks(segments: &[SegmentEntry], video_samples: &[SampleEntry]) -> (r: Result<
    Vec<u64>,
    PackagerError,
>)
    ensures
        match r {
            Ok(ticks) => all_ticks(segments@, video_samples@) == Ok::<_, PackagerError>(ticks@),
            Err(e) => all_ticks(segments@, video_samples@) == Err::<Seq<u64>, _>(e),
        },
        r matches Ok(ticks) ==> ticks@.len() == segments@.len(),
{
    let mut ticks: Vec<u64> = Vec::with_capacity(segments.len());
    let mut i: usize = 0;
    while i < segments.len()
        invariant
            0 <= i <= segments@.len(),
            ticks@.len() == i,
            all_ticks(segments@.take(i as int), video_samples@) == Ok::<_, PackagerError>(ticks@),
        decreases segments@.len() - i,
    {
        proof {
            assert(segments@.take(i + 1).drop_last() =~= segments@.take(i as int));
            if all_ticks(segments@.take(i + 1), video_samples@) is Err {
                lemma_all_ticks_fail(segments@, video_samples@, i + 1);
            }
        }
        ticks.push(segment_video_ticks(&segments[i], video_samples)?);
        i += 1;
    }
    assert(segments@.take(segments@.len() as int) =~= segments@);
    Ok(ticks)
}

/// The largest of some numbers, or 0.
fn max_ticks(ticks: &[u64]) -> (r: u64)
    ensures
        r == largest(ticks@),
{
    let mut max: u64 = 0;
    let mut i: usize = 0;
    while i < ticks.len()
        invariant
            0 <= i <= ticks@.len(),
            max == largest(ticks@.take(i as int)),
        decreases ticks@.len() - i,
    {
        assert(ticks@.take(i + 1).drop_last() =~= ticks@.take(i as int));
        if ticks[i] > max {
            max = ticks[i];
        }
        i += 1;
    }
    assert(ticks@.take(ticks@.len() as int) =~= ticks@);
    max
}

/// Appends the two lines of one segment.
fn write_segment_lines(out: &mut Vec<u8>, n: u64, ticks: u64, timescale: u32)
    requires
        timescale > 0,
    ensures
        final(out)@ == old(out)@ + segment_lines(n as nat, ticks, timescale),
{
    proof {
        reveal_strlit("#EXTINF:");
        reveal_strlit(".");
        reveal_strlit(",\n");
        reveal_strlit("seg_");
        reveal_strlit(".m4s");
        reveal_strlit("\n");
    }
    let micros: u128 = divide_to_micros(round_to_53(ticks as u128), timescale as u128);
    push_text(out, "#EXTINF:");
    push_digits(out, micros / 1_000_000, 1);
    push_text(out, ".");
    push_digits(out, micros % 1_000_000, 6);
    push_text(out, ",\n");
    push_text(out, "seg_");
    push_digits(out, n as u128, 4);
    push_text(out, ".m4s");
    push_text(out, "\n");
    assert(out@ =~= old(out)@ + segment_lines(n as nat, ticks, timescale));
}

/// Appends the text of a playlist.
fn write_text(out: &mut Vec<u8>, ticks: &[u64], timescale: u32)
    requires
        timescale > 0,
    ensures
        final(out)@ == old(out)@ + playlist_text(ticks@, timescale),
{
    let max: u64 = max_ticks(ticks);
    let scale: u64 = timescale as u64;
    assert(max / scale <= max) by (nonlinear_arith)
        requires
            scale >= 1,
    ;
    let target: u128 = if max % scale == 0 {
        (max / scale) as u128
    } else {
        (max / scale) as u128 + 1
    };
    proof {
        reveal_strlit(
            "#EXTM3U\n#EXT-X-VERSION:7\n#EXT-X-INDEPENDENT-SEGMENTS\n#EXT-X-TARGETDURATION:",
        );
        reveal_strlit("\n#EXT-X-PLAYLIST-TYPE:VOD\n#EXT-X-MAP:URI=\"init.mp4\"\n");
        reveal_strlit("#EXT-X-ENDLIST\n");
    }
    push_text(
        out,
        "#EXTM3U\n#EXT-X-VERSION:7\n#EXT-X-INDEPENDENT-SEGMENTS\n#EXT-X-TARGETDURATION:",
    );
    push_digits(out, target, 1);
    push_text(out, "\n#EXT-X-PLAYLIST-TYPE:VOD\n#EXT-X-MAP:URI=\"init.mp4\"\n");
    let ghost head = out@;
    let mut i: usize = 0;
    assert(out@ =~= head + body_lines(ticks@.take(0), timescale));
    while i < ticks.len()
        invariant
            timescale > 0,
            0 <= i <= ticks@.len(),
            out@ == head + body_lines(ticks@.take(i as int), timescale),
        decreases ticks@.len() - i,
    {
        write_segment_lines(out, i as u64 + 1, ticks[i], timescale);
        proof {
            assert(ticks@.take(i + 1).drop_last() =~= ticks@.take(i as int));
            assert(out@ =~= head + body_lines(ticks@.take(i + 1), timescale));
        }
        i += 1;
    }
    assert(ticks@.take(ticks@.len() as int) =~= ticks@);
    push_text(out, "#EXT-X-ENDLIST\n");
    assert(out@ =~= old(out)@ + playlist_text(ticks@, timescale));
}

/// Appends the media playlist of `index` to `out`.
///
/// A function of the index alone: neither the source MP4 nor the init segment
/// is looked at. Nothing is written where it fails.
pub fn write_media_playlist(index: &IndexView<'_>, out: &mut Vec<u8>) -> (r: Result<
    (),
    PackagerError,
>)
    ensures
        appends(old(out)@, final(out)@, r, playlist(index@)),
        r is Err ==> final(out)@ == old(out)@,
{
    let timescale: u32 = index.video_track().timescale;
    if timescale == 0 {
        return Err(
            PackagerError::SampleTableInconsistent(
                "video timescale is zero (cannot compute EXTINF)",
            ),
        );
    }
    let ticks: Vec<u64> = collect_ticks(index.segments(), index.video_samples())?;
    write_text(out, ticks.as_slice(), timescale);
    Ok(())
}

proof fn lemma_largest(ticks: Seq<u64>, k: int)
    requires
        0 <= k < ticks.len(),
    ensures
        ticks[k] <= largest(ticks),
        ticks.contains(largest(ticks)),
    decreases ticks.len(),
{
    if ticks.len() > 1 {
        let init = ticks.drop_last();
        lemma_largest(init, if k < init.len() { k } else { 0 });
        let j = choose|j: int| 0 <= j < init.len() && init[j] == largest(init);
        assert(ticks[j] == largest(init));
        assert(ticks[ticks.len() - 1] == ticks.last());
    } else {
        reveal_with_fuel(largest, 2);
        assert(ticks[0] == largest(ticks));
    }
}

proof fn lemma_ceil_div(num: nat, den: nat)
    requires
        den > 0,
    ensures
        num <= ceil_div(num, den) * den < num + den,
{
    let q = num / den;
    let r = num % den;
    assert(num == q * den + r && 0 <= r < den && (q + 1) * den == q * den + den)
        by (nonlinear_arith)
        requires
            den > 0,
            q == num / den,
            r == num % den,
    ;
}

/// The target duration is the least number of whole seconds that no segment
/// exceeds.
pub proof fn law_target_duration_is_the_least_bound(ticks: Seq<u64>, timescale: u32)
    requires
        timescale > 0,
        ticks.len() > 0,
    ensures
        forall|k: int|
            0 <= k < ticks.len() ==> #[trigger] ticks[k] <= target_duration(ticks, timescale)
                * timescale,
        exists|k: int|
            0 <= k < ticks.len() && #[trigger] ticks[k] > target_duration(ticks, timescale)
                * timescale - timescale,
{
    lemma_ceil_div(largest(ticks) as nat, timescale as nat);
    assert forall|k: int| 0 <= k < ticks.len() implies #[trigger] ticks[k] <= target_duration(
        ticks,
        timescale,
    ) * timescale by {
        lemma_largest(ticks, k);
    }
    lemma_largest(ticks, 0);
    let k = choose|k: int| 0 <= k < ticks.len() && ticks[k] == largest(ticks);
    assert(ticks[k] > target_duration(ticks, timescale) * timescale - timescale);
}

/// No printed duration of a segment of at most 2^53 ticks exceeds the target
/// duration. (From there on, a count of ticks may itself be rounded up.)
pub proof fn law_printed_durations_stay_within_the_target(
    ticks: Seq<u64>,
    timescale: u32,
    k: int,
)
    requires
        timescale > 0,
        0 <= k < ticks.len(),
        ticks[k] <= MANTISSA_END,
    ensures
        extinf_micros(ticks[k], timescale) <= target_duration(ticks, timescale) * 1_000_000,
{
    let n = ticks[k] as nat;
    let den = timescale as nat;
    lemma_largest(ticks, k);
    lemma_ceil_div(largest(ticks) as nat, den);
    assert(round53(n) == n) by {
        reveal_with_fuel(unit, 3);
        if n == MANTISSA_END {
            assert(unit(n) == 2);
            assert(half_even(n, 2) == n / 2);
        } else {
            assert(unit(n) == 1);
            assert(half_even(n, 1) == n);
        }
    }
    let target = target_duration(ticks, timescale);
    assert(n <= target * den);
    if n < den * MANTISSA_END {
        lemma_quotient_micros_at_most(n, den, target);
    } else {
        assert(den == 1) by (nonlinear_arith)
            requires
                n >= den * MANTISSA_END,
                n <= MANTISSA_END,
                den >= 1,
                MANTISSA_END == 0x20_0000_0000_0000,
        ;
        lemma_largest_quotient();
        assert(target >= MANTISSA_END);
    }
}

/// 2^53 seconds print as they are.
proof fn lemma_largest_quotient()
    ensures
        quotient_micros(MANTISSA_END as nat, 1) == MANTISSA_END * 1_000_000,
{
    reveal_with_fuel(lift, 2);
    reveal_with_fuel(drop_below, 3);
    let m = MANTISSA_END as nat;
    assert(lift(m, 1) == 1);
    assert(drop_below(m, 1) == 2);
    assert(half_even(m * 1, 1 * 2) == m / 2);
    assert(half_even((m / 2) * 2 * 1_000_000, 1) == (m / 2) * 2 * 1_000_000);
}

} // verus!
