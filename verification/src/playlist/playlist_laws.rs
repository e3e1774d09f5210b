//! What a playlist says.

use vstd::prelude::*;

use crate::binary64::{drop_below, half_even, lift, round53, unit};
use crate::bytes::ascii;
use crate::fmp4::media_laws::{lemma_stands_both, stands};
use crate::index::format::{SampleEntry, SegmentEntry};
use crate::index::view::IndexModel;
use crate::playlist::decimal::digits;
use crate::playlist::m3u8::{
    all_ticks, body_lines, extinf_micros, law_target_duration_is_the_least_bound, playlist,
    segment_lines, target_duration, ticks_sum, video_ticks,
};

verus! {

/// The number that decimal digits denote.
pub open spec fn decimal_value(text: Seq<u8>) -> nat
    decreases text.len(),
{
    if text.len() == 0 {
        0
    } else {
        10 * decimal_value(text.drop_last()) + (text.last() - 0x30) as nat
    }
}

/// Numbers are printed in decimal: digits that denote the number, at least
/// `width` of them, and no zero in front beyond that.
pub proof fn law_numbers_are_printed_in_decimal(n: nat, width: nat)
    ensures
        decimal_value(digits(n, width)) == n,
        digits(n, width).len() >= 1,
        digits(n, width).len() >= width,
        forall|i: int| 0 <= i < digits(n, width).len() ==> 0x30 <= #[trigger] digits(n, width)[i]
            <= 0x39,
        digits(n, width).len() > 1 && digits(n, width).len() > width ==> digits(n, width)[0]
            != 0x30,
    decreases n, width,
{
    let d = digits(n, width);
    if n < 10 && width <= 1 {
        reveal_with_fuel(decimal_value, 2);
        assert(d.drop_last() =~= Seq::<u8>::empty());
    } else {
        let w = if width > 0 { (width - 1) as nat } else { 0 };
        law_numbers_are_printed_in_decimal(n / 10, w);
        let init = digits(n / 10, w);
        assert(d.drop_last() =~= init);
        assert(d[0] == init[0]);
        if init.len() == 1 && !(n / 10 < 10 && w <= 1) {
            let w2 = if w > 0 { (w - 1) as nat } else { 0 };
            law_numbers_are_printed_in_decimal(n / 10 / 10, w2);
        }
        assert forall|i: int| 0 <= i < d.len() implies 0x30 <= #[trigger] d[i] <= 0x39 by {
            if i < init.len() {
                assert(d[i] == init[i]);
            }
        }
    }
}

/// Whether `sums` add up the durations of the samples, from 0 on.
pub open spec fn sample_times(times: Seq<int>, samples: Seq<SampleEntry>) -> bool {
    &&& times.len() == samples.len() + 1
    &&& times[0] == 0
    &&& forall|i: int|
        0 <= i < samples.len() ==> #[trigger] times[i + 1] == times[i] + samples[i].dts_delta
}

/// How long a segment lasts, by the times of the video samples.
pub open spec fn lasts(times: Seq<int>, segment: SegmentEntry) -> int {
    times[segment.video_sample_start + segment.video_sample_count]
        - times[segment.video_sample_start as int]
}

proof fn lemma_ticks_by_times(
    times: Seq<int>,
    samples: Seq<SampleEntry>,
    from: int,
    to: int,
)
    requires
        sample_times(times, samples),
        0 <= from <= to <= samples.len(),
    ensures
        ticks_sum(samples.subrange(from, to)) == times[to] - times[from],
        times[to] - times[from] <= (to - from) * u32::MAX,
    decreases to - from,
{
    let part = samples.subrange(from, to);
    if from < to {
        lemma_ticks_by_times(times, samples, from, to - 1);
        assert(part.drop_last() =~= samples.subrange(from, to - 1));
        assert(part.last() == samples[to - 1]);
        assert(times[(to - 1) + 1] == times[to - 1] + samples[to - 1].dts_delta);
        assert((to - from) * u32::MAX == (to - 1 - from) * u32::MAX + u32::MAX)
            by (nonlinear_arith);
    }
}

/// Whether `ticks` are the durations of segments whose video samples are there.
spec fn ticks_match(
    ticks: Seq<u64>,
    times: Seq<int>,
    segments: Seq<SegmentEntry>,
    count: nat,
) -> bool {
    &&& ticks.len() == segments.len()
    &&& forall|k: int|
        #![trigger ticks[k]]
        #![trigger segments[k]]
        0 <= k < segments.len() ==> ticks[k] == lasts(times, segments[k])
            && segments[k].video_sample_start + segments[k].video_sample_count <= count
}

proof fn lemma_last_ticks(s: SegmentEntry, samples: Seq<SampleEntry>, times: Seq<int>)
    requires
        sample_times(times, samples),
    ensures
        video_ticks(s, samples) matches Ok(ticks) ==> ticks == lasts(times, s)
            && s.video_sample_start + s.video_sample_count <= samples.len(),
        s.video_sample_start + s.video_sample_count <= samples.len() <= usize::MAX ==> video_ticks(
            s,
            samples,
        ) is Ok,
{
    let from = s.video_sample_start as int;
    let to = from + s.video_sample_count;
    if to <= samples.len() {
        lemma_ticks_by_times(times, samples, from, to);
        assert((to - from) * u32::MAX <= u32::MAX * u32::MAX) by (nonlinear_arith)
            requires
                0 <= to - from <= u32::MAX,
        ;
    }
}

proof fn lemma_all_ticks(
    segments: Seq<SegmentEntry>,
    samples: Seq<SampleEntry>,
    times: Seq<int>,
)
    requires
        sample_times(times, samples),
    ensures
        all_ticks(segments, samples) matches Ok(ticks) ==> ticks_match(
            ticks,
            times,
            segments,
            samples.len(),
        ),
    decreases segments.len(),
{
    if segments.len() > 0 {
        let n = segments.len() as int;
        let before = segments.drop_last();
        lemma_all_ticks(before, samples, times);
        lemma_last_ticks(segments.last(), samples, times);
        if let Ok(ticks) = all_ticks(segments, samples) {
            let earlier = all_ticks(before, samples)->Ok_0;
            assert(ticks == earlier.push(video_ticks(segments.last(), samples)->Ok_0));
            assert forall|k: int|
                #![trigger ticks[k]]
                #![trigger segments[k]]
                0 <= k < segments.len() implies ticks[k] == lasts(times, segments[k])
                && segments[k].video_sample_start + segments[k].video_sample_count
                <= samples.len() by {
                if k < n - 1 {
                    assert(ticks[k] == earlier[k]);
                    assert(segments[k] == before[k]);
                }
            }
        }
    }
}

proof fn lemma_all_ticks_ok(
    segments: Seq<SegmentEntry>,
    samples: Seq<SampleEntry>,
    times: Seq<int>,
)
    requires
        sample_times(times, samples),
        samples.len() <= usize::MAX,
        forall|k: int|
            0 <= k < segments.len() ==> (#[trigger] segments[k]).video_sample_start
                + segments[k].video_sample_count <= samples.len(),
    ensures
        all_ticks(segments, samples) is Ok,
    decreases segments.len(),
{
    if segments.len() > 0 {
        let before = segments.drop_last();
        assert forall|k: int| 0 <= k < before.len() implies (
        #[trigger] before[k]).video_sample_start + before[k].video_sample_count
            <= samples.len() by {
            assert(before[k] == segments[k]);
        }
        lemma_all_ticks_ok(before, samples, times);
        assert(segments[segments.len() - 1] == segments.last());
        lemma_last_ticks(segments.last(), samples, times);
    }
}

/// The text in front of the segments: the tags of a version 7 VOD playlist,
/// the target duration, and the init segment.
pub open spec fn playlist_front(target: nat) -> Seq<u8> {
    ascii("#EXTM3U\n#EXT-X-VERSION:7\n#EXT-X-INDEPENDENT-SEGMENTS\n#EXT-X-TARGETDURATION:"@)
        + digits(target, 1) + ascii(
        "\n#EXT-X-PLAYLIST-TYPE:VOD\n#EXT-X-MAP:URI=\"init.mp4\"\n"@,
    )
}

/// The text of entry `n`, counted from 1: its duration in seconds with six
/// decimals, and its name with at least four digits.
pub open spec fn playlist_entry(n: nat, micros: nat) -> Seq<u8> {
    ascii("#EXTINF:"@) + digits(micros / 1000000, 1) + ascii("."@) + digits(micros % 1000000, 6)
        + ascii(",\nseg_"@) + digits(n, 4) + ascii(".m4s\n"@)
}

/// Whether `target` is the least number of seconds that no segment exceeds.
pub open spec fn least_target(
    target: nat,
    times: Seq<int>,
    segments: Seq<SegmentEntry>,
    timescale: u32,
) -> bool {
    &&& forall|k: int|
        0 <= k < segments.len() ==> lasts(times, #[trigger] segments[k]) <= target * timescale
    &&& segments.len() > 0 ==> exists|k: int|
        0 <= k < segments.len() && lasts(times, #[trigger] segments[k]) > target * timescale
            - timescale
}

/// Whether the entries of a playlist stand one after the other at the given
/// places, one for each segment, in order, with its duration.
pub open spec fn entries_at(
    text: Seq<u8>,
    places: Seq<int>,
    times: Seq<int>,
    segments: Seq<SegmentEntry>,
    timescale: u32,
) -> bool {
    &&& places.len() == segments.len() + 1
    &&& forall|k: int|
        #![trigger places[k]]
        0 <= k < segments.len() ==> {
            let entry = playlist_entry(
                (k + 1) as nat,
                extinf_micros(lasts(times, segments[k]) as u64, timescale),
            );
            stands(text, places[k], entry) && places[k + 1] == places[k] + entry.len()
        }
}

proof fn lemma_entry_text(n: nat, ticks: u64, timescale: u32)
    ensures
        segment_lines(n, ticks, timescale) == playlist_entry(n, extinf_micros(ticks, timescale)),
{
    reveal_strlit(",\n");
    reveal_strlit("seg_");
    reveal_strlit(",\nseg_");
    reveal_strlit(".m4s");
    reveal_strlit("\n");
    reveal_strlit(".m4s\n");
    assert(ascii(",\nseg_"@) =~= ascii(",\n"@) + ascii("seg_"@));
    assert(ascii(".m4s\n"@) =~= ascii(".m4s"@) + ascii("\n"@));
    assert(segment_lines(n, ticks, timescale) =~= playlist_entry(
        n,
        extinf_micros(ticks, timescale),
    ));
}

/// The entries of the first segments.
proof fn lemma_body_places(text: Seq<u8>, at: int, ticks: Seq<u64>, timescale: u32)
    requires
        stands(text, at, body_lines(ticks, timescale)),
    ensures
        forall|k: int|
            0 <= k < ticks.len() ==> {
                let entry = playlist_entry((k + 1) as nat, extinf_micros(ticks[k], timescale));
                let place = at + #[trigger] body_lines(ticks.take(k), timescale).len();
                stands(text, place, entry) && at + body_lines(ticks.take(k + 1), timescale).len()
                    == place + entry.len()
            },
    decreases ticks.len(),
{
    if ticks.len() > 0 {
        let n = ticks.len() as int;
        let before = ticks.drop_last();
        let line = segment_lines(n as nat, ticks.last(), timescale);
        lemma_stands_both(text, at, body_lines(before, timescale), line);
        lemma_entry_text(n as nat, ticks.last(), timescale);
        lemma_body_places(text, at, before, timescale);
        assert(ticks.take(n) =~= ticks);
        assert(ticks.take(n - 1) =~= before);
        assert forall|k: int| 0 <= k < ticks.len() implies {
            let entry = playlist_entry((k + 1) as nat, extinf_micros(ticks[k], timescale));
            let place = at + #[trigger] body_lines(ticks.take(k), timescale).len();
            stands(text, place, entry) && at + body_lines(ticks.take(k + 1), timescale).len()
                == place + entry.len()
        } by {
            if k < n - 1 {
                assert(before.take(k) =~= ticks.take(k));
                assert(before.take(k + 1) =~= ticks.take(k + 1));
                let known = body_lines(before.take(k), timescale).len();
            }
        }
    }
}

/// A playlist is its front, one entry per segment in order, and the end tag.
/// Each entry has the duration of its segment, which is the time from its
/// first video sample to the first one after it, and the front has the least
/// whole number of seconds that none of them exceeds.
pub proof fn law_playlist_lists_every_segment(index: IndexModel, times: Seq<int>)
    requires
        playlist(index) is Ok,
        sample_times(times, index.video_samples),
    ensures
        ({
            let text = playlist(index)->Ok_0;
            let timescale = index.video_track.timescale;
            exists|target: nat, places: Seq<int>|
                {
                    &&& least_target(target, times, index.segments, timescale)
                    &&& stands(text, 0, #[trigger] playlist_front(target))
                    &&& #[trigger] entries_at(text, places, times, index.segments, timescale)
                    &&& places[0] == playlist_front(target).len()
                    &&& stands(text, places.last(), ascii("#EXT-X-ENDLIST\n"@))
                    &&& places.last() + 15 == text.len()
                }
        }),
{
    let text = playlist(index)->Ok_0;
    let timescale = index.video_track.timescale;
    let segments = index.segments;
    let ticks = all_ticks(segments, index.video_samples)->Ok_0;
    lemma_all_ticks(segments, index.video_samples, times);
    let target = target_duration(ticks, timescale);
    let front = playlist_front(target);
    let lines = body_lines(ticks, timescale);
    let end = ascii("#EXT-X-ENDLIST\n"@);
    reveal_strlit("#EXT-X-ENDLIST\n");
    assert(text == front + lines + end);
    assert(text.subrange(0, text.len() as int) =~= text);
    lemma_stands_both(text, 0, front + lines, end);
    lemma_stands_both(text, 0, front, lines);
    lemma_body_places(text, front.len() as int, ticks, timescale);
    let n = segments.len();
    let places = Seq::new(
        n + 1,
        |k: int| 0int + front.len() + body_lines(ticks.take(k), timescale).len(),
    );
    assert(ticks.take(0) =~= Seq::<u64>::empty());
    assert(ticks.take(n as int) =~= ticks);
    assert forall|k: int|
        #![trigger places[k]]
        0 <= k < segments.len() implies {
        let entry = playlist_entry(
            (k + 1) as nat,
            extinf_micros(lasts(times, segments[k]) as u64, timescale),
        );
        stands(text, places[k], entry) && places[k + 1] == places[k] + entry.len()
    } by {
        let len = body_lines(ticks.take(k), timescale).len();
        assert(ticks[k] == lasts(times, segments[k]));
    }
    assert(entries_at(text, places, times, segments, timescale));
    assert(least_target(target, times, segments, timescale)) by {
        if n > 0 {
            law_target_duration_is_the_least_bound(ticks, timescale);
            assert forall|k: int| 0 <= k < segments.len() implies lasts(
                times,
                #[trigger] segments[k],
            ) <= target * timescale by {
                assert(ticks[k] == lasts(times, segments[k]));
            }
            let k = choose|k: int|
                0 <= k < ticks.len() && #[trigger] ticks[k] > target * timescale - timescale;
            assert(lasts(times, segments[k]) > target * timescale - timescale);
        }
    }
}

/// An index has a playlist wherever its video timescale is not zero and its
/// segments name video samples that are there.
pub proof fn law_sound_indexes_have_a_playlist(index: IndexModel, times: Seq<int>)
    requires
        sample_times(times, index.video_samples),
        index.video_samples.len() <= usize::MAX,
    ensures
        playlist(index) is Ok <==> index.video_track.timescale != 0 && forall|k: int|
            0 <= k < index.segments.len() ==> (#[trigger] index.segments[k]).video_sample_start
                + index.segments[k].video_sample_count <= index.video_samples.len(),
        playlist(index) matches Err(e) ==> e is SampleTableInconsistent,
{
    lemma_all_ticks(index.segments, index.video_samples, times);
    lemma_ticks_failure(index.segments, index.video_samples);
    if forall|k: int|
        0 <= k < index.segments.len() ==> (#[trigger] index.segments[k]).video_sample_start
            + index.segments[k].video_sample_count <= index.video_samples.len() {
        lemma_all_ticks_ok(index.segments, index.video_samples, times);
    }
    if let Ok(ticks) = all_ticks(index.segments, index.video_samples) {
        assert forall|k: int| 0 <= k < index.segments.len() implies (
        #[trigger] index.segments[k]).video_sample_start + index.segments[k].video_sample_count
            <= index.video_samples.len() by {
            let t = ticks[k];
        }
    }
}

proof fn lemma_ticks_failure(segments: Seq<SegmentEntry>, samples: Seq<SampleEntry>)
    ensures
        all_ticks(segments, samples) matches Err(e) ==> e is SampleTableInconsistent,
    decreases segments.len(),
{
    if segments.len() > 0 {
        lemma_ticks_failure(segments.drop_last(), samples);
    }
}

/// Rounding to the nearest whole number is off by half at most.
proof fn lemma_half_even_near(num: nat, den: nat)
    requires
        den > 0,
    ensures
        2 * num - den <= 2 * (half_even(num, den) * den) <= 2 * num + den,
{
    let q = num / den;
    let r = num % den;
    assert(num == q * den + r && 0 <= r < den) by (nonlinear_arith)
        requires
            den > 0,
            q == num / den,
            r == num % den,
    ;
    assert((q + 1) * den == q * den + den) by (nonlinear_arith);
}

/// The lift brings the quotient to 2^52.
proof fn lemma_lift_reaches(num: nat, den: nat)
    requires
        num > 0,
    ensures
        num * lift(num, den) >= den * 0x10_0000_0000_0000,
        lift(num, den) > 0,
    decreases (if num >= den * 0x10_0000_0000_0000 {
        0int
    } else {
        den * 0x10_0000_0000_0000 - num
    }),
{
    if num < den * 0x10_0000_0000_0000 {
        lemma_lift_reaches(2 * num, den);
        let up = lift(2 * num, den);
        assert(num * (2 * up) == (2 * num) * up) by (nonlinear_arith);
    } else {
        assert(lift(num, den) == 1);
        assert(num * 1 == num);
    }
}

/// The duration of a segment is printed in seconds, rounded to the nearest
/// microsecond: for segments shorter than an hour, the printed number of
/// microseconds is half a microsecond off at most, but for one part in a
/// million.
pub proof fn law_durations_are_printed_to_the_nearest_microsecond(ticks: u64, timescale: u32)
    requires
        timescale > 0,
        ticks < timescale * 4096,
    ensures
        ({
            let off = extinf_micros(ticks, timescale) * timescale - ticks * 1000000;
            &&& 2 * off * 1000000 <= timescale * 1000001
            &&& -2 * off * 1000000 <= timescale * 1000001
        }),
{
    let num = ticks as nat;
    let den = timescale as nat;
    lemma_small_round53(num);
    if num == 0 {
        assert(lift(0, den) == 1);
        assert(drop_below(0, den) == 1);
        assert(half_even(0, den) == 0) by {
            lemma_half_even_near(0, den);
            assert(0nat / den == 0 && 0nat % den == 0) by (nonlinear_arith)
                requires
                    den > 0,
            ;
        }
        assert(extinf_micros(ticks, timescale) == 0);
    } else {
        let up = lift(num, den);
        lemma_lift_reaches(num, den);
        assert(drop_below(num, den) == 1);
        let m = half_even(num * up, den * 1);
        lemma_half_even_near(num * up, den);
        let r = half_even(m * 1 * 1_000_000, up);
        lemma_half_even_near(m * 1_000_000, up);
        assert(r == extinf_micros(ticks, timescale));
        assert(up >= 0x100_0000_0000) by (nonlinear_arith)
            requires
                num * up >= den * 0x10_0000_0000_0000,
                num < den * 4096,
                den > 0,
                up > 0,
        ;
        lemma_micros_error(num as int, den as int, up as int, m as int, r as int);
    }
}

/// A number of at most 53 bits is not rounded.
proof fn lemma_small_round53(n: nat)
    requires
        n < 0x20_0000_0000_0000,
    ensures
        round53(n) == n,
{
    assert(unit(n) == 1);
    let h = half_even(n, 1);
    assert(n / 1 == n && n % 1 == 0);
    assert(h == n);
    let u = unit(n);
    assert(half_even(n, u) * u == n) by (nonlinear_arith)
        requires
            u == 1,
            half_even(n, u) == n,
    ;
}

/// The two roundings together.
proof fn lemma_micros_error(num: int, den: int, up: int, m: int, r: int)
    requires
        den > 0,
        up >= 0x100_0000_0000,
        2 * (num * up) - den <= 2 * (m * den) <= 2 * (num * up) + den,
        2 * (m * 1_000_000) - up <= 2 * (r * up) <= 2 * (m * 1_000_000) + up,
    ensures
        2 * (r * den - num * 1000000) * 1000000 <= den * 1000001,
        -2 * (r * den - num * 1000000) * 1000000 <= den * 1000001,
{
    let off = r * den - num * 1000000;
    let p = m * den;
    let q = num * up;
    let t = r * up * den;
    let w = up * den;
    assert(2 * t <= 2 * 1_000_000 * p + w && 2 * t >= 2 * 1_000_000 * p - w) by (nonlinear_arith)
        requires
            2 * (m * 1_000_000) - up <= 2 * (r * up) <= 2 * (m * 1_000_000) + up,
            den > 0,
            p == m * den,
            t == r * up * den,
            w == up * den,
    ;
    assert(off * up == t - 1_000_000 * q) by (nonlinear_arith)
        requires
            off == r * den - num * 1000000,
            t == r * up * den,
            q == num * up,
    ;
    let e = off * up;
    assert(2 * q - den <= 2 * p && 2 * p <= 2 * q + den);
    assert(2_000_000 * q - 1_000_000 * den <= 2_000_000 * p && 2_000_000 * p <= 2_000_000 * q
        + 1_000_000 * den);
    assert(e == t - 1_000_000 * q);
    assert(2 * e <= w + 1_000_000 * den && -2 * e <= w + 1_000_000 * den);
    assert(1_000_000_000_000 * den <= w) by (nonlinear_arith)
        requires
            up >= 0x100_0000_0000,
            den > 0,
            w == up * den,
    ;
    assert(2 * off * 1000000 <= den * 1000001) by (nonlinear_arith)
        requires
            2 * e <= w + 1_000_000 * den,
            1_000_000_000_000 * den <= w,
            e == off * up,
            w == up * den,
            up > 0,
            den > 0,
    ;
    assert(-2 * off * 1000000 <= den * 1000001) by (nonlinear_arith)
        requires
            -2 * e <= w + 1_000_000 * den,
            1_000_000_000_000 * den <= w,
            e == off * up,
            w == up * den,
            up > 0,
            den > 0,
    ;
}

} // verus!
