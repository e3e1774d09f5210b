//! What a media segment says, byte by byte.
//!
//! The laws read a segment the way a player does (ISO/IEC 14496-12): a word
//! at a place, counted from the start of the segment. Box types are written
//! as numbers, `0x6d6f6f66` for `moof` and so on.

use vstd::prelude::*;

use crate::bytes::{be32, be_u32_at, group_bytes, lemma_be_u32_within};
use crate::demux::fourcc::{MDAT, MFHD, MOOF, STYP, TFDT, TFHD, TRAF, TRUN};
use crate::error::{IoError, PackagerError};
use crate::fmp4::boxes::{appends, box_bytes, lemma_words_len, words};
use crate::fmp4::media::{
    has_cts, lemma_moof_data_offsets, lemma_sample_within, lemma_samples_data_fail,
    lemma_samples_data_len, mdat_data, media_segment, mfhd_words, payload_size, run_rows,
    run_words, samples_data, segment_parts, streams, styp_words, tfdt_words, tfhd_words, trun,
    trun_head, trun_tail, TrackRun,
};
use crate::index::format::SampleEntry;
use crate::index::view::IndexModel;

verus! {

/// Whether `part` stands in `whole` at `at`.
pub open spec fn stands(whole: Seq<u8>, at: int, part: Seq<u8>) -> bool {
    &&& 0 <= at
    &&& at + part.len() <= whole.len()
    &&& whole.subrange(at, at + part.len()) == part
}

/// Where two parts stand together, each stands.
pub proof fn lemma_stands_both(whole: Seq<u8>, at: int, a: Seq<u8>, b: Seq<u8>)
    requires
        stands(whole, at, a + b),
    ensures
        stands(whole, at, a),
        stands(whole, at + a.len(), b),
{
    let both = whole.subrange(at, at + (a + b).len());
    assert(whole.subrange(at, at + a.len()) =~= both.subrange(0, a.len() as int));
    assert(both.subrange(0, a.len() as int) =~= a);
    assert(whole.subrange(at + a.len(), at + a.len() + b.len()) =~= both.subrange(
        a.len() as int,
        both.len() as int,
    ));
    assert(both.subrange(a.len() as int, both.len() as int) =~= b);
}

/// A word that stands somewhere reads back.
pub proof fn lemma_stands_word(whole: Seq<u8>, at: int, v: u32)
    requires
        stands(whole, at, be32(v)),
    ensures
        be_u32_at(whole, at) == v,
{
    broadcast use group_bytes;

    let part = whole.subrange(at, at + be32(v).len());
    assert(part[0] == whole[at] && part[1] == whole[at + 1] && part[2] == whole[at + 2] && part[3]
        == whole[at + 3]);
    lemma_be_u32_within(whole, at, be32(v), 0);
}

/// Words that stand somewhere read back, each at its place.
pub proof fn lemma_stands_words(whole: Seq<u8>, at: int, w: Seq<u32>)
    requires
        stands(whole, at, words(w)),
    ensures
        forall|k: int| 0 <= k < w.len() ==> be_u32_at(whole, at + 4 * k) == #[trigger] w[k],
    decreases w.len(),
{
    broadcast use {group_bytes, lemma_words_len};

    if w.len() > 0 {
        let n = w.len() as int;
        lemma_stands_both(whole, at, words(w.drop_last()), be32(w.last()));
        lemma_stands_words(whole, at, w.drop_last());
        lemma_stands_word(whole, at + 4 * (n - 1), w.last());
        assert forall|k: int| 0 <= k < w.len() implies be_u32_at(whole, at + 4 * k)
            == #[trigger] w[k] by {
            if k < n - 1 {
                assert(w.drop_last()[k] == w[k]);
            }
        }
    }
}

/// A box that stands somewhere: its size, its type, its payload.
pub proof fn lemma_stands_box(whole: Seq<u8>, at: int, fourcc: u32, payload: Seq<u8>)
    requires
        stands(whole, at, box_bytes(fourcc, payload)),
        payload.len() + 8 <= u32::MAX,
    ensures
        be_u32_at(whole, at) == payload.len() + 8,
        be_u32_at(whole, at + 4) == fourcc,
        stands(whole, at + 8, payload),
        box_bytes(fourcc, payload).len() == payload.len() + 8,
{
    broadcast use group_bytes;

    let size = be32((payload.len() + 8) as u32);
    lemma_stands_both(whole, at, size + be32(fourcc), payload);
    lemma_stands_both(whole, at, size, be32(fourcc));
    lemma_stands_word(whole, at, (payload.len() + 8) as u32);
    lemma_stands_word(whole, at + 4, fourcc);
}

/// The width of a row of a `trun`: duration, size and, if there are
/// composition offsets, that offset.
pub open spec fn row_width(cts: bool) -> int {
    if cts {
        12
    } else {
        8
    }
}

/// Whether the rows of a `trun` at `at` say, for each of the samples, how
/// long it lasts, how many bytes it has and, with `cts`, its composition
/// offset in two's complement.
pub open spec fn rows_at(whole: Seq<u8>, at: int, samples: Seq<SampleEntry>, cts: bool) -> bool {
    forall|k: int|
        0 <= k < samples.len() ==> {
            let row = at + row_width(cts) * k;
            let sample = #[trigger] samples[k];
            &&& be_u32_at(whole, row) == sample.dts_delta
            &&& be_u32_at(whole, row + 4) == sample.size
            &&& cts ==> be_u32_at(whole, row + 8) == if sample.cts_offset >= 0 {
                sample.cts_offset as int
            } else {
                sample.cts_offset + 0x1_0000_0000
            }
        }
}

proof fn lemma_rows_at(whole: Seq<u8>, at: int, samples: Seq<SampleEntry>, cts: bool)
    requires
        stands(whole, at, run_rows(samples, cts)),
    ensures
        rows_at(whole, at, samples, cts),
        run_rows(samples, cts).len() == row_width(cts) * samples.len(),
    decreases samples.len(),
{
    if samples.len() > 0 {
        let n = samples.len() as int;
        let before = samples.drop_last();
        let w = run_words(samples.last(), cts);
        lemma_words_len(w);
        lemma_stands_both(whole, at, run_rows(before, cts), words(w));
        lemma_rows_at(whole, at, before, cts);
        let row = at + row_width(cts) * (n - 1);
        lemma_stands_words(whole, row, w);
        assert(be_u32_at(whole, row + 4 * 0) == w[0]);
        assert(be_u32_at(whole, row + 4 * 1) == w[1]);
        if cts {
            assert(be_u32_at(whole, row + 4 * 2) == w[2]);
        }
        assert(row_width(cts) * n == row_width(cts) * (n - 1) + row_width(cts))
            by (nonlinear_arith);
        assert forall|k: int| 0 <= k < samples.len() implies {
            let row = at + row_width(cts) * k;
            let sample = #[trigger] samples[k];
            &&& be_u32_at(whole, row) == sample.dts_delta
            &&& be_u32_at(whole, row + 4) == sample.size
            &&& cts ==> be_u32_at(whole, row + 8) == if sample.cts_offset >= 0 {
                sample.cts_offset as int
            } else {
                sample.cts_offset + 0x1_0000_0000
            }
        } by {
            if k < n - 1 {
                assert(before[k] == samples[k]);
            }
        }
    } else {
        assert(row_width(cts) * 0 == 0) by (nonlinear_arith);
    }
}

/// The bytes of a `traf` box.
pub open spec fn traf_len(count: nat, video: bool, cts: bool) -> int {
    (if video { 68int } else { 64int }) + row_width(cts) * count
}

/// Whether a `traf` at `at` describes the samples of a track: `tfhd` with the
/// track and default-base-is-moof, `tfdt` with the decode time of the first
/// sample, and `trun` with a data offset, the sync flags of the first sample
/// if it is video, and one row per sample.
pub open spec fn traf_at(
    seg: Seq<u8>,
    at: int,
    track_id: u32,
    base_dts: u64,
    samples: Seq<SampleEntry>,
    video: bool,
    cts: bool,
) -> bool {
    let len = traf_len(samples.len(), video, cts);
    let rows = at + if video { 68int } else { 64 };
    &&& at + len <= seg.len()
    &&& be_u32_at(seg, at) == len
    &&& be_u32_at(seg, at + 4) == 0x7472_6166
    &&& be_u32_at(seg, at + 8) == 16
    &&& be_u32_at(seg, at + 12) == 0x7466_6864
    &&& be_u32_at(seg, at + 16) == 0x0002_0000
    &&& be_u32_at(seg, at + 20) == track_id
    &&& be_u32_at(seg, at + 24) == 20
    &&& be_u32_at(seg, at + 28) == 0x7466_6474
    &&& be_u32_at(seg, at + 32) == 0x0100_0000
    &&& be_u32_at(seg, at + 36) * 0x1_0000_0000 + be_u32_at(seg, at + 40) == base_dts
    &&& be_u32_at(seg, at + 44) == len - 44
    &&& be_u32_at(seg, at + 48) == 0x7472_756e
    &&& be_u32_at(seg, at + 52) == if !video {
        0x0000_0301u32
    } else if cts {
        0x0100_0b05
    } else {
        0x0000_0305
    }
    &&& be_u32_at(seg, at + 56) == samples.len()
    &&& video ==> be_u32_at(seg, at + 64) == 0x0200_0000
    &&& rows_at(seg, rows, samples, cts)
}

#[verifier::rlimit(40)]
proof fn lemma_traf_at(seg: Seq<u8>, at: int, run: TrackRun, data_offset: u32)
    requires
        run.traf(data_offset) is Ok,
        stands(seg, at, run.traf(data_offset)->Ok_0),
        !run.video ==> !run.cts,
        run.samples.len() <= u32::MAX,
    ensures
        run.traf(data_offset)->Ok_0.len() == traf_len(run.samples.len(), run.video, run.cts),
        traf_at(seg, at, run.track_id, run.base_dts, run.samples, run.video, run.cts),
        be_u32_at(seg, at + 60) == data_offset,
{
    broadcast use {group_bytes, lemma_words_len};

    let samples = run.samples;
    let head = words(trun_head(samples, run.video, run.cts));
    let tail = trun_tail(samples, run.video, run.cts);
    let trun_payload = head + be32(data_offset) + tail;
    let tfhd = box_bytes(TFHD, words(tfhd_words(run.track_id)));
    let tfdt = box_bytes(TFDT, words(tfdt_words(run.base_dts)));
    let trun_box = box_bytes(TRUN, trun_payload);
    lemma_stands_box(seg, at, TRAF, tfhd + tfdt + trun_box);
    lemma_stands_both(seg, at + 8, tfhd + tfdt, trun_box);
    lemma_stands_both(seg, at + 8, tfhd, tfdt);
    lemma_stands_box(seg, at + 8, TFHD, words(tfhd_words(run.track_id)));
    lemma_stands_words(seg, at + 16, tfhd_words(run.track_id));
    assert(be_u32_at(seg, at + 16 + 4 * 0) == tfhd_words(run.track_id)[0]);
    assert(be_u32_at(seg, at + 16 + 4 * 1) == tfhd_words(run.track_id)[1]);
    lemma_stands_box(seg, at + 24, TFDT, words(tfdt_words(run.base_dts)));
    lemma_stands_words(seg, at + 32, tfdt_words(run.base_dts));
    let d = tfdt_words(run.base_dts);
    assert(be_u32_at(seg, at + 32 + 4 * 0) == d[0]);
    assert(be_u32_at(seg, at + 32 + 4 * 1) == d[1]);
    assert(be_u32_at(seg, at + 32 + 4 * 2) == d[2]);
    lemma_stands_box(seg, at + 44, TRUN, trun_payload);
    lemma_stands_both(seg, at + 52, head + be32(data_offset), tail);
    lemma_stands_both(seg, at + 52, head, be32(data_offset));
    let h = trun_head(samples, run.video, run.cts);
    lemma_stands_words(seg, at + 52, h);
    assert(be_u32_at(seg, at + 52 + 4 * 0) == h[0]);
    assert(be_u32_at(seg, at + 52 + 4 * 1) == h[1]);
    lemma_stands_word(seg, at + 60, data_offset);
    if run.video {
        let first = be32(0x0200_0000u32);
        lemma_stands_both(seg, at + 64, first, run_rows(samples, run.cts));
        lemma_stands_word(seg, at + 64, 0x0200_0000u32);
        lemma_rows_at(seg, at + 68, samples, run.cts);
    } else {
        lemma_rows_at(seg, at + 64, samples, false);
    }
}

/// The samples of segment `idx` in the video or the audio table.
pub open spec fn segment_samples(index: IndexModel, idx: u32, video: bool) -> Seq<SampleEntry> {
    let s = index.segments[idx as int];
    if video {
        index.video_samples.subrange(
            s.video_sample_start as int,
            s.video_sample_start + s.video_sample_count,
        )
    } else {
        index.audio_samples.subrange(
            s.audio_sample_start as int,
            s.audio_sample_start + s.audio_sample_count,
        )
    }
}

/// Whether segment `idx` is there and names samples of both tables, at least
/// one of each.
pub open spec fn segment_named(index: IndexModel, idx: u32) -> bool {
    &&& idx < index.segments.len()
    &&& {
        let s = index.segments[idx as int];
        &&& s.video_sample_count > 0
        &&& s.audio_sample_count > 0
        &&& s.video_sample_start + s.video_sample_count <= index.video_samples.len()
        &&& s.audio_sample_start + s.audio_sample_count <= index.audio_samples.len()
    }
}

/// Whether any video sample of the index has a composition offset.
pub open spec fn index_has_cts(index: IndexModel) -> bool {
    exists|i: int|
        0 <= i < index.video_samples.len() && (#[trigger] index.video_samples[i]).cts_offset != 0
}

/// Where the `traf` of a track starts in a segment.
pub open spec fn traf_start(index: IndexModel, idx: u32, video: bool) -> int {
    if video {
        48
    } else {
        48 + traf_len(segment_samples(index, idx, true).len(), true, index_has_cts(index))
    }
}

/// Where the `mdat` box of a segment starts.
pub open spec fn mdat_start(index: IndexModel, idx: u32) -> int {
    traf_start(index, idx, false) + traf_len(
        segment_samples(index, idx, false).len(),
        false,
        false,
    )
}

#[verifier::rlimit(40)]
proof fn lemma_segment_stands(index: IndexModel, idx: u32, src: Seq<u8>)
    requires
        media_segment(index, idx, src) is Ok,
    ensures
        segment_named(index, idx),
        ({
            let seg = media_segment(index, idx, src)->Ok_0;
            let parts = segment_parts(index, idx)->Ok_0;
            let video = samples_data(src, parts.video.samples)->Ok_0;
            let audio = samples_data(src, parts.audio.samples)->Ok_0;
            let start = (mdat_start(index, idx) - 24 + 8) as u32;
            let payload = box_bytes(MFHD, words(mfhd_words(idx))) + parts.video.traf(start)->Ok_0
                + parts.audio.traf((start + video.len()) as u32)->Ok_0;
            &&& parts.video.samples == segment_samples(index, idx, true)
            &&& parts.audio.samples == segment_samples(index, idx, false)
            &&& parts.video.cts == index_has_cts(index)
            &&& samples_data(src, parts.video.samples) is Ok
            &&& samples_data(src, parts.audio.samples) is Ok
            &&& parts.video.traf(start) is Ok
            &&& parts.audio.traf((start + video.len()) as u32) is Ok
            &&& mdat_start(index, idx) - 24 + 8 + video.len() <= i32::MAX
            &&& seg.len() == mdat_start(index, idx) + 8 + video.len() + audio.len()
            &&& stands(seg, 0, box_bytes(STYP, words(styp_words())))
            &&& stands(seg, 24, box_bytes(MOOF, payload))
            &&& payload.len() + 8 == mdat_start(index, idx) - 24
            &&& stands(seg, mdat_start(index, idx), box_bytes(MDAT, video + audio))
            &&& video.len() + audio.len() + 8 <= u32::MAX
        }),
{
    broadcast use {group_bytes, lemma_words_len};

    let seg = media_segment(index, idx, src)->Ok_0;
    let parts = segment_parts(index, idx)->Ok_0;
    let draft = parts.moof(0, 0)->Ok_0;
    let x = (draft.len() + 8) as u32;
    let y = (draft.len() + 8 + parts.video_size()) as u32;
    lemma_moof_data_offsets(parts, x, y);
    lemma_samples_data_len(src, parts.video.samples);
    lemma_samples_data_len(src, parts.audio.samples);
    assert(has_cts(index.video_samples) == index_has_cts(index));
    let video = samples_data(src, parts.video.samples)->Ok_0;
    let audio = samples_data(src, parts.audio.samples)->Ok_0;
    let vt = parts.video.traf(x)->Ok_0;
    let at = parts.audio.traf(y)->Ok_0;
    assert(vt.subrange(0, vt.len() as int) =~= vt);
    assert(at.subrange(0, at.len() as int) =~= at);
    lemma_traf_at(vt, 0, parts.video, x);
    lemma_traf_at(at, 0, parts.audio, y);
    let styp = box_bytes(STYP, words(styp_words()));
    let moof = parts.moof(x, y)->Ok_0;
    let mdat = box_bytes(MDAT, video + audio);
    assert(seg == styp + moof + mdat);
    assert(seg.subrange(0, seg.len() as int) =~= seg);
    lemma_stands_both(seg, 0, styp + moof, mdat);
    lemma_stands_both(seg, 0, styp, moof);
}

/// A media segment, word by word: `styp` with its brands, `moof` with the
/// sequence number (counted from 1) and one `traf` per track, video as track 1
/// and audio as track 2, and `mdat`, which fills the rest. The video rows carry
/// composition offsets if any video sample of the index has one.
#[verifier::rlimit(60)]
pub proof fn law_media_segment_words(index: IndexModel, idx: u32, src: Seq<u8>)
    requires
        media_segment(index, idx, src) is Ok,
    ensures
        segment_named(index, idx),
        ({
            let seg = media_segment(index, idx, src)->Ok_0;
            let s = index.segments[idx as int];
            let mdat = mdat_start(index, idx);
            &&& be_u32_at(seg, 0) == 24
            &&& be_u32_at(seg, 4) == 0x7374_7970
            &&& be_u32_at(seg, 8) == 0x6d73_6468
            &&& be_u32_at(seg, 12) == 0
            &&& be_u32_at(seg, 16) == 0x6d73_6468
            &&& be_u32_at(seg, 20) == 0x636d_6663
            &&& be_u32_at(seg, 24) == mdat - 24
            &&& be_u32_at(seg, 28) == 0x6d6f_6f66
            &&& be_u32_at(seg, 32) == 16
            &&& be_u32_at(seg, 36) == 0x6d66_6864
            &&& be_u32_at(seg, 40) == 0
            &&& idx < u32::MAX ==> be_u32_at(seg, 44) == idx + 1
            &&& traf_at(
                seg,
                traf_start(index, idx, true),
                1,
                s.video_base_dts,
                segment_samples(index, idx, true),
                true,
                index_has_cts(index),
            )
            &&& traf_at(
                seg,
                traf_start(index, idx, false),
                2,
                s.audio_base_dts,
                segment_samples(index, idx, false),
                false,
                false,
            )
            &&& be_u32_at(seg, mdat) == seg.len() - mdat
            &&& be_u32_at(seg, mdat + 4) == 0x6d64_6174
        }),
{
    broadcast use {group_bytes, lemma_words_len};

    lemma_segment_stands(index, idx, src);
    let seg = media_segment(index, idx, src)->Ok_0;
    let parts = segment_parts(index, idx)->Ok_0;
    let video = samples_data(src, parts.video.samples)->Ok_0;
    let audio = samples_data(src, parts.audio.samples)->Ok_0;
    let x = (mdat_start(index, idx) - 24 + 8) as u32;
    let y = (x + video.len()) as u32;
    let vt = parts.video.traf(x)->Ok_0;
    let at = parts.audio.traf(y)->Ok_0;
    let mfhd = box_bytes(MFHD, words(mfhd_words(idx)));
    lemma_stands_box(seg, 0, STYP, words(styp_words()));
    lemma_stands_words(seg, 8, styp_words());
    let w = styp_words();
    assert(be_u32_at(seg, 8int + 4 * 0) == w[0]);
    assert(be_u32_at(seg, 8int + 4 * 1) == w[1]);
    assert(be_u32_at(seg, 8int + 4 * 2) == w[2]);
    assert(be_u32_at(seg, 8int + 4 * 3) == w[3]);
    lemma_stands_box(seg, 24, MOOF, mfhd + vt + at);
    lemma_stands_both(seg, 32, mfhd + vt, at);
    lemma_stands_both(seg, 32, mfhd, vt);
    lemma_stands_box(seg, 32, MFHD, words(mfhd_words(idx)));
    lemma_stands_words(seg, 40, mfhd_words(idx));
    let f = mfhd_words(idx);
    assert(be_u32_at(seg, 40int + 4 * 0) == f[0]);
    assert(be_u32_at(seg, 40int + 4 * 1) == f[1]);
    lemma_traf_at(seg, 48, parts.video, x);
    lemma_traf_at(seg, traf_start(index, idx, false), parts.audio, y);
    lemma_stands_box(seg, mdat_start(index, idx), MDAT, video + audio);
}

/// A player reads the data offset of a `trun`, counts it from the start of
/// `moof`, and adds up the sizes that the rows state. At each place it comes
/// to, it finds the very bytes of the sample in the source; with the last
/// audio sample the segment ends.
#[verifier::rlimit(60)]
pub proof fn law_players_find_every_sample(
    index: IndexModel,
    idx: u32,
    src: Seq<u8>,
    video: bool,
    places: Seq<int>,
)
    requires
        media_segment(index, idx, src) is Ok,
        ({
            let seg = media_segment(index, idx, src)->Ok_0;
            let samples = segment_samples(index, idx, video);
            let traf = traf_start(index, idx, video);
            let rows = traf + if video { 68int } else { 64 };
            let width = row_width(video && index_has_cts(index));
            &&& places.len() == samples.len() + 1
            &&& places[0] == 24 + be_u32_at(seg, traf + 60)
            &&& forall|k: int|
                0 <= k < samples.len() ==> #[trigger] places[k + 1] == places[k] + be_u32_at(
                    seg,
                    rows + width * k + 4,
                )
        }),
    ensures
        ({
            let seg = media_segment(index, idx, src)->Ok_0;
            let samples = segment_samples(index, idx, video);
            &&& forall|k: int|
                0 <= k < samples.len() && (#[trigger] samples[k]).size > 0 ==> {
                    &&& samples[k].offset + samples[k].size <= src.len()
                    &&& stands(
                        seg,
                        places[k],
                        src.subrange(
                            samples[k].offset as int,
                            samples[k].offset + samples[k].size,
                        ),
                    )
                }
            &&& video ==> places[0] == mdat_start(index, idx) + 8
            &&& video ==> places.last() == 24 + be_u32_at(seg, traf_start(index, idx, false) + 60)
            &&& !video ==> places.last() == seg.len()
        }),
{
    broadcast use {group_bytes, lemma_words_len};

    lemma_segment_stands(index, idx, src);
    law_media_segment_words(index, idx, src);
    let seg = media_segment(index, idx, src)->Ok_0;
    let parts = segment_parts(index, idx)->Ok_0;
    let v = samples_data(src, parts.video.samples)->Ok_0;
    let a = samples_data(src, parts.audio.samples)->Ok_0;
    let x = (mdat_start(index, idx) - 24 + 8) as u32;
    let y = (x + v.len()) as u32;
    let vt = parts.video.traf(x)->Ok_0;
    let at = parts.audio.traf(y)->Ok_0;
    let mfhd = box_bytes(MFHD, words(mfhd_words(idx)));
    lemma_stands_box(seg, 24, MOOF, mfhd + vt + at);
    lemma_stands_both(seg, 32, mfhd + vt, at);
    lemma_stands_both(seg, 32, mfhd, vt);
    lemma_traf_at(seg, 48, parts.video, x);
    lemma_traf_at(seg, traf_start(index, idx, false), parts.audio, y);
    let mdat = mdat_start(index, idx);
    lemma_stands_box(seg, mdat, MDAT, v + a);
    lemma_stands_both(seg, mdat + 8, v, a);
    let samples = segment_samples(index, idx, video);
    let data = if video { v } else { a };
    let start = if video { mdat + 8 } else { mdat + 8 + v.len() };
    let rows = traf_start(index, idx, video) + if video { 68int } else { 64 };
    let width = row_width(video && index_has_cts(index));
    assert(places[0] == start);
    lemma_samples_data_len(src, samples);
    lemma_places(seg, rows, width, samples, places, samples.len() as int);
    assert(samples.take(samples.len() as int) =~= samples);
    assert forall|k: int| 0 <= k < samples.len() && (#[trigger] samples[k]).size > 0 implies {
        &&& samples[k].offset + samples[k].size <= src.len()
        &&& stands(
            seg,
            places[k],
            src.subrange(samples[k].offset as int, samples[k].offset + samples[k].size),
        )
    } by {
        lemma_places(seg, rows, width, samples, places, k);
        lemma_sample_within(src, samples, k);
        let within = payload_size(samples.take(k)) as int;
        let size = samples[k].size as int;
        let all = seg.subrange(start, start + data.len());
        assert(all == data);
        assert(seg.subrange(start + within, start + within + size) =~= all.subrange(
            within,
            within + size,
        ));
    }
}

/// Sizes added up from the rows are sizes added up from the samples.
proof fn lemma_places(
    seg: Seq<u8>,
    rows: int,
    width: int,
    samples: Seq<SampleEntry>,
    places: Seq<int>,
    k: int,
)
    requires
        places.len() == samples.len() + 1,
        forall|j: int|
            0 <= j < samples.len() ==> #[trigger] places[j + 1] == places[j] + be_u32_at(
                seg,
                rows + width * j + 4,
            ),
        forall|j: int|
            0 <= j < samples.len() ==> be_u32_at(seg, rows + width * j + 4) == (
            #[trigger] samples[j]).size,
        0 <= k <= samples.len(),
    ensures
        places[k] == places[0] + payload_size(samples.take(k)),
    decreases k,
{
    if k > 0 {
        lemma_places(seg, rows, width, samples, places, k - 1);
        assert(places[(k - 1) + 1] == places[k - 1] + be_u32_at(seg, rows + width * (k - 1) + 4));
        assert(samples.take(k).drop_last() =~= samples.take(k - 1));
        assert(samples.take(k).last() == samples[k - 1]);
    }
}

/// Whether `sums` add up the sizes of the samples, from 0 on.
pub open spec fn size_sums(sums: Seq<int>, samples: Seq<SampleEntry>) -> bool {
    &&& sums.len() == samples.len() + 1
    &&& sums[0] == 0
    &&& forall|k: int|
        0 <= k < samples.len() ==> #[trigger] sums[k + 1] == sums[k] + samples[k].size
}

/// Whether the source holds all bytes of a sample.
pub open spec fn source_holds(src: Seq<u8>, sample: SampleEntry) -> bool {
    sample.size == 0 || sample.offset + sample.size <= src.len()
}

proof fn lemma_size_sums(sums: Seq<int>, samples: Seq<SampleEntry>, k: int)
    requires
        size_sums(sums, samples),
        0 <= k <= samples.len(),
    ensures
        sums[k] == payload_size(samples.take(k)),
    decreases k,
{
    if k > 0 {
        lemma_size_sums(sums, samples, k - 1);
        assert(sums[(k - 1) + 1] == sums[k - 1] + samples[k - 1].size);
        assert(samples.take(k).drop_last() =~= samples.take(k - 1));
        assert(samples.take(k).last() == samples[k - 1]);
    }
}

proof fn lemma_held_samples(src: Seq<u8>, samples: Seq<SampleEntry>)
    requires
        forall|k: int| 0 <= k < samples.len() ==> source_holds(src, #[trigger] samples[k]),
    ensures
        samples_data(src, samples) is Ok,
    decreases samples.len(),
{
    if samples.len() > 0 {
        let before = samples.drop_last();
        assert forall|k: int| 0 <= k < before.len() implies source_holds(
            src,
            #[trigger] before[k],
        ) by {
            assert(before[k] == samples[k]);
        }
        lemma_held_samples(src, before);
        assert(source_holds(src, samples[samples.len() - 1]));
    }
}

proof fn lemma_rows_len(samples: Seq<SampleEntry>, cts: bool)
    ensures
        run_rows(samples, cts).len() == row_width(cts) * samples.len(),
{
    let rows = run_rows(samples, cts);
    assert(rows.subrange(0, rows.len() as int) =~= rows);
    lemma_rows_at(rows, 0, samples, cts);
}

proof fn lemma_traf_fits(run: TrackRun)
    requires
        traf_len(run.samples.len(), run.video, run.cts) <= u32::MAX,
        !run.video ==> !run.cts,
        run.samples.len() <= u32::MAX,
    ensures
        run.traf(0) is Ok,
        run.traf(0)->Ok_0.len() == traf_len(run.samples.len(), run.video, run.cts),
{
    broadcast use {group_bytes, lemma_words_len};

    lemma_rows_len(run.samples, run.cts);
    lemma_rows_len(run.samples, false);
}

/// Whether segment `idx` stays within its size fields: the data offset of the
/// audio samples fits 31 bits and `mdat` 32 bits.
pub open spec fn segment_fits(
    index: IndexModel,
    idx: u32,
    video_sums: Seq<int>,
    audio_sums: Seq<int>,
) -> bool {
    &&& size_sums(video_sums, segment_samples(index, idx, true))
    &&& size_sums(audio_sums, segment_samples(index, idx, false))
    &&& mdat_start(index, idx) - 16 + video_sums.last() <= 0x7fff_ffff
    &&& video_sums.last() + audio_sums.last() + 8 <= 0xffff_ffff
}

/// What a segment that is named and fits comes to, up to reading its samples.
proof fn lemma_segment_reads(
    index: IndexModel,
    idx: u32,
    src: Seq<u8>,
    video_sums: Seq<int>,
    audio_sums: Seq<int>,
)
    requires
        segment_named(index, idx),
        index.video_samples.len() <= usize::MAX,
        index.audio_samples.len() <= usize::MAX,
        segment_fits(index, idx, video_sums, audio_sums),
    ensures
        segment_parts(index, idx) is Ok,
        segment_parts(index, idx)->Ok_0.video.samples == segment_samples(index, idx, true),
        segment_parts(index, idx)->Ok_0.audio.samples == segment_samples(index, idx, false),
        mdat_data(src, segment_parts(index, idx)->Ok_0) matches Err(e) ==> media_segment(
            index,
            idx,
            src,
        ) == Err::<Seq<u8>, _>(e),
        mdat_data(src, segment_parts(index, idx)->Ok_0) is Ok ==> media_segment(index, idx, src)
            is Ok,
{
    broadcast use {group_bytes, lemma_words_len};

    let video = segment_samples(index, idx, true);
    let audio = segment_samples(index, idx, false);
    let parts = segment_parts(index, idx)->Ok_0;
    assert(has_cts(index.video_samples) == index_has_cts(index));
    lemma_size_sums(video_sums, video, video.len() as int);
    lemma_size_sums(audio_sums, audio, audio.len() as int);
    assert(video.take(video.len() as int) =~= video);
    assert(audio.take(audio.len() as int) =~= audio);
    assert(traf_len(video.len(), true, index_has_cts(index)) >= 0);
    lemma_traf_fits(parts.video);
    lemma_traf_fits(parts.audio);
}

/// A segment is assembled wherever the index names samples for it, the source
/// holds them, and it stays within its size fields.
pub proof fn law_listed_segments_are_assembled(
    index: IndexModel,
    idx: u32,
    src: Seq<u8>,
    video_sums: Seq<int>,
    audio_sums: Seq<int>,
)
    requires
        segment_named(index, idx),
        index.video_samples.len() <= usize::MAX,
        index.audio_samples.len() <= usize::MAX,
        segment_fits(index, idx, video_sums, audio_sums),
        forall|video: bool, k: int|
            0 <= k < segment_samples(index, idx, video).len() ==> source_holds(
                src,
                #[trigger] segment_samples(index, idx, video)[k],
            ),
    ensures
        media_segment(index, idx, src) is Ok,
{
    lemma_segment_reads(index, idx, src, video_sums, audio_sums);
    assert forall|k: int| 0 <= k < segment_samples(index, idx, true).len() implies source_holds(
        src,
        #[trigger] segment_samples(index, idx, true)[k],
    ) by {}
    assert forall|k: int| 0 <= k < segment_samples(index, idx, false).len() implies source_holds(
        src,
        #[trigger] segment_samples(index, idx, false)[k],
    ) by {}
    lemma_held_samples(src, segment_samples(index, idx, true));
    lemma_held_samples(src, segment_samples(index, idx, false));
}

proof fn lemma_first_missing(src: Seq<u8>, samples: Seq<SampleEntry>, k: int)
    requires
        0 <= k < samples.len(),
        forall|j: int| 0 <= j < k ==> source_holds(src, #[trigger] samples[j]),
        !source_holds(src, samples[k]),
        src.len() <= u64::MAX,
        samples[k].offset + samples[k].size <= u64::MAX,
    ensures
        samples_data(src, samples) matches Err(
            PackagerError::Io(IoError::SampleTruncated { offset, remaining }),
        ) && offset + remaining == samples[k].offset + samples[k].size && offset == (if samples[k].offset
            < src.len() {
            src.len() as int
        } else {
            samples[k].offset as int
        }),
{
    let before = samples.take(k);
    assert forall|j: int| 0 <= j < before.len() implies source_holds(src, #[trigger] before[j]) by {
        assert(before[j] == samples[j]);
    }
    lemma_held_samples(src, before);
    assert(samples.take(k + 1).drop_last() =~= before);
    assert(samples.take(k + 1).last() == samples[k]);
    lemma_samples_data_fail(src, samples, k + 1);
}

/// A source that ends inside a sample, or before it, is reported at the first
/// such sample, video before audio: where the bytes run out, and how many are
/// still missing.
pub proof fn law_missing_bytes_are_reported(
    index: IndexModel,
    idx: u32,
    src: Seq<u8>,
    video_sums: Seq<int>,
    audio_sums: Seq<int>,
    video: bool,
    k: int,
)
    requires
        segment_named(index, idx),
        index.video_samples.len() <= usize::MAX,
        index.audio_samples.len() <= usize::MAX,
        segment_fits(index, idx, video_sums, audio_sums),
        src.len() <= u64::MAX,
        0 <= k < segment_samples(index, idx, video).len(),
        forall|j: int|
            0 <= j < k ==> source_holds(src, #[trigger] segment_samples(index, idx, video)[j]),
        !video ==> forall|j: int|
            0 <= j < segment_samples(index, idx, true).len() ==> source_holds(
                src,
                #[trigger] segment_samples(index, idx, true)[j],
            ),
        !source_holds(src, segment_samples(index, idx, video)[k]),
        segment_samples(index, idx, video)[k].offset + segment_samples(index, idx, video)[k].size
            <= u64::MAX,
    ensures
        ({
            let sample = segment_samples(index, idx, video)[k];
            media_segment(index, idx, src) matches Err(
                PackagerError::Io(IoError::SampleTruncated { offset, remaining }),
            ) && offset + remaining == sample.offset + sample.size && offset == (if sample.offset
                < src.len() {
                src.len() as int
            } else {
                sample.offset as int
            })
        }),
{
    lemma_segment_reads(index, idx, src, video_sums, audio_sums);
    if !video {
        lemma_held_samples(src, segment_samples(index, idx, true));
    }
    lemma_first_missing(src, segment_samples(index, idx, video), k);
}

/// A segment that is not listed is refused as such; one that is listed but
/// names no samples, or samples that are not there, is refused too.
pub proof fn law_unlisted_segments_are_refused(index: IndexModel, idx: u32, src: Seq<u8>)
    requires
        !segment_named(index, idx),
    ensures
        idx >= index.segments.len() ==> media_segment(index, idx, src) == Err::<Seq<u8>, _>(
            PackagerError::SegmentIndexOutOfRange { idx, count: index.segments.len() as u32 },
        ),
        idx < index.segments.len() ==> media_segment(index, idx, src) matches Err(
            PackagerError::Io(IoError::BadSegment { reason: _ }),
        ),
{
}

/// A segment that is streamed is appended whole, or fails as it must, unless
/// the source itself fails.
pub proof fn law_segments_are_streamed_whole(
    before: Seq<u8>,
    after: Seq<u8>,
    r: Result<(), PackagerError>,
    expected: Result<Seq<u8>, PackagerError>,
    reliable: bool,
)
    requires
        streams(before, after, r, expected, reliable),
    ensures
        r is Ok ==> expected is Ok && after == before + expected->Ok_0,
        reliable ==> appends(before, after, r, expected),
        after.len() >= before.len() && after.take(before.len() as int) == before,
        !(r matches Err(PackagerError::Io(IoError::Source(_)))) ==> (r is Ok <==> expected is Ok),
{
    assert(after.take(before.len() as int) =~= before);
}

} // verus!
