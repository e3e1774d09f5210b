//! CMAF media-segment writer.
//!
//! Emits one segment as `styp` + `moof` + `mdat`, streaming sample bytes from
//! the source. The `trun.data_offset` fields are patched once the `mdat` box
//! is complete, so that they point from the start of `moof` to the first
//! video and the first audio byte.
//!
//! Track ids and default sample flags are those of the init segment
//! ([`crate::fmp4::init`]).

use vstd::prelude::*;

use crate::bytes::{
    be32, be_u32_at, group_bytes, i32_pattern, i32_to_pattern, lemma_be32, lemma_be_u32_within,
    patch_u32, push_bytes, push_u32, splice, zeros,
};
use crate::demux::fourcc::{CMFC, MDAT, MFHD, MOOF, MSDH, STYP, TFDT, TFHD, TRAF, TRUN, UUID};
use crate::demux::reader::scan;
use crate::error::{source_failed, IoError, PackagerError};
use crate::fmp4::boxes::{
    appends, box_bytes, box_list, boxed, full_box_header, full_box_word, is_header_of, keeps,
    law_written_boxes_read_back, law_written_children_read_back, lemma_box_len, lemma_close,
    lemma_words_len, push_words, words, write_word_box, BoxWriter,
};
use crate::fmp4::init::{AUDIO_TRACK_ID, VIDEO_TRACK_ID};
use crate::index::format::{SampleEntry, SegmentEntry};
use crate::index::view::{IndexModel, IndexView};
use crate::read_at::ReadAt;

verus! {

/// `tfhd` flag: default-base-is-moof.
pub const TFHD_FLAG_DEFAULT_BASE_IS_MOOF: u32 = 0x0002_0000;

pub const TRUN_FLAG_DATA_OFFSET: u32 = 0x0000_0001;
pub const TRUN_FLAG_FIRST_SAMPLE_FLAGS: u32 = 0x0000_0004;
pub const TRUN_FLAG_SAMPLE_DURATION: u32 = 0x0000_0100;
pub const TRUN_FLAG_SAMPLE_SIZE: u32 = 0x0000_0200;
pub const TRUN_FLAG_SAMPLE_CTS_OFFSET: u32 = 0x0000_0800;

/// Data offset, first-sample flags, and per-sample duration and size.
pub const VIDEO_TRUN_BASE_FLAGS: u32 = TRUN_FLAG_DATA_OFFSET + TRUN_FLAG_FIRST_SAMPLE_FLAGS
    + TRUN_FLAG_SAMPLE_DURATION + TRUN_FLAG_SAMPLE_SIZE;

/// Data offset, and per-sample duration and size.
pub const AUDIO_TRUN_FLAGS: u32 = TRUN_FLAG_DATA_OFFSET + TRUN_FLAG_SAMPLE_DURATION
    + TRUN_FLAG_SAMPLE_SIZE;

/// First-sample flags that mark the leading IDR as a sync sample.
pub const VIDEO_FIRST_SAMPLE_FLAGS_SYNC: u32 = 0x0200_0000;

/// Bytes copied from the source at a time.
pub const COPY_BUF_SIZE: usize = 0x1_0000;

/// Samples that no segment can be assembled from.
pub open spec fn bad_segment<T>(reason: &'static str) -> Result<T, PackagerError> {
    Err(PackagerError::Io(IoError::BadSegment { reason }))
}

/// The samples `[start, start + count)` of a table.
pub open spec fn window(table: Seq<SampleEntry>, start: u32, count: u32) -> Result<
    Seq<SampleEntry>,
    PackagerError,
> {
    if start + count > usize::MAX {
        bad_segment("segment sample range overflows usize")
    } else if start + count > table.len() {
        bad_segment("segment sample range exceeds sample table length")
    } else {
        Ok(table.subrange(start as int, start + count))
    }
}

/// The bytes of all `samples` together.
pub open spec fn payload_size(samples: Seq<SampleEntry>) -> nat
    decreases samples.len(),
{
    if samples.len() == 0 {
        0
    } else {
        payload_size(samples.drop_last()) + samples.last().size as nat
    }
}

/// Whether any sample has a composition offset.
pub open spec fn has_cts(samples: Seq<SampleEntry>) -> bool {
    exists|i: int| 0 <= i < samples.len() && (#[trigger] samples[i]).cts_offset != 0
}

/// What a `trun` says of one sample: duration, size and, where the track has
/// composition offsets, that offset.
pub open spec fn run_words(sample: SampleEntry, cts: bool) -> Seq<u32> {
    if cts {
        seq![sample.dts_delta, sample.size, i32_pattern(sample.cts_offset)]
    } else {
        seq![sample.dts_delta, sample.size]
    }
}

/// What a `trun` says of each of `samples`.
pub open spec fn run_rows(samples: Seq<SampleEntry>, cts: bool) -> Seq<u8>
    decreases samples.len(),
{
    if samples.len() == 0 {
        Seq::empty()
    } else {
        run_rows(samples.drop_last(), cts) + words(run_words(samples.last(), cts))
    }
}

/// The first two words of a `trun`: version and flags, and the sample count.
pub open spec fn trun_head(samples: Seq<SampleEntry>, video: bool, cts: bool) -> Seq<u32> {
    if video {
        seq![
            full_box_word(
                if cts { 1 } else { 0 },
                (VIDEO_TRUN_BASE_FLAGS + if cts { TRUN_FLAG_SAMPLE_CTS_OFFSET } else { 0 }) as u32,
            ),
            samples.len() as u32,
        ]
    } else {
        seq![full_box_word(0, AUDIO_TRUN_FLAGS), samples.len() as u32]
    }
}

/// What follows the data offset in a `trun`.
pub open spec fn trun_tail(samples: Seq<SampleEntry>, video: bool, cts: bool) -> Seq<u8> {
    if video {
        be32(VIDEO_FIRST_SAMPLE_FLAGS_SYNC) + run_rows(samples, cts)
    } else {
        run_rows(samples, false)
    }
}

/// The run of a track: one row per sample.
pub open spec fn trun(samples: Seq<SampleEntry>, video: bool, cts: bool, data_offset: u32) -> Result<
    Seq<u8>,
    PackagerError,
> {
    boxed(
        TRUN,
        words(trun_head(samples, video, cts)) + be32(data_offset) + trun_tail(samples, video, cts),
    )
}

/// The header of a track fragment.
pub open spec fn tfhd_words(track_id: u32) -> Seq<u32> {
    seq![full_box_word(0, TFHD_FLAG_DEFAULT_BASE_IS_MOOF), track_id]
}

/// Version 1: the decode time takes two words.
pub open spec fn tfdt_words(base_dts: u64) -> Seq<u32> {
    seq![
        full_box_word(1, 0),
        (base_dts / 0x1_0000_0000) as u32,
        (base_dts % 0x1_0000_0000) as u32,
    ]
}

/// One track's part of a segment.
pub ghost struct TrackRun {
    pub track_id: u32,
    pub base_dts: u64,
    pub samples: Seq<SampleEntry>,
    pub video: bool,
    pub cts: bool,
}

impl TrackRun {
    /// The track fragment: header, decode time, run.
    pub open spec fn traf(self, data_offset: u32) -> Result<Seq<u8>, PackagerError> {
        match trun(self.samples, self.video, self.cts, data_offset) {
            Err(e) => Err(e),
            Ok(trun) => boxed(
                TRAF,
                box_bytes(TFHD, words(tfhd_words(self.track_id))) + box_bytes(
                    TFDT,
                    words(tfdt_words(self.base_dts)),
                ) + trun,
            ),
        }
    }
}

/// Where the data offset stands in a `traf`: after its header, `tfhd`,
/// `tfdt`, the `trun` header and two words.
pub const DATA_OFFSET_IN_TRAF: usize = 60;

/// Where the first `traf` stands in a `moof`: after its header and `mfhd`.
pub const TRAF_IN_MOOF: usize = 24;

/// The header of a movie fragment.
pub open spec fn mfhd_words(segment_idx: u32) -> Seq<u32> {
    // Sequence numbers start at 1.
    seq![full_box_word(0, 0), (segment_idx + 1) as u32]
}

/// The segment type: brands of a CMAF segment.
pub open spec fn styp_words() -> Seq<u32> {
    // major brand, minor version, compatible brands
    seq![MSDH, 0, MSDH, CMFC]
}

/// What goes into one media segment.
pub ghost struct SegmentParts {
    pub idx: u32,
    pub video: TrackRun,
    pub audio: TrackRun,
}

impl SegmentParts {
    /// The movie fragment: header, video, audio.
    pub open spec fn moof(self, video_offset: u32, audio_offset: u32) -> Result<
        Seq<u8>,
        PackagerError,
    > {
        match self.video.traf(video_offset) {
            Err(e) => Err(e),
            Ok(video) => match self.audio.traf(audio_offset) {
                Err(e) => Err(e),
                Ok(audio) => boxed(
                    MOOF,
                    box_bytes(MFHD, words(mfhd_words(self.idx))) + video + audio,
                ),
            },
        }
    }

    /// The bytes of the video samples.
    pub open spec fn video_size(self) -> nat {
        payload_size(self.video.samples)
    }

    /// The bytes of all samples.
    pub open spec fn mdat_payload_size(self) -> nat {
        payload_size(self.video.samples) + payload_size(self.audio.samples)
    }
}

/// The bytes of a sample in the source.
pub open spec fn sample_data(src: Seq<u8>, sample: SampleEntry) -> Result<Seq<u8>, PackagerError> {
    let end = sample.offset + sample.size;
    if sample.size == 0 {
        Ok(Seq::empty())
    } else if end <= src.len() {
        Ok(src.subrange(sample.offset as int, end))
    } else {
        let at = if sample.offset < src.len() { src.len() as int } else { sample.offset as int };
        Err(
            PackagerError::Io(
                IoError::SampleTruncated { offset: at as u64, remaining: (end - at) as u64 },
            ),
        )
    }
}

/// The bytes of `samples`, one after the other; the first that the source
/// does not hold in full decides the error.
pub open spec fn samples_data(src: Seq<u8>, samples: Seq<SampleEntry>) -> Result<
    Seq<u8>,
    PackagerError,
>
    decreases samples.len(),
{
    if samples.len() == 0 {
        Ok(Seq::empty())
    } else {
        match samples_data(src, samples.drop_last()) {
            Err(e) => Err(e),
            Ok(before) => match sample_data(src, samples.last()) {
                Err(e) => Err(e),
                Ok(data) => Ok(before + data),
            },
        }
    }
}

/// The samples of a segment, video before audio.
pub open spec fn mdat_data(src: Seq<u8>, parts: SegmentParts) -> Result<Seq<u8>, PackagerError> {
    match samples_data(src, parts.video.samples) {
        Err(e) => Err(e),
        Ok(video) => match samples_data(src, parts.audio.samples) {
            Err(e) => Err(e),
            Ok(audio) => Ok(video + audio),
        },
    }
}

/// The samples of segment `idx`, if the index describes them consistently.
pub open spec fn segment_parts(index: IndexModel, idx: u32) -> Result<SegmentParts, PackagerError> {
    if idx >= index.segments.len() {
        Err(PackagerError::SegmentIndexOutOfRange { idx, count: index.segments.len() as u32 })
    } else {
        let s = index.segments[idx as int];
        match window(index.video_samples, s.video_sample_start, s.video_sample_count) {
            Err(e) => Err(e),
            Ok(video) => match window(
                index.audio_samples,
                s.audio_sample_start,
                s.audio_sample_count,
            ) {
                Err(e) => Err(e),
                Ok(audio) => if video.len() == 0 || audio.len() == 0 {
                    bad_segment("media segment with zero video or audio samples")
                } else {
                    Ok(
                        SegmentParts {
                            idx,
                            video: TrackRun {
                                track_id: VIDEO_TRACK_ID,
                                base_dts: s.video_base_dts,
                                samples: video,
                                video: true,
                                cts: has_cts(index.video_samples),
                            },
                            audio: TrackRun {
                                track_id: AUDIO_TRACK_ID,
                                base_dts: s.audio_base_dts,
                                samples: audio,
                                video: false,
                                cts: false,
                            },
                        },
                    )
                },
            },
        }
    }
}

/// What is wrong with the size of a segment's payload.
pub open spec fn mdat_fault(payload: nat) -> Option<PackagerError> {
    if payload > u64::MAX {
        Some(PackagerError::Io(IoError::PayloadOverflow))
    } else if payload + 8 > u64::MAX {
        Some(PackagerError::Io(IoError::MdatOverflow))
    } else if payload + 8 > u32::MAX {
        Some(PackagerError::Io(IoError::MdatTooLarge { size: (payload + 8) as u64 }))
    } else {
        None
    }
}

/// Lays out a segment. The data offsets count from the start of `moof`: past
/// `moof` and the `mdat` header to the first video byte, and past the video
/// bytes to the first audio byte.
pub open spec fn laid_out(src: Seq<u8>, parts: SegmentParts) -> Result<Seq<u8>, PackagerError> {
    match parts.moof(0, 0) {
        Err(e) => Err(e),
        Ok(draft) => match mdat_fault(parts.mdat_payload_size()) {
            Some(e) => Err(e),
            None => match mdat_data(src, parts) {
                Err(e) => Err(e),
                Ok(data) => {
                    let video_offset = draft.len() + 8;
                    let audio_offset = video_offset + parts.video_size();
                    if audio_offset > i32::MAX {
                        Err(PackagerError::Io(IoError::DataOffsetTooLarge))
                    } else {
                        Ok(
                            box_bytes(STYP, words(styp_words())) + parts.moof(
                                video_offset as u32,
                                audio_offset as u32,
                            )->Ok_0 + box_bytes(MDAT, data),
                        )
                    }
                },
            },
        },
    }
}

/// Media segment `idx` of an index, over the bytes of its source.
pub open spec fn media_segment(index: IndexModel, idx: u32, src: Seq<u8>) -> Result<
    Seq<u8>,
    PackagerError,
> {
    match segment_parts(index, idx) {
        Err(e) => Err(e),
        Ok(parts) => laid_out(src, parts),
    }
}

/// As [`appends`], where a source that is not `reliable` may fail too.
pub open spec fn streams(
    before: Seq<u8>,
    after: Seq<u8>,
    r: Result<(), PackagerError>,
    expected: Result<Seq<u8>, PackagerError>,
    reliable: bool,
) -> bool {
    ||| appends(before, after, r, expected)
    ||| (!reliable && source_failed(r) && keeps(before, after))
}

/// `n` samples of up to `u32::MAX` bytes.
proof fn lemma_payload_size_bound(samples: Seq<SampleEntry>)
    ensures
        payload_size(samples) <= samples.len() * u32::MAX,
    decreases samples.len(),
{
    if samples.len() > 0 {
        lemma_payload_size_bound(samples.drop_last());
    }
}

/// The data of samples has the size that the samples state.
pub proof fn lemma_samples_data_len(src: Seq<u8>, samples: Seq<SampleEntry>)
    ensures
        samples_data(src, samples) matches Ok(data) ==> data.len() == payload_size(samples),
    decreases samples.len(),
{
    if samples.len() > 0 {
        lemma_samples_data_len(src, samples.drop_last());
    }
}

/// A sample that the source does not hold makes every longer list fail alike.
pub proof fn lemma_samples_data_fail(src: Seq<u8>, samples: Seq<SampleEntry>, n: int)
    requires
        0 <= n <= samples.len(),
        samples_data(src, samples.take(n)) is Err,
    ensures
        samples_data(src, samples) == samples_data(src, samples.take(n)),
    decreases samples.len(),
{
    if n < samples.len() {
        assert(samples.drop_last().take(n) =~= samples.take(n));
        lemma_samples_data_fail(src, samples.drop_last(), n);
    } else {
        assert(samples.take(n) =~= samples);
    }
}

/// Picks the samples of a segment out of a table.
fn slice_segment_samples<'a>(table: &'a [SampleEntry], start: u32, count: u32) -> (r: Result<
    &'a [SampleEntry],
    PackagerError,
>)
    ensures
        match r {
            Ok(samples) => window(table@, start, count) == Ok::<_, PackagerError>(samples@),
            Err(e) => window(table@, start, count) == Err::<Seq<SampleEntry>, _>(e),
        },
        r matches Ok(samples) ==> samples@.len() == count,
{
    let end: usize = match (start as usize).checked_add(count as usize) {
        Some(end) => end,
        None => {
            return Err(
                PackagerError::Io(
                    IoError::BadSegment { reason: "segment sample range overflows usize" },
                ),
            );
        },
    };
    if end > table.len() {
        return Err(
            PackagerError::Io(
                IoError::BadSegment { reason: "segment sample range exceeds sample table length" },
            ),
        );
    }
    Ok(&table[start as usize..end])
}

/// Adds up the sizes of samples.
fn sum_sizes(samples: &[SampleEntry]) -> (r: u64)
    requires
        samples@.len() <= u32::MAX,
    ensures
        r == payload_size(samples@),
{
    let mut total: u64 = 0;
    let mut i: usize = 0;
    while i < samples.len()
        invariant
            0 <= i <= samples@.len() <= u32::MAX,
            total == payload_size(samples@.take(i as int)),
        decreases samples@.len() - i,
    {
        proof {
            assert(samples@.take(i + 1).drop_last() =~= samples@.take(i as int));
            lemma_payload_size_bound(samples@.take(i + 1));
            assert((i + 1) * u32::MAX <= u32::MAX * u32::MAX) by (nonlinear_arith)
                requires
                    0 <= i + 1 <= u32::MAX,
            ;
        }
        total = total + samples[i].size as u64;
        i += 1;
    }
    assert(samples@.take(samples@.len() as int) =~= samples@);
    total
}

/// Whether any sample has a composition offset.
fn any_cts(samples: &[SampleEntry]) -> (r: bool)
    ensures
        r == has_cts(samples@),
{
    let mut i: usize = 0;
    while i < samples.len()
        invariant
            0 <= i <= samples@.len(),
            forall|k: int| 0 <= k < i ==> (#[trigger] samples@[k]).cts_offset == 0,
        decreases samples@.len() - i,
    {
        if samples[i].cts_offset != 0 {
            return true;
        }
        i += 1;
    }
    false
}

fn write_styp(out: &mut Vec<u8>)
    ensures
        final(out)@ == old(out)@ + box_bytes(STYP, words(styp_words())),
{
    let w: [u32; 4] = [MSDH, 0, MSDH, CMFC];
    assert(w@ =~= styp_words());
    write_word_box(out, STYP, w.as_slice());
}

fn write_mfhd(out: &mut Vec<u8>, segment_idx: u32)
    requires
        segment_idx < u32::MAX,
    ensures
        final(out)@ == old(out)@ + box_bytes(MFHD, words(mfhd_words(segment_idx))),
{
    let w: [u32; 2] = [full_box_header(0, 0), segment_idx + 1];
    assert(w@ =~= mfhd_words(segment_idx));
    write_word_box(out, MFHD, w.as_slice());
}

fn write_tfhd(out: &mut Vec<u8>, track_id: u32)
    ensures
        final(out)@ == old(out)@ + box_bytes(TFHD, words(tfhd_words(track_id))),
{
    let w: [u32; 2] = [full_box_header(0, TFHD_FLAG_DEFAULT_BASE_IS_MOOF), track_id];
    assert(w@ =~= tfhd_words(track_id));
    write_word_box(out, TFHD, w.as_slice());
}

fn write_tfdt(out: &mut Vec<u8>, base_dts: u64)
    ensures
        final(out)@ == old(out)@ + box_bytes(TFDT, words(tfdt_words(base_dts))),
{
    let w: [u32; 3] = [
        full_box_header(1, 0),
        (base_dts / 0x1_0000_0000) as u32,
        (base_dts % 0x1_0000_0000) as u32,
    ];
    assert(w@ =~= tfdt_words(base_dts));
    write_word_box(out, TFDT, w.as_slice());
}

/// Appends what a `trun` says of each sample.
fn write_run_rows(out: &mut Vec<u8>, samples: &[SampleEntry], cts: bool)
    ensures
        final(out)@ == old(out)@ + run_rows(samples@, cts),
{
    let mut i: usize = 0;
    assert(out@ =~= old(out)@ + run_rows(samples@.take(0), cts));
    while i < samples.len()
        invariant
            0 <= i <= samples@.len(),
            out@ == old(out)@ + run_rows(samples@.take(i as int), cts),
        decreases samples@.len() - i,
    {
        let sample: SampleEntry = samples[i];
        if cts {
            let w: [u32; 3] = [sample.dts_delta, sample.size, i32_to_pattern(sample.cts_offset)];
            assert(w@ =~= run_words(sample, cts));
            push_words(out, w.as_slice());
        } else {
            let w: [u32; 2] = [sample.dts_delta, sample.size];
            assert(w@ =~= run_words(sample, cts));
            push_words(out, w.as_slice());
        }
        proof {
            assert(samples@.take(i + 1).drop_last() =~= samples@.take(i as int));
            assert(out@ =~= old(out)@ + run_rows(samples@.take(i + 1), cts));
        }
        i += 1;
    }
    assert(samples@.take(samples@.len() as int) =~= samples@);
}

/// Appends a video `trun` with a data offset of 0.
fn write_video_trun(out: &mut Vec<u8>, samples: &[SampleEntry], cts: bool) -> (r: Result<
    (),
    PackagerError,
>)
    requires
        samples@.len() <= u32::MAX,
    ensures
        appends(old(out)@, final(out)@, r, trun(samples@, true, cts, 0)),
{
    let bx = BoxWriter::open(out, TRUN);
    let ghost opened = out@;
    let version: u8 = if cts { 1 } else { 0 };
    let flags: u32 = VIDEO_TRUN_BASE_FLAGS + if cts { TRUN_FLAG_SAMPLE_CTS_OFFSET } else { 0 };
    let head: [u32; 2] = [full_box_header(version, flags), samples.len() as u32];
    assert(head@ =~= trun_head(samples@, true, cts));
    push_words(out, head.as_slice());
    push_u32(out, 0);
    push_u32(out, VIDEO_FIRST_SAMPLE_FLAGS_SYNC);
    write_run_rows(out, samples, cts);
    proof {
        let payload = words(trun_head(samples@, true, cts)) + be32(0) + trun_tail(
            samples@,
            true,
            cts,
        );
        assert(out@ =~= opened + payload);
        lemma_close(bx, opened, out@, payload);
    }
    bx.finish(out)?;
    Ok(())
}

/// Appends an audio `trun` with a data offset of 0.
fn write_audio_trun(out: &mut Vec<u8>, samples: &[SampleEntry]) -> (r: Result<(), PackagerError>)
    requires
        samples@.len() <= u32::MAX,
    ensures
        appends(old(out)@, final(out)@, r, trun(samples@, false, false, 0)),
{
    let bx = BoxWriter::open(out, TRUN);
    let ghost opened = out@;
    let head: [u32; 2] = [full_box_header(0, AUDIO_TRUN_FLAGS), samples.len() as u32];
    assert(head@ =~= trun_head(samples@, false, false));
    push_words(out, head.as_slice());
    push_u32(out, 0);
    write_run_rows(out, samples, false);
    proof {
        let payload = words(trun_head(samples@, false, false)) + be32(0) + trun_tail(
            samples@,
            false,
            false,
        );
        assert(out@ =~= opened + payload);
        lemma_close(bx, opened, out@, payload);
    }
    bx.finish(out)?;
    Ok(())
}

/// Appends a `traf` with a data offset of 0.
fn write_traf(
    out: &mut Vec<u8>,
    track_id: u32,
    base_dts: u64,
    samples: &[SampleEntry],
    video: bool,
    cts: bool,
) -> (r: Result<(), PackagerError>)
    requires
        samples@.len() <= u32::MAX,
        !video ==> !cts,
    ensures
        appends(
            old(out)@,
            final(out)@,
            r,
            (TrackRun { track_id, base_dts, samples: samples@, video, cts }).traf(0),
        ),
{
    let ghost run = TrackRun { track_id, base_dts, samples: samples@, video, cts };
    let bx = BoxWriter::open(out, TRAF);
    let ghost opened = out@;
    write_tfhd(out, track_id);
    write_tfdt(out, base_dts);
    if video {
        write_video_trun(out, samples, cts)?;
    } else {
        write_audio_trun(out, samples)?;
    }
    proof {
        let payload = box_bytes(TFHD, words(tfhd_words(track_id))) + box_bytes(
            TFDT,
            words(tfdt_words(base_dts)),
        ) + trun(samples@, video, cts, 0)->Ok_0;
        assert(out@ =~= opened + payload);
        lemma_close(bx, opened, out@, payload);
    }
    bx.finish(out)?;
    Ok(())
}

/// Copies one sample from the source, a buffer at a time.
fn stream_sample<R: ReadAt + ?Sized>(
    src: &R,
    out: &mut Vec<u8>,
    sample: &SampleEntry,
    buf: &mut Vec<u8>,
) -> (r: Result<(), PackagerError>)
    requires
        old(buf)@.len() > 0,
    ensures
        final(buf)@.len() == old(buf)@.len(),
        streams(
            old(out)@,
            final(out)@,
            r,
            sample_data(src.content(), *sample),
            src.reliable(),
        ),
{
    let ghost content = src.content();
    let ghost start = sample.offset as int;
    let mut remaining: usize = sample.size as usize;
    let mut pos: u64 = sample.offset;
    assert(out@ =~= old(out)@ + Seq::<u8>::empty());
    while remaining > 0
        invariant
            content == src.content(),
            start == sample.offset,
            buf@.len() == old(buf)@.len(),
            old(buf)@.len() > 0,
            remaining <= sample.size,
            pos == start + sample.size - remaining,
            pos > start ==> pos <= content.len(),
            pos == start ==> out@ == old(out)@,
            pos > start ==> out@ == old(out)@ + content.subrange(start, pos as int),
        decreases remaining,
    {
        let chunk_len: usize = if remaining < buf.len() { remaining } else { buf.len() };
        let (chunk, _) = buf.as_mut_slice().split_at_mut(chunk_len);
        let ghost before = out@;
        match src.read_at(pos, chunk) {
            Err(e) => return Err(PackagerError::Io(IoError::Source(e))),
            Ok(n) => {
                if n == 0 {
                    return Err(
                        PackagerError::Io(
                            IoError::SampleTruncated { offset: pos, remaining: remaining as u64 },
                        ),
                    );
                }
                push_bytes(out, &buf.as_slice()[0..n]);
                proof {
                    assert(buf@.subrange(0, n as int) =~= content.subrange(pos as int, pos + n));
                    assert(out@ =~= old(out)@ + content.subrange(start, pos + n));
                }
                pos = pos + n as u64;
                remaining = remaining - n;
            },
        }
    }
    Ok(())
}

/// Copies samples from the source, one after the other.
fn stream_samples<R: ReadAt + ?Sized>(
    src: &R,
    out: &mut Vec<u8>,
    samples: &[SampleEntry],
    buf: &mut Vec<u8>,
) -> (r: Result<(), PackagerError>)
    requires
        old(buf)@.len() > 0,
    ensures
        final(buf)@.len() == old(buf)@.len(),
        streams(
            old(out)@,
            final(out)@,
            r,
            samples_data(src.content(), samples@),
            src.reliable(),
        ),
{
    let ghost content = src.content();
    let mut i: usize = 0;
    assert(out@ =~= old(out)@ + Seq::<u8>::empty());
    while i < samples.len()
        invariant
            content == src.content(),
            buf@.len() == old(buf)@.len(),
            old(buf)@.len() > 0,
            0 <= i <= samples@.len(),
            samples_data(content, samples@.take(i as int)) is Ok,
            out@ == old(out)@ + samples_data(content, samples@.take(i as int))->Ok_0,
        decreases samples@.len() - i,
    {
        let ghost before = out@;
        let ghost done = samples_data(content, samples@.take(i as int))->Ok_0;
        proof {
            assert(samples@.take(i + 1).drop_last() =~= samples@.take(i as int));
            if samples_data(content, samples@.take(i + 1)) is Err {
                lemma_samples_data_fail(content, samples@, i + 1);
            }
        }
        stream_sample(src, out, &samples[i], buf)?;
        proof {
            let data = sample_data(content, samples@[i as int])->Ok_0;
            assert(old(out)@ + done + data =~= old(out)@ + (done + data));
        }
        i += 1;
    }
    assert(samples@.take(samples@.len() as int) =~= samples@);
    Ok(())
}

/// Replacing bytes inside the middle of three parts.
proof fn lemma_splice_middle(a: Seq<u8>, b: Seq<u8>, c: Seq<u8>, at: int, t: Seq<u8>)
    requires
        0 <= at,
        at + t.len() <= b.len(),
    ensures
        splice(a + b + c, a.len() + at, t) == a + splice(b, at, t) + c,
{
    assert(splice(a + b + c, a.len() + at, t) =~= a + splice(b, at, t) + c);
}

/// The data offset of a `traf` stands at a fixed place, and neither the size
/// nor any other byte depends on it.
#[verifier::rlimit(40)]
pub proof fn lemma_traf_data_offset(run: TrackRun, x: u32, y: u32)
    requires
        run.traf(x) is Ok,
    ensures
        run.traf(y) is Ok,
        run.traf(x)->Ok_0.len() == run.traf(y)->Ok_0.len(),
        run.traf(x)->Ok_0.len() >= DATA_OFFSET_IN_TRAF + 4,
        run.traf(y)->Ok_0 == splice(run.traf(x)->Ok_0, DATA_OFFSET_IN_TRAF as int, be32(y)),
{
    broadcast use {group_bytes, lemma_words_len};

    let head = words(trun_head(run.samples, run.video, run.cts));
    let tail = trun_tail(run.samples, run.video, run.cts);
    let px = head + be32(x) + tail;
    let py = head + be32(y) + tail;
    assert(px.len() == py.len());
    let pre = box_bytes(TFHD, words(tfhd_words(run.track_id))) + box_bytes(
        TFDT,
        words(tfdt_words(run.base_dts)),
    );
    assert(pre.len() == 36);
    let tx = box_bytes(TRUN, px);
    let ty = box_bytes(TRUN, py);
    let size = be32((px.len() + 8) as u32) + be32(TRUN);
    assert(ty =~= splice(tx, 16, be32(y))) by {
        assert(tx =~= (size + head) + be32(x) + tail);
        assert(ty =~= (size + head) + be32(y) + tail);
    }
    let all = be32((pre.len() + tx.len() + 8) as u32) + be32(TRAF) + pre;
    assert(run.traf(x)->Ok_0 =~= all + tx + Seq::<u8>::empty());
    assert(run.traf(y)->Ok_0 =~= all + ty + Seq::<u8>::empty());
    lemma_splice_middle(all, tx, Seq::<u8>::empty(), 16, be32(y));
}

/// Patching both data offsets of a `moof` gives the `moof` with those
/// offsets.
#[verifier::rlimit(40)]
pub proof fn lemma_moof_data_offsets(parts: SegmentParts, x: u32, y: u32)
    requires
        parts.moof(0, 0) is Ok,
    ensures
        parts.moof(x, y) is Ok,
        parts.moof(x, y)->Ok_0.len() == parts.moof(0, 0)->Ok_0.len(),
        ({
            let draft = parts.moof(0, 0)->Ok_0;
            let video_at = TRAF_IN_MOOF + DATA_OFFSET_IN_TRAF;
            let audio_at = TRAF_IN_MOOF + parts.video.traf(0)->Ok_0.len() + DATA_OFFSET_IN_TRAF;
            &&& video_at + 4 <= audio_at
            &&& audio_at + 4 <= draft.len()
            &&& parts.moof(x, y)->Ok_0 == splice(
                splice(draft, video_at, be32(x)),
                audio_at,
                be32(y),
            )
        }),
{
    broadcast use {group_bytes, lemma_words_len};

    lemma_traf_data_offset(parts.video, 0, x);
    lemma_traf_data_offset(parts.audio, 0, y);
    let v0 = parts.video.traf(0)->Ok_0;
    let a0 = parts.audio.traf(0)->Ok_0;
    let vx = parts.video.traf(x)->Ok_0;
    let ay = parts.audio.traf(y)->Ok_0;
    let mfhd = box_bytes(MFHD, words(mfhd_words(parts.idx)));
    assert(mfhd.len() == 16);
    let head = be32((mfhd.len() + v0.len() + a0.len() + 8) as u32) + be32(MOOF) + mfhd;
    let none = Seq::<u8>::empty();
    let draft = parts.moof(0, 0)->Ok_0;
    assert(draft =~= head + v0 + a0);
    lemma_splice_middle(head, v0, a0, DATA_OFFSET_IN_TRAF as int, be32(x));
    assert(head + vx + a0 =~= (head + vx) + a0 + none);
    lemma_splice_middle(head + vx, a0, none, DATA_OFFSET_IN_TRAF as int, be32(y));
    assert(parts.moof(x, y)->Ok_0 =~= (head + vx) + ay + none);
}

/// Appends a `moof` with data offsets of 0 and returns where in `out` the
/// offsets of the video and the audio `trun` stand.
#[verifier::rlimit(40)]
fn write_moof(
    out: &mut Vec<u8>,
    segment_idx: u32,
    segment: &SegmentEntry,
    video_samples: &[SampleEntry],
    audio_samples: &[SampleEntry],
    cts: bool,
    Ghost(parts): Ghost<SegmentParts>,
) -> (r: Result<(usize, usize), PackagerError>)
    requires
        segment_idx < u32::MAX,
        video_samples@.len() <= u32::MAX,
        audio_samples@.len() <= u32::MAX,
        parts == (SegmentParts {
            idx: segment_idx,
            video: TrackRun {
                track_id: VIDEO_TRACK_ID,
                base_dts: segment.video_base_dts,
                samples: video_samples@,
                video: true,
                cts,
            },
            audio: TrackRun {
                track_id: AUDIO_TRACK_ID,
                base_dts: segment.audio_base_dts,
                samples: audio_samples@,
                video: false,
                cts: false,
            },
        }),
    ensures
        match parts.moof(0, 0) {
            Ok(moof) => {
                &&& final(out)@ == old(out)@ + moof
                &&& r matches Ok((video_at, audio_at)) && {
                    &&& video_at == old(out)@.len() + TRAF_IN_MOOF + DATA_OFFSET_IN_TRAF
                    &&& audio_at == old(out)@.len() + TRAF_IN_MOOF
                        + parts.video.traf(0)->Ok_0.len() + DATA_OFFSET_IN_TRAF
                }
            },
            Err(e) => r == Err::<(usize, usize), _>(e) && keeps(old(out)@, final(out)@),
        },
{
    broadcast use {group_bytes, lemma_words_len};

    let bx = BoxWriter::open(out, MOOF);
    let ghost opened = out@;
    write_mfhd(out, segment_idx);
    let video_traf: usize = out.len();
    write_traf(out, VIDEO_TRACK_ID, segment.video_base_dts, video_samples, true, cts)?;
    let audio_traf: usize = out.len();
    write_traf(out, AUDIO_TRACK_ID, segment.audio_base_dts, audio_samples, false, false)?;
    let end: usize = out.len();
    proof {
        let payload = box_bytes(MFHD, words(mfhd_words(segment_idx))) + parts.video.traf(0)->Ok_0
            + parts.audio.traf(0)->Ok_0;
        assert(out@ =~= opened + payload);
        lemma_close(bx, opened, out@, payload);
        lemma_traf_data_offset(parts.video, 0, 0);
        lemma_traf_data_offset(parts.audio, 0, 0);
    }
    bx.finish(out)?;
    assert(audio_traf + DATA_OFFSET_IN_TRAF + 4 <= end);
    Ok((video_traf + DATA_OFFSET_IN_TRAF, audio_traf + DATA_OFFSET_IN_TRAF))
}

/// The size of the `mdat` box for the given payload sizes.
fn mdat_size(video_bytes: u64, audio_bytes: u64) -> (r: Result<u32, PackagerError>)
    ensures
        match mdat_fault((video_bytes + audio_bytes) as nat) {
            None => r == Ok::<_, PackagerError>((video_bytes + audio_bytes + 8) as u32),
            Some(e) => r == Err::<u32, _>(e),
        },
{
    let payload: u64 = match video_bytes.checked_add(audio_bytes) {
        Some(n) => n,
        None => return Err(PackagerError::Io(IoError::PayloadOverflow)),
    };
    let size: u64 = match payload.checked_add(8) {
        Some(n) => n,
        None => return Err(PackagerError::Io(IoError::MdatOverflow)),
    };
    if size > u32::MAX as u64 {
        return Err(PackagerError::Io(IoError::MdatTooLarge { size }));
    }
    Ok(size as u32)
}

/// The distance from `moof` to a byte of the `mdat` payload, if it fits a
/// signed 32-bit field.
fn compute_data_offset(mdat_payload_start: usize, moof_start: usize, trailing: u64) -> (r: Result<
    u32,
    PackagerError,
>)
    requires
        moof_start <= mdat_payload_start,
        trailing <= u32::MAX,
    ensures
        ({
            let offset = mdat_payload_start - moof_start + trailing;
            if offset > i32::MAX {
                r == Err::<u32, _>(PackagerError::Io(IoError::DataOffsetTooLarge))
            } else {
                r == Ok::<_, PackagerError>(offset as u32)
            }
        }),
{
    let distance: u64 = (mdat_payload_start - moof_start) as u64;
    if distance > i32::MAX as u64 || distance + trailing > i32::MAX as u64 {
        return Err(PackagerError::Io(IoError::DataOffsetTooLarge));
    }
    Ok((distance + trailing) as u32)
}

/// Appends the `mdat` box of a segment, which has `total` bytes.
#[verifier::rlimit(40)]
fn write_mdat<R: ReadAt + ?Sized>(
    out: &mut Vec<u8>,
    sample_data: &R,
    video_samples: &[SampleEntry],
    audio_samples: &[SampleEntry],
    total: u32,
    Ghost(parts): Ghost<SegmentParts>,
) -> (r: Result<(), PackagerError>)
    requires
        parts.video.samples == video_samples@,
        parts.audio.samples == audio_samples@,
        total == parts.mdat_payload_size() + 8,
    ensures
        streams(
            old(out)@,
            final(out)@,
            r,
            match mdat_data(sample_data.content(), parts) {
                Ok(data) => Ok(box_bytes(MDAT, data)),
                Err(e) => Err(e),
            },
            sample_data.reliable(),
        ),
{
    let ghost src = sample_data.content();
    let bx = BoxWriter::open(out, MDAT);
    let ghost opened = out@;
    assert(keeps(old(out)@, opened));
    let mut buf: Vec<u8> = zeros(COPY_BUF_SIZE);
    stream_samples(sample_data, out, video_samples, &mut buf)?;
    stream_samples(sample_data, out, audio_samples, &mut buf)?;
    proof {
        let data = mdat_data(src, parts)->Ok_0;
        lemma_samples_data_len(src, video_samples@);
        lemma_samples_data_len(src, audio_samples@);
        assert(out@ =~= opened + data);
        lemma_close(bx, opened, out@, data);
    }
    bx.finish_expecting(out, total)?;
    Ok(())
}

/// Patches the data offsets of a `moof` that stands between `head` and `mdat`.
fn patch_data_offsets(
    out: &mut Vec<u8>,
    video_at: usize,
    audio_at: usize,
    video_offset: u32,
    audio_offset: u32,
    Ghost(head): Ghost<Seq<u8>>,
    Ghost(parts): Ghost<SegmentParts>,
    Ghost(mdat): Ghost<Seq<u8>>,
)
    requires
        parts.moof(0, 0) is Ok,
        old(out)@ == head + parts.moof(0, 0)->Ok_0 + mdat,
        video_at == head.len() + TRAF_IN_MOOF + DATA_OFFSET_IN_TRAF,
        audio_at == head.len() + TRAF_IN_MOOF + parts.video.traf(0)->Ok_0.len()
            + DATA_OFFSET_IN_TRAF,
    ensures
        parts.moof(video_offset, audio_offset) is Ok,
        final(out)@ == head + parts.moof(video_offset, audio_offset)->Ok_0 + mdat,
{
    let ghost draft = parts.moof(0, 0)->Ok_0;
    proof {
        lemma_be32(video_offset);
        lemma_be32(audio_offset);
        lemma_moof_data_offsets(parts, video_offset, audio_offset);
        let at_v = TRAF_IN_MOOF + DATA_OFFSET_IN_TRAF;
        let at_a = TRAF_IN_MOOF + parts.video.traf(0)->Ok_0.len() + DATA_OFFSET_IN_TRAF;
        lemma_splice_middle(head, draft, mdat, at_v, be32(video_offset));
        let patched = splice(draft, at_v, be32(video_offset));
        assert(patched.len() == draft.len());
        lemma_splice_middle(head, patched, mdat, at_a, be32(audio_offset));
    }
    patch_u32(out, video_at, video_offset);
    patch_u32(out, audio_at, audio_offset);
}

/// Appends a segment with the given samples, of which there are some in
/// either track.
#[verifier::rlimit(40)]
fn write_parts<R: ReadAt + ?Sized>(
    out: &mut Vec<u8>,
    sample_data: &R,
    segment_idx: u32,
    segment: &SegmentEntry,
    video_samples: &[SampleEntry],
    audio_samples: &[SampleEntry],
    cts: bool,
    Ghost(parts): Ghost<SegmentParts>,
) -> (r: Result<(), PackagerError>)
    requires
        segment_idx < u32::MAX,
        video_samples@.len() <= u32::MAX,
        audio_samples@.len() <= u32::MAX,
        parts == (SegmentParts {
            idx: segment_idx,
            video: TrackRun {
                track_id: VIDEO_TRACK_ID,
                base_dts: segment.video_base_dts,
                samples: video_samples@,
                video: true,
                cts,
            },
            audio: TrackRun {
                track_id: AUDIO_TRACK_ID,
                base_dts: segment.audio_base_dts,
                samples: audio_samples@,
                video: false,
                cts: false,
            },
        }),
    ensures
        streams(
            old(out)@,
            final(out)@,
            r,
            laid_out(sample_data.content(), parts),
            sample_data.reliable(),
        ),
{
    broadcast use group_bytes;

    let video_bytes: u64 = sum_sizes(video_samples);
    let audio_bytes: u64 = sum_sizes(audio_samples);
    let ghost styp = box_bytes(STYP, words(styp_words()));
    write_styp(out);
    let moof_start: usize = out.len();
    let ghost head = out@;
    assert(keeps(old(out)@, head));
    let (video_at, audio_at) = write_moof(
        out,
        segment_idx,
        segment,
        video_samples,
        audio_samples,
        cts,
        Ghost(parts),
    )?;
    let ghost draft = parts.moof(0, 0)->Ok_0;
    let mdat_total: u32 = mdat_size(video_bytes, audio_bytes)?;
    let mdat_start: usize = out.len();
    write_mdat(out, sample_data, video_samples, audio_samples, mdat_total, Ghost(parts))?;
    let ghost data = mdat_data(sample_data.content(), parts)->Ok_0;
    let ghost mdat = box_bytes(MDAT, data);
    let end: usize = out.len();
    assert(mdat.len() >= 8 && end == mdat_start + mdat.len());
    let mdat_payload_start: usize = mdat_start + 8;
    let video_offset: u32 = compute_data_offset(mdat_payload_start, moof_start, 0)?;
    let audio_offset: u32 = compute_data_offset(mdat_payload_start, moof_start, video_bytes)?;
    patch_data_offsets(
        out,
        video_at,
        audio_at,
        video_offset,
        audio_offset,
        Ghost(head),
        Ghost(parts),
        Ghost(mdat),
    );
    proof {
        let moof = parts.moof(video_offset, audio_offset)->Ok_0;
        assert((old(out)@ + styp) + moof + mdat =~= old(out)@ + (styp + moof + mdat));
    }
    Ok(())
}

/// Samples are only ever refused because the source ends too early.
proof fn lemma_sample_failures_are_io(src: Seq<u8>, samples: Seq<SampleEntry>)
    ensures
        samples_data(src, samples) is Err ==> samples_data(src, samples) matches Err(
            PackagerError::Io(_),
        ),
    decreases samples.len(),
{
    if samples.len() > 0 {
        lemma_sample_failures_are_io(src, samples.drop_last());
    }
}

/// A segment that the index lists is only ever refused with an I/O failure.
pub proof fn lemma_segment_failures_are_io(index: IndexModel, idx: u32, src: Seq<u8>)
    requires
        idx < index.segments.len(),
    ensures
        media_segment(index, idx, src) is Err ==> media_segment(index, idx, src) matches Err(
            PackagerError::Io(_),
        ),
{
    if let Ok(parts) = segment_parts(index, idx) {
        lemma_sample_failures_are_io(src, parts.video.samples);
        lemma_sample_failures_are_io(src, parts.audio.samples);
    }
}

/// Appends media segment `segment_idx` (`styp` + `moof` + `mdat`) to `out`,
/// streaming sample payload from `sample_data`.
///
/// Returns [`PackagerError::SegmentIndexOutOfRange`] when `segment_idx` is
/// past the segment table, and then neither reads from `sample_data` nor
/// writes to `out`. Every other failure is a [`PackagerError::Io`].
pub fn write_media_segment<R: ReadAt + ?Sized>(
    index: &IndexView<'_>,
    segment_idx: u32,
    sample_data: &R,
    out: &mut Vec<u8>,
) -> (r: Result<(), PackagerError>)
    ensures
        streams(
            old(out)@,
            final(out)@,
            r,
            media_segment(index@, segment_idx, sample_data.content()),
            sample_data.reliable(),
        ),
        segment_idx >= index@.segments.len() ==> r == Err::<(), _>(
            PackagerError::SegmentIndexOutOfRange {
                idx: segment_idx,
                count: index@.segments.len() as u32,
            },
        ) && final(out)@ == old(out)@,
        segment_idx < index@.segments.len() && r is Err ==> r matches Err(PackagerError::Io(_)),
{
    proof {
        if segment_idx < index@.segments.len() {
            lemma_segment_failures_are_io(index@, segment_idx, sample_data.content());
        }
    }
    let segments: &[SegmentEntry] = index.segments();
    let count: u32 = index.segment_count();
    if segment_idx >= count {
        return Err(PackagerError::SegmentIndexOutOfRange { idx: segment_idx, count });
    }
    let segment: SegmentEntry = segments[segment_idx as usize];
    let video_samples: &[SampleEntry] = slice_segment_samples(
        index.video_samples(),
        segment.video_sample_start,
        segment.video_sample_count,
    )?;
    let audio_samples: &[SampleEntry] = slice_segment_samples(
        index.audio_samples(),
        segment.audio_sample_start,
        segment.audio_sample_count,
    )?;
    if video_samples.len() == 0 || audio_samples.len() == 0 {
        return Err(
            PackagerError::Io(
                IoError::BadSegment { reason: "media segment with zero video or audio samples" },
            ),
        );
    }
    // The whole video track decides whether its segments carry composition
    // offsets, so that every segment has the same shape.
    let cts = any_cts(index.video_samples());
    let ghost parts = segment_parts(index@, segment_idx)->Ok_0;
    write_parts(
        out,
        sample_data,
        segment_idx,
        &segment,
        video_samples,
        audio_samples,
        cts,
        Ghost(parts),
    )
}

/// Bytes of the `styp` box, after which `moof` starts.
pub const STYP_LEN: usize = 24;

/// The pieces of a laid-out segment.
#[verifier::rlimit(40)]
proof fn lemma_pieces(src: Seq<u8>, parts: SegmentParts)
    requires
        laid_out(src, parts) is Ok,
    ensures
        ({
            let seg = laid_out(src, parts)->Ok_0;
            let draft = parts.moof(0, 0)->Ok_0;
            let x = (draft.len() + 8) as u32;
            let y = (draft.len() + 8 + parts.video_size()) as u32;
            let moof = parts.moof(x, y)->Ok_0;
            let video = samples_data(src, parts.video.samples)->Ok_0;
            let audio = samples_data(src, parts.audio.samples)->Ok_0;
            &&& box_bytes(STYP, words(styp_words())).len() == STYP_LEN
            &&& seg == box_bytes(STYP, words(styp_words())) + moof + box_bytes(MDAT, video + audio)
            &&& parts.moof(x, y) is Ok
            &&& moof.len() == draft.len()
            &&& video.len() == parts.video_size()
            &&& audio.len() == payload_size(parts.audio.samples)
            &&& video.len() + audio.len() + 8 <= u32::MAX
        }),
{
    broadcast use group_bytes;

    lemma_words_len(styp_words());
    let draft = parts.moof(0, 0)->Ok_0;
    let x = (draft.len() + 8) as u32;
    let y = (draft.len() + 8 + parts.video_size()) as u32;
    lemma_moof_data_offsets(parts, x, y);
    lemma_samples_data_len(src, parts.video.samples);
    lemma_samples_data_len(src, parts.audio.samples);
}

/// Where in a segment the video `trun` keeps its data offset.
pub open spec fn video_offset_at() -> int {
    STYP_LEN + TRAF_IN_MOOF + DATA_OFFSET_IN_TRAF
}

/// Where in a segment the audio `trun` keeps its data offset.
pub open spec fn audio_offset_at(parts: SegmentParts) -> int {
    STYP_LEN + TRAF_IN_MOOF + parts.video.traf(0)->Ok_0.len() + DATA_OFFSET_IN_TRAF
}

/// A four-byte field that was spliced in reads back.
proof fn lemma_read_spliced(s: Seq<u8>, at: int, v: u32, pre: Seq<u8>, post: Seq<u8>)
    requires
        0 <= at,
        at + 4 <= s.len(),
    ensures
        be_u32_at(pre + splice(s, at, be32(v)) + post, pre.len() + at) == v,
        splice(s, at, be32(v)).len() == s.len(),
{
    broadcast use group_bytes;

    let t = splice(s, at, be32(v));
    assert forall|k: int| 0 <= k < 4 implies #[trigger] t[at + k] == be32(v)[k] by {}
    let whole = pre + t + post;
    let p = pre.len() + at;
    assert(whole[p] == t[at + 0] && whole[p + 1] == t[at + 1] && whole[p + 2] == t[at + 2]
        && whole[p + 3] == t[at + 3]);
    lemma_be_u32_within(whole, p, be32(v), 0);
}

/// A segment reads back as exactly three boxes, `styp`, `moof` and `mdat`,
/// that fill it, and the payload of `mdat` is the video samples followed by
/// the audio samples.
#[verifier::rlimit(40)]
pub proof fn law_media_segment_is_styp_moof_mdat(index: IndexModel, idx: u32, src: Seq<u8>)
    requires
        media_segment(index, idx, src) is Ok,
    ensures
        ({
            let seg = media_segment(index, idx, src)->Ok_0;
            let parts = segment_parts(index, idx)->Ok_0;
            let found = scan(seg, 0, seg.len() as int);
            &&& found.fault is None
            &&& found.boxes.len() == 3
            &&& found.boxes[0].box_type == STYP
            &&& found.boxes[0].start == 0
            &&& found.boxes[1].box_type == MOOF
            &&& found.boxes[1].start == found.boxes[0].spec_end()
            &&& is_header_of(seg, found.boxes[2], (MDAT, mdat_data(src, parts)->Ok_0))
            &&& found.boxes[2].start == found.boxes[1].spec_end()
            &&& found.boxes[2].spec_end() == seg.len()
        }),
{
    let seg = media_segment(index, idx, src)->Ok_0;
    let parts = segment_parts(index, idx)->Ok_0;
    lemma_pieces(src, parts);
    lemma_words_len(styp_words());
    let draft = parts.moof(0, 0)->Ok_0;
    let x = (draft.len() + 8) as u32;
    let y = (draft.len() + 8 + parts.video_size()) as u32;
    let moof_payload = box_bytes(MFHD, words(mfhd_words(parts.idx))) + parts.video.traf(x)->Ok_0
        + parts.audio.traf(y)->Ok_0;
    lemma_three_boxes(
        STYP,
        words(styp_words()),
        MOOF,
        moof_payload,
        MDAT,
        mdat_data(src, parts)->Ok_0,
    );
}

/// Three boxes read back as three boxes.
proof fn lemma_three_boxes(
    t0: u32,
    p0: Seq<u8>,
    t1: u32,
    p1: Seq<u8>,
    t2: u32,
    p2: Seq<u8>,
)
    requires
        t0 != UUID && t1 != UUID && t2 != UUID,
        p0.len() + 8 <= u32::MAX,
        p1.len() + 8 <= u32::MAX,
        p2.len() + 8 <= u32::MAX,
    ensures
        ({
            let all = box_bytes(t0, p0) + box_bytes(t1, p1) + box_bytes(t2, p2);
            let found = scan(all, 0, all.len() as int);
            &&& found.fault is None
            &&& found.boxes.len() == 3
            &&& found.boxes[0].start == 0
            &&& is_header_of(all, found.boxes[0], (t0, p0))
            &&& found.boxes[1].start == found.boxes[0].spec_end()
            &&& is_header_of(all, found.boxes[1], (t1, p1))
            &&& found.boxes[2].start == found.boxes[1].spec_end()
            &&& is_header_of(all, found.boxes[2], (t2, p2))
            &&& found.boxes[2].spec_end() == all.len()
        }),
{
    broadcast use group_bytes;

    let all = box_bytes(t0, p0) + box_bytes(t1, p1) + box_bytes(t2, p2);
    let items = seq![(t0, p0), (t1, p1), (t2, p2)];
    let none = Seq::<u8>::empty();
    reveal_with_fuel(box_list, 4);
    assert(items.drop_first() =~= seq![(t1, p1), (t2, p2)]);
    assert(items.drop_first().drop_first() =~= seq![(t2, p2)]);
    assert(items.drop_first().drop_first().drop_first() =~= Seq::<(u32, Seq<u8>)>::empty());
    assert(box_list(items) =~= all);
    assert(none + box_list(items) + none =~= all);
    law_written_boxes_read_back(none, items, none);
    let found = scan(all, 0, all.len() as int);
    assert(is_header_of(all, found.boxes[0], items[0]));
    assert(is_header_of(all, found.boxes[1], items[1]));
    assert(is_header_of(all, found.boxes[2], items[2]));
}

/// The data offsets of a segment count from `moof` to the first video and
/// the first audio byte.
#[verifier::rlimit(40)]
proof fn lemma_offset_fields(index: IndexModel, idx: u32, src: Seq<u8>)
    requires
        media_segment(index, idx, src) is Ok,
    ensures
        ({
            let seg = media_segment(index, idx, src)->Ok_0;
            let parts = segment_parts(index, idx)->Ok_0;
            let start = parts.moof(0, 0)->Ok_0.len() + 8;
            &&& be_u32_at(seg, video_offset_at()) == start
            &&& be_u32_at(seg, audio_offset_at(parts)) == start + parts.video_size()
        }),
{
    broadcast use group_bytes;

    let seg = media_segment(index, idx, src)->Ok_0;
    let parts = segment_parts(index, idx)->Ok_0;
    lemma_pieces(src, parts);
    let draft = parts.moof(0, 0)->Ok_0;
    let x = (draft.len() + 8) as u32;
    let y = (draft.len() + 8 + parts.video_size()) as u32;
    lemma_moof_data_offsets(parts, x, y);
    let styp = box_bytes(STYP, words(styp_words()));
    let mdat = box_bytes(MDAT, mdat_data(src, parts)->Ok_0);
    let v_at = TRAF_IN_MOOF + DATA_OFFSET_IN_TRAF;
    let a_at = TRAF_IN_MOOF + parts.video.traf(0)->Ok_0.len() + DATA_OFFSET_IN_TRAF;
    let once = splice(draft, v_at, be32(x));
    lemma_read_spliced(draft, v_at, x, styp, mdat);
    lemma_read_spliced(once, a_at, y, styp, mdat);
    // The second patch does not touch the first field.
    let first = styp + once + mdat;
    let p = styp.len() + v_at;
    assert(seg == styp + splice(once, a_at, be32(y)) + mdat);
    assert(seg[p] == first[p] && seg[p + 1] == first[p + 1] && seg[p + 2] == first[p + 2] && seg[p
        + 3] == first[p + 3]);
    lemma_be_u32_within(seg, p, first, p);
}

/// The data offsets of a segment reach its samples: counted from the start of
/// `moof`, the video offset leads to the video bytes, the audio offset to the
/// audio bytes, and with these the segment ends.
pub proof fn law_data_offsets_reach_the_samples(index: IndexModel, idx: u32, src: Seq<u8>)
    requires
        media_segment(index, idx, src) is Ok,
    ensures
        ({
            let seg = media_segment(index, idx, src)->Ok_0;
            let parts = segment_parts(index, idx)->Ok_0;
            let video = samples_data(src, parts.video.samples)->Ok_0;
            let audio = samples_data(src, parts.audio.samples)->Ok_0;
            let v = STYP_LEN + be_u32_at(seg, video_offset_at());
            let a = STYP_LEN + be_u32_at(seg, audio_offset_at(parts));
            &&& a == v + video.len()
            &&& a + audio.len() == seg.len()
            &&& seg.subrange(v, a) == video
            &&& seg.subrange(a, seg.len() as int) == audio
        }),
{
    let seg = media_segment(index, idx, src)->Ok_0;
    let parts = segment_parts(index, idx)->Ok_0;
    lemma_pieces(src, parts);
    lemma_offset_fields(index, idx, src);
    let draft = parts.moof(0, 0)->Ok_0;
    let x = (draft.len() + 8) as u32;
    let y = (draft.len() + 8 + parts.video_size()) as u32;
    let moof = parts.moof(x, y)->Ok_0;
    let video = samples_data(src, parts.video.samples)->Ok_0;
    let audio = samples_data(src, parts.audio.samples)->Ok_0;
    let styp = box_bytes(STYP, words(styp_words()));
    lemma_tail_parts(seg, styp + moof, MDAT, video, audio);
}

/// Two parts of the payload of the last box.
proof fn lemma_tail_parts(seg: Seq<u8>, head: Seq<u8>, fourcc: u32, a: Seq<u8>, b: Seq<u8>)
    requires
        seg == head + box_bytes(fourcc, a + b),
    ensures
        ({
            let start = 8int + head.len();
            &&& seg.len() == start + a.len() + b.len()
            &&& seg.subrange(start, start + a.len()) == a
            &&& seg.subrange(start + a.len(), seg.len() as int) == b
        }),
{
    broadcast use group_bytes;

    let start = 8int + head.len();
    assert(seg.subrange(start, start + a.len()) =~= a);
    assert(seg.subrange(start + a.len(), seg.len() as int) =~= b);
}

/// The data of sample `k` stands after the data of the samples before it.
pub proof fn lemma_sample_within(src: Seq<u8>, samples: Seq<SampleEntry>, k: int)
    requires
        samples_data(src, samples) is Ok,
        0 <= k < samples.len(),
    ensures
        ({
            let data = samples_data(src, samples)->Ok_0;
            let at = payload_size(samples.take(k)) as int;
            let size = samples[k].size as int;
            &&& at + size <= data.len()
            &&& data.subrange(at, at + size) == sample_data(src, samples[k])->Ok_0
            &&& sample_data(src, samples[k]) is Ok
        }),
    decreases samples.len(),
{
    lemma_samples_data_len(src, samples);
    lemma_samples_data_len(src, samples.drop_last());
    let data = samples_data(src, samples)->Ok_0;
    let before = samples_data(src, samples.drop_last())->Ok_0;
    let at = payload_size(samples.take(k)) as int;
    let size = samples[k].size as int;
    if k == samples.len() - 1 {
        assert(samples.take(k) =~= samples.drop_last());
        assert(data.subrange(at, at + size) =~= sample_data(src, samples[k])->Ok_0);
    } else {
        assert(samples.drop_last().take(k) =~= samples.take(k));
        lemma_sample_within(src, samples.drop_last(), k);
        assert(data.subrange(at, at + size) =~= before.subrange(at, at + size));
    }
}

/// A player that adds up the sample sizes of a `trun` from its data offset on
/// reaches every video and every audio sample: it finds the very bytes that
/// the index points to in the source.
pub proof fn law_every_sample_is_found_by_its_run(
    index: IndexModel,
    idx: u32,
    src: Seq<u8>,
    video: bool,
    k: int,
)
    requires
        media_segment(index, idx, src) is Ok,
        0 <= k,
        k < (if video {
            segment_parts(index, idx)->Ok_0.video.samples.len()
        } else {
            segment_parts(index, idx)->Ok_0.audio.samples.len()
        }),
    ensures
        ({
            let seg = media_segment(index, idx, src)->Ok_0;
            let parts = segment_parts(index, idx)->Ok_0;
            let samples = if video { parts.video.samples } else { parts.audio.samples };
            let field = if video { video_offset_at() } else { audio_offset_at(parts) };
            let at = STYP_LEN + be_u32_at(seg, field) + payload_size(samples.take(k));
            let sample = samples[k];
            &&& at + sample.size <= seg.len()
            &&& sample.size > 0 ==> sample.offset + sample.size <= src.len()
            &&& sample.size > 0 ==> seg.subrange(at, at + sample.size) == src.subrange(
                sample.offset as int,
                sample.offset + sample.size,
            )
        }),
{
    let seg = media_segment(index, idx, src)->Ok_0;
    let parts = segment_parts(index, idx)->Ok_0;
    let samples = if video { parts.video.samples } else { parts.audio.samples };
    let field = if video { video_offset_at() } else { audio_offset_at(parts) };
    let data = samples_data(src, samples)->Ok_0;
    law_data_offsets_reach_the_samples(index, idx, src);
    lemma_sample_within(src, samples, k);
    lemma_samples_data_len(src, parts.audio.samples);
    lemma_samples_data_len(src, parts.video.samples);
    let start = STYP_LEN + be_u32_at(seg, field);
    let within = payload_size(samples.take(k)) as int;
    let size = samples[k].size as int;
    let all = seg.subrange(start, start + data.len());
    assert(all == data);
    assert(seg.subrange(start + within, start + within + size) =~= all.subrange(
        within,
        within + size,
    ));
}

/// The payload of one track's part of a segment.
pub open spec fn traf_payload(run: TrackRun, data_offset: u32) -> Seq<u8> {
    box_bytes(TFHD, words(tfhd_words(run.track_id))) + box_bytes(
        TFDT,
        words(tfdt_words(run.base_dts)),
    ) + trun(run.samples, run.video, run.cts, data_offset)->Ok_0
}

/// Three boxes, one after the other.
proof fn lemma_three_listed(items: Seq<(u32, Seq<u8>)>)
    requires
        items.len() == 3,
    ensures
        box_list(items) == box_bytes(items[0].0, items[0].1) + box_bytes(items[1].0, items[1].1)
            + box_bytes(items[2].0, items[2].1),
{
    reveal_with_fuel(box_list, 4);
    let r1 = items.drop_first();
    let r2 = r1.drop_first();
    assert(r1[0] == items[1] && r2[0] == items[2]);
    assert(r2.drop_first().len() == 0);
    assert(box_list(items) =~= box_bytes(items[0].0, items[0].1) + box_bytes(
        items[1].0,
        items[1].1,
    ) + box_bytes(items[2].0, items[2].1));
}

/// The `moof` box of a segment holds the fragment header, the video part and
/// the audio part, in this order and nothing else.
#[verifier::rlimit(40)]
pub proof fn law_moof_holds_video_then_audio(index: IndexModel, idx: u32, src: Seq<u8>)
    requires
        media_segment(index, idx, src) is Ok,
    ensures
        ({
            let seg = media_segment(index, idx, src)->Ok_0;
            let parts = segment_parts(index, idx)->Ok_0;
            let x = be_u32_at(seg, video_offset_at());
            let y = be_u32_at(seg, audio_offset_at(parts));
            let end = STYP_LEN + parts.moof(0, 0)->Ok_0.len();
            let found = scan(seg, STYP_LEN + 8, end);
            &&& found.fault is None
            &&& found.boxes.len() == 3
            &&& is_header_of(seg, found.boxes[0], (MFHD, words(mfhd_words(idx))))
            &&& is_header_of(seg, found.boxes[1], (TRAF, traf_payload(parts.video, x)))
            &&& is_header_of(seg, found.boxes[2], (TRAF, traf_payload(parts.audio, y)))
        }),
{
    let seg = media_segment(index, idx, src)->Ok_0;
    let parts = segment_parts(index, idx)->Ok_0;
    lemma_pieces(src, parts);
    lemma_offset_fields(index, idx, src);
    let draft = parts.moof(0, 0)->Ok_0;
    let x = (draft.len() + 8) as u32;
    let y = (draft.len() + 8 + parts.video_size()) as u32;
    let mdat = box_bytes(MDAT, mdat_data(src, parts)->Ok_0);
    let styp = box_bytes(STYP, words(styp_words()));
    let moof = parts.moof(x, y)->Ok_0;
    let items = seq![
        (MFHD, words(mfhd_words(idx))),
        (TRAF, traf_payload(parts.video, x)),
        (TRAF, traf_payload(parts.audio, y)),
    ];
    lemma_three_listed(items);
    lemma_words_len(mfhd_words(idx));
    lemma_box_len(MOOF, box_list(items));
    assert(moof == box_bytes(MOOF, box_list(items)));
    law_written_children_read_back(styp, MOOF, items, mdat);
    let at = styp.len() as int + 8;
    let found = scan(seg, at, at + box_list(items).len());
    assert(is_header_of(seg, found.boxes[0], items[0]));
    assert(is_header_of(seg, found.boxes[1], items[1]));
    assert(is_header_of(seg, found.boxes[2], items[2]));
}

} // verus!
