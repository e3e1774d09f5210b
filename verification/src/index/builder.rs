//! `IndexBuilder`: the `.idx` byte image of a source MP4.
//!
//! 1. Walk `moov`: per-track metadata and sample-table locations.
//! 2. Read the sample tables: one row per sample and track.
//! 3. Cut both tracks into segments at sync samples.
//! 4. Read the sample-entry and `edts` byte ranges.
//! 5. Hash the source with BLAKE3-256.
//! 6. Render the init segment and the playlist.
//! 7. Assemble every segment once to find the size of the largest.
//! 8. Lay out the byte image.

use vstd::prelude::*;

use crate::bytes::{be32, be_bytes, group_bytes, push_bytes, zeros};
use crate::demux::moov::{parse_top_level, top_level, ByteRange, MoovParse};
use crate::demux::reader::{bytes_at, read_exact};
use crate::demux::sample_table::{asks_memory, loads, ok_seq, walk, walked, RawSampleEntry, WalkedSamples};
use crate::error::{settles, IoError, PackagerError};
use crate::fmp4::init::{init_segment, write_init_segment};
use crate::fmp4::media::{media_segment, write_media_segment};
use crate::index::digest::{blake3_of_source, source_digest};
use crate::index::format::{SampleEntry, SegmentEntry, SAMPLE_FLAG_IS_SYNC};
use crate::index::image::{encoded, finished_model, gap, serialise};
use crate::index::round_trip::law_index_round_trip;
use crate::index::view::{
    opened, AudioModel, AudioTrackMeta, IndexModel, IndexView, VideoModel, VideoTrackMeta,
};
use crate::playlist::m3u8::{all_ticks, playlist, ticks_sum, video_ticks, write_media_playlist};
use crate::read_at::ReadAt;
use crate::segment::duration::SegmentDuration;
use crate::segment::splitter::{
    dts, law_segments_partition_both_tracks, law_segments_start_at_sync_samples,
    lemma_segment_count, segments_of, split, splits_into, Tracks,
};

verus! {

/// The row of a sample: its sync flag becomes bit 0 of the flags. Audio rows
/// have no composition offset.
pub open spec fn to_row(r: RawSampleEntry, audio: bool) -> SampleEntry {
    SampleEntry {
        offset: r.offset,
        size: r.size,
        dts_delta: r.dts_delta,
        cts_offset: if audio { 0 } else { r.cts_offset },
        flags: if r.is_sync { SAMPLE_FLAG_IS_SYNC } else { 0 },
    }
}

/// The rows of samples.
pub open spec fn to_rows(samples: Seq<RawSampleEntry>, audio: bool) -> Seq<SampleEntry> {
    Seq::new(samples.len(), |i: int| to_row(samples[i], audio))
}

/// The bytes of a range of the source.
pub open spec fn range_bytes(src: Seq<u8>, range: ByteRange) -> Result<Seq<u8>, PackagerError> {
    if range.len > usize::MAX {
        Err(PackagerError::Io(IoError::RangeTooLarge { len: range.len }))
    } else {
        bytes_at(src, range.offset as int, range.len as int)
    }
}

/// The bytes of a range that may be missing, in which case there are none.
pub open spec fn optional_bytes(src: Seq<u8>, range: Option<ByteRange>) -> Result<
    Seq<u8>,
    PackagerError,
> {
    match range {
        None => Ok(Seq::empty()),
        Some(range) => range_bytes(src, range),
    }
}

/// The byte blobs that an index copies from its source.
pub ghost struct Blobs {
    pub video_entry: Seq<u8>,
    pub video_elst: Seq<u8>,
    pub audio_entry: Seq<u8>,
    pub audio_elst: Seq<u8>,
}

/// Reads the blobs; the first that the source does not hold decides the
/// error.
pub open spec fn blobs(src: Seq<u8>, moov: MoovParse) -> Result<Blobs, PackagerError> {
    match range_bytes(src, moov.video.sample_entry) {
        Err(e) => Err(e),
        Ok(video_entry) => match optional_bytes(src, moov.video.elst) {
            Err(e) => Err(e),
            Ok(video_elst) => match range_bytes(src, moov.audio.sample_entry) {
                Err(e) => Err(e),
                Ok(audio_entry) => match optional_bytes(src, moov.audio.elst) {
                    Err(e) => Err(e),
                    Ok(audio_elst) => Ok(Blobs { video_entry, video_elst, audio_entry, audio_elst }),
                },
            },
        },
    }
}

/// An index before anything is rendered from it.
pub open spec fn draft_of(
    moov: MoovParse,
    video_samples: Seq<SampleEntry>,
    audio_samples: Seq<SampleEntry>,
    segments: Seq<SegmentEntry>,
    blobs: Blobs,
    source_len: u64,
    digest: Seq<u8>,
) -> IndexModel {
    IndexModel {
        max_segment_size: 0,
        source_mp4_len: source_len,
        source_mp4_blake3: digest,
        video_track: VideoModel {
            timescale: moov.video.timescale,
            fourcc: be32(moov.video.fourcc),
            width: moov.video.width,
            height: moov.video.height,
            sample_entry: blobs.video_entry,
            elst: blobs.video_elst,
        },
        audio_track: AudioModel {
            timescale: moov.audio.timescale,
            fourcc: be32(moov.audio.fourcc),
            sample_rate: moov.audio.sample_rate,
            channel_count: moov.audio.channel_count,
            sample_entry: blobs.audio_entry,
            elst: blobs.audio_elst,
        },
        video_samples,
        audio_samples,
        segments,
        init_segment: Seq::empty(),
        playlist: None,
    }
}

/// What is known of a source once its tables are read and cut.
pub ghost struct CutTracks {
    pub moov: MoovParse,
    pub video: Seq<RawSampleEntry>,
    pub audio: Seq<RawSampleEntry>,
    pub segments: Seq<SegmentEntry>,
}

/// Whether a source parses and has a table to hold in memory. Only then can
/// an index be refused for want of memory.
pub open spec fn holds_tables(src: Seq<u8>, source_len: u64) -> bool {
    top_level(src, source_len as int) matches Ok(moov) && asks_memory(moov.video.sample_table)
}

/// Reads the tables of a source and cuts its tracks.
pub open spec fn cut_tracks(src: Seq<u8>, source_len: u64, nominal: SegmentDuration) -> Result<
    CutTracks,
    PackagerError,
> {
    match top_level(src, source_len as int) {
        Err(e) => Err(e),
        Ok(moov) => match walked(src, moov.video.sample_table) {
            Err(e) => Err(e),
            Ok(video) => match walked(src, moov.audio.sample_table) {
                Err(e) => Err(e),
                Ok(audio) => match segments_of(
                    video,
                    audio,
                    moov.video.timescale,
                    moov.audio.timescale,
                    nominal,
                ) {
                    Err(e) => Err(e),
                    Ok(segments) => Ok(CutTracks { moov, video, audio, segments }),
                },
            },
        },
    }
}

/// The draft index of a source.
pub open spec fn draft_index(src: Seq<u8>, source_len: u64, nominal: SegmentDuration) -> Result<
    IndexModel,
    PackagerError,
> {
    match cut_tracks(src, source_len, nominal) {
        Err(e) => Err(e),
        Ok(cut) => match blobs(src, cut.moov) {
            Err(e) => Err(e),
            Ok(blobs) => match source_digest(src, source_len as int) {
                Err(e) => Err(e),
                Ok(digest) => Ok(
                    draft_of(
                        cut.moov,
                        to_rows(cut.video, false),
                        to_rows(cut.audio, true),
                        cut.segments,
                        blobs,
                        source_len,
                        digest,
                    ),
                ),
            },
        },
    }
}

/// A playlist with newlines after it, up to a multiple of 8.
pub open spec fn newline_padded(text: Seq<u8>) -> Seq<u8> {
    text + Seq::new(gap(text.len()), |i: int| 10u8)
}

/// The playlist as it stands in an index.
pub open spec fn rendered_playlist(draft: IndexModel) -> Result<Seq<u8>, PackagerError> {
    match playlist(draft) {
        Err(e) => Err(e),
        Ok(text) => Ok(newline_padded(text)),
    }
}

/// The size of the largest of the first `n` segments; the first that cannot
/// be assembled, or is too large, decides the error.
pub open spec fn largest_segment(draft: IndexModel, src: Seq<u8>, n: nat) -> Result<
    u32,
    PackagerError,
>
    decreases n,
{
    if n == 0 {
        Ok(0)
    } else {
        match largest_segment(draft, src, (n - 1) as nat) {
            Err(e) => Err(e),
            Ok(max) => match media_segment(draft, (n - 1) as u32, src) {
                Err(e) => Err(e),
                Ok(bytes) => if bytes.len() > u32::MAX {
                    Err(
                        PackagerError::Io(
                            IoError::SegmentTooLarge {
                                idx: (n - 1) as u64,
                                size: bytes.len() as u64,
                            },
                        ),
                    )
                } else if bytes.len() > max {
                    Ok(bytes.len() as u32)
                } else {
                    Ok(max)
                },
            },
        }
    }
}

/// The finished index of a draft.
pub open spec fn finish(draft: IndexModel, src: Seq<u8>) -> Result<IndexModel, PackagerError> {
    match init_segment(draft) {
        Err(e) => Err(e),
        Ok(init) => match rendered_playlist(draft) {
            Err(e) => Err(e),
            Ok(text) => match largest_segment(draft, src, draft.segments.len()) {
                Err(e) => Err(e),
                Ok(max) => Ok(finished_model(draft, max, init, text)),
            },
        },
    }
}

/// The index of a source.
pub open spec fn index_of(src: Seq<u8>, source_len: u64, nominal: SegmentDuration) -> Result<
    IndexModel,
    PackagerError,
> {
    match draft_index(src, source_len, nominal) {
        Err(e) => Err(e),
        Ok(draft) => finish(draft, src),
    }
}

/// The `.idx` byte image of a source.
pub open spec fn built(src: Seq<u8>, source_len: u64, nominal: SegmentDuration) -> Result<
    Seq<u8>,
    PackagerError,
> {
    match index_of(src, source_len, nominal) {
        Err(e) => Err(e),
        Ok(index) => encoded(index),
    }
}

/// Turns samples into rows.
fn rows_of(samples: &[RawSampleEntry], audio: bool) -> (r: Vec<SampleEntry>)
    ensures
        r@ == to_rows(samples@, audio),
{
    let mut rows: Vec<SampleEntry> = Vec::with_capacity(samples.len());
    let mut i: usize = 0;
    while i < samples.len()
        invariant
            0 <= i <= samples@.len(),
            rows@ =~= to_rows(samples@, audio).take(i as int),
        decreases samples@.len() - i,
    {
        let s: RawSampleEntry = samples[i];
        rows.push(
            SampleEntry {
                offset: s.offset,
                size: s.size,
                dts_delta: s.dts_delta,
                cts_offset: if audio { 0 } else { s.cts_offset },
                flags: if s.is_sync { SAMPLE_FLAG_IS_SYNC } else { 0 },
            },
        );
        i += 1;
    }
    assert(rows@ =~= to_rows(samples@, audio));
    rows
}

/// Reads a byte range of the source.
pub fn read_byte_range<R: ReadAt + ?Sized>(reader: &R, range: ByteRange) -> (r: Result<
    Vec<u8>,
    PackagerError,
>)
    requires
        range.wf(),
    ensures
        settles(ok_seq(r), range_bytes(reader.content(), range), reader.reliable()),
{
    if range.len > usize::MAX as u64 {
        return Err(PackagerError::Io(IoError::RangeTooLarge { len: range.len }));
    }
    let mut buf: Vec<u8> = zeros(range.len as usize);
    read_exact(reader, range.offset, buf.as_mut_slice())?;
    Ok(buf)
}

/// Reads a byte range that may be missing.
fn read_optional_range<R: ReadAt + ?Sized>(reader: &R, range: Option<ByteRange>) -> (r: Result<
    Vec<u8>,
    PackagerError,
>)
    requires
        crate::demux::moov::optional_wf(range),
    ensures
        settles(ok_seq(r), optional_bytes(reader.content(), range), reader.reliable()),
{
    match range {
        None => Ok(Vec::new()),
        Some(range) => read_byte_range(reader, range),
    }
}

/// Renders the media playlist, padded with newlines to a multiple of 8.
///
/// The padding is part of the section: a section has no length of its own, so
/// zero padding would reach the clients. Blank lines are ignored by playlist
/// parsers; zero bytes are not.
pub fn render_playlist(view: &IndexView<'_>) -> (r: Result<Vec<u8>, PackagerError>)
    ensures
        ok_seq(r) == rendered_playlist(view@),
{
    let mut bytes: Vec<u8> = Vec::new();
    write_media_playlist(view, &mut bytes)?;
    let ghost text = playlist(view@)->Ok_0;
    assert(bytes@ =~= text);
    let rem: usize = bytes.len() % 8;
    if rem != 0 {
        let missing: usize = 8 - rem;
        let pad: Vec<u8> = vec![10u8; missing];
        push_bytes(&mut bytes, pad.as_slice());
    }
    assert(bytes@ =~= newline_padded(text));
    Ok(bytes)
}

proof fn lemma_largest_segment_fail(draft: IndexModel, src: Seq<u8>, n: nat, m: nat)
    requires
        n <= m,
        largest_segment(draft, src, n) is Err,
    ensures
        largest_segment(draft, src, m) == largest_segment(draft, src, n),
    decreases m,
{
    if n < m {
        lemma_largest_segment_fail(draft, src, n, (m - 1) as nat);
    }
}

/// Assembles every segment once and returns the size of the largest.
fn measure_segments<R: ReadAt + ?Sized>(view: &IndexView<'_>, source: &R) -> (r: Result<
    u32,
    PackagerError,
>)
    ensures
        settles(
            r,
            largest_segment(view@, source.content(), view@.segments.len()),
            source.reliable(),
        ),
{
    let ghost src = source.content();
    let count: u32 = view.segment_count();
    let mut max: u32 = 0;
    let mut idx: u32 = 0;
    while idx < count
        invariant
            src == source.content(),
            idx <= count,
            count == view@.segments.len(),
            largest_segment(view@, src, idx as nat) == Ok::<_, PackagerError>(max),
        decreases count - idx,
    {
        proof {
            if largest_segment(view@, src, (idx + 1) as nat) is Err {
                lemma_largest_segment_fail(view@, src, (idx + 1) as nat, count as nat);
            }
        }
        let mut bytes: Vec<u8> = Vec::new();
        write_media_segment(view, idx, source, &mut bytes)?;
        assert(bytes@ =~= media_segment(view@, idx, src)->Ok_0);
        let size: usize = bytes.len();
        if size as u64 > u32::MAX as u64 {
            return Err(
                PackagerError::Io(
                    IoError::SegmentTooLarge { idx: idx as u64, size: size as u64 },
                ),
            );
        }
        if size as u32 > max {
            max = size as u32;
        }
        idx += 1;
    }
    Ok(max)
}

/// What is known of a source once its tables are read and cut.
struct CutSource {
    moov: MoovParse,
    video: Vec<RawSampleEntry>,
    audio: Vec<RawSampleEntry>,
    segments: Vec<SegmentEntry>,
}

impl View for CutSource {
    type V = CutTracks;

    closed spec fn view(&self) -> CutTracks {
        CutTracks {
            moov: self.moov,
            video: self.video@,
            audio: self.audio@,
            segments: self.segments@,
        }
    }
}

/// Reads the tables of a source and cuts its tracks.
#[verifier::rlimit(40)]
fn cut_source<R: ReadAt + ?Sized>(source: &R, source_len: u64, nominal: SegmentDuration) -> (r:
    Result<CutSource, PackagerError>)
    ensures
        loads(
            match r {
                Ok(cut) => Ok(cut@),
                Err(e) => Err(e),
            },
            cut_tracks(source.content(), source_len, nominal),
            holds_tables(source.content(), source_len),
            source.reliable(),
        ),
        r matches Ok(cut) ==> {
            &&& cut.moov.video.wf()
            &&& cut.moov.audio.wf()
            &&& cut.segments@.len() <= u32::MAX
        },
{
    let moov: MoovParse = parse_top_level(source, source_len)?;
    let video: WalkedSamples = walk(source, &moov.video.sample_table)?;
    let audio: WalkedSamples = walk(source, &moov.audio.sample_table)?;
    let segments: Vec<SegmentEntry> = split(
        video.samples.as_slice(),
        audio.samples.as_slice(),
        moov.video.timescale,
        moov.audio.timescale,
        nominal,
    )?;
    Ok(CutSource { moov, video: video.samples, audio: audio.samples, segments })
}

/// The byte blobs that an index copies from its source.
struct SourceBlobs {
    video_entry: Vec<u8>,
    video_elst: Vec<u8>,
    audio_entry: Vec<u8>,
    audio_elst: Vec<u8>,
}

impl View for SourceBlobs {
    type V = Blobs;

    closed spec fn view(&self) -> Blobs {
        Blobs {
            video_entry: self.video_entry@,
            video_elst: self.video_elst@,
            audio_entry: self.audio_entry@,
            audio_elst: self.audio_elst@,
        }
    }
}

/// Reads the blobs of both tracks.
fn read_blobs<R: ReadAt + ?Sized>(source: &R, moov: &MoovParse) -> (r: Result<
    SourceBlobs,
    PackagerError,
>)
    requires
        moov.video.wf(),
        moov.audio.wf(),
    ensures
        settles(
            match r {
                Ok(blobs) => Ok(blobs@),
                Err(e) => Err(e),
            },
            blobs(source.content(), *moov),
            source.reliable(),
        ),
{
    let video_entry: Vec<u8> = read_byte_range(source, moov.video.sample_entry)?;
    let video_elst: Vec<u8> = read_optional_range(source, moov.video.elst)?;
    let audio_entry: Vec<u8> = read_byte_range(source, moov.audio.sample_entry)?;
    let audio_elst: Vec<u8> = read_optional_range(source, moov.audio.elst)?;
    Ok(SourceBlobs { video_entry, video_elst, audio_entry, audio_elst })
}

/// Produces `.idx` byte images.
pub struct IndexBuilder;

impl IndexBuilder {
    /// Builds the `.idx` byte image of a source MP4.
    ///
    /// `source` gives random access to the entire file, `source_len` is its
    /// length in bytes, and `nominal` is the nominal segment duration. Real
    /// cuts snap forward to the next sync sample.
    #[verifier::rlimit(40)]
    pub fn build<R: ReadAt + ?Sized>(source: &R, source_len: u64, nominal: SegmentDuration) -> (r:
        Result<Vec<u8>, PackagerError>)
        ensures
            loads(
                ok_seq(r),
                built(source.content(), source_len, nominal),
                holds_tables(source.content(), source_len),
                source.reliable(),
            ),
            top_level(source.content(), source_len as int) matches Err(e) ==> settles(
                ok_seq(r),
                Err(e),
                source.reliable(),
            ),
    {
        let cut: CutSource = cut_source(source, source_len, nominal)?;
        let moov: MoovParse = cut.moov;
        let held: SourceBlobs = read_blobs(source, &moov)?;
        let digest: [u8; 32] = blake3_of_source(source, source_len)?;
        let video_samples: Vec<SampleEntry> = rows_of(cut.video.as_slice(), false);
        let audio_samples: Vec<SampleEntry> = rows_of(cut.audio.as_slice(), true);
        let draft = IndexView::from_parts(
            0,
            source_len,
            digest,
            VideoTrackMeta {
                timescale: moov.video.timescale,
                fourcc: be_bytes(moov.video.fourcc),
                width: moov.video.width,
                height: moov.video.height,
                sample_entry: held.video_entry.as_slice(),
                elst: held.video_elst.as_slice(),
            },
            AudioTrackMeta {
                timescale: moov.audio.timescale,
                fourcc: be_bytes(moov.audio.fourcc),
                sample_rate: moov.audio.sample_rate,
                channel_count: moov.audio.channel_count,
                sample_entry: held.audio_entry.as_slice(),
                elst: held.audio_elst.as_slice(),
            },
            video_samples,
            audio_samples,
            cut.segments,
            &[],
            None,
        );
        assert(draft@.init_segment =~= Seq::<u8>::empty());
        assert(draft_index(source.content(), source_len, nominal) == Ok::<_, PackagerError>(
            draft@,
        ));
        finish_build(&draft, source)
    }
}

/// Renders what an index holds beside its draft, and lays out the image.
fn finish_build<R: ReadAt + ?Sized>(draft: &IndexView<'_>, source: &R) -> (r: Result<
    Vec<u8>,
    PackagerError,
>)
    ensures
        settles(
            ok_seq(r),
            match finish(draft@, source.content()) {
                Ok(index) => encoded(index),
                Err(e) => Err(e),
            },
            source.reliable(),
        ),
{
    let mut init_bytes: Vec<u8> = Vec::new();
    write_init_segment(draft, &mut init_bytes)?;
    assert(init_bytes@ =~= init_segment(draft@)->Ok_0);
    let playlist_bytes: Vec<u8> = render_playlist(draft)?;
    let max_segment_size: u32 = measure_segments(draft, source)?;
    serialise(draft, max_segment_size, playlist_bytes, init_bytes)
}

/// The padded playlist is a positive multiple of 8 long.
proof fn lemma_playlist_padding(draft: IndexModel)
    requires
        rendered_playlist(draft) is Ok,
    ensures
        rendered_playlist(draft)->Ok_0.len() > 0,
        rendered_playlist(draft)->Ok_0.len() % 8 == 0,
{
    let text = playlist(draft)->Ok_0;
    reveal_strlit("#EXT-X-ENDLIST\n");
    assert(text.len() > 0);
    let n = text.len();
    assert((n + gap(n)) % 8 == 0);
}

/// A byte image that was built opens, and gives back the index of its source.
#[verifier::rlimit(40)]
pub proof fn law_built_image_opens(src: Seq<u8>, source_len: u64, nominal: SegmentDuration)
    requires
        built(src, source_len, nominal) is Ok,
        built(src, source_len, nominal)->Ok_0.len() <= usize::MAX,
    ensures
        index_of(src, source_len, nominal) is Ok,
        opened(built(src, source_len, nominal)->Ok_0) == index_of(src, source_len, nominal),
{
    broadcast use group_bytes;

    let index = index_of(src, source_len, nominal)->Ok_0;
    let draft = draft_index(src, source_len, nominal)->Ok_0;
    lemma_playlist_padding(draft);
    assert(index.source_mp4_blake3.len() == 32);
    law_index_round_trip(index);
}

/// A built index records the length and the digest of its source, and what it
/// renders is rendered from itself: its init segment, its playlist (with
/// newlines up to a multiple of 8), and the size of its largest segment.
pub proof fn law_built_index_describes_its_source(
    src: Seq<u8>,
    source_len: u64,
    nominal: SegmentDuration,
)
    requires
        index_of(src, source_len, nominal) is Ok,
    ensures
        ({
            let index = index_of(src, source_len, nominal)->Ok_0;
            &&& index.source_mp4_len == source_len
            &&& source_digest(src, source_len as int) == Ok::<_, PackagerError>(
                index.source_mp4_blake3,
            )
            &&& init_segment(index) == Ok::<_, PackagerError>(index.init_segment)
            &&& playlist(index) is Ok
            &&& index.playlist == Some(newline_padded(playlist(index)->Ok_0))
        }),
{
}

/// Every segment of a built index can be assembled from its source, and none
/// is larger than the recorded maximum, which one of them reaches.
#[verifier::rlimit(40)]
pub proof fn law_every_segment_of_a_built_index_is_served(
    src: Seq<u8>,
    source_len: u64,
    nominal: SegmentDuration,
)
    requires
        index_of(src, source_len, nominal) is Ok,
    ensures
        ({
            let index = index_of(src, source_len, nominal)->Ok_0;
            &&& 0 < index.segments.len() <= u32::MAX
            &&& forall|idx: u32|
                idx < index.segments.len() ==> {
                    &&& (#[trigger] media_segment(index, idx, src)) is Ok
                    &&& media_segment(index, idx, src)->Ok_0.len() <= index.max_segment_size
                }
            &&& exists|idx: u32|
                idx < index.segments.len() && (#[trigger] media_segment(
                    index,
                    idx,
                    src,
                ))->Ok_0.len() == index.max_segment_size
        }),
{
    let index = index_of(src, source_len, nominal)->Ok_0;
    let draft = draft_index(src, source_len, nominal)->Ok_0;
    let cut = cut_tracks(src, source_len, nominal)->Ok_0;
    let tracks = Tracks {
        video: cut.video,
        audio: cut.audio,
        video_timescale: cut.moov.video.timescale,
        audio_timescale: cut.moov.audio.timescale,
        nominal_ticks: nominal.spec_ticks(cut.moov.video.timescale),
    };
    law_segments_partition_both_tracks(tracks, nominal, cut.segments);
    lemma_segment_count(tracks, 0, 0);
    let n = index.segments.len();
    lemma_largest_segment(draft, src, n);
    assert forall|idx: u32| idx < n implies {
        &&& (#[trigger] media_segment(index, idx, src)) is Ok
        &&& media_segment(index, idx, src)->Ok_0.len() <= index.max_segment_size
    } by {
        assert(media_segment(index, idx, src) == media_segment(draft, idx, src));
    }
    let idx = choose|idx: u32|
        idx < n && (#[trigger] media_segment(draft, idx, src))->Ok_0.len()
            == index.max_segment_size;
    assert(media_segment(index, idx, src) == media_segment(draft, idx, src));
}

/// The largest of the first `n` segments is the largest of them.
proof fn lemma_largest_segment(draft: IndexModel, src: Seq<u8>, n: nat)
    requires
        largest_segment(draft, src, n) is Ok,
        0 < n <= u32::MAX,
    ensures
        forall|idx: u32|
            idx < n ==> (#[trigger] media_segment(draft, idx, src)) is Ok && media_segment(
                draft,
                idx,
                src,
            )->Ok_0.len() <= largest_segment(draft, src, n)->Ok_0,
        exists|idx: u32|
            idx < n && (#[trigger] media_segment(draft, idx, src))->Ok_0.len() == largest_segment(
                draft,
                src,
                n,
            )->Ok_0,
    decreases n,
{
    let last = (n - 1) as u32;
    let here = media_segment(draft, last, src);
    assert(here is Ok);
    if n > 1 {
        lemma_largest_segment(draft, src, (n - 1) as nat);
        let max = largest_segment(draft, src, (n - 1) as nat)->Ok_0;
        if here->Ok_0.len() <= max {
            let idx = choose|idx: u32|
                idx < n - 1 && (#[trigger] media_segment(draft, idx, src))->Ok_0.len() == max;
            assert(media_segment(draft, idx, src)->Ok_0.len() == largest_segment(
                draft,
                src,
                n,
            )->Ok_0);
        }
    } else {
        assert(largest_segment(draft, src, 0) == Ok::<u32, PackagerError>(0));
    }
    assert forall|idx: u32| idx < n implies (#[trigger] media_segment(draft, idx, src)) is Ok
        && media_segment(draft, idx, src)->Ok_0.len() <= largest_segment(draft, src, n)->Ok_0 by {
        if idx < n - 1 {
        } else {
            assert(idx == last);
        }
    }
}

/// Durations add up to DTS.
proof fn lemma_ticks_are_dts(samples: Seq<RawSampleEntry>, from: int, to: int)
    requires
        0 <= from <= to <= samples.len(),
    ensures
        dts(samples, to) == dts(samples, from) + ticks_sum(
            to_rows(samples, false).subrange(from, to),
        ),
    decreases to - from,
{
    let rows = to_rows(samples, false);
    if from < to {
        lemma_ticks_are_dts(samples, from, to - 1);
        assert(rows.subrange(from, to).drop_last() =~= rows.subrange(from, to - 1));
    }
}

/// The duration that the playlist gives a segment of a built index is the
/// distance from its base time to that of the next one: playlist and segments
/// agree on the timeline.
pub proof fn law_durations_lead_from_segment_to_segment(
    src: Seq<u8>,
    source_len: u64,
    nominal: SegmentDuration,
    k: int,
)
    requires
        index_of(src, source_len, nominal) is Ok,
        0 <= k < index_of(src, source_len, nominal)->Ok_0.segments.len() - 1,
    ensures
        ({
            let index = index_of(src, source_len, nominal)->Ok_0;
            let ticks = video_ticks(index.segments[k], index.video_samples);
            &&& ticks is Ok
            &&& index.segments[k].video_base_dts + ticks->Ok_0 == index.segments[k
                + 1].video_base_dts
        }),
{
    let cut = cut_tracks(src, source_len, nominal)->Ok_0;
    lemma_cut_index(src, source_len, nominal);
    let tracks = Tracks {
        video: cut.video,
        audio: cut.audio,
        video_timescale: cut.moov.video.timescale,
        audio_timescale: cut.moov.audio.timescale,
        nominal_ticks: nominal.spec_ticks(cut.moov.video.timescale),
    };
    lemma_all_ticks_ok(cut.segments, to_rows(cut.video, false), k);
    lemma_timeline(tracks, nominal, cut.segments, k);
}

/// An index holds the segments and the video rows that its source was cut
/// into, and all their durations can be summed up.
proof fn lemma_cut_index(src: Seq<u8>, source_len: u64, nominal: SegmentDuration)
    requires
        index_of(src, source_len, nominal) is Ok,
    ensures
        ({
            let index = index_of(src, source_len, nominal)->Ok_0;
            let cut = cut_tracks(src, source_len, nominal)->Ok_0;
            &&& cut_tracks(src, source_len, nominal) is Ok
            &&& index.segments == cut.segments
            &&& index.video_samples == to_rows(cut.video, false)
            &&& all_ticks(index.segments, index.video_samples) is Ok
            &&& segments_of(
                cut.video,
                cut.audio,
                cut.moov.video.timescale,
                cut.moov.audio.timescale,
                nominal,
            ) == Ok::<_, PackagerError>(cut.segments)
        }),
{
}

/// The durations of a cut lead from segment to segment.
proof fn lemma_timeline(
    tracks: Tracks,
    nominal: SegmentDuration,
    s: Seq<SegmentEntry>,
    k: int,
)
    requires
        splits_into(tracks, nominal, s),
        0 <= k < s.len() - 1,
        video_ticks(s[k], to_rows(tracks.video, false)) is Ok,
    ensures
        s[k].video_base_dts + video_ticks(s[k], to_rows(tracks.video, false))->Ok_0 == s[k
            + 1].video_base_dts,
{
    law_segments_partition_both_tracks(tracks, nominal, s);
    law_segments_start_at_sync_samples(tracks, nominal, s, k);
    law_segments_start_at_sync_samples(tracks, nominal, s, k + 1);
    let v0 = s[k].video_sample_start as int;
    let v1 = s[k + 1].video_sample_start as int;
    assert(v0 + s[k].video_sample_count == v1);
    let rows = to_rows(tracks.video, false);
    assert(v1 <= rows.len());
    lemma_ticks_are_dts(tracks.video, v0, v1);
}

/// Where all durations can be summed up, each can.
proof fn lemma_all_ticks_ok(segments: Seq<SegmentEntry>, samples: Seq<SampleEntry>, k: int)
    requires
        all_ticks(segments, samples) is Ok,
        0 <= k < segments.len(),
    ensures
        video_ticks(segments[k], samples) is Ok,
    decreases segments.len(),
{
    if k < segments.len() - 1 {
        lemma_all_ticks_ok(segments.drop_last(), samples, k);
    }
}

/// Rows of a built index are canonical: the reserved bits of the flags are
/// clear, and audio rows have no composition offset.
pub proof fn law_built_rows_are_canonical(src: Seq<u8>, source_len: u64, nominal: SegmentDuration)
    requires
        index_of(src, source_len, nominal) is Ok,
    ensures
        ({
            let index = index_of(src, source_len, nominal)->Ok_0;
            &&& forall|i: int|
                0 <= i < index.video_samples.len() ==> (#[trigger] index.video_samples[i]).flags
                    <= 1
            &&& forall|i: int|
                0 <= i < index.audio_samples.len() ==> (#[trigger] index.audio_samples[i]).flags
                    <= 1 && index.audio_samples[i].cts_offset == 0
        }),
{
}

} // verus!
