//! Validated view over an `.idx` byte image.
//!
//! [`IndexView::open`] validates the header magic, the section directory
//! (offsets, alignment, uniqueness, `section_count` bound) and the framing of
//! every section before it hands out anything. What an image holds is stated
//! by [`opened`].
//!
//! [`IndexView::from_parts`] is the constructor for parts that are already at
//! hand, used by the builder before the byte image is laid out.

use vstd::prelude::*;

use crate::bytes::{be_u32_at, be_u64_at, u32_at, u64_at};
use crate::error::{source_failed, PackagerError};
use crate::index::format::{
    read_sample_row, read_segment_row, sample_row_at, segment_row_at, SampleEntry, SegmentEntry,
    HEADER_FIXED_LEN, KIND_AUDIO_SAMPLE_TABLE, KIND_AUDIO_TRACK_META, KIND_INIT_SEGMENT_BYTES,
    KIND_PLAYLIST_BYTES, KIND_SEGMENT_TABLE, KIND_VIDEO_SAMPLE_TABLE, KIND_VIDEO_TRACK_META, MAGIC,
    MAX_SECTIONS, SECTION_DIR_ENTRY_LEN,
};

verus! {

/// Per-track video metadata.
#[derive(Debug, Clone, Copy)]
pub struct VideoTrackMeta<'a> {
    pub timescale: u32,
    pub fourcc: [u8; 4],
    pub width: u32,
    pub height: u32,
    /// Verbatim bytes of the video sample-entry box (`avc1` / `hvc1` /
    /// `hev1`), with the codec-config child and any siblings.
    pub sample_entry: &'a [u8],
    /// Verbatim bytes of the entire `edts` box; empty if the input had no
    /// edit list.
    pub elst: &'a [u8],
}

/// Per-track audio metadata.
#[derive(Debug, Clone, Copy)]
pub struct AudioTrackMeta<'a> {
    pub timescale: u32,
    pub fourcc: [u8; 4],
    pub sample_rate: u32,
    pub channel_count: u8,
    pub sample_entry: &'a [u8],
    pub elst: &'a [u8],
}

/// What the metadata of a video track says.
pub ghost struct VideoModel {
    pub timescale: u32,
    pub fourcc: Seq<u8>,
    pub width: u32,
    pub height: u32,
    pub sample_entry: Seq<u8>,
    pub elst: Seq<u8>,
}

/// What the metadata of an audio track says.
pub ghost struct AudioModel {
    pub timescale: u32,
    pub fourcc: Seq<u8>,
    pub sample_rate: u32,
    pub channel_count: u8,
    pub sample_entry: Seq<u8>,
    pub elst: Seq<u8>,
}

/// What an index holds.
pub ghost struct IndexModel {
    pub max_segment_size: u32,
    pub source_mp4_len: u64,
    pub source_mp4_blake3: Seq<u8>,
    pub video_track: VideoModel,
    pub audio_track: AudioModel,
    pub video_samples: Seq<SampleEntry>,
    pub audio_samples: Seq<SampleEntry>,
    pub segments: Seq<SegmentEntry>,
    pub init_segment: Seq<u8>,
    pub playlist: Option<Seq<u8>>,
}

impl<'a> View for VideoTrackMeta<'a> {
    type V = VideoModel;

    open spec fn view(&self) -> VideoModel {
        VideoModel {
            timescale: self.timescale,
            fourcc: self.fourcc@,
            width: self.width,
            height: self.height,
            sample_entry: self.sample_entry@,
            elst: self.elst@,
        }
    }
}

impl<'a> View for AudioTrackMeta<'a> {
    type V = AudioModel;

    open spec fn view(&self) -> AudioModel {
        AudioModel {
            timescale: self.timescale,
            fourcc: self.fourcc@,
            sample_rate: self.sample_rate,
            channel_count: self.channel_count,
            sample_entry: self.sample_entry@,
            elst: self.elst@,
        }
    }
}

/// A section that is missing or cannot be read.
pub open spec fn bad_section<T>(reason: &'static str) -> Result<T, PackagerError> {
    Err(PackagerError::MalformedIndexSection(reason))
}

/// The number of sections that an image declares.
pub open spec fn section_count(bytes: Seq<u8>) -> int {
    be_u32_at(bytes, 48) as int
}

/// Where the directory ends and the first section starts.
pub open spec fn header_end(count: int) -> int {
    HEADER_FIXED_LEN + count * SECTION_DIR_ENTRY_LEN
}

/// The kind of directory entry `i`.
pub open spec fn dir_kind(bytes: Seq<u8>, i: int) -> u32 {
    be_u32_at(bytes, header_end(i))
}

/// The zero word of directory entry `i`.
pub open spec fn dir_pad(bytes: Seq<u8>, i: int) -> u32 {
    be_u32_at(bytes, header_end(i) + 4)
}

/// The offset of directory entry `i`.
pub open spec fn dir_offset(bytes: Seq<u8>, i: int) -> u64 {
    be_u64_at(bytes, header_end(i) + 8)
}

/// The section directory of an image: kind and offset of each section.
pub open spec fn directory(bytes: Seq<u8>) -> Seq<(u32, u64)> {
    Seq::new(
        section_count(bytes) as nat,
        |i: int| (dir_kind(bytes, i), dir_offset(bytes, i)),
    )
}

/// The offset of entry `i` is past that of the entry before it.
pub open spec fn ascends_at(entries: Seq<(u32, u64)>, i: int) -> bool {
    entries[i - 1].1 < entries[i].1
}

/// The section offsets ascend strictly.
pub open spec fn offsets_ascend(entries: Seq<(u32, u64)>) -> bool {
    forall|i: int| 0 < i < entries.len() ==> #[trigger] ascends_at(entries, i)
}

/// Every section offset is a multiple of 8.
pub open spec fn offsets_aligned(entries: Seq<(u32, u64)>) -> bool {
    forall|i: int| 0 <= i < entries.len() ==> (#[trigger] entries[i]).1 % 8 == 0
}

/// No section kind occurs twice.
pub open spec fn kinds_distinct(entries: Seq<(u32, u64)>) -> bool {
    forall|i: int, j: int|
        0 <= i < j < entries.len() ==> (#[trigger] entries[i]).0 != (#[trigger] entries[j]).0
}

/// What is wrong with a directory: the offsets must start at `first`, ascend,
/// stay within `len` bytes and be aligned, and no kind may occur twice.
pub open spec fn entries_fault(entries: Seq<(u32, u64)>, first: int, len: int) -> Option<
    PackagerError,
> {
    if entries[0].1 != first {
        Some(
            PackagerError::MalformedIndexDirectory(
                "first section offset does not equal header end",
            ),
        )
    } else if !offsets_ascend(entries) {
        Some(PackagerError::MalformedIndexDirectory("section offsets must be strictly ascending"))
    } else if entries.last().1 > len {
        Some(PackagerError::MalformedIndexDirectory("last section offset exceeds file length"))
    } else if !offsets_aligned(entries) {
        Some(PackagerError::MalformedIndexDirectory("section offset is not 8-byte aligned"))
    } else if !kinds_distinct(entries) {
        Some(PackagerError::MalformedIndexDirectory("duplicate section kind"))
    } else {
        None
    }
}

/// What is wrong with the header or the directory of an image.
pub open spec fn directory_fault(bytes: Seq<u8>) -> Option<PackagerError> {
    let count = section_count(bytes);
    if bytes.len() < HEADER_FIXED_LEN {
        Some(PackagerError::MalformedIndexDirectory("file shorter than fixed header"))
    } else if be_u32_at(bytes, 0) != MAGIC {
        Some(PackagerError::IndexMagicMismatch)
    } else if be_u32_at(bytes, 52) != 0 {
        Some(PackagerError::MalformedIndexDirectory("reserved word at offset 52 is nonzero"))
    } else if count > MAX_SECTIONS {
        Some(PackagerError::MalformedIndexDirectory("section_count exceeds MAX_SECTIONS"))
    } else if count == 0 {
        Some(PackagerError::MalformedIndexDirectory("section_count is zero"))
    } else if bytes.len() < header_end(count) {
        Some(PackagerError::MalformedIndexDirectory("directory truncated"))
    } else if exists|i: int| 0 <= i < count && #[trigger] dir_pad(bytes, i) != 0 {
        Some(PackagerError::MalformedIndexDirectory("section directory _pad word is nonzero"))
    } else {
        entries_fault(directory(bytes), header_end(count), bytes.len() as int)
    }
}

/// The first directory entry from `i` on with the given kind, or the number
/// of entries.
pub open spec fn find_section(bytes: Seq<u8>, kind: u32, i: int) -> int
    decreases section_count(bytes) - i,
{
    if i >= section_count(bytes) || dir_kind(bytes, i) == kind {
        i
    } else {
        find_section(bytes, kind, i + 1)
    }
}

/// Where section `i` ends: where the next one starts, or with the image.
pub open spec fn section_end(bytes: Seq<u8>, i: int) -> int {
    if i + 1 < section_count(bytes) {
        dir_offset(bytes, i + 1) as int
    } else {
        bytes.len() as int
    }
}

/// The payload of the section of the given kind.
pub open spec fn section(bytes: Seq<u8>, kind: u32) -> Option<Seq<u8>> {
    let i = find_section(bytes, kind, 0);
    if i < section_count(bytes) {
        Some(bytes.subrange(dir_offset(bytes, i) as int, section_end(bytes, i)))
    } else {
        None
    }
}

/// A text by track.
pub open spec fn pick(video: bool, a: &'static str, b: &'static str) -> &'static str {
    if video {
        a
    } else {
        b
    }
}

/// The sample entry and the edit list of a track-metadata section. Each is a
/// length-prefixed blob; at most 7 zero bytes may follow.
pub open spec fn meta_blobs(payload: Seq<u8>, video: bool) -> Result<
    (Seq<u8>, Seq<u8>),
    PackagerError,
> {
    let entry_end = 20 + be_u32_at(payload, 16);
    let elst_end = entry_end + 4 + be_u32_at(payload, entry_end);
    if entry_end > usize::MAX {
        bad_section(
            pick(
                video,
                "VideoTrackMeta sample_entry_size overflows usize",
                "AudioTrackMeta sample_entry_size overflows usize",
            ),
        )
    } else if payload.len() < entry_end + 4 {
        bad_section(
            pick(
                video,
                "VideoTrackMeta truncated before elst_size",
                "AudioTrackMeta truncated before elst_size",
            ),
        )
    } else if elst_end > usize::MAX {
        bad_section(
            pick(
                video,
                "VideoTrackMeta elst_size overflows usize",
                "AudioTrackMeta elst_size overflows usize",
            ),
        )
    } else if payload.len() < elst_end {
        bad_section(
            pick(
                video,
                "VideoTrackMeta truncated before elst end",
                "AudioTrackMeta truncated before elst end",
            ),
        )
    } else if payload.len() - elst_end >= 8 {
        bad_section(
            pick(
                video,
                "VideoTrackMeta has non-canonical trailing padding",
                "AudioTrackMeta has non-canonical trailing padding",
            ),
        )
    } else if exists|i: int| elst_end <= i < payload.len() && #[trigger] payload[i] != 0 {
        bad_section(
            pick(
                video,
                "VideoTrackMeta trailing padding is nonzero",
                "AudioTrackMeta trailing padding is nonzero",
            ),
        )
    } else {
        Ok((payload.subrange(20, entry_end), payload.subrange(entry_end + 4, elst_end)))
    }
}

/// The metadata of the video track.
pub open spec fn video_meta(payload: Seq<u8>) -> Result<VideoModel, PackagerError> {
    if payload.len() < 20 {
        bad_section("VideoTrackMeta truncated before sample_entry_size")
    } else {
        match meta_blobs(payload, true) {
            Err(e) => Err(e),
            Ok((sample_entry, elst)) => Ok(
                VideoModel {
                    timescale: be_u32_at(payload, 0),
                    fourcc: payload.subrange(4, 8),
                    width: be_u32_at(payload, 8),
                    height: be_u32_at(payload, 12),
                    sample_entry,
                    elst,
                },
            ),
        }
    }
}

/// The metadata of the audio track.
pub open spec fn audio_meta(payload: Seq<u8>) -> Result<AudioModel, PackagerError> {
    if payload.len() < 20 {
        bad_section("AudioTrackMeta truncated before sample_entry_size")
    } else if payload[13] != 0 || payload[14] != 0 || payload[15] != 0 {
        bad_section("AudioTrackMeta padding bytes are nonzero")
    } else {
        match meta_blobs(payload, false) {
            Err(e) => Err(e),
            Ok((sample_entry, elst)) => Ok(
                AudioModel {
                    timescale: be_u32_at(payload, 0),
                    fourcc: payload.subrange(4, 8),
                    sample_rate: be_u32_at(payload, 8),
                    channel_count: payload[12],
                    sample_entry,
                    elst,
                },
            ),
        }
    }
}

/// The rows of a sample-table section.
pub open spec fn sample_rows(payload: Seq<u8>, video: bool) -> Result<
    Seq<SampleEntry>,
    PackagerError,
> {
    let n = be_u32_at(payload, 0);
    if payload.len() < 8 {
        bad_section(
            pick(
                video,
                "VideoSampleTable shorter than 8-byte prefix",
                "AudioSampleTable shorter than 8-byte prefix",
            ),
        )
    } else if be_u32_at(payload, 4) != 0 {
        bad_section(
            pick(
                video,
                "VideoSampleTable padding word is nonzero",
                "AudioSampleTable padding word is nonzero",
            ),
        )
    } else if n * 24 > usize::MAX {
        bad_section(
            pick(
                video,
                "VideoSampleTable n_samples overflows usize",
                "AudioSampleTable n_samples overflows usize",
            ),
        )
    } else if payload.len() - 8 != n * 24 {
        bad_section(
            pick(
                video,
                "VideoSampleTable body length disagrees with n_samples",
                "AudioSampleTable body length disagrees with n_samples",
            ),
        )
    } else {
        Ok(Seq::new(n as nat, |i: int| sample_row_at(payload, 8 + 24 * i)))
    }
}

/// The rows of the segment-table section.
pub open spec fn segment_rows(payload: Seq<u8>) -> Result<Seq<SegmentEntry>, PackagerError> {
    let n = be_u32_at(payload, 0);
    if payload.len() < 8 {
        bad_section("SegmentTable shorter than 8-byte prefix")
    } else if be_u32_at(payload, 4) != 0 {
        bad_section("SegmentTable padding word is nonzero")
    } else if n * 32 > usize::MAX {
        bad_section("SegmentTable n_segments overflows usize")
    } else if payload.len() - 8 != n * 32 {
        bad_section("SegmentTable body length disagrees with n_segments")
    } else {
        Ok(Seq::new(n as nat, |i: int| segment_row_at(payload, 8 + 32 * i)))
    }
}

/// The payloads of the sections that an index must hold.
pub ghost struct Sections {
    pub video_meta: Seq<u8>,
    pub audio_meta: Seq<u8>,
    pub video_samples: Seq<u8>,
    pub audio_samples: Seq<u8>,
    pub segments: Seq<u8>,
    pub init_segment: Seq<u8>,
}

/// Finds the required sections; the first that is missing decides the error.
pub open spec fn required_sections(bytes: Seq<u8>) -> Result<Sections, PackagerError> {
    match section(bytes, KIND_VIDEO_TRACK_META) {
        None => bad_section("missing VideoTrackMeta section"),
        Some(video_meta) => match section(bytes, KIND_AUDIO_TRACK_META) {
            None => bad_section("missing AudioTrackMeta section"),
            Some(audio_meta) => match section(bytes, KIND_VIDEO_SAMPLE_TABLE) {
                None => bad_section("missing VideoSampleTable section"),
                Some(video_samples) => match section(bytes, KIND_AUDIO_SAMPLE_TABLE) {
                    None => bad_section("missing AudioSampleTable section"),
                    Some(audio_samples) => match section(bytes, KIND_SEGMENT_TABLE) {
                        None => bad_section("missing SegmentTable section"),
                        Some(segments) => match section(bytes, KIND_INIT_SEGMENT_BYTES) {
                            None => bad_section("missing InitSegmentBytes section"),
                            Some(init_segment) => Ok(
                                Sections {
                                    video_meta,
                                    audio_meta,
                                    video_samples,
                                    audio_samples,
                                    segments,
                                    init_segment,
                                },
                            ),
                        },
                    },
                },
            },
        },
    }
}

/// What the sections say; the first that cannot be read decides the error.
pub open spec fn sections_model(bytes: Seq<u8>, s: Sections) -> Result<IndexModel, PackagerError> {
    match video_meta(s.video_meta) {
        Err(e) => Err(e),
        Ok(video_track) => match audio_meta(s.audio_meta) {
            Err(e) => Err(e),
            Ok(audio_track) => match sample_rows(s.video_samples, true) {
                Err(e) => Err(e),
                Ok(video_samples) => match sample_rows(s.audio_samples, false) {
                    Err(e) => Err(e),
                    Ok(audio_samples) => match segment_rows(s.segments) {
                        Err(e) => Err(e),
                        Ok(segments) => Ok(
                            IndexModel {
                                max_segment_size: be_u32_at(bytes, 4),
                                source_mp4_len: be_u64_at(bytes, 8),
                                source_mp4_blake3: bytes.subrange(16, 48),
                                video_track,
                                audio_track,
                                video_samples,
                                audio_samples,
                                segments,
                                init_segment: s.init_segment,
                                playlist: section(bytes, KIND_PLAYLIST_BYTES),
                            },
                        ),
                    },
                },
            },
        },
    }
}

/// What an `.idx` byte image holds, or why it is not one.
pub open spec fn opened(bytes: Seq<u8>) -> Result<IndexModel, PackagerError> {
    match directory_fault(bytes) {
        Some(e) => Err(e),
        None => match required_sections(bytes) {
            Err(e) => Err(e),
            Ok(s) => sections_model(bytes, s),
        },
    }
}

/// What an `.idx` byte image holds, where `aligned` says whether it lies in
/// memory at an address that its rows can lie at too. Sections start at
/// multiples of 8, so all tables share the answer, and the first one read, the
/// video sample table, is refused where it is no.
pub open spec fn opened_at(bytes: Seq<u8>, aligned: bool) -> Result<IndexModel, PackagerError> {
    match directory_fault(bytes) {
        Some(e) => Err(e),
        None => match required_sections(bytes) {
            Err(e) => Err(e),
            Ok(s) => if !aligned && video_meta(s.video_meta) is Ok && audio_meta(s.audio_meta) is Ok
                && sample_rows(s.video_samples, true) is Ok {
                bad_section("VideoSampleTable rows misaligned for SampleEntry")
            } else {
                sections_model(bytes, s)
            },
        },
    }
}

/// Validated view over an `.idx` byte image.
#[derive(Debug)]
pub struct IndexView<'a> {
    max_segment_size: u32,
    source_mp4_len: u64,
    source_mp4_blake3: [u8; 32],
    video_track: VideoTrackMeta<'a>,
    audio_track: AudioTrackMeta<'a>,
    video_samples: Vec<SampleEntry>,
    audio_samples: Vec<SampleEntry>,
    segments: Vec<SegmentEntry>,
    init_segment_bytes: &'a [u8],
    playlist_bytes: Option<&'a [u8]>,
}

impl<'a> View for IndexView<'a> {
    type V = IndexModel;

    closed spec fn view(&self) -> IndexModel {
        IndexModel {
            max_segment_size: self.max_segment_size,
            source_mp4_len: self.source_mp4_len,
            source_mp4_blake3: self.source_mp4_blake3@,
            video_track: self.video_track@,
            audio_track: self.audio_track@,
            video_samples: self.video_samples@,
            audio_samples: self.audio_samples@,
            segments: self.segments@,
            init_segment: self.init_segment_bytes@,
            playlist: match self.playlist_bytes {
                Some(p) => Some(p@),
                None => None,
            },
        }
    }
}

/// The model of a view that a function returned.
pub open spec fn ok_view(r: Result<IndexView<'_>, PackagerError>) -> Result<
    IndexModel,
    PackagerError,
> {
    match r {
        Ok(view) => Ok(view@),
        Err(e) => Err(e),
    }
}

impl<'a> IndexView<'a> {
    /// An index counts its segments in 32 bits.
    #[verifier::type_invariant]
    spec fn counted(self) -> bool {
        self.segments@.len() <= u32::MAX
    }

    /// The view of parts that are already at hand.
    pub fn from_parts(
        max_segment_size: u32,
        source_mp4_len: u64,
        source_mp4_blake3: [u8; 32],
        video_track: VideoTrackMeta<'a>,
        audio_track: AudioTrackMeta<'a>,
        video_samples: Vec<SampleEntry>,
        audio_samples: Vec<SampleEntry>,
        segments: Vec<SegmentEntry>,
        init_segment_bytes: &'a [u8],
        playlist_bytes: Option<&'a [u8]>,
    ) -> (r: IndexView<'a>)
        requires
            segments@.len() <= u32::MAX,
        ensures
            r@ == (IndexModel {
                max_segment_size,
                source_mp4_len,
                source_mp4_blake3: source_mp4_blake3@,
                video_track: video_track@,
                audio_track: audio_track@,
                video_samples: video_samples@,
                audio_samples: audio_samples@,
                segments: segments@,
                init_segment: init_segment_bytes@,
                playlist: match playlist_bytes {
                    Some(p) => Some(p@),
                    None => None,
                },
            }),
    {
        IndexView {
            max_segment_size,
            source_mp4_len,
            source_mp4_blake3,
            video_track,
            audio_track,
            video_samples,
            audio_samples,
            segments,
            init_segment_bytes,
            playlist_bytes,
        }
    }

    /// Size in bytes of the largest media segment.
    pub fn max_segment_size(&self) -> (r: u32)
        ensures
            r == self@.max_segment_size,
    {
        self.max_segment_size
    }

    /// Length in bytes of the source MP4.
    pub fn source_mp4_len(&self) -> (r: u64)
        ensures
            r == self@.source_mp4_len,
    {
        self.source_mp4_len
    }

    /// BLAKE3-256 digest of the source MP4.
    pub fn source_mp4_blake3(&self) -> (r: &[u8; 32])
        ensures
            r@ == self@.source_mp4_blake3,
    {
        &self.source_mp4_blake3
    }

    /// Metadata of the video track.
    pub fn video_track(&self) -> (r: VideoTrackMeta<'a>)
        ensures
            r@ == self@.video_track,
    {
        self.video_track
    }

    /// Metadata of the audio track.
    pub fn audio_track(&self) -> (r: AudioTrackMeta<'a>)
        ensures
            r@ == self@.audio_track,
    {
        self.audio_track
    }

    /// Rows of the video samples.
    pub fn video_samples(&self) -> (r: &[SampleEntry])
        ensures
            r@ == self@.video_samples,
    {
        self.video_samples.as_slice()
    }

    /// Rows of the audio samples.
    pub fn audio_samples(&self) -> (r: &[SampleEntry])
        ensures
            r@ == self@.audio_samples,
    {
        self.audio_samples.as_slice()
    }

    /// Rows of the segments.
    pub fn segments(&self) -> (r: &[SegmentEntry])
        ensures
            r@ == self@.segments,
    {
        self.segments.as_slice()
    }

    /// Number of segments.
    pub fn segment_count(&self) -> (r: u32)
        ensures
            r == self@.segments.len(),
    {
        proof {
            use_type_invariant(self);
        }
        self.segments.len() as u32
    }

    /// The rendered init segment.
    pub fn init_segment_bytes(&self) -> (r: &'a [u8])
        ensures
            r@ == self@.init_segment,
    {
        self.init_segment_bytes
    }

    /// The rendered media playlist, if the index holds one.
    pub fn playlist_bytes(&self) -> (r: Option<&'a [u8]>)
        ensures
            r is Some <==> self@.playlist is Some,
            r matches Some(p) ==> Some(p@) == self@.playlist,
    {
        self.playlist_bytes
    }
}

/// Picks a text by track.
fn pick_text(video: bool, a: &'static str, b: &'static str) -> (r: &'static str)
    ensures
        r == pick(video, a, b),
{
    if video {
        a
    } else {
        b
    }
}

/// Rejects more than 7 bytes after the last blob, and any that is not zero.
fn validate_trailing_padding(payload: &[u8], at: usize, video: bool) -> (r: Result<
    (),
    PackagerError,
>)
    requires
        at <= payload.len(),
    ensures
        r == if payload@.len() - at >= 8 {
            bad_section(
                pick(
                    video,
                    "VideoTrackMeta has non-canonical trailing padding",
                    "AudioTrackMeta has non-canonical trailing padding",
                ),
            )
        } else if exists|i: int| at <= i < payload@.len() && #[trigger] payload@[i] != 0 {
            bad_section(
                pick(
                    video,
                    "VideoTrackMeta trailing padding is nonzero",
                    "AudioTrackMeta trailing padding is nonzero",
                ),
            )
        } else {
            Ok(())
        },
{
    if payload.len() - at >= 8 {
        return Err(
            PackagerError::MalformedIndexSection(
                pick_text(
                    video,
                    "VideoTrackMeta has non-canonical trailing padding",
                    "AudioTrackMeta has non-canonical trailing padding",
                ),
            ),
        );
    }
    let mut i: usize = at;
    while i < payload.len()
        invariant
            at <= i <= payload@.len(),
            payload@.len() - at < 8,
            forall|k: int| at <= k < i ==> #[trigger] payload@[k] == 0,
        decreases payload@.len() - i,
    {
        if payload[i] != 0 {
            return Err(
                PackagerError::MalformedIndexSection(
                    pick_text(
                        video,
                        "VideoTrackMeta trailing padding is nonzero",
                        "AudioTrackMeta trailing padding is nonzero",
                    ),
                ),
            );
        }
        i += 1;
    }
    Ok(())
}

/// Reads the two blobs of a track-metadata section.
fn parse_meta_blobs<'a>(payload: &'a [u8], video: bool) -> (r: Result<
    (&'a [u8], &'a [u8]),
    PackagerError,
>)
    requires
        payload@.len() >= 20,
    ensures
        match r {
            Ok((entry, elst)) => meta_blobs(payload@, video) == Ok::<_, PackagerError>(
                (entry@, elst@),
            ),
            Err(e) => meta_blobs(payload@, video) == Err::<(Seq<u8>, Seq<u8>), _>(e),
        },
{
    let entry_size: usize = u32_at(payload, 16) as usize;
    let entry_end: usize = match entry_size.checked_add(20) {
        Some(end) => end,
        None => {
            return Err(
                PackagerError::MalformedIndexSection(
                    pick_text(
                        video,
                        "VideoTrackMeta sample_entry_size overflows usize",
                        "AudioTrackMeta sample_entry_size overflows usize",
                    ),
                ),
            );
        },
    };
    if payload.len() < 4 || payload.len() - 4 < entry_end {
        return Err(
            PackagerError::MalformedIndexSection(
                pick_text(
                    video,
                    "VideoTrackMeta truncated before elst_size",
                    "AudioTrackMeta truncated before elst_size",
                ),
            ),
        );
    }
    let elst_size: usize = u32_at(payload, entry_end) as usize;
    let elst_start: usize = entry_end + 4;
    let elst_end: usize = match elst_start.checked_add(elst_size) {
        Some(end) => end,
        None => {
            return Err(
                PackagerError::MalformedIndexSection(
                    pick_text(
                        video,
                        "VideoTrackMeta elst_size overflows usize",
                        "AudioTrackMeta elst_size overflows usize",
                    ),
                ),
            );
        },
    };
    if payload.len() < elst_end {
        return Err(
            PackagerError::MalformedIndexSection(
                pick_text(
                    video,
                    "VideoTrackMeta truncated before elst end",
                    "AudioTrackMeta truncated before elst end",
                ),
            ),
        );
    }
    validate_trailing_padding(payload, elst_end, video)?;
    Ok((&payload[20..entry_end], &payload[elst_start..elst_end]))
}

/// The four bytes at `at`.
fn four_bytes(payload: &[u8], at: usize) -> (r: [u8; 4])
    requires
        at + 4 <= payload.len(),
    ensures
        r@ == payload@.subrange(at as int, at + 4),
{
    let r: [u8; 4] = [payload[at], payload[at + 1], payload[at + 2], payload[at + 3]];
    assert(r@ =~= payload@.subrange(at as int, at + 4));
    r
}

/// Reads a video track-metadata section.
pub fn parse_video_meta<'a>(payload: &'a [u8]) -> (r: Result<VideoTrackMeta<'a>, PackagerError>)
    ensures
        match r {
            Ok(meta) => video_meta(payload@) == Ok::<_, PackagerError>(meta@),
            Err(e) => video_meta(payload@) == Err::<VideoModel, _>(e),
        },
{
    if payload.len() < 20 {
        return Err(
            PackagerError::MalformedIndexSection(
                "VideoTrackMeta truncated before sample_entry_size",
            ),
        );
    }
    let (sample_entry, elst) = parse_meta_blobs(payload, true)?;
    Ok(
        VideoTrackMeta {
            timescale: u32_at(payload, 0),
            fourcc: four_bytes(payload, 4),
            width: u32_at(payload, 8),
            height: u32_at(payload, 12),
            sample_entry,
            elst,
        },
    )
}

/// Reads an audio track-metadata section.
///
/// Layout: timescale(4) + fourcc(4) + sample_rate(4) + channel_count(1) +
/// pad(3) + sample_entry_size(4) + sample_entry + elst_size(4) + elst.
pub fn parse_audio_meta<'a>(payload: &'a [u8]) -> (r: Result<AudioTrackMeta<'a>, PackagerError>)
    ensures
        match r {
            Ok(meta) => audio_meta(payload@) == Ok::<_, PackagerError>(meta@),
            Err(e) => audio_meta(payload@) == Err::<AudioModel, _>(e),
        },
{
    if payload.len() < 20 {
        return Err(
            PackagerError::MalformedIndexSection(
                "AudioTrackMeta truncated before sample_entry_size",
            ),
        );
    }
    if payload[13] != 0 || payload[14] != 0 || payload[15] != 0 {
        return Err(
            PackagerError::MalformedIndexSection("AudioTrackMeta padding bytes are nonzero"),
        );
    }
    let (sample_entry, elst) = parse_meta_blobs(payload, false)?;
    Ok(
        AudioTrackMeta {
            timescale: u32_at(payload, 0),
            fourcc: four_bytes(payload, 4),
            sample_rate: u32_at(payload, 8),
            channel_count: payload[12],
            sample_entry,
            elst,
        },
    )
}

/// Reads the rows of a sample-table section.
pub fn parse_sample_table(payload: &[u8], video: bool) -> (r: Result<
    Vec<SampleEntry>,
    PackagerError,
>)
    ensures
        match r {
            Ok(rows) => sample_rows(payload@, video) == Ok::<_, PackagerError>(rows@),
            Err(e) => sample_rows(payload@, video) == Err::<Seq<SampleEntry>, _>(e),
        },
{
    if payload.len() < 8 {
        return Err(
            PackagerError::MalformedIndexSection(
                pick_text(
                    video,
                    "VideoSampleTable shorter than 8-byte prefix",
                    "AudioSampleTable shorter than 8-byte prefix",
                ),
            ),
        );
    }
    let n: usize = u32_at(payload, 0) as usize;
    if u32_at(payload, 4) != 0 {
        return Err(
            PackagerError::MalformedIndexSection(
                pick_text(
                    video,
                    "VideoSampleTable padding word is nonzero",
                    "AudioSampleTable padding word is nonzero",
                ),
            ),
        );
    }
    let expected_len: usize = match n.checked_mul(24) {
        Some(len) => len,
        None => {
            return Err(
                PackagerError::MalformedIndexSection(
                    pick_text(
                        video,
                        "VideoSampleTable n_samples overflows usize",
                        "AudioSampleTable n_samples overflows usize",
                    ),
                ),
            );
        },
    };
    if payload.len() - 8 != expected_len {
        return Err(
            PackagerError::MalformedIndexSection(
                pick_text(
                    video,
                    "VideoSampleTable body length disagrees with n_samples",
                    "AudioSampleTable body length disagrees with n_samples",
                ),
            ),
        );
    }
    let mut rows: Vec<SampleEntry> = Vec::with_capacity(n);
    let mut i: usize = 0;
    while i < n
        invariant
            0 <= i <= n,
            payload.len() == 8 + n * 24,
            rows@ =~= Seq::new(i as nat, |k: int| sample_row_at(payload@, 8 + 24 * k)),
        decreases n - i,
    {
        rows.push(read_sample_row(payload, 8 + 24 * i));
        i += 1;
    }
    Ok(rows)
}

/// Reads the rows of the segment-table section.
pub fn parse_segment_table(payload: &[u8]) -> (r: Result<Vec<SegmentEntry>, PackagerError>)
    ensures
        match r {
            Ok(rows) => segment_rows(payload@) == Ok::<_, PackagerError>(rows@),
            Err(e) => segment_rows(payload@) == Err::<Seq<SegmentEntry>, _>(e),
        },
        r matches Ok(rows) ==> rows@.len() <= u32::MAX,
{
    if payload.len() < 8 {
        return Err(
            PackagerError::MalformedIndexSection("SegmentTable shorter than 8-byte prefix"),
        );
    }
    let n: usize = u32_at(payload, 0) as usize;
    if u32_at(payload, 4) != 0 {
        return Err(PackagerError::MalformedIndexSection("SegmentTable padding word is nonzero"));
    }
    let expected_len: usize = match n.checked_mul(32) {
        Some(len) => len,
        None => {
            return Err(
                PackagerError::MalformedIndexSection("SegmentTable n_segments overflows usize"),
            );
        },
    };
    if payload.len() - 8 != expected_len {
        return Err(
            PackagerError::MalformedIndexSection(
                "SegmentTable body length disagrees with n_segments",
            ),
        );
    }
    let mut rows: Vec<SegmentEntry> = Vec::with_capacity(n);
    let mut i: usize = 0;
    while i < n
        invariant
            0 <= i <= n,
            payload.len() == 8 + n * 32,
            rows@ =~= Seq::new(i as nat, |k: int| segment_row_at(payload@, 8 + 32 * k)),
        decreases n - i,
    {
        rows.push(read_segment_row(payload, 8 + 32 * i));
        i += 1;
    }
    Ok(rows)
}

/// Reads the entries of the directory, which follow the fixed header.
fn read_directory(bytes: &[u8], count: usize) -> (r: Result<Vec<(u32, u64)>, PackagerError>)
    requires
        count <= MAX_SECTIONS,
        count == section_count(bytes@),
        header_end(count as int) <= bytes.len(),
    ensures
        match r {
            Ok(entries) => entries@ == directory(bytes@) && forall|i: int|
                0 <= i < count ==> #[trigger] dir_pad(bytes@, i) == 0,
            Err(e) => {
                &&& e == PackagerError::MalformedIndexDirectory(
                    "section directory _pad word is nonzero",
                )
                &&& exists|i: int| 0 <= i < count && #[trigger] dir_pad(bytes@, i) != 0
            },
        },
{
    let mut entries: Vec<(u32, u64)> = Vec::with_capacity(count);
    let mut i: usize = 0;
    while i < count
        invariant
            0 <= i <= count <= MAX_SECTIONS,
            count == section_count(bytes@),
            header_end(count as int) <= bytes.len(),
            entries@ =~= directory(bytes@).take(i as int),
            forall|k: int| 0 <= k < i ==> #[trigger] dir_pad(bytes@, k) == 0,
        decreases count - i,
    {
        let pos: usize = HEADER_FIXED_LEN + i * SECTION_DIR_ENTRY_LEN;
        assert(pos == header_end(i as int));
        let pad: u32 = u32_at(bytes, pos + 4);
        if pad != 0 {
            assert(dir_pad(bytes@, i as int) != 0);
            return Err(
                PackagerError::MalformedIndexDirectory("section directory _pad word is nonzero"),
            );
        }
        entries.push((u32_at(bytes, pos), u64_at(bytes, pos + 8)));
        i += 1;
    }
    Ok(entries)
}

/// Whether the section offsets ascend strictly.
fn are_offsets_ascending(entries: &[(u32, u64)]) -> (r: bool)
    ensures
        r == offsets_ascend(entries@),
{
    let mut i: usize = 1;
    while i < entries.len()
        invariant
            1 <= i,
            forall|k: int| 0 < k < i && k < entries@.len() ==> #[trigger] ascends_at(entries@, k),
        decreases entries@.len() - i,
    {
        if entries[i].1 <= entries[i - 1].1 {
            assert(!ascends_at(entries@, i as int));
            return false;
        }
        i += 1;
    }
    true
}

/// Whether every section offset is a multiple of 8.
fn are_offsets_aligned(entries: &[(u32, u64)]) -> (r: bool)
    ensures
        r == offsets_aligned(entries@),
{
    let mut i: usize = 0;
    while i < entries.len()
        invariant
            0 <= i <= entries@.len(),
            forall|k: int| 0 <= k < i ==> (#[trigger] entries@[k]).1 % 8 == 0,
        decreases entries@.len() - i,
    {
        if entries[i].1 % 8 != 0 {
            return false;
        }
        i += 1;
    }
    true
}

/// Whether no section kind occurs twice.
fn are_kinds_distinct(entries: &[(u32, u64)]) -> (r: bool)
    ensures
        r == kinds_distinct(entries@),
{
    let mut i: usize = 0;
    while i < entries.len()
        invariant
            0 <= i <= entries@.len(),
            forall|k: int, l: int|
                0 <= k < i && k < l < entries@.len() ==> (#[trigger] entries@[k]).0 != (
                #[trigger] entries@[l]).0,
        decreases entries@.len() - i,
    {
        let mut j: usize = i + 1;
        while j < entries.len()
            invariant
                0 <= i < j <= entries@.len(),
                forall|l: int| i < l < j ==> entries@[i as int].0 != (#[trigger] entries@[l]).0,
            decreases entries@.len() - j,
        {
            if entries[i].0 == entries[j].0 {
                return false;
            }
            j += 1;
        }
        i += 1;
    }
    true
}

/// Checks the entries of a directory.
fn check_directory(entries: &[(u32, u64)], first: u64, len: u64) -> (r: Result<(), PackagerError>)
    requires
        entries@.len() > 0,
    ensures
        match r {
            Ok(_) => entries_fault(entries@, first as int, len as int) is None,
            Err(e) => entries_fault(entries@, first as int, len as int) == Some(e),
        },
{
    if entries[0].1 != first {
        return Err(
            PackagerError::MalformedIndexDirectory(
                "first section offset does not equal header end",
            ),
        );
    }
    if !are_offsets_ascending(entries) {
        return Err(
            PackagerError::MalformedIndexDirectory("section offsets must be strictly ascending"),
        );
    }
    if entries[entries.len() - 1].1 > len {
        return Err(
            PackagerError::MalformedIndexDirectory("last section offset exceeds file length"),
        );
    }
    if !are_offsets_aligned(entries) {
        return Err(PackagerError::MalformedIndexDirectory("section offset is not 8-byte aligned"));
    }
    if !are_kinds_distinct(entries) {
        return Err(PackagerError::MalformedIndexDirectory("duplicate section kind"));
    }
    Ok(())
}

/// In a sound directory every section lies within the image.
proof fn lemma_sections_in_image(bytes: Seq<u8>, i: int)
    requires
        directory_fault(bytes) is None,
        0 <= i < section_count(bytes),
    ensures
        header_end(section_count(bytes)) <= dir_offset(bytes, i) <= section_end(bytes, i)
            <= bytes.len(),
        i + 1 < section_count(bytes) ==> dir_offset(bytes, i) < section_end(bytes, i),
{
    lemma_offsets_ascend(bytes, 0, i);
    lemma_offsets_ascend(bytes, i, section_count(bytes) - 1);
    if i + 1 < section_count(bytes) {
        lemma_offsets_ascend(bytes, i, i + 1);
        lemma_offsets_ascend(bytes, i + 1, section_count(bytes) - 1);
    }
}

proof fn lemma_offsets_ascend(bytes: Seq<u8>, i: int, j: int)
    requires
        directory_fault(bytes) is None,
        0 <= i <= j < section_count(bytes),
    ensures
        i < j ==> dir_offset(bytes, i) < dir_offset(bytes, j),
    decreases j - i,
{
    if i < j {
        assert(ascends_at(directory(bytes), j));
        lemma_offsets_ascend(bytes, i, j - 1);
    }
}

/// Finds the payload of the section of the given kind.
fn section_payload<'a>(bytes: &'a [u8], entries: &[(u32, u64)], kind: u32) -> (r: Option<&'a [u8]>)
    requires
        directory_fault(bytes@) is None,
        entries@ == directory(bytes@),
    ensures
        r is Some <==> section(bytes@, kind) is Some,
        r matches Some(payload) ==> section(bytes@, kind) == Some(payload@),
{
    let count: usize = entries.len();
    let mut i: usize = 0;
    while i < count
        invariant
            0 <= i <= count,
            count == entries@.len(),
            directory_fault(bytes@) is None,
            entries@ == directory(bytes@),
            find_section(bytes@, kind, 0) == find_section(bytes@, kind, i as int),
        decreases count - i,
    {
        if entries[i].0 == kind {
            proof {
                lemma_sections_in_image(bytes@, i as int);
                assert(bytes@.len() == bytes.len());
                assert(entries@[i as int] == (dir_kind(bytes@, i as int), dir_offset(bytes@, i as int)));
            }
            let start: usize = entries[i].1 as usize;
            let end: usize = if i + 1 < count { entries[i + 1].1 as usize } else { bytes.len() };
            return Some(&bytes[start..end]);
        }
        i += 1;
    }
    None
}

/// Checks the header and the directory of an image and returns the directory.
#[verifier::rlimit(40)]
fn parse_directory(bytes: &[u8]) -> (r: Result<Vec<(u32, u64)>, PackagerError>)
    ensures
        match r {
            Ok(entries) => directory_fault(bytes@) is None && entries@ == directory(bytes@),
            Err(e) => directory_fault(bytes@) == Some(e),
        },
        r is Ok ==> bytes@.len() >= HEADER_FIXED_LEN,
{
    if bytes.len() < HEADER_FIXED_LEN {
        return Err(PackagerError::MalformedIndexDirectory("file shorter than fixed header"));
    }
    if u32_at(bytes, 0) != MAGIC {
        return Err(PackagerError::IndexMagicMismatch);
    }
    let count: usize = u32_at(bytes, 48) as usize;
    let reserved: u32 = u32_at(bytes, 52);
    if reserved != 0 {
        return Err(
            PackagerError::MalformedIndexDirectory("reserved word at offset 52 is nonzero"),
        );
    }
    if count > MAX_SECTIONS {
        return Err(PackagerError::MalformedIndexDirectory("section_count exceeds MAX_SECTIONS"));
    }
    if count == 0 {
        return Err(PackagerError::MalformedIndexDirectory("section_count is zero"));
    }
    let end: usize = HEADER_FIXED_LEN + count * SECTION_DIR_ENTRY_LEN;
    if bytes.len() < end {
        return Err(PackagerError::MalformedIndexDirectory("directory truncated"));
    }
    let entries: Vec<(u32, u64)> = read_directory(bytes, count)?;
    check_directory(entries.as_slice(), end as u64, bytes.len() as u64)?;
    Ok(entries)
}

/// The 32 bytes at `at`.
fn digest_at(bytes: &[u8], at: usize) -> (r: [u8; 32])
    requires
        at + 32 <= bytes.len(),
    ensures
        r@ == bytes@.subrange(at as int, at + 32),
{
    let mut digest = [0u8; 32];
    let mut i: usize = 0;
    while i < 32
        invariant
            0 <= i <= 32,
            at + 32 <= bytes.len(),
            forall|k: int| 0 <= k < i ==> digest@[k] == bytes@[at + k],
        decreases 32 - i,
    {
        digest[i] = bytes[at + i];
        i += 1;
    }
    assert(digest@ =~= bytes@.subrange(at as int, at + 32));
    digest
}

/// A section that must be there.
fn required<'a>(payload: Option<&'a [u8]>, missing: &'static str) -> (r: Result<
    &'a [u8],
    PackagerError,
>)
    ensures
        r == match payload {
            Some(p) => Ok(p),
            None => bad_section(missing),
        },
{
    match payload {
        Some(p) => Ok(p),
        None => Err(PackagerError::MalformedIndexSection(missing)),
    }
}

impl<'a> IndexView<'a> {
    /// Validates `bytes` as an `.idx` byte image and returns a view of it.
    ///
    /// - [`PackagerError::IndexMagicMismatch`] when the leading 4 bytes are
    ///   not `HCMI`.
    /// - [`PackagerError::MalformedIndexDirectory`] for header and directory
    ///   issues (truncation, too many sections, non-ascending offsets,
    ///   misaligned section starts, duplicate kinds).
    /// - [`PackagerError::MalformedIndexSection`] when a section is missing
    ///   or its framing is inconsistent.
    ///
    /// Rows are copied out of `bytes`, wherever they lie in memory. A caller
    /// that knows the address can have it checked with [`IndexView::open_at`].
    pub fn open(bytes: &'a [u8]) -> (r: Result<IndexView<'a>, PackagerError>)
        ensures
            ok_view(r) == opened(bytes@),
    {
        Self::open_at(bytes, true)
    }

    /// As [`IndexView::open`], where `aligned` says whether `bytes` lies in
    /// memory at a multiple of the alignment of [`SampleEntry`]. An image that
    /// does not is refused with [`PackagerError::MalformedIndexSection`].
    #[verifier::rlimit(40)]
    pub fn open_at(bytes: &'a [u8], aligned: bool) -> (r: Result<IndexView<'a>, PackagerError>)
        ensures
            ok_view(r) == opened_at(bytes@, aligned),
    {
        let entries: Vec<(u32, u64)> = parse_directory(bytes)?;
        let dir: &[(u32, u64)] = entries.as_slice();
        let video_meta_bytes = required(
            section_payload(bytes, dir, KIND_VIDEO_TRACK_META),
            "missing VideoTrackMeta section",
        )?;
        let audio_meta_bytes = required(
            section_payload(bytes, dir, KIND_AUDIO_TRACK_META),
            "missing AudioTrackMeta section",
        )?;
        let video_samples_bytes = required(
            section_payload(bytes, dir, KIND_VIDEO_SAMPLE_TABLE),
            "missing VideoSampleTable section",
        )?;
        let audio_samples_bytes = required(
            section_payload(bytes, dir, KIND_AUDIO_SAMPLE_TABLE),
            "missing AudioSampleTable section",
        )?;
        let segments_bytes = required(
            section_payload(bytes, dir, KIND_SEGMENT_TABLE),
            "missing SegmentTable section",
        )?;
        let init_segment_bytes = required(
            section_payload(bytes, dir, KIND_INIT_SEGMENT_BYTES),
            "missing InitSegmentBytes section",
        )?;
        let playlist_bytes = section_payload(bytes, dir, KIND_PLAYLIST_BYTES);
        let video_track = parse_video_meta(video_meta_bytes)?;
        let audio_track = parse_audio_meta(audio_meta_bytes)?;
        let video_samples: Vec<SampleEntry> = parse_sample_table(video_samples_bytes, true)?;
        if !aligned {
            return Err(
                PackagerError::MalformedIndexSection(
                    "VideoSampleTable rows misaligned for SampleEntry",
                ),
            );
        }
        let audio_samples: Vec<SampleEntry> = parse_sample_table(audio_samples_bytes, false)?;
        let segments: Vec<SegmentEntry> = parse_segment_table(segments_bytes)?;
        Ok(
            IndexView {
                max_segment_size: u32_at(bytes, 4),
                source_mp4_len: u64_at(bytes, 8),
                source_mp4_blake3: digest_at(bytes, 16),
                video_track,
                audio_track,
                video_samples,
                audio_samples,
                segments,
                init_segment_bytes,
                playlist_bytes,
            },
        )
    }
}

/// Where it lies decides nothing about an image but whether it opens: at an
/// aligned address it opens to what it holds, elsewhere it does not open, and
/// what is wrong with it before its rows is found either way.
pub proof fn law_placement_only_refuses(bytes: Seq<u8>)
    ensures
        opened_at(bytes, true) == opened(bytes),
        opened_at(bytes, false) is Err,
        directory_fault(bytes) is Some || required_sections(bytes) is Err ==> opened_at(bytes, false)
            == opened(bytes),
{
}

/// Opening an image reads memory only: it never fails for a byte source.
pub proof fn lemma_opened_never_blames_the_source(bytes: Seq<u8>)
    ensures
        !source_failed(opened(bytes)),
        forall|aligned: bool| !source_failed(#[trigger] opened_at(bytes, aligned)),
{
}

/// The metadata of a track is modelled field by field.
pub proof fn law_metadata_is_modelled_by_field(
    video: VideoTrackMeta<'_>,
    audio: AudioTrackMeta<'_>,
)
    ensures
        video@.timescale == video.timescale,
        video@.fourcc == video.fourcc@,
        video@.width == video.width,
        video@.height == video.height,
        video@.sample_entry == video.sample_entry@,
        video@.elst == video.elst@,
        audio@.timescale == audio.timescale,
        audio@.fourcc == audio.fourcc@,
        audio@.sample_rate == audio.sample_rate,
        audio@.channel_count == audio.channel_count,
        audio@.sample_entry == audio.sample_entry@,
        audio@.elst == audio.elst@,
{
}

} // verus!
