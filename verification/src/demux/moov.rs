//! `moov` subtree parser.
//!
//! Walks the top-level `ftyp` and `moov` boxes, gathers per-track metadata
//! (`tkhd` / `mdhd` / `hdlr`), records where the sample entry and the `edts`
//! box lie, and locates the sample tables (`stts` / `ctts` / `stss` / `stsc` /
//! `stsz` / `stco|co64`). All input-shape validation happens here.
//!
//! Sample data is never copied: codec configuration, edit lists and sample
//! tables are returned as byte ranges of the source.
//!
//! Each parser `parse_x` is described by a spec function `x` over the bytes of
//! the source. Within a container the first box that its rule rejects decides
//! the error; where a box type occurs more than once, the last one counts.

use vstd::prelude::*;

use crate::bytes::{be_u16_at, be_u32_at, lemma_be_u32_within, u16_at, u32_at, zeros};
use crate::demux::fourcc::{
    AVC1, CMFC, CO64, CTTS, EDTS, FTYP, HDLR, HEV1, HVC1, ISO2, ISO4, ISO5, ISO6, ISOM, MDHD, MDIA,
    MINF, MOOF, MOOV, MP41, MP42, MP4A, SBGP, SEIG, SENC, SGPD, SINF, SOUN, STBL, STCO, STSC, STSD,
    STSS, STSZ, STTS, TENC, TKHD, TRAK, VIDE,
};
use crate::demux::reader::{
    bytes_at, container_fault, first_fault, last_of, lemma_first_fault_prefix, lemma_next_box,
    lemma_push_box, lemma_scan_step, malformed, next_box, read_exact, scan, scanned, BoxHeader,
    BoxIter, BoxRule,
};
use crate::error::{settles, IoError, PackagerError};
use crate::read_at::ReadAt;

verus! {

/// A half-open byte range `[offset, offset + len)` of the source.
#[derive(Debug, Clone, Copy, PartialEq, Eq, Structural)]
pub struct ByteRange {
    pub offset: u64,
    pub len: u64,
}

impl ByteRange {
    /// The range ends within the `u64` range.
    pub open spec fn wf(self) -> bool {
        self.offset + self.len <= u64::MAX
    }
}

/// Locations of the sample tables inside one track's `stbl`.
#[derive(Debug, Clone, Copy)]
pub struct SampleTableLocs {
    pub stts: ByteRange,
    pub stsc: ByteRange,
    pub stsz: ByteRange,
    pub chunk_offsets: ChunkOffsets,
    pub stss: Option<ByteRange>,
    pub ctts: Option<ByteRange>,
}

/// Either a `stco` (32-bit) or a `co64` (64-bit) chunk-offset table.
#[derive(Debug, Clone, Copy)]
pub enum ChunkOffsets {
    Stco(ByteRange),
    Co64(ByteRange),
}

/// A range that is there ends within the `u64` range.
pub open spec fn optional_wf(r: Option<ByteRange>) -> bool {
    r matches Some(range) ==> range.wf()
}

impl SampleTableLocs {
    /// All ranges end within the `u64` range.
    pub open spec fn wf(self) -> bool {
        &&& self.stts.wf()
        &&& self.stsc.wf()
        &&& self.stsz.wf()
        &&& match self.chunk_offsets {
            ChunkOffsets::Stco(r) => r.wf(),
            ChunkOffsets::Co64(r) => r.wf(),
        }
        &&& optional_wf(self.stss)
        &&& optional_wf(self.ctts)
    }
}

/// What the moov walker finds out about one track.
#[derive(Debug, Clone, Copy)]
pub struct ParsedTrack {
    pub timescale: u32,
    pub fourcc: u32,
    pub width: u32,
    pub height: u32,
    pub sample_rate: u32,
    pub channel_count: u8,
    pub sample_entry: ByteRange,
    pub elst: Option<ByteRange>,
    pub sample_table: SampleTableLocs,
}

impl ParsedTrack {
    /// All ranges end within the `u64` range.
    pub open spec fn wf(self) -> bool {
        &&& self.sample_entry.wf()
        &&& optional_wf(self.elst)
        &&& self.sample_table.wf()
    }
}

/// The video and the audio track of a file.
#[derive(Debug, Clone, Copy)]
pub struct MoovParse {
    pub video: ParsedTrack,
    pub audio: ParsedTrack,
}

/// A track together with its handler type.
#[derive(Debug, Clone, Copy)]
pub struct UnclassifiedTrack {
    pub handler: u32,
    pub track: ParsedTrack,
}

/// Pixel dimensions from a track header.
#[derive(Debug, Clone, Copy)]
pub struct TkhdInfo {
    pub width: u32,
    pub height: u32,
}

/// What a `mdia` box says of its track.
#[derive(Debug, Clone, Copy)]
pub struct MdiaData {
    pub handler: u32,
    pub timescale: u32,
    pub entry: SampleEntryInfo,
    pub sample_table: SampleTableLocs,
}

/// What a `stbl` box says of its track.
#[derive(Debug, Clone, Copy)]
pub struct StblData {
    pub entry: SampleEntryInfo,
    pub locs: SampleTableLocs,
}

/// What the sample entry says of its track.
#[derive(Debug, Clone, Copy)]
pub struct SampleEntryInfo {
    pub fourcc: u32,
    pub sample_entry: ByteRange,
    pub sample_rate: u32,
    pub channel_count: u8,
}

/// Brands of which a file must carry at least one.
pub open spec fn brand_allowed(brand: u32) -> bool {
    brand == ISOM || brand == MP42 || brand == ISO2 || brand == ISO4 || brand == ISO5 || brand
        == ISO6 || brand == CMFC || brand == MP41
}

/// Sample entries that a video track may use.
pub open spec fn video_codec_allowed(fourcc: u32) -> bool {
    fourcc == AVC1 || fourcc == HVC1 || fourcc == HEV1
}

/// Boxes whose presence at the top level or in a sample entry marks
/// encryption.
pub open spec fn encryption_marker(box_type: u32) -> bool {
    box_type == SENC || box_type == TENC || box_type == SINF
}

/// The big-endian `u32` of the source at `offset`.
pub open spec fn field_u32(src: Seq<u8>, offset: int) -> Result<u32, PackagerError> {
    if offset + 4 <= src.len() {
        Ok(be_u32_at(src, offset))
    } else {
        Err(PackagerError::Io(IoError::ShortRead))
    }
}

/// The error of a result, if it is one.
pub open spec fn failure<T>(r: Result<T, PackagerError>) -> Option<PackagerError> {
    match r {
        Ok(_) => None,
        Err(e) => Some(e),
    }
}

/// The byte range of the payload of a box.
pub open spec fn spec_payload_range(h: BoxHeader) -> ByteRange {
    ByteRange { offset: h.payload_offset, len: h.spec_payload_len() as u64 }
}

/// The byte range of a box, header and all.
pub open spec fn whole_range(h: BoxHeader) -> ByteRange {
    ByteRange { offset: h.start, len: h.declared_size }
}

/// The payload of a box that may be missing.
pub open spec fn payload_of(h: Option<BoxHeader>) -> Option<ByteRange> {
    match h {
        Some(h) => Some(spec_payload_range(h)),
        None => None,
    }
}

/// The `ftyp` rule: the major brand or one of the compatible brands must be
/// on the allow-list.
pub open spec fn ftyp(src: Seq<u8>, h: BoxHeader) -> Result<(), PackagerError> {
    let len = h.spec_payload_len();
    if len < 8 {
        malformed("ftyp", "payload shorter than major+minor brand")
    } else if len > usize::MAX {
        Err(PackagerError::Io(IoError::RangeTooLarge { len: len as u64 }))
    } else {
        match bytes_at(src, h.payload_offset as int, len) {
            Err(e) => Err(e),
            Ok(payload) => if brand_allowed(be_u32_at(payload, 0)) {
                Ok(())
            } else if (len - 8) % 4 != 0 {
                malformed("ftyp", "compatible-brands list is not a multiple of 4 bytes")
            } else if exists|k: int|
                8 <= 4 * k <= len - 4 && brand_allowed(#[trigger] be_u32_at(payload, 4 * k)) {
                Ok(())
            } else {
                Err(PackagerError::UnsupportedBrand)
            },
        }
    }
}

/// The track header's dimensions: the integer parts of two 16.16 numbers.
pub open spec fn tkhd(src: Seq<u8>, h: BoxHeader) -> Result<TkhdInfo, PackagerError> {
    let len = h.spec_payload_len();
    let at = h.payload_offset as int;
    if len < 4 {
        malformed("tkhd", "payload missing version+flags")
    } else if at + 4 > src.len() {
        Err(PackagerError::Io(IoError::ShortRead))
    } else if src[at] > 1 {
        malformed("tkhd", "unsupported version")
    } else {
        let body_len: int = if src[at] == 0 { 80 } else { 92 };
        if len < 4 + body_len {
            malformed("tkhd", "payload truncated before width/height")
        } else if at + 4 + body_len > src.len() {
            Err(PackagerError::Io(IoError::ShortRead))
        } else {
            Ok(
                TkhdInfo {
                    width: be_u32_at(src, at + 4 + body_len - 8) / 0x1_0000,
                    height: be_u32_at(src, at + 4 + body_len - 4) / 0x1_0000,
                },
            )
        }
    }
}

/// The media header's timescale.
pub open spec fn mdhd_timescale(src: Seq<u8>, h: BoxHeader) -> Result<u32, PackagerError> {
    let len = h.spec_payload_len();
    let at = h.payload_offset as int;
    if len < 4 {
        malformed("mdhd", "payload missing version+flags")
    } else if at + 4 > src.len() {
        Err(PackagerError::Io(IoError::ShortRead))
    } else if src[at] > 1 {
        malformed("mdhd", "unsupported version")
    } else {
        let timescale_off: int = if src[at] == 0 { 8 } else { 16 };
        if len < 4 + timescale_off + 4 {
            malformed("mdhd", "payload truncated before timescale")
        } else {
            field_u32(src, at + 4 + timescale_off)
        }
    }
}

/// The handler type.
pub open spec fn hdlr_type(src: Seq<u8>, h: BoxHeader) -> Result<u32, PackagerError> {
    if h.spec_payload_len() < 12 {
        malformed("hdlr", "payload truncated before handler_type")
    } else {
        field_u32(src, h.payload_offset + 8)
    }
}

/// The sample-group rule: only the grouping type `seig` marks encryption.
pub open spec fn grouping(src: Seq<u8>, h: BoxHeader, atom: &'static str) -> Result<
    (),
    PackagerError,
> {
    if h.spec_payload_len() < 8 {
        malformed(atom, "payload truncated before grouping_type")
    } else {
        match field_u32(src, h.payload_offset + 4) {
            Err(e) => Err(e),
            Ok(t) => if t == SEIG {
                Err(PackagerError::EncryptedInput)
            } else {
                Ok(())
            },
        }
    }
}

/// Sample rate and channel count of an audio sample entry.
pub open spec fn audio_sample_entry(src: Seq<u8>, h: BoxHeader) -> Result<
    (u32, u8),
    PackagerError,
> {
    let at = h.payload_offset as int;
    if h.spec_payload_len() < 28 {
        malformed("mp4a", "AudioSampleEntry header truncated")
    } else if at + 28 > src.len() {
        Err(PackagerError::Io(IoError::ShortRead))
    } else if be_u16_at(src, at + 8) > 1 {
        malformed("mp4a", "unsupported AudioSampleEntry version")
    } else if be_u16_at(src, at + 16) > 0xff {
        malformed("mp4a", "channel_count exceeds u8 range")
    } else {
        Ok((be_u32_at(src, at + 24) / 0x1_0000, be_u16_at(src, at + 16) as u8))
    }
}

/// What is wrong with a box outside `stbl` that may mark encryption.
pub open spec fn encryption_fault(src: Seq<u8>, h: BoxHeader) -> Option<PackagerError> {
    if encryption_marker(h.box_type) {
        Some(PackagerError::EncryptedInput)
    } else if h.box_type == SBGP {
        failure(grouping(src, h, "sbgp"))
    } else if h.box_type == SGPD {
        failure(grouping(src, h, "sgpd"))
    } else {
        None
    }
}

/// Rule for the children of a sample entry.
pub open spec fn entry_child_rule(src: Seq<u8>) -> BoxRule {
    |before: Seq<BoxHeader>, h: BoxHeader| encryption_fault(src, h)
}

/// Bytes of a sample entry before its child boxes.
pub open spec fn entry_prefix(audio: bool) -> int {
    if audio {
        28
    } else {
        78
    }
}

/// A sample entry must not hold an encryption marker.
pub open spec fn no_encryption(src: Seq<u8>, h: BoxHeader, audio: bool) -> Result<
    (),
    PackagerError,
> {
    if h.spec_payload_len() <= entry_prefix(audio) {
        Ok(())
    } else {
        match container_fault(
            src,
            h.payload_offset + entry_prefix(audio),
            h.spec_end(),
            entry_child_rule(src),
        ) {
            Some(e) => Err(e),
            None => Ok(()),
        }
    }
}

/// What an accepted sample entry says, by the track's handler. Encryption is
/// looked for before the codec is checked; other handlers are let through.
pub open spec fn entry_for_handler(src: Seq<u8>, h: BoxHeader, handler: u32) -> Result<
    (u32, u8),
    PackagerError,
> {
    if handler == VIDE {
        match no_encryption(src, h, false) {
            Err(e) => Err(e),
            Ok(_) => if video_codec_allowed(h.box_type) {
                Ok((0, 0))
            } else {
                Err(PackagerError::UnsupportedVideoCodec)
            },
        }
    } else if handler == SOUN {
        match no_encryption(src, h, true) {
            Err(e) => Err(e),
            Ok(_) => if h.box_type == MP4A {
                audio_sample_entry(src, h)
            } else {
                Err(PackagerError::UnsupportedAudioCodec)
            },
        }
    } else {
        Ok((0, 0))
    }
}

/// The single sample entry of a `stsd` box.
pub open spec fn stsd_entry(src: Seq<u8>, h: BoxHeader, handler: u32) -> Result<
    SampleEntryInfo,
    PackagerError,
> {
    let at = h.payload_offset as int;
    if h.spec_payload_len() < 8 {
        malformed("stsd", "payload missing version+flags+entry_count")
    } else if at + 8 > src.len() {
        Err(PackagerError::Io(IoError::ShortRead))
    } else if be_u32_at(src, at + 4) != 1 {
        malformed("stsd", "entry_count must be 1")
    } else if at + 8 >= h.spec_end() {
        malformed("stsd", "no entry follows the entry_count field")
    } else {
        match next_box(src, at + 8, h.spec_end()) {
            Err(e) => Err(e),
            Ok(None) => malformed("stsd", "entry table empty"),
            Ok(Some(entry)) => if entry.spec_end() != h.spec_end() {
                malformed("stsd", "entry_count is 1 but extra bytes follow the sample entry")
            } else {
                match entry_for_handler(src, entry, handler) {
                    Err(e) => Err(e),
                    Ok((sample_rate, channel_count)) => Ok(
                        SampleEntryInfo {
                            fourcc: entry.box_type,
                            sample_entry: whole_range(entry),
                            sample_rate,
                            channel_count,
                        },
                    ),
                }
            },
        }
    }
}

/// Rule for the children of `stbl`.
pub open spec fn stbl_child_rule(src: Seq<u8>) -> BoxRule {
    |before: Seq<BoxHeader>, h: BoxHeader|
        if h.box_type == SBGP {
            failure(grouping(src, h, "sbgp"))
        } else if h.box_type == SGPD {
            failure(grouping(src, h, "sgpd"))
        } else if h.box_type == SENC {
            Some(PackagerError::EncryptedInput)
        } else {
            None
        }
}

/// Exactly one of the two chunk-offset tables must be there.
pub open spec fn chunk_table(stco: Option<ByteRange>, co64: Option<ByteRange>) -> Result<
    ChunkOffsets,
    PackagerError,
> {
    match (stco, co64) {
        (Some(_), Some(_)) => malformed("stbl", "both stco and co64 present"),
        (Some(r), None) => Ok(ChunkOffsets::Stco(r)),
        (None, Some(r)) => Ok(ChunkOffsets::Co64(r)),
        (None, None) => Err(PackagerError::MissingAtom("stco|co64")),
    }
}

/// The sample-table locations among the children of `stbl`.
pub open spec fn table_locs(boxes: Seq<BoxHeader>) -> Result<SampleTableLocs, PackagerError> {
    match chunk_table(payload_of(last_of(boxes, STCO)), payload_of(last_of(boxes, CO64))) {
        Err(e) => Err(e),
        Ok(chunk_offsets) => match last_of(boxes, STTS) {
            None => Err(PackagerError::MissingAtom("stts")),
            Some(stts) => match last_of(boxes, STSC) {
                None => Err(PackagerError::MissingAtom("stsc")),
                Some(stsc) => match last_of(boxes, STSZ) {
                    None => Err(PackagerError::MissingAtom("stsz")),
                    Some(stsz) => Ok(
                        SampleTableLocs {
                            stts: spec_payload_range(stts),
                            stsc: spec_payload_range(stsc),
                            stsz: spec_payload_range(stsz),
                            chunk_offsets,
                            stss: payload_of(last_of(boxes, STSS)),
                            ctts: payload_of(last_of(boxes, CTTS)),
                        },
                    ),
                },
            },
        },
    }
}

/// What a `stbl` box says of its track.
pub open spec fn stbl(src: Seq<u8>, h: BoxHeader, handler: u32) -> Result<StblData, PackagerError> {
    let boxes = scan(src, h.payload_offset as int, h.spec_end()).boxes;
    match container_fault(src, h.payload_offset as int, h.spec_end(), stbl_child_rule(src)) {
        Some(e) => Err(e),
        None => match last_of(boxes, STSD) {
            None => Err(PackagerError::MissingAtom("stsd")),
            Some(stsd) => match stsd_entry(src, stsd, handler) {
                Err(e) => Err(e),
                Ok(entry) => match table_locs(boxes) {
                    Err(e) => Err(e),
                    Ok(locs) => Ok(StblData { entry, locs }),
                },
            },
        },
    }
}

/// The first `stbl` child of a `minf` box.
pub open spec fn first_stbl(boxes: Seq<BoxHeader>) -> Option<BoxHeader>
    decreases boxes.len(),
{
    if boxes.len() == 0 {
        None
    } else if boxes[0].box_type == STBL {
        Some(boxes[0])
    } else {
        first_stbl(boxes.drop_first())
    }
}

/// Where the `stbl` of a `minf` box is. The scan stops at the first one.
pub open spec fn minf_stbl(src: Seq<u8>, cursor: int, end: int) -> Result<BoxHeader, PackagerError> {
    match first_stbl(scan(src, cursor, end).boxes) {
        Some(h) => Ok(h),
        None => match scan(src, cursor, end).fault {
            Some(e) => Err(e),
            None => Err(PackagerError::MissingAtom("stbl")),
        },
    }
}

/// Rule for the children of `mdia`.
pub open spec fn mdia_child_rule(src: Seq<u8>) -> BoxRule {
    |before: Seq<BoxHeader>, h: BoxHeader|
        if h.box_type == MDHD {
            failure(mdhd_timescale(src, h))
        } else if h.box_type == HDLR {
            failure(hdlr_type(src, h))
        } else {
            None
        }
}

/// What a `mdia` box says of its track.
pub open spec fn mdia(src: Seq<u8>, h: BoxHeader) -> Result<MdiaData, PackagerError> {
    let boxes = scan(src, h.payload_offset as int, h.spec_end()).boxes;
    match container_fault(src, h.payload_offset as int, h.spec_end(), mdia_child_rule(src)) {
        Some(e) => Err(e),
        None => match (last_of(boxes, MDHD), last_of(boxes, HDLR), last_of(boxes, MINF)) {
            (None, _, _) => Err(PackagerError::MissingAtom("mdhd")),
            (_, None, _) => Err(PackagerError::MissingAtom("hdlr")),
            (_, _, None) => Err(PackagerError::MissingAtom("minf")),
            (Some(mdhd), Some(hdlr), Some(minf)) => {
                let timescale = mdhd_timescale(src, mdhd)->Ok_0;
                let handler = hdlr_type(src, hdlr)->Ok_0;
                match minf_stbl(src, minf.payload_offset as int, minf.spec_end()) {
                    Err(e) => Err(e),
                    Ok(at) => match stbl(src, at, handler) {
                        Err(e) => Err(e),
                        Ok(data) => Ok(
                            MdiaData {
                                handler,
                                timescale,
                                entry: data.entry,
                                sample_table: data.locs,
                            },
                        ),
                    },
                }
            },
        },
    }
}

/// Rule for the children of `trak`.
pub open spec fn trak_child_rule(src: Seq<u8>) -> BoxRule {
    |before: Seq<BoxHeader>, h: BoxHeader|
        if h.box_type == TKHD {
            failure(tkhd(src, h))
        } else {
            None
        }
}

/// What a `trak` box says of its track. Only a video track has dimensions.
pub open spec fn trak(src: Seq<u8>, h: BoxHeader) -> Result<UnclassifiedTrack, PackagerError> {
    let boxes = scan(src, h.payload_offset as int, h.spec_end()).boxes;
    match container_fault(src, h.payload_offset as int, h.spec_end(), trak_child_rule(src)) {
        Some(e) => Err(e),
        None => match (last_of(boxes, TKHD), last_of(boxes, MDIA)) {
            (None, _) => Err(PackagerError::MissingAtom("tkhd")),
            (_, None) => Err(PackagerError::MissingAtom("mdia")),
            (Some(header), Some(media)) => match mdia(src, media) {
                Err(e) => Err(e),
                Ok(data) => {
                    let size = tkhd(src, header)->Ok_0;
                    let is_video = data.handler == VIDE;
                    Ok(
                        UnclassifiedTrack {
                            handler: data.handler,
                            track: ParsedTrack {
                                timescale: data.timescale,
                                fourcc: data.entry.fourcc,
                                width: if is_video { size.width } else { 0 },
                                height: if is_video { size.height } else { 0 },
                                sample_rate: data.entry.sample_rate,
                                channel_count: data.entry.channel_count,
                                sample_entry: data.entry.sample_entry,
                                elst: match last_of(boxes, EDTS) {
                                    Some(edts) => Some(whole_range(edts)),
                                    None => None,
                                },
                                sample_table: data.sample_table,
                            },
                        },
                    )
                },
            },
        },
    }
}

/// Rule for the top-level boxes.
pub open spec fn top_level_rule(src: Seq<u8>) -> BoxRule {
    |before: Seq<BoxHeader>, h: BoxHeader|
        if h.box_type == FTYP {
            failure(ftyp(src, h))
        } else if h.box_type == MOOV && last_of(before, MOOV) is Some {
            Some(
                PackagerError::MalformedAtom { atom: "moov", reason: "more than one top-level moov" },
            )
        } else if h.box_type == MOOF {
            Some(PackagerError::FragmentedInput)
        } else {
            encryption_fault(src, h)
        }
}

/// Rule for the children of `moov`: every track must be readable.
pub open spec fn moov_child_rule(src: Seq<u8>) -> BoxRule {
    |before: Seq<BoxHeader>, h: BoxHeader|
        if h.box_type == TRAK {
            failure(trak(src, h))
        } else {
            None
        }
}

/// The tracks among the children of `moov`, in order.
pub open spec fn tracks_of(src: Seq<u8>, boxes: Seq<BoxHeader>) -> Seq<UnclassifiedTrack>
    decreases boxes.len(),
{
    if boxes.len() == 0 {
        Seq::empty()
    } else if boxes.last().box_type == TRAK {
        tracks_of(src, boxes.drop_last()).push(trak(src, boxes.last())->Ok_0)
    } else {
        tracks_of(src, boxes.drop_last())
    }
}

/// How many tracks have the given handler.
pub open spec fn handler_count(tracks: Seq<UnclassifiedTrack>, handler: u32) -> nat
    decreases tracks.len(),
{
    if tracks.len() == 0 {
        0
    } else {
        handler_count(tracks.drop_last(), handler) + if tracks.last().handler == handler {
            1nat
        } else {
            0nat
        }
    }
}

/// A count that stops at the largest `u32`.
pub open spec fn capped(n: nat) -> u32 {
    if n <= u32::MAX {
        n as u32
    } else {
        u32::MAX
    }
}

/// A file must hold two tracks, one video and one audio, in either order.
pub open spec fn classify(tracks: Seq<UnclassifiedTrack>) -> Result<MoovParse, PackagerError> {
    if tracks.len() == 2 && tracks[0].handler == VIDE && tracks[1].handler == SOUN {
        Ok(MoovParse { video: tracks[0].track, audio: tracks[1].track })
    } else if tracks.len() == 2 && tracks[0].handler == SOUN && tracks[1].handler == VIDE {
        Ok(MoovParse { video: tracks[1].track, audio: tracks[0].track })
    } else {
        Err(
            PackagerError::UnsupportedTrackLayout {
                video: capped(handler_count(tracks, VIDE)),
                audio: capped(handler_count(tracks, SOUN)),
            },
        )
    }
}

/// What the `moov` box says of the file.
pub open spec fn moov(src: Seq<u8>, h: BoxHeader) -> Result<MoovParse, PackagerError> {
    let boxes = scan(src, h.payload_offset as int, h.spec_end()).boxes;
    match container_fault(src, h.payload_offset as int, h.spec_end(), moov_child_rule(src)) {
        Some(e) => Err(e),
        None => classify(tracks_of(src, boxes)),
    }
}

/// What a file of `source_len` bytes holds.
pub open spec fn top_level(src: Seq<u8>, source_len: int) -> Result<MoovParse, PackagerError> {
    let boxes = scan(src, 0, source_len).boxes;
    match container_fault(src, 0, source_len, top_level_rule(src)) {
        Some(e) => Err(e),
        None => match (last_of(boxes, FTYP), last_of(boxes, MOOV)) {
            (None, _) => Err(PackagerError::MissingAtom("ftyp")),
            (_, None) => Err(PackagerError::MissingAtom("moov")),
            (_, Some(h)) => moov(src, h),
        },
    }
}

/// Reads the big-endian `u32` at `offset`.
fn read_field_u32<R: ReadAt + ?Sized>(reader: &R, offset: u64) -> (r: Result<u32, PackagerError>)
    requires
        offset + 4 <= u64::MAX,
    ensures
        settles(r, field_u32(reader.content(), offset as int), reader.reliable()),
{
    let mut buf = [0u8; 4];
    read_exact(reader, offset, &mut buf)?;
    proof {
        lemma_be_u32_within(buf@, 0, reader.content(), offset as int);
    }
    Ok(u32_at(&buf, 0))
}

/// Whether `brand` is on the allow-list.
fn is_brand_allowed(brand: u32) -> (r: bool)
    ensures
        r == brand_allowed(brand),
{
    brand == ISOM || brand == MP42 || brand == ISO2 || brand == ISO4 || brand == ISO5 || brand
        == ISO6 || brand == CMFC || brand == MP41
}

/// Checks the brands of a `ftyp` box.
#[verifier::loop_isolation(false)]
pub fn check_ftyp<R: ReadAt + ?Sized>(reader: &R, header: &BoxHeader) -> (r: Result<
    (),
    PackagerError,
>)
    requires
        header.wf(),
    ensures
        settles(r, ftyp(reader.content(), *header), reader.reliable()),
{
    let payload_len: u64 = header.payload_len();
    if payload_len < 8 {
        return Err(
            PackagerError::MalformedAtom {
                atom: "ftyp",
                reason: "payload shorter than major+minor brand",
            },
        );
    }
    if payload_len > usize::MAX as u64 {
        return Err(PackagerError::Io(IoError::RangeTooLarge { len: payload_len }));
    }
    let len: usize = payload_len as usize;
    let mut buf: Vec<u8> = zeros(len);
    read_exact(reader, header.payload_offset, buf.as_mut_slice())?;
    if is_brand_allowed(u32_at(buf.as_slice(), 0)) {
        return Ok(());
    }
    // The 4-byte minor_version is skipped; compatible brands follow.
    if (len - 8) % 4 != 0 {
        return Err(
            PackagerError::MalformedAtom {
                atom: "ftyp",
                reason: "compatible-brands list is not a multiple of 4 bytes",
            },
        );
    }
    let mut k: usize = 2;
    while k < len / 4
        invariant
            2 <= k <= len / 4,
            forall|j: int| 8 <= 4 * j < 4 * k ==> !brand_allowed(#[trigger] be_u32_at(buf@, 4 * j)),
        decreases len / 4 - k,
    {
        let brand: u32 = u32_at(buf.as_slice(), 4 * k);
        if is_brand_allowed(brand) {
            assert(brand_allowed(be_u32_at(buf@, 4 * (k as int))));
            return Ok(());
        }
        k += 1;
    }
    Err(PackagerError::UnsupportedBrand)
}

/// Reads the dimensions from a `tkhd` box.
pub fn parse_tkhd<R: ReadAt + ?Sized>(reader: &R, header: &BoxHeader) -> (r: Result<
    TkhdInfo,
    PackagerError,
>)
    requires
        header.wf(),
    ensures
        settles(r, tkhd(reader.content(), *header), reader.reliable()),
{
    let payload_len: u64 = header.payload_len();
    if payload_len < 4 {
        return Err(
            PackagerError::MalformedAtom { atom: "tkhd", reason: "payload missing version+flags" },
        );
    }
    let mut head = [0u8; 4];
    read_exact(reader, header.payload_offset, &mut head)?;
    let version: u8 = head[0];
    // v0 body: u32 ctime + u32 mtime + u32 track_id + u32 reserved + u32 dur + 8 reserved
    //          + 2 layer + 2 alt + 2 vol + 2 reserved + 36 matrix + 4 width + 4 height = 80
    // v1 body: u64 ctime + u64 mtime + u32 track_id + u32 reserved + u64 dur + 8 reserved
    //          + 2 layer + 2 alt + 2 vol + 2 reserved + 36 matrix + 4 width + 4 height = 92
    if version > 1 {
        return Err(PackagerError::MalformedAtom { atom: "tkhd", reason: "unsupported version" });
    }
    let body_len: u64 = if version == 0 { 80 } else { 92 };
    if payload_len < 4 + body_len {
        return Err(
            PackagerError::MalformedAtom {
                atom: "tkhd",
                reason: "payload truncated before width/height",
            },
        );
    }
    let at: u64 = header.payload_offset + 4 + body_len - 8;
    let mut wh = [0u8; 8];
    read_exact(reader, at, &mut wh)?;
    proof {
        lemma_be_u32_within(wh@, 0, reader.content(), at as int);
        lemma_be_u32_within(wh@, 4, reader.content(), at + 4);
    }
    Ok(TkhdInfo { width: u32_at(&wh, 0) / 0x1_0000, height: u32_at(&wh, 4) / 0x1_0000 })
}

/// Reads the timescale from a `mdhd` box.
pub fn parse_mdhd_timescale<R: ReadAt + ?Sized>(reader: &R, header: &BoxHeader) -> (r: Result<
    u32,
    PackagerError,
>)
    requires
        header.wf(),
    ensures
        settles(r, mdhd_timescale(reader.content(), *header), reader.reliable()),
{
    let payload_len: u64 = header.payload_len();
    if payload_len < 4 {
        return Err(
            PackagerError::MalformedAtom { atom: "mdhd", reason: "payload missing version+flags" },
        );
    }
    let mut head = [0u8; 4];
    read_exact(reader, header.payload_offset, &mut head)?;
    let version: u8 = head[0];
    // v0: 4 ctime + 4 mtime + 4 timescale + 4 dur + 4 lang_pre = 20
    // v1: 8 ctime + 8 mtime + 4 timescale + 8 dur + 4 lang_pre = 32
    if version > 1 {
        return Err(PackagerError::MalformedAtom { atom: "mdhd", reason: "unsupported version" });
    }
    let timescale_off: u64 = if version == 0 { 8 } else { 16 };
    if payload_len < 4 + timescale_off + 4 {
        return Err(
            PackagerError::MalformedAtom {
                atom: "mdhd",
                reason: "payload truncated before timescale",
            },
        );
    }
    read_field_u32(reader, header.payload_offset + 4 + timescale_off)
}

/// Reads the handler type from a `hdlr` box.
pub fn parse_hdlr_type<R: ReadAt + ?Sized>(reader: &R, header: &BoxHeader) -> (r: Result<
    u32,
    PackagerError,
>)
    requires
        header.wf(),
    ensures
        settles(r, hdlr_type(reader.content(), *header), reader.reliable()),
{
    // version+flags(4) + pre_defined(4) + handler_type(4)
    if header.payload_len() < 12 {
        return Err(
            PackagerError::MalformedAtom {
                atom: "hdlr",
                reason: "payload truncated before handler_type",
            },
        );
    }
    read_field_u32(reader, header.payload_offset + 8)
}

/// Checks the grouping type of a `sbgp` or `sgpd` box. Only `seig` (ISO
/// Common Encryption) is rejected.
pub fn check_grouping_type<R: ReadAt + ?Sized>(
    reader: &R,
    header: &BoxHeader,
    atom: &'static str,
) -> (r: Result<(), PackagerError>)
    requires
        header.wf(),
    ensures
        settles(r, grouping(reader.content(), *header, atom), reader.reliable()),
{
    if header.payload_len() < 8 {
        return Err(
            PackagerError::MalformedAtom { atom, reason: "payload truncated before grouping_type" },
        );
    }
    let grouping_type: u32 = read_field_u32(reader, header.payload_offset + 4)?;
    if grouping_type == SEIG {
        return Err(PackagerError::EncryptedInput);
    }
    Ok(())
}

/// Rejects a box outside `stbl` that marks encryption.
///
/// `sinf` wraps `frma` / `schm` / `schi/tenc` for ISO Common Encryption; the
/// others catch layouts that hoist a marker out of its usual place.
pub fn check_encryption<R: ReadAt + ?Sized>(reader: &R, header: &BoxHeader) -> (r: Result<
    (),
    PackagerError,
>)
    requires
        header.wf(),
    ensures
        settles(
            r,
            match encryption_fault(reader.content(), *header) {
                Some(e) => Err(e),
                None => Ok(()),
            },
            reader.reliable(),
        ),
{
    let ty: u32 = header.box_type;
    if ty == SENC || ty == TENC || ty == SINF {
        return Err(PackagerError::EncryptedInput);
    }
    if ty == SBGP {
        return check_grouping_type(reader, header, "sbgp");
    }
    if ty == SGPD {
        return check_grouping_type(reader, header, "sgpd");
    }
    Ok(())
}

/// Reads sample rate and channel count from an audio sample entry.
///
/// The entry starts with 8 bytes common to all sample entries (6 reserved,
/// 2 data_reference_index), then 20 bytes of audio fields.
pub fn parse_audio_sample_entry<R: ReadAt + ?Sized>(reader: &R, entry: &BoxHeader) -> (r: Result<
    (u32, u8),
    PackagerError,
>)
    requires
        entry.wf(),
    ensures
        settles(r, audio_sample_entry(reader.content(), *entry), reader.reliable()),
{
    if entry.payload_len() < 28 {
        return Err(
            PackagerError::MalformedAtom {
                atom: "mp4a",
                reason: "AudioSampleEntry header truncated",
            },
        );
    }
    let mut buf = [0u8; 28];
    read_exact(reader, entry.payload_offset, &mut buf)?;
    proof {
        reveal(be_u16_at);
        lemma_be_u32_within(buf@, 24, reader.content(), entry.payload_offset + 24);
    }
    // 8..10 version, 10..12 revision, 12..16 vendor, 16..18 channelcount,
    // 18..20 samplesize, 20..22 compression_id, 22..24 packet_size,
    // 24..28 sample_rate (16.16 fixed-point).
    let version: u16 = u16_at(&buf, 8);
    if version > 1 {
        return Err(
            PackagerError::MalformedAtom {
                atom: "mp4a",
                reason: "unsupported AudioSampleEntry version",
            },
        );
    }
    let channel_count: u16 = u16_at(&buf, 16);
    if channel_count > 0xff {
        return Err(
            PackagerError::MalformedAtom { atom: "mp4a", reason: "channel_count exceeds u8 range" },
        );
    }
    Ok((u32_at(&buf, 24) / 0x1_0000, channel_count as u8))
}

/// Walks the child boxes of a sample entry and rejects encryption markers.
pub fn verify_no_encryption<R: ReadAt + ?Sized>(reader: &R, entry: &BoxHeader, audio: bool) -> (r:
    Result<(), PackagerError>)
    requires
        entry.wf(),
    ensures
        settles(r, no_encryption(reader.content(), *entry, audio), reader.reliable()),
{
    let prefix: u64 = if audio { 28 } else { 78 };
    if entry.payload_len() <= prefix {
        return Ok(());
    }
    let start: u64 = entry.payload_offset + prefix;
    let end: u64 = entry.end();
    let mut iter = BoxIter::new(reader, start, end);
    let ghost src = reader.content();
    let ghost all = scan(src, start as int, end as int);
    let ghost rule = entry_child_rule(src);
    let ghost expected = no_encryption(src, *entry, audio);
    let ghost mut done = Seq::<BoxHeader>::empty();
    assert(all.boxes =~= done + all.boxes);
    loop
        invariant
            src == reader.content(),
            all == scan(src, start as int, end as int),
            rule == entry_child_rule(src),
            expected == no_encryption(src, *entry, audio),
            container_fault(src, start as int, end as int, rule) matches Some(e) ==> expected == Err::<
                (),
                _,
            >(e),
            iter.reader == reader,
            iter.end == end,
            scanned(src, start as int, end as int, done, iter.cursor as int),
            first_fault(done, rule) is None,
        ensures
            done == all.boxes,
            all.fault is None,
        decreases end - iter.cursor,
    {
        proof {
            lemma_scan_step(src, start as int, end as int, done, iter.cursor as int);
        }
        match iter.next_header()? {
            None => break,
            Some(child) => {
                proof {
                    lemma_push_box(done, child, rule);
                    done = done.push(child);
                    if first_fault(done, rule) is Some {
                        lemma_first_fault_prefix(done, all.boxes, rule);
                    }
                }
                check_encryption(reader, &child)?;
            },
        }
    }
    Ok(())
}

/// The byte range of a box's payload.
fn payload_range(header: &BoxHeader) -> (r: ByteRange)
    requires
        header.wf(),
    ensures
        r == spec_payload_range(*header),
        r.wf(),
{
    ByteRange { offset: header.payload_offset, len: header.payload_len() }
}

/// Checks a sample entry against the track's handler.
///
/// Encryption is looked for before the codec allow-list, so that an `encv` or
/// `enca` wrapped entry surfaces as [`PackagerError::EncryptedInput`]. Unknown
/// handlers are let through; the caller rejects them once tracks are
/// classified.
fn parse_entry_for_handler<R: ReadAt + ?Sized>(
    reader: &R,
    entry: &BoxHeader,
    handler: u32,
) -> (r: Result<(u32, u8), PackagerError>)
    requires
        entry.wf(),
    ensures
        settles(r, entry_for_handler(reader.content(), *entry, handler), reader.reliable()),
{
    if handler == VIDE {
        verify_no_encryption(reader, entry, false)?;
        if !(entry.box_type == AVC1 || entry.box_type == HVC1 || entry.box_type == HEV1) {
            return Err(PackagerError::UnsupportedVideoCodec);
        }
        Ok((0, 0))
    } else if handler == SOUN {
        verify_no_encryption(reader, entry, true)?;
        if entry.box_type != MP4A {
            return Err(PackagerError::UnsupportedAudioCodec);
        }
        parse_audio_sample_entry(reader, entry)
    } else {
        Ok((0, 0))
    }
}

/// Reads the single sample entry of a `stsd` box.
pub fn parse_stsd_entry<R: ReadAt + ?Sized>(reader: &R, stsd: &BoxHeader, handler: u32) -> (r:
    Result<SampleEntryInfo, PackagerError>)
    requires
        stsd.wf(),
    ensures
        settles(r, stsd_entry(reader.content(), *stsd, handler), reader.reliable()),
        r matches Ok(info) ==> info.sample_entry.wf(),
{
    if stsd.payload_len() < 8 {
        return Err(
            PackagerError::MalformedAtom {
                atom: "stsd",
                reason: "payload missing version+flags+entry_count",
            },
        );
    }
    let mut head = [0u8; 8];
    read_exact(reader, stsd.payload_offset, &mut head)?;
    let entry_count: u32 = u32_at(&head, 4);
    proof {
        lemma_be_u32_within(head@, 4, reader.content(), stsd.payload_offset + 4);
        lemma_next_box(reader.content(), stsd.payload_offset + 8, stsd.spec_end());
    }
    // CMAF requires a uniform sample format per track.
    if entry_count != 1 {
        return Err(PackagerError::MalformedAtom { atom: "stsd", reason: "entry_count must be 1" });
    }
    let first_off: u64 = stsd.payload_offset + 8;
    if first_off >= stsd.end() {
        return Err(
            PackagerError::MalformedAtom {
                atom: "stsd",
                reason: "no entry follows the entry_count field",
            },
        );
    }
    let mut iter = BoxIter::new(reader, first_off, stsd.end());
    let entry: BoxHeader = match iter.next_header()? {
        Some(entry) => entry,
        None => {
            return Err(PackagerError::MalformedAtom { atom: "stsd", reason: "entry table empty" });
        },
    };
    if entry.end() != stsd.end() {
        return Err(
            PackagerError::MalformedAtom {
                atom: "stsd",
                reason: "entry_count is 1 but extra bytes follow the sample entry",
            },
        );
    }
    let (sample_rate, channel_count) = parse_entry_for_handler(reader, &entry, handler)?;
    Ok(
        SampleEntryInfo {
            fourcc: entry.box_type,
            sample_entry: ByteRange { offset: entry.start, len: entry.declared_size },
            sample_rate,
            channel_count,
        },
    )
}

/// Finds the first `stbl` child of a `minf` box.
pub fn locate_stbl<R: ReadAt + ?Sized>(reader: &R, minf: &BoxHeader) -> (r: Result<
    BoxHeader,
    PackagerError,
>)
    requires
        minf.wf(),
    ensures
        settles(
            r,
            minf_stbl(reader.content(), minf.payload_offset as int, minf.spec_end()),
            reader.reliable(),
        ),
        r matches Ok(h) ==> h.wf(),
{
    let end: u64 = minf.end();
    let mut iter = BoxIter::new(reader, minf.payload_offset, end);
    let ghost src = reader.content();
    let ghost expected = minf_stbl(src, minf.payload_offset as int, end as int);
    loop
        invariant
            src == reader.content(),
            iter.reader == reader,
            iter.end == end,
            expected == minf_stbl(reader.content(), minf.payload_offset as int, minf.spec_end()),
            expected == minf_stbl(src, iter.cursor as int, end as int),
        ensures
            expected == Err::<BoxHeader, _>(PackagerError::MissingAtom("stbl")),
        decreases end - iter.cursor,
    {
        proof {
            lemma_next_box(src, iter.cursor as int, end as int);
        }
        let ghost before = scan(src, iter.cursor as int, end as int);
        match iter.next_header()? {
            None => break,
            Some(child) => {
                assert(before.boxes.drop_first() =~= scan(src, iter.cursor as int, end as int).boxes);
                if child.box_type == STBL {
                    return Ok(child);
                }
            },
        }
    }
    Err(PackagerError::MissingAtom("stbl"))
}

/// Reads a `stbl` box.
///
/// `sbgp` and `sgpd` are general-purpose sample-group containers; they only
/// signal encryption when their grouping type is `seig`.
pub fn parse_stbl<R: ReadAt + ?Sized>(reader: &R, header: &BoxHeader, handler: u32) -> (r: Result<
    StblData,
    PackagerError,
>)
    requires
        header.wf(),
    ensures
        settles(r, stbl(reader.content(), *header, handler), reader.reliable()),
        r matches Ok(data) ==> data.entry.sample_entry.wf() && data.locs.wf(),
{
    let start: u64 = header.payload_offset;
    let end: u64 = header.end();
    let ghost src = reader.content();
    let ghost all = scan(src, start as int, end as int);
    let ghost rule = stbl_child_rule(src);
    let ghost expected = stbl(src, *header, handler);
    let ghost mut done = Seq::<BoxHeader>::empty();
    assert(all.boxes =~= done + all.boxes);

    let mut stsd: Option<BoxHeader> = None;
    let mut stts: Option<ByteRange> = None;
    let mut stsc: Option<ByteRange> = None;
    let mut stsz: Option<ByteRange> = None;
    let mut stco: Option<ByteRange> = None;
    let mut co64: Option<ByteRange> = None;
    let mut stss: Option<ByteRange> = None;
    let mut ctts: Option<ByteRange> = None;
    let mut iter = BoxIter::new(reader, start, end);
    loop
        invariant
            src == reader.content(),
            all == scan(src, start as int, end as int),
            rule == stbl_child_rule(src),
            expected == stbl(src, *header, handler),
            container_fault(src, start as int, end as int, rule) matches Some(e) ==> expected == Err::<
                StblData,
                _,
            >(e),
            iter.reader == reader,
            iter.end == end,
            scanned(src, start as int, end as int, done, iter.cursor as int),
            first_fault(done, rule) is None,
            stsd == last_of(done, STSD),
            stsd matches Some(h) ==> h.wf(),
            stts == payload_of(last_of(done, STTS)) && optional_wf(stts),
            stsc == payload_of(last_of(done, STSC)) && optional_wf(stsc),
            stsz == payload_of(last_of(done, STSZ)) && optional_wf(stsz),
            stco == payload_of(last_of(done, STCO)) && optional_wf(stco),
            co64 == payload_of(last_of(done, CO64)) && optional_wf(co64),
            stss == payload_of(last_of(done, STSS)) && optional_wf(stss),
            ctts == payload_of(last_of(done, CTTS)) && optional_wf(ctts),
        ensures
            done == all.boxes,
            all.fault is None,
        decreases end - iter.cursor,
    {
        proof {
            lemma_scan_step(src, start as int, end as int, done, iter.cursor as int);
        }
        match iter.next_header()? {
            None => break,
            Some(child) => {
                proof {
                    lemma_push_box(done, child, rule);
                    done = done.push(child);
                    if first_fault(done, rule) is Some {
                        lemma_first_fault_prefix(done, all.boxes, rule);
                    }
                }
                let ty: u32 = child.box_type;
                if ty == STSD {
                    stsd = Some(child);
                } else if ty == STTS {
                    stts = Some(payload_range(&child));
                } else if ty == STSC {
                    stsc = Some(payload_range(&child));
                } else if ty == STSZ {
                    stsz = Some(payload_range(&child));
                } else if ty == STCO {
                    stco = Some(payload_range(&child));
                } else if ty == CO64 {
                    co64 = Some(payload_range(&child));
                } else if ty == STSS {
                    stss = Some(payload_range(&child));
                } else if ty == CTTS {
                    ctts = Some(payload_range(&child));
                } else if ty == SBGP {
                    check_grouping_type(reader, &child, "sbgp")?;
                } else if ty == SGPD {
                    check_grouping_type(reader, &child, "sgpd")?;
                } else if ty == SENC {
                    return Err(PackagerError::EncryptedInput);
                }
            },
        }
    }
    let stsd: BoxHeader = match stsd {
        Some(h) => h,
        None => return Err(PackagerError::MissingAtom("stsd")),
    };
    let entry: SampleEntryInfo = parse_stsd_entry(reader, &stsd, handler)?;
    let chunk_offsets: ChunkOffsets = match (stco, co64) {
        (Some(_), Some(_)) => {
            return Err(
                PackagerError::MalformedAtom { atom: "stbl", reason: "both stco and co64 present" },
            );
        },
        (Some(r), None) => ChunkOffsets::Stco(r),
        (None, Some(r)) => ChunkOffsets::Co64(r),
        (None, None) => return Err(PackagerError::MissingAtom("stco|co64")),
    };
    let stts: ByteRange = match stts {
        Some(r) => r,
        None => return Err(PackagerError::MissingAtom("stts")),
    };
    let stsc: ByteRange = match stsc {
        Some(r) => r,
        None => return Err(PackagerError::MissingAtom("stsc")),
    };
    let stsz: ByteRange = match stsz {
        Some(r) => r,
        None => return Err(PackagerError::MissingAtom("stsz")),
    };
    Ok(StblData { entry, locs: SampleTableLocs { stts, stsc, stsz, chunk_offsets, stss, ctts } })
}

/// Reads a `mdia` box.
pub fn parse_mdia<R: ReadAt + ?Sized>(reader: &R, header: &BoxHeader) -> (r: Result<
    MdiaData,
    PackagerError,
>)
    requires
        header.wf(),
    ensures
        settles(r, mdia(reader.content(), *header), reader.reliable()),
        r matches Ok(data) ==> data.entry.sample_entry.wf() && data.sample_table.wf(),
{
    let start: u64 = header.payload_offset;
    let end: u64 = header.end();
    let ghost src = reader.content();
    let ghost all = scan(src, start as int, end as int);
    let ghost rule = mdia_child_rule(src);
    let ghost expected = mdia(src, *header);
    let ghost mut done = Seq::<BoxHeader>::empty();
    assert(all.boxes =~= done + all.boxes);

    let mut mdhd: Option<u32> = None;
    let mut handler: Option<u32> = None;
    let mut minf: Option<BoxHeader> = None;
    let mut iter = BoxIter::new(reader, start, end);
    loop
        invariant
            src == reader.content(),
            all == scan(src, start as int, end as int),
            rule == mdia_child_rule(src),
            expected == mdia(src, *header),
            container_fault(src, start as int, end as int, rule) matches Some(e) ==> expected == Err::<
                MdiaData,
                _,
            >(e),
            iter.reader == reader,
            iter.end == end,
            scanned(src, start as int, end as int, done, iter.cursor as int),
            first_fault(done, rule) is None,
            mdhd == match last_of(done, MDHD) {
                Some(h) => Some(mdhd_timescale(src, h)->Ok_0),
                None => None,
            },
            handler == match last_of(done, HDLR) {
                Some(h) => Some(hdlr_type(src, h)->Ok_0),
                None => None,
            },
            minf == last_of(done, MINF),
            minf matches Some(h) ==> h.wf(),
        ensures
            done == all.boxes,
            all.fault is None,
        decreases end - iter.cursor,
    {
        proof {
            lemma_scan_step(src, start as int, end as int, done, iter.cursor as int);
        }
        match iter.next_header()? {
            None => break,
            Some(child) => {
                proof {
                    lemma_push_box(done, child, rule);
                    done = done.push(child);
                    if first_fault(done, rule) is Some {
                        lemma_first_fault_prefix(done, all.boxes, rule);
                    }
                }
                if child.box_type == MDHD {
                    mdhd = Some(parse_mdhd_timescale(reader, &child)?);
                } else if child.box_type == HDLR {
                    handler = Some(parse_hdlr_type(reader, &child)?);
                } else if child.box_type == MINF {
                    minf = Some(child);
                }
            },
        }
    }
    let timescale: u32 = match mdhd {
        Some(t) => t,
        None => return Err(PackagerError::MissingAtom("mdhd")),
    };
    let handler: u32 = match handler {
        Some(h) => h,
        None => return Err(PackagerError::MissingAtom("hdlr")),
    };
    let minf: BoxHeader = match minf {
        Some(h) => h,
        None => return Err(PackagerError::MissingAtom("minf")),
    };
    let at: BoxHeader = locate_stbl(reader, &minf)?;
    let data: StblData = parse_stbl(reader, &at, handler)?;
    Ok(MdiaData { handler, timescale, entry: data.entry, sample_table: data.locs })
}

/// Reads a `trak` box.
pub fn parse_trak<R: ReadAt + ?Sized>(reader: &R, header: &BoxHeader) -> (r: Result<
    UnclassifiedTrack,
    PackagerError,
>)
    requires
        header.wf(),
    ensures
        settles(r, trak(reader.content(), *header), reader.reliable()),
        r matches Ok(t) ==> t.track.wf(),
{
    let start: u64 = header.payload_offset;
    let end: u64 = header.end();
    let ghost src = reader.content();
    let ghost all = scan(src, start as int, end as int);
    let ghost rule = trak_child_rule(src);
    let ghost expected = trak(src, *header);
    let ghost mut done = Seq::<BoxHeader>::empty();
    assert(all.boxes =~= done + all.boxes);

    let mut size: Option<TkhdInfo> = None;
    let mut media: Option<BoxHeader> = None;
    let mut elst: Option<ByteRange> = None;
    let mut iter = BoxIter::new(reader, start, end);
    loop
        invariant
            src == reader.content(),
            all == scan(src, start as int, end as int),
            rule == trak_child_rule(src),
            expected == trak(src, *header),
            container_fault(src, start as int, end as int, rule) matches Some(e) ==> expected == Err::<
                UnclassifiedTrack,
                _,
            >(e),
            iter.reader == reader,
            iter.end == end,
            scanned(src, start as int, end as int, done, iter.cursor as int),
            first_fault(done, rule) is None,
            size == match last_of(done, TKHD) {
                Some(h) => Some(tkhd(src, h)->Ok_0),
                None => None,
            },
            media == last_of(done, MDIA),
            media matches Some(h) ==> h.wf(),
            elst == match last_of(done, EDTS) {
                Some(h) => Some(whole_range(h)),
                None => None,
            },
            optional_wf(elst),
        ensures
            done == all.boxes,
            all.fault is None,
        decreases end - iter.cursor,
    {
        proof {
            lemma_scan_step(src, start as int, end as int, done, iter.cursor as int);
        }
        match iter.next_header()? {
            None => break,
            Some(child) => {
                proof {
                    lemma_push_box(done, child, rule);
                    done = done.push(child);
                    if first_fault(done, rule) is Some {
                        lemma_first_fault_prefix(done, all.boxes, rule);
                    }
                }
                if child.box_type == TKHD {
                    size = Some(parse_tkhd(reader, &child)?);
                } else if child.box_type == MDIA {
                    media = Some(child);
                } else if child.box_type == EDTS {
                    elst = Some(ByteRange { offset: child.start, len: child.declared_size });
                }
            },
        }
    }
    let size: TkhdInfo = match size {
        Some(t) => t,
        None => return Err(PackagerError::MissingAtom("tkhd")),
    };
    let media: BoxHeader = match media {
        Some(h) => h,
        None => return Err(PackagerError::MissingAtom("mdia")),
    };
    let data: MdiaData = parse_mdia(reader, &media)?;
    let is_video = data.handler == VIDE;
    Ok(
        UnclassifiedTrack {
            handler: data.handler,
            track: ParsedTrack {
                timescale: data.timescale,
                fourcc: data.entry.fourcc,
                width: if is_video { size.width } else { 0 },
                height: if is_video { size.height } else { 0 },
                sample_rate: data.entry.sample_rate,
                channel_count: data.entry.channel_count,
                sample_entry: data.entry.sample_entry,
                elst,
                sample_table: data.sample_table,
            },
        },
    )
}

/// One more in a count that stops at the largest `u32`.
fn count_one_more(n: u32) -> (r: u32)
    ensures
        r == capped((n + 1) as nat),
{
    if n < u32::MAX {
        n + 1
    } else {
        n
    }
}

/// Picks the video and the audio track out of the tracks of a file.
pub fn classify_tracks(tracks: &[UnclassifiedTrack]) -> (r: Result<MoovParse, PackagerError>)
    ensures
        r == classify(tracks@),
{
    let mut video: Option<ParsedTrack> = None;
    let mut audio: Option<ParsedTrack> = None;
    let mut video_count: u32 = 0;
    let mut audio_count: u32 = 0;
    let mut i: usize = 0;
    while i < tracks.len()
        invariant
            0 <= i <= tracks@.len(),
            video_count == capped(handler_count(tracks@.take(i as int), VIDE)),
            audio_count == capped(handler_count(tracks@.take(i as int), SOUN)),
            video is Some <==> video_count > 0,
            audio is Some <==> audio_count > 0,
            i <= 2 ==> (video matches Some(v) ==> exists|k: int|
                0 <= k < i && #[trigger] tracks@[k].handler == VIDE && tracks@[k].track == v),
            i <= 2 ==> (audio matches Some(a) ==> exists|k: int|
                0 <= k < i && #[trigger] tracks@[k].handler == SOUN && tracks@[k].track == a),
        decreases tracks@.len() - i,
    {
        let item: UnclassifiedTrack = tracks[i];
        assert(tracks@.take(i + 1).drop_last() =~= tracks@.take(i as int));
        if item.handler == VIDE {
            video_count = count_one_more(video_count);
            if video.is_none() {
                video = Some(item.track);
            }
        } else if item.handler == SOUN {
            audio_count = count_one_more(audio_count);
            if audio.is_none() {
                audio = Some(item.track);
            }
        }
        i += 1;
    }
    assert(tracks@.take(tracks@.len() as int) =~= tracks@);
    proof {
        reveal_with_fuel(handler_count, 4);
    }
    match (video, audio) {
        (Some(video), Some(audio)) if tracks.len() == 2 && video_count == 1 && audio_count == 1 => Ok(
            MoovParse { video, audio },
        ),
        _ => Err(
            PackagerError::UnsupportedTrackLayout { video: video_count, audio: audio_count },
        ),
    }
}

/// Reads the children of `moov`.
fn parse_moov<R: ReadAt + ?Sized>(reader: &R, header: &BoxHeader) -> (r: Result<
    MoovParse,
    PackagerError,
>)
    requires
        header.wf(),
    ensures
        settles(r, moov(reader.content(), *header), reader.reliable()),
        r matches Ok(m) ==> m.video.wf() && m.audio.wf(),
{
    let start: u64 = header.payload_offset;
    let end: u64 = header.end();
    let ghost src = reader.content();
    let ghost all = scan(src, start as int, end as int);
    let ghost rule = moov_child_rule(src);
    let ghost expected = moov(src, *header);
    let ghost mut done = Seq::<BoxHeader>::empty();
    assert(all.boxes =~= done + all.boxes);

    let mut tracks: Vec<UnclassifiedTrack> = Vec::new();
    let mut iter = BoxIter::new(reader, start, end);
    loop
        invariant
            src == reader.content(),
            all == scan(src, start as int, end as int),
            rule == moov_child_rule(src),
            expected == moov(src, *header),
            container_fault(src, start as int, end as int, rule) matches Some(e) ==> expected == Err::<
                MoovParse,
                _,
            >(e),
            iter.reader == reader,
            iter.end == end,
            scanned(src, start as int, end as int, done, iter.cursor as int),
            first_fault(done, rule) is None,
            tracks@ == tracks_of(src, done),
            forall|k: int| 0 <= k < tracks@.len() ==> (#[trigger] tracks@[k]).track.wf(),
        ensures
            done == all.boxes,
            all.fault is None,
        decreases end - iter.cursor,
    {
        proof {
            lemma_scan_step(src, start as int, end as int, done, iter.cursor as int);
        }
        match iter.next_header()? {
            None => break,
            Some(child) => {
                proof {
                    lemma_push_box(done, child, rule);
                    assert(done.push(child).drop_last() =~= done);
                    done = done.push(child);
                    if first_fault(done, rule) is Some {
                        lemma_first_fault_prefix(done, all.boxes, rule);
                    }
                }
                if child.box_type == TRAK {
                    tracks.push(parse_trak(reader, &child)?);
                }
                // mvhd / udta / meta / iods etc. are ignored.
            },
        }
    }
    classify_tracks(tracks.as_slice())
}

/// Walks the top-level boxes of `[0, source_len)`, checks the shape of the
/// input, and returns the video and the audio track.
pub fn parse_top_level<R: ReadAt + ?Sized>(reader: &R, source_len: u64) -> (r: Result<
    MoovParse,
    PackagerError,
>)
    ensures
        settles(r, top_level(reader.content(), source_len as int), reader.reliable()),
        r matches Ok(m) ==> m.video.wf() && m.audio.wf(),
{
    let ghost src = reader.content();
    let ghost all = scan(src, 0, source_len as int);
    let ghost rule = top_level_rule(src);
    let ghost expected = top_level(src, source_len as int);
    let ghost mut done = Seq::<BoxHeader>::empty();
    assert(all.boxes =~= done + all.boxes);

    let mut ftyp_seen = false;
    let mut moov_box: Option<BoxHeader> = None;
    let mut iter = BoxIter::new(reader, 0, source_len);
    loop
        invariant
            src == reader.content(),
            all == scan(src, 0, source_len as int),
            rule == top_level_rule(src),
            expected == top_level(src, source_len as int),
            container_fault(src, 0, source_len as int, rule) matches Some(e) ==> expected == Err::<
                MoovParse,
                _,
            >(e),
            iter.reader == reader,
            iter.end == source_len,
            scanned(src, 0, source_len as int, done, iter.cursor as int),
            first_fault(done, rule) is None,
            ftyp_seen <==> last_of(done, FTYP) is Some,
            moov_box == last_of(done, MOOV),
            moov_box matches Some(h) ==> h.wf(),
        ensures
            done == all.boxes,
            all.fault is None,
        decreases source_len - iter.cursor,
    {
        proof {
            lemma_scan_step(src, 0, source_len as int, done, iter.cursor as int);
        }
        match iter.next_header()? {
            None => break,
            Some(header) => {
                proof {
                    lemma_push_box(done, header, rule);
                    done = done.push(header);
                    if first_fault(done, rule) is Some {
                        lemma_first_fault_prefix(done, all.boxes, rule);
                    }
                }
                let ty: u32 = header.box_type;
                if ty == FTYP {
                    check_ftyp(reader, &header)?;
                    ftyp_seen = true;
                } else if ty == MOOV {
                    if moov_box.is_some() {
                        return Err(
                            PackagerError::MalformedAtom {
                                atom: "moov",
                                reason: "more than one top-level moov",
                            },
                        );
                    }
                    moov_box = Some(header);
                } else if ty == MOOF {
                    return Err(PackagerError::FragmentedInput);
                } else {
                    check_encryption(reader, &header)?;
                }
            },
        }
    }
    if !ftyp_seen {
        return Err(PackagerError::MissingAtom("ftyp"));
    }
    match moov_box {
        None => Err(PackagerError::MissingAtom("moov")),
        Some(header) => parse_moov(reader, &header),
    }
}

} // verus!
