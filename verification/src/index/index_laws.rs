//! What an index says, in terms of its bytes and of its source.
//!
//! Section kinds and places are written as numbers; places count from the
//! start of the image, or of the section.

use vstd::prelude::*;

use crate::bytes::{be_u32_at, le_u32_at, le_u64_at, lemma_be32};
use crate::demux::moov::{top_level, ByteRange, MoovParse};
use crate::demux::sample_table::{walked, RawSampleEntry};
use crate::error::{IoError, PackagerError};
use crate::fmp4::init::init_segment;
use crate::fmp4::media::media_segment;
use crate::index::builder::{
    blobs, built, cut_tracks, draft_index, draft_of, finish, index_of, largest_segment,
    optional_bytes, range_bytes, to_row, to_rows, Blobs,
};
use crate::index::digest::{blake3_digest, source_digest};
use crate::index::format::{SampleEntry, SegmentEntry};
use crate::index::image::{body, dir_bytes, encode_fault, encoded, fixed_header, image, sections_of};
use crate::index::round_trip::{lemma_directory_entry, lemma_fixed_header, storable};
use crate::index::view::{
    ascends_at, audio_meta, dir_kind, dir_offset, dir_pad, directory, directory_fault,
    find_section, opened, sample_rows, section, section_count, segment_rows, video_meta,
    IndexModel,
};
use crate::playlist::m3u8::playlist;
use crate::segment::duration::SegmentDuration;
use crate::segment::splitter::segments_of;

verus! {

/// The number of sections, by the header.
pub open spec fn count_at(s: Seq<u8>) -> int {
    be_u32_at(s, 48) as int
}

/// The kind of section `i`, by the directory.
pub open spec fn kind_at(s: Seq<u8>, i: int) -> u32 {
    be_u32_at(s, 56 + 16 * i)
}

/// The offset of section `i`, by the directory.
pub open spec fn offset_at(s: Seq<u8>, i: int) -> int {
    be_u32_at(s, 64 + 16 * i) * 0x1_0000_0000 + be_u32_at(s, 68 + 16 * i)
}

/// Where section `i` ends: where the next one starts, or with the image.
pub open spec fn end_at(s: Seq<u8>, i: int) -> int {
    if i + 1 < count_at(s) {
        offset_at(s, i + 1)
    } else {
        s.len() as int
    }
}

/// Whether the header and the directory of an image are in order: the magic
/// `HCMI`, a zero word, 1 to 64 sections with a zero word each, the first one
/// right behind the directory, the others in ascending order, all within the
/// image and at multiples of 8, and no kind twice.
pub open spec fn directory_in_order(s: Seq<u8>) -> bool {
    let n = count_at(s);
    &&& s.len() >= 56
    &&& be_u32_at(s, 0) == 0x4843_4d49
    &&& be_u32_at(s, 52) == 0
    &&& 1 <= n <= 64
    &&& s.len() >= 56 + 16 * n
    &&& forall|i: int| 0 <= i < n ==> #[trigger] be_u32_at(s, 60 + 16 * i) == 0
    &&& offset_at(s, 0) == 56 + 16 * n
    &&& forall|i: int| 0 < i < n ==> offset_at(s, i - 1) < #[trigger] offset_at(s, i)
    &&& offset_at(s, n - 1) <= s.len()
    &&& forall|i: int| 0 <= i < n ==> #[trigger] offset_at(s, i) % 8 == 0
    &&& forall|i: int, j: int|
        0 <= i < j < n ==> #[trigger] kind_at(s, i) != #[trigger] kind_at(s, j)
}

proof fn lemma_entry(s: Seq<u8>, i: int)
    ensures
        dir_kind(s, i) == kind_at(s, i),
        dir_pad(s, i) == be_u32_at(s, 60 + 16 * i),
        dir_offset(s, i) == offset_at(s, i),
{
    let hi = be_u32_at(s, 64 + 16 * i);
    let lo = be_u32_at(s, 68 + 16 * i);
    assert(hi * 0x1_0000_0000 + lo <= u64::MAX);
}

/// An image is taken for one exactly if its header and directory are in
/// order. One that does not start with the magic is refused as such.
pub proof fn law_directories(s: Seq<u8>)
    ensures
        directory_fault(s) is None <==> directory_in_order(s),
        s.len() >= 56 && be_u32_at(s, 0) != 0x4843_4d49 ==> directory_fault(s) == Some(
            PackagerError::IndexMagicMismatch,
        ),
        directory_fault(s) matches Some(e) ==> e is IndexMagicMismatch
            || e is MalformedIndexDirectory,
{
    let n = section_count(s);
    let entries = directory(s);
    assert forall|i: int|
        #![trigger dir_pad(s, i)]
        #![trigger kind_at(s, i)]
        #![trigger offset_at(s, i)]
        #![trigger dir_offset(s, i)]
        true implies dir_kind(s, i) == kind_at(s, i)
        && dir_pad(s, i) == be_u32_at(s, 60 + 16 * i) && dir_offset(s, i) == offset_at(s, i) by {
        lemma_entry(s, i);
    }
    if directory_fault(s) is None {
        assert forall|i: int| 0 <= i < n implies #[trigger] be_u32_at(s, 60 + 16 * i) == 0 by {
            assert(dir_pad(s, i) == 0);
        }
        assert(entries[0].1 == offset_at(s, 0));
        assert forall|i: int| 0 < i < n implies offset_at(s, i - 1) < #[trigger] offset_at(
            s,
            i,
        ) by {
            assert(ascends_at(entries, i));
            assert(dir_offset(s, i - 1) == offset_at(s, i - 1));
        }
        assert(entries.last() == entries[n - 1]);
        assert(dir_offset(s, n - 1) == offset_at(s, n - 1));
        assert forall|i: int| 0 <= i < n implies #[trigger] offset_at(s, i) % 8 == 0 by {
            assert(entries[i].1 % 8 == 0);
        }
        assert forall|i: int, j: int| 0 <= i < j < n implies #[trigger] kind_at(s, i)
            != #[trigger] kind_at(s, j) by {
            assert(entries[i].0 != entries[j].0);
        }
    }
    if directory_in_order(s) {
        assert forall|i: int| 0 <= i < n implies #[trigger] dir_pad(s, i) == 0 by {
            assert(be_u32_at(s, 60 + 16 * i) == 0);
        }
        assert(entries[0].1 == offset_at(s, 0));
        assert forall|i: int| 0 < i < entries.len() implies #[trigger] ascends_at(
            entries,
            i,
        ) by {
            assert(offset_at(s, i - 1) < offset_at(s, i));
            assert(dir_offset(s, i - 1) == offset_at(s, i - 1));
        }
        assert(entries.last() == entries[n - 1]);
        assert(dir_offset(s, n - 1) == offset_at(s, n - 1));
        assert forall|i: int| 0 <= i < entries.len() implies (#[trigger] entries[i]).1 % 8
            == 0 by {
            assert(offset_at(s, i) % 8 == 0);
        }
        assert forall|i: int, j: int| 0 <= i < j < entries.len() implies (
        #[trigger] entries[i]).0 != (#[trigger] entries[j]).0 by {
            assert(kind_at(s, i) != kind_at(s, j));
        }
    }
}

proof fn lemma_find(s: Seq<u8>, kind: u32, from: int)
    requires
        0 <= from,
    ensures
        ({
            let i = find_section(s, kind, from);
            &&& from <= i
            &&& i < count_at(s) ==> kind_at(s, i) == kind
            &&& forall|j: int| from <= j < i && j < count_at(s) ==> #[trigger] kind_at(s, j) != kind
            &&& from <= count_at(s) ==> i <= count_at(s)
        }),
    decreases count_at(s) - from,
{
    lemma_entry(s, from);
    if from < section_count(s) && dir_kind(s, from) != kind {
        lemma_find(s, kind, from + 1);
    }
}

/// The section of a kind is what stands from its offset on up to the next
/// section, or to the end of the image.
pub proof fn law_sections(s: Seq<u8>, kind: u32, i: int)
    requires
        directory_in_order(s),
    ensures
        0 <= i < count_at(s) && kind_at(s, i) == kind ==> section(s, kind) == Some(
            s.subrange(offset_at(s, i), end_at(s, i)),
        ),
        section(s, kind) is None <==> forall|j: int|
            0 <= j < count_at(s) ==> #[trigger] kind_at(s, j) != kind,
{
    lemma_find(s, kind, 0);
    let k = find_section(s, kind, 0);
    lemma_entry(s, k);
    lemma_entry(s, k + 1);
    if 0 <= i < count_at(s) && kind_at(s, i) == kind {
        if k < i {
            assert(kind_at(s, k) != kind_at(s, i));
        } else if i < k {
            assert(kind_at(s, i) != kind);
        }
    }
    if k < count_at(s) {
        assert(kind_at(s, k) == kind);
    }
}

/// An image opens exactly if its directory is in order and it has a readable
/// section of each of the kinds 1 to 6; what it holds is what its header and
/// these sections say, and the section of kind 7, if there is one, is its
/// playlist.
#[verifier::rlimit(40)]
pub proof fn law_opened_images(s: Seq<u8>)
    ensures
        match opened(s) {
            Ok(m) => {
                &&& directory_in_order(s)
                &&& m.max_segment_size == be_u32_at(s, 4)
                &&& m.source_mp4_len == be_u32_at(s, 8) * 0x1_0000_0000 + be_u32_at(s, 12)
                &&& m.source_mp4_blake3 == s.subrange(16, 48)
                &&& section(s, 1) is Some && video_meta(section(s, 1)->0) == Ok::<
                    _,
                    PackagerError,
                >(m.video_track)
                &&& section(s, 2) is Some && audio_meta(section(s, 2)->0) == Ok::<
                    _,
                    PackagerError,
                >(m.audio_track)
                &&& section(s, 3) is Some && sample_rows(section(s, 3)->0, true) == Ok::<
                    _,
                    PackagerError,
                >(m.video_samples)
                &&& section(s, 4) is Some && sample_rows(section(s, 4)->0, false) == Ok::<
                    _,
                    PackagerError,
                >(m.audio_samples)
                &&& section(s, 5) is Some && segment_rows(section(s, 5)->0) == Ok::<
                    _,
                    PackagerError,
                >(m.segments)
                &&& section(s, 6) == Some(m.init_segment)
                &&& m.playlist == section(s, 7)
            },
            Err(_) => {
                ||| !directory_in_order(s)
                ||| section(s, 1) is None || video_meta(section(s, 1)->0) is Err
                ||| section(s, 2) is None || audio_meta(section(s, 2)->0) is Err
                ||| section(s, 3) is None || sample_rows(section(s, 3)->0, true) is Err
                ||| section(s, 4) is None || sample_rows(section(s, 4)->0, false) is Err
                ||| section(s, 5) is None || segment_rows(section(s, 5)->0) is Err
                ||| section(s, 6) is None
            },
        },
{
    law_directories(s);
}

/// Whether the two blobs of a track, each behind its length, end a section
/// from place 16 on, with at most 7 zero bytes behind them.
pub open spec fn blobs_in_order(p: Seq<u8>, entry: Seq<u8>, elst: Seq<u8>) -> bool {
    let end = 24int + entry.len() + elst.len();
    &&& be_u32_at(p, 16) == entry.len()
    &&& end <= p.len() < end + 8
    &&& be_u32_at(p, 20int + entry.len()) == elst.len()
    &&& p.subrange(20, 20int + entry.len()) == entry
    &&& p.subrange(24int + entry.len(), end) == elst
    &&& forall|i: int| end <= i < p.len() ==> #[trigger] p[i] == 0
}

/// The video metadata: timescale, codec, width, height, and the two blobs.
pub proof fn law_video_metadata(p: Seq<u8>, entry: Seq<u8>, elst: Seq<u8>)
    requires
        20 <= p.len() <= usize::MAX,
    ensures
        video_meta(p) matches Ok(m) ==> {
            &&& m.timescale == be_u32_at(p, 0)
            &&& m.fourcc == p.subrange(4, 8)
            &&& m.width == be_u32_at(p, 8)
            &&& m.height == be_u32_at(p, 12)
            &&& blobs_in_order(p, m.sample_entry, m.elst)
        },
        blobs_in_order(p, entry, elst) ==> video_meta(p) is Ok && video_meta(p)->Ok_0.sample_entry
            == entry && video_meta(p)->Ok_0.elst == elst,
{
}

/// The audio metadata: timescale, codec, sample rate, channel count and three
/// zero bytes, and the two blobs.
pub proof fn law_audio_metadata(p: Seq<u8>, entry: Seq<u8>, elst: Seq<u8>)
    requires
        20 <= p.len() <= usize::MAX,
    ensures
        audio_meta(p) matches Ok(m) ==> {
            &&& m.timescale == be_u32_at(p, 0)
            &&& m.fourcc == p.subrange(4, 8)
            &&& m.sample_rate == be_u32_at(p, 8)
            &&& m.channel_count == p[12]
            &&& p[13] == 0 && p[14] == 0 && p[15] == 0
            &&& blobs_in_order(p, m.sample_entry, m.elst)
        },
        blobs_in_order(p, entry, elst) && p[13] == 0 && p[14] == 0 && p[15] == 0 ==> audio_meta(p)
            is Ok && audio_meta(p)->Ok_0.sample_entry == entry && audio_meta(p)->Ok_0.elst == elst,
{
}

/// The bytes of a row, the low one first.
pub proof fn law_rows_are_little_endian(s: Seq<u8>, at: int)
    ensures
        le_u32_at(s, at) == s[at] + s[at + 1] * 256 + s[at + 2] * 65536 + s[at + 3] * 16777216,
{
    reveal(le_u32_at);
}

/// A sample table: the number of rows, a zero word, and for each sample its
/// offset, size, duration, composition offset and flags.
pub proof fn law_sample_tables(p: Seq<u8>, video: bool)
    requires
        8 <= p.len() <= usize::MAX,
    ensures
        match sample_rows(p, video) {
            Ok(rows) => {
                &&& rows.len() == be_u32_at(p, 0)
                &&& be_u32_at(p, 4) == 0
                &&& p.len() == 8 + 24 * rows.len()
                &&& forall|k: int|
                    0 <= k < rows.len() ==> {
                        let at = 8 + 24 * k;
                        let row = #[trigger] rows[k];
                        let cts = le_u32_at(p, at + 16);
                        &&& row.offset == le_u32_at(p, at) + le_u32_at(p, at + 4) * 0x1_0000_0000
                        &&& row.size == le_u32_at(p, at + 8)
                        &&& row.dts_delta == le_u32_at(p, at + 12)
                        &&& row.cts_offset == if cts < 0x8000_0000 {
                            cts as int
                        } else {
                            cts - 0x1_0000_0000
                        }
                        &&& row.flags == le_u32_at(p, at + 20)
                    }
            },
            Err(_) => be_u32_at(p, 4) != 0 || p.len() != 8 + 24 * be_u32_at(p, 0),
        },
{
    assert forall|at: int| #[trigger] le_u64_at(p, at) == le_u32_at(p, at) + le_u32_at(p, at + 4)
        * 0x1_0000_0000 by {
        assert(le_u32_at(p, at) + le_u32_at(p, at + 4) * 0x1_0000_0000 <= u64::MAX);
    }
}

/// The segment table: the number of rows, a zero word, and for each segment
/// the first and the number of its video samples, the same of its audio
/// samples, and the times of both.
pub proof fn law_segment_tables(p: Seq<u8>)
    requires
        8 <= p.len() <= usize::MAX,
    ensures
        match segment_rows(p) {
            Ok(rows) => {
                &&& rows.len() == be_u32_at(p, 0)
                &&& be_u32_at(p, 4) == 0
                &&& p.len() == 8 + 32 * rows.len()
                &&& forall|k: int|
                    0 <= k < rows.len() ==> {
                        let at = 8 + 32 * k;
                        let row = #[trigger] rows[k];
                        &&& row.video_sample_start == le_u32_at(p, at)
                        &&& row.video_sample_count == le_u32_at(p, at + 4)
                        &&& row.audio_sample_start == le_u32_at(p, at + 8)
                        &&& row.audio_sample_count == le_u32_at(p, at + 12)
                        &&& row.video_base_dts == le_u32_at(p, at + 16) + le_u32_at(p, at + 20)
                            * 0x1_0000_0000
                        &&& row.audio_base_dts == le_u32_at(p, at + 24) + le_u32_at(p, at + 28)
                            * 0x1_0000_0000
                    }
            },
            Err(_) => be_u32_at(p, 4) != 0 || p.len() != 8 + 32 * be_u32_at(p, 0),
        },
{
    assert forall|at: int| #[trigger] le_u64_at(p, at) == le_u32_at(p, at) + le_u32_at(p, at + 4)
        * 0x1_0000_0000 by {
        assert(le_u32_at(p, at) + le_u32_at(p, at + 4) * 0x1_0000_0000 <= u64::MAX);
    }
}

/// Whether a blob holds the bytes of a range of the source.
pub open spec fn copied(src: Seq<u8>, range: ByteRange, blob: Seq<u8>) -> bool {
    &&& blob.len() == range.len
    &&& range.len > 0 ==> range.offset + range.len <= src.len() && blob == src.subrange(
        range.offset as int,
        range.offset + range.len,
    )
}

/// Whether the rows of an index say what the samples of a track say.
pub open spec fn rows_of_track(
    rows: Seq<SampleEntry>,
    samples: Seq<RawSampleEntry>,
    audio: bool,
) -> bool {
    &&& rows.len() == samples.len()
    &&& forall|k: int|
        0 <= k < rows.len() ==> {
            let row = #[trigger] rows[k];
            &&& row.offset == samples[k].offset
            &&& row.size == samples[k].size
            &&& row.dts_delta == samples[k].dts_delta
            &&& row.cts_offset == if audio { 0i32 } else { samples[k].cts_offset }
            &&& row.flags == if samples[k].is_sync { 1u32 } else { 0 }
        }
}

/// Whether an index says what a parse of its source says.
pub open spec fn says_what_is_parsed(src: Seq<u8>, p: MoovParse, index: IndexModel) -> bool {
    &&& index.video_track.timescale == p.video.timescale
    &&& index.video_track.width == p.video.width
    &&& index.video_track.height == p.video.height
    &&& index.video_track.fourcc.len() == 4
    &&& be_u32_at(index.video_track.fourcc, 0) == p.video.fourcc
    &&& copied(src, p.video.sample_entry, index.video_track.sample_entry)
    &&& match p.video.elst {
        Some(range) => copied(src, range, index.video_track.elst),
        None => index.video_track.elst.len() == 0,
    }
    &&& index.audio_track.timescale == p.audio.timescale
    &&& index.audio_track.sample_rate == p.audio.sample_rate
    &&& index.audio_track.channel_count == p.audio.channel_count
    &&& index.audio_track.fourcc.len() == 4
    &&& be_u32_at(index.audio_track.fourcc, 0) == p.audio.fourcc
    &&& copied(src, p.audio.sample_entry, index.audio_track.sample_entry)
    &&& match p.audio.elst {
        Some(range) => copied(src, range, index.audio_track.elst),
        None => index.audio_track.elst.len() == 0,
    }
}

proof fn lemma_copied(src: Seq<u8>, range: ByteRange, blob: Seq<u8>)
    requires
        range_bytes(src, range) == Ok::<_, PackagerError>(blob),
    ensures
        copied(src, range, blob),
{
}

proof fn lemma_rows_of_track(samples: Seq<RawSampleEntry>, audio: bool)
    ensures
        rows_of_track(to_rows(samples, audio), samples, audio),
{
    let rows = to_rows(samples, audio);
    assert forall|k: int| 0 <= k < rows.len() implies {
        let row = #[trigger] rows[k];
        &&& row.offset == samples[k].offset
        &&& row.size == samples[k].size
        &&& row.dts_delta == samples[k].dts_delta
        &&& row.cts_offset == if audio { 0i32 } else { samples[k].cts_offset }
        &&& row.flags == if samples[k].is_sync { 1u32 } else { 0 }
    } by {
        assert(rows[k] == to_row(samples[k], audio));
    }
}

proof fn lemma_blob_parts(src: Seq<u8>, p: MoovParse, b: Blobs)
    requires
        blobs(src, p) == Ok::<_, PackagerError>(b),
    ensures
        range_bytes(src, p.video.sample_entry) == Ok::<_, PackagerError>(b.video_entry),
        range_bytes(src, p.audio.sample_entry) == Ok::<_, PackagerError>(b.audio_entry),
        optional_bytes(src, p.video.elst) == Ok::<_, PackagerError>(b.video_elst),
        optional_bytes(src, p.audio.elst) == Ok::<_, PackagerError>(b.audio_elst),
{
}

proof fn lemma_draft_says(
    src: Seq<u8>,
    p: MoovParse,
    video: Seq<RawSampleEntry>,
    audio: Seq<RawSampleEntry>,
    segments: Seq<SegmentEntry>,
    b: Blobs,
    source_len: u64,
    digest: Seq<u8>,
)
    requires
        blobs(src, p) == Ok::<_, PackagerError>(b),
    ensures
        ({
            let draft = draft_of(
                p,
                to_rows(video, false),
                to_rows(audio, true),
                segments,
                b,
                source_len,
                digest,
            );
            &&& says_what_is_parsed(src, p, draft)
            &&& rows_of_track(draft.video_samples, video, false)
            &&& rows_of_track(draft.audio_samples, audio, true)
            &&& draft.segments == segments
            &&& draft.source_mp4_len == source_len
            &&& draft.source_mp4_blake3 == digest
        }),
{
    lemma_be32(p.video.fourcc);
    lemma_be32(p.audio.fourcc);
    lemma_blob_parts(src, p, b);
    lemma_copied(src, p.video.sample_entry, b.video_entry);
    lemma_copied(src, p.audio.sample_entry, b.audio_entry);
    if let Some(range) = p.video.elst {
        lemma_copied(src, range, b.video_elst);
    }
    if let Some(range) = p.audio.elst {
        lemma_copied(src, range, b.audio_elst);
    }
    lemma_rows_of_track(video, false);
    lemma_rows_of_track(audio, true);
}

proof fn lemma_draft_parts(src: Seq<u8>, source_len: u64, nominal: SegmentDuration)
    requires
        draft_index(src, source_len, nominal) is Ok,
    ensures
        ({
            let cut = cut_tracks(src, source_len, nominal)->Ok_0;
            &&& cut_tracks(src, source_len, nominal) is Ok
            &&& blobs(src, cut.moov) is Ok
            &&& source_len <= src.len()
            &&& draft_index(src, source_len, nominal)->Ok_0 == draft_of(
                cut.moov,
                to_rows(cut.video, false),
                to_rows(cut.audio, true),
                cut.segments,
                blobs(src, cut.moov)->Ok_0,
                source_len,
                blake3_digest(src.take(source_len as int))@,
            )
        }),
{
}

proof fn lemma_cut_parts(src: Seq<u8>, source_len: u64, nominal: SegmentDuration)
    requires
        cut_tracks(src, source_len, nominal) is Ok,
    ensures
        ({
            let cut = cut_tracks(src, source_len, nominal)->Ok_0;
            &&& top_level(src, source_len as int) == Ok::<_, PackagerError>(cut.moov)
            &&& walked(src, cut.moov.video.sample_table) == Ok::<_, PackagerError>(cut.video)
            &&& walked(src, cut.moov.audio.sample_table) == Ok::<_, PackagerError>(cut.audio)
            &&& segments_of(
                cut.video,
                cut.audio,
                cut.moov.video.timescale,
                cut.moov.audio.timescale,
                nominal,
            ) == Ok::<_, PackagerError>(cut.segments)
        }),
{
}

proof fn lemma_finished_says(src: Seq<u8>, draft: IndexModel)
    requires
        finish(draft, src) is Ok,
    ensures
        ({
            let index = finish(draft, src)->Ok_0;
            &&& index.video_track == draft.video_track
            &&& index.audio_track == draft.audio_track
            &&& index.video_samples == draft.video_samples
            &&& index.audio_samples == draft.audio_samples
            &&& index.segments == draft.segments
            &&& index.source_mp4_len == draft.source_mp4_len
            &&& index.source_mp4_blake3 == draft.source_mp4_blake3
        }),
{
}

/// The index of a source says what the source says: each track has its
/// timescale, codec, size or rate, its sample entry and edit list byte for
/// byte, and a row per sample; the segments are those that the file is cut
/// into; and the length and the digest are those of the source.
pub proof fn law_indexes_say_what_the_source_says(
    src: Seq<u8>,
    source_len: u64,
    nominal: SegmentDuration,
)
    requires
        index_of(src, source_len, nominal) is Ok,
    ensures
        ({
            let index = index_of(src, source_len, nominal)->Ok_0;
            let p = top_level(src, source_len as int)->Ok_0;
            let video = walked(src, p.video.sample_table)->Ok_0;
            let audio = walked(src, p.audio.sample_table)->Ok_0;
            &&& top_level(src, source_len as int) is Ok
            &&& walked(src, p.video.sample_table) is Ok
            &&& walked(src, p.audio.sample_table) is Ok
            &&& source_len <= src.len()
            &&& index.source_mp4_len == source_len
            &&& index.source_mp4_blake3 == blake3_digest(src.take(source_len as int))@
            &&& says_what_is_parsed(src, p, index)
            &&& rows_of_track(index.video_samples, video, false)
            &&& rows_of_track(index.audio_samples, audio, true)
            &&& segments_of(video, audio, p.video.timescale, p.audio.timescale, nominal) == Ok::<
                _,
                PackagerError,
            >(index.segments)
        }),
{
    let draft = draft_index(src, source_len, nominal)->Ok_0;
    lemma_draft_parts(src, source_len, nominal);
    lemma_cut_parts(src, source_len, nominal);
    let cut = cut_tracks(src, source_len, nominal)->Ok_0;
    lemma_draft_says(
        src,
        cut.moov,
        cut.video,
        cut.audio,
        cut.segments,
        blobs(src, cut.moov)->Ok_0,
        source_len,
        blake3_digest(src.take(source_len as int))@,
    );
    lemma_finished_says(src, draft);
}

/// Whether a range of the source can be copied.
pub open spec fn copyable(src: Seq<u8>, range: ByteRange) -> bool {
    range.len <= usize::MAX && (range.len == 0 || range.offset + range.len <= src.len())
}

/// A source that parses, whose tracks can be walked and cut, and that holds
/// all its bytes, can be indexed as far as rendering goes.
pub proof fn law_sound_sources_are_read(
    src: Seq<u8>,
    source_len: u64,
    nominal: SegmentDuration,
    p: MoovParse,
)
    requires
        top_level(src, source_len as int) == Ok::<_, PackagerError>(p),
        walked(src, p.video.sample_table) is Ok,
        walked(src, p.audio.sample_table) is Ok,
        segments_of(
            walked(src, p.video.sample_table)->Ok_0,
            walked(src, p.audio.sample_table)->Ok_0,
            p.video.timescale,
            p.audio.timescale,
            nominal,
        ) is Ok,
        copyable(src, p.video.sample_entry),
        copyable(src, p.audio.sample_entry),
        p.video.elst matches Some(range) ==> copyable(src, range),
        p.audio.elst matches Some(range) ==> copyable(src, range),
        source_len <= src.len(),
    ensures
        draft_index(src, source_len, nominal) is Ok,
{
    assert(cut_tracks(src, source_len, nominal) is Ok);
    assert(cut_tracks(src, source_len, nominal)->Ok_0.moov == p);
    assert(blobs(src, p) is Ok);
}

proof fn lemma_largest_ok(draft: IndexModel, src: Seq<u8>, n: nat)
    requires
        n <= draft.segments.len() <= u32::MAX,
        forall|i: u32|
            i < draft.segments.len() ==> (#[trigger] media_segment(draft, i, src)) is Ok
                && media_segment(draft, i, src)->Ok_0.len() <= u32::MAX,
    ensures
        largest_segment(draft, src, n) is Ok,
    decreases n,
{
    if n > 0 {
        lemma_largest_ok(draft, src, (n - 1) as nat);
        assert(media_segment(draft, (n - 1) as u32, src) is Ok);
    }
}

proof fn lemma_finishes(src: Seq<u8>, draft: IndexModel)
    requires
        init_segment(draft) is Ok,
        playlist(draft) is Ok,
        largest_segment(draft, src, draft.segments.len()) is Ok,
    ensures
        finish(draft, src) is Ok,
{
}

/// And it is indexed if all that goes into the index can be rendered: the init
/// segment, the playlist, and every media segment, none of 4 GiB or more.
#[verifier::rlimit(40)]
pub proof fn law_renderable_sources_are_indexed(
    src: Seq<u8>,
    source_len: u64,
    nominal: SegmentDuration,
)
    requires
        draft_index(src, source_len, nominal) is Ok,
        ({
            let draft = draft_index(src, source_len, nominal)->Ok_0;
            &&& init_segment(draft) is Ok
            &&& playlist(draft) is Ok
            &&& draft.segments.len() <= u32::MAX
            &&& draft.video_samples.len() <= u32::MAX
            &&& draft.audio_samples.len() <= u32::MAX
            &&& draft.video_track.sample_entry.len() <= u32::MAX
            &&& draft.video_track.elst.len() <= u32::MAX
            &&& draft.audio_track.sample_entry.len() <= u32::MAX
            &&& draft.audio_track.elst.len() <= u32::MAX
            &&& forall|i: u32|
                i < draft.segments.len() ==> (#[trigger] media_segment(draft, i, src)) is Ok
                    && media_segment(draft, i, src)->Ok_0.len() <= 0xffff_ffff
        }),
    ensures
        index_of(src, source_len, nominal) is Ok,
        built(src, source_len, nominal) is Ok,
{
    let draft = draft_index(src, source_len, nominal)->Ok_0;
    lemma_largest_ok(draft, src, draft.segments.len());
    lemma_finishes(src, draft);
    lemma_finished_says(src, draft);
    let index = finish(draft, src)->Ok_0;
    assert(index_of(src, source_len, nominal) == Ok::<_, PackagerError>(index));
    assert(encode_fault(index) is None);
}

/// An image lists seven sections: both metadata sections, both sample tables,
/// the segment table, the playlist and, last, the init segment.
pub proof fn law_images_list_seven_sections(m: IndexModel)
    requires
        storable(m),
    ensures
        count_at(image(m)) == 7,
        kind_at(image(m), 0) == 1,
        kind_at(image(m), 1) == 2,
        kind_at(image(m), 2) == 3,
        kind_at(image(m), 3) == 4,
        kind_at(image(m), 4) == 5,
        kind_at(image(m), 5) == 7,
        kind_at(image(m), 6) == 6,
{
    let s = image(m);
    let sections = sections_of(m);
    let (k0, k1, k2) = (sections[0].0, sections[1].0, sections[2].0);
    let (k3, k4, k5, k6) = (sections[3].0, sections[4].0, sections[5].0, sections[6].0);
    lemma_directory_entry(m, sections, 0);
    lemma_directory_entry(m, sections, 1);
    lemma_directory_entry(m, sections, 2);
    lemma_directory_entry(m, sections, 3);
    lemma_directory_entry(m, sections, 4);
    lemma_directory_entry(m, sections, 5);
    lemma_directory_entry(m, sections, 6);
    lemma_entry(s, 0);
    lemma_entry(s, 1);
    lemma_entry(s, 2);
    lemma_entry(s, 3);
    lemma_entry(s, 4);
    lemma_entry(s, 5);
    lemma_entry(s, 6);
    let rest = dir_bytes(sections, 7) + body(sections, 7);
    lemma_fixed_header(m, 7, rest);
    assert(s =~= fixed_header(m, 7) + rest);
}

/// An index is encoded exactly if its lengths and counts fit 32 bits.
pub proof fn law_encoding_fails_only_by_size(m: IndexModel)
    ensures
        encoded(m) is Ok <==> {
            &&& m.video_track.sample_entry.len() <= 0xffff_ffff
            &&& m.video_track.elst.len() <= 0xffff_ffff
            &&& m.audio_track.sample_entry.len() <= 0xffff_ffff
            &&& m.audio_track.elst.len() <= 0xffff_ffff
            &&& m.video_samples.len() <= 0xffff_ffff
            &&& m.audio_samples.len() <= 0xffff_ffff
            &&& m.segments.len() <= 0xffff_ffff
        },
        encoded(m) matches Ok(bytes) ==> bytes == image(m),
{
}

/// The digest of a source covers its first `len` bytes; a source that has
/// fewer is reported, with where it ends and how many are missing.
pub proof fn law_digests_cover_the_source(src: Seq<u8>, len: int)
    requires
        0 <= len <= u64::MAX,
        src.len() <= u64::MAX,
    ensures
        match source_digest(src, len) {
            Ok(digest) => len <= src.len() && digest == blake3_digest(src.subrange(0, len))@,
            Err(PackagerError::Io(IoError::SourceTruncated { offset, remaining })) => len
                > src.len() && offset == src.len() && offset + remaining == len,
            Err(_) => false,
        },
{
    if len <= src.len() {
        assert(src.take(len) =~= src.subrange(0, len));
    }
}

} // verus!
