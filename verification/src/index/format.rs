//! `.idx` rows and constants, shared by the builder and the view.

use vstd::prelude::*;

use crate::bytes::{
    group_bytes, i32_pattern, i32_to_pattern, le32, le64, le_u32, le_u32_at, le_u64, le_u64_at,
    lemma_i32_pattern, lemma_le32_between, lemma_le64, lemma_le64_between, pattern_i32,
    pattern_to_i32, push_le_u32, push_le_u64,
};

verus! {

/// First 4 bytes of every index: `HCMI`.
pub const MAGIC: u32 = 0x4843_4d49;

/// Fixed-length prefix: magic + max_segment_size + source_mp4_len +
/// source_mp4_blake3 + section_count + reserved.
pub const HEADER_FIXED_LEN: usize = 56;

/// Size of one directory entry: `kind: u32 + pad: u32 + offset: u64`.
pub const SECTION_DIR_ENTRY_LEN: usize = 16;

/// Maximum number of sections that one index may declare.
pub const MAX_SECTIONS: usize = 64;

pub const KIND_VIDEO_TRACK_META: u32 = 0x01;
pub const KIND_AUDIO_TRACK_META: u32 = 0x02;
pub const KIND_VIDEO_SAMPLE_TABLE: u32 = 0x03;
pub const KIND_AUDIO_SAMPLE_TABLE: u32 = 0x04;
pub const KIND_SEGMENT_TABLE: u32 = 0x05;
pub const KIND_INIT_SEGMENT_BYTES: u32 = 0x06;
pub const KIND_PLAYLIST_BYTES: u32 = 0x07;

/// Bytes of one sample row.
pub const SAMPLE_ROW_LEN: usize = 24;

/// Bytes of one segment row.
pub const SEGMENT_ROW_LEN: usize = 32;

/// Per-sample row of a sample-table section.
#[derive(Debug, Clone, Copy, PartialEq, Eq, Structural)]
pub struct SampleEntry {
    /// Byte offset of the sample in the source MP4.
    pub offset: u64,
    /// Sample size in bytes.
    pub size: u32,
    /// Delta from the previous sample's DTS, in track timescale.
    pub dts_delta: u32,
    /// Composition offset (audio: always 0).
    pub cts_offset: i32,
    /// Bit 0 = is_sync; remaining bits are reserved (must be 0).
    pub flags: u32,
}

/// Bit 0 of [`SampleEntry::flags`]: set iff this is a sync sample.
pub const SAMPLE_FLAG_IS_SYNC: u32 = 0x0000_0001;

impl SampleEntry {
    /// Bit 0 of the flags is set.
    pub open spec fn spec_is_sync(self) -> bool {
        self.flags % 2 == 1
    }

    /// True iff bit 0 of [`Self::flags`] is set.
    pub fn is_sync(&self) -> (r: bool)
        ensures
            r == self.spec_is_sync(),
    {
        let flags: u32 = self.flags;
        assert((flags & 0x0000_0001 != 0) == (flags % 2 == 1)) by (bit_vector);
        (flags & SAMPLE_FLAG_IS_SYNC) != 0
    }

    /// The row as it stands in an index.
    pub open spec fn row(self) -> Seq<u8> {
        le64(self.offset) + le32(self.size) + le32(self.dts_delta) + le32(
            i32_pattern(self.cts_offset),
        ) + le32(self.flags)
    }
}

/// The sample row at `at`.
pub open spec fn sample_row_at(s: Seq<u8>, at: int) -> SampleEntry {
    SampleEntry {
        offset: le_u64_at(s, at),
        size: le_u32_at(s, at + 8),
        dts_delta: le_u32_at(s, at + 12),
        cts_offset: pattern_i32(le_u32_at(s, at + 16)),
        flags: le_u32_at(s, at + 20),
    }
}

/// One row of the segment table. It carries the cumulative DTS at the start
/// of the segment in either track.
#[derive(Debug, Clone, Copy, PartialEq, Eq, Structural)]
pub struct SegmentEntry {
    pub video_sample_start: u32,
    pub video_sample_count: u32,
    pub audio_sample_start: u32,
    pub audio_sample_count: u32,
    /// Cumulative DTS at segment start, in video timescale.
    pub video_base_dts: u64,
    /// Cumulative DTS at segment start, in audio timescale.
    pub audio_base_dts: u64,
}

impl SegmentEntry {
    /// The row as it stands in an index.
    pub open spec fn row(self) -> Seq<u8> {
        le32(self.video_sample_start) + le32(self.video_sample_count) + le32(
            self.audio_sample_start,
        ) + le32(self.audio_sample_count) + le64(self.video_base_dts) + le64(self.audio_base_dts)
    }
}

/// The segment row at `at`.
pub open spec fn segment_row_at(s: Seq<u8>, at: int) -> SegmentEntry {
    SegmentEntry {
        video_sample_start: le_u32_at(s, at),
        video_sample_count: le_u32_at(s, at + 4),
        audio_sample_start: le_u32_at(s, at + 8),
        audio_sample_count: le_u32_at(s, at + 12),
        video_base_dts: le_u64_at(s, at + 16),
        audio_base_dts: le_u64_at(s, at + 24),
    }
}

/// Appends a sample row.
pub(crate) fn push_sample_row(out: &mut Vec<u8>, sample: &SampleEntry)
    ensures
        final(out)@ == old(out)@ + sample.row(),
{
    push_le_u64(out, sample.offset);
    push_le_u32(out, sample.size);
    push_le_u32(out, sample.dts_delta);
    push_le_u32(out, i32_to_pattern(sample.cts_offset));
    push_le_u32(out, sample.flags);
    assert(out@ =~= old(out)@ + sample.row());
}

/// Appends a segment row.
pub(crate) fn push_segment_row(out: &mut Vec<u8>, segment: &SegmentEntry)
    ensures
        final(out)@ == old(out)@ + segment.row(),
{
    push_le_u32(out, segment.video_sample_start);
    push_le_u32(out, segment.video_sample_count);
    push_le_u32(out, segment.audio_sample_start);
    push_le_u32(out, segment.audio_sample_count);
    push_le_u64(out, segment.video_base_dts);
    push_le_u64(out, segment.audio_base_dts);
    assert(out@ =~= old(out)@ + segment.row());
}

/// Reads the sample row at `at`.
pub(crate) fn read_sample_row(buf: &[u8], at: usize) -> (r: SampleEntry)
    requires
        at + 24 <= buf.len(),
    ensures
        r == sample_row_at(buf@, at as int),
{
    SampleEntry {
        offset: le_u64(buf, at),
        size: le_u32(buf, at + 8),
        dts_delta: le_u32(buf, at + 12),
        cts_offset: pattern_to_i32(le_u32(buf, at + 16)),
        flags: le_u32(buf, at + 20),
    }
}

/// Reads the segment row at `at`.
pub(crate) fn read_segment_row(buf: &[u8], at: usize) -> (r: SegmentEntry)
    requires
        at + 32 <= buf.len(),
    ensures
        r == segment_row_at(buf@, at as int),
{
    SegmentEntry {
        video_sample_start: le_u32(buf, at),
        video_sample_count: le_u32(buf, at + 4),
        audio_sample_start: le_u32(buf, at + 8),
        audio_sample_count: le_u32(buf, at + 12),
        video_base_dts: le_u64(buf, at + 16),
        audio_base_dts: le_u64(buf, at + 24),
    }
}

/// A sample row between other bytes reads back.
pub proof fn lemma_sample_row(s: Seq<u8>, pre: Seq<u8>, sample: SampleEntry, post: Seq<u8>)
    requires
        s == pre + sample.row() + post,
    ensures
        sample.row().len() == SAMPLE_ROW_LEN,
        sample_row_at(s, pre.len() as int) == sample,
{
    broadcast use group_bytes;

    lemma_le64(sample.offset);
    lemma_i32_pattern(sample.cts_offset);
    let f0 = le64(sample.offset);
    let f1 = le32(sample.size);
    let f2 = le32(sample.dts_delta);
    let f3 = le32(i32_pattern(sample.cts_offset));
    let f4 = le32(sample.flags);
    let q4 = post;
    let q3 = f4 + q4;
    let q2 = f3 + q3;
    let q1 = f2 + q2;
    let q0 = f1 + q1;
    assert(s =~= pre + f0 + q0);
    assert(s =~= (pre + f0) + f1 + q1);
    assert(s =~= (pre + f0 + f1) + f2 + q2);
    assert(s =~= (pre + f0 + f1 + f2) + f3 + q3);
    assert(s =~= (pre + f0 + f1 + f2 + f3) + f4 + q4);
    lemma_le64_between(s, pre, sample.offset, q0);
    lemma_le32_between(s, pre + f0, sample.size, q1);
    lemma_le32_between(s, pre + f0 + f1, sample.dts_delta, q2);
    lemma_le32_between(s, pre + f0 + f1 + f2, i32_pattern(sample.cts_offset), q3);
    lemma_le32_between(s, pre + f0 + f1 + f2 + f3, sample.flags, q4);
}

/// A segment row between other bytes reads back.
pub proof fn lemma_segment_row(s: Seq<u8>, pre: Seq<u8>, segment: SegmentEntry, post: Seq<u8>)
    requires
        s == pre + segment.row() + post,
    ensures
        segment.row().len() == SEGMENT_ROW_LEN,
        segment_row_at(s, pre.len() as int) == segment,
{
    broadcast use group_bytes;

    lemma_le64(segment.video_base_dts);
    lemma_le64(segment.audio_base_dts);
    let f0 = le32(segment.video_sample_start);
    let f1 = le32(segment.video_sample_count);
    let f2 = le32(segment.audio_sample_start);
    let f3 = le32(segment.audio_sample_count);
    let f4 = le64(segment.video_base_dts);
    let f5 = le64(segment.audio_base_dts);
    let q5 = post;
    let q4 = f5 + q5;
    let q3 = f4 + q4;
    let q2 = f3 + q3;
    let q1 = f2 + q2;
    let q0 = f1 + q1;
    assert(s =~= pre + f0 + q0);
    assert(s =~= (pre + f0) + f1 + q1);
    assert(s =~= (pre + f0 + f1) + f2 + q2);
    assert(s =~= (pre + f0 + f1 + f2) + f3 + q3);
    assert(s =~= (pre + f0 + f1 + f2 + f3) + f4 + q4);
    assert(s =~= (pre + f0 + f1 + f2 + f3 + f4) + f5 + q5);
    lemma_le32_between(s, pre, segment.video_sample_start, q0);
    lemma_le32_between(s, pre + f0, segment.video_sample_count, q1);
    lemma_le32_between(s, pre + f0 + f1, segment.audio_sample_start, q2);
    lemma_le32_between(s, pre + f0 + f1 + f2, segment.audio_sample_count, q3);
    lemma_le64_between(s, pre + f0 + f1 + f2 + f3, segment.video_base_dts, q4);
    lemma_le64_between(s, pre + f0 + f1 + f2 + f3 + f4, segment.audio_base_dts, q5);
}

} // verus!
