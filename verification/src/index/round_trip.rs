//! What is written to an index is read back from it.

use vstd::prelude::*;

use crate::bytes::{
    be32, be64, be_u32_at, be_u64_at, group_bytes, lemma_be32_between, lemma_be64,
    lemma_be64_between,
};
use crate::error::PackagerError;
use crate::index::format::{
    lemma_sample_row, lemma_segment_row, sample_row_at, segment_row_at, SampleEntry, SegmentEntry,
    KIND_PLAYLIST_BYTES, MAGIC,
};
use crate::index::image::{
    audio_section, blob, body, dir_bytes, dir_entry, encode_fault, fixed_header, gap, image,
    lemma_dir_len, offset_of, padded_section, sample_row_bytes, sample_section, sections_of,
    segment_row_bytes, segment_section, video_section, zero_bytes, Section,
};
use crate::index::view::{
    ascends_at, audio_meta, dir_kind, dir_offset, dir_pad, directory, directory_fault, find_section,
    header_end, kinds_distinct, meta_blobs, opened, required_sections, sample_rows, section,
    section_count, section_end, sections_model, segment_rows, video_meta, AudioModel, IndexModel,
    Sections, VideoModel,
};

verus! {

/// The rows of a sample-table section read back.
proof fn lemma_sample_section(rows: Seq<SampleEntry>, video: bool)
    requires
        rows.len() <= u32::MAX,
        sample_section(rows).len() <= usize::MAX,
    ensures
        sample_section(rows).len() == 8 + 24 * rows.len(),
        sample_rows(sample_section(rows), video) == Ok::<_, PackagerError>(rows),
{
    broadcast use group_bytes;

    let s = sample_section(rows);
    let none = Seq::<u8>::empty();
    let n = rows.len() as u32;
    let bytes = sample_row_bytes(rows);
    lemma_sample_rows_len(rows);
    assert(s =~= none + be32(n) + (be32(0) + bytes));
    lemma_be32_between(s, none, n, be32(0) + bytes);
    assert(s =~= be32(n) + be32(0) + bytes);
    lemma_be32_between(s, be32(n), 0, bytes);
    let head = be32(n) + be32(0);
    assert forall|i: int| 0 <= i < rows.len() implies #[trigger] sample_row_at(s, 8 + 24 * i)
        == rows[i] by {
        lemma_sample_rows_at(rows, i);
        let pre = head + sample_row_bytes(rows.take(i));
        let post = bytes.skip(24 * i + 24);
        lemma_sample_rows_len(rows.take(i));
        assert(s =~= pre + rows[i].row() + post) by {
            lemma_sample_row(pre + rows[i].row() + post, pre, rows[i], post);
        }
        lemma_sample_row(s, pre, rows[i], post);
    }
    let got = Seq::new(n as nat, |i: int| sample_row_at(s, 8 + 24 * i));
    assert(got =~= rows);
}

proof fn lemma_sample_rows_len(rows: Seq<SampleEntry>)
    ensures
        sample_row_bytes(rows).len() == 24 * rows.len(),
    decreases rows.len(),
{
    if rows.len() > 0 {
        lemma_sample_rows_len(rows.drop_last());
        let none = Seq::<u8>::empty();
        lemma_sample_row(none + rows.last().row() + none, none, rows.last(), none);
    }
}

/// Row `i` stands between the rows before it and those after it.
proof fn lemma_sample_rows_at(rows: Seq<SampleEntry>, i: int)
    requires
        0 <= i < rows.len(),
    ensures
        sample_row_bytes(rows) == sample_row_bytes(rows.take(i)) + rows[i].row()
            + sample_row_bytes(rows).skip(24 * i + 24),
    decreases rows.len(),
{
    let all = sample_row_bytes(rows);
    let none = Seq::<u8>::empty();
    lemma_sample_rows_len(rows);
    lemma_sample_rows_len(rows.take(i));
    lemma_sample_row(none + rows[i].row() + none, none, rows[i], none);
    if i == rows.len() - 1 {
        assert(rows.take(i) =~= rows.drop_last());
        assert(all =~= sample_row_bytes(rows.take(i)) + rows[i].row() + all.skip(24 * i + 24));
    } else {
        let init = rows.drop_last();
        lemma_sample_rows_len(init);
        lemma_sample_rows_at(init, i);
        assert(init.take(i) =~= rows.take(i));
        let before = sample_row_bytes(init);
        assert(all =~= before + rows.last().row());
        assert(all.skip(24 * i + 24) =~= before.skip(24 * i + 24) + rows.last().row());
        assert(all =~= sample_row_bytes(rows.take(i)) + rows[i].row() + all.skip(24 * i + 24));
    }
}

/// The rows of the segment-table section read back.
proof fn lemma_segment_section(rows: Seq<SegmentEntry>)
    requires
        rows.len() <= u32::MAX,
        segment_section(rows).len() <= usize::MAX,
    ensures
        segment_section(rows).len() == 8 + 32 * rows.len(),
        segment_rows(segment_section(rows)) == Ok::<_, PackagerError>(rows),
{
    broadcast use group_bytes;

    let s = segment_section(rows);
    let none = Seq::<u8>::empty();
    let n = rows.len() as u32;
    let bytes = segment_row_bytes(rows);
    lemma_segment_rows_len(rows);
    assert(s =~= none + be32(n) + (be32(0) + bytes));
    lemma_be32_between(s, none, n, be32(0) + bytes);
    assert(s =~= be32(n) + be32(0) + bytes);
    lemma_be32_between(s, be32(n), 0, bytes);
    let head = be32(n) + be32(0);
    assert forall|i: int| 0 <= i < rows.len() implies #[trigger] segment_row_at(s, 8 + 32 * i)
        == rows[i] by {
        lemma_segment_rows_at(rows, i);
        let pre = head + segment_row_bytes(rows.take(i));
        let post = bytes.skip(32 * i + 32);
        lemma_segment_rows_len(rows.take(i));
        assert(s =~= pre + rows[i].row() + post) by {
            lemma_segment_row(pre + rows[i].row() + post, pre, rows[i], post);
        }
        lemma_segment_row(s, pre, rows[i], post);
    }
    let got = Seq::new(n as nat, |i: int| segment_row_at(s, 8 + 32 * i));
    assert(got =~= rows);
}

proof fn lemma_segment_rows_len(rows: Seq<SegmentEntry>)
    ensures
        segment_row_bytes(rows).len() == 32 * rows.len(),
    decreases rows.len(),
{
    if rows.len() > 0 {
        lemma_segment_rows_len(rows.drop_last());
        let none = Seq::<u8>::empty();
        lemma_segment_row(none + rows.last().row() + none, none, rows.last(), none);
    }
}

/// Row `i` stands between the rows before it and those after it.
proof fn lemma_segment_rows_at(rows: Seq<SegmentEntry>, i: int)
    requires
        0 <= i < rows.len(),
    ensures
        segment_row_bytes(rows) == segment_row_bytes(rows.take(i)) + rows[i].row()
            + segment_row_bytes(rows).skip(32 * i + 32),
    decreases rows.len(),
{
    let all = segment_row_bytes(rows);
    let none = Seq::<u8>::empty();
    lemma_segment_rows_len(rows);
    lemma_segment_rows_len(rows.take(i));
    lemma_segment_row(none + rows[i].row() + none, none, rows[i], none);
    if i == rows.len() - 1 {
        assert(rows.take(i) =~= rows.drop_last());
        assert(all =~= segment_row_bytes(rows.take(i)) + rows[i].row() + all.skip(32 * i + 32));
    } else {
        let init = rows.drop_last();
        lemma_segment_rows_len(init);
        lemma_segment_rows_at(init, i);
        assert(init.take(i) =~= rows.take(i));
        let before = segment_row_bytes(init);
        assert(all =~= before + rows.last().row());
        assert(all.skip(32 * i + 32) =~= before.skip(32 * i + 32) + rows.last().row());
        assert(all =~= segment_row_bytes(rows.take(i)) + rows[i].row() + all.skip(32 * i + 32));
    }
}

/// Two blobs after a 16-byte prefix, followed by at most 7 zero bytes, read
/// back.
proof fn lemma_meta_blobs(
    prefix: Seq<u8>,
    entry: Seq<u8>,
    elst: Seq<u8>,
    pad: nat,
    video: bool,
)
    requires
        prefix.len() == 16,
        entry.len() <= u32::MAX,
        elst.len() <= u32::MAX,
        pad < 8,
        prefix.len() + entry.len() + elst.len() + pad + 8 <= usize::MAX,
    ensures
        meta_blobs(prefix + blob(entry) + blob(elst) + zero_bytes(pad), video) == Ok::<
            _,
            PackagerError,
        >((entry, elst)),
{
    broadcast use group_bytes;

    let zeros = zero_bytes(pad);
    let s = prefix + blob(entry) + blob(elst) + zeros;
    let n = entry.len() as u32;
    let m = elst.len() as u32;
    let rest = entry + blob(elst) + zeros;
    assert(s =~= prefix + be32(n) + rest);
    lemma_be32_between(s, prefix, n, rest);
    let pre = prefix + be32(n) + entry;
    let post = elst + zeros;
    assert(s =~= pre + be32(m) + post);
    lemma_be32_between(s, pre, m, post);
    let end = 20int + n;
    assert(s.subrange(20, end) =~= entry);
    assert(s.subrange(end + 4, end + 4 + m) =~= elst);
    assert forall|i: int| end + 4 + m <= i < s.len() implies #[trigger] s[i] == 0 by {}
}

/// The video track-metadata section reads back.
proof fn lemma_video_section(m: VideoModel, pad: nat)
    requires
        m.fourcc.len() == 4,
        m.sample_entry.len() <= u32::MAX,
        m.elst.len() <= u32::MAX,
        pad < 8,
        video_section(m).len() + pad <= usize::MAX,
    ensures
        video_section(m).len() >= 24,
        video_meta(video_section(m) + zero_bytes(pad)) == Ok::<_, PackagerError>(m),
{
    broadcast use group_bytes;

    let s = video_section(m) + zero_bytes(pad);
    let prefix = be32(m.timescale) + m.fourcc + be32(m.width) + be32(m.height);
    let rest = blob(m.sample_entry) + blob(m.elst) + zero_bytes(pad);
    assert(s =~= prefix + blob(m.sample_entry) + blob(m.elst) + zero_bytes(pad));
    lemma_meta_blobs(prefix, m.sample_entry, m.elst, pad, true);
    let none = Seq::<u8>::empty();
    let q0 = m.fourcc + be32(m.width) + be32(m.height) + rest;
    assert(s =~= none + be32(m.timescale) + q0);
    lemma_be32_between(s, none, m.timescale, q0);
    assert(s.subrange(4, 8) =~= m.fourcc);
    let p1 = be32(m.timescale) + m.fourcc;
    let q1 = be32(m.height) + rest;
    assert(s =~= p1 + be32(m.width) + q1);
    lemma_be32_between(s, p1, m.width, q1);
    let p2 = p1 + be32(m.width);
    assert(s =~= p2 + be32(m.height) + rest);
    lemma_be32_between(s, p2, m.height, rest);
}

/// The audio track-metadata section reads back.
proof fn lemma_audio_section(m: AudioModel, pad: nat)
    requires
        m.fourcc.len() == 4,
        m.sample_entry.len() <= u32::MAX,
        m.elst.len() <= u32::MAX,
        pad < 8,
        audio_section(m).len() + pad <= usize::MAX,
    ensures
        audio_section(m).len() >= 24,
        audio_meta(audio_section(m) + zero_bytes(pad)) == Ok::<_, PackagerError>(m),
{
    broadcast use group_bytes;

    let s = audio_section(m) + zero_bytes(pad);
    let channels = seq![m.channel_count, 0u8, 0u8, 0u8];
    let prefix = be32(m.timescale) + m.fourcc + be32(m.sample_rate) + channels;
    let rest = blob(m.sample_entry) + blob(m.elst) + zero_bytes(pad);
    assert(s =~= prefix + blob(m.sample_entry) + blob(m.elst) + zero_bytes(pad));
    lemma_meta_blobs(prefix, m.sample_entry, m.elst, pad, false);
    let none = Seq::<u8>::empty();
    let q0 = m.fourcc + be32(m.sample_rate) + channels + rest;
    assert(s =~= none + be32(m.timescale) + q0);
    lemma_be32_between(s, none, m.timescale, q0);
    assert(s.subrange(4, 8) =~= m.fourcc);
    let p1 = be32(m.timescale) + m.fourcc;
    let q1 = channels + rest;
    assert(s =~= p1 + be32(m.sample_rate) + q1);
    lemma_be32_between(s, p1, m.sample_rate, q1);
    assert(s[12] == channels[0] && s[13] == channels[1] && s[14] == channels[2] && s[15]
        == channels[3]);
}

proof fn lemma_dir_entry_len(kind: u32, offset: u64)
    ensures
        dir_entry(kind, offset).len() == 16,
{
    broadcast use group_bytes;

    lemma_be64(offset);
}

/// Entry `i` stands between the entries before it and those after it.
proof fn lemma_dir_entry_at(sections: Seq<Section>, n: int, i: int)
    requires
        0 <= i < n,
    ensures
        dir_bytes(sections, i).len() == 16 * i,
        dir_bytes(sections, n).len() == 16 * n,
        dir_bytes(sections, n) == dir_bytes(sections, i) + dir_entry(
            sections[i].0,
            offset_of(sections, i) as u64,
        ) + dir_bytes(sections, n).skip(16 * i + 16),
    decreases n,
{
    lemma_dir_len(sections, i);
    lemma_dir_len(sections, n);
    lemma_dir_len(sections, n - 1);
    lemma_dir_entry_len(sections[i].0, offset_of(sections, i) as u64);
    lemma_dir_entry_len(sections[n - 1].0, offset_of(sections, n - 1) as u64);
    let all = dir_bytes(sections, n);
    let entry = dir_entry(sections[i].0, offset_of(sections, i) as u64);
    if i < n - 1 {
        lemma_dir_entry_at(sections, n - 1, i);
        let before = dir_bytes(sections, n - 1);
        let last = dir_entry(sections[n - 1].0, offset_of(sections, n - 1) as u64);
        assert(all =~= before + last);
        assert(all.skip(16 * i + 16) =~= before.skip(16 * i + 16) + last);
    }
    assert(all =~= dir_bytes(sections, i) + entry + all.skip(16 * i + 16));
}

/// Section `i` stands between the sections before it and those after it.
proof fn lemma_body_at(sections: Seq<Section>, n: int, i: int)
    requires
        0 <= i < n,
    ensures
        body(sections, i + 1).len() <= body(sections, n).len(),
        body(sections, n) == body(sections, i) + padded_section(sections, i) + body(
            sections,
            n,
        ).skip(body(sections, i + 1).len() as int),
    decreases n,
{
    let all = body(sections, n);
    let end = body(sections, i + 1).len() as int;
    if i < n - 1 {
        lemma_body_at(sections, n - 1, i);
        let before = body(sections, n - 1);
        let last = padded_section(sections, n - 1);
        assert(all =~= before + last);
        assert(all.skip(end) =~= before.skip(end) + last);
    }
    assert(all =~= body(sections, i) + padded_section(sections, i) + all.skip(end));
}

/// Sections that can be laid out: all but the last hold something.
spec fn layable(sections: Seq<Section>) -> bool {
    &&& 0 < sections.len() <= 64
    &&& forall|i: int| 0 <= i < sections.len() - 1 ==> (#[trigger] sections[i]).1.len() > 0
    &&& forall|i: int, j: int|
        0 <= i < j < sections.len() ==> (#[trigger] sections[i]).0 != (#[trigger] sections[j]).0
}

/// The sections before the last end at multiples of 8.
proof fn lemma_body_aligned(sections: Seq<Section>, i: int)
    requires
        0 <= i < sections.len(),
    ensures
        body(sections, i).len() % 8 == 0,
    decreases i,
{
    if i > 0 {
        lemma_body_aligned(sections, i - 1);
    }
}

/// The directory of an image reads back: kinds, zero words and offsets.
pub proof fn lemma_directory_entry(m: IndexModel, sections: Seq<Section>, i: int)
    requires
        sections.len() <= 64,
        0 <= i < sections.len(),
        m.source_mp4_blake3.len() == 32,
    ensures
        ({
            let n = sections.len() as int;
            let s = fixed_header(m, n as u32) + dir_bytes(sections, n) + body(sections, n);
            &&& dir_kind(s, i) == sections[i].0
            &&& dir_pad(s, i) == 0
            &&& dir_offset(s, i) == offset_of(sections, i) as u64
        }),
{
    broadcast use group_bytes;

    let n = sections.len() as int;
    let head = fixed_header(m, n as u32);
    let all = body(sections, n);
    let s = head + dir_bytes(sections, n) + all;
    lemma_be64(m.source_mp4_len);
    assert(head.len() == 56);
    lemma_dir_entry_at(sections, n, i);
    let kind = sections[i].0;
    let offset = offset_of(sections, i) as u64;
    lemma_be64(offset);
    let pre = head + dir_bytes(sections, i);
    let post = dir_bytes(sections, n).skip(16 * i + 16) + all;
    assert(s =~= pre + dir_entry(kind, offset) + post);
    assert(s =~= pre + be32(kind) + (be32(0) + be64(offset) + post));
    lemma_be32_between(s, pre, kind, be32(0) + be64(offset) + post);
    assert(s =~= (pre + be32(kind)) + be32(0) + (be64(offset) + post));
    lemma_be32_between(s, pre + be32(kind), 0, be64(offset) + post);
    assert(s =~= (pre + be32(kind) + be32(0)) + be64(offset) + post);
    lemma_be64_between(s, pre + be32(kind) + be32(0), offset, post);
    assert(header_end(i) == pre.len());
}

/// The fixed header of an image reads back.
pub proof fn lemma_fixed_header(m: IndexModel, count: u32, rest: Seq<u8>)
    requires
        m.source_mp4_blake3.len() == 32,
    ensures
        ({
            let s = fixed_header(m, count) + rest;
            &&& s.len() == 56 + rest.len()
            &&& be_u32_at(s, 0) == MAGIC
            &&& be_u32_at(s, 4) == m.max_segment_size
            &&& be_u64_at(s, 8) == m.source_mp4_len
            &&& s.subrange(16, 48) == m.source_mp4_blake3
            &&& be_u32_at(s, 48) == count
            &&& be_u32_at(s, 52) == 0
        }),
{
    broadcast use group_bytes;

    lemma_be64(m.source_mp4_len);
    let s = fixed_header(m, count) + rest;
    let none = Seq::<u8>::empty();
    let f0 = be32(MAGIC);
    let f1 = be32(m.max_segment_size);
    let f2 = be64(m.source_mp4_len);
    let f3 = m.source_mp4_blake3;
    let f4 = be32(count);
    let f5 = be32(0);
    let q4 = f5 + rest;
    let q2 = f3 + f4 + q4;
    let q1 = f2 + q2;
    assert(s =~= none + f0 + (f1 + q1));
    lemma_be32_between(s, none, MAGIC, f1 + q1);
    assert(s =~= f0 + f1 + q1);
    lemma_be32_between(s, f0, m.max_segment_size, q1);
    assert(s =~= (f0 + f1) + f2 + q2);
    lemma_be64_between(s, f0 + f1, m.source_mp4_len, q2);
    assert(s.subrange(16, 48) =~= f3);
    assert(s =~= (f0 + f1 + f2 + f3) + f4 + q4);
    lemma_be32_between(s, f0 + f1 + f2 + f3, count, q4);
    assert(s =~= (f0 + f1 + f2 + f3 + f4) + f5 + rest);
    lemma_be32_between(s, f0 + f1 + f2 + f3 + f4, 0, rest);
}

/// The image of sections that can be laid out has a sound directory, and each
/// section reads back with its padding.
#[verifier::rlimit(40)]
proof fn lemma_sections_read_back(m: IndexModel, sections: Seq<Section>)
    requires
        layable(sections),
        m.source_mp4_blake3.len() == 32,
        header_end(sections.len() as int) + body(sections, sections.len() as int).len()
            <= u64::MAX,
    ensures
        ({
            let n = sections.len() as int;
            let s = fixed_header(m, n as u32) + dir_bytes(sections, n) + body(sections, n);
            &&& directory_fault(s) is None
            &&& section_count(s) == n
            &&& forall|i: int| #![trigger sections[i]]
                0 <= i < n ==> {
                    &&& dir_kind(s, i) == sections[i].0
                    &&& s.subrange(dir_offset(s, i) as int, section_end(s, i)) == padded_section(
                        sections,
                        i,
                    )
                }
        }),
{
    let n = sections.len() as int;
    let head = fixed_header(m, n as u32);
    let dir = dir_bytes(sections, n);
    let all = body(sections, n);
    let s = head + dir + all;
    assert(s =~= head + (dir + all));
    lemma_fixed_header(m, n as u32, dir + all);
    lemma_dir_entry_at(sections, n, 0);
    assert(head.len() == 56) by {
        lemma_fixed_header(m, n as u32, Seq::<u8>::empty());
        assert(head + Seq::<u8>::empty() =~= head);
    }
    assert forall|i: int| 0 <= i < n implies dir_offset(s, i) == offset_of(sections, i)
        && dir_kind(s, i) == sections[i].0 && #[trigger] dir_pad(s, i) == 0 by {
        lemma_directory_entry(m, sections, i);
        lemma_body_at(sections, n, i);
    }
    assert forall|i: int| 0 <= i < n implies #[trigger] directory(s)[i] == (
        sections[i].0,
        offset_of(sections, i) as u64,
    ) by {
        assert(dir_pad(s, i) == 0);
    }
    let entries = directory(s);
    assert forall|i: int| 0 < i < n implies #[trigger] ascends_at(entries, i) by {
        assert(dir_pad(s, i) == 0 && dir_pad(s, i - 1) == 0);
        assert(entries[i].1 == offset_of(sections, i));
        assert(entries[i - 1].1 == offset_of(sections, i - 1));
        assert(sections[i - 1].1.len() > 0);
    }
    assert forall|i: int| 0 <= i < n implies (#[trigger] entries[i]).1 % 8 == 0 by {
        assert(dir_pad(s, i) == 0);
        lemma_body_aligned(sections, i);
        assert(entries[i].1 == offset_of(sections, i));
    }
    assert(kinds_distinct(entries)) by {
        assert forall|i: int, j: int| 0 <= i < j < n implies (#[trigger] entries[i]).0 != (
        #[trigger] entries[j]).0 by {
            assert(sections[i].0 != sections[j].0);
        }
    }
    assert(entries[n - 1].1 <= s.len()) by {
        assert(dir_pad(s, n - 1) == 0);
        lemma_body_at(sections, n, n - 1);
    }
    assert(dir_pad(s, 0) == 0);
    assert(directory_fault(s) is None);
    assert forall|i: int| #![trigger sections[i]] 0 <= i < n implies {
        &&& dir_kind(s, i) == sections[i].0
        &&& s.subrange(dir_offset(s, i) as int, section_end(s, i)) == padded_section(sections, i)
    } by {
        assert(dir_pad(s, i) == 0);
        lemma_body_at(sections, n, i);
        let pre = head + dir + body(sections, i);
        let part = padded_section(sections, i);
        if i + 1 < n {
            assert(dir_pad(s, i + 1) == 0);
        }
        assert(section_end(s, i) == pre.len() + part.len());
        let at = pre.len() as int;
        assert(s.subrange(at, at + part.len()) =~= part);
    }
}

/// An index that can be stored: its lengths and counts fit, and its playlist
/// is a positive multiple of 8 long.
pub open spec fn storable(m: IndexModel) -> bool {
    &&& m.source_mp4_blake3.len() == 32
    &&& m.video_track.fourcc.len() == 4
    &&& m.audio_track.fourcc.len() == 4
    &&& encode_fault(m) is None
    &&& m.playlist matches Some(p) && p.len() > 0 && p.len() % 8 == 0
    &&& image(m).len() <= usize::MAX
}

/// The directory entry with the kind of section `i` is entry `i`.
proof fn lemma_find_section(s: Seq<u8>, sections: Seq<Section>, i: int, from: int)
    requires
        0 <= from <= i < sections.len(),
        section_count(s) == sections.len(),
        forall|k: int| #![trigger sections[k]]
            0 <= k < sections.len() ==> dir_kind(s, k) == sections[k].0,
        forall|k: int, l: int|
            0 <= k < l < sections.len() ==> (#[trigger] sections[k]).0 != (
            #[trigger] sections[l]).0,
    ensures
        find_section(s, sections[i].0, from) == i,
    decreases i - from,
{
    assert(dir_kind(s, from) == sections[from].0);
    if from < i {
        assert(sections[from].0 != sections[i].0);
        lemma_find_section(s, sections, i, from + 1);
    }
}

/// Each section of an image is found by its kind.
proof fn lemma_section_found(m: IndexModel, i: int)
    requires
        m.source_mp4_blake3.len() == 32,
        layable(sections_of(m)),
        image(m).len() <= u64::MAX,
        0 <= i < 7,
    ensures
        directory_fault(image(m)) is None,
        section(image(m), sections_of(m)[i].0) == Some(padded_section(sections_of(m), i)),
{
    let sections = sections_of(m);
    let s = image(m);
    let rest = dir_bytes(sections, 7) + body(sections, 7);
    lemma_dir_entry_at(sections, 7, 0);
    lemma_fixed_header(m, 7, rest);
    assert(s =~= fixed_header(m, 7) + rest);
    lemma_sections_read_back(m, sections);
    lemma_find_section(s, sections, i, 0);
    let (kind, _) = sections[i];
    assert(dir_kind(s, i) == kind);
}

/// The sections of an index that can be stored can be laid out, fit in
/// memory, and all but the first two have a multiple of 8 bytes.
#[verifier::rlimit(40)]
proof fn lemma_storable_sections(m: IndexModel)
    requires
        storable(m),
    ensures
        layable(sections_of(m)),
        forall|i: int| 0 <= i < 7 ==> (#[trigger] sections_of(m)[i]).1.len() <= usize::MAX,
        padded_section(sections_of(m), 0).len() <= usize::MAX,
        padded_section(sections_of(m), 1).len() <= usize::MAX,
        forall|i: int|
            2 <= i < 7 ==> #[trigger] padded_section(sections_of(m), i) == sections_of(m)[i].1,
{
    broadcast use group_bytes;

    let sections = sections_of(m);
    let bytes = body(sections, 7);
    assert(bytes.len() <= image(m).len());
    assert forall|i: int| 0 <= i < 7 implies (#[trigger] sections[i]).1.len() <= usize::MAX
        && padded_section(sections, i).len() <= usize::MAX by {
        lemma_body_at(sections, 7, i);
    }
    assert(padded_section(sections, 0).len() <= usize::MAX) by {
        assert(sections[0].1.len() <= usize::MAX);
    }
    assert(padded_section(sections, 1).len() <= usize::MAX) by {
        assert(sections[1].1.len() <= usize::MAX);
    }
    assert(sections[2].1.len() <= usize::MAX);
    assert(sections[3].1.len() <= usize::MAX);
    assert(sections[4].1.len() <= usize::MAX);
    lemma_sample_section(m.video_samples, true);
    lemma_sample_section(m.audio_samples, false);
    lemma_segment_section(m.segments);
    assert forall|i: int| 2 <= i < 7 implies #[trigger] padded_section(sections, i)
        == sections[i].1 by {
        if i < 6 {
            assert(gap(sections[i].1.len()) == 0);
        }
        assert(padded_section(sections, i) =~= sections[i].1);
    }
    assert(sections[0].1.len() > 0 && sections[1].1.len() > 0);
}

/// Reading an image gives back the index it was made from: every accessor of
/// a view that opens the image returns what the index holds.
#[verifier::rlimit(40)]
pub proof fn law_index_round_trip(m: IndexModel)
    requires
        storable(m),
    ensures
        opened(image(m)) == Ok::<_, PackagerError>(m),
{
    let sections = sections_of(m);
    let s = image(m);
    lemma_storable_sections(m);
    lemma_section_found(m, 0);
    lemma_section_found(m, 1);
    lemma_section_found(m, 2);
    lemma_section_found(m, 3);
    lemma_section_found(m, 4);
    lemma_section_found(m, 5);
    lemma_section_found(m, 6);
    let found = Sections {
        video_meta: padded_section(sections, 0),
        audio_meta: padded_section(sections, 1),
        video_samples: sample_section(m.video_samples),
        audio_samples: sample_section(m.audio_samples),
        segments: segment_section(m.segments),
        init_segment: m.init_segment,
    };
    assert(padded_section(sections, 2) == sections[2].1);
    assert(padded_section(sections, 3) == sections[3].1);
    assert(padded_section(sections, 4) == sections[4].1);
    assert(padded_section(sections, 5) == sections[5].1);
    assert(padded_section(sections, 6) == sections[6].1);
    assert(required_sections(s) == Ok::<_, PackagerError>(found));
    lemma_sections_model(m, s, found);
}

/// The sections of an index say what the index holds.
#[verifier::rlimit(40)]
proof fn lemma_sections_model(m: IndexModel, s: Seq<u8>, found: Sections)
    requires
        storable(m),
        s == image(m),
        found == (Sections {
            video_meta: padded_section(sections_of(m), 0),
            audio_meta: padded_section(sections_of(m), 1),
            video_samples: sample_section(m.video_samples),
            audio_samples: sample_section(m.audio_samples),
            segments: segment_section(m.segments),
            init_segment: m.init_segment,
        }),
        section(s, KIND_PLAYLIST_BYTES) == m.playlist,
    ensures
        sections_model(s, found) == Ok::<_, PackagerError>(m),
{
    let sections = sections_of(m);
    let rest = dir_bytes(sections, 7) + body(sections, 7);
    lemma_storable_sections(m);
    assert(sections[0].1 == video_section(m.video_track));
    assert(sections[1].1 == audio_section(m.audio_track));
    assert(sections[2].1 == sample_section(m.video_samples));
    assert(sections[3].1 == sample_section(m.audio_samples));
    assert(sections[4].1 == segment_section(m.segments));
    lemma_video_section(m.video_track, gap(sections[0].1.len()));
    lemma_audio_section(m.audio_track, gap(sections[1].1.len()));
    lemma_sample_section(m.video_samples, true);
    lemma_sample_section(m.audio_samples, false);
    lemma_segment_section(m.segments);
    lemma_fixed_header(m, 7, rest);
    assert(s =~= fixed_header(m, 7) + rest);
}

} // verus!
