//! Layout of the `.idx` byte image.
//!
//! An image is the fixed header, the section directory, and the sections, each
//! of which starts at a multiple of 8. A section's length is implied by the
//! next directory offset, or by the end of the image for the last one. The
//! init segment comes last, so that no padding follows it; the playlist comes
//! before it and is padded with newlines to a multiple of 8 when it is
//! rendered, so that no zero bytes follow it either.

use vstd::prelude::*;

use crate::bytes::{be32, be64, group_bytes, lemma_be64, push_bytes, push_u32, push_u64, zeros};
use crate::error::{IoError, PackagerError};
use crate::index::format::{
    push_sample_row, push_segment_row, SampleEntry, SegmentEntry, HEADER_FIXED_LEN,
    KIND_AUDIO_SAMPLE_TABLE, KIND_AUDIO_TRACK_META, KIND_INIT_SEGMENT_BYTES, KIND_PLAYLIST_BYTES,
    KIND_SEGMENT_TABLE, KIND_VIDEO_SAMPLE_TABLE, KIND_VIDEO_TRACK_META, MAGIC,
    SECTION_DIR_ENTRY_LEN,
};
use crate::index::view::{
    header_end, AudioModel, AudioTrackMeta, IndexModel, IndexView, VideoModel, VideoTrackMeta,
};

verus! {

/// `n` zero bytes.
pub open spec fn zero_bytes(n: nat) -> Seq<u8> {
    Seq::new(n, |i: int| 0u8)
}

/// The bytes that are missing from `len` to a multiple of 8.
pub open spec fn gap(len: nat) -> nat {
    ((8 - len % 8) % 8) as nat
}

/// A blob with its length in front.
pub open spec fn blob(bytes: Seq<u8>) -> Seq<u8> {
    be32(bytes.len() as u32) + bytes
}

/// The video track-metadata section.
pub open spec fn video_section(m: VideoModel) -> Seq<u8> {
    be32(m.timescale) + m.fourcc + be32(m.width) + be32(m.height) + blob(m.sample_entry) + blob(
        m.elst,
    )
}

/// The audio track-metadata section.
pub open spec fn audio_section(m: AudioModel) -> Seq<u8> {
    be32(m.timescale) + m.fourcc + be32(m.sample_rate) + seq![m.channel_count, 0u8, 0u8, 0u8]
        + blob(m.sample_entry) + blob(m.elst)
}

/// Sample rows, one after the other.
pub open spec fn sample_row_bytes(rows: Seq<SampleEntry>) -> Seq<u8>
    decreases rows.len(),
{
    if rows.len() == 0 {
        Seq::empty()
    } else {
        sample_row_bytes(rows.drop_last()) + rows.last().row()
    }
}

/// Segment rows, one after the other.
pub open spec fn segment_row_bytes(rows: Seq<SegmentEntry>) -> Seq<u8>
    decreases rows.len(),
{
    if rows.len() == 0 {
        Seq::empty()
    } else {
        segment_row_bytes(rows.drop_last()) + rows.last().row()
    }
}

/// A sample-table section: the count, a zero word, the rows.
pub open spec fn sample_section(rows: Seq<SampleEntry>) -> Seq<u8> {
    be32(rows.len() as u32) + be32(0) + sample_row_bytes(rows)
}

/// The segment-table section: the count, a zero word, the rows.
pub open spec fn segment_section(rows: Seq<SegmentEntry>) -> Seq<u8> {
    be32(rows.len() as u32) + be32(0) + segment_row_bytes(rows)
}

/// A section: its kind and its content.
pub type Section = (u32, Seq<u8>);

/// The sections of an index, in the order of the image.
pub open spec fn sections_of(m: IndexModel) -> Seq<Section> {
    seq![
        (KIND_VIDEO_TRACK_META, video_section(m.video_track)),
        (KIND_AUDIO_TRACK_META, audio_section(m.audio_track)),
        (KIND_VIDEO_SAMPLE_TABLE, sample_section(m.video_samples)),
        (KIND_AUDIO_SAMPLE_TABLE, sample_section(m.audio_samples)),
        (KIND_SEGMENT_TABLE, segment_section(m.segments)),
        (KIND_PLAYLIST_BYTES, m.playlist->0),
        (KIND_INIT_SEGMENT_BYTES, m.init_segment),
    ]
}

/// Section `i` with the padding that follows it.
pub open spec fn padded_section(sections: Seq<Section>, i: int) -> Seq<u8> {
    if i + 1 < sections.len() {
        sections[i].1 + zero_bytes(gap(sections[i].1.len()))
    } else {
        sections[i].1
    }
}

/// The first `n` sections with their padding.
pub open spec fn body(sections: Seq<Section>, n: int) -> Seq<u8>
    decreases n,
{
    if n <= 0 {
        Seq::empty()
    } else {
        body(sections, n - 1) + padded_section(sections, n - 1)
    }
}

/// Where section `i` starts.
pub open spec fn offset_of(sections: Seq<Section>, i: int) -> int {
    header_end(sections.len() as int) + body(sections, i).len()
}

/// One directory entry.
pub open spec fn dir_entry(kind: u32, offset: u64) -> Seq<u8> {
    be32(kind) + be32(0) + be64(offset)
}

/// The first `n` directory entries.
pub open spec fn dir_bytes(sections: Seq<Section>, n: int) -> Seq<u8>
    decreases n,
{
    if n <= 0 {
        Seq::empty()
    } else {
        dir_bytes(sections, n - 1) + dir_entry(
            sections[n - 1].0,
            offset_of(sections, n - 1) as u64,
        )
    }
}

/// The fixed header.
pub open spec fn fixed_header(m: IndexModel, count: u32) -> Seq<u8> {
    be32(MAGIC) + be32(m.max_segment_size) + be64(m.source_mp4_len) + m.source_mp4_blake3 + be32(
        count,
    ) + be32(0)
}

/// The byte image of an index.
pub open spec fn image(m: IndexModel) -> Seq<u8> {
    let sections = sections_of(m);
    let n = sections.len() as int;
    fixed_header(m, n as u32) + dir_bytes(sections, n) + body(sections, n)
}

/// A blob whose length does not fit its prefix.
pub open spec fn blob_too_large(name: &'static str, len: nat) -> Option<PackagerError> {
    Some(PackagerError::Io(IoError::BlobTooLarge { name, len: len as u64 }))
}

/// Why an index cannot be encoded: a length or a count does not fit in 32
/// bits.
pub open spec fn encode_fault(m: IndexModel) -> Option<PackagerError> {
    if m.video_track.sample_entry.len() > u32::MAX {
        blob_too_large("video sample_entry", m.video_track.sample_entry.len())
    } else if m.video_track.elst.len() > u32::MAX {
        blob_too_large("video elst", m.video_track.elst.len())
    } else if m.audio_track.sample_entry.len() > u32::MAX {
        blob_too_large("audio sample_entry", m.audio_track.sample_entry.len())
    } else if m.audio_track.elst.len() > u32::MAX {
        blob_too_large("audio elst", m.audio_track.elst.len())
    } else if m.video_samples.len() > u32::MAX {
        Some(PackagerError::SampleTableInconsistent("video sample count exceeds u32::MAX"))
    } else if m.audio_samples.len() > u32::MAX {
        Some(PackagerError::SampleTableInconsistent("audio sample count exceeds u32::MAX"))
    } else if m.segments.len() > u32::MAX {
        Some(PackagerError::SampleTableInconsistent("segment count exceeds u32::MAX"))
    } else {
        None
    }
}

/// The byte image of an index, or why there is none.
pub open spec fn encoded(m: IndexModel) -> Result<Seq<u8>, PackagerError> {
    match encode_fault(m) {
        Some(e) => Err(e),
        None => Ok(image(m)),
    }
}

/// The length prefix of a blob.
fn byte_blob_size(bytes: &[u8], name: &'static str) -> (r: Result<u32, PackagerError>)
    ensures
        if bytes@.len() > u32::MAX {
            r matches Err(e) && Some(e) == blob_too_large(name, bytes@.len())
        } else {
            r == Ok::<_, PackagerError>(bytes@.len() as u32)
        },
{
    if bytes.len() as u64 > u32::MAX as u64 {
        return Err(
            PackagerError::Io(IoError::BlobTooLarge { name, len: bytes.len() as u64 }),
        );
    }
    Ok(bytes.len() as u32)
}

/// Encodes the video track-metadata section.
fn encode_video_meta(meta: &VideoTrackMeta<'_>) -> (r: Result<Vec<u8>, PackagerError>)
    ensures
        match r {
            Ok(s) => {
                &&& s@ == video_section(meta@)
                &&& meta@.sample_entry.len() <= u32::MAX
                &&& meta@.elst.len() <= u32::MAX
            },
            Err(e) => Some(e) == if meta@.sample_entry.len() > u32::MAX {
                blob_too_large("video sample_entry", meta@.sample_entry.len())
            } else {
                blob_too_large("video elst", meta@.elst.len())
            } && (meta@.sample_entry.len() > u32::MAX || meta@.elst.len() > u32::MAX),
        },
{
    let mut s: Vec<u8> = Vec::new();
    push_u32(&mut s, meta.timescale);
    push_bytes(&mut s, meta.fourcc.as_slice());
    push_u32(&mut s, meta.width);
    push_u32(&mut s, meta.height);
    push_u32(&mut s, byte_blob_size(meta.sample_entry, "video sample_entry")?);
    push_bytes(&mut s, meta.sample_entry);
    push_u32(&mut s, byte_blob_size(meta.elst, "video elst")?);
    push_bytes(&mut s, meta.elst);
    assert(s@ =~= video_section(meta@));
    Ok(s)
}

/// Encodes the audio track-metadata section.
fn encode_audio_meta(meta: &AudioTrackMeta<'_>) -> (r: Result<Vec<u8>, PackagerError>)
    ensures
        match r {
            Ok(s) => {
                &&& s@ == audio_section(meta@)
                &&& meta@.sample_entry.len() <= u32::MAX
                &&& meta@.elst.len() <= u32::MAX
            },
            Err(e) => Some(e) == if meta@.sample_entry.len() > u32::MAX {
                blob_too_large("audio sample_entry", meta@.sample_entry.len())
            } else {
                blob_too_large("audio elst", meta@.elst.len())
            } && (meta@.sample_entry.len() > u32::MAX || meta@.elst.len() > u32::MAX),
        },
{
    let mut s: Vec<u8> = Vec::new();
    push_u32(&mut s, meta.timescale);
    push_bytes(&mut s, meta.fourcc.as_slice());
    push_u32(&mut s, meta.sample_rate);
    s.push(meta.channel_count);
    s.push(0);
    s.push(0);
    s.push(0);
    push_u32(&mut s, byte_blob_size(meta.sample_entry, "audio sample_entry")?);
    push_bytes(&mut s, meta.sample_entry);
    push_u32(&mut s, byte_blob_size(meta.elst, "audio elst")?);
    push_bytes(&mut s, meta.elst);
    assert(s@ =~= audio_section(meta@));
    Ok(s)
}

/// Encodes a sample-table section.
fn encode_sample_table(samples: &[SampleEntry], too_many: &'static str) -> (r: Result<
    Vec<u8>,
    PackagerError,
>)
    ensures
        match r {
            Ok(s) => s@ == sample_section(samples@) && samples@.len() <= u32::MAX,
            Err(e) => samples@.len() > u32::MAX && e == PackagerError::SampleTableInconsistent(
                too_many,
            ),
        },
{
    if samples.len() as u64 > u32::MAX as u64 {
        return Err(PackagerError::SampleTableInconsistent(too_many));
    }
    let mut s: Vec<u8> = Vec::new();
    push_u32(&mut s, samples.len() as u32);
    push_u32(&mut s, 0);
    let ghost head = s@;
    assert(head =~= be32(samples@.len() as u32) + be32(0));
    let mut i: usize = 0;
    assert(s@ =~= head + sample_row_bytes(samples@.take(0)));
    while i < samples.len()
        invariant
            0 <= i <= samples@.len(),
            s@ == head + sample_row_bytes(samples@.take(i as int)),
        decreases samples@.len() - i,
    {
        push_sample_row(&mut s, &samples[i]);
        proof {
            assert(samples@.take(i + 1).drop_last() =~= samples@.take(i as int));
            assert(s@ =~= head + sample_row_bytes(samples@.take(i + 1)));
        }
        i += 1;
    }
    assert(samples@.take(samples@.len() as int) =~= samples@);
    Ok(s)
}

/// Encodes the segment-table section.
fn encode_segment_table(segments: &[SegmentEntry]) -> (r: Result<Vec<u8>, PackagerError>)
    ensures
        match r {
            Ok(s) => s@ == segment_section(segments@) && segments@.len() <= u32::MAX,
            Err(e) => segments@.len() > u32::MAX && e == PackagerError::SampleTableInconsistent(
                "segment count exceeds u32::MAX",
            ),
        },
{
    if segments.len() as u64 > u32::MAX as u64 {
        return Err(PackagerError::SampleTableInconsistent("segment count exceeds u32::MAX"));
    }
    let mut s: Vec<u8> = Vec::new();
    push_u32(&mut s, segments.len() as u32);
    push_u32(&mut s, 0);
    let ghost head = s@;
    assert(head =~= be32(segments@.len() as u32) + be32(0));
    let mut i: usize = 0;
    assert(s@ =~= head + segment_row_bytes(segments@.take(0)));
    while i < segments.len()
        invariant
            0 <= i <= segments@.len(),
            s@ == head + segment_row_bytes(segments@.take(i as int)),
        decreases segments@.len() - i,
    {
        push_segment_row(&mut s, &segments[i]);
        proof {
            assert(segments@.take(i + 1).drop_last() =~= segments@.take(i as int));
            assert(s@ =~= head + segment_row_bytes(segments@.take(i + 1)));
        }
        i += 1;
    }
    assert(segments@.take(segments@.len() as int) =~= segments@);
    Ok(s)
}

/// Sections as sequences.
pub open spec fn section_seq(sections: Seq<(u32, Vec<u8>)>) -> Seq<Section> {
    Seq::new(sections.len(), |i: int| (sections[i].0, sections[i].1@))
}

/// Appends the sections to `bytes`, each but the last padded to a multiple of
/// 8, and returns where each of them starts.
#[verifier::rlimit(40)]
fn append_sections(bytes: &mut Vec<u8>, sections: &[(u32, Vec<u8>)]) -> (r: Vec<u64>)
    requires
        old(bytes)@.len() == header_end(sections@.len() as int),
        old(bytes)@.len() % 8 == 0,
    ensures
        final(bytes)@ == old(bytes)@ + body(section_seq(sections@), sections@.len() as int),
        r@.len() == sections@.len(),
        forall|i: int|
            0 <= i < sections@.len() ==> #[trigger] r@[i] == offset_of(
                section_seq(sections@),
                i,
            ),
{
    let ghost model = section_seq(sections@);
    let count: usize = sections.len();
    let mut offsets: Vec<u64> = Vec::with_capacity(count);
    let mut i: usize = 0;
    assert(bytes@ =~= old(bytes)@ + body(model, 0));
    while i < count
        invariant
            0 <= i <= count,
            count == sections@.len(),
            model == section_seq(sections@),
            old(bytes)@.len() == header_end(count as int),
            bytes@ == old(bytes)@ + body(model, i as int),
            i < count ==> bytes@.len() % 8 == 0,
            offsets@.len() == i,
            forall|k: int| 0 <= k < i ==> #[trigger] offsets@[k] == offset_of(model, k),
        decreases count - i,
    {
        let ghost before = bytes@;
        offsets.push(bytes.len() as u64);
        push_bytes(bytes, sections[i].1.as_slice());
        let rem: usize = bytes.len() % 8;
        if i + 1 < count && rem != 0 {
            let pad: Vec<u8> = zeros(8 - rem);
            push_bytes(bytes, pad.as_slice());
        }
        proof {
            let content = model[i as int].1;
            assert(content == sections@[i as int].1@);
            assert(bytes@ =~= before + padded_section(model, i as int));
            assert(bytes@ =~= old(bytes)@ + body(model, i + 1));
        }
        i += 1;
    }
    offsets
}

/// Appends the section directory to `head`.
fn append_directory(head: &mut Vec<u8>, sections: &[(u32, Vec<u8>)], offsets: &[u64])
    requires
        offsets@.len() == sections@.len(),
        forall|i: int|
            0 <= i < sections@.len() ==> #[trigger] offsets@[i] == offset_of(
                section_seq(sections@),
                i,
            ),
    ensures
        final(head)@ == old(head)@ + dir_bytes(section_seq(sections@), sections@.len() as int),
{
    let ghost model = section_seq(sections@);
    let mut i: usize = 0;
    assert(head@ =~= old(head)@ + dir_bytes(model, 0));
    while i < sections.len()
        invariant
            0 <= i <= sections@.len(),
            offsets@.len() == sections@.len(),
            model == section_seq(sections@),
            forall|k: int|
                0 <= k < sections@.len() ==> #[trigger] offsets@[k] == offset_of(model, k),
            head@ == old(head)@ + dir_bytes(model, i as int),
        decreases sections@.len() - i,
    {
        push_u32(head, sections[i].0);
        push_u32(head, 0);
        push_u64(head, offsets[i]);
        assert(head@ =~= old(head)@ + dir_bytes(model, i + 1));
        i += 1;
    }
}

/// Overwrites the front of `bytes` with `head`.
fn overwrite_front(bytes: &mut Vec<u8>, head: &[u8])
    requires
        head@.len() <= old(bytes)@.len(),
    ensures
        final(bytes)@ == head@ + old(bytes)@.skip(head@.len() as int),
{
    let mut i: usize = 0;
    while i < head.len()
        invariant
            0 <= i <= head@.len() <= bytes@.len(),
            bytes@.len() == old(bytes)@.len(),
            forall|k: int| 0 <= k < i ==> bytes@[k] == head@[k],
            forall|k: int| i <= k < bytes@.len() ==> bytes@[k] == old(bytes)@[k],
        decreases head@.len() - i,
    {
        bytes[i] = head[i];
        i += 1;
    }
    assert(bytes@ =~= head@ + old(bytes)@.skip(head@.len() as int));
}

/// A directory entry takes 16 bytes.
pub proof fn lemma_dir_len(sections: Seq<Section>, n: int)
    requires
        0 <= n,
    ensures
        dir_bytes(sections, n).len() == 16 * n,
    decreases n,
{
    broadcast use group_bytes;

    if n > 0 {
        lemma_dir_len(sections, n - 1);
        lemma_be64(offset_of(sections, n - 1) as u64);
    }
}

/// The model of a finished index: the parts of a draft with what is rendered
/// from them.
pub open spec fn finished_model(
    draft: IndexModel,
    max_segment_size: u32,
    init_segment: Seq<u8>,
    playlist: Seq<u8>,
) -> IndexModel {
    IndexModel { max_segment_size, init_segment, playlist: Some(playlist), ..draft }
}

/// Lays out the byte image of an index.
#[verifier::rlimit(40)]
pub fn serialise(
    draft: &IndexView<'_>,
    max_segment_size: u32,
    playlist_bytes: Vec<u8>,
    init_bytes: Vec<u8>,
) -> (r: Result<Vec<u8>, PackagerError>)
    ensures
        match r {
            Ok(bytes) => encoded(
                finished_model(draft@, max_segment_size, init_bytes@, playlist_bytes@),
            ) == Ok::<_, PackagerError>(bytes@),
            Err(e) => encoded(
                finished_model(draft@, max_segment_size, init_bytes@, playlist_bytes@),
            ) == Err::<Seq<u8>, _>(e),
        },
{
    broadcast use group_bytes;

    let ghost model = finished_model(draft@, max_segment_size, init_bytes@, playlist_bytes@);
    let video_meta: Vec<u8> = encode_video_meta(&draft.video_track())?;
    let audio_meta: Vec<u8> = encode_audio_meta(&draft.audio_track())?;
    let video_table: Vec<u8> = encode_sample_table(
        draft.video_samples(),
        "video sample count exceeds u32::MAX",
    )?;
    let audio_table: Vec<u8> = encode_sample_table(
        draft.audio_samples(),
        "audio sample count exceeds u32::MAX",
    )?;
    let segment_table: Vec<u8> = encode_segment_table(draft.segments())?;
    let sections: Vec<(u32, Vec<u8>)> = vec![
        (KIND_VIDEO_TRACK_META, video_meta),
        (KIND_AUDIO_TRACK_META, audio_meta),
        (KIND_VIDEO_SAMPLE_TABLE, video_table),
        (KIND_AUDIO_SAMPLE_TABLE, audio_table),
        (KIND_SEGMENT_TABLE, segment_table),
        (KIND_PLAYLIST_BYTES, playlist_bytes),
        (KIND_INIT_SEGMENT_BYTES, init_bytes),
    ];
    assert(section_seq(sections@) =~= sections_of(model));
    let head_len: usize = HEADER_FIXED_LEN + sections.len() * SECTION_DIR_ENTRY_LEN;
    let mut bytes: Vec<u8> = zeros(head_len);
    let ghost blank = bytes@;
    let offsets: Vec<u64> = append_sections(&mut bytes, sections.as_slice());

    let mut head: Vec<u8> = Vec::new();
    push_u32(&mut head, MAGIC);
    push_u32(&mut head, max_segment_size);
    push_u64(&mut head, draft.source_mp4_len());
    push_bytes(&mut head, draft.source_mp4_blake3().as_slice());
    push_u32(&mut head, sections.len() as u32);
    push_u32(&mut head, 0);
    assert(head@ =~= fixed_header(model, 7));
    append_directory(&mut head, sections.as_slice(), offsets.as_slice());
    proof {
        lemma_be64(model.source_mp4_len);
        lemma_dir_len(sections_of(model), 7);
        assert(head@.len() == head_len);
        assert(bytes@.skip(head_len as int) =~= body(sections_of(model), 7));
    }
    overwrite_front(&mut bytes, head.as_slice());
    Ok(bytes)
}

} // verus!
