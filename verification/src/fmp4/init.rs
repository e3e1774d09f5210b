//! CMAF init-segment writer.
//!
//! Emits `ftyp` followed by `moov` with `mvhd`, two `trak` boxes and the
//! `mvex/trex` defaults. Sample-entry and `edts` bytes flow through verbatim:
//! codec configuration is never reconstructed from parsed fields.
//!
//! Track layout is fixed: `track_id = 1` is video, `track_id = 2` is audio.
//! [`crate::fmp4::media`] relies on this assignment.

use vstd::prelude::*;

use crate::bytes::{ascii, be32, group_bytes, push_bytes, push_text};
use crate::demux::fourcc::{
    CMFC, DINF, DREF, FTYP, HDLR, ISO6, MDHD, MDIA, MINF, MOOV, MVEX, MVHD, SMHD, SOUN, STBL, STCO,
    STSC, STSD, STSZ, STTS, TKHD, TRAK, TREX, URL_, UUID, VIDE, VMHD,
};
use crate::error::PackagerError;
use crate::demux::reader::scan;
use crate::fmp4::boxes::{
    appends, box_bytes, box_list, boxed, full_box_header, full_box_word, is_header_of,
    law_written_boxes_read_back, law_written_children_read_back, lemma_box_len, lemma_close,
    lemma_words_len, listable, push_words, words, write_word_box, BoxWriter,
};
use crate::index::view::{IndexModel, IndexView};

verus! {

pub const MOVIE_TIMESCALE: u32 = 1000;
pub const VIDEO_TRACK_ID: u32 = 1;
pub const AUDIO_TRACK_ID: u32 = 2;
pub const NEXT_TRACK_ID: u32 = 3;

// `trex.default_sample_flags` bit layout (big-endian, byte 0 high):
//   byte 0: reserved(4) | is_leading(2) | sample_depends_on(2)
//   byte 1: sample_is_depended_on(2) | sample_has_redundancy(2) |
//           sample_padding_value(3) | sample_is_non_sync_sample(1)
//   byte 2-3: sample_degradation_priority(16)

/// Video default: depends on others, not a sync sample.
pub const VIDEO_DEFAULT_SAMPLE_FLAGS: u32 = 0x0101_0000;

/// Audio default: independent, a sync sample.
pub const AUDIO_DEFAULT_SAMPLE_FLAGS: u32 = 0x0200_0000;

/// `tkhd` flags: track_enabled | track_in_movie | track_in_preview.
pub const TKHD_FLAGS_ENABLED: u32 = 0x0000_0007;

/// 1.0 in 16.16 fixed point.
pub const ONE_16_16: u32 = 0x0001_0000;

/// 1.0 in 2.30 fixed point.
pub const ONE_2_30: u32 = 0x4000_0000;

/// Volume 1.0 in 8.8 fixed point, followed by 16 reserved bits.
pub const FULL_VOLUME: u32 = 0x0100_0000;

/// Language `und` (ISO 639-2/T, 5 bits per letter) in the high half.
pub const LANGUAGE_UND: u32 = 0x55c4_0000;

/// A whole number in 16.16 fixed point, or the largest word where it does not
/// fit.
pub open spec fn to_16_16(value: u32) -> u32 {
    if value < 0x1_0000 {
        (value * 0x1_0000) as u32
    } else {
        u32::MAX
    }
}

/// The file type: brands of a CMAF file.
pub open spec fn ftyp_words() -> Seq<u32> {
    // major brand, minor version, compatible brands
    seq![CMFC, 0, ISO6, CMFC]
}

/// The movie header.
pub open spec fn mvhd_words() -> Seq<u32> {
    seq![
        full_box_word(1, 0),
        0, 0,              // creation_time
        0, 0,              // modification_time
        MOVIE_TIMESCALE,
        0, 0,              // duration
        ONE_16_16,         // rate
        FULL_VOLUME,
        0, 0,              // reserved
        ONE_16_16, 0, 0,   // matrix
        0, ONE_16_16, 0,
        0, 0, ONE_2_30,
        0, 0, 0, 0, 0, 0,  // pre_defined
        NEXT_TRACK_ID,
    ]
}

/// The header of a track.
pub open spec fn tkhd_words(track_id: u32, is_audio: bool, width: u32, height: u32) -> Seq<u32> {
    seq![
        full_box_word(1, TKHD_FLAGS_ENABLED),
        0, 0,              // creation_time
        0, 0,              // modification_time
        track_id,
        0,                 // reserved
        0, 0,              // duration
        0, 0,              // reserved
        0,                 // layer, alternate_group
        if is_audio { FULL_VOLUME } else { 0 },
        ONE_16_16, 0, 0,   // matrix
        0, ONE_16_16, 0,
        0, 0, ONE_2_30,
        to_16_16(width),
        to_16_16(height),
    ]
}

/// The media header of a track.
pub open spec fn mdhd_words(timescale: u32) -> Seq<u32> {
    seq![
        full_box_word(1, 0),
        0, 0,              // creation_time
        0, 0,              // modification_time
        timescale,
        0, 0,              // duration
        LANGUAGE_UND,
    ]
}

/// The handler of a track, up to its name.
pub open spec fn hdlr_words(handler: u32) -> Seq<u32> {
    seq![full_box_word(0, 0), 0, handler, 0, 0, 0]
}

/// A handler box: the handler type, and a name that ends in a zero byte.
pub open spec fn hdlr_payload(handler: u32, name: Seq<char>) -> Seq<u8> {
    words(hdlr_words(handler)) + ascii(name) + seq![0u8]
}

/// The video media header.
pub open spec fn vmhd_words() -> Seq<u32> {
    // graphicsmode and opcolor
    seq![full_box_word(0, 1), 0, 0]
}

/// The sound media header.
pub open spec fn smhd_words() -> Seq<u32> {
    // balance
    seq![full_box_word(0, 0), 0]
}

/// A data reference to the file itself.
pub open spec fn url_words() -> Seq<u32> {
    seq![full_box_word(0, 1)]
}

/// Version and flags, and a count.
pub open spec fn counted_words(count: u32) -> Seq<u32> {
    seq![full_box_word(0, 0), count]
}

/// The data references: one, to the file itself.
pub open spec fn dref_payload() -> Seq<u8> {
    words(counted_words(1)) + box_bytes(URL_, words(url_words()))
}

/// A sample-size table without samples.
pub open spec fn stsz_words() -> Seq<u32> {
    // sample_size, sample_count
    seq![full_box_word(0, 0), 0, 0]
}

/// Fragment defaults of a track.
pub open spec fn trex_words(track_id: u32, default_sample_flags: u32) -> Seq<u32> {
    // default sample_description_index, duration and size
    seq![full_box_word(0, 0), track_id, 1, 0, 0, default_sample_flags]
}

/// What the init segment says of one track.
pub ghost struct TrackInit {
    pub track_id: u32,
    pub is_audio: bool,
    pub width: u32,
    pub height: u32,
    pub timescale: u32,
    pub sample_entry: Seq<u8>,
    pub elst: Seq<u8>,
}

impl TrackInit {
    /// The handler type of the track.
    pub open spec fn handler(self) -> u32 {
        if self.is_audio {
            SOUN
        } else {
            VIDE
        }
    }

    /// The handler name of the track.
    pub open spec fn handler_name(self) -> Seq<char> {
        if self.is_audio {
            "SoundHandler"@
        } else {
            "VideoHandler"@
        }
    }

    /// The media header that goes with the handler.
    pub open spec fn media_header(self) -> Seq<u8> {
        if self.is_audio {
            box_bytes(SMHD, words(smhd_words()))
        } else {
            box_bytes(VMHD, words(vmhd_words()))
        }
    }

    /// The sample description holds the sample entry verbatim.
    pub open spec fn stsd(self) -> Result<Seq<u8>, PackagerError> {
        boxed(STSD, words(counted_words(1)) + self.sample_entry)
    }

    /// The sample tables are empty: the samples are described by each media
    /// segment.
    pub open spec fn stbl(self) -> Result<Seq<u8>, PackagerError> {
        match self.stsd() {
            Err(e) => Err(e),
            Ok(stsd) => boxed(
                STBL,
                stsd + box_bytes(STTS, words(counted_words(0))) + box_bytes(
                    STSC,
                    words(counted_words(0)),
                ) + box_bytes(STSZ, words(stsz_words())) + box_bytes(
                    STCO,
                    words(counted_words(0)),
                ),
            ),
        }
    }

    /// The media information: media header, data references, sample table.
    pub open spec fn minf(self) -> Result<Seq<u8>, PackagerError> {
        match self.stbl() {
            Err(e) => Err(e),
            Ok(stbl) => boxed(
                MINF,
                self.media_header() + box_bytes(DINF, box_bytes(DREF, dref_payload())) + stbl,
            ),
        }
    }

    /// The media box: header, handler, information.
    pub open spec fn mdia(self) -> Result<Seq<u8>, PackagerError> {
        match self.minf() {
            Err(e) => Err(e),
            Ok(minf) => boxed(
                MDIA,
                box_bytes(MDHD, words(mdhd_words(self.timescale))) + box_bytes(
                    HDLR,
                    hdlr_payload(self.handler(), self.handler_name()),
                ) + minf,
            ),
        }
    }

    /// The edit list, if there is one, stands verbatim between the track
    /// header and the media box.
    pub open spec fn trak(self) -> Result<Seq<u8>, PackagerError> {
        match self.mdia() {
            Err(e) => Err(e),
            Ok(mdia) => boxed(
                TRAK,
                box_bytes(
                    TKHD,
                    words(tkhd_words(self.track_id, self.is_audio, self.width, self.height)),
                ) + self.elst + mdia,
            ),
        }
    }
}

/// Track 1 of an index.
pub open spec fn video_init(index: IndexModel) -> TrackInit {
    TrackInit {
        track_id: VIDEO_TRACK_ID,
        is_audio: false,
        width: index.video_track.width,
        height: index.video_track.height,
        timescale: index.video_track.timescale,
        sample_entry: index.video_track.sample_entry,
        elst: index.video_track.elst,
    }
}

/// Track 2 of an index.
pub open spec fn audio_init(index: IndexModel) -> TrackInit {
    TrackInit {
        track_id: AUDIO_TRACK_ID,
        is_audio: true,
        width: 0,
        height: 0,
        timescale: index.audio_track.timescale,
        sample_entry: index.audio_track.sample_entry,
        elst: index.audio_track.elst,
    }
}

/// The fragment defaults of both tracks.
pub open spec fn mvex_payload() -> Seq<u8> {
    box_bytes(TREX, words(trex_words(VIDEO_TRACK_ID, VIDEO_DEFAULT_SAMPLE_FLAGS))) + box_bytes(
        TREX,
        words(trex_words(AUDIO_TRACK_ID, AUDIO_DEFAULT_SAMPLE_FLAGS)),
    )
}

/// The movie box.
pub open spec fn moov(index: IndexModel) -> Result<Seq<u8>, PackagerError> {
    match video_init(index).trak() {
        Err(e) => Err(e),
        Ok(video) => match audio_init(index).trak() {
            Err(e) => Err(e),
            Ok(audio) => boxed(
                MOOV,
                box_bytes(MVHD, words(mvhd_words())) + video + audio + box_bytes(
                    MVEX,
                    mvex_payload(),
                ),
            ),
        },
    }
}

/// The init segment of an index. It fails only where a box outgrows its size
/// field.
pub open spec fn init_segment(index: IndexModel) -> Result<Seq<u8>, PackagerError> {
    match moov(index) {
        Err(e) => Err(e),
        Ok(moov) => Ok(box_bytes(FTYP, words(ftyp_words())) + moov),
    }
}

/// Computes `to_16_16`.
fn fixed_16_16(value: u32) -> (r: u32)
    ensures
        r == to_16_16(value),
{
    if value < 0x1_0000 {
        value * 0x1_0000
    } else {
        u32::MAX
    }
}

fn write_ftyp(out: &mut Vec<u8>)
    ensures
        final(out)@ == old(out)@ + box_bytes(FTYP, words(ftyp_words())),
{
    let w: [u32; 4] = [CMFC, 0, ISO6, CMFC];
    assert(w@ =~= ftyp_words());
    write_word_box(out, FTYP, w.as_slice());
}

fn write_mvhd(out: &mut Vec<u8>)
    ensures
        final(out)@ == old(out)@ + box_bytes(MVHD, words(mvhd_words())),
{
    let w: [u32; 28] = [
        full_box_header(1, 0), 0, 0, 0, 0, MOVIE_TIMESCALE, 0, 0, ONE_16_16, FULL_VOLUME, 0, 0,
        ONE_16_16, 0, 0, 0, ONE_16_16, 0, 0, 0, ONE_2_30, 0, 0, 0, 0, 0, 0, NEXT_TRACK_ID,
    ];
    assert(w@ =~= mvhd_words());
    write_word_box(out, MVHD, w.as_slice());
}

fn write_tkhd(out: &mut Vec<u8>, track_id: u32, is_audio: bool, width: u32, height: u32)
    ensures
        final(out)@ == old(out)@ + box_bytes(
            TKHD,
            words(tkhd_words(track_id, is_audio, width, height)),
        ),
{
    let volume: u32 = if is_audio { FULL_VOLUME } else { 0 };
    let w: [u32; 24] = [
        full_box_header(1, TKHD_FLAGS_ENABLED), 0, 0, 0, 0, track_id, 0, 0, 0, 0, 0, 0, volume,
        ONE_16_16, 0, 0, 0, ONE_16_16, 0, 0, 0, ONE_2_30, fixed_16_16(width), fixed_16_16(height),
    ];
    assert(w@ =~= tkhd_words(track_id, is_audio, width, height));
    write_word_box(out, TKHD, w.as_slice());
}

fn write_mdhd(out: &mut Vec<u8>, timescale: u32)
    ensures
        final(out)@ == old(out)@ + box_bytes(MDHD, words(mdhd_words(timescale))),
{
    let w: [u32; 9] = [full_box_header(1, 0), 0, 0, 0, 0, timescale, 0, 0, LANGUAGE_UND];
    assert(w@ =~= mdhd_words(timescale));
    write_word_box(out, MDHD, w.as_slice());
}

fn write_hdlr(out: &mut Vec<u8>, handler: u32, name: &str)
    requires
        vstd::string::is_ascii(name),
        name@.len() <= 1000,
    ensures
        final(out)@ == old(out)@ + box_bytes(HDLR, hdlr_payload(handler, name@)),
{
    broadcast use {group_bytes, lemma_words_len};

    let bx = BoxWriter::open(out, HDLR);
    let ghost opened = out@;
    let w: [u32; 6] = [full_box_header(0, 0), 0, handler, 0, 0, 0];
    assert(w@ =~= hdlr_words(handler));
    push_words(out, w.as_slice());
    push_text(out, name);
    out.push(0);
    proof {
        let payload = hdlr_payload(handler, name@);
        assert(out@ =~= opened + payload);
        lemma_close(bx, opened, out@, payload);
    }
    let _ = bx.finish(out);
}

fn write_vmhd(out: &mut Vec<u8>)
    ensures
        final(out)@ == old(out)@ + box_bytes(VMHD, words(vmhd_words())),
{
    let w: [u32; 3] = [full_box_header(0, 1), 0, 0];
    assert(w@ =~= vmhd_words());
    write_word_box(out, VMHD, w.as_slice());
}

fn write_smhd(out: &mut Vec<u8>)
    ensures
        final(out)@ == old(out)@ + box_bytes(SMHD, words(smhd_words())),
{
    let w: [u32; 2] = [full_box_header(0, 0), 0];
    assert(w@ =~= smhd_words());
    write_word_box(out, SMHD, w.as_slice());
}

fn write_dinf(out: &mut Vec<u8>)
    ensures
        final(out)@ == old(out)@ + box_bytes(DINF, box_bytes(DREF, dref_payload())),
{
    broadcast use {group_bytes, lemma_words_len};

    let dinf = BoxWriter::open(out, DINF);
    let ghost dinf_opened = out@;
    let dref = BoxWriter::open(out, DREF);
    let ghost dref_opened = out@;
    let w: [u32; 2] = [full_box_header(0, 0), 1];
    assert(w@ =~= counted_words(1));
    push_words(out, w.as_slice());
    // `url ` with the self-contained flag and no location.
    let url: [u32; 1] = [full_box_header(0, 1)];
    assert(url@ =~= url_words());
    write_word_box(out, URL_, url.as_slice());
    proof {
        assert(out@ =~= dref_opened + dref_payload());
        lemma_close(dref, dref_opened, out@, dref_payload());
    }
    let _ = dref.finish(out);
    proof {
        lemma_close(dinf, dinf_opened, out@, box_bytes(DREF, dref_payload()));
    }
    let _ = dinf.finish(out);
}

fn write_stsd(out: &mut Vec<u8>, sample_entry: &[u8], Ghost(track): Ghost<TrackInit>) -> (r: Result<
    (),
    PackagerError,
>)
    requires
        sample_entry@ == track.sample_entry,
    ensures
        appends(old(out)@, final(out)@, r, track.stsd()),
{
    let bx = BoxWriter::open(out, STSD);
    let ghost opened = out@;
    let w: [u32; 2] = [full_box_header(0, 0), 1];
    assert(w@ =~= counted_words(1));
    push_words(out, w.as_slice());
    push_bytes(out, sample_entry);
    proof {
        let payload = words(counted_words(1)) + track.sample_entry;
        assert(out@ =~= opened + payload);
        lemma_close(bx, opened, out@, payload);
    }
    bx.finish(out)?;
    Ok(())
}

/// Appends a full box whose only field is a count of zero.
fn write_empty_entry_count_box(out: &mut Vec<u8>, fourcc: u32)
    ensures
        final(out)@ == old(out)@ + box_bytes(fourcc, words(counted_words(0))),
{
    let w: [u32; 2] = [full_box_header(0, 0), 0];
    assert(w@ =~= counted_words(0));
    write_word_box(out, fourcc, w.as_slice());
}

fn write_empty_stsz(out: &mut Vec<u8>)
    ensures
        final(out)@ == old(out)@ + box_bytes(STSZ, words(stsz_words())),
{
    let w: [u32; 3] = [full_box_header(0, 0), 0, 0];
    assert(w@ =~= stsz_words());
    write_word_box(out, STSZ, w.as_slice());
}

fn write_stbl(out: &mut Vec<u8>, sample_entry: &[u8], Ghost(track): Ghost<TrackInit>) -> (r: Result<
    (),
    PackagerError,
>)
    requires
        sample_entry@ == track.sample_entry,
    ensures
        appends(old(out)@, final(out)@, r, track.stbl()),
{
    let bx = BoxWriter::open(out, STBL);
    let ghost opened = out@;
    write_stsd(out, sample_entry, Ghost(track))?;
    write_empty_entry_count_box(out, STTS);
    write_empty_entry_count_box(out, STSC);
    write_empty_stsz(out);
    write_empty_entry_count_box(out, STCO);
    proof {
        let payload = track.stsd()->Ok_0 + box_bytes(STTS, words(counted_words(0))) + box_bytes(
            STSC,
            words(counted_words(0)),
        ) + box_bytes(STSZ, words(stsz_words())) + box_bytes(STCO, words(counted_words(0)));
        assert(out@ =~= opened + payload);
        lemma_close(bx, opened, out@, payload);
    }
    bx.finish(out)?;
    Ok(())
}

fn write_minf(
    out: &mut Vec<u8>,
    is_audio: bool,
    sample_entry: &[u8],
    Ghost(track): Ghost<TrackInit>,
) -> (r: Result<(), PackagerError>)
    requires
        is_audio == track.is_audio,
        sample_entry@ == track.sample_entry,
    ensures
        appends(old(out)@, final(out)@, r, track.minf()),
{
    let bx = BoxWriter::open(out, MINF);
    let ghost opened = out@;
    if is_audio {
        write_smhd(out);
    } else {
        write_vmhd(out);
    }
    write_dinf(out);
    write_stbl(out, sample_entry, Ghost(track))?;
    proof {
        let payload = track.media_header() + box_bytes(DINF, box_bytes(DREF, dref_payload()))
            + track.stbl()->Ok_0;
        assert(out@ =~= opened + payload);
        lemma_close(bx, opened, out@, payload);
    }
    bx.finish(out)?;
    Ok(())
}

fn write_mdia(
    out: &mut Vec<u8>,
    is_audio: bool,
    timescale: u32,
    sample_entry: &[u8],
    Ghost(track): Ghost<TrackInit>,
) -> (r: Result<(), PackagerError>)
    requires
        is_audio == track.is_audio,
        timescale == track.timescale,
        sample_entry@ == track.sample_entry,
    ensures
        appends(old(out)@, final(out)@, r, track.mdia()),
{
    let bx = BoxWriter::open(out, MDIA);
    let ghost opened = out@;
    write_mdhd(out, timescale);
    proof {
        reveal_strlit("SoundHandler");
        reveal_strlit("VideoHandler");
    }
    if is_audio {
        write_hdlr(out, SOUN, "SoundHandler");
    } else {
        write_hdlr(out, VIDE, "VideoHandler");
    }
    write_minf(out, is_audio, sample_entry, Ghost(track))?;
    proof {
        let payload = box_bytes(MDHD, words(mdhd_words(track.timescale))) + box_bytes(
            HDLR,
            hdlr_payload(track.handler(), track.handler_name()),
        ) + track.minf()->Ok_0;
        assert(out@ =~= opened + payload);
        lemma_close(bx, opened, out@, payload);
    }
    bx.finish(out)?;
    Ok(())
}

fn write_trak(
    out: &mut Vec<u8>,
    track_id: u32,
    is_audio: bool,
    width: u32,
    height: u32,
    timescale: u32,
    sample_entry: &[u8],
    elst: &[u8],
) -> (r: Result<(), PackagerError>)
    ensures
        appends(
            old(out)@,
            final(out)@,
            r,
            (TrackInit {
                track_id,
                is_audio,
                width,
                height,
                timescale,
                sample_entry: sample_entry@,
                elst: elst@,
            }).trak(),
        ),
{
    let ghost track = TrackInit {
        track_id,
        is_audio,
        width,
        height,
        timescale,
        sample_entry: sample_entry@,
        elst: elst@,
    };
    let bx = BoxWriter::open(out, TRAK);
    let ghost opened = out@;
    write_tkhd(out, track_id, is_audio, width, height);
    // `elst` is the entire `edts` box, header included.
    push_bytes(out, elst);
    write_mdia(out, is_audio, timescale, sample_entry, Ghost(track))?;
    proof {
        let payload = box_bytes(TKHD, words(tkhd_words(track_id, is_audio, width, height)))
            + track.elst + track.mdia()->Ok_0;
        assert(out@ =~= opened + payload);
        lemma_close(bx, opened, out@, payload);
    }
    bx.finish(out)?;
    Ok(())
}

fn write_trex(out: &mut Vec<u8>, track_id: u32, default_sample_flags: u32)
    ensures
        final(out)@ == old(out)@ + box_bytes(
            TREX,
            words(trex_words(track_id, default_sample_flags)),
        ),
{
    let w: [u32; 6] = [full_box_header(0, 0), track_id, 1, 0, 0, default_sample_flags];
    assert(w@ =~= trex_words(track_id, default_sample_flags));
    write_word_box(out, TREX, w.as_slice());
}

fn write_mvex(out: &mut Vec<u8>)
    ensures
        final(out)@ == old(out)@ + box_bytes(MVEX, mvex_payload()),
{
    broadcast use {group_bytes, lemma_words_len};

    let bx = BoxWriter::open(out, MVEX);
    let ghost opened = out@;
    write_trex(out, VIDEO_TRACK_ID, VIDEO_DEFAULT_SAMPLE_FLAGS);
    write_trex(out, AUDIO_TRACK_ID, AUDIO_DEFAULT_SAMPLE_FLAGS);
    proof {
        assert(out@ =~= opened + mvex_payload());
        lemma_close(bx, opened, out@, mvex_payload());
    }
    let _ = bx.finish(out);
}

#[verifier::rlimit(40)]
fn write_moov(index: &IndexView<'_>, out: &mut Vec<u8>) -> (r: Result<(), PackagerError>)
    ensures
        appends(old(out)@, final(out)@, r, moov(index@)),
{
    let video = index.video_track();
    let audio = index.audio_track();
    let bx = BoxWriter::open(out, MOOV);
    let ghost opened = out@;
    write_mvhd(out);
    write_trak(
        out,
        VIDEO_TRACK_ID,
        false,
        video.width,
        video.height,
        video.timescale,
        video.sample_entry,
        video.elst,
    )?;
    write_trak(
        out,
        AUDIO_TRACK_ID,
        true,
        0,
        0,
        audio.timescale,
        audio.sample_entry,
        audio.elst,
    )?;
    write_mvex(out);
    proof {
        let payload = box_bytes(MVHD, words(mvhd_words())) + video_init(index@).trak()->Ok_0
            + audio_init(index@).trak()->Ok_0 + box_bytes(MVEX, mvex_payload());
        assert(out@ =~= opened + payload);
        lemma_close(bx, opened, out@, payload);
    }
    bx.finish(out)?;
    Ok(())
}

/// Appends the CMAF init segment (`ftyp` + `moov`) of `index` to `out`.
pub fn write_init_segment(index: &IndexView<'_>, out: &mut Vec<u8>) -> (r: Result<
    (),
    PackagerError,
>)
    ensures
        appends(old(out)@, final(out)@, r, init_segment(index@)),
{
    let ghost before = out@;
    write_ftyp(out);
    write_moov(index, out)?;
    proof {
        assert(out@ =~= before + init_segment(index@)->Ok_0);
    }
    Ok(())
}

/// `part` stands verbatim in `whole`.
pub open spec fn holds(whole: Seq<u8>, part: Seq<u8>) -> bool {
    exists|at: int|
        0 <= at && at + part.len() <= whole.len() && #[trigger] whole.subrange(
            at,
            at + part.len(),
        ) == part
}

proof fn lemma_holds_within(outer: Seq<u8>, pre: Seq<u8>, whole: Seq<u8>, post: Seq<u8>, part: Seq<u8>)
    requires
        outer == pre + whole + post,
        holds(whole, part),
    ensures
        holds(outer, part),
{
    let at = choose|at: int|
        0 <= at && at + part.len() <= whole.len() && #[trigger] whole.subrange(at, at + part.len())
            == part;
    assert(outer.subrange(pre.len() + at, pre.len() + at + part.len()) =~= whole.subrange(
        at,
        at + part.len(),
    ));
}

/// A box holds what a part of its payload holds.
proof fn lemma_box_holds(
    fourcc: u32,
    pre: Seq<u8>,
    whole: Seq<u8>,
    post: Seq<u8>,
    payload: Seq<u8>,
    part: Seq<u8>,
)
    requires
        payload == pre + whole + post,
        holds(whole, part),
    ensures
        holds(box_bytes(fourcc, payload), part),
{
    let sizes = be32((payload.len() + 8) as u32) + be32(fourcc);
    assert(box_bytes(fourcc, payload) =~= (sizes + pre) + whole + post);
    lemma_holds_within(box_bytes(fourcc, payload), sizes + pre, whole, post, part);
}

proof fn lemma_holds_itself(part: Seq<u8>)
    ensures
        holds(part, part),
{
    assert(part.subrange(0, 0int + part.len()) =~= part);
}

/// The sample table holds the sample entry verbatim.
proof fn lemma_stbl_holds(track: TrackInit)
    requires
        track.stbl() is Ok,
    ensures
        holds(track.stbl()->Ok_0, track.sample_entry),
{
    let none = Seq::<u8>::empty();
    let entry = track.sample_entry;
    let head = words(counted_words(1));
    lemma_holds_itself(entry);
    assert(head + entry =~= head + entry + none);
    lemma_box_holds(STSD, head, entry, none, head + entry, entry);
    let stsd = track.stsd()->Ok_0;
    let stts = box_bytes(STTS, words(counted_words(0)));
    let stsc = box_bytes(STSC, words(counted_words(0)));
    let stsz = box_bytes(STSZ, words(stsz_words()));
    let stco = box_bytes(STCO, words(counted_words(0)));
    let payload = stsd + stts + stsc + stsz + stco;
    let post = stts + stsc + stsz + stco;
    assert(payload =~= none + stsd + post);
    lemma_box_holds(STBL, none, stsd, post, payload, entry);
}

/// A track box holds the sample entry and the edit list verbatim.
#[verifier::rlimit(40)]
proof fn lemma_trak_holds(track: TrackInit)
    requires
        track.trak() is Ok,
    ensures
        holds(track.trak()->Ok_0, track.sample_entry),
        holds(track.trak()->Ok_0, track.elst),
{
    let none = Seq::<u8>::empty();
    let entry = track.sample_entry;
    lemma_stbl_holds(track);
    let stbl = track.stbl()->Ok_0;
    let p3 = track.media_header() + box_bytes(DINF, box_bytes(DREF, dref_payload()));
    assert(p3 + stbl =~= p3 + stbl + none);
    lemma_box_holds(MINF, p3, stbl, none, p3 + stbl, entry);
    let minf = track.minf()->Ok_0;
    let p4 = box_bytes(MDHD, words(mdhd_words(track.timescale))) + box_bytes(
        HDLR,
        hdlr_payload(track.handler(), track.handler_name()),
    );
    assert(p4 + minf =~= p4 + minf + none);
    lemma_box_holds(MDIA, p4, minf, none, p4 + minf, entry);
    let mdia = track.mdia()->Ok_0;
    let tkhd = box_bytes(
        TKHD,
        words(tkhd_words(track.track_id, track.is_audio, track.width, track.height)),
    );
    let payload = tkhd + track.elst + mdia;
    assert(payload =~= (tkhd + track.elst) + mdia + none);
    lemma_box_holds(TRAK, tkhd + track.elst, mdia, none, payload, entry);
    lemma_holds_itself(track.elst);
    lemma_box_holds(TRAK, tkhd, track.elst, mdia, payload, track.elst);
}

/// Two adjacent parts of a whole, each between what precedes and follows it.
proof fn lemma_two_parts(
    outer: Seq<u8>,
    head: Seq<u8>,
    a: Seq<u8>,
    v: Seq<u8>,
    u: Seq<u8>,
    z: Seq<u8>,
)
    requires
        outer == head + (a + v + u + z),
    ensures
        outer == (head + a) + v + (u + z),
        outer == (head + a + v) + u + z,
{
    assert(outer =~= (head + a) + v + (u + z));
    assert(outer =~= (head + a + v) + u + z);
}

/// Sample entries and edit lists pass through the init segment verbatim, for
/// both tracks.
#[verifier::rlimit(40)]
pub proof fn law_codec_bytes_pass_through(index: IndexModel)
    requires
        init_segment(index) is Ok,
    ensures
        holds(init_segment(index)->Ok_0, index.video_track.sample_entry),
        holds(init_segment(index)->Ok_0, index.video_track.elst),
        holds(init_segment(index)->Ok_0, index.audio_track.sample_entry),
        holds(init_segment(index)->Ok_0, index.audio_track.elst),
{
    let init = init_segment(index)->Ok_0;
    let video = video_init(index).trak()->Ok_0;
    let audio = audio_init(index).trak()->Ok_0;
    lemma_trak_holds(video_init(index));
    lemma_trak_holds(audio_init(index));
    let ftyp = box_bytes(FTYP, words(ftyp_words()));
    let mvhd = box_bytes(MVHD, words(mvhd_words()));
    let mvex = box_bytes(MVEX, mvex_payload());
    let payload = mvhd + video + audio + mvex;
    let sizes = be32((payload.len() + 8) as u32) + be32(MOOV);
    assert(ftyp + (sizes + payload) =~= (ftyp + sizes) + payload);
    lemma_two_parts(init, ftyp + sizes, mvhd, video, audio, mvex);
    let head = ftyp + sizes + mvhd;
    lemma_holds_within(init, head, video, audio + mvex, index.video_track.sample_entry);
    lemma_holds_within(init, head, video, audio + mvex, index.video_track.elst);
    lemma_holds_within(init, head + video, audio, mvex, index.audio_track.sample_entry);
    lemma_holds_within(init, head + video, audio, mvex, index.audio_track.elst);
}

/// Two boxes read back as two boxes.
proof fn lemma_two_boxes(t0: u32, p0: Seq<u8>, t1: u32, p1: Seq<u8>)
    requires
        t0 != UUID && t1 != UUID,
        p0.len() + 8 <= u32::MAX,
        p1.len() + 8 <= u32::MAX,
    ensures
        ({
            let all = box_bytes(t0, p0) + box_bytes(t1, p1);
            let found = scan(all, 0, all.len() as int);
            &&& found.fault is None
            &&& found.boxes.len() == 2
            &&& found.boxes[0].start == 0
            &&& is_header_of(all, found.boxes[0], (t0, p0))
            &&& found.boxes[1].start == found.boxes[0].declared_size
            &&& is_header_of(all, found.boxes[1], (t1, p1))
            &&& found.boxes[1].start + found.boxes[1].declared_size == all.len()
        }),
{
    broadcast use group_bytes;

    let all = box_bytes(t0, p0) + box_bytes(t1, p1);
    let items = seq![(t0, p0), (t1, p1)];
    let none = Seq::<u8>::empty();
    reveal_with_fuel(box_list, 3);
    assert(items.drop_first() =~= seq![(t1, p1)]);
    assert(items.drop_first().drop_first() =~= Seq::<(u32, Seq<u8>)>::empty());
    assert(box_list(items) =~= all);
    assert(none + box_list(items) + none =~= all);
    law_written_boxes_read_back(none, items, none);
    let found = scan(all, 0, all.len() as int);
    assert(is_header_of(all, found.boxes[0], items[0]));
    assert(is_header_of(all, found.boxes[1], items[1]));
}

/// An init segment reads back as exactly two boxes, `ftyp` and `moov`, that
/// fill it.
pub proof fn law_init_segment_is_ftyp_and_moov(index: IndexModel)
    requires
        init_segment(index) is Ok,
    ensures
        ({
            let init = init_segment(index)->Ok_0;
            let found = scan(init, 0, init.len() as int);
            &&& found.fault is None
            &&& found.boxes.len() == 2
            &&& found.boxes[0].box_type == FTYP
            &&& found.boxes[0].start == 0
            &&& found.boxes[1].box_type == MOOV
            &&& found.boxes[1].start == found.boxes[0].declared_size
            &&& found.boxes[1].start + found.boxes[1].declared_size == init.len()
        }),
{
    let video = video_init(index).trak()->Ok_0;
    let audio = audio_init(index).trak()->Ok_0;
    let payload = box_bytes(MVHD, words(mvhd_words())) + video + audio + box_bytes(
        MVEX,
        mvex_payload(),
    );
    lemma_words_len(ftyp_words());
    lemma_two_boxes(FTYP, words(ftyp_words()), MOOV, payload);
}

/// The payload of a track box.
pub open spec fn trak_payload(track: TrackInit) -> Seq<u8> {
    box_bytes(
        TKHD,
        words(tkhd_words(track.track_id, track.is_audio, track.width, track.height)),
    ) + track.elst + track.mdia()->Ok_0
}

/// Four boxes, one after the other.
proof fn lemma_four_boxes(items: Seq<(u32, Seq<u8>)>)
    requires
        items.len() == 4,
    ensures
        box_list(items) == box_bytes(items[0].0, items[0].1) + box_bytes(items[1].0, items[1].1)
            + box_bytes(items[2].0, items[2].1) + box_bytes(items[3].0, items[3].1),
{
    reveal_with_fuel(box_list, 5);
    let r1 = items.drop_first();
    let r2 = r1.drop_first();
    let r3 = r2.drop_first();
    assert(r1[0] == items[1] && r2[0] == items[2] && r3[0] == items[3]);
    assert(r3.drop_first().len() == 0);
    assert(box_list(items) =~= box_bytes(items[0].0, items[0].1) + box_bytes(
        items[1].0,
        items[1].1,
    ) + box_bytes(items[2].0, items[2].1) + box_bytes(items[3].0, items[3].1));
}

/// The `moov` box of an init segment holds the movie header, the video track,
/// the audio track and the fragment defaults, in this order and nothing else.
#[verifier::rlimit(40)]
pub proof fn law_moov_holds_video_then_audio(index: IndexModel)
    requires
        init_segment(index) is Ok,
    ensures
        ({
            let init = init_segment(index)->Ok_0;
            let ftyp_len = box_bytes(FTYP, words(ftyp_words())).len() as int;
            let found = scan(init, ftyp_len + 8, init.len() as int);
            &&& found.fault is None
            &&& found.boxes.len() == 4
            &&& is_header_of(init, found.boxes[0], (MVHD, words(mvhd_words())))
            &&& is_header_of(init, found.boxes[1], (TRAK, trak_payload(video_init(index))))
            &&& is_header_of(init, found.boxes[2], (TRAK, trak_payload(audio_init(index))))
            &&& is_header_of(init, found.boxes[3], (MVEX, mvex_payload()))
        }),
{
    let init = init_segment(index)->Ok_0;
    let ftyp = box_bytes(FTYP, words(ftyp_words()));
    let items = moov_items(index);
    let none = Seq::<u8>::empty();
    lemma_moov_items(index);
    lemma_four_boxes(items);
    lemma_words_len(ftyp_words());
    lemma_box_len(FTYP, words(ftyp_words()));
    lemma_box_len(MOOV, box_list(items));
    assert(init =~= ftyp + box_bytes(MOOV, box_list(items)) + none);
    law_written_children_read_back(ftyp, MOOV, items, none);
    let at = ftyp.len() as int + 8;
    let found = scan(init, at, init.len() as int);
    assert(is_header_of(init, found.boxes[0], items[0]));
    assert(is_header_of(init, found.boxes[1], items[1]));
    assert(is_header_of(init, found.boxes[2], items[2]));
    assert(is_header_of(init, found.boxes[3], items[3]));
}

/// The children of `moov`.
pub open spec fn moov_items(index: IndexModel) -> Seq<(u32, Seq<u8>)> {
    seq![
        (MVHD, words(mvhd_words())),
        (TRAK, trak_payload(video_init(index))),
        (TRAK, trak_payload(audio_init(index))),
        (MVEX, mvex_payload()),
    ]
}

proof fn lemma_moov_items(index: IndexModel)
    requires
        moov(index) is Ok,
    ensures
        listable(moov_items(index)),
        moov(index)->Ok_0 == box_bytes(MOOV, box_list(moov_items(index))),
        box_list(moov_items(index)).len() + 8 <= u32::MAX,
{
    lemma_four_boxes(moov_items(index));
    lemma_words_len(mvhd_words());
    lemma_mvex_len();
}

proof fn lemma_mvex_len()
    ensures
        mvex_payload().len() == 64,
{
    broadcast use {group_bytes, lemma_words_len};

}

} // verus!
