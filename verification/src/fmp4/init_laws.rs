//! What an init segment says, byte by byte.
//!
//! The laws read an init segment the way a player does (ISO/IEC 14496-12): a
//! word at a place, counted from the start of the segment. Box types are
//! written as numbers, `0x6d6f6f76` for `moov` and so on.

use vstd::prelude::*;

use crate::bytes::{ascii, be_u32_at, group_bytes};
use crate::demux::fourcc::{
    DINF, DREF, FTYP, HDLR, MDHD, MDIA, MINF, MOOV, MVEX, MVHD, SMHD, STBL, STCO, STSC, STSD,
    STSZ, STTS, TKHD, TRAK, TREX, URL_, VMHD,
};
use crate::error::{IoError, PackagerError};
use crate::fmp4::boxes::{box_bytes, lemma_box_len, lemma_words_len, words};
use crate::fmp4::init::{
    audio_init, counted_words, dref_payload, ftyp_words, hdlr_payload, hdlr_words, init_segment,
    mdhd_words, mvex_payload, mvhd_words, smhd_words, stsz_words, tkhd_words, trex_words,
    url_words, video_init, vmhd_words, TrackInit,
};
use crate::fmp4::media_laws::{lemma_stands_both, lemma_stands_box, lemma_stands_words, stands};
use crate::index::view::IndexModel;

verus! {

/// Whether the words from `at` on are all 0, `count` of them.
pub open spec fn blank(s: Seq<u8>, at: int, count: int) -> bool {
    forall|k: int| 0 <= k < count ==> #[trigger] be_u32_at(s, at + 4 * k) == 0
}

/// Whether a unity matrix stands at `at`.
pub open spec fn unity_matrix(s: Seq<u8>, at: int) -> bool {
    &&& be_u32_at(s, at) == 0x0001_0000
    &&& blank(s, at + 4, 3)
    &&& be_u32_at(s, at + 16) == 0x0001_0000
    &&& blank(s, at + 20, 3)
    &&& be_u32_at(s, at + 32) == 0x4000_0000
}

/// Whether a box with the given size and type starts at `at`.
pub open spec fn box_at(s: Seq<u8>, at: int, size: int, fourcc: u32) -> bool {
    &&& be_u32_at(s, at) == size
    &&& be_u32_at(s, at + 4) == fourcc
}

/// What an init segment says of one track.
pub ghost struct TrackSays {
    pub audio: bool,
    pub width: u32,
    pub height: u32,
    pub timescale: u32,
    pub sample_entry: Seq<u8>,
    pub elst: Seq<u8>,
}

impl TrackSays {
    /// The bytes of the `mdia` box.
    pub open spec fn mdia_len(self) -> int {
        (if self.audio { 249int } else { 253int }) + self.sample_entry.len()
    }

    /// The bytes of the `trak` box.
    pub open spec fn trak_len(self) -> int {
        112 + self.elst.len() + self.mdia_len()
    }

    /// Whether the header of the track is in order: enabled, video as track 1
    /// and audio as track 2, audible only if it is audio, and as large as the
    /// picture, in 16.16 fixed point.
    pub open spec fn tkhd_at(self, s: Seq<u8>, at: int) -> bool {
        &&& box_at(s, at, 104, 0x746b_6864)
        &&& be_u32_at(s, at + 8) == 0x0100_0007
        &&& blank(s, at + 12, 4)
        &&& be_u32_at(s, at + 28) == if self.audio { 2u32 } else { 1 }
        &&& blank(s, at + 32, 6)
        &&& be_u32_at(s, at + 56) == if self.audio { 0x0100_0000u32 } else { 0 }
        &&& unity_matrix(s, at + 60)
        &&& be_u32_at(s, at + 96) == if self.width < 0x1_0000 {
            self.width * 0x1_0000
        } else {
            0xffff_ffff
        }
        &&& be_u32_at(s, at + 100) == if self.height < 0x1_0000 {
            self.height * 0x1_0000
        } else {
            0xffff_ffff
        }
    }

    /// Whether the media header gives the timescale of the track, no
    /// duration, and no language.
    pub open spec fn mdhd_at(self, s: Seq<u8>, at: int) -> bool {
        &&& box_at(s, at, 44, 0x6d64_6864)
        &&& be_u32_at(s, at + 8) == 0x0100_0000
        &&& blank(s, at + 12, 4)
        &&& be_u32_at(s, at + 28) == self.timescale
        &&& blank(s, at + 32, 2)
        &&& be_u32_at(s, at + 40) == 0x55c4_0000
    }

    /// Whether the handler is `vide` or `soun`, with its name and a zero byte.
    pub open spec fn hdlr_at(self, s: Seq<u8>, at: int) -> bool {
        let name = if self.audio { "SoundHandler"@ } else { "VideoHandler"@ };
        &&& box_at(s, at, 45, 0x6864_6c72)
        &&& blank(s, at + 8, 2)
        &&& be_u32_at(s, at + 16) == if self.audio { 0x736f_756eu32 } else { 0x7669_6465 }
        &&& blank(s, at + 20, 3)
        &&& forall|i: int| 0 <= i < 12 ==> s[at + 32 + i] == #[trigger] name[i] as u8
        &&& s[at + 44] == 0
    }

    /// Whether the media information holds the media header of the handler, a
    /// data reference to the file itself, and a sample table with the sample
    /// entry and without samples.
    pub open spec fn minf_at(self, s: Seq<u8>, at: int) -> bool {
        let dinf = at + if self.audio { 24int } else { 28 };
        let stbl = dinf + 36;
        let tables = stbl + 24 + self.sample_entry.len();
        &&& box_at(s, at, self.mdia_len() - 97, 0x6d69_6e66)
        &&& if self.audio {
            box_at(s, at + 8, 16, 0x736d_6864) && blank(s, at + 16, 2)
        } else {
            box_at(s, at + 8, 20, 0x766d_6864) && be_u32_at(s, at + 16) == 1 && blank(
                s,
                at + 20,
                2,
            )
        }
        &&& box_at(s, dinf, 36, 0x6469_6e66)
        &&& box_at(s, dinf + 8, 28, 0x6472_6566)
        &&& be_u32_at(s, dinf + 16) == 0
        &&& be_u32_at(s, dinf + 20) == 1
        &&& box_at(s, dinf + 24, 12, 0x7572_6c20)
        &&& be_u32_at(s, dinf + 32) == 1
        &&& box_at(s, stbl, 92int + self.sample_entry.len(), 0x7374_626c)
        &&& box_at(s, stbl + 8, 16int + self.sample_entry.len(), 0x7374_7364)
        &&& be_u32_at(s, stbl + 16) == 0
        &&& be_u32_at(s, stbl + 20) == 1
        &&& stands(s, stbl + 24, self.sample_entry)
        &&& box_at(s, tables, 16, 0x7374_7473) && blank(s, tables + 8, 2)
        &&& box_at(s, tables + 16, 16, 0x7374_7363) && blank(s, tables + 24, 2)
        &&& box_at(s, tables + 32, 20, 0x7374_737a) && blank(s, tables + 40, 3)
        &&& box_at(s, tables + 52, 16, 0x7374_636f) && blank(s, tables + 60, 2)
    }

    /// Whether the `trak` box of the track stands at `at`: the track header,
    /// the edit list verbatim, and the media box.
    #[verifier::opaque]
    pub open spec fn trak_at(self, s: Seq<u8>, at: int) -> bool {
        let mdia = at + 112 + self.elst.len();
        &&& at + self.trak_len() <= s.len()
        &&& box_at(s, at, self.trak_len(), 0x7472_616b)
        &&& self.tkhd_at(s, at + 8)
        &&& stands(s, at + 112, self.elst)
        &&& box_at(s, mdia, self.mdia_len(), 0x6d64_6961)
        &&& self.mdhd_at(s, mdia + 8)
        &&& self.hdlr_at(s, mdia + 52)
        &&& self.minf_at(s, mdia + 97)
    }
}

/// What the init segment of an index says of its video track.
pub open spec fn video_says(index: IndexModel) -> TrackSays {
    TrackSays {
        audio: false,
        width: index.video_track.width,
        height: index.video_track.height,
        timescale: index.video_track.timescale,
        sample_entry: index.video_track.sample_entry,
        elst: index.video_track.elst,
    }
}

/// What the init segment of an index says of its audio track.
pub open spec fn audio_says(index: IndexModel) -> TrackSays {
    TrackSays {
        audio: true,
        width: 0,
        height: 0,
        timescale: index.audio_track.timescale,
        sample_entry: index.audio_track.sample_entry,
        elst: index.audio_track.elst,
    }
}

/// Words that are all 0.
proof fn lemma_blank(s: Seq<u8>, at: int, w: Seq<u32>, from: int, count: int)
    requires
        stands(s, at, words(w)),
        0 <= from,
        from + count <= w.len(),
        forall|k: int| from <= k < from + count ==> #[trigger] w[k] == 0,
    ensures
        blank(s, at + 4 * from, count),
{
    lemma_stands_words(s, at, w);
    assert forall|k: int| 0 <= k < count implies #[trigger] be_u32_at(s, at + 4 * from + 4 * k)
        == 0 by {
        assert(w[from + k] == 0);
        assert(be_u32_at(s, at + 4 * (from + k)) == w[from + k]);
    }
}

/// A box of words.
proof fn lemma_word_box(s: Seq<u8>, at: int, fourcc: u32, w: Seq<u32>)
    requires
        stands(s, at, box_bytes(fourcc, words(w))),
        w.len() < 100,
    ensures
        box_at(s, at, 8int + 4 * w.len(), fourcc),
        stands(s, at + 8, words(w)),
        forall|k: int| 0 <= k < w.len() ==> be_u32_at(s, at + 8 + 4 * k) == #[trigger] w[k],
        box_bytes(fourcc, words(w)).len() == 8 + 4 * w.len(),
{
    lemma_words_len(w);
    lemma_stands_box(s, at, fourcc, words(w));
    lemma_stands_words(s, at + 8, w);
}

#[verifier::rlimit(60)]
proof fn lemma_tkhd_at(s: Seq<u8>, at: int, says: TrackSays, id: u32)
    requires
        id == if says.audio { 2u32 } else { 1 },
        stands(
            s,
            at,
            box_bytes(TKHD, words(tkhd_words(id, says.audio, says.width, says.height))),
        ),
    ensures
        says.tkhd_at(s, at),
{
    let w = tkhd_words(id, says.audio, says.width, says.height);
    lemma_word_box(s, at, TKHD, w);
    assert(be_u32_at(s, at + 8 + 4 * 0) == w[0]);
    assert(be_u32_at(s, at + 8 + 4 * 5) == w[5]);
    assert(be_u32_at(s, at + 8 + 4 * 12) == w[12]);
    assert(be_u32_at(s, at + 8 + 4 * 13) == w[13]);
    assert(be_u32_at(s, at + 8 + 4 * 17) == w[17]);
    assert(be_u32_at(s, at + 8 + 4 * 21) == w[21]);
    assert(be_u32_at(s, at + 8 + 4 * 22) == w[22]);
    assert(be_u32_at(s, at + 8 + 4 * 23) == w[23]);
    lemma_blank(s, at + 8, w, 1, 4);
    lemma_blank(s, at + 8, w, 6, 6);
    lemma_blank(s, at + 8, w, 14, 3);
    lemma_blank(s, at + 8, w, 18, 3);
}

proof fn lemma_mdhd_at(s: Seq<u8>, at: int, says: TrackSays)
    requires
        stands(s, at, box_bytes(MDHD, words(mdhd_words(says.timescale)))),
    ensures
        says.mdhd_at(s, at),
{
    let w = mdhd_words(says.timescale);
    lemma_word_box(s, at, MDHD, w);
    assert(be_u32_at(s, at + 8 + 4 * 0) == w[0]);
    assert(be_u32_at(s, at + 8 + 4 * 5) == w[5]);
    assert(be_u32_at(s, at + 8 + 4 * 8) == w[8]);
    lemma_blank(s, at + 8, w, 1, 4);
    lemma_blank(s, at + 8, w, 6, 2);
}

proof fn lemma_hdlr_at(s: Seq<u8>, at: int, says: TrackSays, track: TrackInit)
    requires
        track.is_audio == says.audio,
        stands(s, at, box_bytes(HDLR, hdlr_payload(track.handler(), track.handler_name()))),
    ensures
        says.hdlr_at(s, at),
        hdlr_payload(track.handler(), track.handler_name()).len() == 37,
{
    broadcast use {group_bytes, lemma_words_len};

    let name = track.handler_name();
    reveal_strlit("SoundHandler");
    reveal_strlit("VideoHandler");
    let w = hdlr_words(track.handler());
    let payload = hdlr_payload(track.handler(), name);
    lemma_stands_box(s, at, HDLR, payload);
    lemma_stands_both(s, at + 8, words(w) + ascii(name), seq![0u8]);
    lemma_stands_both(s, at + 8, words(w), ascii(name));
    lemma_stands_words(s, at + 8, w);
    assert(be_u32_at(s, at + 8 + 4 * 2) == w[2]);
    lemma_blank(s, at + 8, w, 0, 2);
    lemma_blank(s, at + 8, w, 3, 3);
    let part = s.subrange(at + 32, at + 32 + 12);
    assert(part == ascii(name));
    assert forall|i: int| 0 <= i < 12 implies s[at + 32 + i] == #[trigger] name[i] as u8 by {
        assert(part[i] == s[at + 32 + i]);
        assert(ascii(name)[i] == name[i] as u8);
    }
    let zero = s.subrange(at + 44, at + 45);
    assert(zero[0] == s[at + 44]);
}

#[verifier::rlimit(60)]
proof fn lemma_stbl_at(s: Seq<u8>, at: int, track: TrackInit)
    requires
        track.stbl() is Ok,
        stands(s, at, track.stbl()->Ok_0),
    ensures
        ({
            let entry = track.sample_entry;
            let tables = at + 24 + entry.len();
            &&& track.stbl()->Ok_0.len() == 92 + entry.len()
            &&& box_at(s, at, 92int + entry.len(), 0x7374_626c)
            &&& box_at(s, at + 8, 16int + entry.len(), 0x7374_7364)
            &&& be_u32_at(s, at + 16) == 0
            &&& be_u32_at(s, at + 20) == 1
            &&& stands(s, at + 24, entry)
            &&& box_at(s, tables, 16, 0x7374_7473) && blank(s, tables + 8, 2)
            &&& box_at(s, tables + 16, 16, 0x7374_7363) && blank(s, tables + 24, 2)
            &&& box_at(s, tables + 32, 20, 0x7374_737a) && blank(s, tables + 40, 3)
            &&& box_at(s, tables + 52, 16, 0x7374_636f) && blank(s, tables + 60, 2)
        }),
{
    broadcast use {group_bytes, lemma_words_len};

    let entry = track.sample_entry;
    let none = counted_words(0);
    let one = counted_words(1);
    let stsd = track.stsd()->Ok_0;
    let stts = box_bytes(STTS, words(none));
    let stsc = box_bytes(STSC, words(none));
    let stsz = box_bytes(STSZ, words(stsz_words()));
    let stco = box_bytes(STCO, words(none));
    lemma_stands_box(s, at, STBL, stsd + stts + stsc + stsz + stco);
    lemma_stands_both(s, at + 8, stsd + stts + stsc + stsz, stco);
    lemma_stands_both(s, at + 8, stsd + stts + stsc, stsz);
    lemma_stands_both(s, at + 8, stsd + stts, stsc);
    lemma_stands_both(s, at + 8, stsd, stts);
    lemma_stands_box(s, at + 8, STSD, words(one) + entry);
    lemma_stands_both(s, at + 16, words(one), entry);
    lemma_stands_words(s, at + 16, one);
    assert(be_u32_at(s, at + 16 + 4 * 0) == one[0]);
    assert(be_u32_at(s, at + 16 + 4 * 1) == one[1]);
    let tables = at + 24 + entry.len();
    lemma_word_box(s, tables, STTS, none);
    lemma_blank(s, tables + 8, none, 0, 2);
    lemma_word_box(s, tables + 16, STSC, none);
    lemma_blank(s, tables + 24, none, 0, 2);
    lemma_word_box(s, tables + 32, STSZ, stsz_words());
    lemma_blank(s, tables + 40, stsz_words(), 0, 3);
    lemma_word_box(s, tables + 52, STCO, none);
    lemma_blank(s, tables + 60, none, 0, 2);
}

#[verifier::rlimit(60)]
proof fn lemma_dinf_at(s: Seq<u8>, at: int)
    requires
        stands(s, at, box_bytes(DINF, box_bytes(DREF, dref_payload()))),
    ensures
        box_bytes(DINF, box_bytes(DREF, dref_payload())).len() == 36,
        box_at(s, at, 36, 0x6469_6e66),
        box_at(s, at + 8, 28, 0x6472_6566),
        be_u32_at(s, at + 16) == 0,
        be_u32_at(s, at + 20) == 1,
        box_at(s, at + 24, 12, 0x7572_6c20),
        be_u32_at(s, at + 32) == 1,
{
    broadcast use {group_bytes, lemma_words_len};

    let one = counted_words(1);
    lemma_stands_box(s, at, DINF, box_bytes(DREF, dref_payload()));
    lemma_stands_box(s, at + 8, DREF, dref_payload());
    lemma_stands_both(s, at + 16, words(one), box_bytes(URL_, words(url_words())));
    lemma_stands_words(s, at + 16, one);
    assert(be_u32_at(s, at + 16 + 4 * 0) == one[0]);
    assert(be_u32_at(s, at + 16 + 4 * 1) == one[1]);
    lemma_word_box(s, at + 24, URL_, url_words());
    assert(be_u32_at(s, at + 24 + 8 + 4 * 0) == url_words()[0]);
}

/// The track that the writer makes of what is to be said.
spec fn track_of(says: TrackSays) -> TrackInit {
    TrackInit {
        track_id: if says.audio { 2 } else { 1 },
        is_audio: says.audio,
        width: says.width,
        height: says.height,
        timescale: says.timescale,
        sample_entry: says.sample_entry,
        elst: says.elst,
    }
}

#[verifier::rlimit(60)]
proof fn lemma_minf_at(s: Seq<u8>, at: int, says: TrackSays)
    requires
        track_of(says).minf() is Ok,
        stands(s, at, track_of(says).minf()->Ok_0),
    ensures
        says.minf_at(s, at),
        track_of(says).minf()->Ok_0.len() == says.mdia_len() - 97,
{
    broadcast use {group_bytes, lemma_words_len};

    let track = track_of(says);
    let header = track.media_header();
    let dinf = box_bytes(DINF, box_bytes(DREF, dref_payload()));
    let stbl = track.stbl()->Ok_0;
    assert(stbl.subrange(0, stbl.len() as int) =~= stbl);
    lemma_stbl_at(stbl, 0, track);
    lemma_stands_box(s, at, MINF, header + dinf + stbl);
    lemma_stands_both(s, at + 8, header + dinf, stbl);
    lemma_stands_both(s, at + 8, header, dinf);
    if says.audio {
        lemma_word_box(s, at + 8, SMHD, smhd_words());
        lemma_blank(s, at + 16, smhd_words(), 0, 2);
    } else {
        lemma_word_box(s, at + 8, VMHD, vmhd_words());
        assert(be_u32_at(s, at + 8 + 8 + 4 * 0) == vmhd_words()[0]);
        lemma_blank(s, at + 16, vmhd_words(), 1, 2);
    }
    lemma_dinf_at(s, at + 8 + header.len());
    lemma_stbl_at(s, at + 8 + header.len() + dinf.len(), track);
}

#[verifier::rlimit(60)]
proof fn lemma_trak_at(s: Seq<u8>, at: int, says: TrackSays)
    requires
        track_of(says).trak() is Ok,
        stands(s, at, track_of(says).trak()->Ok_0),
    ensures
        says.trak_at(s, at),
        track_of(says).trak()->Ok_0.len() == says.trak_len(),
{
    reveal(TrackSays::trak_at);
    broadcast use {group_bytes, lemma_words_len};

    let track = track_of(says);
    let tkhd = box_bytes(
        TKHD,
        words(tkhd_words(track.track_id, track.is_audio, track.width, track.height)),
    );
    let mdhd = box_bytes(MDHD, words(mdhd_words(track.timescale)));
    let hdlr = box_bytes(HDLR, hdlr_payload(track.handler(), track.handler_name()));
    let minf = track.minf()->Ok_0;
    let mdia = track.mdia()->Ok_0;
    assert(minf.subrange(0, minf.len() as int) =~= minf);
    lemma_minf_at(minf, 0, says);
    assert(hdlr.subrange(0, hdlr.len() as int) =~= hdlr);
    lemma_hdlr_at(hdlr, 0, says, track);
    lemma_stands_box(s, at, TRAK, tkhd + track.elst + mdia);
    lemma_stands_both(s, at + 8, tkhd + track.elst, mdia);
    lemma_stands_both(s, at + 8, tkhd, track.elst);
    lemma_tkhd_at(s, at + 8, says, track.track_id);
    let m = at + 112 + says.elst.len();
    lemma_stands_box(s, m, MDIA, mdhd + hdlr + minf);
    lemma_stands_both(s, m + 8, mdhd + hdlr, minf);
    lemma_stands_both(s, m + 8, mdhd, hdlr);
    lemma_mdhd_at(s, m + 8, says);
    lemma_hdlr_at(s, m + 52, says, track);
    lemma_minf_at(s, m + 97, says);
}

/// Whether the movie header stands at `at`: 1000 ticks a second, normal rate
/// and volume, and 3 as the next free track.
#[verifier::opaque]
pub open spec fn mvhd_at(s: Seq<u8>, at: int) -> bool {
    &&& box_at(s, at, 120, 0x6d76_6864)
    &&& be_u32_at(s, at + 8) == 0x0100_0000
    &&& blank(s, at + 12, 4)
    &&& be_u32_at(s, at + 28) == 1000
    &&& blank(s, at + 32, 2)
    &&& be_u32_at(s, at + 40) == 0x0001_0000
    &&& be_u32_at(s, at + 44) == 0x0100_0000
    &&& blank(s, at + 48, 2)
    &&& unity_matrix(s, at + 56)
    &&& blank(s, at + 92, 6)
    &&& be_u32_at(s, at + 116) == 3
}

#[verifier::rlimit(60)]
proof fn lemma_mvhd_at(s: Seq<u8>, at: int)
    requires
        stands(s, at, box_bytes(MVHD, words(mvhd_words()))),
    ensures
        mvhd_at(s, at),
{
    reveal(mvhd_at);
    let w = mvhd_words();
    lemma_word_box(s, at, MVHD, w);
    assert(be_u32_at(s, at + 8 + 4 * 0) == w[0]);
    assert(be_u32_at(s, at + 8 + 4 * 5) == w[5]);
    assert(be_u32_at(s, at + 8 + 4 * 8) == w[8]);
    assert(be_u32_at(s, at + 8 + 4 * 9) == w[9]);
    assert(be_u32_at(s, at + 8 + 4 * 12) == w[12]);
    assert(be_u32_at(s, at + 8 + 4 * 16) == w[16]);
    assert(be_u32_at(s, at + 8 + 4 * 20) == w[20]);
    assert(be_u32_at(s, at + 8 + 4 * 27) == w[27]);
    lemma_blank(s, at + 8, w, 1, 4);
    lemma_blank(s, at + 8, w, 6, 2);
    lemma_blank(s, at + 8, w, 10, 2);
    lemma_blank(s, at + 8, w, 13, 3);
    lemma_blank(s, at + 8, w, 17, 3);
    lemma_blank(s, at + 8, w, 21, 6);
}

/// Whether the fragment defaults of a track stand at `at`: its first sample
/// description, no duration, no size, and the given flags.
#[verifier::opaque]
pub open spec fn trex_at(s: Seq<u8>, at: int, track_id: u32, flags: u32) -> bool {
    &&& box_at(s, at, 32, 0x7472_6578)
    &&& be_u32_at(s, at + 8) == 0
    &&& be_u32_at(s, at + 12) == track_id
    &&& be_u32_at(s, at + 16) == 1
    &&& blank(s, at + 20, 2)
    &&& be_u32_at(s, at + 28) == flags
}

proof fn lemma_trex_at(s: Seq<u8>, at: int, track_id: u32, flags: u32)
    requires
        stands(s, at, box_bytes(TREX, words(trex_words(track_id, flags)))),
    ensures
        trex_at(s, at, track_id, flags),
{
    reveal(trex_at);
    let w = trex_words(track_id, flags);
    lemma_word_box(s, at, TREX, w);
    assert(be_u32_at(s, at + 8 + 4 * 0) == w[0]);
    assert(be_u32_at(s, at + 8 + 4 * 1) == w[1]);
    assert(be_u32_at(s, at + 8 + 4 * 2) == w[2]);
    assert(be_u32_at(s, at + 8 + 4 * 5) == w[5]);
    lemma_blank(s, at + 8, w, 3, 2);
}

/// The pieces of an init segment.
#[verifier::rlimit(60)]
proof fn lemma_init_stands(index: IndexModel)
    requires
        init_segment(index) is Ok,
    ensures
        ({
            let init = init_segment(index)->Ok_0;
            let v = video_init(index).trak()->Ok_0;
            let a = audio_init(index).trak()->Ok_0;
            let vl = video_says(index).trak_len();
            let al = audio_says(index).trak_len();
            &&& track_of(video_says(index)) == video_init(index)
            &&& track_of(audio_says(index)) == audio_init(index)
            &&& video_init(index).trak() is Ok
            &&& audio_init(index).trak() is Ok
            &&& init.len() == 224 + vl + al
            &&& init.len() <= u32::MAX + 24
            &&& stands(init, 0, box_bytes(FTYP, words(ftyp_words())))
            &&& box_at(init, 24, init.len() - 24, 0x6d6f_6f76)
            &&& stands(init, 32, box_bytes(MVHD, words(mvhd_words())))
            &&& stands(init, 152, v)
            &&& stands(init, 152 + vl, a)
            &&& stands(init, 152 + vl + al, box_bytes(MVEX, mvex_payload()))
            &&& mvex_payload().len() == 64
        }),
{
    broadcast use {group_bytes, lemma_words_len};

    let init = init_segment(index)->Ok_0;
    let video = video_says(index);
    let audio = audio_says(index);
    assert(track_of(video) == video_init(index));
    assert(track_of(audio) == audio_init(index));
    let v = video_init(index).trak()->Ok_0;
    let a = audio_init(index).trak()->Ok_0;
    assert(v.subrange(0, v.len() as int) =~= v);
    assert(a.subrange(0, a.len() as int) =~= a);
    lemma_trak_at(v, 0, video);
    lemma_trak_at(a, 0, audio);
    let ftyp = box_bytes(FTYP, words(ftyp_words()));
    let mvhd = box_bytes(MVHD, words(mvhd_words()));
    let mvex = box_bytes(MVEX, mvex_payload());
    let moov = box_bytes(MOOV, mvhd + v + a + mvex);
    assert(init == ftyp + moov);
    assert(init.subrange(0, init.len() as int) =~= init);
    lemma_stands_both(init, 0, ftyp, moov);
    lemma_stands_box(init, 24, MOOV, mvhd + v + a + mvex);
    lemma_stands_both(init, 32, mvhd + v + a, mvex);
    lemma_stands_both(init, 32, mvhd + v, a);
    lemma_stands_both(init, 32, mvhd, v);
}

/// Whether a `ftyp` box with the brands of a CMAF file stands at the start.
pub open spec fn ftyp_at(s: Seq<u8>) -> bool {
    &&& box_at(s, 0, 24, 0x6674_7970)
    &&& be_u32_at(s, 8) == 0x636d_6663
    &&& be_u32_at(s, 12) == 0
    &&& be_u32_at(s, 16) == 0x6973_6f36
    &&& be_u32_at(s, 20) == 0x636d_6663
}

proof fn lemma_ftyp_at(s: Seq<u8>)
    requires
        stands(s, 0, box_bytes(FTYP, words(ftyp_words()))),
    ensures
        ftyp_at(s),
{
    let w = ftyp_words();
    lemma_word_box(s, 0, FTYP, w);
    assert(be_u32_at(s, 0int + 8 + 4 * 0) == w[0]);
    assert(be_u32_at(s, 0int + 8 + 4 * 1) == w[1]);
    assert(be_u32_at(s, 0int + 8 + 4 * 2) == w[2]);
    assert(be_u32_at(s, 0int + 8 + 4 * 3) == w[3]);
}

proof fn lemma_mvex_at(s: Seq<u8>, at: int)
    requires
        stands(s, at, box_bytes(MVEX, mvex_payload())),
    ensures
        box_at(s, at, 72, 0x6d76_6578),
        trex_at(s, at + 8, 1, 0x0101_0000),
        trex_at(s, at + 40, 2, 0x0200_0000),
{
    let w0 = trex_words(1, 0x0101_0000);
    let w1 = trex_words(2, 0x0200_0000);
    let t0 = box_bytes(TREX, words(w0));
    let t1 = box_bytes(TREX, words(w1));
    lemma_words_len(w0);
    lemma_words_len(w1);
    lemma_box_len(TREX, words(w0));
    lemma_box_len(TREX, words(w1));
    assert(mvex_payload() == t0 + t1);
    lemma_stands_box(s, at, MVEX, t0 + t1);
    lemma_stands_both(s, at + 8, t0, t1);
    lemma_trex_at(s, at + 8, 1, 0x0101_0000);
    lemma_trex_at(s, at + 40, 2, 0x0200_0000);
}

/// All that stands in an init segment, read from its pieces.
proof fn lemma_init_words(s: Seq<u8>, video: TrackSays, audio: TrackSays)
    requires
        track_of(video).trak() is Ok,
        track_of(audio).trak() is Ok,
        stands(s, 0, box_bytes(FTYP, words(ftyp_words()))),
        stands(s, 32, box_bytes(MVHD, words(mvhd_words()))),
        stands(s, 152, track_of(video).trak()->Ok_0),
        stands(s, 152 + video.trak_len(), track_of(audio).trak()->Ok_0),
        stands(
            s,
            152 + video.trak_len() + audio.trak_len(),
            box_bytes(MVEX, mvex_payload()),
        ),
    ensures
        ({
            let mvex = 152 + video.trak_len() + audio.trak_len();
            &&& ftyp_at(s)
            &&& mvhd_at(s, 32)
            &&& video.trak_at(s, 152)
            &&& audio.trak_at(s, 152 + video.trak_len())
            &&& box_at(s, mvex, 72, 0x6d76_6578)
            &&& trex_at(s, mvex + 8, 1, 0x0101_0000)
            &&& trex_at(s, mvex + 40, 2, 0x0200_0000)
        }),
{
    lemma_ftyp_at(s);
    lemma_mvhd_at(s, 32);
    lemma_trak_at(s, 152, video);
    lemma_trak_at(s, 152 + video.trak_len(), audio);
    lemma_mvex_at(s, 152 + video.trak_len() + audio.trak_len());
}

/// An init segment, word by word: `ftyp` with its brands, and `moov` with the
/// movie header, the video track, the audio track, and the fragment defaults,
/// under which a video sample depends on others and an audio sample does not.
/// Each track has its own timescale, size, handler, sample entry and edit
/// list, taken from the index.
#[verifier::rlimit(60)]
pub proof fn law_init_segment_words(index: IndexModel)
    requires
        init_segment(index) is Ok,
    ensures
        ({
            let init = init_segment(index)->Ok_0;
            let video = video_says(index);
            let audio = audio_says(index);
            let mvex = 152 + video.trak_len() + audio.trak_len();
            &&& init.len() == mvex + 72
            &&& ftyp_at(init)
            &&& box_at(init, 24, init.len() - 24, 0x6d6f_6f76)
            &&& mvhd_at(init, 32)
            &&& video.trak_at(init, 152)
            &&& audio.trak_at(init, 152 + video.trak_len())
            &&& box_at(init, mvex, 72, 0x6d76_6578)
            &&& trex_at(init, mvex + 8, 1, 0x0101_0000)
            &&& trex_at(init, mvex + 40, 2, 0x0200_0000)
        }),
{
    lemma_init_stands(index);
    lemma_init_words(init_segment(index)->Ok_0, video_says(index), audio_says(index));
}

proof fn lemma_trak_fits(says: TrackSays)
    requires
        says.trak_len() <= u32::MAX,
    ensures
        track_of(says).trak() is Ok,
        track_of(says).trak()->Ok_0.len() == says.trak_len(),
{
    broadcast use {group_bytes, lemma_words_len};

    let track = track_of(says);
    reveal_strlit("SoundHandler");
    reveal_strlit("VideoHandler");
    assert(dref_payload().len() == 20);
    assert(box_bytes(DINF, box_bytes(DREF, dref_payload())).len() == 36);
    assert(track.stsd() is Ok);
    assert(track.stbl() is Ok);
    assert(track.stbl()->Ok_0.len() == 92 + says.sample_entry.len());
    assert(track.minf() is Ok);
    assert(track.minf()->Ok_0.len() == says.mdia_len() - 97);
    assert(track.mdia() is Ok);
    assert(track.mdia()->Ok_0.len() == says.mdia_len());
}

/// Where the `moov` box fits, so does every box in it.
#[verifier::rlimit(60)]
proof fn lemma_init_fits(index: IndexModel)
    requires
        200 + video_says(index).trak_len() + audio_says(index).trak_len() <= u32::MAX,
    ensures
        init_segment(index) is Ok,
{
    let video = video_says(index);
    let audio = audio_says(index);
    assert(track_of(video) == video_init(index));
    assert(track_of(audio) == audio_init(index));
    lemma_trak_fits(video);
    lemma_trak_fits(audio);
    lemma_words_len(mvhd_words());
    lemma_box_len(MVHD, words(mvhd_words()));
    let w0 = trex_words(1, 0x0101_0000);
    let w1 = trex_words(2, 0x0200_0000);
    lemma_words_len(w0);
    lemma_words_len(w1);
    lemma_box_len(TREX, words(w0));
    lemma_box_len(TREX, words(w1));
    lemma_box_len(MVEX, mvex_payload());
}

/// Whether a failure reports a box that does not fit.
pub open spec fn too_large(r: Result<Seq<u8>, PackagerError>) -> bool {
    r matches Err(PackagerError::Io(IoError::BoxTooLarge { fourcc: _, size: _ }))
}

proof fn lemma_trak_failure(track: TrackInit)
    ensures
        track.trak() is Err ==> too_large(track.trak()),
{
    assert(track.stbl() is Err ==> too_large(track.stbl()));
    assert(track.minf() is Err ==> too_large(track.minf()));
    assert(track.mdia() is Err ==> too_large(track.mdia()));
}

/// An index has an init segment as long as the `moov` box fits its 32-bit
/// size field; else the box that does not fit is reported.
pub proof fn law_init_segment_fails_only_by_size(index: IndexModel)
    ensures
        200 + video_says(index).trak_len() + audio_says(index).trak_len() <= 0xffff_ffff
            <==> init_segment(index) is Ok,
        init_segment(index) is Err ==> too_large(init_segment(index)),
{
    if 200 + video_says(index).trak_len() + audio_says(index).trak_len() <= u32::MAX {
        lemma_init_fits(index);
    } else if init_segment(index) is Ok {
        lemma_init_stands(index);
    }
    lemma_trak_failure(video_init(index));
    lemma_trak_failure(audio_init(index));
}

} // verus!
