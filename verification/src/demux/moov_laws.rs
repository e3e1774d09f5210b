//! What a parse of an MP4 file says, in terms of its boxes and bytes.
//!
//! The laws follow the wording of ISO/IEC 14496-12. Box types, brands and
//! handlers are written as numbers, `0x6d6f6f76` for `moov` and so on; places
//! count from the payload of a box.

use vstd::prelude::*;

use crate::bytes::{be_u16_at, be_u32_at, lemma_be_u32_within};
use crate::demux::moov::{
    audio_sample_entry, classify, encryption_fault, entry_child_rule, entry_for_handler,
    first_stbl, ftyp, handler_count, hdlr_type, mdhd_timescale, mdia, mdia_child_rule,
    minf_stbl, moov, moov_child_rule, no_encryption, stbl, stbl_child_rule, stsd_entry,
    table_locs, tkhd, top_level, top_level_rule, tracks_of, trak, trak_child_rule, ByteRange,
    ChunkOffsets, StblData, UnclassifiedTrack,
};
use crate::demux::reader::{
    first_fault, last_of, law_scanned_boxes_lie_in_their_container, next_box, scan, BoxHeader,
    BoxRule,
};
use crate::error::PackagerError;

verus! {

/// Whether a box lies in the source.
pub open spec fn in_source(src: Seq<u8>, h: BoxHeader) -> bool {
    h.wf() && h.spec_end() <= src.len()
}

/// Whether box `j` is the last one of its type.
pub open spec fn is_last(boxes: Seq<BoxHeader>, ty: u32, j: int) -> bool {
    &&& 0 <= j < boxes.len()
    &&& boxes[j].box_type == ty
    &&& forall|i: int| j < i < boxes.len() ==> (#[trigger] boxes[i]).box_type != ty
}

/// Whether no box has the given type.
pub open spec fn lacks(boxes: Seq<BoxHeader>, ty: u32) -> bool {
    forall|i: int| 0 <= i < boxes.len() ==> (#[trigger] boxes[i]).box_type != ty
}

proof fn lemma_is_last(boxes: Seq<BoxHeader>, ty: u32, j: int)
    requires
        is_last(boxes, ty, j),
    ensures
        last_of(boxes, ty) == Some(boxes[j]),
    decreases boxes.len(),
{
    if j < boxes.len() - 1 {
        let before = boxes.drop_last();
        assert(boxes[boxes.len() - 1].box_type != ty);
        assert forall|i: int| j < i < before.len() implies (#[trigger] before[i]).box_type != ty by {
            assert(boxes[i].box_type != ty);
        }
        lemma_is_last(before, ty, j);
    }
}

proof fn lemma_last_of(boxes: Seq<BoxHeader>, ty: u32)
    ensures
        match last_of(boxes, ty) {
            Some(h) => exists|j: int| #[trigger] is_last(boxes, ty, j) && boxes[j] == h,
            None => lacks(boxes, ty),
        },
    decreases boxes.len(),
{
    if boxes.len() > 0 {
        let n = boxes.len() as int;
        let before = boxes.drop_last();
        lemma_last_of(before, ty);
        if boxes.last().box_type == ty {
            assert(is_last(boxes, ty, n - 1));
        } else {
            match last_of(before, ty) {
                Some(h) => {
                    let j = choose|j: int| #[trigger] is_last(before, ty, j) && before[j] == h;
                    assert forall|i: int| j < i < boxes.len() implies (#[trigger] boxes[i]).box_type
                        != ty by {
                        if i < n - 1 {
                            assert(before[i].box_type != ty);
                        }
                    }
                    assert(is_last(boxes, ty, j));
                },
                None => {
                    assert forall|i: int| 0 <= i < boxes.len() implies (
                    #[trigger] boxes[i]).box_type != ty by {
                        if i < n - 1 {
                            assert(before[i].box_type != ty);
                        }
                    }
                },
            }
        }
    }
}

/// Within a container the first box that its rule rejects decides: whatever
/// comes after it changes nothing. Where the rule rejects none, none is at
/// fault.
pub proof fn law_first_bad_box_decides(boxes: Seq<BoxHeader>, rule: BoxRule, k: int)
    requires
        0 <= k <= boxes.len(),
        forall|i: int| 0 <= i < k ==> rule(#[trigger] boxes.take(i), boxes[i]) is None,
    ensures
        k == boxes.len() ==> first_fault(boxes, rule) is None,
        k < boxes.len() && rule(boxes.take(k), boxes[k]) is Some ==> first_fault(boxes, rule)
            == rule(boxes.take(k), boxes[k]),
    decreases boxes.len(),
{
    if boxes.len() > 0 {
        let n = boxes.len() as int;
        let before = boxes.drop_last();
        assert(before =~= boxes.take(n - 1));
        let kb = if k < n { k } else { n - 1 };
        assert forall|i: int| 0 <= i < kb implies rule(#[trigger] before.take(i), before[i])
            is None by {
            assert(before.take(i) =~= boxes.take(i));
        }
        assert(before.take(kb) =~= boxes.take(kb));
        law_first_bad_box_decides(before, rule, kb);
    }
}

proof fn lemma_no_fault(boxes: Seq<BoxHeader>, rule: BoxRule)
    requires
        first_fault(boxes, rule) is None,
    ensures
        forall|i: int| 0 <= i < boxes.len() ==> rule(#[trigger] boxes.take(i), boxes[i]) is None,
    decreases boxes.len(),
{
    if boxes.len() > 0 {
        let n = boxes.len() as int;
        let before = boxes.drop_last();
        assert(before =~= boxes.take(n - 1));
        lemma_no_fault(before, rule);
        assert forall|i: int| 0 <= i < boxes.len() implies rule(#[trigger] boxes.take(i), boxes[i])
            is None by {
            if i < n - 1 {
                assert(before.take(i) =~= boxes.take(i));
            }
        }
    }
}

/// The bytes of an integer, the high one first.
pub proof fn law_numbers_are_big_endian(s: Seq<u8>, at: int)
    ensures
        be_u32_at(s, at) == s[at] * 16777216 + s[at + 1] * 65536 + s[at + 2] * 256 + s[at + 3],
        be_u16_at(s, at) == s[at] * 256 + s[at + 1],
{
    reveal(be_u32_at);
    reveal(be_u16_at);
}

/// A track header gives the picture size in whole pixels: the high halves of
/// the last two words of its fixed part, which is longer in version 1.
pub proof fn law_track_header_gives_the_size(src: Seq<u8>, h: BoxHeader)
    requires
        in_source(src, h),
    ensures
        ({
            let at = h.payload_offset as int;
            let len = h.spec_payload_len();
            match tkhd(src, h) {
                Ok(size) => {
                    let field = if src[at] == 0 { at + 76 } else { at + 88 };
                    &&& src[at] == 0 && len >= 84 || src[at] == 1 && len >= 96
                    &&& size.width == src[field] * 256 + src[field + 1]
                    &&& size.height == src[field + 4] * 256 + src[field + 5]
                },
                Err(e) => {
                    &&& e is MalformedAtom
                    &&& len >= 4 ==> !(src[at] == 0 && len >= 84 || src[at] == 1 && len >= 96)
                },
            }
        }),
{
    reveal(be_u32_at);
}

/// A media header gives the timescale: behind two times of 32 bits in version
/// 0, of 64 bits in version 1.
pub proof fn law_media_header_gives_the_timescale(src: Seq<u8>, h: BoxHeader)
    requires
        in_source(src, h),
    ensures
        ({
            let at = h.payload_offset as int;
            let len = h.spec_payload_len();
            match mdhd_timescale(src, h) {
                Ok(timescale) => {
                    ||| src[at] == 0 && len >= 16 && timescale == be_u32_at(src, at + 12)
                    ||| src[at] == 1 && len >= 24 && timescale == be_u32_at(src, at + 20)
                },
                Err(e) => {
                    &&& e is MalformedAtom
                    &&& len >= 4 ==> !(src[at] == 0 && len >= 16 || src[at] == 1 && len >= 24)
                },
            }
        }),
{
}

/// A handler box gives the handler type in its third word.
pub proof fn law_handler_box_gives_the_type(src: Seq<u8>, h: BoxHeader)
    requires
        in_source(src, h),
    ensures
        match hdlr_type(src, h) {
            Ok(handler) => h.spec_payload_len() >= 12 && handler == be_u32_at(
                src,
                h.payload_offset + 8,
            ),
            Err(e) => h.spec_payload_len() < 12 && e is MalformedAtom,
        },
{
}

/// An audio sample entry gives the channel count and the sample rate, in
/// whole hertz. It may be of version 0 or 1.
pub proof fn law_audio_entry_gives_rate_and_channels(src: Seq<u8>, h: BoxHeader)
    requires
        in_source(src, h),
    ensures
        ({
            let at = h.payload_offset as int;
            let fits = h.spec_payload_len() >= 28 && src[at + 8] == 0 && src[at + 9] <= 1
                && src[at + 16] == 0;
            match audio_sample_entry(src, h) {
                Ok((rate, channels)) => {
                    &&& fits
                    &&& rate == src[at + 24] * 256 + src[at + 25]
                    &&& channels == src[at + 17]
                },
                Err(e) => !fits && e is MalformedAtom,
            }
        }),
{
    reveal(be_u32_at);
    reveal(be_u16_at);
}

/// The brands that a file may carry: isom, mp42, iso2, iso4, iso5, iso6,
/// cmfc, mp41.
pub open spec fn known_brand(brand: u32) -> bool {
    ||| brand == 0x6973_6f6d
    ||| brand == 0x6d70_3432
    ||| brand == 0x6973_6f32
    ||| brand == 0x6973_6f34
    ||| brand == 0x6973_6f35
    ||| brand == 0x6973_6f36
    ||| brand == 0x636d_6663
    ||| brand == 0x6d70_3431
}

/// A file type is accepted if its major brand is known, or else if one of its
/// compatible brands, from the third word on, is.
pub proof fn law_known_brands_are_accepted(src: Seq<u8>, h: BoxHeader)
    requires
        in_source(src, h),
        h.spec_payload_len() <= usize::MAX,
    ensures
        ({
            let at = h.payload_offset as int;
            let len = h.spec_payload_len();
            let listed = exists|k: int|
                8 <= 4 * k <= len - 4 && known_brand(#[trigger] be_u32_at(src, at + 4 * k));
            match ftyp(src, h) {
                Ok(_) => len >= 8 && (known_brand(be_u32_at(src, at)) || len % 4 == 0 && listed),
                Err(e) => {
                    &&& len >= 8 ==> !known_brand(be_u32_at(src, at))
                    &&& len >= 8 && len % 4 == 0 ==> !listed && e is UnsupportedBrand
                    &&& len < 8 || len % 4 != 0 ==> e is MalformedAtom
                },
            }
        }),
{
    let at = h.payload_offset as int;
    let len = h.spec_payload_len();
    if len >= 8 {
        let payload = src.subrange(at, at + len);
        assert forall|k: int| 0 <= k && 4 * k <= len - 4 implies #[trigger] be_u32_at(
            src,
            at + 4 * k,
        ) == be_u32_at(payload, 4 * k) by {
            lemma_be_u32_within(src, at + 4 * k, payload, 4 * k);
        }
        assert(be_u32_at(src, at + 4 * 0) == be_u32_at(payload, 4int * 0));
        if exists|k: int|
            8 <= 4 * k <= len - 4 && known_brand(#[trigger] be_u32_at(payload, 4 * k)) {
            let k = choose|k: int|
                8 <= 4 * k <= len - 4 && known_brand(#[trigger] be_u32_at(payload, 4 * k));
            assert(be_u32_at(src, at + 4 * k) == be_u32_at(payload, 4 * k));
        }
        if exists|k: int|
            8 <= 4 * k <= len - 4 && known_brand(#[trigger] be_u32_at(src, at + 4 * k)) {
            let k = choose|k: int|
                8 <= 4 * k <= len - 4 && known_brand(#[trigger] be_u32_at(src, at + 4 * k));
            assert(known_brand(be_u32_at(payload, 4 * k)));
        }
    }
}

/// Whether a box is a sample group (`sbgp`, `sgpd`) of a type that is no mark
/// of encryption.
pub open spec fn harmless_group(src: Seq<u8>, h: BoxHeader) -> bool {
    h.spec_payload_len() >= 8 && be_u32_at(src, h.payload_offset + 4) != 0x7365_6967
}

/// Whether a box marks no encryption: it is no `senc`, `tenc` or `sinf`, and if
/// it is a sample group, it is a harmless one.
pub open spec fn unencrypted(src: Seq<u8>, h: BoxHeader) -> bool {
    &&& h.box_type != 0x7365_6e63
    &&& h.box_type != 0x7465_6e63
    &&& h.box_type != 0x7369_6e66
    &&& h.box_type == 0x7362_6770 || h.box_type == 0x7367_7064 ==> harmless_group(src, h)
}

/// Boxes that mark encryption are refused as such, and no others. (A sample
/// group that is too short to tell is malformed.)
pub proof fn law_encryption_marks_are_refused(src: Seq<u8>, h: BoxHeader)
    requires
        in_source(src, h),
    ensures
        encryption_fault(src, h) is None <==> unencrypted(src, h),
        encryption_fault(src, h) matches Some(e) ==> {
            ||| e is EncryptedInput
            ||| e is MalformedAtom && h.spec_payload_len() < 8
        },
        h.box_type == 0x7365_6e63 || h.box_type == 0x7465_6e63 || h.box_type == 0x7369_6e66
            ==> encryption_fault(src, h) == Some(PackagerError::EncryptedInput),
{
}

/// Where the child boxes of a sample entry start: behind the fields of a
/// visual or an audio sample entry.
pub open spec fn entry_children(h: BoxHeader, audio: bool) -> int {
    h.payload_offset + if audio { 28int } else { 78 }
}

/// A sample entry is taken for encrypted exactly if one of its child boxes
/// marks encryption; its child boxes must be readable.
pub proof fn law_sample_entries_are_searched_for_encryption(
    src: Seq<u8>,
    h: BoxHeader,
    audio: bool,
)
    requires
        in_source(src, h),
        src.len() <= u64::MAX,
    ensures
        ({
            let start = entry_children(h, audio);
            let children = scan(src, start, h.spec_end());
            no_encryption(src, h, audio) is Ok <==> {
                ||| start >= h.spec_end()
                ||| children.fault is None && forall|i: int|
                    0 <= i < children.boxes.len() ==> unencrypted(
                        src,
                        #[trigger] children.boxes[i],
                    )
            }
        }),
{
    let start = entry_children(h, audio);
    if start < h.spec_end() {
        let boxes = scan(src, start, h.spec_end()).boxes;
        let rule = entry_child_rule(src);
        law_scanned_boxes_lie_in_their_container(src, start, h.spec_end());
        assert forall|i: int| 0 <= i < boxes.len() implies in_source(src, #[trigger] boxes[i]) by {}
        if first_fault(boxes, rule) is None {
            lemma_no_fault(boxes, rule);
            assert forall|i: int| 0 <= i < boxes.len() implies unencrypted(
                src,
                #[trigger] boxes[i],
            ) by {
                assert(rule(boxes.take(i), boxes[i]) is None);
                law_encryption_marks_are_refused(src, boxes[i]);
            }
        } else if forall|i: int| 0 <= i < boxes.len() ==> unencrypted(src, #[trigger] boxes[i]) {
            assert forall|i: int| 0 <= i < boxes.len() implies rule(
                #[trigger] boxes.take(i),
                boxes[i],
            ) is None by {
                law_encryption_marks_are_refused(src, boxes[i]);
            }
            law_first_bad_box_decides(boxes, rule, boxes.len() as int);
        }
    }
}

/// A video track may use avc1, hvc1 and hev1 and an audio track mp4a: with no
/// mark of encryption, such an entry is accepted, and every other refused for
/// its codec. The entry of a track of another kind is let through.
pub proof fn law_known_codecs_are_accepted(src: Seq<u8>, h: BoxHeader, handler: u32)
    requires
        in_source(src, h),
    ensures
        handler == 0x7669_6465 && no_encryption(src, h, false) is Ok ==> {
            let known = h.box_type == 0x6176_6331 || h.box_type == 0x6876_6331 || h.box_type
                == 0x6865_7631;
            &&& known ==> entry_for_handler(src, h, handler) is Ok
            &&& !known ==> entry_for_handler(src, h, handler) == Err::<(u32, u8), _>(
                PackagerError::UnsupportedVideoCodec,
            )
        },
        handler == 0x736f_756e && no_encryption(src, h, true) is Ok ==> {
            &&& h.box_type == 0x6d70_3461 ==> entry_for_handler(src, h, handler)
                == audio_sample_entry(src, h)
            &&& h.box_type != 0x6d70_3461 ==> entry_for_handler(src, h, handler) == Err::<(u32, u8), _>(
                PackagerError::UnsupportedAudioCodec,
            )
        },
        handler == 0x7669_6465 ==> (no_encryption(src, h, false) matches Err(e)
            ==> entry_for_handler(src, h, handler) == Err::<(u32, u8), _>(e)),
        handler == 0x736f_756e ==> (no_encryption(src, h, true) matches Err(e)
            ==> entry_for_handler(src, h, handler) == Err::<(u32, u8), _>(e)),
        handler != 0x736f_756e ==> (entry_for_handler(src, h, handler) matches Ok(v) ==> v == (
            0u32,
            0u8,
        )),
        handler != 0x7669_6465 && handler != 0x736f_756e ==> entry_for_handler(src, h, handler)
            is Ok,
{
}

/// A sample description holds one sample entry, which fills it; the entry is
/// recorded whole, with its type.
pub proof fn law_sample_description_holds_one_entry(src: Seq<u8>, h: BoxHeader, handler: u32)
    requires
        in_source(src, h),
        src.len() <= u64::MAX,
    ensures
        ({
            let at = h.payload_offset as int;
            let entry = next_box(src, at + 8, h.spec_end());
            let one = h.spec_payload_len() > 8 && be_u32_at(src, at + 4) == 1 && entry is Ok
                && entry->Ok_0 is Some && entry->Ok_0->Some_0.spec_end() == h.spec_end();
            match stsd_entry(src, h, handler) {
                Ok(info) => {
                    let e = entry->Ok_0->Some_0;
                    &&& one
                    &&& entry_for_handler(src, e, handler) == Ok::<_, PackagerError>(
                        (info.sample_rate, info.channel_count),
                    )
                    &&& info.fourcc == e.box_type
                    &&& info.sample_entry.offset == e.start
                    &&& info.sample_entry.offset + info.sample_entry.len == h.spec_end()
                },
                Err(err) => one ==> entry_for_handler(src, entry->Ok_0->Some_0, handler) == Err::<
                    (u32, u8),
                    _,
                >(err),
            }
        }),
{
}

/// Whether `range` is the payload of the last box of a type, or there is
/// neither.
pub open spec fn located(boxes: Seq<BoxHeader>, ty: u32, range: Option<ByteRange>) -> bool {
    match range {
        None => lacks(boxes, ty),
        Some(range) => exists|j: int|
            {
                &&& #[trigger] is_last(boxes, ty, j)
                &&& range.offset == boxes[j].payload_offset
                &&& range.offset + range.len == boxes[j].spec_end()
            },
    }
}

/// Where the tables of a track are: each one is the payload of the last box
/// of its type among the children of `stbl`. There must be `stts`, `stsc`,
/// `stsz`, and either `stco` or `co64`.
pub proof fn law_tables_are_located(boxes: Seq<BoxHeader>)
    requires
        forall|i: int| 0 <= i < boxes.len() ==> (#[trigger] boxes[i]).wf(),
    ensures
        match table_locs(boxes) {
            Ok(locs) => {
                &&& located(boxes, 0x7374_7473, Some(locs.stts))
                &&& located(boxes, 0x7374_7363, Some(locs.stsc))
                &&& located(boxes, 0x7374_737a, Some(locs.stsz))
                &&& located(boxes, 0x7374_7373, locs.stss)
                &&& located(boxes, 0x6374_7473, locs.ctts)
                &&& match locs.chunk_offsets {
                    ChunkOffsets::Stco(range) => located(boxes, 0x7374_636f, Some(range))
                        && lacks(boxes, 0x636f_3634),
                    ChunkOffsets::Co64(range) => located(boxes, 0x636f_3634, Some(range))
                        && lacks(boxes, 0x7374_636f),
                }
            },
            Err(PackagerError::MissingAtom(_)) => {
                ||| lacks(boxes, 0x7374_7473)
                ||| lacks(boxes, 0x7374_7363)
                ||| lacks(boxes, 0x7374_737a)
                ||| lacks(boxes, 0x7374_636f) && lacks(boxes, 0x636f_3634)
            },
            Err(e) => e is MalformedAtom && !lacks(boxes, 0x7374_636f) && !lacks(
                boxes,
                0x636f_3634,
            ),
        },
{
    lemma_last_of(boxes, 0x7374_7473);
    lemma_last_of(boxes, 0x7374_7363);
    lemma_last_of(boxes, 0x7374_737a);
    lemma_last_of(boxes, 0x7374_7373);
    lemma_last_of(boxes, 0x6374_7473);
    lemma_last_of(boxes, 0x7374_636f);
    lemma_last_of(boxes, 0x636f_3634);
}

/// Whether a child of `stbl` marks no encryption.
pub open spec fn plain_table(src: Seq<u8>, h: BoxHeader) -> bool {
    &&& h.box_type != 0x7365_6e63
    &&& h.box_type == 0x7362_6770 || h.box_type == 0x7367_7064 ==> harmless_group(src, h)
}

proof fn lemma_stbl_children(src: Seq<u8>, boxes: Seq<BoxHeader>)
    requires
        forall|i: int| 0 <= i < boxes.len() ==> in_source(src, #[trigger] boxes[i]),
    ensures
        first_fault(boxes, stbl_child_rule(src)) is None <==> forall|i: int|
            0 <= i < boxes.len() ==> plain_table(src, #[trigger] boxes[i]),
{
    let rule = stbl_child_rule(src);
    if first_fault(boxes, rule) is None {
        lemma_no_fault(boxes, rule);
        assert forall|i: int| 0 <= i < boxes.len() implies plain_table(src, #[trigger] boxes[i]) by {
            assert(rule(boxes.take(i), boxes[i]) is None);
        }
    } else if forall|i: int| 0 <= i < boxes.len() ==> plain_table(src, #[trigger] boxes[i]) {
        assert forall|i: int| 0 <= i < boxes.len() implies rule(#[trigger] boxes.take(i), boxes[i])
            is None by {
            assert(plain_table(src, boxes[i]));
        }
        law_first_bad_box_decides(boxes, rule, boxes.len() as int);
    }
}

/// The boxes in a container.
pub open spec fn children(src: Seq<u8>, h: BoxHeader) -> Seq<BoxHeader> {
    scan(src, h.payload_offset as int, h.spec_end()).boxes
}

/// Whether the box headers of a container are all readable.
pub open spec fn legible(src: Seq<u8>, h: BoxHeader) -> bool {
    scan(src, h.payload_offset as int, h.spec_end()).fault is None
}

proof fn lemma_children_in_source(src: Seq<u8>, h: BoxHeader)
    requires
        in_source(src, h),
        src.len() <= u64::MAX,
    ensures
        forall|i: int|
            0 <= i < children(src, h).len() ==> in_source(src, #[trigger] children(src, h)[i]),
{
    law_scanned_boxes_lie_in_their_container(src, h.payload_offset as int, h.spec_end());
}

/// A sample table holds a sample description and the locations of its tables,
/// and no mark of encryption.
pub proof fn law_sample_table_box(src: Seq<u8>, h: BoxHeader, handler: u32, j: int)
    requires
        in_source(src, h),
        src.len() <= u64::MAX,
        is_last(children(src, h), 0x7374_7364, j),
    ensures
        ({
            let boxes = children(src, h);
            let plain = legible(src, h) && forall|i: int|
                0 <= i < boxes.len() ==> plain_table(src, #[trigger] boxes[i]);
            let entry = stsd_entry(src, boxes[j], handler);
            match stbl(src, h, handler) {
                Ok(data) => plain && entry == Ok::<_, PackagerError>(data.entry) && table_locs(
                    boxes,
                ) == Ok::<_, PackagerError>(data.locs),
                Err(_) => !plain || entry is Err || table_locs(boxes) is Err,
            }
        }),
{
    lemma_children_in_source(src, h);
    lemma_stbl_children(src, children(src, h));
    lemma_is_last(children(src, h), 0x7374_7364, j);
}

proof fn lemma_first_stbl(boxes: Seq<BoxHeader>, j: int)
    requires
        0 <= j < boxes.len(),
        boxes[j].box_type == 0x7374_626c,
        forall|i: int| 0 <= i < j ==> (#[trigger] boxes[i]).box_type != 0x7374_626c,
    ensures
        first_stbl(boxes) == Some(boxes[j]),
    decreases boxes.len(),
{
    if j > 0 {
        assert(boxes[0].box_type != 0x7374_626c);
        let rest = boxes.drop_first();
        assert forall|i: int| 0 <= i < j - 1 implies (#[trigger] rest[i]).box_type
            != 0x7374_626c by {
            assert(boxes[i + 1].box_type != 0x7374_626c);
        }
        lemma_first_stbl(rest, j - 1);
    }
}

/// The sample table of a track is the first `stbl` in `minf`.
pub proof fn law_first_sample_table_counts(src: Seq<u8>, h: BoxHeader, j: int)
    requires
        0 <= j < children(src, h).len(),
        children(src, h)[j].box_type == 0x7374_626c,
        forall|i: int|
            0 <= i < j ==> (#[trigger] children(src, h)[i]).box_type != 0x7374_626c,
    ensures
        minf_stbl(src, h.payload_offset as int, h.spec_end()) == Ok::<_, PackagerError>(
            children(src, h)[j],
        ),
{
    lemma_first_stbl(children(src, h), j);
}

proof fn lemma_mdia_children(src: Seq<u8>, boxes: Seq<BoxHeader>)
    ensures
        first_fault(boxes, mdia_child_rule(src)) is None <==> forall|i: int|
            0 <= i < boxes.len() ==> {
                &&& (#[trigger] boxes[i]).box_type == 0x6d64_6864 ==> mdhd_timescale(
                    src,
                    boxes[i],
                ) is Ok
                &&& boxes[i].box_type == 0x6864_6c72 ==> hdlr_type(src, boxes[i]) is Ok
            },
{
    let rule = mdia_child_rule(src);
    if first_fault(boxes, rule) is None {
        lemma_no_fault(boxes, rule);
        assert forall|i: int| 0 <= i < boxes.len() implies {
            &&& (#[trigger] boxes[i]).box_type == 0x6d64_6864 ==> mdhd_timescale(src, boxes[i])
                is Ok
            &&& boxes[i].box_type == 0x6864_6c72 ==> hdlr_type(src, boxes[i]) is Ok
        } by {
            assert(rule(boxes.take(i), boxes[i]) is None);
        }
    } else if forall|i: int|
        0 <= i < boxes.len() ==> {
            &&& (#[trigger] boxes[i]).box_type == 0x6d64_6864 ==> mdhd_timescale(src, boxes[i])
                is Ok
            &&& boxes[i].box_type == 0x6864_6c72 ==> hdlr_type(src, boxes[i]) is Ok
        } {
        assert forall|i: int| 0 <= i < boxes.len() implies rule(#[trigger] boxes.take(i), boxes[i])
            is None by {
            let b = boxes[i];
        }
        law_first_bad_box_decides(boxes, rule, boxes.len() as int);
    }
}

/// A media box gives the timescale of its last `mdhd`, the handler of its last
/// `hdlr`, and what the sample table in its last `minf` says under that
/// handler.
pub proof fn law_media_box(src: Seq<u8>, h: BoxHeader, m: int, d: int, f: int)
    requires
        is_last(children(src, h), 0x6d64_6864, m),
        is_last(children(src, h), 0x6864_6c72, d),
        is_last(children(src, h), 0x6d69_6e66, f),
    ensures
        ({
            let boxes = children(src, h);
            let minf = boxes[f];
            let table = minf_stbl(src, minf.payload_offset as int, minf.spec_end());
            let headers = forall|i: int|
                0 <= i < boxes.len() ==> {
                    &&& (#[trigger] boxes[i]).box_type == 0x6d64_6864 ==> mdhd_timescale(
                        src,
                        boxes[i],
                    ) is Ok
                    &&& boxes[i].box_type == 0x6864_6c72 ==> hdlr_type(src, boxes[i]) is Ok
                };
            match mdia(src, h) {
                Ok(data) => {
                    &&& legible(src, h) && headers
                    &&& mdhd_timescale(src, boxes[m]) == Ok::<_, PackagerError>(data.timescale)
                    &&& hdlr_type(src, boxes[d]) == Ok::<_, PackagerError>(data.handler)
                    &&& table is Ok
                    &&& stbl(src, table->Ok_0, data.handler) == Ok::<_, PackagerError>(
                        StblData { entry: data.entry, locs: data.sample_table },
                    )
                },
                Err(_) => {
                    ||| !legible(src, h)
                    ||| !headers
                    ||| table is Err
                    ||| stbl(src, table->Ok_0, hdlr_type(src, boxes[d])->Ok_0) is Err
                },
            }
        }),
{
    let boxes = children(src, h);
    lemma_mdia_children(src, boxes);
    lemma_is_last(boxes, 0x6d64_6864, m);
    lemma_is_last(boxes, 0x6864_6c72, d);
    lemma_is_last(boxes, 0x6d69_6e66, f);
}

proof fn lemma_trak_children(src: Seq<u8>, boxes: Seq<BoxHeader>)
    ensures
        first_fault(boxes, trak_child_rule(src)) is None <==> forall|i: int|
            0 <= i < boxes.len() ==> ((#[trigger] boxes[i]).box_type == 0x746b_6864 ==> tkhd(
                src,
                boxes[i],
            ) is Ok),
{
    let rule = trak_child_rule(src);
    if first_fault(boxes, rule) is None {
        lemma_no_fault(boxes, rule);
        assert forall|i: int| 0 <= i < boxes.len() implies ((#[trigger] boxes[i]).box_type
            == 0x746b_6864 ==> tkhd(src, boxes[i]) is Ok) by {
            assert(rule(boxes.take(i), boxes[i]) is None);
        }
    } else if forall|i: int|
        0 <= i < boxes.len() ==> ((#[trigger] boxes[i]).box_type == 0x746b_6864 ==> tkhd(
            src,
            boxes[i],
        ) is Ok) {
        assert forall|i: int| 0 <= i < boxes.len() implies rule(#[trigger] boxes.take(i), boxes[i])
            is None by {
            let b = boxes[i];
        }
        law_first_bad_box_decides(boxes, rule, boxes.len() as int);
    }
}

/// A track gives what its media box says and, if it is video, the size in its
/// track header. The last `edts` box, if there is one, is recorded whole.
pub proof fn law_track_box(src: Seq<u8>, h: BoxHeader, t: int, m: int)
    requires
        is_last(children(src, h), 0x746b_6864, t),
        is_last(children(src, h), 0x6d64_6961, m),
    ensures
        ({
            let boxes = children(src, h);
            let headers = forall|i: int|
                0 <= i < boxes.len() ==> ((#[trigger] boxes[i]).box_type == 0x746b_6864 ==> tkhd(
                    src,
                    boxes[i],
                ) is Ok);
            match trak(src, h) {
                Ok(found) => {
                    let data = mdia(src, boxes[m])->Ok_0;
                    let size = tkhd(src, boxes[t])->Ok_0;
                    let video = found.handler == 0x7669_6465;
                    &&& legible(src, h) && headers && mdia(src, boxes[m]) is Ok
                    &&& found.handler == data.handler
                    &&& found.track.timescale == data.timescale
                    &&& found.track.fourcc == data.entry.fourcc
                    &&& found.track.sample_entry == data.entry.sample_entry
                    &&& found.track.sample_rate == data.entry.sample_rate
                    &&& found.track.channel_count == data.entry.channel_count
                    &&& found.track.sample_table == data.sample_table
                    &&& found.track.width == if video { size.width } else { 0 }
                    &&& found.track.height == if video { size.height } else { 0 }
                    &&& match found.track.elst {
                        None => lacks(boxes, 0x6564_7473),
                        Some(range) => exists|j: int|
                            {
                                &&& #[trigger] is_last(boxes, 0x6564_7473, j)
                                &&& range.offset == boxes[j].start
                                &&& range.len == boxes[j].declared_size
                            },
                    }
                },
                Err(_) => !legible(src, h) || !headers || mdia(src, boxes[m]) is Err,
            }
        }),
{
    let boxes = children(src, h);
    lemma_trak_children(src, boxes);
    lemma_is_last(boxes, 0x746b_6864, t);
    lemma_is_last(boxes, 0x6d64_6961, m);
    lemma_last_of(boxes, 0x6564_7473);
}

proof fn lemma_moov_children(src: Seq<u8>, boxes: Seq<BoxHeader>)
    ensures
        first_fault(boxes, moov_child_rule(src)) is None <==> forall|i: int|
            0 <= i < boxes.len() ==> ((#[trigger] boxes[i]).box_type == 0x7472_616b ==> trak(
                src,
                boxes[i],
            ) is Ok),
{
    let rule = moov_child_rule(src);
    if first_fault(boxes, rule) is None {
        lemma_no_fault(boxes, rule);
        assert forall|i: int| 0 <= i < boxes.len() implies ((#[trigger] boxes[i]).box_type
            == 0x7472_616b ==> trak(src, boxes[i]) is Ok) by {
            assert(rule(boxes.take(i), boxes[i]) is None);
        }
    } else if forall|i: int|
        0 <= i < boxes.len() ==> ((#[trigger] boxes[i]).box_type == 0x7472_616b ==> trak(
            src,
            boxes[i],
        ) is Ok) {
        assert forall|i: int| 0 <= i < boxes.len() implies rule(#[trigger] boxes.take(i), boxes[i])
            is None by {
            let b = boxes[i];
        }
        law_first_bad_box_decides(boxes, rule, boxes.len() as int);
    }
}

/// The tracks among boxes that hold exactly the two `trak` boxes `a` and `b`.
proof fn lemma_two_tracks(src: Seq<u8>, boxes: Seq<BoxHeader>, a: int, b: int)
    requires
        0 <= a < b < boxes.len(),
        forall|i: int|
            0 <= i < boxes.len() ==> ((#[trigger] boxes[i]).box_type == 0x7472_616b <==> i == a || i
                == b),
    ensures
        tracks_of(src, boxes) == seq![trak(src, boxes[a])->Ok_0, trak(src, boxes[b])->Ok_0],
    decreases boxes.len(),
{
    let n = boxes.len() as int;
    let before = boxes.drop_last();
    assert(boxes[n - 1].box_type == 0x7472_616b <==> n - 1 == b);
    if b < n - 1 {
        assert forall|i: int| 0 <= i < before.len() implies ((#[trigger] before[i]).box_type
            == 0x7472_616b <==> i == a || i == b) by {
            assert(before[i] == boxes[i]);
        }
        lemma_two_tracks(src, before, a, b);
    } else {
        assert forall|i: int| 0 <= i < before.len() implies ((#[trigger] before[i]).box_type
            == 0x7472_616b <==> i == a) by {
            assert(before[i] == boxes[i]);
        }
        lemma_one_track(src, before, a);
        assert(tracks_of(src, boxes) =~= seq![
            trak(src, boxes[a])->Ok_0,
            trak(src, boxes[b])->Ok_0,
        ]);
    }
}

proof fn lemma_one_track(src: Seq<u8>, boxes: Seq<BoxHeader>, a: int)
    requires
        0 <= a < boxes.len(),
        forall|i: int|
            0 <= i < boxes.len() ==> ((#[trigger] boxes[i]).box_type == 0x7472_616b <==> i == a),
    ensures
        tracks_of(src, boxes) == seq![trak(src, boxes[a])->Ok_0],
    decreases boxes.len(),
{
    let n = boxes.len() as int;
    let before = boxes.drop_last();
    assert(boxes[n - 1].box_type == 0x7472_616b <==> n - 1 == a);
    assert forall|i: int| 0 <= i < before.len() implies ((#[trigger] before[i]).box_type
        == 0x7472_616b <==> i == a) by {
        assert(before[i] == boxes[i]);
    }
    if a < n - 1 {
        lemma_one_track(src, before, a);
    } else {
        lemma_no_track(src, before);
        assert(tracks_of(src, boxes) =~= seq![trak(src, boxes[a])->Ok_0]);
    }
}

proof fn lemma_no_track(src: Seq<u8>, boxes: Seq<BoxHeader>)
    requires
        lacks(boxes, 0x7472_616b),
    ensures
        tracks_of(src, boxes) == Seq::<UnclassifiedTrack>::empty(),
    decreases boxes.len(),
{
    if boxes.len() > 0 {
        let before = boxes.drop_last();
        assert(boxes[boxes.len() - 1].box_type != 0x7472_616b);
        assert forall|i: int| 0 <= i < before.len() implies (#[trigger] before[i]).box_type
            != 0x7472_616b by {
            assert(before[i] == boxes[i]);
        }
        lemma_no_track(src, before);
    }
}

proof fn lemma_classify_two(first: UnclassifiedTrack, second: UnclassifiedTrack)
    ensures
        match classify(seq![first, second]) {
            Ok(p) => {
                ||| {
                    &&& first.handler == 0x7669_6465 && second.handler == 0x736f_756e
                    &&& p.video == first.track && p.audio == second.track
                }
                ||| {
                    &&& first.handler == 0x736f_756e && second.handler == 0x7669_6465
                    &&& p.video == second.track && p.audio == first.track
                }
            },
            Err(e) => {
                &&& e is UnsupportedTrackLayout
                &&& !(first.handler == 0x7669_6465 && second.handler == 0x736f_756e)
                &&& !(first.handler == 0x736f_756e && second.handler == 0x7669_6465)
            },
        },
{
}

/// A movie with exactly two tracks, one with the handler `vide` and one with
/// `soun`, is accepted, in either order, and each is taken for what its handler
/// says. Two tracks of other kinds are refused for the layout.
#[verifier::rlimit(60)]
pub proof fn law_movie_box(src: Seq<u8>, h: BoxHeader, a: int, b: int)
    requires
        0 <= a < b < children(src, h).len(),
        forall|i: int|
            0 <= i < children(src, h).len() ==> ((#[trigger] children(src, h)[i]).box_type
                == 0x7472_616b <==> i == a || i == b),
        legible(src, h),
        trak(src, children(src, h)[a]) is Ok,
        trak(src, children(src, h)[b]) is Ok,
    ensures
        ({
            let first = trak(src, children(src, h)[a])->Ok_0;
            let second = trak(src, children(src, h)[b])->Ok_0;
            match moov(src, h) {
                Ok(p) => {
                    ||| {
                        &&& first.handler == 0x7669_6465 && second.handler == 0x736f_756e
                        &&& p.video == first.track && p.audio == second.track
                    }
                    ||| {
                        &&& first.handler == 0x736f_756e && second.handler == 0x7669_6465
                        &&& p.video == second.track && p.audio == first.track
                    }
                },
                Err(e) => {
                    &&& e is UnsupportedTrackLayout
                    &&& !(first.handler == 0x7669_6465 && second.handler == 0x736f_756e)
                    &&& !(first.handler == 0x736f_756e && second.handler == 0x7669_6465)
                },
            }
        }),
{
    let boxes = children(src, h);
    lemma_moov_children(src, boxes);
    assert forall|i: int| 0 <= i < boxes.len() implies ((#[trigger] boxes[i]).box_type
        == 0x7472_616b ==> trak(src, boxes[i]) is Ok) by {
        assert(boxes[i].box_type == 0x7472_616b <==> i == a || i == b);
    }
    lemma_two_tracks(src, boxes, a, b);
    lemma_classify_two(trak(src, boxes[a])->Ok_0, trak(src, boxes[b])->Ok_0);
    assert(moov(src, h) == classify(tracks_of(src, boxes)));
}

/// A movie is refused if one of its tracks cannot be read, and if it does not
/// have two of them.
pub proof fn law_movies_have_two_tracks(src: Seq<u8>, h: BoxHeader)
    requires
        moov(src, h) is Ok,
    ensures
        legible(src, h),
        forall|i: int|
            0 <= i < children(src, h).len() ==> ((#[trigger] children(src, h)[i]).box_type
                == 0x7472_616b ==> trak(src, children(src, h)[i]) is Ok),
        tracks_of(src, children(src, h)).len() == 2,
{
    lemma_moov_children(src, children(src, h));
}

/// Whether a top-level box is in order: a `ftyp` with a known brand, and no
/// fragment, no mark of encryption.
pub open spec fn top_level_plain(src: Seq<u8>, h: BoxHeader) -> bool {
    if h.box_type == 0x6674_7970 {
        ftyp(src, h) is Ok
    } else {
        h.box_type != 0x6d6f_6f66 && unencrypted(src, h)
    }
}

/// A file is accepted if its top-level boxes are in order, there is a `ftyp`,
/// and exactly one `moov`, which decides what the file holds.
pub proof fn law_plain_files_are_parsed(src: Seq<u8>, len: u64, j: int)
    requires
        len <= src.len() <= u64::MAX,
        scan(src, 0, len as int).fault is None,
        ({
            let boxes = scan(src, 0, len as int).boxes;
            &&& 0 <= j < boxes.len()
            &&& forall|i: int|
                0 <= i < boxes.len() ==> ((#[trigger] boxes[i]).box_type == 0x6d6f_6f76 <==> i == j)
            &&& forall|i: int| 0 <= i < boxes.len() ==> top_level_plain(src, #[trigger] boxes[i])
            &&& !lacks(boxes, 0x6674_7970)
        }),
    ensures
        top_level(src, len as int) == moov(src, scan(src, 0, len as int).boxes[j]),
{
    let boxes = scan(src, 0, len as int).boxes;
    let rule = top_level_rule(src);
    law_scanned_boxes_lie_in_their_container(src, 0, len as int);
    assert forall|i: int| 0 <= i < boxes.len() implies rule(#[trigger] boxes.take(i), boxes[i])
        is None by {
        let b = boxes[i];
        assert(in_source(src, b));
        assert(top_level_plain(src, b));
        law_encryption_marks_are_refused(src, b);
        if i == j {
            let before = boxes.take(i);
            assert forall|k: int| 0 <= k < before.len() implies (#[trigger] before[k]).box_type
                != 0x6d6f_6f76 by {
                assert(before[k] == boxes[k]);
            }
            lemma_last_of(before, 0x6d6f_6f76);
        }
    }
    law_first_bad_box_decides(boxes, rule, boxes.len() as int);
    assert(is_last(boxes, 0x6d6f_6f76, j));
    lemma_is_last(boxes, 0x6d6f_6f76, j);
    lemma_last_of(boxes, 0x6674_7970);
}

/// Conversely, a file that is accepted has top-level boxes that can all be
/// read and are in order, a `ftyp`, and one `moov`.
pub proof fn law_parsed_files_are_plain(src: Seq<u8>, len: u64)
    requires
        len <= src.len() <= u64::MAX,
        top_level(src, len as int) is Ok,
    ensures
        ({
            let boxes = scan(src, 0, len as int).boxes;
            &&& scan(src, 0, len as int).fault is None
            &&& !lacks(boxes, 0x6674_7970)
            &&& forall|i: int| 0 <= i < boxes.len() ==> top_level_plain(src, #[trigger] boxes[i])
            &&& exists|j: int|
                #[trigger] is_last(boxes, 0x6d6f_6f76, j) && moov(src, boxes[j]) == top_level(
                    src,
                    len as int,
                )
            &&& forall|i: int, j: int|
                0 <= i < j < boxes.len() ==> !((#[trigger] boxes[i]).box_type == 0x6d6f_6f76 && (
                #[trigger] boxes[j]).box_type == 0x6d6f_6f76)
        }),
{
    let boxes = scan(src, 0, len as int).boxes;
    let rule = top_level_rule(src);
    law_scanned_boxes_lie_in_their_container(src, 0, len as int);
    lemma_no_fault(boxes, rule);
    lemma_last_of(boxes, 0x6674_7970);
    lemma_last_of(boxes, 0x6d6f_6f76);
    assert forall|i: int| 0 <= i < boxes.len() implies top_level_plain(
        src,
        #[trigger] boxes[i],
    ) by {
        assert(rule(boxes.take(i), boxes[i]) is None);
        assert(in_source(src, boxes[i]));
        law_encryption_marks_are_refused(src, boxes[i]);
    }
    assert forall|i: int, j: int| 0 <= i < j < boxes.len() implies !((
    #[trigger] boxes[i]).box_type == 0x6d6f_6f76 && (#[trigger] boxes[j]).box_type
        == 0x6d6f_6f76) by {
        if boxes[i].box_type == 0x6d6f_6f76 && boxes[j].box_type == 0x6d6f_6f76 {
            let before = boxes.take(j);
            assert(rule(before, boxes[j]) is None);
            lemma_last_of(before, 0x6d6f_6f76);
            assert(before[i].box_type == 0x6d6f_6f76);
        }
    }
    if let Some(h) = last_of(boxes, 0x6674_7970) {
        let j = choose|j: int| #[trigger] is_last(boxes, 0x6674_7970, j) && boxes[j] == h;
        assert(boxes[j].box_type == 0x6674_7970);
    }
}

/// A file with a fragment is refused as such, wherever the fragment stands,
/// unless a box before it is at fault.
pub proof fn law_fragmented_files_are_refused(src: Seq<u8>, len: u64, k: int)
    requires
        len <= src.len() <= u64::MAX,
        ({
            let boxes = scan(src, 0, len as int).boxes;
            &&& 0 <= k < boxes.len()
            &&& boxes[k].box_type == 0x6d6f_6f66
            &&& forall|i: int|
                0 <= i < k ==> top_level_rule(src)(#[trigger] boxes.take(i), boxes[i]) is None
        }),
    ensures
        top_level(src, len as int) matches Err(e) && e is FragmentedInput,
{
    let boxes = scan(src, 0, len as int).boxes;
    law_first_bad_box_decides(boxes, top_level_rule(src), k);
}

/// The layout that is refused is described by how many video and how many
/// audio tracks there are.
pub proof fn law_refused_layouts_are_counted(tracks: Seq<UnclassifiedTrack>)
    requires
        tracks.len() <= u32::MAX,
    ensures
        classify(tracks) matches Err(e) ==> e matches PackagerError::UnsupportedTrackLayout {
            video,
            audio,
        } && video == tracks.filter(|t: UnclassifiedTrack| t.handler == 0x7669_6465).len()
            && audio == tracks.filter(|t: UnclassifiedTrack| t.handler == 0x736f_756e).len(),
        classify(tracks) is Ok ==> tracks.len() == 2,
{
    lemma_counted(tracks, 0x7669_6465);
    lemma_counted(tracks, 0x736f_756e);
}

proof fn lemma_counted(tracks: Seq<UnclassifiedTrack>, handler: u32)
    ensures
        handler_count(tracks, handler) == tracks.filter(
            |t: UnclassifiedTrack| t.handler == handler,
        ).len(),
        handler_count(tracks, handler) <= tracks.len(),
    decreases tracks.len(),
{
    let is = |t: UnclassifiedTrack| t.handler == handler;
    reveal(Seq::filter);
    if tracks.len() > 0 {
        lemma_counted(tracks.drop_last(), handler);
    }
}

} // verus!
