//! What bytes behind a box mean for its parse.
//!
//! What a box says depends on the bytes of the box alone. So a sample group
//! that does not mark encryption can be appended to a file without changing
//! what the file holds.

use vstd::prelude::*;

use crate::bytes::{be_u16_at, be_u32_at, lemma_be_u32_within};
use crate::demux::fourcc::{
    FTYP, HDLR, MDHD, MDIA, MINF, MOOV, SBGP, SEIG, SGPD, STSD, TKHD, UUID,
};
use crate::demux::moov::{
    audio_sample_entry, encryption_fault, entry_child_rule, entry_for_handler, entry_prefix, first_stbl,
    ftyp, grouping, hdlr_type, mdhd_timescale, mdia, mdia_child_rule, minf_stbl, moov, moov_child_rule,
    no_encryption, stbl, stbl_child_rule, stsd_entry, tkhd, top_level, top_level_rule, tracks_of,
    trak, trak_child_rule,
};
use crate::demux::reader::{
    container_fault, first_fault, header_at, last_of, law_scanned_boxes_lie_in_their_container,
    lemma_next_box, lemma_past_uuids, next_box, past_uuids, scan, BoxHeader, BoxRule, BoxScan,
};

verus! {

/// Whether two sources have the same first `n` bytes.
spec fn agree(a: Seq<u8>, b: Seq<u8>, n: int) -> bool {
    &&& n <= a.len()
    &&& n <= b.len()
    &&& n <= u64::MAX
    &&& forall|i: int| 0 <= i < n ==> #[trigger] a[i] == b[i]
}

/// Whether a box lies within the first `n` bytes.
spec fn within(h: BoxHeader, n: int) -> bool {
    h.wf() && h.spec_end() <= n
}

/// Whether two rules judge every box within the first `n` bytes alike.
spec fn judge_alike(a: BoxRule, b: BoxRule, n: int) -> bool {
    forall|before: Seq<BoxHeader>, h: BoxHeader|
        within(h, n) ==> #[trigger] a(before, h) == b(before, h)
}

/// A field within the bytes that two sources share reads alike in both.
proof fn lemma_same_word(a: Seq<u8>, b: Seq<u8>, n: int, at: int)
    requires
        agree(a, b, n),
        0 <= at,
        at + 4 <= n,
    ensures
        be_u32_at(a, at) == be_u32_at(b, at),
{
    lemma_be_u32_within(a, at, b, at);
}

/// A box header within the bytes that two sources share reads alike in both.
proof fn lemma_same_header(a: Seq<u8>, b: Seq<u8>, n: int, cursor: int, end: int)
    requires
        agree(a, b, n),
        0 <= cursor,
        end <= n,
    ensures
        header_at(a, cursor, end) == header_at(b, cursor, end),
{
    if end - cursor >= 8 {
        lemma_same_word(a, b, n, cursor);
        lemma_same_word(a, b, n, cursor + 4);
        if end - cursor >= 16 {
            lemma_same_word(a, b, n, cursor + 8);
            lemma_same_word(a, b, n, cursor + 12);
        }
    }
}

/// A scan passes over the same `uuid` boxes.
proof fn lemma_same_past_uuids(a: Seq<u8>, b: Seq<u8>, n: int, cursor: int, end: int)
    requires
        agree(a, b, n),
        0 <= cursor,
        end <= n,
    ensures
        past_uuids(a, cursor, end) == past_uuids(b, cursor, end),
    decreases end - cursor,
{
    if cursor < end {
        lemma_same_header(a, b, n, cursor, end);
        match header_at(a, cursor, end) {
            Ok(h) if h.box_type == UUID && h.declared_size > 0 => lemma_same_past_uuids(
                a,
                b,
                n,
                cursor + h.declared_size,
                end,
            ),
            _ => {},
        }
    }
}

/// A scan comes to the same box next.
proof fn lemma_same_next_box(a: Seq<u8>, b: Seq<u8>, n: int, cursor: int, end: int)
    requires
        agree(a, b, n),
        0 <= cursor,
        end <= n,
    ensures
        next_box(a, cursor, end) == next_box(b, cursor, end),
{
    lemma_same_past_uuids(a, b, n, cursor, end);
    lemma_past_uuids(a, cursor, end);
    lemma_same_header(a, b, n, past_uuids(a, cursor, end), end);
}

/// A scan of a whole container finds the same boxes.
proof fn lemma_same_scan(a: Seq<u8>, b: Seq<u8>, n: int, cursor: int, end: int)
    requires
        agree(a, b, n),
        0 <= cursor,
        end <= n,
    ensures
        scan(a, cursor, end) == scan(b, cursor, end),
    decreases end - cursor,
{
    lemma_same_next_box(a, b, n, cursor, end);
    if let Ok(Some(h)) = next_box(a, cursor, end) {
        if cursor < h.spec_end() <= end {
            lemma_same_scan(a, b, n, h.spec_end(), end);
        }
    }
}

/// Rules that judge the boxes alike find the same fault first.
proof fn lemma_same_faults(boxes: Seq<BoxHeader>, a: BoxRule, b: BoxRule, n: int)
    requires
        judge_alike(a, b, n),
        forall|i: int| 0 <= i < boxes.len() ==> within(#[trigger] boxes[i], n),
    ensures
        first_fault(boxes, a) == first_fault(boxes, b),
    decreases boxes.len(),
{
    if boxes.len() > 0 {
        assert forall|i: int| 0 <= i < boxes.drop_last().len() implies within(
            #[trigger] boxes.drop_last()[i],
            n,
        ) by {
            assert(within(boxes[i], n));
        }
        lemma_same_faults(boxes.drop_last(), a, b, n);
        assert(within(boxes[boxes.len() - 1], n));
        assert(a(boxes.drop_last(), boxes.last()) == b(boxes.drop_last(), boxes.last()));
    }
}

/// The last box of a type is one of the boxes.
proof fn lemma_last_of_within(boxes: Seq<BoxHeader>, ty: u32, n: int)
    requires
        forall|i: int| 0 <= i < boxes.len() ==> within(#[trigger] boxes[i], n),
    ensures
        last_of(boxes, ty) matches Some(h) ==> within(h, n),
    decreases boxes.len(),
{
    if boxes.len() > 0 {
        assert(within(boxes[boxes.len() - 1], n));
        assert forall|i: int| 0 <= i < boxes.drop_last().len() implies within(
            #[trigger] boxes.drop_last()[i],
            n,
        ) by {
            assert(within(boxes[i], n));
        }
        lemma_last_of_within(boxes.drop_last(), ty, n);
    }
}

/// A container is scanned and judged by its own bytes.
proof fn lemma_same_container(
    a: Seq<u8>,
    b: Seq<u8>,
    n: int,
    cursor: int,
    end: int,
    rule_a: BoxRule,
    rule_b: BoxRule,
)
    requires
        agree(a, b, n),
        0 <= cursor,
        end <= n,
        judge_alike(rule_a, rule_b, n),
    ensures
        scan(a, cursor, end) == scan(b, cursor, end),
        container_fault(a, cursor, end, rule_a) == container_fault(b, cursor, end, rule_b),
        forall|i: int|
            0 <= i < scan(a, cursor, end).boxes.len() ==> within(
                #[trigger] scan(a, cursor, end).boxes[i],
                n,
            ),
{
    lemma_same_scan(a, b, n, cursor, end);
    law_scanned_boxes_lie_in_their_container(a, cursor, end);
    let boxes = scan(a, cursor, end).boxes;
    assert forall|i: int| 0 <= i < boxes.len() implies within(#[trigger] boxes[i], n) by {}
    lemma_same_faults(boxes, rule_a, rule_b, n);
}

/// What a box without children says depends on its own bytes alone.
proof fn lemma_same_leaves(a: Seq<u8>, b: Seq<u8>, n: int, h: BoxHeader)
    requires
        agree(a, b, n),
        within(h, n),
    ensures
        tkhd(a, h) == tkhd(b, h),
        mdhd_timescale(a, h) == mdhd_timescale(b, h),
        hdlr_type(a, h) == hdlr_type(b, h),
        audio_sample_entry(a, h) == audio_sample_entry(b, h),
        forall|atom: &'static str| #[trigger] grouping(a, h, atom) == grouping(b, h, atom),
        encryption_fault(a, h) == encryption_fault(b, h),
{
    let at = h.payload_offset as int;
    let len = h.spec_payload_len();
    assert forall|o: int| 0 <= o && o + 4 <= n implies #[trigger] be_u32_at(a, o) == be_u32_at(
        b,
        o,
    ) by {
        lemma_same_word(a, b, n, o);
    }
    if len > 0 {
        assert(a[at] == b[at]);
    }
    if len >= 28 {
        assert(a[at + 8] == b[at + 8] && a[at + 9] == b[at + 9]);
        assert(a[at + 16] == b[at + 16] && a[at + 17] == b[at + 17]);
        reveal(be_u16_at);
        assert(be_u16_at(a, at + 8) == be_u16_at(b, at + 8));
        assert(be_u16_at(a, at + 16) == be_u16_at(b, at + 16));
    }
}

/// What a `ftyp` box says depends on its own bytes alone.
proof fn lemma_same_ftyp(a: Seq<u8>, b: Seq<u8>, n: int, h: BoxHeader)
    requires
        agree(a, b, n),
        within(h, n),
    ensures
        ftyp(a, h) == ftyp(b, h),
{
    let at = h.payload_offset as int;
    let len = h.spec_payload_len();
    if len > 0 {
        assert(a.subrange(at, at + len) =~= b.subrange(at, at + len));
    }
}

/// What a sample entry says depends on its own bytes alone.
proof fn lemma_same_entry(a: Seq<u8>, b: Seq<u8>, n: int, h: BoxHeader, handler: u32)
    requires
        agree(a, b, n),
        within(h, n),
    ensures
        entry_for_handler(a, h, handler) == entry_for_handler(b, h, handler),
{
    assert(judge_alike(entry_child_rule(a), entry_child_rule(b), n)) by {
        assert forall|before: Seq<BoxHeader>, c: BoxHeader| within(c, n) implies #[trigger] (
        entry_child_rule(a))(before, c) == (entry_child_rule(b))(before, c) by {
            lemma_same_leaves(a, b, n, c);
        }
    }
    lemma_same_leaves(a, b, n, h);
    assert forall|audio: bool| #[trigger] no_encryption(a, h, audio) == no_encryption(
        b,
        h,
        audio,
    ) by {
        if h.spec_payload_len() > entry_prefix(audio) {
            lemma_same_container(
                a,
                b,
                n,
                h.payload_offset + entry_prefix(audio),
                h.spec_end(),
                entry_child_rule(a),
                entry_child_rule(b),
            );
        }
    }
    assert(no_encryption(a, h, true) == no_encryption(b, h, true));
    assert(no_encryption(a, h, false) == no_encryption(b, h, false));
}

/// What a `stsd` box says depends on its own bytes alone.
proof fn lemma_same_stsd(a: Seq<u8>, b: Seq<u8>, n: int, h: BoxHeader, handler: u32)
    requires
        agree(a, b, n),
        within(h, n),
    ensures
        stsd_entry(a, h, handler) == stsd_entry(b, h, handler),
{
    let at = h.payload_offset as int;
    if h.spec_payload_len() >= 8 {
        lemma_same_word(a, b, n, at + 4);
        lemma_same_next_box(a, b, n, at + 8, h.spec_end());
        lemma_next_box(a, at + 8, h.spec_end());
        if let Ok(Some(entry)) = next_box(a, at + 8, h.spec_end()) {
            lemma_same_entry(a, b, n, entry, handler);
        }
    }
}

/// What a `stbl` box says depends on its own bytes alone.
proof fn lemma_same_stbl(a: Seq<u8>, b: Seq<u8>, n: int, h: BoxHeader, handler: u32)
    requires
        agree(a, b, n),
        within(h, n),
    ensures
        stbl(a, h, handler) == stbl(b, h, handler),
{
    let rule_a = stbl_child_rule(a);
    let rule_b = stbl_child_rule(b);
    assert(judge_alike(rule_a, rule_b, n)) by {
        assert forall|before: Seq<BoxHeader>, c: BoxHeader| within(c, n) implies #[trigger] rule_a(
            before,
            c,
        ) == rule_b(before, c) by {
            lemma_same_leaves(a, b, n, c);
        }
    }
    let at = h.payload_offset as int;
    lemma_same_container(a, b, n, at, h.spec_end(), rule_a, rule_b);
    let boxes = scan(a, at, h.spec_end()).boxes;
    lemma_last_of_within(boxes, STSD, n);
    if let Some(stsd) = last_of(boxes, STSD) {
        lemma_same_stsd(a, b, n, stsd, handler);
    }
}

/// The first `stbl` box is one of the boxes.
proof fn lemma_first_stbl_within(boxes: Seq<BoxHeader>, n: int)
    requires
        forall|i: int| 0 <= i < boxes.len() ==> within(#[trigger] boxes[i], n),
    ensures
        first_stbl(boxes) matches Some(h) ==> within(h, n),
    decreases boxes.len(),
{
    if boxes.len() > 0 {
        assert(within(boxes[0], n));
        assert forall|i: int| 0 <= i < boxes.drop_first().len() implies within(
            #[trigger] boxes.drop_first()[i],
            n,
        ) by {
            assert(within(boxes[i + 1], n));
        }
        lemma_first_stbl_within(boxes.drop_first(), n);
    }
}

/// What a `mdia` box says depends on its own bytes alone.
proof fn lemma_same_mdia(a: Seq<u8>, b: Seq<u8>, n: int, h: BoxHeader)
    requires
        agree(a, b, n),
        within(h, n),
    ensures
        mdia(a, h) == mdia(b, h),
{
    let rule_a = mdia_child_rule(a);
    let rule_b = mdia_child_rule(b);
    assert(judge_alike(rule_a, rule_b, n)) by {
        assert forall|before: Seq<BoxHeader>, c: BoxHeader| within(c, n) implies #[trigger] rule_a(
            before,
            c,
        ) == rule_b(before, c) by {
            lemma_same_leaves(a, b, n, c);
        }
    }
    let at = h.payload_offset as int;
    lemma_same_container(a, b, n, at, h.spec_end(), rule_a, rule_b);
    let boxes = scan(a, at, h.spec_end()).boxes;
    lemma_last_of_within(boxes, MDHD, n);
    lemma_last_of_within(boxes, HDLR, n);
    lemma_last_of_within(boxes, MINF, n);
    match (last_of(boxes, MDHD), last_of(boxes, HDLR), last_of(boxes, MINF)) {
        (Some(mdhd), Some(hdlr), Some(minf)) => {
            lemma_same_leaves(a, b, n, mdhd);
            lemma_same_leaves(a, b, n, hdlr);
            let inner = minf.payload_offset as int;
            lemma_same_container(a, b, n, inner, minf.spec_end(), rule_a, rule_b);
            lemma_first_stbl_within(scan(a, inner, minf.spec_end()).boxes, n);
            if let Ok(found) = minf_stbl(a, inner, minf.spec_end()) {
                lemma_same_stbl(a, b, n, found, hdlr_type(a, hdlr)->Ok_0);
            }
        },
        _ => {},
    }
}

/// What a `trak` box says depends on its own bytes alone.
proof fn lemma_same_trak(a: Seq<u8>, b: Seq<u8>, n: int, h: BoxHeader)
    requires
        agree(a, b, n),
        within(h, n),
    ensures
        trak(a, h) == trak(b, h),
{
    let rule_a = trak_child_rule(a);
    let rule_b = trak_child_rule(b);
    assert(judge_alike(rule_a, rule_b, n)) by {
        assert forall|before: Seq<BoxHeader>, c: BoxHeader| within(c, n) implies #[trigger] rule_a(
            before,
            c,
        ) == rule_b(before, c) by {
            lemma_same_leaves(a, b, n, c);
        }
    }
    let at = h.payload_offset as int;
    lemma_same_container(a, b, n, at, h.spec_end(), rule_a, rule_b);
    let boxes = scan(a, at, h.spec_end()).boxes;
    lemma_last_of_within(boxes, TKHD, n);
    lemma_last_of_within(boxes, MDIA, n);
    match (last_of(boxes, TKHD), last_of(boxes, MDIA)) {
        (Some(header), Some(media)) => {
            lemma_same_leaves(a, b, n, header);
            lemma_same_mdia(a, b, n, media);
        },
        _ => {},
    }
}

/// What the `trak` boxes say depends on their own bytes alone.
proof fn lemma_same_tracks(a: Seq<u8>, b: Seq<u8>, n: int, boxes: Seq<BoxHeader>)
    requires
        agree(a, b, n),
        forall|i: int| 0 <= i < boxes.len() ==> within(#[trigger] boxes[i], n),
    ensures
        tracks_of(a, boxes) == tracks_of(b, boxes),
    decreases boxes.len(),
{
    if boxes.len() > 0 {
        assert(within(boxes[boxes.len() - 1], n));
        assert forall|i: int| 0 <= i < boxes.drop_last().len() implies within(
            #[trigger] boxes.drop_last()[i],
            n,
        ) by {
            assert(within(boxes[i], n));
        }
        lemma_same_tracks(a, b, n, boxes.drop_last());
        lemma_same_trak(a, b, n, boxes.last());
    }
}

/// What a `moov` box says depends on its own bytes alone.
proof fn lemma_same_moov(a: Seq<u8>, b: Seq<u8>, n: int, h: BoxHeader)
    requires
        agree(a, b, n),
        within(h, n),
    ensures
        moov(a, h) == moov(b, h),
{
    let rule_a = moov_child_rule(a);
    let rule_b = moov_child_rule(b);
    assert(judge_alike(rule_a, rule_b, n)) by {
        assert forall|before: Seq<BoxHeader>, c: BoxHeader| within(c, n) implies #[trigger] rule_a(
            before,
            c,
        ) == rule_b(before, c) by {
            lemma_same_trak(a, b, n, c);
        }
    }
    let at = h.payload_offset as int;
    lemma_same_container(a, b, n, at, h.spec_end(), rule_a, rule_b);
    lemma_same_tracks(a, b, n, scan(a, at, h.spec_end()).boxes);
}

/// The type of the box that has no size of its own and so extends to the end
/// of its container, if there is one. It is the last.
pub open spec fn open_box(src: Seq<u8>, cursor: int, end: int) -> Option<u32>
    decreases end - cursor,
{
    if cursor >= end {
        None
    } else {
        match header_at(src, cursor, end) {
            Ok(h) => if be_u32_at(src, cursor) == 0 {
                Some(h.box_type)
            } else if h.declared_size > 0 {
                open_box(src, cursor + h.declared_size, end)
            } else {
                None
            },
            Err(_) => None,
        }
    }
}

/// Whether the bytes are one `sbgp` or `sgpd` box whose grouping type does not
/// mark encryption.
pub open spec fn plain_group(bytes: Seq<u8>) -> bool {
    header_at(bytes, 0, bytes.len() as int) matches Ok(h) && {
        &&& h.spec_end() == bytes.len()
        &&& h.box_type == SBGP || h.box_type == SGPD
        &&& h.spec_payload_len() >= 8
        &&& be_u32_at(bytes, h.payload_offset + 4) != SEIG
    }
}

/// Whether `new` is the box `old`, drawn out over bytes behind it.
spec fn drawn_out(old: BoxHeader, new: BoxHeader) -> bool {
    &&& old.box_type == new.box_type
    &&& old.box_type != FTYP
    &&& old.box_type != MOOV
    &&& old.payload_offset == new.payload_offset
    &&& old.spec_payload_len() <= new.spec_payload_len()
}

/// What appending does to the boxes of `src`: one more sample group that does
/// not mark encryption, or the last box drawn out.
spec fn continued(src: Seq<u8>, old: Seq<BoxHeader>, new: Seq<BoxHeader>) -> bool {
    ||| new == old
    ||| {
        &&& new.len() > 0
        &&& new.drop_last() == old
        &&& new.last().box_type == SBGP || new.last().box_type == SGPD
        &&& encryption_fault(src, new.last()) is None
    }
    ||| {
        &&& new.len() > 0
        &&& old.len() > 0
        &&& new.drop_last() == old.drop_last()
        &&& drawn_out(old.last(), new.last())
    }
}

/// A common first box changes nothing about how a list is continued.
proof fn lemma_continued_behind(
    src: Seq<u8>,
    h: BoxHeader,
    old: Seq<BoxHeader>,
    new: Seq<BoxHeader>,
)
    requires
        continued(src, old, new),
    ensures
        continued(src, seq![h] + old, seq![h] + new),
{
    if new.len() > 0 {
        assert((seq![h] + new).drop_last() =~= seq![h] + new.drop_last());
        assert((seq![h] + new).last() == new.last());
    }
    if old.len() > 0 {
        assert((seq![h] + old).drop_last() =~= seq![h] + old.drop_last());
        assert((seq![h] + old).last() == old.last());
    }
}

/// A scan yields the box at its cursor, or passes over it.
proof fn lemma_scan_head(src: Seq<u8>, cursor: int, end: int)
    requires
        0 <= cursor < end <= u64::MAX,
        header_at(src, cursor, end) is Ok,
    ensures
        ({
            let h = header_at(src, cursor, end)->Ok_0;
            let rest = scan(src, cursor + h.declared_size, end);
            &&& h.wf()
            &&& h.start == cursor
            &&& h.spec_end() <= end
            &&& scan(src, cursor, end) == if h.box_type == UUID {
                rest
            } else {
                BoxScan { boxes: seq![h] + rest.boxes, fault: rest.fault }
            }
        }),
{
    let h = header_at(src, cursor, end)->Ok_0;
    if h.box_type == UUID {
        lemma_next_box(src, h.spec_end(), end);
        assert(past_uuids(src, cursor, end) == past_uuids(src, h.spec_end(), end));
    } else {
        assert(past_uuids(src, cursor, end) == cursor);
    }
}

/// Nothing is found in an empty container.
proof fn lemma_scan_nothing(src: Seq<u8>, end: int)
    ensures
        scan(src, end, end).boxes == Seq::<BoxHeader>::empty(),
        scan(src, end, end).fault is None,
{
    assert(past_uuids(src, end, end) == end);
}

/// A box with a size of its own has the same header in a longer source.
proof fn lemma_closed_header(src: Seq<u8>, tail: Seq<u8>, cursor: int)
    requires
        0 <= cursor,
        src.len() + tail.len() <= u64::MAX,
        header_at(src, cursor, src.len() as int) is Ok,
        be_u32_at(src, cursor) != 0,
    ensures
        header_at(src + tail, cursor, (src + tail).len() as int) == header_at(
            src,
            cursor,
            src.len() as int,
        ),
{
    let whole = src + tail;
    let n = src.len() as int;
    assert(agree(src, whole, n));
    lemma_same_word(src, whole, n, cursor);
    lemma_same_word(src, whole, n, cursor + 4);
    if cursor + 16 <= n {
        lemma_same_word(src, whole, n, cursor + 8);
        lemma_same_word(src, whole, n, cursor + 12);
    }
}

/// A box without a size of its own is drawn out in a longer source.
proof fn lemma_open_header(src: Seq<u8>, tail: Seq<u8>, cursor: int)
    requires
        0 <= cursor,
        src.len() + tail.len() <= u64::MAX,
        header_at(src, cursor, src.len() as int) is Ok,
        be_u32_at(src, cursor) == 0,
    ensures
        header_at(src, cursor, src.len() as int)->Ok_0.spec_end() == src.len(),
        header_at(src + tail, cursor, (src + tail).len() as int) matches Ok(new) && {
            let old = header_at(src, cursor, src.len() as int)->Ok_0;
            &&& new.spec_end() == (src + tail).len()
            &&& new.box_type == old.box_type
            &&& new.payload_offset == old.payload_offset
            &&& old.spec_payload_len() <= new.spec_payload_len()
        },
{
    let whole = src + tail;
    let n = src.len() as int;
    assert(agree(src, whole, n));
    lemma_same_word(src, whole, n, cursor);
    lemma_same_word(src, whole, n, cursor + 4);
}

/// A sample group is found where it was appended.
proof fn lemma_appended_group(src: Seq<u8>, tail: Seq<u8>)
    requires
        src.len() + tail.len() <= u64::MAX,
        plain_group(tail),
    ensures
        header_at(src + tail, src.len() as int, (src + tail).len() as int) matches Ok(h) && {
            &&& h.spec_end() == (src + tail).len()
            &&& h.box_type == SBGP || h.box_type == SGPD
            &&& encryption_fault(src + tail, h) is None
        },
{
    let whole = src + tail;
    let n = src.len() as int;
    let h = header_at(tail, 0, tail.len() as int)->Ok_0;
    assert forall|o: int| 0 <= o && o + 4 <= tail.len() implies #[trigger] be_u32_at(tail, o)
        == be_u32_at(whole, n + o) by {
        lemma_be_u32_within(tail, o, whole, n + o);
    }
    assert(be_u32_at(tail, 0) == be_u32_at(whole, n));
    assert(be_u32_at(tail, 4) == be_u32_at(whole, n + 4));
    if be_u32_at(tail, 0) == 1 {
        assert(be_u32_at(tail, 8) == be_u32_at(whole, n + 8));
        assert(be_u32_at(tail, 12) == be_u32_at(whole, n + 12));
    }
    assert(be_u32_at(tail, h.payload_offset + 4) == be_u32_at(whole, n + h.payload_offset + 4));
}

/// What appending a sample group does to the scan from `cursor` on.
proof fn lemma_continued(src: Seq<u8>, tail: Seq<u8>, cursor: int)
    requires
        0 <= cursor <= src.len(),
        src.len() + tail.len() <= u64::MAX,
        plain_group(tail),
        scan(src, cursor, src.len() as int).fault is None,
        open_box(src, cursor, src.len() as int) != Some(FTYP),
        open_box(src, cursor, src.len() as int) != Some(MOOV),
    ensures
        scan(src + tail, cursor, (src + tail).len() as int).fault is None,
        continued(
            src + tail,
            scan(src, cursor, src.len() as int).boxes,
            scan(src + tail, cursor, (src + tail).len() as int).boxes,
        ),
    decreases src.len() - cursor,
{
    let whole = src + tail;
    let n = src.len() as int;
    let m = whole.len() as int;
    lemma_scan_nothing(src, n);
    lemma_scan_nothing(whole, m);
    let old = scan(src, cursor, n).boxes;
    let new = scan(whole, cursor, m).boxes;
    if cursor == n {
        lemma_appended_group(src, tail);
        lemma_scan_head(whole, n, m);
        assert(new.drop_last() =~= old);
    } else {
        match header_at(src, cursor, n) {
            Err(_) => {
                assert(past_uuids(src, cursor, n) == cursor);
            },
            Ok(h) => {
                lemma_scan_head(src, cursor, n);
                if be_u32_at(src, cursor) == 0 {
                    lemma_open_header(src, tail, cursor);
                    lemma_scan_head(whole, cursor, m);
                    if h.box_type != UUID {
                        assert(new.drop_last() =~= old.drop_last());
                    }
                } else {
                    lemma_closed_header(src, tail, cursor);
                    lemma_scan_head(whole, cursor, m);
                    lemma_continued(src, tail, h.spec_end());
                    if h.box_type != UUID {
                        lemma_continued_behind(
                            whole,
                            h,
                            scan(src, h.spec_end(), n).boxes,
                            scan(whole, h.spec_end(), m).boxes,
                        );
                    }
                }
            },
        }
    }
}

/// A sample group that does not mark encryption is ignored: appended to a
/// file that can be parsed, it leaves the parse as it was.
///
/// Where the file ends in a `ftyp` or `moov` box that has no size of its own,
/// what is appended becomes a part of that box, and nothing is claimed.
pub proof fn law_plain_groups_are_ignored(src: Seq<u8>, group: Seq<u8>)
    requires
        top_level(src, src.len() as int) is Ok,
        plain_group(group),
        src.len() + group.len() <= u64::MAX,
        open_box(src, 0, src.len() as int) != Some(FTYP),
        open_box(src, 0, src.len() as int) != Some(MOOV),
    ensures
        top_level(src + group, (src + group).len() as int) == top_level(src, src.len() as int),
{
    let whole = src + group;
    let n = src.len() as int;
    let m = whole.len() as int;
    assert(agree(src, whole, n));
    let rule_a = top_level_rule(src);
    let rule_b = top_level_rule(whole);
    assert(judge_alike(rule_a, rule_b, n)) by {
        assert forall|before: Seq<BoxHeader>, c: BoxHeader| within(c, n) implies #[trigger] rule_a(
            before,
            c,
        ) == rule_b(before, c) by {
            lemma_same_leaves(src, whole, n, c);
            lemma_same_ftyp(src, whole, n, c);
        }
    }
    lemma_same_container(src, whole, n, 0, n, rule_a, rule_b);
    let old = scan(src, 0, n).boxes;
    let new = scan(whole, 0, m).boxes;
    lemma_same_faults(old, rule_a, rule_b, n);
    lemma_continued(src, group, 0);
    lemma_last_of_within(old, MOOV, n);
    lemma_same_moov(src, whole, n, last_of(old, MOOV)->Some_0);
    if new != old && new.drop_last() != old {
        assert(rule_b(old.drop_last(), old.last()) is None);
        assert(rule_b(new.drop_last(), new.last()) is None);
    }
    assert(first_fault(new, rule_b) is None);
    assert(last_of(new, FTYP) is Some);
    assert(last_of(new, MOOV) == last_of(old, MOOV));
}

} // verus!
