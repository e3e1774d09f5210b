//! fMP4 box framing.
//!
//! A box is opened, its payload is appended, and `finish` patches the size
//! field with the number of bytes between the start of the header and the end
//! of the output. So every emitted box declares exactly the bytes it has.
//!
//! For boxes whose size is known up front (such as `mdat`, from the sum of
//! sample sizes), `finish_expecting` takes that size; that the two agree is
//! proved at the call.

use vstd::prelude::*;

use crate::bytes::{be32, group_bytes, lemma_be_u32_within, patch_u32, push_u32};
use crate::demux::fourcc::UUID;
use crate::demux::reader::{header_at, next_box, scan, BoxHeader};
use crate::error::{IoError, PackagerError};

verus! {

/// A box: a size field that counts the whole box, the type, the payload.
pub open spec fn box_bytes(fourcc: u32, payload: Seq<u8>) -> Seq<u8> {
    be32((payload.len() + 8) as u32) + be32(fourcc) + payload
}

/// A box is 8 bytes longer than its payload.
pub proof fn lemma_box_len(fourcc: u32, payload: Seq<u8>)
    ensures
        box_bytes(fourcc, payload).len() == payload.len() + 8,
{
    broadcast use group_bytes;

}

/// A box, if its size fits the 32-bit size field.
pub open spec fn boxed(fourcc: u32, payload: Seq<u8>) -> Result<Seq<u8>, PackagerError> {
    if payload.len() + 8 > u32::MAX {
        Err(
            PackagerError::Io(
                IoError::BoxTooLarge { fourcc, size: (payload.len() + 8) as u64 },
            ),
        )
    } else {
        Ok(box_bytes(fourcc, payload))
    }
}

/// The first word of a full box: version and flags.
pub open spec fn full_box_word(version: u8, flags: u32) -> u32 {
    (version * 0x100_0000 + flags) as u32
}

/// Big-endian 32-bit words, one after the other.
pub open spec fn words(w: Seq<u32>) -> Seq<u8>
    decreases w.len(),
{
    if w.len() == 0 {
        Seq::empty()
    } else {
        words(w.drop_last()) + be32(w.last())
    }
}

/// Words take four bytes each.
pub broadcast proof fn lemma_words_len(w: Seq<u32>)
    ensures
        #[trigger] words(w).len() == 4 * w.len(),
    decreases w.len(),
{
    broadcast use group_bytes;

    if w.len() > 0 {
        lemma_words_len(w.drop_last());
    }
}

/// Whether `after` starts with `before`.
pub open spec fn keeps(before: Seq<u8>, after: Seq<u8>) -> bool {
    &&& before.len() <= after.len()
    &&& forall|i: int| 0 <= i < before.len() ==> #[trigger] after[i] == before[i]
}

/// Whether `r` says that `out` went from `before` to `before` followed by
/// what `expected` holds, or failed with the error that `expected` is, in
/// which case `out` still starts with `before`.
pub open spec fn appends(
    before: Seq<u8>,
    after: Seq<u8>,
    r: Result<(), PackagerError>,
    expected: Result<Seq<u8>, PackagerError>,
) -> bool {
    match expected {
        Ok(bytes) => r is Ok && after == before + bytes,
        Err(e) => r == Err::<(), _>(e) && keeps(before, after),
    }
}

/// An open box. It must be closed with [`BoxWriter::finish`] or
/// [`BoxWriter::finish_expecting`], which patch the size field.
#[must_use]
pub struct BoxWriter {
    pub start: usize,
    pub fourcc: u32,
}

impl BoxWriter {
    /// The box was opened in `out`.
    pub open spec fn opened_in(&self, out: Seq<u8>) -> bool {
        &&& self.start + 8 <= out.len()
        &&& out.subrange(self.start + 4, self.start + 8) == be32(self.fourcc)
    }

    /// What was in the output before the box.
    pub open spec fn before(&self, out: Seq<u8>) -> Seq<u8> {
        out.take(self.start as int)
    }

    /// What was written to the box so far.
    pub open spec fn payload(&self, out: Seq<u8>) -> Seq<u8> {
        out.skip(self.start + 8)
    }

    /// Opens a box at the end of `out`: a placeholder for the size, and the
    /// type.
    pub fn open(out: &mut Vec<u8>, fourcc: u32) -> (r: BoxWriter)
        ensures
            final(out)@ == old(out)@ + be32(0) + be32(fourcc),
            r.start == old(out)@.len(),
            r.fourcc == fourcc,
            r.opened_in(final(out)@),
            r.before(final(out)@) == old(out)@,
            r.payload(final(out)@) == Seq::<u8>::empty(),
    {
        broadcast use group_bytes;

        let start: usize = out.len();
        push_u32(out, 0);
        push_u32(out, fourcc);
        assert(out@.subrange(start + 4, start + 8) =~= be32(fourcc));
        assert(out@.take(start as int) =~= old(out)@);
        assert(out@.skip(start + 8) =~= Seq::<u8>::empty());
        BoxWriter { start, fourcc }
    }

    /// Patches the size field and returns the size of the box.
    pub fn finish(self, out: &mut Vec<u8>) -> (r: Result<u64, PackagerError>)
        requires
            self.opened_in(old(out)@),
        ensures
            match boxed(self.fourcc, self.payload(old(out)@)) {
                Ok(bytes) => {
                    &&& r == Ok::<u64, PackagerError>(bytes.len() as u64)
                    &&& final(out)@ == self.before(old(out)@) + bytes
                },
                Err(e) => r == Err::<u64, PackagerError>(e) && final(out)@ == old(out)@,
            },
    {
        broadcast use group_bytes;

        let size: usize = out.len() - self.start;
        if size as u64 > u32::MAX as u64 {
            return Err(
                PackagerError::Io(IoError::BoxTooLarge { fourcc: self.fourcc, size: size as u64 }),
            );
        }
        let ghost before = out@;
        patch_u32(out, self.start, size as u32);
        proof {
            let s = self.start as int;
            let head = before.subrange(s + 4, s + 8);
            assert(before.subrange(s + 4, before.len() as int) =~= head + before.skip(s + 8));
            assert(out@ =~= before.take(s) + box_bytes(self.fourcc, before.skip(s + 8)));
        }
        Ok(size as u64)
    }

    /// Patches the size field of a box that has `expected` bytes.
    pub fn finish_expecting(self, out: &mut Vec<u8>, expected: u32) -> (r: Result<
        u64,
        PackagerError,
    >)
        requires
            self.opened_in(old(out)@),
            self.payload(old(out)@).len() + 8 == expected,
        ensures
            r == Ok::<u64, PackagerError>(expected as u64),
            final(out)@ == self.before(old(out)@) + box_bytes(
                self.fourcc,
                self.payload(old(out)@),
            ),
    {
        broadcast use group_bytes;

        self.finish(out)
    }
}

/// The first word of a full box.
pub(crate) fn full_box_header(version: u8, flags: u32) -> (r: u32)
    requires
        flags <= 0xff_ffff,
    ensures
        r == full_box_word(version, flags),
{
    version as u32 * 0x100_0000 + flags
}

/// Appends `w` as big-endian words.
pub(crate) fn push_words(out: &mut Vec<u8>, w: &[u32])
    ensures
        final(out)@ == old(out)@ + words(w@),
{
    let mut i: usize = 0;
    assert(old(out)@ =~= old(out)@ + words(w@.take(0)));
    while i < w.len()
        invariant
            0 <= i <= w@.len(),
            out@ == old(out)@ + words(w@.take(i as int)),
        decreases w@.len() - i,
    {
        let ghost before = out@;
        push_u32(out, w[i]);
        proof {
            assert(w@.take(i + 1).drop_last() =~= w@.take(i as int));
            assert(out@ =~= old(out)@ + words(w@.take(i + 1)));
        }
        i += 1;
    }
    assert(w@.take(w@.len() as int) =~= w@);
}

/// Appends a box whose payload is `w`, as big-endian words.
pub(crate) fn write_word_box(out: &mut Vec<u8>, fourcc: u32, w: &[u32])
    requires
        w@.len() <= 1000,
    ensures
        final(out)@ == old(out)@ + box_bytes(fourcc, words(w@)),
{
    broadcast use lemma_words_len;

    let bx = BoxWriter::open(out, fourcc);
    let ghost opened = out@;
    push_words(out, w);
    proof {
        lemma_close(bx, opened, out@, words(w@));
    }
    let _ = bx.finish_expecting(out, (8 + 4 * w.len()) as u32);
}

/// What is appended to the output while a box is open joins its payload.
pub proof fn lemma_payload_grows(bx: BoxWriter, before: Seq<u8>, after: Seq<u8>, more: Seq<u8>)
    requires
        bx.opened_in(before),
        after == before + more,
    ensures
        bx.opened_in(after),
        bx.before(after) == bx.before(before),
        bx.payload(after) == bx.payload(before) + more,
{
    assert(after.subrange(bx.start + 4, bx.start + 8) =~= before.subrange(
        bx.start + 4,
        bx.start + 8,
    ));
    assert(bx.before(after) =~= bx.before(before));
    assert(bx.payload(after) =~= bx.payload(before) + more);
}

/// A box that holds `payload` and nothing else closes to `box_bytes`.
pub proof fn lemma_close(bx: BoxWriter, opened: Seq<u8>, out: Seq<u8>, payload: Seq<u8>)
    requires
        bx.opened_in(opened),
        bx.payload(opened) == Seq::<u8>::empty(),
        out == opened + payload,
    ensures
        bx.opened_in(out),
        bx.before(out) == bx.before(opened),
        bx.payload(out) == payload,
{
    lemma_payload_grows(bx, opened, out, payload);
    assert(Seq::<u8>::empty() + payload =~= payload);
}

/// Boxes, given by type and payload, one after the other.
pub open spec fn box_list(items: Seq<(u32, Seq<u8>)>) -> Seq<u8>
    decreases items.len(),
{
    if items.len() == 0 {
        Seq::empty()
    } else {
        box_bytes(items[0].0, items[0].1) + box_list(items.drop_first())
    }
}

/// The boxes of a list fit their size fields, and none is a `uuid` box.
pub open spec fn listable(items: Seq<(u32, Seq<u8>)>) -> bool {
    forall|i: int|
        0 <= i < items.len() ==> (#[trigger] items[i]).0 != UUID && items[i].1.len() + 8
            <= u32::MAX
}

/// `found` is the header of a box with the given type and payload.
pub open spec fn is_header_of(src: Seq<u8>, found: BoxHeader, item: (u32, Seq<u8>)) -> bool {
    &&& found.box_type == item.0
    &&& found.header_size == 8
    &&& found.declared_size == item.1.len() + 8
    &&& found.payload_offset == found.start + 8
    &&& found.start + found.declared_size <= src.len()
    &&& src.subrange(found.payload_offset as int, found.start + found.declared_size) == item.1
}

/// A box reads back as its header.
proof fn lemma_header_at(pre: Seq<u8>, item: (u32, Seq<u8>), post: Seq<u8>, end: int)
    requires
        item.1.len() + 8 <= u32::MAX,
        pre.len() + item.1.len() + 8 <= end <= u64::MAX,
    ensures
        ({
            let src = pre + box_bytes(item.0, item.1) + post;
            &&& header_at(src, pre.len() as int, end) matches Ok(h) && {
                &&& is_header_of(src, h, item)
                &&& h.start == pre.len()
            }
        }),
{
    broadcast use group_bytes;

    let src = pre + box_bytes(item.0, item.1) + post;
    let at = pre.len() as int;
    let size = (item.1.len() + 8) as u32;
    let b0 = be32(size);
    let b1 = be32(item.0);
    lemma_be_u32_within(src, at, b0, 0);
    lemma_be_u32_within(src, at + 4, b1, 0);
    assert(src.subrange(at + 8, at + 8 + item.1.len()) =~= item.1);
}

/// Written boxes read back: a scan over boxes that were written one after the
/// other finds each of them where the one before it ends, with its type, its
/// exact size and its payload, and nothing else.
pub proof fn law_written_boxes_read_back(
    pre: Seq<u8>,
    items: Seq<(u32, Seq<u8>)>,
    post: Seq<u8>,
)
    requires
        listable(items),
        pre.len() + box_list(items).len() <= u64::MAX,
    ensures
        ({
            let src = pre + box_list(items) + post;
            let at = pre.len() as int;
            let found = scan(src, at, at + box_list(items).len());
            &&& found.fault is None
            &&& found.boxes.len() == items.len()
            &&& items.len() > 0 ==> found.boxes[0].start == at
            &&& forall|i: int|
                0 < i < items.len() ==> (#[trigger] found.boxes[i]).start == found.boxes[i
                    - 1].spec_end()
            &&& forall|i: int|
                0 <= i < items.len() ==> is_header_of(src, #[trigger] found.boxes[i], items[i])
        }),
    decreases items.len(),
{
    broadcast use group_bytes;

    let src = pre + box_list(items) + post;
    let at = pre.len() as int;
    let end = at + box_list(items).len();
    if items.len() > 0 {
        let first = box_bytes(items[0].0, items[0].1);
        let rest = items.drop_first();
        assert(items[0].0 != UUID);
        assert forall|i: int| 0 <= i < rest.len() implies (#[trigger] rest[i]).0 != UUID
            && rest[i].1.len() + 8 <= u32::MAX by {
            assert(rest[i] == items[i + 1]);
        }
        law_written_boxes_read_back(pre + first, rest, post);
        assert(src =~= (pre + first) + box_list(rest) + post);
        assert(src =~= pre + first + (box_list(rest) + post));
        lemma_header_at(pre, items[0], box_list(rest) + post, end);
        let h = header_at(src, at, end)->Ok_0;
        assert(next_box(src, at, end) == Ok::<_, PackagerError>(Some(h)));
        let found = scan(src, at, end);
        let tail = scan(src, h.spec_end(), end);
        assert(found.boxes == seq![h] + tail.boxes);
        assert forall|i: int| 0 <= i < items.len() implies is_header_of(
            src,
            #[trigger] found.boxes[i],
            items[i],
        ) by {
            if i > 0 {
                assert(found.boxes[i] == tail.boxes[i - 1]);
                assert(items[i] == rest[i - 1]);
            }
        }
        assert forall|i: int| 0 < i < items.len() implies (#[trigger] found.boxes[i]).start
            == found.boxes[i - 1].spec_end() by {
            assert(found.boxes[i] == tail.boxes[i - 1]);
            if i > 1 {
                assert(found.boxes[i - 1] == tail.boxes[i - 2]);
            }
        }
    }
}

/// The children of a written box read back from inside it.
pub proof fn law_written_children_read_back(
    pre: Seq<u8>,
    fourcc: u32,
    items: Seq<(u32, Seq<u8>)>,
    post: Seq<u8>,
)
    requires
        listable(items),
        pre.len() + 8 + box_list(items).len() <= u64::MAX,
    ensures
        ({
            let src = pre + box_bytes(fourcc, box_list(items)) + post;
            let at = pre.len() as int + 8;
            let found = scan(src, at, at + box_list(items).len());
            &&& found.fault is None
            &&& found.boxes.len() == items.len()
            &&& forall|i: int|
                0 <= i < items.len() ==> is_header_of(src, #[trigger] found.boxes[i], items[i])
        }),
{
    broadcast use group_bytes;

    let payload = box_list(items);
    let sizes = be32((payload.len() + 8) as u32) + be32(fourcc);
    let src = pre + box_bytes(fourcc, payload) + post;
    assert(src =~= (pre + sizes) + payload + post);
    law_written_boxes_read_back(pre + sizes, items, post);
}

/// What a writer appends stands behind what was there before, byte for byte;
/// where it fails, what was there before is still there.
pub proof fn law_writers_append(
    before: Seq<u8>,
    after: Seq<u8>,
    r: Result<(), PackagerError>,
    expected: Result<Seq<u8>, PackagerError>,
)
    requires
        appends(before, after, r, expected),
    ensures
        before.len() <= after.len(),
        after.take(before.len() as int) == before,
        r is Ok <==> expected is Ok,
        expected matches Ok(bytes) ==> after.skip(before.len() as int) == bytes,
        expected matches Err(e) ==> r == Err::<(), _>(e),
{
    assert(after.take(before.len() as int) =~= before);
    if let Ok(bytes) = expected {
        assert(after.skip(before.len() as int) =~= bytes);
    }
}

} // verus!
