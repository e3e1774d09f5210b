//! ISO/IEC 14496-12 box-header scanner.
//!
//! Walks a contiguous byte range over a [`ReadAt`] source and yields one
//! [`BoxHeader`] per call. Accepts the 32-bit `size` and the 64-bit
//! `largesize` (size = 1) header forms, and the "size = 0, extends to the end
//! of the container" form. `uuid` (vendor-extension) boxes are skipped: none
//! of the boxes that matter here live inside one.

use vstd::prelude::*;

use crate::bytes::{be_u32_at, be_u64_at, u32_at, u64_at};
use crate::demux::fourcc::UUID;
use crate::error::{settles, source_failed, IoError, PackagerError};
use crate::read_at::ReadAt;

verus! {

/// One parsed box header. The payload occupies the half-open range
/// `[payload_offset, start + declared_size)` of the source.
#[derive(Debug, Clone, Copy, PartialEq, Eq, Structural)]
pub struct BoxHeader {
    pub box_type: u32,
    pub start: u64,
    pub header_size: u8,
    pub declared_size: u64,
    pub payload_offset: u64,
}

impl BoxHeader {
    /// The sizes fit together and the box ends within the `u64` range.
    pub open spec fn wf(self) -> bool {
        &&& self.header_size == 8 || self.header_size == 16
        &&& self.header_size <= self.declared_size
        &&& self.start + self.declared_size <= u64::MAX
        &&& self.payload_offset == self.start + self.header_size
    }

    /// The number of bytes after the header.
    pub open spec fn spec_payload_len(self) -> int {
        self.declared_size - self.header_size
    }

    /// The offset just past the box.
    pub open spec fn spec_end(self) -> int {
        self.start + self.declared_size
    }

    /// The number of bytes after the header.
    pub fn payload_len(&self) -> (r: u64)
        requires
            self.wf(),
        ensures
            r == self.spec_payload_len(),
    {
        self.declared_size - self.header_size as u64
    }

    /// The offset just past the box.
    pub fn end(&self) -> (r: u64)
        requires
            self.wf(),
        ensures
            r == self.spec_end(),
    {
        self.start + self.declared_size
    }
}

/// The `len` bytes of `src` from `offset` on, if they are all there.
pub open spec fn bytes_at(src: Seq<u8>, offset: int, len: int) -> Result<Seq<u8>, PackagerError> {
    if len == 0 {
        Ok(Seq::empty())
    } else if offset + len <= src.len() {
        Ok(src.subrange(offset, offset + len))
    } else {
        Err(PackagerError::Io(IoError::ShortRead))
    }
}

/// A box that is there but cannot be read.
pub open spec fn malformed<T>(atom: &'static str, reason: &'static str) -> Result<T, PackagerError> {
    Err(PackagerError::MalformedAtom { atom, reason })
}

/// The box header at `cursor` in a container that ends at `end`.
pub open spec fn header_at(src: Seq<u8>, cursor: int, end: int) -> Result<BoxHeader, PackagerError> {
    let remaining = end - cursor;
    if remaining < 8 {
        malformed("<box-header>", "fewer than 8 bytes remain for size and type")
    } else if cursor + 8 > src.len() {
        Err(PackagerError::Io(IoError::ShortRead))
    } else {
        let size32 = be_u32_at(src, cursor);
        if size32 == 1 && remaining < 16 {
            malformed("<box-header>", "largesize indicated but fewer than 16 bytes remain")
        } else if size32 == 1 && cursor + 16 > src.len() {
            Err(PackagerError::Io(IoError::ShortRead))
        } else {
            let header_size = if size32 == 1 { 16u8 } else { 8u8 };
            let declared_size = if size32 == 1 {
                be_u64_at(src, cursor + 8) as int
            } else if size32 == 0 {
                remaining
            } else {
                size32 as int
            };
            if declared_size < header_size {
                malformed("<box-header>", "declared size is smaller than its own header")
            } else if declared_size > remaining {
                malformed("<box-header>", "declared size exceeds enclosing container")
            } else {
                Ok(BoxHeader {
                    box_type: be_u32_at(src, cursor + 4),
                    start: cursor as u64,
                    header_size,
                    declared_size: declared_size as u64,
                    payload_offset: (cursor + header_size) as u64,
                })
            }
        }
    }
}

/// Where the scan comes to rest from `cursor` on, past any `uuid` boxes: at a
/// box of another type, at a header that cannot be read, or at the end.
pub open spec fn past_uuids(src: Seq<u8>, cursor: int, end: int) -> int
    decreases end - cursor,
{
    if cursor >= end {
        cursor
    } else {
        match header_at(src, cursor, end) {
            Ok(h) if h.box_type == UUID && h.declared_size > 0 => past_uuids(
                src,
                cursor + h.declared_size,
                end,
            ),
            _ => cursor,
        }
    }
}

/// The next box that is not a `uuid` box, or `None` at the end.
pub open spec fn next_box(src: Seq<u8>, cursor: int, end: int) -> Result<
    Option<BoxHeader>,
    PackagerError,
> {
    let at = past_uuids(src, cursor, end);
    if at >= end {
        Ok(None)
    } else {
        match header_at(src, at, end) {
            Ok(h) => Ok(Some(h)),
            Err(e) => Err(e),
        }
    }
}

/// Where a scan stands after it has looked for the next box: past that box,
/// or where it came to rest without one.
pub open spec fn next_cursor(src: Seq<u8>, cursor: int, end: int) -> int {
    match next_box(src, cursor, end) {
        Ok(Some(h)) => h.spec_end(),
        _ => past_uuids(src, cursor, end),
    }
}

/// Where a scan stands after it has looked `n` times for the next box.
pub open spec fn cursor_after(src: Seq<u8>, cursor: int, end: int, n: nat) -> int
    decreases n,
{
    if n == 0 {
        cursor
    } else {
        next_cursor(src, cursor_after(src, cursor, end, (n - 1) as nat), end)
    }
}

/// What a scan of a whole container finds: the boxes up to its end, or up to
/// the first header that cannot be read.
pub ghost struct BoxScan {
    pub boxes: Seq<BoxHeader>,
    pub fault: Option<PackagerError>,
}

/// The scan of `[cursor, end)`.
pub open spec fn scan(src: Seq<u8>, cursor: int, end: int) -> BoxScan
    decreases end - cursor,
{
    match next_box(src, cursor, end) {
        Ok(None) => BoxScan { boxes: Seq::empty(), fault: None },
        Err(e) => BoxScan { boxes: Seq::empty(), fault: Some(e) },
        Ok(Some(h)) => if cursor < h.spec_end() <= end {
            let rest = scan(src, h.spec_end(), end);
            BoxScan { boxes: seq![h] + rest.boxes, fault: rest.fault }
        } else {
            BoxScan { boxes: Seq::empty(), fault: None }
        },
    }
}

/// The scan comes to rest between `cursor` and `end`.
pub proof fn lemma_past_uuids(src: Seq<u8>, cursor: int, end: int)
    requires
        0 <= cursor,
        end <= u64::MAX,
    ensures
        cursor <= past_uuids(src, cursor, end),
        cursor <= end ==> past_uuids(src, cursor, end) <= end,
    decreases end - cursor,
{
    if cursor < end {
        match header_at(src, cursor, end) {
            Ok(h) if h.box_type == UUID => lemma_past_uuids(src, cursor + h.declared_size, end),
            _ => {},
        }
    }
}

/// A box that the scan yields is well-formed and lies within its container.
pub proof fn lemma_next_box(src: Seq<u8>, cursor: int, end: int)
    requires
        0 <= cursor,
        end <= u64::MAX,
    ensures
        next_box(src, cursor, end) matches Ok(Some(h)) ==> {
            &&& h.wf()
            &&& cursor <= h.start
            &&& h.start + 8 <= src.len()
            &&& h.spec_end() <= end
        },
{
    lemma_past_uuids(src, cursor, end);
}

/// Looked at from where the scan came to rest, nothing has changed.
proof fn lemma_rest_is_stable(src: Seq<u8>, cursor: int, end: int)
    ensures
        past_uuids(src, past_uuids(src, cursor, end), end) == past_uuids(src, cursor, end),
    decreases end - cursor,
{
    if cursor < end {
        match header_at(src, cursor, end) {
            Ok(h) if h.box_type == UUID && h.declared_size > 0 => lemma_rest_is_stable(
                src,
                cursor + h.declared_size,
                end,
            ),
            _ => {},
        }
    }
}

/// A header that cannot be read stops the scan for good. The scan rests on
/// it, not past it, and however often the next box is looked for after that,
/// the same error comes again and the scan stays where it is. Unless the
/// source is shorter than the container, the error is a malformed box.
pub proof fn law_fault_stops_the_scan(src: Seq<u8>, cursor: int, end: int, further: nat)
    requires
        0 <= cursor,
        end <= u64::MAX,
        next_box(src, cursor, end) is Err,
    ensures
        ({
            let at = past_uuids(src, cursor, end);
            let stands = cursor_after(src, cursor, end, further + 1);
            &&& cursor <= at < end
            &&& header_at(src, at, end) is Err
            &&& next_box(src, cursor, end)->Err_0 == header_at(src, at, end)->Err_0
            &&& end <= src.len() ==> next_box(src, cursor, end)->Err_0 is MalformedAtom
            &&& stands == at
            &&& next_box(src, stands, end) == next_box(src, cursor, end)
        }),
    decreases further,
{
    lemma_past_uuids(src, cursor, end);
    lemma_rest_is_stable(src, cursor, end);
    if further == 0 {
        assert(cursor_after(src, cursor, end, 0) == cursor);
        assert(cursor_after(src, cursor, end, 1) == next_cursor(src, cursor, end));
    } else {
        law_fault_stops_the_scan(src, cursor, end, (further - 1) as nat);
    }
}

/// Every box that a scan finds is well-formed, lies within the container, and
/// is no `uuid` box.
pub proof fn law_scanned_boxes_lie_in_their_container(src: Seq<u8>, cursor: int, end: int)
    requires
        0 <= cursor,
        end <= u64::MAX,
    ensures
        forall|i: int|
            0 <= i < scan(src, cursor, end).boxes.len() ==> {
                let h = #[trigger] scan(src, cursor, end).boxes[i];
                h.wf() && cursor <= h.start && h.spec_end() <= end && h.box_type != UUID
            },
    decreases end - cursor,
{
    lemma_next_box(src, cursor, end);
    lemma_next_box_type(src, cursor, end);
    if let Ok(Some(h)) = next_box(src, cursor, end) {
        law_scanned_boxes_lie_in_their_container(src, h.spec_end(), end);
        let rest = scan(src, h.spec_end(), end).boxes;
        assert forall|i: int| 0 <= i < scan(src, cursor, end).boxes.len() implies {
            let h = #[trigger] scan(src, cursor, end).boxes[i];
            h.wf() && cursor <= h.start && h.spec_end() <= end && h.box_type != UUID
        } by {
            if i > 0 {
                assert(scan(src, cursor, end).boxes[i] == rest[i - 1]);
            }
        }
    }
}

/// The scan never yields a `uuid` box.
pub proof fn lemma_next_box_type(src: Seq<u8>, cursor: int, end: int)
    requires
        0 <= cursor,
        end <= u64::MAX,
    ensures
        next_box(src, cursor, end) matches Ok(Some(h)) ==> h.box_type != UUID,
    decreases end - cursor,
{
    if cursor < end {
        match header_at(src, cursor, end) {
            Ok(h) if h.box_type == UUID => lemma_next_box_type(
                src,
                cursor + h.declared_size,
                end,
            ),
            _ => {},
        }
    }
}

/// Whether a scan of `[start, end)` that has come to `cursor` has yielded
/// exactly the boxes `done`.
pub open spec fn scanned(
    src: Seq<u8>,
    start: int,
    end: int,
    done: Seq<BoxHeader>,
    cursor: int,
) -> bool {
    let all = scan(src, start, end);
    let rest = scan(src, cursor, end);
    &&& 0 <= cursor
    &&& all.boxes == done + rest.boxes
    &&& all.fault == rest.fault
}

/// One step of a scan: it ends, stops at a fault, or yields one more box.
pub proof fn lemma_scan_step(
    src: Seq<u8>,
    start: int,
    end: int,
    done: Seq<BoxHeader>,
    cursor: int,
)
    requires
        scanned(src, start, end, done, cursor),
        end <= u64::MAX,
    ensures
        match next_box(src, cursor, end) {
            Ok(None) => {
                &&& scan(src, start, end).boxes == done
                &&& scan(src, start, end).fault is None
            },
            Err(e) => {
                &&& scan(src, start, end).boxes == done
                &&& scan(src, start, end).fault == Some(e)
            },
            Ok(Some(h)) => {
                &&& scanned(src, start, end, done.push(h), h.spec_end())
                &&& h.spec_end() > cursor
                &&& done.push(h).is_prefix_of(scan(src, start, end).boxes)
            },
        },
{
    lemma_next_box(src, cursor, end);
    let all = scan(src, start, end);
    match next_box(src, cursor, end) {
        Ok(Some(h)) => {
            let rest = scan(src, h.spec_end(), end);
            assert(all.boxes =~= done.push(h) + rest.boxes);
            assert(all.boxes.subrange(0, done.len() as int + 1) =~= done.push(h));
        },
        _ => {
            assert(all.boxes =~= done);
        },
    }
}

/// The last box of type `ty`.
pub open spec fn last_of(boxes: Seq<BoxHeader>, ty: u32) -> Option<BoxHeader>
    decreases boxes.len(),
{
    if boxes.len() == 0 {
        None
    } else if boxes.last().box_type == ty {
        Some(boxes.last())
    } else {
        last_of(boxes.drop_last(), ty)
    }
}

/// What a rule finds wrong with a box, given the boxes before it.
pub type BoxRule = spec_fn(Seq<BoxHeader>, BoxHeader) -> Option<PackagerError>;

/// The first thing that `rule` finds wrong with one of `boxes`.
pub open spec fn first_fault(boxes: Seq<BoxHeader>, rule: BoxRule) -> Option<PackagerError>
    decreases boxes.len(),
{
    if boxes.len() == 0 {
        None
    } else {
        match first_fault(boxes.drop_last(), rule) {
            Some(e) => Some(e),
            None => rule(boxes.drop_last(), boxes.last()),
        }
    }
}

/// What is wrong with a container: the first box that `rule` rejects, else
/// the header at which the scan stopped.
pub open spec fn container_fault(src: Seq<u8>, start: int, end: int, rule: BoxRule) -> Option<
    PackagerError,
> {
    match first_fault(scan(src, start, end).boxes, rule) {
        Some(e) => Some(e),
        None => scan(src, start, end).fault,
    }
}

/// A fault found among the first boxes is the first fault of all.
pub proof fn lemma_first_fault_prefix(done: Seq<BoxHeader>, boxes: Seq<BoxHeader>, rule: BoxRule)
    requires
        done.is_prefix_of(boxes),
        first_fault(done, rule) is Some,
    ensures
        first_fault(boxes, rule) == first_fault(done, rule),
    decreases boxes.len(),
{
    if done.len() < boxes.len() {
        assert(done =~= boxes.drop_last().subrange(0, done.len() as int));
        lemma_first_fault_prefix(done, boxes.drop_last(), rule);
    } else {
        assert(done =~= boxes);
    }
}

/// The box that a scan yields next is the last of those yielded so far.
pub proof fn lemma_push_box(done: Seq<BoxHeader>, h: BoxHeader, rule: BoxRule)
    ensures
        first_fault(done, rule) is None ==> first_fault(done.push(h), rule) == rule(done, h),
        forall|ty: u32|
            #[trigger] last_of(done.push(h), ty) == if h.box_type == ty {
                Some(h)
            } else {
                last_of(done, ty)
            },
{
    assert(done.push(h).drop_last() =~= done);
}

/// Iterator over the boxes in a half-open `[start, end)` byte range.
///
/// Construct one with [`BoxIter::new`], then call [`BoxIter::next_header`]
/// repeatedly until it returns `Ok(None)`. Errors abort iteration; the cursor
/// is not advanced past a malformed header.
pub struct BoxIter<'r, R: ReadAt + ?Sized> {
    pub reader: &'r R,
    pub cursor: u64,
    pub end: u64,
}

impl<'r, R: ReadAt + ?Sized> BoxIter<'r, R> {
    /// A scan of `[start, end)`.
    pub fn new(reader: &'r R, start: u64, end: u64) -> (r: Self)
        ensures
            r.reader == reader,
            r.cursor == start,
            r.end == end,
    {
        BoxIter { reader, cursor: start, end }
    }

    /// The next box header, or `None` at the end of the range. A call that
    /// the byte source fails has passed over `uuid` boxes at most.
    pub fn next_header(&mut self) -> (r: Result<Option<BoxHeader>, PackagerError>)
        ensures
            final(self).reader == old(self).reader,
            final(self).end == old(self).end,
            settles(
                r,
                next_box(old(self).reader.content(), old(self).cursor as int, old(self).end as int),
                old(self).reader.reliable(),
            ),
            r matches Ok(Some(h)) ==> h.wf() && final(self).cursor == h.spec_end(),
            r matches Ok(Some(h)) ==> old(self).cursor <= h.start && h.spec_end() <= old(self).end,
            !source_failed(r) ==> final(self).cursor == next_cursor(
                old(self).reader.content(),
                old(self).cursor as int,
                old(self).end as int,
            ),
            source_failed(r) ==> old(self).cursor <= final(self).cursor <= past_uuids(
                old(self).reader.content(),
                old(self).cursor as int,
                old(self).end as int,
            ),
    {
        let ghost src = self.reader.content();
        loop
            invariant
                src == self.reader.content(),
                self.reader == old(self).reader,
                self.end == old(self).end,
                old(self).cursor <= self.cursor,
                past_uuids(src, self.cursor as int, self.end as int) == past_uuids(
                    src,
                    old(self).cursor as int,
                    self.end as int,
                ),
            decreases self.end - self.cursor,
        {
            if self.cursor >= self.end {
                return Ok(None);
            }
            proof {
                lemma_past_uuids(src, self.cursor as int, self.end as int);
            }
            let remaining: u64 = self.end - self.cursor;
            if remaining < 8 {
                return Err(
                    PackagerError::MalformedAtom {
                        atom: "<box-header>",
                        reason: "fewer than 8 bytes remain for size and type",
                    },
                );
            }
            let mut head = [0u8; 8];
            read_exact(self.reader, self.cursor, &mut head)?;
            let size32: u32 = u32_at(&head, 0);
            let box_type: u32 = u32_at(&head, 4);
            proof {
                crate::bytes::lemma_be_u32_within(head@, 0, src, self.cursor as int);
                crate::bytes::lemma_be_u32_within(head@, 4, src, self.cursor + 4);
            }
            let declared_size: u64;
            let header_size: u8;
            if size32 == 1 {
                if remaining < 16 {
                    return Err(
                        PackagerError::MalformedAtom {
                            atom: "<box-header>",
                            reason: "largesize indicated but fewer than 16 bytes remain",
                        },
                    );
                }
                let mut large = [0u8; 8];
                read_exact(self.reader, self.cursor + 8, &mut large)?;
                declared_size = u64_at(&large, 0);
                header_size = 16;
                proof {
                    crate::bytes::lemma_be_u32_within(large@, 0, src, self.cursor + 8);
                    crate::bytes::lemma_be_u32_within(large@, 4, src, self.cursor + 12);
                }
            } else if size32 == 0 {
                // The box extends to the end of the enclosing container.
                declared_size = remaining;
                header_size = 8;
            } else {
                declared_size = size32 as u64;
                header_size = 8;
            }
            if declared_size < header_size as u64 {
                return Err(
                    PackagerError::MalformedAtom {
                        atom: "<box-header>",
                        reason: "declared size is smaller than its own header",
                    },
                );
            }
            if declared_size > remaining {
                return Err(
                    PackagerError::MalformedAtom {
                        atom: "<box-header>",
                        reason: "declared size exceeds enclosing container",
                    },
                );
            }
            let header = BoxHeader {
                box_type,
                start: self.cursor,
                header_size,
                declared_size,
                payload_offset: self.cursor + header_size as u64,
            };
            assert(header_at(src, self.cursor as int, self.end as int) == Ok::<_, PackagerError>(header));
            self.cursor = header.end();
            if box_type != UUID {
                return Ok(Some(header));
            }
        }
    }
}

/// Reads exactly `buf.len()` bytes from `offset`, looping over short reads.
/// A source that ends too early gives [`IoError::ShortRead`].
pub fn read_exact<R: ReadAt + ?Sized>(reader: &R, offset: u64, buf: &mut [u8]) -> (r: Result<
    (),
    PackagerError,
>)
    requires
        offset + old(buf)@.len() <= u64::MAX,
    ensures
        final(buf)@.len() == old(buf)@.len(),
        match bytes_at(reader.content(), offset as int, old(buf)@.len() as int) {
            Ok(bytes) => settles(r, Ok(()), reader.reliable()) && (r is Ok ==> final(buf)@ == bytes),
            Err(e) => settles(r, Err(e), reader.reliable()),
        },
{
    let ghost src = reader.content();
    let total: usize = buf.len();
    let mut filled: usize = 0;
    while filled < total
        invariant
            src == reader.content(),
            total == old(buf)@.len(),
            total == buf@.len(),
            filled <= total,
            offset + total <= u64::MAX,
            filled > 0 ==> offset + filled <= src.len(),
            filled > 0 ==> buf@.subrange(0, filled as int) == src.subrange(
                offset as int,
                offset + filled,
            ),
        decreases total - filled,
    {
        let (_, tail) = buf.split_at_mut(filled);
        match reader.read_at(offset + filled as u64, tail) {
            Ok(n) => {
                if n == 0 {
                    return Err(PackagerError::Io(IoError::ShortRead));
                }
                assert(buf@.subrange(0, filled + n) =~= src.subrange(
                    offset as int,
                    offset + filled + n,
                ));
                filled += n;
            },
            Err(e) => return Err(PackagerError::Io(IoError::Source(e))),
        }
    }
    assert(buf@.subrange(0, total as int) =~= buf@);
    Ok(())
}

} // verus!
