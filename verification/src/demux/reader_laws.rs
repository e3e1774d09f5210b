//! What a box header says, and how a container is scanned.

use vstd::prelude::*;

use crate::bytes::be_u32_at;
use crate::demux::reader::{bytes_at, header_at, lemma_next_box, past_uuids, scan};
use crate::error::{IoError, PackagerError};

verus! {

/// A box header gives the size and the type of its box in its first two
/// words. A size of 1 stands for one in the next two words, a size of 0 for
/// the rest of the container. The box must hold its header and lie within the
/// container.
pub proof fn law_box_headers(src: Seq<u8>, at: int, end: int)
    requires
        0 <= at,
        at + 8 <= end <= src.len() <= u64::MAX,
    ensures
        ({
            let word = be_u32_at(src, at);
            let header = if word == 1 { 16int } else { 8 };
            let size = if word == 1 {
                be_u32_at(src, at + 8) * 0x1_0000_0000 + be_u32_at(src, at + 12)
            } else if word == 0 {
                end - at
            } else {
                word as int
            };
            match header_at(src, at, end) {
                Ok(h) => {
                    &&& h.start == at
                    &&& h.box_type == be_u32_at(src, at + 4)
                    &&& h.header_size == header
                    &&& h.payload_offset == at + header
                    &&& h.declared_size == size
                    &&& header <= size <= end - at
                },
                Err(e) => e is MalformedAtom && !(header <= end - at && header <= size <= end
                    - at),
            }
        }),
{
    let hi = be_u32_at(src, at + 8);
    let lo = be_u32_at(src, at + 12);
    assert(hi * 0x1_0000_0000 + lo <= u64::MAX);
}

/// A container is scanned box by box: each box starts where the one before it
/// ends, `uuid` boxes are passed over, and the first header that cannot be
/// read ends the scan.
pub proof fn law_containers_are_scanned_box_by_box(src: Seq<u8>, at: int, end: int)
    requires
        0 <= at,
        end <= u64::MAX,
    ensures
        at >= end ==> scan(src, at, end).boxes.len() == 0 && scan(src, at, end).fault is None,
        at < end ==> match header_at(src, at, end) {
            Err(e) => scan(src, at, end).boxes.len() == 0 && scan(src, at, end).fault == Some(e),
            Ok(h) => {
                let rest = scan(src, at + h.declared_size, end);
                &&& h.declared_size >= 8
                &&& scan(src, at, end).fault == rest.fault
                &&& scan(src, at, end).boxes == if h.box_type == 0x7575_6964 {
                    rest.boxes
                } else {
                    seq![h] + rest.boxes
                }
            },
        },
{
    if at < end {
        if let Ok(h) = header_at(src, at, end) {
            let next = at + h.declared_size;
            if h.box_type == 0x7575_6964 {
                lemma_next_box(src, next, end);
                assert(past_uuids(src, at, end) == past_uuids(src, next, end));
            } else {
                assert(past_uuids(src, at, end) == at);
            }
        } else {
            assert(past_uuids(src, at, end) == at);
        }
    }
}

/// Bytes are read where they stand, all of them or none.
pub proof fn law_bytes_are_read_whole(src: Seq<u8>, offset: int, len: int)
    requires
        0 <= offset,
        0 < len,
    ensures
        match bytes_at(src, offset, len) {
            Ok(bytes) => {
                &&& offset + len <= src.len()
                &&& bytes.len() == len
                &&& forall|i: int| 0 <= i < len ==> #[trigger] bytes[i] == src[offset + i]
            },
            Err(e) => offset + len > src.len() && e == PackagerError::Io(IoError::ShortRead),
        },
{
}

} // verus!
