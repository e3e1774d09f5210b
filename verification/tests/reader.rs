//! Box-header scanner.

use cmafly::demux::reader::BoxIter;
use cmafly::{IoError, PackagerError, ReadAt, SliceReader};

fn fcc(name: &[u8; 4]) -> u32 {
    u32::from_be_bytes(*name)
}

fn box_header(size: u32, fourcc: &[u8; 4]) -> [u8; 8] {
    let mut head = [0u8; 8];
    head[..4].copy_from_slice(&size.to_be_bytes());
    head[4..].copy_from_slice(fourcc);
    head
}

#[test]
fn yields_ftyp_then_mdat() {
    let mut bytes = Vec::new();
    bytes.extend_from_slice(&box_header(8, b"ftyp"));
    bytes.extend_from_slice(&box_header(64, b"mdat"));
    bytes.extend_from_slice(&[0u8; 56]);

    let len = bytes.len() as u64;
    let reader = SliceReader(&bytes);
    let mut iter = BoxIter::new(&reader, 0, len);

    let h1 = iter.next_header().unwrap().expect("ftyp present");
    assert_eq!(h1.box_type, fcc(b"ftyp"));
    assert_eq!(h1.declared_size, 8);
    assert_eq!(h1.header_size, 8);
    assert_eq!(h1.payload_offset, 8);
    assert_eq!(h1.payload_len(), 0);

    let h2 = iter.next_header().unwrap().expect("mdat present");
    assert_eq!(h2.box_type, fcc(b"mdat"));
    assert_eq!(h2.declared_size, 64);
    assert_eq!(h2.payload_offset, 16);
    assert_eq!(h2.end(), 72);

    assert!(iter.next_header().unwrap().is_none());
}

#[test]
fn handles_largesize_header() {
    let mut bytes = Vec::new();
    bytes.extend_from_slice(&box_header(1, b"mdat"));
    bytes.extend_from_slice(&32u64.to_be_bytes());
    bytes.extend_from_slice(&[0u8; 16]);

    let reader = SliceReader(&bytes);
    let mut iter = BoxIter::new(&reader, 0, bytes.len() as u64);
    let h = iter.next_header().unwrap().expect("mdat present");
    assert_eq!(h.box_type, fcc(b"mdat"));
    assert_eq!(h.declared_size, 32);
    assert_eq!(h.header_size, 16);
    assert_eq!(h.payload_offset, 16);
    assert!(iter.next_header().unwrap().is_none());
}

#[test]
fn size_zero_extends_to_container_end() {
    let mut bytes = Vec::new();
    bytes.extend_from_slice(&box_header(0, b"mdat"));
    bytes.extend_from_slice(&[0u8; 24]);

    let reader = SliceReader(&bytes);
    let mut iter = BoxIter::new(&reader, 0, bytes.len() as u64);
    let h = iter.next_header().unwrap().expect("mdat present");
    assert_eq!(h.declared_size, bytes.len() as u64);
    assert_eq!(h.payload_offset, 8);
    assert!(iter.next_header().unwrap().is_none());
}

#[test]
fn skips_uuid_silently() {
    let mut bytes = Vec::new();
    bytes.extend_from_slice(&box_header(24, b"uuid"));
    bytes.extend_from_slice(&[0u8; 16]); // uuid extended-type
    bytes.extend_from_slice(&box_header(8, b"ftyp"));

    let reader = SliceReader(&bytes);
    let mut iter = BoxIter::new(&reader, 0, bytes.len() as u64);
    let h = iter.next_header().unwrap().expect("only ftyp surfaces");
    assert_eq!(h.box_type, fcc(b"ftyp"));
    assert!(iter.next_header().unwrap().is_none());
}

#[test]
fn rejects_size_below_header() {
    let bytes = box_header(4, b"ftyp");
    let reader = SliceReader(&bytes);
    let mut iter = BoxIter::new(&reader, 0, bytes.len() as u64);
    let err = iter.next_header().unwrap_err();
    assert!(matches!(err, PackagerError::MalformedAtom { .. }));
}

#[test]
fn rejects_size_past_container() {
    let bytes = box_header(64, b"ftyp");
    let reader = SliceReader(&bytes);
    let mut iter = BoxIter::new(&reader, 0, bytes.len() as u64);
    let err = iter.next_header().unwrap_err();
    assert!(matches!(err, PackagerError::MalformedAtom { .. }));
}

#[test]
fn rejects_truncated_largesize() {
    let mut bytes = Vec::new();
    bytes.extend_from_slice(&box_header(1, b"mdat"));
    bytes.extend_from_slice(&[0u8; 4]); // only half of largesize present
    let reader = SliceReader(&bytes);
    let mut iter = BoxIter::new(&reader, 0, bytes.len() as u64);
    let err = iter.next_header().unwrap_err();
    assert!(matches!(err, PackagerError::MalformedAtom { .. }));
}

/// A source whose bytes from `good` on cannot be read.
struct Damaged<'a> {
    bytes: &'a [u8],
    good: u64,
}

impl ReadAt for Damaged<'_> {
    fn read_at(&self, offset: u64, buf: &mut [u8]) -> std::io::Result<usize> {
        if offset >= self.good {
            return Err(std::io::Error::new(std::io::ErrorKind::Other, "bad block"));
        }
        SliceReader(self.bytes).read_at(offset, buf)
    }
}

#[test]
fn failing_source_stops_the_scan_at_the_box_it_failed_on() {
    let mut bytes = Vec::new();
    bytes.extend_from_slice(&box_header(12, b"uuid"));
    bytes.extend_from_slice(&[0u8; 4]);
    bytes.extend_from_slice(&box_header(8, b"free"));
    let reader = Damaged { bytes: &bytes, good: 12 };
    let mut iter = BoxIter::new(&reader, 0, bytes.len() as u64);
    assert!(matches!(
        iter.next_header(),
        Err(PackagerError::Io(IoError::Source(_)))
    ));
    assert_eq!(iter.cursor, 12);
}

#[test]
fn malformed_header_stops_the_scan_for_good() {
    for (tail, atom_reason) in [
        (vec![0u8; 5], "fewer than 8 bytes remain for size and type"),
        (box_header(1, b"free").to_vec(), "largesize indicated but fewer than 16 bytes remain"),
        (box_header(7, b"free").to_vec(), "declared size is smaller than its own header"),
        (box_header(9, b"free").to_vec(), "declared size exceeds enclosing container"),
    ] {
        let mut bytes = box_header(8, b"ftyp").to_vec();
        bytes.extend_from_slice(&box_header(8, b"uuid"));
        bytes.extend_from_slice(&tail);
        let reader = SliceReader(&bytes);
        let mut iter = BoxIter::new(&reader, 0, bytes.len() as u64);
        assert!(iter.next_header().unwrap().is_some());
        for _ in 0..3 {
            match iter.next_header() {
                Err(PackagerError::MalformedAtom { atom, reason }) => {
                    assert_eq!((atom, reason), ("<box-header>", atom_reason))
                }
                other => panic!("expected MalformedAtom, got {other:?}"),
            }
            assert_eq!(iter.cursor, 16);
        }
    }
}
