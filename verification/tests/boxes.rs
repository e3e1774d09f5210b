//! Box framing.

use byteorder::{BigEndian, ByteOrder};
use cmafly::fmp4::boxes::BoxWriter;

fn fcc(name: &[u8; 4]) -> u32 {
    u32::from_be_bytes(*name)
}

#[test]
fn open_finish_round_trip() {
    let mut buf: Vec<u8> = Vec::new();
    let bw = BoxWriter::open(&mut buf, fcc(b"test"));
    buf.extend_from_slice(&[0xDE, 0xAD, 0xBE, 0xEF]);
    let total = bw.finish(&mut buf).expect("finish");
    assert_eq!(total, 12);
    assert_eq!(BigEndian::read_u32(&buf[..4]), 12);
    assert_eq!(&buf[4..8], b"test");
    assert_eq!(&buf[8..], &[0xDE, 0xAD, 0xBE, 0xEF]);
}

#[test]
fn empty_box_is_eight_bytes() {
    let mut buf: Vec<u8> = Vec::new();
    let bw = BoxWriter::open(&mut buf, fcc(b"free"));
    let total = bw.finish(&mut buf).expect("finish");
    assert_eq!(total, 8);
    assert_eq!(buf, [0, 0, 0, 8, b'f', b'r', b'e', b'e']);
}

#[test]
fn nested_boxes_size_each_independently() {
    let mut buf: Vec<u8> = Vec::new();
    let outer = BoxWriter::open(&mut buf, fcc(b"moov"));
    {
        let inner = BoxWriter::open(&mut buf, fcc(b"mvhd"));
        buf.extend_from_slice(&[0u8; 4]);
        let inner_size = inner.finish(&mut buf).expect("finish inner");
        assert_eq!(inner_size, 12);
    }
    {
        let inner = BoxWriter::open(&mut buf, fcc(b"trak"));
        buf.extend_from_slice(&[0u8; 16]);
        let inner_size = inner.finish(&mut buf).expect("finish inner");
        assert_eq!(inner_size, 24);
    }
    let outer_size = outer.finish(&mut buf).expect("finish outer");
    assert_eq!(outer_size, 8 + 12 + 24);

    // The outer header carries the total size; the inner boxes follow it.
    assert_eq!(BigEndian::read_u32(&buf[0..4]), outer_size as u32);
    assert_eq!(&buf[4..8], b"moov");
    assert_eq!(BigEndian::read_u32(&buf[8..12]), 12);
    assert_eq!(&buf[12..16], b"mvhd");
    assert_eq!(BigEndian::read_u32(&buf[20..24]), 24);
    assert_eq!(&buf[24..28], b"trak");
}

#[test]
fn finish_expecting_matching_size_succeeds() {
    let mut buf: Vec<u8> = Vec::new();
    let bw = BoxWriter::open(&mut buf, fcc(b"mdat"));
    buf.extend_from_slice(&[0u8; 16]);
    // 8 (header) + 16 (payload) = 24
    let total = bw.finish_expecting(&mut buf, 24).expect("finish");
    assert_eq!(total, 24);
}

/// A box behind other output starts where that output ends.
#[test]
fn box_leaves_earlier_output_alone() {
    let mut buf: Vec<u8> = vec![9, 8, 7];
    let bw = BoxWriter::open(&mut buf, fcc(b"free"));
    buf.push(1);
    assert_eq!(bw.finish(&mut buf).expect("finish"), 9);
    assert_eq!(buf, [9, 8, 7, 0, 0, 0, 9, b'f', b'r', b'e', b'e', 1]);
}
