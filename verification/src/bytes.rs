//! Integers in byte sequences.
//!
//! MP4 boxes and the index header are big-endian; the row tables of an index
//! are little-endian. The spec functions here give the bytes of an integer
//! and the integer at a place in a sequence of bytes.

use byteorder::{BigEndian, ByteOrder, WriteBytesExt};
use vstd::prelude::*;
use vstd::string::StringSliceAdditionalSpecFns;

verus! {

/// The big-endian `u16` at `at`.
#[verifier::opaque]
pub open spec fn be_u16_at(s: Seq<u8>, at: int) -> u16 {
    (s[at] * 0x100 + s[at + 1]) as u16
}

/// The big-endian `u32` at `at`.
#[verifier::opaque]
pub open spec fn be_u32_at(s: Seq<u8>, at: int) -> u32 {
    (s[at] * 0x100_0000 + s[at + 1] * 0x1_0000 + s[at + 2] * 0x100 + s[at + 3]) as u32
}

/// The big-endian `u64` at `at`.
pub open spec fn be_u64_at(s: Seq<u8>, at: int) -> u64 {
    (be_u32_at(s, at) * 0x1_0000_0000 + be_u32_at(s, at + 4)) as u64
}

/// The four big-endian bytes of `v`.
#[verifier::opaque]
pub open spec fn be32(v: u32) -> Seq<u8> {
    seq![
        (v / 0x100_0000) as u8,
        (v / 0x1_0000 % 0x100) as u8,
        (v / 0x100 % 0x100) as u8,
        (v % 0x100) as u8,
    ]
}

/// The eight big-endian bytes of `v`.
pub open spec fn be64(v: u64) -> Seq<u8> {
    be32((v / 0x1_0000_0000) as u32) + be32((v % 0x1_0000_0000) as u32)
}

/// The little-endian `u32` at `at`.
#[verifier::opaque]
pub open spec fn le_u32_at(s: Seq<u8>, at: int) -> u32 {
    (s[at] + s[at + 1] * 0x100 + s[at + 2] * 0x1_0000 + s[at + 3] * 0x100_0000) as u32
}

/// The little-endian `u64` at `at`.
pub open spec fn le_u64_at(s: Seq<u8>, at: int) -> u64 {
    (le_u32_at(s, at) + le_u32_at(s, at + 4) * 0x1_0000_0000) as u64
}

/// The four little-endian bytes of `v`.
#[verifier::opaque]
pub open spec fn le32(v: u32) -> Seq<u8> {
    seq![
        (v % 0x100) as u8,
        (v / 0x100 % 0x100) as u8,
        (v / 0x1_0000 % 0x100) as u8,
        (v / 0x100_0000) as u8,
    ]
}

/// The eight little-endian bytes of `v`.
pub open spec fn le64(v: u64) -> Seq<u8> {
    le32((v % 0x1_0000_0000) as u32) + le32((v / 0x1_0000_0000) as u32)
}

/// The two's-complement pattern of `v`.
pub open spec fn i32_pattern(v: i32) -> u32 {
    if v >= 0 {
        v as u32
    } else {
        (v + 0x1_0000_0000) as u32
    }
}

/// The signed number whose two's-complement pattern is `v`.
pub open spec fn pattern_i32(v: u32) -> i32 {
    if v < 0x8000_0000 {
        v as i32
    } else {
        (v - 0x1_0000_0000) as i32
    }
}

/// `be32` gives four bytes, from which the number can be read back.
pub broadcast proof fn lemma_be32(v: u32)
    ensures
        #[trigger] be32(v).len() == 4,
        be_u32_at(be32(v), 0) == v,
{
    reveal(be32);
    reveal(be_u32_at);
}

/// `le32` gives four bytes, from which the number can be read back.
pub broadcast proof fn lemma_le32(v: u32)
    ensures
        #[trigger] le32(v).len() == 4,
        le_u32_at(le32(v), 0) == v,
{
    reveal(le32);
    reveal(le_u32_at);
}

pub broadcast group group_bytes {
    lemma_be32,
    lemma_le32,
}

/// `be64` gives eight bytes, from which the number can be read back.
pub proof fn lemma_be64(v: u64)
    ensures
        be64(v).len() == 8,
        be_u64_at(be64(v), 0) == v,
{
    broadcast use group_bytes;

    let hi = (v / 0x1_0000_0000) as u32;
    let lo = (v % 0x1_0000_0000) as u32;
    lemma_be_u32_within(be64(v), 0, be32(hi), 0);
    lemma_be_u32_within(be64(v), 4, be32(lo), 0);
}

/// `le64` gives eight bytes, from which the number can be read back.
pub proof fn lemma_le64(v: u64)
    ensures
        le64(v).len() == 8,
        le_u64_at(le64(v), 0) == v,
{
    broadcast use group_bytes;

    let hi = (v / 0x1_0000_0000) as u32;
    let lo = (v % 0x1_0000_0000) as u32;
    lemma_le_u32_within(le64(v), 0, le32(lo), 0);
    lemma_le_u32_within(le64(v), 4, le32(hi), 0);
}

/// A big-endian `u32` is read from its four bytes alone.
pub proof fn lemma_be_u32_within(s: Seq<u8>, at: int, t: Seq<u8>, t_at: int)
    requires
        s[at] == t[t_at],
        s[at + 1] == t[t_at + 1],
        s[at + 2] == t[t_at + 2],
        s[at + 3] == t[t_at + 3],
    ensures
        be_u32_at(s, at) == be_u32_at(t, t_at),
{
    reveal(be_u32_at);
}

/// A little-endian `u32` is read from its four bytes alone.
pub proof fn lemma_le_u32_within(s: Seq<u8>, at: int, t: Seq<u8>, t_at: int)
    requires
        s[at] == t[t_at],
        s[at + 1] == t[t_at + 1],
        s[at + 2] == t[t_at + 2],
        s[at + 3] == t[t_at + 3],
    ensures
        le_u32_at(s, at) == le_u32_at(t, t_at),
{
    reveal(le_u32_at);
}

/// A big-endian `u32` between other bytes reads back.
pub proof fn lemma_be32_between(s: Seq<u8>, pre: Seq<u8>, v: u32, post: Seq<u8>)
    requires
        s == pre + be32(v) + post,
    ensures
        be_u32_at(s, pre.len() as int) == v,
{
    broadcast use group_bytes;

    lemma_be_u32_within(s, pre.len() as int, be32(v), 0);
}

/// A big-endian `u64` between other bytes reads back.
pub proof fn lemma_be64_between(s: Seq<u8>, pre: Seq<u8>, v: u64, post: Seq<u8>)
    requires
        s == pre + be64(v) + post,
    ensures
        be_u64_at(s, pre.len() as int) == v,
{
    broadcast use group_bytes;

    lemma_be64(v);
    lemma_be_u32_within(s, pre.len() as int, be64(v), 0);
    lemma_be_u32_within(s, pre.len() as int + 4, be64(v), 4);
}

/// A little-endian `u32` between other bytes reads back.
pub proof fn lemma_le32_between(s: Seq<u8>, pre: Seq<u8>, v: u32, post: Seq<u8>)
    requires
        s == pre + le32(v) + post,
    ensures
        le_u32_at(s, pre.len() as int) == v,
{
    broadcast use group_bytes;

    lemma_le_u32_within(s, pre.len() as int, le32(v), 0);
}

/// A little-endian `u64` between other bytes reads back.
pub proof fn lemma_le64_between(s: Seq<u8>, pre: Seq<u8>, v: u64, post: Seq<u8>)
    requires
        s == pre + le64(v) + post,
    ensures
        le_u64_at(s, pre.len() as int) == v,
{
    broadcast use group_bytes;

    lemma_le64(v);
    lemma_le_u32_within(s, pre.len() as int, le64(v), 0);
    lemma_le_u32_within(s, pre.len() as int + 4, le64(v), 4);
}

/// The bit patterns of signed numbers can be turned back.
pub proof fn lemma_i32_pattern(v: i32)
    ensures
        pattern_i32(i32_pattern(v)) == v,
{
}

/// Calls `byteorder::BigEndian::read_u16`, which panics on fewer than two
/// bytes and otherwise returns the big-endian number in the first two.
#[verifier::external_body]
fn read_u16(buf: &[u8]) -> (r: u16)
    requires
        buf@.len() >= 2,
    ensures
        r == be_u16_at(buf@, 0),
{
    BigEndian::read_u16(buf)
}

/// Calls `byteorder::BigEndian::read_u32`, which panics on fewer than four
/// bytes and otherwise returns the big-endian number in the first four.
#[verifier::external_body]
fn read_u32(buf: &[u8]) -> (r: u32)
    requires
        buf@.len() >= 4,
    ensures
        r == be_u32_at(buf@, 0),
{
    BigEndian::read_u32(buf)
}

/// Calls `byteorder::BigEndian::read_u64`, which panics on fewer than eight
/// bytes and otherwise returns the big-endian number in the first eight.
#[verifier::external_body]
fn read_u64(buf: &[u8]) -> (r: u64)
    requires
        buf@.len() >= 8,
    ensures
        r == be_u64_at(buf@, 0),
{
    BigEndian::read_u64(buf)
}

/// Calls `byteorder::WriteBytesExt::write_u32` with `BigEndian` on a vector:
/// the four big-endian bytes of `v` are appended. Writing to a vector does
/// not fail.
#[verifier::external_body]
pub(crate) fn push_u32(out: &mut Vec<u8>, v: u32)
    ensures
        final(out)@ == old(out)@ + be32(v),
{
    let _ = out.write_u32::<BigEndian>(v);
}

/// Calls `byteorder::WriteBytesExt::write_u64` with `BigEndian` on a vector:
/// the eight big-endian bytes of `v` are appended. Writing to a vector does
/// not fail.
#[verifier::external_body]
pub(crate) fn push_u64(out: &mut Vec<u8>, v: u64)
    ensures
        final(out)@ == old(out)@ + be64(v),
{
    let _ = out.write_u64::<BigEndian>(v);
}

/// `s` with the bytes from `at` on replaced by `t`.
pub open spec fn splice(s: Seq<u8>, at: int, t: Seq<u8>) -> Seq<u8> {
    s.subrange(0, at) + t + s.subrange(at + t.len(), s.len() as int)
}

/// Calls `byteorder::BigEndian::write_u32` on the bytes of `out` from `at` on,
/// which panics on fewer than four of them: the first four become the
/// big-endian bytes of `v`, and no other byte changes.
#[verifier::external_body]
pub(crate) fn patch_u32(out: &mut Vec<u8>, at: usize, v: u32)
    requires
        at + 4 <= old(out)@.len(),
    ensures
        final(out)@ == splice(old(out)@, at as int, be32(v)),
{
    BigEndian::write_u32(&mut out[at..], v);
}

/// The big-endian `u16` at `at`.
pub(crate) fn u16_at(buf: &[u8], at: usize) -> (r: u16)
    requires
        at + 2 <= buf.len(),
    ensures
        r == be_u16_at(buf@, at as int),
{
    reveal(be_u16_at);
    read_u16(&buf[at..at + 2])
}

/// The big-endian `u32` at `at`.
pub(crate) fn u32_at(buf: &[u8], at: usize) -> (r: u32)
    requires
        at + 4 <= buf.len(),
    ensures
        r == be_u32_at(buf@, at as int),
{
    reveal(be_u32_at);
    read_u32(&buf[at..at + 4])
}

/// The big-endian `u64` at `at`.
pub(crate) fn u64_at(buf: &[u8], at: usize) -> (r: u64)
    requires
        at + 8 <= buf.len(),
    ensures
        r == be_u64_at(buf@, at as int),
{
    reveal(be_u32_at);
    read_u64(&buf[at..at + 8])
}

/// The little-endian `u32` at `at`.
pub(crate) fn le_u32(buf: &[u8], at: usize) -> (r: u32)
    requires
        at + 4 <= buf.len(),
    ensures
        r == le_u32_at(buf@, at as int),
{
    reveal(le_u32_at);
    buf[at] as u32 + buf[at + 1] as u32 * 0x100 + buf[at + 2] as u32 * 0x1_0000 + buf[at
        + 3] as u32 * 0x100_0000
}

/// The little-endian `u64` at `at`.
pub(crate) fn le_u64(buf: &[u8], at: usize) -> (r: u64)
    requires
        at + 8 <= buf.len(),
    ensures
        r == le_u64_at(buf@, at as int),
{
    le_u32(buf, at) as u64 + le_u32(buf, at + 4) as u64 * 0x1_0000_0000
}

/// Appends the little-endian bytes of `v`.
pub(crate) fn push_le_u32(out: &mut Vec<u8>, v: u32)
    ensures
        final(out)@ == old(out)@ + le32(v),
{
    out.push((v % 0x100) as u8);
    out.push((v / 0x100 % 0x100) as u8);
    out.push((v / 0x1_0000 % 0x100) as u8);
    out.push((v / 0x100_0000) as u8);
    proof {
        reveal(le32);
        assert(out@ =~= old(out)@ + le32(v));
    }
}

/// Appends the little-endian bytes of `v`.
pub(crate) fn push_le_u64(out: &mut Vec<u8>, v: u64)
    ensures
        final(out)@ == old(out)@ + le64(v),
{
    push_le_u32(out, (v % 0x1_0000_0000) as u32);
    push_le_u32(out, (v / 0x1_0000_0000) as u32);
    proof {
        assert(out@ =~= old(out)@ + le64(v));
    }
}

/// The two's-complement pattern of `v`.
pub(crate) fn i32_to_pattern(v: i32) -> (r: u32)
    ensures
        r == i32_pattern(v),
{
    if v >= 0 {
        v as u32
    } else {
        (v as i64 + 0x1_0000_0000) as u32
    }
}

/// The signed number with the two's-complement pattern `v`.
pub(crate) fn pattern_to_i32(v: u32) -> (r: i32)
    ensures
        r == pattern_i32(v),
{
    if v < 0x8000_0000 {
        v as i32
    } else {
        (v as i64 - 0x1_0000_0000) as i32
    }
}

/// Appends `data`.
pub(crate) fn push_bytes(out: &mut Vec<u8>, data: &[u8])
    ensures
        final(out)@ == old(out)@ + data@,
{
    out.extend_from_slice(data);
    assert(out@ =~= old(out)@ + data@);
}

/// `len` zero bytes.
pub(crate) fn zeros(len: usize) -> (r: Vec<u8>)
    ensures
        r@ == Seq::new(len as nat, |i: int| 0u8),
{
    let r: Vec<u8> = vec![0u8; len];
    assert(r@ =~= Seq::new(len as nat, |i: int| 0u8));
    r
}

/// The bytes of ASCII text.
pub open spec fn ascii(text: Seq<char>) -> Seq<u8> {
    Seq::new(text.len(), |i: int| text[i] as u8)
}

/// Appends ASCII text.
pub(crate) fn push_text(out: &mut Vec<u8>, text: &str)
    requires
        vstd::string::is_ascii(text),
    ensures
        final(out)@ == old(out)@ + ascii(text@),
{
    broadcast use vstd::string::is_ascii_spec_bytes;

    push_bytes(out, text.as_bytes());
    assert(text.spec_bytes() =~= ascii(text@));
}

/// The four big-endian bytes of `v`.
pub(crate) fn be_bytes(v: u32) -> (r: [u8; 4])
    ensures
        r@ == be32(v),
{
    reveal(be32);
    let r: [u8; 4] = [
        (v / 0x100_0000) as u8,
        (v / 0x1_0000 % 0x100) as u8,
        (v / 0x100 % 0x100) as u8,
        (v % 0x100) as u8,
    ];
    assert(r@ =~= be32(v));
    r
}

} // verus!
