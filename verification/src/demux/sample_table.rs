//! Sample-table walker.
//!
//! Combines the sample tables that the `moov` parser located into one row per
//! sample. Each row carries everything the segment splitter and the fMP4
//! writer need: offset, size, DTS delta, composition offset and sync flag.
//!
//! Tables are loaded in full before walking. Reading them
//! ([`read_tables`]) and combining them ([`assemble`]) are separate steps; the
//! second is a function of the tables alone.

use vstd::prelude::*;

use crate::bytes::{be_u32_at, be_u64_at, pattern_i32, pattern_to_i32, u32_at, u64_at};
use crate::demux::moov::{ByteRange, ChunkOffsets, SampleTableLocs};
use crate::demux::reader::{bytes_at, malformed, read_exact};
use crate::error::{settles, PackagerError};
use crate::read_at::ReadAt;

verus! {

/// One sample of a track.
#[derive(Debug, Clone, Copy, PartialEq, Eq, Structural)]
pub struct RawSampleEntry {
    pub offset: u64,
    pub size: u32,
    pub dts_delta: u32,
    pub cts_offset: i32,
    pub is_sync: bool,
}

/// Walker output. `stss_absent` says that every sample was treated as a sync
/// sample because the input had no `stss`.
#[derive(Debug)]
pub struct WalkedSamples {
    pub samples: Vec<RawSampleEntry>,
    pub stss_absent: bool,
}

/// The sample tables of one track, decoded.
#[derive(Debug)]
pub struct SampleTables {
    pub sizes: Vec<u32>,
    pub stts: Vec<(u32, u32)>,
    pub stsc: Vec<(u32, u32, u32)>,
    pub chunk_offsets: Vec<u64>,
    pub stss: Option<Vec<u32>>,
    pub ctts: Option<Vec<(u32, i32)>>,
}

/// The sample tables of one track, as sequences.
pub ghost struct TablesModel {
    pub sizes: Seq<u32>,
    pub stts: Seq<(u32, u32)>,
    pub stsc: Seq<(u32, u32, u32)>,
    pub chunk_offsets: Seq<u64>,
    pub stss: Option<Seq<u32>>,
    pub ctts: Option<Seq<(u32, i32)>>,
}

/// The elements of an optional vector.
pub open spec fn opt_seq<T>(v: Option<Vec<T>>) -> Option<Seq<T>> {
    match v {
        Some(v) => Some(v@),
        None => None,
    }
}

/// The elements of a vector that a function returned.
pub open spec fn ok_seq<T>(r: Result<Vec<T>, PackagerError>) -> Result<Seq<T>, PackagerError> {
    match r {
        Ok(v) => Ok(v@),
        Err(e) => Err(e),
    }
}

impl View for SampleTables {
    type V = TablesModel;

    open spec fn view(&self) -> TablesModel {
        TablesModel {
            sizes: self.sizes@,
            stts: self.stts@,
            stsc: self.stsc@,
            chunk_offsets: self.chunk_offsets@,
            stss: opt_seq(self.stss),
            ctts: opt_seq(self.ctts),
        }
    }
}

/// The error for a table that could not be held in memory.
pub open spec fn allocation_refused<T>() -> Result<T, PackagerError> {
    malformed("<sample-table>", "sample-table payload too large to allocate")
}

/// Whether `r` is `expected`, or the byte source failed on the way, or the
/// allocator refused to hold a table. It can refuse only where it was `asked`.
pub open spec fn loads<T>(
    r: Result<T, PackagerError>,
    expected: Result<T, PackagerError>,
    asked: bool,
    reliable: bool,
) -> bool {
    settles(r, expected, reliable) || (asked && r == allocation_refused::<T>())
}

/// How many bytes a table takes in memory. It must hold its header.
pub open spec fn table_len(range: ByteRange, min_len: int) -> Result<usize, PackagerError> {
    if range.len > usize::MAX {
        malformed("<sample-table>", "payload length does not fit usize")
    } else if range.len < min_len {
        malformed("<sample-table>", "payload shorter than minimum full-box header")
    } else {
        Ok(range.len as usize)
    }
}

/// The payload of a table.
pub open spec fn table_payload(src: Seq<u8>, range: ByteRange, min_len: int) -> Result<
    Seq<u8>,
    PackagerError,
> {
    match table_len(range, min_len) {
        Err(e) => Err(e),
        Ok(len) => bytes_at(src, range.offset as int, len as int),
    }
}

/// How one entry of a table is read, given the version of the table.
pub type EntryRule<T> = spec_fn(u8, Seq<u8>) -> Result<T, PackagerError>;

/// The first `n` entries of a table, up to the first that cannot be read.
pub open spec fn entries<T>(payload: Seq<u8>, width: int, rule: EntryRule<T>, n: nat) -> Result<
    Seq<T>,
    PackagerError,
>
    decreases n,
{
    if n == 0 {
        Ok(Seq::empty())
    } else {
        match entries(payload, width, rule, (n - 1) as nat) {
            Err(e) => Err(e),
            Ok(before) => match rule(
                payload[0],
                payload.subrange(8 + (n - 1) * width, 8 + (n - 1) * width + width),
            ) {
                Err(e) => Err(e),
                Ok(entry) => Ok(before.push(entry)),
            },
        }
    }
}

/// A table of `[version+flags(4) | entry_count(4) | entries...]` in which
/// every entry takes `width` bytes.
pub open spec fn full_box_table<T>(
    payload: Seq<u8>,
    atom: &'static str,
    max_version: u8,
    width: int,
    rule: EntryRule<T>,
) -> Result<Seq<T>, PackagerError> {
    let count = be_u32_at(payload, 4);
    if payload[0] > max_version {
        malformed(atom, "unsupported full-box version")
    } else if count * width > usize::MAX {
        malformed(atom, "entry table size overflows usize")
    } else if payload.len() - 8 != count * width {
        malformed(atom, "entry table size disagrees with entry_count")
    } else {
        entries(payload, width, rule, count as nat)
    }
}

/// Sample sizes: either one size for all samples, or one entry per sample.
pub open spec fn stsz_sizes(payload: Seq<u8>) -> Result<Seq<u32>, PackagerError> {
    let sample_size = be_u32_at(payload, 4);
    let count = be_u32_at(payload, 8);
    if payload[0] > 0 {
        malformed("stsz", "unsupported full-box version")
    } else if sample_size != 0 {
        if payload.len() > 12 {
            malformed("stsz", "constant sample_size has trailing per-sample entries")
        } else {
            Ok(Seq::new(count as nat, |i: int| sample_size))
        }
    } else if count * 4 > usize::MAX {
        malformed("stsz", "entry table size overflows usize")
    } else if payload.len() - 12 != count * 4 {
        malformed("stsz", "entry table size disagrees with sample_count")
    } else {
        Ok(Seq::new(count as nat, |i: int| be_u32_at(payload, 12 + 4 * i)))
    }
}

/// A time-to-sample run: sample count and DTS delta.
pub open spec fn stts_rule() -> EntryRule<(u32, u32)> {
    |version: u8, c: Seq<u8>| Ok((be_u32_at(c, 0), be_u32_at(c, 4)))
}

/// A composition-offset run. Version 0 offsets are unsigned and must fit in
/// `i32`; later versions are signed.
pub open spec fn ctts_rule() -> EntryRule<(u32, i32)> {
    |version: u8, c: Seq<u8>|
        if version == 0 && be_u32_at(c, 4) > i32::MAX {
            malformed("ctts", "version 0 sample_offset exceeds i32 range")
        } else {
            Ok((be_u32_at(c, 0), pattern_i32(be_u32_at(c, 4))))
        }
}

/// A sync-sample number.
pub open spec fn stss_rule() -> EntryRule<u32> {
    |version: u8, c: Seq<u8>| Ok(be_u32_at(c, 0))
}

/// A sample-to-chunk entry. There is a single sample description, so every
/// entry must refer to it.
pub open spec fn stsc_rule() -> EntryRule<(u32, u32, u32)> {
    |version: u8, c: Seq<u8>|
        if be_u32_at(c, 8) != 1 {
            malformed("stsc", "sample_description_index must be 1")
        } else {
            Ok((be_u32_at(c, 0), be_u32_at(c, 4), be_u32_at(c, 8)))
        }
}

/// A 32-bit chunk offset.
pub open spec fn stco_rule() -> EntryRule<u64> {
    |version: u8, c: Seq<u8>| Ok(be_u32_at(c, 0) as u64)
}

/// A 64-bit chunk offset.
pub open spec fn co64_rule() -> EntryRule<u64> {
    |version: u8, c: Seq<u8>| Ok(be_u64_at(c, 0))
}

/// A table of the source.
pub open spec fn source_table<T>(
    src: Seq<u8>,
    range: ByteRange,
    atom: &'static str,
    max_version: u8,
    width: int,
    rule: EntryRule<T>,
) -> Result<Seq<T>, PackagerError> {
    match table_payload(src, range, 8) {
        Err(e) => Err(e),
        Ok(payload) => full_box_table(payload, atom, max_version, width, rule),
    }
}

/// The sample sizes of a track.
pub open spec fn source_sizes(src: Seq<u8>, range: ByteRange) -> Result<Seq<u32>, PackagerError> {
    match table_payload(src, range, 12) {
        Err(e) => Err(e),
        Ok(payload) => stsz_sizes(payload),
    }
}

/// The chunk offsets of a track.
pub open spec fn source_chunk_offsets(src: Seq<u8>, co: ChunkOffsets) -> Result<
    Seq<u64>,
    PackagerError,
> {
    match co {
        ChunkOffsets::Stco(range) => source_table(src, range, "stco", 0, 4, stco_rule()),
        ChunkOffsets::Co64(range) => source_table(src, range, "co64", 0, 8, co64_rule()),
    }
}

/// An optional table, read where it is present.
pub open spec fn optional_table<T>(
    src: Seq<u8>,
    range: Option<ByteRange>,
    atom: &'static str,
    max_version: u8,
    width: int,
    rule: EntryRule<T>,
) -> Result<Option<Seq<T>>, PackagerError> {
    match range {
        None => Ok(None),
        Some(range) => match source_table(src, range, atom, max_version, width, rule) {
            Err(e) => Err(e),
            Ok(t) => Ok(Some(t)),
        },
    }
}

/// All sample tables of a track. They are read in the order `stsz`, `stts`,
/// `stsc`, chunk offsets, `stss`, `ctts`; the first that cannot be read
/// decides the error.
pub open spec fn tables(src: Seq<u8>, locs: SampleTableLocs) -> Result<TablesModel, PackagerError> {
    match source_sizes(src, locs.stsz) {
        Err(e) => Err(e),
        Ok(sizes) => match source_table(src, locs.stts, "stts", 0, 8, stts_rule()) {
            Err(e) => Err(e),
            Ok(stts) => match source_table(src, locs.stsc, "stsc", 0, 12, stsc_rule()) {
                Err(e) => Err(e),
                Ok(stsc) => match source_chunk_offsets(src, locs.chunk_offsets) {
                    Err(e) => Err(e),
                    Ok(chunk_offsets) => match optional_table(
                        src,
                        locs.stss,
                        "stss",
                        0,
                        4,
                        stss_rule(),
                    ) {
                        Err(e) => Err(e),
                        Ok(stss) => match optional_table(
                            src,
                            locs.ctts,
                            "ctts",
                            1,
                            8,
                            ctts_rule(),
                        ) {
                            Err(e) => Err(e),
                            Ok(ctts) => Ok(
                                TablesModel { sizes, stts, stsc, chunk_offsets, stss, ctts },
                            ),
                        },
                    },
                },
            },
        },
    }
}

/// Whether memory is asked for while the tables of a track are read. `stsz`
/// comes first: unless it has a length that it can be read at, no memory is
/// asked for at all.
pub open spec fn asks_memory(locs: SampleTableLocs) -> bool {
    table_len(locs.stsz, 12) is Ok
}

/// The payload of a table, where `granted` says whether the allocator has
/// given the memory for it.
pub open spec fn payload_given(
    src: Seq<u8>,
    range: ByteRange,
    min_len: int,
    granted: bool,
) -> Result<Seq<u8>, PackagerError> {
    match table_len(range, min_len) {
        Ok(_) if !granted => allocation_refused(),
        _ => table_payload(src, range, min_len),
    }
}

/// The number of bytes to ask the allocator for, to hold a table.
pub fn payload_len(range: ByteRange, min_len: usize) -> (r: Result<usize, PackagerError>)
    ensures
        r == table_len(range, min_len as int),
{
    if range.len > usize::MAX as u64 {
        return Err(
            PackagerError::MalformedAtom {
                atom: "<sample-table>",
                reason: "payload length does not fit usize",
            },
        );
    }
    let len: usize = range.len as usize;
    if len < min_len {
        return Err(
            PackagerError::MalformedAtom {
                atom: "<sample-table>",
                reason: "payload shorter than minimum full-box header",
            },
        );
    }
    Ok(len)
}

/// The room for a table, given the allocator's answer to a request for `len`
/// bytes: `len` zero bytes exactly where it was granted.
pub fn payload_room(empty: Vec<u8>, len: usize, granted: bool) -> (r: Option<Vec<u8>>)
    requires
        empty@.len() == 0,
    ensures
        r is Some <==> granted,
        r matches Some(buf) ==> buf@ == Seq::new(len as nat, |i: int| 0u8),
{
    if !granted {
        return None;
    }
    let mut buf: Vec<u8> = empty;
    buf.resize(len, 0);
    assert(buf@ =~= Seq::new(len as nat, |i: int| 0u8));
    Some(buf)
}

/// Reads the payload of a table into `room`, the memory that the allocator
/// gave for it.
pub fn read_payload_into<R: ReadAt + ?Sized>(
    reader: &R,
    range: ByteRange,
    min_len: usize,
    room: Option<Vec<u8>>,
) -> (r: Result<Vec<u8>, PackagerError>)
    requires
        range.wf(),
        min_len > 0,
        room matches Some(buf) ==> buf@.len() == range.len,
    ensures
        settles(
            ok_seq(r),
            payload_given(reader.content(), range, min_len as int, room is Some),
            reader.reliable(),
        ),
        r matches Ok(payload) ==> payload@.len() >= min_len,
{
    payload_len(range, min_len)?;
    match room {
        None => Err(
            PackagerError::MalformedAtom {
                atom: "<sample-table>",
                reason: "sample-table payload too large to allocate",
            },
        ),
        Some(mut buf) => {
            read_exact(reader, range.offset, buf.as_mut_slice())?;
            Ok(buf)
        },
    }
}

/// Reads the payload of a table into memory. The allocator is asked for
/// [`payload_len`] bytes; whether it gives them is its own to decide, and what
/// follows from its answer is [`payload_room`] and [`read_payload_into`].
pub fn read_payload<R: ReadAt + ?Sized>(reader: &R, range: ByteRange, min_len: usize) -> (r: Result<
    Vec<u8>,
    PackagerError,
>)
    requires
        range.wf(),
        min_len > 0,
    ensures
        exists|granted: bool|
            settles(
                ok_seq(r),
                #[trigger] payload_given(reader.content(), range, min_len as int, granted),
                reader.reliable(),
            ),
        r matches Ok(payload) ==> payload@.len() >= min_len,
{
    let len: usize = match payload_len(range, min_len) {
        Ok(len) => len,
        Err(e) => {
            assert(payload_given(reader.content(), range, min_len as int, true) == Err::<
                Seq<u8>,
                _,
            >(e));
            return Err(e);
        },
    };
    let mut buf: Vec<u8> = Vec::new();
    let granted = buf.try_reserve(len).is_ok();
    let room: Option<Vec<u8>> = payload_room(buf, len, granted);
    read_payload_into(reader, range, min_len, room)
}

/// Reads a table of fixed-size entries out of a payload.
fn parse_full_box_table<T, F: Fn(u8, &[u8]) -> Result<T, PackagerError>>(
    payload: &[u8],
    atom: &'static str,
    max_version: u8,
    width: usize,
    parse_entry: F,
    Ghost(rule): Ghost<EntryRule<T>>,
) -> (r: Result<Vec<T>, PackagerError>)
    requires
        payload@.len() >= 8,
        0 < width <= 12,
        forall|version: u8, c: &[u8]| c@.len() == width ==> parse_entry.requires((version, c)),
        forall|version: u8, c: &[u8], entry: Result<T, PackagerError>|
            parse_entry.ensures((version, c), entry) ==> entry == rule(version, c@),
    ensures
        ok_seq(r) == full_box_table(payload@, atom, max_version, width as int, rule),
{
    let version: u8 = payload[0];
    if version > max_version {
        return Err(PackagerError::MalformedAtom { atom, reason: "unsupported full-box version" });
    }
    let count: usize = u32_at(payload, 4) as usize;
    let size: usize = match count.checked_mul(width) {
        Some(size) => size,
        None => {
            return Err(
                PackagerError::MalformedAtom { atom, reason: "entry table size overflows usize" },
            );
        },
    };
    if payload.len() - 8 != size {
        return Err(
            PackagerError::MalformedAtom {
                atom,
                reason: "entry table size disagrees with entry_count",
            },
        );
    }
    let mut out: Vec<T> = Vec::with_capacity(count);
    let mut i: usize = 0;
    let mut at: usize = 8;
    while i < count
        invariant
            0 <= i <= count,
            0 < width,
            at == 8 + i * width,
            payload@.len() == 8 + count * width,
            payload@.len() <= usize::MAX,
            version == payload@[0],
            count == be_u32_at(payload@, 4),
            version <= max_version,
            count * width <= usize::MAX,
            forall|version: u8, c: &[u8]| c@.len() == width ==> parse_entry.requires((version, c)),
            forall|version: u8, c: &[u8], entry: Result<T, PackagerError>|
                parse_entry.ensures((version, c), entry) ==> entry == rule(version, c@),
            entries(payload@, width as int, rule, i as nat) == Ok::<_, PackagerError>(out@),
        decreases count - i,
    {
        assert(i * width + width <= count * width) by (nonlinear_arith)
            requires
                i < count,
        ;
        let chunk: &[u8] = &payload[at..at + width];
        match parse_entry(version, chunk) {
            Ok(entry) => out.push(entry),
            Err(e) => {
                proof {
                    lemma_entries_fail(payload@, width as int, rule, i as nat + 1, count as nat);
                }
                return Err(e);
            },
        }
        assert((i + 1) * width == i * width + width) by (nonlinear_arith);
        at += width;
        i += 1;
    }
    Ok(out)
}

/// An entry that cannot be read makes every longer table fail the same way.
proof fn lemma_entries_fail<T>(payload: Seq<u8>, width: int, rule: EntryRule<T>, n: nat, m: nat)
    requires
        n <= m,
        entries(payload, width, rule, n) is Err,
    ensures
        entries(payload, width, rule, m) == entries(payload, width, rule, n),
    decreases m,
{
    if n < m {
        lemma_entries_fail(payload, width, rule, n, (m - 1) as nat);
    }
}

/// Decodes the payload of a `stsz` box.
pub fn parse_stsz(payload: &[u8]) -> (r: Result<Vec<u32>, PackagerError>)
    requires
        payload@.len() >= 12,
    ensures
        ok_seq(r) == stsz_sizes(payload@),
{
    if payload[0] > 0 {
        return Err(
            PackagerError::MalformedAtom { atom: "stsz", reason: "unsupported full-box version" },
        );
    }
    let sample_size: u32 = u32_at(payload, 4);
    let count: usize = u32_at(payload, 8) as usize;
    if sample_size != 0 {
        if payload.len() > 12 {
            return Err(
                PackagerError::MalformedAtom {
                    atom: "stsz",
                    reason: "constant sample_size has trailing per-sample entries",
                },
            );
        }
        let out: Vec<u32> = vec![sample_size; count];
        assert(out@ =~= Seq::new(count as nat, |i: int| sample_size));
        return Ok(out);
    }
    let size: usize = match count.checked_mul(4) {
        Some(size) => size,
        None => {
            return Err(
                PackagerError::MalformedAtom {
                    atom: "stsz",
                    reason: "entry table size overflows usize",
                },
            );
        },
    };
    if payload.len() - 12 != size {
        return Err(
            PackagerError::MalformedAtom {
                atom: "stsz",
                reason: "entry table size disagrees with sample_count",
            },
        );
    }
    let mut out: Vec<u32> = Vec::with_capacity(count);
    let mut i: usize = 0;
    while i < count
        invariant
            0 <= i <= count,
            payload.len() == 12 + count * 4,
            out@ =~= Seq::new(i as nat, |k: int| be_u32_at(payload@, 12 + 4 * k)),
        decreases count - i,
    {
        out.push(u32_at(payload, 12 + 4 * i));
        i += 1;
    }
    Ok(out)
}

/// Decodes the payload of a `stts` box.
pub fn parse_stts(payload: &[u8]) -> (r: Result<Vec<(u32, u32)>, PackagerError>)
    requires
        payload@.len() >= 8,
    ensures
        ok_seq(r) == full_box_table(payload@, "stts", 0, 8, stts_rule()),
{
    let parse_entry = |_version: u8, c: &[u8]| -> (entry: Result<(u32, u32), PackagerError>)
        requires
            c@.len() == 8,
        ensures
            entry == stts_rule()(_version, c@),
        { Ok((u32_at(c, 0), u32_at(c, 4))) };
    parse_full_box_table(payload, "stts", 0, 8, parse_entry, Ghost(stts_rule()))
}

/// Decodes the payload of a `ctts` box.
pub fn parse_ctts(payload: &[u8]) -> (r: Result<Vec<(u32, i32)>, PackagerError>)
    requires
        payload@.len() >= 8,
    ensures
        ok_seq(r) == full_box_table(payload@, "ctts", 1, 8, ctts_rule()),
{
    let parse_entry = |version: u8, c: &[u8]| -> (entry: Result<(u32, i32), PackagerError>)
        requires
            c@.len() == 8,
        ensures
            entry == ctts_rule()(version, c@),
        {
            let raw: u32 = u32_at(c, 4);
            if version == 0 && raw > i32::MAX as u32 {
                Err(
                    PackagerError::MalformedAtom {
                        atom: "ctts",
                        reason: "version 0 sample_offset exceeds i32 range",
                    },
                )
            } else {
                Ok((u32_at(c, 0), pattern_to_i32(raw)))
            }
        };
    parse_full_box_table(payload, "ctts", 1, 8, parse_entry, Ghost(ctts_rule()))
}

/// Decodes the payload of a `stss` box.
pub fn parse_stss(payload: &[u8]) -> (r: Result<Vec<u32>, PackagerError>)
    requires
        payload@.len() >= 8,
    ensures
        ok_seq(r) == full_box_table(payload@, "stss", 0, 4, stss_rule()),
{
    let parse_entry = |_version: u8, c: &[u8]| -> (entry: Result<u32, PackagerError>)
        requires
            c@.len() == 4,
        ensures
            entry == stss_rule()(_version, c@),
        { Ok(u32_at(c, 0)) };
    parse_full_box_table(payload, "stss", 0, 4, parse_entry, Ghost(stss_rule()))
}

/// Decodes the payload of a `stsc` box.
pub fn parse_stsc(payload: &[u8]) -> (r: Result<Vec<(u32, u32, u32)>, PackagerError>)
    requires
        payload@.len() >= 8,
    ensures
        ok_seq(r) == full_box_table(payload@, "stsc", 0, 12, stsc_rule()),
{
    let parse_entry = |_version: u8, c: &[u8]| -> (entry: Result<(u32, u32, u32), PackagerError>)
        requires
            c@.len() == 12,
        ensures
            entry == stsc_rule()(_version, c@),
        {
            let description: u32 = u32_at(c, 8);
            if description != 1 {
                Err(
                    PackagerError::MalformedAtom {
                        atom: "stsc",
                        reason: "sample_description_index must be 1",
                    },
                )
            } else {
                Ok((u32_at(c, 0), u32_at(c, 4), description))
            }
        };
    parse_full_box_table(payload, "stsc", 0, 12, parse_entry, Ghost(stsc_rule()))
}

/// Decodes the payload of a `stco` box.
pub fn parse_stco(payload: &[u8]) -> (r: Result<Vec<u64>, PackagerError>)
    requires
        payload@.len() >= 8,
    ensures
        ok_seq(r) == full_box_table(payload@, "stco", 0, 4, stco_rule()),
{
    let parse_entry = |_version: u8, c: &[u8]| -> (entry: Result<u64, PackagerError>)
        requires
            c@.len() == 4,
        ensures
            entry == stco_rule()(_version, c@),
        { Ok(u32_at(c, 0) as u64) };
    parse_full_box_table(payload, "stco", 0, 4, parse_entry, Ghost(stco_rule()))
}

/// Decodes the payload of a `co64` box.
pub fn parse_co64(payload: &[u8]) -> (r: Result<Vec<u64>, PackagerError>)
    requires
        payload@.len() >= 8,
    ensures
        ok_seq(r) == full_box_table(payload@, "co64", 0, 8, co64_rule()),
{
    let parse_entry = |_version: u8, c: &[u8]| -> (entry: Result<u64, PackagerError>)
        requires
            c@.len() == 8,
        ensures
            entry == co64_rule()(_version, c@),
        { Ok(u64_at(c, 0)) };
    parse_full_box_table(payload, "co64", 0, 8, parse_entry, Ghost(co64_rule()))
}

/// Reads a `stsz` table.
pub fn read_stsz<R: ReadAt + ?Sized>(reader: &R, range: ByteRange) -> (r: Result<
    Vec<u32>,
    PackagerError,
>)
    requires
        range.wf(),
    ensures
        loads(
            ok_seq(r),
            source_sizes(reader.content(), range),
            table_len(range, 12) is Ok,
            reader.reliable(),
        ),
{
    let payload: Vec<u8> = read_payload(reader, range, 12)?;
    parse_stsz(payload.as_slice())
}

/// Reads a `stts` table.
pub fn read_stts<R: ReadAt + ?Sized>(reader: &R, range: ByteRange) -> (r: Result<
    Vec<(u32, u32)>,
    PackagerError,
>)
    requires
        range.wf(),
    ensures
        loads(
            ok_seq(r),
            source_table(reader.content(), range, "stts", 0, 8, stts_rule()),
            table_len(range, 8) is Ok,
            reader.reliable(),
        ),
{
    let payload: Vec<u8> = read_payload(reader, range, 8)?;
    parse_stts(payload.as_slice())
}

/// Reads a `ctts` table.
pub fn read_ctts<R: ReadAt + ?Sized>(reader: &R, range: ByteRange) -> (r: Result<
    Vec<(u32, i32)>,
    PackagerError,
>)
    requires
        range.wf(),
    ensures
        loads(
            ok_seq(r),
            source_table(reader.content(), range, "ctts", 1, 8, ctts_rule()),
            table_len(range, 8) is Ok,
            reader.reliable(),
        ),
{
    let payload: Vec<u8> = read_payload(reader, range, 8)?;
    parse_ctts(payload.as_slice())
}

/// Reads a `stss` table.
pub fn read_stss<R: ReadAt + ?Sized>(reader: &R, range: ByteRange) -> (r: Result<
    Vec<u32>,
    PackagerError,
>)
    requires
        range.wf(),
    ensures
        loads(
            ok_seq(r),
            source_table(reader.content(), range, "stss", 0, 4, stss_rule()),
            table_len(range, 8) is Ok,
            reader.reliable(),
        ),
{
    let payload: Vec<u8> = read_payload(reader, range, 8)?;
    parse_stss(payload.as_slice())
}

/// Reads a `stsc` table.
pub fn read_stsc<R: ReadAt + ?Sized>(reader: &R, range: ByteRange) -> (r: Result<
    Vec<(u32, u32, u32)>,
    PackagerError,
>)
    requires
        range.wf(),
    ensures
        loads(
            ok_seq(r),
            source_table(reader.content(), range, "stsc", 0, 12, stsc_rule()),
            table_len(range, 8) is Ok,
            reader.reliable(),
        ),
{
    let payload: Vec<u8> = read_payload(reader, range, 8)?;
    parse_stsc(payload.as_slice())
}

/// Reads a chunk-offset table.
pub fn read_chunk_offsets<R: ReadAt + ?Sized>(reader: &R, co: ChunkOffsets) -> (r: Result<
    Vec<u64>,
    PackagerError,
>)
    requires
        match co {
            ChunkOffsets::Stco(range) => range.wf(),
            ChunkOffsets::Co64(range) => range.wf(),
        },
    ensures
        loads(
            ok_seq(r),
            source_chunk_offsets(reader.content(), co),
            match co {
                ChunkOffsets::Stco(range) => table_len(range, 8) is Ok,
                ChunkOffsets::Co64(range) => table_len(range, 8) is Ok,
            },
            reader.reliable(),
        ),
{
    match co {
        ChunkOffsets::Stco(range) => {
            let payload: Vec<u8> = read_payload(reader, range, 8)?;
            parse_stco(payload.as_slice())
        },
        ChunkOffsets::Co64(range) => {
            let payload: Vec<u8> = read_payload(reader, range, 8)?;
            parse_co64(payload.as_slice())
        },
    }
}

/// The tables that a function returned, as sequences.
pub open spec fn ok_tables(r: Result<SampleTables, PackagerError>) -> Result<
    TablesModel,
    PackagerError,
> {
    match r {
        Ok(t) => Ok(t@),
        Err(e) => Err(e),
    }
}

/// Loads all sample tables of a track.
pub fn read_tables<R: ReadAt + ?Sized>(reader: &R, locs: &SampleTableLocs) -> (r: Result<
    SampleTables,
    PackagerError,
>)
    requires
        locs.wf(),
    ensures
        loads(
            ok_tables(r),
            tables(reader.content(), *locs),
            asks_memory(*locs),
            reader.reliable(),
        ),
{
    let sizes: Vec<u32> = read_stsz(reader, locs.stsz)?;
    let stts: Vec<(u32, u32)> = read_stts(reader, locs.stts)?;
    let stsc: Vec<(u32, u32, u32)> = read_stsc(reader, locs.stsc)?;
    let chunk_offsets: Vec<u64> = read_chunk_offsets(reader, locs.chunk_offsets)?;
    let stss: Option<Vec<u32>> = match locs.stss {
        None => None,
        Some(range) => Some(read_stss(reader, range)?),
    };
    let ctts: Option<Vec<(u32, i32)>> = match locs.ctts {
        None => None,
        Some(range) => Some(read_ctts(reader, range)?),
    };
    Ok(SampleTables { sizes, stts, stsc, chunk_offsets, stss, ctts })
}

/// Tables that contradict each other.
pub open spec fn inconsistent<T>(reason: &'static str) -> Result<T, PackagerError> {
    Err(PackagerError::SampleTableInconsistent(reason))
}

/// How many samples the runs cover.
pub open spec fn run_total<T>(runs: Seq<(u32, T)>) -> nat
    decreases runs.len(),
{
    if runs.len() == 0 {
        0
    } else {
        run_total(runs.drop_last()) + runs.last().0 as nat
    }
}

/// One value per sample: each run's value, repeated.
pub open spec fn run_values<T>(runs: Seq<(u32, T)>) -> Seq<T>
    decreases runs.len(),
{
    if runs.len() == 0 {
        Seq::empty()
    } else {
        run_values(runs.drop_last()) + Seq::new(runs.last().0 as nat, |i: int| runs.last().1)
    }
}

/// The runs must cover exactly `n` samples.
pub open spec fn expanded_runs<T>(
    runs: Seq<(u32, T)>,
    n: nat,
    exceed: &'static str,
    disagree: &'static str,
) -> Result<Seq<T>, PackagerError> {
    if run_total(runs) > n {
        inconsistent(exceed)
    } else if run_total(runs) < n {
        inconsistent(disagree)
    } else {
        Ok(run_values(runs))
    }
}

proof fn lemma_run_values_len<T>(runs: Seq<(u32, T)>)
    ensures
        run_values(runs).len() == run_total(runs),
    decreases runs.len(),
{
    if runs.len() > 0 {
        lemma_run_values_len(runs.drop_last());
    }
}

proof fn lemma_run_total_prefix<T>(runs: Seq<(u32, T)>, k: int)
    requires
        0 <= k <= runs.len(),
    ensures
        run_total(runs.take(k)) <= run_total(runs),
    decreases runs.len() - k,
{
    if k < runs.len() {
        assert(runs.take(k + 1).drop_last() =~= runs.take(k));
        lemma_run_total_prefix(runs, k + 1);
    } else {
        assert(runs.take(k) =~= runs);
    }
}

/// Expands runs into one value per sample.
pub fn expand_run_table<T: Copy>(
    runs: &[(u32, T)],
    expected_total: usize,
    exceed: &'static str,
    disagree: &'static str,
) -> (r: Result<Vec<T>, PackagerError>)
    ensures
        ok_seq(r) == expanded_runs(runs@, expected_total as nat, exceed, disagree),
{
    let mut out: Vec<T> = Vec::with_capacity(expected_total);
    let mut i: usize = 0;
    while i < runs.len()
        invariant
            0 <= i <= runs@.len(),
            out@ == run_values(runs@.take(i as int)),
            out@.len() == run_total(runs@.take(i as int)),
            out@.len() <= expected_total,
        decreases runs@.len() - i,
    {
        let count: u32 = runs[i].0;
        let value: T = runs[i].1;
        let ghost before = out@;
        let mut j: u32 = 0;
        assert(out@ =~= before + Seq::new(j as nat, |k: int| value));
        proof {
            assert(runs@.take(i + 1).drop_last() =~= runs@.take(i as int));
            lemma_run_values_len(runs@.take(i + 1));
            lemma_run_total_prefix(runs@, i + 1);
        }
        while j < count
            invariant
                0 <= i < runs@.len(),
                0 <= j <= count,
                out@ =~= before + Seq::new(j as nat, |k: int| value),
                out@.len() <= expected_total,
                run_total(runs@.take(i + 1)) == before.len() + count,
                run_total(runs@.take(i + 1)) <= run_total(runs@),
            decreases count - j,
        {
            if out.len() == expected_total {
                return Err(PackagerError::SampleTableInconsistent(exceed));
            }
            out.push(value);
            j += 1;
        }
        assert(out@ =~= run_values(runs@.take(i + 1)));
        i += 1;
    }
    assert(runs@.take(runs@.len() as int) =~= runs@);
    if out.len() != expected_total {
        return Err(PackagerError::SampleTableInconsistent(disagree));
    }
    Ok(out)
}

/// What is wrong with entry `i` of a sample-to-chunk table: entries must
/// ascend, and each must cover at least one existing chunk.
pub open spec fn stsc_entry_fault(stsc: Seq<(u32, u32, u32)>, chunk_count: nat, i: int) -> Option<
    PackagerError,
> {
    if i + 1 < stsc.len() && stsc[i + 1].0 <= stsc[i].0 {
        Some(PackagerError::SampleTableInconsistent("stsc first_chunk not strictly ascending"))
    } else if stsc[i].0 - 1 >= chunk_count || (i + 1 < stsc.len() && stsc[i + 1].0 - 1
        > chunk_count) {
        Some(
            PackagerError::SampleTableInconsistent(
                "stsc first_chunk index out of range vs stco length",
            ),
        )
    } else {
        None
    }
}

/// What is wrong with the first `n` entries.
pub open spec fn stsc_fault(stsc: Seq<(u32, u32, u32)>, chunk_count: nat, n: nat) -> Option<
    PackagerError,
>
    decreases n,
{
    if n == 0 {
        None
    } else {
        match stsc_fault(stsc, chunk_count, (n - 1) as nat) {
            Some(e) => Some(e),
            None => stsc_entry_fault(stsc, chunk_count, n - 1),
        }
    }
}

/// The samples in chunk `chunk` (counted from 0), as the last entry that
/// starts at or before it says.
pub open spec fn chunk_samples(stsc: Seq<(u32, u32, u32)>, chunk: int) -> u32
    decreases stsc.len(),
{
    if stsc.len() == 0 {
        0
    } else if stsc.last().0 - 1 <= chunk {
        stsc.last().1
    } else {
        chunk_samples(stsc.drop_last(), chunk)
    }
}

/// The number of samples in each chunk.
pub open spec fn samples_per_chunk(stsc: Seq<(u32, u32, u32)>, chunk_count: nat) -> Result<
    Seq<u32>,
    PackagerError,
> {
    if stsc.len() == 0 {
        if chunk_count != 0 {
            inconsistent("stsc empty but stco/co64 has chunks")
        } else {
            Ok(Seq::empty())
        }
    } else if stsc[0].0 != 1 {
        inconsistent("stsc first entry does not start at chunk 1")
    } else {
        match stsc_fault(stsc, chunk_count, stsc.len()) {
            Some(e) => Err(e),
            None => Ok(Seq::new(chunk_count, |c: int| chunk_samples(stsc, c))),
        }
    }
}

proof fn lemma_stsc_fault(stsc: Seq<(u32, u32, u32)>, chunk_count: nat, n: nat, m: nat)
    requires
        n <= m,
        stsc_fault(stsc, chunk_count, n) is Some,
    ensures
        stsc_fault(stsc, chunk_count, m) == stsc_fault(stsc, chunk_count, n),
    decreases m,
{
    if n < m {
        lemma_stsc_fault(stsc, chunk_count, n, (m - 1) as nat);
    }
}

/// Expands a sample-to-chunk table into one count per chunk.
pub fn expand_stsc(stsc: &[(u32, u32, u32)], chunk_count: usize) -> (r: Result<
    Vec<u32>,
    PackagerError,
>)
    ensures
        ok_seq(r) == samples_per_chunk(stsc@, chunk_count as nat),
{
    let mut counts: Vec<u32> = vec![0u32; chunk_count];
    if stsc.len() == 0 {
        if chunk_count != 0 {
            return Err(
                PackagerError::SampleTableInconsistent("stsc empty but stco/co64 has chunks"),
            );
        }
        assert(counts@ =~= Seq::empty());
        return Ok(counts);
    }
    if stsc[0].0 != 1 {
        return Err(
            PackagerError::SampleTableInconsistent("stsc first entry does not start at chunk 1"),
        );
    }
    let mut i: usize = 0;
    while i < stsc.len()
        invariant
            0 <= i <= stsc@.len(),
            stsc@.len() > 0,
            stsc@[0].0 == 1,
            i < stsc@.len() ==> stsc@[i as int].0 >= 1,
            counts@.len() == chunk_count,
            stsc_fault(stsc@, chunk_count as nat, i as nat) is None,
            forall|c: int|
                0 <= c < chunk_count && (i < stsc@.len() ==> c < stsc@[i as int].0 - 1)
                    ==> #[trigger] counts@[c] == chunk_samples(stsc@.take(i as int), c),
        decreases stsc@.len() - i,
    {
        let first_chunk: u32 = stsc[i].0;
        let per_chunk: u32 = stsc[i].1;
        assert(stsc@.take(i + 1).drop_last() =~= stsc@.take(i as int));
        proof {
            if stsc_entry_fault(stsc@, chunk_count as nat, i as int) is Some {
                lemma_stsc_fault(stsc@, chunk_count as nat, (i + 1) as nat, stsc@.len());
            }
        }
        let to_exclusive: usize;
        if i + 1 < stsc.len() {
            let next: u32 = stsc[i + 1].0;
            if next <= first_chunk {
                return Err(
                    PackagerError::SampleTableInconsistent(
                        "stsc first_chunk not strictly ascending",
                    ),
                );
            }
            to_exclusive = (next - 1) as usize;
        } else {
            to_exclusive = chunk_count;
        }
        let from: usize = (first_chunk - 1) as usize;
        // Each entry must cover at least one chunk.
        if from >= chunk_count || to_exclusive > chunk_count {
            return Err(
                PackagerError::SampleTableInconsistent(
                    "stsc first_chunk index out of range vs stco length",
                ),
            );
        }
        let mut c: usize = from;
        while c < to_exclusive
            invariant
                0 <= i < stsc@.len(),
                from <= c <= to_exclusive || to_exclusive < from && c == from,
                to_exclusive <= chunk_count,
                counts@.len() == chunk_count,
                forall|k: int|
                    0 <= k < from ==> #[trigger] counts@[k] == chunk_samples(
                        stsc@.take(i as int),
                        k,
                    ),
                forall|k: int| from <= k < c ==> #[trigger] counts@[k] == per_chunk,
            decreases to_exclusive - c,
        {
            counts[c] = per_chunk;
            c += 1;
        }
        i += 1;
    }
    assert(stsc@.take(stsc@.len() as int) =~= stsc@);
    assert(counts@ =~= Seq::new(chunk_count as nat, |c: int| chunk_samples(stsc@, c)));
    Ok(counts)
}

/// The per-sample columns of a track.
pub ghost struct Columns {
    pub sizes: Seq<u32>,
    pub dts_deltas: Seq<u32>,
    pub cts_offsets: Seq<i32>,
    pub sync: Seq<bool>,
}

/// The bytes of the samples `[from, to)`.
pub open spec fn size_sum(sizes: Seq<u32>, from: int, to: int) -> nat
    decreases to - from,
{
    if from >= to {
        0
    } else {
        size_sum(sizes, from, to - 1) + sizes[to - 1] as nat
    }
}

/// The first `count` samples of a chunk at `offset` whose first sample has
/// number `first`. Samples of a chunk lie back to back.
pub open spec fn chunk_rows(cols: Columns, first: int, offset: int, count: nat) -> Result<
    Seq<RawSampleEntry>,
    PackagerError,
>
    decreases count,
{
    if count == 0 {
        Ok(Seq::empty())
    } else {
        match chunk_rows(cols, first, offset, (count - 1) as nat) {
            Err(e) => Err(e),
            Ok(rows) => {
                let k = first + count - 1;
                let at = offset + size_sum(cols.sizes, first, k);
                if k >= cols.sizes.len() {
                    inconsistent("stsc sample count exceeds stsz")
                } else if at + cols.sizes[k] > u64::MAX {
                    inconsistent("sample offset overflows u64")
                } else {
                    Ok(
                        rows.push(
                            RawSampleEntry {
                                offset: at as u64,
                                size: cols.sizes[k],
                                dts_delta: cols.dts_deltas[k],
                                cts_offset: cols.cts_offsets[k],
                                is_sync: cols.sync[k],
                            },
                        ),
                    )
                }
            },
        }
    }
}

/// The samples of the first `n` chunks.
pub open spec fn rows_of_chunks(
    cols: Columns,
    counts: Seq<u32>,
    chunk_offsets: Seq<u64>,
    n: nat,
) -> Result<Seq<RawSampleEntry>, PackagerError>
    decreases n,
{
    if n == 0 {
        Ok(Seq::empty())
    } else {
        match rows_of_chunks(cols, counts, chunk_offsets, (n - 1) as nat) {
            Err(e) => Err(e),
            Ok(rows) => match chunk_rows(
                cols,
                rows.len() as int,
                chunk_offsets[n - 1] as int,
                counts[n - 1] as nat,
            ) {
                Err(e) => Err(e),
                Ok(more) => Ok(rows + more),
            },
        }
    }
}

/// Composition offsets: all zero where there is no `ctts`.
pub open spec fn cts_column(ctts: Option<Seq<(u32, i32)>>, n: nat) -> Result<
    Seq<i32>,
    PackagerError,
> {
    match ctts {
        None => Ok(Seq::new(n, |i: int| 0i32)),
        Some(runs) => expanded_runs(
            runs,
            n,
            "ctts run-counts exceed stsz sample count",
            "ctts run-counts disagree with stsz sample count",
        ),
    }
}

/// Whether `number` is one of `numbers`.
pub open spec fn lists(numbers: Seq<u32>, number: int) -> bool {
    exists|j: int| 0 <= j < numbers.len() && #[trigger] numbers[j] == number
}

/// Sync flags: all set where there is no `stss`, else set for the sample
/// numbers (counted from 1) that `stss` lists.
pub open spec fn sync_column(stss: Option<Seq<u32>>, n: nat) -> Result<Seq<bool>, PackagerError> {
    match stss {
        None => Ok(Seq::new(n, |i: int| true)),
        Some(numbers) => if exists|k: int|
            0 <= k < numbers.len() && (#[trigger] numbers[k] == 0 || numbers[k] > n) {
            inconsistent("stss sample_number out of range")
        } else {
            Ok(Seq::new(n, |i: int| lists(numbers, i + 1)))
        },
    }
}

/// The rows that a track's tables describe.
pub open spec fn assembled(t: TablesModel) -> Result<Seq<RawSampleEntry>, PackagerError> {
    let n = t.sizes.len();
    match expanded_runs(
        t.stts,
        n,
        "stts run-counts exceed stsz sample count",
        "stts run-counts disagree with stsz sample count",
    ) {
        Err(e) => Err(e),
        Ok(dts_deltas) => match cts_column(t.ctts, n) {
            Err(e) => Err(e),
            Ok(cts_offsets) => match sync_column(t.stss, n) {
                Err(e) => Err(e),
                Ok(sync) => match samples_per_chunk(t.stsc, t.chunk_offsets.len()) {
                    Err(e) => Err(e),
                    Ok(counts) => {
                        let cols = Columns { sizes: t.sizes, dts_deltas, cts_offsets, sync };
                        match rows_of_chunks(
                            cols,
                            counts,
                            t.chunk_offsets,
                            t.chunk_offsets.len(),
                        ) {
                            Err(e) => Err(e),
                            Ok(rows) => if rows.len() != n {
                                inconsistent("stsc sample count disagrees with stsz")
                            } else {
                                Ok(rows)
                            },
                        }
                    },
                },
            },
        },
    }
}

proof fn lemma_chunk_rows_len(cols: Columns, first: int, offset: int, count: nat)
    ensures
        chunk_rows(cols, first, offset, count) matches Ok(rows) ==> rows.len() == count,
    decreases count,
{
    if count > 0 {
        lemma_chunk_rows_len(cols, first, offset, (count - 1) as nat);
    }
}

proof fn lemma_chunk_rows_fail(cols: Columns, first: int, offset: int, n: nat, m: nat)
    requires
        n <= m,
        chunk_rows(cols, first, offset, n) is Err,
    ensures
        chunk_rows(cols, first, offset, m) == chunk_rows(cols, first, offset, n),
    decreases m,
{
    if n < m {
        lemma_chunk_rows_fail(cols, first, offset, n, (m - 1) as nat);
    }
}

proof fn lemma_rows_fail(
    cols: Columns,
    counts: Seq<u32>,
    chunk_offsets: Seq<u64>,
    n: nat,
    m: nat,
)
    requires
        n <= m,
        rows_of_chunks(cols, counts, chunk_offsets, n) is Err,
    ensures
        rows_of_chunks(cols, counts, chunk_offsets, m) == rows_of_chunks(
            cols,
            counts,
            chunk_offsets,
            n,
        ),
    decreases m,
{
    if n < m {
        lemma_rows_fail(cols, counts, chunk_offsets, n, (m - 1) as nat);
    }
}

/// Computes the composition-offset column.
fn cts_offsets_of(ctts: &Option<Vec<(u32, i32)>>, n: usize) -> (r: Result<Vec<i32>, PackagerError>)
    ensures
        ok_seq(r) == cts_column(opt_seq(*ctts), n as nat),
{
    match ctts {
        None => {
            let out: Vec<i32> = vec![0i32; n];
            assert(out@ =~= Seq::new(n as nat, |i: int| 0i32));
            Ok(out)
        },
        Some(runs) => expand_run_table(
            runs.as_slice(),
            n,
            "ctts run-counts exceed stsz sample count",
            "ctts run-counts disagree with stsz sample count",
        ),
    }
}

/// Computes the sync column.
fn sync_flags_of(stss: &Option<Vec<u32>>, n: usize) -> (r: Result<Vec<bool>, PackagerError>)
    ensures
        ok_seq(r) == sync_column(opt_seq(*stss), n as nat),
{
    let mut sync: Vec<bool> = vec![stss.is_none(); n];
    match stss {
        None => {
            assert(sync@ =~= Seq::new(n as nat, |i: int| true));
        },
        Some(numbers) => {
            let mut k: usize = 0;
            while k < numbers.len()
                invariant
                    0 <= k <= numbers@.len(),
                    sync@.len() == n,
                    *stss == Some(*numbers),
                    forall|j: int| 0 <= j < k ==> 1 <= #[trigger] numbers@[j] <= n,
                    forall|i: int|
                        0 <= i < n ==> (#[trigger] sync@[i] <==> exists|j: int|
                            0 <= j < k && #[trigger] numbers@[j] == i + 1),
                decreases numbers@.len() - k,
            {
                let number: u32 = numbers[k];
                if number == 0 || number as usize > n {
                    return Err(
                        PackagerError::SampleTableInconsistent("stss sample_number out of range"),
                    );
                }
                let ghost before = sync@;
                sync[(number - 1) as usize] = true;
                assert forall|i: int| 0 <= i < n implies (#[trigger] sync@[i] <==> exists|j: int|
                    0 <= j < k + 1 && #[trigger] numbers@[j] == i + 1) by {
                    if i == number - 1 {
                        assert(numbers@[k as int] == i + 1);
                    } else if before[i] {
                        let j = choose|j: int| 0 <= j < k && #[trigger] numbers@[j] == i + 1;
                        assert(numbers@[j] == i + 1);
                    }
                }
                k += 1;
            }
            assert(sync@ =~= Seq::new(n as nat, |i: int| lists(numbers@, i + 1)));
        },
    }
    Ok(sync)
}

/// Combines the tables of a track into one row per sample.
#[verifier::rlimit(40)]
pub fn assemble(tables: &SampleTables) -> (r: Result<Vec<RawSampleEntry>, PackagerError>)
    ensures
        ok_seq(r) == assembled(tables@),
{
    let n: usize = tables.sizes.len();
    let dts_deltas: Vec<u32> = expand_run_table(
        tables.stts.as_slice(),
        n,
        "stts run-counts exceed stsz sample count",
        "stts run-counts disagree with stsz sample count",
    )?;
    let cts_offsets: Vec<i32> = cts_offsets_of(&tables.ctts, n)?;
    let sync: Vec<bool> = sync_flags_of(&tables.stss, n)?;
    let chunk_count: usize = tables.chunk_offsets.len();
    let counts: Vec<u32> = expand_stsc(tables.stsc.as_slice(), chunk_count)?;
    proof {
        lemma_run_values_len(tables@.stts);
        if let Some(runs) = tables@.ctts {
            lemma_run_values_len(runs);
        }
    }
    let ghost cols = Columns {
        sizes: tables.sizes@,
        dts_deltas: dts_deltas@,
        cts_offsets: cts_offsets@,
        sync: sync@,
    };
    let ghost offsets = tables.chunk_offsets@;
    let ghost expected = assembled(tables@);

    let mut samples: Vec<RawSampleEntry> = Vec::with_capacity(n);
    let mut chunk: usize = 0;
    while chunk < chunk_count
        invariant
            0 <= chunk <= chunk_count,
            n == tables.sizes@.len(),
            chunk_count == tables.chunk_offsets@.len(),
            counts@.len() == chunk_count,
            offsets == tables.chunk_offsets@,
            cols == (Columns {
                sizes: tables.sizes@,
                dts_deltas: dts_deltas@,
                cts_offsets: cts_offsets@,
                sync: sync@,
            }),
            dts_deltas@.len() == n,
            cts_offsets@.len() == n,
            sync@.len() == n,
            expected == assembled(tables@),
            rows_of_chunks(cols, counts@, offsets, chunk_count as nat) matches Err(e) ==> expected
                == Err::<Seq<RawSampleEntry>, _>(e),
            rows_of_chunks(cols, counts@, offsets, chunk as nat) == Ok::<_, PackagerError>(
                samples@,
            ),
            samples@.len() <= n,
        decreases chunk_count - chunk,
    {
        let mut off: u64 = tables.chunk_offsets[chunk];
        let ghost start = off as int;
        let count: u32 = counts[chunk];
        let ghost before = samples@;
        let ghost first = before.len() as int;
        let mut j: u32 = 0;
        proof {
            lemma_chunk_rows_len(cols, first, start, 0);
            assert(samples@ =~= before + Seq::<RawSampleEntry>::empty());
        }
        while j < count
            invariant
                0 <= chunk < chunk_count,
                0 <= j <= count,
                n == tables.sizes@.len(),
                counts@.len() == chunk_count,
                count == counts@[chunk as int],
                start == offsets[chunk as int],
                first == before.len(),
                cols == (Columns {
                    sizes: tables.sizes@,
                    dts_deltas: dts_deltas@,
                    cts_offsets: cts_offsets@,
                    sync: sync@,
                }),
                dts_deltas@.len() == n,
                cts_offsets@.len() == n,
                sync@.len() == n,
                expected == assembled(tables@),
                rows_of_chunks(cols, counts@, offsets, chunk_count as nat) matches Err(e)
                    ==> expected == Err::<Seq<RawSampleEntry>, _>(e),
                rows_of_chunks(cols, counts@, offsets, chunk as nat) == Ok::<_, PackagerError>(
                    before,
                ),
                chunk_rows(cols, first, start, j as nat) is Ok,
                samples@ == before + chunk_rows(cols, first, start, j as nat)->Ok_0,
                samples@.len() == first + j,
                samples@.len() <= n,
                off == start + size_sum(cols.sizes, first, first + j),
            decreases count - j,
        {
            let k: usize = samples.len();
            proof {
                if chunk_rows(cols, first, start, (j + 1) as nat) is Err {
                    lemma_chunk_rows_fail(cols, first, start, (j + 1) as nat, count as nat);
                    lemma_rows_fail(
                        cols,
                        counts@,
                        offsets,
                        (chunk + 1) as nat,
                        chunk_count as nat,
                    );
                }
            }
            if k >= n {
                return Err(
                    PackagerError::SampleTableInconsistent("stsc sample count exceeds stsz"),
                );
            }
            let size: u32 = tables.sizes[k];
            let row = RawSampleEntry {
                offset: off,
                size,
                dts_delta: dts_deltas[k],
                cts_offset: cts_offsets[k],
                is_sync: sync[k],
            };
            let ghost rows = chunk_rows(cols, first, start, j as nat)->Ok_0;
            samples.push(row);
            off = match off.checked_add(size as u64) {
                Some(next) => next,
                None => {
                    return Err(
                        PackagerError::SampleTableInconsistent("sample offset overflows u64"),
                    );
                },
            };
            assert(samples@ =~= before + rows.push(row));
            j += 1;
        }
        proof {
            lemma_chunk_rows_len(cols, first, start, count as nat);
        }
        chunk += 1;
    }
    if samples.len() != n {
        return Err(PackagerError::SampleTableInconsistent("stsc sample count disagrees with stsz"));
    }
    Ok(samples)
}

/// The rows of a track, as its tables in the source describe them.
pub open spec fn walked(src: Seq<u8>, locs: SampleTableLocs) -> Result<
    Seq<RawSampleEntry>,
    PackagerError,
> {
    match tables(src, locs) {
        Err(e) => Err(e),
        Ok(t) => assembled(t),
    }
}

/// The rows that a walk returned.
pub open spec fn ok_samples(r: Result<WalkedSamples, PackagerError>) -> Result<
    Seq<RawSampleEntry>,
    PackagerError,
> {
    match r {
        Ok(w) => Ok(w.samples@),
        Err(e) => Err(e),
    }
}

/// Loads the tables of a track and combines them.
pub fn walk<R: ReadAt + ?Sized>(reader: &R, locs: &SampleTableLocs) -> (r: Result<
    WalkedSamples,
    PackagerError,
>)
    requires
        locs.wf(),
    ensures
        loads(
            ok_samples(r),
            walked(reader.content(), *locs),
            asks_memory(*locs),
            reader.reliable(),
        ),
        r matches Ok(w) ==> w.stss_absent == (locs.stss is None),
{
    let tables: SampleTables = read_tables(reader, locs)?;
    let samples: Vec<RawSampleEntry> = assemble(&tables)?;
    Ok(WalkedSamples { samples, stss_absent: locs.stss.is_none() })
}

/// Row `k` of a track says what column entry `k` says.
pub open spec fn follows(row: RawSampleEntry, cols: Columns, k: int) -> bool {
    &&& row.size == cols.sizes[k]
    &&& row.dts_delta == cols.dts_deltas[k]
    &&& row.cts_offset == cols.cts_offsets[k]
    &&& row.is_sync == cols.sync[k]
}

proof fn lemma_chunk_rows_follow(cols: Columns, first: int, offset: int, count: nat)
    requires
        chunk_rows(cols, first, offset, count) is Ok,
        0 <= offset,
    ensures
        ({
            let rows = chunk_rows(cols, first, offset, count)->Ok_0;
            &&& rows.len() == count
            &&& forall|j: int|
                0 <= j < count ==> follows(#[trigger] rows[j], cols, first + j) && rows[j].offset
                    == offset + size_sum(cols.sizes, first, first + j)
        }),
    decreases count,
{
    if count > 0 {
        lemma_chunk_rows_follow(cols, first, offset, (count - 1) as nat);
        let k = first + count - 1;
        let before = chunk_rows(cols, first, offset, (count - 1) as nat)->Ok_0;
        let rows = chunk_rows(cols, first, offset, count)->Ok_0;
        assert forall|j: int| 0 <= j < count implies follows(#[trigger] rows[j], cols, first + j)
            && rows[j].offset == offset + size_sum(cols.sizes, first, first + j) by {
            if j < count - 1 {
                assert(rows[j] == before[j]);
            }
        }
    }
}

proof fn lemma_rows_follow(cols: Columns, counts: Seq<u32>, chunk_offsets: Seq<u64>, n: nat)
    requires
        rows_of_chunks(cols, counts, chunk_offsets, n) is Ok,
    ensures
        ({
            let rows = rows_of_chunks(cols, counts, chunk_offsets, n)->Ok_0;
            forall|k: int| 0 <= k < rows.len() ==> follows(#[trigger] rows[k], cols, k)
        }),
    decreases n,
{
    if n > 0 {
        lemma_rows_follow(cols, counts, chunk_offsets, (n - 1) as nat);
        let before = rows_of_chunks(cols, counts, chunk_offsets, (n - 1) as nat)->Ok_0;
        let first = before.len() as int;
        let offset = chunk_offsets[n - 1] as int;
        lemma_chunk_rows_follow(cols, first, offset, counts[n - 1] as nat);
        let more = chunk_rows(cols, first, offset, counts[n - 1] as nat)->Ok_0;
        let rows = rows_of_chunks(cols, counts, chunk_offsets, n)->Ok_0;
        assert forall|k: int| 0 <= k < rows.len() implies follows(#[trigger] rows[k], cols, k) by {
            if k < first {
                assert(rows[k] == before[k]);
            } else {
                assert(rows[k] == more[k - first]);
            }
        }
    }
}

/// Every sample of a track gets exactly one row, in the order of `stsz`, with
/// its size, its duration from `stts`, its composition offset from `ctts` (or
/// none) and its sync flag from `stss` (or set).
pub proof fn law_rows_follow_the_tables(t: TablesModel)
    requires
        assembled(t) is Ok,
    ensures
        ({
            let rows = assembled(t)->Ok_0;
            let n = t.sizes.len();
            let cols = Columns {
                sizes: t.sizes,
                dts_deltas: run_values(t.stts),
                cts_offsets: cts_column(t.ctts, n)->Ok_0,
                sync: sync_column(t.stss, n)->Ok_0,
            };
            &&& rows.len() == n
            &&& run_total(t.stts) == n
            &&& forall|k: int| 0 <= k < n ==> follows(#[trigger] rows[k], cols, k)
        }),
{
    let n = t.sizes.len();
    let cols = Columns {
        sizes: t.sizes,
        dts_deltas: run_values(t.stts),
        cts_offsets: cts_column(t.ctts, n)->Ok_0,
        sync: sync_column(t.stss, n)->Ok_0,
    };
    let counts = samples_per_chunk(t.stsc, t.chunk_offsets.len())->Ok_0;
    lemma_rows_follow(cols, counts, t.chunk_offsets, t.chunk_offsets.len());
}

/// The samples of a chunk lie back to back, the first at the offset of the
/// chunk.
pub proof fn law_samples_of_a_chunk_lie_back_to_back(
    cols: Columns,
    first: int,
    offset: int,
    count: nat,
    j: int,
)
    requires
        chunk_rows(cols, first, offset, count) is Ok,
        0 <= offset,
        0 <= j < count,
    ensures
        ({
            let rows = chunk_rows(cols, first, offset, count)->Ok_0;
            if j == 0 {
                rows[j].offset == offset
            } else {
                rows[j].offset == rows[j - 1].offset + rows[j - 1].size
            }
        }),
{
    lemma_chunk_rows_follow(cols, first, offset, count);
}

/// A table is refused for want of memory only where memory was asked for, and
/// a table that is held is the one that was expected.
pub proof fn law_memory_is_refused_only_when_asked_for<T>(
    r: Result<T, PackagerError>,
    expected: Result<T, PackagerError>,
    asked: bool,
)
    ensures
        loads(r, expected, false, true) <==> r == expected,
        r is Ok && loads(r, expected, asked, true) ==> r == expected,
        loads(r, expected, asked, true) ==> r == expected || (asked && r matches Err(
            PackagerError::MalformedAtom { atom: _, reason: _ },
        )),
{
}

/// A table is held whole: as many bytes as its range has, if these are enough
/// for its header and fit in memory.
pub proof fn law_tables_are_held_whole(range: ByteRange, least: int)
    ensures
        match table_len(range, least) {
            Ok(len) => len == range.len && range.len >= least,
            Err(e) => e is MalformedAtom && (range.len < least || range.len > usize::MAX),
        },
{
}

} // verus!
