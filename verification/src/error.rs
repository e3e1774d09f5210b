//! The error type shared by the packager's modules.

use vstd::prelude::*;
use vstd::string::StringExecFns;

use crate::text::{decimal_text, fourcc_text, push_fourcc, push_number};

verus! {

/// Failures of the byte source and of output assembly.
#[derive(Debug)]
pub enum IoError {
    /// The byte source reported an error of its own.
    Source(std::io::Error),
    /// The byte source ended before a fixed-size field was complete.
    ShortRead,
    /// The byte source ended inside a sample, at `offset`, with `remaining`
    /// bytes still to come.
    SampleTruncated { offset: u64, remaining: u64 },
    /// The byte source ended while it was hashed, at `offset`, with
    /// `remaining` bytes still to come.
    SourceTruncated { offset: u64, remaining: u64 },
    /// A box of `size` bytes does not fit a 32-bit size field.
    BoxTooLarge { fourcc: u32, size: u64 },
    /// A `mdat` box of `size` bytes does not fit a 32-bit size field.
    MdatTooLarge { size: u64 },
    /// The payload of a media segment has more than `u64::MAX` bytes.
    PayloadOverflow,
    /// The payload of a media segment has at most `u64::MAX` bytes, but its
    /// `mdat` box has more.
    MdatOverflow,
    /// A `trun` data offset does not fit a signed 32-bit field.
    DataOffsetTooLarge,
    /// Media segment `idx` has `size` bytes, which do not fit in 32 bits.
    SegmentTooLarge { idx: u64, size: u64 },
    /// A blob of `len` bytes does not fit a 32-bit length prefix.
    BlobTooLarge { name: &'static str, len: u64 },
    /// A byte range of `len` bytes does not fit in memory.
    RangeTooLarge { len: u64 },
    /// A media segment's samples are not in the sample tables, or there are
    /// none.
    BadSegment { reason: &'static str },
}

/// Errors returned by the packager.
///
/// Variant names form the public failure contract: callers match on them.
#[derive(Debug)]
pub enum PackagerError {
    /// Reading the source or assembling the output failed.
    Io(IoError),
    /// No brand of the `ftyp` box is on the allow-list.
    UnsupportedBrand,
    /// A required box is missing.
    MissingAtom(&'static str),
    /// A box is present but cannot be read.
    MalformedAtom { atom: &'static str, reason: &'static str },
    /// The file does not hold exactly one video and one audio track.
    UnsupportedTrackLayout { video: u32, audio: u32 },
    /// The video sample-entry fourcc is not on the allow-list.
    UnsupportedVideoCodec,
    /// The audio sample-entry fourcc is not on the allow-list.
    UnsupportedAudioCodec,
    /// The file holds a top-level `moof`.
    FragmentedInput,
    /// The file carries an encryption marker.
    EncryptedInput,
    /// The sample tables contradict each other.
    SampleTableInconsistent(&'static str),
    /// The first four bytes of an index are not `HCMI`.
    IndexMagicMismatch,
    /// The section directory of an index cannot be read.
    MalformedIndexDirectory(&'static str),
    /// A section of an index cannot be read.
    MalformedIndexSection(&'static str),
    /// A media segment was requested past the end of the segment table.
    SegmentIndexOutOfRange { idx: u32, count: u32 },
}

/// `std::io::Error`, carried through unopened.
#[verifier::external_type_specification]
#[verifier::external_body]
pub struct ExIoError(std::io::Error);

impl From<std::io::Error> for PackagerError {
    fn from(e: std::io::Error) -> (r: PackagerError) {
        PackagerError::Io(IoError::Source(e))
    }
}

impl vstd::std_specs::convert::FromSpecImpl<std::io::Error> for PackagerError {
    open spec fn obeys_from_spec() -> bool {
        true
    }

    open spec fn from_spec(e: std::io::Error) -> PackagerError {
        PackagerError::Io(IoError::Source(e))
    }
}

/// Whether `r` reports a failure of the byte source itself.
pub open spec fn source_failed<T>(r: Result<T, PackagerError>) -> bool {
    r matches Err(PackagerError::Io(IoError::Source(_)))
}

/// Whether `r` is `expected`, or the byte source failed on the way. A
/// `reliable` source never fails, so over one `r` is exactly `expected`.
pub open spec fn settles<T>(
    r: Result<T, PackagerError>,
    expected: Result<T, PackagerError>,
    reliable: bool,
) -> bool {
    r == expected || (!reliable && source_failed(r))
}

/// The text of an I/O failure, where `source` is the text of the byte source's
/// own error.
pub open spec fn io_text(e: IoError, source: Seq<char>) -> Seq<char> {
    match e {
        IoError::Source(_) => source,
        IoError::ShortRead => "ReadAt returned 0 before requested bytes were available"@,
        IoError::SampleTruncated { offset, remaining } => {
            "ReadAt returned EOF mid-sample at offset "@ + decimal_text(offset as nat)
                + " (still need "@ + decimal_text(remaining as nat) + " bytes)"@
        },
        IoError::SourceTruncated { offset, remaining } => {
            "ReadAt returned EOF mid-source while hashing at offset "@ + decimal_text(offset as nat)
                + " (still need "@ + decimal_text(remaining as nat) + " bytes)"@
        },
        IoError::BoxTooLarge { fourcc, size } => {
            "fMP4 box `"@ + fourcc_text(fourcc) + "` size "@ + decimal_text(size as nat)
                + " exceeds u32::MAX (use largesize via a separate writer)"@
        },
        IoError::MdatTooLarge { size } => {
            "media segment mdat size "@ + decimal_text(size as nat)
                + " exceeds u32::MAX (max_segment_size invariant violated)"@
        },
        IoError::PayloadOverflow => "media segment payload byte count overflows u64"@,
        IoError::MdatOverflow => "media segment mdat size overflows u64"@,
        IoError::DataOffsetTooLarge => "trun.data_offset exceeds i32::MAX (segment too large)"@,
        IoError::SegmentTooLarge { idx, size } => {
            "media segment "@ + decimal_text(idx as nat) + " size "@ + decimal_text(size as nat)
                + " exceeds u32::MAX (max_segment_size invariant)"@
        },
        IoError::BlobTooLarge { name, len } => {
            name@ + " byte length "@ + decimal_text(len as nat) + " exceeds u32::MAX"@
        },
        IoError::RangeTooLarge { len } => {
            "byte range length "@ + decimal_text(len as nat) + " does not fit usize"@
        },
        IoError::BadSegment { reason } => reason@,
    }
}

/// The text of an error, where `source` is the text of the byte source's own
/// error.
pub open spec fn packager_text(e: PackagerError, source: Seq<char>) -> Seq<char> {
    match e {
        PackagerError::Io(io) => "io error: "@ + io_text(io, source),
        PackagerError::UnsupportedBrand => "unsupported `ftyp` brand"@,
        PackagerError::MissingAtom(atom) => "required atom `"@ + atom@ + "` is missing"@,
        PackagerError::MalformedAtom { atom, reason } => {
            "malformed atom `"@ + atom@ + "`: "@ + reason@
        },
        PackagerError::UnsupportedTrackLayout { video, audio } => {
            "unsupported track layout: "@ + decimal_text(video as nat) + " video track(s), "@
                + decimal_text(audio as nat)
                + " audio track(s); expected exactly 1 video + 1 audio"@
        },
        PackagerError::UnsupportedVideoCodec =>
            "unsupported video codec (sample-entry fourcc not in allow-list)"@,
        PackagerError::UnsupportedAudioCodec =>
            "unsupported audio codec (sample-entry fourcc not in allow-list)"@,
        PackagerError::FragmentedInput => "input is fragmented (top-level `moof` present)"@,
        PackagerError::EncryptedInput =>
            "input is encrypted (`senc` / `tenc` / `sinf` present, or `sbgp` / `sgpd` carrying `seig` grouping)"@,
        PackagerError::SampleTableInconsistent(reason) => {
            "sample-table cross-reference inconsistent: "@ + reason@
        },
        PackagerError::IndexMagicMismatch =>
            "`.idx` magic mismatch: first 4 bytes are not `HCMI`"@,
        PackagerError::MalformedIndexDirectory(reason) => {
            "malformed `.idx` directory: "@ + reason@
        },
        PackagerError::MalformedIndexSection(reason) => "malformed `.idx` section: "@ + reason@,
        PackagerError::SegmentIndexOutOfRange { idx, count } => {
            "segment index "@ + decimal_text(idx as nat) + " out of range (segment count = "@
                + decimal_text(count as nat) + ")"@
        },
    }
}

/// Calls `ToString::to_string` on a `std::io::Error`. The text may come from
/// the operating system, so nothing is claimed of it.
#[verifier::external_body]
pub(crate) fn io_error_text(e: &std::io::Error) -> (r: String) {
    e.to_string()
}

impl IoError {
    /// Appends the text of the failure, with `source` for the byte source's
    /// own error.
    fn append_to(&self, out: &mut String, source: &str)
        ensures
            final(out)@ == old(out)@ + io_text(*self, source@),
    {
        match self {
            IoError::Source(_) => out.append(source),
            IoError::ShortRead => out.append(
                "ReadAt returned 0 before requested bytes were available",
            ),
            IoError::SampleTruncated { offset, remaining } => {
                out.append("ReadAt returned EOF mid-sample at offset ");
                push_number(out, *offset);
                out.append(" (still need ");
                push_number(out, *remaining);
                out.append(" bytes)");
            },
            IoError::SourceTruncated { offset, remaining } => {
                out.append("ReadAt returned EOF mid-source while hashing at offset ");
                push_number(out, *offset);
                out.append(" (still need ");
                push_number(out, *remaining);
                out.append(" bytes)");
            },
            IoError::BoxTooLarge { fourcc, size } => {
                out.append("fMP4 box `");
                push_fourcc(out, *fourcc);
                out.append("` size ");
                push_number(out, *size);
                out.append(" exceeds u32::MAX (use largesize via a separate writer)");
            },
            IoError::MdatTooLarge { size } => {
                out.append("media segment mdat size ");
                push_number(out, *size);
                out.append(" exceeds u32::MAX (max_segment_size invariant violated)");
            },
            IoError::PayloadOverflow => out.append(
                "media segment payload byte count overflows u64",
            ),
            IoError::MdatOverflow => out.append("media segment mdat size overflows u64"),
            IoError::DataOffsetTooLarge => out.append(
                "trun.data_offset exceeds i32::MAX (segment too large)",
            ),
            IoError::SegmentTooLarge { idx, size } => {
                out.append("media segment ");
                push_number(out, *idx);
                out.append(" size ");
                push_number(out, *size);
                out.append(" exceeds u32::MAX (max_segment_size invariant)");
            },
            IoError::BlobTooLarge { name, len } => {
                out.append(name);
                out.append(" byte length ");
                push_number(out, *len);
                out.append(" exceeds u32::MAX");
            },
            IoError::RangeTooLarge { len } => {
                out.append("byte range length ");
                push_number(out, *len);
                out.append(" does not fit usize");
            },
            IoError::BadSegment { reason } => out.append(reason),
        }
        assert(out@ =~= old(out)@ + io_text(*self, source@));
    }
}

impl PackagerError {
    /// The text of the error, with `source` for the byte source's own error.
    pub fn message_with(&self, source: &str) -> (r: String)
        ensures
            r@ == packager_text(*self, source@),
    {
        let mut out: String = String::new();
        match self {
            PackagerError::Io(io) => {
                out.append("io error: ");
                io.append_to(&mut out, source);
            },
            PackagerError::UnsupportedBrand => out.append("unsupported `ftyp` brand"),
            PackagerError::MissingAtom(atom) => {
                out.append("required atom `");
                out.append(atom);
                out.append("` is missing");
            },
            PackagerError::MalformedAtom { atom, reason } => {
                out.append("malformed atom `");
                out.append(atom);
                out.append("`: ");
                out.append(reason);
            },
            PackagerError::UnsupportedTrackLayout { video, audio } => {
                out.append("unsupported track layout: ");
                push_number(&mut out, *video as u64);
                out.append(" video track(s), ");
                push_number(&mut out, *audio as u64);
                out.append(" audio track(s); expected exactly 1 video + 1 audio");
            },
            PackagerError::UnsupportedVideoCodec => out.append(
                "unsupported video codec (sample-entry fourcc not in allow-list)",
            ),
            PackagerError::UnsupportedAudioCodec => out.append(
                "unsupported audio codec (sample-entry fourcc not in allow-list)",
            ),
            PackagerError::FragmentedInput => out.append(
                "input is fragmented (top-level `moof` present)",
            ),
            PackagerError::EncryptedInput => out.append(
                "input is encrypted (`senc` / `tenc` / `sinf` present, or `sbgp` / `sgpd` carrying `seig` grouping)",
            ),
            PackagerError::SampleTableInconsistent(reason) => {
                out.append("sample-table cross-reference inconsistent: ");
                out.append(reason);
            },
            PackagerError::IndexMagicMismatch => out.append(
                "`.idx` magic mismatch: first 4 bytes are not `HCMI`",
            ),
            PackagerError::MalformedIndexDirectory(reason) => {
                out.append("malformed `.idx` directory: ");
                out.append(reason);
            },
            PackagerError::MalformedIndexSection(reason) => {
                out.append("malformed `.idx` section: ");
                out.append(reason);
            },
            PackagerError::SegmentIndexOutOfRange { idx, count } => {
                out.append("segment index ");
                push_number(&mut out, *idx as u64);
                out.append(" out of range (segment count = ");
                push_number(&mut out, *count as u64);
                out.append(")");
            },
        }
        assert(out@ =~= packager_text(*self, source@));
        out
    }

    /// The text of the error. Of a failure of the byte source it gives that
    /// source's own text.
    pub fn message(&self) -> (r: String)
        ensures
            exists|source: Seq<char>| r@ == #[trigger] packager_text(*self, source),
            !(self matches PackagerError::Io(IoError::Source(_))) ==> r@ == packager_text(
                *self,
                Seq::empty(),
            ),
    {
        match self {
            PackagerError::Io(IoError::Source(e)) => {
                let source: String = io_error_text(e);
                self.message_with(source.as_str())
            },
            _ => {
                proof {
                    reveal_strlit("");
                    assert(""@ =~= Seq::<char>::empty());
                }
                self.message_with("")
            },
        }
    }
}

/// Over a source that never fails, what is expected is what comes. Over any
/// other, only an error that the source itself reported may come in its place.
pub proof fn law_only_the_source_may_fail<T>(
    r: Result<T, PackagerError>,
    expected: Result<T, PackagerError>,
)
    ensures
        settles(r, expected, true) <==> r == expected,
        settles(r, expected, false) ==> {
            ||| r == expected
            ||| r matches Err(PackagerError::Io(IoError::Source(_)))
        },
        r is Ok && settles(r, expected, false) ==> r == expected,
{
}

} // verus!
