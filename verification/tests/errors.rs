//! Texts of errors.

use cmafly::{IoError, PackagerError};

fn io(e: IoError) -> String {
    PackagerError::Io(e).message()
}

#[test]
fn packager_errors_have_exact_texts() {
    let cases: Vec<(PackagerError, &str)> = vec![
        (PackagerError::UnsupportedBrand, "unsupported `ftyp` brand"),
        (
            PackagerError::MissingAtom("stsd"),
            "required atom `stsd` is missing",
        ),
        (
            PackagerError::MalformedAtom {
                atom: "tkhd",
                reason: "unsupported version",
            },
            "malformed atom `tkhd`: unsupported version",
        ),
        (
            PackagerError::UnsupportedTrackLayout { video: 0, audio: 12 },
            "unsupported track layout: 0 video track(s), 12 audio track(s); \
             expected exactly 1 video + 1 audio",
        ),
        (
            PackagerError::UnsupportedVideoCodec,
            "unsupported video codec (sample-entry fourcc not in allow-list)",
        ),
        (
            PackagerError::UnsupportedAudioCodec,
            "unsupported audio codec (sample-entry fourcc not in allow-list)",
        ),
        (
            PackagerError::FragmentedInput,
            "input is fragmented (top-level `moof` present)",
        ),
        (
            PackagerError::EncryptedInput,
            "input is encrypted (`senc` / `tenc` / `sinf` present, \
             or `sbgp` / `sgpd` carrying `seig` grouping)",
        ),
        (
            PackagerError::SampleTableInconsistent("x"),
            "sample-table cross-reference inconsistent: x",
        ),
        (
            PackagerError::IndexMagicMismatch,
            "`.idx` magic mismatch: first 4 bytes are not `HCMI`",
        ),
        (
            PackagerError::MalformedIndexDirectory("x"),
            "malformed `.idx` directory: x",
        ),
        (
            PackagerError::MalformedIndexSection("x"),
            "malformed `.idx` section: x",
        ),
        (
            PackagerError::SegmentIndexOutOfRange { idx: 99, count: 2 },
            "segment index 99 out of range (segment count = 2)",
        ),
    ];
    for (e, text) in cases {
        assert_eq!(e.message(), text);
    }
}

#[test]
fn io_errors_have_exact_texts() {
    assert_eq!(
        io(IoError::SourceTruncated { offset: 7, remaining: 10 }),
        "io error: ReadAt returned EOF mid-source while hashing at offset 7 (still need 10 bytes)"
    );
    assert_eq!(
        io(IoError::MdatTooLarge { size: u64::MAX }),
        "io error: media segment mdat size 18446744073709551615 exceeds u32::MAX \
         (max_segment_size invariant violated)"
    );
    assert_eq!(
        io(IoError::PayloadOverflow),
        "io error: media segment payload byte count overflows u64"
    );
    assert_eq!(
        io(IoError::MdatOverflow),
        "io error: media segment mdat size overflows u64"
    );
    assert_eq!(
        io(IoError::DataOffsetTooLarge),
        "io error: trun.data_offset exceeds i32::MAX (segment too large)"
    );
    assert_eq!(
        io(IoError::SegmentTooLarge { idx: 3, size: 4294967296 }),
        "io error: media segment 3 size 4294967296 exceeds u32::MAX (max_segment_size invariant)"
    );
    assert_eq!(
        io(IoError::BlobTooLarge { name: "video elst", len: 4294967296 }),
        "io error: video elst byte length 4294967296 exceeds u32::MAX"
    );
    assert_eq!(
        io(IoError::RangeTooLarge { len: 5 }),
        "io error: byte range length 5 does not fit usize"
    );
    assert_eq!(
        io(IoError::BadSegment { reason: "media segment with zero video or audio samples" }),
        "io error: media segment with zero video or audio samples"
    );
    let own = std::io::Error::new(std::io::ErrorKind::Other, "boom");
    assert_eq!(io(IoError::Source(own)), "io error: boom");
}

#[test]
fn box_types_are_shown_as_text_or_bytes() {
    let text = |fourcc: u32| io(IoError::BoxTooLarge { fourcc, size: 1 });
    let tail = "size 1 exceeds u32::MAX (use largesize via a separate writer)";
    assert_eq!(text(u32::from_be_bytes(*b"mdat")), format!("io error: fMP4 box `mdat` {tail}"));
    assert_eq!(
        text(0xc3a9_c3a9),
        format!("io error: fMP4 box `\u{e9}\u{e9}` {tail}")
    );
    assert_eq!(
        text(0xff00_0b0f),
        format!("io error: fMP4 box `[ff, 00, 0b, 0f]` {tail}")
    );
}
