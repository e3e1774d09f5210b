//! Replies.

use cmafly::serve::handlers::{
    admit_segment, init_body, parse_segment_idx, permit_decision, playlist_body, playlist_head,
    segment_body, segment_head, ChunkedBody, PermitOutcome, BODY_CHUNK_SIZE,
};
use cmafly::serve::ApiError;
use cmafly::{IoError, PackagerError, SliceReader};

#[test]
fn parse_segment_idx_accepts_canonical_filenames() {
    assert_eq!(parse_segment_idx("seg_0001.m4s"), Some(0));
    assert_eq!(parse_segment_idx("seg_0042.m4s"), Some(41));
    // 4-digit minimum; 5+ digits widen naturally without erroring.
    assert_eq!(parse_segment_idx("seg_99999.m4s"), Some(99_998));
}

#[test]
fn parse_segment_idx_rejects_zero_index() {
    // Segment numbering starts at 0001; seg_0000 is not a valid
    // resource.
    assert!(parse_segment_idx("seg_0000.m4s").is_none());
}

#[test]
fn parse_segment_idx_rejects_non_canonical_names() {
    for bad in [
        "seg_abcd.m4s",
        "seg_1a.m4s",
        "seg_0001.mp4",
        "init_0001.m4s",
        "seg_.m4s",
        "playlist.m3u8",
        "seg_-1.m4s",
        "seg_0001.M4S",
        // The playlist writer formats segment names as `{n:04}`;
        // sub-canonical widths would alias the same immutable
        // resource under two URLs and are rejected.
        "seg_1.m4s",
        "seg_42.m4s",
        "seg_999.m4s",
    ] {
        assert!(
            parse_segment_idx(bad).is_none(),
            "expected None for {bad:?}",
        );
    }
}

#[test]
fn parse_segment_idx_rejects_overflow() {
    // 11 digits > u32::MAX (4_294_967_295); `parse::<u32>` errors.
    assert!(parse_segment_idx("seg_99999999999.m4s").is_none());
}

#[test]
fn parse_segment_idx_accepts_the_largest_number() {
    assert_eq!(parse_segment_idx("seg_4294967295.m4s"), Some(4_294_967_294));
    assert_eq!(parse_segment_idx("seg_00004294967295.m4s"), Some(4_294_967_294));
    assert!(parse_segment_idx("seg_4294967296.m4s").is_none());
    assert!(parse_segment_idx("seg_m4s").is_none());
    assert!(parse_segment_idx("seg_.m4").is_none());
    assert!(parse_segment_idx("seg_000\u{0661}.m4s").is_none());
}

#[test]
fn errors_map_to_status_and_generic_body() {
    let reply = ApiError::BadRequest("bad chars").reply();
    assert_eq!((reply.status, reply.body), (400, "bad request"));
    let reply = ApiError::NotFound.reply();
    assert_eq!((reply.status, reply.body), (404, "not found"));
    assert!(reply.retry_after.is_none());
    let err = ApiError::Internal("secret path /etc/foo".into());
    let reply = err.reply();
    assert_eq!((reply.status, reply.body), (500, "internal server error"));
    assert!(!reply.body.contains("/etc/foo"));
    assert_eq!(err.log_line().unwrap(), "error: secret path /etc/foo");
    let reply = ApiError::ServiceUnavailable.reply();
    assert_eq!(reply.status, 503);
    assert_eq!(reply.retry_after, Some("1"));
    assert!(ApiError::ServiceUnavailable.log_line().is_none());
}

#[test]
fn errors_have_texts() {
    assert_eq!(
        ApiError::BadRequest("empty id").message(),
        "bad request: empty id"
    );
    assert_eq!(ApiError::NotFound.message(), "not found");
    assert_eq!(
        ApiError::ServiceUnavailable.message(),
        "service unavailable"
    );
    assert_eq!(
        ApiError::Internal("x".into()).message(),
        "internal error: x"
    );
}

#[test]
fn internal_errors_carry_their_cause() {
    let io = std::io::Error::new(std::io::ErrorKind::Other, "disk on fire");
    match ApiError::internal_io("open idx", "/i/a.idx", io) {
        ApiError::Internal(msg) => assert_eq!(msg, "open idx /i/a.idx: disk on fire"),
        other => panic!("expected Internal, got {other:?}"),
    }
    let err = PackagerError::Io(IoError::ShortRead);
    match ApiError::internal_packager("open idx", "a", err) {
        ApiError::Internal(msg) => assert_eq!(
            msg,
            "open idx for `a`: io error: ReadAt returned 0 before requested bytes were available"
        ),
        other => panic!("expected Internal, got {other:?}"),
    }
    let io = std::io::Error::new(std::io::ErrorKind::Other, "disk on fire");
    match ApiError::internal_packager("open idx", "a", PackagerError::from(io)) {
        ApiError::Internal(msg) => {
            assert_eq!(msg, "open idx for `a`: io error: disk on fire")
        }
        other => panic!("expected Internal, got {other:?}"),
    }
}

#[test]
fn permit_outcomes_decide_the_reply() {
    assert!(permit_decision(PermitOutcome::Granted).is_ok());
    assert!(matches!(
        permit_decision(PermitOutcome::TimedOut),
        Err(ApiError::ServiceUnavailable)
    ));
    match permit_decision(PermitOutcome::Closed) {
        Err(ApiError::Internal(msg)) => assert_eq!(msg, "admission semaphore closed"),
        other => panic!("expected Internal, got {other:?}"),
    }
}

#[test]
fn heads_carry_type_and_cache_policy() {
    let head = playlist_head();
    assert_eq!(head.status, 200);
    assert_eq!(head.content_type, "application/vnd.apple.mpegurl");
    assert_eq!(head.cache_control, "public, max-age=300");
    let head = segment_head();
    assert_eq!(head.status, 200);
    assert_eq!(head.content_type, "video/mp4");
    assert_eq!(head.cache_control, "public, max-age=31536000, immutable");
}

#[test]
fn unreadable_index_is_an_internal_error_everywhere() {
    let idx = [0u8; 80];
    let src = SliceReader(&[]);
    let text = "`.idx` magic mismatch: first 4 bytes are not `HCMI`";
    match playlist_body(&idx, "a") {
        Err(ApiError::Internal(msg)) => {
            assert_eq!(msg, format!("open idx for playlist for `a`: {text}"))
        }
        other => panic!("expected Internal, got {other:?}"),
    }
    match init_body(&idx, "a") {
        Err(ApiError::Internal(msg)) => {
            assert_eq!(msg, format!("open idx for init for `a`: {text}"))
        }
        other => panic!("expected Internal, got {other:?}"),
    }
    match admit_segment(&idx, "a", 0) {
        Err(ApiError::Internal(msg)) => {
            assert_eq!(msg, format!("open idx for segment for `a`: {text}"))
        }
        other => panic!("expected Internal, got {other:?}"),
    }
    match segment_body(&idx, "a", 0, &src, 0) {
        Err(ApiError::Internal(msg)) => {
            assert_eq!(msg, format!("open idx for segment for `a`: {text}"))
        }
        other => panic!("expected Internal, got {other:?}"),
    }
}

#[test]
fn chunked_body_yields_every_byte_once() {
    let total = BODY_CHUNK_SIZE * 2 + 17;
    let source: Vec<u8> = (0..total).map(|i| (i % 251) as u8).collect();
    let mut body = ChunkedBody::new(source.clone());
    assert_eq!(body.remaining(), total);
    assert!(!body.is_end_stream());
    let mut sizes = Vec::new();
    let mut joined = Vec::new();
    while let Some(piece) = body.next_chunk() {
        sizes.push(piece.len());
        joined.extend_from_slice(&piece);
    }
    assert_eq!(sizes, vec![BODY_CHUNK_SIZE, BODY_CHUNK_SIZE, 17]);
    assert_eq!(joined, source);
    assert!(body.is_end_stream());
    assert_eq!(body.remaining(), 0);
    assert!(body.next_chunk().is_none());
}
