//! Registry of open archives.

use cmafly::serve::registry::{
    check_pair, load_step, validate_id, FileOutcome, LoadStep, MAX_ID_LEN,
};
use cmafly::serve::{ApiError, IndexRegistry};

#[test]
fn validate_id_accepts_legal_shapes() {
    for id in ["a", "abc_DEF-123", "x", "0", &"z".repeat(MAX_ID_LEN)] {
        assert!(validate_id(id).is_ok(), "should accept `{id}`");
    }
}

#[test]
fn validate_id_rejects_empty() {
    assert!(matches!(
        validate_id(""),
        Err(ApiError::BadRequest("empty id"))
    ));
}

#[test]
fn validate_id_rejects_overlong() {
    let id = "a".repeat(MAX_ID_LEN + 1);
    assert!(matches!(
        validate_id(&id),
        Err(ApiError::BadRequest("id too long"))
    ));
}

#[test]
fn validate_id_rejects_path_traversal() {
    for bad in ["../etc/passwd", "..", "./x", "a/b", "a\\b", "a b", "a.b"] {
        let err = validate_id(bad).unwrap_err();
        assert!(
            matches!(err, ApiError::BadRequest("invalid id characters")),
            "expected BadRequest for {bad:?}, got {err:?}",
        );
    }
}

#[test]
fn validate_id_rejects_nul_and_control_bytes() {
    for bad in ["a\0b", "a\nb", "a\tb"] {
        assert!(matches!(
            validate_id(bad),
            Err(ApiError::BadRequest("invalid id characters"))
        ));
    }
}

#[test]
fn get_returns_bad_request_for_traversal_attempt() {
    let mut registry = IndexRegistry::new(4);
    let err = registry.begin_get("../etc/passwd").unwrap_err();
    assert!(matches!(err, ApiError::BadRequest(_)), "got {err:?}");
}

#[test]
fn get_returns_not_found_when_idx_missing() {
    let mut registry = IndexRegistry::new(4);
    assert!(matches!(registry.begin_get("ghost"), Ok(None)));
    let outcome = FileOutcome::Absent("No such file or directory".to_string());
    let err = load_step(LoadStep::StatIdx, &outcome, "ghost", "/i/ghost.idx").unwrap_err();
    assert!(matches!(err, ApiError::NotFound), "got {err:?}");
}

#[test]
fn get_returns_internal_when_mp4_missing() {
    let outcome = FileOutcome::Absent("No such file or directory".to_string());
    let err = load_step(LoadStep::OpenMp4, &outcome, "abc", "/m/abc.mp4").unwrap_err();
    match err {
        ApiError::Internal(msg) => {
            assert!(msg.contains("source mp4 missing"), "got: {msg}");
            assert_eq!(msg, "source mp4 missing for `abc`: /m/abc.mp4");
        }
        other => panic!("expected Internal, got {other:?}"),
    }
}

#[test]
fn get_returns_not_found_when_idx_is_a_directory() {
    let err = load_step(LoadStep::StatIdx, &FileOutcome::NotAFile, "z", "/i/z.idx").unwrap_err();
    assert!(matches!(err, ApiError::NotFound), "got {err:?}");
}

#[test]
fn load_runs_through_all_file_operations() {
    let mut step = LoadStep::StatIdx;
    let mut seen = vec![step];
    while step != LoadStep::Check {
        step = load_step(step, &FileOutcome::Done, "a", "/p").unwrap();
        seen.push(step);
    }
    assert_eq!(
        seen,
        vec![
            LoadStep::StatIdx,
            LoadStep::OpenIdx,
            LoadStep::MapIdx,
            LoadStep::OpenMp4,
            LoadStep::MapMp4,
            LoadStep::Check,
        ]
    );
}

#[test]
fn load_failures_are_internal_and_name_the_operation() {
    for (step, text) in [
        (LoadStep::StatIdx, "stat idx /p: denied"),
        (LoadStep::OpenIdx, "open idx /p: denied"),
        (LoadStep::MapIdx, "mmap idx /p: denied"),
        (LoadStep::OpenMp4, "open mp4 /p: denied"),
        (LoadStep::MapMp4, "mmap mp4 /p: denied"),
    ] {
        let outcome = FileOutcome::Failed("denied".to_string());
        match load_step(step, &outcome, "a", "/p") {
            Err(ApiError::Internal(msg)) => assert_eq!(msg, text),
            other => panic!("expected Internal, got {other:?}"),
        }
    }
}

#[test]
fn pair_check_reports_an_unreadable_index() {
    match check_pair(&[0u8; 3], true, 7, "abc") {
        Err(ApiError::Internal(msg)) => assert_eq!(
            msg,
            "open idx for `abc`: malformed `.idx` directory: file shorter than fixed header"
        ),
        other => panic!("expected Internal, got {other:?}"),
    }
}

#[test]
fn lru_evicts_oldest_when_capacity_exceeded() {
    let mut registry = IndexRegistry::new(2);
    assert_eq!(registry.cache_capacity(), 2);

    assert!(registry.insert("alpha", 1).evicted.is_none());
    assert!(registry.insert("beta", 2).evicted.is_none());
    assert!(registry.cache_peek("alpha"));
    assert!(registry.cache_peek("beta"));

    // Inserting a third key while capacity is 2 must evict the LRU
    // entry - `alpha` was inserted first and never touched since.
    let inserted = registry.insert("gamma", 3);
    assert_eq!(inserted.handle, 3);
    assert_eq!(inserted.evicted, Some(("alpha".to_string(), 1)));
    assert!(!registry.cache_peek("alpha"), "alpha should be evicted");
    assert!(registry.cache_peek("beta"));
    assert!(registry.cache_peek("gamma"));
}

#[test]
fn lookup_bumps_recency_so_idle_entry_is_evicted() {
    let mut registry = IndexRegistry::new(2);

    registry.insert("alpha", 1);
    registry.insert("beta", 2);
    // Touch alpha -> beta becomes the LRU candidate.
    assert_eq!(registry.lookup("alpha").expect("alpha resolves"), 1);

    registry.insert("gamma", 3);
    assert!(registry.cache_peek("alpha"), "alpha kept (touched)");
    assert!(!registry.cache_peek("beta"), "beta evicted (idle)");
    assert!(registry.cache_peek("gamma"));
}

#[test]
fn cache_new_clamps_zero_capacity_to_one() {
    let registry = IndexRegistry::new(0);
    assert_eq!(registry.cache_capacity(), 1);
}

#[test]
fn first_insert_wins() {
    let mut registry = IndexRegistry::new(2);
    registry.insert("alpha", 1);
    let second = registry.insert("alpha", 9);
    assert_eq!(second.handle, 1);
    assert!(second.evicted.is_none());
    assert!(matches!(registry.begin_get("alpha"), Ok(Some(1))));
}

/// Peeking is no use: the entry stays the least recently used one.
#[test]
fn peek_does_not_bump_recency() {
    let mut registry = IndexRegistry::new(2);
    registry.insert("alpha", 1);
    registry.insert("beta", 2);
    assert!(registry.cache_peek("alpha"));
    registry.insert("gamma", 3);
    assert!(!registry.cache_peek("alpha"));
}
