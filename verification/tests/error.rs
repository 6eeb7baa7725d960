//! What can go wrong, and what to do about it.

use std::sync::Arc;

use dendro::error::{Error, ErrorCode, ReadOnly};

fn sqlite(code: i32) -> Error {
    Error::sqlite(String::new(), Some(code), "it failed".to_string())
}

/// The writer's whole recovery policy rests on this classification: what to
/// retry, what to isolate to one source, what to stop on.
#[test]
fn classifies_sqlite_result_codes() {
    for code in [
        rusqlite::ffi::SQLITE_BUSY,
        rusqlite::ffi::SQLITE_LOCKED,
        rusqlite::ffi::SQLITE_FULL,
        rusqlite::ffi::SQLITE_IOERR,
        rusqlite::ffi::SQLITE_NOMEM,
        rusqlite::ffi::SQLITE_INTERRUPT,
        rusqlite::ffi::SQLITE_SCHEMA,
    ] {
        let e = sqlite(code);
        assert!(e.is_retryable(), "{code}: {e:?}");
        assert!(!e.is_constraint(), "{code}: {e:?}");
    }
    let constraint = sqlite(rusqlite::ffi::SQLITE_CONSTRAINT);
    assert!(constraint.is_constraint() && !constraint.is_retryable());
    // The extended code narrows it and the primary code still classifies.
    let pk = sqlite(rusqlite::ffi::SQLITE_CONSTRAINT_PRIMARYKEY);
    assert!(pk.is_constraint());
    for code in [
        rusqlite::ffi::SQLITE_CORRUPT,
        rusqlite::ffi::SQLITE_READONLY,
        rusqlite::ffi::SQLITE_MISUSE,
        rusqlite::ffi::SQLITE_NOTADB,
    ] {
        let e = sqlite(code);
        assert!(!e.is_retryable() && !e.is_constraint(), "{code}: {e:?}");
    }
    // Not SQLite's at all: never retried.
    assert!(!Error::Message("bad json".into()).is_retryable());
    assert_eq!(Error::Message("x".into()).sqlite_code(), None);
}

/// Context keeps the code, and the writer's shared wrapper is looked through.
#[test]
fn context_and_writer_wrapping_keep_the_code() {
    let wrapped = Error::sqlite(
        "inserting a row".to_string(),
        Some(rusqlite::ffi::SQLITE_BUSY),
        "database is locked".to_string(),
    );
    assert!(wrapped.is_retryable());
    assert!(
        wrapped.to_string().starts_with("inserting a row: "),
        "{wrapped:?}"
    );
    assert!(
        wrapped.to_string().ends_with("database is locked"),
        "the SQLite error is the source"
    );

    let via_writer = Error::Writer(Arc::new(wrapped));
    assert!(via_writer.is_retryable());
    assert_eq!(via_writer.sqlite_code(), Some(ErrorCode::DatabaseBusy));

    // One without context prints SQLite's message alone.
    let bare = sqlite(rusqlite::ffi::SQLITE_FULL);
    assert!(!bare.to_string().starts_with(": "), "{bare:?}");
}

#[test]
fn every_refusal_says_what_it_is() {
    assert_eq!(
        Error::AlreadyExists("a.dendro".to_string()).to_string(),
        "a.dendro already exists"
    );
    for (e, parts) in [
        (
            Error::UnsupportedSchema { found: 9, writes: 4, reads: 3 },
            vec!["9", "4", "3"],
        ),
        (
            Error::EncoderMismatch {
                source_id: 2,
                wrote: "v1".to_string(),
                reading: "v2".to_string(),
            },
            vec!["2", "\"v1\"", "\"v2\""],
        ),
        (
            Error::TimelineBackwards { source_id: 7, ts: -5, floor: 11 },
            vec!["7", "-5", "11"],
        ),
        (
            Error::Encoder { stream: "cpu".to_string(), source: "no anchor".to_string() },
            vec!["cpu", "no anchor"],
        ),
        (
            Error::EncoderContract { stream: "cpu".to_string(), detail: "it claims".to_string() },
            vec!["cpu", "it claims"],
        ),
        (
            Error::NotAnArchive { what: "x".to_string(), reason: "too short".to_string() },
            vec!["x", "too short"],
        ),
    ] {
        let text = e.to_string();
        for part in parts {
            assert!(text.contains(part), "{text} should say {part}");
        }
    }
    assert_ne!(
        Error::ReadOnly(ReadOnly::Handle).to_string(),
        Error::ReadOnly(ReadOnly::LegacySchema).to_string()
    );
}

#[test]
fn wrapping_a_failure_keeps_its_class_and_its_text() {
    let inner = sqlite(rusqlite::ffi::SQLITE_FULL);
    let text = inner.to_string();
    let outer = Error::Writer(Arc::new(Error::Writer(Arc::new(inner.copied()))));
    assert_eq!(outer.root().to_string(), text);
    assert_eq!(outer.sqlite_code(), Some(ErrorCode::DiskFull));
    assert!(outer.is_retryable() && !outer.is_constraint());
}
