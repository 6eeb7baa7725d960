//! What can go wrong with an archive.

use std::sync::Arc;
use vstd::prelude::*;
use vstd::string::*;

use crate::text;
use crate::text::{append_number, append_signed};

verus! {

/// Why a handle will not write.
#[derive(Clone, Copy, Debug, PartialEq, Eq, Structural)]
pub enum ReadOnly {
    /// The handle was opened to read.
    Handle,
    /// A legacy-schema archive, which is read through compatibility views.
    LegacySchema,
}

/// The primary result codes of the store that the archive acts upon, and one
/// for all the others.
#[derive(Clone, Copy, Debug, PartialEq, Eq, Structural)]
pub enum ErrorCode {
    /// The database file is locked.
    DatabaseBusy,
    /// A table in the database is locked.
    DatabaseLocked,
    /// An allocation failed.
    OutOfMemory,
    /// The operation was interrupted.
    OperationInterrupted,
    /// Some kind of disk I/O error occurred.
    SystemIoFailure,
    /// The disk is full.
    DiskFull,
    /// The schema changed under a prepared statement.
    SchemaChanged,
    /// A constraint was violated.
    ConstraintViolation,
    /// Any other code.
    Other,
}

/// The code that a result code of the store stands for: its low byte decides.
pub open spec fn code_of(result_code: i32) -> ErrorCode {
    let primary = result_code & 0xff;
    if primary == 5 {
        ErrorCode::DatabaseBusy
    } else if primary == 6 {
        ErrorCode::DatabaseLocked
    } else if primary == 7 {
        ErrorCode::OutOfMemory
    } else if primary == 9 {
        ErrorCode::OperationInterrupted
    } else if primary == 10 {
        ErrorCode::SystemIoFailure
    } else if primary == 13 {
        ErrorCode::DiskFull
    } else if primary == 17 {
        ErrorCode::SchemaChanged
    } else if primary == 19 {
        ErrorCode::ConstraintViolation
    } else {
        ErrorCode::Other
    }
}

/// `rusqlite::ffi::Error::new`: an extended result code narrows a primary one,
/// which is its low byte, and the primary code alone decides the class.
#[verifier::external_body]
fn primary_code(result_code: i32) -> (r: ErrorCode)
    ensures
        r == code_of(result_code),
{
    match rusqlite::ffi::Error::new(result_code).code {
        rusqlite::ErrorCode::DatabaseBusy => ErrorCode::DatabaseBusy,
        rusqlite::ErrorCode::DatabaseLocked => ErrorCode::DatabaseLocked,
        rusqlite::ErrorCode::OutOfMemory => ErrorCode::OutOfMemory,
        rusqlite::ErrorCode::OperationInterrupted => ErrorCode::OperationInterrupted,
        rusqlite::ErrorCode::SystemIoFailure => ErrorCode::SystemIoFailure,
        rusqlite::ErrorCode::DiskFull => ErrorCode::DiskFull,
        rusqlite::ErrorCode::SchemaChanged => ErrorCode::SchemaChanged,
        rusqlite::ErrorCode::ConstraintViolation => ErrorCode::ConstraintViolation,
        _ => ErrorCode::Other,
    }
}

/// The result code of a primary key violated.
pub const PRIMARY_KEY_VIOLATED: i32 = 1555;

/// The result code of a reference to a row that is not there.
pub const FOREIGN_KEY_VIOLATED: i32 = 787;

/// A violated key is a violated constraint.
pub proof fn lemma_key_codes()
    ensures
        code_of(PRIMARY_KEY_VIOLATED) == ErrorCode::ConstraintViolation,
        code_of(FOREIGN_KEY_VIOLATED) == ErrorCode::ConstraintViolation,
{
    assert(1555i32 & 0xff == 19) by (bit_vector);
    assert(787i32 & 0xff == 19) by (bit_vector);
}

/// An error from an archive operation.
#[derive(Debug, PartialEq, Eq)]
pub enum Error {
    /// The archive exists already; creating one refuses rather than appending
    /// or truncating. Carries the path.
    AlreadyExists(String),
    /// The handle cannot write, and this says which kind of cannot.
    ReadOnly(ReadOnly),
    /// The file's schema is one this build does not know.
    UnsupportedSchema {
        /// The version the file carries.
        found: i64,
        /// The schema version this build writes.
        writes: i64,
        /// The oldest schema version this build reads.
        reads: i64,
    },
    /// The archive says its rows were written by one encoder version and the
    /// caller is reading with another.
    EncoderMismatch {
        /// The source the mismatch was found on.
        source_id: i64,
        /// The encoder version recorded when the source was written.
        wrote: String,
        /// The version the reading encoder reports now.
        reading: String,
    },
    /// A resumed source was handed rows at or before the newest row its
    /// previous writer session left, or a resume anchor at or before it.
    TimelineBackwards {
        /// The resumed source.
        source_id: i64,
        /// The timestamp that was refused.
        ts: i64,
        /// The newest row the previous writer session left.
        floor: i64,
    },
    /// The file is not an archive.
    NotAnArchive {
        /// The file, or `<bytes>` for an archive opened from memory.
        what: String,
        /// Why it is none.
        reason: String,
    },
    /// The caller's encoder failed.
    Encoder {
        /// The stream whose rows it was encoding.
        stream: String,
        /// What the encoder said.
        source: String,
    },
    /// The encoder returned a segment that does not describe the rows it was
    /// given. An encoder may drop rows; it may not invent coverage.
    EncoderContract {
        /// The stream whose rows it was encoding.
        stream: String,
        /// What the segment claimed against what the rows hold.
        detail: String,
    },
    /// The writer failed, and this is what it failed with. Shared, because
    /// every handle on the archive reports the same failure.
    Writer(Arc<Error>),
    /// The writer is gone and left no error.
    WriterGone,
    /// The store returned an error.
    Sqlite {
        /// What was being done. Empty for a bare conversion.
        context: String,
        /// The store's extended result code, where it gave one.
        result_code: Option<i32>,
        /// What the store said.
        message: String,
    },
    /// Anything else, with the sentence that describes it.
    Message(String),
}

/// What an error says, as mathematics.
pub enum ErrorView {
    AlreadyExists(Seq<char>),
    ReadOnly(ReadOnly),
    UnsupportedSchema { found: i64, writes: i64, reads: i64 },
    EncoderMismatch { source_id: i64, wrote: Seq<char>, reading: Seq<char> },
    TimelineBackwards { source_id: i64, ts: i64, floor: i64 },
    NotAnArchive { what: Seq<char>, reason: Seq<char> },
    Encoder { stream: Seq<char>, source: Seq<char> },
    EncoderContract { stream: Seq<char>, detail: Seq<char> },
    Writer(Box<ErrorView>),
    WriterGone,
    Sqlite { context: Seq<char>, result_code: Option<i32>, message: Seq<char> },
    Message(Seq<char>),
}

/// The view of an error.
pub open spec fn error_view(e: Error) -> ErrorView
    decreases e,
{
    match e {
        Error::AlreadyExists(p) => ErrorView::AlreadyExists(p@),
        Error::ReadOnly(r) => ErrorView::ReadOnly(r),
        Error::UnsupportedSchema { found, writes, reads } => ErrorView::UnsupportedSchema {
            found,
            writes,
            reads,
        },
        Error::EncoderMismatch { source_id, wrote, reading } => ErrorView::EncoderMismatch {
            source_id,
            wrote: wrote@,
            reading: reading@,
        },
        Error::TimelineBackwards { source_id, ts, floor } => ErrorView::TimelineBackwards {
            source_id,
            ts,
            floor,
        },
        Error::NotAnArchive { what, reason } => ErrorView::NotAnArchive {
            what: what@,
            reason: reason@,
        },
        Error::Encoder { stream, source } => ErrorView::Encoder {
            stream: stream@,
            source: source@,
        },
        Error::EncoderContract { stream, detail } => ErrorView::EncoderContract {
            stream: stream@,
            detail: detail@,
        },
        Error::Writer(inner) => ErrorView::Writer(Box::new(error_view(*inner))),
        Error::WriterGone => ErrorView::WriterGone,
        Error::Sqlite { context, result_code, message } => ErrorView::Sqlite {
            context: context@,
            result_code,
            message: message@,
        },
        Error::Message(m) => ErrorView::Message(m@),
    }
}

impl View for Error {
    type V = ErrorView;

    open spec fn view(&self) -> ErrorView {
        error_view(*self)
    }
}

/// The underlying failure, looking through the writer's wrapping.
pub open spec fn root_of(e: ErrorView) -> ErrorView
    decreases e,
{
    match e {
        ErrorView::Writer(inner) => root_of(*inner),
        other => other,
    }
}

/// The store's code of an error, where the store raised it with one.
pub open spec fn sqlite_code_of(e: ErrorView) -> Option<ErrorCode> {
    match root_of(e) {
        ErrorView::Sqlite { context, result_code, message } => match result_code {
            Some(c) => Some(code_of(c)),
            None => None,
        },
        _ => None,
    }
}

/// Whether an error is a condition that can clear on its own.
pub open spec fn retryable(e: ErrorView) -> bool {
    match sqlite_code_of(e) {
        Some(code) => code != ErrorCode::ConstraintViolation && code != ErrorCode::Other,
        None => false,
    }
}

/// Whether an error is a violated constraint.
pub open spec fn constraint(e: ErrorView) -> bool {
    sqlite_code_of(e) == Some(ErrorCode::ConstraintViolation)
}

/// No error is both: what can clear on its own is not a violated constraint.
pub proof fn law_retryable_is_no_constraint(e: ErrorView)
    ensures
        !(retryable(e) && constraint(e)),
{
}

/// The writer's wrapping changes no classification: every handle sees the
/// writer's failure wrapped, and classifies it as the failure itself.
pub proof fn law_wrapping_keeps_the_class(e: ErrorView)
    ensures
        root_of(ErrorView::Writer(Box::new(e))) == root_of(e),
        sqlite_code_of(ErrorView::Writer(Box::new(e))) == sqlite_code_of(e),
        retryable(ErrorView::Writer(Box::new(e))) == retryable(e),
        constraint(ErrorView::Writer(Box::new(e))) == constraint(e),
{
}

/// A context changes no classification: only the result code counts.
pub proof fn law_context_keeps_the_class(
    context: Seq<char>,
    other: Seq<char>,
    result_code: Option<i32>,
    message: Seq<char>,
)
    ensures
        retryable(ErrorView::Sqlite { context, result_code, message }) == retryable(
            ErrorView::Sqlite { context: other, result_code, message },
        ),
        constraint(ErrorView::Sqlite { context, result_code, message }) == constraint(
            ErrorView::Sqlite { context: other, result_code, message },
        ),
{
}

/// How `std::fmt::Debug` spells a text: in quotes, with escapes.
pub uninterp spec fn debug_text(s: Seq<char>) -> Seq<char>;

/// `std::fmt::Debug` for `str`, through `format!`: the text in quotes, with
/// escapes, which is a function of the text alone.
#[verifier::external_body]
fn quoted(s: &str) -> (r: String)
    ensures
        r@ == debug_text(s@),
{
    format!("{s:?}")
}

/// The sentence an error is.
pub open spec fn error_text(e: ErrorView) -> Seq<char>
    decreases e,
{
    match e {
        ErrorView::AlreadyExists(p) => p + " already exists"@,
        ErrorView::ReadOnly(
            ReadOnly::Handle,
        ) => "this archive was opened read-only; reopen it with `Db::open` to modify it"@,
        ErrorView::ReadOnly(
            ReadOnly::LegacySchema,
        ) => "this archive uses a legacy schema, which is readable but not writable by this build; copy it forward first"@,
        ErrorView::UnsupportedSchema { found, writes, reads } => "unsupported archive schema version "@
            + text::signed_decimal(found as int) + ": this build writes v"@ + text::signed_decimal(
            writes as int,
        ) + " and reads v"@ + text::signed_decimal(reads as int),
        ErrorView::EncoderMismatch { source_id, wrote, reading } => "source "@ + text::signed_decimal(
            source_id as int,
        ) + " was written with encoder version "@ + debug_text(wrote)
            + " and is being read with "@ + debug_text(reading)
            + "; the rows are the encoder's bytes, so a different version is not guaranteed to decode them the same way"@,
        ErrorView::TimelineBackwards { source_id, ts, floor } => "source "@ + text::signed_decimal(
            source_id as int,
        ) + ": timestamp "@ + text::signed_decimal(ts as int)
            + " is not after the newest row its previous writer session left ("@ + text::signed_decimal(
            floor as int,
        )
            + "); the clock went backwards across the restart, and rows would collide or run backwards"@,
        ErrorView::NotAnArchive { what, reason } => what + ": not a dendro archive: "@ + reason,
        ErrorView::Encoder { stream, source } => "failed to encode a "@ + stream + " segment: "@
            + source,
        ErrorView::EncoderContract { stream, detail } => "the encoder returned a segment for "@
            + stream + " that does not describe the rows it was given: "@ + detail,
        ErrorView::Writer(inner) => error_text(*inner),
        ErrorView::WriterGone => "the archive writer thread exited before the source finished"@,
        ErrorView::Sqlite { context, result_code, message } => if context.len() == 0 {
            message
        } else {
            context + ": "@ + message
        },
        ErrorView::Message(m) => m,
    }
}

impl Error {
    /// An error of the store: `context` names what was being done, and the
    /// result code travels with it.
    pub fn sqlite(context: String, result_code: Option<i32>, message: String) -> (r: Error)
        ensures
            r@ == (ErrorView::Sqlite { context: context@, result_code, message: message@ }),
    {
        Error::Sqlite { context, result_code, message }
    }

    /// The same failure again, for every handle that reports it.
    pub fn copied(&self) -> (r: Error)
        ensures
            r@ == self@,
        decreases self,
    {
        match self {
            Error::AlreadyExists(p) => Error::AlreadyExists(p.clone()),
            Error::ReadOnly(r) => Error::ReadOnly(*r),
            Error::UnsupportedSchema { found, writes, reads } => Error::UnsupportedSchema {
                found: *found,
                writes: *writes,
                reads: *reads,
            },
            Error::EncoderMismatch { source_id, wrote, reading } => Error::EncoderMismatch {
                source_id: *source_id,
                wrote: wrote.clone(),
                reading: reading.clone(),
            },
            Error::TimelineBackwards { source_id, ts, floor } => Error::TimelineBackwards {
                source_id: *source_id,
                ts: *ts,
                floor: *floor,
            },
            Error::NotAnArchive { what, reason } => Error::NotAnArchive {
                what: what.clone(),
                reason: reason.clone(),
            },
            Error::Encoder { stream, source } => Error::Encoder {
                stream: stream.clone(),
                source: source.clone(),
            },
            Error::EncoderContract { stream, detail } => Error::EncoderContract {
                stream: stream.clone(),
                detail: detail.clone(),
            },
            Error::Writer(inner) => Error::Writer(Arc::new(inner.copied())),
            Error::WriterGone => Error::WriterGone,
            Error::Sqlite { context, result_code, message } => Error::Sqlite {
                context: context.clone(),
                result_code: *result_code,
                message: message.clone(),
            },
            Error::Message(m) => Error::Message(m.clone()),
        }
    }

    /// The underlying failure, looking through [`Error::Writer`].
    pub fn root(&self) -> (r: &Error)
        ensures
            r@ == root_of(self@),
            r !is Writer,
        decreases self,
    {
        match self {
            Error::Writer(inner) => inner.root(),
            other => other,
        }
    }

    /// The store's primary result code, when this error (or the writer failure
    /// it wraps) is the store's. `None` for everything else, including an
    /// error that the store raised without a code.
    pub fn sqlite_code(&self) -> (r: Option<ErrorCode>)
        ensures
            r == sqlite_code_of(self@),
    {
        match self.root() {
            Error::Sqlite { result_code: Some(code), .. } => Some(primary_code(*code)),
            _ => None,
        }
    }

    /// A condition that can clear on its own: another connection's lock, a
    /// full disk, an interrupted call, memory pressure, a schema change under
    /// a prepared statement.
    pub fn is_retryable(&self) -> (r: bool)
        ensures
            r == retryable(self@),
    {
        match self.sqlite_code() {
            Some(ErrorCode::ConstraintViolation) => false,
            Some(ErrorCode::Other) => false,
            Some(_) => true,
            None => false,
        }
    }

    /// A uniqueness or other constraint violation: the row is wrong, the
    /// database is fine.
    pub fn is_constraint(&self) -> (r: bool)
        ensures
            r == constraint(self@),
    {
        match self.sqlite_code() {
            Some(ErrorCode::ConstraintViolation) => true,
            _ => false,
        }
    }

    /// The sentence this error is.
    pub fn to_string(&self) -> (r: String)
        ensures
            r@ == error_text(self@),
        decreases self,
    {
        match self {
            Error::AlreadyExists(p) => p.clone().concat(" already exists"),
            Error::ReadOnly(ReadOnly::Handle) => String::from_str(
                "this archive was opened read-only; reopen it with `Db::open` to modify it",
            ),
            Error::ReadOnly(ReadOnly::LegacySchema) => String::from_str(
                "this archive uses a legacy schema, which is readable but not writable by this build; copy it forward first",
            ),
            Error::UnsupportedSchema { found, writes, reads } => {
                let mut s = String::from_str("unsupported archive schema version ");
                append_signed(&mut s, *found);
                s.append(": this build writes v");
                append_signed(&mut s, *writes);
                s.append(" and reads v");
                append_signed(&mut s, *reads);
                s
            },
            Error::EncoderMismatch { source_id, wrote, reading } => {
                let mut s = String::from_str("source ");
                append_signed(&mut s, *source_id);
                s.append(" was written with encoder version ");
                s.append(quoted(wrote.as_str()).as_str());
                s.append(" and is being read with ");
                s.append(quoted(reading.as_str()).as_str());
                s.append(
                    "; the rows are the encoder's bytes, so a different version is not guaranteed to decode them the same way",
                );
                s
            },
            Error::TimelineBackwards { source_id, ts, floor } => {
                let mut s = String::from_str("source ");
                append_signed(&mut s, *source_id);
                s.append(": timestamp ");
                append_signed(&mut s, *ts);
                s.append(" is not after the newest row its previous writer session left (");
                append_signed(&mut s, *floor);
                s.append(
                    "); the clock went backwards across the restart, and rows would collide or run backwards",
                );
                s
            },
            Error::NotAnArchive { what, reason } => {
                let mut s = what.clone();
                s.append(": not a dendro archive: ");
                s.append(reason.as_str());
                s
            },
            Error::Encoder { stream, source } => {
                let mut s = String::from_str("failed to encode a ");
                s.append(stream.as_str());
                s.append(" segment: ");
                s.append(source.as_str());
                s
            },
            Error::EncoderContract { stream, detail } => {
                let mut s = String::from_str("the encoder returned a segment for ");
                s.append(stream.as_str());
                s.append(" that does not describe the rows it was given: ");
                s.append(detail.as_str());
                s
            },
            Error::Writer(inner) => inner.to_string(),
            Error::WriterGone => String::from_str(
                "the archive writer thread exited before the source finished",
            ),
            Error::Sqlite { context, message, .. } => {
                if context.as_str().is_empty() {
                    message.clone()
                } else {
                    let mut s = context.clone();
                    s.append(": ");
                    s.append(message.as_str());
                    s
                }
            },
            Error::Message(m) => m.clone(),
        }
    }
}

/// The text of an amount of bytes over a limit of so many: `of` names the
/// thing.
pub open spec fn over_limit_text(of: Seq<char>, n: nat, middle: Seq<char>, limit: nat) -> Seq<char> {
    of + text::decimal(n) + middle + text::decimal(limit) + "-byte limit"@
}

/// The sentence of an amount of bytes over a limit of so many.
pub fn over_limit(of: &str, n: u64, middle: &str, limit: u64) -> (r: Error)
    ensures
        r@ == ErrorView::Message(over_limit_text(of@, n as nat, middle@, limit as nat)),
{
    let mut s = String::from_str(of);
    append_number(&mut s, n);
    s.append(middle);
    append_number(&mut s, limit);
    s.append("-byte limit");
    Error::Message(s)
}

impl From<String> for Error {
    fn from(m: String) -> (r: Error) {
        Error::Message(m)
    }
}

impl vstd::std_specs::convert::FromSpecImpl<String> for Error {
    open spec fn obeys_from_spec() -> bool {
        true
    }

    open spec fn from_spec(m: String) -> Error {
        Error::Message(m)
    }
}

} // verus!
