//! Reserved keys of a source's metadata.
//!
//! The metadata map is the caller's, and the archive reads none of it but
//! [`ENCODER`]. These are the keys with an agreed meaning across callers, so
//! that a tool built on one producer's archives can read another's. The writer
//! itself writes [`WRITER_SESSIONS`] and [`ENCODER`], plus an [`EVENTS`] entry
//! when a source is resumed.

use vstd::prelude::*;

verus! {

/// The observed producer's current counter epoch: an opaque id the producer
/// regenerates whenever all of its cumulative counters start from zero
/// together. Absent means unknown.
pub const PRODUCER_EPOCH: &'static str = "producer_epoch";

/// Every epoch the source observed, in order: a JSON array of
/// `{"epoch": <id>, "from_ts": <first row timestamp>}`.
pub const PRODUCER_EPOCHS: &'static str = "producer_epochs";

/// Every writer session that appended to the source, in order: a JSON array of
/// `{"session": <uuid>, "clock_anchor_wall_ns": <anchor>, "dendro": <crate
/// version>, "resumed_after_ts": <ts>}`. `resumed_after_ts` appears only on a
/// session that reopened the archive.
pub const WRITER_SESSIONS: &'static str = "writer_sessions";

/// Timeline events: JSON `{"events": [ { "timestamp": <ts>, "description":
/// <text>, "kind": <tag>, "details": <text>, "id": <stable id> } ]}`. The
/// writer appends to the array and never replaces it.
pub const EVENTS: &'static str = "events";

/// The version of the software that produced the source's values, as an opaque
/// string. It must distinguish builds, not releases.
pub const PRODUCER_VERSION: &'static str = "producer_version";

/// The version of the encoder that wrote the source's rows. A reader whose
/// encoder reports a different version is refused.
pub const ENCODER: &'static str = "encoder";

} // verus!
