//! A segmented archive with a write-ahead log: rows go to the log a tick at a
//! time, a stream's rows are sealed into one parquet segment at a time, and what
//! is read is the segments and whatever the log still holds.
//!
//! An archive knows sources, streams and timestamps. What a row's bytes mean is
//! the caller's, behind [`SegmentEncoder`](segment::SegmentEncoder).
//!
//! - [`db`] is the container: its tables, what they answer, and what every change
//!   does to them.
//! - [`writer`] decides what a tick commits, what a seal writes, and what a
//!   failure means.
//! - [`read`] gives a stream as segments, and an archive as a catalog.
//! - [`rewrite`] compacts, projects and copies.
//! - [`replicate`] turns an archive into frames and frames into an archive.
//!
//! Each states its meaning in spec functions over views, its functions in
//! contracts over those, and what holds across functions in `law_` proofs.

/// The container: an archive's tables.
pub mod db;
/// What can go wrong, and what to do about it.
pub mod error;
/// The metadata keys that mean something to an archive.
pub mod keys;
/// Lists of names.
pub mod names;
/// Reading an archive.
pub mod read;
/// What holds of every read.
pub mod reading;
/// Replication.
pub mod replicate;
/// Rewriting an archive.
pub mod rewrite;
/// Segments, and the encoder that makes them.
pub mod segment;
/// Sequences and their views.
pub mod seqs;
/// Values under keys.
pub mod slots;
/// Texts.
pub mod text;
/// Texts under texts, in order.
pub mod text_map;
/// The writer's decisions.
pub mod writer;
