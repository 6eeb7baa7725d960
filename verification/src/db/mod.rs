//! The container: an archive's tables, and every question and change they
//! answer to.

/// A source's row as the columns it is kept in.
pub mod columns;
/// The file an archive is kept in.
pub mod file;
/// What questions and changes come to, row by row.
pub mod facts;
/// What holds of every archive.
pub mod laws;
/// What an archive holds, and what its questions and changes mean.
pub mod model;
/// The rows of the tables, each with what it belongs to.
pub mod records;
mod rows;
/// An archive: its tables, and every question and change they answer to.
pub mod store;
/// Rows in key order.
pub mod table;

use vstd::prelude::*;

verus! {

/// Bytes per page of a new archive, fixed at creation: small, because every
/// tick commits a small row.
pub const PAGE_SIZE: u32 = 4096;

} // verus!

pub use store::{Db, Tx};

pub use rows::{
    CallerRow, CallerView, Evicted, PageStats, SegmentMeta, SegmentRow, SegmentView, SourceMeta,
    SourceMetaView, SourceRow, SourceView, Span, WalRow, WalView,
};
