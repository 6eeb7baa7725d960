//! Rewriting an archive: combining, trimming, time-bounding and compacting.

/// Which columns, streams and sources are picked.
pub mod choices;
/// Compaction.
pub mod compact;
/// What a compaction leaves of a stream.
pub mod compaction;
/// Copying sources.
pub mod copy;
/// What a copy takes across.
pub mod copies;
/// Numbers written as differences.
pub mod deltas;
/// Footers of parquet files.
pub mod footer;
/// Headers of pages.
pub mod headers;
/// What holds of every rewrite.
pub mod laws;
/// Levels of columns.
pub mod levels;
/// Merging segments.
pub mod merge;
/// When segments can be merged or projected.
pub mod merging;
/// Pages of parquet files.
pub mod pages;
/// Segments as parquet files.
pub mod parquet_file;
/// Projection.
pub mod project;
/// Which segments can be read.
pub mod readable;

pub use compact::{compact, compact_stream, CompactSpec, Compacted};
pub use copy::{accepted_streams, copy_sources_into, shared_sources, CopySpec};
pub use merge::SchemaPolicy;
pub use project::{project_segment_columns, ColumnFilter};
