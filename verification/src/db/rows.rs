//! What the archive's tables hold.

use vstd::prelude::*;

use crate::seqs;
use crate::seqs::{copy_bytes, copy_opt_bytes, copy_opt_text};
use crate::text_map::{Entry, TextMap};

verus! {

/// One source's identity: everything known when the source starts.
#[derive(Debug, PartialEq, Eq)]
pub struct SourceMeta {
    /// What distinguishes this source from the others.
    pub labels: TextMap,
    /// The caller's metadata. See [`crate::keys`].
    pub metadata: TextMap,
    /// Wall-clock reading (ns since epoch) at source start. Row timestamps are
    /// `anchor + monotonic elapsed`, so this pins the timeline to wall time.
    pub clock_anchor_wall_ns: i64,
}

/// A source's identity, as mathematics.
pub struct SourceMetaView {
    pub labels: Seq<Entry>,
    pub metadata: Seq<Entry>,
    pub clock_anchor_wall_ns: i64,
}

impl View for SourceMeta {
    type V = SourceMetaView;

    open spec fn view(&self) -> SourceMetaView {
        SourceMetaView {
            labels: self.labels@,
            metadata: self.metadata@,
            clock_anchor_wall_ns: self.clock_anchor_wall_ns,
        }
    }
}

impl Clone for SourceMeta {
    fn clone(&self) -> (r: SourceMeta)
        ensures
            r@ == self@,
    {
        SourceMeta {
            labels: self.labels.clone(),
            metadata: self.metadata.clone(),
            clock_anchor_wall_ns: self.clock_anchor_wall_ns,
        }
    }
}

/// A row of the `sources` table.
#[derive(Debug, PartialEq, Eq)]
pub struct SourceRow {
    /// The row's id, which names the source within one archive.
    pub id: i64,
    /// The source's identity across files. `None` for a source written before
    /// the column existed.
    pub uuid: Option<String>,
    /// Everything known when the source started.
    pub meta: SourceMeta,
    /// Whether the source was cleanly finalized.
    pub complete: bool,
}

/// A row of the `sources` table, as mathematics.
pub struct SourceView {
    pub id: i64,
    pub uuid: Option<Seq<char>>,
    pub meta: SourceMetaView,
    pub complete: bool,
}

impl View for SourceRow {
    type V = SourceView;

    open spec fn view(&self) -> SourceView {
        SourceView {
            id: self.id,
            uuid: seqs::opt_view(self.uuid),
            meta: self.meta@,
            complete: self.complete,
        }
    }
}

impl Clone for SourceRow {
    fn clone(&self) -> (r: SourceRow)
        ensures
            r@ == self@,
    {
        SourceRow {
            id: self.id,
            uuid: copy_opt_text(&self.uuid),
            meta: self.meta.clone(),
            complete: self.complete,
        }
    }
}

/// The catalog facts about one sealed segment.
#[derive(Clone, Copy, Debug, PartialEq, Eq, Structural)]
pub struct SegmentMeta {
    /// How many rows it holds.
    pub rows: u64,
    /// The timestamp of its first row.
    pub first_ts: i64,
    /// The timestamp of its last row.
    pub last_ts: i64,
}

impl View for SegmentMeta {
    type V = SegmentMeta;

    open spec fn view(&self) -> SegmentMeta {
        *self
    }
}

/// A row of the `segments` table for one `(source, stream)`.
#[derive(Debug, PartialEq, Eq)]
pub struct SegmentRow {
    /// The segment's place in its stream.
    pub seq: u64,
    /// The catalog facts about it.
    pub meta: SegmentMeta,
    /// The segment itself: one parquet file.
    pub bytes: Vec<u8>,
    /// The caller's index over it, which the archive never reads.
    pub caller_index: Option<Vec<u8>>,
}

/// A row of the `segments` table, as mathematics.
pub struct SegmentView {
    pub seq: u64,
    pub meta: SegmentMeta,
    pub bytes: Seq<u8>,
    pub caller_index: Option<Seq<u8>>,
}

impl View for SegmentRow {
    type V = SegmentView;

    open spec fn view(&self) -> SegmentView {
        SegmentView {
            seq: self.seq,
            meta: self.meta,
            bytes: self.bytes@,
            caller_index: seqs::opt_view(self.caller_index),
        }
    }
}

impl Clone for SegmentRow {
    fn clone(&self) -> (r: SegmentRow)
        ensures
            r@ == self@,
    {
        SegmentRow {
            seq: self.seq,
            meta: self.meta,
            bytes: copy_bytes(&self.bytes),
            caller_index: copy_opt_bytes(&self.caller_index),
        }
    }
}

/// A row of the `wal` table: one timestamped payload on one stream. The
/// payload is opaque; only the caller's encoder decodes it.
#[derive(Debug, PartialEq, Eq)]
pub struct WalRow {
    /// The stream the row is on.
    pub stream: String,
    /// Its timestamp, which no other row of its stream and source has.
    pub ts: i64,
    /// Wall time minus `ts` when the row was taken.
    pub wall_offset: i64,
    /// The payload.
    pub row: Vec<u8>,
}

/// A row of the `wal` table, as mathematics.
pub struct WalView {
    pub stream: Seq<char>,
    pub ts: i64,
    pub wall_offset: i64,
    pub row: Seq<u8>,
}

impl View for WalRow {
    type V = WalView;

    open spec fn view(&self) -> WalView {
        WalView {
            stream: self.stream@,
            ts: self.ts,
            wall_offset: self.wall_offset,
            row: self.row@,
        }
    }
}

impl Clone for WalRow {
    fn clone(&self) -> (r: WalRow)
        ensures
            r@ == self@,
    {
        WalRow {
            stream: self.stream.clone(),
            ts: self.ts,
            wall_offset: self.wall_offset,
            row: copy_bytes(&self.row),
        }
    }
}

/// An opaque row the caller keeps against a stream and a timestamp.
#[derive(Debug, PartialEq, Eq)]
pub struct CallerRow {
    /// When it holds from.
    pub ts: i64,
    /// What it says, which the archive never reads.
    pub blob: Vec<u8>,
}

/// A caller's row, as mathematics.
pub struct CallerView {
    pub ts: i64,
    pub blob: Seq<u8>,
}

impl View for CallerRow {
    type V = CallerView;

    open spec fn view(&self) -> CallerView {
        CallerView { ts: self.ts, blob: self.blob@ }
    }
}

impl Clone for CallerRow {
    fn clone(&self) -> (r: CallerRow)
        ensures
            r@ == self@,
    {
        CallerRow { ts: self.ts, blob: copy_bytes(&self.blob) }
    }
}

/// What one retention pass removed.
#[derive(Clone, Copy, Debug, PartialEq, Eq, Structural)]
pub struct Evicted {
    /// Segments removed.
    pub segments: usize,
    /// WAL rows removed.
    pub wal_rows: usize,
    /// Of the WAL rows removed, those that no segment held.
    pub live_rows: usize,
}

/// How many rows a table holds and what time span they cover. `first_ts` and
/// `last_ts` are `None` when there are no rows.
#[derive(Clone, Copy, Debug, PartialEq, Eq, Structural)]
pub struct Span {
    /// How many rows there are.
    pub rows: u64,
    /// The oldest timestamp.
    pub first_ts: Option<i64>,
    /// The newest timestamp.
    pub last_ts: Option<i64>,
}

/// How an archive's pages stand.
#[derive(Clone, Copy, Debug, PartialEq, Eq, Structural)]
pub struct PageStats {
    /// Pages in the file.
    pub pages: u32,
    /// Of those, how many are on the free list: reusable, but not yet returned
    /// to the filesystem.
    pub free: u32,
    /// Bytes per page, fixed at creation.
    pub page_size: u32,
}

} // verus!
