//! What a publisher emits and a subscriber applies.

use vstd::prelude::*;

use crate::db::{SegmentMeta, WalRow, WalView};
use crate::seqs;
use crate::text_map::{Entry, TextMap};

verus! {

/// The hash a publisher declares over its index state, and the only thing a
/// subscriber compares.
pub type IndexState = (u64, u64);

/// The state a stream starts at: no index entry has been applied. A publisher
/// that has an index never declares it.
pub const NO_INDEX_STATE: (u64, u64) = (0, 0);

/// Whether an index frame carries the whole slot set or a change to it.
#[derive(Clone, Copy, Debug, PartialEq, Eq, Structural)]
pub enum IndexKind {
    /// Every live slot.
    Full,
    /// Slots added or changed since the previous entry.
    Delta,
}

impl View for IndexKind {
    type V = IndexKind;

    open spec fn view(&self) -> IndexKind {
        *self
    }
}

/// One unit of replication. Every variant carries `source`, the ordinal its
/// handshake assigned.
#[derive(Debug, PartialEq, Eq)]
pub enum Frame {
    /// A source's identity, and the ordinal every later frame for it carries.
    Handshake {
        /// The ordinal later frames use.
        source: u32,
        /// The source's identity across files, where it has one.
        uuid: Option<String>,
        /// The source's name.
        labels: TextMap,
        /// Everything else, carried verbatim.
        metadata: TextMap,
        /// The publisher's anchor, which pins the timeline.
        clock_anchor_wall_ns: i64,
        /// Whether the publisher's source was cleanly finalized.
        complete: bool,
    },
    /// One entry of the caller's secondary index, bound for the caller store.
    Index {
        /// Which source, by handshake ordinal.
        source: u32,
        /// The caller store's stream name.
        stream: String,
        /// When the change happened.
        ts: i64,
        /// Whole set or change to it.
        kind: IndexKind,
        /// The publisher's hash of the complete slot set after this entry.
        state: (u64, u64),
        /// The entry, never decoded.
        blob: Vec<u8>,
    },
    /// Live observations, bound for the WAL.
    Rows {
        /// Which source, by handshake ordinal.
        source: u32,
        /// A counter over intervals: one value per interval the producer was
        /// meant to serve.
        seq: u64,
        /// The index state these rows were built against.
        index_state: (u64, u64),
        /// The observations.
        rows: Vec<WalRow>,
    },
    /// A sealed segment.
    Segment {
        /// Which source, by handshake ordinal.
        source: u32,
        /// The stream the segment belongs to.
        stream: String,
        /// What the catalog is asked to know about it.
        meta: SegmentMeta,
        /// One parquet file, passed through byte-identical.
        bytes: Vec<u8>,
        /// The caller's index over this segment, where there is one.
        caller_index: Option<Vec<u8>>,
    },
    /// One clock-drift observation.
    ClockOffset {
        /// Which source, by handshake ordinal.
        source: u32,
        /// The observation's timestamp.
        ts: i64,
        /// Wall time minus `ts` at that moment.
        offset_ns: i64,
    },
    /// What a caller keeps about a stream as a whole.
    StreamSummary {
        /// Which source, by handshake ordinal.
        source: u32,
        /// The stream it summarizes.
        stream: String,
        /// The timestamp it holds up to.
        as_of_ts: i64,
        /// The summary, never decoded.
        blob: Vec<u8>,
    },
}

/// A frame, as mathematics.
pub enum FrameView {
    Handshake {
        source: u32,
        uuid: Option<Seq<char>>,
        labels: Seq<Entry>,
        metadata: Seq<Entry>,
        clock_anchor_wall_ns: i64,
        complete: bool,
    },
    Index {
        source: u32,
        stream: Seq<char>,
        ts: i64,
        kind: IndexKind,
        state: (u64, u64),
        blob: Seq<u8>,
    },
    Rows { source: u32, seq: u64, index_state: (u64, u64), rows: Seq<WalView> },
    Segment {
        source: u32,
        stream: Seq<char>,
        meta: SegmentMeta,
        bytes: Seq<u8>,
        caller_index: Option<Seq<u8>>,
    },
    ClockOffset { source: u32, ts: i64, offset_ns: i64 },
    StreamSummary { source: u32, stream: Seq<char>, as_of_ts: i64, blob: Seq<u8> },
}

impl View for Frame {
    type V = FrameView;

    open spec fn view(&self) -> FrameView {
        match *self {
            Frame::Handshake {
                source,
                uuid,
                labels,
                metadata,
                clock_anchor_wall_ns,
                complete,
            } => FrameView::Handshake {
                source,
                uuid: seqs::opt_view(uuid),
                labels: labels@,
                metadata: metadata@,
                clock_anchor_wall_ns,
                complete,
            },
            Frame::Index { source, stream, ts, kind, state, blob } => FrameView::Index {
                source,
                stream: stream@,
                ts,
                kind,
                state,
                blob: blob@,
            },
            Frame::Rows { source, seq, index_state, rows } => FrameView::Rows {
                source,
                seq,
                index_state,
                rows: seqs::views(rows@),
            },
            Frame::Segment { source, stream, meta, bytes, caller_index } => FrameView::Segment {
                source,
                stream: stream@,
                meta,
                bytes: bytes@,
                caller_index: seqs::opt_view(caller_index),
            },
            Frame::ClockOffset { source, ts, offset_ns } => FrameView::ClockOffset {
                source,
                ts,
                offset_ns,
            },
            Frame::StreamSummary { source, stream, as_of_ts, blob } => FrameView::StreamSummary {
                source,
                stream: stream@,
                as_of_ts,
                blob: blob@,
            },
        }
    }
}

impl FrameView {
    /// The handshake ordinal a frame belongs to.
    pub open spec fn ordinal(self) -> u32 {
        match self {
            FrameView::Handshake { source, .. } => source,
            FrameView::Index { source, .. } => source,
            FrameView::Rows { source, .. } => source,
            FrameView::Segment { source, .. } => source,
            FrameView::ClockOffset { source, .. } => source,
            FrameView::StreamSummary { source, .. } => source,
        }
    }
}

impl Frame {
    /// The handshake ordinal this frame belongs to.
    pub fn source(&self) -> (r: u32)
        ensures
            r == self@.ordinal(),
    {
        match self {
            Frame::Handshake { source, .. } => *source,
            Frame::Index { source, .. } => *source,
            Frame::Rows { source, .. } => *source,
            Frame::Segment { source, .. } => *source,
            Frame::ClockOffset { source, .. } => *source,
            Frame::StreamSummary { source, .. } => *source,
        }
    }
}

} // verus!
