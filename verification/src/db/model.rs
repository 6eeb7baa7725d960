//! What an archive holds, and what its questions and changes mean.

use vstd::prelude::*;

use super::records::{CallerAt, CallerAtView, ClockAt, SegmentAt, SegmentAtView, WalAt, WalAtView};
use super::rows::{
    CallerView, PageStats, SegmentView, SourceMetaView, SourceRow, SourceView, Span, WalView,
};
use super::table;
use super::table::Key;
use crate::error;
use crate::error::{ErrorView, ReadOnly};
use crate::names;
use crate::text;
use crate::text_map::Entry;

verus! {

/// An archive's contents: its tables, each in key order, and how the handle
/// and the file stand.
pub struct DbView {
    pub sources: Seq<SourceView>,
    pub segments: Seq<SegmentAtView>,
    pub wal: Seq<WalAtView>,
    pub clock_offsets: Seq<ClockAt>,
    pub caller_rows: Seq<CallerAtView>,
    pub pages: PageStats,
    pub read_only: bool,
    pub legacy: bool,
}

/// The newest timestamp that sealed segments hold: the watermark.
pub open spec fn newest_sealed(s: Seq<SegmentView>) -> Option<i64>
    decreases s.len(),
{
    if s.len() == 0 {
        None
    } else {
        later(newest_sealed(s.drop_last()), s.last().meta.last_ts)
    }
}

/// The oldest timestamp that sealed segments hold.
pub open spec fn oldest_sealed(s: Seq<SegmentView>) -> Option<i64>
    decreases s.len(),
{
    if s.len() == 0 {
        None
    } else {
        earlier(oldest_sealed(s.drop_last()), s.last().meta.first_ts)
    }
}

/// The later of a timestamp that may be absent and another.
pub open spec fn later(a: Option<i64>, b: i64) -> Option<i64> {
    match a {
        Some(x) if x >= b => Some(x),
        _ => Some(b),
    }
}

/// The earlier of a timestamp that may be absent and another.
pub open spec fn earlier(a: Option<i64>, b: i64) -> Option<i64> {
    match a {
        Some(x) if x <= b => Some(x),
        _ => Some(b),
    }
}

/// The later of two timestamps that may be absent.
pub open spec fn latest(a: Option<i64>, b: Option<i64>) -> Option<i64> {
    match b {
        Some(x) => later(a, x),
        None => a,
    }
}

/// The earlier of two timestamps that may be absent.
pub open spec fn earliest(a: Option<i64>, b: Option<i64>) -> Option<i64> {
    match b {
        Some(x) => earlier(a, x),
        None => a,
    }
}

/// The newest timestamp of rows.
pub open spec fn newest_row(s: Seq<WalView>) -> Option<i64>
    decreases s.len(),
{
    if s.len() == 0 {
        None
    } else {
        later(newest_row(s.drop_last()), s.last().ts)
    }
}

/// The oldest timestamp of rows.
pub open spec fn oldest_row(s: Seq<WalView>) -> Option<i64>
    decreases s.len(),
{
    if s.len() == 0 {
        None
    } else {
        earlier(oldest_row(s.drop_last()), s.last().ts)
    }
}

/// Whether a timestamp is past a watermark: after it, or there is none.
pub open spec fn past(watermark: Option<i64>, ts: i64) -> bool {
    watermark matches Some(w) ==> ts > w
}

/// The rows that segments hold, summed.
pub open spec fn sealed_rows(s: Seq<SegmentView>) -> nat
    decreases s.len(),
{
    if s.len() == 0 {
        0
    } else {
        sealed_rows(s.drop_last()) + s.last().meta.rows as nat
    }
}

/// The bytes that segments occupy, summed.
pub open spec fn sealed_bytes(s: Seq<SegmentView>) -> nat
    decreases s.len(),
{
    if s.len() == 0 {
        0
    } else {
        sealed_bytes(s.drop_last()) + s.last().bytes.len()
    }
}

/// The most that the store can sum.
pub open spec fn sum_limit() -> nat {
    i64::MAX as nat
}

/// The store's refusal of a sum that is too large.
pub open spec fn sum_too_large(context: Seq<char>) -> ErrorView {
    ErrorView::Sqlite { context, result_code: Some(1i32), message: "integer overflow"@ }
}

/// The refusal of a row whose key is held already.
pub open spec fn key_taken(context: Seq<char>, columns: Seq<char>) -> ErrorView {
    ErrorView::Sqlite {
        context,
        result_code: Some(error::PRIMARY_KEY_VIOLATED),
        message: "UNIQUE constraint failed: "@ + columns,
    }
}

/// The refusal of a row whose source is not there.
pub open spec fn no_such_source(context: Seq<char>) -> ErrorView {
    ErrorView::Sqlite {
        context,
        result_code: Some(error::FOREIGN_KEY_VIOLATED),
        message: "FOREIGN KEY constraint failed"@,
    }
}

/// What inserting a segment says when it fails.
pub open spec fn segment_context(stream: Seq<char>, seq: u64) -> Seq<char> {
    "failed to insert segment "@ + stream + "#"@ + text::decimal(seq as nat)
}

/// What inserting a WAL row says when it fails.
pub open spec fn wal_context(stream: Seq<char>) -> Seq<char> {
    "failed to insert WAL row for "@ + stream
}

/// The timestamps of clock observations and their offsets.
pub open spec fn clock_pairs(s: Seq<ClockAt>) -> Seq<(i64, i64)> {
    s.map_values(|c: ClockAt| (c.ts, c.offset_ns))
}

/// The span of rows in timestamp order.
pub open spec fn span_of(rows: Seq<WalView>) -> Span {
    Span {
        rows: rows.len() as u64,
        first_ts: if rows.len() == 0 {
            None
        } else {
            Some(rows[0].ts)
        },
        last_ts: if rows.len() == 0 {
            None
        } else {
            Some(rows.last().ts)
        },
    }
}

/// The newest id of sources in id order.
pub open spec fn next_id(sources: Seq<SourceView>) -> int {
    if sources.len() == 0 {
        1
    } else {
        sources.last().id + 1
    }
}

impl DbView {
    /// The tables are in key order, which every archive's are.
    pub open spec fn wf(self) -> bool {
        &&& table::in_order::<SourceRow>(self.sources)
        &&& table::in_order::<SegmentAt>(self.segments)
        &&& table::in_order::<WalAt>(self.wal)
        &&& table::in_order::<ClockAt>(self.clock_offsets)
        &&& table::in_order::<CallerAt>(self.caller_rows)
    }

    /// Whether the archive can be written.
    pub open spec fn writable(self) -> bool {
        !self.read_only && !self.legacy
    }

    /// The refusal of a write.
    pub open spec fn write_refusal(self) -> ErrorView {
        if self.read_only {
            ErrorView::ReadOnly(ReadOnly::Handle)
        } else {
            ErrorView::ReadOnly(ReadOnly::LegacySchema)
        }
    }

    /// Whether a source is there.
    pub open spec fn has_source(self, id: i64) -> bool {
        exists|i: int| 0 <= i < self.sources.len() && #[trigger] self.sources[i].id == id
    }

    /// The source of an id.
    pub open spec fn source(self, id: i64) -> Option<SourceView> {
        if self.has_source(id) {
            Some(
                self.sources[choose|i: int|
                    0 <= i < self.sources.len() && #[trigger] self.sources[i].id == id],
            )
        } else {
            None
        }
    }

    /// A stream's segments, in `seq` order.
    pub open spec fn segments_of(self, source: i64, stream: Seq<char>) -> Seq<SegmentView> {
        table::selected::<SegmentAt>(self.segments, source as int, Some(stream)).map_values(
            |s: SegmentAtView| s.row,
        )
    }

    /// A stream's WAL rows, sealed or not, oldest first.
    pub open spec fn wal_of(self, source: i64, stream: Seq<char>) -> Seq<WalView> {
        table::selected::<WalAt>(self.wal, source as int, Some(stream)).map_values(
            |r: WalAtView| r.row,
        )
    }

    /// The newest timestamp that a stream's own segments hold.
    pub open spec fn watermark(self, source: i64, stream: Seq<char>) -> Option<i64> {
        newest_sealed(self.segments_of(source, stream))
    }

    /// The recovery rule: a WAL row is live where its timestamp is past the
    /// watermark of the sealed segments of its own stream in its own source.
    pub open spec fn live_of(self, source: i64, stream: Seq<char>) -> Seq<WalView> {
        let w = self.watermark(source, stream);
        self.wal_of(source, stream).filter(|r: WalView| past(w, r.ts))
    }

    /// All of a source's segments.
    pub open spec fn source_segments(self, source: i64) -> Seq<SegmentView> {
        table::selected::<SegmentAt>(self.segments, source as int, None).map_values(
            |s: SegmentAtView| s.row,
        )
    }

    /// All of a source's WAL rows.
    pub open spec fn source_wal(self, source: i64) -> Seq<WalView> {
        table::selected::<WalAt>(self.wal, source as int, None).map_values(|r: WalAtView| r.row)
    }

    /// A source's time span: every stream, segments and WAL rows together.
    pub open spec fn time_span(self, source: i64) -> (Option<i64>, Option<i64>) {
        (
            earliest(
                oldest_sealed(self.source_segments(source)),
                oldest_row(self.source_wal(source)),
            ),
            latest(
                newest_sealed(self.source_segments(source)),
                newest_row(self.source_wal(source)),
            ),
        )
    }

    /// A source's clock observations, oldest first.
    pub open spec fn clock_of(self, source: i64) -> Seq<(i64, i64)> {
        clock_pairs(table::selected::<ClockAt>(self.clock_offsets, source as int, None))
    }

    /// A caller's rows against a stream, by timestamp and then as inserted.
    pub open spec fn callers_of(self, source: i64, stream: Seq<char>) -> Seq<CallerView> {
        table::selected::<CallerAt>(self.caller_rows, source as int, Some(stream)).map_values(
            |c: CallerAtView| c.row,
        )
    }

    /// The streams of a source's segments, as they come.
    pub open spec fn segment_names(self, source: i64) -> Seq<Seq<char>> {
        table::selected::<SegmentAt>(self.segments, source as int, None).map_values(
            |s: SegmentAtView| s.stream,
        )
    }

    /// The streams of a source's WAL rows, as they come.
    pub open spec fn wal_names(self, source: i64) -> Seq<Seq<char>> {
        table::selected::<WalAt>(self.wal, source as int, None).map_values(
            |r: WalAtView| r.row.stream,
        )
    }

    /// The streams of a source's caller rows, as they come.
    pub open spec fn caller_names(self, source: i64) -> Seq<Seq<char>> {
        table::selected::<CallerAt>(self.caller_rows, source as int, None).map_values(
            |c: CallerAtView| c.stream,
        )
    }

    /// Every stream with a segment, in order.
    pub open spec fn sealed_streams(self, source: i64) -> Seq<Seq<char>> {
        names::with_names(Seq::empty(), self.segment_names(source))
    }

    /// Every stream with a segment or a WAL row, in order.
    pub open spec fn streams_of(self, source: i64) -> Seq<Seq<char>> {
        names::with_names(self.sealed_streams(source), self.wal_names(source))
    }

    /// Every stream with a caller's row, in order.
    pub open spec fn caller_streams(self, source: i64) -> Seq<Seq<char>> {
        names::with_names(Seq::empty(), self.caller_names(source))
    }

    /// The archive with one more source, and the id it got.
    pub open spec fn with_source(self, meta: SourceMetaView, uuid: Option<Seq<char>>) -> DbView {
        let row = SourceView { id: next_id(self.sources) as i64, uuid, meta, complete: false };
        DbView { sources: table::placed::<SourceRow>(self.sources, row), ..self }
    }

    /// The archive with one source's row replaced.
    pub open spec fn with_source_row(self, row: SourceView) -> DbView {
        DbView {
            sources: self.sources.map_values(
                |s: SourceView|
                    if s.id == row.id {
                        row
                    } else {
                        s
                    },
            ),
            ..self
        }
    }

    /// The archive with a source marked finished or not.
    pub open spec fn with_complete(self, id: i64, complete: bool) -> DbView {
        match self.source(id) {
            Some(s) => self.with_source_row(SourceView { complete, ..s }),
            None => self,
        }
    }

    /// The archive with a source's metadata replaced.
    pub open spec fn with_metadata(self, id: i64, metadata: Seq<Entry>) -> DbView {
        match self.source(id) {
            Some(s) => self.with_source_row(
                SourceView { meta: SourceMetaView { metadata, ..s.meta }, ..s },
            ),
            None => self,
        }
    }

    /// Inserting a segment.
    pub open spec fn segment_inserted(self, at: SegmentAtView) -> Result<DbView, ErrorView> {
        let context = segment_context(at.stream, at.row.seq);
        if table::holds::<SegmentAt>(
            self.segments,
            Key { source: at.source_id as int, stream: at.stream, at: at.row.seq as int },
        ) {
            Err(key_taken(context, "segments.source_id, segments.stream, segments.seq"@))
        } else if !self.has_source(at.source_id) {
            Err(no_such_source(context))
        } else {
            Ok(DbView { segments: table::placed::<SegmentAt>(self.segments, at), ..self })
        }
    }

    /// Removing a segment.
    pub open spec fn without_segment(self, source: i64, stream: Seq<char>, seq: u64) -> DbView {
        DbView {
            segments: table::without_key::<SegmentAt>(
                self.segments,
                Key { source: source as int, stream, at: seq as int },
            ),
            ..self
        }
    }

    /// Inserting a WAL row.
    pub open spec fn wal_inserted(self, source: i64, row: WalView) -> Result<DbView, ErrorView> {
        let context = wal_context(row.stream);
        if table::holds::<WalAt>(
            self.wal,
            Key { source: source as int, stream: row.stream, at: row.ts as int },
        ) {
            Err(key_taken(context, "wal.source_id, wal.stream, wal.ts"@))
        } else if !self.has_source(source) {
            Err(no_such_source(context))
        } else {
            Ok(
                DbView {
                    wal: table::placed::<WalAt>(self.wal, WalAtView { source_id: source, row }),
                    ..self
                },
            )
        }
    }

    /// Inserting WAL rows one by one, until one is refused: the archive then,
    /// and the refusal.
    pub open spec fn wal_run(self, source: i64, rows: Seq<WalView>) -> (DbView, Option<ErrorView>)
        decreases rows.len(),
    {
        if rows.len() == 0 {
            (self, None)
        } else {
            let (d, e) = self.wal_run(source, rows.drop_last());
            match e {
                Some(_) => (d, e),
                None => match d.wal_inserted(source, rows.last()) {
                    Ok(n) => (n, None),
                    Err(x) => (d, Some(x)),
                },
            }
        }
    }

    /// Inserting several sources' rows, until one is refused.
    pub open spec fn ticks_run(self, ticks: Seq<(i64, Seq<WalView>)>) -> (
        DbView,
        Option<ErrorView>,
    )
        decreases ticks.len(),
    {
        if ticks.len() == 0 {
            (self, None)
        } else {
            let (d, e) = self.ticks_run(ticks.drop_last());
            match e {
                Some(_) => (d, e),
                None => d.wal_run(ticks.last().0, ticks.last().1),
            }
        }
    }

    /// Recording a clock observation: the first at a timestamp stays.
    pub open spec fn clock_inserted(self, c: ClockAt) -> Result<DbView, ErrorView> {
        if table::holds::<ClockAt>(
            self.clock_offsets,
            Key { source: c.source_id as int, stream: Seq::empty(), at: c.ts as int },
        ) {
            Ok(self)
        } else if !self.has_source(c.source_id) {
            Err(no_such_source("failed to insert clock offset"@))
        } else {
            Ok(DbView { clock_offsets: table::placed::<ClockAt>(self.clock_offsets, c), ..self })
        }
    }

    /// Keeping a caller's row.
    pub open spec fn caller_inserted(self, c: CallerAtView) -> Result<DbView, ErrorView> {
        if !self.has_source(c.source_id) {
            Err(no_such_source("failed to insert caller row"@))
        } else {
            Ok(DbView { caller_rows: table::placed::<CallerAt>(self.caller_rows, c), ..self })
        }
    }

    /// The archive without a stream's WAL rows up to a timestamp.
    pub open spec fn pruned(self, source: i64, stream: Seq<char>, upto: i64) -> DbView {
        DbView {
            wal: table::without_old::<WalAt>(self.wal, source as int, Some(stream), upto + 1),
            ..self
        }
    }

    /// The archive without what one stream holds wholly before a cutoff.
    pub open spec fn stream_evicted(self, source: i64, stream: Seq<char>, cutoff: i64) -> DbView {
        DbView {
            segments: table::without_old::<SegmentAt>(
                self.segments,
                source as int,
                Some(stream),
                cutoff as int,
            ),
            wal: table::without_old::<WalAt>(
                self.wal,
                source as int,
                Some(stream),
                cutoff as int,
            ),
            caller_rows: table::without_old::<CallerAt>(
                self.caller_rows,
                source as int,
                Some(stream),
                cutoff as int,
            ),
            ..self
        }
    }

    /// The archive without what a source holds wholly before a cutoff, clock
    /// observations and caller's rows with it.
    pub open spec fn evicted(self, source: i64, cutoff: i64) -> DbView {
        DbView {
            segments: table::without_old::<SegmentAt>(
                self.segments,
                source as int,
                None,
                cutoff as int,
            ),
            wal: table::without_old::<WalAt>(self.wal, source as int, None, cutoff as int),
            clock_offsets: table::without_old::<ClockAt>(
                self.clock_offsets,
                source as int,
                None,
                cutoff as int,
            ),
            caller_rows: table::without_old::<CallerAt>(
                self.caller_rows,
                source as int,
                None,
                cutoff as int,
            ),
            ..self
        }
    }

    /// The archive without what streams hold wholly before a cutoff.
    pub open spec fn streams_evicted(
        self,
        source: i64,
        streams: Seq<Seq<char>>,
        cutoff: i64,
    ) -> DbView
        decreases streams.len(),
    {
        if streams.len() == 0 {
            self
        } else {
            self.streams_evicted(source, streams.drop_last(), cutoff).stream_evicted(
                source,
                streams.last(),
                cutoff,
            )
        }
    }

    /// Every stream of which retention may take something: one with a segment, a
    /// WAL row or a caller's row.
    pub open spec fn evictable_streams(self, source: i64) -> Seq<Seq<char>> {
        names::with_names(self.streams_of(source), self.caller_streams(source))
    }

    /// The archive after retention of certain streams of a source: without what
    /// they hold wholly before a cutoff, and without the source's clock
    /// observations before it.
    pub open spec fn chosen_evicted(
        self,
        source: i64,
        streams: Seq<Seq<char>>,
        cutoff: i64,
    ) -> DbView {
        DbView {
            clock_offsets: table::without_old::<ClockAt>(
                self.clock_offsets,
                source as int,
                None,
                cutoff as int,
            ),
            ..self.streams_evicted(source, streams, cutoff)
        }
    }

    /// The rows before a cutoff that no segment holds, of a source and of
    /// certain streams where those are named.
    pub open spec fn live_before(
        self,
        source: i64,
        streams: Option<Seq<Seq<char>>>,
        cutoff: i64,
    ) -> Seq<WalAtView> {
        self.wal.filter(
            |r: WalAtView|
                {
                    &&& r.source_id == source
                    &&& streams matches Some(s) ==> s.contains(r.row.stream)
                    &&& r.row.ts < cutoff
                    &&& past(self.watermark(source, r.row.stream), r.row.ts)
                },
        )
    }

    /// The file with so many free pages handed back, or as many as there are.
    pub open spec fn vacuumed(self, pages: u32) -> DbView {
        let n: int = if pages <= self.pages.free {
            pages as int
        } else {
            self.pages.free as int
        };
        DbView {
            pages: PageStats {
                pages: if n <= self.pages.pages {
                    (self.pages.pages - n) as u32
                } else {
                    0
                },
                free: (self.pages.free - n) as u32,
                ..self.pages
            },
            ..self
        }
    }
}

} // verus!
