//! An archive: its tables, and every question and change they answer to.

/// Changes, and the transactions they are made in.
pub mod changes;
/// Questions about the WAL, the clock and the caller's rows.
pub mod wal;

use vstd::prelude::*;
use vstd::string::*;

use super::model;
use super::model::DbView;
use super::records::{CallerAt, CallerAtView, ClockAt, SegmentAt, SegmentAtView, WalAt, WalAtView};
use super::rows::{CallerRow, PageStats, SegmentMeta, SegmentRow, SourceRow, Span, WalRow, WalView};
use super::table;
use super::table::{Keyed, Table};
use crate::error::{Error, ErrorView, ReadOnly, FOREIGN_KEY_VIOLATED, PRIMARY_KEY_VIOLATED};
use crate::names;
use crate::names::add_name;
use crate::seqs;
use crate::seqs::{copy_bytes, copy_opt_bytes};
use crate::text;
use crate::text::append_signed;
use crate::text_map::TextMap;

verus! {

broadcast use crate::seqs::group_views;

/// An open handle on an archive: what its tables hold.
#[derive(Debug)]
pub struct Db {
    sources: Table<SourceRow>,
    segments: Table<SegmentAt>,
    wal: Table<WalAt>,
    clock_offsets: Table<ClockAt>,
    caller_rows: Table<CallerAt>,
    pages: PageStats,
    read_only: bool,
    legacy: bool,
}

impl View for Db {
    type V = DbView;

    closed spec fn view(&self) -> DbView {
        DbView {
            sources: self.sources@,
            segments: self.segments@,
            wal: self.wal@,
            clock_offsets: self.clock_offsets@,
            caller_rows: self.caller_rows@,
            pages: self.pages,
            read_only: self.read_only,
            legacy: self.legacy,
        }
    }
}

/// The writes that share one transaction: everything here lands or nothing
/// does.
///
/// There is no prune and no read here: the prune belongs outside a seal's
/// transaction, where its cost cannot land on a tick.
#[derive(Debug)]
pub struct Tx {
    db: Db,
}

impl View for Tx {
    type V = DbView;

    closed spec fn view(&self) -> DbView {
        self.db@
    }
}

/// An outcome and the archive after it: what it gave, or the refusal and the
/// archive as it was.
pub open spec fn changed(
    r: Result<(), Error>,
    was: DbView,
    now: DbView,
    outcome: Result<DbView, ErrorView>,
) -> bool {
    match outcome {
        Ok(d) => r is Ok && now == d,
        Err(e) => r matches Err(x) && x@ == e && now == was,
    }
}

/// An outcome of several changes of a transaction: how far they went, and the
/// refusal that stopped them.
pub open spec fn ran(
    r: Result<(), Error>,
    now: DbView,
    outcome: (DbView, Option<ErrorView>),
) -> bool {
    &&& now == outcome.0
    &&& match outcome.1 {
        None => r is Ok,
        Some(e) => r matches Err(x) && x@ == e,
    }
}

/// What a transaction of changes leaves: all of them, or nothing where one was
/// refused or the archive cannot be written.
pub open spec fn transacted(was: DbView, outcome: (DbView, Option<ErrorView>)) -> Result<
    DbView,
    ErrorView,
> {
    if !was.writable() {
        Err(was.write_refusal())
    } else {
        match outcome.1 {
            None => Ok(outcome.0),
            Some(e) => Err(e),
        }
    }
}

/// What a single change leaves of an archive that may not be writable.
pub open spec fn written(was: DbView, outcome: Result<DbView, ErrorView>) -> Result<
    DbView,
    ErrorView,
> {
    if !was.writable() {
        Err(was.write_refusal())
    } else {
        outcome
    }
}

/// The views of several sources' rows.
pub open spec fn tick_views(ticks: Seq<(i64, Vec<WalRow>)>) -> Seq<(i64, Seq<WalView>)> {
    ticks.map_values(|t: (i64, Vec<WalRow>)| (t.0, seqs::views(t.1@)))
}

fn key_taken(context: String, columns: &str) -> (r: Error)
    ensures
        r@ == model::key_taken(context@, columns@),
{
    let mut message = String::from_str("UNIQUE constraint failed: ");
    message.append(columns);
    Error::Sqlite { context, result_code: Some(PRIMARY_KEY_VIOLATED), message }
}

fn no_such_source(context: String) -> (r: Error)
    ensures
        r@ == model::no_such_source(context@),
{
    Error::Sqlite {
        context,
        result_code: Some(FOREIGN_KEY_VIOLATED),
        message: String::from_str("FOREIGN KEY constraint failed"),
    }
}

fn sum_too_large(what: &str, stream: &str) -> (r: Error)
    ensures
        r@ == model::sum_too_large(what@ + stream@),
{
    let mut context = String::from_str(what);
    context.append(stream);
    Error::Sqlite {
        context,
        result_code: Some(1),
        message: String::from_str("integer overflow"),
    }
}

/// The later of a timestamp that may be absent and another.
fn later(a: Option<i64>, b: i64) -> (r: Option<i64>)
    ensures
        r == model::later(a, b),
{
    match a {
        Some(x) => if x >= b {
            Some(x)
        } else {
            Some(b)
        },
        None => Some(b),
    }
}

/// The earlier of a timestamp that may be absent and another.
fn earlier(a: Option<i64>, b: i64) -> (r: Option<i64>)
    ensures
        r == model::earlier(a, b),
{
    match a {
        Some(x) => if x <= b {
            Some(x)
        } else {
            Some(b)
        },
        None => Some(b),
    }
}

/// The rows of segments selected from their table.
spec fn segment_rows(s: Seq<SegmentAtView>) -> Seq<super::rows::SegmentView> {
    s.map_values(|v: SegmentAtView| v.row)
}

spec fn wal_rows(s: Seq<WalAtView>) -> Seq<WalView> {
    s.map_values(|v: WalAtView| v.row)
}

impl Db {
    // ------------------------------------------------------------ handles

    /// An archive that lives only in memory and holds nothing yet.
    pub fn create_in_memory() -> (r: Db)
        ensures
            r@ == (DbView {
                sources: Seq::empty(),
                segments: Seq::empty(),
                wal: Seq::empty(),
                clock_offsets: Seq::empty(),
                caller_rows: Seq::empty(),
                pages: PageStats { pages: 0, free: 0, page_size: super::PAGE_SIZE },
                read_only: false,
                legacy: false,
            }),
    {
        Db {
            sources: Table::new(),
            segments: Table::new(),
            wal: Table::new(),
            clock_offsets: Table::new(),
            caller_rows: Table::new(),
            pages: PageStats { pages: 0, free: 0, page_size: super::PAGE_SIZE },
            read_only: false,
            legacy: false,
        }
    }

    /// The archive behind a handle that reads, or that is on a legacy file:
    /// its contents stay, and its writes are refused.
    pub fn opened_as(self, read_only: bool, legacy: bool, pages: PageStats) -> (r: Db)
        ensures
            r@ == (DbView { read_only, legacy, pages, ..self@ }),
    {
        Db { read_only, legacy, pages, ..self }
    }

    /// The archive again.
    fn copied(&self) -> (r: Db)
        ensures
            r@ == self@,
    {
        Db {
            sources: self.sources.copied(),
            segments: self.segments.copied(),
            wal: self.wal.copied(),
            clock_offsets: self.clock_offsets.copied(),
            caller_rows: self.caller_rows.copied(),
            pages: self.pages,
            read_only: self.read_only,
            legacy: self.legacy,
        }
    }

    /// The tables are in key order, and the caller's rows can be counted.
    pub fn in_key_order(&self)
        ensures
            self@.wf(),
            self@.caller_rows.len() <= usize::MAX,
    {
        let _a = self.sources.len();
        let _b = self.segments.len();
        let _c = self.wal.len();
        let _d = self.clock_offsets.len();
        let _e = self.caller_rows.len();
    }

    /// Refuse a write to an archive that was opened to read, or to one of a
    /// legacy schema.
    pub fn writable(&self) -> (r: Result<(), Error>)
        ensures
            r is Ok <==> self@.writable(),
            r matches Err(e) ==> e@ == self@.write_refusal(),
    {
        if self.read_only {
            return Err(Error::ReadOnly(ReadOnly::Handle));
        }
        if self.legacy {
            return Err(Error::ReadOnly(ReadOnly::LegacySchema));
        }
        Ok(())
    }

    // ------------------------------------------------------------ loading

    /// Take a row of the `sources` table as a file holds it. Refused where its
    /// id is held already.
    pub fn load_source(&mut self, row: SourceRow) -> (r: bool)
        ensures
            r == !old(self)@.has_source(row.id),
            final(self)@ == if r {
                DbView {
                    sources: table::placed::<SourceRow>(old(self)@.sources, row@),
                    ..old(self)@
                }
            } else {
                old(self)@
            },
    {
        let held = self.sources.has_key(&row);
        proof {
            lemma_has_source(self@, row@);
        }
        if held {
            return false;
        }
        self.sources.place(row);
        true
    }

    /// Take a row of the `segments` table as a file holds it. Refused where
    /// its key is held already.
    pub fn load_segment(&mut self, source_id: i64, stream: String, row: SegmentRow) -> (r: bool)
        ensures
            ({
                let at = SegmentAtView { source_id, stream: stream@, row: row@ };
                &&& r == !table::holds::<SegmentAt>(old(self)@.segments, SegmentAt::key_of(at))
                &&& final(self)@ == if r {
                    DbView {
                        segments: table::placed::<SegmentAt>(old(self)@.segments, at),
                        ..old(self)@
                    }
                } else {
                    old(self)@
                }
            }),
    {
        let at = SegmentAt { source_id, stream, row };
        if self.segments.has_key(&at) {
            return false;
        }
        self.segments.place(at);
        true
    }

    /// Take a row of the `wal` table as a file holds it. Refused where its key
    /// is held already.
    pub fn load_wal(&mut self, source_id: i64, row: WalRow) -> (r: bool)
        ensures
            ({
                let at = WalAtView { source_id, row: row@ };
                &&& r == !table::holds::<WalAt>(old(self)@.wal, WalAt::key_of(at))
                &&& final(self)@ == if r {
                    DbView { wal: table::placed::<WalAt>(old(self)@.wal, at), ..old(self)@ }
                } else {
                    old(self)@
                }
            }),
    {
        let at = WalAt { source_id, row };
        if self.wal.has_key(&at) {
            return false;
        }
        self.wal.place(at);
        true
    }

    /// Take a row of the `clock_offsets` table as a file holds it. Refused
    /// where its key is held already.
    pub fn load_clock_offset(&mut self, source_id: i64, ts: i64, offset_ns: i64) -> (r: bool)
        ensures
            ({
                let at = ClockAt { source_id, ts, offset_ns };
                &&& r == !table::holds::<ClockAt>(old(self)@.clock_offsets, ClockAt::key_of(at))
                &&& final(self)@ == if r {
                    DbView {
                        clock_offsets: table::placed::<ClockAt>(old(self)@.clock_offsets, at),
                        ..old(self)@
                    }
                } else {
                    old(self)@
                }
            }),
    {
        let at = ClockAt { source_id, ts, offset_ns };
        if self.clock_offsets.has_key(&at) {
            return false;
        }
        self.clock_offsets.place(at);
        true
    }

    /// Take a caller's row as a file holds it.
    pub fn load_caller_row(&mut self, source_id: i64, stream: String, row: CallerRow)
        ensures
            final(self)@ == (DbView {
                caller_rows: table::placed::<CallerAt>(
                    old(self)@.caller_rows,
                    CallerAtView { source_id, stream: stream@, row: row@ },
                ),
                ..old(self)@
            }),
    {
        self.caller_rows.place(CallerAt { source_id, stream, row });
    }

    // ------------------------------------------------------------ sources

    /// Every source in the file, by id.
    pub fn read_sources(&self) -> (r: Vec<SourceRow>)
        ensures
            seqs::views(r@) == self@.sources,
    {
        let mut out: Vec<SourceRow> = Vec::new();
        let mut i: usize = 0;
        proof {
            seqs::lemma_views_empty::<SourceRow>();
            assert(self@.sources.take(0) =~= Seq::empty());
        }
        while i < self.sources.len()
            invariant
                i <= self@.sources.len(),
                self@.sources == self.sources@,
                seqs::views(out@) == self@.sources.take(i as int),
            decreases self@.sources.len() - i,
        {
            let ghost was = seqs::views(out@);
            out.push(self.sources.at(i).clone());
            proof {
                assert(self@.sources.take(i + 1) =~= was.push(self@.sources[i as int]));
            }
            i += 1;
        }
        proof {
            assert(self@.sources.take(i as int) =~= self@.sources);
        }
        out
    }

    /// The position of a source in the table.
    fn source_at(&self, id: i64) -> (r: Option<usize>)
        ensures
            r is Some <==> self@.has_source(id),
            r matches Some(i) ==> i < self@.sources.len() && self@.sources[i as int].id == id
                && self@.source(id) == Some(self@.sources[i as int]),
    {
        let mut i: usize = 0;
        while i < self.sources.len()
            invariant
                i <= self@.sources.len(),
                self@.sources == self.sources@,
                forall|j: int| 0 <= j < i ==> #[trigger] self@.sources[j].id != id,
            decreases self@.sources.len() - i,
        {
            if self.sources.at(i).id == id {
                let _n = self.sources.len();
                proof {
                    assert(self@.sources[i as int].id == id);
                    let k = choose|k: int|
                        0 <= k < self@.sources.len() && #[trigger] self@.sources[k].id == id;
                    if k < i {
                    } else if i < k {
                        assert(SourceRow::key_of(self@.sources[i as int]) != SourceRow::key_of(
                            self@.sources[k],
                        ));
                    }
                }
                return Some(i);
            }
            i += 1;
        }
        None
    }

    /// The source of an id.
    pub fn read_source(&self, id: i64) -> (r: Option<SourceRow>)
        ensures
            seqs::opt_view(r) == self@.source(id),
    {
        match self.source_at(id) {
            Some(i) => Some(self.sources.at(i).clone()),
            None => None,
        }
    }

    /// One source's metadata.
    pub fn source_metadata(&self, id: i64) -> (r: Result<TextMap, Error>)
        ensures
            match self@.source(id) {
                Some(s) => r matches Ok(m) && m@ == s.meta.metadata,
                None => r matches Err(e) && e@ == ErrorView::Message(no_source_text(id)),
            },
    {
        match self.source_at(id) {
            Some(i) => Ok(self.sources.at(i).meta.metadata.clone()),
            None => Err(no_source(id)),
        }
    }

    // ------------------------------------------------------------ segments

    /// Every segment of a stream, in `seq` order.
    pub fn read_segments(&self, source_id: i64, stream: &str) -> (r: Vec<SegmentRow>)
        ensures
            seqs::views(r@) == self@.segments_of(source_id, stream@),
    {
        let found = self.segments.select(source_id, Some(stream));
        let ghost all = seqs::views(found@);
        let mut out: Vec<SegmentRow> = Vec::new();
        let mut i: usize = 0;
        proof {
            seqs::lemma_views_empty::<SegmentRow>();
            assert(segment_rows(all.take(0)) =~= Seq::empty());
        }
        while i < found.len()
            invariant
                i <= found@.len(),
                all == seqs::views(found@),
                seqs::views(out@) == segment_rows(all.take(i as int)),
            decreases found@.len() - i,
        {
            let ghost was = seqs::views(out@);
            out.push(found[i].row.clone());
            proof {
                assert(segment_rows(all.take(i + 1)) =~= was.push(all[i as int].row));
            }
            i += 1;
        }
        proof {
            assert(all.take(i as int) =~= all);
        }
        out
    }

    /// A stream's segments as the catalog sees them, without the payload.
    pub fn read_segment_meta(&self, source_id: i64, stream: &str) -> (r: Vec<(u64, SegmentMeta)>)
        ensures
            r@ == metas_of(self@.segments_of(source_id, stream@)),
    {
        let found = self.segments.select(source_id, Some(stream));
        let ghost all = seqs::views(found@);
        let mut out: Vec<(u64, SegmentMeta)> = Vec::new();
        let mut i: usize = 0;
        while i < found.len()
            invariant
                i <= found@.len(),
                all == seqs::views(found@),
                out@ == metas_of(segment_rows(all.take(i as int))),
            decreases found@.len() - i,
        {
            let ghost was = out@;
            out.push((found[i].row.seq, found[i].row.meta));
            proof {
                assert(metas_of(segment_rows(all.take(i + 1))) =~= was.push(
                    (all[i as int].row.seq, all[i as int].row.meta),
                ));
            }
            i += 1;
        }
        proof {
            assert(all.take(i as int) =~= all);
        }
        out
    }

    /// One segment's payload, by sequence number.
    pub fn read_segment_bytes(&self, source_id: i64, stream: &str, seq: u64) -> (r: Option<
        Vec<u8>,
    >)
        ensures
            seqs::opt_view(r) == bytes_at(self@.segments_of(source_id, stream@), seq),
    {
        let found = self.segments.select(source_id, Some(stream));
        let ghost all = seqs::views(found@);
        let mut i: usize = 0;
        proof {
            assert(segment_rows(all).skip(0) =~= segment_rows(all));
        }
        while i < found.len()
            invariant
                i <= found@.len(),
                all == seqs::views(found@),
                all == table::selected::<SegmentAt>(
                    self@.segments,
                    source_id as int,
                    Some(stream@),
                ),
                bytes_at(segment_rows(all), seq) == bytes_at(
                    segment_rows(all).skip(i as int),
                    seq,
                ),
            decreases found@.len() - i,
        {
            let ghost rest = segment_rows(all).skip(i as int);
            proof {
                assert(rest[0] == all[i as int].row);
                assert(rest.skip(1) =~= segment_rows(all).skip(i + 1));
            }
            if found[i].row.seq == seq {
                return Some(copy_bytes(&found[i].row.bytes));
            }
            i += 1;
        }
        None
    }

    /// The caller's indexes over a stream's segments, in `seq` order.
    pub fn read_segment_indexes(&self, source_id: i64, stream: &str) -> (r: Vec<
        (u64, Option<Vec<u8>>),
    >)
        ensures
            index_views(r@) == indexes_of(self@.segments_of(source_id, stream@)),
    {
        let found = self.segments.select(source_id, Some(stream));
        let ghost all = seqs::views(found@);
        let mut out: Vec<(u64, Option<Vec<u8>>)> = Vec::new();
        let mut i: usize = 0;
        proof {
            assert(index_views(out@) =~= indexes_of(segment_rows(all.take(0))));
        }
        while i < found.len()
            invariant
                i <= found@.len(),
                all == seqs::views(found@),
                index_views(out@) == indexes_of(segment_rows(all.take(i as int))),
            decreases found@.len() - i,
        {
            let ghost was = index_views(out@);
            out.push((found[i].row.seq, copy_opt_bytes(&found[i].row.caller_index)));
            proof {
                assert(index_views(out@) =~= was.push(
                    (all[i as int].row.seq, all[i as int].row.caller_index),
                ));
                assert(indexes_of(segment_rows(all.take(i + 1))) =~= was.push(
                    (all[i as int].row.seq, all[i as int].row.caller_index),
                ));
            }
            i += 1;
        }
        proof {
            assert(all.take(i as int) =~= all);
        }
        out
    }

    /// Every segment of a stream that overlaps `[start, end]`, in `seq` order.
    /// Whole segments, always: a segment is immutable, so it is not cut.
    pub fn segments_overlapping(
        &self,
        source_id: i64,
        stream: &str,
        start: i64,
        end: i64,
    ) -> (r: Vec<SegmentRow>)
        ensures
            seqs::views(r@) == overlapping(self@.segments_of(source_id, stream@), start, end),
    {
        let found = self.segments.select(source_id, Some(stream));
        let ghost all = segment_rows(seqs::views(found@));
        let ghost keep = |s: super::rows::SegmentView|
            s.meta.last_ts >= start && s.meta.first_ts <= end;
        let mut out: Vec<SegmentRow> = Vec::new();
        let mut i: usize = 0;
        proof {
            seqs::lemma_views_empty::<SegmentRow>();
            seqs::lemma_filter_full(all, keep);
        }
        while i < found.len()
            invariant
                i <= found@.len(),
                all == segment_rows(seqs::views(found@)),
                keep == |s: super::rows::SegmentView|
                    s.meta.last_ts >= start && s.meta.first_ts <= end,
                seqs::views(out@) == all.take(i as int).filter(keep),
            decreases found@.len() - i,
        {
            proof {
                seqs::lemma_filter_take(all, i as int, keep);
                assert(all[i as int] == found@[i as int].row@);
            }
            if found[i].row.meta.last_ts >= start && found[i].row.meta.first_ts <= end {
                out.push(found[i].row.clone());
            }
            i += 1;
        }
        out
    }

    /// The rows of every segment of a stream, summed. WAL rows are not counted.
    pub fn total_rows(&self, source_id: i64, stream: &str) -> (r: Result<u64, Error>)
        ensures
            ({
                let n = model::sealed_rows(self@.segments_of(source_id, stream@));
                if n <= model::sum_limit() {
                    r == Ok::<u64, Error>(n as u64)
                } else {
                    r matches Err(e) && e@ == model::sum_too_large(
                        "failed to sum rows for "@ + stream@,
                    )
                }
            }),
    {
        match self.sum_rows(source_id, stream) {
            Some(n) => Ok(n),
            None => Err(sum_too_large("failed to sum rows for ", stream)),
        }
    }

    fn sum_rows(&self, source_id: i64, stream: &str) -> (r: Option<u64>)
        ensures
            ({
                let n = model::sealed_rows(self@.segments_of(source_id, stream@));
                r == if n <= model::sum_limit() {
                    Some(n as u64)
                } else {
                    None
                }
            }),
    {
        let found = self.segments.select(source_id, Some(stream));
        let ghost all = segment_rows(seqs::views(found@));
        let mut total: u64 = 0;
        let mut i: usize = 0;
        while i < found.len()
            invariant
                i <= found@.len(),
                all == segment_rows(seqs::views(found@)),
                all == self@.segments_of(source_id, stream@),
                total == model::sealed_rows(all.take(i as int)),
                total <= model::sum_limit(),
            decreases found@.len() - i,
        {
            proof {
                assert(all.take(i + 1).drop_last() =~= all.take(i as int));
                assert(all.take(i + 1).last() == found@[i as int].row@);
                lemma_sums_grow(all, i + 1);
            }
            let n: u64 = found[i].row.meta.rows;
            if n > i64::MAX as u64 - total {
                return None;
            }
            total = total + n;
            i += 1;
        }
        proof {
            assert(all.take(i as int) =~= all);
        }
        Some(total)
    }

    /// What a stream's segments occupy, in bytes.
    pub fn stream_bytes(&self, source_id: i64, stream: &str) -> (r: Result<u64, Error>)
        ensures
            ({
                let n = model::sealed_bytes(self@.segments_of(source_id, stream@));
                if n <= model::sum_limit() {
                    r == Ok::<u64, Error>(n as u64)
                } else {
                    r matches Err(e) && e@ == model::sum_too_large(
                        "failed to measure the segments of "@ + stream@,
                    )
                }
            }),
    {
        let found = self.segments.select(source_id, Some(stream));
        let ghost all = segment_rows(seqs::views(found@));
        let mut total: u64 = 0;
        let mut i: usize = 0;
        while i < found.len()
            invariant
                i <= found@.len(),
                all == segment_rows(seqs::views(found@)),
                all == self@.segments_of(source_id, stream@),
                total == model::sealed_bytes(all.take(i as int)),
                total <= model::sum_limit(),
            decreases found@.len() - i,
        {
            proof {
                assert(all.take(i + 1).drop_last() =~= all.take(i as int));
                assert(all.take(i + 1).last() == found@[i as int].row@);
                lemma_sums_grow(all, i + 1);
            }
            let n: u64 = found[i].row.bytes.len() as u64;
            if n > i64::MAX as u64 - total {
                return Err(sum_too_large("failed to measure the segments of ", stream));
            }
            total = total + n;
            i += 1;
        }
        proof {
            assert(all.take(i as int) =~= all);
        }
        Ok(total)
    }

    /// A stream's sealed segments as the catalog sees them: how many segments,
    /// how many rows across them, and the span they cover.
    pub fn segment_span(&self, source_id: i64, stream: &str) -> (r: Result<(u64, Span), Error>)
        ensures
            ({
                let s = self@.segments_of(source_id, stream@);
                if model::sealed_rows(s) <= model::sum_limit() {
                    r == Ok::<(u64, Span), Error>((s.len() as u64, sealed_span(s)))
                } else {
                    r matches Err(e) && e@ == model::sum_too_large(
                        "failed to measure the segments of "@ + stream@,
                    )
                }
            }),
    {
        let rows: u64 = match self.sum_rows(source_id, stream) {
            Some(n) => n,
            None => {
                return Err(sum_too_large("failed to measure the segments of ", stream));
            },
        };
        let found = self.segments.select(source_id, Some(stream));
        let ghost all = segment_rows(seqs::views(found@));
        let mut first_ts: Option<i64> = None;
        let mut last_ts: Option<i64> = None;
        let mut i: usize = 0;
        while i < found.len()
            invariant
                i <= found@.len(),
                all == segment_rows(seqs::views(found@)),
                first_ts == model::oldest_sealed(all.take(i as int)),
                last_ts == model::newest_sealed(all.take(i as int)),
            decreases found@.len() - i,
        {
            proof {
                assert(all.take(i + 1).drop_last() =~= all.take(i as int));
                assert(all.take(i + 1).last() == found@[i as int].row@);
            }
            first_ts = earlier(first_ts, found[i].row.meta.first_ts);
            last_ts = later(last_ts, found[i].row.meta.last_ts);
            i += 1;
        }
        proof {
            assert(all.take(i as int) =~= all);
        }
        Ok((found.len() as u64, Span { rows, first_ts, last_ts }))
    }

    /// The newest timestamp that a stream's segments hold: the watermark.
    pub fn sealed_watermark(&self, source_id: i64, stream: &str) -> (r: Option<i64>)
        ensures
            r == self@.watermark(source_id, stream@),
    {
        let found = self.segments.select(source_id, Some(stream));
        let ghost all = segment_rows(seqs::views(found@));
        let mut last_ts: Option<i64> = None;
        let mut i: usize = 0;
        while i < found.len()
            invariant
                i <= found@.len(),
                all == segment_rows(seqs::views(found@)),
                last_ts == model::newest_sealed(all.take(i as int)),
            decreases found@.len() - i,
        {
            proof {
                assert(all.take(i + 1).drop_last() =~= all.take(i as int));
                assert(all.take(i + 1).last() == found@[i as int].row@);
            }
            last_ts = later(last_ts, found[i].row.meta.last_ts);
            i += 1;
        }
        proof {
            assert(all.take(i as int) =~= all);
        }
        last_ts
    }

    /// The sequence number a stream's next segment gets: one past its last, or
    /// zero.
    pub fn next_seq(&self, source_id: i64, stream: &str) -> (r: Option<u64>)
        ensures
            r == next_seq_of(self@.segments_of(source_id, stream@)),
    {
        let found = self.segments.select(source_id, Some(stream));
        if found.len() == 0 {
            assert(self@.segments_of(source_id, stream@).len() == 0);
            return Some(0);
        }
        let last: u64 = found[found.len() - 1].row.seq;
        proof {
            let s = self@.segments_of(source_id, stream@);
            assert(s.last() == found@[found@.len() - 1].row@);
        }
        if last == u64::MAX {
            None
        } else {
            Some(last + 1)
        }
    }

    // ------------------------------------------------------------ streams

    /// Every stream with at least one segment, alphabetically. A stream with
    /// only unsealed rows is not among them.
    pub fn streams(&self, source_id: i64) -> (r: Vec<String>)
        ensures
            seqs::views(r@) == self@.sealed_streams(source_id),
    {
        let found = self.segments.select(source_id, None);
        let ghost all = self@.segment_names(source_id);
        let mut out: Vec<String> = Vec::new();
        let mut i: usize = 0;
        proof {
            seqs::lemma_views_empty::<String>();
        }
        while i < found.len()
            invariant
                i <= found@.len(),
                all == self@.segment_names(source_id),
                seqs::views(found@) == table::selected::<SegmentAt>(
                    self@.segments,
                    source_id as int,
                    None,
                ),
                seqs::views(out@) == names::with_names(Seq::empty(), all.take(i as int)),
            decreases found@.len() - i,
        {
            proof {
                assert(all.take(i + 1).drop_last() =~= all.take(i as int));
                assert(all[i as int] == found@[i as int].stream@);
            }
            add_name(&mut out, found[i].stream.as_str());
            i += 1;
        }
        proof {
            assert(all.take(i as int) =~= all);
        }
        out
    }

    /// Every stream this source holds, alphabetically: those of its segments
    /// and those of its WAL rows.
    pub fn all_streams(&self, source_id: i64) -> (r: Vec<String>)
        ensures
            seqs::views(r@) == self@.streams_of(source_id),
    {
        let mut out = self.streams(source_id);
        let found = self.wal.select(source_id, None);
        let ghost all = self@.wal_names(source_id);
        let ghost start = seqs::views(out@);
        let mut i: usize = 0;
        while i < found.len()
            invariant
                i <= found@.len(),
                all == self@.wal_names(source_id),
                seqs::views(found@) == table::selected::<WalAt>(
                    self@.wal,
                    source_id as int,
                    None,
                ),
                seqs::views(out@) == names::with_names(start, all.take(i as int)),
            decreases found@.len() - i,
        {
            proof {
                assert(all.take(i + 1).drop_last() =~= all.take(i as int));
                assert(all[i as int] == found@[i as int].row.stream@);
            }
            add_name(&mut out, found[i].row.stream.as_str());
            i += 1;
        }
        proof {
            assert(all.take(i as int) =~= all);
        }
        out
    }

    /// Every stream with a caller's row, alphabetically.
    pub fn caller_row_streams(&self, source_id: i64) -> (r: Vec<String>)
        ensures
            seqs::views(r@) == self@.caller_streams(source_id),
    {
        let found = self.caller_rows.select(source_id, None);
        let ghost all = self@.caller_names(source_id);
        let mut out: Vec<String> = Vec::new();
        let mut i: usize = 0;
        proof {
            seqs::lemma_views_empty::<String>();
        }
        while i < found.len()
            invariant
                i <= found@.len(),
                all == self@.caller_names(source_id),
                seqs::views(found@) == table::selected::<CallerAt>(
                    self@.caller_rows,
                    source_id as int,
                    None,
                ),
                seqs::views(out@) == names::with_names(Seq::empty(), all.take(i as int)),
            decreases found@.len() - i,
        {
            proof {
                assert(all.take(i + 1).drop_last() =~= all.take(i as int));
                assert(all[i as int] == found@[i as int].stream@);
            }
            add_name(&mut out, found[i].stream.as_str());
            i += 1;
        }
        proof {
            assert(all.take(i as int) =~= all);
        }
        out
    }
}

/// The numbers and catalog facts of segments.
pub open spec fn metas_of(s: Seq<super::rows::SegmentView>) -> Seq<(u64, SegmentMeta)> {
    s.map_values(|v: super::rows::SegmentView| (v.seq, v.meta))
}

/// The numbers and indexes of segments.
pub open spec fn indexes_of(s: Seq<super::rows::SegmentView>) -> Seq<(u64, Option<Seq<u8>>)> {
    s.map_values(|v: super::rows::SegmentView| (v.seq, v.caller_index))
}

/// The views of numbers and indexes.
pub open spec fn index_views(s: Seq<(u64, Option<Vec<u8>>)>) -> Seq<(u64, Option<Seq<u8>>)> {
    s.map_values(|p: (u64, Option<Vec<u8>>)| (p.0, seqs::opt_view(p.1)))
}

/// The payload of the segment of a number.
pub open spec fn bytes_at(s: Seq<super::rows::SegmentView>, seq: u64) -> Option<Seq<u8>>
    decreases s.len(),
{
    if s.len() == 0 {
        None
    } else if s[0].seq == seq {
        Some(s[0].bytes)
    } else {
        bytes_at(s.skip(1), seq)
    }
}

/// The segments that overlap `[start, end]`.
pub open spec fn overlapping(
    s: Seq<super::rows::SegmentView>,
    start: i64,
    end: i64,
) -> Seq<super::rows::SegmentView> {
    s.filter(
        |v: super::rows::SegmentView| v.meta.last_ts >= start && v.meta.first_ts <= end,
    )
}

/// The rows of segments and the span they cover.
pub open spec fn sealed_span(s: Seq<super::rows::SegmentView>) -> Span {
    Span {
        rows: model::sealed_rows(s) as u64,
        first_ts: model::oldest_sealed(s),
        last_ts: model::newest_sealed(s),
    }
}

/// The number after the last segment's, where there is one.
pub open spec fn next_seq_of(s: Seq<super::rows::SegmentView>) -> Option<u64> {
    if s.len() == 0 {
        Some(0)
    } else if s.last().seq == u64::MAX {
        None
    } else {
        Some((s.last().seq + 1) as u64)
    }
}

/// The sentence of a source that is not there.
pub open spec fn no_source_text(id: i64) -> Seq<char> {
    "no source with id "@ + text::signed_decimal(id as int)
}

fn no_source(id: i64) -> (r: Error)
    ensures
        r@ == ErrorView::Message(no_source_text(id)),
{
    let mut s = String::from_str("no source with id ");
    append_signed(&mut s, id);
    Error::Message(s)
}

/// A source is there where its key is held.
pub proof fn lemma_has_source(d: DbView, row: super::rows::SourceView)
    ensures
        table::holds::<SourceRow>(d.sources, SourceRow::key_of(row)) == d.has_source(row.id),
{
    if d.has_source(row.id) {
        let i = choose|i: int| 0 <= i < d.sources.len() && #[trigger] d.sources[i].id == row.id;
        assert(SourceRow::key_of(d.sources[i]) == SourceRow::key_of(row));
    }
    if table::holds::<SourceRow>(d.sources, SourceRow::key_of(row)) {
        let i = choose|i: int|
            0 <= i < d.sources.len() && SourceRow::key_of(#[trigger] d.sources[i])
                == SourceRow::key_of(row);
        assert(d.sources[i].id == row.id);
    }
}

proof fn lemma_sums_grow(s: Seq<super::rows::SegmentView>, n: int)
    requires
        0 <= n <= s.len(),
    ensures
        model::sealed_rows(s.take(n)) <= model::sealed_rows(s),
        model::sealed_bytes(s.take(n)) <= model::sealed_bytes(s),
    decreases s.len() - n,
{
    if n == s.len() {
        assert(s.take(n) =~= s);
    } else {
        lemma_sums_grow(s, n + 1);
        assert(s.take(n + 1).drop_last() =~= s.take(n));
    }
}

} // verus!
