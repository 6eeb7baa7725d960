//! Questions about the WAL, the clock and the caller's rows.

use vstd::prelude::*;

use super::super::model;
use super::super::records::CallerAt;
use super::super::rows::{CallerRow, CallerView, PageStats, Span, WalRow, WalView};
use super::super::table;
use super::{earlier, later, Db};
use crate::seqs;

verus! {

broadcast use crate::seqs::group_views;

/// The sizes of segments, each with its newest timestamp.
pub open spec fn sizes_of(s: Seq<super::super::rows::SegmentView>) -> Seq<(i64, u64)> {
    s.map_values(|v: super::super::rows::SegmentView| (v.meta.last_ts, v.bytes.len() as u64))
}

/// Oldest first.
pub open spec fn oldest_first(s: Seq<(i64, u64)>) -> bool {
    forall|i: int, j: int| 0 <= i < j < s.len() ==> #[trigger] s[i].0 <= #[trigger] s[j].0
}

/// The caller's rows in `[start, end]`.
pub open spec fn callers_between(s: Seq<CallerView>, start: i64, end: i64) -> Seq<CallerView> {
    s.filter(|c: CallerView| start <= c.ts <= end)
}

impl Db {
    /// Every WAL row of a stream, sealed or not, oldest first. This is the raw
    /// table; a reader wants [`live_wal`](Self::live_wal).
    pub fn read_wal(&self, source_id: i64, stream: &str) -> (r: Vec<WalRow>)
        ensures
            seqs::views(r@) == self@.wal_of(source_id, stream@),
    {
        let found = self.wal.select(source_id, Some(stream));
        let ghost all = seqs::views(found@);
        let mut out: Vec<WalRow> = Vec::new();
        let mut i: usize = 0;
        proof {
            seqs::lemma_views_empty::<WalRow>();
            assert(super::wal_rows(all.take(0)) =~= Seq::empty());
        }
        while i < found.len()
            invariant
                i <= found@.len(),
                all == seqs::views(found@),
                seqs::views(out@) == super::wal_rows(all.take(i as int)),
            decreases found@.len() - i,
        {
            let ghost was = seqs::views(out@);
            out.push(found[i].row.clone());
            proof {
                assert(super::wal_rows(all.take(i + 1)) =~= was.push(all[i as int].row));
            }
            i += 1;
        }
        proof {
            assert(all.take(i as int) =~= all);
        }
        out
    }

    /// Rows not covered by any sealed segment, oldest first. This filter is
    /// the recovery rule: a row is live where its timestamp is past the
    /// watermark of the sealed segments of its own stream, and a stream that
    /// has never sealed keeps its whole history live. The prune has no part in
    /// it.
    pub fn live_wal(&self, source_id: i64, stream: &str) -> (r: Vec<WalRow>)
        ensures
            seqs::views(r@) == self@.live_of(source_id, stream@),
    {
        let watermark = self.sealed_watermark(source_id, stream);
        let found = self.wal.select(source_id, Some(stream));
        let ghost all = super::wal_rows(seqs::views(found@));
        let ghost keep = |r: WalView| model::past(watermark, r.ts);
        let mut out: Vec<WalRow> = Vec::new();
        let mut i: usize = 0;
        proof {
            seqs::lemma_views_empty::<WalRow>();
            seqs::lemma_filter_full(all, keep);
        }
        while i < found.len()
            invariant
                i <= found@.len(),
                all == super::wal_rows(seqs::views(found@)),
                keep == |r: WalView| model::past(watermark, r.ts),
                seqs::views(out@) == all.take(i as int).filter(keep),
            decreases found@.len() - i,
        {
            proof {
                seqs::lemma_filter_take(all, i as int, keep);
                assert(all[i as int] == found@[i as int].row@);
            }
            let live = match watermark {
                Some(w) => found[i].row.ts > w,
                None => true,
            };
            if live {
                out.push(found[i].row.clone());
            }
            i += 1;
        }
        out
    }

    /// How many rows a stream's live WAL holds, and the span they cover,
    /// without their payloads. The same rule as [`live_wal`](Self::live_wal).
    pub fn live_wal_span(&self, source_id: i64, stream: &str) -> (r: Span)
        ensures
            r == model::span_of(self@.live_of(source_id, stream@)),
    {
        let watermark = self.sealed_watermark(source_id, stream);
        let found = self.wal.select(source_id, Some(stream));
        let ghost all = super::wal_rows(seqs::views(found@));
        let ghost keep = |r: WalView| model::past(watermark, r.ts);
        let mut rows: u64 = 0;
        let mut first_ts: Option<i64> = None;
        let mut last_ts: Option<i64> = None;
        let mut i: usize = 0;
        proof {
            seqs::lemma_filter_full(all, keep);
        }
        while i < found.len()
            invariant
                i <= found@.len(),
                all == super::wal_rows(seqs::views(found@)),
                keep == |r: WalView| model::past(watermark, r.ts),
                rows <= i,
                rows == all.take(i as int).filter(keep).len(),
                (Span { rows, first_ts, last_ts }) == model::span_of(
                    all.take(i as int).filter(keep),
                ),
            decreases found@.len() - i,
        {
            proof {
                seqs::lemma_filter_take(all, i as int, keep);
                assert(all[i as int] == found@[i as int].row@);
            }
            let ts: i64 = found[i].row.ts;
            let live = match watermark {
                Some(w) => ts > w,
                None => true,
            };
            if live {
                rows = rows + 1;
                if first_ts.is_none() {
                    first_ts = Some(ts);
                }
                last_ts = Some(ts);
            }
            i += 1;
        }
        Span { rows, first_ts, last_ts }
    }

    /// The whole source's time span: every stream, segments and WAL together.
    pub fn source_time_span(&self, source_id: i64) -> (r: (Option<i64>, Option<i64>))
        ensures
            r == self@.time_span(source_id),
    {
        let segments = self.segments.select(source_id, None);
        let ghost sealed = super::segment_rows(seqs::views(segments@));
        let mut first: Option<i64> = None;
        let mut last: Option<i64> = None;
        let mut i: usize = 0;
        while i < segments.len()
            invariant
                i <= segments@.len(),
                sealed == super::segment_rows(seqs::views(segments@)),
                first == model::oldest_sealed(sealed.take(i as int)),
                last == model::newest_sealed(sealed.take(i as int)),
            decreases segments@.len() - i,
        {
            proof {
                assert(sealed.take(i + 1).drop_last() =~= sealed.take(i as int));
                assert(sealed.take(i + 1).last() == segments@[i as int].row@);
            }
            first = earlier(first, segments[i].row.meta.first_ts);
            last = later(last, segments[i].row.meta.last_ts);
            i += 1;
        }
        proof {
            assert(sealed.take(i as int) =~= sealed);
        }
        let rows = self.wal.select(source_id, None);
        let ghost all = super::wal_rows(seqs::views(rows@));
        let mut oldest: Option<i64> = None;
        let mut newest: Option<i64> = None;
        let mut j: usize = 0;
        while j < rows.len()
            invariant
                j <= rows@.len(),
                all == super::wal_rows(seqs::views(rows@)),
                oldest == model::oldest_row(all.take(j as int)),
                newest == model::newest_row(all.take(j as int)),
            decreases rows@.len() - j,
        {
            proof {
                assert(all.take(j + 1).drop_last() =~= all.take(j as int));
                assert(all.take(j + 1).last() == rows@[j as int].row@);
            }
            oldest = earlier(oldest, rows[j].row.ts);
            newest = later(newest, rows[j].row.ts);
            j += 1;
        }
        proof {
            assert(all.take(j as int) =~= all);
        }
        let first = match oldest {
            Some(t) => earlier(first, t),
            None => first,
        };
        let last = match newest {
            Some(t) => later(last, t),
            None => last,
        };
        (first, last)
    }

    /// Sealed segment sizes across a source, oldest first: `(last_ts, bytes)`.
    /// What a size-bounded retention walks.
    pub fn segment_sizes(&self, source_id: i64) -> (r: Vec<(i64, u64)>)
        ensures
            oldest_first(r@),
            r@.to_multiset() == sizes_of(self@.source_segments(source_id)).to_multiset(),
    {
        let found = self.segments.select(source_id, None);
        let ghost all = sizes_of(super::segment_rows(seqs::views(found@)));
        let mut out: Vec<(i64, u64)> = Vec::new();
        let mut i: usize = 0;
        assert(all.take(0) =~= out@);
        while i < found.len()
            invariant
                i <= found@.len(),
                all == sizes_of(super::segment_rows(seqs::views(found@))),
                oldest_first(out@),
                out@.to_multiset() == all.take(i as int).to_multiset(),
            decreases found@.len() - i,
        {
            let size = (found[i].row.meta.last_ts, found[i].row.bytes.len() as u64);
            let ghost was = out@;
            let mut at: usize = out.len();
            while at > 0 && out[at - 1].0 > size.0
                invariant
                    at <= out@.len(),
                    out@ == was,
                    oldest_first(out@),
                    forall|k: int| at <= k < out@.len() ==> #[trigger] out@[k].0 > size.0,
                decreases at,
            {
                at -= 1;
            }
            out.insert(at, size);
            proof {
                assert(all[i as int] == size);
                assert(all.take(i + 1) =~= all.take(i as int).push(size));
                all.take(i as int).to_multiset_ensures();
                was.to_multiset_ensures();
                vstd::seq_lib::to_multiset_insert(was, at as int, size);
            }
            i += 1;
        }
        proof {
            assert(all.take(i as int) =~= all);
        }
        out
    }

    /// The source's `(ts, offset_ns)` clock observations, oldest first.
    pub fn read_clock_offsets(&self, source_id: i64) -> (r: Vec<(i64, i64)>)
        ensures
            r@ == self@.clock_of(source_id),
    {
        let found = self.clock_offsets.select(source_id, None);
        let ghost all = seqs::views(found@);
        let mut out: Vec<(i64, i64)> = Vec::new();
        let mut i: usize = 0;
        while i < found.len()
            invariant
                i <= found@.len(),
                all == seqs::views(found@),
                out@ == model::clock_pairs(all.take(i as int)),
            decreases found@.len() - i,
        {
            let ghost was = out@;
            out.push((found[i].ts, found[i].offset_ns));
            proof {
                assert(model::clock_pairs(all.take(i + 1)) =~= was.push(
                    (all[i as int].ts, all[i as int].offset_ns),
                ));
            }
            i += 1;
        }
        proof {
            assert(all.take(i as int) =~= all);
        }
        out
    }

    /// A caller's rows against a stream in `[start, end]`, by timestamp and
    /// then as inserted.
    pub fn read_caller_rows(&self, source_id: i64, stream: &str, start: i64, end: i64) -> (r: Vec<
        CallerRow,
    >)
        ensures
            seqs::views(r@) == callers_between(self@.callers_of(source_id, stream@), start, end),
    {
        let found = self.caller_rows.select(source_id, Some(stream));
        let ghost all = self@.callers_of(source_id, stream@);
        let ghost keep = |c: CallerView| start <= c.ts <= end;
        let mut out: Vec<CallerRow> = Vec::new();
        let mut i: usize = 0;
        proof {
            seqs::lemma_views_empty::<CallerRow>();
            seqs::lemma_filter_full(all, keep);
        }
        while i < found.len()
            invariant
                i <= found@.len(),
                all == self@.callers_of(source_id, stream@),
                seqs::views(found@) == table::selected::<CallerAt>(
                    self@.caller_rows,
                    source_id as int,
                    Some(stream@),
                ),
                keep == |c: CallerView| start <= c.ts <= end,
                seqs::views(out@) == all.take(i as int).filter(keep),
            decreases found@.len() - i,
        {
            proof {
                seqs::lemma_filter_take(all, i as int, keep);
                assert(all[i as int] == found@[i as int].row@);
            }
            if start <= found[i].row.ts && found[i].row.ts <= end {
                out.push(found[i].row.clone());
            }
            i += 1;
        }
        out
    }

    /// How the archive's pages stand: how many there are, how many are free,
    /// and how big one is.
    pub fn page_stats(&self) -> (r: PageStats)
        ensures
            r == self@.pages,
    {
        self.pages
    }

    /// What the archive occupies on disk, in bytes: the file's size, pages not
    /// yet handed back with it.
    pub fn archive_bytes(&self) -> (r: u64)
        ensures
            r == self@.pages.pages * self@.pages.page_size,
    {
        assert(self.pages.pages * self.pages.page_size <= u32::MAX * u32::MAX)
            by (nonlinear_arith)
            requires
                self.pages.pages <= u32::MAX,
                self.pages.page_size <= u32::MAX,
        ;
        self.pages.pages as u64 * self.pages.page_size as u64
    }
}

} // verus!
