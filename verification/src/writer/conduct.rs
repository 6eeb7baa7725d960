//! What each request comes to, and when a writer waits, drops or stops.

use vstd::prelude::*;

use super::handle;
use super::laws;
use super::order;
use super::reclaim;
use super::run;
use super::run::{ReplyView, RequestView, WriterView};
use super::session;
use super::tick;
use super::tick::{HealthView, Move, RunView, TickView};
use crate::db;
use crate::db::facts;
use crate::db::model::DbView;
use crate::db::records::{ClockAt, SegmentAtView, WalAt, WalAtView};
use crate::db::store;
use crate::db::table;
use crate::db::table::{Key, Keyed};
use crate::db::{SourceMetaView, WalView};
use crate::error;
use crate::error::ErrorView;
use crate::keys;
use crate::segment::SegmentEncoder;
use crate::seqs;
use crate::text_map;
use crate::text_map::Entry;

verus! {

// ------------------------------------------------------------ what a handle hands over

/// A handle refuses rows exactly where one of them is at or before its floor, and names
/// the first that is.
pub proof fn law_a_handle_refuses_rows_at_its_floor(rows: Seq<WalView>, floor: i64)
    ensures
        match handle::first_below(rows, floor) {
            None => forall|i: int| 0 <= i < rows.len() ==> (#[trigger] rows[i]).ts > floor,
            Some(ts) => exists|i: int|
                {
                    &&& 0 <= i < rows.len()
                    &&& (#[trigger] rows[i]).ts == ts
                    &&& ts <= floor
                    &&& forall|j: int| 0 <= j < i ==> (#[trigger] rows[j]).ts > floor
                },
        },
    decreases rows.len(),
{
    if rows.len() > 0 {
        let t = rows.skip(1);
        law_a_handle_refuses_rows_at_its_floor(t, floor);
        if rows[0].ts <= floor {
            assert(rows[0].ts == handle::first_below(rows, floor)->0);
        } else {
            match handle::first_below(t, floor) {
                None => {
                    assert forall|i: int| 0 <= i < rows.len() implies (#[trigger] rows[i]).ts
                        > floor by {
                        if i > 0 {
                            assert(t[i - 1] == rows[i]);
                        }
                    }
                },
                Some(ts) => {
                    let i = choose|i: int|
                        {
                            &&& 0 <= i < t.len()
                            &&& (#[trigger] t[i]).ts == ts
                            &&& ts <= floor
                            &&& forall|j: int| 0 <= j < i ==> (#[trigger] t[j]).ts > floor
                        };
                    assert(rows[i + 1] == t[i]);
                    assert forall|j: int| 0 <= j < i + 1 implies (#[trigger] rows[j]).ts
                        > floor by {
                        if j > 0 {
                            assert(t[j - 1] == rows[j]);
                        }
                    }
                },
            }
        }
    }
}

/// A tick of several sources hands every row of every one over, and no source without
/// rows.
pub proof fn law_a_tick_hands_every_row_over(ticks: Seq<TickView>, source: i64)
    ensures
        order::rows_for(handle::with_rows(ticks), source) == order::rows_for(ticks, source),
        forall|i: int|
            0 <= i < handle::with_rows(ticks).len() ==> (#[trigger] handle::with_rows(
                ticks,
            )[i]).1.len() > 0,
    decreases ticks.len(),
{
    reveal(Seq::filter);
    let keep = |t: TickView| t.1.len() > 0;
    if ticks.len() > 0 {
        let head = ticks.drop_last();
        law_a_tick_hands_every_row_over(head, source);
        let kept = handle::with_rows(head);
        let now = handle::with_rows(ticks);
        if keep(ticks.last()) {
            assert(now == kept.push(ticks.last()));
            assert(now.drop_last() =~= kept);
        } else {
            let rows = order::rows_for(head, source);
            assert(rows + ticks.last().1 =~= rows);
        }
    }
    assert forall|i: int| 0 <= i < handle::with_rows(ticks).len() implies (
    #[trigger] handle::with_rows(ticks)[i]).1.len() > 0 by {
        seqs::lemma_filter_member(ticks, keep, i);
    }
}

// ------------------------------------------------------------ appending

/// What the tables hold of WAL keys once rows have been inserted: what they held, and the
/// rows'.
proof fn lemma_run_holds(d: DbView, source: i64, rows: Seq<WalView>, k: Key)
    requires
        table::holds::<WalAt>(d.wal_run(source, rows).0.wal, k),
    ensures
        table::holds::<WalAt>(d.wal, k) || exists|j: int|
            0 <= j < rows.len() && k == (Key {
                source: source as int,
                stream: (#[trigger] rows[j]).stream,
                at: rows[j].ts as int,
            }),
    decreases rows.len(),
{
    if rows.len() > 0 {
        let head = rows.drop_last();
        let (was, e) = d.wal_run(source, head);
        let now = d.wal_run(source, rows).0;
        if e is None && was.wal_inserted(source, rows.last()) is Ok {
            let x = WalAtView { source_id: source, row: rows.last() };
            table::lemma_place::<WalAt>(was.wal, x);
            let p = table::place_of::<WalAt>(was.wal, x);
            let i = choose|i: int|
                0 <= i < now.wal.len() && WalAt::key_of(#[trigger] now.wal[i]) == k;
            if i == p {
                assert(rows[rows.len() - 1] == rows.last());
            } else {
                let m = if i < p {
                    i
                } else {
                    i - 1
                };
                assert(was.wal[m] == now.wal[i]);
                assert(table::holds::<WalAt>(was.wal, k));
            }
        }
        if table::holds::<WalAt>(was.wal, k) {
            lemma_run_holds(d, source, head, k);
            if !table::holds::<WalAt>(d.wal, k) {
                let j = choose|j: int|
                    0 <= j < head.len() && k == (Key {
                        source: source as int,
                        stream: (#[trigger] head[j]).stream,
                        at: head[j].ts as int,
                    });
                assert(rows[j] == head[j]);
            }
        }
    }
}

proof fn lemma_ticks_hold(d: DbView, ticks: Seq<TickView>, k: Key)
    requires
        table::holds::<WalAt>(d.ticks_run(ticks).0.wal, k),
    ensures
        table::holds::<WalAt>(d.wal, k) || exists|i: int, j: int|
            0 <= i < ticks.len() && 0 <= j < ticks[i].1.len() && k == (Key {
                source: ticks[i].0 as int,
                stream: (#[trigger] ticks[i].1[j]).stream,
                at: ticks[i].1[j].ts as int,
            }),
    decreases ticks.len(),
{
    if ticks.len() > 0 {
        let head = ticks.drop_last();
        let t = ticks[ticks.len() - 1];
        let (was, e) = d.ticks_run(head);
        if e is None {
            lemma_run_holds(was, t.0, t.1, k);
        }
        if table::holds::<WalAt>(was.wal, k) {
            lemma_ticks_hold(d, head, k);
            if !table::holds::<WalAt>(d.wal, k) {
                let (i, j) = choose|i: int, j: int|
                    0 <= i < head.len() && 0 <= j < head[i].1.len() && k == (Key {
                        source: head[i].0 as int,
                        stream: (#[trigger] head[i].1[j]).stream,
                        at: head[i].1[j].ts as int,
                    });
                assert(ticks[i].1[j] == head[i].1[j]);
            }
        } else {
            let j = choose|j: int|
                0 <= j < t.1.len() && k == (Key {
                    source: t.0 as int,
                    stream: (#[trigger] t.1[j]).stream,
                    at: t.1[j].ts as int,
                });
            assert(ticks[ticks.len() - 1].1[j] == t.1[j]);
        }
    }
}

proof fn lemma_runs(d: DbView, source: i64, rows: Seq<WalView>)
    requires
        d.has_source(source),
        forall|j: int|
            0 <= j < rows.len() ==> !table::holds::<WalAt>(
                d.wal,
                Key {
                    source: source as int,
                    stream: (#[trigger] rows[j]).stream,
                    at: rows[j].ts as int,
                },
            ),
        forall|j: int, k: int|
            0 <= j < k < rows.len() ==> (#[trigger] rows[j]).stream != (#[trigger] rows[k]).stream
                || rows[j].ts != rows[k].ts,
    ensures
        d.wal_run(source, rows).1 is None,
        d.wal_run(source, rows).0.sources == d.sources,
    decreases rows.len(),
{
    if rows.len() > 0 {
        let head = rows.drop_last();
        assert forall|j: int| 0 <= j < head.len() implies #[trigger] head[j] == rows[j] by {}
        lemma_runs(d, source, head);
        let was = d.wal_run(source, head).0;
        let last = rows[rows.len() - 1];
        let k = Key { source: source as int, stream: last.stream, at: last.ts as int };
        if table::holds::<WalAt>(was.wal, k) {
            lemma_run_holds(d, source, head, k);
            let j = choose|j: int|
                0 <= j < head.len() && k == (Key {
                    source: source as int,
                    stream: (#[trigger] head[j]).stream,
                    at: head[j].ts as int,
                });
            assert(rows[j].stream != last.stream || rows[j].ts != last.ts);
        }
        let i = choose|i: int| 0 <= i < d.sources.len() && #[trigger] d.sources[i].id == source;
        assert(was.sources[i].id == source);
    }
}

/// Whether no two rows of ticks are of one source and stream at one moment, and none is
/// at a moment its stream has a row of already.
pub open spec fn without_duplicates(d: DbView, ticks: Seq<TickView>) -> bool {
    &&& forall|i: int, j: int, r: WalView|
        0 <= i < ticks.len() && 0 <= j < ticks[i].1.len() && #[trigger] d.wal_of(
            ticks[i].0,
            ticks[i].1[j].stream,
        ).contains(r) ==> r.ts != (#[trigger] ticks[i].1[j]).ts
    &&& forall|i: int, j: int, k: int, m: int|
        0 <= i < ticks.len() && 0 <= j < ticks[i].1.len() && 0 <= k < ticks.len() && 0 <= m
            < ticks[k].1.len() && (i, j) != (k, m) ==> ticks[i].0 != ticks[k].0 || (
        #[trigger] ticks[i].1[j]).stream != (#[trigger] ticks[k].1[m]).stream || ticks[i].1[j].ts
            != ticks[k].1[m].ts
}

proof fn lemma_not_held(d: DbView, source: i64, row: WalView)
    requires
        forall|r: WalView| #[trigger] d.wal_of(source, row.stream).contains(r) ==> r.ts != row.ts,
    ensures
        !table::holds::<WalAt>(
            d.wal,
            Key { source: source as int, stream: row.stream, at: row.ts as int },
        ),
{
    let k = Key { source: source as int, stream: row.stream, at: row.ts as int };
    let here = |v: WalAtView| table::within::<WalAt>(v, source as int, Some(row.stream));
    if table::holds::<WalAt>(d.wal, k) {
        let i = choose|i: int| 0 <= i < d.wal.len() && WalAt::key_of(#[trigger] d.wal[i]) == k;
        seqs::lemma_filter_keeps(d.wal, here, i);
        let t = d.wal.filter(here);
        let m = choose|m: int| 0 <= m < t.len() && t[m] == d.wal[i];
        assert(d.wal_of(source, row.stream)[m] == t[m].row);
        assert(d.wal_of(source, row.stream).contains(t[m].row));
    }
}

/// A tick is committed in one transaction where its sources are there and no row of it
/// falls on another.
pub proof fn law_a_tick_without_duplicates_is_committed(d: DbView, ticks: Seq<TickView>)
    requires
        forall|i: int| 0 <= i < ticks.len() ==> d.has_source((#[trigger] ticks[i]).0),
        without_duplicates(d, ticks),
    ensures
        d.ticks_run(ticks).1 is None,
        d.ticks_run(ticks).0.sources == d.sources,
    decreases ticks.len(),
{
    if ticks.len() > 0 {
        let head = ticks.drop_last();
        assert forall|i: int| 0 <= i < head.len() implies #[trigger] head[i] == ticks[i] by {}
        assert(without_duplicates(d, head)) by {
            assert forall|i: int, j: int, r: WalView|
                0 <= i < head.len() && 0 <= j < head[i].1.len() && #[trigger] d.wal_of(
                    head[i].0,
                    head[i].1[j].stream,
                ).contains(r) implies r.ts != (#[trigger] head[i].1[j]).ts by {
                assert(ticks[i].1[j] == head[i].1[j]);
                assert(d.wal_of(ticks[i].0, ticks[i].1[j].stream).contains(r));
            }
            assert forall|i: int, j: int, k: int, m: int|
                0 <= i < head.len() && 0 <= j < head[i].1.len() && 0 <= k < head.len() && 0 <= m
                    < head[k].1.len() && (i, j) != (k, m) implies head[i].0 != head[k].0 || (
            #[trigger] head[i].1[j]).stream != (#[trigger] head[k].1[m]).stream
                || head[i].1[j].ts != head[k].1[m].ts by {
                assert(ticks[i].1[j] == head[i].1[j] && ticks[k].1[m] == head[k].1[m]);
            }
        }
        law_a_tick_without_duplicates_is_committed(d, head);
        let was = d.ticks_run(head).0;
        let last = ticks.len() - 1;
        let t = ticks[last];
        let s = choose|s: int| 0 <= s < d.sources.len() && #[trigger] d.sources[s].id == t.0;
        assert(was.sources[s].id == t.0);
        assert forall|j: int| 0 <= j < t.1.len() implies !table::holds::<WalAt>(
            was.wal,
            Key {
                source: t.0 as int,
                stream: (#[trigger] t.1[j]).stream,
                at: t.1[j].ts as int,
            },
        ) by {
            let k = Key { source: t.0 as int, stream: t.1[j].stream, at: t.1[j].ts as int };
            assert forall|r: WalView| #[trigger] d.wal_of(t.0, t.1[j].stream).contains(
                r,
            ) implies r.ts != t.1[j].ts by {
                assert(ticks[last].1[j] == t.1[j]);
                assert(d.wal_of(ticks[last].0, ticks[last].1[j].stream).contains(r));
            }
            lemma_not_held(d, t.0, t.1[j]);
            if table::holds::<WalAt>(was.wal, k) {
                lemma_ticks_hold(d, head, k);
                let (i, m) = choose|i: int, m: int|
                    0 <= i < head.len() && 0 <= m < head[i].1.len() && k == (Key {
                        source: head[i].0 as int,
                        stream: (#[trigger] head[i].1[m]).stream,
                        at: head[i].1[m].ts as int,
                    });
                assert(ticks[i].1[m] == head[i].1[m]);
                assert(ticks[last].1[j] == t.1[j]);
            }
        }
        assert forall|j: int, k: int| 0 <= j < k < t.1.len() implies (#[trigger] t.1[j]).stream
            != (#[trigger] t.1[k]).stream || t.1[j].ts != t.1[k].ts by {
            assert(ticks[last].1[j] == t.1[j] && ticks[last].1[k] == t.1[k]);
        }
        lemma_runs(was, t.0, t.1);
    }
}

/// A row that is appended in order is read. Where what a tick keeps has its sources and
/// falls on no other row, every row of the tick that is newer than its stream's watermark,
/// beside rows all newer than their source's floor, is in its stream's tail once the tick
/// is handled.
pub proof fn law_an_appended_row_is_read<E: SegmentEncoder>(
    w: WriterView,
    ticks: Seq<TickView>,
    encoder: E,
    i: int,
    j: int,
)
    requires
        w.db.wf(),
        !w.db.read_only,
        !w.db.legacy,
        laws::tracks(w),
        ({
            let kept = tick::kept_ticks(ticks, w.floors, w.watermarks);
            &&& without_duplicates(w.db, kept)
            &&& forall|k: int| 0 <= k < kept.len() ==> w.db.has_source((#[trigger] kept[k]).0)
        }),
        0 <= i < ticks.len(),
        0 <= j < ticks[i].1.len(),
        w.floors.dom().contains(ticks[i].0) ==> forall|k: int|
            0 <= k < ticks[i].1.len() ==> (#[trigger] ticks[i].1[k]).ts > w.floors[ticks[i].0],
        w.watermarks.dom().contains((ticks[i].0, ticks[i].1[j].stream)) ==> ticks[i].1[j].ts
            > w.watermarks[(ticks[i].0, ticks[i].1[j].stream)],
    ensures
        ({
            let (n, reply) = run::handled(w, RequestView::Wal { ticks }, encoder);
            &&& reply == ReplyView::Done
            &&& n.db.live_of(ticks[i].0, ticks[i].1[j].stream).contains(ticks[i].1[j])
        }),
{
    let kept = tick::kept_ticks(ticks, w.floors, w.watermarks);
    law_a_tick_without_duplicates_is_committed(w.db, kept);
    order::law_no_row_in_order_is_dropped(ticks, w.floors, w.watermarks, i, j);
    let (a, b) = choose|a: int, b: int|
        0 <= a < kept.len() && kept[a].0 == ticks[i].0 && 0 <= b < kept[a].1.len()
            && #[trigger] kept[a].1[b] == ticks[i].1[j];
    laws::law_a_committed_row_is_read(w, ticks, encoder, a, b);
}

// ------------------------------------------------------------ waiting, dropping, stopping

/// A failure of the store can clear on its own where its code says busy, locked, out of
/// memory, interrupted, failed input or output, a full disk or a changed schema, and is a
/// violated constraint where its code says that. No other failure is either.
pub proof fn law_a_failure_is_classed_by_its_code(
    context: Seq<char>,
    code: Option<i32>,
    message: Seq<char>,
    e: ErrorView,
)
    ensures
        ({
            let s = ErrorView::Sqlite { context, result_code: code, message };
            let low = code->0 & 0xff;
            &&& error::retryable(s) <==> code is Some && (low == 5 || low == 6 || low == 7 || low
                == 9 || low == 10 || low == 13 || low == 17)
            &&& error::constraint(s) <==> code is Some && low == 19
        }),
        !(e is Sqlite) && !(e is Writer) ==> !error::retryable(e) && !error::constraint(e),
{
}

/// What failed is tried again where it can clear on its own, three times, after ten, fifty
/// and two hundred and fifty milliseconds.
pub proof fn law_what_can_clear_is_tried_again(attempt: nat, e: ErrorView)
    ensures
        tick::retried_after(attempt, e) is Some <==> error::retryable(e) && attempt < 3,
        error::retryable(e) ==> tick::retried_after(0, e) == Some(10u64),
        error::retryable(e) ==> tick::retried_after(1, e) == Some(50u64),
        error::retryable(e) ==> tick::retried_after(2, e) == Some(250u64),
{
}

/// A writer that drops ticks goes on until it has dropped thirty in a row, and one tick
/// that is committed starts the count anew.
pub proof fn law_a_writer_stops_at_thirty_drops(h: HealthView, e: ErrorView)
    requires
        h.dropped < 30,
    ensures
        h.after_drop(e).0.dropped == h.dropped + 1,
        h.after_drop(e).1 is Some <==> h.dropped == 29,
        h.after_drop(e).0 == (HealthView { dropped: h.after_drop(e).0.dropped, ..h }),
        h.after_commit() == (HealthView { dropped: 0, ..h }),
{
}

/// What an outcome of what is due leads to. A tick that is committed is settled, and the
/// count of drops starts anew; a failure that can clear is waited out; one that collides is
/// committed again source by source, and costs the one source whose rows it is; one that
/// outlasted the waiting is dropped and counted; any other stops the writer. Each source
/// whose rows are due alone is followed by the next, and by nothing after the last.
pub proof fn law_a_tick_is_settled_by_its_outcome(
    r: RunView,
    h: HealthView,
    outcome: Result<(), ErrorView>,
)
    requires
        r.at matches Some(i) ==> i < r.sources.len(),
        h.dropped < 30,
    ensures
        ({
            let (n, g, m) = r.settled(h, outcome);
            let next = match r.at {
                None => 0,
                Some(i) => i + 1,
            };
            let goes_on = next < r.sources.len();
            &&& n.sources == r.sources
            &&& (outcome is Ok && r.at is None) ==> m == Ok::<Move, ErrorView>(Move::Done)
                && g.dropped == 0
            &&& (outcome is Ok && r.at is Some) ==> n.any && if goes_on {
                &&& m == Ok::<Move, ErrorView>(Move::Commit)
                &&& n.at == Some(next)
                &&& n.attempt == 0
                &&& g == h
            } else {
                &&& m == Ok::<Move, ErrorView>(Move::Done)
                &&& g.dropped == 0
            }
            &&& outcome matches Err(e) ==> {
                &&& error::retryable(e) && r.attempt < 3 ==> {
                    &&& m matches Ok(Move::Wait(_))
                    &&& n == (RunView { attempt: r.attempt + 1, ..r })
                    &&& g == h
                }
                &&& error::retryable(e) && r.attempt >= 3 && h.dropped == 29 ==> m is Err
                &&& error::retryable(e) && r.attempt >= 3 && h.dropped < 29 && r.at is None ==> m
                    == Ok::<Move, ErrorView>(Move::Done) && g.dropped == h.dropped + 1
                &&& error::retryable(e) && r.attempt >= 3 && h.dropped < 29 && r.at is Some
                    && goes_on ==> m == Ok::<Move, ErrorView>(Move::Commit) && n.at == Some(next)
                    && n.attempt == 0 && g.dropped == h.dropped + 1
                &&& error::retryable(e) && r.attempt >= 3 && h.dropped < 29 && r.at is Some
                    && !goes_on ==> m == Ok::<Move, ErrorView>(Move::Done)
                &&& error::constraint(e) && goes_on ==> m == Ok::<Move, ErrorView>(Move::Commit)
                    && n.at == Some(next) && n.attempt == 0 && g.dropped == h.dropped
                &&& error::constraint(e) && !goes_on ==> m == Ok::<Move, ErrorView>(Move::Done)
                &&& error::constraint(e) && r.at is Some
                    ==> g.warned_collisions.dom().contains(r.sources[r.at->0 as int])
                &&& !error::retryable(e) && !error::constraint(e) ==> m == Err::<Move, ErrorView>(
                    e,
                ) && g == h
            }
        }),
{
    if let Err(e) = outcome {
        error::law_retryable_is_no_constraint(e);
    }
}

// ------------------------------------------------------------ requests

/// Retention says what it took: so many segments of the source as ended before the cutoff,
/// so many of its rows as were before it, and of those so many as no segment of their
/// stream held. It is refused exactly where the archive cannot be written.
pub proof fn law_retention_says_what_it_took(w: WriterView, source: i64, cutoff: i64)
    requires
        w.db.segments.len() <= usize::MAX,
        w.db.wal.len() <= usize::MAX,
    ensures
        ({
            let d = w.db;
            let (n, r) = run::evicted_from(d, source, cutoff);
            &&& r is Err <==> d.read_only || d.legacy
            &&& r is Err ==> n == d
            &&& r matches Ok(x) ==> {
                &&& n == d.evicted(source, cutoff)
                &&& x.segments == d.segments.filter(
                    |v: SegmentAtView| v.source_id == source && v.row.meta.last_ts < cutoff,
                ).len()
                &&& x.wal_rows == d.wal.filter(
                    |v: WalAtView| v.source_id == source && v.row.ts < cutoff,
                ).len()
                &&& x.live_rows == d.live_before(source, None, cutoff).len()
            }
        }),
{
    let d = w.db;
    facts::law_retention_takes_what_is_before_the_cutoff(d, source, cutoff);
    seqs::lemma_filter_shorter(
        d.segments,
        |v: SegmentAtView| v.source_id == source && v.row.meta.last_ts < cutoff,
    );
    seqs::lemma_filter_shorter(d.wal, |v: WalAtView| v.source_id == source && v.row.ts < cutoff);
    seqs::lemma_filter_shorter(
        d.wal,
        |r: WalAtView|
            {
                &&& r.source_id == source
                &&& None::<Seq<Seq<char>>> matches Some(s) ==> s.contains(r.row.stream)
                &&& r.row.ts < cutoff
                &&& crate::db::model::past(d.watermark(source, r.row.stream), r.row.ts)
            },
    );
}

/// A writer asked for retention takes what is before the cutoff and answers what that
/// was. Freed pages may go back to the file system with it, and nothing else is touched.
pub proof fn law_retention_is_carried_out<E: SegmentEncoder>(
    w: WriterView,
    source: i64,
    cutoff: i64,
    encoder: E,
)
    requires
        !w.db.read_only,
        !w.db.legacy,
        w.db.segments.len() <= usize::MAX,
        w.db.wal.len() <= usize::MAX,
    ensures
        ({
            let d = w.db;
            let (n, reply) = run::handled(
                w,
                RequestView::Evict { source_id: source, cutoff_ts: cutoff },
                encoder,
            );
            &&& n.db.segments == d.segments.filter(
                |v: SegmentAtView| !(v.source_id == source && v.row.meta.last_ts < cutoff),
            )
            &&& n.db.wal == d.wal.filter(
                |v: WalAtView| !(v.source_id == source && v.row.ts < cutoff),
            )
            &&& n.db.sources == d.sources
            &&& reply matches ReplyView::Evicted(r) && r matches Ok(x) && {
                &&& x.segments == d.segments.len() - n.db.segments.len()
                &&& x.wal_rows == d.wal.len() - n.db.wal.len()
                &&& x.live_rows == d.live_before(source, None, cutoff).len()
            }
        }),
{
    let d = w.db;
    law_retention_says_what_it_took(w, source, cutoff);
    seqs::lemma_filter_shorter(
        d.segments,
        |v: SegmentAtView| !(v.source_id == source && v.row.meta.last_ts < cutoff),
    );
    seqs::lemma_filter_shorter(
        d.wal,
        |v: WalAtView| !(v.source_id == source && v.row.ts < cutoff),
    );
    facts::law_retention_takes_what_is_before_the_cutoff(d, source, cutoff);
}

/// A source counts as opened exactly where it was started or resumed.
pub proof fn law_an_opened_source_is_counted<E: SegmentEncoder>(
    w: WriterView,
    q: RequestView,
    encoder: E,
)
    requires
        w.added < u64::MAX,
    ensures
        ({
            let (n, reply) = run::handled(w, q, encoder);
            let opened = match reply {
                ReplyView::Added(r) => r is Ok,
                ReplyView::Resumed(r) => r is Ok,
                _ => false,
            };
            n.added == w.added + if opened {
                1int
            } else {
                0int
            }
        }),
{
}

/// A request of one kind changes nothing that is another's: what each keeps of the writer
/// is what it was.
pub proof fn law_a_request_keeps_to_its_own<E: SegmentEncoder>(
    w: WriterView,
    q: RequestView,
    encoder: E,
)
    ensures
        ({
            let n = run::handled(w, q, encoder).0;
            &&& !(q is Seal) ==> n.next_seq == w.next_seq && n.watermarks == w.watermarks
            &&& !(q is ResumeSource) ==> n.floors == w.floors
            &&& !(q is Wal) ==> n.health == w.health
            &&& !(q is Finalize) ==> n.finalized == w.finalized
            &&& !(q is AddSource) && !(q is ResumeSource) ==> n.added == w.added
            &&& q is Sync || q is Shutdown ==> n == w
        }),
{
}

/// A writer shuts down clean exactly where it opened a source and finalized as many as it
/// opened.
pub proof fn law_a_clean_stop_finished_every_source<E: SegmentEncoder>(w: WriterView, encoder: E)
    ensures
        run::handled(w, RequestView::Shutdown, encoder).1 == ReplyView::Stopped(
            w.added >= 1 && w.finalized == w.added,
        ),
{
}

/// Finalizing a source marks it complete and records its last clock observation, where
/// there is none of that moment yet; it changes nothing else of the archive, and counts.
pub proof fn law_a_finalized_source_is_complete<E: SegmentEncoder>(
    w: WriterView,
    source: i64,
    at: (i64, i64),
    encoder: E,
)
    requires
        w.db.wf(),
        w.db.has_source(source),
        !w.db.read_only,
        !w.db.legacy,
        w.finalized < u64::MAX,
    ensures
        ({
            let (n, reply) = run::handled(
                w,
                RequestView::Finalize { source_id: source, clock_offset: at },
                encoder,
            );
            &&& reply == ReplyView::Done
            &&& n.finalized == w.finalized + 1
            &&& n.db.source(source) matches Some(t) && t.complete && t.meta
                == w.db.source(source)->0.meta && t.uuid == w.db.source(source)->0.uuid
            &&& forall|o: i64| o != source ==> #[trigger] n.db.source(o) == w.db.source(o)
            &&& n.db.segments == w.db.segments
            &&& n.db.wal == w.db.wal
            &&& n.db.caller_rows == w.db.caller_rows
            &&& n.db.clock_offsets == (if exists|c: int|
                0 <= c < w.db.clock_offsets.len() && (#[trigger] w.db.clock_offsets[c]).source_id
                    == source && w.db.clock_offsets[c].ts == at.0 {
                w.db.clock_offsets
            } else {
                table::placed::<ClockAt>(
                    w.db.clock_offsets,
                    ClockAt { source_id: source, ts: at.0, offset_ns: at.1 },
                )
            })
        }),
{
    let d = w.db;
    let c = ClockAt { source_id: source, ts: at.0, offset_ns: at.1 };
    let key = Key { source: source as int, stream: Seq::<char>::empty(), at: at.0 as int };
    let clocks = d.clock_offsets;
    if table::holds::<ClockAt>(clocks, key) {
        let i = choose|i: int| 0 <= i < clocks.len() && ClockAt::key_of(#[trigger] clocks[i]) == key;
        assert(clocks[i].source_id == source && clocks[i].ts == at.0);
    } else {
        if exists|i: int|
            0 <= i < clocks.len() && (#[trigger] clocks[i]).source_id == source && clocks[i].ts
                == at.0 {
            let i = choose|i: int|
                0 <= i < clocks.len() && (#[trigger] clocks[i]).source_id == source
                    && clocks[i].ts == at.0;
            assert(ClockAt::key_of(clocks[i]) == key);
        }
        table::lemma_placed_in_order::<ClockAt>(clocks, c);
    }
    let m = d.clock_inserted(c)->Ok_0;
    assert(m.source(source) == d.source(source));
    facts::law_marking_a_source_changes_nothing_else(m, source, true);
    let n = m.with_complete(source, true);
    assert forall|o: i64| o != source implies #[trigger] n.source(o) == d.source(o) by {
        assert(m.source(o) == d.source(o));
    }
}

/// Whether the text a source has under a key is what an update puts there, or else what it
/// had.
pub open spec fn merged_text(
    was: Seq<Entry>,
    patch: Seq<Entry>,
    key: Seq<char>,
) -> Option<Seq<char>> {
    match text_map::lookup(patch, key) {
        Some(v) => Some(v),
        None => text_map::lookup(was, key),
    }
}

/// A metadata update merges into what the source has and changes nothing else; one that
/// cannot be applied is dropped, and the writer goes on either way.
pub proof fn law_a_metadata_update_never_stops_the_writer<E: SegmentEncoder>(
    w: WriterView,
    source: i64,
    patch: Seq<Entry>,
    encoder: E,
    key: Seq<char>,
)
    requires
        w.db.wf(),
        w.db.source(source) matches Some(s) ==> text_map::ascending(s.meta.metadata),
        text_map::ascending(patch),
    ensures
        ({
            let (n, reply) = run::handled(
                w,
                RequestView::UpdateMetadata { source_id: source, patch },
                encoder,
            );
            &&& reply == ReplyView::Done
            &&& n.db == (DbView { sources: n.db.sources, ..w.db })
            &&& w.db.read_only || w.db.legacy || !w.db.has_source(source) ==> n.db == w.db
            &&& !w.db.read_only && !w.db.legacy && w.db.has_source(source) ==> text_map::lookup(
                n.db.source(source)->0.meta.metadata,
                key,
            ) == merged_text(w.db.source(source)->0.meta.metadata, patch, key)
            &&& forall|o: i64| o != source ==> #[trigger] n.db.source(o) == w.db.source(o)
        }),
{
    facts::law_a_metadata_update_is_a_merge(w.db, source, patch, key);
}

// ------------------------------------------------------------ handing pages back

/// Pages are handed back where more than a tenth of the file is free, at most a hundred at
/// a time, and nothing else of the archive changes.
pub proof fn law_pages_go_back_where_a_tenth_is_free(d: DbView)
    requires
        d.pages.free <= d.pages.pages,
    ensures
        reclaim::fragmented(d.pages.free, d.pages.pages) <==> 10 * d.pages.free > d.pages.pages,
        match reclaim::reclaimed(d) {
            Ok(n) => {
                &&& n == (DbView { pages: n.pages, ..d })
                &&& n.pages.page_size == d.pages.page_size
                &&& 10 * d.pages.free <= d.pages.pages ==> n == d
                &&& 10 * d.pages.free > d.pages.pages ==> n.pages.free == (if d.pages.free > 100 {
                    d.pages.free - 100
                } else {
                    0
                }) && n.pages.pages == d.pages.pages - (d.pages.free - n.pages.free)
            },
            Err(_) => 10 * d.pages.free > d.pages.pages && (d.read_only || d.legacy),
        },
{
}

/// A drain of so many passes hands back a hundred pages with each, as long as there are
/// any.
pub proof fn law_each_pass_hands_back_a_hundred(d: DbView, n: nat)
    requires
        d.pages.free <= d.pages.pages,
    ensures
        ({
            let m = reclaim::passes(d, n);
            let gone = vstd::math::min(100 * n as int, d.pages.free as int);
            &&& m.pages.free == d.pages.free - gone
            &&& m.pages.pages == d.pages.pages - gone
            &&& m == (DbView { pages: m.pages, ..d })
        }),
    decreases n,
{
    if n > 0 {
        law_each_pass_hands_back_a_hundred(d, (n - 1) as nat);
    }
}

// ------------------------------------------------------------ starting and resuming

/// A source is resumed where it is there, no other encoder version wrote it, the clock's
/// anchor is after its newest row, and the archive can be written; where it is refused the
/// archive is as it was.
pub proof fn law_a_source_is_resumed_after_its_newest_row(
    d: DbView,
    source: i64,
    anchor: i64,
    session: Seq<char>,
    version: Option<Seq<char>>,
)
    ensures
        ({
            let (n, e) = session::source_resumed(d, source, anchor, session, version);
            let newest = d.time_span(source).1;
            &&& !d.has_source(source) ==> e is Some
            &&& d.has_source(source) && newest is Some && anchor <= newest->0 ==> e is Some
            &&& d.has_source(source) && version is Some && text_map::lookup(
                d.source(source)->0.meta.metadata,
                keys::ENCODER@,
            ) is Some && text_map::lookup(d.source(source)->0.meta.metadata, keys::ENCODER@)
                != version ==> e is Some
            &&& d.read_only || d.legacy ==> e is Some
            &&& e is Some ==> n == d
            &&& e is None <==> {
                &&& d.has_source(source)
                &&& newest is Some ==> anchor > newest->0
                &&& version is Some && text_map::lookup(
                    d.source(source)->0.meta.metadata,
                    keys::ENCODER@,
                ) is Some ==> text_map::lookup(d.source(source)->0.meta.metadata, keys::ENCODER@)
                    == version
                &&& !d.read_only
                &&& !d.legacy
                &&& session::events_with(
                    text_map::lookup(d.source(source)->0.meta.metadata, keys::EVENTS@),
                    session::event_text(session, anchor, newest),
                ) is Some
            }
        }),
{
}

/// A source that is started is there under the next id, with what it was seeded with: not
/// complete, without an identity, its first session recorded in its metadata beside the
/// encoder's version where it has one, every other key as seeded. It is refused exactly
/// where the archive cannot be written or every id is taken, and nothing else of the
/// archive changes.
pub proof fn law_a_started_source_is_recorded(
    d: DbView,
    seed: SourceMetaView,
    session: Seq<char>,
    version: Option<Seq<char>>,
    key: Seq<char>,
)
    requires
        d.wf(),
        text_map::ascending(seed.metadata),
    ensures
        ({
            let (n, r) = session::source_added(d, seed, session, version);
            &&& r is Err <==> d.read_only || d.legacy || (d.sources.len() > 0
                && d.sources.last().id == i64::MAX)
            &&& r is Err ==> n == d
            &&& r matches Ok(id) ==> {
                &&& !d.has_source(id)
                &&& n == (DbView { sources: n.sources, ..d })
                &&& n.source(id) matches Some(t) && {
                    &&& !t.complete
                    &&& t.uuid is None
                    &&& t.meta.labels == seed.labels
                    &&& t.meta.clock_anchor_wall_ns == seed.clock_anchor_wall_ns
                    &&& text_map::lookup(t.meta.metadata, key) == if key == keys::ENCODER@
                        && version is Some {
                        version
                    } else if key == keys::WRITER_SESSIONS@ {
                        Some(
                            session::array_text(
                                session::sessions_in(
                                    text_map::lookup(seed.metadata, keys::WRITER_SESSIONS@),
                                ).push(
                                    session::session_text(
                                        session,
                                        seed.clock_anchor_wall_ns,
                                        None,
                                    ),
                                ),
                            ),
                        )
                    } else {
                        text_map::lookup(seed.metadata, key)
                    }
                }
                &&& forall|o: i64| o != id ==> #[trigger] n.source(o) == d.source(o)
            }
        }),
{
    lemma_keys_differ();
    facts::law_a_started_source_gets_the_next_id(d, seed, None);
    if let Ok((id, a)) = store::changes::source_started(d, seed, None) {
        if d.writable() {
            db::laws::law_a_source_reads_back(d, seed, None);
            assert(a.sources.drop_last() =~= d.sources);
            lemma_others_stay(d, a, id);
            let none = Seq::<Entry>::empty();
            let sessions = session::array_text(
                session::sessions_in(text_map::lookup(seed.metadata, keys::WRITER_SESSIONS@)).push(
                    session::session_text(session, seed.clock_anchor_wall_ns, None),
                ),
            );
            let patch = text_map::put_entry(none, keys::WRITER_SESSIONS@, sessions);
            text_map::lemma_put_ascending(none, keys::WRITER_SESSIONS@, sessions);
            text_map::lemma_lookup_put(none, keys::WRITER_SESSIONS@, sessions, key);
            facts::law_a_metadata_update_is_a_merge(a, id, patch, key);
            let b = store::changes::metadata_patched(a, id, patch)->Ok_0;
            if let Some(v) = version {
                let more = seq![(keys::ENCODER@, v)];
                assert(text_map::lookup(more, key) == (if key == keys::ENCODER@ {
                    Some(v)
                } else {
                    None
                })) by {
                    assert(more.skip(1) =~= none);
                }
                facts::law_a_metadata_update_is_a_merge(b, id, more, key);
            }
            let n = session::source_added(d, seed, session, version).0;
            assert forall|o: i64| o != id implies #[trigger] n.source(o) == d.source(o) by {
                assert(a.source(o) == d.source(o));
                assert(b.source(o) == a.source(o));
            }
        }
    }
}

proof fn lemma_others_stay(d: DbView, n: DbView, id: i64)
    requires
        d.wf(),
        n.wf(),
        n.sources.len() == d.sources.len() + 1,
        n.sources.drop_last() == d.sources,
        n.sources.last().id == id,
        forall|i: int| 0 <= i < d.sources.len() ==> (#[trigger] d.sources[i]).id < id,
    ensures
        !d.has_source(id),
        forall|o: i64| o != id ==> #[trigger] n.source(o) == d.source(o),
{
    assert forall|i: int| 0 <= i < d.sources.len() implies #[trigger] n.sources[i]
        == d.sources[i] by {
        assert(n.sources.drop_last()[i] == n.sources[i]);
    }
    assert forall|o: i64| o != id implies #[trigger] n.source(o) == d.source(o) by {
        if d.has_source(o) {
            let i = choose|i: int| 0 <= i < d.sources.len() && #[trigger] d.sources[i].id == o;
            assert(n.sources[i] == d.sources[i]);
            db::laws::lemma_source_is(n, i);
            db::laws::lemma_source_is(d, i);
        } else if n.has_source(o) {
            let i = choose|i: int| 0 <= i < n.sources.len() && #[trigger] n.sources[i].id == o;
            if i < d.sources.len() {
                assert(d.sources[i].id == o);
            }
        }
    }
}

/// A resumed source is going on: it is not complete, the session and the event are
/// recorded in its metadata and every other key of it is as it was, and so is everything
/// else of the archive.
pub proof fn law_a_resumed_source_goes_on(
    d: DbView,
    source: i64,
    anchor: i64,
    session: Seq<char>,
    version: Option<Seq<char>>,
    key: Seq<char>,
)
    requires
        d.wf(),
        d.source(source) matches Some(s) ==> text_map::ascending(s.meta.metadata),
        session::source_resumed(d, source, anchor, session, version).1 is None,
    ensures
        ({
            let n = session::source_resumed(d, source, anchor, session, version).0;
            let s = d.source(source)->0;
            let after = d.time_span(source).1;
            &&& n == (DbView { sources: n.sources, ..d })
            &&& n.source(source) matches Some(t) && {
                &&& !t.complete
                &&& t.meta.labels == s.meta.labels
                &&& t.meta.clock_anchor_wall_ns == s.meta.clock_anchor_wall_ns
                &&& t.uuid == s.uuid
                &&& key != keys::EVENTS@ && key != keys::WRITER_SESSIONS@ ==> text_map::lookup(
                    t.meta.metadata,
                    key,
                ) == text_map::lookup(s.meta.metadata, key)
                &&& text_map::lookup(t.meta.metadata, keys::WRITER_SESSIONS@) == Some(
                    session::array_text(
                        session::sessions_in(
                            text_map::lookup(s.meta.metadata, keys::WRITER_SESSIONS@),
                        ).push(session::session_text(session, anchor, Some(after))),
                    ),
                )
                &&& text_map::lookup(t.meta.metadata, keys::EVENTS@) == session::events_with(
                    text_map::lookup(s.meta.metadata, keys::EVENTS@),
                    session::event_text(session, anchor, after),
                )
            }
            &&& forall|o: i64| o != source ==> #[trigger] n.source(o) == d.source(o)
        }),
{
    let s = d.source(source)->0;
    let after = d.time_span(source).1;
    lemma_keys_differ();
    let none = Seq::<Entry>::empty();
    let events = session::events_with(
        text_map::lookup(s.meta.metadata, keys::EVENTS@),
        session::event_text(session, anchor, after),
    )->0;
    let sessions = session::array_text(
        session::sessions_in(text_map::lookup(s.meta.metadata, keys::WRITER_SESSIONS@)).push(
            session::session_text(session, anchor, Some(after)),
        ),
    );
    let one = text_map::put_entry(none, keys::EVENTS@, events);
    let patch = text_map::put_entry(one, keys::WRITER_SESSIONS@, sessions);
    text_map::lemma_put_ascending(none, keys::EVENTS@, events);
    text_map::lemma_put_ascending(one, keys::WRITER_SESSIONS@, sessions);
    assert forall|k: Seq<char>| #[trigger] text_map::lookup(patch, k) == (if k
        == keys::WRITER_SESSIONS@ {
        Some(sessions)
    } else if k == keys::EVENTS@ {
        Some(events)
    } else {
        None
    }) by {
        text_map::lemma_lookup_put(one, keys::WRITER_SESSIONS@, sessions, k);
        text_map::lemma_lookup_put(none, keys::EVENTS@, events, k);
    }
    assert forall|k: Seq<char>| #[trigger] text_map::lookup(
        (store::changes::metadata_patched(d, source, patch)->Ok_0).source(source)->0.meta.metadata,
        k,
    ) == merged_text(s.meta.metadata, patch, k) by {
        facts::law_a_metadata_update_is_a_merge(d, source, patch, k);
    }
    facts::law_a_metadata_update_is_a_merge(d, source, patch, key);
    let m = store::changes::metadata_patched(d, source, patch)->Ok_0;
    facts::law_marking_a_source_changes_nothing_else(m, source, false);
    let n = session::source_resumed(d, source, anchor, session, version).0;
    assert(n == m.with_complete(source, false));
    assert forall|o: i64| o != source implies #[trigger] n.source(o) == d.source(o) by {
        assert(m.source(o) == d.source(o));
    }
}

proof fn lemma_keys_differ()
    ensures
        keys::EVENTS@ != keys::WRITER_SESSIONS@,
        keys::ENCODER@ != keys::WRITER_SESSIONS@,
        keys::ENCODER@ != keys::EVENTS@,
{
    reveal_strlit("events");
    reveal_strlit("writer_sessions");
    reveal_strlit("encoder");
    assert("events"@.len() == 6 && "writer_sessions"@.len() == 15 && "encoder"@.len() == 7);
}

/// A writer that resumes a source takes the source's newest row for its floor, and counts
/// the source as opened.
pub proof fn law_a_resumed_source_has_a_floor<E: SegmentEncoder>(
    w: WriterView,
    source: i64,
    anchor: i64,
    session: Seq<char>,
    encoder: E,
)
    requires
        session::source_resumed(w.db, source, anchor, session, encoder.reported()).1 is None,
        w.added < u64::MAX,
    ensures
        ({
            let (n, reply) = run::handled(
                w,
                RequestView::ResumeSource {
                    source_id: source,
                    clock_anchor_wall_ns: anchor,
                    session,
                },
                encoder,
            );
            let newest = w.db.time_span(source).1;
            &&& reply == ReplyView::Resumed(
                Ok((w.db.source(source)->0.meta.labels, newest)),
            )
            &&& n.added == w.added + 1
            &&& newest matches Some(t) ==> n.floors.dom().contains(source) && n.floors[source] == t
            &&& forall|o: i64| o != source ==> n.floors.dom().contains(o)
                == #[trigger] w.floors.dom().contains(o) && n.floors[o] == w.floors[o]
        }),
{
}

} // verus!
