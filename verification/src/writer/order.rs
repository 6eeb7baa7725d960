//! Which rows of a tick are committed, row by row.

use vstd::prelude::*;

use super::tick;
use super::tick::{HealthView, Marks, TickView};
use crate::db::WalView;
use crate::seqs;

verus! {

/// The rows that ticks hold for a source, in order.
pub open spec fn rows_for(ticks: Seq<TickView>, source: i64) -> Seq<WalView>
    decreases ticks.len(),
{
    if ticks.len() == 0 {
        Seq::empty()
    } else if ticks.last().0 == source {
        rows_for(ticks.drop_last(), source) + ticks.last().1
    } else {
        rows_for(ticks.drop_last(), source)
    }
}

proof fn lemma_rows_pushed(ticks: Seq<TickView>, t: TickView, source: i64)
    ensures
        rows_for(ticks.push(t), source) == rows_for(ticks, source) + (if t.0 == source {
            t.1
        } else {
            Seq::empty()
        }),
{
    assert(ticks.push(t).drop_last() =~= ticks);
    assert(rows_for(ticks, source) + Seq::<WalView>::empty() =~= rows_for(ticks, source));
}

proof fn lemma_without_late_rows(marks: Marks, ticks: Seq<TickView>, source: i64)
    ensures
        rows_for(tick::without_late(marks, ticks), source) == rows_for(ticks, source).filter(
            |r: WalView|
                !marks.dom().contains((source, r.stream)) || r.ts > marks[(source, r.stream)],
        ),
    decreases ticks.len(),
{
    let keep = |r: WalView|
        !marks.dom().contains((source, r.stream)) || r.ts > marks[(source, r.stream)];
    if ticks.len() == 0 {
        reveal(Seq::filter);
        assert(rows_for(ticks, source).filter(keep) =~= Seq::empty());
    } else {
        let head = ticks.drop_last();
        let t = ticks.last();
        let kept = tick::timely(marks, t);
        lemma_without_late_rows(marks, head, source);
        if kept.len() > 0 {
            lemma_rows_pushed(tick::without_late(marks, head), (t.0, kept), source);
        }
        let was = rows_for(tick::without_late(marks, head), source);
        if t.0 == source {
            let timely = |r: WalView| !tick::shadows(marks, t.0, r);
            seqs::lemma_filter_same(t.1, timely, keep);
            seqs::lemma_filter_concat(rows_for(head, source), t.1, keep);
            assert(kept == t.1.filter(keep));
            assert(kept.len() == 0 ==> was + kept =~= was);
        } else {
            assert(was + Seq::<WalView>::empty() =~= was);
        }
    }
}

proof fn lemma_none_late(marks: Marks, ticks: Seq<TickView>, source: i64)
    requires
        !tick::any_late(marks, ticks),
    ensures
        rows_for(ticks, source) == rows_for(ticks, source).filter(
            |r: WalView|
                !marks.dom().contains((source, r.stream)) || r.ts > marks[(source, r.stream)],
        ),
    decreases ticks.len(),
{
    let keep = |r: WalView|
        !marks.dom().contains((source, r.stream)) || r.ts > marks[(source, r.stream)];
    if ticks.len() == 0 {
        reveal(Seq::filter);
        assert(rows_for(ticks, source).filter(keep) =~= Seq::empty());
    } else {
        let head = ticks.drop_last();
        let t = ticks.last();
        assert(ticks[ticks.len() - 1] == t);
        assert(!tick::any_late(marks, head)) by {
            if tick::any_late(marks, head) {
                let i = choose|i: int|
                    0 <= i < head.len() && tick::late(marks, #[trigger] head[i]).len() > 0;
                assert(ticks[i] == head[i]);
            }
        }
        lemma_none_late(marks, head, source);
        if t.0 == source {
            let lost = |r: WalView| tick::shadows(marks, t.0, r);
            assert(tick::late(marks, t).len() == 0);
            assert forall|i: int| 0 <= i < t.1.len() implies keep(#[trigger] t.1[i]) by {
                if !keep(t.1[i]) {
                    seqs::lemma_filter_keeps(t.1, lost, i);
                }
            }
            seqs::lemma_filter_all(t.1, keep);
            seqs::lemma_filter_concat(rows_for(head, source), t.1, keep);
        }
    }
}

/// The rows a tick commits for a source are, in order, those of its ticks that are
/// wholly above the source's floor, each row newer than its stream's watermark or of a
/// stream without one: none of them is left out, and no other is there.
pub proof fn law_a_tick_keeps_every_row_in_order(
    ticks: Seq<TickView>,
    floors: Map<i64, i64>,
    marks: Marks,
    source: i64,
)
    ensures
        rows_for(tick::kept_ticks(ticks, floors, marks), source) == rows_for(
            ticks.filter(
                |t: TickView|
                    !floors.dom().contains(t.0) || forall|k: int|
                        0 <= k < t.1.len() ==> (#[trigger] t.1[k]).ts > floors[t.0],
            ),
            source,
        ).filter(
            |r: WalView|
                !marks.dom().contains((source, r.stream)) || r.ts > marks[(source, r.stream)],
        ),
{
    lemma_above(ticks, floors);
    let above = tick::above_floors(ticks, floors);
    lemma_without_late_rows(marks, above, source);
    if !tick::any_late(marks, above) {
        lemma_none_late(marks, above, source);
    }
}

proof fn lemma_above(ticks: Seq<TickView>, floors: Map<i64, i64>)
    ensures
        tick::above_floors(ticks, floors) == ticks.filter(
            |t: TickView|
                !floors.dom().contains(t.0) || forall|k: int|
                    0 <= k < t.1.len() ==> (#[trigger] t.1[k]).ts > floors[t.0],
        ),
{
    let whole = |t: TickView|
        !floors.dom().contains(t.0) || forall|k: int|
            0 <= k < t.1.len() ==> (#[trigger] t.1[k]).ts > floors[t.0];
    let above = |t: TickView| !tick::below_floor(floors, t);
    assert forall|i: int| 0 <= i < ticks.len() implies above(#[trigger] ticks[i]) == whole(
        ticks[i],
    ) by {
        let t = ticks[i];
        if tick::below_floor(floors, t) {
            let k = choose|k: int| 0 <= k < t.1.len() && (#[trigger] t.1[k]).ts <= floors[t.0];
            assert(t.1[k].ts <= floors[t.0]);
        }
    }
    seqs::lemma_filter_same(ticks, above, whole);
}

proof fn lemma_row_within(ticks: Seq<TickView>, source: i64, i: int, j: int)
    requires
        0 <= i < ticks.len(),
        ticks[i].0 == source,
        0 <= j < ticks[i].1.len(),
    ensures
        rows_for(ticks, source).contains(ticks[i].1[j]),
    decreases ticks.len(),
{
    let r = ticks[i].1[j];
    let head = ticks.drop_last();
    let was = rows_for(head, source);
    if i < head.len() {
        assert(head[i] == ticks[i]);
        lemma_row_within(head, source, i, j);
        let k = choose|k: int| 0 <= k < was.len() && was[k] == r;
        assert(rows_for(ticks, source)[k] == r);
    } else {
        assert(rows_for(ticks, source)[was.len() + j] == r);
    }
}

proof fn lemma_row_from(ticks: Seq<TickView>, source: i64, k: int) -> (at: (int, int))
    requires
        0 <= k < rows_for(ticks, source).len(),
    ensures
        0 <= at.0 < ticks.len(),
        ticks[at.0].0 == source,
        0 <= at.1 < ticks[at.0].1.len(),
        ticks[at.0].1[at.1] == rows_for(ticks, source)[k],
    decreases ticks.len(),
{
    let head = ticks.drop_last();
    let was = rows_for(head, source);
    if k < was.len() {
        let at = lemma_row_from(head, source, k);
        assert(head[at.0] == ticks[at.0]);
        at
    } else {
        (ticks.len() - 1, k - was.len())
    }
}

/// No row in order is dropped: of a tick all of whose rows are above its source's
/// floor, a row of a stream without a watermark, or newer than the watermark, is among
/// the rows committed for its source.
pub proof fn law_no_row_in_order_is_dropped(
    ticks: Seq<TickView>,
    floors: Map<i64, i64>,
    marks: Marks,
    i: int,
    j: int,
)
    requires
        0 <= i < ticks.len(),
        0 <= j < ticks[i].1.len(),
        floors.dom().contains(ticks[i].0) ==> forall|k: int|
            0 <= k < ticks[i].1.len() ==> (#[trigger] ticks[i].1[k]).ts > floors[ticks[i].0],
        marks.dom().contains((ticks[i].0, ticks[i].1[j].stream)) ==> ticks[i].1[j].ts
            > marks[(ticks[i].0, ticks[i].1[j].stream)],
    ensures
        rows_for(tick::kept_ticks(ticks, floors, marks), ticks[i].0).contains(ticks[i].1[j]),
        exists|a: int, b: int|
            0 <= a < tick::kept_ticks(ticks, floors, marks).len() && tick::kept_ticks(
                ticks,
                floors,
                marks,
            )[a].0 == ticks[i].0 && 0 <= b < tick::kept_ticks(ticks, floors, marks)[a].1.len()
                && #[trigger] tick::kept_ticks(ticks, floors, marks)[a].1[b] == ticks[i].1[j],
{
    let source = ticks[i].0;
    let r = ticks[i].1[j];
    let whole = |t: TickView|
        !floors.dom().contains(t.0) || forall|k: int|
            0 <= k < t.1.len() ==> (#[trigger] t.1[k]).ts > floors[t.0];
    let keep = |r: WalView|
        !marks.dom().contains((source, r.stream)) || r.ts > marks[(source, r.stream)];
    law_a_tick_keeps_every_row_in_order(ticks, floors, marks, source);
    let above = ticks.filter(whole);
    seqs::lemma_filter_keeps(ticks, whole, i);
    let m = choose|m: int| 0 <= m < above.len() && above[m] == ticks[i];
    lemma_row_within(above, source, m, j);
    let rows = rows_for(above, source);
    let k = choose|k: int| 0 <= k < rows.len() && rows[k] == r;
    seqs::lemma_filter_keeps(rows, keep, k);
    let kept = tick::kept_ticks(ticks, floors, marks);
    assert(rows_for(kept, source).contains(r));
    let n = choose|n: int|
        0 <= n < rows_for(kept, source).len() && rows_for(kept, source)[n] == r;
    let at = lemma_row_from(kept, source, n);
    assert(kept[at.0].1[at.1] == r);
}

/// A row that a tick commits is one of its source's, newer than its stream's watermark
/// and, with every row beside it, than its source's floor.
pub proof fn law_a_committed_row_is_in_order(
    ticks: Seq<TickView>,
    floors: Map<i64, i64>,
    marks: Marks,
    a: int,
    b: int,
)
    requires
        0 <= a < tick::kept_ticks(ticks, floors, marks).len(),
        0 <= b < tick::kept_ticks(ticks, floors, marks)[a].1.len(),
    ensures
        ({
            let t = tick::kept_ticks(ticks, floors, marks)[a];
            let r = t.1[b];
            &&& marks.dom().contains((t.0, r.stream)) ==> r.ts > marks[(t.0, r.stream)]
            &&& floors.dom().contains(t.0) ==> r.ts > floors[t.0]
            &&& exists|i: int, j: int|
                0 <= i < ticks.len() && ticks[i].0 == t.0 && 0 <= j < ticks[i].1.len()
                    && #[trigger] ticks[i].1[j] == r
        }),
{
    let kept = tick::kept_ticks(ticks, floors, marks);
    let source = kept[a].0;
    let r = kept[a].1[b];
    let whole = |t: TickView|
        !floors.dom().contains(t.0) || forall|k: int|
            0 <= k < t.1.len() ==> (#[trigger] t.1[k]).ts > floors[t.0];
    let keep = |r: WalView|
        !marks.dom().contains((source, r.stream)) || r.ts > marks[(source, r.stream)];
    law_a_tick_keeps_every_row_in_order(ticks, floors, marks, source);
    lemma_row_within(kept, source, a, b);
    let above = ticks.filter(whole);
    let rows = rows_for(above, source);
    let n = choose|n: int| 0 <= n < rows.filter(keep).len() && rows.filter(keep)[n] == r;
    seqs::lemma_filter_member(rows, keep, n);
    let m = choose|m: int| 0 <= m < rows.len() && rows[m] == rows.filter(keep)[n];
    let at = lemma_row_from(above, source, m);
    seqs::lemma_filter_member(ticks, whole, at.0);
    let i = choose|i: int| 0 <= i < ticks.len() && ticks[i] == above[at.0];
    assert(ticks[i].1[at.1] == r);
    assert(above[at.0].1[at.1] == r);
}

proof fn lemma_counted(counts: Map<i64, u64>, source: i64, n: nat, of: i64)
    ensures
        tick::count_of(tick::counted(counts, source, n), of) == (if of == source {
            vstd::math::min(tick::count_of(counts, of) + n, u64::MAX as int)
        } else {
            tick::count_of(counts, of) as int
        }),
    decreases n,
{
    if n > 0 {
        lemma_counted(counts, source, (n - 1) as nat, of);
    }
}

proof fn lemma_late_rows_counted(
    counts: Map<i64, u64>,
    marks: Marks,
    ticks: Seq<TickView>,
    source: i64,
)
    ensures
        tick::count_of(tick::late_counted(counts, marks, ticks), source) == vstd::math::min(
            tick::count_of(counts, source) + rows_for(ticks, source).filter(
                |r: WalView|
                    marks.dom().contains((source, r.stream)) && r.ts <= marks[(source, r.stream)],
            ).len(),
            u64::MAX as int,
        ),
    decreases ticks.len(),
{
    let lost = |r: WalView|
        marks.dom().contains((source, r.stream)) && r.ts <= marks[(source, r.stream)];
    if ticks.len() == 0 {
        reveal(Seq::filter);
        assert(rows_for(ticks, source).filter(lost) =~= Seq::empty());
    } else {
        let head = ticks.drop_last();
        let t = ticks.last();
        lemma_late_rows_counted(counts, marks, head, source);
        lemma_counted(
            tick::late_counted(counts, marks, head),
            t.0,
            tick::late(marks, t).len(),
            source,
        );
        if t.0 == source {
            let late = |r: WalView| tick::shadows(marks, t.0, r);
            seqs::lemma_filter_same(t.1, late, lost);
            seqs::lemma_filter_concat(rows_for(head, source), t.1, lost);
        }
    }
}

/// A row counts as dropped out of order exactly where it is at or below the watermark
/// of its own source and stream: planning a tick raises a source's count by as many such
/// rows as its ticks above its floor hold, as far as the count goes.
pub proof fn law_a_row_out_of_order_is_counted(
    h: HealthView,
    ticks: Seq<TickView>,
    floors: Map<i64, i64>,
    marks: Marks,
    source: i64,
)
    ensures
        tick::count_of(tick::planned(h, ticks, floors, marks).shadowed, source)
            == vstd::math::min(
            tick::count_of(h.shadowed, source) + rows_for(
                ticks.filter(
                    |t: TickView|
                        !floors.dom().contains(t.0) || forall|k: int|
                            0 <= k < t.1.len() ==> (#[trigger] t.1[k]).ts > floors[t.0],
                ),
                source,
            ).filter(
                |r: WalView|
                    marks.dom().contains((source, r.stream)) && r.ts <= marks[(source, r.stream)],
            ).len(),
            u64::MAX as int,
        ),
{
    tick::law_late_rows_are_counted(h, ticks, floors, marks);
    lemma_above(ticks, floors);
    lemma_late_rows_counted(h.shadowed, marks, tick::above_floors(ticks, floors), source);
}

} // verus!
