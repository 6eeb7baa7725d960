//! What a writer notes of the rows it drops.

use vstd::prelude::*;

use super::tick;
use super::tick::{HealthView, Marks, NoteView, TickView};
use crate::db::WalView;
use crate::seqs;

verus! {

/// Whether a row of a source at a timestamp stands at a place of ticks.
pub open spec fn came(ticks: Seq<TickView>, i: int, j: int, source: i64, ts: i64) -> bool {
    &&& 0 <= i < ticks.len()
    &&& ticks[i].0 == source
    &&& 0 <= j < ticks[i].1.len()
    &&& ticks[i].1[j].ts == ts
}

/// Whether a row of a stream at a timestamp stands at a place of ticks.
pub open spec fn came_in(
    ticks: Seq<TickView>,
    i: int,
    j: int,
    source: i64,
    stream: Seq<char>,
    ts: i64,
) -> bool {
    came(ticks, i, j, source, ts) && ticks[i].1[j].stream == stream
}

/// Whether a note is true of ticks: a row of them is at or below the floor of its source,
/// or at or below the newest sealed row of its stream, and the note says which and where
/// that is.
pub open spec fn true_note(
    note: NoteView,
    ticks: Seq<TickView>,
    floors: Map<i64, i64>,
    marks: Marks,
) -> bool {
    match note {
        NoteView::BelowFloor { source_id, ts, floor } => {
            &&& floors.dom().contains(source_id)
            &&& floors[source_id] == floor
            &&& ts <= floor
            &&& exists|i: int, j: int| #[trigger] came(ticks, i, j, source_id, ts)
        },
        NoteView::Late { source_id, stream, ts, watermark } => {
            &&& marks.dom().contains((source_id, stream))
            &&& marks[(source_id, stream)] == watermark
            &&& ts <= watermark
            &&& exists|i: int, j: int| #[trigger] came_in(ticks, i, j, source_id, stream, ts)
        },
        NoteView::Collision { .. } => false,
    }
}

/// Whether a note is of a source's floor.
pub open spec fn of_floor(note: NoteView, source: i64) -> bool {
    note matches NoteView::BelowFloor { source_id, .. } && source_id == source
}

/// Whether a note is of a stream's late rows.
pub open spec fn of_stream(note: NoteView, source: i64, stream: Seq<char>) -> bool {
    note matches NoteView::Late { source_id, stream: s, .. } && source_id == source && s == stream
}

/// Whether a source's floor was noted from some note on.
pub open spec fn floor_noted(from: nat, h: HealthView, source: i64) -> bool {
    exists|k: int| from <= k < h.notes.len() && of_floor(#[trigger] h.notes[k], source)
}

/// Whether a stream's late rows were noted from some note on.
pub open spec fn late_noted(from: nat, h: HealthView, source: i64, stream: Seq<char>) -> bool {
    exists|k: int| from <= k < h.notes.len() && of_stream(#[trigger] h.notes[k], source, stream)
}

/// Whether what was noted since is true of ticks, and what was warned of since was noted.
pub open spec fn noted_well(
    h: HealthView,
    now: HealthView,
    ticks: Seq<TickView>,
    floors: Map<i64, i64>,
    marks: Marks,
) -> bool {
    &&& h.notes.len() <= now.notes.len()
    &&& now.notes.take(h.notes.len() as int) == h.notes
    &&& forall|k: int|
        h.notes.len() <= k < now.notes.len() ==> true_note(
            #[trigger] now.notes[k],
            ticks,
            floors,
            marks,
        )
    &&& forall|s: i64| #[trigger]
        now.warned_floors.dom().contains(s) ==> h.warned_floors.dom().contains(s) || floor_noted(
            h.notes.len(),
            now,
            s,
        )
    &&& forall|s: i64, st: Seq<char>| #[trigger]
        now.warned_shadowed.dom().contains((s, st)) ==> h.warned_shadowed.dom().contains((s, st))
            || late_noted(h.notes.len(), now, s, st)
}

proof fn lemma_noting(
    h: HealthView,
    was: HealthView,
    now: HealthView,
    note: NoteView,
    ticks: Seq<TickView>,
    floors: Map<i64, i64>,
    marks: Marks,
)
    requires
        noted_well(h, was, ticks, floors, marks),
        true_note(note, ticks, floors, marks),
        note matches NoteView::BelowFloor { source_id, ts, floor } ==> now == was.noting_floor(
            source_id,
            ts,
            floor,
        ),
        note matches NoteView::Late { source_id, stream, ts, watermark } ==> now
            == was.after_late(source_id).noting_late(source_id, stream, ts, watermark),
    ensures
        noted_well(h, now, ticks, floors, marks),
{
    let n = h.notes.len();
    assert(now.notes == was.notes || now.notes == was.notes.push(note));
    assert(now.notes.take(n as int) =~= was.notes.take(n as int));
    assert forall|k: int| n <= k < now.notes.len() implies true_note(
        #[trigger] now.notes[k],
        ticks,
        floors,
        marks,
    ) by {
        if k < was.notes.len() {
            assert(now.notes[k] == was.notes[k]);
        }
    }
    assert forall|s: i64| floor_noted(n, was, s) implies #[trigger] floor_noted(n, now, s) by {
        let k = choose|k: int| n <= k < was.notes.len() && of_floor(#[trigger] was.notes[k], s);
        assert(now.notes[k] == was.notes[k]);
    }
    assert forall|s: i64, st: Seq<char>| late_noted(n, was, s, st) implies #[trigger] late_noted(
        n,
        now,
        s,
        st,
    ) by {
        let k = choose|k: int|
            n <= k < was.notes.len() && of_stream(#[trigger] was.notes[k], s, st);
        assert(now.notes[k] == was.notes[k]);
    }
    assert forall|s: i64| #[trigger] now.warned_floors.dom().contains(s) implies
        h.warned_floors.dom().contains(s) || floor_noted(n, now, s) by {
        if was.warned_floors.dom().contains(s) {
        } else {
            let k = was.notes.len() as int;
            assert(now.notes[k] == note);
            assert(of_floor(now.notes[k], s));
        }
    }
    assert forall|s: i64, st: Seq<char>| #[trigger]
        now.warned_shadowed.dom().contains((s, st)) implies h.warned_shadowed.dom().contains(
        (s, st),
    ) || late_noted(n, now, s, st) by {
        if was.warned_shadowed.dom().contains((s, st)) {
        } else {
            let k = was.notes.len() as int;
            assert(now.notes[k] == note);
            assert(of_stream(now.notes[k], s, st));
        }
    }
}

proof fn lemma_floors(
    h: HealthView,
    ticks: Seq<TickView>,
    all: Seq<TickView>,
    floors: Map<i64, i64>,
    marks: Marks,
)
    requires
        ticks.len() <= all.len(),
        ticks == all.take(ticks.len() as int),
    ensures
        ({
            let now = tick::floors_noted(h, floors, ticks);
            &&& noted_well(h, now, all, floors, marks)
            &&& now.warned_shadowed == h.warned_shadowed
            &&& forall|s: i64|
                h.warned_floors.dom().contains(s) ==> #[trigger] now.warned_floors.dom().contains(s)
            &&& forall|i: int|
                0 <= i < ticks.len() && tick::below_floor(floors, #[trigger] ticks[i])
                    ==> now.warned_floors.dom().contains(ticks[i].0)
        }),
    decreases ticks.len(),
{
    if ticks.len() == 0 {
        assert(h.notes.take(h.notes.len() as int) =~= h.notes);
    } else {
        let head = ticks.drop_last();
        let t = ticks.last();
        assert(head =~= all.take(head.len() as int));
        lemma_floors(h, head, all, floors, marks);
        let was = tick::floors_noted(h, floors, head);
        let now = tick::floors_noted(h, floors, ticks);
        if tick::below_floor(floors, t) {
            tick::lemma_oldest(t.1);
            let j = choose|j: int| 0 <= j < t.1.len() && (#[trigger] t.1[j]).ts == tick::oldest(t.1);
            let i = ticks.len() - 1;
            assert(all[i] == t);
            assert(came(all, i, j, t.0, tick::oldest(t.1)));
            let ts = tick::oldest(t.1);
            assert(ts <= floors[t.0]);
            assert(exists|i: int, j: int| #[trigger] came(all, i, j, t.0, ts));
            let note = NoteView::BelowFloor { source_id: t.0, ts, floor: floors[t.0] };
            assert(true_note(note, all, floors, marks));
            lemma_noting(h, was, now, note, all, floors, marks);
        }
        assert forall|i: int|
            0 <= i < ticks.len() && tick::below_floor(floors, #[trigger] ticks[i]) implies
            now.warned_floors.dom().contains(ticks[i].0) by {
            if i < head.len() {
                assert(head[i] == ticks[i]);
                assert(was.warned_floors.dom().contains(head[i].0));
            }
        }
    }
}

proof fn lemma_rows(
    h: HealthView,
    was: HealthView,
    source: i64,
    rows: Seq<WalView>,
    all: Seq<TickView>,
    at: int,
    floors: Map<i64, i64>,
    marks: Marks,
)
    requires
        0 <= at < all.len(),
        all[at].0 == source,
        rows.len() <= all[at].1.len(),
        rows == all[at].1.take(rows.len() as int),
        noted_well(h, was, all, floors, marks),
    ensures
        ({
            let now = tick::rows_noted(was, marks, source, rows);
            &&& noted_well(h, now, all, floors, marks)
            &&& now.warned_floors == was.warned_floors
            &&& forall|k: (i64, Seq<char>)|
                was.warned_shadowed.dom().contains(k)
                    ==> #[trigger] now.warned_shadowed.dom().contains(k)
            &&& forall|j: int|
                0 <= j < rows.len() && tick::shadows(marks, source, #[trigger] rows[j])
                    ==> now.warned_shadowed.dom().contains((source, rows[j].stream))
        }),
    decreases rows.len(),
{
    if rows.len() > 0 {
        let head = rows.drop_last();
        let r = rows.last();
        assert(head =~= all[at].1.take(head.len() as int));
        lemma_rows(h, was, source, head, all, at, floors, marks);
        let mid = tick::rows_noted(was, marks, source, head);
        let now = tick::rows_noted(was, marks, source, rows);
        if tick::shadows(marks, source, r) {
            let j = rows.len() - 1;
            assert(all[at].1[j] == r);
            assert(came_in(all, at, j, source, r.stream, r.ts));
            assert(exists|i: int, j: int| #[trigger] came_in(all, i, j, source, r.stream, r.ts));
            let note = NoteView::Late {
                source_id: source,
                stream: r.stream,
                ts: r.ts,
                watermark: marks[(source, r.stream)],
            };
            assert(true_note(note, all, floors, marks));
            lemma_noting(h, mid, now, note, all, floors, marks);
        }
        assert forall|j: int|
            0 <= j < rows.len() && tick::shadows(marks, source, #[trigger] rows[j]) implies
            now.warned_shadowed.dom().contains((source, rows[j].stream)) by {
            if j < head.len() {
                assert(head[j] == rows[j]);
                assert(mid.warned_shadowed.dom().contains((source, head[j].stream)));
            }
        }
    }
}

/// Whether a stream of a source was warned of.
pub open spec fn warned(h: HealthView, source: i64, stream: Seq<char>) -> bool {
    h.warned_shadowed.dom().contains((source, stream))
}

proof fn lemma_late(
    h: HealthView,
    was: HealthView,
    ticks: Seq<TickView>,
    all: Seq<TickView>,
    floors: Map<i64, i64>,
    marks: Marks,
)
    requires
        noted_well(h, was, all, floors, marks),
        forall|i: int| 0 <= i < ticks.len() ==> all.contains(#[trigger] ticks[i]),
    ensures
        ({
            let now = tick::late_noted(was, marks, ticks);
            &&& noted_well(h, now, all, floors, marks)
            &&& now.warned_floors == was.warned_floors
            &&& forall|s: i64, st: Seq<char>| warned(was, s, st) ==> #[trigger] warned(now, s, st)
            &&& forall|i: int, j: int|
                #![trigger ticks[i].1[j]]
                0 <= i < ticks.len() && 0 <= j < ticks[i].1.len() && tick::shadows(
                    marks,
                    ticks[i].0,
                    ticks[i].1[j],
                ) ==> warned(now, ticks[i].0, ticks[i].1[j].stream)
        }),
    decreases ticks.len(),
{
    if ticks.len() > 0 {
        let head = ticks.drop_last();
        let t = ticks.last();
        assert forall|i: int| 0 <= i < head.len() implies all.contains(#[trigger] head[i]) by {
            assert(head[i] == ticks[i]);
        }
        lemma_late(h, was, head, all, floors, marks);
        let mid = tick::late_noted(was, marks, head);
        let now = tick::late_noted(was, marks, ticks);
        assert(all.contains(ticks[ticks.len() - 1]));
        let at = choose|at: int| 0 <= at < all.len() && all[at] == t;
        assert(t.1.take(t.1.len() as int) =~= t.1);
        lemma_rows(h, mid, t.0, t.1, all, at, floors, marks);
        assert forall|s: i64, st: Seq<char>| warned(was, s, st) implies #[trigger] warned(
            now,
            s,
            st,
        ) by {
            assert(warned(mid, s, st));
        }
        assert forall|i: int, j: int|
            #![trigger ticks[i].1[j]]
            0 <= i < ticks.len() && 0 <= j < ticks[i].1.len() && tick::shadows(
                marks,
                ticks[i].0,
                ticks[i].1[j],
            ) implies warned(now, ticks[i].0, ticks[i].1[j].stream) by {
            if i < head.len() {
                assert(head[i] == ticks[i]);
                assert(tick::shadows(marks, head[i].0, head[i].1[j]));
                assert(warned(mid, head[i].0, head[i].1[j].stream));
            }
        }
    }
}

proof fn lemma_planned(
    h: HealthView,
    ticks: Seq<TickView>,
    floors: Map<i64, i64>,
    marks: Marks,
)
    ensures
        ({
            let now = tick::planned(h, ticks, floors, marks);
            let above = tick::above_floors(ticks, floors);
            &&& noted_well(h, now, ticks, floors, marks)
            &&& forall|i: int|
                0 <= i < ticks.len() && tick::below_floor(floors, #[trigger] ticks[i])
                    ==> now.warned_floors.dom().contains(ticks[i].0)
            &&& forall|i: int, j: int|
                #![trigger above[i].1[j]]
                0 <= i < above.len() && 0 <= j < above[i].1.len() && tick::shadows(
                    marks,
                    above[i].0,
                    above[i].1[j],
                ) ==> warned(now, above[i].0, above[i].1[j].stream)
        }),
{
    let above = tick::above_floors(ticks, floors);
    let was = tick::floors_noted(h, floors, ticks);
    assert(ticks.take(ticks.len() as int) =~= ticks);
    lemma_floors(h, ticks, ticks, floors, marks);
    assert forall|i: int| 0 <= i < above.len() implies ticks.contains(#[trigger] above[i]) by {
        seqs::lemma_filter_member(ticks, |t: TickView| !tick::below_floor(floors, t), i);
    }
    lemma_late(h, was, above, ticks, floors, marks);
}

/// What a writer notes of a tick is true of it: a row that it names did come, and was at
/// or below the floor of its source, or at or below the newest sealed row of its stream.
/// What was noted before stays.
pub proof fn law_every_note_is_true(
    h: HealthView,
    ticks: Seq<TickView>,
    floors: Map<i64, i64>,
    marks: Marks,
    k: int,
)
    requires
        0 <= k < tick::planned(h, ticks, floors, marks).notes.len(),
    ensures
        ({
            let note = tick::planned(h, ticks, floors, marks).notes[k];
            if k < h.notes.len() {
                note == h.notes[k]
            } else {
                true_note(note, ticks, floors, marks)
            }
        }),
{
    lemma_planned(h, ticks, floors, marks);
    let now = tick::planned(h, ticks, floors, marks);
    if k < h.notes.len() {
        assert(now.notes.take(h.notes.len() as int)[k] == h.notes[k]);
    }
}

/// A tick that is dropped at its source's floor is noted, where no such drop of that
/// source was warned of before.
pub proof fn law_a_drop_at_the_floor_is_noted(
    h: HealthView,
    ticks: Seq<TickView>,
    floors: Map<i64, i64>,
    marks: Marks,
    i: int,
    j: int,
)
    requires
        0 <= i < ticks.len(),
        0 <= j < ticks[i].1.len(),
        floors.dom().contains(ticks[i].0),
        ticks[i].1[j].ts <= floors[ticks[i].0],
        !h.warned_floors.dom().contains(ticks[i].0),
    ensures
        floor_noted(h.notes.len(), tick::planned(h, ticks, floors, marks), ticks[i].0),
{
    lemma_planned(h, ticks, floors, marks);
    assert(tick::below_floor(floors, ticks[i]));
}

/// A row that is dropped as out of order is noted, where no such drop of its stream was
/// warned of before.
pub proof fn law_a_late_row_is_noted(
    h: HealthView,
    ticks: Seq<TickView>,
    floors: Map<i64, i64>,
    marks: Marks,
    i: int,
    j: int,
)
    requires
        0 <= i < ticks.len(),
        0 <= j < ticks[i].1.len(),
        floors.dom().contains(ticks[i].0) ==> forall|k: int|
            0 <= k < ticks[i].1.len() ==> (#[trigger] ticks[i].1[k]).ts > floors[ticks[i].0],
        marks.dom().contains((ticks[i].0, ticks[i].1[j].stream)),
        ticks[i].1[j].ts <= marks[(ticks[i].0, ticks[i].1[j].stream)],
        !h.warned_shadowed.dom().contains((ticks[i].0, ticks[i].1[j].stream)),
    ensures
        late_noted(
            h.notes.len(),
            tick::planned(h, ticks, floors, marks),
            ticks[i].0,
            ticks[i].1[j].stream,
        ),
{
    lemma_planned(h, ticks, floors, marks);
    let now = tick::planned(h, ticks, floors, marks);
    let above = tick::above_floors(ticks, floors);
    assert(!tick::below_floor(floors, ticks[i]));
    seqs::lemma_filter_keeps(ticks, |t: TickView| !tick::below_floor(floors, t), i);
    let m = choose|m: int| 0 <= m < above.len() && above[m] == ticks[i];
    assert(tick::shadows(marks, above[m].0, above[m].1[j]));
    assert(warned(now, ticks[i].0, ticks[i].1[j].stream));
}

} // verus!
