//! Committing a tick: which rows it keeps, and what each outcome of the commit
//! leads to.

use vstd::prelude::*;
use vstd::string::*;

use crate::db::model::DbView;
use crate::db::store;
use crate::db::{Db, WalRow, WalView};
use crate::error;
use crate::error::{Error, ErrorView};
use crate::seqs;
use crate::slots::Slots;
use crate::text;
use crate::text::append_number;

verus! {

broadcast use crate::seqs::group_views;

/// One source's rows of a tick, as mathematics.
pub type TickView = (i64, Seq<WalView>);

/// The newest sealed timestamps, by source and stream.
pub type Marks = Map<(i64, Seq<char>), i64>;

// ------------------------------------------------------------ health

/// How many ticks in a row the writer may drop before it stops.
pub const MAX_CONSECUTIVE_DROPPED_TICKS: u32 = 30;

/// Something to warn of, once for each source or stream that it happens to.
#[derive(Debug)]
pub enum Note {
    /// A tick was dropped for a row at or before its source's floor.
    BelowFloor {
        source_id: i64,
        /// The tick's oldest row.
        ts: i64,
        floor: i64,
    },
    /// A row was dropped for arriving at or below its stream's newest sealed
    /// row.
    Late { source_id: i64, stream: String, ts: i64, watermark: i64 },
    /// A source's rows collided with rows that are committed.
    Collision { source_id: i64, error: Error },
}

/// Something to warn of, as mathematics.
pub enum NoteView {
    BelowFloor { source_id: i64, ts: i64, floor: i64 },
    Late { source_id: i64, stream: Seq<char>, ts: i64, watermark: i64 },
    Collision { source_id: i64, error: ErrorView },
}

impl View for Note {
    type V = NoteView;

    open spec fn view(&self) -> NoteView {
        match *self {
            Note::BelowFloor { source_id, ts, floor } => NoteView::BelowFloor {
                source_id,
                ts,
                floor,
            },
            Note::Late { source_id, stream, ts, watermark } => NoteView::Late {
                source_id,
                stream: stream@,
                ts,
                watermark,
            },
            Note::Collision { source_id, error } => NoteView::Collision {
                source_id,
                error: error@,
            },
        }
    }
}

/// What the writer tracks to decide between carrying on and stopping, what it
/// counts for its callers, and what it has to warn of.
pub struct WriterHealth {
    consecutive_dropped: u32,
    shadowed: Slots<i64, u64>,
    warned_collisions: Slots<i64, bool>,
    warned_floors: Slots<i64, bool>,
    warned_shadowed: Slots<(i64, String), bool>,
    notes: Vec<Note>,
}

/// What the writer tracks, as mathematics.
#[verifier::ext_equal]
pub struct HealthView {
    /// Ticks dropped in a row.
    pub dropped: u32,
    /// Rows dropped as out of order, by source.
    pub shadowed: Map<i64, u64>,
    /// Sources whose collisions have been warned of.
    pub warned_collisions: Map<i64, bool>,
    /// Sources whose rows below their floor have been warned of.
    pub warned_floors: Map<i64, bool>,
    /// Streams whose late rows have been warned of.
    pub warned_shadowed: Map<(i64, Seq<char>), bool>,
    /// What is to be warned of, oldest first.
    pub notes: Seq<NoteView>,
}

impl View for WriterHealth {
    type V = HealthView;

    closed spec fn view(&self) -> HealthView {
        HealthView {
            dropped: self.consecutive_dropped,
            shadowed: self.shadowed@,
            warned_collisions: self.warned_collisions@,
            warned_floors: self.warned_floors@,
            warned_shadowed: self.warned_shadowed@,
            notes: seqs::views(self.notes@),
        }
    }
}

/// A count with one more, as far as it goes.
pub open spec fn bumped(n: u64) -> u64 {
    if n < u64::MAX {
        (n + 1) as u64
    } else {
        n
    }
}

/// A source's count.
pub open spec fn count_of(counts: Map<i64, u64>, source: i64) -> u64 {
    if counts.dom().contains(source) {
        counts[source]
    } else {
        0
    }
}

/// What is said when too many ticks have been dropped.
pub open spec fn dropped_text(n: nat, e: ErrorView) -> Seq<char> {
    "the archive writer dropped "@ + text::decimal(n) + " consecutive ticks; last error: "@
        + error::error_text(e)
}

impl HealthView {
    /// A tick was dropped: one more in a row, and the failure where that is too
    /// many.
    pub open spec fn after_drop(self, e: ErrorView) -> (HealthView, Option<ErrorView>) {
        let n = if self.dropped < u32::MAX {
            (self.dropped + 1) as u32
        } else {
            self.dropped
        };
        (
            HealthView { dropped: n, ..self },
            if n >= MAX_CONSECUTIVE_DROPPED_TICKS {
                Some(ErrorView::Message(dropped_text(n as nat, e)))
            } else {
                None
            },
        )
    }

    /// A tick was committed.
    pub open spec fn after_commit(self) -> HealthView {
        HealthView { dropped: 0, ..self }
    }

    /// One more row of a source dropped as out of order.
    pub open spec fn after_late(self, source: i64) -> HealthView {
        HealthView {
            shadowed: self.shadowed.insert(source, bumped(count_of(self.shadowed, source))),
            ..self
        }
    }

    /// A tick was dropped at its source's floor: the first is noted.
    pub open spec fn noting_floor(self, source: i64, ts: i64, floor: i64) -> HealthView {
        HealthView {
            warned_floors: self.warned_floors.insert(source, true),
            notes: if self.warned_floors.dom().contains(source) {
                self.notes
            } else {
                self.notes.push(NoteView::BelowFloor { source_id: source, ts, floor })
            },
            ..self
        }
    }

    /// A row was dropped as out of order: its stream's first is noted.
    pub open spec fn noting_late(
        self,
        source: i64,
        stream: Seq<char>,
        ts: i64,
        watermark: i64,
    ) -> HealthView {
        HealthView {
            warned_shadowed: self.warned_shadowed.insert((source, stream), true),
            notes: if self.warned_shadowed.dom().contains((source, stream)) {
                self.notes
            } else {
                self.notes.push(NoteView::Late { source_id: source, stream, ts, watermark })
            },
            ..self
        }
    }

    /// A source's rows collided: the first time is noted.
    pub open spec fn noting_collision(self, source: i64, error: ErrorView) -> HealthView {
        HealthView {
            warned_collisions: self.warned_collisions.insert(source, true),
            notes: if self.warned_collisions.dom().contains(source) {
                self.notes
            } else {
                self.notes.push(NoteView::Collision { source_id: source, error })
            },
            ..self
        }
    }
}

impl WriterHealth {
    /// Nothing dropped, nothing warned of.
    pub fn new() -> (r: WriterHealth)
        ensures
            r@ == (HealthView {
                dropped: 0,
                shadowed: Map::empty(),
                warned_collisions: Map::empty(),
                warned_floors: Map::empty(),
                warned_shadowed: Map::empty(),
                notes: Seq::empty(),
            }),
    {
        proof {
            seqs::lemma_views_empty::<Note>();
        }
        WriterHealth {
            consecutive_dropped: 0,
            shadowed: Slots::new(),
            warned_collisions: Slots::new(),
            warned_floors: Slots::new(),
            warned_shadowed: Slots::new(),
            notes: Vec::new(),
        }
    }

    /// A tick was committed.
    pub fn committed(&mut self)
        ensures
            final(self)@ == old(self)@.after_commit(),
    {
        self.consecutive_dropped = 0;
    }

    /// A tick was dropped after retries. `Err` once that has happened
    /// [`MAX_CONSECUTIVE_DROPPED_TICKS`] times in a row.
    pub fn dropped(&mut self, e: &Error) -> (r: Result<(), Error>)
        ensures
            final(self)@ == old(self)@.after_drop(e@).0,
            match old(self)@.after_drop(e@).1 {
                None => r is Ok,
                Some(x) => r matches Err(y) && y@ == x,
            },
    {
        if self.consecutive_dropped < u32::MAX {
            self.consecutive_dropped = self.consecutive_dropped + 1;
        }
        if self.consecutive_dropped >= MAX_CONSECUTIVE_DROPPED_TICKS {
            let mut s = String::from_str("the archive writer dropped ");
            append_number(&mut s, self.consecutive_dropped as u64);
            s.append(" consecutive ticks; last error: ");
            s.append(e.to_string().as_str());
            return Err(Error::Message(s));
        }
        Ok(())
    }

    /// Count one row dropped for arriving at or below its stream's newest
    /// sealed row.
    pub fn count_shadowed(&mut self, source_id: i64)
        ensures
            final(self)@ == old(self)@.after_late(source_id),
    {
        let n: u64 = self.dropped_out_of_order(source_id);
        self.shadowed.set(
            source_id,
            if n < u64::MAX {
                n + 1
            } else {
                n
            },
        );
    }

    /// How many of a source's rows were dropped for arriving at or below their
    /// stream's newest sealed row.
    pub fn dropped_out_of_order(&self, source_id: i64) -> (r: u64)
        ensures
            r == count_of(self@.shadowed, source_id),
    {
        match self.shadowed.get(&source_id) {
            Some(n) => n,
            None => 0,
        }
    }

    /// A source's rows collided with rows that are committed: its first time is
    /// noted.
    pub fn warn_collision(&mut self, source_id: i64, error: Error)
        ensures
            final(self)@ == old(self)@.noting_collision(source_id, error@),
    {
        if self.warned_collisions.get(&source_id).is_none() {
            self.notes.push(Note::Collision { source_id, error });
        }
        self.warned_collisions.set(source_id, true);
    }

    /// A tick was dropped for a row at or before its source's floor: the
    /// source's first is noted.
    pub fn warn_floor(&mut self, source_id: i64, ts: i64, floor: i64)
        ensures
            final(self)@ == old(self)@.noting_floor(source_id, ts, floor),
    {
        if self.warned_floors.get(&source_id).is_none() {
            self.notes.push(Note::BelowFloor { source_id, ts, floor });
        }
        self.warned_floors.set(source_id, true);
    }

    /// A row was dropped for arriving at or below its stream's newest sealed
    /// row: the stream's first is noted.
    pub fn warn_shadowed(&mut self, source_id: i64, stream: &str, ts: i64, watermark: i64)
        ensures
            final(self)@ == old(self)@.noting_late(source_id, stream@, ts, watermark),
    {
        let key = (source_id, stream.to_string());
        assert(key@ == (source_id, stream@));
        if self.warned_shadowed.get(&key).is_none() {
            self.notes.push(Note::Late { source_id, stream: stream.to_string(), ts, watermark });
        }
        self.warned_shadowed.set(key, true);
    }

    /// Take what is to be warned of. Whatever it happened to is not noted
    /// again.
    pub fn take_notes(&mut self) -> (r: Vec<Note>)
        ensures
            seqs::views(r@) == old(self)@.notes,
            final(self)@ == (HealthView { notes: Seq::empty(), ..old(self)@ }),
    {
        let mut taken: Vec<Note> = Vec::new();
        proof {
            seqs::lemma_views_empty::<Note>();
        }
        std::mem::swap(&mut taken, &mut self.notes);
        taken
    }
}

// ------------------------------------------------------------ which rows a tick keeps

/// Whether a tick has a row at or before the newest that its source's previous
/// session left.
pub open spec fn below_floor(floors: Map<i64, i64>, t: TickView) -> bool {
    floors.dom().contains(t.0) && exists|i: int|
        0 <= i < t.1.len() && (#[trigger] t.1[i]).ts <= floors[t.0]
}

/// The ticks that are wholly above their sources' floors: one with a row below
/// is dropped whole, since a session out of line is that source's alone.
pub open spec fn above_floors(ticks: Seq<TickView>, floors: Map<i64, i64>) -> Seq<TickView> {
    ticks.filter(|t: TickView| !below_floor(floors, t))
}

/// Whether a row is at or below the newest sealed row of its stream, where no
/// reader would see it.
pub open spec fn shadows(marks: Marks, source: i64, r: WalView) -> bool {
    marks.dom().contains((source, r.stream)) && r.ts <= marks[(source, r.stream)]
}

/// The rows of a tick that a reader will see.
pub open spec fn timely(marks: Marks, t: TickView) -> Seq<WalView> {
    t.1.filter(|r: WalView| !shadows(marks, t.0, r))
}

/// The rows of a tick that no reader would see.
pub open spec fn late(marks: Marks, t: TickView) -> Seq<WalView> {
    t.1.filter(|r: WalView| shadows(marks, t.0, r))
}

/// Whether any tick has a late row.
pub open spec fn any_late(marks: Marks, ticks: Seq<TickView>) -> bool {
    exists|i: int| 0 <= i < ticks.len() && late(marks, #[trigger] ticks[i]).len() > 0
}

/// Ticks without their late rows, those that had nothing else left out.
pub open spec fn without_late(marks: Marks, ticks: Seq<TickView>) -> Seq<TickView>
    decreases ticks.len(),
{
    if ticks.len() == 0 {
        Seq::empty()
    } else {
        let head = without_late(marks, ticks.drop_last());
        let kept = timely(marks, ticks.last());
        if kept.len() == 0 {
            head
        } else {
            head.push((ticks.last().0, kept))
        }
    }
}

/// What a tick commits: what is above the floors, without late rows.
pub open spec fn kept_ticks(
    ticks: Seq<TickView>,
    floors: Map<i64, i64>,
    marks: Marks,
) -> Seq<TickView> {
    let above = above_floors(ticks, floors);
    if any_late(marks, above) {
        without_late(marks, above)
    } else {
        above
    }
}

/// Counts with a source's once more, so many times.
pub open spec fn counted(counts: Map<i64, u64>, source: i64, n: nat) -> Map<i64, u64>
    decreases n,
{
    if n == 0 {
        counts
    } else {
        let was = counted(counts, source, (n - 1) as nat);
        was.insert(source, bumped(count_of(was, source)))
    }
}

/// The counts once ticks have been gone through: every late row counts for its
/// source.
pub open spec fn late_counted(counts: Map<i64, u64>, marks: Marks, ticks: Seq<TickView>) -> Map<
    i64,
    u64,
>
    decreases ticks.len(),
{
    if ticks.len() == 0 {
        counts
    } else {
        counted(
            late_counted(counts, marks, ticks.drop_last()),
            ticks.last().0,
            late(marks, ticks.last()).len(),
        )
    }
}

/// The oldest timestamp among rows.
pub open spec fn oldest(rows: Seq<WalView>) -> i64
    recommends
        rows.len() > 0,
    decreases rows.len(),
{
    if rows.len() <= 1 {
        rows[0].ts
    } else if rows.last().ts < oldest(rows.drop_last()) {
        rows.last().ts
    } else {
        oldest(rows.drop_last())
    }
}

/// The writer's health once ticks have been held against the floors: each that
/// is dropped there is noted for its source.
pub open spec fn floors_noted(
    h: HealthView,
    floors: Map<i64, i64>,
    ticks: Seq<TickView>,
) -> HealthView
    decreases ticks.len(),
{
    if ticks.len() == 0 {
        h
    } else {
        let was = floors_noted(h, floors, ticks.drop_last());
        let t = ticks.last();
        if below_floor(floors, t) {
            was.noting_floor(t.0, oldest(t.1), floors[t.0])
        } else {
            was
        }
    }
}

/// The writer's health once a source's rows have been gone through: each late
/// one is counted for its source and noted for its stream.
pub open spec fn rows_noted(
    h: HealthView,
    marks: Marks,
    source: i64,
    rows: Seq<WalView>,
) -> HealthView
    decreases rows.len(),
{
    if rows.len() == 0 {
        h
    } else {
        let was = rows_noted(h, marks, source, rows.drop_last());
        let r = rows.last();
        if shadows(marks, source, r) {
            was.after_late(source).noting_late(source, r.stream, r.ts, marks[(source, r.stream)])
        } else {
            was
        }
    }
}

/// The writer's health once the late rows of ticks have been gone through.
pub open spec fn late_noted(h: HealthView, marks: Marks, ticks: Seq<TickView>) -> HealthView
    decreases ticks.len(),
{
    if ticks.len() == 0 {
        h
    } else {
        rows_noted(
            late_noted(h, marks, ticks.drop_last()),
            marks,
            ticks.last().0,
            ticks.last().1,
        )
    }
}

/// The writer's health once a tick is planned.
pub open spec fn planned(
    h: HealthView,
    ticks: Seq<TickView>,
    floors: Map<i64, i64>,
    marks: Marks,
) -> HealthView {
    late_noted(floors_noted(h, floors, ticks), marks, above_floors(ticks, floors))
}

pub proof fn lemma_oldest(rows: Seq<WalView>)
    requires
        rows.len() > 0,
    ensures
        forall|i: int| 0 <= i < rows.len() ==> oldest(rows) <= (#[trigger] rows[i]).ts,
        exists|i: int| 0 <= i < rows.len() && (#[trigger] rows[i]).ts == oldest(rows),
    decreases rows.len(),
{
    if rows.len() > 1 {
        let head = rows.drop_last();
        lemma_oldest(head);
        let i = choose|i: int| 0 <= i < head.len() && (#[trigger] head[i]).ts == oldest(head);
        assert(rows[i] == head[i]);
        assert forall|k: int| 0 <= k < rows.len() implies oldest(rows) <= (#[trigger] rows[k]).ts by {
            if k < head.len() {
                assert(head[k] == rows[k]);
            }
        }
        assert(rows[rows.len() - 1] == rows.last());
    } else {
        assert(rows[0].ts == oldest(rows));
    }
}

fn oldest_row(rows: &Vec<WalRow>) -> (r: Option<i64>)
    ensures
        r is None <==> rows@.len() == 0,
        r matches Some(ts) ==> ts == oldest(seqs::views(rows@)),
{
    let ghost all = seqs::views(rows@);
    if rows.len() == 0 {
        return None;
    }
    let mut ts: i64 = rows[0].ts;
    let mut i: usize = 1;
    proof {
        assert(all[0] == rows@[0]@);
        assert(all.take(1)[0] == all[0]);
    }
    while i < rows.len()
        invariant
            1 <= i <= rows@.len(),
            all == seqs::views(rows@),
            ts == oldest(all.take(i as int)),
        decreases rows@.len() - i,
    {
        proof {
            assert(all.take(i + 1).drop_last() =~= all.take(i as int));
            assert(all[i as int] == rows@[i as int]@);
        }
        if rows[i].ts < ts {
            ts = rows[i].ts;
        }
        i += 1;
    }
    proof {
        assert(all.take(i as int) =~= all);
    }
    Some(ts)
}

/// The floor that a tick is below, with its oldest row.
fn floor_crossed(floors: &Slots<i64, i64>, source_id: i64, rows: &Vec<WalRow>) -> (r: Option<
    (i64, i64),
>)
    ensures
        r is Some <==> below_floor(floors@, (source_id, seqs::views(rows@))),
        r matches Some((ts, floor)) ==> ts == oldest(seqs::views(rows@)) && floor
            == floors@[source_id],
{
    let ghost all = seqs::views(rows@);
    let floor: i64 = match floors.get(&source_id) {
        Some(f) => f,
        None => {
            return None;
        },
    };
    match oldest_row(rows) {
        None => None,
        Some(ts) => {
            proof {
                lemma_oldest(all);
            }
            let ghost t: TickView = (source_id, all);
            if ts <= floor {
                proof {
                    let i = choose|i: int|
                        0 <= i < all.len() && (#[trigger] all[i]).ts == oldest(all);
                    assert(t.1[i].ts <= floors@[t.0]);
                }
                Some((ts, floor))
            } else {
                None
            }
        },
    }
}

/// The same rows again.
pub fn copy_rows(rows: &Vec<WalRow>) -> (r: Vec<WalRow>)
    ensures
        seqs::views(r@) == seqs::views(rows@),
{
    let ghost all = seqs::views(rows@);
    let mut out: Vec<WalRow> = Vec::new();
    let mut i: usize = 0;
    proof {
        seqs::lemma_views_empty::<WalRow>();
    }
    while i < rows.len()
        invariant
            i <= rows@.len(),
            all == seqs::views(rows@),
            seqs::views(out@) == all.take(i as int),
        decreases rows@.len() - i,
    {
        let ghost was = seqs::views(out@);
        out.push(rows[i].clone());
        proof {
            assert(all.take(i + 1) =~= was.push(all[i as int]));
        }
        i += 1;
    }
    proof {
        assert(all.take(i as int) =~= all);
    }
    out
}

fn drop_below_floors(
    ticks: &Vec<(i64, Vec<WalRow>)>,
    floors: &Slots<i64, i64>,
    health: &mut WriterHealth,
) -> (r: Vec<(i64, Vec<WalRow>)>)
    ensures
        store::tick_views(r@) == above_floors(store::tick_views(ticks@), floors@),
        final(health)@ == floors_noted(old(health)@, floors@, store::tick_views(ticks@)),
{
    let ghost all = store::tick_views(ticks@);
    let ghost keep = |t: TickView| !below_floor(floors@, t);
    let mut out: Vec<(i64, Vec<WalRow>)> = Vec::new();
    let mut i: usize = 0;
    proof {
        seqs::lemma_filter_full(all, keep);
        assert(store::tick_views(out@) =~= Seq::empty());
    }
    while i < ticks.len()
        invariant
            i <= ticks@.len(),
            all == store::tick_views(ticks@),
            keep == |t: TickView| !below_floor(floors@, t),
            store::tick_views(out@) == all.take(i as int).filter(keep),
            health@ == floors_noted(old(health)@, floors@, all.take(i as int)),
        decreases ticks@.len() - i,
    {
        let ghost was = store::tick_views(out@);
        proof {
            seqs::lemma_filter_take(all, i as int, keep);
            assert(all[i as int] == (ticks@[i as int].0, seqs::views(ticks@[i as int].1@)));
            assert(all.take(i + 1).drop_last() =~= all.take(i as int));
        }
        match floor_crossed(floors, ticks[i].0, &ticks[i].1) {
            Some((ts, floor)) => {
                health.warn_floor(ticks[i].0, ts, floor);
            },
            None => {
                out.push((ticks[i].0, copy_rows(&ticks[i].1)));
                assert(store::tick_views(out@) =~= was.push(all[i as int]));
            },
        }
        i += 1;
    }
    proof {
        assert(all.take(i as int) =~= all);
    }
    out
}

/// The watermark that a row is at or below.
fn late_under(marks: &Slots<(i64, String), i64>, source_id: i64, row: &WalRow) -> (r: Option<i64>)
    ensures
        r is Some <==> shadows(marks@, source_id, row@),
        r matches Some(w) ==> w == marks@[(source_id, row@.stream)],
{
    let key = (source_id, row.stream.clone());
    assert(key@ == (source_id, row.stream@));
    match marks.get(&key) {
        Some(w) => if row.ts <= w {
            Some(w)
        } else {
            None
        },
        None => None,
    }
}

fn split_late(
    marks: &Slots<(i64, String), i64>,
    source_id: i64,
    rows: &Vec<WalRow>,
    health: &mut WriterHealth,
) -> (r: (Vec<WalRow>, bool))
    ensures
        seqs::views(r.0@) == timely(marks@, (source_id, seqs::views(rows@))),
        r.1 == (late(marks@, (source_id, seqs::views(rows@))).len() > 0),
        final(health)@ == rows_noted(old(health)@, marks@, source_id, seqs::views(rows@)),
{
    let ghost all = seqs::views(rows@);
    let ghost keep = |r: WalView| !shadows(marks@, source_id, r);
    let ghost lost = |r: WalView| shadows(marks@, source_id, r);
    let mut out: Vec<WalRow> = Vec::new();
    let mut found: bool = false;
    let mut i: usize = 0;
    proof {
        seqs::lemma_filter_full(all, keep);
        seqs::lemma_filter_full(all, lost);
        seqs::lemma_views_empty::<WalRow>();
    }
    while i < rows.len()
        invariant
            i <= rows@.len(),
            all == seqs::views(rows@),
            keep == |r: WalView| !shadows(marks@, source_id, r),
            lost == |r: WalView| shadows(marks@, source_id, r),
            seqs::views(out@) == all.take(i as int).filter(keep),
            found == (all.take(i as int).filter(lost).len() > 0),
            health@ == rows_noted(old(health)@, marks@, source_id, all.take(i as int)),
        decreases rows@.len() - i,
    {
        proof {
            seqs::lemma_filter_take(all, i as int, keep);
            seqs::lemma_filter_take(all, i as int, lost);
            assert(all[i as int] == rows@[i as int]@);
            assert(all.take(i + 1).drop_last() =~= all.take(i as int));
        }
        match late_under(marks, source_id, &rows[i]) {
            Some(w) => {
                health.count_shadowed(source_id);
                health.warn_shadowed(source_id, rows[i].stream.as_str(), rows[i].ts, w);
                found = true;
            },
            None => {
                out.push(rows[i].clone());
            },
        }
        i += 1;
    }
    proof {
        assert(all.take(i as int) =~= all);
    }
    (out, found)
}

/// Plan a tick: the rows to commit, by source. Late rows are counted for their
/// sources and left out, and a tick below its source's floor is left out whole;
/// the first of each is noted.
pub fn plan_tick(
    ticks: &Vec<(i64, Vec<WalRow>)>,
    floors: &Slots<i64, i64>,
    watermarks: &Slots<(i64, String), i64>,
    health: &mut WriterHealth,
) -> (r: Vec<(i64, Vec<WalRow>)>)
    ensures
        store::tick_views(r@) == kept_ticks(
            store::tick_views(ticks@),
            floors@,
            watermarks@,
        ),
        final(health)@ == planned(
            old(health)@,
            store::tick_views(ticks@),
            floors@,
            watermarks@,
        ),
{
    let above = drop_below_floors(ticks, floors, health);
    let ghost all = store::tick_views(above@);
    let ghost was = health@;
    let mut out: Vec<(i64, Vec<WalRow>)> = Vec::new();
    let mut found: bool = false;
    let mut i: usize = 0;
    proof {
        assert(store::tick_views(out@) =~= Seq::empty());
    }
    while i < above.len()
        invariant
            i <= above@.len(),
            all == store::tick_views(above@),
            store::tick_views(out@) == without_late(watermarks@, all.take(i as int)),
            found == any_late(watermarks@, all.take(i as int)),
            health@ == late_noted(was, watermarks@, all.take(i as int)),
        decreases above@.len() - i,
    {
        let ghost t = all[i as int];
        let ghost head = store::tick_views(out@);
        proof {
            assert(t == (above@[i as int].0, seqs::views(above@[i as int].1@)));
            assert(all.take(i + 1).drop_last() =~= all.take(i as int));
            assert(all.take(i + 1).last() == t);
        }
        let source_id: i64 = above[i].0;
        let (kept, late_here) = split_late(watermarks, source_id, &above[i].1, health);
        proof {
            lemma_any_late(watermarks@, all, i as int);
        }
        if late_here {
            found = true;
        }
        if kept.len() > 0 {
            let ghost kv = seqs::views(kept@);
            out.push((source_id, kept));
            assert(store::tick_views(out@) =~= head.push((source_id, kv)));
        }
        i += 1;
    }
    proof {
        assert(all.take(i as int) =~= all);
    }
    if found {
        out
    } else {
        above
    }
}

proof fn lemma_rows_counted(h: HealthView, marks: Marks, source: i64, rows: Seq<WalView>)
    ensures
        rows_noted(h, marks, source, rows).shadowed == counted(
            h.shadowed,
            source,
            late(marks, (source, rows)).len(),
        ),
    decreases rows.len(),
{
    let lost = |r: WalView| shadows(marks, source, r);
    if rows.len() == 0 {
        seqs::lemma_filter_full(rows, lost);
        assert(rows.filter(lost).len() == 0) by {
            reveal(Seq::filter);
        }
    } else {
        lemma_rows_counted(h, marks, source, rows.drop_last());
        seqs::lemma_filter_take(rows, rows.len() - 1, lost);
        assert(rows.take(rows.len() - 1) =~= rows.drop_last());
        assert(rows.take(rows.len() as int) =~= rows);
    }
}

/// Every late row of a tick that is above its floor is counted once, for its
/// source, and no other row is.
pub proof fn law_late_rows_are_counted(
    h: HealthView,
    ticks: Seq<TickView>,
    floors: Map<i64, i64>,
    marks: Marks,
)
    ensures
        planned(h, ticks, floors, marks).shadowed == late_counted(
            h.shadowed,
            marks,
            above_floors(ticks, floors),
        ),
{
    lemma_floors_count_nothing(h, floors, ticks);
    lemma_late_counted(floors_noted(h, floors, ticks), marks, above_floors(ticks, floors));
}

proof fn lemma_floors_count_nothing(h: HealthView, floors: Map<i64, i64>, ticks: Seq<TickView>)
    ensures
        floors_noted(h, floors, ticks).shadowed == h.shadowed,
    decreases ticks.len(),
{
    if ticks.len() > 0 {
        lemma_floors_count_nothing(h, floors, ticks.drop_last());
    }
}

proof fn lemma_late_counted(h: HealthView, marks: Marks, ticks: Seq<TickView>)
    ensures
        late_noted(h, marks, ticks).shadowed == late_counted(h.shadowed, marks, ticks),
    decreases ticks.len(),
{
    if ticks.len() > 0 {
        lemma_late_counted(h, marks, ticks.drop_last());
        lemma_rows_counted(
            late_noted(h, marks, ticks.drop_last()),
            marks,
            ticks.last().0,
            ticks.last().1,
        );
    }
}

proof fn lemma_any_late(marks: Marks, ticks: Seq<TickView>, n: int)
    requires
        0 <= n < ticks.len(),
    ensures
        any_late(marks, ticks.take(n + 1)) == (any_late(marks, ticks.take(n)) || late(
            marks,
            ticks[n],
        ).len() > 0),
{
    let a = ticks.take(n);
    let b = ticks.take(n + 1);
    if any_late(marks, a) {
        let i = choose|i: int| 0 <= i < a.len() && late(marks, #[trigger] a[i]).len() > 0;
        assert(b[i] == a[i]);
    }
    if late(marks, ticks[n]).len() > 0 {
        assert(b[n] == ticks[n]);
    }
    if any_late(marks, b) {
        let i = choose|i: int| 0 <= i < b.len() && late(marks, #[trigger] b[i]).len() > 0;
        if i < n {
            assert(a[i] == b[i]);
        }
    }
}

// ------------------------------------------------------------ what an outcome leads to

/// How many milliseconds to wait before the next attempt, by how many have
/// failed: three attempts are worth waiting for.
pub open spec fn backoff_ms(attempt: nat) -> Option<u64> {
    if attempt == 0 {
        Some(10)
    } else if attempt == 1 {
        Some(50)
    } else if attempt == 2 {
        Some(250)
    } else {
        None
    }
}

/// How long to wait before trying again what failed, where it is worth trying
/// again: the failure can clear on its own, and the schedule has not run out.
pub open spec fn retried_after(attempt: nat, e: ErrorView) -> Option<u64> {
    if error::retryable(e) {
        backoff_ms(attempt)
    } else {
        None
    }
}

/// How many milliseconds to wait before the next attempt at what failed, or
/// `None` where the failure stands: it will not clear on its own, or it has
/// outlasted the schedule.
pub fn retry_after(attempt: u32, e: &Error) -> (r: Option<u64>)
    ensures
        r == retried_after(attempt as nat, e@),
{
    if !e.is_retryable() {
        None
    } else if attempt == 0 {
        Some(10)
    } else if attempt == 1 {
        Some(50)
    } else if attempt == 2 {
        Some(250)
    } else {
        None
    }
}

/// What to do next about a tick.
#[derive(Clone, Copy, Debug, PartialEq, Eq, Structural)]
pub enum Move {
    /// Commit what is due: the whole tick, or one source's rows of it.
    Commit,
    /// Wait so many milliseconds, and commit what is due again.
    Wait(u64),
    /// Nothing: the tick is settled.
    Done,
}

/// How far a tick has come.
pub struct TickRun {
    sources: Vec<i64>,
    at: Option<usize>,
    attempt: u32,
    any: bool,
}

/// How far a tick has come, as mathematics.
pub struct RunView {
    /// The sources that have rows in it.
    pub sources: Seq<i64>,
    /// The source whose rows are due alone, or none where the whole tick is.
    pub at: Option<nat>,
    /// How many attempts at what is due have failed.
    pub attempt: nat,
    /// Whether any source's rows were committed alone.
    pub any: bool,
}

impl View for TickRun {
    type V = RunView;

    closed spec fn view(&self) -> RunView {
        RunView {
            sources: self.sources@,
            at: match self.at {
                Some(i) => Some(i as nat),
                None => None,
            },
            attempt: self.attempt as nat,
            any: self.any,
        }
    }
}

/// What an outcome means.
pub enum Verdict {
    /// It is committed.
    Fine,
    /// It is worth trying again, after so many milliseconds.
    Again(u64),
    /// It collides with what is committed.
    Collided(ErrorView),
    /// It is lost.
    Lost(ErrorView),
    /// The writer cannot go on.
    Fatal(ErrorView),
}

/// What an outcome means, at an attempt.
pub open spec fn verdict(attempt: nat, outcome: Result<(), ErrorView>) -> Verdict {
    match outcome {
        Ok(_) => Verdict::Fine,
        Err(e) => match retried_after(attempt, e) {
            Some(ms) => Verdict::Again(ms),
            None => if error::constraint(e) {
                Verdict::Collided(e)
            } else if error::retryable(e) {
                Verdict::Lost(e)
            } else {
                Verdict::Fatal(e)
            },
        },
    }
}

impl RunView {
    /// Nothing committed yet.
    pub open spec fn start(sources: Seq<i64>) -> RunView {
        RunView { sources, at: None, attempt: 0, any: false }
    }

    /// Going on to a source's rows alone; past the last source the tick is
    /// settled, and counts as committed where any source's rows were.
    pub open spec fn go_on(self, next: nat, health: HealthView) -> (RunView, HealthView, Move) {
        if next < self.sources.len() {
            (RunView { at: Some(next), attempt: 0, ..self }, health, Move::Commit)
        } else {
            (
                self,
                if self.any {
                    health.after_commit()
                } else {
                    health
                },
                Move::Done,
            )
        }
    }

    /// What an outcome of what is due leads to: how far the tick is then, the
    /// writer's health, and what to do next or why to stop.
    pub open spec fn settled(self, health: HealthView, outcome: Result<(), ErrorView>) -> (
        RunView,
        HealthView,
        Result<Move, ErrorView>,
    ) {
        match verdict(self.attempt, outcome) {
            Verdict::Fatal(e) => (self, health, Err(e)),
            Verdict::Again(ms) => (
                RunView { attempt: self.attempt + 1, ..self },
                health,
                Ok(Move::Wait(ms)),
            ),
            Verdict::Fine => match self.at {
                None => (self, health.after_commit(), Ok(Move::Done)),
                Some(i) => {
                    let (r, h, m) = RunView { any: true, ..self }.go_on(i + 1, health);
                    (r, h, Ok(m))
                },
            },
            Verdict::Collided(e) => {
                let (r, h, m) = match self.at {
                    None => self.go_on(0, health),
                    Some(i) => self.go_on(
                        i + 1,
                        health.noting_collision(self.sources[i as int], e),
                    ),
                };
                (r, h, Ok(m))
            },
            Verdict::Lost(e) => {
                let (h1, stop) = health.after_drop(e);
                match stop {
                    Some(x) => (self, h1, Err(x)),
                    None => match self.at {
                        None => (self, h1, Ok(Move::Done)),
                        Some(i) => {
                            let (r, h, m) = self.go_on(i + 1, h1);
                            (r, h, Ok(m))
                        },
                    },
                }
            },
        }
    }
}

/// The outcome of a commit, as mathematics.
pub open spec fn outcome_view(r: Result<(), Error>) -> Result<(), ErrorView> {
    match r {
        Ok(_) => Ok(()),
        Err(e) => Err(e@),
    }
}

impl TickRun {
    #[verifier::type_invariant]
    closed spec fn in_bounds(self) -> bool {
        &&& self.attempt <= 3
        &&& self.at matches Some(i) ==> i < self.sources.len()
    }

    /// A tick of the sources that have rows in it, in order, of which nothing is
    /// committed yet.
    pub fn new(sources: Vec<i64>) -> (r: TickRun)
        ensures
            r@ == RunView::start(sources@),
    {
        TickRun { sources, at: None, attempt: 0, any: false }
    }

    /// The source whose rows are due alone, by its place in the tick, or `None`
    /// where the whole tick is due in one transaction.
    pub fn due(&self) -> (r: Option<usize>)
        ensures
            match r {
                Some(i) => self@.at == Some(i as nat) && i < self@.sources.len(),
                None => self@.at is None,
            },
    {
        proof {
            use_type_invariant(self);
        }
        self.at
    }

    fn move_to(&mut self, at: Option<usize>, attempt: u32, any: bool)
        requires
            attempt <= 3,
            at matches Some(i) ==> i < old(self)@.sources.len(),
        ensures
            final(self)@ == (RunView {
                at: match at {
                    Some(i) => Some(i as nat),
                    None => None,
                },
                attempt: attempt as nat,
                any,
                ..old(self)@
            }),
    {
        let mut was = TickRun { sources: Vec::new(), at: None, attempt: 0, any: false };
        std::mem::swap(&mut was, self);
        let TickRun { sources, .. } = was;
        *self = TickRun { sources, at, attempt, any };
    }

    fn go_on(&mut self, next: usize, health: &mut WriterHealth) -> (r: Move)
        ensures
            (final(self)@, final(health)@, r) == old(self)@.go_on(next as nat, old(health)@),
    {
        if next < self.sources.len() {
            self.move_to(Some(next), 0, self.any);
            Move::Commit
        } else {
            if self.any {
                health.committed();
            }
            Move::Done
        }
    }

    /// Take in the outcome of committing what is due.
    ///
    /// The whole tick is one transaction. Where that fails on a constraint, the
    /// failure is one source's, so the tick is committed again source by source
    /// and only the colliding source loses its rows. What can clear on its own
    /// is waited out; what outlasts that is dropped and counted; anything else
    /// stops the writer.
    pub fn settle(&mut self, health: &mut WriterHealth, outcome: Result<(), Error>) -> (r: Result<
        Move,
        Error,
    >)
        ensures
            ({
                let (run, h, m) = old(self)@.settled(old(health)@, outcome_view(outcome));
                &&& final(self)@ == run
                &&& final(health)@ == h
                &&& match m {
                    Ok(x) => r == Ok::<Move, Error>(x),
                    Err(e) => r matches Err(x) && x@ == e,
                }
            }),
    {
        proof {
            use_type_invariant(&*self);
        }
        let at: Option<usize> = self.at;
        let attempt: u32 = self.attempt;
        match outcome {
            Ok(_) => match at {
                None => {
                    health.committed();
                    Ok(Move::Done)
                },
                Some(i) => {
                    self.move_to(at, attempt, true);
                    Ok(self.go_on(i + 1, health))
                },
            },
            Err(e) => {
                match retry_after(attempt, &e) {
                    Some(ms) => {
                        self.move_to(at, attempt + 1, self.any);
                        return Ok(Move::Wait(ms));
                    },
                    None => {},
                }
                if e.is_constraint() {
                    match at {
                        None => Ok(self.go_on(0, health)),
                        Some(i) => {
                            health.warn_collision(self.sources[i], e);
                            Ok(self.go_on(i + 1, health))
                        },
                    }
                } else if e.is_retryable() {
                    match health.dropped(&e) {
                        Err(x) => Err(x),
                        Ok(_) => match at {
                            None => Ok(Move::Done),
                            Some(i) => Ok(self.go_on(i + 1, health)),
                        },
                    }
                } else {
                    Err(e)
                }
            },
        }
    }
}

// ------------------------------------------------------------ committing

/// Committing the first `n` ticks source by source: the archive then, and
/// whether any was taken.
pub open spec fn each_committed(d: DbView, ticks: Seq<TickView>, n: nat) -> (DbView, bool)
    decreases n,
{
    if n == 0 {
        (d, false)
    } else {
        let (was, any) = each_committed(d, ticks, (n - 1) as nat);
        match was.wal_run(ticks[n - 1].0, ticks[n - 1].1) {
            (next, None) => (next, true),
            _ => (was, any),
        }
    }
}

/// The writer's health once the first `n` ticks have been committed source by
/// source: each that collided is noted for its source.
pub open spec fn collisions_noted(
    d: DbView,
    h: HealthView,
    ticks: Seq<TickView>,
    n: nat,
) -> HealthView
    decreases n,
{
    if n == 0 {
        h
    } else {
        let was = collisions_noted(d, h, ticks, (n - 1) as nat);
        let t = ticks[n - 1];
        match each_committed(d, ticks, (n - 1) as nat).0.wal_run(t.0, t.1) {
            (_, Some(e)) => was.noting_collision(t.0, e),
            _ => was,
        }
    }
}

/// Committing a tick: all of it, or where a source's rows collide, every
/// source's rows that do not.
pub open spec fn tick_committed(d: DbView, h: HealthView, ticks: Seq<TickView>) -> (
    DbView,
    HealthView,
    Option<ErrorView>,
) {
    if ticks.len() == 0 {
        (d, h, None)
    } else if !d.writable() {
        (d, h, Some(d.write_refusal()))
    } else {
        match d.ticks_run(ticks) {
            (next, None) => (next, h.after_commit(), None),
            _ => {
                let (next, any) = each_committed(d, ticks, ticks.len());
                let noted = collisions_noted(d, h, ticks, ticks.len());
                (
                    next,
                    if any {
                        noted.after_commit()
                    } else {
                        noted
                    },
                    None,
                )
            },
        }
    }
}

proof fn lemma_run_refusal(d: DbView, source: i64, rows: Seq<WalView>)
    ensures
        d.wal_run(source, rows).1 matches Some(e) ==> error::constraint(e),
        d.wal_run(source, rows).0.writable() == d.writable(),
    decreases rows.len(),
{
    error::lemma_key_codes();
    if rows.len() > 0 {
        lemma_run_refusal(d, source, rows.drop_last());
    }
}

proof fn lemma_ticks_refusal(d: DbView, ticks: Seq<TickView>)
    ensures
        d.ticks_run(ticks).1 matches Some(e) ==> error::constraint(e),
    decreases ticks.len(),
{
    if ticks.len() > 0 {
        lemma_ticks_refusal(d, ticks.drop_last());
        let (n, e) = d.ticks_run(ticks.drop_last());
        lemma_run_refusal(n, ticks.last().0, ticks.last().1);
    }
}

proof fn lemma_each_writable(d: DbView, ticks: Seq<TickView>, n: nat)
    ensures
        each_committed(d, ticks, n).0.writable() == d.writable(),
    decreases n,
{
    if n > 0 {
        lemma_each_writable(d, ticks, (n - 1) as nat);
        let was = each_committed(d, ticks, (n - 1) as nat).0;
        lemma_run_refusal(was, ticks[n - 1].0, ticks[n - 1].1);
    }
}

/// The sources of ticks, in order.
pub open spec fn sources_of(ticks: Seq<TickView>) -> Seq<i64> {
    ticks.map_values(|t: TickView| t.0)
}

/// The sources of ticks, in order.
pub fn tick_sources(ticks: &Vec<(i64, Vec<WalRow>)>) -> (r: Vec<i64>)
    ensures
        r@ == sources_of(store::tick_views(ticks@)),
{
    let ghost all = store::tick_views(ticks@);
    let mut out: Vec<i64> = Vec::new();
    let mut i: usize = 0;
    while i < ticks.len()
        invariant
            i <= ticks@.len(),
            all == store::tick_views(ticks@),
            out@ == sources_of(all).take(i as int),
        decreases ticks@.len() - i,
    {
        out.push(ticks[i].0);
        proof {
            assert(all[i as int].0 == ticks@[i as int].0);
            assert(out@ =~= sources_of(all).take(i + 1));
        }
        i += 1;
    }
    proof {
        assert(sources_of(all).take(i as int) =~= sources_of(all));
    }
    out
}

/// Commit one tick's rows for every source in the archive.
///
/// The whole tick is one transaction. Where that fails on a constraint (a
/// source repeating a timestamp that it committed already), the tick is
/// committed again per source and only the colliding source loses its rows. What
/// is dropped is noted: the first tick at a source's floor, a stream's first late
/// row, a source's first collision.
pub fn commit_tick(
    db: &mut Db,
    ticks: &Vec<(i64, Vec<WalRow>)>,
    floors: &Slots<i64, i64>,
    watermarks: &Slots<(i64, String), i64>,
    health: &mut WriterHealth,
) -> (r: Result<(), Error>)
    ensures
        ({
            let all = store::tick_views(ticks@);
            let kept = kept_ticks(all, floors@, watermarks@);
            let (d, h, refusal) = tick_committed(
                old(db)@,
                planned(old(health)@, all, floors@, watermarks@),
                kept,
            );
            &&& final(db)@ == d
            &&& final(health)@ == h
            &&& match refusal {
                None => r is Ok,
                Some(e) => r matches Err(x) && x@ == e,
            }
        }),
{
    let kept = plan_tick(ticks, floors, watermarks, health);
    let ghost all = store::tick_views(kept@);
    let ghost d0 = db@;
    let ghost h0 = health@;
    if kept.len() == 0 {
        return Ok(());
    }
    proof {
        lemma_ticks_refusal(d0, all);
    }
    let sources = tick_sources(&kept);
    let mut run = TickRun::new(sources);
    loop
        invariant
            all == store::tick_views(kept@),
            kept@.len() > 0,
            run@.sources == sources_of(all),
            run@.attempt == 0,
            match run@.at {
                None => db@ == d0 && !run@.any && health@ == h0,
                Some(i) => {
                    &&& i < all.len()
                    &&& health@ == collisions_noted(d0, h0, all, i)
                    &&& each_committed(d0, all, i) == (db@, run@.any)
                    &&& d0.ticks_run(all).1 is Some
                    &&& d0.writable()
                },
            },
            d0.ticks_run(all).1 matches Some(e) ==> error::constraint(e),
            ({
                let given = store::tick_views(ticks@);
                &&& d0 == old(db)@
                &&& all == kept_ticks(given, floors@, watermarks@)
                &&& h0 == planned(old(health)@, given, floors@, watermarks@)
            }),
        decreases
                all.len() - match run@.at {
                    None => -1int,
                    Some(i) => i as int,
                },
    {
        let ghost before = run@;
        let outcome = match run.due() {
            None => db.insert_wal_rows_batch(kept.as_slice()),
            Some(i) => {
                proof {
                    assert(all[i as int] == (kept@[i as int].0, seqs::views(kept@[i as int].1@)));
                    lemma_each_writable(d0, all, i as nat);
                    lemma_run_refusal(db@, all[i as int].0, all[i as int].1);
                }
                db.insert_wal_rows(kept[i].0, kept[i].1.as_slice())
            },
        };
        match run.settle(health, outcome) {
            Err(e) => {
                return Err(e);
            },
            Ok(Move::Done) => {
                return Ok(());
            },
            Ok(_) => {},
        }
    }
}

// ------------------------------------------------------------ what is noted, and once

/// Whether what a note is about has been noted before.
pub open spec fn noted(h: HealthView, note: NoteView) -> bool {
    match note {
        NoteView::BelowFloor { source_id, .. } => h.warned_floors.dom().contains(source_id),
        NoteView::Late { source_id, stream, .. } => h.warned_shadowed.dom().contains(
            (source_id, stream),
        ),
        NoteView::Collision { source_id, .. } => h.warned_collisions.dom().contains(source_id),
    }
}

/// Whether two notes are about the same: what one is noted of, the other is.
pub open spec fn alike(a: NoteView, b: NoteView) -> bool {
    match (a, b) {
        (
            NoteView::BelowFloor { source_id: x, .. },
            NoteView::BelowFloor { source_id: y, .. },
        ) => x == y,
        (
            NoteView::Late { source_id: x, stream: s, .. },
            NoteView::Late { source_id: y, stream: t, .. },
        ) => x == y && s == t,
        (NoteView::Collision { source_id: x, .. }, NoteView::Collision { source_id: y, .. }) => x
            == y,
        _ => false,
    }
}

/// Whether what a writer came to note is new: notes are only added, each about
/// what had not been noted, and no two about the same.
pub open spec fn only_new_notes(was: HealthView, now: HealthView) -> bool {
    &&& was.notes.len() <= now.notes.len()
    &&& was.notes == now.notes.take(was.notes.len() as int)
    &&& forall|note: NoteView| noted(was, note) ==> #[trigger] noted(now, note)
    &&& forall|k: int|
        was.notes.len() <= k < now.notes.len() ==> !noted(was, #[trigger] now.notes[k]) && noted(
            now,
            now.notes[k],
        )
    &&& forall|j: int, k: int|
        was.notes.len() <= j < k < now.notes.len() ==> !alike(
            #[trigger] now.notes[j],
            #[trigger] now.notes[k],
        )
}

proof fn lemma_new_notes_on(a: HealthView, b: HealthView, c: HealthView)
    requires
        only_new_notes(a, b),
        only_new_notes(b, c),
    ensures
        only_new_notes(a, c),
{
    assert(forall|k: int| 0 <= k < b.notes.len() ==> #[trigger] c.notes[k] == b.notes[k]) by {
        assert forall|k: int| 0 <= k < b.notes.len() implies #[trigger] c.notes[k]
            == b.notes[k] by {
            assert(c.notes.take(b.notes.len() as int)[k] == c.notes[k]);
        }
    }
    assert(a.notes =~= c.notes.take(a.notes.len() as int)) by {
        assert forall|k: int| 0 <= k < a.notes.len() implies #[trigger] a.notes[k]
            == c.notes.take(a.notes.len() as int)[k] by {
            assert(b.notes.take(a.notes.len() as int)[k] == b.notes[k]);
        }
    }
    assert forall|note: NoteView| noted(a, note) implies #[trigger] noted(c, note) by {
        assert(noted(b, note));
    }
    assert forall|k: int| a.notes.len() <= k < c.notes.len() implies !noted(
        a,
        #[trigger] c.notes[k],
    ) && noted(c, c.notes[k]) by {
        if k < b.notes.len() {
            assert(c.notes[k] == b.notes[k]);
            assert(noted(b, b.notes[k]));
        } else if noted(a, c.notes[k]) {
            assert(noted(b, c.notes[k]));
        }
    }
    assert forall|j: int, k: int| a.notes.len() <= j < k < c.notes.len() implies !alike(
        #[trigger] c.notes[j],
        #[trigger] c.notes[k],
    ) by {
        if k < b.notes.len() {
            assert(c.notes[j] == b.notes[j]);
            assert(c.notes[k] == b.notes[k]);
        } else if j < b.notes.len() {
            assert(c.notes[j] == b.notes[j]);
            assert(noted(b, b.notes[j]));
            assert(!noted(b, c.notes[k]));
        }
    }
}

proof fn lemma_one_note(was: HealthView, now: HealthView)
    requires
        forall|note: NoteView| noted(was, note) ==> #[trigger] noted(now, note),
        now.notes == was.notes || (now.notes.len() > 0 && now.notes == was.notes.push(
            now.notes.last(),
        ) && !noted(was, now.notes.last()) && noted(now, now.notes.last())),
    ensures
        only_new_notes(was, now),
{
    assert(was.notes =~= now.notes.take(was.notes.len() as int));
}

proof fn lemma_floors_noted_once(h: HealthView, floors: Map<i64, i64>, ticks: Seq<TickView>)
    ensures
        only_new_notes(h, floors_noted(h, floors, ticks)),
    decreases ticks.len(),
{
    lemma_one_note(h, h);
    if ticks.len() > 0 {
        lemma_floors_noted_once(h, floors, ticks.drop_last());
        let was = floors_noted(h, floors, ticks.drop_last());
        let t = ticks.last();
        let now = was.noting_floor(t.0, oldest(t.1), floors[t.0]);
        lemma_one_note(was, now);
        lemma_new_notes_on(h, was, now);
    }
}

proof fn lemma_rows_noted_once(h: HealthView, marks: Marks, source: i64, rows: Seq<WalView>)
    ensures
        only_new_notes(h, rows_noted(h, marks, source, rows)),
    decreases rows.len(),
{
    lemma_one_note(h, h);
    if rows.len() > 0 {
        lemma_rows_noted_once(h, marks, source, rows.drop_last());
        let was = rows_noted(h, marks, source, rows.drop_last());
        let r = rows.last();
        let now = was.after_late(source).noting_late(
            source,
            r.stream,
            r.ts,
            marks[(source, r.stream)],
        );
        lemma_one_note(was, now);
        lemma_new_notes_on(h, was, now);
    }
}

proof fn lemma_late_noted_once(h: HealthView, marks: Marks, ticks: Seq<TickView>)
    ensures
        only_new_notes(h, late_noted(h, marks, ticks)),
    decreases ticks.len(),
{
    lemma_one_note(h, h);
    if ticks.len() > 0 {
        lemma_late_noted_once(h, marks, ticks.drop_last());
        let was = late_noted(h, marks, ticks.drop_last());
        lemma_rows_noted_once(was, marks, ticks.last().0, ticks.last().1);
        lemma_new_notes_on(h, was, late_noted(h, marks, ticks));
    }
}

proof fn lemma_collisions_noted_once(d: DbView, h: HealthView, ticks: Seq<TickView>, n: nat)
    ensures
        only_new_notes(h, collisions_noted(d, h, ticks, n)),
    decreases n,
{
    lemma_one_note(h, h);
    if n > 0 {
        lemma_collisions_noted_once(d, h, ticks, (n - 1) as nat);
        let was = collisions_noted(d, h, ticks, (n - 1) as nat);
        let now = collisions_noted(d, h, ticks, n);
        lemma_one_note(was, now);
        lemma_new_notes_on(h, was, now);
    }
}

/// A tick adds only new notes: none about a source's floor, a stream's late rows
/// or a source's collisions that were noted before, and no two about the same.
pub proof fn law_noted_once(
    d: DbView,
    h: HealthView,
    ticks: Seq<TickView>,
    floors: Map<i64, i64>,
    marks: Marks,
)
    ensures
        only_new_notes(
            h,
            tick_committed(
                d,
                planned(h, ticks, floors, marks),
                kept_ticks(ticks, floors, marks),
            ).1,
        ),
{
    let kept = kept_ticks(ticks, floors, marks);
    let a = floors_noted(h, floors, ticks);
    let b = planned(h, ticks, floors, marks);
    let c = collisions_noted(d, b, kept, kept.len());
    lemma_floors_noted_once(h, floors, ticks);
    lemma_late_noted_once(a, marks, above_floors(ticks, floors));
    lemma_new_notes_on(h, a, b);
    lemma_collisions_noted_once(d, b, kept, kept.len());
    lemma_new_notes_on(h, b, c);
    lemma_one_note(b, b.after_commit());
    lemma_new_notes_on(h, b, b.after_commit());
    lemma_one_note(c, c.after_commit());
    lemma_new_notes_on(h, c, c.after_commit());
}

} // verus!
