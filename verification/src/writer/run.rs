//! The writer: everything that changes an archive, in the order it is asked
//! for.

use vstd::prelude::*;

use super::reclaim;
use super::reclaim::reclaim_if_fragmented;
use super::seal;
use super::seal::{seal_batch, Numbers};
use super::session;
use super::session::{add_source, resume_source, Resumed};
use super::tick;
use super::tick::{commit_tick, HealthView, Marks, Note, TickView, WriterHealth};
use crate::db::model::DbView;
use crate::db::records::ClockAt;
use crate::db::store;
use crate::db::{Db, Evicted, SourceMeta, SourceMetaView, WalRow};
use crate::error;
use crate::error::{Error, ErrorView};
use crate::segment::SegmentEncoder;
use crate::seqs;
use crate::slots::Slots;
use crate::text_map::{Entry, TextMap};

verus! {

broadcast use crate::seqs::group_views;

// ------------------------------------------------------------ requests

/// What the writer is asked to do.
#[derive(Debug)]
pub enum Request {
    /// Start a source, under a session that has this identity.
    AddSource {
        /// Everything known when the source starts.
        seed: SourceMeta,
        /// The session's identity.
        session: String,
    },
    /// Reopen a source for a new session.
    ResumeSource {
        /// The source.
        source_id: i64,
        /// This session's anchor.
        clock_anchor_wall_ns: i64,
        /// The session's identity.
        session: String,
    },
    /// One tick's rows for every source in the archive.
    Wal {
        /// Each source's rows.
        ticks: Vec<(i64, Vec<WalRow>)>,
    },
    /// One seal batch for one source.
    Seal {
        /// The source.
        source_id: i64,
        /// The streams to seal.
        batch: Vec<String>,
    },
    /// Retention: drop everything wholly older than the cutoff, then hand freed
    /// pages back if the free list has grown.
    Evict {
        /// The source.
        source_id: i64,
        /// The cutoff.
        cutoff_ts: i64,
    },
    /// Merge keys into one source's metadata.
    UpdateMetadata {
        /// The source.
        source_id: i64,
        /// The keys, with their values.
        patch: TextMap,
    },
    /// One source's last clock observation: that source is complete.
    Finalize {
        /// The source.
        source_id: i64,
        /// The observation: a timestamp and its offset.
        clock_offset: (i64, i64),
    },
    /// Answer once everything before this has been handled.
    Sync,
    /// Stop.
    Shutdown,
}

/// What the writer is asked to do, as mathematics.
pub enum RequestView {
    AddSource { seed: SourceMetaView, session: Seq<char> },
    ResumeSource { source_id: i64, clock_anchor_wall_ns: i64, session: Seq<char> },
    Wal { ticks: Seq<TickView> },
    Seal { source_id: i64, batch: Seq<Seq<char>> },
    Evict { source_id: i64, cutoff_ts: i64 },
    UpdateMetadata { source_id: i64, patch: Seq<Entry> },
    Finalize { source_id: i64, clock_offset: (i64, i64) },
    Sync,
    Shutdown,
}

impl View for Request {
    type V = RequestView;

    open spec fn view(&self) -> RequestView {
        match *self {
            Request::AddSource { seed, session } => RequestView::AddSource {
                seed: seed@,
                session: session@,
            },
            Request::ResumeSource { source_id, clock_anchor_wall_ns, session } => {
                RequestView::ResumeSource { source_id, clock_anchor_wall_ns, session: session@ }
            },
            Request::Wal { ticks } => RequestView::Wal { ticks: store::tick_views(ticks@) },
            Request::Seal { source_id, batch } => RequestView::Seal {
                source_id,
                batch: seqs::views(batch@),
            },
            Request::Evict { source_id, cutoff_ts } => RequestView::Evict { source_id, cutoff_ts },
            Request::UpdateMetadata { source_id, patch } => RequestView::UpdateMetadata {
                source_id,
                patch: patch@,
            },
            Request::Finalize { source_id, clock_offset } => RequestView::Finalize {
                source_id,
                clock_offset,
            },
            Request::Sync => RequestView::Sync,
            Request::Shutdown => RequestView::Shutdown,
        }
    }
}

/// What the writer answers.
#[derive(Debug)]
pub enum Reply {
    /// The id of the source that was started, or why it was not. The writer
    /// goes on either way.
    Added(Result<i64, Error>),
    /// What the resumed source's handle needs, or why it was not resumed. The
    /// writer goes on either way.
    Resumed(Result<Resumed, Error>),
    /// What retention removed, or why it did not. The writer goes on either
    /// way.
    Evicted(Result<Evicted, Error>),
    /// It has been handled.
    Done,
    /// The writer stopped on this failure.
    Failed(Error),
    /// The writer stopped as asked; whether every source that was opened was
    /// also finalized, so that the free list is worth draining.
    Stopped(bool),
}

/// What the writer answers, as mathematics.
pub enum ReplyView {
    Added(Result<i64, ErrorView>),
    Resumed(Result<(Seq<Entry>, Option<i64>), ErrorView>),
    Evicted(Result<Evicted, ErrorView>),
    Done,
    Failed(ErrorView),
    Stopped(bool),
}

impl View for Reply {
    type V = ReplyView;

    open spec fn view(&self) -> ReplyView {
        match *self {
            Reply::Added(r) => ReplyView::Added(
                match r {
                    Ok(id) => Ok(id),
                    Err(e) => Err(e@),
                },
            ),
            Reply::Resumed(r) => ReplyView::Resumed(
                match r {
                    Ok(x) => Ok((x.labels@, x.last_ts)),
                    Err(e) => Err(e@),
                },
            ),
            Reply::Evicted(r) => ReplyView::Evicted(
                match r {
                    Ok(x) => Ok(x),
                    Err(e) => Err(e@),
                },
            ),
            Reply::Done => ReplyView::Done,
            Reply::Failed(e) => ReplyView::Failed(e@),
            Reply::Stopped(clean) => ReplyView::Stopped(clean),
        }
    }
}

// ------------------------------------------------------------ the writer

/// What the writer keeps between requests, as mathematics.
pub struct WriterView {
    /// The archive.
    pub db: DbView,
    /// The next segment number, by source and stream.
    pub next_seq: Numbers,
    /// The newest row that a resumed source's previous session left.
    pub floors: Map<i64, i64>,
    /// Every stream's newest sealed row.
    pub watermarks: Marks,
    /// How many sources were opened.
    pub added: u64,
    /// How many closed cleanly.
    pub finalized: u64,
    /// How the writer is doing.
    pub health: HealthView,
}

/// What retention does to an archive, and says.
pub open spec fn evicted_from(d: DbView, source: i64, cutoff: i64) -> (
    DbView,
    Result<Evicted, ErrorView>,
) {
    if !d.writable() {
        (d, Err(d.write_refusal()))
    } else {
        let n = d.evicted(source, cutoff);
        (
            n,
            Ok(
                Evicted {
                    segments: (d.segments.len() - n.segments.len()) as usize,
                    wal_rows: (d.wal.len() - n.wal.len()) as usize,
                    live_rows: d.live_before(source, None, cutoff).len() as usize,
                },
            ),
        )
    }
}

/// The archive once freed pages have been handed back where that was worth it:
/// a failure to is a later pass's.
pub open spec fn after_reclaim(d: DbView) -> DbView {
    match reclaim::reclaimed(d) {
        Ok(n) => n,
        Err(_) => d,
    }
}

/// Finalizing a source: its last clock observation, and the source complete, in
/// one transaction.
pub open spec fn source_finalized(d: DbView, source: i64, offset: (i64, i64)) -> Result<
    DbView,
    ErrorView,
> {
    if !d.writable() {
        Err(d.write_refusal())
    } else {
        match d.clock_inserted(ClockAt { source_id: source, ts: offset.0, offset_ns: offset.1 }) {
            Err(e) => Err(e),
            Ok(n) => Ok(n.with_complete(source, true)),
        }
    }
}

/// What a seal comes to: the batch and the archive with it, or the refusal.
pub open spec fn batch_sealed<E: SegmentEncoder>(
    w: WriterView,
    source: i64,
    batch: Seq<Seq<char>>,
    encoder: E,
) -> Result<(seal::Batch, DbView), ErrorView> {
    match seal::batch_encoded(w.db, source, w.next_seq, batch, encoder) {
        Err(e) => Err(e),
        Ok(b) => match store::transacted(w.db, seal::batch_run(w.db, source, b)) {
            Err(e) => Err(e),
            Ok(d) => Ok((b, seal::batch_pruned(d, source, b.encoded))),
        },
    }
}

/// Handling one request: what the writer keeps then, and what it answers.
///
/// A source that cannot be started, resumed or evicted is its caller's to hear
/// of, and a metadata update that cannot be applied is dropped: the writer goes
/// on. A seal that fails on what can clear is deferred, its rows staying live.
/// A tick, a seal or a finalize that fails otherwise stops the writer.
pub open spec fn handled<E: SegmentEncoder>(w: WriterView, q: RequestView, encoder: E) -> (
    WriterView,
    ReplyView,
) {
    match q {
        RequestView::AddSource { seed, session } => {
            let (db, r) = session::source_added(w.db, seed, session, encoder.reported());
            (
                WriterView {
                    db,
                    added: if r is Ok {
                        tick::bumped(w.added)
                    } else {
                        w.added
                    },
                    ..w
                },
                ReplyView::Added(r),
            )
        },
        RequestView::ResumeSource { source_id, clock_anchor_wall_ns, session } => {
            let (db, refusal) = session::source_resumed(
                w.db,
                source_id,
                clock_anchor_wall_ns,
                session,
                encoder.reported(),
            );
            match refusal {
                Some(e) => (WriterView { db, ..w }, ReplyView::Resumed(Err(e))),
                None => {
                    let last = w.db.time_span(source_id).1;
                    (
                        WriterView {
                            db,
                            floors: match last {
                                Some(floor) => w.floors.insert(source_id, floor),
                                None => w.floors,
                            },
                            added: tick::bumped(w.added),
                            ..w
                        },
                        ReplyView::Resumed(Ok((w.db.source(source_id)->0.meta.labels, last))),
                    )
                },
            }
        },
        RequestView::Wal { ticks } => {
            let (db, health, refusal) = tick::tick_committed(
                w.db,
                tick::planned(w.health, ticks, w.floors, w.watermarks),
                tick::kept_ticks(ticks, w.floors, w.watermarks),
            );
            (
                WriterView { db, health, ..w },
                match refusal {
                    None => ReplyView::Done,
                    Some(e) => ReplyView::Failed(e),
                },
            )
        },
        RequestView::Seal { source_id, batch } => match batch_sealed(
            w,
            source_id,
            batch,
            encoder,
        ) {
            Err(e) => (
                w,
                if error::retryable(e) {
                    ReplyView::Done
                } else {
                    ReplyView::Failed(e)
                },
            ),
            Ok((b, db)) => (
                WriterView {
                    db,
                    next_seq: seal::numbers_after(w.next_seq, source_id, b.encoded),
                    watermarks: seal::marks_after(w.watermarks, source_id, b.encoded),
                    ..w
                },
                ReplyView::Done,
            ),
        },
        RequestView::Evict { source_id, cutoff_ts } => {
            let (db, r) = evicted_from(w.db, source_id, cutoff_ts);
            (
                WriterView {
                    db: if r is Ok {
                        after_reclaim(db)
                    } else {
                        db
                    },
                    ..w
                },
                ReplyView::Evicted(r),
            )
        },
        RequestView::UpdateMetadata { source_id, patch } => (
            WriterView {
                db: match store::written(
                    w.db,
                    store::changes::metadata_patched(w.db, source_id, patch),
                ) {
                    Ok(n) => n,
                    Err(_) => w.db,
                },
                ..w
            },
            ReplyView::Done,
        ),
        RequestView::Finalize { source_id, clock_offset } => match source_finalized(
            w.db,
            source_id,
            clock_offset,
        ) {
            Err(e) => (w, ReplyView::Failed(e)),
            Ok(db) => (
                WriterView { db, finalized: tick::bumped(w.finalized), ..w },
                ReplyView::Done,
            ),
        },
        RequestView::Sync => (w, ReplyView::Done),
        RequestView::Shutdown => (w, ReplyView::Stopped(w.added > 0 && w.finalized == w.added)),
    }
}

/// The next number of a stream of an archive.
pub open spec fn seeded_number(d: DbView, source: i64, stream: Seq<char>) -> u64 {
    match store::next_seq_of(d.segments_of(source, stream)) {
        Some(n) => n,
        None => u64::MAX,
    }
}

/// The next numbers and the watermarks of a source's streams, over others'.
pub open spec fn source_seeded(
    d: DbView,
    source: i64,
    streams: Seq<Seq<char>>,
    seen: (Numbers, Marks),
) -> (Numbers, Marks)
    decreases streams.len(),
{
    if streams.len() == 0 {
        seen
    } else {
        let (next, marks) = source_seeded(d, source, streams.drop_last(), seen);
        let key = (source, streams.last());
        (
            next.insert(key, seeded_number(d, source, streams.last())),
            match d.watermark(source, streams.last()) {
                Some(w) => marks.insert(key, w),
                None => marks,
            },
        )
    }
}

/// The next numbers and the watermarks that the first `n` sources' segments
/// give.
pub open spec fn seeded(d: DbView, n: nat) -> (Numbers, Marks)
    decreases n,
{
    if n == 0 {
        (Map::empty(), Map::empty())
    } else {
        let source = d.sources[n - 1].id;
        source_seeded(d, source, d.sealed_streams(source), seeded(d, (n - 1) as nat))
    }
}

/// The answer to a request whose failure stops the writer.
pub fn answer(outcome: Result<(), Error>) -> (r: Reply)
    ensures
        r@ == match outcome {
            Ok(_) => ReplyView::Done,
            Err(e) => ReplyView::Failed(e@),
        },
{
    match outcome {
        Ok(_) => Reply::Done,
        Err(e) => Reply::Failed(e),
    }
}

/// The answer to a seal: one that failed on what can clear is deferred, and any
/// other failure stops the writer.
pub fn answer_seal(outcome: Result<(), Error>) -> (r: Reply)
    ensures
        r@ == match outcome {
            Ok(_) => ReplyView::Done,
            Err(e) => if error::retryable(e@) {
                ReplyView::Done
            } else {
                ReplyView::Failed(e@)
            },
        },
{
    match outcome {
        Ok(_) => Reply::Done,
        Err(e) => {
            if e.is_retryable() {
                Reply::Done
            } else {
                Reply::Failed(e)
            }
        },
    }
}

/// Whether a writer stops cleanly: every source it was given is finalized, and it
/// was given one.
pub fn stops_cleanly(added: u64, finalized: u64) -> (r: bool)
    ensures
        r == (added > 0 && finalized == added),
{
    added > 0 && finalized == added
}

/// The writer of an archive: it handles one request at a time, in order, and
/// everything that changes the archive goes through it.
pub struct Writer<E: SegmentEncoder> {
    db: Db,
    encoder: E,
    next_seq: Slots<(i64, String), u64>,
    floors: Slots<i64, i64>,
    watermarks: Slots<(i64, String), i64>,
    added: u64,
    finalized: u64,
    health: WriterHealth,
}

impl<E: SegmentEncoder> View for Writer<E> {
    type V = WriterView;

    closed spec fn view(&self) -> WriterView {
        WriterView {
            db: self.db@,
            next_seq: self.next_seq@,
            floors: self.floors@,
            watermarks: self.watermarks@,
            added: self.added,
            finalized: self.finalized,
            health: self.health@,
        }
    }
}

/// One more, as far as it goes.
pub fn bump(n: u64) -> (r: u64)
    ensures
        r == tick::bumped(n),
{
    if n < u64::MAX {
        n + 1
    } else {
        n
    }
}

pub(crate) fn seed_source(
    db: &Db,
    source_id: i64,
    next_seq: &mut Slots<(i64, String), u64>,
    watermarks: &mut Slots<(i64, String), i64>,
)
    ensures
        (final(next_seq)@, final(watermarks)@) == source_seeded(
            db@,
            source_id,
            db@.sealed_streams(source_id),
            (old(next_seq)@, old(watermarks)@),
        ),
{
    let ghost seen = (next_seq@, watermarks@);
    let names = db.streams(source_id);
    let ghost all = seqs::views(names@);
    let mut i: usize = 0;
    while i < names.len()
        invariant
            i <= names@.len(),
            all == seqs::views(names@),
            (next_seq@, watermarks@) == source_seeded(db@, source_id, all.take(i as int), seen),
        decreases names@.len() - i,
    {
        proof {
            assert(all.take(i + 1).drop_last() =~= all.take(i as int));
            assert(all.take(i + 1).last() == names@[i as int]@);
        }
        let n: u64 = match db.next_seq(source_id, names[i].as_str()) {
            Some(n) => n,
            None => u64::MAX,
        };
        let numbered = (source_id, names[i].clone());
        assert(numbered@ == (source_id, names@[i as int]@));
        next_seq.set(numbered, n);
        match db.sealed_watermark(source_id, names[i].as_str()) {
            Some(w) => {
                let marked = (source_id, names[i].clone());
                assert(marked@ == (source_id, names@[i as int]@));
                watermarks.set(marked, w);
            },
            None => {},
        }
        i += 1;
    }
    proof {
        assert(all.take(i as int) =~= all);
    }
}

/// Finalize a source.
pub(crate) fn finalize_source(db: &mut Db, source_id: i64, clock_offset: (i64, i64)) -> (r: Result<(), Error>)
    ensures
        store::changed(
            r,
            old(db)@,
            final(db)@,
            source_finalized(old(db)@, source_id, clock_offset),
        ),
{
    let mut tx = match db.begin() {
        Err(e) => {
            return Err(e);
        },
        Ok(t) => t,
    };
    match tx.insert_clock_offset(source_id, clock_offset.0, clock_offset.1) {
        Err(e) => {
            return Err(e);
        },
        Ok(_) => {},
    }
    match tx.mark_complete(source_id) {
        Err(e) => Err(e),
        Ok(_) => {
            db.commit(tx);
            Ok(())
        },
    }
}

impl<E: SegmentEncoder> Writer<E> {
    /// A writer over an archive. Segment numbering and the watermarks continue
    /// from what the archive holds, so that a reopened stream's numbers do not
    /// collide with its own past.
    pub fn open(db: Db, encoder: E) -> (r: Writer<E>)
        ensures
            r@ == (WriterView {
                db: db@,
                next_seq: seeded(db@, db@.sources.len()).0,
                floors: Map::empty(),
                watermarks: seeded(db@, db@.sources.len()).1,
                added: 0,
                finalized: 0,
                health: HealthView {
                    dropped: 0,
                    shadowed: Map::empty(),
                    warned_collisions: Map::empty(),
                    warned_floors: Map::empty(),
                    warned_shadowed: Map::empty(),
                    notes: Seq::empty(),
                },
            }),
            r.encoder() == encoder,
    {
        let sources = db.read_sources();
        let ghost all = seqs::views(sources@);
        let mut next_seq: Slots<(i64, String), u64> = Slots::new();
        let mut watermarks: Slots<(i64, String), i64> = Slots::new();
        let mut i: usize = 0;
        while i < sources.len()
            invariant
                i <= sources@.len(),
                all == seqs::views(sources@),
                all == db@.sources,
                (next_seq@, watermarks@) == seeded(db@, i as nat),
            decreases sources@.len() - i,
        {
            assert(all[i as int] == sources@[i as int]@);
            seed_source(&db, sources[i].id, &mut next_seq, &mut watermarks);
            i += 1;
        }
        Writer {
            db,
            encoder,
            next_seq,
            floors: Slots::new(),
            watermarks,
            added: 0,
            finalized: 0,
            health: WriterHealth::new(),
        }
    }

    /// The encoder that the writer seals with.
    pub closed spec fn encoder(self) -> E {
        self.encoder
    }

    /// The archive as it stands.
    pub fn archive(&self) -> (r: &Db)
        ensures
            r@ == self@.db,
    {
        &self.db
    }

    /// How many of a source's rows were dropped for arriving at or below their
    /// stream's newest sealed row.
    pub fn dropped_out_of_order(&self, source_id: i64) -> (r: u64)
        ensures
            r == tick::count_of(self@.health.shadowed, source_id),
    {
        self.health.dropped_out_of_order(source_id)
    }

    /// Take what the writer has to warn of. Whatever it happened to is not noted
    /// again.
    pub fn take_notes(&mut self) -> (r: Vec<Note>)
        ensures
            seqs::views(r@) == old(self)@.health.notes,
            final(self)@ == (WriterView {
                health: HealthView { notes: Seq::empty(), ..old(self)@.health },
                ..old(self)@
            }),
            final(self).encoder() == old(self).encoder(),
    {
        self.health.take_notes()
    }

    /// Handle one request.
    pub fn handle(&mut self, request: Request) -> (r: Reply)
        ensures
            (final(self)@, r@) == handled(old(self)@, request@, old(self).encoder()),
            final(self).encoder() == old(self).encoder(),
    {
        match request {
            Request::AddSource { seed, session } => {
                let added = add_source(&mut self.db, &seed, session.as_str(), &self.encoder);
                if added.is_ok() {
                    self.added = bump(self.added);
                }
                Reply::Added(added)
            },
            Request::ResumeSource { source_id, clock_anchor_wall_ns, session } => {
                match resume_source(
                    &mut self.db,
                    source_id,
                    clock_anchor_wall_ns,
                    session.as_str(),
                    &self.encoder,
                ) {
                    Err(e) => Reply::Resumed(Err(e)),
                    Ok(resumed) => {
                        match resumed.last_ts {
                            Some(floor) => {
                                self.floors.set(source_id, floor);
                            },
                            None => {},
                        }
                        self.added = bump(self.added);
                        Reply::Resumed(Ok(resumed))
                    },
                }
            },
            Request::Wal { ticks } => {
                answer(
                    commit_tick(
                        &mut self.db,
                        &ticks,
                        &self.floors,
                        &self.watermarks,
                        &mut self.health,
                    ),
                )
            },
            Request::Seal { source_id, batch } => {
                answer_seal(
                    seal_batch(
                        &mut self.db,
                        source_id,
                        &mut self.next_seq,
                        &mut self.watermarks,
                        &batch,
                        &self.encoder,
                    ),
                )
            },
            Request::Evict { source_id, cutoff_ts } => {
                let evicted = self.db.evict_before(source_id, cutoff_ts);
                if evicted.is_ok() {
                    let _reclaimed = reclaim_if_fragmented(&mut self.db);
                }
                Reply::Evicted(evicted)
            },
            Request::UpdateMetadata { source_id, patch } => {
                let _updated = self.db.patch_source_metadata(source_id, &patch);
                Reply::Done
            },
            Request::Finalize { source_id, clock_offset } => {
                let finished = finalize_source(&mut self.db, source_id, clock_offset);
                if finished.is_ok() {
                    self.finalized = bump(self.finalized);
                }
                answer(finished)
            },
            Request::Sync => Reply::Done,
            Request::Shutdown => Reply::Stopped(stops_cleanly(self.added, self.finalized)),
        }
    }

    /// Retention restricted to the streams `evict` accepts: it selects what is
    /// removed. Freed pages are handed back if the free list has grown.
    pub fn evict_streams_before<F: Fn(&str) -> bool>(
        &mut self,
        source_id: i64,
        cutoff_ts: i64,
        evict: F,
    ) -> (r: Result<Evicted, Error>)
        requires
            forall|s: &str| evict.requires((s,)),
        ensures
            final(self).encoder() == old(self).encoder(),
            final(self)@ == (WriterView { db: final(self)@.db, ..old(self)@ }),
            !old(self)@.db.writable() ==> final(self)@.db == old(self)@.db && (r matches Err(e)
                && e@ == old(self)@.db.write_refusal()),
            old(self)@.db.writable() ==> exists|marks: Seq<bool>, d: DbView|
                {
                    &&& #[trigger] store::changes::answered(
                        evict,
                        old(self)@.db.evictable_streams(source_id),
                        marks,
                    )
                    &&& #[trigger] store::changes::streams_gone(
                        old(self)@.db,
                        d,
                        source_id,
                        store::changes::picked(old(self)@.db.evictable_streams(source_id), marks),
                        cutoff_ts,
                        r,
                    )
                    &&& final(self)@.db == after_reclaim(d)
                },
    {
        let evicted = self.db.evict_streams_before(source_id, cutoff_ts, evict);
        let ghost d = self.db@;
        if evicted.is_ok() {
            let _reclaimed = reclaim_if_fragmented(&mut self.db);
        }
        evicted
    }

    /// Drain the free list after a clean stop: in passes, until it is empty or
    /// `spent` says after a pass that the time for it is.
    pub fn drain<F: Fn() -> bool>(&mut self, spent: F) -> (r: Result<(), Error>)
        requires
            spent.requires(()),
        ensures
            final(self).encoder() == old(self).encoder(),
            final(self)@ == (WriterView { db: final(self)@.db, ..old(self)@ }),
            old(self)@.db.pages.free > 0 && !old(self)@.db.writable() ==> {
                &&& r matches Err(e) && e@ == old(self)@.db.write_refusal()
                &&& final(self)@.db == old(self)@.db
            },
            old(self)@.db.pages.free == 0 || old(self)@.db.writable() ==> {
                &&& r is Ok
                &&& exists|n: nat|
                    {
                        &&& final(self)@.db == #[trigger] reclaim::passes(old(self)@.db, n)
                        &&& final(self)@.db.pages.free == 0 || (n > 0 && spent.ensures((), true))
                    }
            },
    {
        reclaim::reclaim_all(&mut self.db, spent)
    }
}

} // verus!
