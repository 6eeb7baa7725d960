//! A subscriber with the archive it writes: frames go in, and the archive holds
//! what the publisher's does.

use vstd::prelude::*;
use vstd::string::*;

use super::frame::{Frame, FrameView, IndexKind};
use super::subscriber;
use super::subscriber::{Applied, States, Step, StepView, Subscriber};
use crate::db::model;
use crate::db::model::DbView;
use crate::db::records::{CallerAtView, ClockAt, SegmentAtView};
use crate::db::store;
use crate::db::{CallerRow, Db, SegmentMeta, SegmentView, SourceMeta, WalRow, WalView};
use crate::error;
use crate::error::{Error, ErrorView};
use crate::segment::SegmentEncoder;
use crate::seqs;
use crate::slots::Slots;
use crate::text;
use crate::text::append_number;
use crate::writer::run;
use crate::writer::run::{finalize_source, seed_source};
use crate::writer::seal;
use crate::writer::seal::seal_batch;

verus! {

broadcast use crate::seqs::group_views;

/// What a caller keeps about a stream as a whole, as a frame brought it.
#[derive(Debug)]
pub struct Summary {
    /// The source.
    pub source_id: i64,
    /// The stream.
    pub stream: String,
    /// The timestamp it holds up to.
    pub as_of_ts: i64,
    /// The summary itself.
    pub blob: Vec<u8>,
}

/// A summary, as mathematics.
pub struct SummaryView {
    pub source_id: i64,
    pub stream: Seq<char>,
    pub as_of_ts: i64,
    pub blob: Seq<u8>,
}

impl View for Summary {
    type V = SummaryView;

    open spec fn view(&self) -> SummaryView {
        SummaryView {
            source_id: self.source_id,
            stream: self.stream@,
            as_of_ts: self.as_of_ts,
            blob: self.blob@,
        }
    }
}

/// A replica, as mathematics.
pub struct ReplicaView {
    /// What is remembered of the connection's sources.
    pub states: States,
    /// The archive.
    pub db: DbView,
    /// The identity that this end was given for the connection.
    pub identity: Seq<char>,
    /// The summaries that have come, oldest first.
    pub summaries: Seq<SummaryView>,
}

// ------------------------------------------------------------ what steps do

/// The rows that a reader will see: those past the newest sealed row of their
/// stream.
pub open spec fn seen(d: DbView, source: i64, rows: Seq<WalView>) -> Seq<WalView> {
    rows.filter(|r: WalView| model::past(d.watermark(source, r.stream), r.ts))
}

/// Writing rows: those that a reader will see, all of them or, where one is
/// there already, none.
pub open spec fn rows_written(d: DbView, source: i64, rows: Seq<WalView>) -> DbView {
    match d.wal_run(source, seen(d, source, rows)) {
        (n, None) => n,
        _ => d,
    }
}

/// Adopting a segment: it becomes its stream's next, unless what the stream has
/// sealed covers it already.
pub open spec fn segment_adopted(
    d: DbView,
    source: i64,
    stream: Seq<char>,
    meta: SegmentMeta,
    bytes: Seq<u8>,
    caller_index: Option<Seq<u8>>,
) -> Result<(DbView, bool), ErrorView> {
    if !model::past(d.watermark(source, stream), meta.last_ts) {
        Ok((d, false))
    } else {
        match d.segment_inserted(
            SegmentAtView {
                source_id: source,
                stream,
                row: SegmentView {
                    seq: run::seeded_number(d, source, stream),
                    meta,
                    bytes,
                    caller_index,
                },
            },
        ) {
            Ok(n) => Ok((n, true)),
            Err(e) => Err(e),
        }
    }
}

/// What one segment offered comes to.
pub open spec fn offered(inserted: bool) -> Applied {
    if inserted {
        Applied { segments: 1, ..subscriber::nothing() }
    } else {
        Applied { segments_held: 1, ..subscriber::nothing() }
    }
}

/// The identity of a source that a handshake brings: its own, or where it has
/// none one that is minted here, of this end's and the source's ordinal.
pub open spec fn identity_of(uuid: Option<Seq<char>>, identity: Seq<char>, ordinal: u32) -> Seq<
    char,
> {
    match uuid {
        Some(u) => u,
        None => identity + "-"@ + text::decimal(ordinal as nat),
    }
}

/// The identity of a source that a handshake brings.
pub fn source_identity(uuid: Option<String>, identity: &str, ordinal: u32) -> (r: String)
    ensures
        r@ == identity_of(seqs::opt_view(uuid), identity@, ordinal),
{
    match uuid {
        Some(u) => u,
        None => {
            let mut s = String::from_str(identity);
            s.append("-");
            append_number(&mut s, ordinal as u64);
            s
        },
    }
}

/// Carrying out what a frame leads to.
pub open spec fn carried(v: ReplicaView, step: StepView) -> (ReplicaView, Result<Applied, ErrorView>) {
    match step {
        StepView::Open { ordinal, seed, uuid, complete } => match store::changes::source_started(
            v.db,
            seed,
            Some(identity_of(uuid, v.identity, ordinal)),
        ) {
            Err(e) => (v, Err(e)),
            Ok((id, db)) => (
                ReplicaView {
                    states: subscriber::with_state(
                        v.states,
                        ordinal,
                        subscriber::opened_state(id, complete),
                    ),
                    db,
                    ..v
                },
                Ok(Applied { sources: 1, ..subscriber::nothing() }),
            ),
        },
        StepView::Keep { ordinal, source_id, stream, row, kind, state } => {
            match v.db.caller_inserted(CallerAtView { source_id, stream, row }) {
                Err(e) => (v, Err(e)),
                Ok(db) => (
                    ReplicaView {
                        states: subscriber::after_entry(v.states, ordinal, kind, state),
                        db,
                        ..v
                    },
                    Ok(Applied { index_entries: 1, ..subscriber::nothing() }),
                ),
            }
        },
        StepView::Write { source_id, rows, applied } => (
            ReplicaView { db: rows_written(v.db, source_id, rows), ..v },
            Ok(applied),
        ),
        StepView::Adopt { source_id, stream, meta, bytes, caller_index } => match segment_adopted(
            v.db,
            source_id,
            stream,
            meta,
            bytes,
            caller_index,
        ) {
            Err(e) => (v, Err(e)),
            Ok((db, inserted)) => (ReplicaView { db, ..v }, Ok(offered(inserted))),
        },
        StepView::Observe { ordinal, source_id, ts, offset_ns } => match v.db.clock_inserted(
            ClockAt { source_id, ts, offset_ns },
        ) {
            Err(e) => (v, Err(e)),
            Ok(db) => (
                ReplicaView {
                    states: subscriber::after_offset(v.states, ordinal, ts, offset_ns),
                    db,
                    ..v
                },
                Ok(Applied { clock_offsets: 1, ..subscriber::nothing() }),
            ),
        },
        StepView::Summarize { source_id, stream, as_of_ts, blob, applied } => (
            ReplicaView {
                summaries: v.summaries.push(SummaryView { source_id, stream, as_of_ts, blob }),
                ..v
            },
            Ok(applied),
        ),
        StepView::Nothing(applied) => (v, Ok(applied)),
    }
}

/// Applying a frame. An archive that cannot be written takes none.
pub open spec fn applied(v: ReplicaView, f: FrameView) -> (ReplicaView, Result<Applied, ErrorView>) {
    if !v.db.writable() {
        (v, Err(v.db.write_refusal()))
    } else {
        let (states, r) = subscriber::planned(v.states, f);
        let now = ReplicaView { states, ..v };
        match r {
            Err(e) => (now, Err(e)),
            Ok(step) => carried(now, step),
        }
    }
}

/// Applying frames, until one fails.
pub open spec fn all_applied(v: ReplicaView, frames: Seq<FrameView>) -> (
    ReplicaView,
    Result<Applied, ErrorView>,
)
    decreases frames.len(),
{
    if frames.len() == 0 {
        (v, Ok(subscriber::nothing()))
    } else {
        let (was, r) = all_applied(v, frames.drop_last());
        match r {
            Err(_) => (was, r),
            Ok(total) => {
                let (now, one) = applied(was, frames.last());
                (
                    now,
                    match one {
                        Ok(a) => Ok(subscriber::both(total, a)),
                        Err(e) => Err(e),
                    },
                )
            },
        }
    }
}

/// Sealing streams of the source of an ordinal. A seal that fails on what can
/// clear is deferred, its rows staying live.
pub open spec fn streams_sealed<E: SegmentEncoder>(
    v: ReplicaView,
    ordinal: u32,
    streams: Seq<Seq<char>>,
    encoder: E,
) -> (ReplicaView, Option<ErrorView>) {
    match subscriber::state_of(v.states, ordinal) {
        None => (v, Some(ErrorView::Message(subscriber::unknown_text(ordinal)))),
        Some(st) => if streams.len() == 0 {
            (v, None)
        } else {
            match source_sealed(v.db, st.source_id, streams, encoder) {
                Err(e) => (
                    v,
                    if error::retryable(e) {
                        None
                    } else {
                        Some(e)
                    },
                ),
                Ok(db) => (ReplicaView { db, ..v }, None),
            }
        },
    }
}

/// Sealing streams of a source: the segments continue its numbers, they and the
/// clock observation of the newest sealed row land together, and what they hold
/// leaves the WAL.
pub open spec fn source_sealed<E: SegmentEncoder>(
    d: DbView,
    source: i64,
    streams: Seq<Seq<char>>,
    encoder: E,
) -> Result<DbView, ErrorView> {
    let next = run::source_seeded(
        d,
        source,
        d.sealed_streams(source),
        (Map::empty(), Map::empty()),
    ).0;
    match seal::batch_encoded(d, source, next, streams, encoder) {
        Err(e) => Err(e),
        Ok(b) => match store::transacted(d, seal::batch_run(d, source, b)) {
            Err(e) => Err(e),
            Ok(n) => Ok(seal::batch_pruned(n, source, b.encoded)),
        },
    }
}

/// Finalizing sources, until one cannot be.
pub open spec fn finished(d: DbView, sources: Seq<(i64, (i64, i64))>) -> (DbView, Option<ErrorView>)
    decreases sources.len(),
{
    if sources.len() == 0 {
        (d, None)
    } else {
        let (was, e) = finished(d, sources.drop_last());
        match e {
            Some(_) => (was, e),
            None => match run::source_finalized(was, sources.last().0, sources.last().1) {
                Ok(n) => (n, None),
                Err(x) => (was, Some(x)),
            },
        }
    }
}

proof fn lemma_all_stop(v: ReplicaView, frames: Seq<FrameView>, n: int)
    requires
        0 <= n <= frames.len(),
        all_applied(v, frames.take(n)).1 is Err,
    ensures
        all_applied(v, frames) == all_applied(v, frames.take(n)),
    decreases frames.len() - n,
{
    if n == frames.len() {
        assert(frames.take(n) =~= frames);
    } else {
        assert(frames.take(n + 1).drop_last() =~= frames.take(n));
        lemma_all_stop(v, frames, n + 1);
    }
}

proof fn lemma_finished_stop(d: DbView, sources: Seq<(i64, (i64, i64))>, n: int)
    requires
        0 <= n <= sources.len(),
        finished(d, sources.take(n)).1 is Some,
    ensures
        finished(d, sources) == finished(d, sources.take(n)),
    decreases sources.len() - n,
{
    if n == sources.len() {
        assert(sources.take(n) =~= sources);
    } else {
        assert(sources.take(n + 1).drop_last() =~= sources.take(n));
        lemma_finished_stop(d, sources, n + 1);
    }
}

/// An archive that follows a publisher's.
///
/// It does not seal: rows land in the WAL, where they are readable at once. An
/// archive that is never sealed is still correct, only slower to read.
pub struct Replica {
    subscriber: Subscriber,
    db: Db,
    identity: String,
    summaries: Vec<Summary>,
}

impl View for Replica {
    type V = ReplicaView;

    closed spec fn view(&self) -> ReplicaView {
        ReplicaView {
            states: self.subscriber@,
            db: self.db@,
            identity: self.identity@,
            summaries: seqs::views(self.summaries@),
        }
    }
}

/// The number under which a stream adopts a segment that ends at a timestamp, or
/// nothing where what it has sealed covers that.
pub fn adoption(db: &Db, source_id: i64, stream: &str, last_ts: i64) -> (r: Option<u64>)
    ensures
        r == if model::past(db@.watermark(source_id, stream@), last_ts) {
            Some(run::seeded_number(db@, source_id, stream@))
        } else {
            None
        },
{
    let fresh: bool = match db.sealed_watermark(source_id, stream) {
        Some(w) => last_ts > w,
        None => true,
    };
    if !fresh {
        return None;
    }
    match db.next_seq(source_id, stream) {
        Some(n) => Some(n),
        None => Some(u64::MAX),
    }
}

/// The rows that a reader will see, of those that came.
pub fn seen_rows(db: &Db, source_id: i64, rows: &Vec<WalRow>) -> (r: Vec<WalRow>)
    ensures
        seqs::views(r@) == seen(db@, source_id, seqs::views(rows@)),
{
    let ghost all = seqs::views(rows@);
    let ghost keep = |r: WalView| model::past(db@.watermark(source_id, r.stream), r.ts);
    let mut out: Vec<WalRow> = Vec::new();
    let mut i: usize = 0;
    proof {
        seqs::lemma_views_empty::<WalRow>();
        seqs::lemma_filter_full(all, keep);
    }
    while i < rows.len()
        invariant
            i <= rows@.len(),
            all == seqs::views(rows@),
            keep == |r: WalView| model::past(db@.watermark(source_id, r.stream), r.ts),
            seqs::views(out@) == all.take(i as int).filter(keep),
        decreases rows@.len() - i,
    {
        proof {
            seqs::lemma_filter_take(all, i as int, keep);
            assert(all[i as int] == rows@[i as int]@);
        }
        let timely: bool = match db.sealed_watermark(source_id, rows[i].stream.as_str()) {
            Some(w) => rows[i].ts > w,
            None => true,
        };
        if timely {
            out.push(rows[i].clone());
        }
        i += 1;
    }
    out
}

impl Replica {
    /// Subscribe into an archive. It may be empty or may already hold sources;
    /// frames open their own, so an existing one is left alone.
    ///
    /// `identity` is minted afresh by the caller: a source whose handshake
    /// brings no identity of its own gets one of it and its ordinal.
    pub fn new(db: Db, identity: String) -> (r: Replica)
        ensures
            r@ == (ReplicaView {
                states: Seq::empty(),
                db: db@,
                identity: identity@,
                summaries: Seq::empty(),
            }),
    {
        proof {
            seqs::lemma_views_empty::<Summary>();
        }
        Replica { subscriber: Subscriber::new(), db, identity, summaries: Vec::new() }
    }

    /// The archive being written.
    pub fn archive(&self) -> (r: &Db)
        ensures
            r@ == self@.db,
    {
        &self.db
    }

    /// The summaries that have come, oldest first.
    pub fn summaries(&self) -> (r: &Vec<Summary>)
        ensures
            seqs::views(r@) == self@.summaries,
    {
        &self.summaries
    }

    /// The row of an ordinal's source.
    pub fn source_id(&self, ordinal: u32) -> (r: Result<i64, Error>)
        ensures
            match subscriber::state_of(self@.states, ordinal) {
                Some(st) => r == Ok::<i64, Error>(st.source_id),
                None => r matches Err(e) && e@ == ErrorView::Message(
                    subscriber::unknown_text(ordinal),
                ),
            },
    {
        self.subscriber.source_id(ordinal)
    }

    fn open(&mut self, ordinal: u32, seed: &SourceMeta, uuid: Option<String>, complete: bool) -> (r:
        Result<Applied, Error>)
        requires
            old(self)@.db.writable(),
        ensures
            outcome(
                r,
                final(self)@,
                carried(
                    old(self)@,
                    StepView::Open { ordinal, seed: seed@, uuid: seqs::opt_view(uuid), complete },
                ),
            ),
    {
        let mut tx = match self.db.begin() {
            Err(e) => {
                return Err(e);
            },
            Ok(t) => t,
        };
        let named = source_identity(uuid, self.identity.as_str(), ordinal);
        match tx.insert_source_with_uuid(seed, Some(named)) {
            Err(e) => Err(e),
            Ok(id) => {
                self.db.commit(tx);
                Ok(self.subscriber.opened(ordinal, id, complete))
            },
        }
    }

    fn keep(
        &mut self,
        ordinal: u32,
        source_id: i64,
        stream: &str,
        row: &CallerRow,
        kind: IndexKind,
        state: (u64, u64),
    ) -> (r: Result<Applied, Error>)
        requires
            old(self)@.db.writable(),
        ensures
            outcome(
                r,
                final(self)@,
                carried(
                    old(self)@,
                    StepView::Keep { ordinal, source_id, stream: stream@, row: row@, kind, state },
                ),
            ),
    {
        let mut tx = match self.db.begin() {
            Err(e) => {
                return Err(e);
            },
            Ok(t) => t,
        };
        match tx.insert_caller_row(source_id, stream, row) {
            Err(e) => Err(e),
            Ok(_) => {
                self.db.commit(tx);
                Ok(self.subscriber.indexed(ordinal, kind, state))
            },
        }
    }

    fn write(&mut self, source_id: i64, rows: &Vec<WalRow>)
        requires
            old(self)@.db.writable(),
        ensures
            final(self)@ == (ReplicaView {
                db: rows_written(old(self)@.db, source_id, seqs::views(rows@)),
                ..old(self)@
            }),
    {
        let timely = seen_rows(&self.db, source_id, rows);
        let mut tx = match self.db.begin() {
            Err(e) => {
                return;
            },
            Ok(t) => t,
        };
        match tx.insert_wal_rows(source_id, timely.as_slice()) {
            Err(_) => {},
            Ok(_) => {
                self.db.commit(tx);
            },
        }
    }

    fn adopt(
        &mut self,
        source_id: i64,
        stream: &str,
        meta: &SegmentMeta,
        bytes: &Vec<u8>,
        caller_index: &Option<Vec<u8>>,
    ) -> (r: Result<Applied, Error>)
        requires
            old(self)@.db.writable(),
        ensures
            outcome(
                r,
                final(self)@,
                carried(
                    old(self)@,
                    StepView::Adopt {
                        source_id,
                        stream: stream@,
                        meta: *meta,
                        bytes: bytes@,
                        caller_index: seqs::opt_view(*caller_index),
                    },
                ),
            ),
    {
        let seq: u64 = match adoption(&self.db, source_id, stream, meta.last_ts) {
            None => {
                return Ok(self.subscriber.adopted(false));
            },
            Some(n) => n,
        };
        let mut tx = match self.db.begin() {
            Err(e) => {
                return Err(e);
            },
            Ok(t) => t,
        };
        match tx.insert_segment_with_index(
            source_id,
            stream,
            seq,
            meta,
            bytes.as_slice(),
            caller_index,
        ) {
            Err(e) => Err(e),
            Ok(_) => {
                self.db.commit(tx);
                Ok(self.subscriber.adopted(true))
            },
        }
    }

    fn observe(&mut self, ordinal: u32, source_id: i64, ts: i64, offset_ns: i64) -> (r: Result<
        Applied,
        Error,
    >)
        requires
            old(self)@.db.writable(),
        ensures
            outcome(
                r,
                final(self)@,
                carried(old(self)@, StepView::Observe { ordinal, source_id, ts, offset_ns }),
            ),
    {
        let mut tx = match self.db.begin() {
            Err(e) => {
                return Err(e);
            },
            Ok(t) => t,
        };
        match tx.insert_clock_offset(source_id, ts, offset_ns) {
            Err(e) => Err(e),
            Ok(_) => {
                self.db.commit(tx);
                Ok(self.subscriber.observed(ordinal, ts, offset_ns))
            },
        }
    }

    /// Apply one frame.
    pub fn apply(&mut self, frame: Frame) -> (r: Result<Applied, Error>)
        ensures
            outcome(r, final(self)@, applied(old(self)@, frame@)),
    {
        match self.db.writable() {
            Err(e) => {
                return Err(e);
            },
            Ok(_) => {},
        }
        match self.subscriber.apply(frame) {
            Err(e) => Err(e),
            Ok(Step::Open { ordinal, seed, uuid, complete }) => self.open(
                ordinal,
                &seed,
                uuid,
                complete,
            ),
            Ok(Step::Keep { ordinal, source_id, stream, row, kind, state }) => self.keep(
                ordinal,
                source_id,
                stream.as_str(),
                &row,
                kind,
                state,
            ),
            Ok(Step::Write { source_id, rows, applied }) => {
                self.write(source_id, &rows);
                Ok(applied)
            },
            Ok(Step::Adopt { source_id, stream, meta, bytes, caller_index }) => self.adopt(
                source_id,
                stream.as_str(),
                &meta,
                &bytes,
                &caller_index,
            ),
            Ok(Step::Observe { ordinal, source_id, ts, offset_ns }) => self.observe(
                ordinal,
                source_id,
                ts,
                offset_ns,
            ),
            Ok(Step::Summarize { source_id, stream, as_of_ts, blob, applied }) => {
                self.summaries.push(Summary { source_id, stream, as_of_ts, blob });
                Ok(applied)
            },
            Ok(Step::Nothing(applied)) => Ok(applied),
        }
    }

    /// Apply a batch, summing what each frame did. It stops at the first
    /// failure, having applied everything before it: every frame before it is a
    /// committed, readable part of the archive.
    pub fn apply_all(&mut self, frames: Vec<Frame>) -> (r: Result<Applied, Error>)
        ensures
            outcome(r, final(self)@, all_applied(old(self)@, seqs::views(frames@))),
    {
        let ghost all = seqs::views(frames@);
        let ghost v = self@;
        let n: usize = frames.len();
        let mut rest = frames;
        let mut queue: Vec<Frame> = Vec::new();
        while rest.len() > 0
            invariant
                queue@ =~= frames@.skip(rest@.len() as int).reverse(),
                rest@ == frames@.take(rest@.len() as int),
                rest@.len() <= frames@.len(),
                self@ == v,
            decreases rest@.len(),
        {
            let ghost k = rest@.len() as int;
            match rest.pop() {
                Some(f) => {
                    proof {
                        assert(frames@.skip(k - 1).reverse() =~= frames@.skip(k).reverse().push(f));
                    }
                    queue.push(f);
                },
                None => {},
            }
        }
        let mut total = Applied::default();
        let mut i: usize = 0;
        while queue.len() > 0
            invariant
                i + queue@.len() == frames@.len(),
                n == frames@.len(),
                all == seqs::views(frames@),
                v == old(self)@,
                queue@ == frames@.skip(i as int).reverse(),
                all_applied(v, all.take(i as int)) == (self@, Ok::<Applied, ErrorView>(total)),
            decreases queue@.len(),
        {
            proof {
                assert(all.take(i + 1).drop_last() =~= all.take(i as int));
                assert(all.take(i + 1).last() == frames@[i as int]@);
                assert(queue@.last() == frames@[i as int]);
                assert(queue@.drop_last() =~= frames@.skip(i + 1).reverse());
            }
            match queue.pop() {
                None => {},
                Some(frame) => match self.apply(frame) {
                    Err(e) => {
                        proof {
                            lemma_all_stop(v, all, i + 1);
                        }
                        return Err(e);
                    },
                    Ok(one) => {
                        total.count(one);
                    },
                },
            }
            i += 1;
        }
        proof {
            assert(all.take(i as int) =~= all);
        }
        Ok(total)
    }

    /// Seal `streams` of one source, by its handshake ordinal. The replica does
    /// not do this on its own, so a caller that wants segments rather than an
    /// ever-growing WAL tail drives it.
    pub fn seal<E: SegmentEncoder>(
        &mut self,
        ordinal: u32,
        streams: &Vec<String>,
        encoder: &E,
    ) -> (r: Result<(), Error>)
        ensures
            ({
                let (now, refusal) = streams_sealed(
                    old(self)@,
                    ordinal,
                    seqs::views(streams@),
                    *encoder,
                );
                &&& final(self)@ == now
                &&& match refusal {
                    None => r is Ok,
                    Some(e) => r matches Err(x) && x@ == e,
                }
            }),
    {
        let source_id: i64 = match self.subscriber.source_id(ordinal) {
            Err(e) => {
                return Err(e);
            },
            Ok(id) => id,
        };
        if streams.len() == 0 {
            return Ok(());
        }
        let mut next_seq: Slots<(i64, String), u64> = Slots::new();
        let mut watermarks: Slots<(i64, String), i64> = Slots::new();
        seed_source(&self.db, source_id, &mut next_seq, &mut watermarks);
        match seal_batch(
            &mut self.db,
            source_id,
            &mut next_seq,
            &mut watermarks,
            streams,
            encoder,
        ) {
            Ok(_) => Ok(()),
            Err(e) => {
                if e.is_retryable() {
                    Ok(())
                } else {
                    Err(e)
                }
            },
        }
    }

    /// Finish the archive: a source whose publisher's was complete is finalized,
    /// with the newest clock observation that came. One whose was not is left
    /// incomplete, which is the truthful answer for a live tail.
    pub fn finish(self) -> (r: (Db, Result<(), Error>))
        ensures
            store::ran(
                r.1,
                r.0@,
                finished(self@.db, subscriber::finishing(self@.states)),
            ),
    {
        let mut db = self.db;
        let ghost d = db@;
        let sources = self.subscriber.finish();
        let mut i: usize = 0;
        while i < sources.len()
            invariant
                i <= sources@.len(),
                finished(d, sources@.take(i as int)) == (db@, None::<ErrorView>),
                d == self@.db,
                sources@ == subscriber::finishing(self@.states),
            decreases sources@.len() - i,
        {
            proof {
                assert(sources@.take(i + 1).drop_last() =~= sources@.take(i as int));
            }
            match finalize_source(&mut db, sources[i].0, sources[i].1) {
                Err(e) => {
                    proof {
                        lemma_finished_stop(d, sources@, i + 1);
                    }
                    return (db, Err(e));
                },
                Ok(_) => {},
            }
            i += 1;
        }
        proof {
            assert(sources@.take(i as int) =~= sources@);
        }
        (db, Ok(()))
    }
}

/// Whether an outcome is this replica and this count.
pub open spec fn outcome(
    r: Result<Applied, Error>,
    now: ReplicaView,
    expected: (ReplicaView, Result<Applied, ErrorView>),
) -> bool {
    &&& now == expected.0
    &&& match expected.1 {
        Ok(a) => r == Ok::<Applied, Error>(a),
        Err(e) => r matches Err(x) && x@ == e,
    }
}

} // verus!
