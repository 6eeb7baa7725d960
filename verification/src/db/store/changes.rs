//! Changes to an archive.

use vstd::prelude::*;
use vstd::slice::slice_to_vec;
use vstd::string::*;

use super::super::model;
use super::super::model::DbView;
use super::super::records::{CallerAt, CallerAtView, ClockAt, SegmentAt, SegmentAtView, WalAt, WalAtView};
use super::super::rows::{CallerRow, Evicted, SegmentMeta, SegmentRow, SourceMeta, SourceRow, SourceView, WalRow, WalView};
use super::super::table;
use super::super::table::Keyed;
use super::{key_taken, no_source, no_such_source, Db, Tx};
use crate::error::{Error, ErrorView};
use crate::names;
use crate::names::add_name;
use crate::seqs;
use crate::seqs::copy_opt_bytes;
use crate::text::{append_number, same_text};
use crate::text_map;
use crate::text_map::TextMap;

verus! {

broadcast use crate::seqs::group_views;

/// The refusal of a source where every id is taken.
pub open spec fn ids_exhausted() -> ErrorView {
    ErrorView::Sqlite {
        context: "failed to insert source"@,
        result_code: Some(13i32),
        message: "database or disk is full"@,
    }
}

/// Starting a source: the id it gets, and the archive with it.
pub open spec fn source_started(
    d: DbView,
    meta: super::super::rows::SourceMetaView,
    uuid: Option<Seq<char>>,
) -> Result<(i64, DbView), ErrorView> {
    let id = model::next_id(d.sources);
    if id > i64::MAX {
        Err(ids_exhausted())
    } else {
        Ok((id as i64, d.with_source(meta, uuid)))
    }
}

/// Replacing a source's row leaves every other.
pub proof fn lemma_replaced(d: DbView, i: int, row: SourceView)
    requires
        d.wf(),
        0 <= i < d.sources.len(),
        d.sources[i].id == row.id,
    ensures
        d.with_source_row(row).sources == d.sources.update(i, row),
{
    let m = d.with_source_row(row).sources;
    let u = d.sources.update(i, row);
    assert forall|k: int| 0 <= k < m.len() implies m[k] == u[k] by {
        if k != i {
            if k < i {
                assert(SourceRow::key_of(d.sources[k]) != SourceRow::key_of(d.sources[i]));
            } else {
                assert(SourceRow::key_of(d.sources[i]) != SourceRow::key_of(d.sources[k]));
            }
        }
    }
    assert(m =~= u);
}

/// The next id is no source's yet.
pub proof fn lemma_next_id_free(d: DbView)
    requires
        d.wf(),
        model::next_id(d.sources) <= i64::MAX,
    ensures
        !d.has_source(model::next_id(d.sources) as i64),
{
    let id = model::next_id(d.sources);
    if d.has_source(id as i64) {
        let k = choose|k: int|
            0 <= k < d.sources.len() && #[trigger] d.sources[k].id == id as i64;
        let last = d.sources.len() - 1;
        if k < last {
            assert(!table::before(
                SourceRow::key_of(d.sources[last]),
                SourceRow::key_of(d.sources[k]),
            ));
        }
    }
}

/// Which of the streams were picked.
pub open spec fn picked(all: Seq<Seq<char>>, marks: Seq<bool>) -> Seq<Seq<char>>
    decreases all.len(),
{
    if all.len() == 0 {
        Seq::empty()
    } else {
        let head = picked(all.drop_last(), marks.drop_last());
        if marks.last() {
            head.push(all.last())
        } else {
            head
        }
    }
}

/// Whether a predicate gave an answer for a stream.
pub open spec fn gave<F: Fn(&str) -> bool>(f: F, name: Seq<char>, answer: bool) -> bool {
    exists|s: &str| s@ == name && #[trigger] f.ensures((s,), answer)
}

/// Whether a predicate gave these answers for these streams.
pub open spec fn answered<F: Fn(&str) -> bool>(f: F, all: Seq<Seq<char>>, marks: Seq<bool>) -> bool {
    &&& marks.len() == all.len()
    &&& forall|i: int| 0 <= i < all.len() ==> gave(f, #[trigger] all[i], marks[i])
}

/// The names that a predicate accepts, in order.
pub fn pick<F: Fn(&str) -> bool>(names: &Vec<String>, accept: F) -> (r: Vec<String>)
    requires
        forall|s: &str| accept.requires((s,)),
    ensures
        exists|marks: Seq<bool>| #[trigger]
            answered(accept, seqs::views(names@), marks) && seqs::views(r@) == picked(
                seqs::views(names@),
                marks,
            ),
{
    let ghost all = seqs::views(names@);
    let mut chosen: Vec<String> = Vec::new();
    let ghost mut marks: Seq<bool> = Seq::empty();
    let mut i: usize = 0;
    proof {
        seqs::lemma_views_empty::<String>();
    }
    while i < names.len()
        invariant
            i <= names@.len(),
            all == seqs::views(names@),
            forall|s: &str| accept.requires((s,)),
            answered(accept, all.take(i as int), marks),
            seqs::views(chosen@) == picked(all.take(i as int), marks),
        decreases names@.len() - i,
    {
        let name = names[i].as_str();
        let out = accept(name);
        let ghost before = marks;
        proof {
            marks = marks.push(out);
            let now = all.take(i + 1);
            assert(now.drop_last() =~= all.take(i as int));
            assert(now.last() == name@);
            assert(marks.drop_last() =~= before);
            assert forall|k: int| 0 <= k < now.len() implies gave(
                accept,
                #[trigger] now[k],
                marks[k],
            ) by {
                if k < i {
                    assert(now[k] == all.take(i as int)[k]);
                } else {
                    assert(accept.ensures((name,), out));
                }
            }
        }
        if out {
            chosen.push(names[i].clone());
        }
        i += 1;
    }
    proof {
        assert(all.take(i as int) =~= all);
    }
    chosen
}

/// What evicting certain streams leaves, and says.
pub open spec fn streams_gone(
    was: DbView,
    now: DbView,
    source: i64,
    chosen: Seq<Seq<char>>,
    cutoff: i64,
    r: Result<Evicted, Error>,
) -> bool {
    &&& now == was.chosen_evicted(source, chosen, cutoff)
    &&& r == Ok::<Evicted, Error>(
        Evicted {
            segments: (was.segments.len() - now.segments.len()) as usize,
            wal_rows: (was.wal.len() - now.wal.len()) as usize,
            live_rows: was.live_before(source, Some(chosen), cutoff).len() as usize,
        },
    )
}

impl Db {
    // ------------------------------------------------------------ plain changes

    fn start_source(&mut self, meta: &SourceMeta, uuid: Option<String>) -> (r: Result<i64, Error>)
        ensures
            match source_started(old(self)@, meta@, seqs::opt_view(uuid)) {
                Ok((id, d)) => r == Ok::<i64, Error>(id) && final(self)@ == d,
                Err(e) => r matches Err(x) && x@ == e && final(self)@ == old(self)@,
            },
    {
        self.in_key_order();
        let n: usize = self.sources.len();
        let id: i64 = if n == 0 {
            1
        } else {
            let last: i64 = self.sources.at(n - 1).id;
            if last == i64::MAX {
                return Err(
                    Error::Sqlite {
                        context: String::from_str("failed to insert source"),
                        result_code: Some(13),
                        message: String::from_str("database or disk is full"),
                    },
                );
            }
            last + 1
        };
        let row = SourceRow { id, uuid, meta: meta.clone(), complete: false };
        proof {
            lemma_next_id_free(self@);
            super::lemma_has_source(self@, row@);
        }
        self.sources.place(row);
        Ok(id)
    }

    fn add_segment(
        &mut self,
        source_id: i64,
        stream: &str,
        seq: u64,
        meta: &SegmentMeta,
        bytes: &[u8],
        caller_index: &Option<Vec<u8>>,
    ) -> (r: Result<(), Error>)
        ensures
            super::changed(
                r,
                old(self)@,
                final(self)@,
                old(self)@.segment_inserted(
                    SegmentAtView {
                        source_id,
                        stream: stream@,
                        row: super::super::rows::SegmentView {
                            seq,
                            meta: *meta,
                            bytes: bytes@,
                            caller_index: seqs::opt_view(*caller_index),
                        },
                    },
                ),
            ),
    {
        let at = SegmentAt {
            source_id,
            stream: stream.to_owned(),
            row: SegmentRow {
                seq,
                meta: *meta,
                bytes: slice_to_vec(bytes),
                caller_index: copy_opt_bytes(caller_index),
            },
        };
        let mut context = String::from_str("failed to insert segment ");
        context.append(stream);
        context.append("#");
        append_number(&mut context, seq);
        if self.segments.has_key(&at) {
            return Err(
                key_taken(context, "segments.source_id, segments.stream, segments.seq"),
            );
        }
        if self.source_at(source_id).is_none() {
            return Err(no_such_source(context));
        }
        self.segments.place(at);
        Ok(())
    }

    fn add_wal_row(&mut self, source_id: i64, row: &WalRow) -> (r: Result<(), Error>)
        ensures
            super::changed(
                r,
                old(self)@,
                final(self)@,
                old(self)@.wal_inserted(source_id, row@),
            ),
    {
        let at = WalAt { source_id, row: row.clone() };
        let mut context = String::from_str("failed to insert WAL row for ");
        context.append(row.stream.as_str());
        if self.wal.has_key(&at) {
            return Err(key_taken(context, "wal.source_id, wal.stream, wal.ts"));
        }
        if self.source_at(source_id).is_none() {
            return Err(no_such_source(context));
        }
        self.wal.place(at);
        Ok(())
    }

    fn add_wal_rows(&mut self, source_id: i64, rows: &[WalRow]) -> (r: Result<(), Error>)
        ensures
            super::ran(r, final(self)@, old(self)@.wal_run(source_id, seqs::views(rows@))),
    {
        let ghost all = seqs::views(rows@);
        let mut i: usize = 0;
        while i < rows.len()
            invariant
                i <= rows@.len(),
                all == seqs::views(rows@),
                old(self)@.wal_run(source_id, all.take(i as int)) == (self@, None::<ErrorView>),
            decreases rows@.len() - i,
        {
            proof {
                assert(all.take(i + 1).drop_last() =~= all.take(i as int));
                assert(all.take(i + 1).last() == rows@[i as int]@);
                lemma_wal_run_stops(old(self)@, source_id, all, i + 1);
            }
            match self.add_wal_row(source_id, &rows[i]) {
                Ok(_) => {},
                Err(e) => {
                    return Err(e);
                },
            }
            i += 1;
        }
        proof {
            assert(all.take(i as int) =~= all);
        }
        Ok(())
    }

    fn add_clock_offset(&mut self, source_id: i64, ts: i64, offset_ns: i64) -> (r: Result<
        (),
        Error,
    >)
        ensures
            super::changed(
                r,
                old(self)@,
                final(self)@,
                old(self)@.clock_inserted(ClockAt { source_id, ts, offset_ns }),
            ),
    {
        let at = ClockAt { source_id, ts, offset_ns };
        if self.clock_offsets.has_key(&at) {
            return Ok(());
        }
        if self.source_at(source_id).is_none() {
            return Err(no_such_source(String::from_str("failed to insert clock offset")));
        }
        self.clock_offsets.place(at);
        Ok(())
    }

    fn set_complete(&mut self, source_id: i64, complete: bool)
        ensures
            final(self)@ == old(self)@.with_complete(source_id, complete),
    {
        self.in_key_order();
        match self.source_at(source_id) {
            Some(i) => {
                let was = self.sources.at(i).clone();
                let row = SourceRow { complete, ..was };
                proof {
                    lemma_replaced(self@, i as int, row@);
                }
                self.sources.replace(i, row);
            },
            None => {},
        }
    }

    fn set_metadata(&mut self, source_id: i64, metadata: TextMap) -> (r: Result<(), Error>)
        ensures
            final(self)@ == old(self)@.with_metadata(source_id, metadata@),
            r is Ok <==> old(self)@.has_source(source_id),
            r matches Err(e) ==> e@ == ErrorView::Message(super::no_source_text(source_id)),
    {
        self.in_key_order();
        match self.source_at(source_id) {
            Some(i) => {
                let was = self.sources.at(i).clone();
                let row = SourceRow {
                    meta: SourceMeta {
                        labels: was.meta.labels,
                        metadata,
                        clock_anchor_wall_ns: was.meta.clock_anchor_wall_ns,
                    },
                    id: was.id,
                    uuid: was.uuid,
                    complete: was.complete,
                };
                proof {
                    lemma_replaced(self@, i as int, row@);
                }
                self.sources.replace(i, row);
                Ok(())
            },
            None => Err(no_source(source_id)),
        }
    }

    // ------------------------------------------------------------ transactions

    /// Open a transaction: its changes are seen by nobody until it is
    /// committed.
    pub fn begin(&self) -> (r: Result<Tx, Error>)
        ensures
            r is Ok <==> self@.writable(),
            r matches Ok(tx) ==> tx@ == self@,
            r matches Err(e) ==> e@ == self@.write_refusal(),
    {
        match self.writable() {
            Ok(_) => Ok(Tx { db: self.copied() }),
            Err(e) => Err(e),
        }
    }

    /// Let a transaction's changes land.
    pub fn commit(&mut self, tx: Tx)
        ensures
            final(self)@ == tx@,
    {
        *self = tx.db;
    }

    /// Run `f` inside one transaction: it commits when `f` returns `Ok` and
    /// leaves the archive exactly as it was when `f` returns `Err`.
    pub fn transaction<T, F: FnOnce(Tx) -> (Tx, Result<T, Error>)>(&mut self, f: F) -> (r: Result<
        T,
        Error,
    >)
        requires
            forall|tx: Tx| tx@ == old(self)@ ==> f.requires((tx,)),
        ensures
            !old(self)@.writable() ==> final(self)@ == old(self)@ && (r matches Err(e) && e@
                == old(self)@.write_refusal()),
            old(self)@.writable() ==> exists|tx: Tx, out: (Tx, Result<T, Error>)|
                #![trigger f.ensures((tx,), out)]
                tx@ == old(self)@ && f.ensures((tx,), out) && r == out.1 && final(self)@ == if r
                    is Ok {
                    out.0@
                } else {
                    old(self)@
                },
    {
        match self.begin() {
            Err(e) => Err(e),
            Ok(tx) => {
                let ghost started = tx;
                let (tx, out) = f(tx);
                assert(f.ensures((started,), (tx, out)));
                match out {
                    Ok(t) => {
                        self.commit(tx);
                        Ok(t)
                    },
                    Err(e) => Err(e),
                }
            },
        }
    }

    // ------------------------------------------------------------ changes of their own

    /// Start a source, returning its id.
    pub fn insert_source(&mut self, meta: &SourceMeta) -> (r: Result<i64, Error>)
        ensures
            !old(self)@.writable() ==> final(self)@ == old(self)@ && (r matches Err(e) && e@
                == old(self)@.write_refusal()),
            old(self)@.writable() ==> match source_started(old(self)@, meta@, None) {
                Ok((id, d)) => r == Ok::<i64, Error>(id) && final(self)@ == d,
                Err(e) => r matches Err(x) && x@ == e && final(self)@ == old(self)@,
            },
    {
        match self.writable() {
            Ok(_) => self.start_source(meta, None),
            Err(e) => Err(e),
        }
    }

    /// Insert one sealed segment's bytes and catalog facts, committing on its
    /// own.
    pub fn insert_segment(
        &mut self,
        source_id: i64,
        stream: &str,
        seq: u64,
        meta: &SegmentMeta,
        bytes: &[u8],
    ) -> (r: Result<(), Error>)
        ensures
            super::changed(
                r,
                old(self)@,
                final(self)@,
                super::written(
                    old(self)@,
                    old(self)@.segment_inserted(
                        SegmentAtView {
                            source_id,
                            stream: stream@,
                            row: super::super::rows::SegmentView {
                                seq,
                                meta: *meta,
                                bytes: bytes@,
                                caller_index: None,
                            },
                        },
                    ),
                ),
            ),
    {
        match self.writable() {
            Ok(_) => self.add_segment(source_id, stream, seq, meta, bytes, &None),
            Err(e) => Err(e),
        }
    }

    /// Insert every WAL row of one tick in a single transaction: either every
    /// row lands, or none does.
    pub fn insert_wal_rows(&mut self, source_id: i64, rows: &[WalRow]) -> (r: Result<(), Error>)
        ensures
            super::changed(
                r,
                old(self)@,
                final(self)@,
                super::transacted(
                    old(self)@,
                    old(self)@.wal_run(source_id, seqs::views(rows@)),
                ),
            ),
    {
        match self.begin() {
            Err(e) => Err(e),
            Ok(mut tx) => match tx.insert_wal_rows(source_id, rows) {
                Ok(_) => {
                    self.commit(tx);
                    Ok(())
                },
                Err(e) => Err(e),
            },
        }
    }

    /// One tick's rows for several sources, in one transaction.
    pub fn insert_wal_rows_batch(&mut self, ticks: &[(i64, Vec<WalRow>)]) -> (r: Result<
        (),
        Error,
    >)
        ensures
            super::changed(
                r,
                old(self)@,
                final(self)@,
                super::transacted(old(self)@, old(self)@.ticks_run(super::tick_views(ticks@))),
            ),
    {
        match self.begin() {
            Err(e) => Err(e),
            Ok(mut tx) => {
                let ghost all = super::tick_views(ticks@);
                let mut i: usize = 0;
                while i < ticks.len()
                    invariant
                        i <= ticks@.len(),
                        self@ == old(self)@,
                        self@.writable(),
                        all == super::tick_views(ticks@),
                        self@.ticks_run(all.take(i as int)) == (tx@, None::<ErrorView>),
                    decreases ticks@.len() - i,
                {
                    proof {
                        assert(all.take(i + 1).drop_last() =~= all.take(i as int));
                        assert(all.take(i + 1).last() == all[i as int]);
                        assert(all[i as int] == (ticks@[i as int].0, seqs::views(
                            ticks@[i as int].1@,
                        )));
                        lemma_ticks_run_stops(self@, all, i + 1);
                    }
                    match tx.insert_wal_rows(ticks[i].0, ticks[i].1.as_slice()) {
                        Ok(_) => {},
                        Err(e) => {
                            return Err(e);
                        },
                    }
                    i += 1;
                }
                proof {
                    assert(all.take(i as int) =~= all);
                }
                self.commit(tx);
                Ok(())
            },
        }
    }

    /// Delete WAL rows at or below a timestamp for one stream, and say how
    /// many they were. Runs outside the seal's transaction, and has no part in
    /// what is live.
    pub fn prune_wal(&mut self, source_id: i64, stream: &str, upto_ts: i64) -> (r: Result<
        usize,
        Error,
    >)
        ensures
            !old(self)@.writable() ==> final(self)@ == old(self)@ && (r matches Err(e) && e@
                == old(self)@.write_refusal()),
            old(self)@.writable() ==> final(self)@ == old(self)@.pruned(
                source_id,
                stream@,
                upto_ts,
            ) && r == Ok::<usize, Error>(
                (old(self)@.wal.len() - final(self)@.wal.len()) as usize,
            ),
    {
        match self.writable() {
            Ok(_) => {
                let n = self.wal.remove_old(source_id, Some(stream), upto_ts as i128 + 1);
                Ok(n)
            },
            Err(e) => Err(e),
        }
    }

    /// Retention: drop every segment that lies wholly before the cutoff, and
    /// every WAL row, clock observation and caller's row before it. A
    /// straddling segment is kept whole, so the archive holds at least what
    /// was asked for.
    pub fn evict_before(&mut self, source_id: i64, cutoff_ts: i64) -> (r: Result<Evicted, Error>)
        ensures
            !old(self)@.writable() ==> final(self)@ == old(self)@ && (r matches Err(e) && e@
                == old(self)@.write_refusal()),
            old(self)@.writable() ==> {
                &&& final(self)@ == old(self)@.evicted(source_id, cutoff_ts)
                &&& r == Ok::<Evicted, Error>(
                    Evicted {
                        segments: (old(self)@.segments.len() - final(self)@.segments.len())
                            as usize,
                        wal_rows: (old(self)@.wal.len() - final(self)@.wal.len()) as usize,
                        live_rows: old(self)@.live_before(source_id, None, cutoff_ts).len()
                            as usize,
                    },
                )
            },
    {
        match self.writable() {
            Ok(_) => {
                let live_rows = self.count_live_before(source_id, None, cutoff_ts);
                let segments = self.segments.remove_old(source_id, None, cutoff_ts as i128);
                let wal_rows = self.wal.remove_old(source_id, None, cutoff_ts as i128);
                let _c = self.clock_offsets.remove_old(source_id, None, cutoff_ts as i128);
                let _k = self.caller_rows.remove_old(source_id, None, cutoff_ts as i128);
                Ok(Evicted { segments, wal_rows, live_rows })
            },
            Err(e) => Err(e),
        }
    }

    /// [`evict_before`](Self::evict_before), restricted to the streams `evict`
    /// accepts: it selects what is removed. Clock observations are the source's
    /// rather than a stream's, so they are cut whatever it accepts.
    pub fn evict_streams_before<F: Fn(&str) -> bool>(
        &mut self,
        source_id: i64,
        cutoff_ts: i64,
        evict: F,
    ) -> (r: Result<Evicted, Error>)
        requires
            forall|s: &str| evict.requires((s,)),
        ensures
            !old(self)@.writable() ==> final(self)@ == old(self)@ && (r matches Err(e) && e@
                == old(self)@.write_refusal()),
            old(self)@.writable() ==> exists|marks: Seq<bool>|
                #[trigger] answered(evict, old(self)@.evictable_streams(source_id), marks)
                    && streams_gone(
                    old(self)@,
                    final(self)@,
                    source_id,
                    picked(old(self)@.evictable_streams(source_id), marks),
                    cutoff_ts,
                    r,
                ),
    {
        match self.writable() {
            Ok(_) => {},
            Err(e) => {
                return Err(e);
            },
        }
        let streams = self.evictable(source_id);
        let chosen = pick(&streams, evict);
        Ok(self.evict_chosen(source_id, cutoff_ts, &chosen))
    }

    /// Every stream with a segment, a WAL row or a caller's row.
    fn evictable(&self, source_id: i64) -> (r: Vec<String>)
        ensures
            seqs::views(r@) == self@.evictable_streams(source_id),
    {
        let mut out = self.all_streams(source_id);
        let more = self.caller_row_streams(source_id);
        let ghost all = seqs::views(more@);
        let ghost start = seqs::views(out@);
        let mut i: usize = 0;
        while i < more.len()
            invariant
                i <= more@.len(),
                all == seqs::views(more@),
                seqs::views(out@) == names::with_names(start, all.take(i as int)),
            decreases more@.len() - i,
        {
            proof {
                assert(all.take(i + 1).drop_last() =~= all.take(i as int));
                assert(all[i as int] == more@[i as int]@);
            }
            add_name(&mut out, more[i].as_str());
            i += 1;
        }
        proof {
            assert(all.take(i as int) =~= all);
        }
        out
    }

    fn evict_chosen(&mut self, source_id: i64, cutoff_ts: i64, chosen: &Vec<String>) -> (r: Evicted)
        ensures
            final(self)@ == old(self)@.chosen_evicted(
                source_id,
                seqs::views(chosen@),
                cutoff_ts,
            ),
            r == (Evicted {
                segments: (old(self)@.segments.len() - final(self)@.segments.len()) as usize,
                wal_rows: (old(self)@.wal.len() - final(self)@.wal.len()) as usize,
                live_rows: old(self)@.live_before(
                    source_id,
                    Some(seqs::views(chosen@)),
                    cutoff_ts,
                ).len() as usize,
            }),
    {
        let live_rows = self.count_live_before(source_id, Some(chosen), cutoff_ts);
        let segments_before: usize = self.segments.len();
        let wal_before: usize = self.wal.len();
        let ghost all = seqs::views(chosen@);
        let mut i: usize = 0;
        while i < chosen.len()
            invariant
                i <= chosen@.len(),
                all == seqs::views(chosen@),
                self@ == old(self)@.streams_evicted(source_id, all.take(i as int), cutoff_ts),
                self@.segments.len() <= segments_before,
                self@.wal.len() <= wal_before,
            decreases chosen@.len() - i,
        {
            proof {
                assert(all.take(i + 1).drop_last() =~= all.take(i as int));
                assert(all.take(i + 1).last() == chosen@[i as int]@);
            }
            let name = chosen[i].as_str();
            let _s = self.segments.remove_old(source_id, Some(name), cutoff_ts as i128);
            let _w = self.wal.remove_old(source_id, Some(name), cutoff_ts as i128);
            let _k = self.caller_rows.remove_old(source_id, Some(name), cutoff_ts as i128);
            i += 1;
        }
        proof {
            assert(all.take(i as int) =~= all);
            crate::db::laws::lemma_streams_evicted_clocks(old(self)@, source_id, all, cutoff_ts);
        }
        let _c = self.clock_offsets.remove_old(source_id, None, cutoff_ts as i128);
        Evicted {
            segments: segments_before - self.segments.len(),
            wal_rows: wal_before - self.wal.len(),
            live_rows,
        }
    }

    fn count_live_before(
        &self,
        source_id: i64,
        streams: Option<&Vec<String>>,
        cutoff_ts: i64,
    ) -> (r: usize)
        ensures
            r == self@.live_before(
                source_id,
                match streams {
                    Some(v) => Some(seqs::views(v@)),
                    None => None,
                },
                cutoff_ts,
            ).len(),
    {
        let ghost names = match streams {
            Some(v) => Some(seqs::views(v@)),
            None => None,
        };
        let ghost keep = |r: WalAtView|
            {
                &&& r.source_id == source_id
                &&& names matches Some(s) ==> s.contains(r.row.stream)
                &&& r.row.ts < cutoff_ts
                &&& model::past(self@.watermark(source_id, r.row.stream), r.row.ts)
            };
        let ghost t = self@.wal;
        let mut count: usize = 0;
        let mut i: usize = 0;
        proof {
            seqs::lemma_filter_full(t, keep);
        }
        while i < self.wal.len()
            invariant
                i <= t.len(),
                t == self@.wal,
                t == self.wal@,
                names == match streams {
                    Some(v) => Some(seqs::views(v@)),
                    None => None::<Seq<Seq<char>>>,
                },
                keep == |r: WalAtView|
                    {
                        &&& r.source_id == source_id
                        &&& names matches Some(s) ==> s.contains(r.row.stream)
                        &&& r.row.ts < cutoff_ts
                        &&& model::past(self@.watermark(source_id, r.row.stream), r.row.ts)
                    },
                count <= i,
                count == t.take(i as int).filter(keep).len(),
            decreases t.len() - i,
        {
            let at = self.wal.at(i);
            proof {
                seqs::lemma_filter_take(t, i as int, keep);
            }
            if at.source_id == source_id && at.row.ts < cutoff_ts {
                let named = match streams {
                    Some(v) => contains_name(v, at.row.stream.as_str()),
                    None => true,
                };
                if named {
                    let live = match self.sealed_watermark(source_id, at.row.stream.as_str()) {
                        Some(w) => at.row.ts > w,
                        None => true,
                    };
                    if live {
                        count = count + 1;
                    }
                }
            }
            i += 1;
        }
        count
    }

    /// Return so many freed pages to the filesystem, or as many as the free
    /// list holds.
    pub fn incremental_vacuum(&mut self, pages: u32) -> (r: Result<(), Error>)
        ensures
            super::changed(
                r,
                old(self)@,
                final(self)@,
                super::written(old(self)@, Ok(old(self)@.vacuumed(pages))),
            ),
    {
        match self.writable() {
            Ok(_) => {
                let n: u32 = if pages <= self.pages.free {
                    pages
                } else {
                    self.pages.free
                };
                self.pages.free = self.pages.free - n;
                self.pages.pages = if n <= self.pages.pages {
                    self.pages.pages - n
                } else {
                    0
                };
                Ok(())
            },
            Err(e) => Err(e),
        }
    }

    /// Mark a source cleanly finalized, outside any batch.
    pub fn mark_complete(&mut self, source_id: i64) -> (r: Result<(), Error>)
        ensures
            super::changed(
                r,
                old(self)@,
                final(self)@,
                super::written(old(self)@, Ok(old(self)@.with_complete(source_id, true))),
            ),
    {
        match self.writable() {
            Ok(_) => {
                self.set_complete(source_id, true);
                Ok(())
            },
            Err(e) => Err(e),
        }
    }

    /// Replace one source's metadata map.
    pub fn update_source_metadata(&mut self, source_id: i64, metadata: &TextMap) -> (r: Result<
        (),
        Error,
    >)
        ensures
            super::changed(
                r,
                old(self)@,
                final(self)@,
                super::written(old(self)@, metadata_replaced(old(self)@, source_id, metadata@)),
            ),
    {
        match self.writable() {
            Ok(_) => self.set_metadata(source_id, metadata.clone()),
            Err(e) => Err(e),
        }
    }

    /// Merge keys into one source's metadata map.
    pub fn patch_source_metadata(&mut self, source_id: i64, patch: &TextMap) -> (r: Result<
        (),
        Error,
    >)
        ensures
            super::changed(
                r,
                old(self)@,
                final(self)@,
                super::written(old(self)@, metadata_patched(old(self)@, source_id, patch@)),
            ),
    {
        match self.writable() {
            Ok(_) => match self.source_metadata(source_id) {
                Ok(mut metadata) => {
                    metadata.merge(patch);
                    self.set_metadata(source_id, metadata)
                },
                Err(e) => Err(e),
            },
            Err(e) => Err(e),
        }
    }
}

/// Replacing a source's metadata.
pub open spec fn metadata_replaced(
    d: DbView,
    id: i64,
    metadata: Seq<text_map::Entry>,
) -> Result<DbView, ErrorView> {
    if d.has_source(id) {
        Ok(d.with_metadata(id, metadata))
    } else {
        Err(ErrorView::Message(super::no_source_text(id)))
    }
}

/// Merging keys into a source's metadata.
pub open spec fn metadata_patched(
    d: DbView,
    id: i64,
    patch: Seq<text_map::Entry>,
) -> Result<DbView, ErrorView> {
    match d.source(id) {
        Some(s) => Ok(d.with_metadata(id, text_map::put_entries(s.meta.metadata, patch))),
        None => Err(ErrorView::Message(super::no_source_text(id))),
    }
}

fn contains_name(names: &Vec<String>, n: &str) -> (r: bool)
    ensures
        r == seqs::views(names@).contains(n@),
{
    let mut i: usize = 0;
    while i < names.len()
        invariant
            i <= names@.len(),
            forall|j: int| 0 <= j < i ==> seqs::views(names@)[j] != n@,
        decreases names@.len() - i,
    {
        if same_text(names[i].as_str(), n) {
            assert(seqs::views(names@)[i as int] == n@);
            return true;
        }
        i += 1;
    }
    false
}

proof fn lemma_wal_run_stops(d: DbView, source: i64, rows: Seq<WalView>, n: int)
    requires
        0 <= n <= rows.len(),
    ensures
        d.wal_run(source, rows.take(n)).1 is Some ==> d.wal_run(source, rows) == d.wal_run(
            source,
            rows.take(n),
        ),
    decreases rows.len() - n,
{
    if n == rows.len() {
        assert(rows.take(n) =~= rows);
    } else {
        lemma_wal_run_stops(d, source, rows, n + 1);
        assert(rows.take(n + 1).drop_last() =~= rows.take(n));
    }
}

proof fn lemma_ticks_run_stops(d: DbView, ticks: Seq<(i64, Seq<WalView>)>, n: int)
    requires
        0 <= n <= ticks.len(),
    ensures
        d.ticks_run(ticks.take(n)).1 is Some ==> d.ticks_run(ticks) == d.ticks_run(ticks.take(n)),
    decreases ticks.len() - n,
{
    if n == ticks.len() {
        assert(ticks.take(n) =~= ticks);
    } else {
        lemma_ticks_run_stops(d, ticks, n + 1);
        assert(ticks.take(n + 1).drop_last() =~= ticks.take(n));
    }
}

impl Tx {
    /// Start a source, returning its id.
    pub fn insert_source(&mut self, meta: &SourceMeta) -> (r: Result<i64, Error>)
        ensures
            match source_started(old(self)@, meta@, None) {
                Ok((id, d)) => r == Ok::<i64, Error>(id) && final(self)@ == d,
                Err(e) => r matches Err(x) && x@ == e && final(self)@ == old(self)@,
            },
    {
        self.db.start_source(meta, None)
    }

    /// Start a source that has an identity across files already.
    pub fn insert_source_with_uuid(&mut self, meta: &SourceMeta, uuid: Option<String>) -> (r:
        Result<i64, Error>)
        ensures
            match source_started(old(self)@, meta@, seqs::opt_view(uuid)) {
                Ok((id, d)) => r == Ok::<i64, Error>(id) && final(self)@ == d,
                Err(e) => r matches Err(x) && x@ == e && final(self)@ == old(self)@,
            },
    {
        self.db.start_source(meta, uuid)
    }

    /// Insert one sealed segment's bytes and catalog facts.
    pub fn insert_segment(
        &mut self,
        source_id: i64,
        stream: &str,
        seq: u64,
        meta: &SegmentMeta,
        bytes: &[u8],
    ) -> (r: Result<(), Error>)
        ensures
            super::changed(
                r,
                old(self)@,
                final(self)@,
                old(self)@.segment_inserted(
                    SegmentAtView {
                        source_id,
                        stream: stream@,
                        row: super::super::rows::SegmentView {
                            seq,
                            meta: *meta,
                            bytes: bytes@,
                            caller_index: None,
                        },
                    },
                ),
            ),
    {
        self.db.add_segment(source_id, stream, seq, meta, bytes, &None)
    }

    /// Insert one sealed segment with the caller's index over it.
    pub fn insert_segment_with_index(
        &mut self,
        source_id: i64,
        stream: &str,
        seq: u64,
        meta: &SegmentMeta,
        bytes: &[u8],
        caller_index: &Option<Vec<u8>>,
    ) -> (r: Result<(), Error>)
        ensures
            super::changed(
                r,
                old(self)@,
                final(self)@,
                old(self)@.segment_inserted(
                    SegmentAtView {
                        source_id,
                        stream: stream@,
                        row: super::super::rows::SegmentView {
                            seq,
                            meta: *meta,
                            bytes: bytes@,
                            caller_index: seqs::opt_view(*caller_index),
                        },
                    },
                ),
            ),
    {
        self.db.add_segment(source_id, stream, seq, meta, bytes, caller_index)
    }

    /// Remove one segment.
    pub fn delete_segment(&mut self, source_id: i64, stream: &str, seq: u64)
        ensures
            final(self)@ == old(self)@.without_segment(source_id, stream@, seq),
    {
        self.db.segments.remove_key(source_id, stream, seq as i128);
    }

    /// Insert every WAL row for one tick, until one is refused.
    pub fn insert_wal_rows(&mut self, source_id: i64, rows: &[WalRow]) -> (r: Result<(), Error>)
        ensures
            super::ran(r, final(self)@, old(self)@.wal_run(source_id, seqs::views(rows@))),
    {
        self.db.add_wal_rows(source_id, rows)
    }

    /// Append one `(ts, offset_ns)` clock observation for the source. The
    /// first at a timestamp stays.
    pub fn insert_clock_offset(&mut self, source_id: i64, ts: i64, offset_ns: i64) -> (r: Result<
        (),
        Error,
    >)
        ensures
            super::changed(
                r,
                old(self)@,
                final(self)@,
                old(self)@.clock_inserted(ClockAt { source_id, ts, offset_ns }),
            ),
    {
        self.db.add_clock_offset(source_id, ts, offset_ns)
    }

    /// Keep a caller's row against a stream.
    pub fn insert_caller_row(&mut self, source_id: i64, stream: &str, row: &CallerRow) -> (r:
        Result<(), Error>)
        ensures
            super::changed(
                r,
                old(self)@,
                final(self)@,
                old(self)@.caller_inserted(
                    CallerAtView { source_id, stream: stream@, row: row@ },
                ),
            ),
    {
        if self.db.source_at(source_id).is_none() {
            return Err(no_such_source(String::from_str("failed to insert caller row")));
        }
        self.db.caller_rows.place(
            CallerAt { source_id, stream: stream.to_owned(), row: row.clone() },
        );
        Ok(())
    }

    /// Mark the source cleanly finalized.
    pub fn mark_complete(&mut self, source_id: i64) -> (r: Result<(), Error>)
        ensures
            r is Ok,
            final(self)@ == old(self)@.with_complete(source_id, true),
    {
        self.db.set_complete(source_id, true);
        Ok(())
    }

    /// Mark the source as going on.
    pub fn mark_incomplete(&mut self, source_id: i64) -> (r: Result<(), Error>)
        ensures
            r is Ok,
            final(self)@ == old(self)@.with_complete(source_id, false),
    {
        self.db.set_complete(source_id, false);
        Ok(())
    }
}

} // verus!
