//! Sealing: a batch of streams' live rows become segments, in one transaction.

use vstd::prelude::*;
use vstd::string::*;

use super::tick::Marks;
use crate::db::model::DbView;
use crate::db::records::{ClockAt, SegmentAtView};
use crate::db::store;
use crate::db::{Db, SegmentMeta, SegmentView, WalRow, WalView};
use crate::error::{Error, ErrorView};
use crate::segment;
use crate::segment::{contract_broken, materialize, SealedView, SegmentEncoder};
use crate::seqs;
use crate::slots::Slots;

verus! {

broadcast use crate::seqs::group_views;

/// The next segment numbers, by source and stream.
pub type Numbers = Map<(i64, Seq<char>), u64>;

/// An encoded segment waiting to be inserted.
#[derive(Debug)]
pub struct Encoded {
    /// The stream it is of.
    pub stream: String,
    /// The number it goes under.
    pub seq: u64,
    /// The catalog facts about it.
    pub meta: SegmentMeta,
    /// The segment itself.
    pub bytes: Vec<u8>,
    /// The caller's index over it.
    pub caller_index: Option<Vec<u8>>,
}

/// An encoded segment waiting to be inserted, as mathematics.
pub struct EncodedView {
    pub stream: Seq<char>,
    pub row: SegmentView,
}

impl View for Encoded {
    type V = EncodedView;

    open spec fn view(&self) -> EncodedView {
        EncodedView {
            stream: self.stream@,
            row: SegmentView {
                seq: self.seq,
                meta: self.meta,
                bytes: self.bytes@,
                caller_index: seqs::opt_view(self.caller_index),
            },
        }
    }
}

/// What a batch of streams became: the segments, and the clock observation of
/// the newest sealed row.
pub struct Batch {
    pub encoded: Seq<EncodedView>,
    pub observation: Option<(i64, i64)>,
}

/// The number that a stream's next segment goes under.
pub open spec fn number_of(next: Numbers, source: i64, stream: Seq<char>) -> u64 {
    if next.dom().contains((source, stream)) {
        next[(source, stream)]
    } else {
        0
    }
}

/// The last row at a timestamp.
pub open spec fn last_at(rows: Seq<WalView>, ts: i64) -> Option<WalView>
    decreases rows.len(),
{
    if rows.len() == 0 {
        None
    } else if rows.last().ts == ts {
        Some(rows.last())
    } else {
        last_at(rows.drop_last(), ts)
    }
}

/// A stream's segment and its clock observation: the timestamp and the offset
/// of the one row that the segment ends at.
pub open spec fn stream_sealed(
    outcome: Result<Option<SealedView>, ErrorView>,
    stream: Seq<char>,
    rows: Seq<WalView>,
    seq: u64,
) -> Result<Option<(EncodedView, (i64, i64))>, ErrorView> {
    match outcome {
        Err(e) => Err(e),
        Ok(None) => Ok(None),
        Ok(Some(s)) => match last_at(rows, s.last_ts) {
            None => Err(
                ErrorView::EncoderContract { stream, detail: segment::contract_detail(s, rows) },
            ),
            Some(r) => Ok(
                Some(
                    (
                        EncodedView {
                            stream,
                            row: SegmentView {
                                seq,
                                meta: SegmentMeta {
                                    rows: s.rows,
                                    first_ts: s.first_ts,
                                    last_ts: s.last_ts,
                                },
                                bytes: s.bytes,
                                caller_index: s.index,
                            },
                        },
                        (r.ts, r.wall_offset),
                    ),
                ),
            ),
        },
    }
}

/// The newer of two clock observations, the later given where they tie.
pub open spec fn newer(seen: Option<(i64, i64)>, o: (i64, i64)) -> Option<(i64, i64)> {
    match seen {
        Some(s) if o.0 < s.0 => Some(s),
        _ => Some(o),
    }
}

/// What a batch of streams becomes under an encoder, or the first refusal.
pub open spec fn batch_encoded<E: SegmentEncoder>(
    d: DbView,
    source: i64,
    next: Numbers,
    streams: Seq<Seq<char>>,
    encoder: E,
) -> Result<Batch, ErrorView>
    decreases streams.len(),
{
    if streams.len() == 0 {
        Ok(Batch { encoded: Seq::empty(), observation: None })
    } else {
        let stream = streams.last();
        let rows = d.live_of(source, stream);
        match batch_encoded(d, source, next, streams.drop_last(), encoder) {
            Err(e) => Err(e),
            Ok(b) => match stream_sealed(
                segment::materialized(encoder, stream, rows),
                stream,
                rows,
                number_of(next, source, stream),
            ) {
                Err(e) => Err(e),
                Ok(None) => Ok(b),
                Ok(Some((s, o))) => Ok(
                    Batch { encoded: b.encoded.push(s), observation: newer(b.observation, o) },
                ),
            },
        }
    }
}

/// What the live rows of streams become under an encoder, or the first refusal.
pub open spec fn rows_encoded<E: SegmentEncoder>(
    source: i64,
    next: Numbers,
    streams: Seq<(Seq<char>, Seq<WalView>)>,
    encoder: E,
) -> Result<Batch, ErrorView>
    decreases streams.len(),
{
    if streams.len() == 0 {
        Ok(Batch { encoded: Seq::empty(), observation: None })
    } else {
        let (stream, rows) = streams.last();
        match rows_encoded(source, next, streams.drop_last(), encoder) {
            Err(e) => Err(e),
            Ok(b) => match stream_sealed(
                segment::materialized(encoder, stream, rows),
                stream,
                rows,
                number_of(next, source, stream),
            ) {
                Err(e) => Err(e),
                Ok(None) => Ok(b),
                Ok(Some((s, o))) => Ok(
                    Batch { encoded: b.encoded.push(s), observation: newer(b.observation, o) },
                ),
            },
        }
    }
}

/// The views of streams and their rows.
pub open spec fn stream_views(batch: Seq<(String, Vec<WalRow>)>) -> Seq<(Seq<char>, Seq<WalView>)> {
    batch.map_values(|t: (String, Vec<WalRow>)| (t.0@, seqs::views(t.1@)))
}

/// Streams with their live rows.
pub open spec fn with_live(d: DbView, source: i64, streams: Seq<Seq<char>>) -> Seq<
    (Seq<char>, Seq<WalView>),
> {
    streams.map_values(|s: Seq<char>| (s, d.live_of(source, s)))
}

proof fn lemma_live_encoded<E: SegmentEncoder>(
    d: DbView,
    source: i64,
    next: Numbers,
    streams: Seq<Seq<char>>,
    encoder: E,
)
    ensures
        batch_encoded(d, source, next, streams, encoder) == rows_encoded(
            source,
            next,
            with_live(d, source, streams),
            encoder,
        ),
    decreases streams.len(),
{
    let live = with_live(d, source, streams);
    if streams.len() > 0 {
        lemma_live_encoded(d, source, next, streams.drop_last(), encoder);
        assert(live.drop_last() =~= with_live(d, source, streams.drop_last()));
        assert(live.last() == (streams.last(), d.live_of(source, streams.last())));
    }
}

/// Inserting segments one by one, until one is refused.
pub open spec fn segments_run(d: DbView, source: i64, encoded: Seq<EncodedView>) -> (
    DbView,
    Option<ErrorView>,
)
    decreases encoded.len(),
{
    if encoded.len() == 0 {
        (d, None)
    } else {
        let (was, e) = segments_run(d, source, encoded.drop_last());
        match e {
            Some(_) => (was, e),
            None => match was.segment_inserted(
                SegmentAtView {
                    source_id: source,
                    stream: encoded.last().stream,
                    row: encoded.last().row,
                },
            ) {
                Ok(n) => (n, None),
                Err(x) => (was, Some(x)),
            },
        }
    }
}

/// Inserting a batch: its segments, then its clock observation.
pub open spec fn batch_run(d: DbView, source: i64, b: Batch) -> (DbView, Option<ErrorView>) {
    let (was, e) = segments_run(d, source, b.encoded);
    match (e, b.observation) {
        (None, Some((ts, offset_ns))) => match was.clock_inserted(
            ClockAt { source_id: source, ts, offset_ns },
        ) {
            Ok(n) => (n, None),
            Err(x) => (was, Some(x)),
        },
        _ => (was, e),
    }
}

/// Pruning what segments hold, each up to its own newest row.
pub open spec fn batch_pruned(d: DbView, source: i64, encoded: Seq<EncodedView>) -> DbView
    decreases encoded.len(),
{
    if encoded.len() == 0 {
        d
    } else {
        batch_pruned(d, source, encoded.drop_last()).pruned(
            source,
            encoded.last().stream,
            encoded.last().row.meta.last_ts,
        )
    }
}

/// The next numbers once segments have been inserted.
pub open spec fn numbers_after(next: Numbers, source: i64, encoded: Seq<EncodedView>) -> Numbers
    decreases encoded.len(),
{
    if encoded.len() == 0 {
        next
    } else {
        let seq = encoded.last().row.seq;
        numbers_after(next, source, encoded.drop_last()).insert(
            (source, encoded.last().stream),
            if seq < u64::MAX {
                (seq + 1) as u64
            } else {
                seq
            },
        )
    }
}

/// The newest sealed timestamps once segments have been inserted.
pub open spec fn marks_after(marks: Marks, source: i64, encoded: Seq<EncodedView>) -> Marks
    decreases encoded.len(),
{
    if encoded.len() == 0 {
        marks
    } else {
        marks_after(marks, source, encoded.drop_last()).insert(
            (source, encoded.last().stream),
            encoded.last().row.meta.last_ts,
        )
    }
}

/// Encode a stream's live rows as one segment that goes under `seq`, and say
/// which row's timestamp and offset its clock observation is.
pub fn encode_stream<E: SegmentEncoder>(
    encoder: &E,
    stream: &str,
    rows: &[WalRow],
    seq: u64,
) -> (r: Result<Option<(Encoded, (i64, i64))>, Error>)
    ensures
        match stream_sealed(
            segment::materialized(*encoder, stream@, seqs::views(rows@)),
            stream@,
            seqs::views(rows@),
            seq,
        ) {
            Err(e) => r matches Err(x) && x@ == e,
            Ok(None) => r matches Ok(None),
            Ok(Some((s, o))) => r matches Ok(Some(p)) && p.0@ == s && p.1 == o,
        },
{
    let ghost all = seqs::views(rows@);
    let tail = match materialize(encoder, stream, rows) {
        Err(e) => {
            return Err(e);
        },
        Ok(None) => {
            return Ok(None);
        },
        Ok(Some(t)) => t,
    };
    let mut i: usize = rows.len();
    proof {
        assert(all.take(i as int) =~= all);
    }
    while i > 0
        invariant
            i <= rows@.len(),
            all == seqs::views(rows@),
            last_at(all, tail.last_ts) == last_at(all.take(i as int), tail.last_ts),
            segment::materialized(*encoder, stream@, all) == Ok::<Option<SealedView>, ErrorView>(
                Some(tail@),
            ),
        decreases i,
    {
        proof {
            assert(all.take(i as int).last() == rows@[i - 1]@);
            assert(all.take(i as int).drop_last() =~= all.take(i - 1));
        }
        if rows[i - 1].ts == tail.last_ts {
            let observation: (i64, i64) = (rows[i - 1].ts, rows[i - 1].wall_offset);
            return Ok(
                Some(
                    (
                        Encoded {
                            stream: stream.to_string(),
                            seq,
                            meta: SegmentMeta {
                                rows: tail.rows,
                                first_ts: tail.first_ts,
                                last_ts: tail.last_ts,
                            },
                            bytes: tail.bytes,
                            caller_index: tail.index,
                        },
                        observation,
                    ),
                ),
            );
        }
        i -= 1;
    }
    Err(contract_broken(&tail, stream, rows))
}

fn next_number(next_seq: &Slots<(i64, String), u64>, source_id: i64, stream: &str) -> (r: u64)
    ensures
        r == number_of(next_seq@, source_id, stream@),
{
    let key = (source_id, stream.to_string());
    assert(key@ == (source_id, stream@));
    match next_seq.get(&key) {
        Some(n) => n,
        None => 0,
    }
}

/// The newer of two clock observations, the later given where they tie.
pub fn newer_observation(seen: Option<(i64, i64)>, o: (i64, i64)) -> (r: Option<(i64, i64)>)
    ensures
        r == newer(seen, o),
{
    match seen {
        Some(s) if o.0 < s.0 => Some(s),
        _ => Some(o),
    }
}

fn encode_batch_of<E: SegmentEncoder>(
    db: &Db,
    source_id: i64,
    next_seq: &Slots<(i64, String), u64>,
    batch: &Vec<String>,
    encoder: &E,
) -> (r: Result<(Vec<Encoded>, Option<(i64, i64)>), Error>)
    ensures
        match batch_encoded(db@, source_id, next_seq@, seqs::views(batch@), *encoder) {
            Err(e) => r matches Err(x) && x@ == e,
            Ok(b) => r matches Ok(p) && seqs::views(p.0@) == b.encoded && p.1 == b.observation,
        },
{
    let ghost all = seqs::views(batch@);
    let mut live: Vec<(String, Vec<WalRow>)> = Vec::new();
    let mut i: usize = 0;
    while i < batch.len()
        invariant
            i <= batch@.len(),
            all == seqs::views(batch@),
            stream_views(live@) == with_live(db@, source_id, all.take(i as int)),
        decreases batch@.len() - i,
    {
        let ghost was = stream_views(live@);
        let rows = db.live_wal(source_id, batch[i].as_str());
        let name = batch[i].clone();
        let ghost added = (name@, seqs::views(rows@));
        live.push((name, rows));
        proof {
            assert(stream_views(live@) =~= was.push(added));
            assert(with_live(db@, source_id, all.take(i + 1)) =~= was.push(added));
        }
        i += 1;
    }
    proof {
        assert(all.take(i as int) =~= all);
        lemma_live_encoded(db@, source_id, next_seq@, all, *encoder);
    }
    encode_rows(source_id, next_seq, &live, encoder)
}

/// Encode the live rows of a batch of streams, in the order they are given: the
/// segments, each under its stream's next number, and the clock observation of the
/// newest sealed row.
pub fn encode_rows<E: SegmentEncoder>(
    source_id: i64,
    next_seq: &Slots<(i64, String), u64>,
    batch: &Vec<(String, Vec<WalRow>)>,
    encoder: &E,
) -> (r: Result<(Vec<Encoded>, Option<(i64, i64)>), Error>)
    ensures
        match rows_encoded(source_id, next_seq@, stream_views(batch@), *encoder) {
            Err(e) => r matches Err(x) && x@ == e,
            Ok(b) => r matches Ok(p) && seqs::views(p.0@) == b.encoded && p.1 == b.observation,
        },
{
    let ghost all = stream_views(batch@);
    let mut encoded: Vec<Encoded> = Vec::new();
    let mut observation: Option<(i64, i64)> = None;
    let mut i: usize = 0;
    proof {
        seqs::lemma_views_empty::<Encoded>();
    }
    while i < batch.len()
        invariant
            i <= batch@.len(),
            all == stream_views(batch@),
            rows_encoded(source_id, next_seq@, all.take(i as int), *encoder) == Ok::<
                Batch,
                ErrorView,
            >(Batch { encoded: seqs::views(encoded@), observation }),
        decreases batch@.len() - i,
    {
        proof {
            assert(all.take(i + 1).drop_last() =~= all.take(i as int));
            assert(all.take(i + 1).last() == (batch@[i as int].0@, seqs::views(
                batch@[i as int].1@,
            )));
            lemma_rows_stop(source_id, next_seq@, all, *encoder, i + 1);
        }
        let stream = batch[i].0.as_str();
        let seq: u64 = next_number(next_seq, source_id, stream);
        match encode_stream(encoder, stream, batch[i].1.as_slice(), seq) {
            Err(e) => {
                return Err(e);
            },
            Ok(None) => {},
            Ok(Some((segment, o))) => {
                observation = newer_observation(observation, o);
                encoded.push(segment);
            },
        }
        i += 1;
    }
    proof {
        assert(all.take(i as int) =~= all);
    }
    Ok((encoded, observation))
}

proof fn lemma_rows_stop<E: SegmentEncoder>(
    source: i64,
    next: Numbers,
    streams: Seq<(Seq<char>, Seq<WalView>)>,
    encoder: E,
    n: int,
)
    requires
        0 <= n <= streams.len(),
    ensures
        rows_encoded(source, next, streams.take(n), encoder) is Err ==> rows_encoded(
            source,
            next,
            streams,
            encoder,
        ) == rows_encoded(source, next, streams.take(n), encoder),
    decreases streams.len() - n,
{
    if n == streams.len() {
        assert(streams.take(n) =~= streams);
    } else {
        lemma_rows_stop(source, next, streams, encoder, n + 1);
        assert(streams.take(n + 1).drop_last() =~= streams.take(n));
    }
}

proof fn lemma_segments_stop(d: DbView, source: i64, encoded: Seq<EncodedView>, n: int)
    requires
        0 <= n <= encoded.len(),
    ensures
        segments_run(d, source, encoded.take(n)).1 is Some ==> segments_run(d, source, encoded)
            == segments_run(d, source, encoded.take(n)),
    decreases encoded.len() - n,
{
    if n == encoded.len() {
        assert(encoded.take(n) =~= encoded);
    } else {
        lemma_segments_stop(d, source, encoded, n + 1);
        assert(encoded.take(n + 1).drop_last() =~= encoded.take(n));
    }
}

fn insert_batch(
    db: &mut Db,
    source_id: i64,
    encoded: &Vec<Encoded>,
    observation: Option<(i64, i64)>,
) -> (r: Result<(), Error>)
    ensures
        store::changed(
            r,
            old(db)@,
            final(db)@,
            store::transacted(
                old(db)@,
                batch_run(
                    old(db)@,
                    source_id,
                    Batch { encoded: seqs::views(encoded@), observation },
                ),
            ),
        ),
{
    let ghost d = db@;
    let ghost all = seqs::views(encoded@);
    let mut tx = match db.begin() {
        Err(e) => {
            return Err(e);
        },
        Ok(t) => t,
    };
    let mut i: usize = 0;
    while i < encoded.len()
        invariant
            i <= encoded@.len(),
            all == seqs::views(encoded@),
            db@ == d,
            d == old(db)@,
            d.writable(),
            segments_run(d, source_id, all.take(i as int)) == (tx@, None::<ErrorView>),
        decreases encoded@.len() - i,
    {
        proof {
            assert(all.take(i + 1).drop_last() =~= all.take(i as int));
            assert(all.take(i + 1).last() == encoded@[i as int]@);
            lemma_segments_stop(d, source_id, all, i + 1);
        }
        match tx.insert_segment_with_index(
            source_id,
            encoded[i].stream.as_str(),
            encoded[i].seq,
            &encoded[i].meta,
            encoded[i].bytes.as_slice(),
            &encoded[i].caller_index,
        ) {
            Ok(_) => {},
            Err(e) => {
                return Err(e);
            },
        }
        i += 1;
    }
    proof {
        assert(all.take(i as int) =~= all);
    }
    match observation {
        Some((ts, offset_ns)) => match tx.insert_clock_offset(source_id, ts, offset_ns) {
            Ok(_) => {},
            Err(e) => {
                return Err(e);
            },
        },
        None => {},
    }
    db.commit(tx);
    Ok(())
}

/// Take note that segments have been inserted: their streams' next numbers and
/// newest sealed timestamps move with them.
pub fn note_sealed(
    source_id: i64,
    encoded: &Vec<Encoded>,
    next_seq: &mut Slots<(i64, String), u64>,
    watermarks: &mut Slots<(i64, String), i64>,
)
    ensures
        final(next_seq)@ == numbers_after(old(next_seq)@, source_id, seqs::views(encoded@)),
        final(watermarks)@ == marks_after(old(watermarks)@, source_id, seqs::views(encoded@)),
{
    let ghost all = seqs::views(encoded@);
    let ghost numbers = next_seq@;
    let ghost marks = watermarks@;
    let mut i: usize = 0;
    while i < encoded.len()
        invariant
            i <= encoded@.len(),
            all == seqs::views(encoded@),
            next_seq@ == numbers_after(numbers, source_id, all.take(i as int)),
            watermarks@ == marks_after(marks, source_id, all.take(i as int)),
        decreases encoded@.len() - i,
    {
        proof {
            assert(all.take(i + 1).drop_last() =~= all.take(i as int));
            assert(all.take(i + 1).last() == encoded@[i as int]@);
        }
        let seq: u64 = encoded[i].seq;
        let numbered = (source_id, encoded[i].stream.clone());
        let marked = (source_id, encoded[i].stream.clone());
        assert(numbered@ == (source_id, encoded@[i as int].stream@));
        assert(marked@ == (source_id, encoded@[i as int].stream@));
        next_seq.set(
            numbered,
            if seq < u64::MAX {
                seq + 1
            } else {
                seq
            },
        );
        watermarks.set(marked, encoded[i].meta.last_ts);
        i += 1;
    }
    proof {
        assert(all.take(i as int) =~= all);
    }
}

proof fn lemma_batch_run_writable(d: DbView, source: i64, b: Batch)
    ensures
        batch_run(d, source, b).0.writable() == d.writable(),
{
    lemma_segments_run_writable(d, source, b.encoded);
}

proof fn lemma_segments_run_writable(d: DbView, source: i64, encoded: Seq<EncodedView>)
    ensures
        segments_run(d, source, encoded).0.writable() == d.writable(),
    decreases encoded.len(),
{
    if encoded.len() > 0 {
        lemma_segments_run_writable(d, source, encoded.drop_last());
    }
}

fn prune_batch(db: &mut Db, source_id: i64, encoded: &Vec<Encoded>) -> (r: Result<(), Error>)
    requires
        old(db)@.writable(),
    ensures
        r is Ok,
        final(db)@ == batch_pruned(old(db)@, source_id, seqs::views(encoded@)),
{
    let ghost all = seqs::views(encoded@);
    let ghost d = db@;
    let mut i: usize = 0;
    while i < encoded.len()
        invariant
            i <= encoded@.len(),
            all == seqs::views(encoded@),
            db@.writable(),
            db@ == batch_pruned(d, source_id, all.take(i as int)),
        decreases encoded@.len() - i,
    {
        proof {
            assert(all.take(i + 1).drop_last() =~= all.take(i as int));
            assert(all.take(i + 1).last() == encoded@[i as int]@);
        }
        match db.prune_wal(source_id, encoded[i].stream.as_str(), encoded[i].meta.last_ts) {
            Ok(_) => {},
            Err(e) => {
                return Err(e);
            },
        }
        i += 1;
    }
    proof {
        assert(all.take(i as int) =~= all);
    }
    Ok(())
}

/// Encode one batch's segments, insert them with the batch's clock observation
/// in one transaction, then prune the sealed streams' WAL outside it.
///
/// Each stream is pruned only up to its own segment's newest row. Numbers and
/// watermarks move only once the segments are committed.
pub fn seal_batch<E: SegmentEncoder>(
    db: &mut Db,
    source_id: i64,
    next_seq: &mut Slots<(i64, String), u64>,
    watermarks: &mut Slots<(i64, String), i64>,
    batch: &Vec<String>,
    encoder: &E,
) -> (r: Result<(), Error>)
    ensures
        ({
            let sealed = batch_encoded(
                old(db)@,
                source_id,
                old(next_seq)@,
                seqs::views(batch@),
                *encoder,
            );
            match sealed {
                Err(e) => {
                    &&& r matches Err(x) && x@ == e
                    &&& final(db)@ == old(db)@
                    &&& final(next_seq)@ == old(next_seq)@
                    &&& final(watermarks)@ == old(watermarks)@
                },
                Ok(b) => match store::transacted(
                    old(db)@,
                    batch_run(old(db)@, source_id, b),
                ) {
                    Err(e) => {
                        &&& r matches Err(x) && x@ == e
                        &&& final(db)@ == old(db)@
                        &&& final(next_seq)@ == old(next_seq)@
                        &&& final(watermarks)@ == old(watermarks)@
                    },
                    Ok(d) => {
                        &&& r is Ok
                        &&& final(db)@ == batch_pruned(d, source_id, b.encoded)
                        &&& final(next_seq)@ == numbers_after(
                            old(next_seq)@,
                            source_id,
                            b.encoded,
                        )
                        &&& final(watermarks)@ == marks_after(
                            old(watermarks)@,
                            source_id,
                            b.encoded,
                        )
                    },
                },
            }
        }),
{
    let (encoded, observation) = match encode_batch_of(db, source_id, next_seq, batch, encoder) {
        Err(e) => {
            return Err(e);
        },
        Ok(p) => p,
    };
    proof {
        lemma_batch_run_writable(
            db@,
            source_id,
            Batch { encoded: seqs::views(encoded@), observation },
        );
    }
    match insert_batch(db, source_id, &encoded, observation) {
        Err(e) => {
            return Err(e);
        },
        Ok(_) => {},
    }
    note_sealed(source_id, &encoded, next_seq, watermarks);
    prune_batch(db, source_id, &encoded)
}

} // verus!
