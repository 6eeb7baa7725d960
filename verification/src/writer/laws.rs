//! What holds of everything a writer does.

use vstd::prelude::*;

use super::run;
use super::run::{ReplyView, RequestView, WriterView};
use super::seal;
use super::seal::{EncodedView, Numbers};
use super::session;
use super::tick;
use super::tick::{Marks, TickView};
use crate::db::laws;
use crate::db::model;
use crate::db::model::DbView;
use crate::db::records::{SegmentAt, SegmentAtView};
use crate::db::table;
use crate::db::table::{Key, Keyed};
use crate::db::{SegmentView, WalView};
use crate::error;
use crate::error::ErrorView;
use crate::names;
use crate::read;
use crate::segment;
use crate::segment::{SealedView, SegmentEncoder};
use crate::seqs;

verus! {

// ------------------------------------------------------------ sealing

/// A segment with the rows it was made of: it is honest about them, its number
/// is its stream's next, and its newest row is one of them.
pub open spec fn made_of(e: EncodedView, rows: Seq<WalView>, seq: u64) -> bool {
    &&& e.row.seq == seq
    &&& rows.len() > 0
    &&& e.row.meta.rows != 0
    &&& rows[0].ts <= e.row.meta.first_ts <= e.row.meta.last_ts <= rows.last().ts
    &&& e.row.meta.rows == segment::covered(rows, e.row.meta.first_ts, e.row.meta.last_ts)
    &&& exists|i: int| 0 <= i < rows.len() && #[trigger] rows[i].ts == e.row.meta.last_ts
}

/// Whether a segment is what an encoder makes of rows.
pub open spec fn sealed_by<E: SegmentEncoder>(e: EncodedView, encoder: E, rows: Seq<WalView>) -> bool {
    segment::materialized(encoder, e.stream, rows) == Ok::<Option<SealedView>, ErrorView>(
        Some(
            SealedView {
                bytes: e.row.bytes,
                rows: e.row.meta.rows,
                first_ts: e.row.meta.first_ts,
                last_ts: e.row.meta.last_ts,
                index: e.row.caller_index,
            },
        ),
    )
}

proof fn lemma_last_at(rows: Seq<WalView>, ts: i64)
    ensures
        seal::last_at(rows, ts) is Some ==> exists|i: int|
            0 <= i < rows.len() && #[trigger] rows[i].ts == ts,
    decreases rows.len(),
{
    if rows.len() > 0 {
        let d = rows.drop_last();
        lemma_last_at(d, ts);
        if rows.last().ts == ts {
            assert(rows[rows.len() - 1].ts == ts);
        } else if seal::last_at(d, ts) is Some {
            let i = choose|i: int| 0 <= i < d.len() && #[trigger] d[i].ts == ts;
            assert(rows[i].ts == ts);
        }
    }
}

pub proof fn lemma_batch_encoded<E: SegmentEncoder>(
    d: DbView,
    source: i64,
    next: Numbers,
    streams: Seq<Seq<char>>,
    encoder: E,
)
    requires
        seal::batch_encoded(d, source, next, streams, encoder) is Ok,
    ensures
        ({
            let b = seal::batch_encoded(d, source, next, streams, encoder)->Ok_0;
            forall|k: int|
                0 <= k < b.encoded.len() ==> made_of(
                    #[trigger] b.encoded[k],
                    d.live_of(source, b.encoded[k].stream),
                    seal::number_of(next, source, b.encoded[k].stream),
                ) && sealed_by(
                    b.encoded[k],
                    encoder,
                    d.live_of(source, b.encoded[k].stream),
                )
        }),
    decreases streams.len(),
{
    if streams.len() > 0 {
        lemma_batch_encoded(d, source, next, streams.drop_last(), encoder);
        let stream = streams.last();
        let rows = d.live_of(source, stream);
        if let Ok(Some(s)) = segment::materialized(encoder, stream, rows) {
            lemma_last_at(rows, s.last_ts);
        }
    }
}

proof fn lemma_holds_segment(d: DbView, source: i64, stream: Seq<char>, row: SegmentView)
    requires
        d.segments_of(source, stream).contains(row),
    ensures
        table::holds::<SegmentAt>(
            d.segments,
            Key { source: source as int, stream, at: row.seq as int },
        ),
{
    let here = |v: SegmentAtView| table::within::<SegmentAt>(v, source as int, Some(stream));
    let t = d.segments.filter(here);
    let k = choose|k: int|
        0 <= k < d.segments_of(source, stream).len() && d.segments_of(source, stream)[k] == row;
    seqs::lemma_filter_member(d.segments, here, k);
    let i = choose|i: int| 0 <= i < d.segments.len() && d.segments[i] == t[k];
    assert(SegmentAt::key_of(d.segments[i]) == (Key {
        source: source as int,
        stream,
        at: row.seq as int,
    }));
}

/// What inserting a batch's segments leaves, where none is refused.
pub open spec fn segments_in(d: DbView, n: DbView, source: i64, encoded: Seq<EncodedView>) -> bool {
    &&& n.wf()
    &&& n.wal == d.wal
    &&& forall|s: i64, st: Seq<char>|
        (s != source || forall|k: int|
            0 <= k < encoded.len() ==> (#[trigger] encoded[k]).stream != st)
            ==> #[trigger] n.segments_of(s, st) == d.segments_of(s, st)
    &&& forall|k: int|
        0 <= k < encoded.len() ==> segment_in(d, n, source, #[trigger] encoded[k])
}

/// What inserting a segment leaves of its stream: the segment is there, and the
/// tail is what it was without the rows up to the segment's newest.
pub open spec fn segment_in(d: DbView, n: DbView, source: i64, e: EncodedView) -> bool {
    &&& n.segments_of(source, e.stream).contains(e.row)
    &&& forall|r: SegmentView| #[trigger]
        n.segments_of(source, e.stream).contains(r) ==> r == e.row || d.segments_of(
            source,
            e.stream,
        ).contains(r)
    &&& (forall|i: int|
        0 <= i < d.segments_of(source, e.stream).len() ==> (#[trigger] d.segments_of(
            source,
            e.stream,
        )[i]).seq < e.row.seq) ==> n.segments_of(source, e.stream) == d.segments_of(
        source,
        e.stream,
    ).push(e.row)
    &&& n.watermark(source, e.stream) == Some(e.row.meta.last_ts)
    &&& n.live_of(source, e.stream) == d.live_of(source, e.stream).filter(
        |r: WalView| r.ts > e.row.meta.last_ts,
    )
}

pub proof fn lemma_segments_run(d: DbView, source: i64, next: Numbers, encoded: Seq<EncodedView>)
    requires
        d.wf(),
        seal::segments_run(d, source, encoded).1 is None,
        forall|k: int|
            0 <= k < encoded.len() ==> made_of(
                #[trigger] encoded[k],
                d.live_of(source, encoded[k].stream),
                seal::number_of(next, source, encoded[k].stream),
            ),
    ensures
        segments_in(d, seal::segments_run(d, source, encoded).0, source, encoded),
    decreases encoded.len(),
{
    if encoded.len() > 0 {
        let head = encoded.drop_last();
        let e = encoded.last();
        assert forall|k: int| 0 <= k < head.len() implies made_of(
            #[trigger] head[k],
            d.live_of(source, head[k].stream),
            seal::number_of(next, source, head[k].stream),
        ) by {
            assert(head[k] == encoded[k]);
        }
        lemma_segments_run(d, source, next, head);
        let was = seal::segments_run(d, source, head).0;
        let at = SegmentAtView { source_id: source, stream: e.stream, row: e.row };
        let n = seal::segments_run(d, source, encoded).0;
        assert(encoded[encoded.len() - 1] == e);
        assert forall|k: int| 0 <= k < head.len() implies (#[trigger] head[k]).stream
            != e.stream by {
            if head[k].stream == e.stream {
                assert(segment_in(d, was, source, head[k]));
                lemma_holds_segment(was, source, e.stream, head[k].row);
            }
        }
        assert(was.segments_of(source, e.stream) == d.segments_of(source, e.stream));
        assert(was.wal_of(source, e.stream) == d.wal_of(source, e.stream));
        assert(was.live_of(source, e.stream) == d.live_of(source, e.stream));
        laws::law_the_tail_is_in_order(d, source, e.stream);
        laws::law_sealing_moves_the_watermark(was, at, source, e.stream);
        laws::lemma_segments_inserted(was, at, source, e.stream);
        let w = was.segments_of(source, e.stream);
        let p = choose|p: int|
            0 <= p <= w.len() && n.segments_of(source, e.stream) == #[trigger] w.take(p) + seq![
                at.row,
            ] + w.skip(p);
        assert(n.segments_of(source, e.stream)[p] == e.row);
        if forall|i: int| 0 <= i < w.len() ==> (#[trigger] w[i]).seq < e.row.seq {
            laws::lemma_segment_appended(was, at);
        }
        assert forall|r: SegmentView| #[trigger]
            n.segments_of(source, e.stream).contains(r) implies r == e.row || d.segments_of(
            source,
            e.stream,
        ).contains(r) by {
            let now = n.segments_of(source, e.stream);
            let i = choose|i: int| 0 <= i < now.len() && now[i] == r;
            if i < p {
                assert(w[i] == r);
            } else if i > p {
                assert(w[i - 1] == r);
            }
        }
        assert forall|s: i64, st: Seq<char>|
            (s != source || forall|k: int|
                0 <= k < encoded.len() ==> (#[trigger] encoded[k]).stream != st) implies #[trigger] n.segments_of(
            s,
            st,
        ) == d.segments_of(s, st) by {
            laws::lemma_segments_inserted(was, at, s, st);
            if s == source {
                assert forall|k: int| 0 <= k < head.len() implies (#[trigger] head[k]).stream
                    != st by {
                    assert(head[k] == encoded[k]);
                }
            }
        }
        assert forall|k: int| 0 <= k < encoded.len() implies segment_in(
            d,
            n,
            source,
            #[trigger] encoded[k],
        ) by {
            if k < head.len() {
                assert(encoded[k] == head[k]);
                assert(segment_in(d, was, source, head[k]));
                laws::lemma_segments_inserted(was, at, source, head[k].stream);
                assert(n.segments_of(source, head[k].stream) == was.segments_of(
                    source,
                    head[k].stream,
                ));
                assert(n.wal_of(source, head[k].stream) == was.wal_of(source, head[k].stream));
            }
        }
    }
}

proof fn lemma_pruned(d: DbView, source: i64, encoded: Seq<EncodedView>, s: i64, stream: Seq<char>)
    requires
        forall|k: int|
            0 <= k < encoded.len() ==> d.watermark(source, (#[trigger] encoded[k]).stream) == Some(
                encoded[k].row.meta.last_ts,
            ),
    ensures
        seal::batch_pruned(d, source, encoded).segments == d.segments,
        seal::batch_pruned(d, source, encoded).live_of(s, stream) == d.live_of(s, stream),
    decreases encoded.len(),
{
    if encoded.len() > 0 {
        let head = encoded.drop_last();
        let e = encoded.last();
        assert forall|k: int| 0 <= k < head.len() implies d.watermark(
            source,
            (#[trigger] head[k]).stream,
        ) == Some(head[k].row.meta.last_ts) by {
            assert(head[k] == encoded[k]);
        }
        lemma_pruned(d, source, head, s, stream);
        let was = seal::batch_pruned(d, source, head);
        assert(encoded[encoded.len() - 1] == e);
        assert(was.watermark(source, e.stream) == d.watermark(source, e.stream));
        laws::law_prune_leaves_the_tail(was, source, e.stream, e.row.meta.last_ts, s, stream);
    }
}

pub proof fn lemma_batch_sealed<E: SegmentEncoder>(
    w: WriterView,
    source: i64,
    batch: Seq<Seq<char>>,
    encoder: E,
)
    requires
        w.db.wf(),
        run::batch_sealed(w, source, batch, encoder) is Ok,
    ensures
        ({
            let (b, d) = run::batch_sealed(w, source, batch, encoder)->Ok_0;
            let n = seal::segments_run(w.db, source, b.encoded).0;
            &&& seal::segments_run(w.db, source, b.encoded).1 is None
            &&& segments_in(w.db, n, source, b.encoded)
            &&& d.segments == n.segments
            &&& forall|s: i64, st: Seq<char>| #[trigger] d.live_of(s, st) == n.live_of(s, st)
            &&& forall|k: int|
                0 <= k < b.encoded.len() ==> made_of(
                    #[trigger] b.encoded[k],
                    w.db.live_of(source, b.encoded[k].stream),
                    seal::number_of(w.next_seq, source, b.encoded[k].stream),
                ) && sealed_by(
                    b.encoded[k],
                    encoder,
                    w.db.live_of(source, b.encoded[k].stream),
                )
        }),
{
    let (b, d) = run::batch_sealed(w, source, batch, encoder)->Ok_0;
    lemma_batch_encoded(w.db, source, w.next_seq, batch, encoder);
    lemma_segments_run(w.db, source, w.next_seq, b.encoded);
    let n = seal::segments_run(w.db, source, b.encoded).0;
    let m = seal::batch_run(w.db, source, b).0;
    assert(m.segments == n.segments && m.wal == n.wal);
    assert forall|k: int| 0 <= k < b.encoded.len() implies m.watermark(
        source,
        (#[trigger] b.encoded[k]).stream,
    ) == Some(b.encoded[k].row.meta.last_ts) by {
        assert(segment_in(w.db, n, source, b.encoded[k]));
    }
    assert forall|s: i64, st: Seq<char>| #[trigger] d.live_of(s, st) == n.live_of(s, st) by {
        lemma_pruned(m, source, b.encoded, s, st);
        assert(m.live_of(s, st) == n.live_of(s, st));
    }
    lemma_pruned(m, source, b.encoded, source, Seq::empty());
}

/// A seal loses no row and reads none twice. Of a stream that was sealed, the
/// segment holds exactly the live rows in its span, the rows past it stay live,
/// and no row up to its newest is live any more.
pub proof fn law_a_seal_moves_rows_into_a_segment<E: SegmentEncoder>(
    w: WriterView,
    source: i64,
    batch: Seq<Seq<char>>,
    encoder: E,
    k: int,
)
    requires
        w.db.wf(),
        run::batch_sealed(w, source, batch, encoder) is Ok,
        0 <= k < (run::batch_sealed(w, source, batch, encoder)->Ok_0).0.encoded.len(),
    ensures
        ({
            let (b, d) = run::batch_sealed(w, source, batch, encoder)->Ok_0;
            let e = b.encoded[k];
            let rows = w.db.live_of(source, e.stream);
            &&& d.segments_of(source, e.stream).contains(e.row)
            &&& d.watermark(source, e.stream) == Some(e.row.meta.last_ts)
            &&& d.live_of(source, e.stream) == rows.filter(
                |r: WalView| r.ts > e.row.meta.last_ts,
            )
            &&& e.row.meta.rows == segment::covered(rows, e.row.meta.first_ts, e.row.meta.last_ts)
        }),
{
    lemma_batch_sealed(w, source, batch, encoder);
    let (b, d) = run::batch_sealed(w, source, batch, encoder)->Ok_0;
    let n = seal::segments_run(w.db, source, b.encoded).0;
    let e = b.encoded[k];
    assert(segment_in(w.db, n, source, e));
    assert(d.segments_of(source, e.stream) == n.segments_of(source, e.stream));
}

/// A seal leaves every stream alone that it made no segment of: its segments and
/// its tail are what they were.
pub proof fn law_a_seal_leaves_other_streams<E: SegmentEncoder>(
    w: WriterView,
    source: i64,
    batch: Seq<Seq<char>>,
    encoder: E,
    s: i64,
    stream: Seq<char>,
)
    requires
        w.db.wf(),
        run::batch_sealed(w, source, batch, encoder) is Ok,
        s != source || forall|k: int|
            0 <= k < (run::batch_sealed(w, source, batch, encoder)->Ok_0).0.encoded.len() ==> (
            #[trigger] (run::batch_sealed(w, source, batch, encoder)->Ok_0).0.encoded[k]).stream
                != stream,
    ensures
        ({
            let d = (run::batch_sealed(w, source, batch, encoder)->Ok_0).1;
            &&& d.segments_of(s, stream) == w.db.segments_of(s, stream)
            &&& d.live_of(s, stream) == w.db.live_of(s, stream)
        }),
{
    lemma_batch_sealed(w, source, batch, encoder);
    let (b, d) = run::batch_sealed(w, source, batch, encoder)->Ok_0;
    let n = seal::segments_run(w.db, source, b.encoded).0;
    assert(n.segments_of(s, stream) == w.db.segments_of(s, stream));
    assert(d.segments_of(s, stream) == n.segments_of(s, stream));
    assert(d.live_of(s, stream) == n.live_of(s, stream));
    assert(n.wal_of(s, stream) == w.db.wal_of(s, stream));
}

/// A seal that fails changes nothing. Where the encoder is at fault the writer
/// stops on it: the failure would recur.
pub proof fn law_an_encoder_failure_stops_the_writer<E: SegmentEncoder>(
    w: WriterView,
    source: i64,
    batch: Seq<Seq<char>>,
    encoder: E,
)
    requires
        seal::batch_encoded(w.db, source, w.next_seq, batch, encoder) is Err,
    ensures
        run::handled(w, RequestView::Seal { source_id: source, batch }, encoder) == (
            w,
            ReplyView::Failed(
                seal::batch_encoded(w.db, source, w.next_seq, batch, encoder)->Err_0,
            ),
        ),
{
    lemma_encoding_refusal(w.db, source, w.next_seq, batch, encoder);
}

proof fn lemma_encoding_refusal<E: SegmentEncoder>(
    d: DbView,
    source: i64,
    next: Numbers,
    streams: Seq<Seq<char>>,
    encoder: E,
)
    ensures
        seal::batch_encoded(d, source, next, streams, encoder) matches Err(e)
            ==> !error::retryable(e),
    decreases streams.len(),
{
    if streams.len() > 0 {
        lemma_encoding_refusal(d, source, next, streams.drop_last(), encoder);
    }
}

// ------------------------------------------------------------ what a writer keeps

/// Whether a writer knows of every stream's newest sealed row: what it has noted
/// is that row or a later one, which retention may have taken since.
pub open spec fn tracks(w: WriterView) -> bool {
    forall|s: i64, st: Seq<char>| #[trigger]
        w.db.watermark(s, st) matches Some(m) ==> w.watermarks.dom().contains((s, st)) && m
            <= w.watermarks[(s, st)]
}

/// Whether a stream's next number is past a number, as far as numbers go.
pub open spec fn ahead(next: u64, seq: u64) -> bool {
    seq < next || next == u64::MAX
}

/// Whether a writer's next number of every stream is past its segments' numbers.
pub open spec fn numbers(w: WriterView) -> bool {
    forall|s: i64, st: Seq<char>, r: SegmentView| #[trigger]
        w.db.segments_of(s, st).contains(r) ==> ahead(
            seal::number_of(w.next_seq, s, st),
            r.seq,
        )
}

proof fn lemma_watermark_of_fewer(s: Seq<SegmentView>, keep: spec_fn(SegmentView) -> bool)
    ensures
        model::newest_sealed(s.filter(keep)) matches Some(m) ==> (model::newest_sealed(
            s,
        ) matches Some(w) && m <= w),
        forall|r: SegmentView| #[trigger] s.filter(keep).contains(r) ==> s.contains(r),
{
    let f = s.filter(keep);
    laws::lemma_watermark(s);
    laws::lemma_watermark(f);
    assert forall|r: SegmentView| #[trigger] f.contains(r) implies s.contains(r) by {
        let i = choose|i: int| 0 <= i < f.len() && f[i] == r;
        seqs::lemma_filter_member(s, keep, i);
    }
    if model::newest_sealed(f) is Some {
        let m = model::newest_sealed(f)->0;
        let i = choose|i: int| 0 <= i < f.len() && #[trigger] f[i].meta.last_ts == m;
        seqs::lemma_filter_member(s, keep, i);
        let k = choose|k: int| 0 <= k < s.len() && s[k] == f[i];
        assert(s[k].meta.last_ts == m);
    }
}

pub proof fn lemma_marks_after(marks: Marks, source: i64, encoded: Seq<EncodedView>, key: (i64, Seq<char>))
    ensures
        ({
            let after = seal::marks_after(marks, source, encoded);
            if exists|k: int| 0 <= k < encoded.len() && key == (source, (#[trigger] encoded[k]).stream) {
                &&& after.dom().contains(key)
                &&& exists|k: int|
                    0 <= k < encoded.len() && key == (source, (#[trigger] encoded[k]).stream)
                        && after[key] == encoded[k].row.meta.last_ts
            } else {
                &&& after.dom().contains(key) == marks.dom().contains(key)
                &&& marks.dom().contains(key) ==> after[key] == marks[key]
            }
        }),
    decreases encoded.len(),
{
    if encoded.len() > 0 {
        let head = encoded.drop_last();
        lemma_marks_after(marks, source, head, key);
        assert(encoded[encoded.len() - 1] == encoded.last());
        assert forall|k: int| 0 <= k < head.len() implies #[trigger] head[k] == encoded[k] by {}
        if key != (source, encoded.last().stream) {
            if exists|k: int| 0 <= k < head.len() && key == (source, (#[trigger] head[k]).stream) {
                let k = choose|k: int|
                    0 <= k < head.len() && key == (source, (#[trigger] head[k]).stream)
                        && seal::marks_after(marks, source, head)[key]
                        == head[k].row.meta.last_ts;
                assert(key == (source, encoded[k].stream));
            } else {
                assert forall|k: int| 0 <= k < encoded.len() implies key != (
                    source,
                    (#[trigger] encoded[k]).stream,
                ) by {
                    if k < head.len() {
                        assert(head[k] == encoded[k]);
                    }
                }
            }
        }
    }
}

proof fn lemma_numbers_after(
    next: Numbers,
    source: i64,
    encoded: Seq<EncodedView>,
    key: (i64, Seq<char>),
)
    ensures
        ({
            let after = seal::numbers_after(next, source, encoded);
            if exists|k: int| 0 <= k < encoded.len() && key == (source, (#[trigger] encoded[k]).stream) {
                exists|k: int|
                    0 <= k < encoded.len() && key == (source, (#[trigger] encoded[k]).stream)
                        && ahead(seal::number_of(after, key.0, key.1), encoded[k].row.seq)
                        && seal::number_of(after, key.0, key.1) >= encoded[k].row.seq
            } else {
                seal::number_of(after, key.0, key.1) == seal::number_of(next, key.0, key.1)
            }
        }),
    decreases encoded.len(),
{
    if encoded.len() > 0 {
        let head = encoded.drop_last();
        let after = seal::numbers_after(next, source, encoded);
        lemma_numbers_after(next, source, head, key);
        assert(encoded[encoded.len() - 1] == encoded.last());
        assert forall|k: int| 0 <= k < head.len() implies #[trigger] head[k] == encoded[k] by {}
        if key == (source, encoded.last().stream) {
            assert(ahead(
                seal::number_of(after, key.0, key.1),
                encoded[encoded.len() - 1].row.seq,
            ));
        } else {
            if exists|k: int| 0 <= k < head.len() && key == (source, (#[trigger] head[k]).stream) {
                let k = choose|k: int|
                    0 <= k < head.len() && key == (source, (#[trigger] head[k]).stream) && ahead(
                        seal::number_of(
                            seal::numbers_after(next, source, head),
                            key.0,
                            key.1,
                        ),
                        head[k].row.seq,
                    ) && seal::number_of(
                        seal::numbers_after(next, source, head),
                        key.0,
                        key.1,
                    ) >= head[k].row.seq;
                assert(key == (source, encoded[k].stream));
            } else {
                assert forall|k: int| 0 <= k < encoded.len() implies key != (
                    source,
                    (#[trigger] encoded[k]).stream,
                ) by {
                    if k < head.len() {
                        assert(head[k] == encoded[k]);
                    }
                }
            }
        }
    }
}

proof fn lemma_wal_run_keeps_segments(d: DbView, source: i64, rows: Seq<WalView>)
    ensures
        d.wal_run(source, rows).0.segments == d.segments,
    decreases rows.len(),
{
    if rows.len() > 0 {
        lemma_wal_run_keeps_segments(d, source, rows.drop_last());
    }
}

proof fn lemma_ticks_keep_segments(d: DbView, ticks: Seq<TickView>)
    ensures
        d.ticks_run(ticks).0.segments == d.segments,
    decreases ticks.len(),
{
    if ticks.len() > 0 {
        lemma_ticks_keep_segments(d, ticks.drop_last());
        lemma_wal_run_keeps_segments(
            d.ticks_run(ticks.drop_last()).0,
            ticks.last().0,
            ticks.last().1,
        );
    }
}

proof fn lemma_each_keeps_segments(d: DbView, ticks: Seq<TickView>, n: nat)
    ensures
        tick::each_committed(d, ticks, n).0.segments == d.segments,
    decreases n,
{
    if n > 0 {
        lemma_each_keeps_segments(d, ticks, (n - 1) as nat);
        lemma_wal_run_keeps_segments(
            tick::each_committed(d, ticks, (n - 1) as nat).0,
            ticks[n - 1].0,
            ticks[n - 1].1,
        );
    }
}

proof fn lemma_same_segments(w: WriterView, n: WriterView)
    requires
        n.db.segments == w.db.segments,
        n.watermarks == w.watermarks,
        n.next_seq == w.next_seq,
    ensures
        tracks(w) ==> tracks(n),
        numbers(w) ==> numbers(n),
{
    assert forall|s: i64, st: Seq<char>| tracks(w) implies #[trigger] n.db.watermark(
        s,
        st,
    ) matches Some(m) ==> n.watermarks.dom().contains((s, st)) && m <= n.watermarks[(s, st)] by {
        assert(n.db.watermark(s, st) == w.db.watermark(s, st));
    }
    assert forall|s: i64, st: Seq<char>, r: SegmentView|
        numbers(w) && #[trigger] n.db.segments_of(s, st).contains(r) implies ahead(
        seal::number_of(n.next_seq, s, st),
        r.seq,
    ) by {
        assert(w.db.segments_of(s, st).contains(r));
    }
}

proof fn lemma_seal_tracks<E: SegmentEncoder>(
    w: WriterView,
    source: i64,
    batch: Seq<Seq<char>>,
    encoder: E,
)
    requires
        w.db.wf(),
        tracks(w),
        numbers(w),
        run::batch_sealed(w, source, batch, encoder) is Ok,
    ensures
        ({
            let n = run::handled(w, RequestView::Seal { source_id: source, batch }, encoder).0;
            tracks(n) && numbers(n)
        }),
{
    lemma_batch_sealed(w, source, batch, encoder);
    let (b, d) = run::batch_sealed(w, source, batch, encoder)->Ok_0;
    let placed = seal::segments_run(w.db, source, b.encoded).0;
    let n = run::handled(w, RequestView::Seal { source_id: source, batch }, encoder).0;
    assert(n.db == d);
    assert forall|s: i64, st: Seq<char>| #[trigger] n.db.watermark(s, st) matches Some(m)
        ==> n.watermarks.dom().contains((s, st)) && m <= n.watermarks[(s, st)] by {
        lemma_marks_after(w.watermarks, source, b.encoded, (s, st));
        assert(d.segments_of(s, st) == placed.segments_of(s, st));
        if exists|k: int|
            0 <= k < b.encoded.len() && (s, st) == (source, (#[trigger] b.encoded[k]).stream) {
            let k = choose|k: int|
                0 <= k < b.encoded.len() && (s, st) == (source, (#[trigger] b.encoded[k]).stream)
                    && n.watermarks[(s, st)] == b.encoded[k].row.meta.last_ts;
            assert(segment_in(w.db, placed, source, b.encoded[k]));
        } else {
            assert(placed.segments_of(s, st) == w.db.segments_of(s, st));
            assert(w.db.watermark(s, st) == n.db.watermark(s, st));
        }
    }
    assert forall|s: i64, st: Seq<char>, r: SegmentView| #[trigger]
        n.db.segments_of(s, st).contains(r) implies ahead(
        seal::number_of(n.next_seq, s, st),
        r.seq,
    ) by {
        lemma_numbers_after(w.next_seq, source, b.encoded, (s, st));
        assert(d.segments_of(s, st) == placed.segments_of(s, st));
        if exists|k: int|
            0 <= k < b.encoded.len() && (s, st) == (source, (#[trigger] b.encoded[k]).stream) {
            let k = choose|k: int|
                0 <= k < b.encoded.len() && (s, st) == (source, (#[trigger] b.encoded[k]).stream)
                    && ahead(seal::number_of(n.next_seq, s, st), b.encoded[k].row.seq)
                    && seal::number_of(n.next_seq, s, st) >= b.encoded[k].row.seq;
            assert(segment_in(w.db, placed, source, b.encoded[k]));
            assert(made_of(
                b.encoded[k],
                w.db.live_of(source, b.encoded[k].stream),
                seal::number_of(w.next_seq, source, b.encoded[k].stream),
            ));
            if r != b.encoded[k].row {
                assert(w.db.segments_of(s, st).contains(r));
            }
        } else {
            assert(placed.segments_of(s, st) == w.db.segments_of(s, st));
            assert(w.db.segments_of(s, st).contains(r));
        }
    }
}

proof fn lemma_evict_tracks(w: WriterView, n: WriterView, source: i64, cutoff: i64)
    requires
        tracks(w),
        numbers(w),
        n.db.segments == w.db.evicted(source, cutoff).segments,
        n.watermarks == w.watermarks,
        n.next_seq == w.next_seq,
    ensures
        tracks(n),
        numbers(n),
{
    let gone = w.db.evicted(source, cutoff);
    assert forall|s: i64, st: Seq<char>| (#[trigger] n.db.watermark(s, st) matches Some(m)
        ==> n.watermarks.dom().contains((s, st)) && m <= n.watermarks[(s, st)]) by {
        assert(n.db.segments_of(s, st) == gone.segments_of(s, st));
        if s == source {
            laws::law_eviction_keeps_the_window(w.db, source, cutoff, st);
            lemma_watermark_of_fewer(
                w.db.segments_of(s, st),
                |v: SegmentView| v.meta.last_ts >= cutoff,
            );
        } else {
            laws::law_eviction_is_bounded_to_one_source(w.db, source, cutoff, s, st);
        }
        assert(w.db.watermark(s, st) matches Some(m) ==> w.watermarks.dom().contains((s, st)));
    }
    assert forall|s: i64, st: Seq<char>, r: SegmentView| #[trigger]
        n.db.segments_of(s, st).contains(r) implies ahead(
        seal::number_of(n.next_seq, s, st),
        r.seq,
    ) by {
        assert(n.db.segments_of(s, st) == gone.segments_of(s, st));
        if s == source {
            laws::law_eviction_keeps_the_window(w.db, source, cutoff, st);
            lemma_watermark_of_fewer(
                w.db.segments_of(s, st),
                |v: SegmentView| v.meta.last_ts >= cutoff,
            );
        } else {
            laws::law_eviction_is_bounded_to_one_source(w.db, source, cutoff, s, st);
        }
        assert(w.db.segments_of(s, st).contains(r));
    }
}

/// Whatever it is asked, a writer goes on knowing every stream's newest sealed
/// row, so that no row is committed where no reader would see it, and keeps its
/// next numbers past those in use.
pub proof fn law_a_writer_keeps_track<E: SegmentEncoder>(w: WriterView, q: RequestView, encoder: E)
    requires
        w.db.wf(),
        tracks(w),
        numbers(w),
    ensures
        tracks(run::handled(w, q, encoder).0),
        numbers(run::handled(w, q, encoder).0),
{
    let n = run::handled(w, q, encoder).0;
    match q {
        RequestView::Seal { source_id, batch } => {
            if run::batch_sealed(w, source_id, batch, encoder) is Ok {
                lemma_seal_tracks(w, source_id, batch, encoder);
            }
        },
        RequestView::Evict { source_id, cutoff_ts } => {
            if w.db.writable() {
                lemma_evict_tracks(w, n, source_id, cutoff_ts);
            }
        },
        RequestView::Wal { ticks } => {
            let kept = tick::kept_ticks(ticks, w.floors, w.watermarks);
            lemma_ticks_keep_segments(w.db, kept);
            lemma_each_keeps_segments(w.db, kept, kept.len());
            lemma_same_segments(w, n);
        },
        _ => {
            lemma_same_segments(w, n);
        },
    }
}

/// Whether noted numbers and watermarks are those of an archive.
pub open spec fn noted(d: DbView, seen: (Numbers, Marks)) -> bool {
    &&& forall|s: i64, st: Seq<char>| #[trigger]
        seen.0.dom().contains((s, st)) ==> seen.0[(s, st)] == run::seeded_number(d, s, st)
    &&& forall|s: i64, st: Seq<char>| #[trigger]
        seen.1.dom().contains((s, st)) ==> d.watermark(s, st) == Some(seen.1[(s, st)])
}

pub proof fn lemma_source_seeded(
    d: DbView,
    source: i64,
    streams: Seq<Seq<char>>,
    seen: (Numbers, Marks),
    key: (i64, Seq<char>),
)
    requires
        noted(d, seen),
    ensures
        ({
            let after = run::source_seeded(d, source, streams, seen);
            &&& noted(d, after)
            &&& seen.0.dom().contains(key) || (key.0 == source && streams.contains(key.1))
                ==> after.0.dom().contains(key)
            &&& seen.1.dom().contains(key) || (key.0 == source && streams.contains(key.1)
                && d.watermark(key.0, key.1) is Some) ==> after.1.dom().contains(key)
        }),
    decreases streams.len(),
{
    if streams.len() > 0 {
        let head = streams.drop_last();
        lemma_source_seeded(d, source, head, seen, key);
        if streams.contains(key.1) && key.1 != streams.last() {
            let k = choose|k: int| 0 <= k < streams.len() && streams[k] == key.1;
            assert(head[k] == key.1);
        }
    }
}

pub proof fn lemma_seeded(d: DbView, n: nat, key: (i64, Seq<char>))
    requires
        n <= d.sources.len(),
    ensures
        noted(d, run::seeded(d, n)),
        (exists|k: int| 0 <= k < n && #[trigger] d.sources[k].id == key.0) && d.sealed_streams(
            key.0,
        ).contains(key.1) ==> run::seeded(d, n).0.dom().contains(key) && (d.watermark(
            key.0,
            key.1,
        ) is Some ==> run::seeded(d, n).1.dom().contains(key)),
    decreases n,
{
    if n > 0 {
        lemma_seeded(d, (n - 1) as nat, key);
        let source = d.sources[n - 1].id;
        lemma_source_seeded(
            d,
            source,
            d.sealed_streams(source),
            run::seeded(d, (n - 1) as nat),
            key,
        );
    }
}

pub proof fn lemma_sealed_stream(d: DbView, source: i64, name: Seq<char>)
    requires
        d.segments_of(source, name).len() > 0,
    ensures
        d.sealed_streams(source).contains(name),
        exists|i: int| 0 <= i < d.segments.len() && #[trigger] d.segments[i].source_id == source,
{
    names::lemma_named(Seq::empty(), d.segment_names(source), name);
    let of = |v: SegmentAtView| table::within::<SegmentAt>(v, source as int, None);
    let of_name = |v: SegmentAtView| table::within::<SegmentAt>(v, source as int, Some(name));
    seqs::lemma_filter_member(d.segments, of_name, 0);
    let i = choose|i: int|
        0 <= i < d.segments.len() && d.segments[i] == d.segments.filter(of_name)[0];
    assert(d.segments[i].source_id == source);
    seqs::lemma_filter_keeps(d.segments, of, i);
    let t = d.segments.filter(of);
    let k = choose|k: int| 0 <= k < t.len() && t[k] == d.segments[i];
    assert(d.segment_names(source)[k] == name);
}

/// A writer that continues an archive knows every stream's newest sealed row and
/// its numbers from the start, wherever every segment's source is there.
pub proof fn law_a_writer_continues_an_archive(w: WriterView)
    requires
        w.db.wf(),
        forall|i: int|
            0 <= i < w.db.segments.len() ==> w.db.has_source(
                (#[trigger] w.db.segments[i]).source_id,
            ),
        (w.next_seq, w.watermarks) == run::seeded(w.db, w.db.sources.len()),
    ensures
        tracks(w),
        numbers(w),
{
    let d = w.db;
    assert forall|s: i64, st: Seq<char>| (#[trigger] d.watermark(s, st) matches Some(m)
        ==> w.watermarks.dom().contains((s, st)) && m <= w.watermarks[(s, st)]) by {
        if d.watermark(s, st) is Some {
            laws::lemma_watermark(d.segments_of(s, st));
            lemma_sealed_stream(d, s, st);
            lemma_seeded(d, d.sources.len(), (s, st));
        }
    }
    assert forall|s: i64, st: Seq<char>, r: SegmentView| #[trigger]
        d.segments_of(s, st).contains(r) implies ahead(
        seal::number_of(w.next_seq, s, st),
        r.seq,
    ) by {
        lemma_sealed_stream(d, s, st);
        lemma_seeded(d, d.sources.len(), (s, st));
        lemma_newest_number(d, s, st, r);
    }
}

proof fn lemma_newest_number(d: DbView, source: i64, stream: Seq<char>, r: SegmentView)
    requires
        d.wf(),
        d.segments_of(source, stream).contains(r),
    ensures
        ahead(run::seeded_number(d, source, stream), r.seq),
{
    let here = |v: SegmentAtView| table::within::<SegmentAt>(v, source as int, Some(stream));
    let t = d.segments.filter(here);
    let rows = d.segments_of(source, stream);
    table::lemma_filter_in_order::<SegmentAt>(d.segments, here);
    let k = choose|k: int| 0 <= k < rows.len() && rows[k] == r;
    let last = rows.len() - 1;
    assert(rows[last] == t[last].row && rows[k] == t[k].row);
    if k < last {
        table::lemma_key_order(SegmentAt::key_of(t[k]), SegmentAt::key_of(t[last]));
    }
}

/// What a reader gets of a stream is the same before and after a seal of its
/// whole tail: the very segment that the tail read as is the one that was sealed.
pub proof fn law_a_seal_reads_the_same<E: SegmentEncoder>(
    w: WriterView,
    source: i64,
    batch: Seq<Seq<char>>,
    encoder: E,
    k: int,
)
    requires
        w.db.wf(),
        numbers(w),
        run::batch_sealed(w, source, batch, encoder) is Ok,
        0 <= k < (run::batch_sealed(w, source, batch, encoder)->Ok_0).0.encoded.len(),
        ({
            let e = (run::batch_sealed(w, source, batch, encoder)->Ok_0).0.encoded[k];
            &&& e.row.meta.last_ts == w.db.live_of(source, e.stream).last().ts
            &&& e.row.seq < u64::MAX
        }),
    ensures
        ({
            let (b, d) = run::batch_sealed(w, source, batch, encoder)->Ok_0;
            read::stream_parts(d, source, b.encoded[k].stream, encoder) == read::stream_parts(
                w.db,
                source,
                b.encoded[k].stream,
                encoder,
            )
        }),
{
    lemma_batch_sealed(w, source, batch, encoder);
    let (b, d) = run::batch_sealed(w, source, batch, encoder)->Ok_0;
    let n = seal::segments_run(w.db, source, b.encoded).0;
    let e = b.encoded[k];
    let rows = w.db.live_of(source, e.stream);
    let was = w.db.segments_of(source, e.stream);
    assert(segment_in(w.db, n, source, e));
    assert(made_of(e, rows, seal::number_of(w.next_seq, source, e.stream)));
    assert(sealed_by(e, encoder, rows));
    assert forall|i: int| 0 <= i < was.len() implies (#[trigger] was[i]).seq < e.row.seq by {
        assert(was.contains(was[i]));
    }
    assert(d.segments_of(source, e.stream) == was.push(e.row));
    let later = |r: WalView| r.ts > e.row.meta.last_ts;
    assert(d.live_of(source, e.stream) == n.live_of(source, e.stream));
    assert(d.live_of(source, e.stream) == rows.filter(later));
    laws::law_the_tail_is_in_order(w.db, source, e.stream);
    if rows.filter(later).len() > 0 {
        seqs::lemma_filter_member(rows, later, 0);
        let i = choose|i: int| 0 <= i < rows.len() && rows[i] == rows.filter(later)[0];
        assert(i < rows.len() - 1 ==> rows[i].ts < rows[rows.len() - 1].ts);
    }
    assert(read::payloads(was.push(e.row)) =~= read::payloads(was).push(e.row.bytes));
}

/// A seal leaves each segment of a stream ending after those before it.
pub proof fn law_a_seal_keeps_segments_one_after_the_other<E: SegmentEncoder>(
    w: WriterView,
    source: i64,
    batch: Seq<Seq<char>>,
    encoder: E,
    s: i64,
    stream: Seq<char>,
)
    requires
        w.db.wf(),
        numbers(w),
        run::batch_sealed(w, source, batch, encoder) is Ok,
        laws::one_after_the_other(w.db.segments_of(s, stream)),
        seal::number_of(w.next_seq, s, stream) < u64::MAX,
    ensures
        laws::one_after_the_other(
            (run::batch_sealed(w, source, batch, encoder)->Ok_0).1.segments_of(s, stream),
        ),
{
    lemma_batch_sealed(w, source, batch, encoder);
    let (b, d) = run::batch_sealed(w, source, batch, encoder)->Ok_0;
    let n = seal::segments_run(w.db, source, b.encoded).0;
    let was = w.db.segments_of(s, stream);
    assert(d.segments_of(s, stream) == n.segments_of(s, stream));
    if s == source && exists|k: int|
        0 <= k < b.encoded.len() && (#[trigger] b.encoded[k]).stream == stream {
        let k = choose|k: int| 0 <= k < b.encoded.len() && (#[trigger] b.encoded[k]).stream == stream;
        let e = b.encoded[k];
        let rows = w.db.live_of(source, stream);
        assert(segment_in(w.db, n, source, e));
        assert(made_of(e, rows, seal::number_of(w.next_seq, source, stream)));
        laws::law_the_tail_is_in_order(w.db, source, stream);
        laws::lemma_watermark(was);
        let i = choose|i: int| 0 <= i < rows.len() && #[trigger] rows[i].ts == e.row.meta.last_ts;
        assert(model::past(w.db.watermark(source, stream), rows[i].ts));
        assert forall|j: int| 0 <= j < was.len() implies (#[trigger] was[j]).seq < e.row.seq by {
            assert(was.contains(was[j]));
        }
        assert(n.segments_of(s, stream) == was.push(e.row));
        assert forall|x: int, y: int| 0 <= x < y < was.push(e.row).len() implies (
        #[trigger] was.push(e.row)[x]).meta.last_ts < (#[trigger] was.push(e.row)[y]).meta.last_ts by {
            if y < was.len() {
                assert(was[x].meta.last_ts < was[y].meta.last_ts);
            } else {
                assert(was[x].meta.last_ts <= w.db.watermark(source, stream)->0);
            }
        }
    } else {
        assert(n.segments_of(s, stream) == was);
    }
}

// ------------------------------------------------------------ ticks

/// Whether rows are all among a source's, each in its own stream.
pub open spec fn rows_in(d: DbView, source: i64, rows: Seq<WalView>) -> bool {
    forall|j: int|
        0 <= j < rows.len() ==> d.wal_of(source, (#[trigger] rows[j]).stream).contains(rows[j])
}

/// Whether every row of one archive is in another.
pub open spec fn rows_stay(d: DbView, n: DbView) -> bool {
    forall|s: i64, st: Seq<char>, r: WalView| #[trigger]
        d.wal_of(s, st).contains(r) ==> n.wal_of(s, st).contains(r)
}

proof fn lemma_row_inserted(d: DbView, source: i64, row: WalView)
    requires
        d.wf(),
        d.wal_inserted(source, row) is Ok,
    ensures
        ({
            let n = d.wal_inserted(source, row)->Ok_0;
            &&& n.wf()
            &&& rows_stay(d, n)
            &&& n.wal_of(source, row.stream).contains(row)
        }),
{
    let n = d.wal_inserted(source, row)->Ok_0;
    laws::law_a_row_reads_back(d, source, row, source, row.stream);
    let was = d.wal_of(source, row.stream);
    let now = n.wal_of(source, row.stream);
    let p = choose|p: int|
        0 <= p <= was.len() && now == #[trigger] was.take(p) + seq![row] + was.skip(p);
    assert(now[p] == row);
    assert forall|s: i64, st: Seq<char>, r: WalView| #[trigger]
        d.wal_of(s, st).contains(r) implies n.wal_of(s, st).contains(r) by {
        laws::law_a_row_reads_back(d, source, row, s, st);
        if s == source && st == row.stream {
            let i = choose|i: int| 0 <= i < was.len() && was[i] == r;
            if i < p {
                assert(now[i] == r);
            } else {
                assert(now[i + 1] == r);
            }
        }
    }
}

proof fn lemma_wal_run(d: DbView, source: i64, rows: Seq<WalView>)
    requires
        d.wf(),
        d.wal_run(source, rows).1 is None,
    ensures
        d.wal_run(source, rows).0.wf(),
        rows_stay(d, d.wal_run(source, rows).0),
        rows_in(d.wal_run(source, rows).0, source, rows),
    decreases rows.len(),
{
    if rows.len() > 0 {
        let head = rows.drop_last();
        let was = d.wal_run(source, head).0;
        let n = d.wal_run(source, rows).0;
        lemma_wal_run(d, source, head);
        lemma_row_inserted(was, source, rows.last());
        assert forall|j: int| 0 <= j < rows.len() implies n.wal_of(
            source,
            (#[trigger] rows[j]).stream,
        ).contains(rows[j]) by {
            if j < head.len() {
                assert(head[j] == rows[j]);
                assert(was.wal_of(source, head[j].stream).contains(head[j]));
            }
        }
        assert forall|s: i64, st: Seq<char>, r: WalView| #[trigger]
            d.wal_of(s, st).contains(r) implies n.wal_of(s, st).contains(r) by {
            assert(was.wal_of(s, st).contains(r));
        }
    }
}

proof fn lemma_ticks_run(d: DbView, ticks: Seq<TickView>)
    requires
        d.wf(),
        d.ticks_run(ticks).1 is None,
    ensures
        d.ticks_run(ticks).0.wf(),
        forall|i: int|
            0 <= i < ticks.len() ==> rows_in(
                d.ticks_run(ticks).0,
                (#[trigger] ticks[i]).0,
                ticks[i].1,
            ),
    decreases ticks.len(),
{
    if ticks.len() > 0 {
        let head = ticks.drop_last();
        let was = d.ticks_run(head).0;
        let n = d.ticks_run(ticks).0;
        lemma_ticks_run(d, head);
        lemma_wal_run(was, ticks.last().0, ticks.last().1);
        assert forall|i: int| 0 <= i < ticks.len() implies rows_in(
            n,
            (#[trigger] ticks[i]).0,
            ticks[i].1,
        ) by {
            if i < head.len() {
                assert(head[i] == ticks[i]);
                assert(rows_in(was, head[i].0, head[i].1));
                lemma_rows_stay(was, n, head[i].0, head[i].1);
            }
        }
    }
}

proof fn lemma_rows_stay(was: DbView, n: DbView, source: i64, rows: Seq<WalView>)
    requires
        rows_stay(was, n),
        rows_in(was, source, rows),
    ensures
        rows_in(n, source, rows),
{
    assert forall|j: int| 0 <= j < rows.len() implies n.wal_of(
        source,
        (#[trigger] rows[j]).stream,
    ).contains(rows[j]) by {
        assert(was.wal_of(source, rows[j].stream).contains(rows[j]));
    }
}

proof fn lemma_each_committed(d: DbView, ticks: Seq<TickView>, n: nat, i: nat)
    requires
        d.wf(),
        i < n <= ticks.len(),
        tick::each_committed(d, ticks, i).0.wal_run(ticks[i as int].0, ticks[i as int].1).1 is None,
    ensures
        tick::each_committed(d, ticks, n).0.wf(),
        rows_in(tick::each_committed(d, ticks, n).0, ticks[i as int].0, ticks[i as int].1),
    decreases n,
{
    let was = tick::each_committed(d, ticks, (n - 1) as nat).0;
    let t = ticks[n - 1];
    lemma_each_in_order(d, ticks, (n - 1) as nat);
    if was.wal_run(t.0, t.1).1 is None {
        lemma_wal_run(was, t.0, t.1);
    }
    if i < n - 1 {
        lemma_each_committed(d, ticks, (n - 1) as nat, i);
        if was.wal_run(t.0, t.1).1 is None {
            lemma_rows_stay(
                was,
                was.wal_run(t.0, t.1).0,
                ticks[i as int].0,
                ticks[i as int].1,
            );
        }
    }
}

proof fn lemma_each_in_order(d: DbView, ticks: Seq<TickView>, n: nat)
    requires
        d.wf(),
        n <= ticks.len(),
    ensures
        tick::each_committed(d, ticks, n).0.wf(),
    decreases n,
{
    if n > 0 {
        let was = tick::each_committed(d, ticks, (n - 1) as nat).0;
        lemma_each_in_order(d, ticks, (n - 1) as nat);
        if was.wal_run(ticks[n - 1].0, ticks[n - 1].1).1 is None {
            lemma_wal_run(was, ticks[n - 1].0, ticks[n - 1].1);
        }
    }
}

/// What a tick commits is in order: no row of it is at or below its stream's
/// newest sealed row, nor at or below its source's floor.
pub proof fn law_a_tick_commits_only_rows_in_order(
    ticks: Seq<TickView>,
    floors: Map<i64, i64>,
    marks: Marks,
    i: int,
    j: int,
)
    requires
        0 <= i < tick::kept_ticks(ticks, floors, marks).len(),
        0 <= j < tick::kept_ticks(ticks, floors, marks)[i].1.len(),
    ensures
        ({
            let t = tick::kept_ticks(ticks, floors, marks)[i];
            &&& !tick::shadows(marks, t.0, t.1[j])
            &&& floors.dom().contains(t.0) ==> t.1[j].ts > floors[t.0]
        }),
{
    let above = tick::above_floors(ticks, floors);
    let kept = tick::kept_ticks(ticks, floors, marks);
    let t = kept[i];
    if tick::any_late(marks, above) {
        lemma_without_late(marks, above, i);
        let k = choose|k: int|
            0 <= k < above.len() && (#[trigger] above[k]).0 == t.0 && t.1 == tick::timely(
                marks,
                above[k],
            );
        let keep = |r: WalView| !tick::shadows(marks, above[k].0, r);
        seqs::lemma_filter_member(above[k].1, keep, j);
        let m = choose|m: int| 0 <= m < above[k].1.len() && above[k].1[m] == t.1[j];
        seqs::lemma_filter_member(ticks, |t: TickView| !tick::below_floor(floors, t), k);
        assert(above[k].1[m].ts == t.1[j].ts);
    } else {
        seqs::lemma_filter_member(ticks, |t: TickView| !tick::below_floor(floors, t), i);
        assert(t == above[i]);
        assert(tick::late(marks, above[i]).len() == 0);
        let late = |r: WalView| tick::shadows(marks, above[i].0, r);
        if tick::shadows(marks, t.0, t.1[j]) {
            seqs::lemma_filter_keeps(above[i].1, late, j);
        }
        assert(t.1[j].ts == above[i].1[j].ts);
    }
}

proof fn lemma_without_late(marks: Marks, ticks: Seq<TickView>, i: int)
    requires
        0 <= i < tick::without_late(marks, ticks).len(),
    ensures
        exists|k: int|
            0 <= k < ticks.len() && (#[trigger] ticks[k]).0 == tick::without_late(marks, ticks)[i].0
                && tick::without_late(marks, ticks)[i].1 == tick::timely(marks, ticks[k]),
    decreases ticks.len(),
{
    let head = ticks.drop_last();
    let before = tick::without_late(marks, head);
    let here = tick::without_late(marks, ticks);
    if i < before.len() {
        lemma_without_late(marks, head, i);
        let k = choose|k: int|
            0 <= k < head.len() && (#[trigger] head[k]).0 == before[i].0 && before[i].1
                == tick::timely(marks, head[k]);
        assert(ticks[k] == head[k]);
        assert(here[i] == before[i]);
    } else {
        assert(ticks[ticks.len() - 1] == ticks.last());
    }
}

proof fn lemma_live(w: WriterView, n: DbView, source: i64, row: WalView)
    requires
        tracks(w),
        n.segments == w.db.segments,
        n.wal_of(source, row.stream).contains(row),
        !tick::shadows(w.watermarks, source, row),
    ensures
        n.live_of(source, row.stream).contains(row),
{
    let mark = n.watermark(source, row.stream);
    assert(mark == w.db.watermark(source, row.stream));
    let rows = n.wal_of(source, row.stream);
    let k = choose|k: int| 0 <= k < rows.len() && rows[k] == row;
    seqs::lemma_filter_keeps(rows, |r: WalView| model::past(mark, r.ts), k);
}

/// A committed row is readable at once: every row that a tick keeps is in its
/// stream's tail once the tick is handled.
pub proof fn law_a_committed_row_is_read<E: SegmentEncoder>(
    w: WriterView,
    ticks: Seq<TickView>,
    encoder: E,
    i: int,
    j: int,
)
    requires
        w.db.wf(),
        w.db.writable(),
        tracks(w),
        w.db.ticks_run(tick::kept_ticks(ticks, w.floors, w.watermarks)).1 is None,
        0 <= i < tick::kept_ticks(ticks, w.floors, w.watermarks).len(),
        0 <= j < tick::kept_ticks(ticks, w.floors, w.watermarks)[i].1.len(),
    ensures
        ({
            let (n, reply) = run::handled(w, RequestView::Wal { ticks }, encoder);
            let t = tick::kept_ticks(ticks, w.floors, w.watermarks)[i];
            &&& reply == ReplyView::Done
            &&& n.db.live_of(t.0, t.1[j].stream).contains(t.1[j])
        }),
{
    let kept = tick::kept_ticks(ticks, w.floors, w.watermarks);
    law_a_tick_commits_only_rows_in_order(ticks, w.floors, w.watermarks, i, j);
    lemma_ticks_run(w.db, kept);
    lemma_ticks_keep_segments(w.db, kept);
    let n = w.db.ticks_run(kept).0;
    assert(rows_in(n, kept[i].0, kept[i].1));
    lemma_live(w, n, kept[i].0, kept[i].1[j]);
}

/// A duplicate costs only the source that has it: where a tick collides, the
/// rows of every source that does not collide are committed and readable all the
/// same, and the writer goes on.
pub proof fn law_a_collision_costs_only_its_source<E: SegmentEncoder>(
    w: WriterView,
    ticks: Seq<TickView>,
    encoder: E,
    i: nat,
    j: int,
)
    requires
        w.db.wf(),
        w.db.writable(),
        tracks(w),
        w.db.ticks_run(tick::kept_ticks(ticks, w.floors, w.watermarks)).1 is Some,
        i < tick::kept_ticks(ticks, w.floors, w.watermarks).len(),
        0 <= j < tick::kept_ticks(ticks, w.floors, w.watermarks)[i as int].1.len(),
        tick::each_committed(
            w.db,
            tick::kept_ticks(ticks, w.floors, w.watermarks),
            i,
        ).0.wal_run(
            tick::kept_ticks(ticks, w.floors, w.watermarks)[i as int].0,
            tick::kept_ticks(ticks, w.floors, w.watermarks)[i as int].1,
        ).1 is None,
    ensures
        ({
            let (n, reply) = run::handled(w, RequestView::Wal { ticks }, encoder);
            let t = tick::kept_ticks(ticks, w.floors, w.watermarks)[i as int];
            &&& reply == ReplyView::Done
            &&& n.db.live_of(t.0, t.1[j].stream).contains(t.1[j])
        }),
{
    let kept = tick::kept_ticks(ticks, w.floors, w.watermarks);
    law_a_tick_commits_only_rows_in_order(ticks, w.floors, w.watermarks, i as int, j);
    lemma_each_committed(w.db, kept, kept.len(), i);
    lemma_each_keeps_segments(w.db, kept, kept.len());
    let n = tick::each_committed(w.db, kept, kept.len()).0;
    assert(rows_in(n, kept[i as int].0, kept[i as int].1));
    lemma_live(w, n, kept[i as int].0, kept[i as int].1[j]);
}

/// A resumed source goes on after its newest row: whatever it is handed later,
/// no row at or below that one is committed.
pub proof fn law_a_resumed_source_takes_only_newer_rows<E: SegmentEncoder>(
    w: WriterView,
    source: i64,
    anchor: i64,
    session: Seq<char>,
    encoder: E,
    ticks: Seq<TickView>,
    i: int,
    j: int,
)
    requires
        run::handled(
            w,
            RequestView::ResumeSource { source_id: source, clock_anchor_wall_ns: anchor, session },
            encoder,
        ).1 matches ReplyView::Resumed(Ok((_, Some(_)))),
        ({
            let n = run::handled(
                w,
                RequestView::ResumeSource {
                    source_id: source,
                    clock_anchor_wall_ns: anchor,
                    session,
                },
                encoder,
            ).0;
            let kept = tick::kept_ticks(ticks, n.floors, n.watermarks);
            0 <= i < kept.len() && kept[i].0 == source && 0 <= j < kept[i].1.len()
        }),
    ensures
        ({
            let n = run::handled(
                w,
                RequestView::ResumeSource {
                    source_id: source,
                    clock_anchor_wall_ns: anchor,
                    session,
                },
                encoder,
            ).0;
            let kept = tick::kept_ticks(ticks, n.floors, n.watermarks);
            kept[i].1[j].ts > w.db.time_span(source).1->0
        }),
{
    let n = run::handled(
        w,
        RequestView::ResumeSource { source_id: source, clock_anchor_wall_ns: anchor, session },
        encoder,
    ).0;
    law_a_tick_commits_only_rows_in_order(ticks, n.floors, n.watermarks, i, j);
}

} // verus!
