//! What a seal makes of the streams it is asked to seal.

use vstd::prelude::*;

use super::laws;
use super::run;
use super::run::{ReplyView, RequestView, WriterView};
use super::seal;
use super::seal::{EncodedView, Numbers};
use crate::db;
use crate::db::model::DbView;
use crate::db::records::{ClockAt, SegmentAt, SegmentAtView};
use crate::db::store;
use crate::db::table;
use crate::db::table::{Key, Keyed};
use crate::db::{SegmentMeta, SegmentView, WalView};
use crate::segment;
use crate::segment::{Encoding, SealedView, SegmentEncoder};
use crate::seqs;

verus! {

/// What a segment of an encoder's is in an archive, under a number.
pub open spec fn segment_row(s: SealedView, seq: u64) -> SegmentView {
    SegmentView {
        seq,
        meta: SegmentMeta { rows: s.rows, first_ts: s.first_ts, last_ts: s.last_ts },
        bytes: s.bytes,
        caller_index: s.index,
    }
}

proof fn lemma_streams_encoded<E: SegmentEncoder>(
    d: DbView,
    source: i64,
    next: Numbers,
    streams: Seq<Seq<char>>,
    encoder: E,
)
    requires
        seal::batch_encoded(d, source, next, streams, encoder) is Ok,
    ensures
        ({
            let b = seal::batch_encoded(d, source, next, streams, encoder)->Ok_0;
            &&& b.encoded.map_values(|e: EncodedView| e.stream) == streams.filter(
                |s: Seq<char>|
                    d.live_of(source, s).len() > 0 && encoder.encoded(
                        s,
                        d.live_of(source, s),
                    ) is Ok && encoder.encoded(s, d.live_of(source, s))->Ok_0 is Some,
            )
            &&& forall|k: int|
                0 <= k < b.encoded.len() ==> encoder.encoded(
                    (#[trigger] b.encoded[k]).stream,
                    d.live_of(source, b.encoded[k].stream),
                ) == Encoding::Ok(
                    Some(
                        SealedView {
                            bytes: b.encoded[k].row.bytes,
                            rows: b.encoded[k].row.meta.rows,
                            first_ts: b.encoded[k].row.meta.first_ts,
                            last_ts: b.encoded[k].row.meta.last_ts,
                            index: b.encoded[k].row.caller_index,
                        },
                    ),
                )
        }),
    decreases streams.len(),
{
    let gives = |s: Seq<char>|
        d.live_of(source, s).len() > 0 && encoder.encoded(s, d.live_of(source, s)) is Ok
            && encoder.encoded(s, d.live_of(source, s))->Ok_0 is Some;
    let b = seal::batch_encoded(d, source, next, streams, encoder)->Ok_0;
    reveal(Seq::filter);
    if streams.len() == 0 {
        assert(b.encoded.map_values(|e: EncodedView| e.stream) =~= streams.filter(gives));
    } else {
        let head = streams.drop_last();
        lemma_streams_encoded(d, source, next, head, encoder);
        let a = seal::batch_encoded(d, source, next, head, encoder)->Ok_0;
        let names = |e: EncodedView| e.stream;
        if gives(streams.last()) {
            assert(b.encoded.map_values(names) =~= a.encoded.map_values(names).push(
                streams.last(),
            ));
        } else {
            assert(b.encoded == a.encoded);
        }
    }
}

/// A seal takes exactly the streams it is asked for that have live rows its encoder
/// makes a segment of, in the order asked for, none left out and none twice over.
pub proof fn law_a_seal_takes_every_stream_asked_for<E: SegmentEncoder>(
    w: WriterView,
    source: i64,
    batch: Seq<Seq<char>>,
    encoder: E,
)
    requires
        run::batch_sealed(w, source, batch, encoder) is Ok,
    ensures
        (run::batch_sealed(w, source, batch, encoder)->Ok_0).0.encoded.map_values(
            |e: EncodedView| e.stream,
        ) == batch.filter(
            |s: Seq<char>|
                w.db.live_of(source, s).len() > 0 && encoder.encoded(
                    s,
                    w.db.live_of(source, s),
                ) is Ok && encoder.encoded(s, w.db.live_of(source, s))->Ok_0 is Some,
        ),
{
    lemma_streams_encoded(w.db, source, w.next_seq, batch, encoder);
}

/// A seal that succeeds seals everything it was asked to. Where the encoder makes a
/// segment of a stream's live rows, that segment is among those sealed, and the stream
/// has it afterwards, under the stream's next number, with what the encoder said of it;
/// the rows up to its newest are live no more, and those past it stay.
pub proof fn law_a_seal_seals_every_stream<E: SegmentEncoder>(
    w: WriterView,
    source: i64,
    batch: Seq<Seq<char>>,
    encoder: E,
    i: int,
    s: SealedView,
)
    requires
        w.db.wf(),
        run::batch_sealed(w, source, batch, encoder) is Ok,
        0 <= i < batch.len(),
        w.db.live_of(source, batch[i]).len() > 0,
        encoder.encoded(batch[i], w.db.live_of(source, batch[i])) == Encoding::Ok(Some(s)),
    ensures
        ({
            let (b, d) = run::batch_sealed(w, source, batch, encoder)->Ok_0;
            let seq = seal::number_of(w.next_seq, source, batch[i]);
            &&& b.encoded.contains(
                EncodedView { stream: batch[i], row: segment_row(s, seq) },
            )
            &&& d.segments_of(source, batch[i]).contains(segment_row(s, seq))
            &&& d.live_of(source, batch[i]) == w.db.live_of(source, batch[i]).filter(
                |r: WalView| r.ts > s.last_ts,
            )
            &&& (forall|k: int|
                0 <= k < w.db.segments_of(source, batch[i]).len() ==> (
                #[trigger] w.db.segments_of(source, batch[i])[k]).seq < seq)
                ==> d.segments_of(source, batch[i]) == w.db.segments_of(source, batch[i]).push(
                segment_row(s, seq),
            )
            &&& run::handled(
                w,
                RequestView::Seal { source_id: source, batch },
                encoder,
            ).0.db == d
            &&& run::handled(w, RequestView::Seal { source_id: source, batch }, encoder).1
                == ReplyView::Done
        }),
{
    let (b, d) = run::batch_sealed(w, source, batch, encoder)->Ok_0;
    let n = seal::segments_run(w.db, source, b.encoded).0;
    let seq = seal::number_of(w.next_seq, source, batch[i]);
    let gives = |s: Seq<char>|
        w.db.live_of(source, s).len() > 0 && encoder.encoded(s, w.db.live_of(source, s)) is Ok
            && encoder.encoded(s, w.db.live_of(source, s))->Ok_0 is Some;
    lemma_streams_encoded(w.db, source, w.next_seq, batch, encoder);
    laws::lemma_batch_sealed(w, source, batch, encoder);
    seqs::lemma_filter_keeps(batch, gives, i);
    let names = b.encoded.map_values(|e: EncodedView| e.stream);
    let k = choose|k: int| 0 <= k < names.len() && names[k] == batch[i];
    let e = b.encoded[k];
    assert(e.stream == batch[i]);
    assert(laws::made_of(e, w.db.live_of(source, e.stream), seq));
    assert(e == (EncodedView { stream: batch[i], row: segment_row(s, seq) }));
    assert(laws::segment_in(w.db, n, source, e));
    assert(d.segments_of(source, e.stream) == n.segments_of(source, e.stream));
    assert(d.live_of(source, e.stream) == n.live_of(source, e.stream));
}

/// A number that no segment of a stream has is not held.
pub proof fn lemma_no_segment_held(d: DbView, source: i64, stream: Seq<char>, seq: u64)
    requires
        forall|k: int|
            0 <= k < d.segments_of(source, stream).len() ==> (#[trigger] d.segments_of(
                source,
                stream,
            )[k]).seq != seq,
    ensures
        !table::holds::<SegmentAt>(
            d.segments,
            Key { source: source as int, stream, at: seq as int },
        ),
{
    let key = Key { source: source as int, stream, at: seq as int };
    let here = |v: SegmentAtView| table::within::<SegmentAt>(v, source as int, Some(stream));
    let t = d.segments.filter(here);
    if table::holds::<SegmentAt>(d.segments, key) {
        let i = choose|i: int|
            0 <= i < d.segments.len() && #[trigger] SegmentAt::key_of(d.segments[i]) == key;
        seqs::lemma_filter_keeps(d.segments, here, i);
        let k = choose|k: int| 0 <= k < t.len() && t[k] == d.segments[i];
        assert(d.segments_of(source, stream)[k] == t[k].row);
    }
}

/// Whether what an encoder makes of a stream's live rows can be sealed: nothing, or a
/// segment over rows it was given, as many as its span holds, ending at one of them.
pub open spec fn sealable<E: SegmentEncoder>(
    encoder: E,
    stream: Seq<char>,
    rows: Seq<WalView>,
) -> bool {
    rows.len() > 0 ==> match encoder.encoded(stream, rows) {
        Err(_) => false,
        Ok(None) => true,
        Ok(Some(s)) => {
            &&& s.rows > 0
            &&& s.rows == rows.filter(|r: WalView| s.first_ts <= r.ts <= s.last_ts).len()
            &&& rows[0].ts <= s.first_ts <= s.last_ts <= rows.last().ts
            &&& exists|k: int| 0 <= k < rows.len() && (#[trigger] rows[k]).ts == s.last_ts
        },
    }
}

proof fn lemma_last_found(rows: Seq<WalView>, ts: i64, k: int)
    requires
        0 <= k < rows.len(),
        rows[k].ts == ts,
    ensures
        seal::last_at(rows, ts) is Some,
        seal::last_at(rows, ts)->0.ts == ts,
    decreases rows.len(),
{
    if rows.last().ts != ts {
        assert(rows.drop_last()[k] == rows[k]);
        lemma_last_found(rows.drop_last(), ts, k);
    }
}

proof fn lemma_encodes<E: SegmentEncoder>(
    d: DbView,
    source: i64,
    next: Numbers,
    streams: Seq<Seq<char>>,
    encoder: E,
)
    requires
        forall|i: int|
            0 <= i < streams.len() ==> sealable(
                encoder,
                #[trigger] streams[i],
                d.live_of(source, streams[i]),
            ),
    ensures
        seal::batch_encoded(d, source, next, streams, encoder) is Ok,
    decreases streams.len(),
{
    if streams.len() > 0 {
        let head = streams.drop_last();
        assert forall|i: int| 0 <= i < head.len() implies sealable(
            encoder,
            #[trigger] head[i],
            d.live_of(source, head[i]),
        ) by {
            assert(head[i] == streams[i]);
        }
        lemma_encodes(d, source, next, head, encoder);
        let stream = streams[streams.len() - 1];
        let rows = d.live_of(source, stream);
        assert(sealable(encoder, stream, rows));
        if rows.len() > 0 {
            if let Ok(Some(s)) = encoder.encoded(stream, rows) {
                let k = choose|k: int| 0 <= k < rows.len() && (#[trigger] rows[k]).ts == s.last_ts;
                lemma_last_found(rows, s.last_ts, k);
                assert(segment::honest(s, rows));
            }
        }
    }
}

proof fn lemma_inserts(d: DbView, source: i64, next: Numbers, encoded: Seq<EncodedView>)
    requires
        d.wf(),
        d.has_source(source),
        forall|k: int|
            0 <= k < encoded.len() ==> laws::made_of(
                #[trigger] encoded[k],
                d.live_of(source, encoded[k].stream),
                seal::number_of(next, source, encoded[k].stream),
            ),
        forall|j: int, k: int|
            0 <= j < k < encoded.len() ==> (#[trigger] encoded[j]).stream != (
            #[trigger] encoded[k]).stream,
        forall|k: int, r: SegmentView|
            0 <= k < encoded.len() && #[trigger] d.segments_of(
                source,
                (#[trigger] encoded[k]).stream,
            ).contains(r) ==> r.seq < encoded[k].row.seq,
    ensures
        seal::segments_run(d, source, encoded).1 is None,
        seal::segments_run(d, source, encoded).0.sources == d.sources,
    decreases encoded.len(),
{
    if encoded.len() > 0 {
        let head = encoded.drop_last();
        assert forall|k: int| 0 <= k < head.len() implies #[trigger] head[k] == encoded[k] by {}
        lemma_inserts(d, source, next, head);
        laws::lemma_segments_run(d, source, next, head);
        let was = seal::segments_run(d, source, head).0;
        let e = encoded[encoded.len() - 1];
        assert(was.segments_of(source, e.stream) == d.segments_of(source, e.stream));
        assert forall|k: int| 0 <= k < was.segments_of(source, e.stream).len() implies (
        #[trigger] was.segments_of(source, e.stream)[k]).seq != e.row.seq by {
            assert(d.segments_of(source, e.stream).contains(was.segments_of(source, e.stream)[k]));
        }
        lemma_no_segment_held(was, source, e.stream, e.row.seq);
        let i = choose|i: int| 0 <= i < d.sources.len() && #[trigger] d.sources[i].id == source;
        assert(was.sources[i].id == source);
    }
}

/// A seal goes through where nothing stands against it: the archive can be written and
/// has the source, the streams asked for are distinct with numbers left to give, and what
/// the encoder makes of each can be sealed.
pub proof fn law_a_seal_goes_through<E: SegmentEncoder>(
    w: WriterView,
    source: i64,
    batch: Seq<Seq<char>>,
    encoder: E,
)
    requires
        w.db.wf(),
        !w.db.read_only,
        !w.db.legacy,
        w.db.has_source(source),
        laws::numbers(w),
        forall|j: int, k: int|
            0 <= j < k < batch.len() ==> #[trigger] batch[j] != #[trigger] batch[k],
        forall|i: int|
            0 <= i < batch.len() ==> seal::number_of(w.next_seq, source, #[trigger] batch[i])
                < u64::MAX && sealable(encoder, batch[i], w.db.live_of(source, batch[i])),
    ensures
        run::batch_sealed(w, source, batch, encoder) is Ok,
{
    lemma_encodes(w.db, source, w.next_seq, batch, encoder);
    let b = seal::batch_encoded(w.db, source, w.next_seq, batch, encoder)->Ok_0;
    lemma_streams_encoded(w.db, source, w.next_seq, batch, encoder);
    laws::lemma_batch_encoded(w.db, source, w.next_seq, batch, encoder);
    let gives = |s: Seq<char>|
        w.db.live_of(source, s).len() > 0 && encoder.encoded(s, w.db.live_of(source, s)) is Ok
            && encoder.encoded(s, w.db.live_of(source, s))->Ok_0 is Some;
    let names = b.encoded.map_values(|e: EncodedView| e.stream);
    lemma_filter_distinct(batch, gives);
    assert forall|j: int, k: int| 0 <= j < k < b.encoded.len() implies (
    #[trigger] b.encoded[j]).stream != (#[trigger] b.encoded[k]).stream by {
        assert(names[j] != names[k]);
    }
    assert forall|k: int, r: SegmentView|
        0 <= k < b.encoded.len() && #[trigger] w.db.segments_of(
            source,
            (#[trigger] b.encoded[k]).stream,
        ).contains(r) implies r.seq < b.encoded[k].row.seq by {
        seqs::lemma_filter_member(batch, gives, k);
        let i = choose|i: int| 0 <= i < batch.len() && batch[i] == batch.filter(gives)[k];
        assert(names[k] == batch[i]);
        assert(seal::number_of(w.next_seq, source, batch[i]) < u64::MAX);
        assert(laws::ahead(seal::number_of(w.next_seq, source, batch[i]), r.seq));
    }
    lemma_inserts(w.db, source, w.next_seq, b.encoded);
    let n = seal::segments_run(w.db, source, b.encoded).0;
    let i = choose|i: int| 0 <= i < w.db.sources.len() && #[trigger] w.db.sources[i].id == source;
    assert(n.sources[i].id == source);
}

proof fn lemma_filter_distinct(s: Seq<Seq<char>>, keep: spec_fn(Seq<char>) -> bool)
    requires
        forall|j: int, k: int| 0 <= j < k < s.len() ==> #[trigger] s[j] != #[trigger] s[k],
    ensures
        forall|j: int, k: int|
            0 <= j < k < s.filter(keep).len() ==> #[trigger] s.filter(keep)[j]
                != #[trigger] s.filter(keep)[k],
    decreases s.len(),
{
    reveal(Seq::filter);
    if s.len() > 0 {
        let d = s.drop_last();
        lemma_filter_distinct(d, keep);
        assert forall|j: int, k: int| 0 <= j < k < s.filter(keep).len() implies
            #[trigger] s.filter(keep)[j] != #[trigger] s.filter(keep)[k] by {
            if k >= d.filter(keep).len() {
                seqs::lemma_filter_member(d, keep, j);
                let i = choose|i: int| 0 <= i < d.len() && d[i] == d.filter(keep)[j];
                assert(s[i] != s[s.len() - 1]);
            } else {
                assert(d.filter(keep)[j] != d.filter(keep)[k]);
            }
        }
    }
}

// ------------------------------------------------------------ what the writer notes

proof fn lemma_numbers_noted(
    next: Numbers,
    source: i64,
    encoded: Seq<EncodedView>,
    key: (i64, Seq<char>),
    seq: u64,
)
    requires
        seq < u64::MAX,
        forall|k: int|
            0 <= k < encoded.len() && key == (source, (#[trigger] encoded[k]).stream)
                ==> encoded[k].row.seq == seq,
    ensures
        ({
            let after = seal::numbers_after(next, source, encoded);
            if exists|k: int| 0 <= k < encoded.len() && key == (source, (#[trigger] encoded[k]).stream) {
                after.dom().contains(key) && after[key] == seq + 1
            } else {
                after.dom().contains(key) == next.dom().contains(key) && after[key] == next[key]
            }
        }),
    decreases encoded.len(),
{
    if encoded.len() > 0 {
        let head = encoded.drop_last();
        let last = encoded[encoded.len() - 1];
        assert forall|k: int| 0 <= k < head.len() implies #[trigger] head[k] == encoded[k] by {}
        lemma_numbers_noted(next, source, head, key, seq);
        if key != (source, last.stream) {
            if exists|k: int| 0 <= k < encoded.len() && key == (source, (#[trigger] encoded[k]).stream) {
                let k = choose|k: int|
                    0 <= k < encoded.len() && key == (source, (#[trigger] encoded[k]).stream);
                assert(head[k] == encoded[k]);
            }
            if exists|k: int| 0 <= k < head.len() && key == (source, (#[trigger] head[k]).stream) {
                let k = choose|k: int|
                    0 <= k < head.len() && key == (source, (#[trigger] head[k]).stream);
                assert(encoded[k] == head[k]);
            }
        }
    }
}

/// A writer notes of a stream that it sealed exactly where the new segment ends and the
/// number after its own.
pub proof fn law_a_seal_is_noted<E: SegmentEncoder>(
    w: WriterView,
    source: i64,
    batch: Seq<Seq<char>>,
    encoder: E,
    i: int,
    s: SealedView,
)
    requires
        w.db.wf(),
        run::batch_sealed(w, source, batch, encoder) is Ok,
        0 <= i < batch.len(),
        w.db.live_of(source, batch[i]).len() > 0,
        encoder.encoded(batch[i], w.db.live_of(source, batch[i])) == Encoding::Ok(Some(s)),
        seal::number_of(w.next_seq, source, batch[i]) < u64::MAX,
    ensures
        ({
            let n = run::handled(w, RequestView::Seal { source_id: source, batch }, encoder).0;
            let key = (source, batch[i]);
            &&& n.watermarks.dom().contains(key)
            &&& n.watermarks[key] == s.last_ts
            &&& n.next_seq.dom().contains(key)
            &&& n.next_seq[key] == seal::number_of(w.next_seq, source, batch[i]) + 1
        }),
{
    let b = (run::batch_sealed(w, source, batch, encoder)->Ok_0).0;
    let seq = seal::number_of(w.next_seq, source, batch[i]);
    let key = (source, batch[i]);
    law_a_seal_seals_every_stream(w, source, batch, encoder, i, s);
    lemma_streams_encoded(w.db, source, w.next_seq, batch, encoder);
    laws::lemma_batch_sealed(w, source, batch, encoder);
    let mine = EncodedView { stream: batch[i], row: segment_row(s, seq) };
    let m = choose|m: int| 0 <= m < b.encoded.len() && b.encoded[m] == mine;
    assert(key == (source, b.encoded[m].stream));
    assert forall|k: int|
        0 <= k < b.encoded.len() && key == (source, (#[trigger] b.encoded[k]).stream) implies b.encoded[k].row.seq
        == seq && b.encoded[k].row.meta.last_ts == s.last_ts by {
        assert(laws::made_of(b.encoded[k], w.db.live_of(source, b.encoded[k].stream), seq));
    }
    laws::lemma_marks_after(w.watermarks, source, b.encoded, key);
    lemma_numbers_noted(w.next_seq, source, b.encoded, key, seq);
}

/// A writer notes nothing of a stream that it made no segment of.
pub proof fn law_a_seal_notes_nothing_else<E: SegmentEncoder>(
    w: WriterView,
    source: i64,
    batch: Seq<Seq<char>>,
    encoder: E,
    key: (i64, Seq<char>),
)
    requires
        run::batch_sealed(w, source, batch, encoder) is Ok,
        key.0 != source || !batch.contains(key.1),
    ensures
        ({
            let n = run::handled(w, RequestView::Seal { source_id: source, batch }, encoder).0;
            &&& n.watermarks.dom().contains(key) == w.watermarks.dom().contains(key)
            &&& w.watermarks.dom().contains(key) ==> n.watermarks[key] == w.watermarks[key]
            &&& n.next_seq.dom().contains(key) == w.next_seq.dom().contains(key)
            &&& w.next_seq.dom().contains(key) ==> n.next_seq[key] == w.next_seq[key]
        }),
{
    let b = (run::batch_sealed(w, source, batch, encoder)->Ok_0).0;
    let gives = |s: Seq<char>|
        w.db.live_of(source, s).len() > 0 && encoder.encoded(s, w.db.live_of(source, s)) is Ok
            && encoder.encoded(s, w.db.live_of(source, s))->Ok_0 is Some;
    lemma_streams_encoded(w.db, source, w.next_seq, batch, encoder);
    let names = b.encoded.map_values(|e: EncodedView| e.stream);
    assert forall|k: int| 0 <= k < b.encoded.len() implies key != (
        source,
        (#[trigger] b.encoded[k]).stream,
    ) by {
        assert(names[k] == b.encoded[k].stream);
        seqs::lemma_filter_member(batch, gives, k);
        assert(batch.contains(names[k]));
    }
    laws::lemma_marks_after(w.watermarks, source, b.encoded, key);
    lemma_numbers_noted(w.next_seq, source, b.encoded, key, 0);
}

/// A writer that continues an archive begins with what the archive has: of every stream
/// that is sealed its watermark and its next number, as they are, and of no other anything.
pub proof fn law_a_writer_begins_with_what_is_sealed(d: DbView, source: i64, stream: Seq<char>)
    requires
        d.has_source(source),
        d.segments_of(source, stream).len() > 0,
    ensures
        ({
            let (next, marks) = run::seeded(d, d.sources.len());
            let key = (source, stream);
            &&& marks.dom().contains(key)
            &&& Some(marks[key]) == d.watermark(source, stream)
            &&& next.dom().contains(key)
            &&& next[key] == match store::next_seq_of(d.segments_of(source, stream)) {
                Some(n) => n,
                None => u64::MAX,
            }
        }),
{
    db::laws::lemma_watermark(d.segments_of(source, stream));
    laws::lemma_sealed_stream(d, source, stream);
    laws::lemma_seeded(d, d.sources.len(), (source, stream));
    let i = choose|i: int| 0 <= i < d.sources.len() && #[trigger] d.sources[i].id == source;
    assert(d.sources[i].id == source);
}

// ------------------------------------------------------------ the clock

/// Whether a clock observation is that of one of a stream's live rows, its newest
/// sealed one.
pub open spec fn observed_at(
    d: DbView,
    source: i64,
    e: EncodedView,
    o: (i64, i64),
    i: int,
) -> bool {
    let rows = d.live_of(source, e.stream);
    &&& 0 <= i < rows.len()
    &&& rows[i].ts == e.row.meta.last_ts
    &&& o == (rows[i].ts, rows[i].wall_offset)
}

proof fn lemma_last_is_there(rows: Seq<WalView>, ts: i64)
    requires
        seal::last_at(rows, ts) is Some,
    ensures
        exists|i: int|
            0 <= i < rows.len() && #[trigger] rows[i] == seal::last_at(rows, ts)->0
                && rows[i].ts == ts,
    decreases rows.len(),
{
    if rows.last().ts == ts {
        assert(rows[rows.len() - 1] == rows.last());
    } else {
        let d = rows.drop_last();
        lemma_last_is_there(d, ts);
        let i = choose|i: int|
            0 <= i < d.len() && #[trigger] d[i] == seal::last_at(d, ts)->0 && d[i].ts == ts;
        assert(rows[i] == d[i]);
    }
}

proof fn lemma_observation<E: SegmentEncoder>(
    d: DbView,
    source: i64,
    next: Numbers,
    streams: Seq<Seq<char>>,
    encoder: E,
)
    requires
        seal::batch_encoded(d, source, next, streams, encoder) is Ok,
    ensures
        ({
            let b = seal::batch_encoded(d, source, next, streams, encoder)->Ok_0;
            &&& b.observation is None <==> b.encoded.len() == 0
            &&& b.observation matches Some(o) ==> {
                &&& forall|k: int|
                    0 <= k < b.encoded.len() ==> (#[trigger] b.encoded[k]).row.meta.last_ts <= o.0
                &&& exists|k: int, i: int|
                    0 <= k < b.encoded.len() && #[trigger] observed_at(
                        d,
                        source,
                        b.encoded[k],
                        o,
                        i,
                    )
            }
        }),
    decreases streams.len(),
{
    let b = seal::batch_encoded(d, source, next, streams, encoder)->Ok_0;
    if streams.len() > 0 {
        let head = streams.drop_last();
        lemma_observation(d, source, next, head, encoder);
        let a = seal::batch_encoded(d, source, next, head, encoder)->Ok_0;
        let stream = streams.last();
        let rows = d.live_of(source, stream);
        if let Ok(Some((e, o))) = seal::stream_sealed(
            segment::materialized(encoder, stream, rows),
            stream,
            rows,
            seal::number_of(next, source, stream),
        ) {
            lemma_last_is_there(rows, e.row.meta.last_ts);
            let i = choose|i: int|
                0 <= i < rows.len() && #[trigger] rows[i] == seal::last_at(
                    rows,
                    e.row.meta.last_ts,
                )->0 && rows[i].ts == e.row.meta.last_ts;
            assert(b.encoded == a.encoded.push(e));
            assert(observed_at(d, source, e, o, i));
            let seen = b.observation->0;
            if seen == o {
                assert(observed_at(d, source, b.encoded[b.encoded.len() - 1], seen, i));
            } else {
                let (k, j) = choose|k: int, j: int|
                    0 <= k < a.encoded.len() && #[trigger] observed_at(
                        d,
                        source,
                        a.encoded[k],
                        seen,
                        j,
                    );
                assert(observed_at(d, source, b.encoded[k], seen, j));
            }
            assert forall|k: int| 0 <= k < b.encoded.len() implies (
            #[trigger] b.encoded[k]).row.meta.last_ts <= seen.0 by {
                if k < a.encoded.len() {
                    assert(b.encoded[k] == a.encoded[k]);
                }
            }
        } else {
            assert(b == a);
        }
    }
}

/// A seal that made segments observes the clock once, at the newest row that it sealed:
/// that row's timestamp and its offset. The archive holds an observation of that moment
/// afterwards, and this one where it held none.
pub proof fn law_a_seal_observes_the_clock<E: SegmentEncoder>(
    w: WriterView,
    source: i64,
    batch: Seq<Seq<char>>,
    encoder: E,
)
    requires
        w.db.wf(),
        run::batch_sealed(w, source, batch, encoder) is Ok,
    ensures
        ({
            let (b, d) = run::batch_sealed(w, source, batch, encoder)->Ok_0;
            &&& b.encoded.len() == 0 ==> d.clock_offsets == w.db.clock_offsets
            &&& b.encoded.len() > 0 ==> exists|o: (i64, i64), k: int, i: int|
                {
                    &&& 0 <= k < b.encoded.len()
                    &&& #[trigger] observed_at(w.db, source, b.encoded[k], o, i)
                    &&& forall|j: int|
                        0 <= j < b.encoded.len() ==> (#[trigger] b.encoded[j]).row.meta.last_ts
                            <= o.0
                    &&& d.clock_offsets == (if exists|c: int|
                        0 <= c < w.db.clock_offsets.len() && (
                        #[trigger] w.db.clock_offsets[c]).source_id == source
                            && w.db.clock_offsets[c].ts == o.0 {
                        w.db.clock_offsets
                    } else {
                        table::placed::<ClockAt>(
                            w.db.clock_offsets,
                            ClockAt { source_id: source, ts: o.0, offset_ns: o.1 },
                        )
                    })
                }
        }),
{
    let (b, d) = run::batch_sealed(w, source, batch, encoder)->Ok_0;
    lemma_observation(w.db, source, w.next_seq, batch, encoder);
    lemma_segments_leave_clocks(w.db, source, b.encoded);
    let n = seal::segments_run(w.db, source, b.encoded).0;
    let m = seal::batch_run(w.db, source, b).0;
    lemma_prunes_leave_clocks(m, source, b.encoded);
    if b.encoded.len() > 0 {
        let o = b.observation->0;
        let (k, i) = choose|k: int, i: int|
            0 <= k < b.encoded.len() && #[trigger] observed_at(
                w.db,
                source,
                b.encoded[k],
                o,
                i,
            );
        let key = Key { source: source as int, stream: Seq::<char>::empty(), at: o.0 as int };
        let clocks = w.db.clock_offsets;
        if table::holds::<ClockAt>(clocks, key) {
            let c = choose|c: int|
                0 <= c < clocks.len() && #[trigger] ClockAt::key_of(clocks[c]) == key;
            assert(clocks[c].source_id == source && clocks[c].ts == o.0);
        } else if exists|c: int|
            0 <= c < clocks.len() && (#[trigger] clocks[c]).source_id == source && clocks[c].ts
                == o.0 {
            let c = choose|c: int|
                0 <= c < clocks.len() && (#[trigger] clocks[c]).source_id == source
                    && clocks[c].ts == o.0;
            assert(ClockAt::key_of(clocks[c]) == key);
        }
        assert(observed_at(w.db, source, b.encoded[k], o, i));
    }
}

proof fn lemma_segments_leave_clocks(d: DbView, source: i64, encoded: Seq<EncodedView>)
    ensures
        seal::segments_run(d, source, encoded).0.clock_offsets == d.clock_offsets,
    decreases encoded.len(),
{
    if encoded.len() > 0 {
        lemma_segments_leave_clocks(d, source, encoded.drop_last());
    }
}

proof fn lemma_prunes_leave_clocks(d: DbView, source: i64, encoded: Seq<EncodedView>)
    ensures
        seal::batch_pruned(d, source, encoded).clock_offsets == d.clock_offsets,
    decreases encoded.len(),
{
    if encoded.len() > 0 {
        lemma_prunes_leave_clocks(d, source, encoded.drop_last());
    }
}

} // verus!
