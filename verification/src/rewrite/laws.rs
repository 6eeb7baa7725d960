//! What holds of every rewrite.

use arrow::datatypes::Field;
use parquet::file::properties::WriterProperties;
use vstd::prelude::*;

use super::compact;
use super::compact::{CompactSpec, Compacted, Listed};
use super::copy;
use super::copy::{CopyRun, CopySpec};
use super::merge;
use super::merge::{MergeRun, SchemaPolicy};
use super::parquet_file;
use super::readable;
use super::parquet_file::{BatchView, ColumnView, SchemaView};
use super::project;
use super::project::ColumnFilter;
use crate::db::laws;
use crate::db::model;
use crate::db::model::DbView;
use crate::db::records::{SegmentAt, SegmentAtView};
use crate::db::store;
use crate::db::table;
use crate::db::table::{Key, Keyed};
use crate::db::{CallerView, SegmentMeta, SegmentView, SourceRow, SourceView, WalView};
use crate::error::ErrorView;
use crate::names;
use crate::read;
use crate::segment;
use crate::segment::SegmentEncoder;
use crate::seqs;
use crate::text;

verus! {

// ------------------------------------------------------------ copies

/// Segments under dense numbers from zero on, otherwise as they are.
pub open spec fn renumbered(s: Seq<SegmentView>) -> Seq<SegmentView> {
    Seq::new(s.len(), |i: int| SegmentView { seq: i as u64, ..s[i] })
}

/// Whether two archives agree on everything but one stream's segments.
pub open spec fn same_but_for(was: DbView, now: DbView, id: i64, stream: Seq<char>) -> bool {
    &&& now.wf()
    &&& now.sources == was.sources
    &&& now.wal == was.wal
    &&& now.clock_offsets == was.clock_offsets
    &&& now.caller_rows == was.caller_rows
    &&& forall|s: i64, st: Seq<char>|
        !(s == id && st == stream) ==> #[trigger] now.segments_of(s, st) == was.segments_of(s, st)
}

proof fn lemma_segment_copied<C: ColumnFilter>(
    run: CopyRun,
    id: i64,
    stream: Seq<char>,
    meta: SegmentMeta,
    file: Seq<u8>,
    index: Option<Seq<u8>>,
    spec: CopySpec<C>,
)
    requires
        run.to.wf(),
        spec.keep_columns is None,
        run.refusal is None,
        copy::segment_copied(run, id, stream, meta, file, index, spec).refusal is None,
        forall|i: int|
            0 <= i < run.to.segments_of(id, stream).len() ==> (#[trigger] run.to.segments_of(
                id,
                stream,
            )[i]).seq < run.seq,
    ensures
        ({
            let after = copy::segment_copied(run, id, stream, meta, file, index, spec);
            &&& after.seq == copy::following(run.seq)
            &&& same_but_for(run.to, after.to, id, stream)
            &&& after.to.segments_of(id, stream) == run.to.segments_of(id, stream).push(
                SegmentView { seq: run.seq, meta, bytes: file, caller_index: index },
            )
        }),
{
    let at = SegmentAtView {
        source_id: id,
        stream,
        row: SegmentView { seq: run.seq, meta, bytes: file, caller_index: index },
    };
    let after = copy::segment_copied(run, id, stream, meta, file, index, spec);
    laws::lemma_segment_appended(run.to, at);
    assert forall|s: i64, st: Seq<char>|
        !(s == id && st == stream) implies #[trigger] after.to.segments_of(s, st)
        == run.to.segments_of(s, st) by {
        laws::lemma_segments_inserted(run.to, at, s, st);
    }
    laws::lemma_segments_inserted(run.to, at, id, stream);
}

proof fn lemma_segments_copied<C: ColumnFilter>(
    to: DbView,
    id: i64,
    stream: Seq<char>,
    segments: Seq<SegmentView>,
    spec: CopySpec<C>,
)
    requires
        to.wf(),
        spec.keep_columns is None,
        to.segments_of(id, stream).len() == 0,
        segments.len() <= u64::MAX,
        copy::segments_copied(to, id, stream, segments, spec).refusal is None,
    ensures
        ({
            let run = copy::segments_copied(to, id, stream, segments, spec);
            &&& run.seq == segments.len()
            &&& same_but_for(to, run.to, id, stream)
            &&& run.to.segments_of(id, stream) == renumbered(segments)
        }),
    decreases segments.len(),
{
    if segments.len() == 0 {
        assert(to.segments_of(id, stream) =~= renumbered(segments));
    } else {
        let head = segments.drop_last();
        let s = segments.last();
        lemma_segments_copied(to, id, stream, head, spec);
        let run = copy::segments_copied(to, id, stream, head, spec);
        let after = copy::segments_copied(to, id, stream, segments, spec);
        lemma_segment_copied(run, id, stream, s.meta, s.bytes, s.caller_index, spec);
        assert(after.to.segments_of(id, stream) =~= renumbered(segments));
        assert forall|o: i64, st: Seq<char>|
            !(o == id && st == stream) implies #[trigger] after.to.segments_of(o, st)
            == to.segments_of(o, st) by {
            assert(run.to.segments_of(o, st) == to.segments_of(o, st));
        }
    }
}

/// What a stream's segments become in a copy of everything: the same files under
/// dense numbers, and behind them the tail, where it becomes a segment.
pub open spec fn copied_segments<E: SegmentEncoder>(
    from: DbView,
    source: i64,
    stream: Seq<char>,
    encoder: E,
) -> Seq<SegmentView> {
    let sealed = from.segments_of(source, stream);
    match segment::materialized(encoder, stream, from.live_of(source, stream)) {
        Ok(Some(s)) => renumbered(sealed).push(
            SegmentView {
                seq: sealed.len() as u64,
                meta: SegmentMeta { rows: s.rows, first_ts: s.first_ts, last_ts: s.last_ts },
                bytes: s.bytes,
                caller_index: s.index,
            },
        ),
        _ => renumbered(sealed),
    }
}

/// Whether a copy is of everything that streams hold: any time, whole files.
pub open spec fn of_everything<C: ColumnFilter>(spec: CopySpec<C>) -> bool {
    spec.start == i64::MIN && spec.end == i64::MAX && spec.keep_columns is None
}

/// A copy passes a stream's segments through as they are, renumbered, with the
/// tail behind them; every other stream, and everything else, is as it was.
pub proof fn law_a_copy_passes_segments_through<C: ColumnFilter, E: SegmentEncoder>(
    to: DbView,
    id: i64,
    from: DbView,
    source: i64,
    stream: Seq<char>,
    spec: CopySpec<C>,
    encoder: E,
)
    requires
        to.wf(),
        of_everything(spec),
        to.segments_of(id, stream).len() == 0,
        from.segments_of(source, stream).len() < u64::MAX,
        copy::stream_copied(to, id, from, source, stream, spec, encoder).refusal is None,
    ensures
        ({
            let n = copy::stream_copied(to, id, from, source, stream, spec, encoder).to;
            &&& same_but_for(to, n, id, stream)
            &&& n.segments_of(id, stream) == copied_segments(from, source, stream, encoder)
            &&& segment::materialized(encoder, stream, from.live_of(source, stream)) is Ok
        }),
{
    let sealed = from.segments_of(source, stream);
    let all = store::overlapping(sealed, spec.start, spec.end);
    seqs::lemma_filter_all(
        sealed,
        |v: SegmentView| v.meta.last_ts >= spec.start && v.meta.first_ts <= spec.end,
    );
    assert(all == sealed);
    lemma_segments_copied(to, id, stream, sealed, spec);
    let run = copy::segments_copied(to, id, stream, sealed, spec);
    let tail = from.live_of(source, stream);
    let n = copy::stream_copied(to, id, from, source, stream, spec, encoder).to;
    if tail.len() > 0 {
        if let Ok(Some(s)) = segment::materialized(encoder, stream, tail) {
            let meta = SegmentMeta { rows: s.rows, first_ts: s.first_ts, last_ts: s.last_ts };
            lemma_segment_copied(run, id, stream, meta, s.bytes, s.index, spec);
            assert forall|o: i64, st: Seq<char>|
                !(o == id && st == stream) implies #[trigger] n.segments_of(o, st)
                == to.segments_of(o, st) by {
                assert(run.to.segments_of(o, st) == to.segments_of(o, st));
            }
        }
    }
}

/// A reader gets the same of a copied stream as of the stream: its tail has
/// become a segment, and nothing else has changed.
pub proof fn law_a_copied_stream_reads_the_same<C: ColumnFilter, E: SegmentEncoder>(
    to: DbView,
    id: i64,
    from: DbView,
    source: i64,
    stream: Seq<char>,
    spec: CopySpec<C>,
    encoder: E,
)
    requires
        to.wf(),
        of_everything(spec),
        to.segments_of(id, stream).len() == 0,
        to.wal_of(id, stream).len() == 0,
        from.segments_of(source, stream).len() < u64::MAX,
        copy::stream_copied(to, id, from, source, stream, spec, encoder).refusal is None,
    ensures
        ({
            let n = copy::stream_copied(to, id, from, source, stream, spec, encoder).to;
            &&& read::stream_parts(n, id, stream, encoder) == read::stream_parts(
                from,
                source,
                stream,
                encoder,
            )
            &&& n.wal_of(id, stream).len() == 0
        }),
{
    law_a_copy_passes_segments_through(to, id, from, source, stream, spec, encoder);
    let n = copy::stream_copied(to, id, from, source, stream, spec, encoder).to;
    lemma_reads_the_same(n, id, from, source, stream, encoder);
}

proof fn lemma_reads_the_same<E: SegmentEncoder>(
    n: DbView,
    id: i64,
    from: DbView,
    source: i64,
    stream: Seq<char>,
    encoder: E,
)
    requires
        n.wal_of(id, stream).len() == 0,
        n.segments_of(id, stream) == copied_segments(from, source, stream, encoder),
        segment::materialized(encoder, stream, from.live_of(source, stream)) is Ok,
    ensures
        read::stream_parts(n, id, stream, encoder) == read::stream_parts(
            from,
            source,
            stream,
            encoder,
        ),
{
    let w = n.watermark(id, stream);
    seqs::lemma_filter_shorter(n.wal_of(id, stream), |r: WalView| model::past(w, r.ts));
    let sealed = from.segments_of(source, stream);
    assert(read::payloads(renumbered(sealed)) =~= read::payloads(sealed));
    if let Ok(Some(s)) = segment::materialized(encoder, stream, from.live_of(source, stream)) {
        assert(read::payloads(copied_segments(from, source, stream, encoder)) =~= read::payloads(
            sealed,
        ).push(s.bytes));
    }
}

/// What copying streams leaves of the destination: each that is kept holds what
/// it held in the source, and everything else is as it was.
pub open spec fn streams_in<C: ColumnFilter, E: SegmentEncoder>(
    to: DbView,
    n: DbView,
    id: i64,
    from: DbView,
    source: i64,
    streams: Seq<Seq<char>>,
    spec: CopySpec<C>,
    encoder: E,
) -> bool {
    &&& n.wf()
    &&& n.sources == to.sources
    &&& n.wal == to.wal
    &&& n.clock_offsets == to.clock_offsets
    &&& n.caller_rows == to.caller_rows
    &&& forall|s: i64, st: Seq<char>|
        !(s == id && streams.contains(st)) ==> #[trigger] n.segments_of(s, st) == to.segments_of(
            s,
            st,
        )
    &&& forall|k: int|
        0 <= k < streams.len() && spec.keeps(#[trigger] streams[k]) ==> n.segments_of(
            id,
            streams[k],
        ) == copied_segments(from, source, streams[k], encoder) && segment::materialized(
            encoder,
            streams[k],
            from.live_of(source, streams[k]),
        ) is Ok
}

proof fn lemma_streams_copied<C: ColumnFilter, E: SegmentEncoder>(
    to: DbView,
    id: i64,
    from: DbView,
    source: i64,
    streams: Seq<Seq<char>>,
    spec: CopySpec<C>,
    encoder: E,
)
    requires
        to.wf(),
        of_everything(spec),
        names::ascending_names(streams),
        forall|st: Seq<char>| (#[trigger] to.segments_of(id, st)).len() == 0,
        forall|st: Seq<char>| (#[trigger] from.segments_of(source, st)).len() < u64::MAX,
        copy::streams_copied(to, id, from, source, streams, spec, encoder).1 is None,
    ensures
        streams_in(
            to,
            copy::streams_copied(to, id, from, source, streams, spec, encoder).0,
            id,
            from,
            source,
            streams,
            spec,
            encoder,
        ),
    decreases streams.len(),
{
    if streams.len() > 0 {
        let head = streams.drop_last();
        let last = streams.last();
        lemma_streams_copied(to, id, from, source, head, spec, encoder);
        let was = copy::streams_copied(to, id, from, source, head, spec, encoder).0;
        let n = copy::streams_copied(to, id, from, source, streams, spec, encoder).0;
        assert(!head.contains(last)) by {
            if head.contains(last) {
                let k = choose|k: int| 0 <= k < head.len() && head[k] == last;
                assert(text::text_less(streams[k], streams[streams.len() - 1]));
                text::lemma_text_order(last, last);
            }
        }
        assert(was.segments_of(id, last) == to.segments_of(id, last));
        if spec.keeps(last) {
            law_a_copy_passes_segments_through(was, id, from, source, last, spec, encoder);
        }
        assert forall|s: i64, st: Seq<char>|
            !(s == id && streams.contains(st)) implies #[trigger] n.segments_of(s, st)
            == to.segments_of(s, st) by {
            if s == id {
                assert(!head.contains(st)) by {
                    if head.contains(st) {
                        let k = choose|k: int| 0 <= k < head.len() && head[k] == st;
                        assert(streams[k] == st);
                    }
                }
                assert(streams[streams.len() - 1] == last);
            }
            assert(was.segments_of(s, st) == to.segments_of(s, st));
        }
        assert forall|k: int| 0 <= k < streams.len() && spec.keeps(#[trigger] streams[k]) implies n.segments_of(
            id,
            streams[k],
        ) == copied_segments(from, source, streams[k], encoder) && segment::materialized(
            encoder,
            streams[k],
            from.live_of(source, streams[k]),
        ) is Ok by {
            if k < head.len() {
                assert(head[k] == streams[k]);
                assert(streams[k] != last) by {
                    if streams[k] == last {
                        assert(head.contains(last));
                    }
                }
                assert(n.segments_of(id, streams[k]) == was.segments_of(id, streams[k]));
            }
        }
    }
}

/// Whether two archives hold the same sources, segments and rows.
pub open spec fn same_contents(a: DbView, b: DbView) -> bool {
    a.sources == b.sources && a.segments == b.segments && a.wal == b.wal
}

proof fn lemma_offsets_copied(to: DbView, id: i64, pairs: Seq<(i64, i64)>)
    ensures
        same_contents(to, copy::offsets_copied(to, id, pairs).0),
    decreases pairs.len(),
{
    if pairs.len() > 0 {
        lemma_offsets_copied(to, id, pairs.drop_last());
    }
}

proof fn lemma_callers_copied(to: DbView, id: i64, stream: Seq<char>, rows: Seq<CallerView>)
    ensures
        same_contents(to, copy::callers_copied(to, id, stream, rows).0),
    decreases rows.len(),
{
    if rows.len() > 0 {
        lemma_callers_copied(to, id, stream, rows.drop_last());
    }
}

proof fn lemma_series_copied<C: ColumnFilter>(
    to: DbView,
    id: i64,
    from: DbView,
    source: i64,
    streams: Seq<Seq<char>>,
    spec: CopySpec<C>,
)
    ensures
        same_contents(to, copy::series_copied(to, id, from, source, streams, spec).0),
    decreases streams.len(),
{
    if streams.len() > 0 {
        lemma_series_copied(to, id, from, source, streams.drop_last(), spec);
        let was = copy::series_copied(to, id, from, source, streams.drop_last(), spec).0;
        lemma_callers_copied(
            was,
            id,
            streams.last(),
            from.callers_of(source, streams.last()),
        );
    }
}

/// A source once it has been started and, where the one it is a copy of was,
/// marked complete.
pub open spec fn started<C: ColumnFilter>(to: DbView, s: SourceView, spec: CopySpec<C>) -> DbView {
    let d = to.with_source(copy::copied_meta(s.meta, spec), s.uuid);
    if s.complete {
        d.with_complete(model::next_id(to.sources) as i64, true)
    } else {
        d
    }
}

pub proof fn lemma_started<C: ColumnFilter>(to: DbView, s: SourceView, spec: CopySpec<C>)
    requires
        to.wf(),
        model::next_id(to.sources) <= i64::MAX,
    ensures
        ({
            let id = model::next_id(to.sources) as i64;
            let n = started(to, s, spec);
            &&& n.wf()
            &&& n.segments == to.segments
            &&& n.wal == to.wal
            &&& n.source(id) == Some(
                SourceView {
                    id,
                    uuid: s.uuid,
                    meta: copy::copied_meta(s.meta, spec),
                    complete: s.complete,
                },
            )
        }),
{
    let id = model::next_id(to.sources) as i64;
    let meta = copy::copied_meta(s.meta, spec);
    let row = SourceView { id, uuid: s.uuid, meta, complete: false };
    let d = to.with_source(meta, s.uuid);
    laws::law_a_source_reads_back(to, meta, s.uuid);
    let p = choose|p: int| 0 <= p < d.sources.len() && #[trigger] d.sources[p].id == id;
    laws::lemma_source_is(d, p);
    if s.complete {
        let done = SourceView { complete: true, ..row };
        let n = started(to, s, spec);
        store::changes::lemma_replaced(d, p, done);
        assert(n.sources == d.sources.update(p, done));
        assert forall|i: int, j: int| 0 <= i < j < n.sources.len() implies !table::before(
            SourceRow::key_of(#[trigger] n.sources[j]),
            SourceRow::key_of(#[trigger] n.sources[i]),
        ) && SourceRow::key_of(n.sources[i]) != SourceRow::key_of(n.sources[j]) by {
            assert(SourceRow::key_of(n.sources[i]) == SourceRow::key_of(d.sources[i]));
            assert(SourceRow::key_of(n.sources[j]) == SourceRow::key_of(d.sources[j]));
        }
        laws::lemma_source_is(n, p);
        assert(n.sources[p] == done);
    }
}

/// A copied source is the source: the same identity, labels and completeness,
/// its metadata with what the copy adds, and a reader gets the same of each of
/// its streams that were kept.
pub proof fn law_a_copied_source_reads_the_same<C: ColumnFilter, E: SegmentEncoder>(
    to: DbView,
    from: DbView,
    s: SourceView,
    spec: CopySpec<C>,
    encoder: E,
    stream: Seq<char>,
)
    requires
        to.wf(),
        of_everything(spec),
        forall|st: Seq<char>|
            (#[trigger] to.segments_of(model::next_id(to.sources) as i64, st)).len() == 0,
        forall|st: Seq<char>|
            (#[trigger] to.wal_of(model::next_id(to.sources) as i64, st)).len() == 0,
        forall|st: Seq<char>| (#[trigger] from.segments_of(s.id, st)).len() < u64::MAX,
        copy::source_copied(to, from, s, spec, encoder).1 is None,
        from.streams_of(s.id).contains(stream),
        spec.keeps(stream),
    ensures
        ({
            let id = model::next_id(to.sources) as i64;
            let n = copy::source_copied(to, from, s, spec, encoder).0;
            &&& n.source(id) == Some(
                SourceView {
                    id,
                    uuid: s.uuid,
                    meta: copy::copied_meta(s.meta, spec),
                    complete: s.complete,
                },
            )
            &&& read::stream_parts(n, id, stream, encoder) == read::stream_parts(
                from,
                s.id,
                stream,
                encoder,
            )
        }),
{
    let id = model::next_id(to.sources) as i64;
    let d = started(to, s, spec);
    lemma_started(to, s, spec);
    let streams = from.streams_of(s.id);
    laws::law_a_stream_is_its_rows(from, s.id, stream);
    assert forall|st: Seq<char>| (#[trigger] d.segments_of(id, st)).len() == 0 by {
        assert(d.segments_of(id, st) == to.segments_of(id, st));
    }
    lemma_streams_copied(d, id, from, s.id, streams, spec, encoder);
    let a = copy::streams_copied(d, id, from, s.id, streams, spec, encoder).0;
    lemma_offsets_copied(a, id, from.clock_of(s.id));
    let b = copy::offsets_copied(a, id, from.clock_of(s.id)).0;
    lemma_series_copied(b, id, from, s.id, from.caller_streams(s.id), spec);
    let n = copy::source_copied(to, from, s, spec, encoder).0;
    assert(same_contents(a, n));
    let k = choose|k: int| 0 <= k < streams.len() && streams[k] == stream;
    assert(spec.keeps(streams[k]));
    assert(n.segments_of(id, stream) == a.segments_of(id, stream));
    assert(n.wal_of(id, stream) == to.wal_of(id, stream));
    lemma_reads_the_same(n, id, from, s.id, stream, encoder);
    assert(n.source(id) == d.source(id));
}

// ------------------------------------------------------------ compaction

proof fn lemma_without_segment(d: DbView, source: i64, stream: Seq<char>, seq: u64)
    requires
        d.wf(),
    ensures
        same_but_for(d, d.without_segment(source, stream, seq), source, stream),
        d.without_segment(source, stream, seq).segments_of(source, stream) == d.segments_of(
            source,
            stream,
        ).filter(|v: SegmentView| v.seq != seq),
{
    let k = Key { source: source as int, stream, at: seq as int };
    let n = d.without_segment(source, stream, seq);
    let kept = |v: SegmentAtView| !table::keyed_by::<SegmentAt>(v, k);
    let row = |v: SegmentAtView| v.row;
    table::lemma_filter_in_order::<SegmentAt>(d.segments, kept);
    assert forall|s: i64, st: Seq<char>|
        !(s == source && st == stream) implies #[trigger] n.segments_of(s, st) == d.segments_of(
        s,
        st,
    ) by {
        let here = |v: SegmentAtView| table::within::<SegmentAt>(v, s as int, Some(st));
        seqs::lemma_filter_twice(d.segments, kept, here);
        seqs::lemma_filter_same(d.segments, |v: SegmentAtView| kept(v) && here(v), here);
    }
    let here = |v: SegmentAtView| table::within::<SegmentAt>(v, source as int, Some(stream));
    let other = |v: SegmentView| v.seq != seq;
    let other_at = |v: SegmentAtView| other(row(v));
    seqs::lemma_filter_twice(d.segments, kept, here);
    seqs::lemma_filter_twice(d.segments, here, other_at);
    seqs::lemma_filter_same(
        d.segments,
        |v: SegmentAtView| kept(v) && here(v),
        |v: SegmentAtView| here(v) && other_at(v),
    );
    seqs::lemma_map_filter(d.segments.filter(here), row, other);
}

/// Whether a segment is none of a run's.
pub open spec fn outside(run: Seq<Listed>, v: SegmentView) -> bool {
    forall|k: int| 0 <= k < run.len() ==> v.seq != (#[trigger] run[k]).0
}

/// What taking a run out leaves.
pub proof fn lemma_without_run(d: DbView, source: i64, stream: Seq<char>, run: Seq<Listed>)
    requires
        d.wf(),
    ensures
        same_but_for(d, compact::without_run(d, source, stream, run), source, stream),
        compact::without_run(d, source, stream, run).segments_of(source, stream) == d.segments_of(
            source,
            stream,
        ).filter(|v: SegmentView| outside(run, v)),
    decreases run.len(),
{
    let segments = d.segments_of(source, stream);
    let all = |v: SegmentView| outside(run, v);
    if run.len() == 0 {
        seqs::lemma_filter_all(segments, all);
    } else {
        let head = run.drop_last();
        lemma_without_run(d, source, stream, head);
        let was = compact::without_run(d, source, stream, head);
        let n = compact::without_run(d, source, stream, run);
        lemma_without_segment(was, source, stream, run.last().0);
        let before = |v: SegmentView| outside(head, v);
        let other = |v: SegmentView| v.seq != run.last().0;
        seqs::lemma_filter_twice(segments, before, other);
        assert forall|v: SegmentView| #[trigger] outside(run, v) == (outside(head, v) && v.seq
            != run.last().0) by {
            assert(run[run.len() - 1] == run.last());
            if outside(run, v) {
                assert forall|k: int| 0 <= k < head.len() implies v.seq != (#[trigger] head[k]).0 by {
                    assert(head[k] == run[k]);
                }
            }
            if outside(head, v) && v.seq != run.last().0 {
                assert forall|k: int| 0 <= k < run.len() implies v.seq != (#[trigger] run[k]).0 by {
                    if k < head.len() {
                        assert(head[k] == run[k]);
                    }
                }
            }
        }
        seqs::lemma_filter_same(segments, |v: SegmentView| before(v) && other(v), all);
        assert forall|s: i64, st: Seq<char>|
            !(s == source && st == stream) implies #[trigger] n.segments_of(s, st)
            == d.segments_of(s, st) by {
            assert(was.segments_of(s, st) == d.segments_of(s, st));
        }
    }
}

/// Listed segments, in number order, none ending before one that it follows, and
/// none past a timestamp.
pub open spec fn listed_upto(metas: Seq<Listed>, newest: i64) -> bool {
    &&& forall|i: int, j: int|
        0 <= i < j < metas.len() ==> (#[trigger] metas[i]).0 < (#[trigger] metas[j]).0
            && metas[i].1.last_ts <= metas[j].1.last_ts
    &&& forall|i: int| 0 <= i < metas.len() ==> (#[trigger] metas[i]).1.last_ts <= newest
}

/// Whether a segment is a listed one that has not been come to, or goes before
/// all of those.
pub open spec fn listed_or_before(metas: Seq<Listed>, at: nat, r: SegmentView) -> bool {
    ||| exists|j: int|
        at <= j < metas.len() && (#[trigger] metas[j]).0 == r.seq && metas[j].1 == r.meta
    ||| forall|j: int| at <= j < metas.len() ==> r.seq < (#[trigger] metas[j]).0
}

/// What holds of a stream's segments all through a compaction: those not come to
/// are as listed, none ends past a timestamp, and one ends at it.
pub open spec fn midway(segments: Seq<SegmentView>, metas: Seq<Listed>, at: nat, newest: i64) -> bool {
    &&& forall|r: SegmentView| #[trigger]
        segments.contains(r) ==> listed_or_before(metas, at, r) && r.meta.last_ts <= newest
    &&& exists|r: SegmentView| #[trigger] segments.contains(r) && r.meta.last_ts == newest
}

proof fn lemma_midway_on(segments: Seq<SegmentView>, metas: Seq<Listed>, at: nat, newest: i64)
    requires
        midway(segments, metas, at, newest),
        listed_upto(metas, newest),
        at < metas.len(),
    ensures
        midway(segments, metas, at + 1, newest),
{
    assert forall|r: SegmentView| #[trigger] segments.contains(r) implies listed_or_before(
        metas,
        at + 1,
        r,
    ) && r.meta.last_ts <= newest by {
        assert(listed_or_before(metas, at, r));
        if exists|j: int|
            at <= j < metas.len() && (#[trigger] metas[j]).0 == r.seq && metas[j].1 == r.meta {
            let j = choose|j: int|
                at <= j < metas.len() && (#[trigger] metas[j]).0 == r.seq && metas[j].1 == r.meta;
            if j == at {
                assert forall|i: int| at + 1 <= i < metas.len() implies r.seq
                    < (#[trigger] metas[i]).0 by {
                    assert(metas[j].0 < metas[i].0);
                }
            }
        }
    }
}

proof fn lemma_run_replaced(
    d: DbView,
    source: i64,
    stream: Seq<char>,
    metas: Seq<Listed>,
    at: nat,
    n: nat,
    file: Seq<u8>,
    rows: u64,
    newest: i64,
)
    requires
        d.wf(),
        2 <= n,
        at + n <= metas.len(),
        listed_upto(metas, newest),
        midway(d.segments_of(source, stream), metas, at, newest),
        compact::run_replaced(
            d,
            source,
            stream,
            metas.subrange(at as int, (at + n) as int),
            file,
            rows,
        ) is Ok,
    ensures
        ({
            let after = compact::run_replaced(
                d,
                source,
                stream,
                metas.subrange(at as int, (at + n) as int),
                file,
                rows,
            )->Ok_0;
            &&& same_but_for(d, after, source, stream)
            &&& midway(after.segments_of(source, stream), metas, at + n, newest)
        }),
{
    let run = metas.subrange(at as int, (at + n) as int);
    let without = compact::without_run(d, source, stream, run);
    let merged = compact::run_segment(source, stream, run, file, rows);
    let after = without.segment_inserted(merged)->Ok_0;
    let was = d.segments_of(source, stream);
    let left = without.segments_of(source, stream);
    let now = after.segments_of(source, stream);
    lemma_without_run(d, source, stream, run);
    laws::lemma_segments_inserted(without, merged, source, stream);
    let p = choose|p: int|
        0 <= p <= left.len() && now == #[trigger] left.take(p) + seq![merged.row] + left.skip(p);
    assert(now[p] == merged.row);
    assert forall|s: i64, st: Seq<char>|
        !(s == source && st == stream) implies #[trigger] after.segments_of(s, st)
        == d.segments_of(s, st) by {
        laws::lemma_segments_inserted(without, merged, s, st);
        assert(without.segments_of(s, st) == d.segments_of(s, st));
    }
    assert(run[0] == metas[at as int]);
    assert(run.last() == metas[at + n - 1]);
    let keep = |v: SegmentView| outside(run, v);
    assert forall|r: SegmentView| #[trigger] now.contains(r) implies listed_or_before(
        metas,
        at + n,
        r,
    ) && r.meta.last_ts <= newest by {
        if r == merged.row {
            assert forall|j: int| at + n <= j < metas.len() implies r.seq
                < (#[trigger] metas[j]).0 by {
                assert(metas[at as int].0 < metas[j].0);
            }
        } else {
            let i = choose|i: int| 0 <= i < now.len() && now[i] == r;
            let k: int = if i < p {
                i
            } else {
                i - 1
            };
            assert(left[k] == r);
            seqs::lemma_filter_member(was, keep, k);
            assert(was.contains(r));
            assert(listed_or_before(metas, at, r));
            if exists|j: int|
                at <= j < metas.len() && (#[trigger] metas[j]).0 == r.seq && metas[j].1 == r.meta {
                let j = choose|j: int|
                    at <= j < metas.len() && (#[trigger] metas[j]).0 == r.seq && metas[j].1
                        == r.meta;
                if j < at + n {
                    assert(run[j - at] == metas[j]);
                }
            }
        }
    }
    let top = choose|r: SegmentView| #[trigger] was.contains(r) && r.meta.last_ts == newest;
    let t = choose|t: int| 0 <= t < was.len() && was[t] == top;
    if outside(run, top) {
        seqs::lemma_filter_keeps(was, keep, t);
        let k = choose|k: int| 0 <= k < left.len() && left[k] == top;
        if k < p {
            assert(now[k] == top);
        } else {
            assert(now[k + 1] == top);
        }
        assert(now.contains(top));
    } else {
        let k = choose|k: int| 0 <= k < run.len() && top.seq == (#[trigger] run[k]).0;
        assert(run[k] == metas[at + k]);
        assert(listed_or_before(metas, at, top));
        let j = choose|j: int|
            at <= j < metas.len() && (#[trigger] metas[j]).0 == top.seq && metas[j].1 == top.meta;
        if j < at + k {
            assert(metas[j].0 < metas[at + k].0);
        }
        if j > at + k {
            assert(metas[at + k].0 < metas[j].0);
        }
        assert(metas[at + k].1.last_ts <= metas[at + n - 1].1.last_ts);
        assert(now.contains(merged.row));
    }
}

proof fn lemma_compacted(
    d: DbView,
    source: i64,
    stream: Seq<char>,
    metas: Seq<Listed>,
    at: nat,
    done: Compacted,
    spec: CompactSpec,
    newest: i64,
)
    requires
        d.wf(),
        at <= metas.len(),
        listed_upto(metas, newest),
        midway(d.segments_of(source, stream), metas, at, newest),
    ensures
        ({
            let after = compact::compacted_from(d, source, stream, metas, at, done, spec).0;
            &&& same_but_for(d, after, source, stream)
            &&& after.watermark(source, stream) == Some(newest)
        }),
    decreases metas.len() - at,
{
    let segments = d.segments_of(source, stream);
    laws::lemma_watermark(segments);
    let top = choose|r: SegmentView| #[trigger] segments.contains(r) && r.meta.last_ts == newest;
    let t = choose|t: int| 0 <= t < segments.len() && segments[t] == top;
    assert(segments[t].meta.last_ts == newest);
    let m = choose|i: int|
        0 <= i < segments.len() && #[trigger] segments[i].meta.last_ts == model::newest_sealed(
            segments,
        )->0;
    assert(segments.contains(segments[m]));
    if at < metas.len() {
        lemma_midway_on(segments, metas, at, newest);
        let end = compact::run_end(metas, at, 0, spec.most_rows());
        let files = compact::files_of(segments, metas.subrange(at as int, end as int));
        if end < at + 2 || end > metas.len() || files.len() == 0 {
            lemma_compacted(d, source, stream, metas, at + 1, done, spec, newest);
        } else if let Ok((file, rows, n)) = merge::merged(
            files,
            spec.properties(),
            spec.schema,
            stream,
        ) {
            if n < 2 || n > end - at {
                lemma_compacted(d, source, stream, metas, at + 1, done, spec, newest);
            } else {
                let run = metas.subrange(at as int, (at + n) as int);
                if let Ok(next) = compact::run_replaced(d, source, stream, run, file, rows) {
                    lemma_run_replaced(d, source, stream, metas, at, n as nat, file, rows, newest);
                    let more = Compacted {
                        after: (done.after - (n - 1)) as usize,
                        merges: (done.merges + 1) as usize,
                        ..done
                    };
                    lemma_compacted(next, source, stream, metas, (at + n) as nat, more, spec, newest);
                    let after = compact::compacted_from(
                        next,
                        source,
                        stream,
                        metas,
                        (at + n) as nat,
                        more,
                        spec,
                    ).0;
                    assert forall|s: i64, st: Seq<char>|
                        !(s == source && st == stream) implies #[trigger] after.segments_of(s, st)
                        == d.segments_of(s, st) by {
                        assert(next.segments_of(s, st) == d.segments_of(s, st));
                    }
                }
            }
        }
    }
}

/// Compacting a stream changes nothing but its segments, and not how far they
/// reach, so its tail is what it was, whether or not the pass came to its end:
/// no row that a segment holds becomes live again. The stream's segments each
/// end no earlier than those before them, as a writer leaves them.
pub proof fn law_compaction_leaves_the_tail(
    d: DbView,
    source: i64,
    stream: Seq<char>,
    spec: CompactSpec,
)
    requires
        d.wf(),
        forall|i: int, j: int|
            0 <= i < j < d.segments_of(source, stream).len() ==> (#[trigger] d.segments_of(
                source,
                stream,
            )[i]).meta.last_ts <= (#[trigger] d.segments_of(source, stream)[j]).meta.last_ts,
    ensures
        ({
            let after = compact::stream_compacted(d, source, stream, spec).0;
            &&& same_but_for(d, after, source, stream)
            &&& after.watermark(source, stream) == d.watermark(source, stream)
            &&& after.live_of(source, stream) == d.live_of(source, stream)
        }),
{
    let segments = d.segments_of(source, stream);
    let metas = store::metas_of(segments);
    let done = Compacted {
        before: metas.len() as usize,
        after: metas.len() as usize,
        merges: 0,
    };
    laws::law_segments_are_in_order(d, source, stream);
    laws::lemma_watermark(segments);
    if segments.len() > 0 {
        let newest = d.watermark(source, stream)->0;
        assert forall|i: int, j: int| 0 <= i < j < metas.len() implies (#[trigger] metas[i]).0
            < (#[trigger] metas[j]).0 && metas[i].1.last_ts <= metas[j].1.last_ts by {
            assert(segments[i].seq < segments[j].seq);
        }
        assert forall|i: int| 0 <= i < metas.len() implies (#[trigger] metas[i]).1.last_ts
            <= newest by {
            assert(segments[i].meta.last_ts <= newest);
        }
        assert forall|r: SegmentView| #[trigger] segments.contains(r) implies listed_or_before(
            metas,
            0,
            r,
        ) && r.meta.last_ts <= newest by {
            let i = choose|i: int| 0 <= i < segments.len() && segments[i] == r;
            assert(metas[i].0 == r.seq && metas[i].1 == r.meta);
        }
        let m = choose|i: int|
            0 <= i < segments.len() && #[trigger] segments[i].meta.last_ts == newest;
        assert(segments.contains(segments[m]));
        lemma_compacted(d, source, stream, metas, 0, done, spec, newest);
    }
    let after = compact::stream_compacted(d, source, stream, spec).0;
    assert(after.wal_of(source, stream) == d.wal_of(source, stream));
}

/// Whether some segment has a number.
pub open spec fn has_number(segments: Seq<SegmentView>, seq: u64) -> bool {
    exists|i: int| 0 <= i < segments.len() && (#[trigger] segments[i]).seq == seq
}

/// Whether segments are in number order.
pub open spec fn numbered(segments: Seq<SegmentView>) -> bool {
    forall|i: int, j: int|
        0 <= i < j < segments.len() ==> (#[trigger] segments[i]).seq < (#[trigger] segments[j]).seq
}

proof fn lemma_one_removed(s: Seq<SegmentView>, seq: u64)
    requires
        numbered(s),
    ensures
        has_number(s, seq) ==> s.filter(|v: SegmentView| v.seq != seq).len() == s.len() - 1,
        !has_number(s, seq) ==> s.filter(|v: SegmentView| v.seq != seq) == s,
    decreases s.len(),
{
    reveal(Seq::filter);
    let keep = |v: SegmentView| v.seq != seq;
    if s.len() == 0 {
        assert(s.filter(keep) =~= s);
    } else {
        let head = s.drop_last();
        assert forall|i: int, j: int| 0 <= i < j < head.len() implies (#[trigger] head[i]).seq
            < (#[trigger] head[j]).seq by {
            assert(s[i].seq < s[j].seq);
        }
        lemma_one_removed(head, seq);
        if s.last().seq == seq {
            assert(s[s.len() - 1].seq == seq);
            if has_number(head, seq) {
                let i = choose|i: int| 0 <= i < head.len() && (#[trigger] head[i]).seq == seq;
                assert(s[i].seq < s[s.len() - 1].seq);
            }
        } else {
            if has_number(s, seq) {
                let i = choose|i: int| 0 <= i < s.len() && (#[trigger] s[i]).seq == seq;
                assert(head[i].seq == seq);
            } else {
                if has_number(head, seq) {
                    let i = choose|i: int| 0 <= i < head.len() && (#[trigger] head[i]).seq == seq;
                    assert(s[i].seq == seq);
                }
                assert(head.push(s.last()) =~= s);
            }
        }
    }
}

proof fn lemma_run_removed(d: DbView, source: i64, stream: Seq<char>, run: Seq<Listed>)
    requires
        d.wf(),
        forall|i: int, j: int| 0 <= i < j < run.len() ==> (#[trigger] run[i]).0 < (#[trigger] run[j]).0,
        forall|i: int|
            0 <= i < run.len() ==> has_number(
                d.segments_of(source, stream),
                (#[trigger] run[i]).0,
            ),
    ensures
        compact::without_run(d, source, stream, run).segments_of(source, stream).len()
            == d.segments_of(source, stream).len() - run.len(),
    decreases run.len(),
{
    if run.len() > 0 {
        let head = run.drop_last();
        let segments = d.segments_of(source, stream);
        assert forall|i: int, j: int| 0 <= i < j < head.len() implies (#[trigger] head[i]).0 < (
        #[trigger] head[j]).0 by {
            assert(run[i].0 < run[j].0);
        }
        assert forall|i: int| 0 <= i < head.len() implies has_number(
            segments,
            (#[trigger] head[i]).0,
        ) by {
            assert(head[i] == run[i]);
        }
        lemma_run_removed(d, source, stream, head);
        lemma_without_run(d, source, stream, head);
        let was = compact::without_run(d, source, stream, head);
        let left = was.segments_of(source, stream);
        lemma_without_segment(was, source, stream, run.last().0);
        laws::law_segments_are_in_order(was, source, stream);
        assert(has_number(segments, run[run.len() - 1].0));
        let k = choose|k: int|
            0 <= k < segments.len() && (#[trigger] segments[k]).seq == run.last().0;
        assert(outside(head, segments[k])) by {
            assert forall|i: int| 0 <= i < head.len() implies segments[k].seq != (
            #[trigger] head[i]).0 by {
                assert(run[i].0 < run[run.len() - 1].0);
            }
        }
        seqs::lemma_filter_keeps(segments, |v: SegmentView| outside(head, v), k);
        let m = choose|m: int| 0 <= m < left.len() && left[m] == segments[k];
        assert(left[m].seq == run.last().0);
        lemma_one_removed(left, run.last().0);
    }
}

/// Whether every listed segment that has not been come to is there.
pub open spec fn ahead_there(segments: Seq<SegmentView>, metas: Seq<Listed>, at: nat) -> bool {
    forall|j: int| at <= j < metas.len() ==> has_number(segments, (#[trigger] metas[j]).0)
}

proof fn lemma_counted(
    d: DbView,
    source: i64,
    stream: Seq<char>,
    metas: Seq<Listed>,
    at: nat,
    done: Compacted,
    spec: CompactSpec,
)
    requires
        d.wf(),
        at <= metas.len(),
        forall|i: int, j: int|
            0 <= i < j < metas.len() ==> (#[trigger] metas[i]).0 < (#[trigger] metas[j]).0,
        ahead_there(d.segments_of(source, stream), metas, at),
        done.after == d.segments_of(source, stream).len(),
    ensures
        ({
            let (after, outcome) = compact::compacted_from(
                d,
                source,
                stream,
                metas,
                at,
                done,
                spec,
            );
            outcome matches Ok(c) ==> c.before == done.before && c.after == after.segments_of(
                source,
                stream,
            ).len()
        }),
    decreases metas.len() - at,
{
    let segments = d.segments_of(source, stream);
    if at < metas.len() {
        let end = compact::run_end(metas, at, 0, spec.most_rows());
        let files = compact::files_of(segments, metas.subrange(at as int, end as int));
        if end < at + 2 || end > metas.len() || files.len() == 0 {
            lemma_counted(d, source, stream, metas, at + 1, done, spec);
        } else if let Ok((file, rows, n)) = merge::merged(
            files,
            spec.properties(),
            spec.schema,
            stream,
        ) {
            if n < 2 || n > end - at {
                lemma_counted(d, source, stream, metas, at + 1, done, spec);
            } else {
                let run = metas.subrange(at as int, (at + n) as int);
                if let Ok(next) = compact::run_replaced(d, source, stream, run, file, rows) {
                    let without = compact::without_run(d, source, stream, run);
                    let merged = compact::run_segment(source, stream, run, file, rows);
                    let left = without.segments_of(source, stream);
                    let now = next.segments_of(source, stream);
                    assert forall|i: int| 0 <= i < run.len() implies has_number(
                        segments,
                        (#[trigger] run[i]).0,
                    ) by {
                        assert(run[i] == metas[at + i]);
                    }
                    lemma_run_removed(d, source, stream, run);
                    lemma_without_run(d, source, stream, run);
                    laws::lemma_segments_inserted(without, merged, source, stream);
                    let p = choose|p: int|
                        0 <= p <= left.len() && now == #[trigger] left.take(p) + seq![merged.row]
                            + left.skip(p);
                    assert(now.len() == left.len() + 1);
                    assert forall|j: int| at + n <= j < metas.len() implies has_number(
                        now,
                        (#[trigger] metas[j]).0,
                    ) by {
                        let k = choose|k: int|
                            0 <= k < segments.len() && (#[trigger] segments[k]).seq == metas[j].0;
                        assert(outside(run, segments[k])) by {
                            assert forall|i: int| 0 <= i < run.len() implies segments[k].seq != (
                            #[trigger] run[i]).0 by {
                                assert(run[i] == metas[at + i]);
                            }
                        }
                        seqs::lemma_filter_keeps(
                            segments,
                            |v: SegmentView| outside(run, v),
                            k,
                        );
                        let m = choose|m: int| 0 <= m < left.len() && left[m] == segments[k];
                        if m < p {
                            assert(now[m].seq == metas[j].0);
                        } else {
                            assert(now[m + 1].seq == metas[j].0);
                        }
                    }
                    let more = Compacted {
                        after: (done.after - (n - 1)) as usize,
                        merges: (done.merges + 1) as usize,
                        ..done
                    };
                    lemma_counted(next, source, stream, metas, (at + n) as nat, more, spec);
                }
            }
        }
    }
}

/// A compaction says what it did: how many segments the stream had before, and
/// how many it has after.
pub proof fn law_compaction_counts_segments(
    d: DbView,
    source: i64,
    stream: Seq<char>,
    spec: CompactSpec,
)
    requires
        d.wf(),
        d.segments_of(source, stream).len() <= usize::MAX,
    ensures
        ({
            let (after, outcome) = compact::stream_compacted(d, source, stream, spec);
            outcome matches Ok(c) ==> c.before == d.segments_of(source, stream).len() && c.after
                == after.segments_of(source, stream).len()
        }),
{
    let segments = d.segments_of(source, stream);
    let metas = store::metas_of(segments);
    let done = Compacted {
        before: metas.len() as usize,
        after: metas.len() as usize,
        merges: 0,
    };
    laws::law_segments_are_in_order(d, source, stream);
    assert forall|i: int, j: int| 0 <= i < j < metas.len() implies (#[trigger] metas[i]).0 < (
    #[trigger] metas[j]).0 by {
        assert(segments[i].seq < segments[j].seq);
    }
    assert forall|j: int| 0 <= j < metas.len() implies has_number(
        segments,
        (#[trigger] metas[j]).0,
    ) by {
        assert(segments[j].seq == metas[j].0);
    }
    lemma_counted(d, source, stream, metas, 0, done, spec);
}

// ------------------------------------------------------------ merges

proof fn lemma_same_run(blobs: Seq<Seq<u8>>, first: SchemaView, stream: Seq<char>, n: nat)
    requires
        n <= blobs.len(),
        merge::same_run(blobs, first, stream, n) is Ok,
    ensures
        ({
            let end = merge::same_run(blobs, first, stream, n)->Ok_0;
            &&& n <= end <= blobs.len()
            &&& forall|i: int|
                n <= i < end ==> (merge::schema_of(#[trigger] blobs[i], stream) matches Ok(s)
                    && parquet_file::schemas_alike(s, first))
            &&& end < blobs.len() ==> (merge::schema_of(blobs[end as int], stream) matches Ok(s)
                && !parquet_file::schemas_alike(s, first))
        }),
    decreases blobs.len() - n,
{
    if n < blobs.len() {
        if parquet_file::schemas_alike(merge::schema_of(blobs[n as int], stream)->Ok_0, first) {
            lemma_same_run(blobs, first, stream, n + 1);
        }
    }
}

/// A merge that stops at a change takes segments of one schema and all of those:
/// every segment it takes has a schema like that of what it makes, and the next one,
/// if there is one, has another.
pub proof fn law_a_merge_stops_at_a_change(blobs: Seq<Seq<u8>>, stream: Seq<char>)
    requires
        blobs.len() > 0,
        merge::merge_plan(blobs, SchemaPolicy::StopAtChange, stream) is Ok,
    ensures
        ({
            let (n, schema) = merge::merge_plan(
                blobs,
                SchemaPolicy::StopAtChange,
                stream,
            )->Ok_0;
            &&& 1 <= n <= blobs.len()
            &&& forall|i: int|
                0 <= i < n ==> (merge::schema_of(#[trigger] blobs[i], stream) matches Ok(s)
                    && parquet_file::schemas_alike(s, schema))
            &&& n < blobs.len() ==> (merge::schema_of(blobs[n as int], stream) matches Ok(s)
                && !parquet_file::schemas_alike(s, schema))
        }),
{
    let first = merge::schema_of(blobs[0], stream)->Ok_0;
    lemma_same_run(blobs, first, stream, 1);
}

/// Whether columns have names of their own.
pub open spec fn named_apart(columns: Seq<ColumnView>) -> bool {
    forall|i: int, j: int|
        0 <= i < j < columns.len() ==> (#[trigger] columns[i]).name != (#[trigger] columns[j]).name
}

/// Whether a column stands under its name, alike.
pub open spec fn stands(union: Seq<ColumnView>, c: ColumnView) -> bool {
    merge::column_named(union, c.name) matches Some(k) && k < union.len() && union[k as int].name
        == c.name && parquet_file::alike(union[k as int].field, c.field)
}

/// Whether all of a segment's columns stand under their names.
pub open spec fn all_stand(union: Seq<ColumnView>, columns: Seq<ColumnView>) -> bool {
    forall|i: int| 0 <= i < columns.len() ==> stands(union, #[trigger] columns[i])
}

pub proof fn lemma_column_named(columns: Seq<ColumnView>, name: Seq<char>)
    ensures
        merge::column_named(columns, name) matches Some(k) ==> k < columns.len()
            && columns[k as int].name == name,
        merge::column_named(columns, name) is None ==> forall|i: int|
            0 <= i < columns.len() ==> (#[trigger] columns[i]).name != name,
    decreases columns.len(),
{
    if columns.len() > 0 {
        let head = columns.drop_last();
        lemma_column_named(head, name);
        if merge::column_named(columns, name) is None {
            assert forall|i: int| 0 <= i < columns.len() implies (#[trigger] columns[i]).name
                != name by {
                if i < head.len() {
                    assert(head[i] == columns[i]);
                }
            }
        }
    }
}

proof fn lemma_stands_pushed(union: Seq<ColumnView>, more: ColumnView, c: ColumnView)
    requires
        stands(union, c),
    ensures
        stands(union.push(more), c),
{
    assert(union.push(more).drop_last() =~= union);
}

proof fn lemma_extended(union: Seq<ColumnView>, columns: Seq<ColumnView>, c: ColumnView)
    ensures
        stands(union, c) ==> stands(merge::extended(union, columns), c),
    decreases columns.len(),
{
    if columns.len() > 0 {
        lemma_extended(union, columns.drop_last(), c);
        if stands(union, c) {
            lemma_stands_pushed(merge::extended(union, columns.drop_last()), columns.last(), c);
        }
    }
}

/// What extending by columns brings under a name that was not there: the column
/// of that name, if there is one.
proof fn lemma_extended_name(union: Seq<ColumnView>, columns: Seq<ColumnView>, name: Seq<char>)
    requires
        merge::column_named(union, name) is None,
    ensures
        merge::column_named(merge::extended(union, columns), name) is Some ==> exists|j: int|
            0 <= j < columns.len() && (#[trigger] columns[j]).name == name && stands(
                merge::extended(union, columns),
                columns[j],
            ),
        (exists|j: int| 0 <= j < columns.len() && (#[trigger] columns[j]).name == name)
            ==> merge::column_named(merge::extended(union, columns), name) is Some,
    decreases columns.len(),
{
    if columns.len() > 0 {
        let head = columns.drop_last();
        let last = columns.last();
        let was = merge::extended(union, head);
        let now = merge::extended(union, columns);
        lemma_extended_name(union, head, name);
        assert(was.push(last).drop_last() =~= was);
        assert(columns[columns.len() - 1] == last);
        if merge::column_named(was, name) is Some {
            let j = choose|j: int|
                0 <= j < head.len() && (#[trigger] head[j]).name == name && stands(was, head[j]);
            assert(columns[j] == head[j]);
            if merge::column_named(was, last.name) is None {
                lemma_stands_pushed(was, last, head[j]);
            }
        } else if last.name == name {
            assert(now == was.push(last));
            assert(stands(now, last));
        } else {
            if exists|j: int| 0 <= j < columns.len() && (#[trigger] columns[j]).name == name {
                let j = choose|j: int|
                    0 <= j < columns.len() && (#[trigger] columns[j]).name == name;
                assert(head[j].name == name);
            }
        }
    }
}

proof fn lemma_extended_stands(union: Seq<ColumnView>, columns: Seq<ColumnView>)
    requires
        named_apart(columns),
        !merge::conflicts(union, columns),
    ensures
        all_stand(merge::extended(union, columns), columns),
{
    let now = merge::extended(union, columns);
    assert forall|i: int| 0 <= i < columns.len() implies stands(now, #[trigger] columns[i]) by {
        let c = columns[i];
        lemma_column_named(union, c.name);
        if merge::column_named(union, c.name) is Some {
            assert(!merge::differs(union, c));
            lemma_extended(union, columns, c);
        } else {
            lemma_extended_name(union, columns, c.name);
            let j = choose|j: int|
                0 <= j < columns.len() && (#[trigger] columns[j]).name == c.name && stands(
                    now,
                    columns[j],
                );
            assert(j == i) by {
                if j < i {
                    assert(columns[j].name != columns[i].name);
                } else if i < j {
                    assert(columns[i].name != columns[j].name);
                }
            }
        }
    }
}

proof fn lemma_union_run(
    blobs: Seq<Seq<u8>>,
    union: Seq<ColumnView>,
    stream: Seq<char>,
    n: nat,
    i: int,
)
    requires
        n <= blobs.len(),
        merge::union_run(blobs, union, stream, n) is Ok,
        forall|k: int| 0 <= k < blobs.len() ==> named_apart(merge::columns_of(#[trigger] blobs[k])),
        0 <= i < (merge::union_run(blobs, union, stream, n)->Ok_0).0,
        i < n ==> all_stand(union, merge::columns_of(blobs[i])),
    ensures
        all_stand(
            (merge::union_run(blobs, union, stream, n)->Ok_0).1,
            merge::columns_of(blobs[i]),
        ),
    decreases blobs.len() - n,
{
    if n < blobs.len() {
        let s = merge::schema_of(blobs[n as int], stream)->Ok_0;
        if !merge::conflicts(union, s.columns) {
            let more = merge::extended(union, s.columns);
            assert(merge::columns_of(blobs[n as int]) == s.columns);
            lemma_extended_stands(union, s.columns);
            if i < n {
                let columns = merge::columns_of(blobs[i]);
                assert forall|k: int| 0 <= k < columns.len() implies stands(
                    more,
                    #[trigger] columns[k],
                ) by {
                    assert(stands(union, columns[k]));
                    lemma_extended(union, s.columns, columns[k]);
                }
            }
            lemma_union_run(blobs, more, stream, n + 1, i);
        }
    }
}

/// A merge on the union of columns never fuses two columns that differ: every
/// column of every segment it takes stands under its own name in what it makes,
/// over a field like its own, or over that made nullable where some segment lacks it. Segments name each of
/// their columns once.
pub proof fn law_a_union_keeps_every_column(
    blobs: Seq<Seq<u8>>,
    stream: Seq<char>,
    i: int,
    k: int,
)
    requires
        merge::merge_plan(blobs, SchemaPolicy::UnionFields, stream) is Ok,
        forall|j: int| 0 <= j < blobs.len() ==> named_apart(merge::columns_of(#[trigger] blobs[j])),
        0 <= i < (merge::merge_plan(blobs, SchemaPolicy::UnionFields, stream)->Ok_0).0,
        0 <= k < merge::columns_of(blobs[i]).len(),
    ensures
        ({
            let schema = (merge::merge_plan(blobs, SchemaPolicy::UnionFields, stream)->Ok_0).1;
            let c = merge::columns_of(blobs[i])[k];
            exists|m: int, f: Field|
                0 <= m < schema.columns.len() && (#[trigger] schema.columns[m]).name == c.name
                    && #[trigger] parquet_file::alike(f, c.field) && (schema.columns[m].field == f
                    || schema.columns[m].field == parquet_file::nullable_field(f))
        }),
{
    let none: Seq<ColumnView> = Seq::empty();
    let (n, union) = merge::union_run(blobs, none, stream, 0)->Ok_0;
    let schema = (merge::merge_plan(blobs, SchemaPolicy::UnionFields, stream)->Ok_0).1;
    lemma_union_run(blobs, none, stream, 0, i);
    let c = merge::columns_of(blobs[i])[k];
    assert(stands(union, c));
    let m = merge::column_named(union, c.name)->0 as int;
    assert(schema.columns[m] == merge::union_column(union[m], blobs.take(n as int)));
}

// ------------------------------------------------------------ rows

/// The rows of segments, one segment after the other, in the order of columns.
pub open spec fn rows_of_segments(files: Seq<Seq<u8>>, columns: Seq<ColumnView>) -> Seq<BatchView>
    decreases files.len(),
{
    if files.len() == 0 {
        Seq::empty()
    } else {
        rows_of_segments(files.drop_last(), columns) + rows_of_segment(files.last(), columns)
    }
}

/// The rows of a segment, in the order of columns.
pub open spec fn rows_of_segment(file: Seq<u8>, columns: Seq<ColumnView>) -> Seq<BatchView> {
    match readable::rows_in(file) {
        Ok(read) => in_order_of(read.batches, merge::columns_of(file), columns),
        Err(_) => Seq::empty(),
    }
}

/// Batches in the order of other columns.
pub open spec fn in_order_of(
    batches: Seq<BatchView>,
    from: Seq<ColumnView>,
    to: Seq<ColumnView>,
) -> Seq<BatchView> {
    batches.map_values(|b: BatchView| merge::widened_batch(b, from, to))
}

/// Whether a segment can be read to its end.
pub open spec fn reads_whole(file: Seq<u8>) -> bool {
    readable::rows_in(file) matches Ok(read) && read.failed is None
}

/// How many rows batches have.
pub open spec fn row_count(batches: Seq<BatchView>) -> nat
    decreases batches.len(),
{
    if batches.len() == 0 {
        0
    } else {
        row_count(batches.drop_last()) + batches.last().rows as nat
    }
}

/// A count of rows as far as it goes.
pub open spec fn counted(n: nat) -> u64 {
    if n <= u64::MAX {
        n as u64
    } else {
        u64::MAX
    }
}

proof fn lemma_batches_given(
    schema: SchemaView,
    props: WriterProperties,
    start: MergeRun,
    from: Seq<ColumnView>,
    batches: Seq<BatchView>,
    stream: Seq<char>,
)
    requires
        merge::batches_run(schema, props, start, from, batches, stream).refusal is None,
        start.rows == counted(row_count(start.given)),
    ensures
        ({
            let after = merge::batches_run(schema, props, start, from, batches, stream);
            &&& after.given == start.given + in_order_of(batches, from, schema.columns)
            &&& after.rows == counted(row_count(after.given))
        }),
    decreases batches.len(),
{
    let given = in_order_of(batches, from, schema.columns);
    if batches.len() == 0 {
        assert(start.given + given =~= start.given);
    } else {
        let head = batches.drop_last();
        lemma_batches_given(schema, props, start, from, head, stream);
        let was = merge::batches_run(schema, props, start, from, head, stream);
        let batch = merge::widened_batch(batches.last(), from, schema.columns);
        assert(given =~= in_order_of(head, from, schema.columns).push(batch));
        assert(start.given + given =~= was.given.push(batch));
        assert(was.given.push(batch).drop_last() =~= was.given);
    }
}

proof fn lemma_segments_given(
    schema: SchemaView,
    props: WriterProperties,
    files: Seq<Seq<u8>>,
    stream: Seq<char>,
)
    requires
        merge::segments_run(schema, props, files, stream).refusal is None,
    ensures
        ({
            let after = merge::segments_run(schema, props, files, stream);
            &&& after.given == rows_of_segments(files, schema.columns)
            &&& after.rows == counted(row_count(after.given))
        }),
        forall|i: int| 0 <= i < files.len() ==> reads_whole(#[trigger] files[i]),
    decreases files.len(),
{
    if files.len() > 0 {
        let head = files.drop_last();
        let file = files.last();
        lemma_segments_given(schema, props, head, stream);
        let was = merge::segments_run(schema, props, head, stream);
        let read = readable::rows_in(file)->Ok_0;
        lemma_batches_given(
            schema,
            props,
            was,
            merge::columns_of(file),
            read.batches,
            stream,
        );
        assert forall|i: int| 0 <= i < files.len() implies reads_whole(#[trigger] files[i]) by {
            if i < head.len() {
                assert(reads_whole(head[i]));
            }
        }
    }
}

/// A merge loses no row and moves none: what it writes is every row of every
/// segment it takes, one segment after the other, and it says how many rows those
/// are.
pub proof fn law_a_merge_holds_every_row(
    blobs: Seq<Seq<u8>>,
    props: WriterProperties,
    policy: SchemaPolicy,
    stream: Seq<char>,
)
    requires
        merge::merged(blobs, props, policy, stream) is Ok,
    ensures
        ({
            let (file, rows, n) = merge::merged(blobs, props, policy, stream)->Ok_0;
            let schema = (merge::merge_plan(blobs, policy, stream)->Ok_0).1;
            let taken = blobs.take(n as int);
            let given = rows_of_segments(taken, schema.columns);
            &&& parquet_file::file_of(schema, props, given) == Ok::<Seq<u8>, Seq<char>>(file)
            &&& rows == counted(row_count(given))
            &&& forall|i: int| 0 <= i < taken.len() ==> reads_whole(#[trigger] taken[i])
        }),
{
    let (n, schema) = merge::merge_plan(blobs, policy, stream)->Ok_0;
    lemma_segments_given(schema, props, blobs.take(n as int), stream);
}

proof fn lemma_picked(
    schema: SchemaView,
    props: WriterProperties,
    places: Seq<usize>,
    batches: Seq<BatchView>,
)
    requires
        project::batches_run(schema, props, places, batches).1 is None,
    ensures
        project::batches_run(schema, props, places, batches).0 == batches.map_values(
            |b: BatchView| project::picked_batch(b, places),
        ),
    decreases batches.len(),
{
    let pick = |b: BatchView| project::picked_batch(b, places);
    if batches.len() == 0 {
        assert(batches.map_values(pick) =~= Seq::empty());
    } else {
        let head = batches.drop_last();
        lemma_picked(schema, props, places, head);
        assert(batches.map_values(pick) =~= head.map_values(pick).push(pick(batches.last())));
    }
}

/// A projection keeps every row as it was, and of each the values of the columns
/// that are kept.
pub proof fn law_a_projection_keeps_every_row<C: ColumnFilter>(
    file: Seq<u8>,
    filter: C,
    props: WriterProperties,
)
    requires
        project::projected(file, filter, props) matches Ok(Some(_)),
    ensures
        ({
            let schema = readable::schema_in(file)->Ok_0;
            let read = readable::rows_in(file)->Ok_0;
            let places = project::kept(schema.columns, filter);
            let narrowed = SchemaView {
                columns: project::picked_columns(schema.columns, places),
                metadata: schema.metadata,
            };
            let given = read.batches.map_values(|b: BatchView| project::picked_batch(b, places));
            &&& reads_whole(file)
            &&& project::projected(file, filter, props) == Ok::<Option<Seq<u8>>, ErrorView>(
                Some(parquet_file::file_of(narrowed, props, given)->Ok_0),
            )
            &&& row_count(given) == row_count(read.batches)
        }),
{
    let schema = readable::schema_in(file)->Ok_0;
    let read = readable::rows_in(file)->Ok_0;
    let places = project::kept(schema.columns, filter);
    let narrowed = SchemaView {
        columns: project::picked_columns(schema.columns, places),
        metadata: schema.metadata,
    };
    lemma_picked(narrowed, props, places, read.batches);
    lemma_picked_rows(read.batches, places);
}

proof fn lemma_picked_rows(batches: Seq<BatchView>, places: Seq<usize>)
    ensures
        row_count(batches.map_values(|b: BatchView| project::picked_batch(b, places))) == row_count(
            batches,
        ),
    decreases batches.len(),
{
    let pick = |b: BatchView| project::picked_batch(b, places);
    if batches.len() > 0 {
        lemma_picked_rows(batches.drop_last(), places);
        assert(batches.map_values(pick).drop_last() =~= batches.drop_last().map_values(pick));
    }
}

} // verus!
