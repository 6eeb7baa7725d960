//! What a copy takes across: which segments, which tails, which tables.

use vstd::prelude::*;

use super::copy;
use super::copy::{CopyRun, CopySpec};
use super::laws;
use super::project;
use super::project::ColumnFilter;
use crate::db;
use crate::db::model;
use crate::db::model::DbView;
use crate::db::records::{CallerAtView, ClockAt, SegmentAtView};
use crate::db::store;
use crate::db::table;
use crate::db::table::Keyed;
use crate::db::{CallerView, SegmentMeta, SegmentView, SourceRow, SourceView, WalView};
use crate::names;
use crate::replicate::exchange;
use crate::replicate::lossless;
use crate::segment;
use crate::segment::SegmentEncoder;
use crate::seqs;
use crate::text;

verus! {

// ------------------------------------------------------------ one stream

/// What of a file a copy takes across, with an index: all of it, or where columns are
/// chosen those alone, without an index, and nothing where none of them has data.
pub open spec fn crossing<C: ColumnFilter>(
    spec: CopySpec<C>,
    file: Seq<u8>,
    index: Option<Seq<u8>>,
) -> Option<(Seq<u8>, Option<Seq<u8>>)> {
    match spec.keep_columns {
        None => Some((file, index)),
        Some(filter) => match project::projected(file, *filter, spec.properties()) {
            Ok(Some(b)) => Some((b, None)),
            _ => None,
        },
    }
}

/// Whether what a copy holds under a number is a segment taken across.
pub open spec fn crossed<C: ColumnFilter>(
    got: SegmentView,
    n: int,
    meta: SegmentMeta,
    file: Seq<u8>,
    index: Option<Seq<u8>>,
    spec: CopySpec<C>,
) -> bool {
    &&& got.seq == n
    &&& got.meta == meta
    &&& crossing(spec, file, index) == Some((got.bytes, got.caller_index))
}

/// Whether a tail meets a range: it has rows, its last is not before the range and its
/// first is not after it.
pub open spec fn tail_meets(tail: Seq<WalView>, start: i64, end: i64) -> bool {
    tail.len() > 0 && tail[tail.len() - 1].ts >= start && tail[0].ts <= end
}

/// Whether segments are what a copy makes of a stream: those of the stream's that meet
/// the range and of which anything crosses, in order and numbered from zero on; and
/// behind them what the encoder makes of the tail, exactly where the tail meets the range
/// and anything of it crosses.
pub open spec fn copy_of<C: ColumnFilter, E: SegmentEncoder>(
    got: Seq<SegmentView>,
    from: DbView,
    source: i64,
    stream: Seq<char>,
    spec: CopySpec<C>,
    encoder: E,
) -> bool {
    let taken = from.segments_of(source, stream).filter(
        |v: SegmentView|
            v.meta.last_ts >= spec.start && v.meta.first_ts <= spec.end && crossing(
                spec,
                v.bytes,
                v.caller_index,
            ) is Some,
    );
    let n = taken.len() as int;
    let tail = from.live_of(source, stream);
    let made = encoder.encoded(stream, tail);
    &&& got.len() >= n
    &&& forall|i: int|
        0 <= i < n ==> crossed(
            #[trigger] got[i],
            i,
            taken[i].meta,
            taken[i].bytes,
            taken[i].caller_index,
            spec,
        )
    &&& tail_meets(tail, spec.start, spec.end) ==> made is Ok
    &&& if tail_meets(tail, spec.start, spec.end) && made->Ok_0 is Some && crossing(
        spec,
        (made->Ok_0)->0.bytes,
        (made->Ok_0)->0.index,
    ) is Some {
        let s = (made->Ok_0)->0;
        &&& got.len() == n + 1
        &&& crossed(
            got[n],
            n,
            SegmentMeta { rows: s.rows, first_ts: s.first_ts, last_ts: s.last_ts },
            s.bytes,
            s.index,
            spec,
        )
    } else {
        got.len() == n
    }
}

proof fn lemma_segment_crossed<C: ColumnFilter>(
    run: CopyRun,
    id: i64,
    stream: Seq<char>,
    meta: SegmentMeta,
    file: Seq<u8>,
    index: Option<Seq<u8>>,
    spec: CopySpec<C>,
)
    requires
        run.to.wf(),
        run.refusal is None,
        run.seq < u64::MAX,
        copy::segment_copied(run, id, stream, meta, file, index, spec).refusal is None,
        forall|i: int|
            0 <= i < run.to.segments_of(id, stream).len() ==> (#[trigger] run.to.segments_of(
                id,
                stream,
            )[i]).seq < run.seq,
    ensures
        ({
            let after = copy::segment_copied(run, id, stream, meta, file, index, spec);
            match crossing(spec, file, index) {
                None => after == run,
                Some((b, x)) => {
                    &&& after.seq == run.seq + 1
                    &&& laws::same_but_for(run.to, after.to, id, stream)
                    &&& after.to.segments_of(id, stream) == run.to.segments_of(id, stream).push(
                        SegmentView { seq: run.seq, meta, bytes: b, caller_index: x },
                    )
                },
            }
        }),
{
    let after = copy::segment_copied(run, id, stream, meta, file, index, spec);
    if let Some((b, x)) = crossing(spec, file, index) {
        let at = SegmentAtView {
            source_id: id,
            stream,
            row: SegmentView { seq: run.seq, meta, bytes: b, caller_index: x },
        };
        db::laws::lemma_segment_appended(run.to, at);
        assert forall|s: i64, st: Seq<char>|
            !(s == id && st == stream) implies #[trigger] after.to.segments_of(s, st)
            == run.to.segments_of(s, st) by {
            db::laws::lemma_segments_inserted(run.to, at, s, st);
        }
        db::laws::lemma_segments_inserted(run.to, at, id, stream);
    }
}

proof fn lemma_segments_crossed<C: ColumnFilter>(
    to: DbView,
    id: i64,
    stream: Seq<char>,
    segments: Seq<SegmentView>,
    spec: CopySpec<C>,
)
    requires
        to.wf(),
        to.segments_of(id, stream).len() == 0,
        segments.len() < u64::MAX,
        copy::segments_copied(to, id, stream, segments, spec).refusal is None,
    ensures
        ({
            let run = copy::segments_copied(to, id, stream, segments, spec);
            let taken = segments.filter(
                |v: SegmentView| crossing(spec, v.bytes, v.caller_index) is Some,
            );
            let got = run.to.segments_of(id, stream);
            &&& run.seq == taken.len()
            &&& got.len() == taken.len()
            &&& laws::same_but_for(to, run.to, id, stream)
            &&& forall|i: int|
                0 <= i < taken.len() ==> crossed(
                    #[trigger] got[i],
                    i,
                    taken[i].meta,
                    taken[i].bytes,
                    taken[i].caller_index,
                    spec,
                )
        }),
    decreases segments.len(),
{
    let crosses = |v: SegmentView| crossing(spec, v.bytes, v.caller_index) is Some;
    let taken = segments.filter(crosses);
    seqs::lemma_filter_shorter(segments, crosses);
    reveal(Seq::filter);
    if segments.len() > 0 {
        let head = segments.drop_last();
        let s = segments.last();
        lemma_segments_crossed(to, id, stream, head, spec);
        seqs::lemma_filter_shorter(head, crosses);
        let run = copy::segments_copied(to, id, stream, head, spec);
        let after = copy::segments_copied(to, id, stream, segments, spec);
        let was = run.to.segments_of(id, stream);
        let got = after.to.segments_of(id, stream);
        let before = head.filter(crosses);
        assert forall|i: int| 0 <= i < was.len() implies (#[trigger] was[i]).seq < run.seq by {
            assert(crossed(
                was[i],
                i,
                before[i].meta,
                before[i].bytes,
                before[i].caller_index,
                spec,
            ));
        }
        lemma_segment_crossed(run, id, stream, s.meta, s.bytes, s.caller_index, spec);
        assert forall|i: int| 0 <= i < taken.len() implies crossed(
            #[trigger] got[i],
            i,
            taken[i].meta,
            taken[i].bytes,
            taken[i].caller_index,
            spec,
        ) by {
            if i < before.len() {
                assert(taken[i] == before[i]);
                assert(got[i] == was[i]);
            }
        }
        assert forall|o: i64, st: Seq<char>|
            !(o == id && st == stream) implies #[trigger] after.to.segments_of(o, st)
            == to.segments_of(o, st) by {
            assert(run.to.segments_of(o, st) == to.segments_of(o, st));
        }
    }
}

proof fn lemma_stream_copied<C: ColumnFilter, E: SegmentEncoder>(
    to: DbView,
    id: i64,
    from: DbView,
    source: i64,
    stream: Seq<char>,
    spec: CopySpec<C>,
    encoder: E,
)
    requires
        to.wf(),
        to.segments_of(id, stream).len() == 0,
        from.segments_of(source, stream).len() < u64::MAX,
        copy::stream_copied(to, id, from, source, stream, spec, encoder).refusal is None,
    ensures
        ({
            let n = copy::stream_copied(to, id, from, source, stream, spec, encoder).to;
            &&& laws::same_but_for(to, n, id, stream)
            &&& copy_of(n.segments_of(id, stream), from, source, stream, spec, encoder)
        }),
{
    let sealed = from.segments_of(source, stream);
    let meets = |v: SegmentView| v.meta.last_ts >= spec.start && v.meta.first_ts <= spec.end;
    let crosses = |v: SegmentView| crossing(spec, v.bytes, v.caller_index) is Some;
    let both = |v: SegmentView|
        v.meta.last_ts >= spec.start && v.meta.first_ts <= spec.end && crossing(
            spec,
            v.bytes,
            v.caller_index,
        ) is Some;
    let met = store::overlapping(sealed, spec.start, spec.end);
    seqs::lemma_filter_shorter(sealed, meets);
    seqs::lemma_filter_same(
        sealed,
        meets,
        |v: SegmentView| v.meta.last_ts >= spec.start && v.meta.first_ts <= spec.end,
    );
    seqs::lemma_filter_twice(sealed, meets, crosses);
    seqs::lemma_filter_same(sealed, |v: SegmentView| meets(v) && crosses(v), both);
    let taken = sealed.filter(both);
    assert(met.filter(crosses) == taken);
    seqs::lemma_filter_shorter(sealed, both);
    lemma_segments_crossed(to, id, stream, met, spec);
    let run = copy::segments_copied(to, id, stream, met, spec);
    let was = run.to.segments_of(id, stream);
    assert forall|i: int| 0 <= i < was.len() implies (#[trigger] was[i]).seq < run.seq by {
        assert(crossed(
            was[i],
            i,
            taken[i].meta,
            taken[i].bytes,
            taken[i].caller_index,
            spec,
        ));
    }
    let tail = from.live_of(source, stream);
    let n = copy::stream_copied(to, id, from, source, stream, spec, encoder).to;
    let got = n.segments_of(id, stream);
    if tail_meets(tail, spec.start, spec.end) {
        assert(copy::in_range(tail, spec.start, spec.end));
        if let Ok(Some(s)) = encoder.encoded(stream, tail) {
            let meta = SegmentMeta { rows: s.rows, first_ts: s.first_ts, last_ts: s.last_ts };
            lemma_segment_crossed(run, id, stream, meta, s.bytes, s.index, spec);
            assert forall|o: i64, st: Seq<char>|
                !(o == id && st == stream) implies #[trigger] n.segments_of(o, st)
                == to.segments_of(o, st) by {
                assert(run.to.segments_of(o, st) == to.segments_of(o, st));
            }
        }
    } else {
        assert(!copy::in_range(tail, spec.start, spec.end));
    }
    assert forall|i: int| 0 <= i < taken.len() implies crossed(
        #[trigger] got[i],
        i,
        taken[i].meta,
        taken[i].bytes,
        taken[i].caller_index,
        spec,
    ) by {
        assert(got[i] == was[i]);
    }
}

/// A copy takes of a stream what meets its range. For any bounds, where no columns are
/// chosen, the copied stream's segments are those of the stream that overlap the bounds,
/// as they are but for their numbers, which count from zero; and behind them what the
/// encoder makes of the live tail, exactly where the tail has rows, its last is not before
/// the start and its first is not after the end. Nothing else of the archive changes.
pub proof fn law_a_copy_takes_what_meets_its_range<C: ColumnFilter, E: SegmentEncoder>(
    to: DbView,
    id: i64,
    from: DbView,
    source: i64,
    stream: Seq<char>,
    spec: CopySpec<C>,
    encoder: E,
)
    requires
        to.wf(),
        spec.keep_columns is None,
        to.segments_of(id, stream).len() == 0,
        from.segments_of(source, stream).len() < u64::MAX,
        copy::stream_copied(to, id, from, source, stream, spec, encoder).refusal is None,
    ensures
        ({
            let n = copy::stream_copied(to, id, from, source, stream, spec, encoder).to;
            let met = from.segments_of(source, stream).filter(
                |v: SegmentView| v.meta.last_ts >= spec.start && v.meta.first_ts <= spec.end,
            );
            let kept = Seq::new(met.len(), |i: int| SegmentView { seq: i as u64, ..met[i] });
            let tail = from.live_of(source, stream);
            let made = encoder.encoded(stream, tail);
            &&& laws::same_but_for(to, n, id, stream)
            &&& if tail.len() > 0 && tail.last().ts >= spec.start && tail[0].ts <= spec.end {
                &&& made is Ok
                &&& n.segments_of(id, stream) == match made->Ok_0 {
                    None => kept,
                    Some(s) => kept.push(
                        SegmentView {
                            seq: met.len() as u64,
                            meta: SegmentMeta {
                                rows: s.rows,
                                first_ts: s.first_ts,
                                last_ts: s.last_ts,
                            },
                            bytes: s.bytes,
                            caller_index: s.index,
                        },
                    ),
                }
            } else {
                n.segments_of(id, stream) == kept
            }
        }),
{
    let n = copy::stream_copied(to, id, from, source, stream, spec, encoder).to;
    let sealed = from.segments_of(source, stream);
    let meets = |v: SegmentView| v.meta.last_ts >= spec.start && v.meta.first_ts <= spec.end;
    let both = |v: SegmentView|
        v.meta.last_ts >= spec.start && v.meta.first_ts <= spec.end && crossing(
            spec,
            v.bytes,
            v.caller_index,
        ) is Some;
    seqs::lemma_filter_same(sealed, meets, both);
    seqs::lemma_filter_shorter(sealed, meets);
    lemma_stream_copied(to, id, from, source, stream, spec, encoder);
    let met = sealed.filter(meets);
    let kept = Seq::new(met.len(), |i: int| SegmentView { seq: i as u64, ..met[i] });
    let got = n.segments_of(id, stream);
    assert forall|i: int| 0 <= i < met.len() implies #[trigger] got[i] == kept[i] by {
        assert(crossed(got[i], i, met[i].meta, met[i].bytes, met[i].caller_index, spec));
    }
    let tail = from.live_of(source, stream);
    if tail_meets(tail, spec.start, spec.end) && (encoder.encoded(stream, tail)->Ok_0) is Some {
        let s = (encoder.encoded(stream, tail)->Ok_0)->0;
        assert(got =~= kept.push(
            SegmentView {
                seq: met.len() as u64,
                meta: SegmentMeta { rows: s.rows, first_ts: s.first_ts, last_ts: s.last_ts },
                bytes: s.bytes,
                caller_index: s.index,
            },
        ));
    } else {
        assert(got =~= kept);
    }
}

/// A copy takes of a stream what meets its range, also where columns are chosen: then
/// each segment crosses as a projection onto them, and one of which nothing is left does
/// not.
pub proof fn law_a_copy_takes_the_columns_chosen<C: ColumnFilter, E: SegmentEncoder>(
    to: DbView,
    id: i64,
    from: DbView,
    source: i64,
    stream: Seq<char>,
    spec: CopySpec<C>,
    encoder: E,
)
    requires
        to.wf(),
        to.segments_of(id, stream).len() == 0,
        from.segments_of(source, stream).len() < u64::MAX,
        copy::stream_copied(to, id, from, source, stream, spec, encoder).refusal is None,
    ensures
        copy_of(
            copy::stream_copied(to, id, from, source, stream, spec, encoder).to.segments_of(
                id,
                stream,
            ),
            from,
            source,
            stream,
            spec,
            encoder,
        ),
{
    lemma_stream_copied(to, id, from, source, stream, spec, encoder);
}

// ------------------------------------------------------------ one source

/// What copying streams leaves of the destination.
pub open spec fn streams_taken<C: ColumnFilter, E: SegmentEncoder>(
    to: DbView,
    n: DbView,
    id: i64,
    from: DbView,
    source: i64,
    streams: Seq<Seq<char>>,
    spec: CopySpec<C>,
    encoder: E,
) -> bool {
    &&& n.wf()
    &&& n.sources == to.sources
    &&& n.wal == to.wal
    &&& n.clock_offsets == to.clock_offsets
    &&& n.caller_rows == to.caller_rows
    &&& forall|s: i64, st: Seq<char>|
        !(s == id && streams.contains(st) && spec.keeps(st)) ==> #[trigger] n.segments_of(s, st)
            == to.segments_of(s, st)
    &&& forall|k: int|
        0 <= k < streams.len() && spec.keeps(#[trigger] streams[k]) ==> copy_of(
            n.segments_of(id, streams[k]),
            from,
            source,
            streams[k],
            spec,
            encoder,
        )
}

proof fn lemma_streams_taken<C: ColumnFilter, E: SegmentEncoder>(
    to: DbView,
    id: i64,
    from: DbView,
    source: i64,
    streams: Seq<Seq<char>>,
    spec: CopySpec<C>,
    encoder: E,
)
    requires
        to.wf(),
        names::ascending_names(streams),
        forall|st: Seq<char>| (#[trigger] to.segments_of(id, st)).len() == 0,
        forall|st: Seq<char>| (#[trigger] from.segments_of(source, st)).len() < u64::MAX,
        copy::streams_copied(to, id, from, source, streams, spec, encoder).1 is None,
    ensures
        streams_taken(
            to,
            copy::streams_copied(to, id, from, source, streams, spec, encoder).0,
            id,
            from,
            source,
            streams,
            spec,
            encoder,
        ),
    decreases streams.len(),
{
    if streams.len() > 0 {
        let head = streams.drop_last();
        let last = streams.last();
        lemma_streams_taken(to, id, from, source, head, spec, encoder);
        let was = copy::streams_copied(to, id, from, source, head, spec, encoder).0;
        let n = copy::streams_copied(to, id, from, source, streams, spec, encoder).0;
        assert(!head.contains(last)) by {
            if head.contains(last) {
                let k = choose|k: int| 0 <= k < head.len() && head[k] == last;
                assert(text::text_less(streams[k], streams[streams.len() - 1]));
                text::lemma_text_order(last, last);
            }
        }
        assert(was.segments_of(id, last) == to.segments_of(id, last));
        if spec.keeps(last) {
            lemma_stream_copied(was, id, from, source, last, spec, encoder);
        }
        assert forall|s: i64, st: Seq<char>|
            !(s == id && streams.contains(st) && spec.keeps(st)) implies #[trigger] n.segments_of(
            s,
            st,
        ) == to.segments_of(s, st) by {
            if s == id {
                if head.contains(st) {
                    let k = choose|k: int| 0 <= k < head.len() && head[k] == st;
                    assert(streams[k] == st);
                }
                assert(streams[streams.len() - 1] == last);
            }
            assert(was.segments_of(s, st) == to.segments_of(s, st));
        }
        assert forall|k: int| 0 <= k < streams.len() && spec.keeps(#[trigger] streams[k]) implies copy_of(
            n.segments_of(id, streams[k]),
            from,
            source,
            streams[k],
            spec,
            encoder,
        ) by {
            if k < head.len() {
                assert(head[k] == streams[k]);
                assert(streams[k] != last) by {
                    if streams[k] == last {
                        assert(head.contains(last));
                    }
                }
                assert(n.segments_of(id, streams[k]) == was.segments_of(id, streams[k]));
            }
        }
    }
}

proof fn lemma_offsets_taken(to: DbView, id: i64, pairs: Seq<(i64, i64)>)
    requires
        to.wf(),
        to.has_source(id),
        to.clock_of(id).len() == 0,
        forall|i: int, j: int|
            0 <= i < j < pairs.len() ==> (#[trigger] pairs[i]).0 < (#[trigger] pairs[j]).0,
    ensures
        ({
            let (n, e) = copy::offsets_copied(to, id, pairs);
            &&& e is None
            &&& n.wf()
            &&& n == (DbView { clock_offsets: n.clock_offsets, ..to })
            &&& n.clock_of(id) == pairs
            &&& forall|s: i64| s != id ==> #[trigger] n.clock_of(s) == to.clock_of(s)
        }),
    decreases pairs.len(),
{
    if pairs.len() == 0 {
        assert(to.clock_of(id) =~= pairs);
    } else {
        let head = pairs.drop_last();
        assert forall|i: int, j: int| 0 <= i < j < head.len() implies (#[trigger] head[i]).0 < (
        #[trigger] head[j]).0 by {
            assert(pairs[i].0 < pairs[j].0);
        }
        lemma_offsets_taken(to, id, head);
        let was = copy::offsets_copied(to, id, head).0;
        let c = ClockAt { source_id: id, ts: pairs.last().0, offset_ns: pairs.last().1 };
        let k = choose|k: int| 0 <= k < to.sources.len() && #[trigger] to.sources[k].id == id;
        assert(was.sources[k].id == id);
        assert forall|i: int| 0 <= i < was.clock_of(id).len() implies (#[trigger] was.clock_of(
            id,
        )[i]).0 < c.ts by {
            assert(head[i].0 == pairs[i].0 && pairs[i].0 < pairs[pairs.len() - 1].0);
        }
        lemma_clock_appended(was, c);
        assert(head.push(pairs.last()) =~= pairs);
    }
}

proof fn lemma_clock_appended(d: DbView, c: ClockAt)
    requires
        d.wf(),
        d.has_source(c.source_id),
        forall|i: int|
            0 <= i < d.clock_of(c.source_id).len() ==> (#[trigger] d.clock_of(c.source_id)[i]).0
                < c.ts,
    ensures
        d.clock_inserted(c) is Ok,
        ({
            let n = d.clock_inserted(c)->Ok_0;
            &&& n.wf()
            &&& n == (DbView { clock_offsets: n.clock_offsets, ..d })
            &&& n.clock_of(c.source_id) == d.clock_of(c.source_id).push((c.ts, c.offset_ns))
            &&& forall|s: i64| s != c.source_id ==> #[trigger] n.clock_of(s) == d.clock_of(s)
        }),
{
    lossless::lemma_clock_appended(d, c);
    let n = d.clock_inserted(c)->Ok_0;
    assert forall|s: i64| s != c.source_id implies #[trigger] n.clock_of(s) == d.clock_of(s) by {
        let here = |v: ClockAt| table::within::<ClockAt>(v, s as int, None);
        table::lemma_filter_placed::<ClockAt>(d.clock_offsets, c, here);
    }
}

/// A source's clock observations are in order, and no two are of one moment.
proof fn lemma_clock_ascends(d: DbView, source: i64)
    requires
        d.wf(),
    ensures
        forall|i: int, j: int|
            0 <= i < j < d.clock_of(source).len() ==> (#[trigger] d.clock_of(source)[i]).0 < (
            #[trigger] d.clock_of(source)[j]).0,
{
    let here = |v: ClockAt| table::within::<ClockAt>(v, source as int, None);
    table::lemma_filter_in_order::<ClockAt>(d.clock_offsets, here);
    let t = d.clock_offsets.filter(here);
    let pairs = d.clock_of(source);
    assert forall|i: int, j: int| 0 <= i < j < pairs.len() implies (#[trigger] pairs[i]).0 < (
    #[trigger] pairs[j]).0 by {
        assert(pairs[i].0 == t[i].ts && pairs[j].0 == t[j].ts);
        table::lemma_key_order(ClockAt::key_of(t[i]), ClockAt::key_of(t[j]));
        assert(ClockAt::key_of(t[i]) != ClockAt::key_of(t[j]));
    }
}

proof fn lemma_callers_taken(to: DbView, id: i64, stream: Seq<char>, rows: Seq<CallerView>)
    requires
        to.wf(),
        to.has_source(id),
        to.callers_of(id, stream).len() == 0,
        exchange::by_when(rows),
    ensures
        ({
            let (n, e) = copy::callers_copied(to, id, stream, rows);
            &&& e is None
            &&& n.wf()
            &&& n == (DbView { caller_rows: n.caller_rows, ..to })
            &&& n.callers_of(id, stream) == rows
            &&& forall|s: i64, st: Seq<char>|
                !(s == id && st == stream) ==> #[trigger] n.callers_of(s, st) == to.callers_of(
                    s,
                    st,
                )
        }),
    decreases rows.len(),
{
    if rows.len() == 0 {
        assert(to.callers_of(id, stream) =~= rows);
    } else {
        let head = rows.drop_last();
        assert forall|i: int, j: int| 0 <= i < j < head.len() implies (#[trigger] head[i]).ts <= (
        #[trigger] head[j]).ts by {
            assert(rows[i].ts <= rows[j].ts);
        }
        lemma_callers_taken(to, id, stream, head);
        let was = copy::callers_copied(to, id, stream, head).0;
        let c = CallerAtView { source_id: id, stream, row: rows.last() };
        let k = choose|k: int| 0 <= k < to.sources.len() && #[trigger] to.sources[k].id == id;
        assert(was.sources[k].id == id);
        assert forall|i: int| 0 <= i < was.callers_of(id, stream).len() implies (
        #[trigger] was.callers_of(id, stream)[i]).ts <= c.row.ts by {
            assert(head[i] == rows[i] && rows[i].ts <= rows[rows.len() - 1].ts);
        }
        lossless::lemma_caller_appended(was, c);
        assert(head.push(rows.last()) =~= rows);
        let n = copy::callers_copied(to, id, stream, rows).0;
        assert forall|s: i64, st: Seq<char>|
            !(s == id && st == stream) implies #[trigger] n.callers_of(s, st) == to.callers_of(
            s,
            st,
        ) by {
            assert(was.callers_of(s, st) == to.callers_of(s, st));
        }
    }
}

/// What copying caller's rows leaves of the destination: those of each stream that is
/// kept, as they were, and nothing else.
pub open spec fn series_taken<C: ColumnFilter>(
    to: DbView,
    n: DbView,
    id: i64,
    from: DbView,
    source: i64,
    streams: Seq<Seq<char>>,
    spec: CopySpec<C>,
) -> bool {
    &&& n.wf()
    &&& n == (DbView { caller_rows: n.caller_rows, ..to })
    &&& forall|s: i64, st: Seq<char>| #[trigger]
        n.callers_of(s, st) == if s == id && streams.contains(st) && spec.keeps(st) {
            from.callers_of(source, st)
        } else {
            to.callers_of(s, st)
        }
}

proof fn lemma_series_taken<C: ColumnFilter>(
    to: DbView,
    id: i64,
    from: DbView,
    source: i64,
    streams: Seq<Seq<char>>,
    spec: CopySpec<C>,
)
    requires
        to.wf(),
        from.wf(),
        to.has_source(id),
        names::ascending_names(streams),
        forall|st: Seq<char>| (#[trigger] to.callers_of(id, st)).len() == 0,
    ensures
        copy::series_copied(to, id, from, source, streams, spec).1 is None,
        series_taken(
            to,
            copy::series_copied(to, id, from, source, streams, spec).0,
            id,
            from,
            source,
            streams,
            spec,
        ),
    decreases streams.len(),
{
    if streams.len() > 0 {
        let head = streams.drop_last();
        let last = streams.last();
        assert forall|i: int, j: int| 0 <= i < j < head.len() implies text::text_less(
            #[trigger] head[i],
            #[trigger] head[j],
        ) by {
            assert(text::text_less(streams[i], streams[j]));
        }
        lemma_series_taken(to, id, from, source, head, spec);
        let was = copy::series_copied(to, id, from, source, head, spec).0;
        let n = copy::series_copied(to, id, from, source, streams, spec).0;
        assert(!head.contains(last)) by {
            if head.contains(last) {
                let k = choose|k: int| 0 <= k < head.len() && head[k] == last;
                assert(text::text_less(streams[k], streams[streams.len() - 1]));
                text::lemma_text_order(last, last);
            }
        }
        assert(was.callers_of(id, last) == to.callers_of(id, last));
        let i = choose|i: int| 0 <= i < to.sources.len() && #[trigger] to.sources[i].id == id;
        assert(was.sources[i].id == id);
        if spec.keeps(last) {
            exchange::lemma_entries_in_order(from, source, last);
            lemma_callers_taken(was, id, last, from.callers_of(source, last));
        }
        assert forall|s: i64, st: Seq<char>| #[trigger]
            n.callers_of(s, st) == (if s == id && streams.contains(st) && spec.keeps(st) {
                from.callers_of(source, st)
            } else {
                to.callers_of(s, st)
            }) by {
            assert(streams[streams.len() - 1] == last);
            assert(streams.contains(st) <==> head.contains(st) || st == last) by {
                if head.contains(st) {
                    let k = choose|k: int| 0 <= k < head.len() && head[k] == st;
                    assert(streams[k] == st);
                }
                if streams.contains(st) && st != last {
                    let k = choose|k: int| 0 <= k < streams.len() && streams[k] == st;
                    assert(head[k] == st);
                }
            }
            assert(was.callers_of(s, st) == (if s == id && head.contains(st) && spec.keeps(st) {
                from.callers_of(source, st)
            } else {
                to.callers_of(s, st)
            }));
        }
    }
}

/// Whether a source's id is free: nothing in the archive is of it.
pub open spec fn unused(d: DbView, id: i64) -> bool {
    &&& d.clock_of(id).len() == 0
    &&& forall|st: Seq<char>| (#[trigger] d.segments_of(id, st)).len() == 0
    &&& forall|st: Seq<char>| (#[trigger] d.wal_of(id, st)).len() == 0
    &&& forall|st: Seq<char>| (#[trigger] d.callers_of(id, st)).len() == 0
}

/// Whether an archive holds a copy of a source under an id: what the source says of
/// itself, with what the copy adds to its metadata; of each of its streams that is kept
/// what meets the range, and of each other nothing; every clock observation; and every
/// caller's row of a stream that is kept.
pub open spec fn holds_copy<C: ColumnFilter, E: SegmentEncoder>(
    n: DbView,
    id: i64,
    from: DbView,
    s: SourceView,
    spec: CopySpec<C>,
    encoder: E,
) -> bool {
    &&& n.source(id) == Some(
        SourceView {
            id,
            uuid: s.uuid,
            meta: copy::copied_meta(s.meta, spec),
            complete: s.complete,
        },
    )
    &&& forall|st: Seq<char>|
        from.streams_of(s.id).contains(st) && spec.keeps(st) ==> copy_of(
            #[trigger] n.segments_of(id, st),
            from,
            s.id,
            st,
            spec,
            encoder,
        )
    &&& forall|st: Seq<char>|
        !(from.streams_of(s.id).contains(st) && spec.keeps(st)) ==> (#[trigger] n.segments_of(
            id,
            st,
        )).len() == 0
    &&& n.clock_of(id) == from.clock_of(s.id)
    &&& forall|st: Seq<char>| #[trigger]
        n.callers_of(id, st) == if spec.keeps(st) {
            from.callers_of(s.id, st)
        } else {
            Seq::empty()
        }
}

/// Whether two archives agree on every source but one.
pub open spec fn same_elsewhere(to: DbView, n: DbView, id: i64) -> bool {
    &&& n.wal == to.wal
    &&& forall|s: i64| s != id ==> #[trigger] n.source(s) == to.source(s)
    &&& forall|s: i64, st: Seq<char>|
        s != id ==> #[trigger] n.segments_of(s, st) == to.segments_of(s, st)
    &&& forall|s: i64| s != id ==> #[trigger] n.clock_of(s) == to.clock_of(s)
    &&& forall|s: i64, st: Seq<char>|
        s != id ==> #[trigger] n.callers_of(s, st) == to.callers_of(s, st)
}

proof fn lemma_caller_streams(d: DbView, source: i64, st: Seq<char>)
    ensures
        names::ascending_names(d.caller_streams(source)),
        !d.caller_streams(source).contains(st) ==> d.callers_of(source, st).len() == 0,
{
    names::lemma_with_names(Seq::empty(), d.caller_names(source));
    if d.callers_of(source, st).len() > 0 {
        lossless::lemma_caller_stream(d, source, st);
    }
}

/// Starting a source adds it alone, behind the others.
proof fn lemma_started_alone<C: ColumnFilter>(to: DbView, s: SourceView, spec: CopySpec<C>)
    requires
        to.wf(),
        model::next_id(to.sources) <= i64::MAX,
    ensures
        ({
            let id = model::next_id(to.sources) as i64;
            let n = laws::started(to, s, spec);
            &&& n == (DbView { sources: n.sources, ..to })
            &&& n.has_source(id)
            &&& model::next_id(n.sources) == model::next_id(to.sources) + 1
            &&& n.sources.len() == to.sources.len() + 1
            &&& forall|o: i64| o != id ==> #[trigger] n.source(o) == to.source(o)
        }),
{
    let id = model::next_id(to.sources) as i64;
    let meta = copy::copied_meta(s.meta, spec);
    let row = SourceView { id, uuid: s.uuid, meta, complete: false };
    let d = to.with_source(meta, s.uuid);
    db::laws::law_a_source_reads_back(to, meta, s.uuid);
    laws::lemma_started(to, s, spec);
    let n = laws::started(to, s, spec);
    table::lemma_place::<SourceRow>(to.sources, row);
    let p = table::place_of::<SourceRow>(to.sources, row);
    if p < to.sources.len() {
        let last = to.sources.len() - 1;
        assert(table::before(SourceRow::key_of(row), SourceRow::key_of(to.sources[p])));
        if p < last {
            assert(!table::before(
                SourceRow::key_of(to.sources[last]),
                SourceRow::key_of(to.sources[p]),
            ));
        }
        assert(to.sources[last].id + 1 == id);
    }
    assert(d.sources =~= to.sources.push(row));
    assert(d.sources[p] == row);
    if s.complete {
        let done = SourceView { complete: true, ..row };
        db::laws::lemma_source_is(d, p);
        store::changes::lemma_replaced(d, p, done);
        assert(n.sources == d.sources.update(p, done));
    }
    assert(n.sources[p].id == id);
    assert(n.sources.len() == to.sources.len() + 1);
    assert forall|i: int| 0 <= i < to.sources.len() implies #[trigger] n.sources[i]
        == to.sources[i] by {}
    assert forall|o: i64| o != id implies #[trigger] n.source(o) == to.source(o) by {
        if to.has_source(o) {
            let i = choose|i: int| 0 <= i < to.sources.len() && #[trigger] to.sources[i].id == o;
            assert(n.sources[i] == to.sources[i]);
            db::laws::lemma_source_is(n, i);
            db::laws::lemma_source_is(to, i);
        } else if n.has_source(o) {
            let i = choose|i: int| 0 <= i < n.sources.len() && #[trigger] n.sources[i].id == o;
            if i < to.sources.len() {
                assert(to.sources[i].id == o);
            }
        }
    }
}

/// A copied source is a copy of all of it: what it says of itself, its streams, its clock
/// observations and its caller's rows, under the next id; and nothing of any other source
/// changes.
pub proof fn law_a_copied_source_is_whole<C: ColumnFilter, E: SegmentEncoder>(
    to: DbView,
    from: DbView,
    s: SourceView,
    spec: CopySpec<C>,
    encoder: E,
)
    requires
        to.wf(),
        from.wf(),
        unused(to, model::next_id(to.sources) as i64),
        forall|st: Seq<char>| (#[trigger] from.segments_of(s.id, st)).len() < u64::MAX,
        copy::source_copied(to, from, s, spec, encoder).1 is None,
    ensures
        ({
            let id = model::next_id(to.sources) as i64;
            let n = copy::source_copied(to, from, s, spec, encoder).0;
            &&& n.wf()
            &&& holds_copy(n, id, from, s, spec, encoder)
            &&& same_elsewhere(to, n, id)
            &&& n.sources.len() == to.sources.len() + 1
            &&& model::next_id(n.sources) == model::next_id(to.sources) + 1
            &&& model::next_id(to.sources) <= i64::MAX
        }),
{
    let id = model::next_id(to.sources) as i64;
    let d = laws::started(to, s, spec);
    laws::lemma_started(to, s, spec);
    lemma_started_alone(to, s, spec);
    let streams = from.streams_of(s.id);
    db::laws::law_a_stream_is_its_rows(from, s.id, Seq::empty());
    assert forall|st: Seq<char>| (#[trigger] d.segments_of(id, st)).len() == 0 by {
        assert(d.segments_of(id, st) == to.segments_of(id, st));
    }
    lemma_streams_taken(d, id, from, s.id, streams, spec, encoder);
    let a = copy::streams_copied(d, id, from, s.id, streams, spec, encoder).0;
    let i = choose|i: int| 0 <= i < d.sources.len() && #[trigger] d.sources[i].id == id;
    assert(a.sources[i].id == id);
    assert(a.clock_of(id) == to.clock_of(id));
    lemma_clock_ascends(from, s.id);
    lemma_offsets_taken(a, id, from.clock_of(s.id));
    let b = copy::offsets_copied(a, id, from.clock_of(s.id)).0;
    assert(b.sources[i].id == id);
    assert forall|st: Seq<char>| (#[trigger] b.callers_of(id, st)).len() == 0 by {
        assert(b.callers_of(id, st) == to.callers_of(id, st));
    }
    let series = from.caller_streams(s.id);
    lemma_caller_streams(from, s.id, Seq::empty());
    lemma_series_taken(b, id, from, s.id, series, spec);
    let n = copy::source_copied(to, from, s, spec, encoder).0;
    assert forall|o: i64, st: Seq<char>| #[trigger] n.segments_of(o, st) == a.segments_of(
        o,
        st,
    ) by {}
    assert(n.source(id) == d.source(id));
    assert forall|st: Seq<char>|
        from.streams_of(s.id).contains(st) && spec.keeps(st) implies copy_of(
        #[trigger] n.segments_of(id, st),
        from,
        s.id,
        st,
        spec,
        encoder,
    ) by {
        let k = choose|k: int| 0 <= k < streams.len() && streams[k] == st;
        assert(spec.keeps(streams[k]));
    }
    assert forall|st: Seq<char>|
        !(from.streams_of(s.id).contains(st) && spec.keeps(st)) implies (
    #[trigger] n.segments_of(id, st)).len() == 0 by {
        assert(a.segments_of(id, st) == d.segments_of(id, st));
    }
    assert forall|st: Seq<char>| #[trigger] n.callers_of(id, st) == (if spec.keeps(st) {
        from.callers_of(s.id, st)
    } else {
        Seq::empty()
    }) by {
        lemma_caller_streams(from, s.id, st);
        assert(n.callers_of(id, st) == (if series.contains(st) && spec.keeps(st) {
            from.callers_of(s.id, st)
        } else {
            b.callers_of(id, st)
        }));
        assert(b.callers_of(id, st).len() == 0);
        assert(b.callers_of(id, st) =~= Seq::empty());
        assert(from.callers_of(s.id, st).len() == 0 ==> from.callers_of(s.id, st)
            =~= Seq::empty());
    }
    assert(n.clock_of(id) == b.clock_of(id));
    assert forall|o: i64| o != id implies #[trigger] n.source(o) == to.source(o) by {
        assert(d.source(o) == to.source(o));
    }
    assert forall|o: i64, st: Seq<char>| o != id implies #[trigger] n.segments_of(o, st)
        == to.segments_of(o, st) by {
        assert(a.segments_of(o, st) == d.segments_of(o, st));
    }
    assert forall|o: i64| o != id implies #[trigger] n.clock_of(o) == to.clock_of(o) by {
        assert(b.clock_of(o) == a.clock_of(o));
    }
    assert forall|o: i64, st: Seq<char>| o != id implies #[trigger] n.callers_of(o, st)
        == to.callers_of(o, st) by {
        assert(n.callers_of(o, st) == b.callers_of(o, st));
    }
}

// ------------------------------------------------------------ what goes through

/// Whether a file can be taken across: all of it, or the columns chosen where the
/// projection of it goes through.
pub open spec fn can_cross<C: ColumnFilter>(spec: CopySpec<C>, file: Seq<u8>) -> bool {
    spec.keep_columns matches Some(filter) ==> project::projected(
        file,
        *filter,
        spec.properties(),
    ) is Ok
}

/// Whether a stream can be taken across: each of its segments that meets the range, and
/// what the encoder makes of its tail where that meets it.
pub open spec fn stream_can_cross<C: ColumnFilter, E: SegmentEncoder>(
    from: DbView,
    source: i64,
    stream: Seq<char>,
    spec: CopySpec<C>,
    encoder: E,
) -> bool {
    let sealed = from.segments_of(source, stream);
    let tail = from.live_of(source, stream);
    &&& forall|i: int|
        0 <= i < sealed.len() && (#[trigger] sealed[i]).meta.last_ts >= spec.start
            && sealed[i].meta.first_ts <= spec.end ==> can_cross(spec, sealed[i].bytes)
    &&& tail_meets(tail, spec.start, spec.end) ==> {
        &&& segment::materialized(encoder, stream, tail) matches Ok(made) && (made matches Some(s)
            ==> can_cross(spec, s.bytes))
    }
}

proof fn lemma_segment_goes<C: ColumnFilter>(
    run: CopyRun,
    id: i64,
    stream: Seq<char>,
    meta: SegmentMeta,
    file: Seq<u8>,
    index: Option<Seq<u8>>,
    spec: CopySpec<C>,
)
    requires
        run.refusal is None,
        run.to.has_source(id),
        forall|i: int|
            0 <= i < run.to.segments_of(id, stream).len() ==> (#[trigger] run.to.segments_of(
                id,
                stream,
            )[i]).seq < run.seq,
        can_cross(spec, file),
    ensures
        copy::segment_copied(run, id, stream, meta, file, index, spec).refusal is None,
{
    if let Ok(Some((b, x))) = copy::carried(spec, file, index) {
        db::facts::law_a_segment_is_taken_where_its_number_is_free(
            run.to,
            SegmentAtView {
                source_id: id,
                stream,
                row: SegmentView { seq: run.seq, meta, bytes: b, caller_index: x },
            },
        );
    }
}

proof fn lemma_segments_go<C: ColumnFilter>(
    to: DbView,
    id: i64,
    stream: Seq<char>,
    segments: Seq<SegmentView>,
    spec: CopySpec<C>,
)
    requires
        to.wf(),
        to.has_source(id),
        to.segments_of(id, stream).len() == 0,
        segments.len() < u64::MAX,
        forall|i: int| 0 <= i < segments.len() ==> can_cross(spec, (#[trigger] segments[i]).bytes),
    ensures
        ({
            let run = copy::segments_copied(to, id, stream, segments, spec);
            &&& run.refusal is None
            &&& run.to.sources == to.sources
            &&& forall|i: int|
                0 <= i < run.to.segments_of(id, stream).len() ==> (#[trigger] run.to.segments_of(
                    id,
                    stream,
                )[i]).seq < run.seq
        }),
    decreases segments.len(),
{
    if segments.len() > 0 {
        let head = segments.drop_last();
        let s = segments.last();
        assert forall|i: int| 0 <= i < head.len() implies can_cross(
            spec,
            (#[trigger] head[i]).bytes,
        ) by {
            assert(head[i] == segments[i]);
        }
        lemma_segments_go(to, id, stream, head, spec);
        let run = copy::segments_copied(to, id, stream, head, spec);
        let k = choose|k: int| 0 <= k < to.sources.len() && #[trigger] to.sources[k].id == id;
        assert(run.to.sources[k].id == id);
        assert(can_cross(spec, segments[segments.len() - 1].bytes));
        lemma_segment_goes(run, id, stream, s.meta, s.bytes, s.caller_index, spec);
    }
    lemma_segments_crossed(to, id, stream, segments, spec);
    let after = copy::segments_copied(to, id, stream, segments, spec);
    let got = after.to.segments_of(id, stream);
    let taken = segments.filter(
        |v: SegmentView| crossing(spec, v.bytes, v.caller_index) is Some,
    );
    assert forall|i: int| 0 <= i < got.len() implies (#[trigger] got[i]).seq < after.seq by {
        assert(crossed(got[i], i, taken[i].meta, taken[i].bytes, taken[i].caller_index, spec));
    }
}

/// A stream is copied wherever each of its segments that meets the range can be taken
/// across, and what the encoder makes of the tail. Neither how many segments there are nor
/// what the bounds are stops it.
pub proof fn law_a_stream_copy_goes_through<C: ColumnFilter, E: SegmentEncoder>(
    to: DbView,
    id: i64,
    from: DbView,
    source: i64,
    stream: Seq<char>,
    spec: CopySpec<C>,
    encoder: E,
)
    requires
        to.wf(),
        to.has_source(id),
        to.segments_of(id, stream).len() == 0,
        from.segments_of(source, stream).len() < u64::MAX,
        stream_can_cross(from, source, stream, spec, encoder),
    ensures
        copy::stream_copied(to, id, from, source, stream, spec, encoder).refusal is None,
{
    let sealed = from.segments_of(source, stream);
    let meets = |v: SegmentView| v.meta.last_ts >= spec.start && v.meta.first_ts <= spec.end;
    let met = store::overlapping(sealed, spec.start, spec.end);
    seqs::lemma_filter_same(
        sealed,
        meets,
        |v: SegmentView| v.meta.last_ts >= spec.start && v.meta.first_ts <= spec.end,
    );
    assert(met == sealed.filter(meets));
    seqs::lemma_filter_shorter(sealed, meets);
    assert forall|i: int| 0 <= i < met.len() implies can_cross(
        spec,
        (#[trigger] met[i]).bytes,
    ) by {
        seqs::lemma_filter_member(sealed, meets, i);
        let j = choose|j: int| 0 <= j < sealed.len() && sealed[j] == met[i];
        assert(can_cross(spec, sealed[j].bytes));
    }
    lemma_segments_go(to, id, stream, met, spec);
    let run = copy::segments_copied(to, id, stream, met, spec);
    let k = choose|k: int| 0 <= k < to.sources.len() && #[trigger] to.sources[k].id == id;
    assert(run.to.sources[k].id == id);
    let tail = from.live_of(source, stream);
    if tail_meets(tail, spec.start, spec.end) {
        if let Ok(Some(s)) = segment::materialized(encoder, stream, tail) {
            let meta = SegmentMeta { rows: s.rows, first_ts: s.first_ts, last_ts: s.last_ts };
            lemma_segment_goes(run, id, stream, meta, s.bytes, s.index, spec);
        }
    }
}

proof fn lemma_streams_go<C: ColumnFilter, E: SegmentEncoder>(
    to: DbView,
    id: i64,
    from: DbView,
    source: i64,
    streams: Seq<Seq<char>>,
    spec: CopySpec<C>,
    encoder: E,
)
    requires
        to.wf(),
        to.has_source(id),
        names::ascending_names(streams),
        forall|st: Seq<char>| (#[trigger] to.segments_of(id, st)).len() == 0,
        forall|st: Seq<char>| (#[trigger] from.segments_of(source, st)).len() < u64::MAX,
        forall|k: int|
            0 <= k < streams.len() && spec.keeps(#[trigger] streams[k]) ==> stream_can_cross(
                from,
                source,
                streams[k],
                spec,
                encoder,
            ),
    ensures
        copy::streams_copied(to, id, from, source, streams, spec, encoder).1 is None,
    decreases streams.len(),
{
    if streams.len() > 0 {
        let head = streams.drop_last();
        let last = streams.last();
        assert forall|i: int, j: int| 0 <= i < j < head.len() implies text::text_less(
            #[trigger] head[i],
            #[trigger] head[j],
        ) by {
            assert(text::text_less(streams[i], streams[j]));
        }
        assert forall|k: int| 0 <= k < head.len() && spec.keeps(#[trigger] head[k]) implies
            stream_can_cross(from, source, head[k], spec, encoder) by {
            assert(head[k] == streams[k]);
        }
        lemma_streams_go(to, id, from, source, head, spec, encoder);
        lemma_streams_taken(to, id, from, source, head, spec, encoder);
        let was = copy::streams_copied(to, id, from, source, head, spec, encoder).0;
        assert(!head.contains(last)) by {
            if head.contains(last) {
                let k = choose|k: int| 0 <= k < head.len() && head[k] == last;
                assert(text::text_less(streams[k], streams[streams.len() - 1]));
                text::lemma_text_order(last, last);
            }
        }
        assert(was.segments_of(id, last) == to.segments_of(id, last));
        let k = choose|k: int| 0 <= k < to.sources.len() && #[trigger] to.sources[k].id == id;
        assert(was.sources[k].id == id);
        if spec.keeps(last) {
            assert(spec.keeps(streams[streams.len() - 1]));
            law_a_stream_copy_goes_through(was, id, from, source, last, spec, encoder);
        }
    }
}

/// A source is copied wherever the encoder is not refused, an id is left for it, and each
/// of its streams that are kept can be taken across: nothing else of it stops the copy.
pub proof fn law_a_source_copy_goes_through<C: ColumnFilter, E: SegmentEncoder>(
    to: DbView,
    from: DbView,
    s: SourceView,
    spec: CopySpec<C>,
    encoder: E,
)
    requires
        to.wf(),
        from.wf(),
        model::next_id(to.sources) <= i64::MAX,
        unused(to, model::next_id(to.sources) as i64),
        forall|st: Seq<char>| (#[trigger] from.segments_of(s.id, st)).len() < u64::MAX,
        segment::encoder_refusal(s.id, s.meta.metadata, encoder.reported()) is None,
        forall|st: Seq<char>|
            spec.keeps(st) ==> #[trigger] stream_can_cross(from, s.id, st, spec, encoder),
    ensures
        copy::source_copied(to, from, s, spec, encoder).1 is None,
{
    let id = model::next_id(to.sources) as i64;
    let d = laws::started(to, s, spec);
    laws::lemma_started(to, s, spec);
    lemma_started_alone(to, s, spec);
    let streams = from.streams_of(s.id);
    db::laws::law_a_stream_is_its_rows(from, s.id, Seq::empty());
    assert forall|st: Seq<char>| (#[trigger] d.segments_of(id, st)).len() == 0 by {
        assert(d.segments_of(id, st) == to.segments_of(id, st));
    }
    lemma_streams_go(d, id, from, s.id, streams, spec, encoder);
    lemma_streams_taken(d, id, from, s.id, streams, spec, encoder);
    let a = copy::streams_copied(d, id, from, s.id, streams, spec, encoder).0;
    let i = choose|i: int| 0 <= i < d.sources.len() && #[trigger] d.sources[i].id == id;
    assert(a.sources[i].id == id);
    assert(a.clock_of(id) == to.clock_of(id));
    lemma_clock_ascends(from, s.id);
    lemma_offsets_taken(a, id, from.clock_of(s.id));
    let b = copy::offsets_copied(a, id, from.clock_of(s.id)).0;
    assert(b.sources[i].id == id);
    assert forall|st: Seq<char>| (#[trigger] b.callers_of(id, st)).len() == 0 by {
        assert(b.callers_of(id, st) == to.callers_of(id, st));
    }
    lemma_caller_streams(from, s.id, Seq::empty());
    lemma_series_taken(b, id, from, s.id, from.caller_streams(s.id), spec);
}

// ------------------------------------------------------------ every source

/// Copying an archive copies every source of it, each whole and under an id of its own,
/// in order, and changes nothing of the sources that were there.
pub proof fn law_every_source_is_copied<C: ColumnFilter, E: SegmentEncoder>(
    to: DbView,
    from: DbView,
    sources: Seq<SourceView>,
    spec: CopySpec<C>,
    encoder: E,
)
    requires
        to.wf(),
        from.wf(),
        forall|id: i64| id >= model::next_id(to.sources) ==> #[trigger] unused(to, id),
        forall|s: i64, st: Seq<char>| (#[trigger] from.segments_of(s, st)).len() < u64::MAX,
        copy::sources_copied(to, from, sources, spec, encoder).1 is None,
    ensures
        ({
            let n = copy::sources_copied(to, from, sources, spec, encoder).0;
            let first = model::next_id(to.sources);
            &&& n.wf()
            &&& n.sources.len() == to.sources.len() + sources.len()
            &&& model::next_id(n.sources) == first + sources.len()
            &&& sources.len() > 0 ==> first + sources.len() - 1 <= i64::MAX
            &&& forall|k: int|
                0 <= k < sources.len() ==> holds_copy(
                    n,
                    (first + k) as i64,
                    from,
                    #[trigger] sources[k],
                    spec,
                    encoder,
                )
            &&& forall|id: i64| id >= first + sources.len() ==> #[trigger] unused(n, id)
            &&& forall|id: i64, st: Seq<char>|
                id < first ==> #[trigger] n.segments_of(id, st) == to.segments_of(id, st)
            &&& forall|id: i64| id < first ==> #[trigger] n.source(id) == to.source(id)
        }),
    decreases sources.len(),
{
    if sources.len() > 0 {
        let head = sources.drop_last();
        law_every_source_is_copied(to, from, head, spec, encoder);
        let was = copy::sources_copied(to, from, head, spec, encoder).0;
        let n = copy::sources_copied(to, from, sources, spec, encoder).0;
        let first = model::next_id(to.sources);
        let s = sources[sources.len() - 1];
        let id = model::next_id(was.sources) as i64;
        assert(model::next_id(was.sources) <= i64::MAX);
        assert(unused(was, id)) by {
            assert(id >= first + head.len());
        }
        law_a_copied_source_is_whole(was, from, s, spec, encoder);
        assert forall|k: int| 0 <= k < sources.len() implies holds_copy(
            n,
            (first + k) as i64,
            from,
            #[trigger] sources[k],
            spec,
            encoder,
        ) by {
            if k < head.len() {
                let o = (first + k) as i64;
                assert(head[k] == sources[k]);
                assert(holds_copy(was, o, from, head[k], spec, encoder));
                lemma_copy_stays(was, n, id, o, from, head[k], spec, encoder);
            }
        }
        assert forall|o: i64| o >= first + sources.len() implies #[trigger] unused(n, o) by {
            assert(unused(was, o));
            assert(n.clock_of(o) == was.clock_of(o));
            assert forall|st: Seq<char>| (#[trigger] n.segments_of(o, st)).len() == 0 by {
                assert(n.segments_of(o, st) == was.segments_of(o, st));
            }
            assert forall|st: Seq<char>| (#[trigger] n.wal_of(o, st)).len() == 0 by {
                assert(n.wal_of(o, st) == was.wal_of(o, st));
            }
            assert forall|st: Seq<char>| (#[trigger] n.callers_of(o, st)).len() == 0 by {
                assert(n.callers_of(o, st) == was.callers_of(o, st));
            }
        }
        assert forall|o: i64, st: Seq<char>| o < first implies #[trigger] n.segments_of(o, st)
            == to.segments_of(o, st) by {
            assert(was.segments_of(o, st) == to.segments_of(o, st));
        }
        assert forall|o: i64| o < first implies #[trigger] n.source(o) == to.source(o) by {
            assert(was.source(o) == to.source(o));
        }
    }
}

/// Copying an archive comes to its end, however many sources there are, wherever ids are
/// left for them, the encoder is refused by none, and each of their streams that are kept
/// can be taken across.
pub proof fn law_an_archive_copy_goes_through<C: ColumnFilter, E: SegmentEncoder>(
    to: DbView,
    from: DbView,
    sources: Seq<SourceView>,
    spec: CopySpec<C>,
    encoder: E,
)
    requires
        to.wf(),
        from.wf(),
        forall|id: i64| id >= model::next_id(to.sources) ==> #[trigger] unused(to, id),
        forall|s: i64, st: Seq<char>| (#[trigger] from.segments_of(s, st)).len() < u64::MAX,
        model::next_id(to.sources) + sources.len() <= i64::MAX,
        forall|k: int|
            0 <= k < sources.len() ==> segment::encoder_refusal(
                (#[trigger] sources[k]).id,
                sources[k].meta.metadata,
                encoder.reported(),
            ) is None,
        forall|s: i64, st: Seq<char>|
            spec.keeps(st) ==> #[trigger] stream_can_cross(from, s, st, spec, encoder),
    ensures
        copy::sources_copied(to, from, sources, spec, encoder).1 is None,
    decreases sources.len(),
{
    if sources.len() > 0 {
        let head = sources.drop_last();
        assert forall|k: int| 0 <= k < head.len() implies segment::encoder_refusal(
            (#[trigger] head[k]).id,
            head[k].meta.metadata,
            encoder.reported(),
        ) is None by {
            assert(head[k] == sources[k]);
        }
        law_an_archive_copy_goes_through(to, from, head, spec, encoder);
        law_every_source_is_copied(to, from, head, spec, encoder);
        let was = copy::sources_copied(to, from, head, spec, encoder).0;
        let s = sources[sources.len() - 1];
        let id = model::next_id(was.sources) as i64;
        assert(unused(was, id));
        law_a_source_copy_goes_through(was, from, s, spec, encoder);
    }
}

proof fn lemma_copy_stays<C: ColumnFilter, E: SegmentEncoder>(
    was: DbView,
    n: DbView,
    id: i64,
    o: i64,
    from: DbView,
    s: SourceView,
    spec: CopySpec<C>,
    encoder: E,
)
    requires
        o != id,
        same_elsewhere(was, n, id),
        holds_copy(was, o, from, s, spec, encoder),
    ensures
        holds_copy(n, o, from, s, spec, encoder),
{
    assert(n.source(o) == was.source(o));
    assert forall|st: Seq<char>| from.streams_of(s.id).contains(st) && spec.keeps(st) implies copy_of(
        #[trigger] n.segments_of(o, st),
        from,
        s.id,
        st,
        spec,
        encoder,
    ) by {
        assert(n.segments_of(o, st) == was.segments_of(o, st));
    }
    assert forall|st: Seq<char>|
        !(from.streams_of(s.id).contains(st) && spec.keeps(st)) implies (
    #[trigger] n.segments_of(o, st)).len() == 0 by {
        assert(n.segments_of(o, st) == was.segments_of(o, st));
    }
    assert forall|st: Seq<char>| #[trigger] n.callers_of(o, st) == (if spec.keeps(st) {
        from.callers_of(s.id, st)
    } else {
        Seq::empty()
    }) by {
        assert(n.callers_of(o, st) == was.callers_of(o, st));
    }
}

} // verus!
