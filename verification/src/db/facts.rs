//! What an archive's questions and changes come to, row by row.

use vstd::prelude::*;

use super::columns;
use super::file;
use super::laws;
use super::model;
use super::model::DbView;
use super::records::{CallerAt, CallerAtView, ClockAt, SegmentAt, SegmentAtView, WalAt, WalAtView};
use super::store;
use super::table;
use super::table::Keyed;
use super::{CallerView, SegmentView, SourceRow, SourceView, WalView};
use crate::error::ErrorView;
use crate::names;
use crate::seqs;
use crate::text_map;
use crate::text_map::Entry;

verus! {

// ------------------------------------------------------------ what is live

/// A stream's tail is its rows that are newer than every segment of the stream ends, in
/// order: every one of them and no other.
pub proof fn law_a_row_is_live_past_every_segment(d: DbView, source: i64, stream: Seq<char>)
    ensures
        d.live_of(source, stream) == d.wal_of(source, stream).filter(
            |r: WalView|
                forall|k: int|
                    0 <= k < d.segments_of(source, stream).len() ==> (#[trigger] d.segments_of(
                        source,
                        stream,
                    )[k]).meta.last_ts < r.ts,
        ),
{
    let segments = d.segments_of(source, stream);
    let rows = d.wal_of(source, stream);
    let w = d.watermark(source, stream);
    let past = |r: WalView| model::past(w, r.ts);
    let newer = |r: WalView|
        forall|k: int|
            0 <= k < d.segments_of(source, stream).len() ==> (#[trigger] d.segments_of(
                source,
                stream,
            )[k]).meta.last_ts < r.ts;
    laws::lemma_watermark(segments);
    assert forall|i: int| 0 <= i < rows.len() implies past(#[trigger] rows[i]) == newer(rows[i]) by {
        let r = rows[i];
        if newer(r) && w is Some {
            let k = choose|k: int|
                0 <= k < segments.len() && #[trigger] segments[k].meta.last_ts == w->0;
            assert(segments[k].meta.last_ts < r.ts);
        }
        if past(r) {
            assert forall|k: int| 0 <= k < segments.len() implies (
            #[trigger] segments[k]).meta.last_ts < r.ts by {
                assert(segments[k].meta.last_ts <= w->0);
            }
        }
    }
    seqs::lemma_filter_same(rows, past, newer);
}

/// A stream's watermark is where the last of its segments ends, and there is none where
/// it has no segment.
pub proof fn law_the_watermark_is_the_newest_sealed(d: DbView, source: i64, stream: Seq<char>)
    ensures
        ({
            let segments = d.segments_of(source, stream);
            &&& d.watermark(source, stream) is None <==> segments.len() == 0
            &&& d.watermark(source, stream) matches Some(w) ==> {
                &&& forall|k: int| 0 <= k < segments.len() ==> (#[trigger] segments[k]).meta.last_ts <= w
                &&& exists|k: int|
                    0 <= k < segments.len() && (#[trigger] segments[k]).meta.last_ts == w
            }
        }),
{
    let segments = d.segments_of(source, stream);
    laws::lemma_watermark(segments);
    if segments.len() > 0 {
        let w = d.watermark(source, stream)->0;
        let k = choose|k: int| 0 <= k < segments.len() && #[trigger] segments[k].meta.last_ts == w;
        assert(segments[k].meta.last_ts == w);
        assert forall|k: int| 0 <= k < segments.len() implies (
        #[trigger] segments[k]).meta.last_ts <= w by {
            assert(segments[k].meta.last_ts <= w);
        }
    }
}

proof fn lemma_ends(s: Seq<SegmentView>)
    ensures
        model::newest_sealed(s) is None <==> s.len() == 0,
        model::oldest_sealed(s) is None <==> s.len() == 0,
        forall|i: int|
            0 <= i < s.len() ==> model::oldest_sealed(s)->0 <= (#[trigger] s[i]).meta.first_ts
                && s[i].meta.last_ts <= model::newest_sealed(s)->0,
        s.len() > 0 ==> exists|i: int|
            0 <= i < s.len() && (#[trigger] s[i]).meta.first_ts == model::oldest_sealed(s)->0,
        s.len() > 0 ==> exists|i: int|
            0 <= i < s.len() && (#[trigger] s[i]).meta.last_ts == model::newest_sealed(s)->0,
    decreases s.len(),
{
    if s.len() > 0 {
        let d = s.drop_last();
        lemma_ends(d);
        let a = model::oldest_sealed(s)->0;
        let b = model::newest_sealed(s)->0;
        assert(s[s.len() - 1] == s.last());
        if d.len() > 0 {
            let i = choose|i: int|
                0 <= i < d.len() && (#[trigger] d[i]).meta.first_ts == model::oldest_sealed(d)->0;
            let j = choose|j: int|
                0 <= j < d.len() && (#[trigger] d[j]).meta.last_ts == model::newest_sealed(d)->0;
            assert(s[i] == d[i] && s[j] == d[j]);
        }
        assert forall|i: int| 0 <= i < s.len() implies a <= (#[trigger] s[i]).meta.first_ts
            && s[i].meta.last_ts <= b by {
            if i < d.len() {
                assert(d[i] == s[i]);
            }
        }
    }
}

proof fn lemma_row_ends(s: Seq<WalView>)
    ensures
        model::newest_row(s) is None <==> s.len() == 0,
        model::oldest_row(s) is None <==> s.len() == 0,
        forall|i: int|
            0 <= i < s.len() ==> model::oldest_row(s)->0 <= (#[trigger] s[i]).ts && s[i].ts
                <= model::newest_row(s)->0,
        s.len() > 0 ==> exists|i: int|
            0 <= i < s.len() && (#[trigger] s[i]).ts == model::oldest_row(s)->0,
        s.len() > 0 ==> exists|i: int|
            0 <= i < s.len() && (#[trigger] s[i]).ts == model::newest_row(s)->0,
    decreases s.len(),
{
    if s.len() > 0 {
        let d = s.drop_last();
        lemma_row_ends(d);
        let a = model::oldest_row(s)->0;
        let b = model::newest_row(s)->0;
        assert(s[s.len() - 1] == s.last());
        if d.len() > 0 {
            let i = choose|i: int|
                0 <= i < d.len() && (#[trigger] d[i]).ts == model::oldest_row(d)->0;
            let j = choose|j: int|
                0 <= j < d.len() && (#[trigger] d[j]).ts == model::newest_row(d)->0;
            assert(s[i] == d[i] && s[j] == d[j]);
        }
        assert forall|i: int| 0 <= i < s.len() implies a <= (#[trigger] s[i]).ts && s[i].ts
            <= b by {
            if i < d.len() {
                assert(d[i] == s[i]);
            }
        }
    }
}

/// A source's time span runs from its oldest row to its newest, sealed or not: nothing of
/// it lies outside, and something of it lies at either end. A source without rows has
/// none.
pub proof fn law_a_time_span_runs_from_oldest_to_newest(d: DbView, source: i64)
    ensures
        ({
            let (first, last) = d.time_span(source);
            let segments = d.source_segments(source);
            let rows = d.source_wal(source);
            &&& first is None <==> segments.len() == 0 && rows.len() == 0
            &&& last is None <==> segments.len() == 0 && rows.len() == 0
            &&& forall|i: int|
                0 <= i < segments.len() ==> first->0 <= (#[trigger] segments[i]).meta.first_ts
                    && segments[i].meta.last_ts <= last->0
            &&& forall|i: int|
                0 <= i < rows.len() ==> first->0 <= (#[trigger] rows[i]).ts && rows[i].ts
                    <= last->0
            &&& first is Some ==> (exists|i: int|
                0 <= i < segments.len() && (#[trigger] segments[i]).meta.first_ts == first->0)
                || (exists|i: int| 0 <= i < rows.len() && (#[trigger] rows[i]).ts == first->0)
            &&& last is Some ==> (exists|i: int|
                0 <= i < segments.len() && (#[trigger] segments[i]).meta.last_ts == last->0) || (
            exists|i: int| 0 <= i < rows.len() && (#[trigger] rows[i]).ts == last->0)
        }),
{
    lemma_ends(d.source_segments(source));
    lemma_row_ends(d.source_wal(source));
}

/// The span counts every stream's rows and segments of the source.
pub proof fn law_a_time_span_covers_every_stream(d: DbView, source: i64, stream: Seq<char>)
    ensures
        forall|i: int|
            0 <= i < d.wal_of(source, stream).len() ==> d.time_span(source).0->0 <= (
            #[trigger] d.wal_of(source, stream)[i]).ts && d.wal_of(source, stream)[i].ts
                <= d.time_span(source).1->0,
        forall|i: int|
            0 <= i < d.segments_of(source, stream).len() ==> d.time_span(source).0->0 <= (
            #[trigger] d.segments_of(source, stream)[i]).meta.first_ts && d.segments_of(
                source,
                stream,
            )[i].meta.last_ts <= d.time_span(source).1->0,
{
    law_a_time_span_runs_from_oldest_to_newest(d, source);
    let here = |v: WalAtView| table::within::<WalAt>(v, source as int, Some(stream));
    let all = |v: WalAtView| table::within::<WalAt>(v, source as int, None);
    assert forall|i: int| 0 <= i < d.wal_of(source, stream).len() implies d.time_span(
        source,
    ).0->0 <= (#[trigger] d.wal_of(source, stream)[i]).ts && d.wal_of(source, stream)[i].ts
        <= d.time_span(source).1->0 by {
        seqs::lemma_filter_member(d.wal, here, i);
        let k = choose|k: int| 0 <= k < d.wal.len() && d.wal[k] == d.wal.filter(here)[i];
        seqs::lemma_filter_keeps(d.wal, all, k);
        let t = d.wal.filter(all);
        let m = choose|m: int| 0 <= m < t.len() && t[m] == d.wal[k];
        assert(d.source_wal(source)[m] == t[m].row);
    }
    let seg_here = |v: SegmentAtView| table::within::<SegmentAt>(v, source as int, Some(stream));
    let seg_all = |v: SegmentAtView| table::within::<SegmentAt>(v, source as int, None);
    assert forall|i: int| 0 <= i < d.segments_of(source, stream).len() implies d.time_span(
        source,
    ).0->0 <= (#[trigger] d.segments_of(source, stream)[i]).meta.first_ts && d.segments_of(
        source,
        stream,
    )[i].meta.last_ts <= d.time_span(source).1->0 by {
        seqs::lemma_filter_member(d.segments, seg_here, i);
        let k = choose|k: int|
            0 <= k < d.segments.len() && d.segments[k] == d.segments.filter(seg_here)[i];
        seqs::lemma_filter_keeps(d.segments, seg_all, k);
        let t = d.segments.filter(seg_all);
        let m = choose|m: int| 0 <= m < t.len() && t[m] == d.segments[k];
        assert(d.source_segments(source)[m] == t[m].row);
    }
}

// ------------------------------------------------------------ retention

proof fn lemma_filter_parts<A>(
    s: Seq<A>,
    keep: spec_fn(A) -> bool,
    lose: spec_fn(A) -> bool,
)
    requires
        forall|i: int| 0 <= i < s.len() ==> keep(#[trigger] s[i]) == !lose(s[i]),
    ensures
        s.filter(keep).len() + s.filter(lose).len() == s.len(),
    decreases s.len(),
{
    reveal(Seq::filter);
    if s.len() > 0 {
        let d = s.drop_last();
        assert forall|i: int| 0 <= i < d.len() implies keep(#[trigger] d[i]) == !lose(d[i]) by {
            assert(d[i] == s[i]);
        }
        lemma_filter_parts(d, keep, lose);
        assert(keep(s[s.len() - 1]) == !lose(s[s.len() - 1]));
    }
}

/// Retention takes, of the source, exactly the segments that end before the cutoff and
/// the rows before it, and what is left of a table is the rest of it. So many of either
/// are gone as it says.
pub proof fn law_retention_takes_what_is_before_the_cutoff(d: DbView, source: i64, cutoff: i64)
    ensures
        d.evicted(source, cutoff).segments == d.segments.filter(
            |v: SegmentAtView| !(v.source_id == source && v.row.meta.last_ts < cutoff),
        ),
        d.evicted(source, cutoff).wal == d.wal.filter(
            |v: WalAtView| !(v.source_id == source && v.row.ts < cutoff),
        ),
        d.evicted(source, cutoff).caller_rows == d.caller_rows.filter(
            |v: CallerAtView| !(v.source_id == source && v.row.ts < cutoff),
        ),
        d.evicted(source, cutoff).clock_offsets == d.clock_offsets.filter(
            |v: ClockAt| !(v.source_id == source && v.ts < cutoff),
        ),
        d.evicted(source, cutoff).sources == d.sources,
        d.segments.len() - d.evicted(source, cutoff).segments.len() == d.segments.filter(
            |v: SegmentAtView| v.source_id == source && v.row.meta.last_ts < cutoff,
        ).len(),
        d.wal.len() - d.evicted(source, cutoff).wal.len() == d.wal.filter(
            |v: WalAtView| v.source_id == source && v.row.ts < cutoff,
        ).len(),
{
    let n = d.evicted(source, cutoff);
    let a = |v: SegmentAtView| !(v.source_id == source && v.row.meta.last_ts < cutoff);
    let b = |v: WalAtView| !(v.source_id == source && v.row.ts < cutoff);
    seqs::lemma_filter_same(
        d.segments,
        |v: SegmentAtView| !table::old_row::<SegmentAt>(v, source as int, None, cutoff as int),
        a,
    );
    seqs::lemma_filter_same(
        d.wal,
        |v: WalAtView| !table::old_row::<WalAt>(v, source as int, None, cutoff as int),
        b,
    );
    seqs::lemma_filter_same(
        d.caller_rows,
        |v: CallerAtView| !table::old_row::<CallerAt>(v, source as int, None, cutoff as int),
        |v: CallerAtView| !(v.source_id == source && v.row.ts < cutoff),
    );
    seqs::lemma_filter_same(
        d.clock_offsets,
        |v: ClockAt| !table::old_row::<ClockAt>(v, source as int, None, cutoff as int),
        |v: ClockAt| !(v.source_id == source && v.ts < cutoff),
    );
    lemma_filter_parts(
        d.segments,
        a,
        |v: SegmentAtView| v.source_id == source && v.row.meta.last_ts < cutoff,
    );
    lemma_filter_parts(d.wal, b, |v: WalAtView| v.source_id == source && v.row.ts < cutoff);
}

/// The rows that retention says it took before any segment held them are those before the
/// cutoff, of the source and of a stream it was given, that are newer than every segment
/// of their own stream ends.
pub proof fn law_retention_counts_what_no_segment_held(
    d: DbView,
    source: i64,
    streams: Option<Seq<Seq<char>>>,
    cutoff: i64,
)
    ensures
        d.live_before(source, streams, cutoff) == d.wal.filter(
            |v: WalAtView|
                {
                    &&& v.source_id == source
                    &&& v.row.ts < cutoff
                    &&& streams is Some ==> streams->0.contains(v.row.stream)
                    &&& forall|k: int|
                        0 <= k < d.segments_of(source, v.row.stream).len() ==> (
                        #[trigger] d.segments_of(source, v.row.stream)[k]).meta.last_ts < v.row.ts
                },
        ),
{
    let has = |r: WalAtView|
        {
            &&& r.source_id == source
            &&& streams matches Some(s) ==> s.contains(r.row.stream)
            &&& r.row.ts < cutoff
            &&& model::past(d.watermark(source, r.row.stream), r.row.ts)
        };
    let meant = |v: WalAtView|
        {
            &&& v.source_id == source
            &&& v.row.ts < cutoff
            &&& streams is Some ==> streams->0.contains(v.row.stream)
            &&& forall|k: int|
                0 <= k < d.segments_of(source, v.row.stream).len() ==> (#[trigger] d.segments_of(
                    source,
                    v.row.stream,
                )[k]).meta.last_ts < v.row.ts
        };
    assert forall|i: int| 0 <= i < d.wal.len() implies has(#[trigger] d.wal[i]) == meant(
        d.wal[i],
    ) by {
        let v = d.wal[i];
        let segments = d.segments_of(source, v.row.stream);
        let w = d.watermark(source, v.row.stream);
        laws::lemma_watermark(segments);
        if w is Some {
            let k = choose|k: int|
                0 <= k < segments.len() && #[trigger] segments[k].meta.last_ts == w->0;
            assert(segments[k].meta.last_ts == w->0);
            assert forall|k: int| 0 <= k < segments.len() && v.row.ts > w->0 implies (
            #[trigger] segments[k]).meta.last_ts < v.row.ts by {
                assert(segments[k].meta.last_ts <= w->0);
            }
        }
    }
    seqs::lemma_filter_same(d.wal, has, meant);
}

/// Of the streams a predicate was asked of, those are chosen that it accepted: each of
/// them, in order, and no other.
pub proof fn law_the_streams_accepted_are_chosen(all: Seq<Seq<char>>, marks: Seq<bool>)
    requires
        marks.len() == all.len(),
    ensures
        forall|i: int|
            0 <= i < all.len() && #[trigger] marks[i] ==> store::changes::picked(
                all,
                marks,
            ).contains(all[i]),
        forall|n: Seq<char>| #[trigger]
            store::changes::picked(all, marks).contains(n) ==> exists|i: int|
                0 <= i < all.len() && all[i] == n && #[trigger] marks[i],
    decreases all.len(),
{
    let p = store::changes::picked(all, marks);
    if all.len() > 0 {
        let last = all.len() - 1;
        law_the_streams_accepted_are_chosen(all.drop_last(), marks.drop_last());
        let q = store::changes::picked(all.drop_last(), marks.drop_last());
        assert forall|i: int| 0 <= i < all.len() && #[trigger] marks[i] implies p.contains(
            all[i],
        ) by {
            if i < last {
                assert(marks.drop_last()[i]);
                assert(q.contains(all.drop_last()[i]));
                let k = choose|k: int| 0 <= k < q.len() && q[k] == all[i];
                assert(p[k] == all[i]);
            } else {
                assert(p[q.len() as int] == all[i]);
            }
        }
        assert forall|n: Seq<char>| #[trigger] p.contains(n) implies exists|i: int|
            0 <= i < all.len() && all[i] == n && #[trigger] marks[i] by {
            let k = choose|k: int| 0 <= k < p.len() && p[k] == n;
            if k < q.len() {
                assert(q[k] == n);
                assert(q.contains(n));
                let i = choose|i: int|
                    0 <= i < last && all.drop_last()[i] == n && #[trigger] marks.drop_last()[i];
                assert(all[i] == n && marks[i]);
            } else {
                assert(all[last] == n && marks[last]);
            }
        }
    }
}

/// Retention of certain streams takes of each of them what ends before the cutoff, and
/// keeps the rest in order.
pub proof fn law_retention_of_a_chosen_stream(
    d: DbView,
    source: i64,
    streams: Seq<Seq<char>>,
    cutoff: i64,
    stream: Seq<char>,
)
    requires
        streams.contains(stream),
    ensures
        d.chosen_evicted(source, streams, cutoff).segments_of(source, stream) == d.segments_of(
            source,
            stream,
        ).filter(|v: SegmentView| v.meta.last_ts >= cutoff),
        d.chosen_evicted(source, streams, cutoff).wal_of(source, stream) == d.wal_of(
            source,
            stream,
        ).filter(|r: WalView| r.ts >= cutoff),
    decreases streams.len(),
{
    let head = streams.drop_last();
    let last = streams.last();
    let young = |v: SegmentView| v.meta.last_ts >= cutoff;
    let new = |r: WalView| r.ts >= cutoff;
    let was = d.streams_evicted(source, head, cutoff);
    let n = d.chosen_evicted(source, streams, cutoff);
    assert(n.segments_of(source, stream) == d.streams_evicted(
        source,
        streams,
        cutoff,
    ).segments_of(source, stream));
    assert(n.wal_of(source, stream) == d.streams_evicted(source, streams, cutoff).wal_of(
        source,
        stream,
    ));
    assert(d.chosen_evicted(source, head, cutoff).segments_of(source, stream) == was.segments_of(
        source,
        stream,
    ));
    assert(d.chosen_evicted(source, head, cutoff).wal_of(source, stream) == was.wal_of(
        source,
        stream,
    ));
    if head.contains(stream) {
        law_retention_of_a_chosen_stream(d, source, head, cutoff, stream);
    } else {
        laws::law_eviction_leaves_the_streams_it_was_not_given(
            d,
            source,
            head,
            cutoff,
            source,
            stream,
        );
        let k = choose|k: int| 0 <= k < streams.len() && streams[k] == stream;
        if k < head.len() {
            assert(head[k] == stream);
        }
        assert(last == stream);
    }
    if last == stream {
        laws::law_stream_eviction_resurrects_nothing(was, source, stream, cutoff);
        laws::law_eviction_keeps_the_window(was, source, cutoff, stream);
        if head.contains(stream) {
            let a = was.segments_of(source, stream);
            let b = was.wal_of(source, stream);
            assert forall|i: int| 0 <= i < a.len() implies young(#[trigger] a[i]) by {
                seqs::lemma_filter_member(d.segments_of(source, stream), young, i);
            }
            assert forall|i: int| 0 <= i < b.len() implies new(#[trigger] b[i]) by {
                seqs::lemma_filter_member(d.wal_of(source, stream), new, i);
            }
            seqs::lemma_filter_all(a, young);
            seqs::lemma_filter_all(b, new);
        }
    } else {
        laws::law_stream_eviction_leaves_other_streams(was, source, last, cutoff, source, stream);
    }
}

// ------------------------------------------------------------ numbers

/// A stream's next segment number is past every number it has: the one after its
/// greatest, zero for its first, and none where the greatest is the last there is.
pub proof fn law_the_next_number_is_past_every_other(d: DbView, source: i64, stream: Seq<char>)
    requires
        d.wf(),
    ensures
        ({
            let segments = d.segments_of(source, stream);
            match store::next_seq_of(segments) {
                Some(n) => {
                    &&& forall|k: int| 0 <= k < segments.len() ==> (#[trigger] segments[k]).seq < n
                    &&& n == 0 <==> segments.len() == 0
                    &&& n > 0 ==> exists|k: int|
                        0 <= k < segments.len() && (#[trigger] segments[k]).seq + 1 == n
                },
                None => exists|k: int|
                    0 <= k < segments.len() && (#[trigger] segments[k]).seq == u64::MAX,
            }
        }),
{
    let segments = d.segments_of(source, stream);
    laws::law_segments_are_in_order(d, source, stream);
    if segments.len() > 0 {
        let last = segments.len() - 1;
        assert(segments[last] == segments.last());
        assert forall|k: int| 0 <= k < segments.len() implies (#[trigger] segments[k]).seq
            <= segments[last].seq by {
            if k < last {
                assert(segments[k].seq < segments[last].seq);
            }
        }
        assert(segments[last].seq < u64::MAX ==> segments[last].seq + 1
            == store::next_seq_of(segments)->0);
    }
}

/// A segment is found by its number, and by no other.
pub proof fn law_a_segment_is_found_by_its_number(s: Seq<SegmentView>, seq: u64)
    requires
        forall|i: int, j: int|
            0 <= i < j < s.len() ==> (#[trigger] s[i]).seq != (#[trigger] s[j]).seq,
    ensures
        forall|k: int|
            0 <= k < s.len() && (#[trigger] s[k]).seq == seq ==> store::bytes_at(s, seq) == Some(
                s[k].bytes,
            ),
        (forall|k: int| 0 <= k < s.len() ==> (#[trigger] s[k]).seq != seq) ==> store::bytes_at(
            s,
            seq,
        ) is None,
    decreases s.len(),
{
    if s.len() > 0 {
        let t = s.skip(1);
        assert forall|i: int, j: int| 0 <= i < j < t.len() implies (#[trigger] t[i]).seq != (
        #[trigger] t[j]).seq by {
            assert(s[i + 1].seq != s[j + 1].seq);
        }
        law_a_segment_is_found_by_its_number(t, seq);
        assert forall|k: int| 0 <= k < s.len() && (#[trigger] s[k]).seq == seq implies store::bytes_at(
            s,
            seq,
        ) == Some(s[k].bytes) by {
            if k > 0 {
                assert(t[k - 1] == s[k]);
                assert(s[0].seq != s[k].seq);
            }
        }
        if forall|k: int| 0 <= k < s.len() ==> (#[trigger] s[k]).seq != seq {
            assert forall|k: int| 0 <= k < t.len() implies (#[trigger] t[k]).seq != seq by {
                assert(t[k] == s[k + 1]);
            }
        }
    }
}

// ------------------------------------------------------------ what is inserted

proof fn lemma_wal_held(d: DbView, source: i64, row: WalView)
    ensures
        table::holds::<WalAt>(
            d.wal,
            table::Key { source: source as int, stream: row.stream, at: row.ts as int },
        ) <==> exists|k: int|
            0 <= k < d.wal_of(source, row.stream).len() && (#[trigger] d.wal_of(
                source,
                row.stream,
            )[k]).ts == row.ts,
{
    let key = table::Key { source: source as int, stream: row.stream, at: row.ts as int };
    let here = |v: WalAtView| table::within::<WalAt>(v, source as int, Some(row.stream));
    let t = d.wal.filter(here);
    let rows = d.wal_of(source, row.stream);
    if table::holds::<WalAt>(d.wal, key) {
        let i = choose|i: int| 0 <= i < d.wal.len() && WalAt::key_of(#[trigger] d.wal[i]) == key;
        seqs::lemma_filter_keeps(d.wal, here, i);
        let k = choose|k: int| 0 <= k < t.len() && t[k] == d.wal[i];
        assert(rows[k] == t[k].row);
        assert(rows[k].ts == row.ts);
    }
    if exists|k: int| 0 <= k < rows.len() && (#[trigger] rows[k]).ts == row.ts {
        let k = choose|k: int| 0 <= k < rows.len() && (#[trigger] rows[k]).ts == row.ts;
        assert(rows[k] == t[k].row);
        seqs::lemma_filter_member(d.wal, here, k);
        let i = choose|i: int| 0 <= i < d.wal.len() && d.wal[i] == t[k];
        assert(WalAt::key_of(d.wal[i]) == key);
    }
}

/// A row is taken exactly where its source is there and its stream has no row at its
/// timestamp.
pub proof fn law_a_row_is_taken_where_its_moment_is_free(d: DbView, source: i64, row: WalView)
    ensures
        d.wal_inserted(source, row) is Ok <==> d.has_source(source) && forall|k: int|
            0 <= k < d.wal_of(source, row.stream).len() ==> (#[trigger] d.wal_of(
                source,
                row.stream,
            )[k]).ts != row.ts,
{
    lemma_wal_held(d, source, row);
}

/// A segment is taken exactly where its source is there and its stream has no segment of
/// its number.
pub proof fn law_a_segment_is_taken_where_its_number_is_free(d: DbView, at: SegmentAtView)
    ensures
        d.segment_inserted(at) is Ok <==> d.has_source(at.source_id) && forall|k: int|
            0 <= k < d.segments_of(at.source_id, at.stream).len() ==> (#[trigger] d.segments_of(
                at.source_id,
                at.stream,
            )[k]).seq != at.row.seq,
{
    let key = table::Key {
        source: at.source_id as int,
        stream: at.stream,
        at: at.row.seq as int,
    };
    let here = |v: SegmentAtView|
        table::within::<SegmentAt>(v, at.source_id as int, Some(at.stream));
    let t = d.segments.filter(here);
    let rows = d.segments_of(at.source_id, at.stream);
    if table::holds::<SegmentAt>(d.segments, key) {
        let i = choose|i: int|
            0 <= i < d.segments.len() && SegmentAt::key_of(#[trigger] d.segments[i]) == key;
        seqs::lemma_filter_keeps(d.segments, here, i);
        let k = choose|k: int| 0 <= k < t.len() && t[k] == d.segments[i];
        assert(rows[k] == t[k].row);
        assert(rows[k].seq == at.row.seq);
    } else {
        assert forall|k: int| 0 <= k < rows.len() implies (#[trigger] rows[k]).seq
            != at.row.seq by {
            assert(rows[k] == t[k].row);
            seqs::lemma_filter_member(d.segments, here, k);
            let i = choose|i: int| 0 <= i < d.segments.len() && d.segments[i] == t[k];
            assert(SegmentAt::key_of(d.segments[i]) != key);
        }
    }
}

/// A clock observation is kept where there is none of its source at its moment; the first
/// of a moment stays. It is refused exactly where it would be kept and its source is not
/// there.
pub proof fn law_the_first_observation_of_a_moment_stays(d: DbView, c: ClockAt)
    ensures
        ({
            let seen = exists|k: int|
                0 <= k < d.clock_offsets.len() && (#[trigger] d.clock_offsets[k]).source_id
                    == c.source_id && d.clock_offsets[k].ts == c.ts;
            match d.clock_inserted(c) {
                Ok(n) => n == if seen {
                    d
                } else {
                    DbView {
                        clock_offsets: table::placed::<ClockAt>(d.clock_offsets, c),
                        ..d
                    }
                },
                Err(_) => !seen && !d.has_source(c.source_id),
            }
        }),
{
    let key = table::Key {
        source: c.source_id as int,
        stream: Seq::<char>::empty(),
        at: c.ts as int,
    };
    let clocks = d.clock_offsets;
    if table::holds::<ClockAt>(clocks, key) {
        let i = choose|i: int| 0 <= i < clocks.len() && ClockAt::key_of(#[trigger] clocks[i]) == key;
        assert(clocks[i].source_id == c.source_id && clocks[i].ts == c.ts);
    } else if exists|k: int|
        0 <= k < clocks.len() && (#[trigger] clocks[k]).source_id == c.source_id && clocks[k].ts
            == c.ts {
        let k = choose|k: int|
            0 <= k < clocks.len() && (#[trigger] clocks[k]).source_id == c.source_id
                && clocks[k].ts == c.ts;
        assert(ClockAt::key_of(clocks[k]) == key);
    }
}

// ------------------------------------------------------------ a caller's rows

/// A caller's rows of a range are those at or after its start and at or before its end:
/// every one of them and no other.
pub proof fn law_callers_rows_fall_in_a_range(rows: Seq<CallerView>, start: i64, end: i64)
    ensures
        forall|i: int|
            0 <= i < rows.len() && start <= (#[trigger] rows[i]).ts && rows[i].ts <= end
                ==> store::wal::callers_between(rows, start, end).contains(rows[i]),
        forall|k: int|
            0 <= k < store::wal::callers_between(rows, start, end).len() ==> {
                let c = #[trigger] store::wal::callers_between(rows, start, end)[k];
                start <= c.ts && c.ts <= end && rows.contains(c)
            },
        store::wal::callers_between(rows, i64::MIN, i64::MAX) == rows,
{
    let falls = |c: CallerView| start <= c.ts <= end;
    assert forall|i: int|
        0 <= i < rows.len() && start <= (#[trigger] rows[i]).ts && rows[i].ts
            <= end implies store::wal::callers_between(rows, start, end).contains(rows[i]) by {
        seqs::lemma_filter_keeps(rows, falls, i);
    }
    assert forall|k: int| 0 <= k < store::wal::callers_between(rows, start, end).len() implies ({
        let c = #[trigger] store::wal::callers_between(rows, start, end)[k];
        start <= c.ts && c.ts <= end && rows.contains(c)
    }) by {
        seqs::lemma_filter_member(rows, falls, k);
    }
    seqs::lemma_filter_all(rows, |c: CallerView| i64::MIN <= c.ts <= i64::MAX);
}

/// Whether rows are others with one more at a place: behind those that are not newer,
/// before those that are.
pub open spec fn stands_at(
    now: Seq<CallerView>,
    was: Seq<CallerView>,
    row: CallerView,
    p: int,
) -> bool {
    &&& 0 <= p <= was.len()
    &&& now == was.take(p) + seq![row] + was.skip(p)
    &&& forall|i: int| 0 <= i < p ==> (#[trigger] was[i]).ts <= row.ts
    &&& p < was.len() ==> was[p].ts > row.ts
}

/// A caller's row that is kept stands among those of its stream behind every one that is
/// not newer and before every one that is, and no other stream's rows change.
pub proof fn law_a_callers_row_stands_in_its_place(d: DbView, c: CallerAtView)
    requires
        d.wf(),
        d.has_source(c.source_id),
    ensures
        d.caller_inserted(c) matches Ok(n) && {
            &&& n.wf()
            &&& exists|p: int|
                #[trigger] stands_at(
                    n.callers_of(c.source_id, c.stream),
                    d.callers_of(c.source_id, c.stream),
                    c.row,
                    p,
                )
            &&& forall|s: i64, st: Seq<char>|
                !(s == c.source_id && st == c.stream) ==> #[trigger] n.callers_of(s, st)
                    == d.callers_of(s, st)
        },
{
    let n = d.caller_inserted(c)->Ok_0;
    table::lemma_placed_in_order::<CallerAt>(d.caller_rows, c);
    assert forall|s: i64, st: Seq<char>|
        !(s == c.source_id && st == c.stream) implies #[trigger] n.callers_of(s, st)
        == d.callers_of(s, st) by {
        let here = |v: CallerAtView| table::within::<CallerAt>(v, s as int, Some(st));
        table::lemma_filter_placed::<CallerAt>(d.caller_rows, c, here);
    }
    let here = |v: CallerAtView|
        table::within::<CallerAt>(v, c.source_id as int, Some(c.stream));
    table::lemma_filter_placed::<CallerAt>(d.caller_rows, c, here);
    table::lemma_filter_in_order::<CallerAt>(d.caller_rows, here);
    let t = d.caller_rows.filter(here);
    table::lemma_place::<CallerAt>(t, c);
    let p = table::place_of::<CallerAt>(t, c);
    let was = d.callers_of(c.source_id, c.stream);
    assert forall|i: int| 0 <= i < p implies (#[trigger] was[i]).ts <= c.row.ts by {
        assert(here(t[i]));
        assert(was[i] == t[i].row);
    }
    if p < t.len() {
        assert(here(t[p]));
        assert(was[p] == t[p].row);
    }
    assert(n.callers_of(c.source_id, c.stream) =~= was.take(p) + seq![c.row] + was.skip(p));
    assert(stands_at(n.callers_of(c.source_id, c.stream), was, c.row, p));
}

// ------------------------------------------------------------ sources

proof fn lemma_row_replaced(d: DbView, id: i64, row: SourceView)
    requires
        d.wf(),
        d.has_source(id),
        row.id == id,
    ensures
        ({
            let n = d.with_source_row(row);
            &&& n.source(id) == Some(row)
            &&& n.wf()
            &&& n == (DbView { sources: n.sources, ..d })
            &&& n.sources.len() == d.sources.len()
            &&& forall|o: i64| o != id ==> #[trigger] n.source(o) == d.source(o)
        }),
{
    let n = d.with_source_row(row);
    let p = choose|p: int| 0 <= p < d.sources.len() && #[trigger] d.sources[p].id == id;
    store::changes::lemma_replaced(d, p, row);
    assert forall|i: int, j: int| 0 <= i < j < n.sources.len() implies !table::before(
        SourceRow::key_of(#[trigger] n.sources[j]),
        SourceRow::key_of(#[trigger] n.sources[i]),
    ) && SourceRow::key_of(n.sources[i]) != SourceRow::key_of(n.sources[j]) by {
        assert(SourceRow::key_of(n.sources[i]) == SourceRow::key_of(d.sources[i]));
        assert(SourceRow::key_of(n.sources[j]) == SourceRow::key_of(d.sources[j]));
    }
    assert(n.sources[p] == row);
    laws::lemma_source_is(n, p);
    assert forall|o: i64| o != id implies #[trigger] n.source(o) == d.source(o) by {
        if d.has_source(o) {
            let i = choose|i: int| 0 <= i < d.sources.len() && #[trigger] d.sources[i].id == o;
            assert(n.sources[i] == d.sources[i]);
            laws::lemma_source_is(n, i);
            laws::lemma_source_is(d, i);
        } else if n.has_source(o) {
            let i = choose|i: int| 0 <= i < n.sources.len() && #[trigger] n.sources[i].id == o;
            if i != p {
                assert(d.sources[i].id == o);
            }
        }
    }
}

/// Marking a source finished or not changes that of it and nothing else of the archive.
pub proof fn law_marking_a_source_changes_nothing_else(d: DbView, id: i64, complete: bool)
    requires
        d.wf(),
    ensures
        ({
            let n = d.with_complete(id, complete);
            &&& n.wf()
            &&& n == (DbView { sources: n.sources, ..d })
            &&& d.source(id) is None ==> n == d
            &&& d.source(id) matches Some(s) ==> n.source(id) matches Some(t) && t.complete
                == complete && t.meta == s.meta && t.uuid == s.uuid && t.id == s.id
            &&& forall|o: i64| o != id ==> #[trigger] n.source(o) == d.source(o)
        }),
{
    if d.has_source(id) {
        let p = choose|p: int| 0 <= p < d.sources.len() && #[trigger] d.sources[p].id == id;
        laws::lemma_source_is(d, p);
        lemma_row_replaced(d, id, SourceView { complete, ..d.source(id)->0 });
    }
}

proof fn lemma_put_all(e: Seq<Entry>, more: Seq<Entry>, k: Seq<char>)
    requires
        text_map::ascending(e),
    ensures
        (forall|i: int| 0 <= i < more.len() ==> (#[trigger] more[i]).0 != k) ==> text_map::lookup(
            text_map::put_entries(e, more),
            k,
        ) == text_map::lookup(e, k),
        forall|i: int|
            0 <= i < more.len() && (#[trigger] more[i]).0 == k && (forall|j: int|
                i < j < more.len() ==> (#[trigger] more[j]).0 != k) ==> text_map::lookup(
                text_map::put_entries(e, more),
                k,
            ) == Some(more[i].1),
    decreases more.len(),
{
    if more.len() > 0 {
        let head = more.drop_last();
        lemma_put_all(e, head, k);
        text_map::lemma_put_entries_ascending(e, head);
        text_map::lemma_lookup_put(
            text_map::put_entries(e, head),
            more.last().0,
            more.last().1,
            k,
        );
        assert(more[more.len() - 1] == more.last());
        assert forall|i: int| 0 <= i < head.len() implies #[trigger] head[i] == more[i] by {}
        assert forall|i: int|
            0 <= i < more.len() && (#[trigger] more[i]).0 == k && (forall|j: int|
                i < j < more.len() ==> (#[trigger] more[j]).0 != k) implies text_map::lookup(
            text_map::put_entries(e, more),
            k,
        ) == Some(more[i].1) by {
            if i < head.len() {
                assert(more[more.len() - 1].0 != k);
                assert(head[i].0 == k);
                assert forall|j: int| i < j < head.len() implies (#[trigger] head[j]).0 != k by {
                    assert(more[j].0 != k);
                }
            }
        }
    }
}

/// Entries that are put over others stand for what they say, and every other key for what
/// it stood for.
pub proof fn law_merged_entries_override(e: Seq<Entry>, more: Seq<Entry>, key: Seq<char>)
    requires
        text_map::ascending(e),
        text_map::ascending(more),
    ensures
        text_map::ascending(text_map::put_entries(e, more)),
        text_map::lookup(text_map::put_entries(e, more), key) == match text_map::lookup(more, key) {
            Some(v) => Some(v),
            None => text_map::lookup(e, key),
        },
{
    lemma_put_all(e, more, key);
    text_map::lemma_put_entries_ascending(e, more);
    lemma_lookup_finds(more, key);
    if text_map::lookup(more, key) is Some {
        let i = choose|i: int|
            0 <= i < more.len() && (#[trigger] more[i]).0 == key && more[i].1 == text_map::lookup(
                more,
                key,
            )->0;
        assert forall|j: int| i < j < more.len() implies (#[trigger] more[j]).0 != key by {
            crate::text::lemma_text_order(more[i].0, more[j].0);
            assert(crate::text::text_less(more[i].0, more[j].0));
        }
    }
}

/// A metadata update puts the keys it names under the values it gives, leaves every other
/// key as it was, and changes nothing else of the archive. It is refused exactly where the
/// source is not there.
pub proof fn law_a_metadata_update_is_a_merge(
    d: DbView,
    id: i64,
    patch: Seq<Entry>,
    key: Seq<char>,
)
    requires
        d.wf(),
        d.source(id) matches Some(s) ==> text_map::ascending(s.meta.metadata),
        text_map::ascending(patch),
    ensures
        store::changes::metadata_patched(d, id, patch) is Ok <==> d.has_source(id),
        store::changes::metadata_patched(d, id, patch) matches Ok(n) ==> {
            let s = d.source(id)->0;
            let t = n.source(id)->0;
            &&& n.wf()
            &&& n == (DbView { sources: n.sources, ..d })
            &&& n.source(id) is Some
            &&& t.meta.labels == s.meta.labels
            &&& t.meta.clock_anchor_wall_ns == s.meta.clock_anchor_wall_ns
            &&& t.uuid == s.uuid
            &&& t.complete == s.complete
            &&& text_map::ascending(t.meta.metadata)
            &&& text_map::lookup(t.meta.metadata, key) == match text_map::lookup(patch, key) {
                Some(v) => Some(v),
                None => text_map::lookup(s.meta.metadata, key),
            }
            &&& forall|o: i64| o != id ==> #[trigger] n.source(o) == d.source(o)
        },
{
    if d.has_source(id) {
        let s = d.source(id)->0;
        let p = choose|p: int| 0 <= p < d.sources.len() && #[trigger] d.sources[p].id == id;
        laws::lemma_source_is(d, p);
        let merged = text_map::put_entries(s.meta.metadata, patch);
        lemma_row_replaced(
            d,
            id,
            SourceView { meta: super::SourceMetaView { metadata: merged, ..s.meta }, ..s },
        );
        law_merged_entries_override(s.meta.metadata, patch, key);
    }
}

proof fn lemma_lookup_finds(e: Seq<Entry>, k: Seq<char>)
    ensures
        match text_map::lookup(e, k) {
            Some(v) => exists|i: int|
                0 <= i < e.len() && (#[trigger] e[i]).0 == k && e[i].1 == v,
            None => forall|i: int| 0 <= i < e.len() ==> (#[trigger] e[i]).0 != k,
        },
    decreases e.len(),
{
    if e.len() > 0 {
        let t = e.skip(1);
        lemma_lookup_finds(t, k);
        if e[0].0 != k {
            if text_map::lookup(t, k) is Some {
                let i = choose|i: int|
                    0 <= i < t.len() && (#[trigger] t[i]).0 == k && t[i].1
                        == text_map::lookup(t, k)->0;
                assert(e[i + 1] == t[i]);
            } else {
                assert forall|i: int| 0 <= i < e.len() implies (#[trigger] e[i]).0 != k by {
                    if i > 0 {
                        assert(t[i - 1] == e[i]);
                    }
                }
            }
        }
    }
}

/// A source that is started gets the id after the greatest there is, from one on, stands
/// behind the others and changes none of them.
pub proof fn law_a_started_source_gets_the_next_id(
    d: DbView,
    meta: super::SourceMetaView,
    uuid: Option<Seq<char>>,
)
    requires
        d.wf(),
    ensures
        match store::changes::source_started(d, meta, uuid) {
            Ok((id, n)) => {
                &&& forall|i: int| 0 <= i < d.sources.len() ==> (#[trigger] d.sources[i]).id < id
                &&& d.sources.len() == 0 ==> id == 1
                &&& d.sources.len() > 0 ==> id == d.sources.last().id + 1
                &&& n == (DbView {
                    sources: d.sources.push(SourceView { id, uuid, meta, complete: false }),
                    ..d
                })
            },
            Err(_) => d.sources.len() > 0 && d.sources.last().id == i64::MAX,
        },
{
    if let Ok((id, n)) = store::changes::source_started(d, meta, uuid) {
        let row = SourceView { id, uuid, meta, complete: false };
        table::lemma_place::<SourceRow>(d.sources, row);
        let p = table::place_of::<SourceRow>(d.sources, row);
        let last = d.sources.len() - 1;
        assert forall|i: int| 0 <= i < d.sources.len() implies (#[trigger] d.sources[i]).id < id by {
            if i < last {
                assert(!table::before(
                    SourceRow::key_of(d.sources[last]),
                    SourceRow::key_of(d.sources[i]),
                ));
            }
        }
        if p < d.sources.len() {
            assert(d.sources[p].id < id);
        }
        assert(n.sources =~= d.sources.push(row));
    }
}

// ------------------------------------------------------------ transactions and pages

/// A transaction is all or nothing: it leaves what its changes left where none of them was
/// refused and the archive can be written, and is refused otherwise.
pub proof fn law_a_transaction_is_all_or_nothing(
    d: DbView,
    outcome: (DbView, Option<ErrorView>),
)
    ensures
        match store::transacted(d, outcome) {
            Ok(n) => n == outcome.0 && outcome.1 is None && !d.read_only && !d.legacy,
            Err(e) => d.read_only || d.legacy || outcome.1 == Some(e),
        },
{
}

/// Handing free pages back takes as many as asked for, or as many as are free, from the
/// file and from those that are free, and changes nothing else.
pub proof fn law_handing_pages_back_takes_free_ones(d: DbView, pages: u32)
    requires
        d.pages.free <= d.pages.pages,
    ensures
        ({
            let n = d.vacuumed(pages);
            let gone = vstd::math::min(pages as int, d.pages.free as int);
            &&& n.pages.free == d.pages.free - gone
            &&& n.pages.pages == d.pages.pages - gone
            &&& n.pages.page_size == d.pages.page_size
            &&& n == (DbView { pages: n.pages, ..d })
        }),
{
}

/// Every stream of which anything stands in the archive can be chosen for retention.
pub proof fn law_retention_may_choose_every_stream(d: DbView, source: i64, name: Seq<char>)
    requires
        d.segments_of(source, name).len() > 0 || d.wal_of(source, name).len() > 0,
    ensures
        d.evictable_streams(source).contains(name),
{
    laws::law_a_stream_is_its_rows(d, source, name);
    names::lemma_named(d.streams_of(source), d.caller_streams(source), name);
}

// ------------------------------------------------------------ a source's columns

/// A source is read of its columns exactly where both of its maps can be, and is what they
/// say: complete where its mark is any number but zero, and with each key of a map standing
/// for the last value given for it.
pub proof fn law_a_source_is_read_of_its_columns(
    id: i64,
    uuid: Option<Seq<char>>,
    labels: Seq<char>,
    metadata: Seq<char>,
    complete: i64,
    anchor: i64,
    key: Seq<char>,
)
    ensures
        ({
            let r = columns::source_read(id, uuid, labels, metadata, complete, anchor);
            let (l, m) = (columns::map_read(labels), columns::map_read(metadata));
            &&& r is Ok <==> l is Ok && m is Ok
            &&& r matches Ok(s) ==> {
                &&& s.id == id
                &&& s.uuid == uuid
                &&& s.meta.clock_anchor_wall_ns == anchor
                &&& s.complete <==> complete != 0
                &&& text_map::ascending(s.meta.labels)
                &&& text_map::ascending(s.meta.metadata)
                &&& forall|i: int| #[trigger]
                    stands_last(l->Ok_0, i, key) ==> text_map::lookup(s.meta.labels, key) == Some(
                        (l->Ok_0)[i].1,
                    )
                &&& forall|i: int| #[trigger]
                    stands_last(m->Ok_0, i, key) ==> text_map::lookup(s.meta.metadata, key)
                        == Some((m->Ok_0)[i].1)
            }
        }),
{
    let none = Seq::<Entry>::empty();
    if let (Ok(l), Ok(m)) = (columns::map_read(labels), columns::map_read(metadata)) {
        text_map::lemma_put_entries_ascending(none, l);
        text_map::lemma_put_entries_ascending(none, m);
        lemma_put_all(none, l, key);
        lemma_put_all(none, m, key);
    }
}

/// Whether a place of entries is the last that gives a value for a key.
pub open spec fn stands_last(e: Seq<Entry>, i: int, key: Seq<char>) -> bool {
    &&& 0 <= i < e.len()
    &&& e[i].0 == key
    &&& forall|j: int| i < j < e.len() ==> (#[trigger] e[j]).0 != key
}

// ------------------------------------------------------------ a file's header

/// Bytes are those of a file exactly where they begin with the letters that such a file
/// begins with and a zero byte, and go on far enough to say how its journal is kept.
pub proof fn law_a_file_is_known_by_its_letters(b: Seq<u8>)
    ensures
        file::is_file(b) <==> {
            let name = "SQLite format 3"@;
            &&& b.len() >= 20
            &&& forall|i: int| 0 <= i < name.len() ==> #[trigger] b[i] as int == name[i] as int
            &&& b[name.len() as int] == 0
        },
{
    reveal_strlit("SQLite format 3");
    let name = "SQLite format 3"@;
    let m = file::magic();
    assert(m.len() == 16);
    assert(forall|i: int| 0 <= i < name.len() ==> #[trigger] m[i] as int == name[i] as int);
    if b.len() >= 20 {
        if b.take(16) == m {
            assert forall|i: int| 0 <= i < name.len() implies #[trigger] b[i] as int
                == name[i] as int by {
                assert(b.take(16)[i] == m[i]);
            }
            assert(b.take(16)[15] == m[15]);
        }
        if (forall|i: int| 0 <= i < name.len() ==> #[trigger] b[i] as int == name[i] as int)
            && b[name.len() as int] == 0 {
            assert forall|i: int| 0 <= i < 16 implies b.take(16)[i] == m[i] by {
                if i < 15 {
                    assert(b[i] as int == name[i] as int);
                    assert(m[i] as int == name[i] as int);
                }
            }
            assert(b.take(16) =~= m);
        }
    }
}

/// An image differs from its file at most in the two bytes that say how the journal is
/// kept. A file whose journal is a sidecar says as an image that it is rolled back, and
/// any other is its own image.
pub proof fn law_an_image_is_its_file_but_for_the_journal(b: Seq<u8>)
    requires
        file::is_file(b),
    ensures
        ({
            let n = file::image_of(b);
            &&& n.len() == b.len()
            &&& forall|i: int| 0 <= i < b.len() && i != 18 && i != 19 ==> #[trigger] n[i] == b[i]
            &&& if b[18] == 2 && b[19] == 2 {
                n[18] == 1 && n[19] == 1
            } else {
                n == b
            }
        }),
{
}

} // verus!
