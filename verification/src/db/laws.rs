//! What holds of every archive: of its tail, its prune and its retention.

use vstd::prelude::*;

use super::model;
use super::model::DbView;
use super::records::{CallerAt, CallerAtView, ClockAt, SegmentAt, SegmentAtView, WalAt, WalAtView};
use super::rows::{SegmentView, SourceMetaView, SourceRow, SourceView, WalView};
use super::store;
use super::table;
use super::table::Keyed;
use crate::names;
use crate::seqs;

verus! {

// ------------------------------------------------------------ watermarks

/// A watermark is the timestamp of some segment, and none is newer; there is
/// none only where there is no segment.
pub proof fn lemma_watermark(s: Seq<SegmentView>)
    ensures
        model::newest_sealed(s) is None <==> s.len() == 0,
        model::newest_sealed(s) matches Some(w) ==> {
            &&& exists|i: int| 0 <= i < s.len() && #[trigger] s[i].meta.last_ts == w
            &&& forall|i: int| 0 <= i < s.len() ==> #[trigger] s[i].meta.last_ts <= w
        },
    decreases s.len(),
{
    if s.len() > 0 {
        let d = s.drop_last();
        lemma_watermark(d);
        let w = model::newest_sealed(s)->0;
        if s.last().meta.last_ts == w {
            assert(s[s.len() - 1].meta.last_ts == w);
        } else {
            let i = choose|i: int| 0 <= i < d.len() && #[trigger] d[i].meta.last_ts == w;
            assert(s[i].meta.last_ts == w);
        }
        assert forall|i: int| 0 <= i < s.len() implies #[trigger] s[i].meta.last_ts <= w by {
            if i < d.len() {
                assert(d[i].meta.last_ts <= model::newest_sealed(d)->0);
            }
        }
    }
}

proof fn lemma_watermark_is(s: Seq<SegmentView>, w: i64)
    requires
        exists|i: int| 0 <= i < s.len() && #[trigger] s[i].meta.last_ts == w,
        forall|i: int| 0 <= i < s.len() ==> #[trigger] s[i].meta.last_ts <= w,
    ensures
        model::newest_sealed(s) == Some(w),
{
    lemma_watermark(s);
}

// ------------------------------------------------------------ what filters do to a stream

/// What a stream's segments are once old ones are gone.
proof fn lemma_segments_without_old(
    d: DbView,
    source: i64,
    only: Option<Seq<char>>,
    cutoff: int,
    s: i64,
    stream: Seq<char>,
)
    ensures
        ({
            let after = DbView {
                segments: table::without_old::<SegmentAt>(
                    d.segments,
                    source as int,
                    only,
                    cutoff,
                ),
                ..d
            };
            after.segments_of(s, stream) == if s == source && (only matches Some(o) ==> o
                == stream) {
                d.segments_of(s, stream).filter(|v: SegmentView| v.meta.last_ts >= cutoff)
            } else {
                d.segments_of(s, stream)
            }
        }),
{
    let t = d.segments;
    let kept = |v: SegmentAtView| !table::old_row::<SegmentAt>(v, source as int, only, cutoff);
    let here = |v: SegmentAtView| table::within::<SegmentAt>(v, s as int, Some(stream));
    let row = |v: SegmentAtView| v.row;
    let young = |v: SegmentView| v.meta.last_ts >= cutoff;
    seqs::lemma_filter_twice(t, kept, here);
    let both = |v: SegmentAtView| kept(v) && here(v);
    if s == source && (only matches Some(o) ==> o == stream) {
        seqs::lemma_map_filter(t.filter(here), row, young);
        let young_at = |v: SegmentAtView| young(row(v));
        seqs::lemma_filter_twice(t, here, young_at);
        seqs::lemma_filter_same(t, both, |v: SegmentAtView| here(v) && young_at(v));
    } else {
        seqs::lemma_filter_same(t, both, here);
    }
}

/// What a stream's WAL rows are once old ones are gone.
proof fn lemma_wal_without_old(
    d: DbView,
    source: i64,
    only: Option<Seq<char>>,
    cutoff: int,
    s: i64,
    stream: Seq<char>,
)
    ensures
        ({
            let after = DbView {
                wal: table::without_old::<WalAt>(d.wal, source as int, only, cutoff),
                ..d
            };
            after.wal_of(s, stream) == if s == source && (only matches Some(o) ==> o == stream) {
                d.wal_of(s, stream).filter(|r: WalView| r.ts >= cutoff)
            } else {
                d.wal_of(s, stream)
            }
        }),
{
    let t = d.wal;
    let kept = |v: WalAtView| !table::old_row::<WalAt>(v, source as int, only, cutoff);
    let here = |v: WalAtView| table::within::<WalAt>(v, s as int, Some(stream));
    let row = |v: WalAtView| v.row;
    let young = |r: WalView| r.ts >= cutoff;
    seqs::lemma_filter_twice(t, kept, here);
    let both = |v: WalAtView| kept(v) && here(v);
    if s == source && (only matches Some(o) ==> o == stream) {
        seqs::lemma_map_filter(t.filter(here), row, young);
        let young_at = |v: WalAtView| young(row(v));
        seqs::lemma_filter_twice(t, here, young_at);
        seqs::lemma_filter_same(t, both, |v: WalAtView| here(v) && young_at(v));
    } else {
        seqs::lemma_filter_same(t, both, here);
    }
}

// ------------------------------------------------------------ sources

/// A source is the one row under its id.
pub proof fn lemma_source_is(d: DbView, i: int)
    requires
        table::in_order::<SourceRow>(d.sources),
        0 <= i < d.sources.len(),
    ensures
        d.source(d.sources[i].id) == Some(d.sources[i]),
{
    let id = d.sources[i].id;
    assert(d.has_source(id));
    let k = choose|k: int| 0 <= k < d.sources.len() && #[trigger] d.sources[k].id == id;
    if k != i {
        assert(SourceRow::key_of(d.sources[k]) == SourceRow::key_of(d.sources[i]));
    }
}

/// A source that is started reads back as it was given, not complete yet, and
/// nothing else of the archive is other.
pub proof fn law_a_source_reads_back(d: DbView, meta: SourceMetaView, uuid: Option<Seq<char>>)
    requires
        d.wf(),
        model::next_id(d.sources) <= i64::MAX,
    ensures
        ({
            let id = model::next_id(d.sources) as i64;
            let n = d.with_source(meta, uuid);
            &&& n.wf()
            &&& n == (DbView { sources: n.sources, ..d })
            &&& n.source(id) == Some(SourceView { id, uuid, meta, complete: false })
        }),
{
    let id = model::next_id(d.sources) as i64;
    let row = SourceView { id, uuid, meta, complete: false };
    let n = d.with_source(meta, uuid);
    store::changes::lemma_next_id_free(d);
    store::lemma_has_source(d, row);
    table::lemma_placed_in_order::<SourceRow>(d.sources, row);
    table::lemma_place::<SourceRow>(d.sources, row);
    let p = table::place_of::<SourceRow>(d.sources, row);
    assert(n.sources[p] == row);
    lemma_source_is(n, p);
}

// ------------------------------------------------------------ the prune

/// The prune has no part in what is live: pruning a stream up to its watermark
/// or below changes no stream's tail.
pub proof fn law_prune_leaves_the_tail(
    d: DbView,
    source: i64,
    stream: Seq<char>,
    upto: i64,
    s: i64,
    other: Seq<char>,
)
    requires
        d.watermark(source, stream) matches Some(w) && upto <= w,
    ensures
        d.pruned(source, stream, upto).live_of(s, other) == d.live_of(s, other),
{
    lemma_wal_without_old(d, source, Some(stream), upto + 1, s, other);
    let after = d.pruned(source, stream, upto);
    assert(after.watermark(s, other) == d.watermark(s, other));
    if s == source && other == stream {
        let w = d.watermark(s, other);
        let rows = d.wal_of(s, other);
        let young = |r: WalView| r.ts >= upto + 1;
        let live = |r: WalView| model::past(w, r.ts);
        seqs::lemma_filter_twice(rows, young, live);
        seqs::lemma_filter_same(rows, |r: WalView| young(r) && live(r), live);
    }
}

/// The prune is idempotent: a second one of the same watermark deletes nothing.
pub proof fn law_prune_is_idempotent(d: DbView, source: i64, stream: Seq<char>, upto: i64)
    ensures
        d.pruned(source, stream, upto).pruned(source, stream, upto) == d.pruned(
            source,
            stream,
            upto,
        ),
{
    let keep = |v: WalAtView|
        !table::old_row::<WalAt>(v, source as int, Some(stream), upto + 1);
    seqs::lemma_filter_twice(d.wal, keep, keep);
    seqs::lemma_filter_same(d.wal, |v: WalAtView| keep(v) && keep(v), keep);
}

/// The prune is bounded to one stream: every other stream's rows stay, and of
/// its own those past the bound.
pub proof fn law_prune_is_bounded_to_one_stream(
    d: DbView,
    source: i64,
    stream: Seq<char>,
    upto: i64,
    s: i64,
    other: Seq<char>,
)
    ensures
        d.pruned(source, stream, upto).wal_of(s, other) == if s == source && other == stream {
            d.wal_of(s, other).filter(|r: WalView| r.ts > upto)
        } else {
            d.wal_of(s, other)
        },
{
    lemma_wal_without_old(d, source, Some(stream), upto + 1, s, other);
    seqs::lemma_filter_same(
        d.wal_of(s, other),
        |r: WalView| r.ts >= upto + 1,
        |r: WalView| r.ts > upto,
    );
}

// ------------------------------------------------------------ retention

proof fn lemma_tail_after_cut(
    before: Seq<SegmentView>,
    after: Seq<SegmentView>,
    rows: Seq<WalView>,
    cutoff: int,
)
    requires
        after == before.filter(|v: SegmentView| v.meta.last_ts >= cutoff),
    ensures
        ({
            let w = model::newest_sealed(before);
            let x = model::newest_sealed(after);
            rows.filter(|r: WalView| r.ts >= cutoff).filter(|r: WalView| model::past(x, r.ts))
                == rows.filter(|r: WalView| model::past(w, r.ts)).filter(
                |r: WalView| r.ts >= cutoff,
            )
        }),
{
    let w = model::newest_sealed(before);
    let x = model::newest_sealed(after);
    let young = |r: WalView| r.ts >= cutoff;
    let live = |r: WalView| model::past(w, r.ts);
    let live_after = |r: WalView| model::past(x, r.ts);
    let recent = |v: SegmentView| v.meta.last_ts >= cutoff;
    lemma_watermark(before);
    lemma_watermark(after);
    seqs::lemma_filter_twice(rows, young, live_after);
    seqs::lemma_filter_twice(rows, live, young);
    assert forall|i: int| 0 <= i < rows.len() implies (young(#[trigger] rows[i]) && live_after(
        rows[i],
    )) == (live(rows[i]) && young(rows[i])) by {
        if young(rows[i]) {
            match w {
                None => {
                    if after.len() > 0 {
                        seqs::lemma_filter_member(before, recent, 0);
                    }
                },
                Some(m) => {
                    if m >= cutoff {
                        let k = choose|k: int|
                            0 <= k < before.len() && #[trigger] before[k].meta.last_ts == m;
                        seqs::lemma_filter_keeps(before, recent, k);
                        let j = choose|j: int| 0 <= j < after.len() && after[j] == before[k];
                        assert(after[j].meta.last_ts == m);
                        let y = x->0;
                        let q = choose|q: int|
                            0 <= q < after.len() && #[trigger] after[q].meta.last_ts == y;
                        seqs::lemma_filter_member(before, recent, q);
                        let b = choose|b: int| 0 <= b < before.len() && before[b] == after[q];
                        assert(before[b].meta.last_ts <= m);
                        assert(x == w);
                    } else {
                        if after.len() > 0 {
                            seqs::lemma_filter_member(before, recent, 0);
                            let b = choose|b: int| 0 <= b < before.len() && before[b] == after[0];
                            assert(before[b].meta.last_ts <= m);
                            assert(false);
                        }
                    }
                },
            }
        }
    }
    seqs::lemma_filter_same(
        rows,
        |r: WalView| young(r) && live_after(r),
        |r: WalView| live(r) && young(r),
    );
}

/// Retention never resurrects a row: after evicting a source's past, a stream's
/// tail is what it was, without the rows before the cutoff. A segment's removal
/// un-shadows nothing.
pub proof fn law_eviction_resurrects_nothing(
    d: DbView,
    source: i64,
    cutoff: i64,
    stream: Seq<char>,
)
    ensures
        d.evicted(source, cutoff).live_of(source, stream) == d.live_of(source, stream).filter(
            |r: WalView| r.ts >= cutoff,
        ),
{
    lemma_segments_without_old(d, source, None, cutoff as int, source, stream);
    lemma_wal_without_old(d, source, None, cutoff as int, source, stream);
    let after = d.evicted(source, cutoff);
    let before = d.segments_of(source, stream);
    assert(after.segments_of(source, stream) == before.filter(
        |v: SegmentView| v.meta.last_ts >= cutoff as int,
    ));
    lemma_tail_after_cut(before, after.segments_of(source, stream), d.wal_of(source, stream), cutoff as int);
    seqs::lemma_filter_same(
        d.live_of(source, stream),
        |r: WalView| r.ts >= cutoff as int,
        |r: WalView| r.ts >= cutoff,
    );
}

/// Retention keeps at least what was asked for: every segment that reaches the
/// cutoff stays, whole and in order, and those wholly before it go.
pub proof fn law_eviction_keeps_the_window(
    d: DbView,
    source: i64,
    cutoff: i64,
    stream: Seq<char>,
)
    ensures
        d.evicted(source, cutoff).segments_of(source, stream) == d.segments_of(
            source,
            stream,
        ).filter(|v: SegmentView| v.meta.last_ts >= cutoff),
        d.evicted(source, cutoff).wal_of(source, stream) == d.wal_of(source, stream).filter(
            |r: WalView| r.ts >= cutoff,
        ),
{
    lemma_segments_without_old(d, source, None, cutoff as int, source, stream);
    lemma_wal_without_old(d, source, None, cutoff as int, source, stream);
    seqs::lemma_filter_same(
        d.segments_of(source, stream),
        |v: SegmentView| v.meta.last_ts >= cutoff as int,
        |v: SegmentView| v.meta.last_ts >= cutoff,
    );
    seqs::lemma_filter_same(
        d.wal_of(source, stream),
        |r: WalView| r.ts >= cutoff as int,
        |r: WalView| r.ts >= cutoff,
    );
}

/// Retention leaves every other source alone.
pub proof fn law_eviction_is_bounded_to_one_source(
    d: DbView,
    source: i64,
    cutoff: i64,
    other: i64,
    stream: Seq<char>,
)
    requires
        other != source,
    ensures
        d.evicted(source, cutoff).segments_of(other, stream) == d.segments_of(other, stream),
        d.evicted(source, cutoff).wal_of(other, stream) == d.wal_of(other, stream),
        d.evicted(source, cutoff).live_of(other, stream) == d.live_of(other, stream),
{
    lemma_segments_without_old(d, source, None, cutoff as int, other, stream);
    lemma_wal_without_old(d, source, None, cutoff as int, other, stream);
}

/// Retention of one stream treats that stream as retention of its source would,
/// and resurrects nothing either.
pub proof fn law_stream_eviction_resurrects_nothing(
    d: DbView,
    source: i64,
    stream: Seq<char>,
    cutoff: i64,
)
    ensures
        d.stream_evicted(source, stream, cutoff).segments_of(source, stream) == d.evicted(
            source,
            cutoff,
        ).segments_of(source, stream),
        d.stream_evicted(source, stream, cutoff).wal_of(source, stream) == d.evicted(
            source,
            cutoff,
        ).wal_of(source, stream),
        d.stream_evicted(source, stream, cutoff).live_of(source, stream) == d.live_of(
            source,
            stream,
        ).filter(|r: WalView| r.ts >= cutoff),
{
    lemma_segments_without_old(d, source, Some(stream), cutoff as int, source, stream);
    lemma_wal_without_old(d, source, Some(stream), cutoff as int, source, stream);
    lemma_segments_without_old(d, source, None, cutoff as int, source, stream);
    lemma_wal_without_old(d, source, None, cutoff as int, source, stream);
    law_eviction_resurrects_nothing(d, source, cutoff, stream);
}

/// Retention of one stream leaves every other stream alone.
pub proof fn law_stream_eviction_leaves_other_streams(
    d: DbView,
    source: i64,
    stream: Seq<char>,
    cutoff: i64,
    s: i64,
    other: Seq<char>,
)
    requires
        s != source || other != stream,
    ensures
        d.stream_evicted(source, stream, cutoff).segments_of(s, other) == d.segments_of(s, other),
        d.stream_evicted(source, stream, cutoff).wal_of(s, other) == d.wal_of(s, other),
        d.stream_evicted(source, stream, cutoff).live_of(s, other) == d.live_of(s, other),
{
    lemma_segments_without_old(d, source, Some(stream), cutoff as int, s, other);
    lemma_wal_without_old(d, source, Some(stream), cutoff as int, s, other);
}

/// Retention of certain streams leaves every stream it was not given alone.
pub proof fn law_eviction_leaves_the_streams_it_was_not_given(
    d: DbView,
    source: i64,
    streams: Seq<Seq<char>>,
    cutoff: i64,
    s: i64,
    other: Seq<char>,
)
    requires
        s != source || !streams.contains(other),
    ensures
        d.chosen_evicted(source, streams, cutoff).segments_of(s, other) == d.segments_of(
            s,
            other,
        ),
        d.chosen_evicted(source, streams, cutoff).wal_of(s, other) == d.wal_of(s, other),
    decreases streams.len(),
{
    if streams.len() > 0 {
        let head = streams.drop_last();
        assert(s != source || !head.contains(other)) by {
            if head.contains(other) {
                let k = choose|k: int| 0 <= k < head.len() && head[k] == other;
                assert(streams[k] == other);
            }
        }
        assert(streams[streams.len() - 1] == streams.last());
        law_eviction_leaves_the_streams_it_was_not_given(d, source, head, cutoff, s, other);
        law_stream_eviction_leaves_other_streams(
            d.streams_evicted(source, head, cutoff),
            source,
            streams.last(),
            cutoff,
            s,
            other,
        );
    }
}

/// Retention of certain streams leaves the clock observations to the source's
/// own cut.
pub proof fn lemma_streams_evicted_clocks(
    d: DbView,
    source: i64,
    streams: Seq<Seq<char>>,
    cutoff: i64,
)
    ensures
        d.streams_evicted(source, streams, cutoff) == (DbView {
            segments: d.streams_evicted(source, streams, cutoff).segments,
            wal: d.streams_evicted(source, streams, cutoff).wal,
            caller_rows: d.streams_evicted(source, streams, cutoff).caller_rows,
            ..d
        }),
    decreases streams.len(),
{
    if streams.len() > 0 {
        lemma_streams_evicted_clocks(d, source, streams.drop_last(), cutoff);
    }
}

/// Whether a row is old and of one of certain streams.
pub open spec fn old_among<R: Keyed>(
    v: R::V,
    source: int,
    streams: Seq<Seq<char>>,
    cutoff: int,
) -> bool {
    table::old_row::<R>(v, source, None, cutoff) && streams.contains(R::key_of(v).stream)
}

proof fn lemma_one_more_old<R: Keyed>(
    t: Seq<R::V>,
    source: int,
    streams: Seq<Seq<char>>,
    cutoff: int,
)
    requires
        streams.len() > 0,
    ensures
        table::without_old::<R>(
            t.filter(|v: R::V| !old_among::<R>(v, source, streams.drop_last(), cutoff)),
            source,
            Some(streams.last()),
            cutoff,
        ) == t.filter(|v: R::V| !old_among::<R>(v, source, streams, cutoff)),
{
    let head = |v: R::V| !old_among::<R>(v, source, streams.drop_last(), cutoff);
    let last = |v: R::V| !table::old_row::<R>(v, source, Some(streams.last()), cutoff);
    let both = |v: R::V| !old_among::<R>(v, source, streams, cutoff);
    seqs::lemma_filter_twice(t, head, last);
    assert forall|i: int| 0 <= i < t.len() implies (head(#[trigger] t[i]) && last(t[i]))
        == both(t[i]) by {
        let n = R::key_of(t[i]).stream;
        if streams.contains(n) && n != streams.last() {
            let k = choose|k: int| 0 <= k < streams.len() && streams[k] == n;
            assert(streams.drop_last()[k] == n);
        }
        if streams.drop_last().contains(n) {
            let k = choose|k: int|
                0 <= k < streams.drop_last().len() && streams.drop_last()[k] == n;
            assert(streams[k] == n);
        }
        if n == streams.last() {
            assert(streams[streams.len() - 1] == n);
        }
    }
    seqs::lemma_filter_same(t, |v: R::V| head(v) && last(v), both);
}

/// What retention of certain streams leaves of the segments, the WAL and the
/// caller's rows.
pub proof fn lemma_streams_evicted(
    d: DbView,
    source: i64,
    streams: Seq<Seq<char>>,
    cutoff: i64,
)
    ensures
        d.streams_evicted(source, streams, cutoff).segments == d.segments.filter(
            |v: SegmentAtView|
                !old_among::<SegmentAt>(v, source as int, streams, cutoff as int),
        ),
        d.streams_evicted(source, streams, cutoff).wal == d.wal.filter(
            |v: WalAtView| !old_among::<WalAt>(v, source as int, streams, cutoff as int),
        ),
        d.streams_evicted(source, streams, cutoff).caller_rows == d.caller_rows.filter(
            |v: CallerAtView| !old_among::<CallerAt>(v, source as int, streams, cutoff as int),
        ),
    decreases streams.len(),
{
    let (at, cut) = (source as int, cutoff as int);
    if streams.len() == 0 {
        seqs::lemma_filter_all(
            d.segments,
            |v: SegmentAtView| !old_among::<SegmentAt>(v, at, streams, cut),
        );
        seqs::lemma_filter_all(d.wal, |v: WalAtView| !old_among::<WalAt>(v, at, streams, cut));
        seqs::lemma_filter_all(
            d.caller_rows,
            |v: CallerAtView| !old_among::<CallerAt>(v, at, streams, cut),
        );
    } else {
        lemma_streams_evicted(d, source, streams.drop_last(), cutoff);
        lemma_one_more_old::<SegmentAt>(d.segments, at, streams, cut);
        lemma_one_more_old::<WalAt>(d.wal, at, streams, cut);
        lemma_one_more_old::<CallerAt>(d.caller_rows, at, streams, cut);
    }
}

proof fn lemma_every_name_old<R: Keyed>(
    t: Seq<R::V>,
    source: int,
    streams: Seq<Seq<char>>,
    cutoff: int,
)
    requires
        forall|i: int|
            0 <= i < t.len() && R::key_of(#[trigger] t[i]).source == source ==> streams.contains(
                R::key_of(t[i]).stream,
            ),
    ensures
        t.filter(|v: R::V| !old_among::<R>(v, source, streams, cutoff)) == table::without_old::<R>(
            t,
            source,
            None,
            cutoff,
        ),
{
    seqs::lemma_filter_same(
        t,
        |v: R::V| !old_among::<R>(v, source, streams, cutoff),
        |v: R::V| !table::old_row::<R>(v, source, None, cutoff),
    );
}

/// The streams of a source's entries are all among those that retention may
/// take something of.
pub proof fn lemma_evictable(d: DbView, source: i64)
    ensures
        forall|i: int|
            0 <= i < d.segments.len() && (#[trigger] d.segments[i]).source_id == source
                ==> d.evictable_streams(source).contains(d.segments[i].stream),
        forall|i: int|
            0 <= i < d.wal.len() && (#[trigger] d.wal[i]).source_id == source
                ==> d.evictable_streams(source).contains(d.wal[i].row.stream),
        forall|i: int|
            0 <= i < d.caller_rows.len() && (#[trigger] d.caller_rows[i]).source_id == source
                ==> d.evictable_streams(source).contains(d.caller_rows[i].stream),
{
    let at = source as int;
    let none = Seq::<Seq<char>>::empty();
    names::lemma_with_names(none, d.segment_names(source));
    names::lemma_with_names(d.sealed_streams(source), d.wal_names(source));
    names::lemma_with_names(none, d.caller_names(source));
    names::lemma_with_names(d.streams_of(source), d.caller_streams(source));
    assert forall|i: int|
        0 <= i < d.segments.len() && (#[trigger] d.segments[i]).source_id == source implies
        d.evictable_streams(source).contains(d.segments[i].stream) by {
        let n = d.segments[i].stream;
        let keep = |v: SegmentAtView| table::within::<SegmentAt>(v, at, None);
        seqs::lemma_filter_keeps(d.segments, keep, i);
        let k = choose|k: int|
            0 <= k < d.segments.filter(keep).len() && d.segments.filter(keep)[k] == d.segments[i];
        assert(d.segment_names(source)[k] == n);
        names::lemma_named(none, d.segment_names(source), n);
        names::lemma_named(d.sealed_streams(source), d.wal_names(source), n);
        names::lemma_named(d.streams_of(source), d.caller_streams(source), n);
    }
    assert forall|i: int|
        0 <= i < d.wal.len() && (#[trigger] d.wal[i]).source_id == source implies
        d.evictable_streams(source).contains(d.wal[i].row.stream) by {
        let n = d.wal[i].row.stream;
        let keep = |v: WalAtView| table::within::<WalAt>(v, at, None);
        seqs::lemma_filter_keeps(d.wal, keep, i);
        let k = choose|k: int|
            0 <= k < d.wal.filter(keep).len() && d.wal.filter(keep)[k] == d.wal[i];
        assert(d.wal_names(source)[k] == n);
        names::lemma_named(d.sealed_streams(source), d.wal_names(source), n);
        names::lemma_named(d.streams_of(source), d.caller_streams(source), n);
    }
    assert forall|i: int|
        0 <= i < d.caller_rows.len() && (#[trigger] d.caller_rows[i]).source_id == source implies
        d.evictable_streams(source).contains(d.caller_rows[i].stream) by {
        let n = d.caller_rows[i].stream;
        let keep = |v: CallerAtView| table::within::<CallerAt>(v, at, None);
        seqs::lemma_filter_keeps(d.caller_rows, keep, i);
        let k = choose|k: int|
            0 <= k < d.caller_rows.filter(keep).len() && d.caller_rows.filter(keep)[k]
                == d.caller_rows[i];
        assert(d.caller_names(source)[k] == n);
        names::lemma_named(none, d.caller_names(source), n);
        names::lemma_named(d.streams_of(source), d.caller_streams(source), n);
    }
}

/// A predicate that accepts every stream picks them all.
pub proof fn lemma_all_picked(all: Seq<Seq<char>>, marks: Seq<bool>)
    requires
        marks.len() == all.len(),
        forall|i: int| 0 <= i < marks.len() ==> #[trigger] marks[i],
    ensures
        store::changes::picked(all, marks) == all,
    decreases all.len(),
{
    if all.len() > 0 {
        assert forall|i: int| 0 <= i < marks.drop_last().len() implies #[trigger]
            marks.drop_last()[i] by {
            assert(marks[i]);
        }
        lemma_all_picked(all.drop_last(), marks.drop_last());
        assert(marks[marks.len() - 1]);
        assert(all.drop_last().push(all.last()) =~= all);
    }
}

/// Retention of the streams a predicate accepts, where it accepts every one, is
/// retention of the source: the same archive is left, and as many live rows
/// were taken.
pub proof fn law_accepting_every_stream_restricts_nothing(
    d: DbView,
    source: i64,
    cutoff: i64,
    marks: Seq<bool>,
)
    requires
        marks.len() == d.evictable_streams(source).len(),
        forall|i: int| 0 <= i < marks.len() ==> #[trigger] marks[i],
    ensures
        d.chosen_evicted(
            source,
            store::changes::picked(d.evictable_streams(source), marks),
            cutoff,
        ) == d.evicted(source, cutoff),
        d.live_before(
            source,
            Some(store::changes::picked(d.evictable_streams(source), marks)),
            cutoff,
        ) == d.live_before(source, None, cutoff),
{
    let all = d.evictable_streams(source);
    let (at, cut) = (source as int, cutoff as int);
    let given = Some(all);
    let unnamed = None::<Seq<Seq<char>>>;
    lemma_all_picked(all, marks);
    lemma_evictable(d, source);
    lemma_streams_evicted(d, source, all, cutoff);
    lemma_streams_evicted_clocks(d, source, all, cutoff);
    lemma_every_name_old::<SegmentAt>(d.segments, at, all, cut);
    lemma_every_name_old::<WalAt>(d.wal, at, all, cut);
    lemma_every_name_old::<CallerAt>(d.caller_rows, at, all, cut);
    seqs::lemma_filter_same(
        d.wal,
        |r: WalAtView|
            {
                &&& r.source_id == source
                &&& given matches Some(s) ==> s.contains(r.row.stream)
                &&& r.row.ts < cutoff
                &&& model::past(d.watermark(source, r.row.stream), r.row.ts)
            },
        |r: WalAtView|
            {
                &&& r.source_id == source
                &&& unnamed matches Some(s) ==> s.contains(r.row.stream)
                &&& r.row.ts < cutoff
                &&& model::past(d.watermark(source, r.row.stream), r.row.ts)
            },
    );
}

/// Whichever streams retention takes, it cuts the source's clock observations
/// as retention of the source does, and those of no other.
pub proof fn law_retention_cuts_the_clock_observations(
    d: DbView,
    source: i64,
    streams: Seq<Seq<char>>,
    cutoff: i64,
)
    ensures
        d.chosen_evicted(source, streams, cutoff).clock_offsets == d.evicted(
            source,
            cutoff,
        ).clock_offsets,
        d.chosen_evicted(source, streams, cutoff).clock_offsets == d.clock_offsets.filter(
            |c: ClockAt| !(c.source_id == source && c.ts < cutoff),
        ),
{
    seqs::lemma_filter_same(
        d.clock_offsets,
        |c: ClockAt| !table::old_row::<ClockAt>(c, source as int, None, cutoff as int),
        |c: ClockAt| !(c.source_id == source && c.ts < cutoff),
    );
}

// ------------------------------------------------------------ writing and sealing

/// What a stream's segments are once one more is inserted.
pub proof fn lemma_segments_inserted(d: DbView, at: SegmentAtView, s: i64, stream: Seq<char>)
    requires
        d.wf(),
        d.segment_inserted(at) is Ok,
    ensures
        ({
            let after = d.segment_inserted(at)->Ok_0;
            &&& after.wf()
            &&& after.wal == d.wal
            &&& after.sources == d.sources
            &&& !(s == at.source_id && stream == at.stream) ==> after.segments_of(s, stream)
                == d.segments_of(s, stream)
            &&& s == at.source_id && stream == at.stream ==> exists|n: int|
                0 <= n <= d.segments_of(s, stream).len() && after.segments_of(s, stream)
                    == #[trigger] d.segments_of(s, stream).take(n) + seq![at.row]
                    + d.segments_of(s, stream).skip(n)
        }),
{
    let after = d.segment_inserted(at)->Ok_0;
    let here = |v: SegmentAtView| table::within::<SegmentAt>(v, s as int, Some(stream));
    let row = |v: SegmentAtView| v.row;
    table::lemma_placed_in_order::<SegmentAt>(d.segments, at);
    table::lemma_filter_placed::<SegmentAt>(d.segments, at, here);
    if s == at.source_id && stream == at.stream {
        let t = d.segments.filter(here);
        table::lemma_place::<SegmentAt>(t, at);
        let n = table::place_of::<SegmentAt>(t, at);
        assert(after.segments_of(s, stream) =~= d.segments_of(s, stream).take(n) + seq![at.row]
            + d.segments_of(s, stream).skip(n));
    }
}

/// A stream's segments read back in number order, whatever order they were
/// inserted in, and no two have the same number.
pub proof fn law_segments_are_in_order(d: DbView, source: i64, stream: Seq<char>)
    requires
        d.wf(),
    ensures
        forall|i: int, j: int|
            0 <= i < j < d.segments_of(source, stream).len() ==> #[trigger] d.segments_of(
                source,
                stream,
            )[i].seq < #[trigger] d.segments_of(source, stream)[j].seq,
{
    let here = |v: SegmentAtView| table::within::<SegmentAt>(v, source as int, Some(stream));
    table::lemma_filter_in_order::<SegmentAt>(d.segments, here);
    let t = d.segments.filter(here);
    let rows = d.segments_of(source, stream);
    assert forall|i: int, j: int| 0 <= i < j < rows.len() implies #[trigger] rows[i].seq
        < #[trigger] rows[j].seq by {
        assert(rows[i] == t[i].row && rows[j] == t[j].row);
        table::lemma_key_order(SegmentAt::key_of(t[i]), SegmentAt::key_of(t[j]));
    }
}

/// Whether each segment ends after those before it, as a writer leaves them.
pub open spec fn one_after_the_other(segments: Seq<SegmentView>) -> bool {
    forall|i: int, j: int|
        0 <= i < j < segments.len() ==> (#[trigger] segments[i]).meta.last_ts < (
        #[trigger] segments[j]).meta.last_ts
}

/// A segment numbered past every other of its stream becomes the last of them.
pub proof fn lemma_segment_appended(d: DbView, at: SegmentAtView)
    requires
        d.wf(),
        d.segment_inserted(at) is Ok,
        forall|i: int|
            0 <= i < d.segments_of(at.source_id, at.stream).len() ==> (#[trigger] d.segments_of(
                at.source_id,
                at.stream,
            )[i]).seq < at.row.seq,
    ensures
        (d.segment_inserted(at)->Ok_0).segments_of(at.source_id, at.stream) == d.segments_of(
            at.source_id,
            at.stream,
        ).push(at.row),
{
    let after = d.segment_inserted(at)->Ok_0;
    let was = d.segments_of(at.source_id, at.stream);
    let now = after.segments_of(at.source_id, at.stream);
    lemma_segments_inserted(d, at, at.source_id, at.stream);
    law_segments_are_in_order(after, at.source_id, at.stream);
    let n = choose|n: int|
        0 <= n <= was.len() && now == #[trigger] was.take(n) + seq![at.row] + was.skip(n);
    if n < was.len() {
        assert(now[n] == at.row);
        assert(now[n + 1] == was[n]);
    }
    assert(now =~= was.push(at.row));
}

/// Sealing takes rows out of the tail and duplicates none: once a stream has a
/// segment up to a timestamp past its watermark, its tail is what it was
/// without the rows up to that timestamp; every other stream's tail is what it
/// was.
pub proof fn law_sealing_moves_the_watermark(d: DbView, at: SegmentAtView, s: i64, stream: Seq<char>)
    requires
        d.wf(),
        d.segment_inserted(at) is Ok,
        model::past(d.watermark(at.source_id, at.stream), at.row.meta.last_ts),
    ensures
        ({
            let after = d.segment_inserted(at)->Ok_0;
            if s == at.source_id && stream == at.stream {
                &&& after.watermark(s, stream) == Some(at.row.meta.last_ts)
                &&& after.live_of(s, stream) == d.live_of(s, stream).filter(
                    |r: WalView| r.ts > at.row.meta.last_ts,
                )
            } else {
                after.live_of(s, stream) == d.live_of(s, stream)
            }
        }),
{
    lemma_segments_inserted(d, at, s, stream);
    let after = d.segment_inserted(at)->Ok_0;
    if s == at.source_id && stream == at.stream {
        let was = d.segments_of(s, stream);
        let now = after.segments_of(s, stream);
        let n = choose|n: int|
            0 <= n <= was.len() && now == #[trigger] was.take(n) + seq![at.row] + was.skip(n);
        let m = at.row.meta.last_ts;
        lemma_watermark(was);
        assert(now[n] == at.row);
        assert forall|i: int| 0 <= i < now.len() implies #[trigger] now[i].meta.last_ts <= m by {
            if i < n {
                assert(now[i] == was[i]);
            } else if i > n {
                assert(now[i] == was[i - 1]);
            }
        }
        lemma_watermark_is(now, m);
        let w = d.watermark(s, stream);
        let live = |r: WalView| model::past(w, r.ts);
        let later = |r: WalView| r.ts > m;
        let rows = d.wal_of(s, stream);
        seqs::lemma_filter_twice(rows, live, later);
        seqs::lemma_filter_same(
            rows,
            |r: WalView| live(r) && later(r),
            |r: WalView| model::past(Some(m), r.ts),
        );
    }
}

/// What a stream's rows are once one more is inserted: it is there, every other
/// row is as it was, and so is every other stream.
pub proof fn law_a_row_reads_back(d: DbView, source: i64, row: WalView, s: i64, stream: Seq<char>)
    requires
        d.wf(),
        d.wal_inserted(source, row) is Ok,
    ensures
        ({
            let after = d.wal_inserted(source, row)->Ok_0;
            &&& after.wf()
            &&& after.segments == d.segments
            &&& if s == source && stream == row.stream {
                exists|n: int|
                    0 <= n <= d.wal_of(s, stream).len() && after.wal_of(s, stream)
                        == #[trigger] d.wal_of(s, stream).take(n) + seq![row] + d.wal_of(
                        s,
                        stream,
                    ).skip(n)
            } else {
                after.wal_of(s, stream) == d.wal_of(s, stream)
            }
        }),
{
    let at = WalAtView { source_id: source, row };
    let after = d.wal_inserted(source, row)->Ok_0;
    let here = |v: WalAtView| table::within::<WalAt>(v, s as int, Some(stream));
    table::lemma_placed_in_order::<WalAt>(d.wal, at);
    table::lemma_filter_placed::<WalAt>(d.wal, at, here);
    if s == source && stream == row.stream {
        let t = d.wal.filter(here);
        table::lemma_place::<WalAt>(t, at);
        let n = table::place_of::<WalAt>(t, at);
        assert(after.wal_of(s, stream) =~= d.wal_of(s, stream).take(n) + seq![row] + d.wal_of(
            s,
            stream,
        ).skip(n));
    }
}

/// A stream's rows are in timestamp order, and no two share a timestamp.
pub proof fn law_rows_are_in_order(d: DbView, source: i64, stream: Seq<char>)
    requires
        d.wf(),
    ensures
        forall|i: int, j: int|
            0 <= i < j < d.wal_of(source, stream).len() ==> #[trigger] d.wal_of(source, stream)[i].ts
                < #[trigger] d.wal_of(source, stream)[j].ts,
        forall|i: int|
            0 <= i < d.wal_of(source, stream).len() ==> #[trigger] d.wal_of(
                source,
                stream,
            )[i].stream == stream,
{
    let here = |v: WalAtView| table::within::<WalAt>(v, source as int, Some(stream));
    table::lemma_filter_in_order::<WalAt>(d.wal, here);
    let t = d.wal.filter(here);
    let rows = d.wal_of(source, stream);
    assert forall|i: int, j: int| 0 <= i < j < rows.len() implies #[trigger] rows[i].ts
        < #[trigger] rows[j].ts by {
        assert(rows[i] == t[i].row && rows[j] == t[j].row);
        table::lemma_key_order(WalAt::key_of(t[i]), WalAt::key_of(t[j]));
    }
    assert forall|i: int| 0 <= i < rows.len() implies #[trigger] rows[i].stream == stream by {
        assert(rows[i] == t[i].row);
    }
}

/// A stream's tail is in timestamp order too.
pub proof fn law_the_tail_is_in_order(d: DbView, source: i64, stream: Seq<char>)
    requires
        d.wf(),
    ensures
        forall|i: int, j: int|
            0 <= i < j < d.live_of(source, stream).len() ==> #[trigger] d.live_of(
                source,
                stream,
            )[i].ts < #[trigger] d.live_of(source, stream)[j].ts,
        forall|i: int|
            0 <= i < d.live_of(source, stream).len() ==> #[trigger] d.live_of(
                source,
                stream,
            )[i].stream == stream && model::past(
                d.watermark(source, stream),
                d.live_of(source, stream)[i].ts,
            ),
{
    law_rows_are_in_order(d, source, stream);
    let w = d.watermark(source, stream);
    lemma_ascending_filter(d.wal_of(source, stream), |r: WalView| model::past(w, r.ts));
    let live = d.live_of(source, stream);
    assert forall|i: int| 0 <= i < live.len() implies #[trigger] live[i].stream == stream
        && model::past(w, live[i].ts) by {
        seqs::lemma_filter_member(
            d.wal_of(source, stream),
            |r: WalView| model::past(w, r.ts),
            i,
        );
    }
}

/// Rows in strict timestamp order.
pub open spec fn by_ts(rows: Seq<WalView>) -> bool {
    forall|i: int, j: int| 0 <= i < j < rows.len() ==> #[trigger] rows[i].ts < #[trigger] rows[j].ts
}

/// A filter keeps rows in timestamp order.
pub proof fn lemma_ascending_filter(rows: Seq<WalView>, keep: spec_fn(WalView) -> bool)
    requires
        by_ts(rows),
    ensures
        by_ts(rows.filter(keep)),
    decreases rows.len(),
{
    reveal(Seq::filter);
    let f = rows.filter(keep);
    if rows.len() > 0 {
        let d = rows.drop_last();
        assert(by_ts(d)) by {
            assert forall|i: int, j: int| 0 <= i < j < d.len() implies #[trigger] d[i].ts
                < #[trigger] d[j].ts by {
                assert(d[i] == rows[i] && d[j] == rows[j]);
            }
        }
        lemma_ascending_filter(d, keep);
        if keep(rows.last()) {
            let g = d.filter(keep);
            assert forall|i: int, j: int| 0 <= i < j < f.len() implies #[trigger] f[i].ts
                < #[trigger] f[j].ts by {
                if j < g.len() {
                    assert(f[i] == g[i] && f[j] == g[j]);
                } else {
                    assert(f[i] == g[i]);
                    seqs::lemma_filter_member(d, keep, i);
                    let k = choose|k: int| 0 <= k < d.len() && d[k] == g[i];
                    assert(d[k] == rows[k]);
                    assert(rows[rows.len() - 1] == rows.last());
                }
            }
        }
    }
}

/// A stream is its rows: a source's streams are named in order and each once,
/// and a name is among them exactly where a segment or a WAL row carries it.
pub proof fn law_a_stream_is_its_rows(d: DbView, source: i64, name: Seq<char>)
    ensures
        names::ascending_names(d.streams_of(source)),
        d.streams_of(source).contains(name) <==> d.segments_of(source, name).len() > 0 || d.wal_of(
            source,
            name,
        ).len() > 0,
{
    let e = Seq::<Seq<char>>::empty();
    names::lemma_named(e, d.segment_names(source), name);
    names::lemma_named(d.sealed_streams(source), d.wal_names(source), name);
    let of = |v: SegmentAtView| table::within::<SegmentAt>(v, source as int, None);
    let of_name = |v: SegmentAtView| table::within::<SegmentAt>(v, source as int, Some(name));
    let t = d.segments.filter(of);
    if d.segment_names(source).contains(name) {
        let k = choose|k: int|
            0 <= k < d.segment_names(source).len() && d.segment_names(source)[k] == name;
        seqs::lemma_filter_member(d.segments, of, k);
        let i = choose|i: int| 0 <= i < d.segments.len() && d.segments[i] == t[k];
        seqs::lemma_filter_keeps(d.segments, of_name, i);
    }
    if d.segments_of(source, name).len() > 0 {
        seqs::lemma_filter_member(d.segments, of_name, 0);
        let i = choose|i: int|
            0 <= i < d.segments.len() && d.segments[i] == d.segments.filter(of_name)[0];
        seqs::lemma_filter_keeps(d.segments, of, i);
        let k = choose|k: int| 0 <= k < t.len() && t[k] == d.segments[i];
        assert(d.segment_names(source)[k] == name);
    }
    let wof = |v: WalAtView| table::within::<WalAt>(v, source as int, None);
    let wof_name = |v: WalAtView| table::within::<WalAt>(v, source as int, Some(name));
    let u = d.wal.filter(wof);
    if d.wal_names(source).contains(name) {
        let k = choose|k: int| 0 <= k < d.wal_names(source).len() && d.wal_names(source)[k] == name;
        seqs::lemma_filter_member(d.wal, wof, k);
        let i = choose|i: int| 0 <= i < d.wal.len() && d.wal[i] == u[k];
        seqs::lemma_filter_keeps(d.wal, wof_name, i);
    }
    if d.wal_of(source, name).len() > 0 {
        seqs::lemma_filter_member(d.wal, wof_name, 0);
        let i = choose|i: int| 0 <= i < d.wal.len() && d.wal[i] == d.wal.filter(wof_name)[0];
        seqs::lemma_filter_keeps(d.wal, wof, i);
        let k = choose|k: int| 0 <= k < u.len() && u[k] == d.wal[i];
        assert(d.wal_names(source)[k] == name);
    }
}

} // verus!
