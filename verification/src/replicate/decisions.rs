//! What a publisher ships, what a subscriber does about it and what a replica keeps,
//! frame by frame.

use vstd::prelude::*;

use super::exchange;
use super::frame::{FrameView, IndexKind, NO_INDEX_STATE};
use super::publisher;
use super::publisher::CursorView;
use super::replica;
use super::subscriber;
use super::subscriber::{Applied, SourceState, States, StepView};
use crate::db;
use crate::db::facts;
use crate::db::model;
use crate::db::model::DbView;
use crate::db::{CallerView, SegmentMeta, SegmentView, SourceMetaView, SourceView, WalView};
use crate::error::ErrorView;
use crate::segment::{Encoding, SealedView, SegmentEncoder};
use crate::seqs;
use crate::text;
use crate::writer;
use crate::writer::run;
use crate::writer::run::WriterView;
use crate::writer::seal;
use crate::writer::sealing;
use crate::writer::tick::HealthView;

verus! {

// ------------------------------------------------------------ what opening ships

proof fn lemma_filter_none<A>(s: Seq<A>, keep: spec_fn(A) -> bool)
    requires
        forall|i: int| 0 <= i < s.len() ==> !keep(#[trigger] s[i]),
    ensures
        s.filter(keep) == Seq::<A>::empty(),
    decreases s.len(),
{
    reveal(Seq::filter);
    if s.len() > 0 {
        let d = s.drop_last();
        assert forall|i: int| 0 <= i < d.len() implies !keep(#[trigger] d[i]) by {
            assert(d[i] == s[i]);
        }
        lemma_filter_none(d, keep);
        assert(!keep(s[s.len() - 1]));
    } else {
        assert(s.filter(keep) =~= Seq::<A>::empty());
    }
}

/// Sending index entries sends index entries.
proof fn lemma_only_entries(c: CursorView, d: DbView, streams: Seq<Seq<char>>, from: i64)
    ensures
        forall|i: int|
            0 <= i < publisher::indexes_emitted(c, d, streams, from).1.len() ==> (
            #[trigger] publisher::indexes_emitted(c, d, streams, from).1[i]) is Index,
    decreases streams.len(),
{
    if streams.len() > 0 {
        lemma_only_entries(c, d, streams.drop_last(), from);
        let (was, head) = publisher::indexes_emitted(c, d, streams.drop_last(), from);
        let stream = streams.last();
        let rows = publisher::index_rows(was, d, stream, from);
        let pending = rows.skip(
            publisher::sent_before(
                rows,
                publisher::cursor_at(was.streams, stream).index_after,
            ) as int,
        );
        exchange::law_only_the_first_entry_is_full(was, stream, pending);
        let more = publisher::index_run(was, stream, pending).frames;
        let all = publisher::indexes_emitted(c, d, streams, from).1;
        assert(all == head + more);
        assert forall|i: int| 0 <= i < all.len() implies (#[trigger] all[i]) is Index by {
            if i < head.len() {
                assert(all[i] == head[i]);
            } else {
                assert(all[i] == more[i - head.len()]);
            }
        }
    }
}

/// Whether a frame is of a segment of a stream.
pub open spec fn segment_of(f: FrameView, stream: Seq<char>) -> bool {
    f matches FrameView::Segment { stream: name, .. } && name == stream
}

/// A segment of a stream as a frame.
pub open spec fn as_frame(ordinal: u32, stream: Seq<char>, v: SegmentView) -> FrameView {
    FrameView::Segment {
        source: ordinal,
        stream,
        meta: v.meta,
        bytes: v.bytes,
        caller_index: v.caller_index,
    }
}

proof fn lemma_streams_opened(
    c: CursorView,
    d: DbView,
    streams: Seq<Seq<char>>,
    since: Option<i64>,
    stream: Seq<char>,
)
    requires
        forall|i: int, j: int| 0 <= i < j < streams.len() ==> streams[i] != streams[j],
    ensures
        ({
            let frames = publisher::streams_opened(c, d, streams, since).1;
            &&& forall|i: int| 0 <= i < frames.len() ==> (#[trigger] frames[i]) is Segment
            &&& frames.filter(|f: FrameView| segment_of(f, stream)) == if streams.contains(stream) {
                publisher::stream_frames(c.ordinal, d, c.source_id, stream, since)
            } else {
                Seq::empty()
            }
        }),
    decreases streams.len(),
{
    let of = |f: FrameView| segment_of(f, stream);
    let frames = publisher::streams_opened(c, d, streams, since).1;
    if streams.len() == 0 {
        lemma_filter_none(frames, of);
    } else {
        let head = streams.drop_last();
        let last = streams.last();
        lemma_streams_opened(c, d, head, since, stream);
        let was = publisher::streams_opened(c, d, head, since).1;
        let more = publisher::stream_frames(c.ordinal, d, c.source_id, last, since);
        assert(frames == was + more);
        seqs::lemma_filter_concat(was, more, of);
        assert(head.contains(last) ==> false) by {
            if head.contains(last) {
                let k = choose|k: int| 0 <= k < head.len() && head[k] == last;
                assert(streams[k] != streams[streams.len() - 1]);
            }
        }
        assert(streams.contains(stream) <==> head.contains(stream) || stream == last) by {
            if head.contains(stream) {
                let k = choose|k: int| 0 <= k < head.len() && head[k] == stream;
                assert(streams[k] == stream);
            }
            if streams.contains(stream) && stream != last {
                let k = choose|k: int| 0 <= k < streams.len() && streams[k] == stream;
                assert(head[k] == stream);
            }
            assert(streams[streams.len() - 1] == last);
        }
        if stream == last {
            assert forall|i: int| 0 <= i < more.len() implies of(#[trigger] more[i]) by {}
            seqs::lemma_filter_all(more, of);
            assert(was.filter(of) + more =~= more);
        } else {
            assert forall|i: int| 0 <= i < more.len() implies !of(#[trigger] more[i]) by {}
            lemma_filter_none(more, of);
            assert(was.filter(of) + Seq::<FrameView>::empty() =~= was.filter(of));
        }
        assert forall|i: int| 0 <= i < frames.len() implies (#[trigger] frames[i]) is Segment by {
            if i < was.len() {
                assert(frames[i] == was[i]);
            } else {
                assert(frames[i] == more[i - was.len()]);
            }
        }
    }
}

/// What opening a source sends, in its parts: a handshake, index entries, segments, clock
/// observations.
proof fn lemma_opening(
    d: DbView,
    s: SourceView,
    ordinal: u32,
    since: Option<i64>,
    stream: Seq<char>,
) -> (parts: (Seq<FrameView>, Seq<FrameView>))
    ensures
        publisher::source_opened(d, s, ordinal, since).1 == seq![publisher::handshake(ordinal, s)]
            + parts.0 + parts.1 + publisher::offset_frames(
            ordinal,
            publisher::offsets_opened(d.clock_of(s.id), since),
        ),
        none_of(parts.0, |f: FrameView| !(f is Index)),
        none_of(parts.1, |f: FrameView| !(f is Segment)),
        parts.1.filter(|f: FrameView| segment_of(f, stream)) == if d.streams_of(s.id).contains(
            stream,
        ) {
            publisher::stream_frames(ordinal, d, s.id, stream, since)
        } else {
            Seq::empty()
        },
{
    let from = publisher::begins_at(since);
    let blank = publisher::unopened(ordinal, s.id, from);
    let (indexed, entries) = publisher::indexes_emitted(blank, d, d.caller_streams(s.id), from);
    lemma_only_entries(blank, d, d.caller_streams(s.id), from);
    exchange::lemma_indexes_announce(blank, d, d.caller_streams(s.id), from);
    let names = d.streams_of(s.id);
    let shipped = publisher::streams_opened(indexed, d, names, since).1;
    exchange::lemma_streams_distinct(d, s.id);
    lemma_streams_opened(indexed, d, names, since, stream);
    (entries, shipped)
}

proof fn lemma_kinds(
    s: Seq<FrameView>,
    keep: spec_fn(FrameView) -> bool,
    other: spec_fn(FrameView) -> bool,
)
    requires
        none_of(s, other),
        forall|f: FrameView| !#[trigger] other(f) ==> !keep(f),
    ensures
        none_of(s, keep),
{
    assert forall|i: int| 0 <= i < s.len() implies !keep(#[trigger] s[i]) by {
        assert(!other(s[i]));
    }
}

/// Opening a source sends its handshake first: its identity, and what it says of itself.
pub proof fn law_opening_begins_with_the_handshake(
    d: DbView,
    s: SourceView,
    ordinal: u32,
    since: Option<i64>,
)
    ensures
        publisher::source_opened(d, s, ordinal, since).1.len() > 0,
        publisher::source_opened(d, s, ordinal, since).1[0] == (FrameView::Handshake {
            source: ordinal,
            uuid: s.uuid,
            labels: s.meta.labels,
            metadata: s.meta.metadata,
            clock_anchor_wall_ns: s.meta.clock_anchor_wall_ns,
            complete: s.complete,
        }),
{
    let parts = lemma_opening(d, s, ordinal, since, Seq::empty());
}

/// Where opening a source catches up from a timestamp, it sends of each stream every
/// segment that ends there or later, in order and as it is, and no other; where it starts
/// at the present it sends none.
pub proof fn law_opening_ships_segments_that_reach_its_start(
    d: DbView,
    s: SourceView,
    ordinal: u32,
    since: Option<i64>,
    stream: Seq<char>,
)
    ensures
        publisher::source_opened(d, s, ordinal, since).1.filter(
            |f: FrameView| segment_of(f, stream),
        ) == (match since {
            Some(t) => d.segments_of(s.id, stream).filter(
                |v: SegmentView| v.meta.last_ts >= t,
            ),
            None => Seq::empty(),
        }).map_values(|v: SegmentView| as_frame(ordinal, stream, v)),
{
    let (entries, shipped) = lemma_opening(d, s, ordinal, since, stream);
    let hello = seq![publisher::handshake(ordinal, s)];
    let offsets = publisher::offset_frames(
        ordinal,
        publisher::offsets_opened(d.clock_of(s.id), since),
    );
    let of = |f: FrameView| segment_of(f, stream);
    lemma_kinds(entries, of, |f: FrameView| !(f is Index));
    assert(none_of(hello, of));
    assert(none_of(offsets, of));
    lemma_filter_middle(hello, entries, shipped, offsets, of);
    lemma_segments_reaching(d, s.id, ordinal, since, stream);
}

/// Where opening a source catches up from a timestamp, it sends every clock observation
/// made there or later, in order, and no other; where it starts at the present it sends
/// none.
pub proof fn law_opening_ships_observations_from_its_start(
    d: DbView,
    s: SourceView,
    ordinal: u32,
    since: Option<i64>,
)
    ensures
        publisher::source_opened(d, s, ordinal, since).1.filter(|f: FrameView| f is ClockOffset)
            == (match since {
            Some(t) => d.clock_of(s.id).filter(|p: (i64, i64)| p.0 >= t),
            None => Seq::empty(),
        }).map_values(
            |p: (i64, i64)| FrameView::ClockOffset { source: ordinal, ts: p.0, offset_ns: p.1 },
        ),
{
    let (entries, shipped) = lemma_opening(d, s, ordinal, since, Seq::empty());
    let hello = seq![publisher::handshake(ordinal, s)];
    let pairs: Seq<(i64, i64)> = match since {
        Some(t) => d.clock_of(s.id).filter(|p: (i64, i64)| p.0 >= t),
        None => Seq::empty(),
    };
    let offsets = publisher::offset_frames(
        ordinal,
        publisher::offsets_opened(d.clock_of(s.id), since),
    );
    let clock = |f: FrameView| f is ClockOffset;
    lemma_kinds(entries, clock, |f: FrameView| !(f is Index));
    lemma_kinds(shipped, clock, |f: FrameView| !(f is Segment));
    assert(none_of(hello, clock));
    lemma_filter_end(hello, entries, shipped, offsets, clock);
    seqs::lemma_filter_all(offsets, clock);
    assert(offsets =~= pairs.map_values(
        |p: (i64, i64)| FrameView::ClockOffset { source: ordinal, ts: p.0, offset_ns: p.1 },
    ));
}

/// Whether a predicate holds of none of a sequence.
pub open spec fn none_of<A>(s: Seq<A>, keep: spec_fn(A) -> bool) -> bool {
    forall|i: int| 0 <= i < s.len() ==> !keep(#[trigger] s[i])
}

proof fn lemma_filter_middle<A>(
    a: Seq<A>,
    b: Seq<A>,
    c: Seq<A>,
    e: Seq<A>,
    keep: spec_fn(A) -> bool,
)
    requires
        none_of(a, keep),
        none_of(b, keep),
        none_of(e, keep),
    ensures
        (a + b + c + e).filter(keep) == c.filter(keep),
{
    lemma_four(a, b, c, e, keep);
    lemma_filter_none(a, keep);
    lemma_filter_none(b, keep);
    lemma_filter_none(e, keep);
    let f = c.filter(keep);
    let none = Seq::<A>::empty();
    assert(none + none =~= none);
    assert(none + f =~= f);
    assert(f + none =~= f);
}

proof fn lemma_filter_end<A>(
    a: Seq<A>,
    b: Seq<A>,
    c: Seq<A>,
    e: Seq<A>,
    keep: spec_fn(A) -> bool,
)
    requires
        none_of(a, keep),
        none_of(b, keep),
        none_of(c, keep),
    ensures
        (a + b + c + e).filter(keep) == e.filter(keep),
{
    lemma_four(a, b, c, e, keep);
    lemma_filter_none(a, keep);
    lemma_filter_none(b, keep);
    lemma_filter_none(c, keep);
    let f = e.filter(keep);
    let none = Seq::<A>::empty();
    assert(none + none =~= none);
    assert(none + f =~= f);
}

proof fn lemma_segments_reaching(
    d: DbView,
    source: i64,
    ordinal: u32,
    since: Option<i64>,
    stream: Seq<char>,
)
    ensures
        ({
            let segments = match since {
                Some(t) => d.segments_of(source, stream).filter(
                    |v: SegmentView| v.meta.last_ts >= t,
                ),
                None => Seq::empty(),
            };
            let frames = segments.map_values(|v: SegmentView| as_frame(ordinal, stream, v));
            &&& publisher::stream_frames(ordinal, d, source, stream, since) == frames
            &&& !d.streams_of(source).contains(stream) ==> frames == Seq::<FrameView>::empty()
        }),
{
    let all = d.segments_of(source, stream);
    if let Some(t) = since {
        let reach = |v: SegmentView| v.meta.last_ts >= t;
        let over = |v: SegmentView| v.meta.last_ts >= t && v.meta.first_ts <= i64::MAX;
        seqs::lemma_filter_same(all, reach, over);
        let frames = all.filter(reach).map_values(|v: SegmentView| as_frame(ordinal, stream, v));
        assert(publisher::stream_frames(ordinal, d, source, stream, since) =~= frames);
        if !d.streams_of(source).contains(stream) {
            db::laws::law_a_stream_is_its_rows(d, source, stream);
            seqs::lemma_filter_shorter(all, reach);
            assert(frames =~= Seq::<FrameView>::empty());
        }
    } else {
        assert(Seq::<SegmentView>::empty().map_values(
            |v: SegmentView| as_frame(ordinal, stream, v),
        ) =~= Seq::<FrameView>::empty());
    }
}

proof fn lemma_four<A>(a: Seq<A>, b: Seq<A>, c: Seq<A>, e: Seq<A>, keep: spec_fn(A) -> bool)
    ensures
        (a + b + c + e).filter(keep) == a.filter(keep) + b.filter(keep) + c.filter(keep)
            + e.filter(keep),
{
    seqs::lemma_filter_concat(a + b + c, e, keep);
    seqs::lemma_filter_concat(a + b, c, keep);
    seqs::lemma_filter_concat(a, b, keep);
}

/// The first poll after catching up, from whatever timestamp, ships the whole tail of
/// every stream.
pub proof fn law_the_first_poll_ships_every_live_row(
    d: DbView,
    source: SourceView,
    ordinal: u32,
    since: i64,
)
    ensures
        ({
            let c = publisher::source_opened(d, source, ordinal, Some(since)).0;
            publisher::polled(c, d).1 matches Ok(frames) && frames.len() > 0 && (
            frames.last() matches FrameView::Rows { rows, seq, .. } && seq == 0
                && rows.to_multiset() == exchange::tails(
                d,
                source.id,
                d.streams_of(source.id),
            ).to_multiset())
        }),
{
    let at = Some(since);
    let all = d.streams_of(source.id);
    let entries = d.caller_streams(source.id);
    let blank = publisher::unopened(ordinal, source.id, since);
    let (indexed, _f) = publisher::indexes_emitted(blank, d, entries, since);
    exchange::lemma_indexes_announce(blank, d, entries, since);
    exchange::lemma_opened_ids(indexed, d, all, at);
    lemma_opened_seq(indexed, d, all, at);
    let c = publisher::source_opened(d, source, ordinal, at).0;
    let ready = publisher::announced(c, d).0;
    exchange::lemma_indexes_announce(c, d, entries, c.since);
    exchange::lemma_streams_distinct(d, source.id);
    assert forall|k: int| 0 <= k < all.len() implies publisher::cursor_at(
        ready.streams,
        #[trigger] all[k],
    ).wal_after == d.watermark(ready.source_id, all[k]) by {
        exchange::lemma_opened_rows(indexed, d, all, at, k);
        exchange::lemma_indexes_keep_rows(c, d, entries, c.since, all[k]);
    }
    exchange::lemma_gather_tails(ready, d, all);
    exchange::law_rows_are_sorted(exchange::tails(d, source.id, all));
}

proof fn lemma_opened_seq(c: CursorView, d: DbView, streams: Seq<Seq<char>>, since: Option<i64>)
    ensures
        publisher::streams_opened(c, d, streams, since).0.seq == c.seq,
    decreases streams.len(),
{
    if streams.len() > 0 {
        lemma_opened_seq(c, d, streams.drop_last(), since);
    }
}

// ------------------------------------------------------------ what a poll ships

/// Whether a stream has been sealed past what has been shipped of it: a segment of it ends
/// after the last row shipped, or there is one where no row was.
pub open spec fn sealed_beyond(c: CursorView, d: DbView, name: Seq<char>) -> bool {
    let shipped = publisher::cursor_at(c.streams, name).wal_after;
    exists|k: int|
        0 <= k < d.segments_of(c.source_id, name).len() && (shipped is None || (
        #[trigger] d.segments_of(c.source_id, name)[k]).meta.last_ts > shipped->0)
}

proof fn lemma_sealed_beyond(c: CursorView, d: DbView, name: Seq<char>)
    ensures
        sealed_beyond(c, d, name) <==> publisher::sealed_past(
            d,
            c.source_id,
            name,
            publisher::cursor_at(c.streams, name).wal_after,
        ) is Some,
{
    let shipped = publisher::cursor_at(c.streams, name).wal_after;
    let segments = d.segments_of(c.source_id, name);
    db::laws::lemma_watermark(segments);
    if sealed_beyond(c, d, name) {
        let k = choose|k: int|
            0 <= k < segments.len() && (shipped is None || (
            #[trigger] segments[k]).meta.last_ts > shipped->0);
        assert(segments[k].meta.last_ts <= model::newest_sealed(segments)->0);
    }
    if publisher::sealed_past(d, c.source_id, name, shipped) is Some {
        let w = model::newest_sealed(segments)->0;
        let k = choose|k: int| 0 <= k < segments.len() && #[trigger] segments[k].meta.last_ts == w;
        assert(segments[k].meta.last_ts == w);
    }
}

proof fn lemma_gathers(c: CursorView, d: DbView, names: Seq<Seq<char>>)
    requires
        forall|i: int, j: int| 0 <= i < j < names.len() ==> names[i] != names[j],
    ensures
        publisher::gathered(c, d, names).refusal is None <==> forall|i: int|
            0 <= i < names.len() ==> !sealed_beyond(c, d, #[trigger] names[i]),
        forall|q: Seq<char>|
            !names.contains(q) ==> #[trigger] publisher::cursor_at(
                publisher::gathered(c, d, names).streams,
                q,
            ) == publisher::cursor_at(c.streams, q),
    decreases names.len(),
{
    if names.len() > 0 {
        let head = names.drop_last();
        let last = names[names.len() - 1];
        lemma_gathers(c, d, head);
        let g = publisher::gathered(c, d, head);
        assert(!head.contains(last)) by {
            if head.contains(last) {
                let k = choose|k: int| 0 <= k < head.len() && head[k] == last;
                assert(names[k] != names[names.len() - 1]);
            }
        }
        assert(publisher::cursor_at(g.streams, last) == publisher::cursor_at(c.streams, last));
        lemma_sealed_beyond(c, d, last);
        if g.refusal is Some {
            let k = choose|k: int|
                0 <= k < head.len() && sealed_beyond(c, d, #[trigger] head[k]);
            assert(names[k] == head[k]);
        } else {
            assert forall|i: int| 0 <= i < head.len() implies !sealed_beyond(
                c,
                d,
                #[trigger] names[i],
            ) by {
                assert(head[i] == names[i]);
            }
            assert(publisher::gathered(c, d, names).refusal is None <==> !sealed_beyond(
                c,
                d,
                last,
            ));
        }
        assert forall|q: Seq<char>| !names.contains(q) implies #[trigger] publisher::cursor_at(
            publisher::gathered(c, d, names).streams,
            q,
        ) == publisher::cursor_at(c.streams, q) by {
            assert(q != last);
            if head.contains(q) {
                let k = choose|k: int| 0 <= k < head.len() && head[k] == q;
                assert(names[k] == q);
            }
            assert(publisher::cursor_at(g.streams, q) == publisher::cursor_at(c.streams, q));
        }
    }
}

/// A poll is refused exactly where a stream of the source has been sealed past what has
/// been shipped of it: rather than ship the stream with a hole, it says so.
pub proof fn law_a_poll_is_refused_at_a_hole(c: CursorView, d: DbView)
    ensures
        publisher::polled(c, d).1 is Err <==> exists|i: int|
            0 <= i < d.streams_of(c.source_id).len() && sealed_beyond(
                c,
                d,
                #[trigger] d.streams_of(c.source_id)[i],
            ),
{
    let names = d.streams_of(c.source_id);
    let ready = publisher::announced(c, d).0;
    let entries = d.caller_streams(c.source_id);
    exchange::lemma_indexes_announce(c, d, entries, c.since);
    exchange::lemma_streams_distinct(d, c.source_id);
    lemma_gathers(ready, d, names);
    assert forall|i: int| 0 <= i < names.len() implies sealed_beyond(
        ready,
        d,
        #[trigger] names[i],
    ) == sealed_beyond(c, d, names[i]) by {
        exchange::lemma_indexes_keep_rows(c, d, entries, c.since, names[i]);
    }
}

/// A poll ships the live rows that are newer than what has been shipped of their streams,
/// each of them and no other, in order of their timestamps and then of their streams'
/// names.
pub proof fn law_a_poll_ships_what_is_new(c: CursorView, d: DbView)
    requires
        d.wf(),
        publisher::polled(c, d).1 is Ok,
    ensures
        ({
            let rows = publisher::polled(c, d).1->Ok_0.last()->Rows_rows;
            &&& forall|r: WalView| #[trigger]
                rows.contains(r) <==> {
                    let shipped = publisher::cursor_at(c.streams, r.stream).wal_after;
                    &&& d.live_of(c.source_id, r.stream).contains(r)
                    &&& shipped is None || r.ts > shipped->0
                }
            &&& forall|i: int, j: int|
                0 <= i < j < rows.len() ==> (#[trigger] rows[i]).ts < (#[trigger] rows[j]).ts || (
                rows[i].ts == rows[j].ts && !text::text_less(rows[j].stream, rows[i].stream))
        }),
{
    exchange::law_a_poll_ships_each_row_once(c, d, d);
    let ready = publisher::announced(c, d).0;
    let g = publisher::gathered(ready, d, d.streams_of(c.source_id));
    exchange::law_rows_are_sorted(g.rows);
    let rows = publisher::polled(c, d).1->Ok_0.last()->Rows_rows;
    assert(rows == publisher::by_time(g.rows));
    assert forall|r: WalView| #[trigger]
        rows.contains(r) <==> ({
            let shipped = publisher::cursor_at(c.streams, r.stream).wal_after;
            &&& d.live_of(c.source_id, r.stream).contains(r)
            &&& shipped is None || r.ts > shipped->0
        }) by {
        assert(rows.contains(r) <==> exchange::unshipped(c, d, r));
    }
    assert forall|i: int, j: int| 0 <= i < j < rows.len() implies (#[trigger] rows[i]).ts < (
    #[trigger] rows[j]).ts || (rows[i].ts == rows[j].ts && !text::text_less(
        rows[j].stream,
        rows[i].stream,
    )) by {
        assert(!publisher::row_before(rows[j], rows[i]));
    }
}

/// A poll ships the clock observations that are newer than the last one shipped and not
/// from before publishing began, in order: each of them and no other.
pub proof fn law_a_poll_ships_new_observations(c: CursorView, d: DbView)
    requires
        publisher::polled(c, d).1 is Ok,
    ensures
        publisher::polled(c, d).1->Ok_0.filter(|f: FrameView| f is ClockOffset) == d.clock_of(
            c.source_id,
        ).filter(
            |p: (i64, i64)|
                p.0 >= c.since && (c.clock_after is None || p.0 > c.clock_after->0),
        ).map_values(
            |p: (i64, i64)| FrameView::ClockOffset { source: c.ordinal, ts: p.0, offset_ns: p.1 },
        ),
{
    let (ready, head) = publisher::announced(c, d);
    let frames = publisher::polled(c, d).1->Ok_0;
    let entries = publisher::indexes_emitted(
        c,
        d,
        d.caller_streams(c.source_id),
        c.since,
    ).1;
    lemma_only_entries(c, d, d.caller_streams(c.source_id), c.since);
    let pairs = d.clock_of(c.source_id);
    let new = |p: (i64, i64)| p.0 >= c.since && (c.clock_after is None || p.0 > c.clock_after->0);
    let past = |p: (i64, i64)| model::past(c.clock_after, p.0) && p.0 >= c.since;
    seqs::lemma_filter_same(pairs, new, past);
    let offsets = publisher::offset_frames(
        c.ordinal,
        publisher::offsets_past(pairs, c.clock_after, c.since),
    );
    let clock = |f: FrameView| f is ClockOffset;
    assert(head == entries + offsets);
    let last = frames.last();
    assert(frames == head.push(last));
    assert(frames =~= entries + offsets + seq![last]);
    seqs::lemma_filter_concat(entries + offsets, seq![last], clock);
    seqs::lemma_filter_concat(entries, offsets, clock);
    lemma_filter_none(entries, clock);
    assert forall|i: int| 0 <= i < offsets.len() implies clock(#[trigger] offsets[i]) by {}
    seqs::lemma_filter_all(offsets, clock);
    seqs::lemma_filter_single(last, clock);
    assert(last is Rows);
    assert(frames.filter(clock) =~= offsets);
    assert(offsets =~= pairs.filter(new).map_values(
        |p: (i64, i64)| FrameView::ClockOffset { source: c.ordinal, ts: p.0, offset_ns: p.1 },
    ));
}

// ------------------------------------------------------------ what a subscriber does

/// A handshake opens its source under its ordinal, with what it says of the source. Any
/// other frame is refused exactly where no handshake has introduced its ordinal.
pub proof fn law_a_source_is_introduced_by_its_handshake(s: States, f: FrameView)
    ensures
        subscriber::planned(s, f).1 is Err <==> !(f is Handshake) && subscriber::state_of(
            s,
            f.ordinal(),
        ) is None,
        f matches FrameView::Handshake {
            source,
            uuid,
            labels,
            metadata,
            clock_anchor_wall_ns,
            complete,
        } ==> subscriber::planned(s, f) == (
            s,
            Ok::<StepView, ErrorView>(
                StepView::Open {
                    ordinal: source,
                    seed: SourceMetaView { labels, metadata, clock_anchor_wall_ns },
                    uuid,
                    complete,
                },
            ),
        ),
{
}

/// A frame of rows is written where its rows can be attributed: the index they were built
/// against is the one held, and that is none or has come whole. Otherwise its rows are
/// counted as skipped and none is written. A gap shows exactly where a number was passed
/// over, and the number is remembered either way, and nothing else.
pub proof fn law_rows_are_written_where_their_index_is_held(
    s: States,
    ordinal: u32,
    seq: u64,
    index_state: (u64, u64),
    rows: Seq<WalView>,
    other: u32,
)
    requires
        subscriber::in_ordinal_order(s),
        subscriber::state_of(s, ordinal) is Some,
        rows.len() <= usize::MAX,
    ensures
        ({
            let st = subscriber::state_of(s, ordinal)->0;
            let f = FrameView::Rows { source: ordinal, seq, index_state, rows };
            let (n, r) = subscriber::planned(s, f);
            let held = index_state == st.index_state && (index_state == NO_INDEX_STATE
                || st.seen_full);
            let gap = st.last_seq is Some && seq > st.last_seq->0 + 1;
            &&& r is Ok
            &&& held && rows.len() > 0 ==> (r->Ok_0 matches StepView::Write {
                source_id,
                rows: w,
                applied,
            } && source_id == st.source_id && w == rows && applied.rows == rows.len()
                && applied.rows_skipped == 0 && applied.gap == gap)
            &&& held && rows.len() == 0 ==> (r->Ok_0 matches StepView::Nothing(applied)
                && applied.rows == 0 && applied.rows_skipped == 0 && applied.gap == gap)
            &&& !held ==> (r->Ok_0 matches StepView::Nothing(applied) && applied.rows == 0
                && applied.rows_skipped == rows.len() && applied.gap == gap)
            &&& subscriber::state_of(n, ordinal) == Some(
                SourceState { last_seq: Some(seq), ..st },
            )
            &&& other != ordinal ==> subscriber::state_of(n, other) == subscriber::state_of(
                s,
                other,
            )
        }),
{
    let st = subscriber::state_of(s, ordinal)->0;
    let now = SourceState { last_seq: Some(seq), ..st };
    subscriber::lemma_state_of_with(s, ordinal, now, ordinal);
    subscriber::lemma_state_of_with(s, ordinal, now, other);
}

/// An entry of an index is kept as it came, and the state that it declares is held from
/// there on; the set counts as whole once a whole one has come, and from there on.
pub proof fn law_an_entry_declares_the_state_held(
    s: States,
    ordinal: u32,
    kind: IndexKind,
    state: (u64, u64),
    other: u32,
)
    requires
        subscriber::in_ordinal_order(s),
        subscriber::state_of(s, ordinal) is Some,
    ensures
        ({
            let st = subscriber::state_of(s, ordinal)->0;
            let n = subscriber::after_entry(s, ordinal, kind, state);
            &&& subscriber::state_of(n, ordinal) matches Some(t) && {
                &&& t.index_state == state
                &&& t.seen_full <==> st.seen_full || kind == IndexKind::Full
                &&& t.source_id == st.source_id
                &&& t.last_seq == st.last_seq
                &&& t.complete == st.complete
                &&& t.last_offset == st.last_offset
            }
            &&& other != ordinal ==> subscriber::state_of(n, other) == subscriber::state_of(
                s,
                other,
            )
        }),
{
    let st = subscriber::state_of(s, ordinal)->0;
    let now = SourceState {
        index_state: state,
        seen_full: st.seen_full || kind == IndexKind::Full,
        ..st
    };
    subscriber::lemma_state_of_with(s, ordinal, now, ordinal);
    subscriber::lemma_state_of_with(s, ordinal, now, other);
}

/// A clock observation that was recorded is the one that its source ends at, until
/// another comes; nothing else that is remembered changes.
pub proof fn law_the_last_observation_is_remembered(
    s: States,
    ordinal: u32,
    ts: i64,
    offset_ns: i64,
    other: u32,
)
    requires
        subscriber::in_ordinal_order(s),
        subscriber::state_of(s, ordinal) is Some,
    ensures
        ({
            let st = subscriber::state_of(s, ordinal)->0;
            let n = subscriber::after_offset(s, ordinal, ts, offset_ns);
            &&& subscriber::state_of(n, ordinal) matches Some(t) && {
                &&& t.last_offset == Some((ts, offset_ns))
                &&& t.index_state == st.index_state
                &&& t.seen_full == st.seen_full
                &&& t.source_id == st.source_id
                &&& t.last_seq == st.last_seq
                &&& t.complete == st.complete
            }
            &&& other != ordinal ==> subscriber::state_of(n, other) == subscriber::state_of(
                s,
                other,
            )
        }),
{
    let st = subscriber::state_of(s, ordinal)->0;
    let now = SourceState { last_offset: Some((ts, offset_ns)), ..st };
    subscriber::lemma_state_of_with(s, ordinal, now, ordinal);
    subscriber::lemma_state_of_with(s, ordinal, now, other);
}

/// Every other frame of a source that is known leads to one step of that source's, with
/// what the frame brought, and is remembered only once that is done.
pub proof fn law_a_frame_leads_to_its_own_step(s: States, f: FrameView)
    requires
        subscriber::state_of(s, f.ordinal()) is Some,
        f is Index || f is Segment || f is ClockOffset || f is StreamSummary,
    ensures
        ({
            let id = subscriber::state_of(s, f.ordinal())->0.source_id;
            &&& subscriber::planned(s, f).0 == s
            &&& subscriber::planned(s, f).1 == Ok::<StepView, ErrorView>(
                match f {
                    FrameView::Index { source, stream, ts, kind, state, blob } => StepView::Keep {
                        ordinal: source,
                        source_id: id,
                        stream,
                        row: CallerView { ts, blob },
                        kind,
                        state,
                    },
                    FrameView::Segment { source, stream, meta, bytes, caller_index } => {
                        StepView::Adopt { source_id: id, stream, meta, bytes, caller_index }
                    },
                    FrameView::ClockOffset { source, ts, offset_ns } => StepView::Observe {
                        ordinal: source,
                        source_id: id,
                        ts,
                        offset_ns,
                    },
                    FrameView::StreamSummary { source, stream, as_of_ts, blob } => {
                        StepView::Summarize {
                            source_id: id,
                            stream,
                            as_of_ts,
                            blob,
                            applied: Applied { stream_summaries: 1, ..subscriber::nothing() },
                        }
                    },
                    _ => StepView::Nothing(subscriber::nothing()),
                },
            )
        }),
{
}

/// The sources to finalize at the end are those whose publisher's was complete, each in
/// its turn and at the last clock observation that came of it.
pub proof fn law_complete_sources_are_finished(s: States)
    ensures
        subscriber::finishing(s) == s.filter(|p: (u32, SourceState)| p.1.complete).map_values(
            |p: (u32, SourceState)|
                (
                    p.1.source_id,
                    if p.1.last_offset is Some {
                        p.1.last_offset->0
                    } else {
                        (0i64, 0i64)
                    },
                ),
        ),
    decreases s.len(),
{
    reveal(Seq::filter);
    let done = |p: (u32, SourceState)| p.1.complete;
    let end = |p: (u32, SourceState)|
        (
            p.1.source_id,
            if p.1.last_offset is Some {
                p.1.last_offset->0
            } else {
                (0i64, 0i64)
            },
        );
    if s.len() == 0 {
        assert(subscriber::finishing(s) =~= s.filter(done).map_values(end));
    } else {
        law_complete_sources_are_finished(s.drop_last());
        let head = s.drop_last().filter(done);
        if done(s.last()) {
            assert(head.push(s.last()).map_values(end) =~= head.map_values(end).push(
                end(s.last()),
            ));
        }
    }
}

/// Finishing goes through wherever the archive can be written and every source of it is
/// there: each of the sources is complete then, and no row or segment has changed.
pub proof fn law_a_replica_finishes_every_source(d: DbView, sources: Seq<(i64, (i64, i64))>)
    requires
        d.wf(),
        !d.read_only,
        !d.legacy,
        forall|k: int| 0 <= k < sources.len() ==> d.has_source((#[trigger] sources[k]).0),
    ensures
        ({
            let (n, refusal) = replica::finished(d, sources);
            &&& refusal is None
            &&& n.wf()
            &&& n.segments == d.segments
            &&& n.wal == d.wal
            &&& n.caller_rows == d.caller_rows
            &&& !n.read_only
            &&& !n.legacy
            &&& forall|o: i64| d.has_source(o) ==> #[trigger] n.has_source(o)
            &&& forall|k: int|
                0 <= k < sources.len() ==> completed(n, (#[trigger] sources[k]).0)
        }),
    decreases sources.len(),
{
    if sources.len() > 0 {
        let head = sources.drop_last();
        let (id, at) = sources.last();
        assert forall|k: int| 0 <= k < head.len() implies d.has_source(
            (#[trigger] head[k]).0,
        ) by {
            assert(head[k] == sources[k]);
        }
        law_a_replica_finishes_every_source(d, head);
        let was = replica::finished(d, head).0;
        assert(d.has_source(sources[sources.len() - 1].0));
        assert(was.has_source(id));
        let c = db::records::ClockAt { source_id: id, ts: at.0, offset_ns: at.1 };
        facts::law_the_first_observation_of_a_moment_stays(was, c);
        let m = was.clock_inserted(c)->Ok_0;
        if m != was {
            db::table::lemma_placed_in_order::<db::records::ClockAt>(was.clock_offsets, c);
        }
        assert(m.wf());
        assert(m.has_source(id));
        facts::law_marking_a_source_changes_nothing_else(m, id, true);
        let n = m.with_complete(id, true);
        assert(n == replica::finished(d, sources).0);
        assert forall|o: i64| d.has_source(o) implies #[trigger] n.has_source(o) by {
            assert(was.has_source(o));
            assert(m.has_source(o));
            if o != id {
                assert(n.source(o) == m.source(o));
            }
        }
        assert forall|k: int| 0 <= k < sources.len() implies completed(
            n,
            (#[trigger] sources[k]).0,
        ) by {
            if k < head.len() {
                assert(head[k] == sources[k]);
                assert(completed(was, head[k].0));
                assert(m.source(head[k].0) == was.source(head[k].0));
            }
        }
    }
}

/// Whether a source is there and complete.
pub open spec fn completed(d: DbView, source: i64) -> bool {
    d.source(source) matches Some(s) && s.complete
}

// ------------------------------------------------------------ what a replica keeps

/// What the rows of a frame come to in a replica. Those newer than every segment of their
/// stream are written, all of them, or none where one of them is there already; an older
/// one is not, since no reader would see it.
pub proof fn law_a_replica_writes_rows_past_its_segments(
    d: DbView,
    source: i64,
    rows: Seq<WalView>,
)
    ensures
        ({
            let new = rows.filter(
                |r: WalView|
                    forall|k: int|
                        0 <= k < d.segments_of(source, r.stream).len() ==> (
                        #[trigger] d.segments_of(source, r.stream)[k]).meta.last_ts < r.ts,
            );
            replica::rows_written(d, source, rows) == if d.wal_run(source, new).1 is None {
                d.wal_run(source, new).0
            } else {
                d
            }
        }),
{
    let past = |r: WalView| model::past(d.watermark(source, r.stream), r.ts);
    let new = |r: WalView|
        forall|k: int|
            0 <= k < d.segments_of(source, r.stream).len() ==> (#[trigger] d.segments_of(
                source,
                r.stream,
            )[k]).meta.last_ts < r.ts;
    assert forall|i: int| 0 <= i < rows.len() implies past(#[trigger] rows[i]) == new(rows[i]) by {
        let r = rows[i];
        let segments = d.segments_of(source, r.stream);
        db::laws::lemma_watermark(segments);
        let w = d.watermark(source, r.stream);
        if w is Some {
            let k = choose|k: int|
                0 <= k < segments.len() && #[trigger] segments[k].meta.last_ts == w->0;
            assert(segments[k].meta.last_ts == w->0);
            assert forall|k: int| 0 <= k < segments.len() && r.ts > w->0 implies (
            #[trigger] segments[k]).meta.last_ts < r.ts by {
                assert(segments[k].meta.last_ts <= w->0);
            }
        }
    }
    seqs::lemma_filter_same(rows, past, new);
}

/// A replica adopts a segment exactly where it ends after every segment of its stream, as
/// it came and as the stream's last, under the number after the last one's; otherwise the
/// archive is as it was.
pub proof fn law_a_replica_adopts_what_it_has_not(
    d: DbView,
    source: i64,
    stream: Seq<char>,
    meta: SegmentMeta,
    bytes: Seq<u8>,
    caller_index: Option<Seq<u8>>,
)
    requires
        d.wf(),
        d.has_source(source),
        forall|k: int|
            0 <= k < d.segments_of(source, stream).len() ==> (#[trigger] d.segments_of(
                source,
                stream,
            )[k]).seq < u64::MAX,
    ensures
        ({
            let was = d.segments_of(source, stream);
            let newer = forall|k: int|
                0 <= k < was.len() ==> (#[trigger] was[k]).meta.last_ts < meta.last_ts;
            replica::segment_adopted(d, source, stream, meta, bytes, caller_index) matches Ok(x)
                && x.1 == newer && (!newer ==> x.0 == d) && (newer ==> x.0.segments_of(
                source,
                stream,
            ) == was.push(
                SegmentView {
                    seq: if was.len() == 0 {
                        0
                    } else {
                        (was.last().seq + 1) as u64
                    },
                    meta,
                    bytes,
                    caller_index,
                },
            ))
        }),
{
    let was = d.segments_of(source, stream);
    let w = d.watermark(source, stream);
    db::laws::lemma_watermark(was);
    if w is Some {
        let k = choose|k: int| 0 <= k < was.len() && #[trigger] was[k].meta.last_ts == w->0;
        assert(was[k].meta.last_ts == w->0);
        assert forall|k: int| 0 <= k < was.len() && meta.last_ts > w->0 implies (
        #[trigger] was[k]).meta.last_ts < meta.last_ts by {
            assert(was[k].meta.last_ts <= w->0);
        }
    }
    facts::law_the_next_number_is_past_every_other(d, source, stream);
    let seq = run::seeded_number(d, source, stream);
    if was.len() > 0 {
        assert(was[was.len() - 1] == was.last());
    }
    sealing::lemma_no_segment_held(d, source, stream, seq);
    if model::past(w, meta.last_ts) {
        let at = db::records::SegmentAtView {
            source_id: source,
            stream,
            row: SegmentView { seq, meta, bytes, caller_index },
        };
        db::laws::lemma_segment_appended(d, at);
    }
}

/// A writer over an archive, with certain next numbers.
pub open spec fn writer_over(d: DbView, next: seal::Numbers) -> WriterView {
    WriterView {
        db: d,
        next_seq: next,
        floors: Map::empty(),
        watermarks: Map::empty(),
        added: 0,
        finalized: 0,
        health: HealthView {
            dropped: 0,
            shadowed: Map::empty(),
            warned_collisions: Map::empty(),
            warned_floors: Map::empty(),
            warned_shadowed: Map::empty(),
            notes: Seq::empty(),
        },
    }
}

/// A replica's seal seals every stream it is asked to: where the encoder makes a segment of
/// a stream's live rows, the stream has that segment afterwards, behind those it had and
/// under the number after the last one's, and its rows up to the segment's newest are live
/// no more.
pub proof fn law_a_replica_seals_every_stream<E: SegmentEncoder>(
    d: DbView,
    source: i64,
    streams: Seq<Seq<char>>,
    encoder: E,
    i: int,
    s: SealedView,
)
    requires
        d.wf(),
        replica::source_sealed(d, source, streams, encoder) is Ok,
        0 <= i < streams.len(),
        d.live_of(source, streams[i]).len() > 0,
        encoder.encoded(streams[i], d.live_of(source, streams[i])) == Encoding::Ok(Some(s)),
        forall|k: int|
            0 <= k < d.segments_of(source, streams[i]).len() ==> (#[trigger] d.segments_of(
                source,
                streams[i],
            )[k]).seq < u64::MAX,
    ensures
        ({
            let n = replica::source_sealed(d, source, streams, encoder)->Ok_0;
            let was = d.segments_of(source, streams[i]);
            &&& n.segments_of(source, streams[i]) == was.push(
                sealing::segment_row(
                    s,
                    if was.len() == 0 {
                        0
                    } else {
                        (was.last().seq + 1) as u64
                    },
                ),
            )
            &&& n.live_of(source, streams[i]) == d.live_of(source, streams[i]).filter(
                |r: WalView| r.ts > s.last_ts,
            )
        }),
{
    let none: (seal::Numbers, writer::tick::Marks) = (Map::empty(), Map::empty());
    let sealed = d.sealed_streams(source);
    let next = run::source_seeded(d, source, sealed, none).0;
    let w = writer_over(d, next);
    let key = (source, streams[i]);
    writer::laws::lemma_source_seeded(d, source, sealed, none, key);
    sealing::law_a_seal_seals_every_stream(w, source, streams, encoder, i, s);
    let was = d.segments_of(source, streams[i]);
    facts::law_the_next_number_is_past_every_other(d, source, streams[i]);
    if was.len() > 0 {
        assert(was[was.len() - 1] == was.last());
        writer::laws::lemma_sealed_stream(d, source, streams[i]);
        assert(next.dom().contains(key));
        assert(next[key] == run::seeded_number(d, source, streams[i]));
    } else {
        assert(next.dom().contains(key) ==> next[key] == run::seeded_number(
            d,
            source,
            streams[i],
        ));
    }
}

/// What frames came to is what each came to, added up, and a gap shows where any of them
/// showed one.
pub proof fn law_what_frames_came_to_adds_up(a: Applied, b: Applied)
    requires
        a.rows + b.rows <= usize::MAX,
        a.rows_skipped + b.rows_skipped <= usize::MAX,
        a.segments + b.segments <= usize::MAX,
        a.segments_held + b.segments_held <= usize::MAX,
        a.index_entries + b.index_entries <= usize::MAX,
        a.clock_offsets + b.clock_offsets <= usize::MAX,
        a.stream_summaries + b.stream_summaries <= usize::MAX,
        a.sources + b.sources <= usize::MAX,
    ensures
        ({
            let c = subscriber::both(a, b);
            &&& c.rows == a.rows + b.rows
            &&& c.rows_skipped == a.rows_skipped + b.rows_skipped
            &&& c.segments == a.segments + b.segments
            &&& c.segments_held == a.segments_held + b.segments_held
            &&& c.index_entries == a.index_entries + b.index_entries
            &&& c.clock_offsets == a.clock_offsets + b.clock_offsets
            &&& c.stream_summaries == a.stream_summaries + b.stream_summaries
            &&& c.sources == a.sources + b.sources
            &&& c.gap == (a.gap || b.gap)
        }),
{
}


/// A replica that is asked to seal streams of a source it does not know refuses. A seal
/// that fails on what can clear is deferred: nothing is refused and nothing changes. One
/// that fails otherwise is refused, and changes nothing either.
pub proof fn law_a_replica_defers_what_can_clear<E: SegmentEncoder>(
    v: replica::ReplicaView,
    ordinal: u32,
    streams: Seq<Seq<char>>,
    encoder: E,
)
    ensures
        ({
            let (n, refusal) = replica::streams_sealed(v, ordinal, streams, encoder);
            let st = subscriber::state_of(v.states, ordinal);
            &&& st is None ==> n == v && refusal is Some
            &&& st is Some && streams.len() == 0 ==> n == v && refusal is None
            &&& n.states == v.states
            &&& st is Some && streams.len() > 0 ==> match replica::source_sealed(
                v.db,
                st->0.source_id,
                streams,
                encoder,
            ) {
                Ok(d) => n.db == d && refusal is None,
                Err(e) => n == v && (refusal is None <==> crate::error::retryable(e)) && (
                refusal is Some ==> refusal == Some(e)),
            }
        }),
{
}

} // verus!
