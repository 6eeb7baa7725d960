//! Replication loses nothing: what a publisher's archive holds, a replica that
//! starts from nothing holds too.

use vstd::prelude::*;

use super::exchange;
use super::frame::{FrameView, IndexKind};
use super::publisher;
use super::publisher::CursorView;
use super::replica;
use super::replica::ReplicaView;
use super::subscriber;
use super::subscriber::{Applied, SourceState};
use crate::db::laws;
use crate::db::model;
use crate::db::model::DbView;
use crate::db::records::{
    CallerAt, CallerAtView, ClockAt, SegmentAt, SegmentAtView, WalAt, WalAtView,
};
use crate::db::table;
use crate::db::table::{Key, Keyed};
use crate::db::{CallerView, SegmentView, SourceView, WalView};
use crate::error::ErrorView;
use crate::names;
use crate::read;
use crate::rewrite;
use crate::segment::SegmentEncoder;
use crate::seqs;
use crate::text;
use crate::writer::run;

verus! {

// ------------------------------------------------------------ one row more

/// A caller's row that is not older than any of its stream comes last.
pub proof fn lemma_caller_appended(d: DbView, c: CallerAtView)
    requires
        d.wf(),
        d.has_source(c.source_id),
        forall|i: int|
            0 <= i < d.callers_of(c.source_id, c.stream).len() ==> (#[trigger] d.callers_of(
                c.source_id,
                c.stream,
            )[i]).ts <= c.row.ts,
    ensures
        d.caller_inserted(c) is Ok,
        ({
            let n = d.caller_inserted(c)->Ok_0;
            &&& n.wf()
            &&& n == (DbView { caller_rows: n.caller_rows, ..d })
            &&& n.callers_of(c.source_id, c.stream) == d.callers_of(c.source_id, c.stream).push(
                c.row,
            )
            &&& forall|s: i64, st: Seq<char>|
                !(s == c.source_id && st == c.stream) ==> #[trigger] n.callers_of(s, st)
                    == d.callers_of(s, st)
        }),
{
    let n = d.caller_inserted(c)->Ok_0;
    table::lemma_placed_in_order::<CallerAt>(d.caller_rows, c);
    assert forall|s: i64, st: Seq<char>|
        !(s == c.source_id && st == c.stream) implies #[trigger] n.callers_of(s, st)
        == d.callers_of(s, st) by {
        let here = |v: CallerAtView| table::within::<CallerAt>(v, s as int, Some(st));
        table::lemma_filter_placed::<CallerAt>(d.caller_rows, c, here);
    }
    let here = |v: CallerAtView|
        table::within::<CallerAt>(v, c.source_id as int, Some(c.stream));
    table::lemma_filter_placed::<CallerAt>(d.caller_rows, c, here);
    table::lemma_filter_in_order::<CallerAt>(d.caller_rows, here);
    let t = d.caller_rows.filter(here);
    table::lemma_place::<CallerAt>(t, c);
    let p = table::place_of::<CallerAt>(t, c);
    let was = d.callers_of(c.source_id, c.stream);
    if p < t.len() {
        assert(here(t[p]));
        assert(was[p] == t[p].row);
    }
    assert(n.callers_of(c.source_id, c.stream) =~= was.push(c.row));
}

/// A clock observation newer than any of its source comes last.
pub proof fn lemma_clock_appended(d: DbView, c: ClockAt)
    requires
        d.wf(),
        d.has_source(c.source_id),
        forall|i: int|
            0 <= i < d.clock_of(c.source_id).len() ==> (#[trigger] d.clock_of(c.source_id)[i]).0
                < c.ts,
    ensures
        d.clock_inserted(c) is Ok,
        ({
            let n = d.clock_inserted(c)->Ok_0;
            &&& n.wf()
            &&& n == (DbView { clock_offsets: n.clock_offsets, ..d })
            &&& n.clock_of(c.source_id) == d.clock_of(c.source_id).push((c.ts, c.offset_ns))
        }),
{
    let here = |v: ClockAt| table::within::<ClockAt>(v, c.source_id as int, None);
    let t = d.clock_offsets.filter(here);
    let was = d.clock_of(c.source_id);
    let k = Key { source: c.source_id as int, stream: Seq::empty(), at: c.ts as int };
    if table::holds::<ClockAt>(d.clock_offsets, k) {
        let i = choose|i: int|
            0 <= i < d.clock_offsets.len() && ClockAt::key_of(#[trigger] d.clock_offsets[i]) == k;
        seqs::lemma_filter_keeps(d.clock_offsets, here, i);
        let m = choose|m: int| 0 <= m < t.len() && t[m] == d.clock_offsets[i];
        assert(was[m].0 == c.ts);
    }
    let n = d.clock_inserted(c)->Ok_0;
    table::lemma_placed_in_order::<ClockAt>(d.clock_offsets, c);
    table::lemma_filter_placed::<ClockAt>(d.clock_offsets, c, here);
    table::lemma_filter_in_order::<ClockAt>(d.clock_offsets, here);
    table::lemma_place::<ClockAt>(t, c);
    let p = table::place_of::<ClockAt>(t, c);
    if p < t.len() {
        assert(here(t[p]));
        assert(was[p].0 == t[p].ts);
    }
    assert(n.clock_of(c.source_id) =~= was.push((c.ts, c.offset_ns)));
}

// ------------------------------------------------------------ applying part by part

/// Whether a replica can go on with a source under an ordinal.
pub open spec fn ready(v: ReplicaView, ordinal: u32, id: i64) -> bool {
    &&& v.db.wf()
    &&& v.db.writable()
    &&& v.db.has_source(id)
    &&& subscriber::in_ordinal_order(v.states)
    &&& subscriber::state_of(v.states, ordinal) matches Some(st) && st.source_id == id
}

proof fn lemma_applied_more(v: ReplicaView, a: Seq<FrameView>, b: Seq<FrameView>)
    requires
        replica::all_applied(v, a).1 is Ok,
    ensures
        replica::all_applied(v, a + b).0 == replica::all_applied(
            replica::all_applied(v, a).0,
            b,
        ).0,
        replica::all_applied(v, a + b).1 is Ok <==> replica::all_applied(
            replica::all_applied(v, a).0,
            b,
        ).1 is Ok,
    decreases b.len(),
{
    if b.len() == 0 {
        assert(a + b =~= a);
    } else {
        lemma_applied_more(v, a, b.drop_last());
        assert((a + b).drop_last() =~= a + b.drop_last());
        assert((a + b).last() == b.last());
    }
}

/// Whether no frame opens a source.
pub open spec fn no_handshake(frames: Seq<FrameView>) -> bool {
    forall|i: int| 0 <= i < frames.len() ==> !(#[trigger] frames[i] is Handshake)
}

proof fn lemma_states_follow(v: ReplicaView, frames: Seq<FrameView>, ids: spec_fn(u32) -> i64)
    requires
        no_handshake(frames),
        replica::all_applied(v, frames).1 is Ok,
    ensures
        replica::all_applied(v, frames).0.states == exchange::followed(v.states, frames, ids),
    decreases frames.len(),
{
    if frames.len() > 0 {
        let head = frames.drop_last();
        assert forall|i: int| 0 <= i < head.len() implies !(#[trigger] head[i] is Handshake) by {
            assert(head[i] == frames[i]);
        }
        lemma_states_follow(v, head, ids);
        assert(!(frames[frames.len() - 1] is Handshake));
    }
}

// ------------------------------------------------------------ index entries

/// Whether rows are by timestamp.
pub open spec fn by_time(rows: Seq<CallerView>) -> bool {
    forall|i: int, j: int|
        0 <= i < j < rows.len() ==> (#[trigger] rows[i]).ts <= (#[trigger] rows[j]).ts
}

/// What keeping entries leaves: only the caller's rows of one stream are other.
pub open spec fn entries_in(
    v: ReplicaView,
    n: ReplicaView,
    ordinal: u32,
    id: i64,
    stream: Seq<char>,
) -> bool {
    &&& ready(n, ordinal, id)
    &&& n.db == (DbView { caller_rows: n.db.caller_rows, ..v.db })
    &&& n.summaries == v.summaries
    &&& forall|s: i64, st: Seq<char>|
        !(s == id && st == stream) ==> #[trigger] n.db.callers_of(s, st) == v.db.callers_of(s, st)
}

proof fn lemma_entries_applied(
    v: ReplicaView,
    c: CursorView,
    id: i64,
    stream: Seq<char>,
    rows: Seq<CallerView>,
)
    requires
        ready(v, c.ordinal, id),
        v.db.callers_of(id, stream).len() == 0,
        by_time(rows),
    ensures
        ({
            let (n, r) = replica::all_applied(v, publisher::index_run(c, stream, rows).frames);
            &&& r is Ok
            &&& entries_in(v, n, c.ordinal, id, stream)
            &&& n.db.callers_of(id, stream) == rows
        }),
    decreases rows.len(),
{
    let frames = publisher::index_run(c, stream, rows).frames;
    if rows.len() == 0 {
        assert(v.db.callers_of(id, stream) =~= rows);
    } else {
        let head = rows.drop_last();
        assert(by_time(head)) by {
            assert forall|i: int, j: int| 0 <= i < j < head.len() implies (#[trigger] head[i]).ts
                <= (#[trigger] head[j]).ts by {
                assert(rows[i].ts <= rows[j].ts);
            }
        }
        lemma_entries_applied(v, c, id, stream, head);
        let before = publisher::index_run(c, stream, head).frames;
        assert(frames.drop_last() =~= before);
        let was = replica::all_applied(v, before).0;
        let n = replica::all_applied(v, frames).0;
        let at = CallerAtView { source_id: id, stream, row: rows.last() };
        assert forall|i: int| 0 <= i < was.db.callers_of(id, stream).len() implies (
        #[trigger] was.db.callers_of(id, stream)[i]).ts <= at.row.ts by {
            assert(rows[i].ts <= rows[rows.len() - 1].ts);
        }
        lemma_caller_appended(was.db, at);
        let f = frames.last();
        let st = subscriber::state_of(was.states, c.ordinal)->0;
        let next = SourceState {
            index_state: f->Index_state,
            seen_full: st.seen_full || f->Index_kind == IndexKind::Full,
            ..st
        };
        exchange::lemma_remembered(was.states, c.ordinal, next);
        assert(head.push(rows.last()) =~= rows);
        assert forall|s: i64, o: Seq<char>|
            !(s == id && o == stream) implies #[trigger] n.db.callers_of(s, o)
            == v.db.callers_of(s, o) by {
            assert(was.db.callers_of(s, o) == v.db.callers_of(s, o));
        }
    }
}

/// What keeping the entries of streams leaves.
pub open spec fn series_in(
    v: ReplicaView,
    n: ReplicaView,
    ordinal: u32,
    id: i64,
    d: DbView,
    source: i64,
    streams: Seq<Seq<char>>,
) -> bool {
    &&& ready(n, ordinal, id)
    &&& n.db == (DbView { caller_rows: n.db.caller_rows, ..v.db })
    &&& n.summaries == v.summaries
    &&& forall|s: i64, st: Seq<char>|
        !(s == id && streams.contains(st)) ==> #[trigger] n.db.callers_of(s, st)
            == v.db.callers_of(s, st)
    &&& forall|k: int|
        0 <= k < streams.len() ==> n.db.callers_of(id, #[trigger] streams[k]) == d.callers_of(
            source,
            streams[k],
        )
}

proof fn lemma_entries_by_time(d: DbView, source: i64, stream: Seq<char>)
    requires
        d.wf(),
    ensures
        by_time(d.callers_of(source, stream)),
{
    let here = |v: CallerAtView| table::within::<CallerAt>(v, source as int, Some(stream));
    table::lemma_filter_in_order::<CallerAt>(d.caller_rows, here);
    let t = d.caller_rows.filter(here);
    let rows = d.callers_of(source, stream);
    assert forall|i: int, j: int| 0 <= i < j < rows.len() implies (#[trigger] rows[i]).ts <= (
    #[trigger] rows[j]).ts by {
        assert(rows[i] == t[i].row && rows[j] == t[j].row);
        table::lemma_key_order(CallerAt::key_of(t[i]), CallerAt::key_of(t[j]));
    }
}

proof fn lemma_not_before(streams: Seq<Seq<char>>)
    requires
        names::ascending_names(streams),
        streams.len() > 0,
    ensures
        !streams.drop_last().contains(streams.last()),
        names::ascending_names(streams.drop_last()),
{
    let head = streams.drop_last();
    let last = streams.last();
    if head.contains(last) {
        let k = choose|k: int| 0 <= k < head.len() && head[k] == last;
        assert(text::text_less(streams[k], streams[streams.len() - 1]));
        text::lemma_text_order(last, last);
    }
    assert forall|i: int, j: int| 0 <= i < j < head.len() implies text::text_less(
        #[trigger] head[i],
        #[trigger] head[j],
    ) by {
        assert(text::text_less(streams[i], streams[j]));
    }
}

proof fn lemma_series_applied(
    v: ReplicaView,
    c: CursorView,
    id: i64,
    d: DbView,
    streams: Seq<Seq<char>>,
)
    requires
        ready(v, c.ordinal, id),
        d.wf(),
        names::ascending_names(streams),
        forall|st: Seq<char>| (#[trigger] v.db.callers_of(id, st)).len() == 0,
        forall|st: Seq<char>|
            (#[trigger] publisher::cursor_at(c.streams, st)).index_after is None,
    ensures
        ({
            let (now, frames) = publisher::indexes_emitted(c, d, streams, i64::MIN);
            let (n, r) = replica::all_applied(v, frames);
            &&& r is Ok
            &&& series_in(v, n, c.ordinal, id, d, c.source_id, streams)
            &&& now.ordinal == c.ordinal
            &&& now.source_id == c.source_id
            &&& forall|st: Seq<char>|
                !streams.contains(st) ==> (#[trigger] publisher::cursor_at(
                    now.streams,
                    st,
                )).index_after is None
        }),
    decreases streams.len(),
{
    if streams.len() > 0 {
        let head = streams.drop_last();
        let last = streams.last();
        lemma_not_before(streams);
        lemma_series_applied(v, c, id, d, head);
        let (was, before) = publisher::indexes_emitted(c, d, head, i64::MIN);
        let (now, frames) = publisher::indexes_emitted(c, d, streams, i64::MIN);
        let w = replica::all_applied(v, before).0;
        assert(publisher::cursor_at(was.streams, last).index_after is None);
        exchange::law_catching_up_ships_every_entry(was, d, last);
        let rows = d.callers_of(c.source_id, last);
        let more = publisher::index_run(was, last, rows).frames;
        assert(frames == before + more);
        lemma_entries_by_time(d, c.source_id, last);
        assert(w.db.callers_of(id, last) == v.db.callers_of(id, last));
        lemma_entries_applied(w, was, id, last, rows);
        lemma_applied_more(v, before, more);
        let n = replica::all_applied(w, more).0;
        assert forall|s: i64, st: Seq<char>|
            !(s == id && streams.contains(st)) implies #[trigger] n.db.callers_of(s, st)
            == v.db.callers_of(s, st) by {
            assert(streams[streams.len() - 1] == last);
            if s == id && head.contains(st) {
                let k = choose|k: int| 0 <= k < head.len() && head[k] == st;
                assert(streams[k] == st);
            }
            assert(w.db.callers_of(s, st) == v.db.callers_of(s, st));
        }
        assert forall|k: int| 0 <= k < streams.len() implies n.db.callers_of(
            id,
            #[trigger] streams[k],
        ) == d.callers_of(c.source_id, streams[k]) by {
            if k < head.len() {
                assert(head[k] == streams[k]);
                if streams[k] == last {
                    assert(head.contains(last));
                }
                assert(n.db.callers_of(id, streams[k]) == w.db.callers_of(id, streams[k]));
            }
        }
        assert forall|st: Seq<char>|
            !streams.contains(st) implies (#[trigger] publisher::cursor_at(
            now.streams,
            st,
        )).index_after is None by {
            assert(streams[streams.len() - 1] == last);
            if head.contains(st) {
                let k = choose|k: int| 0 <= k < head.len() && head[k] == st;
                assert(streams[k] == st);
            }
            assert(publisher::cursor_at(was.streams, st).index_after is None);
        }
    }
}

// ------------------------------------------------------------ segments

/// What adopting segments leaves: only one stream's segments are other.
pub open spec fn segments_in(
    v: ReplicaView,
    n: ReplicaView,
    ordinal: u32,
    id: i64,
    stream: Seq<char>,
) -> bool {
    &&& ready(n, ordinal, id)
    &&& n.db == (DbView { segments: n.db.segments, ..v.db })
    &&& n.states == v.states
    &&& n.summaries == v.summaries
    &&& forall|s: i64, st: Seq<char>|
        !(s == id && st == stream) ==> #[trigger] n.db.segments_of(s, st) == v.db.segments_of(
            s,
            st,
        )
}

proof fn lemma_newest_of_run(segments: Seq<SegmentView>)
    requires
        laws::one_after_the_other(segments),
        segments.len() > 0,
    ensures
        model::newest_sealed(rewrite::laws::renumbered(segments)) == Some(segments.last().meta.last_ts),
{
    let s = rewrite::laws::renumbered(segments);
    laws::lemma_watermark(s);
    let w = model::newest_sealed(s)->0;
    let i = choose|i: int| 0 <= i < s.len() && #[trigger] s[i].meta.last_ts == w;
    let last = s.len() - 1;
    assert(s[last].meta.last_ts <= w);
    assert(i < last ==> segments[i].meta.last_ts < segments[last].meta.last_ts);
}

proof fn lemma_segments_applied(
    v: ReplicaView,
    ordinal: u32,
    id: i64,
    stream: Seq<char>,
    segments: Seq<SegmentView>,
)
    requires
        ready(v, ordinal, id),
        v.db.segments_of(id, stream).len() == 0,
        laws::one_after_the_other(segments),
        segments.len() <= u64::MAX,
    ensures
        ({
            let (n, r) = replica::all_applied(
                v,
                publisher::segment_frames(ordinal, stream, segments),
            );
            &&& r is Ok
            &&& segments_in(v, n, ordinal, id, stream)
            &&& n.db.segments_of(id, stream) == rewrite::laws::renumbered(segments)
        }),
    decreases segments.len(),
{
    let frames = publisher::segment_frames(ordinal, stream, segments);
    if segments.len() == 0 {
        assert(v.db.segments_of(id, stream) =~= rewrite::laws::renumbered(segments));
    } else {
        let head = segments.drop_last();
        let s = segments.last();
        assert(laws::one_after_the_other(head)) by {
            assert forall|i: int, j: int| 0 <= i < j < head.len() implies (
            #[trigger] head[i]).meta.last_ts < (#[trigger] head[j]).meta.last_ts by {
                assert(segments[i].meta.last_ts < segments[j].meta.last_ts);
            }
        }
        lemma_segments_applied(v, ordinal, id, stream, head);
        let before = publisher::segment_frames(ordinal, stream, head);
        assert(frames.drop_last() =~= before);
        let was = replica::all_applied(v, before).0;
        let n = replica::all_applied(v, frames).0;
        let held = was.db.segments_of(id, stream);
        if head.len() > 0 {
            lemma_newest_of_run(head);
            assert(segments[head.len() - 1].meta.last_ts < segments[segments.len()
                - 1].meta.last_ts);
        }
        let seq = run::seeded_number(was.db, id, stream);
        assert(seq == head.len());
        let at = SegmentAtView {
            source_id: id,
            stream,
            row: SegmentView { seq, meta: s.meta, bytes: s.bytes, caller_index: s.caller_index },
        };
        assert(was.db.segment_inserted(at) is Ok) by {
            let k = Key { source: id as int, stream, at: seq as int };
            if table::holds::<SegmentAt>(was.db.segments, k) {
                let here = |v: SegmentAtView|
                    table::within::<SegmentAt>(v, id as int, Some(stream));
                let i = choose|i: int|
                    0 <= i < was.db.segments.len() && SegmentAt::key_of(
                        #[trigger] was.db.segments[i],
                    ) == k;
                seqs::lemma_filter_keeps(was.db.segments, here, i);
                let t = was.db.segments.filter(here);
                let m = choose|m: int| 0 <= m < t.len() && t[m] == was.db.segments[i];
                assert(held[m].seq == seq);
            }
        }
        laws::lemma_segment_appended(was.db, at);
        laws::lemma_segments_inserted(was.db, at, id, stream);
        assert(n.db.segments_of(id, stream) =~= rewrite::laws::renumbered(segments));
        assert forall|o: i64, st: Seq<char>|
            !(o == id && st == stream) implies #[trigger] n.db.segments_of(o, st)
            == v.db.segments_of(o, st) by {
            laws::lemma_segments_inserted(was.db, at, o, st);
            assert(was.db.segments_of(o, st) == v.db.segments_of(o, st));
        }
    }
}

/// What adopting the segments of streams leaves.
pub open spec fn streams_in(
    v: ReplicaView,
    n: ReplicaView,
    ordinal: u32,
    id: i64,
    d: DbView,
    source: i64,
    streams: Seq<Seq<char>>,
) -> bool {
    &&& ready(n, ordinal, id)
    &&& n.db == (DbView { segments: n.db.segments, ..v.db })
    &&& n.states == v.states
    &&& n.summaries == v.summaries
    &&& forall|s: i64, st: Seq<char>|
        !(s == id && streams.contains(st)) ==> #[trigger] n.db.segments_of(s, st)
            == v.db.segments_of(s, st)
    &&& forall|k: int|
        0 <= k < streams.len() ==> n.db.segments_of(id, #[trigger] streams[k]) == rewrite::laws::renumbered(
            d.segments_of(source, streams[k]),
        )
}

proof fn lemma_streams_applied(
    v: ReplicaView,
    c: CursorView,
    id: i64,
    d: DbView,
    streams: Seq<Seq<char>>,
)
    requires
        ready(v, c.ordinal, id),
        names::ascending_names(streams),
        forall|st: Seq<char>| (#[trigger] v.db.segments_of(id, st)).len() == 0,
        forall|st: Seq<char>|
            laws::one_after_the_other(#[trigger] d.segments_of(c.source_id, st)) && d.segments_of(
                c.source_id,
                st,
            ).len() <= u64::MAX,
    ensures
        ({
            let frames = publisher::streams_opened(c, d, streams, Some(i64::MIN)).1;
            let (n, r) = replica::all_applied(v, frames);
            &&& r is Ok
            &&& streams_in(v, n, c.ordinal, id, d, c.source_id, streams)
        }),
    decreases streams.len(),
{
    if streams.len() > 0 {
        let head = streams.drop_last();
        let last = streams.last();
        lemma_not_before(streams);
        lemma_streams_applied(v, c, id, d, head);
        let before = publisher::streams_opened(c, d, head, Some(i64::MIN)).1;
        let frames = publisher::streams_opened(c, d, streams, Some(i64::MIN)).1;
        let w = replica::all_applied(v, before).0;
        exchange::law_catching_up_ships_every_segment(d, c.source_id, c.ordinal, last);
        let segments = d.segments_of(c.source_id, last);
        let more = publisher::segment_frames(c.ordinal, last, segments);
        assert(frames == before + more);
        assert(w.db.segments_of(id, last) == v.db.segments_of(id, last));
        lemma_segments_applied(w, c.ordinal, id, last, segments);
        lemma_applied_more(v, before, more);
        let n = replica::all_applied(w, more).0;
        assert forall|s: i64, st: Seq<char>|
            !(s == id && streams.contains(st)) implies #[trigger] n.db.segments_of(s, st)
            == v.db.segments_of(s, st) by {
            assert(streams[streams.len() - 1] == last);
            if s == id && head.contains(st) {
                let k = choose|k: int| 0 <= k < head.len() && head[k] == st;
                assert(streams[k] == st);
            }
            assert(w.db.segments_of(s, st) == v.db.segments_of(s, st));
        }
        assert forall|k: int| 0 <= k < streams.len() implies n.db.segments_of(
            id,
            #[trigger] streams[k],
        ) == rewrite::laws::renumbered(d.segments_of(c.source_id, streams[k])) by {
            if k < head.len() {
                assert(head[k] == streams[k]);
                if streams[k] == last {
                    assert(head.contains(last));
                }
                assert(n.db.segments_of(id, streams[k]) == w.db.segments_of(id, streams[k]));
            }
        }
    }
}

// ------------------------------------------------------------ clock observations

proof fn lemma_clock_ascends(d: DbView, source: i64)
    requires
        d.wf(),
    ensures
        forall|i: int, j: int|
            0 <= i < j < d.clock_of(source).len() ==> (#[trigger] d.clock_of(source)[i]).0 < (
            #[trigger] d.clock_of(source)[j]).0,
{
    let here = |v: ClockAt| table::within::<ClockAt>(v, source as int, None);
    table::lemma_filter_in_order::<ClockAt>(d.clock_offsets, here);
    let t = d.clock_offsets.filter(here);
    let pairs = d.clock_of(source);
    assert forall|i: int, j: int| 0 <= i < j < pairs.len() implies (#[trigger] pairs[i]).0 < (
    #[trigger] pairs[j]).0 by {
        assert(pairs[i].0 == t[i].ts && pairs[j].0 == t[j].ts);
        assert(ClockAt::key_of(t[i]) != ClockAt::key_of(t[j]));
        table::lemma_key_order(ClockAt::key_of(t[i]), ClockAt::key_of(t[j]));
    }
}

proof fn lemma_offsets_applied(v: ReplicaView, ordinal: u32, id: i64, pairs: Seq<(i64, i64)>)
    requires
        ready(v, ordinal, id),
        v.db.clock_of(id).len() == 0,
        forall|i: int, j: int|
            0 <= i < j < pairs.len() ==> (#[trigger] pairs[i]).0 < (#[trigger] pairs[j]).0,
    ensures
        ({
            let (n, r) = replica::all_applied(v, publisher::offset_frames(ordinal, pairs));
            &&& r is Ok
            &&& ready(n, ordinal, id)
            &&& n.db == (DbView { clock_offsets: n.db.clock_offsets, ..v.db })
            &&& n.summaries == v.summaries
            &&& n.db.clock_of(id) == pairs
        }),
    decreases pairs.len(),
{
    let frames = publisher::offset_frames(ordinal, pairs);
    if pairs.len() == 0 {
        assert(v.db.clock_of(id) =~= pairs);
    } else {
        let head = pairs.drop_last();
        assert forall|i: int, j: int| 0 <= i < j < head.len() implies (#[trigger] head[i]).0 < (
        #[trigger] head[j]).0 by {
            assert(pairs[i].0 < pairs[j].0);
        }
        lemma_offsets_applied(v, ordinal, id, head);
        let before = publisher::offset_frames(ordinal, head);
        assert(frames.drop_last() =~= before);
        let was = replica::all_applied(v, before).0;
        let at = ClockAt { source_id: id, ts: pairs.last().0, offset_ns: pairs.last().1 };
        assert forall|i: int| 0 <= i < was.db.clock_of(id).len() implies (
        #[trigger] was.db.clock_of(id)[i]).0 < at.ts by {
            assert(pairs[i].0 < pairs[pairs.len() - 1].0);
        }
        lemma_clock_appended(was.db, at);
        let st = subscriber::state_of(was.states, ordinal)->0;
        exchange::lemma_remembered(
            was.states,
            ordinal,
            SourceState { last_offset: Some((at.ts, at.offset_ns)), ..st },
        );
        assert(head.push(pairs.last()) =~= pairs);
    }
}

// ------------------------------------------------------------ rows

/// Whether no two rows are of one stream and one timestamp.
pub open spec fn keyed_apart(rows: Seq<WalView>) -> bool {
    forall|i: int, j: int|
        0 <= i < j < rows.len() ==> !((#[trigger] rows[i]).stream == (#[trigger] rows[j]).stream
            && rows[i].ts == rows[j].ts)
}

proof fn lemma_rows_run(d: DbView, id: i64, rows: Seq<WalView>)
    requires
        d.wf(),
        d.has_source(id),
        forall|st: Seq<char>| (#[trigger] d.wal_of(id, st)).len() == 0,
        keyed_apart(rows),
    ensures
        ({
            let (n, e) = d.wal_run(id, rows);
            &&& e is None
            &&& n.wf()
            &&& n == (DbView { wal: n.wal, ..d })
            &&& forall|st: Seq<char>, r: WalView| #[trigger]
                n.wal_of(id, st).contains(r) <==> rows.contains(r) && r.stream == st
        }),
    decreases rows.len(),
{
    if rows.len() > 0 {
        let head = rows.drop_last();
        let row = rows.last();
        assert(keyed_apart(head)) by {
            assert forall|i: int, j: int| 0 <= i < j < head.len() implies !((
            #[trigger] head[i]).stream == (#[trigger] head[j]).stream && head[i].ts
                == head[j].ts) by {
                assert(head[i] == rows[i] && head[j] == rows[j]);
            }
        }
        lemma_rows_run(d, id, head);
        let was = d.wal_run(id, head).0;
        let k = Key { source: id as int, stream: row.stream, at: row.ts as int };
        assert(!table::holds::<WalAt>(was.wal, k)) by {
            if table::holds::<WalAt>(was.wal, k) {
                let here = |v: WalAtView| table::within::<WalAt>(v, id as int, Some(row.stream));
                let i = choose|i: int|
                    0 <= i < was.wal.len() && WalAt::key_of(#[trigger] was.wal[i]) == k;
                seqs::lemma_filter_keeps(was.wal, here, i);
                let t = was.wal.filter(here);
                let m = choose|m: int| 0 <= m < t.len() && t[m] == was.wal[i];
                let r = was.wal_of(id, row.stream)[m];
                assert(was.wal_of(id, row.stream).contains(r));
                assert(head.contains(r));
                let h = choose|h: int| 0 <= h < head.len() && head[h] == r;
                assert(rows[h] == r);
                assert(rows[rows.len() - 1] == row);
            }
        }
        let n = d.wal_run(id, rows).0;
        laws::law_a_row_reads_back(was, id, row, id, row.stream);
        assert forall|st: Seq<char>, r: WalView| (#[trigger] n.wal_of(id, st).contains(r))
            == (rows.contains(r) && r.stream == st) by {
            laws::law_a_row_reads_back(was, id, row, id, st);
            let before = was.wal_of(id, st);
            let after = n.wal_of(id, st);
            assert(head.push(row) =~= rows);
            assert(rows.contains(r) <==> head.contains(r) || r == row) by {
                if head.contains(r) {
                    let h = choose|h: int| 0 <= h < head.len() && head[h] == r;
                    assert(rows[h] == r);
                }
                if r == row {
                    assert(rows[rows.len() - 1] == r);
                }
                if rows.contains(r) && r != row {
                    let h = choose|h: int| 0 <= h < rows.len() && rows[h] == r;
                    assert(head[h] == r);
                }
            }
            assert(before.contains(r) <==> head.contains(r) && r.stream == st);
            if st == row.stream {
                let p = choose|p: int|
                    0 <= p <= before.len() && after == #[trigger] before.take(p) + seq![row]
                        + before.skip(p);
                if after.contains(r) {
                    let i = choose|i: int| 0 <= i < after.len() && after[i] == r;
                    if i < p {
                        assert(before[i] == r);
                    } else if i > p {
                        assert(before[i - 1] == r);
                    }
                }
                if before.contains(r) {
                    let i = choose|i: int| 0 <= i < before.len() && before[i] == r;
                    if i < p {
                        assert(after[i] == r);
                    } else {
                        assert(after[i + 1] == r);
                    }
                }
                assert(after[p] == row);
            }
        }
    } else {
        assert forall|st: Seq<char>, r: WalView| (#[trigger] d.wal_of(id, st).contains(r)) == (
        rows.contains(r) && r.stream == st) by {
            assert(d.wal_of(id, st).len() == 0);
        }
    }
}

/// Whether rows are by timestamp, each later than the one before.
pub open spec fn ascending(rows: Seq<WalView>) -> bool {
    forall|i: int, j: int|
        0 <= i < j < rows.len() ==> (#[trigger] rows[i]).ts < (#[trigger] rows[j]).ts
}

/// Two runs of rows by timestamp that hold the same rows are the same.
proof fn lemma_same_rows(a: Seq<WalView>, b: Seq<WalView>)
    requires
        ascending(a),
        ascending(b),
        forall|r: WalView| #[trigger] a.contains(r) <==> b.contains(r),
    ensures
        a == b,
    decreases a.len(),
{
    if a.len() == 0 {
        if b.len() > 0 {
            assert(b.contains(b[0]));
            assert(a.contains(b[0]));
        }
        assert(a =~= b);
    } else {
        let x = a.last();
        assert(a[a.len() - 1] == x);
        assert(a.contains(x));
        assert(b.contains(x));
        let k = choose|k: int| 0 <= k < b.len() && b[k] == x;
        let y = b.last();
        assert(b[b.len() - 1] == y);
        assert(b.contains(y));
        assert(a.contains(y));
        let m = choose|m: int| 0 <= m < a.len() && a[m] == y;
        assert(x == y) by {
            if k < b.len() - 1 {
                assert(b[k].ts < b[b.len() - 1].ts);
                assert(m < a.len() - 1 ==> a[m].ts < a[a.len() - 1].ts);
            }
        }
        let p = a.drop_last();
        let q = b.drop_last();
        assert(ascending(p)) by {
            assert forall|i: int, j: int| 0 <= i < j < p.len() implies (#[trigger] p[i]).ts < (
            #[trigger] p[j]).ts by {
                assert(a[i].ts < a[j].ts);
            }
        }
        assert(ascending(q)) by {
            assert forall|i: int, j: int| 0 <= i < j < q.len() implies (#[trigger] q[i]).ts < (
            #[trigger] q[j]).ts by {
                assert(b[i].ts < b[j].ts);
            }
        }
        assert forall|r: WalView| #[trigger] p.contains(r) <==> q.contains(r) by {
            if p.contains(r) {
                let i = choose|i: int| 0 <= i < p.len() && p[i] == r;
                assert(a[i].ts < a[a.len() - 1].ts);
                assert(a.contains(r));
                let j = choose|j: int| 0 <= j < b.len() && b[j] == r;
                assert(q[j] == r);
            }
            if q.contains(r) {
                let i = choose|i: int| 0 <= i < q.len() && q[i] == r;
                assert(b[i].ts < b[b.len() - 1].ts);
                assert(b.contains(r));
                assert(a.contains(r));
                let j = choose|j: int| 0 <= j < a.len() && a[j] == r;
                assert(p[j] == r);
            }
        }
        lemma_same_rows(p, q);
        assert(p.push(x) =~= a);
        assert(q.push(y) =~= b);
    }
}

/// What a row of the tails is: a live row of the stream it names.
proof fn lemma_tails(d: DbView, source: i64, streams: Seq<Seq<char>>)
    requires
        d.wf(),
        names::ascending_names(streams),
    ensures
        forall|r: WalView| #[trigger]
            exchange::tails(d, source, streams).contains(r) <==> streams.contains(r.stream)
                && d.live_of(source, r.stream).contains(r),
        keyed_apart(exchange::tails(d, source, streams)),
    decreases streams.len(),
{
    let all = exchange::tails(d, source, streams);
    if streams.len() > 0 {
        let head = streams.drop_last();
        let last = streams.last();
        lemma_not_before(streams);
        lemma_tails(d, source, head);
        let before = exchange::tails(d, source, head);
        let live = d.live_of(source, last);
        laws::law_the_tail_is_in_order(d, source, last);
        assert(streams[streams.len() - 1] == last);
        assert forall|r: WalView| (#[trigger] all.contains(r)) == (streams.contains(r.stream)
            && d.live_of(source, r.stream).contains(r)) by {
            if all.contains(r) {
                let i = choose|i: int| 0 <= i < all.len() && all[i] == r;
                if i < before.len() {
                    assert(before[i] == r);
                    assert(before.contains(r));
                    let k = choose|k: int| 0 <= k < head.len() && head[k] == r.stream;
                    assert(streams[k] == r.stream);
                } else {
                    assert(live[i - before.len()] == r);
                    assert(live.contains(r));
                }
            }
            if streams.contains(r.stream) && d.live_of(source, r.stream).contains(r) {
                if r.stream == last {
                    let i = choose|i: int| 0 <= i < live.len() && live[i] == r;
                    assert(all[before.len() + i] == r);
                } else {
                    let k = choose|k: int| 0 <= k < streams.len() && streams[k] == r.stream;
                    assert(head[k] == r.stream);
                    assert(before.contains(r));
                    let i = choose|i: int| 0 <= i < before.len() && before[i] == r;
                    assert(all[i] == r);
                }
            }
        }
        assert forall|i: int, j: int| 0 <= i < j < all.len() implies !((#[trigger] all[i]).stream
            == (#[trigger] all[j]).stream && all[i].ts == all[j].ts) by {
            if j < before.len() {
                assert(all[i] == before[i] && all[j] == before[j]);
            } else {
                let y = live[j - before.len()];
                assert(all[j] == y);
                if i < before.len() {
                    assert(all[i] == before[i]);
                    assert(before.contains(before[i]));
                } else {
                    assert(all[i] == live[i - before.len()]);
                }
            }
        }
    }
}

proof fn lemma_sorted_members(s: Seq<WalView>)
    requires
        keyed_apart(s),
    ensures
        keyed_apart(publisher::by_time(s)),
        forall|r: WalView| #[trigger] publisher::by_time(s).contains(r) <==> s.contains(r),
    decreases s.len(),
{
    if s.len() > 0 {
        let head = s.drop_last();
        let x = s.last();
        assert(keyed_apart(head)) by {
            assert forall|i: int, j: int| 0 <= i < j < head.len() implies !((
            #[trigger] head[i]).stream == (#[trigger] head[j]).stream && head[i].ts
                == head[j].ts) by {
                assert(head[i] == s[i] && head[j] == s[j]);
            }
        }
        lemma_sorted_members(head);
        let was = publisher::by_time(head);
        assert forall|i: int| 0 <= i < was.len() implies !((#[trigger] was[i]).stream == x.stream
            && was[i].ts == x.ts) by {
            assert(was.contains(was[i]));
            let k = choose|k: int| 0 <= k < head.len() && head[k] == was[i];
            assert(s[k] == was[i]);
            assert(s[s.len() - 1] == x);
        }
        lemma_with_row_members(was, x);
        assert forall|r: WalView| (#[trigger] publisher::by_time(s).contains(r)) == s.contains(
            r,
        ) by {
            assert(head.push(x) =~= s);
            if s.contains(r) && r != x {
                let k = choose|k: int| 0 <= k < s.len() && s[k] == r;
                assert(head[k] == r);
            }
            if head.contains(r) {
                let k = choose|k: int| 0 <= k < head.len() && head[k] == r;
                assert(s[k] == r);
            }
            if r == x {
                assert(s[s.len() - 1] == r);
            }
            assert(was.contains(r) <==> head.contains(r));
        }
    }
}

proof fn lemma_with_row_members(s: Seq<WalView>, x: WalView)
    requires
        keyed_apart(s),
        forall|i: int|
            0 <= i < s.len() ==> !((#[trigger] s[i]).stream == x.stream && s[i].ts == x.ts),
    ensures
        keyed_apart(publisher::with_row(s, x)),
        forall|r: WalView| #[trigger]
            publisher::with_row(s, x).contains(r) <==> s.contains(r) || r == x,
    decreases s.len(),
{
    let w = publisher::with_row(s, x);
    if s.len() > 0 && publisher::row_before(x, s.last()) {
        let head = s.drop_last();
        let y = s.last();
        assert(keyed_apart(head)) by {
            assert forall|i: int, j: int| 0 <= i < j < head.len() implies !((
            #[trigger] head[i]).stream == (#[trigger] head[j]).stream && head[i].ts
                == head[j].ts) by {
                assert(head[i] == s[i] && head[j] == s[j]);
            }
        }
        assert forall|i: int| 0 <= i < head.len() implies !((#[trigger] head[i]).stream == x.stream
            && head[i].ts == x.ts) by {
            assert(head[i] == s[i]);
        }
        lemma_with_row_members(head, x);
        let v = publisher::with_row(head, x);
        assert(s[s.len() - 1] == y);
        assert forall|i: int, j: int| 0 <= i < j < w.len() implies !((#[trigger] w[i]).stream == (
        #[trigger] w[j]).stream && w[i].ts == w[j].ts) by {
            if j < v.len() {
                assert(w[i] == v[i] && w[j] == v[j]);
            } else {
                assert(w[i] == v[i]);
                assert(v.contains(v[i]));
                if v[i] != x {
                    let k = choose|k: int| 0 <= k < head.len() && head[k] == v[i];
                    assert(s[k] == v[i]);
                }
            }
        }
        assert forall|r: WalView| (#[trigger] w.contains(r)) == (s.contains(r) || r == x) by {
            assert(v.contains(r) <==> head.contains(r) || r == x);
            if w.contains(r) {
                let i = choose|i: int| 0 <= i < w.len() && w[i] == r;
                if i < v.len() {
                    assert(v[i] == r);
                    if head.contains(r) {
                        let k = choose|k: int| 0 <= k < head.len() && head[k] == r;
                        assert(s[k] == r);
                    }
                }
            }
            if s.contains(r) && r != y {
                let k = choose|k: int| 0 <= k < s.len() && s[k] == r;
                assert(head[k] == r);
            }
            if v.contains(r) {
                let i = choose|i: int| 0 <= i < v.len() && v[i] == r;
                assert(w[i] == r);
            }
            if r == y {
                assert(w[w.len() - 1] == r);
            }
        }
    } else {
        assert(w == s.push(x));
        assert forall|r: WalView| (#[trigger] w.contains(r)) == (s.contains(r) || r == x) by {
            if s.contains(r) {
                let k = choose|k: int| 0 <= k < s.len() && s[k] == r;
                assert(w[k] == r);
            }
            if r == x {
                assert(w[w.len() - 1] == r);
            }
            if w.contains(r) && r != x {
                let k = choose|k: int| 0 <= k < w.len() && w[k] == r;
                assert(s[k] == r);
            }
        }
    }
}

// ------------------------------------------------------------ the whole source

proof fn lemma_opened_frames(c: CursorView, d: DbView, streams: Seq<Seq<char>>)
    ensures
        no_handshake(publisher::streams_opened(c, d, streams, Some(i64::MIN)).1),
        forall|q: Seq<char>|
            (#[trigger] publisher::cursor_at(
                publisher::streams_opened(c, d, streams, Some(i64::MIN)).0.streams,
                q,
            )).index_after == publisher::cursor_at(c.streams, q).index_after,
    decreases streams.len(),
{
    if streams.len() > 0 {
        let head = streams.drop_last();
        lemma_opened_frames(c, d, head);
        let before = publisher::streams_opened(c, d, head, Some(i64::MIN));
        let all = publisher::streams_opened(c, d, streams, Some(i64::MIN));
        assert forall|i: int| 0 <= i < all.1.len() implies !(#[trigger] all.1[i] is Handshake) by {
            if i < before.1.len() {
                assert(all.1[i] == before.1[i]);
            }
        }
        assert forall|q: Seq<char>|
            (#[trigger] publisher::cursor_at(all.0.streams, q)).index_after == publisher::cursor_at(
                c.streams,
                q,
            ).index_after by {
            assert(publisher::cursor_at(before.0.streams, q).index_after == publisher::cursor_at(
                c.streams,
                q,
            ).index_after);
        }
    }
}

proof fn lemma_none_past_the_last(pairs: Seq<(i64, i64)>)
    requires
        forall|i: int, j: int|
            0 <= i < j < pairs.len() ==> (#[trigger] pairs[i]).0 < (#[trigger] pairs[j]).0,
    ensures
        publisher::offsets_past(pairs, publisher::last_offset(pairs, None), i64::MIN).len() == 0,
{
    let after = publisher::last_offset(pairs, None);
    let keep = |p: (i64, i64)| model::past(after, p.0) && p.0 >= i64::MIN;
    seqs::lemma_filter_shorter(pairs, keep);
    if pairs.filter(keep).len() > 0 {
        seqs::lemma_filter_member(pairs, keep, 0);
        let i = choose|i: int| 0 <= i < pairs.len() && pairs[i] == pairs.filter(keep)[0];
        let last = pairs.len() - 1;
        assert(i < last ==> pairs[i].0 < pairs[last].0);
    }
}

pub proof fn lemma_caller_stream(d: DbView, source: i64, name: Seq<char>)
    ensures
        names::ascending_names(d.caller_streams(source)),
        d.callers_of(source, name).len() > 0 ==> d.caller_streams(source).contains(name),
{
    names::lemma_named(Seq::empty(), d.caller_names(source), name);
    if d.callers_of(source, name).len() > 0 {
        let of = |v: CallerAtView| table::within::<CallerAt>(v, source as int, None);
        let of_name = |v: CallerAtView| table::within::<CallerAt>(v, source as int, Some(name));
        seqs::lemma_filter_member(d.caller_rows, of_name, 0);
        let i = choose|i: int|
            0 <= i < d.caller_rows.len() && d.caller_rows[i] == d.caller_rows.filter(of_name)[0];
        seqs::lemma_filter_keeps(d.caller_rows, of, i);
        let t = d.caller_rows.filter(of);
        let k = choose|k: int| 0 <= k < t.len() && t[k] == d.caller_rows[i];
        assert(d.caller_names(source)[k] == name);
    }
}

proof fn lemma_same_newest(s: Seq<SegmentView>)
    ensures
        model::newest_sealed(rewrite::laws::renumbered(s)) == model::newest_sealed(s),
    decreases s.len(),
{
    if s.len() > 0 {
        lemma_same_newest(s.drop_last());
        assert(rewrite::laws::renumbered(s).drop_last() =~= rewrite::laws::renumbered(s.drop_last()));
    }
}

/// Whether nothing in an archive is of a source.
pub open spec fn nothing_of(d: DbView, id: i64) -> bool {
    &&& forall|st: Seq<char>| (#[trigger] d.segments_of(id, st)).len() == 0
    &&& forall|st: Seq<char>| (#[trigger] d.wal_of(id, st)).len() == 0
    &&& forall|st: Seq<char>| (#[trigger] d.callers_of(id, st)).len() == 0
    &&& d.clock_of(id).len() == 0
}

/// The frames of a source from the beginning: what opening ships, and what the
/// first poll does.
pub open spec fn whole_source(d: DbView, s: SourceView, ordinal: u32) -> Seq<FrameView> {
    let (c, frames) = publisher::source_opened(d, s, ordinal, Some(i64::MIN));
    frames + publisher::polled(c, d).1->Ok_0
}

/// What opening a source from the beginning leaves in a replica.
pub open spec fn opening_in(
    v: ReplicaView,
    n: ReplicaView,
    ordinal: u32,
    id: i64,
    d: DbView,
    s: SourceView,
) -> bool {
    &&& ready(n, ordinal, id)
    &&& n.db.source(id) == Some(
        SourceView {
            id,
            uuid: Some(replica::identity_of(s.uuid, v.identity, ordinal)),
            meta: s.meta,
            complete: false,
        },
    )
    &&& n.db.wal == v.db.wal
    &&& n.db.clock_of(id) == d.clock_of(s.id)
    &&& forall|st: Seq<char>| #[trigger]
        n.db.segments_of(id, st) == rewrite::laws::renumbered(d.segments_of(s.id, st))
    &&& forall|st: Seq<char>| #[trigger] n.db.callers_of(id, st) == d.callers_of(s.id, st)
}

proof fn lemma_opening_applied(
    v: ReplicaView,
    d: DbView,
    s: SourceView,
    ordinal: u32,
    ids: spec_fn(u32) -> i64,
)
    requires
        v.db.wf(),
        v.db.writable(),
        subscriber::in_ordinal_order(v.states),
        model::next_id(v.db.sources) <= i64::MAX,
        nothing_of(v.db, model::next_id(v.db.sources) as i64),
        d.wf(),
        forall|st: Seq<char>|
            laws::one_after_the_other(#[trigger] d.segments_of(s.id, st)) && d.segments_of(
                s.id,
                st,
            ).len() <= u64::MAX,
        ids(ordinal) == model::next_id(v.db.sources) as i64,
    ensures
        ({
            let frames = publisher::source_opened(d, s, ordinal, Some(i64::MIN)).1;
            let (n, r) = replica::all_applied(v, frames);
            &&& r is Ok
            &&& opening_in(v, n, ordinal, model::next_id(v.db.sources) as i64, d, s)
            &&& n.states == exchange::followed(v.states, frames, ids)
        }),
{
    let id = model::next_id(v.db.sources) as i64;
    let since = Some(i64::MIN);
    let entries = d.caller_streams(s.id);
    let streams = d.streams_of(s.id);
    let c0 = publisher::unopened(ordinal, s.id, i64::MIN);
    // The handshake.
    let hello = seq![publisher::handshake(ordinal, s)];
    assert(hello.drop_last() =~= Seq::empty());
    let v1 = replica::all_applied(v, hello).0;
    assert(replica::all_applied(v, hello.drop_last()) == (
        v,
        Ok::<Applied, ErrorView>(subscriber::nothing()),
    ));
    let named = Some(replica::identity_of(s.uuid, v.identity, ordinal));
    laws::law_a_source_reads_back(v.db, s.meta, named);
    exchange::lemma_remembered(v.states, ordinal, subscriber::opened_state(id, s.complete));
    assert(v1.db == v.db.with_source(s.meta, named));
    assert(v1.db.source(id) is Some);
    assert(ready(v1, ordinal, id));
    assert(v1.states == exchange::followed(v.states, hello, ids)) by {
        assert(exchange::followed(v.states, hello.drop_last(), ids) == v.states);
    }
    // The index entries.
    assert forall|st: Seq<char>| (#[trigger] v1.db.callers_of(id, st)).len() == 0 by {
        assert(v1.db.callers_of(id, st) == v.db.callers_of(id, st));
    }
    lemma_caller_stream(d, s.id, Seq::empty());
    lemma_series_applied(v1, c0, id, d, entries);
    let (indexed, index_frames) = publisher::indexes_emitted(c0, d, entries, i64::MIN);
    let v2 = replica::all_applied(v1, index_frames).0;
    exchange::lemma_indexes_announce(c0, d, entries, i64::MIN);
    assert(no_handshake(index_frames));
    lemma_states_follow(v1, index_frames, ids);
    // The segments.
    assert forall|st: Seq<char>| (#[trigger] v2.db.segments_of(id, st)).len() == 0 by {
        assert(v2.db.segments_of(id, st) == v.db.segments_of(id, st));
    }
    exchange::lemma_streams_distinct(d, s.id);
    lemma_streams_applied(v2, indexed, id, d, streams);
    let segments = publisher::streams_opened(indexed, d, streams, since).1;
    let v3 = replica::all_applied(v2, segments).0;
    lemma_opened_frames(indexed, d, streams);
    lemma_states_follow(v2, segments, ids);
    // The clock observations.
    exchange::law_catching_up_ships_every_observation(d, s.id);
    lemma_clock_ascends(d, s.id);
    let pairs = d.clock_of(s.id);
    assert(v3.db.clock_of(id) == v.db.clock_of(id));
    lemma_offsets_applied(v3, ordinal, id, pairs);
    let offsets = publisher::offset_frames(ordinal, pairs);
    let v4 = replica::all_applied(v3, offsets).0;
    assert(no_handshake(offsets));
    lemma_states_follow(v3, offsets, ids);
    // Together.
    lemma_applied_more(v, hello, index_frames);
    lemma_applied_more(v, hello + index_frames, segments);
    lemma_applied_more(v, hello + index_frames + segments, offsets);
    exchange::lemma_followed_more(v.states, hello, index_frames, ids);
    exchange::lemma_followed_more(v.states, hello + index_frames, segments, ids);
    exchange::lemma_followed_more(v.states, hello + index_frames + segments, offsets, ids);
    assert(v4.db.source(id) == v1.db.source(id));
    assert forall|st: Seq<char>| #[trigger] v4.db.segments_of(id, st) == rewrite::laws::renumbered(
        d.segments_of(s.id, st),
    ) by {
        assert(v4.db.segments_of(id, st) == v3.db.segments_of(id, st));
        if streams.contains(st) {
            let k = choose|k: int| 0 <= k < streams.len() && streams[k] == st;
            assert(v3.db.segments_of(id, streams[k]) == rewrite::laws::renumbered(d.segments_of(s.id, streams[k])));
        } else {
            laws::law_a_stream_is_its_rows(d, s.id, st);
            assert(v3.db.segments_of(id, st) == v2.db.segments_of(id, st));
            assert(v3.db.segments_of(id, st) =~= rewrite::laws::renumbered(d.segments_of(s.id, st)));
        }
    }
    assert forall|st: Seq<char>| #[trigger] v4.db.callers_of(id, st) == d.callers_of(s.id, st) by {
        assert(v4.db.callers_of(id, st) == v2.db.callers_of(id, st));
        if entries.contains(st) {
            let k = choose|k: int| 0 <= k < entries.len() && entries[k] == st;
            assert(v2.db.callers_of(id, entries[k]) == d.callers_of(s.id, entries[k]));
        } else {
            lemma_caller_stream(d, s.id, st);
            assert(v2.db.callers_of(id, st) == v1.db.callers_of(id, st));
            assert(v2.db.callers_of(id, st) =~= d.callers_of(s.id, st));
        }
    }
}

proof fn lemma_first_poll(d: DbView, s: SourceView, ordinal: u32)
    requires
        d.wf(),
        d.caller_rows.len() <= usize::MAX,
    ensures
        ({
            let c = publisher::source_opened(d, s, ordinal, Some(i64::MIN)).0;
            &&& c.seq == 0
            &&& c.ordinal == ordinal
            &&& publisher::polled(c, d).1 matches Ok(frames) && frames.len() == 1 && (
            frames[0] matches FrameView::Rows { rows, .. } && rows == publisher::by_time(
                exchange::tails(d, s.id, d.streams_of(s.id)),
            ))
        }),
{
    let since = Some(i64::MIN);
    let entries = d.caller_streams(s.id);
    let streams = d.streams_of(s.id);
    let c0 = publisher::unopened(ordinal, s.id, i64::MIN);
    let c = publisher::source_opened(d, s, ordinal, since).0;
    let indexed = publisher::indexes_emitted(c0, d, entries, i64::MIN).0;
    exchange::lemma_indexes_announce(c0, d, entries, i64::MIN);
    exchange::lemma_opened_ids(indexed, d, streams, since);
    lemma_opened_frames(indexed, d, streams);
    lemma_opened_seq(indexed, d, streams);
    assert forall|k: int| 0 <= k < entries.len() implies exchange::caught_up(
        c,
        d,
        #[trigger] entries[k],
    ) by {
        exchange::lemma_emitting_all_catches_up(c0, d, entries, k);
        assert(publisher::cursor_at(c.streams, entries[k]).index_after == publisher::cursor_at(
            indexed.streams,
            entries[k],
        ).index_after);
    }
    exchange::lemma_quiet_entries(c, d, entries);
    exchange::law_catching_up_ships_every_observation(d, s.id);
    lemma_clock_ascends(d, s.id);
    lemma_none_past_the_last(d.clock_of(s.id));
    exchange::law_the_first_poll_ships_the_tail(d, s, ordinal);
    let head = publisher::announced(c, d).1;
    assert(head.len() == 0);
}

proof fn lemma_opened_seq(c: CursorView, d: DbView, streams: Seq<Seq<char>>)
    ensures
        publisher::streams_opened(c, d, streams, Some(i64::MIN)).0.seq == c.seq,
    decreases streams.len(),
{
    if streams.len() > 0 {
        lemma_opened_seq(c, d, streams.drop_last());
    }
}

/// Replication loses nothing. A replica that applies what a publisher ships of a
/// source from the beginning, up to its first poll, holds the source: its
/// identity, or one minted here where it has none, and of every stream the same segments, the same live rows and the
/// same caller's rows, with the same clock observations. The source's segments
/// each end after those before them, as a writer leaves them.
pub proof fn law_a_replica_holds_the_source(
    v: ReplicaView,
    d: DbView,
    s: SourceView,
    ordinal: u32,
    stream: Seq<char>,
)
    requires
        v.db.wf(),
        v.db.writable(),
        subscriber::in_ordinal_order(v.states),
        model::next_id(v.db.sources) <= i64::MAX,
        nothing_of(v.db, model::next_id(v.db.sources) as i64),
        d.wf(),
        d.caller_rows.len() <= usize::MAX,
        forall|st: Seq<char>|
            laws::one_after_the_other(#[trigger] d.segments_of(s.id, st)) && d.segments_of(
                s.id,
                st,
            ).len() <= u64::MAX,
    ensures
        ({
            let id = model::next_id(v.db.sources) as i64;
            let (n, r) = replica::all_applied(v, whole_source(d, s, ordinal));
            &&& r is Ok
            &&& n.db.source(id) == Some(
                SourceView {
                    id,
                    uuid: Some(replica::identity_of(s.uuid, v.identity, ordinal)),
                    meta: s.meta,
                    complete: false,
                },
            )
            &&& n.db.segments_of(id, stream) == rewrite::laws::renumbered(d.segments_of(s.id, stream))
            &&& n.db.live_of(id, stream) == d.live_of(s.id, stream)
            &&& n.db.callers_of(id, stream) == d.callers_of(s.id, stream)
            &&& n.db.clock_of(id) == d.clock_of(s.id)
        }),
{
    let id = model::next_id(v.db.sources) as i64;
    let ids = |o: u32| id;
    let streams = d.streams_of(s.id);
    let (c, opening) = publisher::source_opened(d, s, ordinal, Some(i64::MIN));
    lemma_opening_applied(v, d, s, ordinal, ids);
    let w = replica::all_applied(v, opening).0;
    lemma_first_poll(d, s, ordinal);
    let poll = publisher::polled(c, d).1->Ok_0;
    let rows = publisher::by_time(exchange::tails(d, s.id, streams));
    assert(poll.drop_last() =~= Seq::empty());
    assert(exchange::followed(w.states, poll.drop_last(), ids) == w.states);
    exchange::law_a_subscriber_follows_an_opening(
        v.states,
        d,
        s,
        ordinal,
        Some(i64::MIN),
        ids,
    );
    exchange::law_a_subscriber_follows_a_poll(w.states, c, d, ids);
    assert(replica::all_applied(w, poll.drop_last()) == (
        w,
        Ok::<Applied, ErrorView>(subscriber::nothing()),
    ));
    lemma_applied_more(v, opening, poll);
    let n = replica::all_applied(w, poll).0;
    // The rows.
    exchange::lemma_streams_distinct(d, s.id);
    lemma_tails(d, s.id, streams);
    lemma_sorted_members(exchange::tails(d, s.id, streams));
    assert forall|i: int| 0 <= i < rows.len() implies model::past(
        w.db.watermark(id, (#[trigger] rows[i]).stream),
        rows[i].ts,
    ) by {
        let r = rows[i];
        assert(rows.contains(r));
        assert(exchange::tails(d, s.id, streams).contains(r));
        laws::law_the_tail_is_in_order(d, s.id, r.stream);
        let live = d.live_of(s.id, r.stream);
        let k = choose|k: int| 0 <= k < live.len() && live[k] == r;
        assert(model::past(d.watermark(s.id, r.stream), live[k].ts));
        lemma_same_newest(d.segments_of(s.id, r.stream));
        assert(w.db.segments_of(id, r.stream) == rewrite::laws::renumbered(d.segments_of(s.id, r.stream)));
    }
    seqs::lemma_filter_all(
        rows,
        |r: WalView| model::past(w.db.watermark(id, r.stream), r.ts),
    );
    assert forall|st: Seq<char>| (#[trigger] w.db.wal_of(id, st)).len() == 0 by {
        assert(w.db.wal_of(id, st) == v.db.wal_of(id, st));
    }
    lemma_rows_run(w.db, id, rows);
    let full = w.db.wal_run(id, rows).0;
    if rows.len() == 0 {
        assert(full == w.db);
    }
    assert(n.db == full);
    // What is live.
    let live = d.live_of(s.id, stream);
    let held = n.db.wal_of(id, stream);
    laws::law_rows_are_in_order(n.db, id, stream);
    laws::law_the_tail_is_in_order(d, s.id, stream);
    assert forall|r: WalView| (#[trigger] held.contains(r)) == live.contains(r) by {
        assert(held.contains(r) <==> rows.contains(r) && r.stream == stream);
        assert(rows.contains(r) <==> exchange::tails(d, s.id, streams).contains(r));
        if live.contains(r) {
            let k = choose|k: int| 0 <= k < live.len() && live[k] == r;
            assert(live[k].stream == stream);
            laws::law_a_stream_is_its_rows(d, s.id, stream);
            seqs::lemma_filter_shorter(
                d.wal_of(s.id, stream),
                |r: WalView| model::past(d.watermark(s.id, stream), r.ts),
            );
        }
    }
    lemma_same_rows(held, live);
    lemma_same_newest(d.segments_of(s.id, stream));
    assert(n.db.segments_of(id, stream) == w.db.segments_of(id, stream));
    let mark = n.db.watermark(id, stream);
    assert(mark == d.watermark(s.id, stream));
    seqs::lemma_filter_all(held, |r: WalView| model::past(mark, r.ts));
    assert(n.db.callers_of(id, stream) == w.db.callers_of(id, stream));
    assert(n.db.clock_of(id) == w.db.clock_of(id));
    assert(n.db.source(id) == w.db.source(id));
}

/// A reader gets the same of a replicated stream as of the publisher's, whatever
/// its encoder: the same segments, and the same tail behind them.
pub proof fn law_a_replica_reads_the_same<E: SegmentEncoder>(
    v: ReplicaView,
    d: DbView,
    s: SourceView,
    ordinal: u32,
    stream: Seq<char>,
    encoder: E,
)
    requires
        v.db.wf(),
        v.db.writable(),
        subscriber::in_ordinal_order(v.states),
        model::next_id(v.db.sources) <= i64::MAX,
        nothing_of(v.db, model::next_id(v.db.sources) as i64),
        d.wf(),
        d.caller_rows.len() <= usize::MAX,
        forall|st: Seq<char>|
            laws::one_after_the_other(#[trigger] d.segments_of(s.id, st)) && d.segments_of(
                s.id,
                st,
            ).len() <= u64::MAX,
    ensures
        read::stream_parts(
            replica::all_applied(v, whole_source(d, s, ordinal)).0.db,
            model::next_id(v.db.sources) as i64,
            stream,
            encoder,
        ) == read::stream_parts(d, s.id, stream, encoder),
{
    law_a_replica_holds_the_source(v, d, s, ordinal, stream);
    let sealed = d.segments_of(s.id, stream);
    assert(read::payloads(rewrite::laws::renumbered(sealed)) =~= read::payloads(sealed));
}

} // verus!
