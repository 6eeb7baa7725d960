//! What holds of a publisher's frames, and between a publisher and a
//! subscriber.

use vstd::prelude::*;

use super::frame::{FrameView, IndexKind, IndexState, NO_INDEX_STATE};
use super::publisher;
use super::publisher::CursorView;
use super::subscriber;
use super::subscriber::{Applied, SourceState, States, StepView};
use crate::db::laws;
use crate::db::model;
use crate::db::model::DbView;
use crate::db::records::{CallerAt, CallerAtView, ClockAt};
use crate::db::store;
use crate::db::table;
use crate::db::table::Keyed;
use crate::db::{CallerView, SegmentView, SourceView, WalView};
use crate::error::ErrorView;
use crate::names;
use crate::seqs;
use crate::text;

verus! {

// ------------------------------------------------------------ what frames look like

/// A declared state is never that of no index, which a subscriber exempts from
/// waiting for the whole set.
pub proof fn law_a_declared_state_is_of_an_index(state: IndexState, ts: i64, blob: Seq<u8>)
    ensures
        publisher::folded(state, ts, blob) != NO_INDEX_STATE,
{
}

/// Every entry becomes one frame, in order, and only the first that a source
/// ever sends is the whole set.
pub proof fn law_only_the_first_entry_is_full(
    c: CursorView,
    stream: Seq<char>,
    rows: Seq<CallerView>,
)
    ensures
        ({
            let run = publisher::index_run(c, stream, rows);
            &&& run.frames.len() == rows.len()
            &&& run.sent_full == (c.sent_full || rows.len() > 0)
            &&& rows.len() == 0 ==> run.state == c.index_state
            &&& rows.len() > 0 ==> run.state != NO_INDEX_STATE
            &&& forall|i: int|
                0 <= i < rows.len() ==> (#[trigger] run.frames[i] matches FrameView::Index {
                    source,
                    stream: name,
                    ts,
                    kind,
                    state,
                    blob,
                } && {
                    &&& source == c.ordinal
                    &&& name == stream
                    &&& ts == rows[i].ts
                    &&& blob == rows[i].blob
                    &&& kind == if i == 0 && !c.sent_full {
                        IndexKind::Full
                    } else {
                        IndexKind::Delta
                    }
                })
        }),
    decreases rows.len(),
{
    if rows.len() > 0 {
        let d = rows.drop_last();
        law_only_the_first_entry_is_full(c, stream, d);
        let was = publisher::index_run(c, stream, d);
        let run = publisher::index_run(c, stream, rows);
        assert forall|i: int| 0 <= i < rows.len() implies (#[trigger] run.frames[i] matches FrameView::Index {
            source,
            stream: name,
            ts,
            kind,
            state,
            blob,
        } && {
            &&& source == c.ordinal
            &&& name == stream
            &&& ts == rows[i].ts
            &&& blob == rows[i].blob
            &&& kind == if i == 0 && !c.sent_full {
                IndexKind::Full
            } else {
                IndexKind::Delta
            }
        }) by {
            if i < d.len() {
                assert(run.frames[i] == was.frames[i]);
                assert(d[i] == rows[i]);
            }
        }
    }
}

/// Whether frames are a source's index entries and clock observations.
pub open spec fn announcing(frames: Seq<FrameView>, ordinal: u32) -> bool {
    forall|i: int|
        0 <= i < frames.len() ==> (#[trigger] frames[i]).ordinal() == ordinal && (frames[i] is Index
            || frames[i] is ClockOffset)
}

/// Sending entries sends entries, and moves nothing else of a source.
pub proof fn lemma_indexes_announce(c: CursorView, d: DbView, streams: Seq<Seq<char>>, from: i64)
    ensures
        announcing(publisher::indexes_emitted(c, d, streams, from).1, c.ordinal),
        publisher::indexes_emitted(c, d, streams, from).0.ordinal == c.ordinal,
        publisher::indexes_emitted(c, d, streams, from).0.source_id == c.source_id,
        publisher::indexes_emitted(c, d, streams, from).0.since == c.since,
        publisher::indexes_emitted(c, d, streams, from).0.seq == c.seq,
        publisher::indexes_emitted(c, d, streams, from).0.clock_after == c.clock_after,
    decreases streams.len(),
{
    if streams.len() > 0 {
        lemma_indexes_announce(c, d, streams.drop_last(), from);
        let (was, head) = publisher::indexes_emitted(c, d, streams.drop_last(), from);
        let stream = streams.last();
        let rows = publisher::index_rows(was, d, stream, from);
        let pending = rows.skip(
            publisher::sent_before(
                rows,
                publisher::cursor_at(was.streams, stream).index_after,
            ) as int,
        );
        law_only_the_first_entry_is_full(was, stream, pending);
        let more = publisher::index_run(was, stream, pending).frames;
        let all = publisher::indexes_emitted(c, d, streams, from).1;
        assert(all == head + more);
        assert forall|i: int| 0 <= i < all.len() implies (#[trigger] all[i]).ordinal() == c.ordinal
            && (all[i] is Index || all[i] is ClockOffset) by {
            if i < head.len() {
                assert(all[i] == head[i]);
            } else {
                assert(all[i] == more[i - head.len()]);
            }
        }
    }
}

/// Every poll of a source ends in exactly one frame of rows, under the next
/// sequence number and against the state declared by then. What comes before it
/// are index entries and clock observations, so no row names an identity that
/// has not been sent.
pub proof fn law_a_poll_ends_in_its_rows(c: CursorView, d: DbView)
    requires
        c.seq < u64::MAX,
    ensures
        ({
            let (now, r) = publisher::polled(c, d);
            r matches Ok(frames) ==> {
                &&& frames.len() > 0
                &&& frames.last() matches FrameView::Rows { source, seq, index_state, rows } && {
                    &&& source == c.ordinal
                    &&& seq == c.seq
                    &&& index_state == now.index_state
                }
                &&& announcing(frames.drop_last(), c.ordinal)
                &&& now.seq == c.seq + 1
                &&& now.ordinal == c.ordinal
                &&& now.source_id == c.source_id
                &&& now.since == c.since
            }
        }),
{
    let (now, r) = publisher::polled(c, d);
    if r is Ok {
        let frames = r->Ok_0;
        let (ready, head) = publisher::announced(c, d);
        let streams = d.caller_streams(c.source_id);
        lemma_indexes_announce(c, d, streams, c.since);
        let index_frames = publisher::indexes_emitted(c, d, streams, c.since).1;
        let offsets = publisher::offset_frames(
            c.ordinal,
            publisher::offsets_past(d.clock_of(c.source_id), c.clock_after, c.since),
        );
        assert(frames.drop_last() =~= head);
        assert forall|i: int| 0 <= i < head.len() implies (#[trigger] head[i]).ordinal()
            == c.ordinal && (head[i] is Index || head[i] is ClockOffset) by {
            if i < index_frames.len() {
                assert(head[i] == index_frames[i]);
            } else {
                assert(head[i] == offsets[i - index_frames.len()]);
            }
        }
    }
}

// ------------------------------------------------------------ rows in order

/// The rows of a frame are those gathered, no more and no fewer, by timestamp
/// and then by stream.
pub proof fn law_rows_are_sorted(s: Seq<WalView>)
    ensures
        publisher::by_time(s).to_multiset() == s.to_multiset(),
        forall|i: int, j: int|
            0 <= i < j < publisher::by_time(s).len() ==> !publisher::row_before(
                #[trigger] publisher::by_time(s)[j],
                #[trigger] publisher::by_time(s)[i],
            ),
    decreases s.len(),
{
    broadcast use vstd::seq_lib::group_to_multiset_ensures;

    if s.len() > 0 {
        let d = s.drop_last();
        law_rows_are_sorted(d);
        lemma_with_row_keeps(publisher::by_time(d), s.last());
        assert(s =~= d.push(s.last()));
    }
}

proof fn lemma_row_order(a: WalView, b: WalView, c: WalView)
    ensures
        !publisher::row_before(b, a) && !publisher::row_before(c, b) ==> !publisher::row_before(
            c,
            a,
        ),
        publisher::row_before(a, b) ==> !publisher::row_before(b, a),
{
    text::lemma_text_order(a.stream, b.stream);
    text::lemma_text_order(b.stream, c.stream);
    text::lemma_text_order(a.stream, c.stream);
    if text::text_less(c.stream, a.stream) && a.stream != b.stream && b.stream != c.stream {
        if text::text_less(a.stream, b.stream) && text::text_less(b.stream, c.stream) {
            text::lemma_text_transitive(a.stream, b.stream, c.stream);
        }
    }
}

proof fn lemma_with_row_keeps(s: Seq<WalView>, x: WalView)
    requires
        forall|i: int, j: int|
            0 <= i < j < s.len() ==> !publisher::row_before(#[trigger] s[j], #[trigger] s[i]),
    ensures
        publisher::with_row(s, x).to_multiset() == s.push(x).to_multiset(),
        publisher::with_row(s, x).len() == s.len() + 1,
        forall|i: int, j: int|
            0 <= i < j < s.len() + 1 ==> !publisher::row_before(
                #[trigger] publisher::with_row(s, x)[j],
                #[trigger] publisher::with_row(s, x)[i],
            ),
        forall|k: int|
            0 <= k < s.len() + 1 ==> (#[trigger] publisher::with_row(s, x)[k] == x || exists|m: int|
                0 <= m < s.len() && #[trigger] s[m] == publisher::with_row(s, x)[k]),
    decreases s.len(),
{
    broadcast use vstd::seq_lib::group_to_multiset_ensures;

    let w = publisher::with_row(s, x);
    if s.len() > 0 && publisher::row_before(x, s.last()) {
        let d = s.drop_last();
        lemma_with_row_keeps(d, x);
        let v = publisher::with_row(d, x);
        assert(w == v.push(s.last()));
        assert(s =~= d.push(s.last()));
        assert(w.to_multiset() =~= s.push(x).to_multiset());
        assert forall|i: int, j: int| 0 <= i < j < w.len() implies !publisher::row_before(
            #[trigger] w[j],
            #[trigger] w[i],
        ) by {
            if j < v.len() {
                assert(w[i] == v[i] && w[j] == v[j]);
            } else {
                assert(w[i] == v[i]);
                if v[i] == x {
                    lemma_row_order(x, s.last(), x);
                } else {
                    let m = choose|m: int| 0 <= m < d.len() && #[trigger] d[m] == v[i];
                    assert(s[m] == v[i]);
                    assert(s[s.len() - 1] == s.last());
                }
            }
        }
        assert forall|k: int| 0 <= k < w.len() implies (#[trigger] w[k] == x || exists|m: int|
            0 <= m < s.len() && #[trigger] s[m] == w[k]) by {
            if k < v.len() {
                if v[k] != x {
                    let m = choose|m: int| 0 <= m < d.len() && #[trigger] d[m] == v[k];
                    assert(s[m] == w[k]);
                }
            } else {
                assert(s[s.len() - 1] == w[k]);
            }
        }
    } else {
        assert forall|i: int, j: int| 0 <= i < j < w.len() implies !publisher::row_before(
            #[trigger] w[j],
            #[trigger] w[i],
        ) by {
            if j == s.len() {
                assert(w[i] == s[i]);
                if i < s.len() - 1 {
                    assert(!publisher::row_before(s[s.len() - 1], s[i]));
                    lemma_row_order(s[i], s.last(), x);
                }
            }
        }
        assert forall|k: int| 0 <= k < w.len() implies (#[trigger] w[k] == x || exists|m: int|
            0 <= m < s.len() && #[trigger] s[m] == w[k]) by {
            if k < s.len() {
                assert(s[k] == w[k]);
            }
        }
    }
}

// ------------------------------------------------------------ following a publisher

/// What a subscriber remembers once a frame has been applied and carried out. A
/// source opened under an ordinal gets the row that `ids` says.
pub open spec fn followed_one(s: States, f: FrameView, ids: spec_fn(u32) -> i64) -> States {
    let (now, r) = subscriber::planned(s, f);
    match r {
        Ok(StepView::Open { ordinal, seed, uuid, complete }) => subscriber::with_state(
            now,
            ordinal,
            subscriber::opened_state(ids(ordinal), complete),
        ),
        Ok(StepView::Keep { ordinal, source_id, stream, row, kind, state }) => {
            subscriber::after_entry(now, ordinal, kind, state)
        },
        Ok(StepView::Observe { ordinal, source_id, ts, offset_ns }) => subscriber::after_offset(
            now,
            ordinal,
            ts,
            offset_ns,
        ),
        _ => now,
    }
}

/// What a subscriber remembers once frames have been applied and carried out.
pub open spec fn followed(s: States, frames: Seq<FrameView>, ids: spec_fn(u32) -> i64) -> States
    decreases frames.len(),
{
    if frames.len() == 0 {
        s
    } else {
        followed_one(followed(s, frames.drop_last(), ids), frames.last(), ids)
    }
}

/// Whether a subscriber is where the publisher has come to with a source: it
/// holds the state declared, has seen the whole set if it was sent, and has
/// seen every sequence number.
pub open spec fn tracks(s: States, c: CursorView) -> bool {
    &&& subscriber::in_ordinal_order(s)
    &&& c.index_state != NO_INDEX_STATE ==> c.sent_full
    &&& subscriber::state_of(s, c.ordinal) matches Some(st) && {
        &&& st.index_state == c.index_state
        &&& st.seen_full == c.sent_full
        &&& st.last_seq == if c.seq == 0 {
            None
        } else {
            Some((c.seq - 1) as u64)
        }
    }
}

/// Whether nothing moved but what is remembered of one ordinal.
pub open spec fn only(s: States, t: States, ordinal: u32) -> bool {
    forall|q: u32|
        q != ordinal ==> #[trigger] subscriber::state_of(t, q) == subscriber::state_of(s, q)
}

/// Following frames one part after the other.
pub proof fn lemma_followed_more(
    s: States,
    a: Seq<FrameView>,
    b: Seq<FrameView>,
    ids: spec_fn(u32) -> i64,
)
    ensures
        followed(s, a + b, ids) == followed(followed(s, a, ids), b, ids),
    decreases b.len(),
{
    if b.len() == 0 {
        assert(a + b =~= a);
    } else {
        lemma_followed_more(s, a, b.drop_last(), ids);
        assert((a + b).drop_last() =~= a + b.drop_last());
        assert((a + b).last() == b.last());
    }
}

/// What remembering one source leaves.
pub proof fn lemma_remembered(s: States, ordinal: u32, st: SourceState)
    requires
        subscriber::in_ordinal_order(s),
    ensures
        subscriber::in_ordinal_order(subscriber::with_state(s, ordinal, st)),
        subscriber::state_of(subscriber::with_state(s, ordinal, st), ordinal) == Some(st),
        only(s, subscriber::with_state(s, ordinal, st), ordinal),
{
    subscriber::lemma_with_state_in_order(s, ordinal, st);
    subscriber::lemma_state_of_with(s, ordinal, st, ordinal);
    assert forall|q: u32| q != ordinal implies #[trigger] subscriber::state_of(
        subscriber::with_state(s, ordinal, st),
        q,
    ) == subscriber::state_of(s, q) by {
        subscriber::lemma_state_of_with(s, ordinal, st, q);
    }
}

proof fn lemma_follow_entry(s: States, c: CursorView, f: FrameView, ids: spec_fn(u32) -> i64)
    requires
        tracks(s, c),
        f matches FrameView::Index { source, kind, .. } && source == c.ordinal && (c.sent_full
            || kind == IndexKind::Full),
    ensures
        tracks(
            followed_one(s, f, ids),
            CursorView { index_state: f->Index_state, sent_full: true, ..c },
        ),
        only(s, followed_one(s, f, ids), c.ordinal),
{
    let st = subscriber::state_of(s, c.ordinal)->0;
    let next = SourceState {
        index_state: f->Index_state,
        seen_full: st.seen_full || f->Index_kind == IndexKind::Full,
        ..st
    };
    lemma_remembered(s, c.ordinal, next);
}

proof fn lemma_follow_run(
    s: States,
    c: CursorView,
    stream: Seq<char>,
    rows: Seq<CallerView>,
    ids: spec_fn(u32) -> i64,
)
    requires
        tracks(s, c),
    ensures
        ({
            let run = publisher::index_run(c, stream, rows);
            let t = followed(s, run.frames, ids);
            &&& tracks(
                t,
                CursorView { index_state: run.state, sent_full: run.sent_full, ..c },
            )
            &&& only(s, t, c.ordinal)
        }),
    decreases rows.len(),
{
    if rows.len() > 0 {
        let d = rows.drop_last();
        lemma_follow_run(s, c, stream, d, ids);
        let was = publisher::index_run(c, stream, d);
        let run = publisher::index_run(c, stream, rows);
        let t = followed(s, was.frames, ids);
        assert(run.frames.drop_last() =~= was.frames);
        lemma_follow_entry(
            t,
            CursorView { index_state: was.state, sent_full: was.sent_full, ..c },
            run.frames.last(),
            ids,
        );
    }
}

proof fn lemma_follow_indexes(
    s: States,
    c: CursorView,
    d: DbView,
    streams: Seq<Seq<char>>,
    from: i64,
    ids: spec_fn(u32) -> i64,
)
    requires
        tracks(s, c),
    ensures
        ({
            let (now, frames) = publisher::indexes_emitted(c, d, streams, from);
            &&& tracks(followed(s, frames, ids), now)
            &&& only(s, followed(s, frames, ids), c.ordinal)
            &&& now.ordinal == c.ordinal
        }),
    decreases streams.len(),
{
    if streams.len() > 0 {
        lemma_follow_indexes(s, c, d, streams.drop_last(), from, ids);
        let (was, head) = publisher::indexes_emitted(c, d, streams.drop_last(), from);
        let stream = streams.last();
        let rows = publisher::index_rows(was, d, stream, from);
        let pending = rows.skip(
            publisher::sent_before(
                rows,
                publisher::cursor_at(was.streams, stream).index_after,
            ) as int,
        );
        let more = publisher::index_run(was, stream, pending).frames;
        lemma_follow_run(followed(s, head, ids), was, stream, pending, ids);
        lemma_followed_more(s, head, more, ids);
    }
}

proof fn lemma_follow_offsets(
    s: States,
    c: CursorView,
    pairs: Seq<(i64, i64)>,
    ids: spec_fn(u32) -> i64,
)
    requires
        tracks(s, c),
    ensures
        tracks(followed(s, publisher::offset_frames(c.ordinal, pairs), ids), c),
        only(s, followed(s, publisher::offset_frames(c.ordinal, pairs), ids), c.ordinal),
    decreases pairs.len(),
{
    let frames = publisher::offset_frames(c.ordinal, pairs);
    if pairs.len() > 0 {
        lemma_follow_offsets(s, c, pairs.drop_last(), ids);
        assert(frames.drop_last() =~= publisher::offset_frames(c.ordinal, pairs.drop_last()));
        let t = followed(s, frames.drop_last(), ids);
        let st = subscriber::state_of(t, c.ordinal)->0;
        lemma_remembered(
            t,
            c.ordinal,
            SourceState { last_offset: Some((pairs.last().0, pairs.last().1)), ..st },
        );
    }
}

proof fn lemma_follow_segments(
    s: States,
    c: CursorView,
    stream: Seq<char>,
    segments: Seq<SegmentView>,
    ids: spec_fn(u32) -> i64,
)
    requires
        tracks(s, c),
    ensures
        followed(s, publisher::segment_frames(c.ordinal, stream, segments), ids) == s,
    decreases segments.len(),
{
    let frames = publisher::segment_frames(c.ordinal, stream, segments);
    if segments.len() > 0 {
        lemma_follow_segments(s, c, stream, segments.drop_last(), ids);
        assert(frames.drop_last() =~= publisher::segment_frames(
            c.ordinal,
            stream,
            segments.drop_last(),
        ));
    }
}

proof fn lemma_follow_streams(
    s: States,
    c: CursorView,
    d: DbView,
    streams: Seq<Seq<char>>,
    since: Option<i64>,
    ids: spec_fn(u32) -> i64,
)
    requires
        tracks(s, c),
    ensures
        ({
            let (now, frames) = publisher::streams_opened(c, d, streams, since);
            &&& followed(s, frames, ids) == s
            &&& tracks(s, now)
            &&& now.ordinal == c.ordinal
        }),
    decreases streams.len(),
{
    if streams.len() > 0 {
        lemma_follow_streams(s, c, d, streams.drop_last(), since, ids);
        let head = publisher::streams_opened(c, d, streams.drop_last(), since).1;
        let more = publisher::stream_frames(c.ordinal, d, c.source_id, streams.last(), since);
        match since {
            Some(t) => lemma_follow_segments(
                s,
                c,
                streams.last(),
                store::overlapping(d.segments_of(c.source_id, streams.last()), t, i64::MAX),
                ids,
            ),
            None => {},
        }
        lemma_followed_more(s, head, more, ids);
    }
}

/// A subscriber that applies what opening a source ships is where the publisher
/// is with it, whatever else it knows.
pub proof fn law_a_subscriber_follows_an_opening(
    s: States,
    d: DbView,
    source: SourceView,
    ordinal: u32,
    since: Option<i64>,
    ids: spec_fn(u32) -> i64,
)
    requires
        subscriber::in_ordinal_order(s),
    ensures
        ({
            let (c, frames) = publisher::source_opened(d, source, ordinal, since);
            &&& tracks(followed(s, frames, ids), c)
            &&& only(s, followed(s, frames, ids), ordinal)
        }),
{
    let hello = seq![publisher::handshake(ordinal, source)];
    let c0 = publisher::unopened(ordinal, source.id, publisher::begins_at(since));
    let from = publisher::begins_at(since);
    let (indexed, index_frames) = publisher::indexes_emitted(
        c0,
        d,
        d.caller_streams(source.id),
        from,
    );
    let (streamed, segments) = publisher::streams_opened(
        indexed,
        d,
        d.streams_of(source.id),
        since,
    );
    let pairs = publisher::offsets_opened(d.clock_of(source.id), since);
    let s1 = followed(s, hello, ids);
    assert(hello.drop_last() =~= Seq::empty());
    assert(followed(s, hello.drop_last(), ids) == s);
    assert(s1 == subscriber::with_state(
        s,
        ordinal,
        subscriber::opened_state(ids(ordinal), source.complete),
    ));
    lemma_remembered(s, ordinal, subscriber::opened_state(ids(ordinal), source.complete));
    assert(tracks(s1, c0));
    lemma_follow_indexes(s1, c0, d, d.caller_streams(source.id), from, ids);
    let s2 = followed(s1, index_frames, ids);
    lemma_follow_streams(s2, indexed, d, d.streams_of(source.id), since, ids);
    lemma_follow_offsets(s2, streamed, pairs, ids);
    let offsets = publisher::offset_frames(ordinal, pairs);
    lemma_followed_more(s, hello, index_frames, ids);
    lemma_followed_more(s, hello + index_frames, segments, ids);
    lemma_followed_more(s, hello + index_frames + segments, offsets, ids);
    lemma_opened_ordinal(c0, d, d.caller_streams(source.id), from);
}

proof fn lemma_opened_ordinal(c: CursorView, d: DbView, streams: Seq<Seq<char>>, from: i64)
    ensures
        publisher::indexes_emitted(c, d, streams, from).0.ordinal == c.ordinal,
{
    lemma_indexes_announce(c, d, streams, from);
}

/// A subscriber that is where the publisher was stays with it through a poll,
/// and writes every row of it: none is skipped, and no gap shows.
pub proof fn law_a_subscriber_follows_a_poll(
    s: States,
    c: CursorView,
    d: DbView,
    ids: spec_fn(u32) -> i64,
)
    requires
        tracks(s, c),
        c.seq < u64::MAX,
        publisher::polled(c, d).1 is Ok,
    ensures
        ({
            let now = publisher::polled(c, d).0;
            let frames = publisher::polled(c, d).1->Ok_0;
            let before = followed(s, frames.drop_last(), ids);
            let rows = frames.last()->Rows_rows;
            &&& tracks(followed(s, frames, ids), now)
            &&& only(s, followed(s, frames, ids), c.ordinal)
            &&& now.ordinal == c.ordinal
            &&& subscriber::planned(before, frames.last()).1 == Ok::<StepView, ErrorView>(
                if rows.len() == 0 {
                    StepView::Nothing(subscriber::nothing())
                } else {
                    StepView::Write {
                        source_id: subscriber::state_of(before, c.ordinal)->0.source_id,
                        rows,
                        applied: Applied { rows: rows.len() as usize, ..subscriber::nothing() },
                    }
                },
            )
        }),
{
    let (now, r) = publisher::polled(c, d);
    let frames = r->Ok_0;
    let streams = d.caller_streams(c.source_id);
    let (indexed, index_frames) = publisher::indexes_emitted(c, d, streams, c.since);
    let pairs = publisher::offsets_past(d.clock_of(c.source_id), c.clock_after, c.since);
    let (ready, head) = publisher::announced(c, d);
    lemma_indexes_announce(c, d, streams, c.since);
    lemma_follow_indexes(s, c, d, streams, c.since, ids);
    let s1 = followed(s, index_frames, ids);
    lemma_follow_offsets(s1, indexed, pairs, ids);
    lemma_followed_more(s, index_frames, publisher::offset_frames(c.ordinal, pairs), ids);
    let s2 = followed(s, head, ids);
    assert(tracks(s2, ready));
    assert(frames.drop_last() =~= head);
    let st = subscriber::state_of(s2, c.ordinal)->0;
    lemma_remembered(s2, c.ordinal, SourceState { last_seq: Some(c.seq), ..st });
}

/// A subscriber that is where the publisher was with every source stays with it
/// through what a poll of all of them ships.
pub proof fn law_a_subscriber_follows_a_publisher(
    s: States,
    cs: Seq<CursorView>,
    d: DbView,
    n: nat,
    ids: spec_fn(u32) -> i64,
)
    requires
        n <= cs.len(),
        forall|i: int| 0 <= i < cs.len() ==> tracks(s, #[trigger] cs[i]) && cs[i].seq < u64::MAX,
        forall|i: int, j: int|
            0 <= i < j < cs.len() ==> (#[trigger] cs[i]).ordinal != (#[trigger] cs[j]).ordinal,
        publisher::polled_first(cs, d, n).1 is Ok,
    ensures
        ({
            let (now, r) = publisher::polled_first(cs, d, n);
            &&& now.len() == cs.len()
            &&& forall|i: int|
                0 <= i < cs.len() ==> tracks(followed(s, r->Ok_0, ids), #[trigger] now[i])
                    && now[i].ordinal == cs[i].ordinal
            &&& forall|i: int| n <= i < cs.len() ==> #[trigger] now[i] == cs[i]
        }),
    decreases n,
{
    if n > 0 {
        let k = (n - 1) as nat;
        let (was, q) = publisher::polled_first(cs, d, k);
        law_a_subscriber_follows_a_publisher(s, cs, d, k, ids);
        let head = q->Ok_0;
        let t = followed(s, head, ids);
        let c = cs[n - 1];
        assert(was[n - 1] == c);
        assert(tracks(t, was[n - 1]));
        let (now_c, more) = publisher::polled(c, d);
        law_a_subscriber_follows_a_poll(t, c, d, ids);
        let f = more->Ok_0;
        lemma_followed_more(s, head, f, ids);
        let u = followed(t, f, ids);
        let now = publisher::polled_first(cs, d, n).0;
        assert forall|i: int| 0 <= i < cs.len() implies tracks(u, #[trigger] now[i])
            && now[i].ordinal == cs[i].ordinal by {
            if i != n - 1 {
                assert(now[i] == was[i]);
                assert(tracks(t, was[i]));
                if i < n - 1 {
                    assert(cs[i].ordinal != cs[n - 1].ordinal);
                } else {
                    assert(cs[n - 1].ordinal != cs[i].ordinal);
                }
                assert(subscriber::state_of(u, was[i].ordinal) == subscriber::state_of(
                    t,
                    was[i].ordinal,
                ));
            }
        }
    }
}

// ------------------------------------------------------------ nothing is left behind

/// Catching up from the beginning ships every segment of a stream, in order and
/// as it is.
pub proof fn law_catching_up_ships_every_segment(
    d: DbView,
    source: i64,
    ordinal: u32,
    stream: Seq<char>,
)
    ensures
        publisher::stream_frames(ordinal, d, source, stream, Some(i64::MIN))
            == publisher::segment_frames(ordinal, stream, d.segments_of(source, stream)),
{
    let s = d.segments_of(source, stream);
    seqs::lemma_filter_all(
        s,
        |v: SegmentView| v.meta.last_ts >= i64::MIN && v.meta.first_ts <= i64::MAX,
    );
}

/// Catching up from the beginning ships every clock observation.
pub proof fn law_catching_up_ships_every_observation(d: DbView, source: i64)
    ensures
        publisher::offsets_opened(d.clock_of(source), Some(i64::MIN)) == d.clock_of(source),
{
    seqs::lemma_filter_all(d.clock_of(source), |p: (i64, i64)| p.0 >= i64::MIN);
}

/// Where none of a stream's index entries has been sent, all of them are.
pub proof fn law_catching_up_ships_every_entry(c: CursorView, d: DbView, stream: Seq<char>)
    requires
        publisher::cursor_at(c.streams, stream).index_after is None,
    ensures
        publisher::index_emitted(c, d, stream, i64::MIN).1 == publisher::index_run(
            c,
            stream,
            d.callers_of(c.source_id, stream),
        ).frames,
{
    let all = d.callers_of(c.source_id, stream);
    seqs::lemma_filter_all(all, |r: CallerView| i64::MIN <= r.ts <= i64::MAX);
    assert(all.skip(0) =~= all);
}

/// The live rows of streams, one stream after the other.
pub open spec fn tails(d: DbView, source: i64, streams: Seq<Seq<char>>) -> Seq<WalView>
    decreases streams.len(),
{
    if streams.len() == 0 {
        Seq::empty()
    } else {
        tails(d, source, streams.drop_last()) + d.live_of(source, streams.last())
    }
}

/// A source's streams are in order, and none occurs twice.
pub proof fn lemma_streams_distinct(d: DbView, source: i64)
    ensures
        names::ascending_names(d.streams_of(source)),
        forall|i: int, j: int|
            0 <= i < j < d.streams_of(source).len() ==> #[trigger] d.streams_of(source)[i]
                != #[trigger] d.streams_of(source)[j],
{
    let none: Seq<Seq<char>> = Seq::empty();
    names::lemma_with_names(none, d.segment_names(source));
    names::lemma_with_names(d.sealed_streams(source), d.wal_names(source));
    let all = d.streams_of(source);
    assert forall|i: int, j: int| 0 <= i < j < all.len() implies #[trigger] all[i]
        != #[trigger] all[j] by {
        assert(text::text_less(all[i], all[j]));
        text::lemma_text_order(all[i], all[j]);
    }
}

/// Sending entries leaves how far the rows have been shipped.
pub proof fn lemma_indexes_keep_rows(
    c: CursorView,
    d: DbView,
    streams: Seq<Seq<char>>,
    from: i64,
    name: Seq<char>,
)
    ensures
        publisher::cursor_at(
            publisher::indexes_emitted(c, d, streams, from).0.streams,
            name,
        ).wal_after == publisher::cursor_at(c.streams, name).wal_after,
    decreases streams.len(),
{
    if streams.len() > 0 {
        lemma_indexes_keep_rows(c, d, streams.drop_last(), from, name);
    }
}

/// How far opening leaves a stream published.
pub proof fn lemma_opened_rows(
    c: CursorView,
    d: DbView,
    streams: Seq<Seq<char>>,
    since: Option<i64>,
    k: int,
)
    requires
        0 <= k < streams.len(),
    ensures
        publisher::cursor_at(
            publisher::streams_opened(c, d, streams, since).0.streams,
            streams[k],
        ).wal_after == publisher::opened_after(d, c.source_id, streams[k], since),
    decreases streams.len(),
{
    if k < streams.len() - 1 {
        lemma_opened_rows(c, d, streams.drop_last(), since, k);
        assert(streams.drop_last()[k] == streams[k]);
    }
}

/// Reading streams that are published to their watermarks gives their whole
/// tails.
pub proof fn lemma_gather_tails(c: CursorView, d: DbView, streams: Seq<Seq<char>>)
    requires
        forall|i: int, j: int| 0 <= i < j < streams.len() ==> streams[i] != streams[j],
        forall|k: int|
            0 <= k < streams.len() ==> publisher::cursor_at(
                c.streams,
                #[trigger] streams[k],
            ).wal_after == d.watermark(c.source_id, streams[k]),
    ensures
        publisher::gathered(c, d, streams).refusal is None,
        publisher::gathered(c, d, streams).rows == tails(d, c.source_id, streams),
        forall|q: Seq<char>|
            !streams.contains(q) ==> #[trigger] publisher::cursor_at(
                publisher::gathered(c, d, streams).streams,
                q,
            ) == publisher::cursor_at(c.streams, q),
    decreases streams.len(),
{
    if streams.len() > 0 {
        let head = streams.drop_last();
        let name = streams.last();
        assert forall|k: int| 0 <= k < head.len() implies publisher::cursor_at(
            c.streams,
            #[trigger] head[k],
        ).wal_after == d.watermark(c.source_id, head[k]) by {
            assert(head[k] == streams[k]);
        }
        lemma_gather_tails(c, d, head);
        assert(!head.contains(name)) by {
            if head.contains(name) {
                let k = choose|k: int| 0 <= k < head.len() && head[k] == name;
                assert(streams[k] != streams[streams.len() - 1]);
            }
        }
        let g = publisher::gathered(c, d, head);
        let after = publisher::cursor_at(g.streams, name).wal_after;
        assert(streams[streams.len() - 1] == name);
        assert(after == d.watermark(c.source_id, name));
        let live = d.live_of(c.source_id, name);
        let keep = |r: WalView| model::past(after, r.ts);
        assert forall|i: int| 0 <= i < live.len() implies keep(#[trigger] live[i]) by {
            seqs::lemma_filter_member(
                d.wal_of(c.source_id, name),
                |r: WalView| model::past(after, r.ts),
                i,
            );
        }
        seqs::lemma_filter_all(live, keep);
        assert forall|q: Seq<char>| !streams.contains(q) implies #[trigger] publisher::cursor_at(
            publisher::gathered(c, d, streams).streams,
            q,
        ) == publisher::cursor_at(c.streams, q) by {
            assert(streams[streams.len() - 1] == name);
            if head.contains(q) {
                let k = choose|k: int| 0 <= k < head.len() && head[k] == q;
                assert(streams[k] == q);
            }
            assert(q != name);
            assert(publisher::cursor_at(g.streams, q) == publisher::cursor_at(c.streams, q));
        }
    }
}

/// The first poll after catching up from the beginning ships the whole tail:
/// with the segments shipped before it, every row a reader of the archive would
/// see.
pub proof fn law_the_first_poll_ships_the_tail(d: DbView, source: SourceView, ordinal: u32)
    ensures
        ({
            let c = publisher::source_opened(d, source, ordinal, Some(i64::MIN)).0;
            publisher::polled(c, d).1 matches Ok(frames) && frames.len() > 0 && (
            frames.last() matches FrameView::Rows { rows, .. } && rows == publisher::by_time(
                tails(d, source.id, d.streams_of(source.id)),
            ))
        }),
{
    let since = Some(i64::MIN);
    let all = d.streams_of(source.id);
    let entries = d.caller_streams(source.id);
    let (indexed, _f) = publisher::indexes_emitted(
        publisher::unopened(ordinal, source.id, publisher::begins_at(since)),
        d,
        entries,
        i64::MIN,
    );
    lemma_indexes_announce(publisher::unopened(ordinal, source.id, publisher::begins_at(since)), d, entries, i64::MIN);
    let streamed = publisher::streams_opened(indexed, d, all, since).0;
    lemma_opened_ids(indexed, d, all, since);
    let c = publisher::source_opened(d, source, ordinal, since).0;
    let ready = publisher::announced(c, d).0;
    lemma_indexes_announce(c, d, entries, c.since);
    lemma_streams_distinct(d, source.id);
    assert forall|k: int| 0 <= k < all.len() implies publisher::cursor_at(
        ready.streams,
        #[trigger] all[k],
    ).wal_after == d.watermark(ready.source_id, all[k]) by {
        lemma_opened_rows(indexed, d, all, since, k);
        lemma_indexes_keep_rows(c, d, entries, c.since, all[k]);
    }
    lemma_gather_tails(ready, d, all);
}

/// Opening streams leaves a source's ordinal and id.
pub proof fn lemma_opened_ids(c: CursorView, d: DbView, streams: Seq<Seq<char>>, since: Option<i64>)
    ensures
        publisher::streams_opened(c, d, streams, since).0.ordinal == c.ordinal,
        publisher::streams_opened(c, d, streams, since).0.source_id == c.source_id,
        publisher::streams_opened(c, d, streams, since).0.since == c.since,
    decreases streams.len(),
{
    if streams.len() > 0 {
        lemma_opened_ids(c, d, streams.drop_last(), since);
    }
}

// ------------------------------------------------------------ nothing is sent twice

/// Whether every index entry of a stream has been sent.
pub open spec fn caught_up(c: CursorView, d: DbView, stream: Seq<char>) -> bool {
    let rows = publisher::index_rows(c, d, stream, c.since);
    publisher::sent_before(rows, publisher::cursor_at(c.streams, stream).index_after) == rows.len()
}

/// Whether every live row of a stream has been shipped, and no seal has passed
/// what has.
pub open spec fn shipped(c: CursorView, d: DbView, stream: Seq<char>) -> bool {
    let after = publisher::cursor_at(c.streams, stream).wal_after;
    &&& publisher::sealed_past(d, c.source_id, stream, after) is None
    &&& publisher::fresh_rows(d, c.source_id, stream, after).len() == 0
}

/// Whether index entries are in the order of their timestamps.
pub open spec fn by_when(rows: Seq<CallerView>) -> bool {
    forall|i: int, j: int| 0 <= i < j < rows.len() ==> (#[trigger] rows[i]).ts <= (#[trigger] rows[j]).ts
}

/// A stream's index entries are in order.
pub proof fn lemma_entries_in_order(d: DbView, source: i64, stream: Seq<char>)
    requires
        d.wf(),
    ensures
        by_when(d.callers_of(source, stream)),
        d.callers_of(source, stream).len() <= d.caller_rows.len(),
{
    let here = |v: CallerAtView| table::within::<CallerAt>(v, source as int, Some(stream));
    table::lemma_filter_in_order::<CallerAt>(d.caller_rows, here);
    seqs::lemma_filter_shorter(d.caller_rows, here);
    let t = d.caller_rows.filter(here);
    let rows = d.callers_of(source, stream);
    assert forall|i: int, j: int| 0 <= i < j < rows.len() implies (#[trigger] rows[i]).ts
        <= (#[trigger] rows[j]).ts by {
        assert(rows[i] == t[i].row && rows[j] == t[j].row);
        table::lemma_key_order(CallerAt::key_of(t[i]), CallerAt::key_of(t[j]));
    }
}

/// Entries in order are in order when some are left out.
pub proof fn lemma_entries_filtered(rows: Seq<CallerView>, keep: spec_fn(CallerView) -> bool)
    requires
        by_when(rows),
    ensures
        by_when(rows.filter(keep)),
    decreases rows.len(),
{
    reveal(Seq::filter);
    let f = rows.filter(keep);
    if rows.len() > 0 {
        let d = rows.drop_last();
        assert(by_when(d)) by {
            assert forall|i: int, j: int| 0 <= i < j < d.len() implies (#[trigger] d[i]).ts
                <= (#[trigger] d[j]).ts by {
                assert(d[i] == rows[i] && d[j] == rows[j]);
            }
        }
        lemma_entries_filtered(d, keep);
        if keep(rows.last()) {
            let g = d.filter(keep);
            assert forall|i: int, j: int| 0 <= i < j < f.len() implies (#[trigger] f[i]).ts
                <= (#[trigger] f[j]).ts by {
                if j < g.len() {
                    assert(f[i] == g[i] && f[j] == g[j]);
                } else {
                    assert(f[i] == g[i]);
                    seqs::lemma_filter_member(d, keep, i);
                    let k = choose|k: int| 0 <= k < d.len() && d[k] == g[i];
                    assert(d[k] == rows[k]);
                    assert(rows[rows.len() - 1] == rows.last());
                }
            }
        }
    }
}

/// The entries from the last one's timestamp on are those at the end that share
/// it.
/// The entries from the last one's timestamp on are those at it.
pub proof fn lemma_entries_at_end(rows: Seq<CallerView>, ts: i64)
    requires
        by_when(rows),
        rows.len() > 0 ==> rows.last().ts <= ts,
    ensures
        ({
            let f = rows.filter(|r: CallerView| ts <= r.ts);
            &&& f.len() == publisher::trailing_at(rows, ts)
            &&& publisher::leading_at(f, ts) == f.len()
            &&& forall|i: int| 0 <= i < f.len() ==> (#[trigger] f[i]).ts == ts
        }),
    decreases rows.len(),
{
    reveal(Seq::filter);
    let keep = |r: CallerView| ts <= r.ts;
    let f = rows.filter(keep);
    if rows.len() > 0 {
        let d = rows.drop_last();
        assert(by_when(d)) by {
            assert forall|i: int, j: int| 0 <= i < j < d.len() implies (#[trigger] d[i]).ts
                <= (#[trigger] d[j]).ts by {
                assert(d[i] == rows[i] && d[j] == rows[j]);
            }
        }
        if d.len() > 0 {
            assert(d.last() == rows[d.len() - 1]);
            assert(rows[d.len() - 1].ts <= rows[rows.len() - 1].ts);
        }
        lemma_entries_at_end(d, ts);
        if rows.last().ts == ts {
            assert(f =~= d.filter(keep).push(rows.last()));
        } else {
            assert forall|i: int| 0 <= i < d.len() implies !keep(#[trigger] d[i]) by {
                assert(rows[i].ts <= rows[rows.len() - 1].ts);
            }
            if d.filter(keep).len() > 0 {
                seqs::lemma_filter_member(d, keep, 0);
                let k = choose|k: int| 0 <= k < d.len() && d[k] == d.filter(keep)[0];
                assert(!keep(d[k]));
            }
            assert(f =~= d.filter(keep));
        }
    }
    lemma_all_lead(f, ts);
}

proof fn lemma_all_lead(rows: Seq<CallerView>, ts: i64)
    requires
        forall|i: int| 0 <= i < rows.len() ==> (#[trigger] rows[i]).ts == ts,
    ensures
        publisher::leading_at(rows, ts) == rows.len(),
    decreases rows.len(),
{
    if rows.len() > 0 {
        let t = rows.skip(1);
        assert forall|i: int| 0 <= i < t.len() implies (#[trigger] t[i]).ts == ts by {
            assert(rows[i + 1].ts == ts);
        }
        lemma_all_lead(t, ts);
    }
}

proof fn lemma_emitting_catches_up(c: CursorView, d: DbView, stream: Seq<char>)
    requires
        d.wf(),
        d.caller_rows.len() <= usize::MAX,
    ensures
        caught_up(publisher::index_emitted(c, d, stream, c.since).0, d, stream),
{
    let cursor = publisher::cursor_at(c.streams, stream);
    let all = d.callers_of(c.source_id, stream);
    let rows = publisher::index_rows(c, d, stream, c.since);
    let start = match cursor.index_after {
        Some((ts, _)) => ts,
        None => c.since,
    };
    let from = |r: CallerView| start <= r.ts <= i64::MAX;
    lemma_entries_in_order(d, c.source_id, stream);
    lemma_entries_filtered(all, from);
    seqs::lemma_filter_shorter(all, from);
    let now = publisher::index_emitted(c, d, stream, c.since).0;
    let reached = publisher::resume_after(rows, cursor.index_after);
    assert(publisher::cursor_at(now.streams, stream).index_after == reached);
    if rows.len() > 0 {
        let ts = rows.last().ts;
        seqs::lemma_filter_member(all, from, rows.len() - 1);
        lemma_entries_at_end(rows, ts);
        let again = |r: CallerView| ts <= r.ts;
        let on = |r: CallerView| ts <= r.ts <= i64::MAX;
        seqs::lemma_filter_twice(all, from, again);
        seqs::lemma_filter_same(all, |r: CallerView| from(r) && again(r), on);
        let rest = publisher::index_rows(now, d, stream, c.since);
        assert(rest == rows.filter(again));
        seqs::lemma_filter_shorter(rows, again);
        assert(publisher::trailing_at(rows, ts) <= usize::MAX);
    } else {
        let rest = publisher::index_rows(now, d, stream, c.since);
        assert(rest == rows);
    }
}

/// Sending the entries of streams leaves none of them unsent.
pub proof fn lemma_emitting_all_catches_up(
    c: CursorView,
    d: DbView,
    streams: Seq<Seq<char>>,
    k: int,
)
    requires
        d.wf(),
        d.caller_rows.len() <= usize::MAX,
        0 <= k < streams.len(),
    ensures
        caught_up(publisher::indexes_emitted(c, d, streams, c.since).0, d, streams[k]),
    decreases streams.len(),
{
    let was = publisher::indexes_emitted(c, d, streams.drop_last(), c.since).0;
    let now = publisher::indexes_emitted(c, d, streams, c.since).0;
    lemma_indexes_announce(c, d, streams.drop_last(), c.since);
    if streams[k] == streams.last() {
        lemma_emitting_catches_up(was, d, streams.last());
    } else {
        lemma_emitting_all_catches_up(c, d, streams.drop_last(), k);
        assert(streams.drop_last()[k] == streams[k]);
        assert(publisher::cursor_at(now.streams, streams[k]) == publisher::cursor_at(
            was.streams,
            streams[k],
        ));
    }
}

/// Where no entry is unsent, none is sent.
pub proof fn lemma_quiet_entries(c: CursorView, d: DbView, streams: Seq<Seq<char>>)
    requires
        d.wf(),
        d.caller_rows.len() <= usize::MAX,
        forall|k: int| 0 <= k < streams.len() ==> caught_up(c, d, #[trigger] streams[k]),
    ensures
        ({
            let (now, frames) = publisher::indexes_emitted(c, d, streams, c.since);
            &&& frames.len() == 0
            &&& now.index_state == c.index_state
            &&& now.sent_full == c.sent_full
            &&& now.source_id == c.source_id
            &&& now.since == c.since
            &&& forall|q: Seq<char>| caught_up(c, d, q) ==> #[trigger] caught_up(now, d, q)
        }),
    decreases streams.len(),
{
    if streams.len() > 0 {
        let head = streams.drop_last();
        assert forall|k: int| 0 <= k < head.len() implies caught_up(c, d, #[trigger] head[k]) by {
            assert(head[k] == streams[k]);
        }
        lemma_quiet_entries(c, d, head);
        let was = publisher::indexes_emitted(c, d, head, c.since).0;
        let name = streams.last();
        assert(streams[streams.len() - 1] == name);
        assert(caught_up(was, d, name));
        let rows = publisher::index_rows(was, d, name, c.since);
        assert(rows.skip(rows.len() as int) =~= Seq::empty());
        let now = publisher::indexes_emitted(c, d, streams, c.since).0;
        assert forall|q: Seq<char>| caught_up(c, d, q) implies #[trigger] caught_up(now, d, q) by {
            assert(caught_up(was, d, q));
            if q == name {
                lemma_emitting_catches_up(was, d, name);
            } else {
                assert(publisher::cursor_at(now.streams, q) == publisher::cursor_at(
                    was.streams,
                    q,
                ));
            }
        }
    }
}

/// The newest timestamp of rows is that of one, and none is newer.
pub proof fn lemma_newest(s: Seq<WalView>)
    ensures
        model::newest_row(s) is None <==> s.len() == 0,
        forall|i: int|
            0 <= i < s.len() ==> model::newest_row(s) is Some && (#[trigger] s[i]).ts
                <= model::newest_row(s)->0,
        model::newest_row(s) is Some ==> exists|i: int|
            0 <= i < s.len() && (#[trigger] s[i]).ts == model::newest_row(s)->0,
    decreases s.len(),
{
    if s.len() > 0 {
        let d = s.drop_last();
        lemma_newest(d);
        assert forall|i: int| 0 <= i < s.len() implies model::newest_row(s) is Some
            && (#[trigger] s[i]).ts <= model::newest_row(s)->0 by {
            if i < d.len() {
                assert(d[i] == s[i]);
            }
        }
        let n = model::newest_row(s)->0;
        if s.last().ts == n {
            assert(s[s.len() - 1].ts == n);
        } else {
            let i = choose|i: int| 0 <= i < d.len() && (#[trigger] d[i]).ts == n;
            assert(s[i].ts == n);
        }
    }
}

proof fn lemma_gathering_ships(c: CursorView, d: DbView, stream: Seq<char>)
    requires
        publisher::sealed_past(
            d,
            c.source_id,
            stream,
            publisher::cursor_at(c.streams, stream).wal_after,
        ) is None,
    ensures
        ({
            let cursor = publisher::cursor_at(c.streams, stream);
            let fresh = publisher::fresh_rows(d, c.source_id, stream, cursor.wal_after);
            shipped(
                CursorView {
                    streams: c.streams.insert(
                        stream,
                        publisher::StreamCursor {
                            wal_after: model::latest(cursor.wal_after, model::newest_row(fresh)),
                            ..cursor
                        },
                    ),
                    ..c
                },
                d,
                stream,
            )
        }),
{
    let after = publisher::cursor_at(c.streams, stream).wal_after;
    let live = d.live_of(c.source_id, stream);
    let keep = |r: WalView| model::past(after, r.ts);
    let fresh = live.filter(keep);
    let reached = model::latest(after, model::newest_row(fresh));
    let more = |r: WalView| model::past(reached, r.ts);
    lemma_newest(fresh);
    let w = d.watermark(c.source_id, stream);
    if w is Some && reached is Some && after is None {
        let i = choose|i: int| 0 <= i < fresh.len() && (#[trigger] fresh[i]).ts == reached->0;
        seqs::lemma_filter_member(live, keep, i);
        let k = choose|k: int| 0 <= k < live.len() && live[k] == fresh[i];
        seqs::lemma_filter_member(
            d.wal_of(c.source_id, stream),
            |r: WalView| model::past(w, r.ts),
            k,
        );
    }
    let rest = live.filter(more);
    if rest.len() > 0 {
        seqs::lemma_filter_member(live, more, 0);
        let k = choose|k: int| 0 <= k < live.len() && live[k] == rest[0];
        assert(keep(live[k]));
        seqs::lemma_filter_keeps(live, keep, k);
        let i = choose|i: int| 0 <= i < fresh.len() && fresh[i] == live[k];
        assert(fresh[i].ts <= model::newest_row(fresh)->0);
    }
}

proof fn lemma_gathering_all_ships(c: CursorView, d: DbView, streams: Seq<Seq<char>>)
    requires
        publisher::gathered(c, d, streams).refusal is None,
    ensures
        ({
            let now = CursorView { streams: publisher::gathered(c, d, streams).streams, ..c };
            &&& forall|k: int| 0 <= k < streams.len() ==> shipped(now, d, #[trigger] streams[k])
            &&& forall|q: Seq<char>|
                (#[trigger] publisher::cursor_at(now.streams, q)).index_after
                    == publisher::cursor_at(c.streams, q).index_after
        }),
    decreases streams.len(),
{
    if streams.len() > 0 {
        let head = streams.drop_last();
        let name = streams.last();
        lemma_gathering_all_ships(c, d, head);
        let g = publisher::gathered(c, d, head);
        let was = CursorView { streams: g.streams, ..c };
        let now = CursorView { streams: publisher::gathered(c, d, streams).streams, ..c };
        lemma_gathering_ships(was, d, name);
        assert forall|k: int| 0 <= k < streams.len() implies shipped(
            now,
            d,
            #[trigger] streams[k],
        ) by {
            if streams[k] != name {
                assert(head[k] == streams[k]);
                assert(shipped(was, d, head[k]));
                assert(publisher::cursor_at(now.streams, streams[k]) == publisher::cursor_at(
                    was.streams,
                    streams[k],
                ));
            }
        }
        assert forall|q: Seq<char>|
            (#[trigger] publisher::cursor_at(now.streams, q)).index_after == publisher::cursor_at(
                c.streams,
                q,
            ).index_after by {
            let before = publisher::cursor_at(was.streams, q);
        }
    }
}

/// Reading streams that have been shipped whole gives nothing.
pub proof fn lemma_quiet_rows(c: CursorView, d: DbView, streams: Seq<Seq<char>>)
    requires
        forall|k: int| 0 <= k < streams.len() ==> shipped(c, d, #[trigger] streams[k]),
    ensures
        ({
            let g = publisher::gathered(c, d, streams);
            &&& g.refusal is None
            &&& g.rows.len() == 0
            &&& forall|q: Seq<char>|
                (#[trigger] publisher::cursor_at(g.streams, q)).wal_after == publisher::cursor_at(
                    c.streams,
                    q,
                ).wal_after
        }),
    decreases streams.len(),
{
    if streams.len() > 0 {
        let head = streams.drop_last();
        let name = streams.last();
        assert forall|k: int| 0 <= k < head.len() implies shipped(c, d, #[trigger] head[k]) by {
            assert(head[k] == streams[k]);
        }
        lemma_quiet_rows(c, d, head);
        assert(streams[streams.len() - 1] == name);
        assert(shipped(c, d, name));
        let g = publisher::gathered(c, d, head);
        let now = publisher::gathered(c, d, streams);
        assert(publisher::cursor_at(g.streams, name).wal_after == publisher::cursor_at(
            c.streams,
            name,
        ).wal_after);
        assert forall|q: Seq<char>|
            (#[trigger] publisher::cursor_at(now.streams, q)).wal_after == publisher::cursor_at(
                c.streams,
                q,
            ).wal_after by {
            let before = publisher::cursor_at(g.streams, q);
        }
    }
}

/// A source's clock observations are in order.
pub proof fn lemma_offsets_in_order(d: DbView, source: i64)
    requires
        d.wf(),
    ensures
        forall|i: int, j: int|
            0 <= i < j < d.clock_of(source).len() ==> (#[trigger] d.clock_of(source)[i]).0 <= (
            #[trigger] d.clock_of(source)[j]).0,
{
    let here = |v: ClockAt| table::within::<ClockAt>(v, source as int, None);
    table::lemma_filter_in_order::<ClockAt>(d.clock_offsets, here);
    let t = d.clock_offsets.filter(here);
    let pairs = d.clock_of(source);
    assert forall|i: int, j: int| 0 <= i < j < pairs.len() implies (#[trigger] pairs[i]).0 <= (
    #[trigger] pairs[j]).0 by {
        assert(pairs[i].0 == t[i].ts && pairs[j].0 == t[j].ts);
        table::lemma_key_order(ClockAt::key_of(t[i]), ClockAt::key_of(t[j]));
    }
}

/// Observations that have been sent are not sent again.
pub proof fn lemma_offsets_seen(pairs: Seq<(i64, i64)>, after: Option<i64>, since: i64)
    requires
        forall|i: int, j: int|
            0 <= i < j < pairs.len() ==> (#[trigger] pairs[i]).0 <= (#[trigger] pairs[j]).0,
    ensures
        ({
            let sent = publisher::offsets_past(pairs, after, since);
            publisher::offsets_past(pairs, publisher::last_offset(sent, after), since).len() == 0
        }),
    decreases pairs.len(),
{
    reveal(Seq::filter);
    let keep = |p: (i64, i64)| model::past(after, p.0) && p.0 >= since;
    let sent = pairs.filter(keep);
    let reached = publisher::last_offset(sent, after);
    let more = |p: (i64, i64)| model::past(reached, p.0) && p.0 >= since;
    if pairs.filter(more).len() > 0 {
        seqs::lemma_filter_member(pairs, more, 0);
        let k = choose|k: int| 0 <= k < pairs.len() && pairs[k] == pairs.filter(more)[0];
        lemma_last_kept(pairs, keep, k);
    }
}

proof fn lemma_last_kept(pairs: Seq<(i64, i64)>, keep: spec_fn((i64, i64)) -> bool, k: int)
    requires
        forall|i: int, j: int|
            0 <= i < j < pairs.len() ==> (#[trigger] pairs[i]).0 <= (#[trigger] pairs[j]).0,
        0 <= k < pairs.len(),
    ensures
        keep(pairs[k]) ==> pairs.filter(keep).len() > 0 && pairs[k].0
            <= pairs.filter(keep).last().0,
    decreases pairs.len(),
{
    reveal(Seq::filter);
    let d = pairs.drop_last();
    if k < d.len() {
        assert forall|i: int, j: int| 0 <= i < j < d.len() implies (#[trigger] d[i]).0 <= (
        #[trigger] d[j]).0 by {
            assert(d[i] == pairs[i] && d[j] == pairs[j]);
        }
        lemma_last_kept(d, keep, k);
        assert(d[k] == pairs[k]);
        assert(pairs[k].0 <= pairs[pairs.len() - 1].0);
    }
}

/// Polling again what has not changed ships an empty frame of rows and nothing
/// else: the keepalive. Nothing is sent twice.
pub proof fn law_a_quiet_poll_is_a_keepalive(c: CursorView, d: DbView)
    requires
        d.wf(),
        d.caller_rows.len() <= usize::MAX,
        c.seq < u64::MAX,
        publisher::polled(c, d).1 is Ok,
    ensures
        ({
            let now = publisher::polled(c, d).0;
            publisher::polled(now, d).1 == Ok::<Seq<FrameView>, ErrorView>(
                seq![
                    FrameView::Rows {
                        source: c.ordinal,
                        seq: (c.seq + 1) as u64,
                        index_state: now.index_state,
                        rows: Seq::empty(),
                    },
                ],
            )
        }),
{
    let entries = d.caller_streams(c.source_id);
    let all = d.streams_of(c.source_id);
    let now = publisher::polled(c, d).0;
    let ready = publisher::announced(c, d).0;
    let indexed = publisher::indexes_emitted(c, d, entries, c.since).0;
    lemma_indexes_announce(c, d, entries, c.since);
    lemma_gathering_all_ships(ready, d, all);
    assert(now.source_id == c.source_id);
    // The index entries have been sent.
    assert forall|k: int| 0 <= k < entries.len() implies caught_up(now, d, #[trigger] entries[k]) by {
        lemma_emitting_all_catches_up(c, d, entries, k);
        assert(publisher::cursor_at(now.streams, entries[k]).index_after
            == publisher::cursor_at(ready.streams, entries[k]).index_after);
    }
    lemma_quiet_entries(now, d, entries);
    lemma_indexes_announce(now, d, entries, now.since);
    // The observations too.
    lemma_offsets_in_order(d, c.source_id);
    lemma_offsets_seen(d.clock_of(c.source_id), c.clock_after, c.since);
    // And the rows.
    let (again, head) = publisher::announced(now, d);
    assert(head =~= Seq::empty());
    assert forall|k: int| 0 <= k < all.len() implies shipped(again, d, #[trigger] all[k]) by {
        lemma_indexes_keep_rows(now, d, entries, now.since, all[k]);
        assert(shipped(
            CursorView { streams: publisher::gathered(ready, d, all).streams, ..ready },
            d,
            all[k],
        ));
    }
    lemma_quiet_rows(again, d, all);
    let rows = publisher::gathered(again, d, all).rows;
    assert(rows =~= Seq::empty());
    assert(publisher::by_time(rows) =~= Seq::empty());
    assert(Seq::<FrameView>::empty().push(
        FrameView::Rows {
            source: c.ordinal,
            seq: (c.seq + 1) as u64,
            index_state: now.index_state,
            rows: Seq::empty(),
        },
    ) =~= seq![
        FrameView::Rows {
            source: c.ordinal,
            seq: (c.seq + 1) as u64,
            index_state: now.index_state,
            rows: Seq::empty(),
        },
    ]);
}

/// Whether a row is live and past what has been shipped of its stream.
pub open spec fn unshipped(c: CursorView, d: DbView, r: WalView) -> bool {
    &&& d.live_of(c.source_id, r.stream).contains(r)
    &&& model::past(publisher::cursor_at(c.streams, r.stream).wal_after, r.ts)
}

proof fn lemma_fresh(c: CursorView, d: DbView, stream: Seq<char>, r: WalView)
    requires
        d.wf(),
    ensures
        ({
            let after = publisher::cursor_at(c.streams, stream).wal_after;
            publisher::fresh_rows(d, c.source_id, stream, after).contains(r) <==> r.stream == stream
                && unshipped(c, d, r)
        }),
{
    let after = publisher::cursor_at(c.streams, stream).wal_after;
    let live = d.live_of(c.source_id, stream);
    let keep = |x: WalView| model::past(after, x.ts);
    let fresh = live.filter(keep);
    laws::law_the_tail_is_in_order(d, c.source_id, stream);
    if fresh.contains(r) {
        let i = choose|i: int| 0 <= i < fresh.len() && fresh[i] == r;
        seqs::lemma_filter_member(live, keep, i);
        let k = choose|k: int| 0 <= k < live.len() && live[k] == fresh[i];
        assert(live[k].stream == stream);
    }
    if r.stream == stream && unshipped(c, d, r) {
        let k = choose|k: int| 0 <= k < live.len() && live[k] == r;
        seqs::lemma_filter_keeps(live, keep, k);
    }
}

/// What reading streams gathers, and how far they are published then.
proof fn lemma_gathered(c: CursorView, d: DbView, streams: Seq<Seq<char>>)
    requires
        d.wf(),
        publisher::gathered(c, d, streams).refusal is None,
        forall|i: int, j: int| 0 <= i < j < streams.len() ==> streams[i] != streams[j],
    ensures
        forall|r: WalView|
            #[trigger] publisher::gathered(c, d, streams).rows.contains(r) <==> streams.contains(
                r.stream,
            ) && unshipped(c, d, r),
        forall|q: Seq<char>|
            !streams.contains(q) ==> #[trigger] publisher::cursor_at(
                publisher::gathered(c, d, streams).streams,
                q,
            ) == publisher::cursor_at(c.streams, q),
        forall|r: WalView|
            streams.contains(r.stream) && #[trigger] unshipped(c, d, r) ==> !model::past(
                publisher::cursor_at(
                    publisher::gathered(c, d, streams).streams,
                    r.stream,
                ).wal_after,
                r.ts,
            ),
    decreases streams.len(),
{
    if streams.len() > 0 {
        let head = streams.drop_last();
        let name = streams.last();
        let last = streams.len() - 1;
        assert(streams[last] == name);
        assert forall|i: int, j: int| 0 <= i < j < head.len() implies head[i] != head[j] by {
            assert(streams[i] != streams[j]);
        }
        lemma_gathered(c, d, head);
        let g = publisher::gathered(c, d, head);
        let all = publisher::gathered(c, d, streams);
        assert(!head.contains(name)) by {
            if head.contains(name) {
                let k = choose|k: int| 0 <= k < head.len() && head[k] == name;
                assert(streams[k] != streams[last]);
            }
        }
        let after = publisher::cursor_at(c.streams, name).wal_after;
        let fresh = publisher::fresh_rows(d, c.source_id, name, after);
        lemma_newest(fresh);
        assert forall|q: Seq<char>| streams.contains(q) <==> head.contains(q) || q == name by {
            if streams.contains(q) {
                let k = choose|k: int| 0 <= k < streams.len() && streams[k] == q;
                if k < last {
                    assert(head[k] == q);
                }
            }
            if head.contains(q) {
                let k = choose|k: int| 0 <= k < head.len() && head[k] == q;
                assert(streams[k] == q);
            }
        }
        assert forall|q: Seq<char>| !streams.contains(q) implies #[trigger] publisher::cursor_at(
            all.streams,
            q,
        ) == publisher::cursor_at(c.streams, q) by {
            assert(!head.contains(q) && q != name);
            assert(publisher::cursor_at(g.streams, q) == publisher::cursor_at(c.streams, q));
        }
        assert forall|r: WalView|
            #[trigger] all.rows.contains(r) <==> streams.contains(r.stream) && unshipped(
                c,
                d,
                r,
            ) by {
            lemma_fresh(c, d, name, r);
            assert(all.rows == g.rows + fresh);
            if g.rows.contains(r) {
                let k = choose|k: int| 0 <= k < g.rows.len() && g.rows[k] == r;
                assert(all.rows[k] == r);
            }
            if fresh.contains(r) {
                let k = choose|k: int| 0 <= k < fresh.len() && fresh[k] == r;
                assert(all.rows[g.rows.len() + k] == r);
            }
            if all.rows.contains(r) {
                let k = choose|k: int| 0 <= k < all.rows.len() && all.rows[k] == r;
                if k < g.rows.len() {
                    assert(g.rows[k] == r);
                } else {
                    assert(fresh[k - g.rows.len()] == r);
                }
            }
        }
        assert forall|r: WalView|
            streams.contains(r.stream) && #[trigger] unshipped(c, d, r) implies !model::past(
            publisher::cursor_at(all.streams, r.stream).wal_after,
            r.ts,
        ) by {
            lemma_fresh(c, d, name, r);
            if r.stream == name {
                let k = choose|k: int| 0 <= k < fresh.len() && fresh[k] == r;
                assert(fresh[k].ts <= model::newest_row(fresh)->0);
            } else {
                assert(head.contains(r.stream));
            }
        }
    }
}

/// A poll of a source ships what is new and nothing else: a row is in its frame
/// exactly where it is live and past what has been shipped of its stream. What a
/// poll ships, no later one ships again, whatever the archive holds by then.
pub proof fn law_a_poll_ships_each_row_once(c: CursorView, d: DbView, later: DbView)
    requires
        d.wf(),
        later.wf(),
        publisher::polled(c, d).1 is Ok,
    ensures
        ({
            let (now, frames) = publisher::polled(c, d);
            let rows = frames->Ok_0.last()->Rows_rows;
            &&& forall|r: WalView| #[trigger] rows.contains(r) <==> unshipped(c, d, r)
            &&& forall|r: WalView| #[trigger] rows.contains(r) ==> !unshipped(now, later, r)
        }),
{
    let entries = d.caller_streams(c.source_id);
    let all = d.streams_of(c.source_id);
    let ready = publisher::announced(c, d).0;
    let now = publisher::polled(c, d).0;
    lemma_indexes_announce(c, d, entries, c.since);
    lemma_streams_distinct(d, c.source_id);
    lemma_gathered(ready, d, all);
    let g = publisher::gathered(ready, d, all);
    let rows = publisher::by_time(g.rows);
    law_rows_are_sorted(g.rows);
    assert forall|r: WalView| #[trigger] rows.contains(r) <==> unshipped(c, d, r) by {
        lemma_indexes_keep_rows(c, d, entries, c.since, r.stream);
        laws::law_a_stream_is_its_rows(d, c.source_id, r.stream);
        lemma_same_members(rows, g.rows, r);
        if unshipped(c, d, r) {
            let live = d.live_of(c.source_id, r.stream);
            let k = choose|k: int| 0 <= k < live.len() && live[k] == r;
            seqs::lemma_filter_member(
                d.wal_of(c.source_id, r.stream),
                |x: WalView| model::past(d.watermark(c.source_id, r.stream), x.ts),
                k,
            );
        }
    }
    assert forall|r: WalView| #[trigger] rows.contains(r) implies !unshipped(now, later, r) by {
        lemma_indexes_keep_rows(c, d, entries, c.since, r.stream);
        lemma_same_members(rows, g.rows, r);
        assert(unshipped(ready, d, r));
    }
}

proof fn lemma_same_members(a: Seq<WalView>, b: Seq<WalView>, r: WalView)
    requires
        a.to_multiset() == b.to_multiset(),
    ensures
        a.contains(r) <==> b.contains(r),
{
    broadcast use vstd::seq_lib::group_to_multiset_ensures;

    assert(a.contains(r) <==> a.to_multiset().count(r) > 0);
    assert(b.contains(r) <==> b.to_multiset().count(r) > 0);
}

} // verus!
