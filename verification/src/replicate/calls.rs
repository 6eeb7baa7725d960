//! What holds of a publisher over call after call.

use vstd::prelude::*;

use super::frame::FrameView;
use super::history;
use super::lossless;
use super::publisher;
use super::publisher::CursorView;
use crate::db::model;
use crate::db::model::DbView;
use crate::db::{CallerView, SourceView, WalView};
use crate::error::ErrorView;
use crate::seqs;
use crate::text;

verus! {

/// Calls of a publisher, one after the other: what its sources are at then, and the
/// frames of each call, or the first refusal.
pub open spec fn calls(cs: Seq<CursorView>, ds: Seq<DbView>) -> (
    Seq<CursorView>,
    Result<Seq<Seq<FrameView>>, ErrorView>,
)
    decreases ds.len(),
{
    if ds.len() == 0 {
        (cs, Ok(Seq::empty()))
    } else {
        let (was, r) = calls(cs, ds.drop_last());
        match r {
            Err(_) => (was, r),
            Ok(sent) => {
                let (now, one) = publisher::polled_first(was, ds.last(), was.len());
                (
                    now,
                    match one {
                        Ok(frames) => Ok(sent.push(frames)),
                        Err(e) => Err(e),
                    },
                )
            },
        }
    }
}

/// The frames of one source.
pub open spec fn of_source(frames: Seq<FrameView>, ordinal: u32) -> Seq<FrameView> {
    frames.filter(|f: FrameView| f.ordinal() == ordinal)
}

/// The frames of one source, call by call.
pub open spec fn from_source(sent: Seq<Seq<FrameView>>, ordinal: u32) -> Seq<Seq<FrameView>> {
    sent.map_values(|frames: Seq<FrameView>| of_source(frames, ordinal))
}

/// Whether every source has the number of its place.
pub open spec fn in_place(cs: Seq<CursorView>) -> bool {
    &&& cs.len() <= u32::MAX
    &&& forall|i: int| 0 <= i < cs.len() ==> (#[trigger] cs[i]).ordinal == i
}

proof fn lemma_of_none(frames: Seq<FrameView>, ordinal: u32)
    requires
        forall|k: int| 0 <= k < frames.len() ==> (#[trigger] frames[k]).ordinal() != ordinal,
    ensures
        of_source(frames, ordinal).len() == 0,
{
    let mine = |f: FrameView| f.ordinal() == ordinal;
    if frames.filter(mine).len() > 0 {
        seqs::lemma_filter_member(frames, mine, 0);
    }
}

proof fn lemma_call_of(cs: Seq<CursorView>, d: DbView, n: nat, i: int)
    requires
        n <= cs.len(),
        0 <= i < cs.len(),
        in_place(cs),
        forall|k: int| 0 <= k < cs.len() ==> (#[trigger] cs[k]).seq < u64::MAX,
        publisher::polled_first(cs, d, n).1 is Ok,
    ensures
        ({
            let (now, r) = publisher::polled_first(cs, d, n);
            let (c, one) = publisher::polled(cs[i], d);
            &&& now.len() == cs.len()
            &&& i < n ==> now[i] == c && one is Ok && of_source(r->Ok_0, i as u32) == one->Ok_0
            &&& i >= n ==> now[i] == cs[i] && of_source(r->Ok_0, i as u32).len() == 0
        }),
    decreases n,
{
    publisher::lemma_polled_rest(cs, d, n);
    let mine = |f: FrameView| f.ordinal() == i as u32;
    if n == 0 {
        lemma_of_none(Seq::empty(), i as u32);
    } else {
        let m = (n - 1) as nat;
        publisher::lemma_polled_rest(cs, d, m);
        lemma_call_of(cs, d, m, i);
        let head = publisher::polled_first(cs, d, m).1->Ok_0;
        let more = publisher::polled(cs[n - 1], d).1->Ok_0;
        let c = cs[n - 1];
        history::lemma_poll_formed(c, d);
        let state = publisher::polled(c, d).0.index_state;
        let from = c.seq as int;
        let k = choose|k: int| history::formed_at(more, k, c.ordinal, from, state);
        seqs::lemma_filter_concat(head, more, mine);
        if i == n - 1 {
            assert forall|j: int| 0 <= j < more.len() implies mine(#[trigger] more[j]) by {
                assert(more[j].ordinal() == cs[n - 1].ordinal);
            }
            seqs::lemma_filter_all(more, mine);
            assert(of_source(head, i as u32) + more =~= more);
        } else {
            assert forall|j: int| 0 <= j < more.len() implies (#[trigger] more[j]).ordinal()
                != i as u32 by {
                assert(more[j].ordinal() == cs[n - 1].ordinal);
            }
            lemma_of_none(more, i as u32);
            assert(of_source(head, i as u32) + of_source(more, i as u32) =~= of_source(
                head,
                i as u32,
            ));
        }
    }
}

/// Calling a publisher is polling each of its sources: over any number of calls that
/// are not refused, what they send of a source is what its polls send, call by call,
/// and they leave it where its polls do.
pub proof fn law_calls_poll_every_source(cs: Seq<CursorView>, ds: Seq<DbView>, i: int)
    requires
        in_place(cs),
        forall|k: int| 0 <= k < cs.len() ==> (#[trigger] cs[k]).seq + ds.len() <= u64::MAX,
        calls(cs, ds).1 is Ok,
        0 <= i < cs.len(),
    ensures
        ({
            let (now, r) = calls(cs, ds);
            let (c, mine) = history::polls(cs[i], ds);
            &&& r->Ok_0.len() == ds.len()
            &&& now.len() == cs.len()
            &&& in_place(now)
            &&& now[i] == c
            &&& c.seq == cs[i].seq + ds.len()
            &&& mine == Ok::<Seq<Seq<FrameView>>, ErrorView>(from_source(r->Ok_0, i as u32))
        }),
    decreases ds.len(),
{
    let sent = calls(cs, ds).1->Ok_0;
    if ds.len() == 0 {
        assert(from_source(sent, i as u32) =~= Seq::empty());
    } else {
        let head = ds.drop_last();
        let d = ds.last();
        let (was, r) = calls(cs, head);
        let before = r->Ok_0;
        law_calls_poll_every_source(cs, head, i);
        assert forall|k: int| 0 <= k < was.len() implies (#[trigger] was[k]).seq < u64::MAX by {
            law_calls_poll_every_source(cs, head, k);
            assert(cs[k].seq + ds.len() <= u64::MAX);
        }
        let frames = publisher::polled_first(was, d, was.len()).1->Ok_0;
        lemma_call_of(was, d, was.len(), i);
        history::lemma_poll_formed(was[i], d);
        assert(sent == before.push(frames));
        assert(from_source(sent, i as u32) =~= from_source(before, i as u32).push(
            of_source(frames, i as u32),
        ));
        let now = calls(cs, ds).0;
        assert forall|k: int| 0 <= k < now.len() implies (#[trigger] now[k]).ordinal == k by {
            lemma_call_of(was, d, was.len(), k);
            history::lemma_poll_formed(was[k], d);
            assert(was[k].ordinal == k);
        }
    }
}

/// A publisher that was opened at the present ships each row that is appended to a
/// stream exactly once: over any number of calls, what they send of it, one after the
/// other, is the stream's log, in order and with nothing missing.
pub proof fn law_tailing_calls_ship_each_row_once(
    d: DbView,
    ds: Seq<DbView>,
    i: int,
    stream: Seq<char>,
    log: Seq<WalView>,
    cuts: Seq<nat>,
)
    requires
        0 <= i < d.sources.len() <= u32::MAX,
        ds.len() <= u64::MAX,
        calls(publisher::sources_opened(d, d.sources, None).0, ds).1 is Ok,
        forall|k: int| 0 <= k < ds.len() ==> (#[trigger] ds[k]).wf(),
        history::ascending(log),
        forall|k: int|
            0 <= k < log.len() ==> model::past(
                publisher::opened_after(d, d.sources[i].id, stream, None),
                (#[trigger] log[k]).ts,
            ),
        history::grows_by(
            ds,
            d.sources[i].id,
            stream,
            publisher::opened_after(d, d.sources[i].id, stream, None),
            log,
            cuts,
        ),
        cuts.last() == log.len(),
    ensures
        ({
            let cs = publisher::sources_opened(d, d.sources, None).0;
            history::shipped_of(from_source(calls(cs, ds).1->Ok_0, i as u32), stream) == log
        }),
{
    let cs = publisher::sources_opened(d, d.sources, None).0;
    history::lemma_cursors_opened(d, d.sources, None);
    assert forall|k: int| 0 <= k < cs.len() implies (#[trigger] cs[k]).ordinal == k && cs[k].seq
        == 0 by {
        history::lemma_opened(d, d.sources[k], k as u32, None);
    }
    law_calls_poll_every_source(cs, ds, i);
    history::law_tailing_ships_each_appended_row_once(
        d,
        d.sources[i],
        i as u32,
        ds,
        stream,
        log,
        cuts,
    );
}

/// Over any number of calls, each sends one frame of rows for every source, the last
/// of that source's frames, and the numbers of those frames follow each other.
pub proof fn law_calls_are_numbered(cs: Seq<CursorView>, ds: Seq<DbView>, i: int, k: int)
    requires
        in_place(cs),
        forall|j: int| 0 <= j < cs.len() ==> (#[trigger] cs[j]).seq + ds.len() <= u64::MAX,
        calls(cs, ds).1 is Ok,
        0 <= i < cs.len(),
        0 <= k < ds.len(),
    ensures
        ({
            let frames = of_source(calls(cs, ds).1->Ok_0[k], i as u32);
            &&& frames.len() > 0
            &&& frames.last() matches FrameView::Rows { seq, .. } && seq == cs[i].seq + k
            &&& forall|j: int| 0 <= j < frames.len() - 1 ==> !((#[trigger] frames[j]) is Rows)
        }),
{
    law_calls_poll_every_source(cs, ds, i);
    history::law_polls_are_numbered(cs[i], ds);
    let sent = history::polls(cs[i], ds).1->Ok_0;
    let frames = of_source(calls(cs, ds).1->Ok_0[k], i as u32);
    assert(sent[k] == frames);
    let n = cs[i].seq + k;
    let state = history::newest_state(history::joined(sent.take(k + 1)), cs[i].index_state);
    assert(history::formed(sent[k], cs[i].ordinal, n, state));
    let ordinal = cs[i].ordinal;
    let m = choose|m: int| history::formed_at(frames, m, ordinal, n, state);
}

// ------------------------------------------------------------ each entry once

/// The index entries of a stream among frames.
pub open spec fn entries_in(frames: Seq<FrameView>, stream: Seq<char>) -> Seq<CallerView>
    decreases frames.len(),
{
    if frames.len() == 0 {
        Seq::empty()
    } else {
        let head = entries_in(frames.drop_last(), stream);
        match frames.last() {
            FrameView::Index { stream: name, ts, blob, .. } => if name == stream {
                head.push(CallerView { ts, blob })
            } else {
                head
            },
            _ => head,
        }
    }
}

proof fn lemma_entries_joined(a: Seq<FrameView>, b: Seq<FrameView>, stream: Seq<char>)
    ensures
        entries_in(a + b, stream) == entries_in(a, stream) + entries_in(b, stream),
    decreases b.len(),
{
    if b.len() == 0 {
        assert(a + b =~= a);
        assert(entries_in(a, stream) + entries_in(b, stream) =~= entries_in(a, stream));
    } else {
        lemma_entries_joined(a, b.drop_last(), stream);
        assert((a + b).drop_last() =~= a + b.drop_last());
        assert((a + b).last() == b.last());
        assert(entries_in(a + b, stream) =~= entries_in(a, stream) + entries_in(b, stream));
    }
}

proof fn lemma_no_entries(frames: Seq<FrameView>, stream: Seq<char>)
    requires
        forall|k: int| 0 <= k < frames.len() ==> !((#[trigger] frames[k]) is Index),
    ensures
        entries_in(frames, stream).len() == 0,
    decreases frames.len(),
{
    if frames.len() > 0 {
        let head = frames.drop_last();
        assert forall|k: int| 0 <= k < head.len() implies !((#[trigger] head[k]) is Index) by {
            assert(head[k] == frames[k]);
        }
        lemma_no_entries(head, stream);
        assert(!(frames[frames.len() - 1] is Index));
    }
}

proof fn lemma_run_entries(
    c: CursorView,
    name: Seq<char>,
    rows: Seq<CallerView>,
    stream: Seq<char>,
)
    ensures
        entries_in(publisher::index_run(c, name, rows).frames, stream) == if name == stream {
            rows
        } else {
            Seq::empty()
        },
    decreases rows.len(),
{
    if rows.len() > 0 {
        let before = publisher::index_run(c, name, rows.drop_last()).frames;
        let frames = publisher::index_run(c, name, rows).frames;
        lemma_run_entries(c, name, rows.drop_last(), stream);
        assert(frames.drop_last() =~= before);
        if name == stream {
            assert(rows.drop_last().push(rows.last()) =~= rows);
            let last = rows.last();
            assert(last == (CallerView { ts: last.ts, blob: last.blob }));
        }
    } else {
        assert(name == stream ==> rows =~= Seq::empty());
    }
}

proof fn lemma_indexes_of(
    c: CursorView,
    d: DbView,
    names: Seq<Seq<char>>,
    from: i64,
    stream: Seq<char>,
)
    requires
        forall|i: int, j: int| 0 <= i < j < names.len() ==> #[trigger] names[i] != #[trigger] names[j],
    ensures
        ({
            let (now, frames) = publisher::indexes_emitted(c, d, names, from);
            let after = publisher::cursor_at(c.streams, stream).index_after;
            let rows = publisher::index_rows(c, d, stream, from);
            let reached = publisher::cursor_at(now.streams, stream).index_after;
            &&& now.source_id == c.source_id
            &&& now.since == c.since
            &&& names.contains(stream) ==> entries_in(frames, stream) == rows.skip(
                publisher::sent_before(rows, after) as int,
            ) && reached == publisher::resume_after(rows, after)
            &&& !names.contains(stream) ==> entries_in(frames, stream).len() == 0 && reached
                == after
        }),
    decreases names.len(),
{
    if names.len() > 0 {
        let head = names.drop_last();
        let name = names.last();
        assert forall|i: int, j: int| 0 <= i < j < head.len() implies #[trigger] head[i]
            != #[trigger] head[j] by {
            assert(names[i] != names[j]);
        }
        lemma_indexes_of(c, d, head, from, stream);
        let (was, before) = publisher::indexes_emitted(c, d, head, from);
        let rows = publisher::index_rows(was, d, name, from);
        let pending = rows.skip(
            publisher::sent_before(
                rows,
                publisher::cursor_at(was.streams, name).index_after,
            ) as int,
        );
        let more = publisher::index_run(was, name, pending).frames;
        lemma_entries_joined(before, more, stream);
        lemma_run_entries(was, name, pending, stream);
        if head.contains(stream) {
            let k = choose|k: int| 0 <= k < head.len() && head[k] == stream;
            assert(names[k] == stream);
            assert(names[k] != names[names.len() - 1]);
            assert(entries_in(before, stream) + Seq::<CallerView>::empty() =~= entries_in(
                before,
                stream,
            ));
        } else if name == stream {
            assert(names[names.len() - 1] == stream);
            assert(entries_in(before, stream) + pending =~= pending);
        } else {
            if names.contains(stream) {
                let k = choose|k: int| 0 <= k < names.len() && names[k] == stream;
                assert(head[k] == stream);
            }
        }
    }
}

proof fn lemma_gathering_keeps_entries(
    c: CursorView,
    d: DbView,
    names: Seq<Seq<char>>,
    stream: Seq<char>,
)
    ensures
        publisher::cursor_at(publisher::gathered(c, d, names).streams, stream).index_after
            == publisher::cursor_at(c.streams, stream).index_after,
    decreases names.len(),
{
    if names.len() > 0 {
        lemma_gathering_keeps_entries(c, d, names.drop_last(), stream);
    }
}

/// Sending a source's entries, where those of a stream that were not sent stand
/// behind those that were.
proof fn lemma_pending_entries(
    c: CursorView,
    d: DbView,
    stream: Seq<char>,
    from: i64,
    a: Seq<CallerView>,
    b: Seq<CallerView>,
)
    requires
        d.wf(),
        d.caller_rows.len() <= usize::MAX,
        history::entries_from(d, c.source_id, stream, from) == a + b,
        publisher::cursor_at(c.streams, stream).index_after == publisher::resume_after(a, None),
    ensures
        ({
            let (now, frames) = publisher::indexes_emitted(
                c,
                d,
                d.caller_streams(c.source_id),
                from,
            );
            &&& entries_in(frames, stream) == b
            &&& publisher::cursor_at(now.streams, stream).index_after == publisher::resume_after(
                a + b,
                None,
            )
            &&& now.source_id == c.source_id
            &&& now.since == c.since
        }),
{
    let names = d.caller_streams(c.source_id);
    lossless::lemma_caller_stream(d, c.source_id, stream);
    assert forall|i: int, j: int| 0 <= i < j < names.len() implies #[trigger] names[i]
        != #[trigger] names[j] by {
        assert(text::text_less(names[i], names[j]));
        text::lemma_text_order(names[i], names[j]);
    }
    lemma_indexes_of(c, d, names, from, stream);
    history::lemma_entries_go_on(c, d, stream, from, a, b);
    if !names.contains(stream) {
        let keep = |r: CallerView| from <= r.ts <= i64::MAX;
        seqs::lemma_filter_shorter(d.callers_of(c.source_id, stream), keep);
        assert((a + b).len() == 0);
        assert(a =~= Seq::empty());
        assert(b =~= Seq::empty());
        assert(a + b =~= a);
        let frames = publisher::indexes_emitted(c, d, names, from).1;
        assert(entries_in(frames, stream) =~= b);
    }
}

proof fn lemma_poll_entries(
    c: CursorView,
    d: DbView,
    stream: Seq<char>,
    a: Seq<CallerView>,
    b: Seq<CallerView>,
)
    requires
        d.wf(),
        d.caller_rows.len() <= usize::MAX,
        history::entries_from(d, c.source_id, stream, c.since) == a + b,
        publisher::cursor_at(c.streams, stream).index_after == publisher::resume_after(a, None),
        publisher::polled(c, d).1 is Ok,
    ensures
        ({
            let (now, r) = publisher::polled(c, d);
            &&& entries_in(r->Ok_0, stream) == b
            &&& publisher::cursor_at(now.streams, stream).index_after == publisher::resume_after(
                a + b,
                None,
            )
            &&& now.source_id == c.source_id
            &&& now.since == c.since
        }),
{
    let names = d.caller_streams(c.source_id);
    lemma_pending_entries(c, d, stream, c.since, a, b);
    let index_frames = publisher::indexes_emitted(c, d, names, c.since).1;
    let (ready, head) = publisher::announced(c, d);
    lemma_gathering_keeps_entries(ready, d, d.streams_of(c.source_id), stream);
    let offsets = publisher::offset_frames(
        c.ordinal,
        publisher::offsets_past(d.clock_of(c.source_id), c.clock_after, c.since),
    );
    let frames = publisher::polled(c, d).1->Ok_0;
    let rest = offsets.push(frames.last());
    assert(frames =~= index_frames + rest);
    assert forall|k: int| 0 <= k < rest.len() implies !((#[trigger] rest[k]) is Index) by {
        if k < offsets.len() {
            assert(rest[k] == offsets[k]);
        }
    }
    lemma_no_entries(rest, stream);
    lemma_entries_joined(index_frames, rest, stream);
    assert(b + entries_in(rest, stream) =~= b);
}

/// Opening a source sends every index entry of a stream from the timestamp on that it
/// is opened at, in the order they are read.
pub proof fn law_opening_sends_every_entry(
    d: DbView,
    s: SourceView,
    ordinal: u32,
    since: Option<i64>,
    stream: Seq<char>,
)
    requires
        d.wf(),
        d.caller_rows.len() <= usize::MAX,
    ensures
        ({
            let (c, frames) = publisher::source_opened(d, s, ordinal, since);
            let rows = history::entries_from(d, s.id, stream, publisher::begins_at(since));
            &&& entries_in(frames, stream) == rows
            &&& publisher::cursor_at(c.streams, stream).index_after == publisher::resume_after(
                rows,
                None,
            )
        }),
{
    let from = publisher::begins_at(since);
    let fresh = publisher::unopened(ordinal, s.id, from);
    let rows = history::entries_from(d, s.id, stream, from);
    let none = Seq::<CallerView>::empty();
    assert(none + rows =~= rows);
    lemma_pending_entries(fresh, d, stream, from, none, rows);
    let (indexed, index_frames) = publisher::indexes_emitted(
        fresh,
        d,
        d.caller_streams(s.id),
        from,
    );
    let all = d.streams_of(s.id);
    let segments = publisher::streams_opened(indexed, d, all, since).1;
    let offsets = publisher::offset_frames(
        ordinal,
        publisher::offsets_opened(d.clock_of(s.id), since),
    );
    let hello = seq![publisher::handshake(ordinal, s)];
    history::lemma_opened_entries(indexed, d, all, since, stream);
    lemma_segments_are_no_entries(indexed, d, all, since);
    lemma_no_entries(hello, stream);
    lemma_no_entries(segments, stream);
    lemma_no_entries(offsets, stream);
    lemma_entries_joined(hello, index_frames, stream);
    lemma_entries_joined(hello + index_frames, segments, stream);
    lemma_entries_joined(hello + index_frames + segments, offsets, stream);
    assert(entries_in(hello, stream) + rows + entries_in(segments, stream) + entries_in(
        offsets,
        stream,
    ) =~= rows);
}

proof fn lemma_segments_are_no_entries(
    c: CursorView,
    d: DbView,
    names: Seq<Seq<char>>,
    since: Option<i64>,
)
    ensures
        ({
            let frames = publisher::streams_opened(c, d, names, since).1;
            forall|k: int| 0 <= k < frames.len() ==> !((#[trigger] frames[k]) is Index)
        }),
    decreases names.len(),
{
    if names.len() > 0 {
        lemma_segments_are_no_entries(c, d, names.drop_last(), since);
        let head = publisher::streams_opened(c, d, names.drop_last(), since).1;
        let frames = publisher::streams_opened(c, d, names, since).1;
        let more = publisher::stream_frames(c.ordinal, d, c.source_id, names.last(), since);
        assert(frames == head + more);
        assert forall|k: int| 0 <= k < frames.len() implies !((#[trigger] frames[k]) is Index) by {
            if k < head.len() {
                assert(frames[k] == head[k]);
            } else {
                assert(frames[k] == more[k - head.len()]);
            }
        }
    }
}

/// Over any number of calls, between which a stream's index entries only grow at the
/// end, each entry is sent exactly once: those that were sent before, and behind them
/// those that the calls send, one after the other, are the stream's entries, in the
/// order they are read.
pub proof fn law_calls_send_each_entry_once(
    cs: Seq<CursorView>,
    ds: Seq<DbView>,
    i: int,
    stream: Seq<char>,
    before: Seq<CallerView>,
)
    requires
        in_place(cs),
        forall|k: int| 0 <= k < cs.len() ==> (#[trigger] cs[k]).seq + ds.len() <= u64::MAX,
        calls(cs, ds).1 is Ok,
        0 <= i < cs.len(),
        ds.len() > 0,
        forall|k: int|
            0 <= k < ds.len() ==> (#[trigger] ds[k]).wf() && ds[k].caller_rows.len() <= usize::MAX,
        publisher::cursor_at(cs[i].streams, stream).index_after == publisher::resume_after(
            before,
            None,
        ),
        before.is_prefix_of(history::entries_from(ds[0], cs[i].source_id, stream, cs[i].since)),
        history::entries_grow(ds, cs[i].source_id, stream, cs[i].since),
    ensures
        before + entries_in(
            history::joined(from_source(calls(cs, ds).1->Ok_0, i as u32)),
            stream,
        ) == history::entries_from(ds.last(), cs[i].source_id, stream, cs[i].since),
{
    law_calls_poll_every_source(cs, ds, i);
    lemma_polls_send_entries(cs[i], ds, stream, before);
}

proof fn lemma_polls_send_entries(
    c: CursorView,
    ds: Seq<DbView>,
    stream: Seq<char>,
    before: Seq<CallerView>,
)
    requires
        history::polls(c, ds).1 is Ok,
        ds.len() > 0,
        forall|k: int|
            0 <= k < ds.len() ==> (#[trigger] ds[k]).wf() && ds[k].caller_rows.len() <= usize::MAX,
        publisher::cursor_at(c.streams, stream).index_after == publisher::resume_after(
            before,
            None,
        ),
        before.is_prefix_of(history::entries_from(ds[0], c.source_id, stream, c.since)),
        history::entries_grow(ds, c.source_id, stream, c.since),
    ensures
        ({
            let (now, r) = history::polls(c, ds);
            let rows = history::entries_from(ds.last(), c.source_id, stream, c.since);
            &&& before + entries_in(history::joined(r->Ok_0), stream) == rows
            &&& publisher::cursor_at(now.streams, stream).index_after == publisher::resume_after(
                rows,
                None,
            )
            &&& now.source_id == c.source_id
            &&& now.since == c.since
        }),
    decreases ds.len(),
{
    let head = ds.drop_last();
    let d = ds[ds.len() - 1];
    let (was, r) = history::polls(c, head);
    let sent = r->Ok_0;
    let all = history::polls(c, ds).1->Ok_0;
    let frames = publisher::polled(was, d).1->Ok_0;
    let rows = history::entries_from(d, c.source_id, stream, c.since);
    assert(d == ds.last());
    assert(all.drop_last() =~= sent);
    assert(all.last() == frames);
    lemma_entries_joined(history::joined(sent), frames, stream);
    let old = if head.len() == 0 {
        before
    } else {
        history::entries_from(head.last(), c.source_id, stream, c.since)
    };
    if head.len() == 0 {
        assert(history::joined(sent).len() == 0);
        assert(before + entries_in(history::joined(sent), stream) =~= before);
        assert(ds[0] == d);
    } else {
        assert(head[0] == ds[0]);
        assert forall|k: int| 0 <= k < head.len() implies (#[trigger] head[k]).wf()
            && head[k].caller_rows.len() <= usize::MAX by {
            assert(head[k] == ds[k]);
        }
        assert(history::entries_grow(head, c.source_id, stream, c.since)) by {
            assert forall|k: int| 0 < k < head.len() implies history::entries_from(
                head[k - 1],
                c.source_id,
                stream,
                c.since,
            ).is_prefix_of(
                history::entries_from(#[trigger] head[k], c.source_id, stream, c.since),
            ) by {
                assert(head[k] == ds[k] && head[k - 1] == ds[k - 1]);
            }
        }
        lemma_polls_send_entries(c, head, stream, before);
        assert(head.last() == ds[ds.len() - 2]);
        assert(history::entries_from(ds[ds.len() - 2], c.source_id, stream, c.since).is_prefix_of(
            history::entries_from(ds[ds.len() - 1], c.source_id, stream, c.since),
        ));
    }
    let more = rows.skip(old.len() as int);
    assert(old + more =~= rows);
    lemma_poll_entries(was, d, stream, old, more);
    assert(before + (entries_in(history::joined(sent), stream) + more) =~= (before + entries_in(
        history::joined(sent),
        stream,
    )) + more);
}

} // verus!
