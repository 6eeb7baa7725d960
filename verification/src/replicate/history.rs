//! What holds over the whole of a connection: of its opening and of every poll
//! after it.

use vstd::prelude::*;

use super::exchange;
use super::frame::{FrameView, IndexKind, IndexState, NO_INDEX_STATE};
use super::layout;
use super::lossless;
use super::publisher;
use super::publisher::CursorView;
use crate::db::laws;
use crate::db::model;
use crate::db::model::DbView;
use crate::db::records::CallerAtView;
use crate::db::store;
use crate::db::{CallerView, SourceView, WalView};
use crate::error::ErrorView;
use crate::seqs;

verus! {

// ------------------------------------------------------------ states tell entries apart

/// Multiplying by the prime keeps numbers apart: it is odd, and so has an inverse.
proof fn lemma_times_prime(x: u64, y: u64)
    requires
        x.wrapping_mul(publisher::PRIME) == y.wrapping_mul(publisher::PRIME),
    ensures
        x == y,
{
    let p: int = 0x100_0000_01b3;
    let wide: int = 0x1_0000_0000_0000_0000;
    let inverse: int = 0xce96_5057_aff6_957b;
    let over: int = 887285111055;
    assert(p == publisher::PRIME);
    assert(p * inverse == 1 + over * wide);
    let a = (x * p) / wide;
    let b = (y * p) / wide;
    assert((x * p) % wide == (y * p) % wide);
    assert(x * p == a * wide + (x * p) % wide);
    assert(y * p == b * wide + (y * p) % wide);
    let apart = x - y;
    assert(apart * p == (a - b) * wide);
    assert(apart * p * inverse == (a - b) * wide * inverse);
    assert(apart * (1 + over * wide) == (a - b) * wide * inverse);
    let m = (a - b) * inverse - apart * over;
    assert(apart == m * wide);
}

proof fn lemma_xor_apart(x: u64, y: u64, b: u8, c: u8)
    ensures
        x != y ==> x ^ (b as u64) != y ^ (b as u64),
        b != c ==> x ^ (b as u64) != x ^ (c as u64),
{
    let (w, v) = (b as u64, c as u64);
    assert(x != y ==> x ^ w != y ^ w) by (bit_vector);
    assert(w != v ==> x ^ w != x ^ v) by (bit_vector);
}

proof fn lemma_fnv_apart(from: u64, bytes: Seq<u8>, i: int, b: u8)
    requires
        0 <= i < bytes.len(),
        b != bytes[i],
    ensures
        publisher::fnv(from, bytes) != publisher::fnv(from, bytes.update(i, b)),
    decreases bytes.len(),
{
    let other = bytes.update(i, b);
    let (x, y) = (
        publisher::fnv(from, bytes.drop_last()),
        publisher::fnv(from, other.drop_last()),
    );
    if i == bytes.len() - 1 {
        assert(other.drop_last() =~= bytes.drop_last());
        lemma_xor_apart(x, y, bytes.last(), b);
    } else {
        assert(other.drop_last() =~= bytes.drop_last().update(i, b));
        lemma_fnv_apart(from, bytes.drop_last(), i, b);
        lemma_xor_apart(x, y, bytes.last(), b);
    }
    let (u, v) = (x ^ (bytes.last() as u64), y ^ (other.last() as u64));
    if u.wrapping_mul(publisher::PRIME) == v.wrapping_mul(publisher::PRIME) {
        lemma_times_prime(u, v);
    }
}

/// An index entry that differs in one byte of its blob leaves another state: each
/// half is told apart by its own stream.
pub proof fn law_a_changed_entry_changes_the_state(
    state: IndexState,
    ts: i64,
    blob: Seq<u8>,
    i: int,
    b: u8,
)
    requires
        0 <= i < blob.len(),
        b != blob[i],
    ensures
        publisher::folded(state, ts, blob) != publisher::folded(state, ts, blob.update(i, b)),
        publisher::fnv(publisher::BASIS_A, layout::put_signed(ts) + blob) != publisher::fnv(
            publisher::BASIS_A,
            layout::put_signed(ts) + blob.update(i, b),
        ),
        publisher::fnv(publisher::BASIS_B, layout::put_signed(ts) + blob) != publisher::fnv(
            publisher::BASIS_B,
            layout::put_signed(ts) + blob.update(i, b),
        ),
{
    let head = layout::put_signed(ts);
    let bytes = head + blob;
    let at = head.len() + i;
    assert(head + blob.update(i, b) =~= bytes.update(at, b));
    lemma_fnv_apart(publisher::BASIS_A, bytes, at, b);
    lemma_fnv_apart(publisher::BASIS_B, bytes, at, b);
    lemma_fnv_apart(state.0, bytes, at, b);
    lemma_fnv_apart(state.1, bytes, at, b);
}

// ------------------------------------------------------------ opening at the present

/// The frame of rows of a source with nothing new.
pub open spec fn keepalive(c: CursorView) -> FrameView {
    FrameView::Rows {
        source: c.ordinal,
        seq: c.seq,
        index_state: c.index_state,
        rows: Seq::empty(),
    }
}

/// A poll of a source of which everything has been sent is a keepalive.
proof fn lemma_nothing_new(c: CursorView, d: DbView)
    requires
        d.wf(),
        d.caller_rows.len() <= usize::MAX,
        forall|k: int|
            0 <= k < d.caller_streams(c.source_id).len() ==> exchange::caught_up(
                c,
                d,
                #[trigger] d.caller_streams(c.source_id)[k],
            ),
        publisher::offsets_past(d.clock_of(c.source_id), c.clock_after, c.since).len() == 0,
        forall|k: int|
            0 <= k < d.streams_of(c.source_id).len() ==> exchange::shipped(
                c,
                d,
                #[trigger] d.streams_of(c.source_id)[k],
            ),
    ensures
        publisher::polled(c, d).1 == Ok::<Seq<FrameView>, ErrorView>(seq![keepalive(c)]),
{
    let entries = d.caller_streams(c.source_id);
    let all = d.streams_of(c.source_id);
    exchange::lemma_quiet_entries(c, d, entries);
    exchange::lemma_indexes_announce(c, d, entries, c.since);
    let (ready, head) = publisher::announced(c, d);
    assert(head =~= Seq::empty());
    assert forall|k: int| 0 <= k < all.len() implies exchange::shipped(
        ready,
        d,
        #[trigger] all[k],
    ) by {
        exchange::lemma_indexes_keep_rows(c, d, entries, c.since, all[k]);
        assert(exchange::shipped(c, d, all[k]));
    }
    exchange::lemma_quiet_rows(ready, d, all);
    let rows = publisher::gathered(ready, d, all).rows;
    assert(rows =~= Seq::empty());
    assert(publisher::by_time(rows) =~= Seq::empty());
    assert(Seq::<FrameView>::empty().push(keepalive(c)) =~= seq![keepalive(c)]);
}

pub proof fn lemma_opened_entries(
    c: CursorView,
    d: DbView,
    streams: Seq<Seq<char>>,
    since: Option<i64>,
    q: Seq<char>,
)
    ensures
        publisher::cursor_at(
            publisher::streams_opened(c, d, streams, since).0.streams,
            q,
        ).index_after == publisher::cursor_at(c.streams, q).index_after,
        !streams.contains(q) ==> publisher::cursor_at(
            publisher::streams_opened(c, d, streams, since).0.streams,
            q,
        ) == publisher::cursor_at(c.streams, q),
        publisher::streams_opened(c, d, streams, since).0.seq == c.seq,
        publisher::streams_opened(c, d, streams, since).0.index_state == c.index_state,
        publisher::streams_opened(c, d, streams, since).0.sent_full == c.sent_full,
    decreases streams.len(),
{
    if streams.len() > 0 {
        let head = streams.drop_last();
        lemma_opened_entries(c, d, head, since, q);
        if head.contains(q) {
            let k = choose|k: int| 0 <= k < head.len() && head[k] == q;
            assert(streams[k] == q);
        }
        if q == streams.last() {
            assert(streams[streams.len() - 1] == q);
        }
    }
}

proof fn lemma_opened_nothing(c: CursorView, d: DbView, streams: Seq<Seq<char>>)
    ensures
        publisher::streams_opened(c, d, streams, None).1.len() == 0,
    decreases streams.len(),
{
    if streams.len() > 0 {
        lemma_opened_nothing(c, d, streams.drop_last());
    }
}

/// What a source is left at by opening: its ordinal and id, nothing counted yet,
/// and how far each stream is published.
pub proof fn lemma_opened(d: DbView, s: SourceView, ordinal: u32, since: Option<i64>)
    ensures
        ({
            let c = publisher::source_opened(d, s, ordinal, since).0;
            &&& c.ordinal == ordinal
            &&& c.source_id == s.id
            &&& c.seq == 0
            &&& c.since == publisher::begins_at(since)
            &&& forall|q: Seq<char>|
                (#[trigger] publisher::cursor_at(c.streams, q)).wal_after
                    == publisher::opened_after(d, s.id, q, since)
        }),
{
    let from = publisher::begins_at(since);
    let fresh = publisher::unopened(ordinal, s.id, from);
    let entries = d.caller_streams(s.id);
    let all = d.streams_of(s.id);
    let indexed = publisher::indexes_emitted(fresh, d, entries, from).0;
    let c = publisher::source_opened(d, s, ordinal, since).0;
    exchange::lemma_indexes_announce(fresh, d, entries, from);
    exchange::lemma_opened_ids(indexed, d, all, since);
    lemma_opened_entries(indexed, d, all, since, Seq::empty());
    assert forall|q: Seq<char>|
        (#[trigger] publisher::cursor_at(c.streams, q)).wal_after == publisher::opened_after(
            d,
            s.id,
            q,
            since,
        ) by {
        if all.contains(q) {
            let k = choose|k: int| 0 <= k < all.len() && all[k] == q;
            exchange::lemma_opened_rows(indexed, d, all, since, k);
        } else {
            lemma_opened_entries(indexed, d, all, since, q);
            exchange::lemma_indexes_keep_rows(fresh, d, entries, from, q);
            laws::law_a_stream_is_its_rows(d, s.id, q);
            laws::lemma_watermark(d.segments_of(s.id, q));
            seqs::lemma_filter_shorter(
                d.wal_of(s.id, q),
                |r: WalView| model::past(d.watermark(s.id, q), r.ts),
            );
        }
    }
}

/// A source opened at the present sends its handshake and its index entries, and
/// nothing else.
pub proof fn law_opening_at_the_present_ships_no_row(d: DbView, s: SourceView, ordinal: u32)
    ensures
        ({
            let frames = publisher::source_opened(d, s, ordinal, None).1;
            &&& frames.len() > 0
            &&& frames[0] == publisher::handshake(ordinal, s)
            &&& forall|i: int|
                0 < i < frames.len() ==> (#[trigger] frames[i]) is Index && frames[i].ordinal()
                    == ordinal
        }),
{
    let fresh = publisher::unopened(ordinal, s.id, i64::MIN);
    let entries = d.caller_streams(s.id);
    let index_frames = publisher::indexes_emitted(fresh, d, entries, i64::MIN).1;
    let frames = publisher::source_opened(d, s, ordinal, None).1;
    lemma_only_entries(fresh, d, entries, i64::MIN);
    lemma_tailing_frames(d, s, ordinal);
    assert forall|i: int| 0 < i < frames.len() implies (#[trigger] frames[i]) is Index
        && frames[i].ordinal() == ordinal by {
        assert(frames[i] == index_frames[i - 1]);
    }
}

/// Sending entries sends nothing but entries, and leaves the state that the newest
/// of them declares.
pub proof fn lemma_only_entries(c: CursorView, d: DbView, streams: Seq<Seq<char>>, from: i64)
    ensures
        ({
            let (now, frames) = publisher::indexes_emitted(c, d, streams, from);
            &&& forall|i: int|
                0 <= i < frames.len() ==> (#[trigger] frames[i]) is Index && frames[i].ordinal()
                    == c.ordinal
            &&& now.index_state == newest_state(frames, c.index_state)
            &&& now.sent_full == (c.sent_full || frames.len() > 0)
        }),
    decreases streams.len(),
{
    if streams.len() > 0 {
        lemma_only_entries(c, d, streams.drop_last(), from);
        exchange::lemma_indexes_announce(c, d, streams.drop_last(), from);
        let (was, head) = publisher::indexes_emitted(c, d, streams.drop_last(), from);
        let stream = streams.last();
        let rows = publisher::index_rows(was, d, stream, from);
        let pending = rows.skip(
            publisher::sent_before(
                rows,
                publisher::cursor_at(was.streams, stream).index_after,
            ) as int,
        );
        exchange::law_only_the_first_entry_is_full(was, stream, pending);
        lemma_run_state(was, stream, pending);
        let more = publisher::index_run(was, stream, pending).frames;
        lemma_newest_state(head, more, c.index_state);
        let all = publisher::indexes_emitted(c, d, streams, from).1;
        assert(all == head + more);
        assert forall|i: int| 0 <= i < all.len() implies (#[trigger] all[i]) is Index
            && all[i].ordinal() == c.ordinal by {
            if i < head.len() {
                assert(all[i] == head[i]);
            } else {
                assert(all[i] == more[i - head.len()]);
            }
        }
    }
}

/// The state that the newest index entry among frames declares, or what stood
/// before them.
pub open spec fn newest_state(frames: Seq<FrameView>, before: IndexState) -> IndexState
    decreases frames.len(),
{
    if frames.len() == 0 {
        before
    } else {
        match frames.last() {
            FrameView::Index { state, .. } => state,
            _ => newest_state(frames.drop_last(), before),
        }
    }
}

proof fn lemma_newest_state(a: Seq<FrameView>, b: Seq<FrameView>, before: IndexState)
    ensures
        newest_state(a + b, before) == newest_state(b, newest_state(a, before)),
    decreases b.len(),
{
    if b.len() == 0 {
        assert(a + b =~= a);
    } else {
        assert((a + b).drop_last() =~= a + b.drop_last());
        assert((a + b).last() == b.last());
        lemma_newest_state(a, b.drop_last(), before);
    }
}

proof fn lemma_run_state(c: CursorView, stream: Seq<char>, rows: Seq<CallerView>)
    ensures
        publisher::index_run(c, stream, rows).state == newest_state(
            publisher::index_run(c, stream, rows).frames,
            c.index_state,
        ),
{
}

proof fn lemma_tailing_shipped(d: DbView, s: SourceView, ordinal: u32, stream: Seq<char>)
    requires
        d.wf(),
    ensures
        exchange::shipped(publisher::source_opened(d, s, ordinal, None).0, d, stream),
{
    lemma_opened(d, s, ordinal, None);
    let c = publisher::source_opened(d, s, ordinal, None).0;
    let after = publisher::cursor_at(c.streams, stream).wal_after;
    assert(after == publisher::opened_after(d, s.id, stream, None));
    laws::law_the_tail_is_in_order(d, s.id, stream);
    let live = d.live_of(s.id, stream);
    let keep = |r: WalView| model::past(after, r.ts);
    let fresh = live.filter(keep);
    if fresh.len() > 0 {
        seqs::lemma_filter_member(live, keep, 0);
        let m = choose|m: int| 0 <= m < live.len() && live[m] == fresh[0];
        assert(live[m].ts <= live[live.len() - 1].ts);
    }
    if live.len() > 0 {
        assert(model::past(d.watermark(s.id, stream), live[live.len() - 1].ts));
    }
}

proof fn lemma_tailing_announced(d: DbView, s: SourceView, ordinal: u32)
    requires
        d.wf(),
        d.caller_rows.len() <= usize::MAX,
    ensures
        ({
            let c = publisher::source_opened(d, s, ordinal, None).0;
            &&& forall|k: int|
                0 <= k < d.caller_streams(s.id).len() ==> exchange::caught_up(
                    c,
                    d,
                    #[trigger] d.caller_streams(s.id)[k],
                )
            &&& publisher::offsets_past(d.clock_of(s.id), c.clock_after, c.since).len() == 0
        }),
{
    let fresh = publisher::unopened(ordinal, s.id, i64::MIN);
    let entries = d.caller_streams(s.id);
    let all = d.streams_of(s.id);
    let pairs = d.clock_of(s.id);
    let indexed = publisher::indexes_emitted(fresh, d, entries, i64::MIN).0;
    let c = publisher::source_opened(d, s, ordinal, None).0;
    lemma_opened(d, s, ordinal, None);
    exchange::lemma_indexes_announce(fresh, d, entries, i64::MIN);
    assert forall|k: int| 0 <= k < entries.len() implies exchange::caught_up(
        c,
        d,
        #[trigger] entries[k],
    ) by {
        exchange::lemma_emitting_all_catches_up(fresh, d, entries, k);
        lemma_opened_entries(indexed, d, all, None, entries[k]);
    }
    seqs::lemma_filter_all(
        pairs,
        |p: (i64, i64)| model::past(None, p.0) && p.0 >= i64::MIN,
    );
    exchange::lemma_offsets_in_order(d, s.id);
    exchange::lemma_offsets_seen(pairs, None, i64::MIN);
}

/// What opening a source at the present sends.
proof fn lemma_tailing_frames(d: DbView, s: SourceView, ordinal: u32)
    ensures
        ({
            let (c, frames) = publisher::source_opened(d, s, ordinal, None);
            let (indexed, index_frames) = publisher::indexes_emitted(
                publisher::unopened(ordinal, s.id, i64::MIN),
                d,
                d.caller_streams(s.id),
                i64::MIN,
            );
            &&& frames == seq![publisher::handshake(ordinal, s)] + index_frames
            &&& c.index_state == indexed.index_state
        }),
{
    let fresh = publisher::unopened(ordinal, s.id, i64::MIN);
    let all = d.streams_of(s.id);
    let (indexed, index_frames) = publisher::indexes_emitted(
        fresh,
        d,
        d.caller_streams(s.id),
        i64::MIN,
    );
    let segments = publisher::streams_opened(indexed, d, all, None).1;
    let offsets = publisher::offset_frames(
        ordinal,
        publisher::offsets_opened(d.clock_of(s.id), None),
    );
    let hello = seq![publisher::handshake(ordinal, s)];
    lemma_opened_nothing(indexed, d, all);
    lemma_opened_entries(indexed, d, all, None, Seq::empty());
    assert(offsets.len() == 0);
    assert(hello + index_frames + segments + offsets =~= hello + index_frames);
}

proof fn lemma_tailing_state(d: DbView, s: SourceView, ordinal: u32)
    ensures
        ({
            let (c, frames) = publisher::source_opened(d, s, ordinal, None);
            c.index_state == newest_state(frames, NO_INDEX_STATE)
        }),
{
    let fresh = publisher::unopened(ordinal, s.id, i64::MIN);
    let entries = d.caller_streams(s.id);
    let index_frames = publisher::indexes_emitted(fresh, d, entries, i64::MIN).1;
    let hello = seq![publisher::handshake(ordinal, s)];
    lemma_tailing_frames(d, s, ordinal);
    lemma_only_entries(fresh, d, entries, i64::MIN);
    lemma_newest_state(hello, index_frames, NO_INDEX_STATE);
    assert(newest_state(hello, NO_INDEX_STATE) == newest_state(hello.drop_last(), NO_INDEX_STATE));
    assert(hello.drop_last().len() == 0);
}

/// A source opened at the present, in an archive that does not change, has nothing
/// to send: its first poll is a keepalive under number zero, against the state that
/// the newest entry of the opening declares.
pub proof fn law_tailing_an_unchanged_archive_is_a_keepalive(
    d: DbView,
    s: SourceView,
    ordinal: u32,
)
    requires
        d.wf(),
        d.caller_rows.len() <= usize::MAX,
    ensures
        ({
            let (c, frames) = publisher::source_opened(d, s, ordinal, None);
            &&& publisher::polled(c, d).1 == Ok::<Seq<FrameView>, ErrorView>(seq![keepalive(c)])
            &&& keepalive(c) == FrameView::Rows {
                source: ordinal,
                seq: 0,
                index_state: newest_state(frames, NO_INDEX_STATE),
                rows: Seq::empty(),
            }
        }),
{
    let c = publisher::source_opened(d, s, ordinal, None).0;
    lemma_opened(d, s, ordinal, None);
    lemma_tailing_announced(d, s, ordinal);
    lemma_tailing_state(d, s, ordinal);
    assert forall|k: int| 0 <= k < d.streams_of(s.id).len() implies exchange::shipped(
        c,
        d,
        #[trigger] d.streams_of(s.id)[k],
    ) by {
        lemma_tailing_shipped(d, s, ordinal, d.streams_of(s.id)[k]);
    }
    lemma_nothing_new(c, d);
}

/// The handshakes of sources, each under its place as its ordinal.
pub open spec fn handshakes(sources: Seq<SourceView>) -> Seq<FrameView> {
    Seq::new(sources.len(), |i: int| publisher::handshake(i as u32, sources[i]))
}

/// The keepalives of sources.
pub open spec fn keepalives(cs: Seq<CursorView>) -> Seq<FrameView> {
    cs.map_values(|c: CursorView| keepalive(c))
}

proof fn lemma_one_handshake(d: DbView, s: SourceView, ordinal: u32)
    ensures
        publisher::source_opened(d, s, ordinal, None).1.filter(|f: FrameView| f is Handshake)
            == seq![publisher::handshake(ordinal, s)],
{
    let hello = |f: FrameView| f is Handshake;
    let frames = publisher::source_opened(d, s, ordinal, None).1;
    law_opening_at_the_present_ships_no_row(d, s, ordinal);
    let first = seq![publisher::handshake(ordinal, s)];
    let tail = frames.skip(1);
    assert(frames =~= first + tail);
    seqs::lemma_filter_concat(first, tail, hello);
    seqs::lemma_filter_single(publisher::handshake(ordinal, s), hello);
    if tail.filter(hello).len() > 0 {
        seqs::lemma_filter_member(tail, hello, 0);
        let k = choose|k: int| 0 <= k < tail.len() && tail[k] == tail.filter(hello)[0];
        assert(tail[k] == frames[k + 1]);
    }
    assert(first + tail.filter(hello) =~= first);
}

/// An archive opened at the present sends one handshake for each source, in order,
/// and beside them nothing but index entries.
pub proof fn law_tailing_opens_every_source_once(d: DbView, sources: Seq<SourceView>)
    requires
        sources.len() <= publisher::most_sources(),
    ensures
        ({
            let frames = publisher::sources_opened(d, sources, None).1;
            &&& frames.filter(|f: FrameView| f is Handshake) == handshakes(sources)
            &&& forall|i: int|
                0 <= i < frames.len() ==> (#[trigger] frames[i]) is Handshake || frames[i] is Index
        }),
    decreases sources.len(),
{
    let hello = |f: FrameView| f is Handshake;
    let (cursors, frames) = publisher::sources_opened(d, sources, None);
    if sources.len() == 0 {
        seqs::lemma_filter_shorter(frames, hello);
        assert(frames.filter(hello) =~= handshakes(sources));
    } else {
        let rest = sources.drop_last();
        law_tailing_opens_every_source_once(d, rest);
        let head = publisher::sources_opened(d, rest, None).1;
        let n = (sources.len() - 1) as u32;
        let more = publisher::source_opened(d, sources.last(), n, None).1;
        lemma_one_handshake(d, sources.last(), n);
        seqs::lemma_filter_concat(head, more, hello);
        let last = seq![publisher::handshake(n, sources.last())];
        assert(handshakes(rest) + last =~= handshakes(sources));
        law_opening_at_the_present_ships_no_row(d, sources.last(), n);
        assert forall|i: int| 0 <= i < frames.len() implies (#[trigger] frames[i]) is Handshake
            || frames[i] is Index by {
            if i < head.len() {
                assert(frames[i] == head[i]);
            } else {
                assert(frames[i] == more[i - head.len()]);
            }
        }
    }
}

pub proof fn lemma_cursors_opened(d: DbView, sources: Seq<SourceView>, since: Option<i64>)
    ensures
        publisher::sources_opened(d, sources, since).0 == Seq::new(
            sources.len(),
            |i: int| publisher::source_opened(d, sources[i], i as u32, since).0,
        ),
    decreases sources.len(),
{
    let cs = publisher::sources_opened(d, sources, since).0;
    if sources.len() > 0 {
        lemma_cursors_opened(d, sources.drop_last(), since);
    }
    assert(cs =~= Seq::new(
        sources.len(),
        |i: int| publisher::source_opened(d, sources[i], i as u32, since).0,
    ));
}

proof fn lemma_all_quiet(cs: Seq<CursorView>, d: DbView, n: nat)
    requires
        n <= cs.len(),
        forall|i: int|
            0 <= i < cs.len() ==> publisher::polled(#[trigger] cs[i], d).1 == Ok::<
                Seq<FrameView>,
                ErrorView,
            >(seq![keepalive(cs[i])]),
    ensures
        publisher::polled_first(cs, d, n).1 == Ok::<Seq<FrameView>, ErrorView>(
            keepalives(cs.take(n as int)),
        ),
    decreases n,
{
    if n == 0 {
        assert(keepalives(cs.take(0)) =~= Seq::empty());
    } else {
        lemma_all_quiet(cs, d, (n - 1) as nat);
        assert(publisher::polled(cs[n - 1], d).1 is Ok);
        assert(keepalives(cs.take(n as int)) =~= keepalives(cs.take(n - 1)) + seq![
            keepalive(cs[n - 1]),
        ]);
    }
}

/// The first poll of an archive opened at the present, where it has not changed,
/// sends exactly one frame for each source: empty rows, under number zero.
pub proof fn law_the_first_poll_of_an_unchanged_archive(d: DbView)
    requires
        d.wf(),
        d.caller_rows.len() <= usize::MAX,
    ensures
        ({
            let cs = publisher::sources_opened(d, d.sources, None).0;
            &&& cs.len() == d.sources.len()
            &&& publisher::polled_first(cs, d, cs.len()).1 == Ok::<Seq<FrameView>, ErrorView>(
                keepalives(cs),
            )
            &&& forall|i: int|
                0 <= i < cs.len() ==> (keepalive(#[trigger] cs[i]) matches FrameView::Rows {
                    source,
                    seq,
                    rows,
                    ..
                } && source == i as u32 && seq == 0 && rows.len() == 0)
        }),
{
    let cs = publisher::sources_opened(d, d.sources, None).0;
    lemma_cursors_opened(d, d.sources, None);
    assert forall|i: int| 0 <= i < cs.len() implies publisher::polled(#[trigger] cs[i], d).1
        == Ok::<Seq<FrameView>, ErrorView>(seq![keepalive(cs[i])]) by {
        law_tailing_an_unchanged_archive_is_a_keepalive(d, d.sources[i], i as u32);
    }
    lemma_all_quiet(cs, d, cs.len());
    assert(cs.take(cs.len() as int) =~= cs);
    assert forall|i: int| 0 <= i < cs.len() implies (keepalive(#[trigger] cs[i]) matches FrameView::Rows {
        source,
        seq,
        rows,
        ..
    } && source == i as u32 && seq == 0 && rows.len() == 0) by {
        lemma_opened(d, d.sources[i], i as u32, None);
    }
}

// ------------------------------------------------------------ poll after poll

/// Polls of a source, one after the other: what it is at then, and the frames of
/// each, or the first refusal.
pub open spec fn polls(c: CursorView, ds: Seq<DbView>) -> (
    CursorView,
    Result<Seq<Seq<FrameView>>, ErrorView>,
)
    decreases ds.len(),
{
    if ds.len() == 0 {
        (c, Ok(Seq::empty()))
    } else {
        let (was, r) = polls(c, ds.drop_last());
        match r {
            Err(_) => (was, r),
            Ok(sent) => {
                let (now, one) = publisher::polled(was, ds.last());
                (
                    now,
                    match one {
                        Ok(frames) => Ok(sent.push(frames)),
                        Err(e) => Err(e),
                    },
                )
            },
        }
    }
}

/// The frames of polls, one after the other.
pub open spec fn joined(sent: Seq<Seq<FrameView>>) -> Seq<FrameView>
    decreases sent.len(),
{
    if sent.len() == 0 {
        Seq::empty()
    } else {
        joined(sent.drop_last()) + sent.last()
    }
}

/// Whether rows are in order: by timestamp, then by stream.
pub open spec fn in_time(rows: Seq<WalView>) -> bool {
    forall|i: int, j: int|
        0 <= i < j < rows.len() ==> !publisher::row_before(#[trigger] rows[j], #[trigger] rows[i])
}

/// Whether a poll's frames are in form, the first `m` of them its index entries:
/// behind those its clock observations, and at the end one frame of rows in order,
/// under a number and against a state. All are of one source.
pub open spec fn formed_at(
    frames: Seq<FrameView>,
    m: int,
    ordinal: u32,
    n: int,
    state: IndexState,
) -> bool {
    &&& 0 <= m < frames.len()
    &&& forall|i: int| 0 <= i < frames.len() ==> (#[trigger] frames[i]).ordinal() == ordinal
    &&& forall|i: int| 0 <= i < m ==> (#[trigger] frames[i]) is Index
    &&& forall|i: int| m <= i < frames.len() - 1 ==> (#[trigger] frames[i]) is ClockOffset
    &&& frames.last() matches FrameView::Rows { seq, index_state, rows, .. } && {
        &&& seq == n
        &&& index_state == state
        &&& in_time(rows)
    }
}

/// Whether a poll's frames are in form.
pub open spec fn formed(frames: Seq<FrameView>, ordinal: u32, n: int, state: IndexState) -> bool {
    exists|m: int| formed_at(frames, m, ordinal, n, state)
}

proof fn lemma_no_entry(frames: Seq<FrameView>, before: IndexState)
    requires
        forall|i: int| 0 <= i < frames.len() ==> !((#[trigger] frames[i]) is Index),
    ensures
        newest_state(frames, before) == before,
    decreases frames.len(),
{
    if frames.len() > 0 {
        let d = frames.drop_last();
        assert forall|i: int| 0 <= i < d.len() implies !((#[trigger] d[i]) is Index) by {
            assert(d[i] == frames[i]);
        }
        lemma_no_entry(d, before);
        assert(!(frames[frames.len() - 1] is Index));
    }
}

/// One poll's frames are in form, and leave the state that the newest entry among
/// them declares.
pub proof fn lemma_poll_formed(c: CursorView, d: DbView)
    requires
        c.seq < u64::MAX,
        publisher::polled(c, d).1 is Ok,
    ensures
        ({
            let (now, r) = publisher::polled(c, d);
            let frames = r->Ok_0;
            &&& now.index_state == newest_state(frames, c.index_state)
            &&& formed(frames, c.ordinal, c.seq as int, now.index_state)
            &&& now.ordinal == c.ordinal
            &&& now.source_id == c.source_id
            &&& now.seq == c.seq + 1
        }),
{
    let (now, r) = publisher::polled(c, d);
    let frames = r->Ok_0;
    let entries = d.caller_streams(c.source_id);
    let index_frames = publisher::indexes_emitted(c, d, entries, c.since).1;
    let (ready, head) = publisher::announced(c, d);
    let g = publisher::gathered(ready, d, d.streams_of(c.source_id));
    let offsets = publisher::offset_frames(
        c.ordinal,
        publisher::offsets_past(d.clock_of(c.source_id), c.clock_after, c.since),
    );
    let rows = FrameView::Rows {
        source: c.ordinal,
        seq: c.seq,
        index_state: ready.index_state,
        rows: publisher::by_time(g.rows),
    };
    lemma_only_entries(c, d, entries, c.since);
    exchange::lemma_indexes_announce(c, d, entries, c.since);
    exchange::law_rows_are_sorted(g.rows);
    let rest = offsets.push(rows);
    assert(frames =~= index_frames + rest);
    lemma_newest_state(index_frames, rest, c.index_state);
    assert forall|i: int| 0 <= i < rest.len() implies !((#[trigger] rest[i]) is Index) by {
        if i < offsets.len() {
            assert(rest[i] == offsets[i]);
        }
    }
    lemma_no_entry(rest, ready.index_state);
    let m = index_frames.len() as int;
    assert forall|i: int| 0 <= i < frames.len() implies (#[trigger] frames[i]).ordinal()
        == c.ordinal by {
        if i < m {
            assert(frames[i] == index_frames[i]);
        } else {
            assert(frames[i] == rest[i - m]);
        }
    }
    assert forall|i: int| 0 <= i < m implies (#[trigger] frames[i]) is Index by {
        assert(frames[i] == index_frames[i]);
    }
    assert forall|i: int| m <= i < frames.len() - 1 implies (#[trigger] frames[i]) is ClockOffset by {
        assert(frames[i] == offsets[i - m]);
    }
    assert(formed_at(frames, m, c.ordinal, c.seq as int, now.index_state));
}

/// Over any number of polls, each sends one frame of rows, and the numbers of those
/// frames follow each other. Before it stand the poll's index entries and then its
/// clock observations; it is in order, and it is against the state that the newest
/// entry declares that has been sent by then.
pub proof fn law_polls_are_numbered(c: CursorView, ds: Seq<DbView>)
    requires
        c.seq + ds.len() <= u64::MAX,
        polls(c, ds).1 is Ok,
    ensures
        ({
            let (now, r) = polls(c, ds);
            let sent = r->Ok_0;
            &&& sent.len() == ds.len()
            &&& now.ordinal == c.ordinal
            &&& now.source_id == c.source_id
            &&& now.seq == c.seq + ds.len()
            &&& now.index_state == newest_state(joined(sent), c.index_state)
            &&& forall|k: int|
                0 <= k < ds.len() ==> formed(
                    #[trigger] sent[k],
                    c.ordinal,
                    c.seq + k,
                    newest_state(joined(sent.take(k + 1)), c.index_state),
                )
        }),
    decreases ds.len(),
{
    if ds.len() > 0 {
        let head = ds.drop_last();
        law_polls_are_numbered(c, head);
        let (was, r) = polls(c, head);
        let before = r->Ok_0;
        let (now, all) = polls(c, ds);
        let sent = all->Ok_0;
        lemma_poll_formed(was, ds.last());
        assert(sent.drop_last() =~= before);
        lemma_newest_state(joined(before), sent.last(), c.index_state);
        assert(sent.take(sent.len() as int) =~= sent);
        assert forall|k: int| 0 <= k < ds.len() implies formed(
            #[trigger] sent[k],
            c.ordinal,
            c.seq + k,
            newest_state(joined(sent.take(k + 1)), c.index_state),
        ) by {
            if k < head.len() {
                assert(sent[k] == before[k]);
                assert(sent.take(k + 1) =~= before.take(k + 1));
            } else {
                assert(sent.take(k + 1) =~= sent);
            }
        }
    }
}

/// Once a source is opened, the frame of rows of its poll number `k` is numbered
/// `k`, counting from zero.
pub proof fn law_the_first_number_is_zero(
    d: DbView,
    s: SourceView,
    ordinal: u32,
    since: Option<i64>,
    ds: Seq<DbView>,
    k: int,
)
    requires
        ds.len() <= u64::MAX,
        polls(publisher::source_opened(d, s, ordinal, since).0, ds).1 is Ok,
        0 <= k < ds.len(),
    ensures
        ({
            let c = publisher::source_opened(d, s, ordinal, since).0;
            let sent = polls(c, ds).1->Ok_0;
            sent[k].last() matches FrameView::Rows { source, seq, .. } && source == ordinal && seq
                == k
        }),
{
    let c = publisher::source_opened(d, s, ordinal, since).0;
    lemma_opened(d, s, ordinal, since);
    law_polls_are_numbered(c, ds);
    let sent = polls(c, ds).1->Ok_0;
    let state = newest_state(joined(sent.take(k + 1)), c.index_state);
    assert(formed(sent[k], c.ordinal, c.seq + k, state));
    let n = c.seq + k;
    let m = choose|m: int| formed_at(sent[k], m, c.ordinal, n, state);
    assert(sent[k][sent[k].len() - 1].ordinal() == ordinal);
}

// ------------------------------------------------------------ each row once

/// Whether rows are of ascending timestamps.
pub open spec fn ascending(rows: Seq<WalView>) -> bool {
    forall|i: int, j: int| 0 <= i < j < rows.len() ==> (#[trigger] rows[i]).ts < (#[trigger] rows[j]).ts
}

/// The rows of a stream among rows.
pub open spec fn of_stream(rows: Seq<WalView>, stream: Seq<char>) -> Seq<WalView> {
    rows.filter(|r: WalView| r.stream == stream)
}

proof fn lemma_with_row_of(s: Seq<WalView>, x: WalView, stream: Seq<char>)
    requires
        x.stream == stream ==> forall|i: int|
            0 <= i < s.len() && (#[trigger] s[i]).stream == stream ==> s[i].ts < x.ts,
    ensures
        of_stream(publisher::with_row(s, x), stream) == if x.stream == stream {
            of_stream(s, stream).push(x)
        } else {
            of_stream(s, stream)
        },
    decreases s.len(),
{
    reveal(Seq::filter);
    let here = |r: WalView| r.stream == stream;
    if s.len() > 0 && publisher::row_before(x, s.last()) {
        let d = s.drop_last();
        if x.stream == stream {
            assert forall|i: int| 0 <= i < d.len() && (#[trigger] d[i]).stream == stream implies
                d[i].ts < x.ts by {
                assert(d[i] == s[i]);
            }
            assert(s[s.len() - 1].stream != stream);
        }
        lemma_with_row_of(d, x, stream);
        let w = publisher::with_row(d, x);
        assert(w.push(s.last()).drop_last() =~= w);
        assert(publisher::with_row(s, x) == w.push(s.last()));
    } else {
        assert(s.push(x).drop_last() =~= s);
    }
}

proof fn lemma_in_of(s: Seq<WalView>, stream: Seq<char>, x: WalView)
    requires
        s.contains(x),
        x.stream == stream,
    ensures
        of_stream(s, stream).contains(x),
{
    let here = |r: WalView| r.stream == stream;
    let k = choose|k: int| 0 <= k < s.len() && s[k] == x;
    seqs::lemma_filter_keeps(s, here, k);
}

/// Ordering rows leaves a stream's rows as they came, where they came in order.
proof fn lemma_sorted_of(s: Seq<WalView>, stream: Seq<char>)
    requires
        ascending(of_stream(s, stream)),
    ensures
        of_stream(publisher::by_time(s), stream) == of_stream(s, stream),
    decreases s.len(),
{
    reveal(Seq::filter);
    let here = |r: WalView| r.stream == stream;
    if s.len() > 0 {
        let d = s.drop_last();
        let x = s.last();
        let was = of_stream(d, stream);
        let now = of_stream(s, stream);
        assert(ascending(was)) by {
            assert forall|i: int, j: int| 0 <= i < j < was.len() implies (#[trigger] was[i]).ts < (
            #[trigger] was[j]).ts by {
                assert(was[i] == now[i] && was[j] == now[j]);
            }
        }
        lemma_sorted_of(d, stream);
        let t = publisher::by_time(d);
        if x.stream == stream {
            assert(now == was.push(x));
            assert forall|i: int| 0 <= i < t.len() && (#[trigger] t[i]).stream == stream implies
                t[i].ts < x.ts by {
                lemma_in_of(t, stream, t[i]);
                let k = choose|k: int| 0 <= k < was.len() && was[k] == t[i];
                assert(now[k] == was[k] && now[was.len() as int] == x);
            }
        }
        lemma_with_row_of(t, x, stream);
    }
}

proof fn lemma_none_of(s: Seq<WalView>, stream: Seq<char>)
    requires
        forall|i: int| 0 <= i < s.len() ==> (#[trigger] s[i]).stream != stream,
    ensures
        of_stream(s, stream).len() == 0,
{
    let here = |r: WalView| r.stream == stream;
    if of_stream(s, stream).len() > 0 {
        seqs::lemma_filter_member(s, here, 0);
        let k = choose|k: int| 0 <= k < s.len() && s[k] == of_stream(s, stream)[0];
        assert(s[k].stream != stream);
    }
}

/// A stream's fresh rows are its own, in order.
proof fn lemma_fresh_rows(d: DbView, source: i64, stream: Seq<char>, after: Option<i64>)
    requires
        d.wf(),
    ensures
        ({
            let fresh = publisher::fresh_rows(d, source, stream, after);
            &&& ascending(fresh)
            &&& forall|i: int| 0 <= i < fresh.len() ==> (#[trigger] fresh[i]).stream == stream
            &&& !d.streams_of(source).contains(stream) ==> fresh.len() == 0
        }),
{
    let live = d.live_of(source, stream);
    let keep = |r: WalView| model::past(after, r.ts);
    laws::law_the_tail_is_in_order(d, source, stream);
    lemma_ascending_filtered(live, keep);
    let fresh = live.filter(keep);
    assert forall|i: int| 0 <= i < fresh.len() implies (#[trigger] fresh[i]).stream == stream by {
        seqs::lemma_filter_member(live, keep, i);
        let k = choose|k: int| 0 <= k < live.len() && live[k] == fresh[i];
        assert(live[k].stream == stream);
    }
    laws::law_a_stream_is_its_rows(d, source, stream);
    seqs::lemma_filter_shorter(live, keep);
    seqs::lemma_filter_shorter(
        d.wal_of(source, stream),
        |r: WalView| model::past(d.watermark(source, stream), r.ts),
    );
}

proof fn lemma_ascending_filtered(rows: Seq<WalView>, keep: spec_fn(WalView) -> bool)
    requires
        ascending(rows),
    ensures
        ascending(rows.filter(keep)),
    decreases rows.len(),
{
    reveal(Seq::filter);
    if rows.len() > 0 {
        let d = rows.drop_last();
        assert(ascending(d)) by {
            assert forall|i: int, j: int| 0 <= i < j < d.len() implies (#[trigger] d[i]).ts < (
            #[trigger] d[j]).ts by {
                assert(d[i] == rows[i] && d[j] == rows[j]);
            }
        }
        lemma_ascending_filtered(d, keep);
        let f = rows.filter(keep);
        let g = d.filter(keep);
        if keep(rows.last()) {
            assert forall|i: int, j: int| 0 <= i < j < f.len() implies (#[trigger] f[i]).ts < (
            #[trigger] f[j]).ts by {
                if j == g.len() {
                    seqs::lemma_filter_member(d, keep, i);
                    let k = choose|k: int| 0 <= k < d.len() && d[k] == g[i];
                    assert(rows[k].ts < rows[rows.len() - 1].ts);
                    assert(f[i] == g[i]);
                } else {
                    assert(f[i] == g[i] && f[j] == g[j]);
                }
            }
        }
    }
}

/// What reading streams gathers of one of them, and how far it is published then.
proof fn lemma_gathered_of(c: CursorView, d: DbView, names: Seq<Seq<char>>, stream: Seq<char>)
    requires
        d.wf(),
        publisher::gathered(c, d, names).refusal is None,
        forall|i: int, j: int| 0 <= i < j < names.len() ==> names[i] != names[j],
    ensures
        ({
            let g = publisher::gathered(c, d, names);
            let after = publisher::cursor_at(c.streams, stream).wal_after;
            let fresh = publisher::fresh_rows(d, c.source_id, stream, after);
            let at = publisher::cursor_at(g.streams, stream).wal_after;
            if names.contains(stream) {
                of_stream(g.rows, stream) == fresh && at == model::latest(
                    after,
                    model::newest_row(fresh),
                )
            } else {
                of_stream(g.rows, stream).len() == 0 && at == after
            }
        }),
    decreases names.len(),
{
    let here = |r: WalView| r.stream == stream;
    if names.len() == 0 {
        lemma_none_of(Seq::empty(), stream);
    } else {
        let head = names.drop_last();
        let name = names.last();
        let last = names.len() - 1;
        assert(names[last] == name);
        assert forall|i: int, j: int| 0 <= i < j < head.len() implies head[i] != head[j] by {
            assert(names[i] != names[j]);
        }
        lemma_gathered_of(c, d, head, stream);
        lemma_gathered_of(c, d, head, name);
        if head.contains(name) {
            let k = choose|k: int| 0 <= k < head.len() && head[k] == name;
            assert(names[k] != names[last]);
        }
        if head.contains(stream) {
            let k = choose|k: int| 0 <= k < head.len() && head[k] == stream;
            assert(names[k] == stream);
        }
        if names.contains(stream) && stream != name {
            let k = choose|k: int| 0 <= k < names.len() && names[k] == stream;
            assert(head[k] == stream);
        }
        let g = publisher::gathered(c, d, head);
        let after = publisher::cursor_at(c.streams, name).wal_after;
        let fresh = publisher::fresh_rows(d, c.source_id, name, after);
        lemma_fresh_rows(d, c.source_id, name, after);
        seqs::lemma_filter_concat(g.rows, fresh, here);
        if stream == name {
            seqs::lemma_filter_all(fresh, here);
            assert(of_stream(g.rows, stream) + fresh =~= fresh);
        } else {
            lemma_none_of(fresh, stream);
            assert(of_stream(g.rows, stream) + of_stream(fresh, stream) =~= of_stream(
                g.rows,
                stream,
            ));
        }
    }
}

/// The rows of the frame that ends a poll.
pub open spec fn rows_sent(frames: Seq<FrameView>) -> Seq<WalView> {
    match frames.last() {
        FrameView::Rows { rows, .. } => rows,
        _ => Seq::empty(),
    }
}

/// A poll ships of each stream its fresh rows, in order, and then it is published
/// to the newest of them.
proof fn lemma_poll_of(c: CursorView, d: DbView, stream: Seq<char>)
    requires
        d.wf(),
        publisher::polled(c, d).1 is Ok,
    ensures
        ({
            let (now, r) = publisher::polled(c, d);
            let after = publisher::cursor_at(c.streams, stream).wal_after;
            let fresh = publisher::fresh_rows(d, c.source_id, stream, after);
            &&& of_stream(rows_sent(r->Ok_0), stream) == fresh
            &&& publisher::cursor_at(now.streams, stream).wal_after == model::latest(
                after,
                model::newest_row(fresh),
            )
            &&& now.source_id == c.source_id
        }),
{
    let all = d.streams_of(c.source_id);
    let entries = d.caller_streams(c.source_id);
    let ready = publisher::announced(c, d).0;
    let g = publisher::gathered(ready, d, all);
    let after = publisher::cursor_at(c.streams, stream).wal_after;
    exchange::lemma_indexes_announce(c, d, entries, c.since);
    exchange::lemma_indexes_keep_rows(c, d, entries, c.since, stream);
    exchange::lemma_streams_distinct(d, c.source_id);
    lemma_gathered_of(ready, d, all, stream);
    lemma_fresh_rows(d, c.source_id, stream, after);
    if !all.contains(stream) {
        assert(of_stream(g.rows, stream) =~= publisher::fresh_rows(
            d,
            c.source_id,
            stream,
            after,
        ));
    }
    lemma_sorted_of(g.rows, stream);
}

/// What polls shipped of a stream, one poll after the other.
pub open spec fn shipped_of(sent: Seq<Seq<FrameView>>, stream: Seq<char>) -> Seq<WalView>
    decreases sent.len(),
{
    if sent.len() == 0 {
        Seq::empty()
    } else {
        shipped_of(sent.drop_last(), stream) + of_stream(rows_sent(sent.last()), stream)
    }
}

/// The newest timestamp once the first `n` rows of a log are there, over what was
/// there before it.
pub open spec fn reached(base: Option<i64>, log: Seq<WalView>, n: nat) -> Option<i64> {
    if n == 0 {
        base
    } else {
        Some(log[n - 1].ts)
    }
}

/// Whether archives are those of a stream that grows by a log: by the time of the
/// archive number `i` its first `cuts[i + 1]` rows have been appended, and those
/// appended since the one before are what is live past what was there by then.
pub open spec fn grows_by(
    ds: Seq<DbView>,
    source: i64,
    stream: Seq<char>,
    base: Option<i64>,
    log: Seq<WalView>,
    cuts: Seq<nat>,
) -> bool {
    &&& cuts.len() == ds.len() + 1
    &&& cuts[0] == 0
    &&& forall|i: int| 0 <= i < ds.len() ==> cuts[i] <= #[trigger] cuts[i + 1] <= log.len()
    &&& forall|i: int|
        0 <= i < ds.len() ==> publisher::fresh_rows(
            #[trigger] ds[i],
            source,
            stream,
            reached(base, log, cuts[i]),
        ) == log.subrange(cuts[i] as int, cuts[i + 1] as int)
}

/// Over any number of polls, each row that is appended to a stream is shipped
/// exactly once: what they ship of it, one after the other, is the stream's log, in
/// order and with nothing missing. The log is of ascending timestamps past what the
/// source was opened at, and its rows are live when the first poll after them is
/// made.
pub proof fn law_polls_ship_each_row_once(
    c: CursorView,
    ds: Seq<DbView>,
    stream: Seq<char>,
    log: Seq<WalView>,
    cuts: Seq<nat>,
)
    requires
        polls(c, ds).1 is Ok,
        forall|i: int| 0 <= i < ds.len() ==> (#[trigger] ds[i]).wf(),
        ascending(log),
        forall|i: int|
            0 <= i < log.len() ==> model::past(
                publisher::cursor_at(c.streams, stream).wal_after,
                (#[trigger] log[i]).ts,
            ),
        grows_by(
            ds,
            c.source_id,
            stream,
            publisher::cursor_at(c.streams, stream).wal_after,
            log,
            cuts,
        ),
    ensures
        shipped_of(polls(c, ds).1->Ok_0, stream) == log.take(cuts.last() as int),
        publisher::cursor_at(polls(c, ds).0.streams, stream).wal_after == reached(
            publisher::cursor_at(c.streams, stream).wal_after,
            log,
            cuts.last(),
        ),
        polls(c, ds).0.source_id == c.source_id,
    decreases ds.len(),
{
    let base = publisher::cursor_at(c.streams, stream).wal_after;
    let n = ds.len();
    if n == 0 {
        assert(log.take(0) =~= Seq::empty());
    } else {
        let head = ds.drop_last();
        let marks = cuts.drop_last();
        assert(grows_by(head, c.source_id, stream, base, log, marks)) by {
            assert forall|i: int| 0 <= i < head.len() implies marks[i] <= #[trigger] marks[i + 1]
                <= log.len() by {
                assert(cuts[i] <= cuts[i + 1] <= log.len());
            }
            assert forall|i: int| 0 <= i < head.len() implies publisher::fresh_rows(
                #[trigger] head[i],
                c.source_id,
                stream,
                reached(base, log, marks[i]),
            ) == log.subrange(marks[i] as int, marks[i + 1] as int) by {
                assert(head[i] == ds[i]);
            }
        }
        assert forall|i: int| 0 <= i < head.len() implies (#[trigger] head[i]).wf() by {
            assert(head[i] == ds[i]);
        }
        law_polls_ship_each_row_once(c, head, stream, log, marks);
        let (was, r) = polls(c, head);
        let before = r->Ok_0;
        let sent = polls(c, ds).1->Ok_0;
        let d = ds[n - 1];
        assert(d == ds.last());
        assert(d.wf());
        lemma_poll_of(was, d, stream);
        assert(sent.drop_last() =~= before);
        let from = cuts[n - 1];
        let to = cuts[n as int];
        assert(cuts[n - 1] <= cuts[(n - 1) + 1] <= log.len());
        assert(marks.last() == from);
        let fresh = log.subrange(from as int, to as int);
        assert(publisher::fresh_rows(d, c.source_id, stream, reached(base, log, from)) == fresh);
        assert(log.take(from as int) + fresh =~= log.take(to as int));
        exchange::lemma_newest(fresh);
        if fresh.len() > 0 {
            let newest = model::newest_row(fresh)->0;
            let k = choose|k: int| 0 <= k < fresh.len() && (#[trigger] fresh[k]).ts == newest;
            assert(fresh[fresh.len() - 1].ts <= newest);
            assert(fresh[k] == log[from + k]);
            assert(fresh[fresh.len() - 1] == log[to - 1]);
            if from + k < to - 1 {
                assert(log[from + k].ts < log[to - 1].ts);
            }
            assert(newest == log[to - 1].ts);
            if from > 0 {
                assert(log[from - 1].ts < log[to - 1].ts);
            } else {
                assert(model::past(base, log[to - 1].ts));
            }
        }
    }
}

/// After opening at the present, each row appended to a stream is shipped exactly
/// once, in order and with nothing missing, whatever is sealed or pruned of what
/// has been shipped.
pub proof fn law_tailing_ships_each_appended_row_once(
    d: DbView,
    s: SourceView,
    ordinal: u32,
    ds: Seq<DbView>,
    stream: Seq<char>,
    log: Seq<WalView>,
    cuts: Seq<nat>,
)
    requires
        polls(publisher::source_opened(d, s, ordinal, None).0, ds).1 is Ok,
        forall|i: int| 0 <= i < ds.len() ==> (#[trigger] ds[i]).wf(),
        ascending(log),
        forall|i: int|
            0 <= i < log.len() ==> model::past(
                publisher::opened_after(d, s.id, stream, None),
                (#[trigger] log[i]).ts,
            ),
        grows_by(ds, s.id, stream, publisher::opened_after(d, s.id, stream, None), log, cuts),
        cuts.last() == log.len(),
    ensures
        shipped_of(
            polls(publisher::source_opened(d, s, ordinal, None).0, ds).1->Ok_0,
            stream,
        ) == log,
{
    let c = publisher::source_opened(d, s, ordinal, None).0;
    lemma_opened(d, s, ordinal, None);
    assert(publisher::cursor_at(c.streams, stream).wal_after == publisher::opened_after(
        d,
        s.id,
        stream,
        None,
    ));
    law_polls_ship_each_row_once(c, ds, stream, log, cuts);
    assert(log.take(log.len() as int) =~= log);
}

// ------------------------------------------------------------ each entry once

/// A stream's index entries from a timestamp on, as they are read.
pub open spec fn entries_from(d: DbView, source: i64, stream: Seq<char>, from: i64) -> Seq<
    CallerView,
> {
    store::wal::callers_between(d.callers_of(source, stream), from, i64::MAX)
}

/// Sending a stream's index entries out of one archive after the other.
pub open spec fn entries_sent(
    c: CursorView,
    ds: Seq<DbView>,
    stream: Seq<char>,
    from: i64,
) -> (CursorView, Seq<FrameView>)
    decreases ds.len(),
{
    if ds.len() == 0 {
        (c, Seq::empty())
    } else {
        let (was, head) = entries_sent(c, ds.drop_last(), stream, from);
        let (now, more) = publisher::index_emitted(was, ds.last(), stream, from);
        (now, head + more)
    }
}

/// Whether of each archive a stream's entries begin with those of the one before:
/// whatever was added stands behind what was there.
pub open spec fn entries_grow(ds: Seq<DbView>, source: i64, stream: Seq<char>, from: i64) -> bool {
    forall|i: int|
        0 < i < ds.len() ==> entries_from(ds[i - 1], source, stream, from).is_prefix_of(
            entries_from(#[trigger] ds[i], source, stream, from),
        )
}

proof fn lemma_run_joined(
    c: CursorView,
    was: CursorView,
    stream: Seq<char>,
    a: Seq<CallerView>,
    b: Seq<CallerView>,
)
    requires
        was.ordinal == c.ordinal,
        was.index_state == publisher::index_run(c, stream, a).state,
        was.sent_full == publisher::index_run(c, stream, a).sent_full,
    ensures
        ({
            let whole = publisher::index_run(c, stream, a + b);
            let more = publisher::index_run(was, stream, b);
            &&& whole.frames == publisher::index_run(c, stream, a).frames + more.frames
            &&& whole.state == more.state
            &&& whole.sent_full == more.sent_full
        }),
    decreases b.len(),
{
    let head = publisher::index_run(c, stream, a).frames;
    if b.len() == 0 {
        assert(a + b =~= a);
        assert(head + publisher::index_run(was, stream, b).frames =~= head);
    } else {
        lemma_run_joined(c, was, stream, a, b.drop_last());
        assert((a + b).drop_last() =~= a + b.drop_last());
        assert((a + b).last() == b.last());
        assert(publisher::index_run(c, stream, a + b).frames =~= head + publisher::index_run(
            was,
            stream,
            b,
        ).frames);
    }
}

proof fn lemma_trailing_joined(a: Seq<CallerView>, b: Seq<CallerView>, ts: i64)
    ensures
        publisher::trailing_at(b, ts) <= b.len(),
        publisher::trailing_at(a + b, ts) == if publisher::trailing_at(b, ts) == b.len() {
            b.len() + publisher::trailing_at(a, ts)
        } else {
            publisher::trailing_at(b, ts)
        },
    decreases b.len(),
{
    if b.len() == 0 {
        assert(a + b =~= a);
    } else {
        assert((a + b).drop_last() =~= a + b.drop_last());
        assert((a + b).last() == b.last());
        lemma_trailing_joined(a, b.drop_last(), ts);
    }
}

proof fn lemma_all_trail(rows: Seq<CallerView>, ts: i64)
    requires
        forall|i: int| 0 <= i < rows.len() ==> (#[trigger] rows[i]).ts == ts,
    ensures
        publisher::trailing_at(rows, ts) == rows.len(),
    decreases rows.len(),
{
    if rows.len() > 0 {
        let d = rows.drop_last();
        assert forall|i: int| 0 <= i < d.len() implies (#[trigger] d[i]).ts == ts by {
            assert(rows[i].ts == ts);
        }
        lemma_all_trail(d, ts);
        assert(rows[rows.len() - 1].ts == ts);
    }
}

/// Going on from where entries were left: what is read again is passed over, and
/// what was added is sent.
pub proof fn lemma_entries_go_on(
    c: CursorView,
    d: DbView,
    stream: Seq<char>,
    from: i64,
    a: Seq<CallerView>,
    b: Seq<CallerView>,
)
    requires
        d.wf(),
        d.caller_rows.len() <= usize::MAX,
        entries_from(d, c.source_id, stream, from) == a + b,
        publisher::cursor_at(c.streams, stream).index_after == publisher::resume_after(a, None),
    ensures
        ({
            let after = publisher::cursor_at(c.streams, stream).index_after;
            let rows = publisher::index_rows(c, d, stream, from);
            &&& rows.skip(publisher::sent_before(rows, after) as int) == b
            &&& publisher::resume_after(rows, after) == publisher::resume_after(a + b, None)
        }),
{
    let all = d.callers_of(c.source_id, stream);
    let whole = a + b;
    let since = |r: CallerView| from <= r.ts <= i64::MAX;
    let rows = publisher::index_rows(c, d, stream, from);
    let after = publisher::cursor_at(c.streams, stream).index_after;
    exchange::lemma_entries_in_order(d, c.source_id, stream);
    exchange::lemma_entries_filtered(all, since);
    seqs::lemma_filter_shorter(all, since);
    if a.len() == 0 {
        assert(whole =~= b);
        assert(rows.skip(0) =~= b);
    } else {
        let ts = a.last().ts;
        let n = publisher::trailing_at(a, ts);
        lemma_trailing_joined(Seq::empty(), a, ts);
        assert(after == Some((ts, n as usize)));
        assert(whole[a.len() - 1] == a.last());
        seqs::lemma_filter_member(all, since, a.len() - 1);
        let on = |r: CallerView| ts <= r.ts;
        seqs::lemma_filter_twice(all, since, on);
        seqs::lemma_filter_same(
            all,
            |r: CallerView| since(r) && on(r),
            |r: CallerView| ts <= r.ts <= i64::MAX,
        );
        assert(rows == whole.filter(on));
        seqs::lemma_filter_concat(a, b, on);
        let f = a.filter(on);
        assert(exchange::by_when(a)) by {
            assert forall|i: int, j: int| 0 <= i < j < a.len() implies (#[trigger] a[i]).ts <= (
            #[trigger] a[j]).ts by {
                assert(whole[i] == a[i] && whole[j] == a[j]);
            }
        }
        exchange::lemma_entries_at_end(a, ts);
        assert forall|i: int| 0 <= i < b.len() implies on(#[trigger] b[i]) by {
            assert(whole[a.len() + i] == b[i]);
            assert(whole[a.len() - 1].ts <= whole[a.len() + i].ts);
        }
        seqs::lemma_filter_all(b, on);
        assert(rows == f + b);
        assert forall|k: int| 0 <= k < n implies #[trigger] rows[k].ts == ts by {
            assert(rows[k] == f[k]);
        }
        publisher::lemma_leading(rows, ts, n as int);
        assert(rows.skip(n as int) =~= b);
        // Where it resumes.
        let last = rows.last().ts;
        lemma_trailing_joined(a, b, last);
        lemma_trailing_joined(f, b, last);
        lemma_all_trail(f, ts);
        assert(f[f.len() - 1].ts == ts);
        if b.len() == 0 {
            assert(rows =~= f);
            assert(whole =~= a);
        } else {
            assert(rows.last() == b.last());
            assert(whole.last() == b.last());
            if last != ts {
                assert(publisher::trailing_at(f, last) == 0);
                assert(publisher::trailing_at(a, last) == 0);
            }
        }
    }
}

/// Over any number of archives in which a stream's index entries only grow at the
/// end, each entry from the timestamp on is sent exactly once: as one frame, in the
/// order they are read, its blob unchanged and the state folded over it, the first
/// that the source ever sends as the whole set and every other as a change.
pub proof fn law_each_entry_is_sent_once(
    c: CursorView,
    ds: Seq<DbView>,
    stream: Seq<char>,
    from: i64,
)
    requires
        ds.len() > 0,
        publisher::cursor_at(c.streams, stream).index_after is None,
        forall|i: int|
            0 <= i < ds.len() ==> (#[trigger] ds[i]).wf() && ds[i].caller_rows.len() <= usize::MAX,
        entries_grow(ds, c.source_id, stream, from),
    ensures
        ({
            let (now, frames) = entries_sent(c, ds, stream, from);
            let rows = entries_from(ds.last(), c.source_id, stream, from);
            let run = publisher::index_run(c, stream, rows);
            &&& frames == run.frames
            &&& frames.len() == rows.len()
            &&& forall|i: int|
                0 <= i < rows.len() ==> #[trigger] frames[i] == (FrameView::Index {
                    source: c.ordinal,
                    stream,
                    ts: rows[i].ts,
                    kind: if i == 0 && !c.sent_full {
                        IndexKind::Full
                    } else {
                        IndexKind::Delta
                    },
                    state: folded_over(c.index_state, rows.take(i + 1)),
                    blob: rows[i].blob,
                })
            &&& now.index_state == folded_over(c.index_state, rows)
            &&& now.sent_full == (c.sent_full || rows.len() > 0)
        }),
{
    let rows = entries_from(ds.last(), c.source_id, stream, from);
    lemma_entries_sent(c, ds, stream, from);
    lemma_run_frames(c, stream, rows);
}

/// A state with entries folded into it, one after the other.
pub open spec fn folded_over(state: IndexState, rows: Seq<CallerView>) -> IndexState
    decreases rows.len(),
{
    if rows.len() == 0 {
        state
    } else {
        publisher::folded(
            folded_over(state, rows.drop_last()),
            rows.last().ts,
            rows.last().blob,
        )
    }
}

proof fn lemma_run_frames(c: CursorView, stream: Seq<char>, rows: Seq<CallerView>)
    ensures
        ({
            let run = publisher::index_run(c, stream, rows);
            &&& run.frames.len() == rows.len()
            &&& run.state == folded_over(c.index_state, rows)
            &&& run.sent_full == (c.sent_full || rows.len() > 0)
            &&& forall|i: int|
                0 <= i < rows.len() ==> #[trigger] run.frames[i] == (FrameView::Index {
                    source: c.ordinal,
                    stream,
                    ts: rows[i].ts,
                    kind: if i == 0 && !c.sent_full {
                        IndexKind::Full
                    } else {
                        IndexKind::Delta
                    },
                    state: folded_over(c.index_state, rows.take(i + 1)),
                    blob: rows[i].blob,
                })
        }),
    decreases rows.len(),
{
    if rows.len() > 0 {
        let d = rows.drop_last();
        lemma_run_frames(c, stream, d);
        let run = publisher::index_run(c, stream, rows);
        let was = publisher::index_run(c, stream, d);
        assert forall|i: int| 0 <= i < rows.len() implies #[trigger] run.frames[i] == (
        FrameView::Index {
            source: c.ordinal,
            stream,
            ts: rows[i].ts,
            kind: if i == 0 && !c.sent_full {
                IndexKind::Full
            } else {
                IndexKind::Delta
            },
            state: folded_over(c.index_state, rows.take(i + 1)),
            blob: rows[i].blob,
        }) by {
            if i < d.len() {
                assert(run.frames[i] == was.frames[i]);
                assert(d[i] == rows[i]);
                assert(d.take(i + 1) =~= rows.take(i + 1));
            } else {
                assert(rows.take(i + 1) =~= rows);
            }
        }
    }
}

proof fn lemma_entries_sent(c: CursorView, ds: Seq<DbView>, stream: Seq<char>, from: i64)
    requires
        publisher::cursor_at(c.streams, stream).index_after is None,
        forall|i: int|
            0 <= i < ds.len() ==> (#[trigger] ds[i]).wf() && ds[i].caller_rows.len() <= usize::MAX,
        entries_grow(ds, c.source_id, stream, from),
    ensures
        ({
            let (now, frames) = entries_sent(c, ds, stream, from);
            let rows = if ds.len() == 0 {
                Seq::empty()
            } else {
                entries_from(ds.last(), c.source_id, stream, from)
            };
            let run = publisher::index_run(c, stream, rows);
            &&& frames == run.frames
            &&& now.index_state == run.state
            &&& now.sent_full == run.sent_full
            &&& now.ordinal == c.ordinal
            &&& now.source_id == c.source_id
            &&& publisher::cursor_at(now.streams, stream).index_after == publisher::resume_after(
                rows,
                None,
            )
        }),
    decreases ds.len(),
{
    if ds.len() > 0 {
        let head = ds.drop_last();
        assert forall|i: int| 0 <= i < head.len() implies (#[trigger] head[i]).wf()
            && head[i].caller_rows.len() <= usize::MAX by {
            assert(head[i] == ds[i]);
        }
        assert(entries_grow(head, c.source_id, stream, from)) by {
            assert forall|i: int| 0 < i < head.len() implies entries_from(
                head[i - 1],
                c.source_id,
                stream,
                from,
            ).is_prefix_of(entries_from(#[trigger] head[i], c.source_id, stream, from)) by {
                assert(head[i] == ds[i] && head[i - 1] == ds[i - 1]);
            }
        }
        lemma_entries_sent(c, head, stream, from);
        let was = entries_sent(c, head, stream, from).0;
        let a = if head.len() == 0 {
            Seq::empty()
        } else {
            entries_from(head.last(), c.source_id, stream, from)
        };
        let d = ds[ds.len() - 1];
        let rows = entries_from(d, c.source_id, stream, from);
        if head.len() > 0 {
            assert(head.last() == ds[ds.len() - 2]);
            assert(a.is_prefix_of(entries_from(ds[ds.len() - 1], c.source_id, stream, from)));
        }
        let b = rows.skip(a.len() as int);
        assert(rows =~= a + b);
        lemma_entries_go_on(was, d, stream, from, a, b);
        lemma_run_joined(c, was, stream, a, b);
    }
}

/// An entry that is not older than any of its stream is read last: what was read
/// before it stands in front of it.
pub proof fn law_a_later_entry_is_read_last(d: DbView, c: CallerAtView, from: i64)
    requires
        d.wf(),
        d.has_source(c.source_id),
        forall|i: int|
            0 <= i < d.callers_of(c.source_id, c.stream).len() ==> (#[trigger] d.callers_of(
                c.source_id,
                c.stream,
            )[i]).ts <= c.row.ts,
    ensures
        d.caller_inserted(c) matches Ok(n) && entries_from(
            d,
            c.source_id,
            c.stream,
            from,
        ).is_prefix_of(entries_from(n, c.source_id, c.stream, from)),
{
    lossless::lemma_caller_appended(d, c);
    let was = d.callers_of(c.source_id, c.stream);
    let keep = |r: CallerView| from <= r.ts <= i64::MAX;
    assert(was.push(c.row) =~= was + seq![c.row]);
    seqs::lemma_filter_concat(was, seq![c.row], keep);
    let now = was.push(c.row).filter(keep);
    assert(now.take(was.filter(keep).len() as int) =~= was.filter(keep));
}

} // verus!
