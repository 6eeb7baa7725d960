//! Tailing an archive as frames.

use vstd::prelude::*;
use vstd::string::*;

use super::frame::{Frame, FrameView, IndexKind, IndexState, NO_INDEX_STATE};
use super::layout;
use super::little_endian::bytes_of_i64;
use crate::db::model;
use crate::db::model::DbView;
use crate::db::store;
use crate::db::{CallerRow, CallerView, Db, SegmentView, SourceView, WalRow, WalView};
use crate::error::{Error, ErrorView};
use crate::seqs;
use crate::seqs::{append_bytes, copy_bytes};
use crate::slots::Slots;
use crate::text;
use crate::text::{append_signed, standing, Standing};

verus! {

broadcast use crate::seqs::group_views;

// ------------------------------------------------------------ the declared state

/// The FNV prime, which both streams are folded with. It is odd, so no step
/// forgets anything.
pub const PRIME: u64 = 0x0000_0100_0000_01b3;

/// The FNV offset basis.
pub const BASIS_A: u64 = 0xcbf2_9ce4_8422_2325;

/// A second basis, so that the two streams differ.
pub const BASIS_B: u64 = 0x9e37_79b9_7f4a_7c15;

/// FNV-1a from a value, over bytes.
pub open spec fn fnv(from: u64, bytes: Seq<u8>) -> u64
    decreases bytes.len(),
{
    if bytes.len() == 0 {
        from
    } else {
        (fnv(from, bytes.drop_last()) ^ (bytes.last() as u64)).wrapping_mul(PRIME)
    }
}

/// The state once an entry has been folded into it: two FNV-1a streams, each from
/// its own basis, over the entry's timestamp and blob, and never the state of no
/// index.
pub open spec fn folded(state: IndexState, ts: i64, blob: Seq<u8>) -> IndexState {
    let bytes = layout::put_signed(ts) + blob;
    let a = fnv(
        if state == NO_INDEX_STATE {
            BASIS_A
        } else {
            state.0
        },
        bytes,
    );
    let b = fnv(
        if state == NO_INDEX_STATE {
            BASIS_B
        } else {
            state.1
        },
        bytes,
    );
    if (a, b) == NO_INDEX_STATE {
        (1, 0)
    } else {
        (a, b)
    }
}

/// Fold one index entry into the running state: an accumulator over the entries
/// emitted, so that a subscriber that missed one cannot match it.
pub fn fold_index_state(state: IndexState, ts: i64, blob: &[u8]) -> (r: IndexState)
    ensures
        r == folded(state, ts, blob@),
{
    let none: bool = state.0 == NO_INDEX_STATE.0 && state.1 == NO_INDEX_STATE.1;
    let mut bytes: Vec<u8> = Vec::new();
    append_bytes(&mut bytes, bytes_of_i64(ts).as_slice());
    append_bytes(&mut bytes, blob);
    let ghost all = layout::put_signed(ts) + blob@;
    assert(bytes@ =~= all);
    let from_a: u64 = if none {
        BASIS_A
    } else {
        state.0
    };
    let from_b: u64 = if none {
        BASIS_B
    } else {
        state.1
    };
    let mut a: u64 = from_a;
    let mut b: u64 = from_b;
    let mut i: usize = 0;
    while i < bytes.len()
        invariant
            i <= bytes@.len(),
            a == fnv(from_a, bytes@.take(i as int)),
            b == fnv(from_b, bytes@.take(i as int)),
        decreases bytes@.len() - i,
    {
        proof {
            assert(bytes@.take(i + 1).drop_last() =~= bytes@.take(i as int));
            assert(bytes@.take(i + 1).last() == bytes@[i as int]);
        }
        a = (a ^ (bytes[i] as u64)).wrapping_mul(PRIME);
        b = (b ^ (bytes[i] as u64)).wrapping_mul(PRIME);
        i += 1;
    }
    proof {
        assert(bytes@.take(i as int) =~= all);
    }
    if a == NO_INDEX_STATE.0 && b == NO_INDEX_STATE.1 {
        (1, 0)
    } else {
        (a, b)
    }
}

// ------------------------------------------------------------ cursors

/// How far a stream has been published.
#[derive(Clone, Copy, Debug)]
pub struct StreamCursor {
    /// Newest WAL row timestamp emitted, if any.
    pub wal_after: Option<i64>,
    /// Newest index timestamp emitted, and how many entries at exactly that
    /// timestamp were sent: several may share one.
    pub index_after: Option<(i64, usize)>,
}

/// How far a stream has been published of which nothing has been.
pub open spec fn unpublished() -> StreamCursor {
    StreamCursor { wal_after: None, index_after: None }
}

/// How far a stream has been published.
pub open spec fn cursor_at(streams: Map<Seq<char>, StreamCursor>, name: Seq<char>) -> StreamCursor {
    if streams.dom().contains(name) {
        streams[name]
    } else {
        unpublished()
    }
}

/// One source, and everything the publisher remembers about it between polls.
struct SourceCursor {
    ordinal: u32,
    source_id: i64,
    /// The timestamp that publishing began from: nothing older is shipped as
    /// an index entry or a clock observation.
    since: i64,
    streams: Slots<String, StreamCursor>,
    /// Newest clock observation emitted.
    clock_after: Option<i64>,
    seq: u64,
    index_state: (u64, u64),
    /// Whether an index entry has been sent. Only the first is `Full`.
    sent_full: bool,
}

/// What the publisher remembers about a source, as mathematics.
pub struct CursorView {
    pub ordinal: u32,
    pub source_id: i64,
    pub since: i64,
    pub streams: Map<Seq<char>, StreamCursor>,
    pub clock_after: Option<i64>,
    pub seq: u64,
    pub index_state: (u64, u64),
    pub sent_full: bool,
}

impl View for SourceCursor {
    type V = CursorView;

    closed spec fn view(&self) -> CursorView {
        CursorView {
            ordinal: self.ordinal,
            source_id: self.source_id,
            since: self.since,
            streams: self.streams@,
            clock_after: self.clock_after,
            seq: self.seq,
            index_state: self.index_state,
            sent_full: self.sent_full,
        }
    }
}

// ------------------------------------------------------------ index entries

/// How many rows at the front are at a timestamp.
pub open spec fn leading_at(rows: Seq<CallerView>, ts: i64) -> nat
    decreases rows.len(),
{
    if rows.len() == 0 || rows[0].ts != ts {
        0
    } else {
        1 + leading_at(rows.skip(1), ts)
    }
}

/// How many rows at the end are at a timestamp.
pub open spec fn trailing_at(rows: Seq<CallerView>, ts: i64) -> nat
    decreases rows.len(),
{
    if rows.len() == 0 || rows.last().ts != ts {
        0
    } else {
        1 + trailing_at(rows.drop_last(), ts)
    }
}

/// How many of the rows from the resume point on were sent already: those at
/// its timestamp, up to the count it carries.
pub open spec fn sent_before(rows: Seq<CallerView>, resume: Option<(i64, usize)>) -> nat {
    match resume {
        None => 0,
        Some((ts, count)) => if leading_at(rows, ts) <= count {
            leading_at(rows, ts)
        } else {
            count as nat
        },
    }
}

/// Where to resume once rows have been sent: at the last one's timestamp, past
/// as many as are there.
pub open spec fn resume_after(rows: Seq<CallerView>, resume: Option<(i64, usize)>) -> Option<
    (i64, usize),
> {
    if rows.len() == 0 {
        match resume {
            Some((ts, _)) => Some((ts, 0)),
            None => None,
        }
    } else {
        Some((rows.last().ts, trailing_at(rows, rows.last().ts) as usize))
    }
}

/// What sending index entries leaves: the state declared, whether any entry has
/// been sent, and the frames.
pub struct IndexRun {
    pub state: (u64, u64),
    pub sent_full: bool,
    pub frames: Seq<FrameView>,
}

/// Sending a stream's index entries: each is folded into the state it declares,
/// and the first that a source ever sends is the whole set.
pub open spec fn index_run(
    c: CursorView,
    stream: Seq<char>,
    rows: Seq<CallerView>,
) -> IndexRun
    decreases rows.len(),
{
    if rows.len() == 0 {
        IndexRun { state: c.index_state, sent_full: c.sent_full, frames: Seq::empty() }
    } else {
        let r = index_run(c, stream, rows.drop_last());
        let state = folded(r.state, rows.last().ts, rows.last().blob);
        IndexRun {
            state,
            sent_full: true,
            frames: r.frames.push(
                FrameView::Index {
                    source: c.ordinal,
                    stream,
                    ts: rows.last().ts,
                    kind: if r.sent_full {
                        IndexKind::Delta
                    } else {
                        IndexKind::Full
                    },
                    state,
                    blob: rows.last().blob,
                },
            ),
        }
    }
}

/// The index entries of a stream from where it was left, or from a timestamp
/// where none was sent.
pub open spec fn index_rows(c: CursorView, d: DbView, stream: Seq<char>, from: i64) -> Seq<
    CallerView,
> {
    store::wal::callers_between(
        d.callers_of(c.source_id, stream),
        match cursor_at(c.streams, stream).index_after {
            Some((ts, _)) => ts,
            None => from,
        },
        i64::MAX,
    )
}

/// Sending every index entry of a stream that has not been sent.
pub open spec fn index_emitted(c: CursorView, d: DbView, stream: Seq<char>, from: i64) -> (
    CursorView,
    Seq<FrameView>,
) {
    let cursor = cursor_at(c.streams, stream);
    let rows = index_rows(c, d, stream, from);
    let run = index_run(c, stream, rows.skip(sent_before(rows, cursor.index_after) as int));
    (
        CursorView {
            streams: c.streams.insert(
                stream,
                StreamCursor { index_after: resume_after(rows, cursor.index_after), ..cursor },
            ),
            index_state: run.state,
            sent_full: run.sent_full,
            ..c
        },
        run.frames,
    )
}

/// Sending the index entries of streams, one after the other.
pub open spec fn indexes_emitted(
    c: CursorView,
    d: DbView,
    streams: Seq<Seq<char>>,
    from: i64,
) -> (CursorView, Seq<FrameView>)
    decreases streams.len(),
{
    if streams.len() == 0 {
        (c, Seq::empty())
    } else {
        let (was, head) = indexes_emitted(c, d, streams.drop_last(), from);
        let (now, more) = index_emitted(was, d, streams.last(), from);
        (now, head + more)
    }
}

/// Entries at a timestamp lead those behind them.
pub proof fn lemma_leading(rows: Seq<CallerView>, ts: i64, n: int)
    requires
        0 <= n <= rows.len(),
        forall|k: int| 0 <= k < n ==> #[trigger] rows[k].ts == ts,
    ensures
        leading_at(rows, ts) == n + leading_at(rows.skip(n), ts),
    decreases n,
{
    if n == 0 {
        assert(rows.skip(0) =~= rows);
    } else {
        let tail = rows.skip(1);
        assert forall|k: int| 0 <= k < n - 1 implies #[trigger] tail[k].ts == ts by {
            assert(rows[k + 1].ts == ts);
        }
        assert(rows[0].ts == ts);
        lemma_leading(tail, ts, n - 1);
        assert(tail.skip(n - 1) =~= rows.skip(n));
    }
}

fn already_sent(rows: &Vec<CallerRow>, resume: Option<(i64, usize)>) -> (r: usize)
    ensures
        r == sent_before(seqs::views(rows@), resume),
        r <= rows@.len(),
{
    let ghost all = seqs::views(rows@);
    match resume {
        None => 0,
        Some((ts, count)) => {
            let mut n: usize = 0;
            while n < rows.len() && n < count && rows[n].ts == ts
                invariant
                    n <= rows@.len(),
                    n <= count,
                    all == seqs::views(rows@),
                    forall|k: int| 0 <= k < n ==> #[trigger] all[k].ts == ts,
                decreases rows@.len() - n,
            {
                assert(all[n as int].ts == ts);
                n += 1;
            }
            proof {
                lemma_leading(all, ts, n as int);
                if n < rows@.len() {
                    assert(all.skip(n as int)[0] == rows@[n as int]@);
                }
            }
            n
        },
    }
}

fn resume_point(rows: &Vec<CallerRow>, resume: Option<(i64, usize)>) -> (r: Option<(i64, usize)>)
    ensures
        r == resume_after(seqs::views(rows@), resume),
{
    let ghost all = seqs::views(rows@);
    if rows.len() == 0 {
        return match resume {
            Some((ts, _)) => Some((ts, 0)),
            None => None,
        };
    }
    let ts: i64 = rows[rows.len() - 1].ts;
    let mut n: usize = 0;
    proof {
        assert(all.take(all.len() as int) =~= all);
    }
    while n < rows.len() && rows[rows.len() - 1 - n].ts == ts
        invariant
            n <= rows@.len(),
            all == seqs::views(rows@),
            trailing_at(all, ts) == n + trailing_at(all.take(all.len() - n), ts),
        decreases rows@.len() - n,
    {
        proof {
            let t = all.take(all.len() - n);
            assert(t.last() == rows@[rows@.len() - 1 - n]@);
            assert(t.drop_last() =~= all.take(all.len() - n - 1));
        }
        n += 1;
    }
    proof {
        let t = all.take(all.len() - n);
        if n < rows@.len() {
            assert(t.last() == rows@[rows@.len() - 1 - n]@);
        }
    }
    Some((ts, n))
}

impl SourceCursor {
    fn stream(&self, name: &str) -> (r: StreamCursor)
        ensures
            r == cursor_at(self@.streams, name@),
    {
        match self.streams.get(&name.to_string()) {
            Some(c) => c,
            None => StreamCursor { wal_after: None, index_after: None },
        }
    }

    /// Emit every index entry at or after `from` that has not been sent,
    /// advancing both the cursor and the declared state.
    fn emit_index(&mut self, db: &Db, stream: &str, from: i64, out: &mut Vec<Frame>)
        ensures
            final(self)@ == index_emitted(old(self)@, db@, stream@, from).0,
            seqs::views(final(out)@) == seqs::views(old(out)@) + index_emitted(
                old(self)@,
                db@,
                stream@,
                from,
            ).1,
    {
        let ghost c = self@;
        let ghost before = seqs::views(out@);
        let cursor = self.stream(stream);
        let start: i64 = match cursor.index_after {
            Some((ts, _)) => ts,
            None => from,
        };
        let rows = db.read_caller_rows(self.source_id, stream, start, i64::MAX);
        let ghost all = seqs::views(rows@);
        let skip: usize = already_sent(&rows, cursor.index_after);
        let ghost pending = all.skip(skip as int);
        let mut i: usize = skip;
        proof {
            assert(pending.take(0) =~= Seq::empty());
            assert(before + Seq::<FrameView>::empty() =~= before);
        }
        while i < rows.len()
            invariant
                skip <= i <= rows@.len(),
                all == seqs::views(rows@),
                pending == all.skip(skip as int),
                self.ordinal == c.ordinal,
                self.source_id == c.source_id,
                self.since == c.since,
                self.streams@ == c.streams,
                self.clock_after == c.clock_after,
                self.seq == c.seq,
                self.index_state == index_run(c, stream@, pending.take(i - skip)).state,
                self.sent_full == index_run(c, stream@, pending.take(i - skip)).sent_full,
                seqs::views(out@) == before + index_run(
                    c,
                    stream@,
                    pending.take(i - skip),
                ).frames,
            decreases rows@.len() - i,
        {
            let ghost was = seqs::views(out@);
            let ghost next = pending.take(i - skip + 1);
            proof {
                assert(next.drop_last() =~= pending.take(i - skip));
                assert(next.last() == rows@[i as int]@);
            }
            self.index_state =
            fold_index_state(self.index_state, rows[i].ts, rows[i].blob.as_slice());
            let kind = if self.sent_full {
                IndexKind::Delta
            } else {
                IndexKind::Full
            };
            self.sent_full = true;
            let frame = Frame::Index {
                source: self.ordinal,
                stream: stream.to_string(),
                ts: rows[i].ts,
                kind,
                state: self.index_state,
                blob: copy_bytes(&rows[i].blob),
            };
            let ghost fv = frame@;
            out.push(frame);
            proof {
                assert(seqs::views(out@) =~= was.push(fv));
                assert(before + index_run(c, stream@, next).frames =~= was.push(fv));
            }
            i += 1;
        }
        proof {
            assert(pending.take(i - skip) =~= pending);
        }
        let reached = resume_point(&rows, cursor.index_after);
        self.streams.set(stream.to_string(), StreamCursor { index_after: reached, ..cursor });
    }

    fn emit_indexes(&mut self, db: &Db, from: i64, out: &mut Vec<Frame>)
        ensures
            ({
                let (c, f) = indexes_emitted(
                    old(self)@,
                    db@,
                    db@.caller_streams(old(self)@.source_id),
                    from,
                );
                final(self)@ == c && seqs::views(final(out)@) == seqs::views(old(out)@) + f
            }),
    {
        let ghost c = self@;
        let ghost before = seqs::views(out@);
        let names = db.caller_row_streams(self.source_id);
        let ghost all = seqs::views(names@);
        let mut i: usize = 0;
        proof {
            assert(before + Seq::<FrameView>::empty() =~= before);
        }
        while i < names.len()
            invariant
                i <= names@.len(),
                all == seqs::views(names@),
                self@ == indexes_emitted(c, db@, all.take(i as int), from).0,
                seqs::views(out@) == before + indexes_emitted(c, db@, all.take(i as int), from).1,
            decreases names@.len() - i,
        {
            let ghost head = indexes_emitted(c, db@, all.take(i as int), from);
            let ghost more = index_emitted(head.0, db@, names@[i as int]@, from).1;
            proof {
                assert(all.take(i + 1).drop_last() =~= all.take(i as int));
                assert(all.take(i + 1).last() == names@[i as int]@);
            }
            self.emit_index(db, names[i].as_str(), from, out);
            proof {
                assert((before + head.1) + more =~= before + (head.1 + more));
            }
            i += 1;
        }
        proof {
            assert(all.take(i as int) =~= all);
        }
    }
}

// ------------------------------------------------------------ rows in order

/// Whether a row comes before another: by timestamp, then by stream.
pub open spec fn row_before(a: WalView, b: WalView) -> bool {
    a.ts < b.ts || (a.ts == b.ts && text::text_less(a.stream, b.stream))
}

/// Rows in order with one more, behind those it does not come before.
pub open spec fn with_row(s: Seq<WalView>, x: WalView) -> Seq<WalView>
    decreases s.len(),
{
    if s.len() > 0 && row_before(x, s.last()) {
        with_row(s.drop_last(), x).push(s.last())
    } else {
        s.push(x)
    }
}

/// Rows by timestamp, then by stream, then as they came.
pub open spec fn by_time(s: Seq<WalView>) -> Seq<WalView>
    decreases s.len(),
{
    if s.len() == 0 {
        s
    } else {
        with_row(by_time(s.drop_last()), s.last())
    }
}

proof fn lemma_with_row(s: Seq<WalView>, x: WalView, n: int)
    requires
        0 <= n <= s.len(),
        forall|k: int| n <= k < s.len() ==> row_before(x, #[trigger] s[k]),
        n > 0 ==> !row_before(x, s[n - 1]),
    ensures
        with_row(s, x) == s.insert(n, x),
    decreases s.len(),
{
    if n == s.len() {
        assert(s.insert(n, x) =~= s.push(x));
    } else {
        let d = s.drop_last();
        assert forall|k: int| n <= k < d.len() implies row_before(x, #[trigger] d[k]) by {
            assert(row_before(x, s[k]));
        }
        lemma_with_row(d, x, n);
        assert(row_before(x, s[s.len() - 1]));
        assert(s.insert(n, x) =~= d.insert(n, x).push(s.last()));
    }
}

fn comes_before(a: &WalRow, b: &WalRow) -> (r: bool)
    ensures
        r == row_before(a@, b@),
{
    proof {
        text::lemma_text_order(a.stream@, b.stream@);
    }
    if a.ts != b.ts {
        a.ts < b.ts
    } else {
        match standing(a.stream.as_str(), b.stream.as_str()) {
            Standing::Before => true,
            _ => false,
        }
    }
}

fn sort_rows(rows: Vec<WalRow>) -> (r: Vec<WalRow>)
    ensures
        seqs::views(r@) == by_time(seqs::views(rows@)),
{
    let ghost all = seqs::views(rows@);
    let mut out: Vec<WalRow> = Vec::new();
    let mut i: usize = 0;
    proof {
        seqs::lemma_views_empty::<WalRow>();
    }
    while i < rows.len()
        invariant
            i <= rows@.len(),
            all == seqs::views(rows@),
            seqs::views(out@) == by_time(all.take(i as int)),
        decreases rows@.len() - i,
    {
        let ghost was = seqs::views(out@);
        let ghost x = all[i as int];
        let mut at: usize = out.len();
        while at > 0 && comes_before(&rows[i], &out[at - 1])
            invariant
                at <= out@.len(),
                i < rows@.len(),
                x == rows@[i as int]@,
                was == seqs::views(out@),
                forall|k: int| at <= k < was.len() ==> row_before(x, #[trigger] was[k]),
            decreases at,
        {
            assert(was[at - 1] == out@[at - 1]@);
            at -= 1;
        }
        proof {
            if at > 0 {
                assert(was[at - 1] == out@[at - 1]@);
            }
            lemma_with_row(was, x, at as int);
            assert(all.take(i + 1).drop_last() =~= all.take(i as int));
        }
        out.insert(at, rows[i].clone());
        proof {
            assert(seqs::views(out@) =~= was.insert(at as int, x));
        }
        i += 1;
    }
    proof {
        assert(all.take(i as int) =~= all);
    }
    out
}

// ------------------------------------------------------------ a poll

/// The clock observations past a timestamp, and none from before another.
pub open spec fn offsets_past(pairs: Seq<(i64, i64)>, after: Option<i64>, since: i64) -> Seq<
    (i64, i64),
> {
    pairs.filter(|p: (i64, i64)| model::past(after, p.0) && p.0 >= since)
}

/// Clock observations as frames.
pub open spec fn offset_frames(ordinal: u32, pairs: Seq<(i64, i64)>) -> Seq<FrameView> {
    pairs.map_values(
        |p: (i64, i64)| FrameView::ClockOffset { source: ordinal, ts: p.0, offset_ns: p.1 },
    )
}

/// The timestamp of the last clock observation, or what stood before.
pub open spec fn last_offset(pairs: Seq<(i64, i64)>, otherwise: Option<i64>) -> Option<i64> {
    if pairs.len() == 0 {
        otherwise
    } else {
        Some(pairs.last().0)
    }
}

/// The live rows of a stream past a timestamp.
pub open spec fn fresh_rows(d: DbView, source: i64, stream: Seq<char>, after: Option<i64>) -> Seq<
    WalView,
> {
    d.live_of(source, stream).filter(|r: WalView| model::past(after, r.ts))
}

/// The watermark of a stream that was sealed past what has been shipped of it:
/// past the last row shipped, or at all where none was.
pub open spec fn sealed_past(d: DbView, source: i64, stream: Seq<char>, after: Option<i64>) -> Option<
    i64,
> {
    match d.watermark(source, stream) {
        Some(w) => if model::past(after, w) {
            Some(w)
        } else {
            None
        },
        None => None,
    }
}

/// What is said of a stream that was sealed past what has been shipped of it.
pub open spec fn hole_text(
    source: i64,
    stream: Seq<char>,
    watermark: i64,
    after: Option<i64>,
) -> Seq<char> {
    "source "@ + text::signed_decimal(source as int) + ": stream `"@ + stream
        + "` sealed past this publisher's cursor (watermark "@ + text::signed_decimal(
        watermark as int,
    ) + match after {
        Some(a) => ", last row shipped "@ + text::signed_decimal(a as int)
            + "); those rows are no longer in the live tail. Reconnect with `catching_up` from "@
            + text::signed_decimal(a as int),
        None => ", no row shipped); those rows are no longer in the live tail. Reconnect with `catching_up`"@,
    }
}

fn hole(source: i64, stream: &str, watermark: i64, after: Option<i64>) -> (r: Error)
    ensures
        r@ == ErrorView::Message(hole_text(source, stream@, watermark, after)),
{
    let mut s = String::from_str("source ");
    append_signed(&mut s, source);
    s.append(": stream `");
    s.append(stream);
    s.append("` sealed past this publisher's cursor (watermark ");
    append_signed(&mut s, watermark);
    match after {
        Some(a) => {
            let ghost head = s@;
            s.append(", last row shipped ");
            append_signed(&mut s, a);
            s.append("); those rows are no longer in the live tail. Reconnect with `catching_up` from ");
            append_signed(&mut s, a);
            proof {
                assert(s@ =~= head + (", last row shipped "@ + text::signed_decimal(a as int)
                    + "); those rows are no longer in the live tail. Reconnect with `catching_up` from "@
                    + text::signed_decimal(a as int)));
            }
        },
        None => {
            s.append(
                ", no row shipped); those rows are no longer in the live tail. Reconnect with `catching_up`",
            );
        },
    }
    Error::Message(s)
}

/// What reading the streams gives: how far each is published then, the rows,
/// and the refusal where a stream has a hole.
pub struct Gathered {
    pub streams: Map<Seq<char>, StreamCursor>,
    pub rows: Seq<WalView>,
    pub refusal: Option<ErrorView>,
}

/// Reading the rows of streams that have not been shipped, until one has a
/// hole.
pub open spec fn gathered(c: CursorView, d: DbView, names: Seq<Seq<char>>) -> Gathered
    decreases names.len(),
{
    if names.len() == 0 {
        Gathered { streams: c.streams, rows: Seq::empty(), refusal: None }
    } else {
        let g = gathered(c, d, names.drop_last());
        let name = names.last();
        let cursor = cursor_at(g.streams, name);
        if g.refusal is Some {
            g
        } else {
            match sealed_past(d, c.source_id, name, cursor.wal_after) {
                Some(w) => Gathered {
                    refusal: Some(
                        ErrorView::Message(hole_text(c.source_id, name, w, cursor.wal_after)),
                    ),
                    ..g
                },
                None => {
                    let fresh = fresh_rows(d, c.source_id, name, cursor.wal_after);
                    Gathered {
                        streams: g.streams.insert(
                            name,
                            StreamCursor {
                                wal_after: model::latest(
                                    cursor.wal_after,
                                    model::newest_row(fresh),
                                ),
                                ..cursor
                            },
                        ),
                        rows: g.rows + fresh,
                        refusal: None,
                    }
                },
            }
        }
    }
}

/// A poll up to its rows: what the source's cursor is with its index entries
/// and clock observations sent, and those frames.
pub open spec fn announced(c: CursorView, d: DbView) -> (CursorView, Seq<FrameView>) {
    let (indexed, index_frames) = indexes_emitted(
        c,
        d,
        d.caller_streams(c.source_id),
        c.since,
    );
    let offsets = offsets_past(d.clock_of(c.source_id), c.clock_after, c.since);
    (
        CursorView { clock_after: last_offset(offsets, c.clock_after), ..indexed },
        index_frames + offset_frames(c.ordinal, offsets),
    )
}

/// One poll of one source: index entries, then clock observations, then exactly
/// one frame of rows.
pub open spec fn polled(c: CursorView, d: DbView) -> (CursorView, Result<Seq<FrameView>, ErrorView>) {
    let (ready, head) = announced(c, d);
    let g = gathered(ready, d, d.streams_of(c.source_id));
    match g.refusal {
        Some(e) => (CursorView { streams: g.streams, ..ready }, Err(e)),
        None => (
            CursorView { streams: g.streams, seq: (c.seq + 1) as u64, ..ready },
            Ok(
                head.push(
                    FrameView::Rows {
                        source: c.ordinal,
                        seq: c.seq,
                        index_state: ready.index_state,
                        rows: by_time(g.rows),
                    },
                ),
            ),
        ),
    }
}

/// Polling the first `n` sources, until one is refused.
pub open spec fn polled_first(cs: Seq<CursorView>, d: DbView, n: nat) -> (
    Seq<CursorView>,
    Result<Seq<FrameView>, ErrorView>,
)
    decreases n,
{
    if n == 0 {
        (cs, Ok(Seq::empty()))
    } else {
        let (was, r) = polled_first(cs, d, (n - 1) as nat);
        match r {
            Err(_) => (was, r),
            Ok(head) => {
                let (c, more) = polled(cs[n - 1], d);
                (
                    was.update(n - 1, c),
                    match more {
                        Ok(f) => Ok(head + f),
                        Err(e) => Err(e),
                    },
                )
            },
        }
    }
}

proof fn lemma_gathered_stops(c: CursorView, d: DbView, names: Seq<Seq<char>>, n: int)
    requires
        0 <= n <= names.len(),
        gathered(c, d, names.take(n)).refusal is Some,
    ensures
        gathered(c, d, names) == gathered(c, d, names.take(n)),
    decreases names.len() - n,
{
    if n == names.len() {
        assert(names.take(n) =~= names);
    } else {
        assert(names.take(n + 1).drop_last() =~= names.take(n));
        lemma_gathered_stops(c, d, names, n + 1);
    }
}

proof fn lemma_polled_stops(cs: Seq<CursorView>, d: DbView, n: nat, m: nat)
    requires
        n <= m,
        polled_first(cs, d, n).1 is Err,
    ensures
        polled_first(cs, d, m) == polled_first(cs, d, n),
    decreases m - n,
{
    if n < m {
        lemma_polled_stops(cs, d, n, (m - 1) as nat);
    }
}

pub proof fn lemma_polled_rest(cs: Seq<CursorView>, d: DbView, n: nat)
    requires
        n <= cs.len(),
    ensures
        polled_first(cs, d, n).0.len() == cs.len(),
        forall|k: int| n <= k < cs.len() ==> #[trigger] polled_first(cs, d, n).0[k] == cs[k],
    decreases n,
{
    if n > 0 {
        lemma_polled_rest(cs, d, (n - 1) as nat);
    }
}

proof fn lemma_announced_keeps(c: CursorView, d: DbView, names: Seq<Seq<char>>, from: i64)
    ensures
        indexes_emitted(c, d, names, from).0.ordinal == c.ordinal,
        indexes_emitted(c, d, names, from).0.source_id == c.source_id,
        indexes_emitted(c, d, names, from).0.since == c.since,
        indexes_emitted(c, d, names, from).0.seq == c.seq,
        indexes_emitted(c, d, names, from).0.clock_after == c.clock_after,
    decreases names.len(),
{
    if names.len() > 0 {
        lemma_announced_keeps(c, d, names.drop_last(), from);
    }
}

impl SourceCursor {
    fn emit_offsets(&mut self, db: &Db, out: &mut Vec<Frame>)
        ensures
            ({
                let offsets = offsets_past(
                    db@.clock_of(old(self)@.source_id),
                    old(self)@.clock_after,
                    old(self)@.since,
                );
                &&& final(self)@ == CursorView {
                    clock_after: last_offset(offsets, old(self)@.clock_after),
                    ..old(self)@
                }
                &&& seqs::views(final(out)@) == seqs::views(old(out)@) + offset_frames(
                    old(self)@.ordinal,
                    offsets,
                )
            }),
    {
        let ghost c = self@;
        let ghost before = seqs::views(out@);
        let after: Option<i64> = self.clock_after;
        let since: i64 = self.since;
        let pairs = db.read_clock_offsets(self.source_id);
        let ghost keep = |p: (i64, i64)| model::past(after, p.0) && p.0 >= since;
        let mut i: usize = 0;
        proof {
            seqs::lemma_filter_full(pairs@, keep);
            assert(before + offset_frames(c.ordinal, Seq::empty()) =~= before);
        }
        while i < pairs.len()
            invariant
                i <= pairs@.len(),
                keep == |p: (i64, i64)| model::past(after, p.0) && p.0 >= since,
                after == c.clock_after,
                since == c.since,
                self@ == (CursorView {
                    clock_after: last_offset(pairs@.take(i as int).filter(keep), c.clock_after),
                    ..c
                }),
                seqs::views(out@) == before + offset_frames(
                    c.ordinal,
                    pairs@.take(i as int).filter(keep),
                ),
            decreases pairs@.len() - i,
        {
            let ghost was = seqs::views(out@);
            let ghost taken = pairs@.take(i as int).filter(keep);
            proof {
                seqs::lemma_filter_take(pairs@, i as int, keep);
            }
            let due: bool = match after {
                Some(a) => pairs[i].0 > a,
                None => true,
            };
            if due && pairs[i].0 >= since {
                let frame = Frame::ClockOffset {
                    source: self.ordinal,
                    ts: pairs[i].0,
                    offset_ns: pairs[i].1,
                };
                let ghost fv = frame@;
                out.push(frame);
                self.clock_after = Some(pairs[i].0);
                proof {
                    assert(offset_frames(c.ordinal, taken.push(pairs@[i as int]))
                        =~= offset_frames(c.ordinal, taken).push(fv));
                    assert(was.push(fv) =~= before + offset_frames(c.ordinal, taken).push(fv));
                }
            }
            i += 1;
        }
    }

    /// The rows of a stream that have not been shipped, or the hole in it.
    fn read_stream(&mut self, db: &Db, name: &str, rows: &mut Vec<WalRow>) -> (r: Result<(), Error>)
        ensures
            ({
                let c = old(self)@;
                let cursor = cursor_at(c.streams, name@);
                let fresh = fresh_rows(db@, c.source_id, name@, cursor.wal_after);
                match sealed_past(db@, c.source_id, name@, cursor.wal_after) {
                    Some(w) => {
                        &&& r matches Err(e) && e@ == ErrorView::Message(
                            hole_text(c.source_id, name@, w, cursor.wal_after),
                        )
                        &&& final(self)@ == c
                        &&& seqs::views(final(rows)@) == seqs::views(old(rows)@)
                    },
                    None => {
                        &&& r is Ok
                        &&& final(self)@ == CursorView {
                            streams: c.streams.insert(
                                name@,
                                StreamCursor {
                                    wal_after: model::latest(
                                        cursor.wal_after,
                                        model::newest_row(fresh),
                                    ),
                                    ..cursor
                                },
                            ),
                            ..c
                        }
                        &&& seqs::views(final(rows)@) == seqs::views(old(rows)@) + fresh
                    },
                }
            }),
    {
        let cursor = self.stream(name);
        let after: Option<i64> = cursor.wal_after;
        match db.sealed_watermark(self.source_id, name) {
            Some(w) => {
                let unread: bool = match after {
                    Some(a) => w > a,
                    None => true,
                };
                if unread {
                    return Err(hole(self.source_id, name, w, after));
                }
            },
            None => {},
        }
        let live = db.live_wal(self.source_id, name);
        let ghost all = seqs::views(live@);
        let ghost before = seqs::views(rows@);
        let ghost keep = |r: WalView| model::past(after, r.ts);
        let mut newest: Option<i64> = None;
        let mut i: usize = 0;
        proof {
            seqs::lemma_filter_full(all, keep);
            assert(before + Seq::<WalView>::empty() =~= before);
        }
        while i < live.len()
            invariant
                i <= live@.len(),
                all == seqs::views(live@),
                keep == |r: WalView| model::past(after, r.ts),
                seqs::views(rows@) == before + all.take(i as int).filter(keep),
                newest == model::newest_row(all.take(i as int).filter(keep)),
            decreases live@.len() - i,
        {
            let ghost was = seqs::views(rows@);
            let ghost taken = all.take(i as int).filter(keep);
            proof {
                seqs::lemma_filter_take(all, i as int, keep);
                assert(all[i as int] == live@[i as int]@);
            }
            let shipped: bool = match after {
                Some(a) => live[i].ts <= a,
                None => false,
            };
            if !shipped {
                let ts: i64 = live[i].ts;
                newest =
                match newest {
                    Some(n) if n >= ts => Some(n),
                    _ => Some(ts),
                };
                rows.push(live[i].clone());
                proof {
                    assert(taken.push(all[i as int]).drop_last() =~= taken);
                    assert(was.push(all[i as int]) =~= before + taken.push(all[i as int]));
                }
            }
            i += 1;
        }
        let reached: Option<i64> = match (after, newest) {
            (a, None) => a,
            (Some(a), Some(n)) => if a >= n {
                Some(a)
            } else {
                Some(n)
            },
            (None, n) => n,
        };
        self.streams.set(name.to_string(), StreamCursor { wal_after: reached, ..cursor });
        Ok(())
    }

    /// The rows of every stream that have not been shipped, until a stream has
    /// a hole.
    fn gather(&mut self, db: &Db, rows: &mut Vec<WalRow>) -> (r: Result<(), Error>)
        requires
            seqs::views(old(rows)@) == Seq::<WalView>::empty(),
        ensures
            ({
                let c = old(self)@;
                let g = gathered(c, db@, db@.streams_of(c.source_id));
                &&& final(self)@ == CursorView { streams: g.streams, ..c }
                &&& match g.refusal {
                    Some(e) => r matches Err(x) && x@ == e,
                    None => r is Ok && seqs::views(final(rows)@) == g.rows,
                }
            }),
    {
        let ghost c = self@;
        let names = db.all_streams(self.source_id);
        let ghost all = seqs::views(names@);
        let mut i: usize = 0;
        while i < names.len()
            invariant
                i <= names@.len(),
                all == seqs::views(names@),
                all == db@.streams_of(c.source_id),
                c == old(self)@,
                self@ == (CursorView {
                    streams: gathered(c, db@, all.take(i as int)).streams,
                    ..c
                }),
                seqs::views(rows@) == gathered(c, db@, all.take(i as int)).rows,
                gathered(c, db@, all.take(i as int)).refusal is None,
            decreases names@.len() - i,
        {
            proof {
                assert(all.take(i + 1).drop_last() =~= all.take(i as int));
                assert(all.take(i + 1).last() == names@[i as int]@);
            }
            match self.read_stream(db, names[i].as_str(), rows) {
                Ok(_) => {},
                Err(e) => {
                    proof {
                        lemma_gathered_stops(c, db@, all, i + 1);
                    }
                    return Err(e);
                },
            }
            i += 1;
        }
        proof {
            assert(all.take(i as int) =~= all);
        }
        Ok(())
    }

    /// One poll of one source: index entries, then clock observations, then
    /// exactly one frame of rows.
    fn poll(&mut self, db: &Db, out: &mut Vec<Frame>) -> (r: Result<(), Error>)
        requires
            old(self)@.seq < u64::MAX,
        ensures
            final(self)@ == polled(old(self)@, db@).0,
            match polled(old(self)@, db@).1 {
                Ok(f) => r is Ok && seqs::views(final(out)@) == seqs::views(old(out)@) + f,
                Err(e) => r matches Err(x) && x@ == e,
            },
    {
        let ghost c = self@;
        let ghost before = seqs::views(out@);
        self.emit_indexes(db, self.since, out);
        proof {
            lemma_announced_keeps(c, db@, db@.caller_streams(c.source_id), c.since);
        }
        let ghost indexed = seqs::views(out@);
        self.emit_offsets(db, out);
        let ghost ready = self@;
        let ghost head = announced(c, db@).1;
        proof {
            assert(seqs::views(out@) =~= before + head);
            assert(ready == announced(c, db@).0);
        }
        let mut rows: Vec<WalRow> = Vec::new();
        proof {
            seqs::lemma_views_empty::<WalRow>();
        }
        match self.gather(db, &mut rows) {
            Ok(_) => {},
            Err(e) => {
                return Err(e);
            },
        }
        let rows = sort_rows(rows);
        let frame = Frame::Rows {
            source: self.ordinal,
            seq: self.seq,
            index_state: self.index_state,
            rows,
        };
        let ghost fv = frame@;
        out.push(frame);
        self.seq = self.seq + 1;
        proof {
            assert((before + head).push(fv) =~= before + head.push(fv));
        }
        Ok(())
    }
}

// ------------------------------------------------------------ opening

/// A source's identity as a frame.
pub open spec fn handshake(ordinal: u32, s: SourceView) -> FrameView {
    FrameView::Handshake {
        source: ordinal,
        uuid: s.uuid,
        labels: s.meta.labels,
        metadata: s.meta.metadata,
        clock_anchor_wall_ns: s.meta.clock_anchor_wall_ns,
        complete: s.complete,
    }
}

/// Segments as frames.
pub open spec fn segment_frames(ordinal: u32, stream: Seq<char>, s: Seq<SegmentView>) -> Seq<
    FrameView,
> {
    s.map_values(
        |v: SegmentView|
            FrameView::Segment {
                source: ordinal,
                stream,
                meta: v.meta,
                bytes: v.bytes,
                caller_index: v.caller_index,
            },
    )
}

/// The segment frames that opening ships of a stream: every segment that
/// overlaps the window, whole, where it catches up from a timestamp.
pub open spec fn stream_frames(
    ordinal: u32,
    d: DbView,
    source: i64,
    stream: Seq<char>,
    since: Option<i64>,
) -> Seq<FrameView> {
    match since {
        Some(t) => segment_frames(
            ordinal,
            stream,
            store::overlapping(d.segments_of(source, stream), t, i64::MAX),
        ),
        None => Seq::empty(),
    }
}

/// How far opening leaves a stream published: to its watermark where it catches
/// up, and to its newest row where it starts at the present.
pub open spec fn opened_after(
    d: DbView,
    source: i64,
    stream: Seq<char>,
    since: Option<i64>,
) -> Option<i64> {
    let live = d.live_of(source, stream);
    if since is None && live.len() > 0 {
        Some(live.last().ts)
    } else {
        d.watermark(source, stream)
    }
}

/// Opening the streams of a source.
pub open spec fn streams_opened(
    c: CursorView,
    d: DbView,
    names: Seq<Seq<char>>,
    since: Option<i64>,
) -> (CursorView, Seq<FrameView>)
    decreases names.len(),
{
    if names.len() == 0 {
        (c, Seq::empty())
    } else {
        let (was, head) = streams_opened(c, d, names.drop_last(), since);
        let name = names.last();
        (
            CursorView {
                streams: was.streams.insert(
                    name,
                    StreamCursor {
                        wal_after: opened_after(d, c.source_id, name, since),
                        ..cursor_at(was.streams, name)
                    },
                ),
                ..was
            },
            head + stream_frames(c.ordinal, d, c.source_id, name, since),
        )
    }
}

/// The clock observations that opening ships: those from the timestamp it
/// catches up from.
pub open spec fn offsets_opened(pairs: Seq<(i64, i64)>, since: Option<i64>) -> Seq<(i64, i64)> {
    match since {
        Some(t) => pairs.filter(|p: (i64, i64)| p.0 >= t),
        None => Seq::empty(),
    }
}

/// The observations that opening counts as shipped: those it ships, or all
/// there are where it starts at the present.
pub open spec fn offsets_counted(pairs: Seq<(i64, i64)>, since: Option<i64>) -> Seq<(i64, i64)> {
    match since {
        Some(_) => offsets_opened(pairs, since),
        None => pairs,
    }
}

/// The timestamp that publishing begins from: the one it catches up from, or the
/// least there is.
pub open spec fn begins_at(since: Option<i64>) -> i64 {
    match since {
        Some(t) => t,
        None => i64::MIN,
    }
}

/// A source of which nothing has been published.
pub open spec fn unopened(ordinal: u32, source_id: i64, since: i64) -> CursorView {
    CursorView {
        ordinal,
        source_id,
        since,
        streams: Map::empty(),
        clock_after: None,
        seq: 0,
        index_state: NO_INDEX_STATE,
        sent_full: false,
    }
}

/// Opening a source: its handshake, its index entries, its segments, its clock
/// observations.
pub open spec fn source_opened(d: DbView, s: SourceView, ordinal: u32, since: Option<i64>) -> (
    CursorView,
    Seq<FrameView>,
) {
    let from = begins_at(since);
    let (indexed, index_frames) = indexes_emitted(
        unopened(ordinal, s.id, from),
        d,
        d.caller_streams(s.id),
        from,
    );
    let (streamed, segments) = streams_opened(indexed, d, d.streams_of(s.id), since);
    let pairs = d.clock_of(s.id);
    (
        CursorView { clock_after: last_offset(offsets_counted(pairs, since), None), ..streamed },
        seq![handshake(ordinal, s)] + index_frames + segments + offset_frames(
            ordinal,
            offsets_opened(pairs, since),
        ),
    )
}

/// Opening sources, each under its place as its ordinal.
pub open spec fn sources_opened(d: DbView, sources: Seq<SourceView>, since: Option<i64>) -> (
    Seq<CursorView>,
    Seq<FrameView>,
)
    decreases sources.len(),
{
    if sources.len() == 0 {
        (Seq::empty(), Seq::empty())
    } else {
        let (cursors, head) = sources_opened(d, sources.drop_last(), since);
        let (c, more) = source_opened(d, sources.last(), (sources.len() - 1) as u32, since);
        (cursors.push(c), head + more)
    }
}

/// How many sources the ordinals reach.
pub open spec fn most_sources() -> nat {
    u32::MAX as nat + 1
}

/// Publishes an archive's contents as frames.
///
/// [`catching_up`](Self::catching_up) ships sealed segments for everything from
/// a timestamp onward, then tails. [`tailing`](Self::tailing) starts from the
/// archive's present. Only the opening catch-up batch emits segments: once
/// tailing, rows are shipped and the subscriber seals its own.
///
/// The first index entry a source ever sends is the whole set, and every one
/// after it is a change to it.
///
/// A tailing publisher reads the live tail, so a seal carries rows out of its
/// view. [`next`](Self::next) refuses a stream that was sealed past what has
/// been shipped of it, or before any of it was, rather than ship it with a hole.
pub struct ArchivePublisher {
    sources: Vec<SourceCursor>,
}

impl View for ArchivePublisher {
    type V = Seq<CursorView>;

    closed spec fn view(&self) -> Seq<CursorView> {
        seqs::views(self.sources@)
    }
}

/// The sources' ordinals and ids.
pub open spec fn ordinals_of(cs: Seq<CursorView>) -> Seq<(u32, i64)> {
    cs.map_values(|c: CursorView| (c.ordinal, c.source_id))
}

/// Whether an outcome of opening is this publisher and these frames.
pub open spec fn opens(
    r: Result<(ArchivePublisher, Vec<Frame>), Error>,
    d: DbView,
    since: Option<i64>,
) -> bool {
    if d.sources.len() > most_sources() {
        r matches Err(e) && e@ == ErrorView::Message(
            "an archive with more than u32::MAX sources"@,
        )
    } else {
        r matches Ok(p) && p.0@ == sources_opened(d, d.sources, since).0 && seqs::views(p.1@)
            == sources_opened(d, d.sources, since).1
    }
}

impl SourceCursor {
    fn open_streams(&mut self, db: &Db, since: Option<i64>, out: &mut Vec<Frame>)
        ensures
            ({
                let (c, f) = streams_opened(
                    old(self)@,
                    db@,
                    db@.streams_of(old(self)@.source_id),
                    since,
                );
                final(self)@ == c && seqs::views(final(out)@) == seqs::views(old(out)@) + f
            }),
    {
        let ghost c = self@;
        let ghost before = seqs::views(out@);
        let names = db.all_streams(self.source_id);
        let ghost all = seqs::views(names@);
        let mut i: usize = 0;
        proof {
            assert(before + Seq::<FrameView>::empty() =~= before);
        }
        while i < names.len()
            invariant
                i <= names@.len(),
                all == seqs::views(names@),
                self@ == streams_opened(c, db@, all.take(i as int), since).0,
                self@.ordinal == c.ordinal,
                self@.source_id == c.source_id,
                seqs::views(out@) == before + streams_opened(c, db@, all.take(i as int), since).1,
            decreases names@.len() - i,
        {
            let ghost head = streams_opened(c, db@, all.take(i as int), since).1;
            let ghost more = stream_frames(c.ordinal, db@, c.source_id, names@[i as int]@, since);
            proof {
                assert(all.take(i + 1).drop_last() =~= all.take(i as int));
                assert(all.take(i + 1).last() == names@[i as int]@);
            }
            self.open_stream(db, names[i].as_str(), since, out);
            proof {
                assert((before + head) + more =~= before + (head + more));
            }
            i += 1;
        }
        proof {
            assert(all.take(i as int) =~= all);
        }
    }

    fn open_stream(&mut self, db: &Db, name: &str, since: Option<i64>, out: &mut Vec<Frame>)
        ensures
            final(self)@ == (CursorView {
                streams: old(self)@.streams.insert(
                    name@,
                    StreamCursor {
                        wal_after: opened_after(db@, old(self)@.source_id, name@, since),
                        ..cursor_at(old(self)@.streams, name@)
                    },
                ),
                ..old(self)@
            }),
            seqs::views(final(out)@) == seqs::views(old(out)@) + stream_frames(
                old(self)@.ordinal,
                db@,
                old(self)@.source_id,
                name@,
                since,
            ),
    {
        let cursor = self.stream(name);
        let watermark: Option<i64> = db.sealed_watermark(self.source_id, name);
        let ghost before = seqs::views(out@);
        let reached: Option<i64> = match since {
            Some(t) => {
                let segments = db.segments_overlapping(self.source_id, name, t, i64::MAX);
                let ghost all = seqs::views(segments@);
                let ghost ordinal = self.ordinal;
                let mut i: usize = 0;
                proof {
                    assert(before + segment_frames(ordinal, name@, all.take(0)) =~= before);
                }
                while i < segments.len()
                    invariant
                        i <= segments@.len(),
                        all == seqs::views(segments@),
                        ordinal == self.ordinal,
                        self@ == old(self)@,
                        seqs::views(out@) == before + segment_frames(
                            ordinal,
                            name@,
                            all.take(i as int),
                        ),
                    decreases segments@.len() - i,
                {
                    let ghost was = segment_frames(ordinal, name@, all.take(i as int));
                    let segment = segments[i].clone();
                    let frame = Frame::Segment {
                        source: self.ordinal,
                        stream: name.to_string(),
                        meta: segment.meta,
                        bytes: segment.bytes,
                        caller_index: segment.caller_index,
                    };
                    let ghost fv = frame@;
                    out.push(frame);
                    proof {
                        assert(segment_frames(ordinal, name@, all.take(i + 1)) =~= was.push(fv));
                        assert((before + was).push(fv) =~= before + was.push(fv));
                    }
                    i += 1;
                }
                proof {
                    assert(all.take(i as int) =~= all);
                }
                watermark
            },
            None => {
                proof {
                    assert(before + Seq::<FrameView>::empty() =~= before);
                }
                match db.live_wal_span(self.source_id, name).last_ts {
                    Some(ts) => Some(ts),
                    None => watermark,
                }
            },
        };
        self.streams.set(name.to_string(), StreamCursor { wal_after: reached, ..cursor });
    }

    fn open_offsets(&mut self, db: &Db, since: Option<i64>, out: &mut Vec<Frame>)
        requires
            old(self)@.clock_after is None,
        ensures
            ({
                let pairs = db@.clock_of(old(self)@.source_id);
                &&& final(self)@ == CursorView {
                    clock_after: last_offset(offsets_counted(pairs, since), None),
                    ..old(self)@
                }
                &&& seqs::views(final(out)@) == seqs::views(old(out)@) + offset_frames(
                    old(self)@.ordinal,
                    offsets_opened(pairs, since),
                )
            }),
    {
        let ghost c = self@;
        let ghost before = seqs::views(out@);
        let pairs = db.read_clock_offsets(self.source_id);
        match since {
            None => {
                if pairs.len() > 0 {
                    self.clock_after = Some(pairs[pairs.len() - 1].0);
                }
                proof {
                    assert(before + offset_frames(c.ordinal, Seq::empty()) =~= before);
                }
            },
            Some(t) => {
                let ghost keep = |p: (i64, i64)| p.0 >= t;
                let mut i: usize = 0;
                proof {
                    seqs::lemma_filter_full(pairs@, keep);
                    assert(before + offset_frames(c.ordinal, Seq::empty()) =~= before);
                }
                while i < pairs.len()
                    invariant
                        i <= pairs@.len(),
                        keep == |p: (i64, i64)| p.0 >= t,
                        self@ == (CursorView {
                            clock_after: last_offset(pairs@.take(i as int).filter(keep), None),
                            ..c
                        }),
                        seqs::views(out@) == before + offset_frames(
                            c.ordinal,
                            pairs@.take(i as int).filter(keep),
                        ),
                    decreases pairs@.len() - i,
                {
                    let ghost was = seqs::views(out@);
                    let ghost taken = pairs@.take(i as int).filter(keep);
                    proof {
                        seqs::lemma_filter_take(pairs@, i as int, keep);
                    }
                    if pairs[i].0 >= t {
                        let frame = Frame::ClockOffset {
                            source: self.ordinal,
                            ts: pairs[i].0,
                            offset_ns: pairs[i].1,
                        };
                        let ghost fv = frame@;
                        out.push(frame);
                        self.clock_after = Some(pairs[i].0);
                        proof {
                            assert(offset_frames(c.ordinal, taken.push(pairs@[i as int]))
                                =~= offset_frames(c.ordinal, taken).push(fv));
                            assert(was.push(fv) =~= before + offset_frames(c.ordinal, taken).push(
                                fv,
                            ));
                        }
                    }
                    i += 1;
                }
            },
        }
    }

    fn open_source(
        db: &Db,
        rec: &crate::db::SourceRow,
        ordinal: u32,
        since: Option<i64>,
        out: &mut Vec<Frame>,
    ) -> (r: SourceCursor)
        ensures
            r@ == source_opened(db@, rec@, ordinal, since).0,
            seqs::views(final(out)@) == seqs::views(old(out)@) + source_opened(
                db@,
                rec@,
                ordinal,
                since,
            ).1,
    {
        let ghost before = seqs::views(out@);
        let src = rec.clone();
        let frame = Frame::Handshake {
            source: ordinal,
            uuid: src.uuid,
            labels: src.meta.labels,
            metadata: src.meta.metadata,
            clock_anchor_wall_ns: src.meta.clock_anchor_wall_ns,
            complete: src.complete,
        };
        let ghost fv = frame@;
        out.push(frame);
        let from: i64 = match since {
            Some(t) => t,
            None => i64::MIN,
        };
        let mut cursor = SourceCursor {
            ordinal,
            source_id: rec.id,
            since: from,
            streams: Slots::new(),
            clock_after: None,
            seq: 0,
            index_state: NO_INDEX_STATE,
            sent_full: false,
        };
        proof {
            assert(cursor@ == unopened(ordinal, rec.id, from));
            lemma_announced_keeps(cursor@, db@, db@.caller_streams(rec.id), from);
        }
        cursor.emit_indexes(db, from, out);
        proof {
            lemma_opened_keeps(cursor@, db@, db@.streams_of(rec.id), since);
        }
        cursor.open_streams(db, since, out);
        cursor.open_offsets(db, since, out);
        proof {
            assert(seqs::views(out@) =~= before + source_opened(db@, rec@, ordinal, since).1);
        }
        cursor
    }
}

proof fn lemma_opened_keeps(c: CursorView, d: DbView, names: Seq<Seq<char>>, since: Option<i64>)
    ensures
        streams_opened(c, d, names, since).0.ordinal == c.ordinal,
        streams_opened(c, d, names, since).0.source_id == c.source_id,
        streams_opened(c, d, names, since).0.since == c.since,
        streams_opened(c, d, names, since).0.seq == c.seq,
        streams_opened(c, d, names, since).0.clock_after == c.clock_after,
    decreases names.len(),
{
    if names.len() > 0 {
        lemma_opened_keeps(c, d, names.drop_last(), since);
    }
}

impl ArchivePublisher {
    /// Handshake every source, then ship only what arrives after now.
    pub fn tailing(db: &Db) -> (r: Result<(ArchivePublisher, Vec<Frame>), Error>)
        ensures
            opens(r, db@, None),
    {
        Self::open(db, None)
    }

    /// Handshake every source, ship everything from `since` onward as sealed
    /// segments and index entries, then tail. A later poll looks no further back.
    ///
    /// A segment that overlaps `since` is shipped whole: the publisher does not
    /// open a segment, so it cannot trim one.
    pub fn catching_up(db: &Db, since: i64) -> (r: Result<(ArchivePublisher, Vec<Frame>), Error>)
        ensures
            opens(r, db@, Some(since)),
    {
        Self::open(db, Some(since))
    }

    /// Both constructors. `since` present means catch up from there; absent
    /// means start at the present.
    fn open(db: &Db, since: Option<i64>) -> (r: Result<(ArchivePublisher, Vec<Frame>), Error>)
        ensures
            opens(r, db@, since),
    {
        let records = db.read_sources();
        let ghost all = seqs::views(records@);
        let mut sources: Vec<SourceCursor> = Vec::new();
        let mut frames: Vec<Frame> = Vec::new();
        let mut i: usize = 0;
        proof {
            seqs::lemma_views_empty::<SourceCursor>();
            seqs::lemma_views_empty::<Frame>();
        }
        while i < records.len()
            invariant
                i <= records@.len(),
                i <= most_sources(),
                all == seqs::views(records@),
                all == db@.sources,
                seqs::views(sources@) == sources_opened(db@, all.take(i as int), since).0,
                seqs::views(frames@) == sources_opened(db@, all.take(i as int), since).1,
            decreases records@.len() - i,
        {
            if i > u32::MAX as usize {
                return Err(
                    Error::Message(String::from_str("an archive with more than u32::MAX sources")),
                );
            }
            proof {
                assert(all.take(i + 1).drop_last() =~= all.take(i as int));
                assert(all.take(i + 1).last() == records@[i as int]@);
            }
            let cursor = SourceCursor::open_source(db, &records[i], i as u32, since, &mut frames);
            sources.push(cursor);
            i += 1;
        }
        proof {
            assert(all.take(i as int) =~= all);
        }
        Ok((ArchivePublisher { sources }, frames))
    }

    /// Whether every source has a number left for its next frame of rows.
    pub fn has_numbers(&self) -> (r: bool)
        ensures
            r == forall|i: int| 0 <= i < self@.len() ==> (#[trigger] self@[i]).seq < u64::MAX,
    {
        let mut i: usize = 0;
        while i < self.sources.len()
            invariant
                i <= self.sources@.len(),
                self.sources@.len() == self@.len(),
                forall|k: int| 0 <= k < i ==> (#[trigger] self@[k]).seq < u64::MAX,
            decreases self.sources@.len() - i,
        {
            assert(self@[i as int] == self.sources@[i as int]@);
            if self.sources[i].seq == u64::MAX {
                return false;
            }
            i += 1;
        }
        true
    }

    /// Everything new since the last call, as frames.
    ///
    /// Always emits one frame of rows per source, empty when nothing was
    /// observed, so a gap in the sequence means a lost reading and nothing else.
    /// A source's index frames precede its rows.
    pub fn next(&mut self, db: &Db) -> (r: Result<Vec<Frame>, Error>)
        requires
            forall|i: int| 0 <= i < old(self)@.len() ==> (#[trigger] old(self)@[i]).seq < u64::MAX,
        ensures
            final(self)@ == polled_first(old(self)@, db@, old(self)@.len()).0,
            match polled_first(old(self)@, db@, old(self)@.len()).1 {
                Ok(f) => r matches Ok(v) && seqs::views(v@) == f,
                Err(e) => r matches Err(x) && x@ == e,
            },
    {
        let ghost cs = self@;
        let mut out: Vec<Frame> = Vec::new();
        let mut i: usize = 0;
        proof {
            seqs::lemma_views_empty::<Frame>();
            assert(self.sources@.len() == cs.len());
        }
        while i < self.sources.len()
            invariant
                i <= self.sources@.len(),
                self.sources@.len() == cs.len(),
                cs == old(self)@,
                forall|k: int| 0 <= k < cs.len() ==> (#[trigger] cs[k]).seq < u64::MAX,
                self@ == polled_first(cs, db@, i as nat).0,
                polled_first(cs, db@, i as nat).1 == Ok::<Seq<FrameView>, ErrorView>(
                    seqs::views(out@),
                ),
            decreases self.sources@.len() - i,
        {
            let ghost was = self@;
            proof {
                lemma_polled_rest(cs, db@, i as nat);
                assert(self@[i as int] == self.sources@[i as int]@);
                assert(was[i as int] == cs[i as int]);
            }
            let polled = self.sources[i].poll(db, &mut out);
            proof {
                assert(self@ =~= was.update(i as int, self.sources@[i as int]@));
            }
            match polled {
                Ok(_) => {},
                Err(e) => {
                    proof {
                        lemma_polled_stops(cs, db@, (i + 1) as nat, cs.len());
                    }
                    return Err(e);
                },
            }
            i += 1;
        }
        Ok(out)
    }

    /// The handshake ordinal assigned to each of the archive's sources, in the
    /// order they were read.
    pub fn ordinals(&self) -> (r: Vec<(u32, i64)>)
        ensures
            r@ == ordinals_of(self@),
    {
        let mut out: Vec<(u32, i64)> = Vec::new();
        let mut i: usize = 0;
        while i < self.sources.len()
            invariant
                i <= self.sources@.len(),
                out@ == ordinals_of(self@.take(i as int)),
            decreases self.sources@.len() - i,
        {
            let ghost was = out@;
            out.push((self.sources[i].ordinal, self.sources[i].source_id));
            proof {
                let c = self@[i as int];
                assert(c == self.sources@[i as int]@);
                assert(ordinals_of(self@.take(i + 1)) =~= was.push((c.ordinal, c.source_id)));
            }
            i += 1;
        }
        proof {
            assert(self@.take(i as int) =~= self@);
        }
        out
    }
}

} // verus!
