//! What holds of the codec for every frame: what was encoded decodes as
//! itself, and nothing shorter or longer does.

use vstd::prelude::*;
use vstd::utf8::*;

use crate::db::WalView;
use crate::replicate::frame::FrameView;
use crate::replicate::layout;
use crate::replicate::layout::Reading;
use crate::replicate::little_endian;
use crate::replicate::wire;
use crate::text_map;
use crate::text_map::Entry;

verus! {

proof fn lemma_assoc(a: Seq<u8>, b: Seq<u8>, c: Seq<u8>)
    ensures
        (a + b) + c == a + (b + c),
{
    assert((a + b) + c =~= a + (b + c));
}

// ------------------------------------------------------------ what is put is got

proof fn lemma_raw(a: Seq<u8>, t: Seq<u8>)
    ensures
        layout::get_raw(a + t, a.len()) == Ok::<(Seq<u8>, Seq<u8>), Seq<char>>((a, t)),
{
    assert((a + t).take(a.len() as int) =~= a);
    assert((a + t).skip(a.len() as int) =~= t);
}

proof fn lemma_get8(b: u8, t: Seq<u8>)
    ensures
        layout::get8(seq![b] + t) == Ok::<(u8, Seq<u8>), Seq<char>>((b, t)),
{
    lemma_raw(seq![b], t);
}

proof fn lemma_get32(v: u32, t: Seq<u8>)
    ensures
        layout::get32(layout::put32(v) + t) == Ok::<(u32, Seq<u8>), Seq<char>>((v, t)),
        layout::put32(v).len() == 4,
{
    little_endian::lemma_of32(v);
    lemma_raw(layout::put32(v), t);
}

proof fn lemma_get64(v: u64, t: Seq<u8>)
    ensures
        layout::get64(layout::put64(v) + t) == Ok::<(u64, Seq<u8>), Seq<char>>((v, t)),
{
    little_endian::lemma_of64(v);
    lemma_raw(layout::put64(v), t);
}

proof fn lemma_signed(v: i64, t: Seq<u8>)
    ensures
        layout::get_signed(layout::put_signed(v) + t) == Ok::<(i64, Seq<u8>), Seq<char>>((v, t)),
{
    lemma_get64(little_endian::complement(v), t);
    little_endian::lemma_signed(v);
}

proof fn lemma_state(v: (u64, u64), t: Seq<u8>)
    ensures
        layout::get_state(layout::put64(v.0) + (layout::put64(v.1) + t)) == Ok::<((u64, u64), Seq<u8>), Seq<char>>((v, t)),
{
    lemma_get64(v.0, layout::put64(v.1) + t);
    lemma_get64(v.1, t);
}

proof fn lemma_blob(v: Seq<u8>, t: Seq<u8>)
    requires
        layout::blob_too_long(v.len()) is None,
    ensures
        layout::get_blob(layout::put_blob(v) + t) == Ok::<(Seq<u8>, Seq<u8>), Seq<char>>((v, t)),
{
    lemma_assoc(layout::put32(v.len() as u32), v, t);
    lemma_get32(v.len() as u32, v + t);
    lemma_raw(v, t);
}

proof fn lemma_text(v: Seq<char>, t: Seq<u8>)
    requires
        layout::blob_too_long(encode_utf8(v).len()) is None,
    ensures
        layout::get_text(layout::put_text(v) + t) == Ok::<(Seq<char>, Seq<u8>), Seq<char>>((v, t)),
{
    lemma_blob(encode_utf8(v), t);
    encode_utf8_valid_utf8(v);
    encode_utf8_decode_utf8(v);
}

proof fn lemma_maybe(v: Option<Seq<u8>>, t: Seq<u8>)
    requires
        layout::maybe_too_long(v) is None,
    ensures
        layout::get_maybe(layout::put_maybe(v) + t) == Ok::<(Option<Seq<u8>>, Seq<u8>), Seq<char>>((v, t)),
{
    match v {
        None => {
            lemma_get8(0, t);
        },
        Some(b) => {
            lemma_assoc(seq![1u8], layout::put_blob(b), t);
            lemma_get8(1, layout::put_blob(b) + t);
            lemma_blob(b, t);
        },
    }
}

proof fn lemma_uuid(v: Option<Seq<char>>, t: Seq<u8>)
    requires
        v matches Some(u) ==> layout::blob_too_long(encode_utf8(u).len()) is None,
    ensures
        layout::get_uuid(layout::put_maybe_text(v) + t) == Ok::<(Option<Seq<char>>, Seq<u8>), Seq<char>>((v, t)),
{
    match v {
        None => {
            lemma_maybe(None, t);
        },
        Some(u) => {
            lemma_maybe(Some(encode_utf8(u)), t);
            encode_utf8_valid_utf8(u);
            encode_utf8_decode_utf8(u);
        },
    }
}

proof fn lemma_pairs(e: Seq<Entry>, t: Seq<u8>)
    requires
        text_map::ascending(e),
        layout::pairs_too_long(e) is None,
    ensures
        layout::get_pairs(layout::put_pairs(e) + t, e.len()) == Ok::<(Seq<Entry>, Seq<u8>), Seq<char>>((e, t)),
    decreases e.len(),
{
    if e.len() == 0 {
        assert(layout::put_pairs(e) + t =~= t);
        assert(e =~= Seq::<Entry>::empty());
    } else {
        let d = e.drop_last();
        let k = layout::put_text(e.last().0);
        let v = layout::put_text(e.last().1);
        assert((layout::put_pairs(d) + k + v) + t =~= layout::put_pairs(d) + (k + (v + t)));
        lemma_pairs(d, k + (v + t));
        lemma_text(e.last().0, v + t);
        lemma_text(e.last().1, t);
        text_map::lemma_put_last(e);
    }
}

proof fn lemma_entries(e: Seq<Entry>, t: Seq<u8>)
    requires
        text_map::ascending(e),
        layout::entries_too_long(e) is None,
    ensures
        layout::get_entries(layout::put_entries(e) + t) == Ok::<(Seq<Entry>, Seq<u8>), Seq<char>>((e, t)),
{
    lemma_assoc(layout::put32(e.len() as u32), layout::put_pairs(e), t);
    lemma_get32(e.len() as u32, layout::put_pairs(e) + t);
    lemma_pairs(e, t);
}

proof fn lemma_row(r: WalView, t: Seq<u8>)
    requires
        layout::blob_too_long(encode_utf8(r.stream).len()) is None,
        layout::blob_too_long(r.row.len()) is None,
    ensures
        layout::get_row(layout::put_row(r) + t) == Ok::<(WalView, Seq<u8>), Seq<char>>((r, t)),
{
    let a = layout::put_text(r.stream);
    let b = layout::put_signed(r.ts);
    let c = layout::put_signed(r.wall_offset);
    let d = layout::put_blob(r.row);
    assert((a + b + c + d) + t =~= a + (b + (c + (d + t))));
    lemma_text(r.stream, b + (c + (d + t)));
    lemma_signed(r.ts, c + (d + t));
    lemma_signed(r.wall_offset, d + t);
    lemma_blob(r.row, t);
}

#[verifier::spinoff_prover]
#[verifier::rlimit(40)]
proof fn lemma_rows(rows: Seq<WalView>, t: Seq<u8>)
    requires
        layout::rows_too_long(rows) is None,
    ensures
        layout::get_rows(layout::put_rows(rows) + t, rows.len()) == Ok::<(Seq<WalView>, Seq<u8>), Seq<char>>(
            (rows, t),
        ),
    decreases rows.len(),
{
    if rows.len() == 0 {
        assert(layout::put_rows(rows) + t =~= t);
        assert(rows =~= Seq::<WalView>::empty());
    } else {
        let d = rows.drop_last();
        let rest = layout::put_row(rows.last()) + t;
        lemma_assoc(layout::put_rows(d), layout::put_row(rows.last()), t);
        lemma_rows(d, rest);
        assert(layout::put_rows(rows) + t == layout::put_rows(d) + rest);
        assert(d.len() == (rows.len() - 1) as nat);
        lemma_row(rows.last(), t);
        assert(d.push(rows.last()) =~= rows);
    }
}

/// The fields after the kind byte.
spec fn fields(f: FrameView) -> Seq<u8> {
    layout::payload(f).skip(1)
}

/// The kind byte of a frame.
pub open spec fn kind_of(f: FrameView) -> u8 {
    match f {
        FrameView::Handshake { .. } => 1,
        FrameView::Index { .. } => 2,
        FrameView::Rows { .. } => 3,
        FrameView::Segment { .. } => 4,
        FrameView::ClockOffset { .. } => 5,
        FrameView::StreamSummary { .. } => 6,
    }
}

proof fn lemma_kind_first(f: FrameView)
    ensures
        layout::payload(f).len() > 0,
        layout::payload(f)[0] == kind_of(f),
        layout::payload(f) == seq![kind_of(f)] + fields(f),
{
    assert(layout::payload(f) =~= seq![kind_of(f)] + fields(f));
}

proof fn lemma_six(k: u8, a: Seq<u8>, b: Seq<u8>, c: Seq<u8>, d: Seq<u8>, e: Seq<u8>, g: Seq<u8>)
    ensures
        (seq![k] + a + b + c + d + e + g).skip(1) == a + (b + (c + (d + (e + (g + Seq::<
            u8,
        >::empty()))))),
{
    assert((seq![k] + a + b + c + d + e + g).skip(1) =~= a + (b + (c + (d + (e + (g + Seq::<
        u8,
    >::empty()))))));
}

proof fn lemma_handshake(f: FrameView)
    requires
        f is Handshake,
        layout::well_keyed(f),
        layout::too_long(f) is None,
    ensures
        layout::get_handshake(fields(f)) == Ok::<(FrameView, Seq<u8>), Seq<char>>((f, Seq::empty())),
{
    if let FrameView::Handshake { source, uuid, labels, metadata, clock_anchor_wall_ns, complete } =
        f {
        let e = Seq::<u8>::empty();
        let s6 = seq![layout::flag(complete)] + e;
        let s5 = layout::put_signed(clock_anchor_wall_ns) + s6;
        let s4 = layout::put_entries(metadata) + s5;
        let s3 = layout::put_entries(labels) + s4;
        let s2 = layout::put_maybe_text(uuid) + s3;
        lemma_six(
            1,
            layout::put32(source),
            layout::put_maybe_text(uuid),
            layout::put_entries(labels),
            layout::put_entries(metadata),
            layout::put_signed(clock_anchor_wall_ns),
            seq![layout::flag(complete)],
        );
        lemma_get32(source, s2);
        lemma_uuid(uuid, s3);
        lemma_entries(labels, s4);
        lemma_entries(metadata, s5);
        lemma_signed(clock_anchor_wall_ns, s6);
        lemma_get8(layout::flag(complete), e);
    }
}

proof fn lemma_index(f: FrameView)
    requires
        f is Index,
        layout::too_long(f) is None,
    ensures
        layout::get_index(fields(f)) == Ok::<(FrameView, Seq<u8>), Seq<char>>((f, Seq::empty())),
{
    if let FrameView::Index { source, stream, ts, kind, state, blob } = f {
        let e = Seq::<u8>::empty();
        let s6 = layout::put_blob(blob) + e;
        let s5 = layout::put64(state.0) + (layout::put64(state.1) + s6);
        let s4 = seq![layout::kind_byte(kind)] + s5;
        let s3 = layout::put_signed(ts) + s4;
        let s2 = layout::put_text(stream) + s3;
        assert(fields(f) =~= layout::put32(source) + s2);
        lemma_get32(source, s2);
        lemma_text(stream, s3);
        lemma_signed(ts, s4);
        lemma_get8(layout::kind_byte(kind), s5);
        lemma_state(state, s6);
        lemma_blob(blob, e);
    }
}

proof fn lemma_rows_frame(f: FrameView)
    requires
        f is Rows,
        layout::too_long(f) is None,
    ensures
        layout::get_rows_frame(fields(f)) == Ok::<(FrameView, Seq<u8>), Seq<char>>((f, Seq::empty())),
{
    if let FrameView::Rows { source, seq, index_state, rows } = f {
        let e = Seq::<u8>::empty();
        let s5 = layout::put_rows(rows) + e;
        let s4 = layout::put32(rows.len() as u32) + s5;
        let s3 = layout::put64(index_state.0) + (layout::put64(index_state.1) + s4);
        let s2 = layout::put64(seq) + s3;
        assert(fields(f) =~= layout::put32(source) + s2);
        lemma_get32(source, s2);
        lemma_get64(seq, s3);
        lemma_state(index_state, s4);
        lemma_get32(rows.len() as u32, s5);
        lemma_rows(rows, e);
    }
}

proof fn lemma_segment(f: FrameView)
    requires
        f is Segment,
        layout::too_long(f) is None,
    ensures
        layout::get_segment(fields(f)) == Ok::<(FrameView, Seq<u8>), Seq<char>>((f, Seq::empty())),
{
    if let FrameView::Segment { source, stream, meta, bytes, caller_index } = f {
        let e = Seq::<u8>::empty();
        let s7 = layout::put_maybe(caller_index) + e;
        let s6 = layout::put_blob(bytes) + s7;
        let s5 = layout::put_signed(meta.last_ts) + s6;
        let s4 = layout::put_signed(meta.first_ts) + s5;
        let s3 = layout::put64(meta.rows) + s4;
        let s2 = layout::put_text(stream) + s3;
        assert(fields(f) =~= layout::put32(source) + s2);
        lemma_get32(source, s2);
        lemma_text(stream, s3);
        lemma_get64(meta.rows, s4);
        lemma_signed(meta.first_ts, s5);
        lemma_signed(meta.last_ts, s6);
        lemma_blob(bytes, s7);
        lemma_maybe(caller_index, e);
    }
}

proof fn lemma_three(k: u8, a: Seq<u8>, b: Seq<u8>, c: Seq<u8>)
    ensures
        (seq![k] + a + b + c).skip(1) == a + (b + (c + Seq::<u8>::empty())),
{
    assert((seq![k] + a + b + c).skip(1) =~= a + (b + (c + Seq::<u8>::empty())));
}

proof fn lemma_clock_offset(f: FrameView)
    requires
        f is ClockOffset,
    ensures
        layout::get_clock_offset(fields(f)) == Ok::<(FrameView, Seq<u8>), Seq<char>>(
            (f, Seq::empty()),
        ),
{
    if let FrameView::ClockOffset { source, ts, offset_ns } = f {
        let e = Seq::<u8>::empty();
        let s3 = layout::put_signed(offset_ns) + e;
        let s2 = layout::put_signed(ts) + s3;
        lemma_three(
            5,
            layout::put32(source),
            layout::put_signed(ts),
            layout::put_signed(offset_ns),
        );
        lemma_get32(source, s2);
        lemma_signed(ts, s3);
        lemma_signed(offset_ns, e);
    }
}

proof fn lemma_four(k: u8, a: Seq<u8>, b: Seq<u8>, c: Seq<u8>, d: Seq<u8>)
    ensures
        (seq![k] + a + b + c + d).skip(1) == a + (b + (c + (d + Seq::<u8>::empty()))),
{
    assert((seq![k] + a + b + c + d).skip(1) =~= a + (b + (c + (d + Seq::<u8>::empty()))));
}

proof fn lemma_stream_summary(f: FrameView)
    requires
        f is StreamSummary,
        layout::too_long(f) is None,
    ensures
        layout::get_stream_summary(fields(f)) == Ok::<(FrameView, Seq<u8>), Seq<char>>(
            (f, Seq::empty()),
        ),
{
    if let FrameView::StreamSummary { source, stream, as_of_ts, blob } = f {
        let e = Seq::<u8>::empty();
        let s4 = layout::put_blob(blob) + e;
        let s3 = layout::put_signed(as_of_ts) + s4;
        let s2 = layout::put_text(stream) + s3;
        lemma_four(
            6,
            layout::put32(source),
            layout::put_text(stream),
            layout::put_signed(as_of_ts),
            layout::put_blob(blob),
        );
        lemma_get32(source, s2);
        lemma_text(stream, s3);
        lemma_signed(as_of_ts, s4);
        lemma_blob(blob, e);
    }
}

proof fn lemma_fields(f: FrameView)
    requires
        layout::well_keyed(f),
        layout::too_long(f) is None,
    ensures
        layout::get_fields(kind_of(f), fields(f)) == Some(
            Ok::<(FrameView, Seq<u8>), Seq<char>>((f, Seq::empty())),
        ),
{
    match f {
        FrameView::Handshake { .. } => {
            lemma_handshake(f);
        },
        FrameView::Index { .. } => {
            lemma_index(f);
        },
        FrameView::Rows { .. } => {
            lemma_rows_frame(f);
        },
        FrameView::Segment { .. } => {
            lemma_segment(f);
        },
        FrameView::ClockOffset { .. } => {
            lemma_clock_offset(f);
        },
        FrameView::StreamSummary { .. } => {
            lemma_stream_summary(f);
        },
    }
}

/// Every frame round-trips: the payload of a frame that can be encoded decodes
/// as that frame.
pub proof fn law_every_frame_round_trips(f: FrameView)
    requires
        layout::well_keyed(f),
        wire::encode_refusal(f) is None,
    ensures
        layout::decoded(layout::payload(f)) == Ok::<Option<FrameView>, Seq<char>>(Some(f)),
{
    reveal(layout::decoded);
    lemma_kind_first(f);
    lemma_get8(kind_of(f), fields(f));
    lemma_fields(f);
}

/// Two frames that encode alike are the same frame; in particular, what is
/// absent does not encode like what is empty.
pub proof fn law_encodings_are_distinct(f: FrameView, g: FrameView)
    requires
        layout::well_keyed(f),
        layout::well_keyed(g),
        wire::encode_refusal(f) is None,
        wire::encode_refusal(g) is None,
        layout::whole(f) == layout::whole(g),
    ensures
        f == g,
{
    lemma_get32(layout::payload(f).len() as u32, layout::payload(f));
    lemma_get32(layout::payload(g).len() as u32, layout::payload(g));
    law_every_frame_round_trips(f);
    law_every_frame_round_trips(g);
}

// ------------------------------------------------------------ nothing else is

/// Whether more bytes after what was read change nothing of it.
spec fn steady<T>(short: Reading<T>, long: Reading<T>, more: Seq<u8>) -> bool {
    short matches Ok((v, rest)) ==> long == Ok::<(T, Seq<u8>), Seq<char>>((v, rest + more))
}

proof fn lemma_more_raw(s: Seq<u8>, n: nat, m: Seq<u8>)
    ensures
        steady(layout::get_raw(s, n), layout::get_raw(s + m, n), m),
        steady(layout::get8(s), layout::get8(s + m), m),
{
    if n <= s.len() {
        assert((s + m).take(n as int) =~= s.take(n as int));
        assert((s + m).skip(n as int) =~= s.skip(n as int) + m);
    }
    if 1 <= s.len() {
        assert((s + m).take(1) =~= s.take(1));
        assert((s + m).skip(1) =~= s.skip(1) + m);
    }
}

proof fn lemma_more_numbers(s: Seq<u8>, m: Seq<u8>)
    ensures
        steady(layout::get32(s), layout::get32(s + m), m),
        steady(layout::get64(s), layout::get64(s + m), m),
        steady(layout::get_signed(s), layout::get_signed(s + m), m),
{
    lemma_more_raw(s, 4, m);
    lemma_more_raw(s, 8, m);
}

proof fn lemma_more_state(s: Seq<u8>, m: Seq<u8>)
    ensures
        steady(layout::get_state(s), layout::get_state(s + m), m),
{
    lemma_more_numbers(s, m);
    if let Ok((_, rest)) = layout::get64(s) {
        lemma_more_numbers(rest, m);
    }
}

proof fn lemma_more_blob(s: Seq<u8>, m: Seq<u8>)
    ensures
        steady(layout::get_blob(s), layout::get_blob(s + m), m),
        steady(layout::get_text(s), layout::get_text(s + m), m),
{
    lemma_more_numbers(s, m);
    if let Ok((n, rest)) = layout::get32(s) {
        lemma_more_raw(rest, n as nat, m);
    }
}

proof fn lemma_more_maybe(s: Seq<u8>, m: Seq<u8>)
    ensures
        steady(layout::get_maybe(s), layout::get_maybe(s + m), m),
        steady(layout::get_uuid(s), layout::get_uuid(s + m), m),
        steady(layout::get_bool(s), layout::get_bool(s + m), m),
        steady(layout::get_kind(s), layout::get_kind(s + m), m),
{
    lemma_more_raw(s, 1, m);
    if let Ok((_, rest)) = layout::get8(s) {
        lemma_more_blob(rest, m);
    }
}

proof fn lemma_more_pairs(s: Seq<u8>, n: nat, m: Seq<u8>)
    ensures
        steady(layout::get_pairs(s, n), layout::get_pairs(s + m, n), m),
    decreases n,
{
    if n > 0 {
        lemma_more_pairs(s, (n - 1) as nat, m);
        if let Ok((_, rest)) = layout::get_pairs(s, (n - 1) as nat) {
            lemma_more_blob(rest, m);
            if let Ok((_, rest)) = layout::get_text(rest) {
                lemma_more_blob(rest, m);
            }
        }
    }
}

proof fn lemma_more_entries(s: Seq<u8>, m: Seq<u8>)
    ensures
        steady(layout::get_entries(s), layout::get_entries(s + m), m),
{
    lemma_more_numbers(s, m);
    if let Ok((n, rest)) = layout::get32(s) {
        lemma_more_pairs(rest, n as nat, m);
    }
}

proof fn lemma_more_row(s: Seq<u8>, m: Seq<u8>)
    ensures
        steady(layout::get_row(s), layout::get_row(s + m), m),
{
    lemma_more_blob(s, m);
    if let Ok((_, rest)) = layout::get_text(s) {
        lemma_more_numbers(rest, m);
        if let Ok((_, rest)) = layout::get_signed(rest) {
            lemma_more_numbers(rest, m);
            if let Ok((_, rest)) = layout::get_signed(rest) {
                lemma_more_blob(rest, m);
            }
        }
    }
}

proof fn lemma_more_rows(s: Seq<u8>, n: nat, m: Seq<u8>)
    ensures
        steady(layout::get_rows(s, n), layout::get_rows(s + m, n), m),
    decreases n,
{
    if n > 0 {
        lemma_more_rows(s, (n - 1) as nat, m);
        if let Ok((_, rest)) = layout::get_rows(s, (n - 1) as nat) {
            lemma_more_row(rest, m);
        }
    }
}

proof fn lemma_more_meta(s: Seq<u8>, m: Seq<u8>)
    ensures
        steady(layout::get_meta(s), layout::get_meta(s + m), m),
{
    lemma_more_numbers(s, m);
    if let Ok((_, rest)) = layout::get64(s) {
        lemma_more_numbers(rest, m);
        if let Ok((_, rest)) = layout::get_signed(rest) {
            lemma_more_numbers(rest, m);
        }
    }
}

proof fn lemma_more_handshake(s: Seq<u8>, m: Seq<u8>)
    ensures
        steady(layout::get_handshake(s), layout::get_handshake(s + m), m),
{
    lemma_more_numbers(s, m);
    if let Ok((_, rest)) = layout::get32(s) {
        lemma_more_maybe(rest, m);
        if let Ok((_, rest)) = layout::get_uuid(rest) {
            lemma_more_entries(rest, m);
            if let Ok((_, rest)) = layout::get_entries(rest) {
                lemma_more_entries(rest, m);
                if let Ok((_, rest)) = layout::get_entries(rest) {
                    lemma_more_numbers(rest, m);
                    if let Ok((_, rest)) = layout::get_signed(rest) {
                        lemma_more_maybe(rest, m);
                    }
                }
            }
        }
    }
}

proof fn lemma_more_index(s: Seq<u8>, m: Seq<u8>)
    ensures
        steady(layout::get_index(s), layout::get_index(s + m), m),
{
    lemma_more_numbers(s, m);
    if let Ok((_, rest)) = layout::get32(s) {
        lemma_more_blob(rest, m);
        if let Ok((_, rest)) = layout::get_text(rest) {
            lemma_more_numbers(rest, m);
            if let Ok((_, rest)) = layout::get_signed(rest) {
                lemma_more_maybe(rest, m);
                if let Ok((_, rest)) = layout::get_kind(rest) {
                    lemma_more_state(rest, m);
                    if let Ok((_, rest)) = layout::get_state(rest) {
                        lemma_more_blob(rest, m);
                    }
                }
            }
        }
    }
}

proof fn lemma_more_rows_frame(s: Seq<u8>, m: Seq<u8>)
    ensures
        steady(layout::get_rows_frame(s), layout::get_rows_frame(s + m), m),
{
    lemma_more_numbers(s, m);
    if let Ok((_, rest)) = layout::get32(s) {
        lemma_more_numbers(rest, m);
        if let Ok((_, rest)) = layout::get64(rest) {
            lemma_more_state(rest, m);
            if let Ok((_, rest)) = layout::get_state(rest) {
                lemma_more_numbers(rest, m);
                if let Ok((n, rest)) = layout::get32(rest) {
                    lemma_more_rows(rest, n as nat, m);
                }
            }
        }
    }
}

proof fn lemma_more_segment(s: Seq<u8>, m: Seq<u8>)
    ensures
        steady(layout::get_segment(s), layout::get_segment(s + m), m),
{
    lemma_more_numbers(s, m);
    if let Ok((_, rest)) = layout::get32(s) {
        lemma_more_blob(rest, m);
        if let Ok((_, rest)) = layout::get_text(rest) {
            lemma_more_meta(rest, m);
            if let Ok((_, rest)) = layout::get_meta(rest) {
                lemma_more_blob(rest, m);
                if let Ok((_, rest)) = layout::get_blob(rest) {
                    lemma_more_maybe(rest, m);
                }
            }
        }
    }
}

proof fn lemma_more_small(s: Seq<u8>, m: Seq<u8>)
    ensures
        steady(layout::get_clock_offset(s), layout::get_clock_offset(s + m), m),
        steady(layout::get_stream_summary(s), layout::get_stream_summary(s + m), m),
{
    lemma_more_numbers(s, m);
    if let Ok((_, rest)) = layout::get32(s) {
        lemma_more_numbers(rest, m);
        if let Ok((_, rest)) = layout::get_signed(rest) {
            lemma_more_numbers(rest, m);
        }
        lemma_more_blob(rest, m);
        if let Ok((_, rest)) = layout::get_text(rest) {
            lemma_more_numbers(rest, m);
            if let Ok((_, rest)) = layout::get_signed(rest) {
                lemma_more_blob(rest, m);
            }
        }
    }
}

proof fn lemma_more_fields(kind: u8, s: Seq<u8>, m: Seq<u8>)
    requires
        layout::get_fields(kind, s) is Some,
    ensures
        layout::get_fields(kind, s + m) is Some,
        steady(layout::get_fields(kind, s)->0, layout::get_fields(kind, s + m)->0, m),
{
    if kind == 1 {
        lemma_more_handshake(s, m);
    } else if kind == 2 {
        lemma_more_index(s, m);
    } else if kind == 3 {
        lemma_more_rows_frame(s, m);
    } else if kind == 4 {
        lemma_more_segment(s, m);
    } else {
        lemma_more_small(s, m);
    }
}

/// Bytes after a frame's fields are refused: nothing that begins with a
/// payload that decodes as a frame, and goes on, decodes as one.
pub proof fn law_trailing_bytes_are_refused(p: Seq<u8>, more: Seq<u8>)
    requires
        layout::decoded(p) matches Ok(Some(_)),
        more.len() > 0,
    ensures
        layout::decoded(p + more) is Err,
{
    reveal(layout::decoded);
    lemma_more_raw(p, 1, more);
    if let Ok((kind, rest)) = layout::get8(p) {
        lemma_more_fields(kind, rest, more);
        assert(Seq::<u8>::empty() + more =~= more);
    }
}

/// A payload cut short is refused: no proper prefix of a payload that decodes
/// as a frame decodes, as that frame or another, or passes for a frame of an
/// unknown kind.
pub proof fn law_a_truncated_payload_is_refused(p: Seq<u8>, cut: int)
    requires
        layout::decoded(p) matches Ok(Some(_)),
        0 <= cut < p.len(),
    ensures
        layout::decoded(p.take(cut)) is Err,
{
    let short = p.take(cut);
    let more = p.skip(cut);
    assert(short + more =~= p);
    if layout::decoded(short) matches Ok(Some(_)) {
        law_trailing_bytes_are_refused(short, more);
    } else if layout::decoded(short) matches Ok(None) {
        reveal(layout::decoded);
        lemma_more_raw(short, 1, more);
    }
}

/// A payload whose kind byte is not known is refused by the decoder on its own
/// and passed over by a reader.
pub proof fn law_an_unknown_kind_is_passed_over(p: Seq<u8>)
    requires
        p.len() > 0,
        p[0] == 0 || p[0] > 6,
    ensures
        layout::decoded(p) == Ok::<Option<FrameView>, Seq<char>>(None),
{
    reveal(layout::decoded);
}

// ------------------------------------------------------------ streams

proof fn lemma_payload_in(p: Seq<u8>, t: Seq<u8>)
    requires
        p.len() <= layout::limit(),
    ensures
        layout::payload_in((layout::put32(p.len() as u32) + p) + t) == (
            Ok::<Option<Seq<u8>>, Seq<char>>(Some(p)),
            t,
        ),
{
    let h = layout::put32(p.len() as u32);
    let s = (h + p) + t;
    little_endian::lemma_of32(p.len() as u32);
    lemma_assoc(h, p, t);
    assert(s.take(4) =~= h);
    assert(s.skip(4) =~= p + t);
    assert((p + t).take(p.len() as int) =~= p);
    assert((p + t).skip(p.len() as int) =~= t);
}

/// A stream reads back in order: the bytes of frames, one after the other, give
/// the first frame and leave the bytes of the others, and with no frame left
/// they are a clean end.
pub proof fn law_a_stream_reads_back_in_order(fs: Seq<FrameView>)
    requires
        forall|i: int| 0 <= i < fs.len() ==> layout::well_keyed(#[trigger] fs[i]),
        forall|i: int| 0 <= i < fs.len() ==> wire::encode_refusal(#[trigger] fs[i]) is None,
    ensures
        layout::next_in(layout::wholes(fs)) == if fs.len() == 0 {
            (Ok::<Option<FrameView>, Seq<char>>(None), Seq::<u8>::empty(), 0nat)
        } else {
            (Ok::<Option<FrameView>, Seq<char>>(Some(fs[0])), layout::wholes(fs.skip(1)), 0nat)
        },
{
    if fs.len() > 0 {
        law_every_frame_round_trips(fs[0]);
        lemma_payload_in(layout::payload(fs[0]), layout::wholes(fs.skip(1)));
    }
}

/// A stream's preamble is what opening one accepts, and what follows it is what
/// is read.
pub proof fn law_a_written_preamble_opens(rest: Seq<u8>)
    ensures
        wire::opened(wire::preamble() + rest) == Ok::<Seq<u8>, Seq<char>>(rest),
{
    little_endian::lemma_of16(wire::PROTOCOL_VERSION);
    let s = wire::preamble() + rest;
    assert(s.take(12) =~= wire::magic_bytes());
    assert(s.subrange(12, 14) =~= little_endian::le16(wire::PROTOCOL_VERSION));
    assert(s.skip(14) =~= rest);
}

/// A stream cut inside a frame is an error: no proper, non-empty prefix of a
/// frame's bytes is a frame or a clean end.
pub proof fn law_a_stream_cut_mid_frame_is_an_error(f: FrameView, cut: int)
    requires
        wire::encode_refusal(f) is None,
        0 < cut < layout::whole(f).len(),
    ensures
        layout::next_in(layout::whole(f).take(cut)).0 is Err,
{
    little_endian::lemma_of32(layout::payload(f).len() as u32);
    let s = layout::whole(f).take(cut);
    if cut >= 4 {
        assert(s.take(4) =~= layout::put32(layout::payload(f).len() as u32));
    }
}

/// A frame of an unknown kind is skipped and counted, and the reader goes on
/// with what follows it.
pub proof fn law_unknown_kinds_are_skipped(p: Seq<u8>, t: Seq<u8>)
    requires
        0 < p.len() <= layout::limit(),
        p[0] == 0 || p[0] > 6,
    ensures
        ({
            let (out, rest, k) = layout::next_in((layout::put32(p.len() as u32) + p) + t);
            let (after, left, more) = layout::next_in(t);
            out == after && rest == left && k == more + 1
        }),
{
    law_an_unknown_kind_is_passed_over(p);
    lemma_payload_in(p, t);
    little_endian::lemma_of32(p.len() as u32);
}

} // verus!
