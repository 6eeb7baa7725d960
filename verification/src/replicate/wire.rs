//! Frames as bytes.
//!
//! Hand-rolled rather than derived: the byte layout is a thing another
//! implementation can be built from. See [`super::layout`] for what the bytes
//! are.

use vstd::prelude::*;
use vstd::slice::*;
use vstd::string::*;
use vstd::utf8::*;

use crate::db::{SegmentMeta, WalRow};
use crate::error::{over_limit, Error, ErrorView};
use crate::replicate::frame::{Frame, FrameView, IndexKind};
use crate::replicate::layout;
use crate::replicate::layout::Reading;
use crate::replicate::little_endian;
use crate::replicate::little_endian::{bytes_of_i64, bytes_of_u16, bytes_of_u32, bytes_of_u64, signed_of, u16_of, u32_of, u64_of};
use crate::seqs;
use crate::seqs::append_bytes;
use crate::text::append_number;
use crate::text_map;
use crate::text_map::TextMap;

verus! {

broadcast use crate::seqs::group_views;

/// The protocol version this build writes and reads.
pub const PROTOCOL_VERSION: u16 = 1;

/// The largest frame this build will read, and the bound that is applied to a
/// length before anything is allocated for it.
pub const MAX_FRAME_BYTES: usize = 67_108_864;

/// The bytes a frame's length prefix occupies, and therefore the offset at
/// which its payload begins.
pub const LENGTH_PREFIX_BYTES: usize = 4;

/// The bytes a stream's preamble occupies: the magic and the version.
pub const PREAMBLE_BYTES: usize = 14;

/// What a stream begins with: `dendro-repl` and a zero byte.
pub open spec fn magic_bytes() -> Seq<u8> {
    seq![
        100u8,
        101u8,
        110u8,
        100u8,
        114u8,
        111u8,
        45u8,
        114u8,
        101u8,
        112u8,
        108u8,
        0u8,
    ]
}

/// What a stream begins with, before any frame: the magic and the version.
pub open spec fn preamble() -> Seq<u8> {
    magic_bytes() + little_endian::le16(PROTOCOL_VERSION)
}

/// Written once at the head of a stream, before any frame.
pub fn magic() -> (r: Vec<u8>)
    ensures
        r@ == magic_bytes(),
{
    let r: Vec<u8> = vec![
        100u8,
        101u8,
        110u8,
        100u8,
        114u8,
        111u8,
        45u8,
        114u8,
        101u8,
        112u8,
        108u8,
        0u8,
    ];
    assert(r@ =~= magic_bytes());
    r
}

fn malformed(what: &str) -> (r: Error)
    ensures
        r@ == ErrorView::Message(layout::malformed(what@)),
{
    let mut s = String::from_str("malformed replication frame: ");
    s.append(what);
    Error::Message(s)
}

/// A malformed frame, described by a number and what is wrong with it.
fn malformed_number(n: u64, what: &str) -> (r: Error)
    ensures
        r@ == ErrorView::Message(layout::malformed(crate::text::decimal(n as nat) + what@)),
{
    let mut s = String::new();
    append_number(&mut s, n);
    s.append(what);
    assert(s@ =~= crate::text::decimal(n as nat) + what@);
    malformed(s.as_str())
}

// ---------------------------------------------------------------- encoding

/// Whether a part was appended, or refused with the text it is refused with.
spec fn part(
    r: Result<(), Error>,
    was: Seq<u8>,
    now: Seq<u8>,
    bytes: Seq<u8>,
    refused: Option<Seq<char>>,
) -> bool {
    &&& was.is_prefix_of(now)
    &&& match refused {
        None => r is Ok && now == was + bytes,
        Some(t) => r matches Err(e) && e@ == ErrorView::Message(t),
    }
}

proof fn lemma_prefix(a: Seq<u8>, b: Seq<u8>)
    ensures
        a.is_prefix_of(a + b),
        a.is_prefix_of(a),
{
    assert((a + b).subrange(0, a.len() as int) =~= a);
    assert(a.subrange(0, a.len() as int) =~= a);
}

proof fn lemma_prefix_through(a: Seq<u8>, b: Seq<u8>, c: Seq<u8>)
    requires
        a.is_prefix_of(b),
        b.is_prefix_of(c),
    ensures
        a.is_prefix_of(c),
{
    assert(c.subrange(0, a.len() as int) =~= b.subrange(0, a.len() as int));
}

broadcast proof fn lemma_assoc(a: Seq<u8>, b: Seq<u8>, c: Seq<u8>)
    ensures
        #[trigger] ((a + b) + c) == a + (b + c),
{
    assert((a + b) + c =~= a + (b + c));
}

fn put_u8(out: &mut Vec<u8>, v: u8)
    ensures
        final(out)@ == old(out)@ + seq![v],
{
    out.push(v);
    assert(final(out)@ =~= old(out)@ + seq![v]);
}

fn put_u32(out: &mut Vec<u8>, v: u32)
    ensures
        final(out)@ == old(out)@ + layout::put32(v),
{
    append_bytes(out, bytes_of_u32(v).as_slice());
}

fn put_u64(out: &mut Vec<u8>, v: u64)
    ensures
        final(out)@ == old(out)@ + layout::put64(v),
{
    append_bytes(out, bytes_of_u64(v).as_slice());
}

fn put_i64(out: &mut Vec<u8>, v: i64)
    ensures
        final(out)@ == old(out)@ + layout::put_signed(v),
{
    append_bytes(out, bytes_of_i64(v).as_slice());
}

/// `u32` length, then the bytes.
fn put_bytes(out: &mut Vec<u8>, v: &[u8]) -> (r: Result<(), Error>)
    ensures
        part(r, old(out)@, final(out)@, layout::put_blob(v@), layout::blob_too_long(v@.len())),
{
    proof {
        lemma_prefix(old(out)@, layout::put_blob(v@));
    }
    if v.len() as u64 > u32::MAX as u64 {
        let mut s = String::from_str("a replication field of ");
        append_number(&mut s, v.len() as u64);
        s.append(" bytes is too large to encode");
        return Err(Error::Message(s));
    }
    put_u32(out, v.len() as u32);
    append_bytes(out, v);
    proof {
        lemma_assoc(old(out)@, layout::put32(v@.len() as u32), v@);
    }
    Ok(())
}

fn put_str(out: &mut Vec<u8>, v: &str) -> (r: Result<(), Error>)
    ensures
        part(
            r,
            old(out)@,
            final(out)@,
            layout::put_text(v@),
            layout::blob_too_long(encode_utf8(v@).len()),
        ),
{
    put_bytes(out, v.as_bytes())
}

/// A count, then the pairs in key order, so two encodes of equal maps produce
/// equal bytes.
fn put_map(out: &mut Vec<u8>, v: &TextMap) -> (r: Result<(), Error>)
    ensures
        part(r, old(out)@, final(out)@, layout::put_entries(v@), layout::entries_too_long(v@)),
{
    let ghost was = out@;
    proof {
        lemma_prefix(was, Seq::empty());
    }
    if v.len() as u64 > u32::MAX as u64 {
        return Err(Error::Message(String::from_str("a replication map is too large to encode")));
    }
    put_u32(out, v.len() as u32);
    let ghost head = layout::put32(v@.len() as u32);
    let mut i: usize = 0;
    proof {
        assert(was + (head + layout::put_pairs(v@.take(0))) =~= was + head);
        lemma_prefix(was, head);
    }
    while i < v.len()
        invariant
            i <= v@.len(),
            v@.len() <= u32::MAX,
            was == old(out)@,
            head == layout::put32(v@.len() as u32),
            out@ == was + (head + layout::put_pairs(v@.take(i as int))),
            was.is_prefix_of(out@),
            layout::pairs_too_long(v@.take(i as int)) is None,
        decreases v@.len() - i,
    {
        proof {
            lemma_too_long_prefix(v@, i + 1);
            assert(v@.take(i + 1).drop_last() =~= v@.take(i as int));
            assert(v@.take(i + 1).last() == v@[i as int]);
        }
        let ghost before = out@;
        match put_str(out, v.key_at(i).as_str()) {
            Ok(_) => {},
            Err(e) => {
                proof {
                    lemma_prefix_through(was, before, out@);
                }
                return Err(e);
            },
        }
        let ghost middle = out@;
        match put_str(out, v.value_at(i).as_str()) {
            Ok(_) => {},
            Err(e) => {
                proof {
                    lemma_prefix_through(was, before, middle);
                    lemma_prefix_through(was, middle, out@);
                }
                return Err(e);
            },
        }
        proof {
            lemma_prefix_through(was, before, middle);
            lemma_prefix_through(was, middle, out@);
            let p = layout::put_pairs(v@.take(i as int));
            let k = layout::put_text(v@[i as int].0);
            let w = layout::put_text(v@[i as int].1);
            assert(((was + (head + p)) + k) + w =~= was + (head + ((p + k) + w)));
        }
        i += 1;
    }
    proof {
        assert(v@.take(v@.len() as int) =~= v@);
    }
    Ok(())
}

proof fn lemma_too_long_prefix(e: Seq<text_map::Entry>, n: int)
    requires
        0 <= n <= e.len(),
    ensures
        layout::pairs_too_long(e.take(n)) is Some ==> layout::pairs_too_long(e)
            == layout::pairs_too_long(e.take(n)),
    decreases e.len() - n,
{
    if n == e.len() {
        assert(e.take(n) =~= e);
    } else {
        lemma_too_long_prefix(e, n + 1);
        assert(e.take(n + 1).drop_last() =~= e.take(n));
    }
}

proof fn lemma_rows_too_long_prefix(rows: Seq<crate::db::WalView>, n: int)
    requires
        0 <= n <= rows.len(),
    ensures
        layout::rows_too_long(rows.take(n)) is Some ==> layout::rows_too_long(rows)
            == layout::rows_too_long(rows.take(n)),
    decreases rows.len() - n,
{
    if n == rows.len() {
        assert(rows.take(n) =~= rows);
    } else {
        lemma_rows_too_long_prefix(rows, n + 1);
        assert(rows.take(n + 1).drop_last() =~= rows.take(n));
    }
}

/// Bytes that may be absent, as a presence byte and, when present, the bytes.
/// Absent and empty are distinct.
fn put_opt_bytes(out: &mut Vec<u8>, v: Option<&[u8]>) -> (r: Result<(), Error>)
    ensures
        part(
            r,
            old(out)@,
            final(out)@,
            layout::put_maybe(seqs::opt_view(v)),
            layout::maybe_too_long(seqs::opt_view(v)),
        ),
{
    let ghost was = out@;
    match v {
        None => {
            put_u8(out, 0);
            proof {
                lemma_prefix(was, seq![0u8]);
            }
            Ok(())
        },
        Some(b) => {
            put_u8(out, 1);
            let ghost middle = out@;
            let r = put_bytes(out, b);
            proof {
                lemma_prefix(was, seq![1u8]);
                lemma_prefix_through(was, middle, out@);
                lemma_assoc(was, seq![1u8], layout::put_blob(b@));
            }
            r
        },
    }
}

/// One row of a frame of rows.
fn put_row(out: &mut Vec<u8>, row: &WalRow) -> (r: Result<(), Error>)
    ensures
        part(
            r,
            old(out)@,
            final(out)@,
            layout::put_row(row@),
            layout::first(
                layout::blob_too_long(encode_utf8(row@.stream).len()),
                layout::blob_too_long(row@.row.len()),
            ),
        ),
{
    let ghost was = out@;
    match put_str(out, row.stream.as_str()) {
        Ok(_) => {},
        Err(e) => {
            return Err(e);
        },
    }
    let ghost middle = out@;
    put_i64(out, row.ts);
    put_i64(out, row.wall_offset);
    let ghost late = out@;
    let r = put_bytes(out, row.row.as_slice());
    proof {
        let a = layout::put_text(row@.stream);
        let b = layout::put_signed(row@.ts);
        let c = layout::put_signed(row@.wall_offset);
        let d = layout::put_blob(row@.row);
        assert(late =~= was + ((a + b) + c));
        lemma_prefix(was, (a + b) + c);
        lemma_prefix_through(was, late, out@);
        assert((was + ((a + b) + c)) + d =~= was + (((a + b) + c) + d));
    }
    r
}

/// The rows of a frame of rows, after their count.
fn put_rows(out: &mut Vec<u8>, rows: &Vec<WalRow>) -> (r: Result<(), Error>)
    ensures
        part(
            r,
            old(out)@,
            final(out)@,
            layout::put_rows(seqs::views(rows@)),
            layout::rows_too_long(seqs::views(rows@)),
        ),
{
    let ghost was = out@;
    let ghost all = seqs::views(rows@);
    let mut i: usize = 0;
    proof {
        assert(was + layout::put_rows(all.take(0)) =~= was);
        lemma_prefix(was, Seq::empty());
    }
    while i < rows.len()
        invariant
            i <= rows@.len(),
            was == old(out)@,
            all == seqs::views(rows@),
            out@ == was + layout::put_rows(all.take(i as int)),
            was.is_prefix_of(out@),
            layout::rows_too_long(all.take(i as int)) is None,
        decreases rows@.len() - i,
    {
        proof {
            lemma_rows_too_long_prefix(all, i + 1);
            assert(all.take(i + 1).drop_last() =~= all.take(i as int));
            assert(all.take(i + 1).last() == all[i as int]);
        }
        let ghost before = out@;
        match put_row(out, &rows[i]) {
            Ok(_) => {},
            Err(e) => {
                proof {
                    lemma_prefix_through(was, before, out@);
                }
                return Err(e);
            },
        }
        proof {
            lemma_prefix_through(was, before, out@);
            lemma_assoc(
                was,
                layout::put_rows(all.take(i as int)),
                layout::put_row(all[i as int]),
            );
        }
        i += 1;
    }
    proof {
        assert(all.take(all.len() as int) =~= all);
    }
    Ok(())
}

/// The kind byte and the fields of a frame.
fn put_payload(out: &mut Vec<u8>, frame: &Frame) -> (r: Result<(), Error>)
    ensures
        part(r, old(out)@, final(out)@, layout::payload(frame@), layout::too_long(frame@)),
{
    match frame {
        Frame::Handshake { source, uuid, labels, metadata, clock_anchor_wall_ns, complete } => {
            put_handshake(
                out,
                *source,
                uuid,
                labels,
                metadata,
                *clock_anchor_wall_ns,
                *complete,
            )
        },
        Frame::Index { source, stream, ts, kind, state, blob } => {
            put_index(out, *source, stream, *ts, *kind, *state, blob)
        },
        Frame::Rows { source, seq, index_state, rows } => {
            put_rows_frame(out, *source, *seq, *index_state, rows)
        },
        Frame::Segment { source, stream, meta, bytes, caller_index } => {
            put_segment(out, *source, stream, *meta, bytes, caller_index)
        },
        Frame::ClockOffset { source, ts, offset_ns } => {
            let ghost was = out@;
            put_u8(out, 5);
            put_u32(out, *source);
            put_i64(out, *ts);
            put_i64(out, *offset_ns);
            proof {
                let p = layout::payload(frame@);
                assert(out@ =~= was + p);
                lemma_prefix(was, p);
            }
            Ok(())
        },
        Frame::StreamSummary { source, stream, as_of_ts, blob } => {
            put_stream_summary(out, *source, stream, *as_of_ts, blob)
        },
    }
}

fn put_handshake(
    out: &mut Vec<u8>,
    source: u32,
    uuid: &Option<String>,
    labels: &TextMap,
    metadata: &TextMap,
    clock_anchor_wall_ns: i64,
    complete: bool,
) -> (r: Result<(), Error>)
    ensures
        ({
            let f = FrameView::Handshake {
                source,
                uuid: seqs::opt_view(*uuid),
                labels: labels@,
                metadata: metadata@,
                clock_anchor_wall_ns,
                complete,
            };
            part(r, old(out)@, final(out)@, layout::payload(f), layout::too_long(f))
        }),
{
    let ghost was = out@;
    put_u8(out, 1);
    put_u32(out, source);
    let ghost a = seq![1u8] + layout::put32(source);
    let ghost at_a = out@;
    proof {
        assert(at_a =~= was + a);
        lemma_prefix(was, a);
    }
    let raw: Option<&[u8]> = match uuid {
        None => None,
        Some(t) => Some(t.as_str().as_bytes()),
    };
    let r = put_opt_bytes(out, raw);
    let ghost at_b = out@;
    let ghost b = layout::put_maybe_text(seqs::opt_view(*uuid));
    proof {
        lemma_prefix_through(was, at_a, at_b);
        lemma_assoc(was, a, b);
    }
    if let Err(e) = r {
        return Err(e);
    }
    let r = put_map(out, labels);
    let ghost at_c = out@;
    let ghost c = layout::put_entries(labels@);
    proof {
        lemma_prefix_through(was, at_b, at_c);
        lemma_assoc(was, a + b, c);
    }
    if let Err(e) = r {
        return Err(e);
    }
    let r = put_map(out, metadata);
    let ghost at_d = out@;
    let ghost d = layout::put_entries(metadata@);
    proof {
        lemma_prefix_through(was, at_c, at_d);
        lemma_assoc(was, a + b + c, d);
    }
    if let Err(e) = r {
        return Err(e);
    }
    put_i64(out, clock_anchor_wall_ns);
    put_u8(
        out,
        if complete {
            1
        } else {
            0
        },
    );
    proof {
        let p = a + b + c + d;
        let x = layout::put_signed(clock_anchor_wall_ns);
        let y = seq![layout::flag(complete)];
        assert(out@ =~= was + ((p + x) + y));
        lemma_prefix(was, (p + x) + y);
    }
    Ok(())
}

fn put_index(
    out: &mut Vec<u8>,
    source: u32,
    stream: &String,
    ts: i64,
    kind: IndexKind,
    state: (u64, u64),
    blob: &Vec<u8>,
) -> (r: Result<(), Error>)
    ensures
        ({
            let f = FrameView::Index { source, stream: stream@, ts, kind, state, blob: blob@ };
            part(r, old(out)@, final(out)@, layout::payload(f), layout::too_long(f))
        }),
{
    let ghost was = out@;
    put_u8(out, 2);
    put_u32(out, source);
    let ghost a = seq![2u8] + layout::put32(source);
    let ghost at_a = out@;
    proof {
        assert(at_a =~= was + a);
        lemma_prefix(was, a);
    }
    let r = put_str(out, stream.as_str());
    let ghost at_b = out@;
    let ghost b = layout::put_text(stream@);
    proof {
        lemma_prefix_through(was, at_a, at_b);
        lemma_assoc(was, a, b);
    }
    if let Err(e) = r {
        return Err(e);
    }
    put_i64(out, ts);
    put_u8(
        out,
        match kind {
            IndexKind::Full => 0,
            IndexKind::Delta => 1,
        },
    );
    put_u64(out, state.0);
    put_u64(out, state.1);
    let ghost at_c = out@;
    let ghost c = a + b + layout::put_signed(ts) + seq![layout::kind_byte(kind)] + layout::put64(
        state.0,
    ) + layout::put64(state.1);
    proof {
        assert(at_c =~= was + c);
        lemma_prefix(was, c);
    }
    let r = put_bytes(out, blob.as_slice());
    proof {
        lemma_prefix_through(was, at_c, out@);
        lemma_assoc(was, c, layout::put_blob(blob@));
    }
    r
}

fn put_rows_frame(
    out: &mut Vec<u8>,
    source: u32,
    seq: u64,
    index_state: (u64, u64),
    rows: &Vec<WalRow>,
) -> (r: Result<(), Error>)
    ensures
        ({
            let f = FrameView::Rows { source, seq, index_state, rows: seqs::views(rows@) };
            part(r, old(out)@, final(out)@, layout::payload(f), layout::too_long(f))
        }),
{
    let ghost was = out@;
    put_u8(out, 3);
    put_u32(out, source);
    put_u64(out, seq);
    put_u64(out, index_state.0);
    put_u64(out, index_state.1);
    let ghost a = seq![3u8] + layout::put32(source) + layout::put64(seq) + layout::put64(
        index_state.0,
    ) + layout::put64(index_state.1);
    let ghost at_a = out@;
    proof {
        assert(at_a =~= was + a);
        lemma_prefix(was, a);
    }
    if rows.len() as u64 > u32::MAX as u64 {
        return Err(
            Error::Message(String::from_str("a replication frame holds too many rows to encode")),
        );
    }
    put_u32(out, rows.len() as u32);
    let ghost b = a + layout::put32(rows@.len() as u32);
    let ghost at_b = out@;
    proof {
        assert(at_b =~= was + b);
        lemma_prefix(was, b);
    }
    let r = put_rows(out, rows);
    proof {
        lemma_prefix_through(was, at_b, out@);
        lemma_assoc(was, b, layout::put_rows(seqs::views(rows@)));
    }
    r
}

fn put_segment(
    out: &mut Vec<u8>,
    source: u32,
    stream: &String,
    meta: SegmentMeta,
    bytes: &Vec<u8>,
    caller_index: &Option<Vec<u8>>,
) -> (r: Result<(), Error>)
    ensures
        ({
            let f = FrameView::Segment {
                source,
                stream: stream@,
                meta,
                bytes: bytes@,
                caller_index: seqs::opt_view(*caller_index),
            };
            part(r, old(out)@, final(out)@, layout::payload(f), layout::too_long(f))
        }),
{
    let ghost was = out@;
    put_u8(out, 4);
    put_u32(out, source);
    let ghost a = seq![4u8] + layout::put32(source);
    let ghost at_a = out@;
    proof {
        assert(at_a =~= was + a);
        lemma_prefix(was, a);
    }
    let r = put_str(out, stream.as_str());
    let ghost at_b = out@;
    let ghost b = layout::put_text(stream@);
    proof {
        lemma_prefix_through(was, at_a, at_b);
        lemma_assoc(was, a, b);
    }
    if let Err(e) = r {
        return Err(e);
    }
    put_u64(out, meta.rows);
    put_i64(out, meta.first_ts);
    put_i64(out, meta.last_ts);
    let ghost c = a + b + layout::put64(meta.rows) + layout::put_signed(meta.first_ts)
        + layout::put_signed(meta.last_ts);
    let ghost at_c = out@;
    proof {
        assert(at_c =~= was + c);
        lemma_prefix(was, c);
    }
    let r = put_bytes(out, bytes.as_slice());
    let ghost at_d = out@;
    let ghost d = layout::put_blob(bytes@);
    proof {
        lemma_prefix_through(was, at_c, at_d);
        lemma_assoc(was, c, d);
    }
    if let Err(e) = r {
        return Err(e);
    }
    let raw: Option<&[u8]> = match caller_index {
        None => None,
        Some(v) => Some(v.as_slice()),
    };
    let r = put_opt_bytes(out, raw);
    proof {
        lemma_prefix_through(was, at_d, out@);
        lemma_assoc(was, c + d, layout::put_maybe(seqs::opt_view(*caller_index)));
    }
    r
}

fn put_stream_summary(
    out: &mut Vec<u8>,
    source: u32,
    stream: &String,
    as_of_ts: i64,
    blob: &Vec<u8>,
) -> (r: Result<(), Error>)
    ensures
        ({
            let f = FrameView::StreamSummary { source, stream: stream@, as_of_ts, blob: blob@ };
            part(r, old(out)@, final(out)@, layout::payload(f), layout::too_long(f))
        }),
{
    let ghost was = out@;
    put_u8(out, 6);
    put_u32(out, source);
    let ghost a = seq![6u8] + layout::put32(source);
    let ghost at_a = out@;
    proof {
        assert(at_a =~= was + a);
        lemma_prefix(was, a);
    }
    let r = put_str(out, stream.as_str());
    let ghost at_b = out@;
    let ghost b = layout::put_text(stream@);
    proof {
        lemma_prefix_through(was, at_a, at_b);
        lemma_assoc(was, a, b);
    }
    if let Err(e) = r {
        return Err(e);
    }
    put_i64(out, as_of_ts);
    let ghost c = a + b + layout::put_signed(as_of_ts);
    let ghost at_c = out@;
    proof {
        assert(at_c =~= was + c);
        lemma_prefix(was, c);
    }
    let r = put_bytes(out, blob.as_slice());
    proof {
        lemma_prefix_through(was, at_c, out@);
        lemma_assoc(was, c, layout::put_blob(blob@));
    }
    r
}

/// The refusal of a frame: the first of its fields that is too long, or else
/// its whole payload where that is over the limit.
pub open spec fn encode_refusal(f: FrameView) -> Option<Seq<char>> {
    if layout::too_long(f) is Some {
        layout::too_long(f)
    } else if layout::payload(f).len() > layout::limit() {
        Some(
            crate::error::over_limit_text(
                "a replication frame of "@,
                layout::payload(f).len(),
                " bytes exceeds the "@,
                layout::limit(),
            ),
        )
    } else {
        None
    }
}

/// Append one frame's bytes (length, kind, payload) to `out`. What was in
/// `out` stays; a frame over the limit appends nothing, and one with a field
/// too long to encode leaves a remainder behind it.
pub fn encode_frame(frame: &Frame, out: &mut Vec<u8>) -> (r: Result<(), Error>)
    ensures
        old(out)@.is_prefix_of(final(out)@),
        r is Ok <==> encode_refusal(frame@) is None,
        r is Ok ==> final(out)@ == old(out)@ + layout::whole(frame@),
        r matches Err(e) ==> e@ == ErrorView::Message(encode_refusal(frame@)->0),
        layout::too_long(frame@) is None && r is Err ==> final(out)@ == old(out)@,
{
    let ghost was = out@;
    // The length is not known until the payload is encoded, so reserve its
    // bytes and fill them in afterwards.
    let len_at: usize = out.len();
    put_u32(out, 0);
    let body_at: usize = out.len();
    let ghost reserved = out@;
    proof {
        little_endian::lemma_of32(0);
        lemma_prefix(was, layout::put32(0));
    }
    match put_payload(out, frame) {
        Ok(_) => {},
        Err(e) => {
            proof {
                lemma_prefix_through(was, reserved, out@);
            }
            return Err(e);
        },
    }
    let body: usize = out.len() - body_at;
    if body > MAX_FRAME_BYTES {
        out.truncate(len_at);
        proof {
            assert(out@ =~= was);
            lemma_prefix(was, Seq::empty());
        }
        return Err(
            over_limit(
                "a replication frame of ",
                body as u64,
                " bytes exceeds the ",
                MAX_FRAME_BYTES as u64,
            ),
        );
    }
    let ghost filled = out@;
    let prefix = bytes_of_u32(body as u32);
    let mut i: usize = 0;
    while i < 4
        invariant
            i <= 4,
            len_at == was.len(),
            body_at == len_at + 4,
            prefix@.len() == 4,
            out@.len() == filled.len(),
            filled.len() >= was.len() + 4,
            forall|j: int|
                0 <= j < filled.len() ==> #[trigger] out@[j] == if len_at <= j < len_at + i {
                    prefix@[j - len_at]
                } else {
                    filled[j]
                },
        decreases 4 - i,
    {
        out.set(len_at + i, prefix[i]);
        i += 1;
    }
    proof {
        assert(out@ =~= was + layout::whole(frame@));
        lemma_prefix(was, layout::whole(frame@));
    }
    Ok(())
}

/// One frame's bytes on their own.
pub fn encode(frame: &Frame) -> (r: Result<Vec<u8>, Error>)
    ensures
        r is Ok <==> encode_refusal(frame@) is None,
        r matches Ok(v) ==> v@ == layout::whole(frame@),
        r matches Err(e) ==> e@ == ErrorView::Message(encode_refusal(frame@)->0),
{
    let mut out: Vec<u8> = Vec::new();
    match encode_frame(frame, &mut out) {
        Ok(_) => {
            assert(out@ =~= layout::whole(frame@));
            Ok(out)
        },
        Err(e) => Err(e),
    }
}

// ---------------------------------------------------------------- decoding

/// `String::from_utf8`: the text of bytes that are UTF-8, and nothing for
/// bytes that are not.
#[verifier::external_body]
fn text_from(raw: Vec<u8>) -> (r: Option<String>)
    ensures
        r is Some <==> valid_utf8(raw@),
        r matches Some(t) ==> t@ == decode_utf8(raw@),
{
    String::from_utf8(raw).ok()
}

/// Whether an outcome is what reading gives, and the rest what is left.
spec fn reads<T: View>(r: Result<T, Error>, rest: Seq<u8>, was: Reading<T::V>) -> bool {
    match was {
        Ok((v, left)) => r matches Ok(x) && x@ == v && rest == left,
        Err(t) => r matches Err(e) && e@ == ErrorView::Message(t),
    }
}

/// Whether an outcome that may be absent is what reading gives.
spec fn reads_maybe<T: View>(
    r: Result<Option<T>, Error>,
    rest: Seq<u8>,
    was: Reading<Option<T::V>>,
) -> bool {
    match was {
        Ok((v, left)) => r matches Ok(x) && seqs::opt_view(x) == v && rest == left,
        Err(t) => r matches Err(e) && e@ == ErrorView::Message(t),
    }
}

/// A cursor over one frame's payload. Every read is bounds-checked and gives
/// an error, because the bytes came off a wire.
struct Cursor<'a> {
    bytes: &'a [u8],
    at: usize,
}

impl<'a> Cursor<'a> {
    spec fn wf(self) -> bool {
        self.at <= self.bytes@.len()
    }

    spec fn rest(self) -> Seq<u8> {
        self.bytes@.skip(self.at as int)
    }

    fn new(bytes: &'a [u8]) -> (r: Self)
        ensures
            r.wf(),
            r.rest() == bytes@,
    {
        let r = Cursor { bytes, at: 0 };
        assert(r.rest() =~= bytes@);
        r
    }

    fn take(&mut self, n: usize) -> (r: Result<&'a [u8], Error>)
        requires
            old(self).wf(),
        ensures
            final(self).wf(),
            match layout::get_raw(old(self).rest(), n as nat) {
                Ok((v, left)) => r matches Ok(x) && x@ == v && final(self).rest() == left,
                Err(t) => r matches Err(e) && e@ == ErrorView::Message(t),
            },
    {
        let left: usize = self.bytes.len() - self.at;
        if n > left {
            let mut s = String::from_str("it ends early: ");
            append_number(&mut s, n as u64);
            s.append(" more byte(s) wanted, ");
            append_number(&mut s, left as u64);
            s.append(" left");
            return Err(malformed(s.as_str()));
        }
        let end: usize = self.at + n;
        let out = slice_subrange(self.bytes, self.at, end);
        assert(out@ =~= self.rest().take(n as int));
        assert(self.bytes@.skip(end as int) =~= self.rest().skip(n as int));
        self.at = end;
        Ok(out)
    }

    fn u8(&mut self) -> (r: Result<u8, Error>)
        requires
            old(self).wf(),
        ensures
            final(self).wf(),
            reads(r, final(self).rest(), layout::get8(old(self).rest())),
    {
        match self.take(1) {
            Ok(b) => Ok(b[0]),
            Err(e) => Err(e),
        }
    }

    fn u32(&mut self) -> (r: Result<u32, Error>)
        requires
            old(self).wf(),
        ensures
            final(self).wf(),
            reads(r, final(self).rest(), layout::get32(old(self).rest())),
    {
        match self.take(4) {
            Ok(b) => Ok(u32_of(b)),
            Err(e) => Err(e),
        }
    }

    fn u64(&mut self) -> (r: Result<u64, Error>)
        requires
            old(self).wf(),
        ensures
            final(self).wf(),
            reads(r, final(self).rest(), layout::get64(old(self).rest())),
    {
        match self.take(8) {
            Ok(b) => Ok(u64_of(b)),
            Err(e) => Err(e),
        }
    }

    fn i64(&mut self) -> (r: Result<i64, Error>)
        requires
            old(self).wf(),
        ensures
            final(self).wf(),
            reads(r, final(self).rest(), layout::get_signed(old(self).rest())),
    {
        match self.u64() {
            Ok(v) => Ok(signed_of(v)),
            Err(e) => Err(e),
        }
    }

    fn state(&mut self) -> (r: Result<(u64, u64), Error>)
        requires
            old(self).wf(),
        ensures
            final(self).wf(),
            reads(r, final(self).rest(), layout::get_state(old(self).rest())),
    {
        let a = self.u64()?;
        let b = self.u64()?;
        Ok((a, b))
    }

    fn bytes(&mut self) -> (r: Result<Vec<u8>, Error>)
        requires
            old(self).wf(),
        ensures
            final(self).wf(),
            reads(r, final(self).rest(), layout::get_blob(old(self).rest())),
    {
        let len = self.u32()?;
        match self.take(len as usize) {
            Ok(b) => Ok(slice_to_vec(b)),
            Err(e) => Err(e),
        }
    }

    fn string(&mut self) -> (r: Result<String, Error>)
        requires
            old(self).wf(),
        ensures
            final(self).wf(),
            reads(r, final(self).rest(), layout::get_text(old(self).rest())),
    {
        let raw = self.bytes()?;
        match text_from(raw) {
            Some(t) => Ok(t),
            None => Err(malformed("a string field is not UTF-8")),
        }
    }

    fn map(&mut self) -> (r: Result<TextMap, Error>)
        requires
            old(self).wf(),
        ensures
            final(self).wf(),
            reads(r, final(self).rest(), layout::get_entries(old(self).rest())),
    {
        let len = self.u32()?;
        // The count is off the wire, so nothing is reserved for it: each
        // pair's own read is what bounds this.
        let ghost start = self.rest();
        let mut out = TextMap::new();
        let mut i: u32 = 0;
        while i < len
            invariant
                i <= len,
                self.wf(),
                layout::get32(old(self).rest()) == Ok::<(u32, Seq<u8>), Seq<char>>((len, start)),
                layout::get_pairs(start, i as nat) == Ok::<
                    (Seq<text_map::Entry>, Seq<u8>),
                    Seq<char>,
                >((out@, self.rest())),
            decreases len - i,
        {
            proof {
                lemma_pairs_refused(start, (i + 1) as nat, len as nat);
            }
            let k = self.string()?;
            let v = self.string()?;
            out.insert(k, v);
            i += 1;
        }
        Ok(out)
    }

    fn opt_bytes(&mut self) -> (r: Result<Option<Vec<u8>>, Error>)
        requires
            old(self).wf(),
        ensures
            final(self).wf(),
            reads_maybe(r, final(self).rest(), layout::get_maybe(old(self).rest())),
    {
        let b = self.u8()?;
        if b == 0 {
            Ok(None)
        } else if b == 1 {
            match self.bytes() {
                Ok(v) => Ok(Some(v)),
                Err(e) => Err(e),
            }
        } else {
            Err(malformed_number(b as u64, " is not a presence byte; it is 0 or 1"))
        }
    }

    fn uuid(&mut self) -> (r: Result<Option<String>, Error>)
        requires
            old(self).wf(),
        ensures
            final(self).wf(),
            reads_maybe(r, final(self).rest(), layout::get_uuid(old(self).rest())),
    {
        match self.opt_bytes()? {
            None => Ok(None),
            Some(raw) => match text_from(raw) {
                Some(t) => Ok(Some(t)),
                None => Err(malformed("a uuid is not UTF-8")),
            },
        }
    }

    fn bool(&mut self) -> (r: Result<bool, Error>)
        requires
            old(self).wf(),
        ensures
            final(self).wf(),
            reads(r, final(self).rest(), layout::get_bool(old(self).rest())),
    {
        let b = self.u8()?;
        if b == 0 {
            Ok(false)
        } else if b == 1 {
            Ok(true)
        } else {
            Err(malformed_number(b as u64, " is not a boolean; it is 0 or 1"))
        }
    }

    fn index_kind(&mut self) -> (r: Result<IndexKind, Error>)
        requires
            old(self).wf(),
        ensures
            final(self).wf(),
            reads(r, final(self).rest(), layout::get_kind(old(self).rest())),
    {
        let b = self.u8()?;
        if b == 0 {
            Ok(IndexKind::Full)
        } else if b == 1 {
            Ok(IndexKind::Delta)
        } else {
            Err(malformed_number(b as u64, " is not an index kind"))
        }
    }

    fn row(&mut self) -> (r: Result<WalRow, Error>)
        requires
            old(self).wf(),
        ensures
            final(self).wf(),
            reads(r, final(self).rest(), layout::get_row(old(self).rest())),
    {
        let stream = self.string()?;
        let ts = self.i64()?;
        let wall_offset = self.i64()?;
        let row = self.bytes()?;
        Ok(WalRow { stream, ts, wall_offset, row })
    }

    fn rows(&mut self, count: u32) -> (r: Result<Vec<WalRow>, Error>)
        requires
            old(self).wf(),
        ensures
            final(self).wf(),
            match layout::get_rows(old(self).rest(), count as nat) {
                Ok((v, left)) => r matches Ok(x) && seqs::views(x@) == v && final(self).rest()
                    == left,
                Err(t) => r matches Err(e) && e@ == ErrorView::Message(t),
            },
    {
        let ghost start = self.rest();
        let mut out: Vec<WalRow> = Vec::new();
        let mut i: u32 = 0;
        proof {
            seqs::lemma_views_empty::<WalRow>();
        }
        while i < count
            invariant
                i <= count,
                self.wf(),
                start == old(self).rest(),
                layout::get_rows(start, i as nat) == Ok::<
                    (Seq<crate::db::WalView>, Seq<u8>),
                    Seq<char>,
                >((seqs::views(out@), self.rest())),
            decreases count - i,
        {
            proof {
                lemma_rows_refused(start, (i + 1) as nat, count as nat);
            }
            let row = self.row()?;
            out.push(row);
            i += 1;
        }
        Ok(out)
    }

    fn meta(&mut self) -> (r: Result<SegmentMeta, Error>)
        requires
            old(self).wf(),
        ensures
            final(self).wf(),
            reads(r, final(self).rest(), layout::get_meta(old(self).rest())),
    {
        let rows = self.u64()?;
        let first_ts = self.i64()?;
        let last_ts = self.i64()?;
        Ok(SegmentMeta { rows, first_ts, last_ts })
    }

    /// Every byte of the payload must be consumed: accepting more would apply
    /// a frame whose meaning this build has guessed at.
    fn finish(self) -> (r: Result<(), Error>)
        requires
            self.wf(),
        ensures
            r is Ok <==> self.rest().len() == 0,
            r matches Err(e) ==> e@ == ErrorView::Message(
                layout::malformed(
                    crate::text::decimal(self.rest().len())
                        + " trailing byte(s) after its fields"@,
                ),
            ),
    {
        if self.at != self.bytes.len() {
            return Err(
                malformed_number(
                    (self.bytes.len() - self.at) as u64,
                    " trailing byte(s) after its fields",
                ),
            );
        }
        Ok(())
    }
}

proof fn lemma_pairs_refused(s: Seq<u8>, n: nat, m: nat)
    requires
        n <= m,
    ensures
        layout::get_pairs(s, n) matches Err(t) ==> layout::get_pairs(s, m) == Err::<
            (Seq<text_map::Entry>, Seq<u8>),
            Seq<char>,
        >(t),
    decreases m - n,
{
    if n < m {
        lemma_pairs_refused(s, n, (m - 1) as nat);
    }
}

proof fn lemma_rows_refused(s: Seq<u8>, n: nat, m: nat)
    requires
        n <= m,
    ensures
        layout::get_rows(s, n) matches Err(t) ==> layout::get_rows(s, m) == Err::<
            (Seq<crate::db::WalView>, Seq<u8>),
            Seq<char>,
        >(t),
    decreases m - n,
{
    if n < m {
        lemma_rows_refused(s, n, (m - 1) as nat);
    }
}

fn handshake(c: &mut Cursor) -> (r: Result<Frame, Error>)
    requires
        old(c).wf(),
    ensures
        final(c).wf(),
        reads(r, final(c).rest(), layout::get_handshake(old(c).rest())),
{
    let source = c.u32()?;
    let uuid = c.uuid()?;
    let labels = c.map()?;
    let metadata = c.map()?;
    let clock_anchor_wall_ns = c.i64()?;
    let complete = c.bool()?;
    Ok(Frame::Handshake { source, uuid, labels, metadata, clock_anchor_wall_ns, complete })
}

fn index(c: &mut Cursor) -> (r: Result<Frame, Error>)
    requires
        old(c).wf(),
    ensures
        final(c).wf(),
        reads(r, final(c).rest(), layout::get_index(old(c).rest())),
{
    let source = c.u32()?;
    let stream = c.string()?;
    let ts = c.i64()?;
    let kind = c.index_kind()?;
    let state = c.state()?;
    let blob = c.bytes()?;
    Ok(Frame::Index { source, stream, ts, kind, state, blob })
}

fn rows_frame(c: &mut Cursor) -> (r: Result<Frame, Error>)
    requires
        old(c).wf(),
    ensures
        final(c).wf(),
        reads(r, final(c).rest(), layout::get_rows_frame(old(c).rest())),
{
    let source = c.u32()?;
    let seq = c.u64()?;
    let index_state = c.state()?;
    let count = c.u32()?;
    let rows = c.rows(count)?;
    Ok(Frame::Rows { source, seq, index_state, rows })
}

fn segment(c: &mut Cursor) -> (r: Result<Frame, Error>)
    requires
        old(c).wf(),
    ensures
        final(c).wf(),
        reads(r, final(c).rest(), layout::get_segment(old(c).rest())),
{
    let source = c.u32()?;
    let stream = c.string()?;
    let meta = c.meta()?;
    let bytes = c.bytes()?;
    let caller_index = c.opt_bytes()?;
    Ok(Frame::Segment { source, stream, meta, bytes, caller_index })
}

fn clock_offset(c: &mut Cursor) -> (r: Result<Frame, Error>)
    requires
        old(c).wf(),
    ensures
        final(c).wf(),
        reads(r, final(c).rest(), layout::get_clock_offset(old(c).rest())),
{
    let source = c.u32()?;
    let ts = c.i64()?;
    let offset_ns = c.i64()?;
    Ok(Frame::ClockOffset { source, ts, offset_ns })
}

fn stream_summary(c: &mut Cursor) -> (r: Result<Frame, Error>)
    requires
        old(c).wf(),
    ensures
        final(c).wf(),
        reads(r, final(c).rest(), layout::get_stream_summary(old(c).rest())),
{
    let source = c.u32()?;
    let stream = c.string()?;
    let as_of_ts = c.i64()?;
    let blob = c.bytes()?;
    Ok(Frame::StreamSummary { source, stream, as_of_ts, blob })
}

/// What a payload is as a frame, with a kind this build does not know as
/// `None` rather than an error, so that a reader can skip it.
fn decode_known(payload: &[u8]) -> (r: Result<Option<Frame>, Error>)
    ensures
        match layout::decoded(payload@) {
            Ok(f) => r matches Ok(x) && seqs::opt_view(x) == f,
            Err(t) => r matches Err(e) && e@ == ErrorView::Message(t),
        },
{
    proof {
        reveal(layout::decoded);
    }
    let mut c = Cursor::new(payload);
    let kind = c.u8()?;
    let frame = if kind == 1 {
        handshake(&mut c)?
    } else if kind == 2 {
        index(&mut c)?
    } else if kind == 3 {
        rows_frame(&mut c)?
    } else if kind == 4 {
        segment(&mut c)?
    } else if kind == 5 {
        clock_offset(&mut c)?
    } else if kind == 6 {
        stream_summary(&mut c)?
    } else {
        return Ok(None);
    };
    match c.finish() {
        Ok(_) => Ok(Some(frame)),
        Err(e) => Err(e),
    }
}

/// Decode one frame from a payload: the bytes after the length prefix, kind
/// byte first.
pub fn decode_payload(payload: &[u8]) -> (r: Result<Frame, Error>)
    ensures
        match layout::decoded(payload@) {
            Ok(Some(f)) => r matches Ok(x) && x@ == f,
            Ok(None) => r matches Err(e) && e@ == ErrorView::Message(
                layout::unknown_kind(payload@[0]),
            ),
            Err(t) => r matches Err(e) && e@ == ErrorView::Message(t),
        },
{
    proof {
        reveal(layout::decoded);
    }
    match decode_known(payload)? {
        Some(frame) => Ok(frame),
        None => Err(
            malformed_number(payload[0] as u64, " is not a frame kind this build reads"),
        ),
    }
}

// ---------------------------------------------------------------- a stream

/// What opening a stream gives: its bytes after the preamble, or the refusal.
pub open spec fn opened(bytes: Seq<u8>) -> Result<Seq<u8>, Seq<char>> {
    if bytes.len() < 12 {
        Err(layout::preamble_cut())
    } else if bytes.take(12) != magic_bytes() {
        Err("this is not a dendro replication stream: the magic does not match"@)
    } else if bytes.len() < 14 {
        Err(layout::preamble_cut())
    } else {
        let version = little_endian::of16(bytes.subrange(12, 14));
        if version != PROTOCOL_VERSION {
            Err(
                "replication protocol version "@ + crate::text::decimal(version as nat)
                    + ": this build speaks v"@ + crate::text::decimal(PROTOCOL_VERSION as nat),
            )
        } else {
            Ok(bytes.skip(14))
        }
    }
}

/// Reads frames off a stream's bytes.
///
/// Holds the bytes that have arrived. [`missing`](Self::missing) says how many
/// more the next frame needs and [`push`](Self::push) takes them, for a caller
/// that reads from a transport; once the transport has ended, the bytes held
/// are all there is.
#[derive(Debug)]
pub struct FrameReader {
    buf: Vec<u8>,
    at: usize,
    skipped: u64,
}

impl FrameReader {
    #[verifier::type_invariant]
    spec fn inv(self) -> bool {
        self.at <= self.buf@.len()
    }

    /// The bytes not yet read.
    pub closed spec fn unread(&self) -> Seq<u8> {
        self.buf@.skip(self.at as int)
    }

    /// How many frames of an unknown kind were skipped.
    pub closed spec fn skips(&self) -> nat {
        self.skipped as nat
    }

    /// Check the preamble, then be ready for frames.
    ///
    /// A stream whose magic is wrong is refused here rather than at the first
    /// frame.
    pub fn new(bytes: Vec<u8>) -> (r: Result<FrameReader, Error>)
        ensures
            match opened(bytes@) {
                Ok(rest) => r matches Ok(x) && x.unread() == rest && x.skips() == 0,
                Err(t) => r matches Err(e) && e@ == ErrorView::Message(t),
            },
    {
        if bytes.len() < 12 {
            return Err(
                Error::Message(
                    String::from_str(
                        "failed to read the replication preamble: failed to fill whole buffer",
                    ),
                ),
            );
        }
        let want = magic();
        let mut i: usize = 0;
        while i < 12
            invariant
                i <= 12,
                bytes@.len() >= 12,
                want@ == magic_bytes(),
                want@.len() == 12,
                forall|j: int| 0 <= j < i ==> bytes@[j] == #[trigger] want@[j],
            decreases 12 - i,
        {
            if bytes[i] != want[i] {
                assert(bytes@.take(12)[i as int] != magic_bytes()[i as int]);
                return Err(
                    Error::Message(
                        String::from_str(
                            "this is not a dendro replication stream: the magic does not match",
                        ),
                    ),
                );
            }
            i += 1;
        }
        assert(bytes@.take(12) =~= magic_bytes());
        if bytes.len() < 14 {
            return Err(
                Error::Message(
                    String::from_str(
                        "failed to read the replication preamble: failed to fill whole buffer",
                    ),
                ),
            );
        }
        let version = u16_of(slice_subrange(bytes.as_slice(), 12, 14));
        if version != PROTOCOL_VERSION {
            let mut s = String::from_str("replication protocol version ");
            append_number(&mut s, version as u64);
            s.append(": this build speaks v");
            append_number(&mut s, PROTOCOL_VERSION as u64);
            return Err(Error::Message(s));
        }
        Ok(FrameReader { buf: bytes, at: 14, skipped: 0 })
    }

    /// How many frames of a kind this build does not know have been skipped.
    pub fn skipped(&self) -> (r: u64)
        ensures
            r == self.skips(),
    {
        self.skipped
    }

    /// How many bytes more the next frame needs: none once it is whole. The
    /// frame's length is refused here where it is over the limit, before
    /// anything is allocated for it.
    pub fn missing(&self) -> (r: Result<usize, Error>)
        ensures
            match layout::missing_from(self.unread()) {
                Ok(n) => r matches Ok(m) && m == n,
                Err(t) => r matches Err(e) && e@ == ErrorView::Message(t),
            },
    {
        proof {
            use_type_invariant(self);
        }
        let have: usize = self.buf.len() - self.at;
        if have < LENGTH_PREFIX_BYTES {
            return Ok(LENGTH_PREFIX_BYTES - have);
        }
        let prefix = slice_subrange(self.buf.as_slice(), self.at, self.at + LENGTH_PREFIX_BYTES);
        assert(prefix@ =~= self.unread().take(4));
        let len = u32_of(prefix) as usize;
        if len > MAX_FRAME_BYTES {
            return Err(
                over_limit(
                    "a replication frame claims ",
                    len as u64,
                    " bytes, above the ",
                    MAX_FRAME_BYTES as u64,
                ),
            );
        }
        if have < LENGTH_PREFIX_BYTES + len {
            Ok(LENGTH_PREFIX_BYTES + len - have)
        } else {
            Ok(0)
        }
    }

    /// Take bytes that have arrived.
    pub fn push(&mut self, more: &[u8])
        ensures
            final(self).unread() == old(self).unread() + more@,
            final(self).skips() == old(self).skips(),
    {
        proof {
            use_type_invariant(&*self);
        }
        // Bytes already read are let go, so that what is held stays bounded by
        // the frame in hand.
        let ghost was = self.unread();
        let mut rest = slice_to_vec(
            slice_subrange(self.buf.as_slice(), self.at, self.buf.len()),
        );
        assert(rest@ =~= was);
        append_bytes(&mut rest, more);
        self.at = 0;
        self.buf = rest;
        assert(self.buf@.skip(0) =~= self.buf@);
    }

    /// The next frame, or `None` at a clean end of stream.
    ///
    /// A stream that ends inside a frame is an error, not a `None`: a
    /// truncated frame is a lost frame. A frame of a kind this build does not
    /// know is skipped and counted in [`skipped`](Self::skipped).
    pub fn next_frame(&mut self) -> (r: Result<Option<Frame>, Error>)
        requires
            old(self).skips() + old(self).unread().len() <= u64::MAX,
        ensures
            ({
                let (out, rest, k) = layout::next_in(old(self).unread());
                &&& final(self).unread() == rest
                &&& final(self).skips() == old(self).skips() + k
                &&& match out {
                    Ok(f) => r matches Ok(x) && seqs::opt_view(x) == f,
                    Err(t) => r matches Err(e) && e@ == ErrorView::Message(t),
                }
            }),
    {
        loop
            invariant
                self.skips() + self.unread().len() <= u64::MAX,
                ({
                    let (out, rest, k) = layout::next_in(old(self).unread());
                    let (now, left, more) = layout::next_in(self.unread());
                    out == now && rest == left && old(self).skips() + k == self.skips() + more
                }),
            decreases self.unread().len(),
        {
            match self.read_payload() {
                Err(e) => {
                    return Err(e);
                },
                Ok(None) => {
                    return Ok(None);
                },
                Ok(Some(payload)) => match decode_known(payload.as_slice()) {
                    Err(e) => {
                        return Err(e);
                    },
                    Ok(Some(frame)) => {
                        return Ok(Some(frame));
                    },
                    Ok(None) => {
                        proof {
                            use_type_invariant(&*self);
                        }
                        self.skipped = self.skipped + 1;
                    },
                },
            }
        }
    }

    /// Read one length-prefixed payload, or `None` at a clean end.
    fn read_payload(&mut self) -> (r: Result<Option<Vec<u8>>, Error>)
        ensures
            final(self).skips() == old(self).skips(),
            ({
                let (out, rest) = layout::payload_in(old(self).unread());
                &&& final(self).unread() == rest
                &&& match out {
                    Ok(f) => r matches Ok(x) && seqs::opt_view(x) == f,
                    Err(t) => r matches Err(e) && e@ == ErrorView::Message(t),
                }
                &&& r matches Ok(Some(_)) ==> rest.len() < old(self).unread().len()
            }),
    {
        proof {
            use_type_invariant(&*self);
        }
        let ghost here = self.unread();
        let have: usize = self.buf.len() - self.at;
        if have == 0 {
            return Ok(None);
        }
        if have < LENGTH_PREFIX_BYTES {
            self.at = self.buf.len();
            assert(self.unread() =~= Seq::<u8>::empty());
            return Err(
                Error::Message(
                    String::from_str(
                        "failed to read a replication frame length: failed to fill whole buffer",
                    ),
                ),
            );
        }
        let body_at: usize = self.at + LENGTH_PREFIX_BYTES;
        let prefix = slice_subrange(self.buf.as_slice(), self.at, body_at);
        assert(prefix@ =~= here.take(4));
        let len = u32_of(prefix) as usize;
        assert(self.buf@.skip(body_at as int) =~= here.skip(4));
        // Checked before anything is made of that length, which is the reason
        // the limit exists.
        if len > MAX_FRAME_BYTES {
            self.at = body_at;
            return Err(
                over_limit(
                    "a replication frame claims ",
                    len as u64,
                    " bytes, above the ",
                    MAX_FRAME_BYTES as u64,
                ),
            );
        }
        if self.buf.len() - body_at < len {
            self.at = self.buf.len();
            assert(self.unread() =~= Seq::<u8>::empty());
            let mut s = String::from_str("failed to read a ");
            append_number(&mut s, len as u64);
            s.append("-byte replication frame: failed to fill whole buffer");
            return Err(Error::Message(s));
        }
        let end: usize = body_at + len;
        let payload = slice_to_vec(slice_subrange(self.buf.as_slice(), body_at, end));
        assert(payload@ =~= here.skip(4).take(len as int));
        assert(self.buf@.skip(end as int) =~= here.skip(4).skip(len as int));
        self.at = end;
        Ok(Some(payload))
    }
}

/// Write the preamble. Call once, before the first frame.
pub fn write_preamble(out: &mut Vec<u8>) -> (r: Result<(), Error>)
    ensures
        r is Ok,
        final(out)@ == old(out)@ + preamble(),
{
    append_bytes(out, magic().as_slice());
    append_bytes(out, bytes_of_u16(PROTOCOL_VERSION).as_slice());
    proof {
        lemma_assoc(old(out)@, magic_bytes(), little_endian::le16(PROTOCOL_VERSION));
    }
    Ok(())
}

} // verus!
