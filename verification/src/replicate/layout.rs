//! What the bytes of a frame are, and what a payload reads as.
//!
//! Integers are little-endian. Bytes and text are a `u32` length and then the
//! bytes; a map is a `u32` count and then its pairs in key order; a value that
//! may be absent is a presence byte and then the value.

use vstd::prelude::*;
use vstd::utf8::*;

use crate::db::{SegmentMeta, WalView};
use crate::replicate::frame::{FrameView, IndexKind};
use crate::replicate::little_endian;
use crate::text;
use crate::text_map;
use crate::text_map::Entry;

verus! {

/// The most bytes a frame's payload may have.
pub open spec fn limit() -> nat {
    64 * 1024 * 1024
}

/// A `u32`, little-endian.
pub open spec fn put32(v: u32) -> Seq<u8> {
    little_endian::le32(v)
}

/// A `u64`, little-endian.
pub open spec fn put64(v: u64) -> Seq<u8> {
    little_endian::le64(v)
}

/// An `i64`, little-endian in two's complement.
pub open spec fn put_signed(v: i64) -> Seq<u8> {
    little_endian::le64(little_endian::complement(v))
}

/// A length, and the bytes.
pub open spec fn put_blob(v: Seq<u8>) -> Seq<u8> {
    put32(v.len() as u32) + v
}

/// Text: the length of its UTF-8 bytes, and those.
pub open spec fn put_text(t: Seq<char>) -> Seq<u8> {
    put_blob(encode_utf8(t))
}

/// Pairs, one after the other.
pub open spec fn put_pairs(e: Seq<Entry>) -> Seq<u8>
    decreases e.len(),
{
    if e.len() == 0 {
        Seq::empty()
    } else {
        put_pairs(e.drop_last()) + put_text(e.last().0) + put_text(e.last().1)
    }
}

/// A map: how many pairs, and those.
pub open spec fn put_entries(e: Seq<Entry>) -> Seq<u8> {
    put32(e.len() as u32) + put_pairs(e)
}

/// Bytes that may be absent.
pub open spec fn put_maybe(v: Option<Seq<u8>>) -> Seq<u8> {
    match v {
        None => seq![0u8],
        Some(b) => seq![1u8] + put_blob(b),
    }
}

/// Text that may be absent.
pub open spec fn put_maybe_text(v: Option<Seq<char>>) -> Seq<u8> {
    match v {
        None => put_maybe(None),
        Some(t) => put_maybe(Some(encode_utf8(t))),
    }
}

/// One row.
pub open spec fn put_row(r: WalView) -> Seq<u8> {
    put_text(r.stream) + put_signed(r.ts) + put_signed(r.wall_offset) + put_blob(r.row)
}

/// Rows, one after the other.
pub open spec fn put_rows(rows: Seq<WalView>) -> Seq<u8>
    decreases rows.len(),
{
    if rows.len() == 0 {
        Seq::empty()
    } else {
        put_rows(rows.drop_last()) + put_row(rows.last())
    }
}

/// The byte of a yes or a no.
pub open spec fn flag(b: bool) -> u8 {
    if b {
        1
    } else {
        0
    }
}

/// The byte of an index kind.
pub open spec fn kind_byte(k: IndexKind) -> u8 {
    match k {
        IndexKind::Full => 0,
        IndexKind::Delta => 1,
    }
}

/// A frame's payload: its kind byte, then its fields.
pub open spec fn payload(f: FrameView) -> Seq<u8> {
    match f {
        FrameView::Handshake {
            source,
            uuid,
            labels,
            metadata,
            clock_anchor_wall_ns,
            complete,
        } => seq![1u8] + put32(source) + put_maybe_text(uuid) + put_entries(labels) + put_entries(
            metadata,
        ) + put_signed(clock_anchor_wall_ns) + seq![flag(complete)],
        FrameView::Index { source, stream, ts, kind, state, blob } => seq![2u8] + put32(source)
            + put_text(stream) + put_signed(ts) + seq![kind_byte(kind)] + put64(state.0) + put64(
            state.1,
        ) + put_blob(blob),
        FrameView::Rows { source, seq, index_state, rows } => seq![3u8] + put32(source) + put64(seq)
            + put64(index_state.0) + put64(index_state.1) + put32(rows.len() as u32) + put_rows(
            rows,
        ),
        FrameView::Segment { source, stream, meta, bytes, caller_index } => seq![4u8] + put32(
            source,
        ) + put_text(stream) + put64(meta.rows) + put_signed(meta.first_ts) + put_signed(
            meta.last_ts,
        ) + put_blob(bytes) + put_maybe(caller_index),
        FrameView::ClockOffset { source, ts, offset_ns } => seq![5u8] + put32(source) + put_signed(
            ts,
        ) + put_signed(offset_ns),
        FrameView::StreamSummary { source, stream, as_of_ts, blob } => seq![6u8] + put32(source)
            + put_text(stream) + put_signed(as_of_ts) + put_blob(blob),
    }
}

/// A frame's bytes: the length of its payload, and that.
pub open spec fn whole(f: FrameView) -> Seq<u8> {
    put32(payload(f).len() as u32) + payload(f)
}

/// The bytes of frames, one after the other.
pub open spec fn wholes(fs: Seq<FrameView>) -> Seq<u8>
    decreases fs.len(),
{
    if fs.len() == 0 {
        Seq::empty()
    } else {
        whole(fs[0]) + wholes(fs.skip(1))
    }
}

/// Whether a frame's maps have their keys in order, as every map has.
pub open spec fn well_keyed(f: FrameView) -> bool {
    match f {
        FrameView::Handshake { labels, metadata, .. } => text_map::ascending(labels)
            && text_map::ascending(metadata),
        _ => true,
    }
}

// ------------------------------------------------------------ what is refused

/// The refusal of a field too long for its length to be written.
pub open spec fn blob_too_long(n: nat) -> Option<Seq<char>> {
    if n > u32::MAX {
        Some("a replication field of "@ + text::decimal(n) + " bytes is too large to encode"@)
    } else {
        None
    }
}

/// The first refusal of two.
pub open spec fn first(a: Option<Seq<char>>, b: Option<Seq<char>>) -> Option<Seq<char>> {
    if a is Some {
        a
    } else {
        b
    }
}

/// The first refusal among the texts of pairs.
pub open spec fn pairs_too_long(e: Seq<Entry>) -> Option<Seq<char>>
    decreases e.len(),
{
    if e.len() == 0 {
        None
    } else {
        first(
            pairs_too_long(e.drop_last()),
            first(
                blob_too_long(encode_utf8(e.last().0).len()),
                blob_too_long(encode_utf8(e.last().1).len()),
            ),
        )
    }
}

/// The first refusal of a map.
pub open spec fn entries_too_long(e: Seq<Entry>) -> Option<Seq<char>> {
    if e.len() > u32::MAX {
        Some("a replication map is too large to encode"@)
    } else {
        pairs_too_long(e)
    }
}

/// The refusal of bytes that may be absent.
pub open spec fn maybe_too_long(v: Option<Seq<u8>>) -> Option<Seq<char>> {
    match v {
        None => None,
        Some(b) => blob_too_long(b.len()),
    }
}

/// The first refusal among rows.
pub open spec fn rows_too_long(rows: Seq<WalView>) -> Option<Seq<char>>
    decreases rows.len(),
{
    if rows.len() == 0 {
        None
    } else {
        first(
            rows_too_long(rows.drop_last()),
            first(
                blob_too_long(encode_utf8(rows.last().stream).len()),
                blob_too_long(rows.last().row.len()),
            ),
        )
    }
}

/// The first field of a frame whose length cannot be written, as its refusal.
pub open spec fn too_long(f: FrameView) -> Option<Seq<char>> {
    match f {
        FrameView::Handshake { uuid, labels, metadata, .. } => first(
            match uuid {
                None => None,
                Some(t) => blob_too_long(encode_utf8(t).len()),
            },
            first(entries_too_long(labels), entries_too_long(metadata)),
        ),
        FrameView::Index { stream, blob, .. } => first(
            blob_too_long(encode_utf8(stream).len()),
            blob_too_long(blob.len()),
        ),
        FrameView::Rows { rows, .. } => if rows.len() > u32::MAX {
            Some("a replication frame holds too many rows to encode"@)
        } else {
            rows_too_long(rows)
        },
        FrameView::Segment { stream, bytes, caller_index, .. } => first(
            blob_too_long(encode_utf8(stream).len()),
            first(blob_too_long(bytes.len()), maybe_too_long(caller_index)),
        ),
        FrameView::ClockOffset { .. } => None,
        FrameView::StreamSummary { stream, blob, .. } => first(
            blob_too_long(encode_utf8(stream).len()),
            blob_too_long(blob.len()),
        ),
    }
}

// ------------------------------------------------------------ what is read

/// What reading gives: a value and the bytes after it, or the refusal.
pub type Reading<T> = Result<(T, Seq<u8>), Seq<char>>;

/// The sentence of a payload that is no frame.
pub open spec fn malformed(what: Seq<char>) -> Seq<char> {
    "malformed replication frame: "@ + what
}

/// The sentence of a payload that ends early.
pub open spec fn ends_early(wanted: nat, left: nat) -> Seq<char> {
    malformed(
        "it ends early: "@ + text::decimal(wanted) + " more byte(s) wanted, "@ + text::decimal(left)
            + " left"@,
    )
}

/// So many bytes.
pub open spec fn get_raw(s: Seq<u8>, n: nat) -> Reading<Seq<u8>> {
    if n > s.len() {
        Err(ends_early(n, s.len()))
    } else {
        Ok((s.take(n as int), s.skip(n as int)))
    }
}

/// One byte.
pub open spec fn get8(s: Seq<u8>) -> Reading<u8> {
    match get_raw(s, 1) {
        Ok((b, rest)) => Ok((b[0], rest)),
        Err(t) => Err(t),
    }
}

/// A `u32`.
pub open spec fn get32(s: Seq<u8>) -> Reading<u32> {
    match get_raw(s, 4) {
        Ok((b, rest)) => Ok((little_endian::of32(b), rest)),
        Err(t) => Err(t),
    }
}

/// A `u64`.
pub open spec fn get64(s: Seq<u8>) -> Reading<u64> {
    match get_raw(s, 8) {
        Ok((b, rest)) => Ok((little_endian::of64(b), rest)),
        Err(t) => Err(t),
    }
}

/// An `i64`.
pub open spec fn get_signed(s: Seq<u8>) -> Reading<i64> {
    match get64(s) {
        Ok((v, rest)) => Ok((little_endian::signed(v), rest)),
        Err(t) => Err(t),
    }
}

/// A pair of `u64`.
pub open spec fn get_state(s: Seq<u8>) -> Reading<(u64, u64)> {
    match get64(s) {
        Ok((a, rest)) => match get64(rest) {
            Ok((b, rest)) => Ok(((a, b), rest)),
            Err(t) => Err(t),
        },
        Err(t) => Err(t),
    }
}

/// Bytes.
pub open spec fn get_blob(s: Seq<u8>) -> Reading<Seq<u8>> {
    match get32(s) {
        Ok((n, rest)) => get_raw(rest, n as nat),
        Err(t) => Err(t),
    }
}

/// Text.
pub open spec fn get_text(s: Seq<u8>) -> Reading<Seq<char>> {
    match get_blob(s) {
        Ok((raw, rest)) => if valid_utf8(raw) {
            Ok((decode_utf8(raw), rest))
        } else {
            Err(malformed("a string field is not UTF-8"@))
        },
        Err(t) => Err(t),
    }
}

/// So many pairs, put one by one: a key that comes again stands for what it
/// came with last.
pub open spec fn get_pairs(s: Seq<u8>, n: nat) -> Reading<Seq<Entry>>
    decreases n,
{
    if n == 0 {
        Ok((Seq::empty(), s))
    } else {
        match get_pairs(s, (n - 1) as nat) {
            Ok((e, rest)) => match get_text(rest) {
                Ok((k, rest)) => match get_text(rest) {
                    Ok((v, rest)) => Ok((text_map::put_entry(e, k, v), rest)),
                    Err(t) => Err(t),
                },
                Err(t) => Err(t),
            },
            Err(t) => Err(t),
        }
    }
}

/// A map.
pub open spec fn get_entries(s: Seq<u8>) -> Reading<Seq<Entry>> {
    match get32(s) {
        Ok((n, rest)) => get_pairs(rest, n as nat),
        Err(t) => Err(t),
    }
}

/// Bytes that may be absent.
pub open spec fn get_maybe(s: Seq<u8>) -> Reading<Option<Seq<u8>>> {
    match get8(s) {
        Ok((b, rest)) => if b == 0 {
            Ok((None, rest))
        } else if b == 1 {
            match get_blob(rest) {
                Ok((v, rest)) => Ok((Some(v), rest)),
                Err(t) => Err(t),
            }
        } else {
            Err(malformed(text::decimal(b as nat) + " is not a presence byte; it is 0 or 1"@))
        },
        Err(t) => Err(t),
    }
}

/// A uuid that may be absent.
pub open spec fn get_uuid(s: Seq<u8>) -> Reading<Option<Seq<char>>> {
    match get_maybe(s) {
        Ok((None, rest)) => Ok((None, rest)),
        Ok((Some(raw), rest)) => if valid_utf8(raw) {
            Ok((Some(decode_utf8(raw)), rest))
        } else {
            Err(malformed("a uuid is not UTF-8"@))
        },
        Err(t) => Err(t),
    }
}

/// A yes or a no.
pub open spec fn get_bool(s: Seq<u8>) -> Reading<bool> {
    match get8(s) {
        Ok((b, rest)) => if b == 0 {
            Ok((false, rest))
        } else if b == 1 {
            Ok((true, rest))
        } else {
            Err(malformed(text::decimal(b as nat) + " is not a boolean; it is 0 or 1"@))
        },
        Err(t) => Err(t),
    }
}

/// An index kind.
pub open spec fn get_kind(s: Seq<u8>) -> Reading<IndexKind> {
    match get8(s) {
        Ok((b, rest)) => if b == 0 {
            Ok((IndexKind::Full, rest))
        } else if b == 1 {
            Ok((IndexKind::Delta, rest))
        } else {
            Err(malformed(text::decimal(b as nat) + " is not an index kind"@))
        },
        Err(t) => Err(t),
    }
}

/// One row.
pub open spec fn get_row(s: Seq<u8>) -> Reading<WalView> {
    match get_text(s) {
        Ok((stream, rest)) => match get_signed(rest) {
            Ok((ts, rest)) => match get_signed(rest) {
                Ok((wall_offset, rest)) => match get_blob(rest) {
                    Ok((row, rest)) => Ok((WalView { stream, ts, wall_offset, row }, rest)),
                    Err(t) => Err(t),
                },
                Err(t) => Err(t),
            },
            Err(t) => Err(t),
        },
        Err(t) => Err(t),
    }
}

/// So many rows.
pub open spec fn get_rows(s: Seq<u8>, n: nat) -> Reading<Seq<WalView>>
    decreases n,
{
    if n == 0 {
        Ok((Seq::empty(), s))
    } else {
        match get_rows(s, (n - 1) as nat) {
            Ok((rows, rest)) => match get_row(rest) {
                Ok((row, rest)) => Ok((rows.push(row), rest)),
                Err(t) => Err(t),
            },
            Err(t) => Err(t),
        }
    }
}

/// The fields of a handshake.
pub open spec fn get_handshake(s: Seq<u8>) -> Reading<FrameView> {
    match get32(s) {
        Ok((source, rest)) => match get_uuid(rest) {
            Ok((uuid, rest)) => match get_entries(rest) {
                Ok((labels, rest)) => match get_entries(rest) {
                    Ok((metadata, rest)) => match get_signed(rest) {
                        Ok((clock_anchor_wall_ns, rest)) => match get_bool(rest) {
                            Ok((complete, rest)) => Ok(
                                (
                                    FrameView::Handshake {
                                        source,
                                        uuid,
                                        labels,
                                        metadata,
                                        clock_anchor_wall_ns,
                                        complete,
                                    },
                                    rest,
                                ),
                            ),
                            Err(t) => Err(t),
                        },
                        Err(t) => Err(t),
                    },
                    Err(t) => Err(t),
                },
                Err(t) => Err(t),
            },
            Err(t) => Err(t),
        },
        Err(t) => Err(t),
    }
}

/// The fields of an index entry.
pub open spec fn get_index(s: Seq<u8>) -> Reading<FrameView> {
    match get32(s) {
        Ok((source, rest)) => match get_text(rest) {
            Ok((stream, rest)) => match get_signed(rest) {
                Ok((ts, rest)) => match get_kind(rest) {
                    Ok((kind, rest)) => match get_state(rest) {
                        Ok((state, rest)) => match get_blob(rest) {
                            Ok((blob, rest)) => Ok(
                                (
                                    FrameView::Index { source, stream, ts, kind, state, blob },
                                    rest,
                                ),
                            ),
                            Err(t) => Err(t),
                        },
                        Err(t) => Err(t),
                    },
                    Err(t) => Err(t),
                },
                Err(t) => Err(t),
            },
            Err(t) => Err(t),
        },
        Err(t) => Err(t),
    }
}

/// The fields of a frame of rows.
pub open spec fn get_rows_frame(s: Seq<u8>) -> Reading<FrameView> {
    match get32(s) {
        Ok((source, rest)) => match get64(rest) {
            Ok((seq, rest)) => match get_state(rest) {
                Ok((index_state, rest)) => match get32(rest) {
                    Ok((n, rest)) => match get_rows(rest, n as nat) {
                        Ok((rows, rest)) => Ok(
                            (FrameView::Rows { source, seq, index_state, rows }, rest),
                        ),
                        Err(t) => Err(t),
                    },
                    Err(t) => Err(t),
                },
                Err(t) => Err(t),
            },
            Err(t) => Err(t),
        },
        Err(t) => Err(t),
    }
}

/// The catalog facts of a segment.
pub open spec fn get_meta(s: Seq<u8>) -> Reading<SegmentMeta> {
    match get64(s) {
        Ok((rows, rest)) => match get_signed(rest) {
            Ok((first_ts, rest)) => match get_signed(rest) {
                Ok((last_ts, rest)) => Ok((SegmentMeta { rows, first_ts, last_ts }, rest)),
                Err(t) => Err(t),
            },
            Err(t) => Err(t),
        },
        Err(t) => Err(t),
    }
}

/// The fields of a segment.
pub open spec fn get_segment(s: Seq<u8>) -> Reading<FrameView> {
    match get32(s) {
        Ok((source, rest)) => match get_text(rest) {
            Ok((stream, rest)) => match get_meta(rest) {
                Ok((meta, rest)) => match get_blob(rest) {
                    Ok((bytes, rest)) => match get_maybe(rest) {
                        Ok((caller_index, rest)) => Ok(
                            (
                                FrameView::Segment { source, stream, meta, bytes, caller_index },
                                rest,
                            ),
                        ),
                        Err(t) => Err(t),
                    },
                    Err(t) => Err(t),
                },
                Err(t) => Err(t),
            },
            Err(t) => Err(t),
        },
        Err(t) => Err(t),
    }
}

/// The fields of a clock observation.
pub open spec fn get_clock_offset(s: Seq<u8>) -> Reading<FrameView> {
    match get32(s) {
        Ok((source, rest)) => match get_signed(rest) {
            Ok((ts, rest)) => match get_signed(rest) {
                Ok((offset_ns, rest)) => Ok(
                    (FrameView::ClockOffset { source, ts, offset_ns }, rest),
                ),
                Err(t) => Err(t),
            },
            Err(t) => Err(t),
        },
        Err(t) => Err(t),
    }
}

/// The fields of a stream's summary.
pub open spec fn get_stream_summary(s: Seq<u8>) -> Reading<FrameView> {
    match get32(s) {
        Ok((source, rest)) => match get_text(rest) {
            Ok((stream, rest)) => match get_signed(rest) {
                Ok((as_of_ts, rest)) => match get_blob(rest) {
                    Ok((blob, rest)) => Ok(
                        (FrameView::StreamSummary { source, stream, as_of_ts, blob }, rest),
                    ),
                    Err(t) => Err(t),
                },
                Err(t) => Err(t),
            },
            Err(t) => Err(t),
        },
        Err(t) => Err(t),
    }
}

/// The fields of a frame of a kind, where the kind is known.
pub open spec fn get_fields(kind: u8, s: Seq<u8>) -> Option<Reading<FrameView>> {
    if kind == 1 {
        Some(get_handshake(s))
    } else if kind == 2 {
        Some(get_index(s))
    } else if kind == 3 {
        Some(get_rows_frame(s))
    } else if kind == 4 {
        Some(get_segment(s))
    } else if kind == 5 {
        Some(get_clock_offset(s))
    } else if kind == 6 {
        Some(get_stream_summary(s))
    } else {
        None
    }
}

/// What a payload reads as: a frame, nothing where its kind is not known, or
/// the refusal. Every byte of a known frame is read.
#[verifier::opaque]
pub open spec fn decoded(p: Seq<u8>) -> Result<Option<FrameView>, Seq<char>> {
    match get8(p) {
        Err(t) => Err(t),
        Ok((kind, rest)) => match get_fields(kind, rest) {
            None => Ok(None),
            Some(Err(t)) => Err(t),
            Some(Ok((f, rest))) => if rest.len() == 0 {
                Ok(Some(f))
            } else {
                Err(malformed(text::decimal(rest.len()) + " trailing byte(s) after its fields"@))
            },
        },
    }
}

/// The sentence of a payload whose kind is not known.
pub open spec fn unknown_kind(kind: u8) -> Seq<char> {
    malformed(text::decimal(kind as nat) + " is not a frame kind this build reads"@)
}

// ------------------------------------------------------------ a stream

/// The sentence of a stream that ends inside its preamble.
pub open spec fn preamble_cut() -> Seq<char> {
    "failed to read the replication preamble: failed to fill whole buffer"@
}

/// The sentence of a stream that ends inside a frame's length.
pub open spec fn length_cut() -> Seq<char> {
    "failed to read a replication frame length: failed to fill whole buffer"@
}

/// The sentence of a stream that ends inside a frame of so many bytes.
pub open spec fn frame_cut(n: nat) -> Seq<char> {
    "failed to read a "@ + text::decimal(n)
        + "-byte replication frame: failed to fill whole buffer"@
}

/// The sentence of a frame that claims more bytes than the limit.
pub open spec fn claims_too_much(n: nat) -> Seq<char> {
    crate::error::over_limit_text("a replication frame claims "@, n, " bytes, above the "@, limit())
}

/// The next payload of a stream's bytes (nothing at a clean end), and the
/// bytes after it.
pub open spec fn payload_in(s: Seq<u8>) -> (Result<Option<Seq<u8>>, Seq<char>>, Seq<u8>) {
    if s.len() == 0 {
        (Ok(None), s)
    } else if s.len() < 4 {
        (Err(length_cut()), Seq::empty())
    } else {
        let n = little_endian::of32(s.take(4));
        let body = s.skip(4);
        if n > limit() {
            (Err(claims_too_much(n as nat)), body)
        } else if body.len() < n {
            (Err(frame_cut(n as nat)), Seq::empty())
        } else {
            (Ok(Some(body.take(n as int))), body.skip(n as int))
        }
    }
}

/// The next frame of a stream's bytes: what it is (nothing at a clean end),
/// the bytes after it, and how many frames of an unknown kind were skipped.
pub open spec fn next_in(s: Seq<u8>) -> (Result<Option<FrameView>, Seq<char>>, Seq<u8>, nat)
    decreases s.len(),
{
    let (found, rest) = payload_in(s);
    match found {
        Err(t) => (Err(t), rest, 0),
        Ok(None) => (Ok(None), rest, 0),
        Ok(Some(p)) => match decoded(p) {
            Err(t) => (Err(t), rest, 0),
            Ok(Some(f)) => (Ok(Some(f)), rest, 0),
            Ok(None) => if rest.len() < s.len() {
                let (r, left, k) = next_in(rest);
                (r, left, k + 1)
            } else {
                (Ok(None), rest, 0)
            },
        },
    }
}

/// How many bytes more a stream's next frame needs, or the refusal of its
/// length.
pub open spec fn missing_from(s: Seq<u8>) -> Result<nat, Seq<char>> {
    if s.len() < 4 {
        Ok((4 - s.len()) as nat)
    } else {
        let n = little_endian::of32(s.take(4));
        if n > limit() {
            Err(claims_too_much(n as nat))
        } else if s.len() < 4 + n {
            Ok((4 + n - s.len()) as nat)
        } else {
            Ok(0)
        }
    }
}

} // verus!
