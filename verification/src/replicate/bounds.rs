//! Which frames can be sent, and which bytes are taken.

use vstd::prelude::*;
use vstd::utf8::*;

use super::frame::FrameView;
use super::layout;
use super::little_endian;
use super::wire;
use crate::db::WalView;
use crate::text_map::Entry;

verus! {

proof fn lemma_pairs_long(e: Seq<Entry>)
    ensures
        layout::put_pairs(e).len() >= 8 * e.len(),
        layout::pairs_too_long(e) is Some ==> layout::put_pairs(e).len() > u32::MAX,
    decreases e.len(),
{
    if e.len() > 0 {
        lemma_pairs_long(e.drop_last());
        let (k, v) = (encode_utf8(e.last().0), encode_utf8(e.last().1));
        little_endian::lemma_of32(k.len() as u32);
        little_endian::lemma_of32(v.len() as u32);
    }
}

proof fn lemma_rows_long(rows: Seq<WalView>)
    ensures
        layout::put_rows(rows).len() >= rows.len(),
        layout::rows_too_long(rows) is Some ==> layout::put_rows(rows).len() > u32::MAX,
    decreases rows.len(),
{
    if rows.len() > 0 {
        lemma_rows_long(rows.drop_last());
        let r = rows.last();
        little_endian::lemma_of32(encode_utf8(r.stream).len() as u32);
        little_endian::lemma_of32(r.row.len() as u32);
        little_endian::lemma_of64(little_endian::complement(r.ts));
        little_endian::lemma_of64(little_endian::complement(r.wall_offset));
    }
}

/// A frame can be sent exactly where its payload has sixty-four mebibytes at most: nothing
/// else of it is refused.
pub proof fn law_a_frame_is_refused_over_the_limit(f: FrameView)
    ensures
        wire::encode_refusal(f) is None <==> layout::payload(f).len() <= 64 * 1024 * 1024,
{
    match f {
        FrameView::Handshake { labels, metadata, .. } => {
            lemma_pairs_long(labels);
            lemma_pairs_long(metadata);
        },
        FrameView::Rows { rows, .. } => {
            lemma_rows_long(rows);
        },
        _ => {},
    }
}

/// A stream is taken exactly where it begins with the preamble that one is written with,
/// and what is read of it is what follows.
pub proof fn law_a_stream_is_taken_by_its_preamble(bytes: Seq<u8>)
    ensures
        wire::opened(bytes) is Ok <==> wire::preamble().is_prefix_of(bytes),
        wire::opened(bytes) matches Ok(rest) ==> bytes == wire::preamble() + rest,
        wire::preamble().len() == 14,
{
    let p = wire::preamble();
    little_endian::lemma_of16(wire::PROTOCOL_VERSION);
    if p.is_prefix_of(bytes) {
        assert(bytes.take(12) =~= wire::magic_bytes()) by {
            assert forall|i: int| 0 <= i < 12 implies bytes[i] == wire::magic_bytes()[i] by {
                assert(bytes.subrange(0, p.len() as int)[i] == p[i]);
            }
        }
        assert(bytes.subrange(12, 14) =~= little_endian::le16(wire::PROTOCOL_VERSION)) by {
            assert forall|i: int| 0 <= i < 2 implies bytes[12 + i] == little_endian::le16(
                wire::PROTOCOL_VERSION,
            )[i] by {
                assert(bytes.subrange(0, p.len() as int)[12 + i] == p[12 + i]);
            }
        }
    }
    if wire::opened(bytes) is Ok {
        let v = bytes.subrange(12, 14);
        assert(v[0] + v[1] * 0x100 == wire::PROTOCOL_VERSION);
        assert(v =~= little_endian::le16(wire::PROTOCOL_VERSION));
        assert forall|i: int| 0 <= i < 14 implies bytes[i] == p[i] by {
            if i < 12 {
                assert(bytes.take(12)[i] == bytes[i]);
            } else {
                assert(v[i - 12] == bytes[i]);
            }
        }
        assert(bytes.subrange(0, 14) =~= p);
        assert(bytes =~= p + bytes.skip(14));
    }
}

/// How much of a frame is missing is what is missing of its bytes: until its length has
/// come the rest of the length, from there on the rest of the frame, and nothing once it is
/// whole, whatever follows it.
pub proof fn law_what_is_missing_is_the_rest_of_the_frame(f: FrameView, cut: int, more: Seq<u8>)
    requires
        layout::payload(f).len() <= 64 * 1024 * 1024,
        0 <= cut <= layout::whole(f).len(),
    ensures
        layout::missing_from(layout::whole(f).take(cut)) == Ok::<nat, Seq<char>>(
            if cut < 4 {
                (4 - cut) as nat
            } else {
                (layout::whole(f).len() - cut) as nat
            },
        ),
        layout::missing_from(layout::whole(f) + more) == Ok::<nat, Seq<char>>(0),
{
    let n = layout::payload(f).len() as u32;
    let w = layout::whole(f);
    little_endian::lemma_of32(n);
    assert((w + more).take(4) =~= layout::put32(n));
    if cut >= 4 {
        assert(w.take(cut).take(4) =~= layout::put32(n));
    }
}

/// A frame that claims more than the limit is refused before anything of it is read, and
/// one that does not is not.
pub proof fn law_a_claim_over_the_limit_is_refused(n: u32, more: Seq<u8>)
    ensures
        layout::missing_from(layout::put32(n) + more) is Err <==> n > 64 * 1024 * 1024,
        n > 64 * 1024 * 1024 ==> layout::next_in(layout::put32(n) + more).0 is Err,
{
    little_endian::lemma_of32(n);
    assert((layout::put32(n) + more).take(4) =~= layout::put32(n));
}

// ------------------------------------------------------------ what stands where

/// What bytes are worth where the first is the least.
pub open spec fn worth(s: Seq<u8>) -> int
    decreases s.len(),
{
    if s.len() == 0 {
        0
    } else {
        s[0] + 256 * worth(s.skip(1))
    }
}

proof fn lemma_worth4(s: Seq<u8>)
    requires
        s.len() == 4,
    ensures
        worth(s) == s[0] + 0x100 * s[1] + 0x10000 * s[2] + 0x1000000 * s[3],
{
    reveal_with_fuel(worth, 5);
}

/// A number is written in so many bytes as its type has, the least of them first.
pub proof fn law_numbers_are_written_least_byte_first(a: u16, b: u32, c: u64)
    ensures
        little_endian::le16(a).len() == 2,
        worth(little_endian::le16(a)) == a,
        layout::put32(b).len() == 4,
        worth(layout::put32(b)) == b,
        layout::put64(c).len() == 8,
        worth(layout::put64(c).take(4)) + 0x1_0000_0000 * worth(layout::put64(c).skip(4)) == c,
{
    reveal_with_fuel(worth, 3);
    little_endian::lemma_of32(b);
    lemma_worth4(layout::put32(b));
    let low = (c % 0x1_0000_0000) as u32;
    let high = (c / 0x1_0000_0000) as u32;
    little_endian::lemma_of32(low);
    little_endian::lemma_of32(high);
    lemma_worth4(little_endian::le32(low));
    lemma_worth4(little_endian::le32(high));
    assert(layout::put64(c).take(4) =~= little_endian::le32(low));
    assert(layout::put64(c).skip(4) =~= little_endian::le32(high));
}

/// A number with a sign is written as the number it is short of, where it is below zero,
/// of two to the sixty-fourth, and as itself otherwise.
pub proof fn law_a_sign_is_written_in_twos_complement(v: i64)
    ensures
        layout::put_signed(v).len() == 8,
        worth(layout::put_signed(v).take(4)) + 0x1_0000_0000 * worth(layout::put_signed(v).skip(4))
            == v + if v < 0 {
            0x1_0000_0000_0000_0000int
        } else {
            0int
        },
{
    law_numbers_are_written_least_byte_first(0, 0, little_endian::complement(v));
}

/// The number that each kind of frame has on the wire.
pub open spec fn kind_of(f: FrameView) -> u8 {
    match f {
        FrameView::Handshake { .. } => 1,
        FrameView::Index { .. } => 2,
        FrameView::Rows { .. } => 3,
        FrameView::Segment { .. } => 4,
        FrameView::ClockOffset { .. } => 5,
        FrameView::StreamSummary { .. } => 6,
    }
}

/// The ordinal that a frame bears.
pub open spec fn borne_by(f: FrameView) -> u32 {
    match f {
        FrameView::Handshake { source, .. } => source,
        FrameView::Index { source, .. } => source,
        FrameView::Rows { source, .. } => source,
        FrameView::Segment { source, .. } => source,
        FrameView::ClockOffset { source, .. } => source,
        FrameView::StreamSummary { source, .. } => source,
    }
}

/// A frame is written as the length of its payload in four bytes and the payload, which
/// begins with the number of its kind and the ordinal of its source in four bytes.
pub proof fn law_a_frame_begins_with_its_length_kind_and_source(f: FrameView)
    requires
        layout::payload(f).len() <= u32::MAX,
    ensures
        ({
            let w = layout::whole(f);
            &&& w.len() >= 9
            &&& worth(w.take(4)) == w.len() - 4
            &&& w[4] == kind_of(f)
            &&& worth(w.subrange(5, 9)) == borne_by(f)
        }),
{
    let p = layout::payload(f);
    let w = layout::whole(f);
    law_numbers_are_written_least_byte_first(0, borne_by(f), 0);
    assert(p[0] == kind_of(f) && p.len() >= 5 && p.subrange(1, 5) =~= layout::put32(
        borne_by(f),
    ));
    law_numbers_are_written_least_byte_first(0, p.len() as u32, 0);
    assert(w.take(4) =~= layout::put32(p.len() as u32));
    assert(w.subrange(5, 9) =~= p.subrange(1, 5));
}

/// What a clock observation is written as, behind its kind and its source: the timestamp
/// and the offset, in eight bytes each.
pub proof fn law_an_observation_is_two_numbers(source: u32, ts: i64, offset_ns: i64)
    ensures
        ({
            let p = layout::payload(FrameView::ClockOffset { source, ts, offset_ns });
            &&& p.len() == 21
            &&& p.subrange(5, 13) == layout::put_signed(ts)
            &&& p.subrange(13, 21) == layout::put_signed(offset_ns)
        }),
{
    law_a_sign_is_written_in_twos_complement(ts);
    law_a_sign_is_written_in_twos_complement(offset_ns);
    let p = layout::payload(FrameView::ClockOffset { source, ts, offset_ns });
    assert(p.subrange(5, 13) =~= layout::put_signed(ts));
    assert(p.subrange(13, 21) =~= layout::put_signed(offset_ns));
}

/// A stream begins with the letters of its name, a zero byte and the version in two bytes.
pub proof fn law_the_preamble_is_a_name_and_a_version()
    ensures
        ({
            let p = wire::preamble();
            let name = "dendro-repl"@;
            &&& p.len() == name.len() + 3
            &&& forall|i: int| 0 <= i < name.len() ==> #[trigger] p[i] as int == name[i] as int
            &&& p[name.len() as int] == 0
            &&& worth(p.skip(name.len() as int + 1)) == wire::PROTOCOL_VERSION
        }),
{
    reveal_strlit("dendro-repl");
    law_numbers_are_written_least_byte_first(wire::PROTOCOL_VERSION, 0, 0);
    assert(wire::preamble().skip(12) =~= little_endian::le16(wire::PROTOCOL_VERSION));
}

} // verus!
