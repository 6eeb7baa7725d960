//! Integers as bytes, the least significant first.

use vstd::prelude::*;
use vstd::slice::slice_subrange;

verus! {

// ------------------------------------------------------------ what the bytes are

/// A `u16` as two bytes.
pub open spec fn le16(v: u16) -> Seq<u8> {
    seq![(v % 0x100) as u8, (v / 0x100) as u8]
}

/// A `u32` as four bytes.
pub open spec fn le32(v: u32) -> Seq<u8> {
    seq![
        (v % 0x100) as u8,
        ((v / 0x100) % 0x100) as u8,
        ((v / 0x10000) % 0x100) as u8,
        (v / 0x1000000) as u8,
    ]
}

/// A `u64` as eight bytes: those of its low half, and those of its high half.
pub open spec fn le64(v: u64) -> Seq<u8> {
    le32((v % 0x1_0000_0000) as u32) + le32((v / 0x1_0000_0000) as u32)
}

/// The number that an `i64` is in two's complement.
pub open spec fn complement(v: i64) -> u64 {
    if v < 0 {
        (v + 0x1_0000_0000_0000_0000) as u64
    } else {
        v as u64
    }
}

/// The `i64` that a number is in two's complement.
pub open spec fn signed(v: u64) -> i64 {
    if v > i64::MAX {
        (v - 0x1_0000_0000_0000_0000) as i64
    } else {
        v as i64
    }
}

/// The `u16` of two bytes.
pub open spec fn of16(s: Seq<u8>) -> u16 {
    (s[0] + s[1] * 0x100) as u16
}

/// The `u32` of four bytes.
pub open spec fn of32(s: Seq<u8>) -> u32 {
    (s[0] + s[1] * 0x100 + s[2] * 0x10000 + s[3] * 0x1000000) as u32
}

/// The `u64` of eight bytes.
pub open spec fn of64(s: Seq<u8>) -> u64 {
    (of32(s.take(4)) + of32(s.skip(4)) * 0x1_0000_0000) as u64
}

// ------------------------------------------------------------ there and back

/// Two bytes give back the number they were written from.
pub proof fn lemma_of16(v: u16)
    ensures
        le16(v).len() == 2,
        of16(le16(v)) == v,
{
}

/// Four bytes give back the number they were written from.
pub proof fn lemma_of32(v: u32)
    ensures
        le32(v).len() == 4,
        of32(le32(v)) == v,
{
    assert(v == v % 0x100 + ((v / 0x100) % 0x100) * 0x100 + ((v / 0x10000) % 0x100) * 0x10000 + (v
        / 0x1000000) * 0x1000000);
}

/// Eight bytes give back the number they were written from.
pub proof fn lemma_of64(v: u64)
    ensures
        le64(v).len() == 8,
        of64(le64(v)) == v,
{
    let low = (v % 0x1_0000_0000) as u32;
    let high = (v / 0x1_0000_0000) as u32;
    lemma_of32(low);
    lemma_of32(high);
    assert(le64(v).take(4) =~= le32(low));
    assert(le64(v).skip(4) =~= le32(high));
}

/// Two's complement gives back the number it was taken of.
pub proof fn lemma_signed(v: i64)
    ensures
        signed(complement(v)) == v,
{
}

// ------------------------------------------------------------ writing and reading

/// A `u16` as two bytes.
pub fn bytes_of_u16(v: u16) -> (r: Vec<u8>)
    ensures
        r@ == le16(v),
{
    let r: Vec<u8> = vec![(v % 0x100) as u8, (v / 0x100) as u8];
    assert(r@ =~= le16(v));
    r
}

/// A `u32` as four bytes.
pub fn bytes_of_u32(v: u32) -> (r: Vec<u8>)
    ensures
        r@ == le32(v),
{
    let r: Vec<u8> = vec![
        (v % 0x100) as u8,
        ((v / 0x100) % 0x100) as u8,
        ((v / 0x10000) % 0x100) as u8,
        (v / 0x1000000) as u8,
    ];
    assert(r@ =~= le32(v));
    r
}

/// A `u64` as eight bytes.
pub fn bytes_of_u64(v: u64) -> (r: Vec<u8>)
    ensures
        r@ == le64(v),
{
    let mut r = bytes_of_u32((v % 0x1_0000_0000) as u32);
    let mut high = bytes_of_u32((v / 0x1_0000_0000) as u32);
    r.append(&mut high);
    r
}

/// An `i64` as eight bytes, in two's complement.
pub fn bytes_of_i64(v: i64) -> (r: Vec<u8>)
    ensures
        r@ == le64(complement(v)),
{
    let w: u64 = if v < 0 {
        (v as i128 + 0x1_0000_0000_0000_0000) as u64
    } else {
        v as u64
    };
    bytes_of_u64(w)
}

/// The `u16` of two bytes.
pub fn u16_of(s: &[u8]) -> (r: u16)
    requires
        s@.len() == 2,
    ensures
        r == of16(s@),
{
    s[0] as u16 + s[1] as u16 * 0x100
}

/// The `u32` of four bytes.
pub fn u32_of(s: &[u8]) -> (r: u32)
    requires
        s@.len() == 4,
    ensures
        r == of32(s@),
{
    s[0] as u32 + s[1] as u32 * 0x100 + s[2] as u32 * 0x10000 + s[3] as u32 * 0x1000000
}

/// The `u64` of eight bytes.
pub fn u64_of(s: &[u8]) -> (r: u64)
    requires
        s@.len() == 8,
    ensures
        r == of64(s@),
{
    let low = u32_of(slice_subrange(s, 0, 4));
    let high = u32_of(slice_subrange(s, 4, 8));
    proof {
        assert(s@.subrange(0, 4) =~= s@.take(4));
        assert(s@.subrange(4, 8) =~= s@.skip(4));
    }
    low as u64 + high as u64 * 0x1_0000_0000
}

/// The `i64` that a number is in two's complement.
pub fn signed_of(v: u64) -> (r: i64)
    ensures
        r == signed(v),
{
    if v > i64::MAX as u64 {
        (v as i128 - 0x1_0000_0000_0000_0000) as i64
    } else {
        v as i64
    }
}

} // verus!
