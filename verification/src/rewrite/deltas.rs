//! Whole numbers that are written as what each adds to the one before, and whether
//! `parquet` can decode them.

use vstd::prelude::*;

use super::footer;
use super::pages;
use super::pages::bits_at;

verus! {

/// How far apart block sizes lie.
pub const BLOCK: u64 = 128;

/// How far apart the sizes of a block's parts lie.
pub const PART: u64 = 32;

/// A number in at most ten bytes that fits in eight, and where it ends.
pub open spec fn long(b: Seq<u8>, at: int) -> Option<(nat, int)> {
    match footer::varint(b, at, 10) {
        Some((v, next)) => if v <= u64::MAX {
            Some((v, next))
        } else {
            None
        },
        None => None,
    }
}

/// The number that another stands for: they go up from zero by turns of sign.
pub open spec fn signed(n: nat) -> int {
    if n % 2 == 0 {
        (n / 2) as int
    } else {
        -((n + 1) / 2) as int
    }
}

/// What stands in front of the numbers.
pub struct Front {
    /// How many parts a block has.
    pub parts: nat,
    /// How many numbers a part has.
    pub each: nat,
    /// How many numbers there are.
    pub count: nat,
    /// The first of them.
    pub first: int,
    /// Where the blocks begin.
    pub next: int,
}

/// What stands in front of the numbers, where it is as it should be.
pub open spec fn front(b: Seq<u8>) -> Option<Front> {
    match long(b, 0) {
        None => None,
        Some((block, p)) => match long(b, p) {
            None => None,
            Some((parts, q)) => match long(b, q) {
                None => None,
                Some((count, r)) => match long(b, r) {
                    None => None,
                    Some((first, next)) => if block > 0 && parts > 0 && block % BLOCK as nat == 0
                        && block % parts == 0 && (block / parts) % PART as nat == 0 && count
                        <= u32::MAX {
                        Some(
                            Front { parts, each: block / parts, count, first: signed(first), next },
                        )
                    } else {
                        None
                    },
                },
            },
        },
    }
}

/// The last of some lengths that are packed side by side from a bit on, each as what
/// it adds to the one before and to a step. None of them is negative, or more than a
/// length can be.
pub open spec fn lengths_packed(
    b: Seq<u8>,
    at: int,
    width: nat,
    n: nat,
    last: int,
    step: int,
) -> Option<int>
    decreases n,
{
    if n == 0 {
        Some(last)
    } else {
        let x = last + step + pages::bits(b, at, width);
        if 0 <= x <= i32::MAX {
            lengths_packed(b, at + width, width, (n - 1) as nat, x, step)
        } else {
            None
        }
    }
}

/// Where a block's parts end, from one of them on, how many numbers are then left,
/// and the last length where the numbers are lengths. A part is there in full, also
/// where it has more numbers than are left; after the last number there is nothing.
pub open spec fn parts_end(
    b: Seq<u8>,
    widths: int,
    k: nat,
    f: Front,
    widest: nat,
    step: int,
    at: int,
    left: nat,
    last: Option<int>,
) -> Option<(int, nat, Option<int>)>
    decreases f.parts - k,
{
    if k >= f.parts || left == 0 {
        Some((at, left, last))
    } else {
        let width = b[widths + k] as nat;
        let end = at + width * (f.each / 8);
        let n = if f.each < left {
            f.each
        } else {
            left
        };
        if width > widest || end > b.len() {
            None
        } else {
            match last {
                None => parts_end(
                    b,
                    widths,
                    k + 1,
                    f,
                    widest,
                    step,
                    end,
                    (left - n) as nat,
                    None,
                ),
                Some(v) => match lengths_packed(b, 8 * at, width, n, v, step) {
                    None => None,
                    Some(x) => parts_end(
                        b,
                        widths,
                        k + 1,
                        f,
                        widest,
                        step,
                        end,
                        (left - n) as nat,
                        Some(x),
                    ),
                },
            }
        }
    }
}

/// Where blocks of so many numbers end: each has its step, the widths of its parts,
/// and the parts.
pub open spec fn blocks_end(
    b: Seq<u8>,
    f: Front,
    widest: nat,
    at: int,
    left: nat,
    last: Option<int>,
) -> Option<int>
    decreases left,
{
    if left == 0 {
        Some(at)
    } else {
        match long(b, at) {
            None => None,
            Some((step, next)) => if next + f.parts > b.len() {
                None
            } else {
                match parts_end(
                    b,
                    next,
                    0,
                    f,
                    widest,
                    signed(step),
                    next + f.parts,
                    left,
                    last,
                ) {
                    None => None,
                    Some((end, rest, x)) => if rest < left {
                        blocks_end(b, f, widest, end, rest, x)
                    } else {
                        None
                    },
                }
            },
        }
    }
}

/// Numbers written as differences, at the front of some bytes: how many there are,
/// and where they end. Where they are lengths, none is negative.
pub open spec fn differences(b: Seq<u8>, widest: nat, lengths: bool) -> Option<(nat, int)> {
    match front(b) {
        None => None,
        Some(f) => if f.count == 0 {
            Some((0, f.next))
        } else if lengths && !(0 <= f.first <= i32::MAX) {
            None
        } else {
            match blocks_end(
                b,
                f,
                widest,
                f.next,
                (f.count - 1) as nat,
                if lengths {
                    Some(f.first)
                } else {
                    None
                },
            ) {
                None => None,
                Some(end) => Some((f.count, end)),
            }
        },
    }
}

// ------------------------------------------------------------ looking at them

spec fn room(left: nat) -> nat
    decreases left,
{
    if left == 0 {
        1
    } else {
        0x80 * room((left - 1) as nat)
    }
}

fn take_wide(b: &[u8], at: usize, left: u8) -> (r: Option<(u128, usize)>)
    requires
        left <= 10,
    ensures
        match footer::varint(b@, at as int, left as nat) {
            Some((v, next)) => r matches Some((x, n)) && x == v && n == next && n <= b@.len() && x
                < room(left as nat),
            None => r is None,
        },
    decreases left,
{
    proof {
        reveal_with_fuel(room, 11);
    }
    if left == 0 || at >= b.len() {
        return None;
    }
    let x: u8 = b[at];
    if x < 0x80 {
        return Some((x as u128, at + 1));
    }
    match take_wide(b, at + 1, left - 1) {
        Some((v, next)) => Some(((x - 0x80) as u128 + 0x80 * v, next)),
        None => None,
    }
}

fn take_long(b: &[u8], at: usize) -> (r: Option<(u64, usize)>)
    ensures
        match long(b@, at as int) {
            Some((v, next)) => r matches Some((x, n)) && x == v && n == next && n <= b@.len(),
            None => r is None,
        },
{
    match take_wide(b, at, 10) {
        Some((v, next)) => if v <= 0xffff_ffff_ffff_ffff {
            Some((v as u64, next))
        } else {
            None
        },
        None => None,
    }
}

fn signed_of(n: u64) -> (r: i128)
    ensures
        r == signed(n as nat),
        -0x8000_0000_0000_0000 <= r < 0x8000_0000_0000_0000,
{
    if n % 2 == 0 {
        (n / 2) as i128
    } else {
        -((n as i128 + 1) / 2)
    }
}

struct Start {
    parts: u64,
    each: u64,
    count: u32,
    first: i128,
    next: usize,
}

impl Start {
    spec fn front(self) -> Front {
        Front {
            parts: self.parts as nat,
            each: self.each as nat,
            count: self.count as nat,
            first: self.first as int,
            next: self.next as int,
        }
    }
}

fn take_front(b: &[u8]) -> (r: Option<Start>)
    ensures
        match front(b@) {
            Some(f) => r matches Some(s) && s.front() == f && s.next <= b@.len() && s.each > 0,
            None => r is None,
        },
{
    let (block, p): (u64, usize) = match take_long(b, 0) {
        Some(x) => x,
        None => {
            return None;
        },
    };
    let (parts, q): (u64, usize) = match take_long(b, p) {
        Some(x) => x,
        None => {
            return None;
        },
    };
    let (count, r): (u64, usize) = match take_long(b, q) {
        Some(x) => x,
        None => {
            return None;
        },
    };
    let (first, next): (u64, usize) = match take_long(b, r) {
        Some(x) => x,
        None => {
            return None;
        },
    };
    if block == 0 || parts == 0 || block % BLOCK != 0 || block % parts != 0 || (block / parts)
        % PART != 0 || count > 0xffff_ffff {
        return None;
    }
    proof {
        assert(block / parts > 0) by (nonlinear_arith)
            requires
                block > 0,
                parts > 0,
                block % parts == 0,
        ;
    }
    Some(
        Start { parts, each: block / parts, count: count as u32, first: signed_of(first), next },
    )
}

fn check_lengths_packed(b: &[u8], from: usize, width: u8, n: u32, last: i128, step: i128) -> (r:
    Option<i128>)
    requires
        width <= 32,
        8 * from + n * width <= 8 * b@.len(),
        0 <= last <= i32::MAX,
        -0x8000_0000_0000_0000 <= step < 0x8000_0000_0000_0000,
    ensures
        match lengths_packed(b@, 8 * from, width as nat, n as nat, last as int, step as int) {
            Some(x) => r matches Some(y) && y == x && 0 <= y <= i32::MAX,
            None => r is None,
        },
{
    let start: u128 = 8 * from as u128;
    let mut at: u128 = start;
    let mut left: u32 = n;
    let mut v: i128 = last;
    while left > 0
        invariant
            width <= 32,
            left <= n,
            at + left * width == start + n * width,
            start + n * width <= 8 * b@.len(),
            0 <= v <= i32::MAX,
            -0x8000_0000_0000_0000 <= step < 0x8000_0000_0000_0000,
            start == 8 * from,
            lengths_packed(b@, 8 * from, width as nat, n as nat, last as int, step as int)
                == lengths_packed(
                b@,
                at as int,
                width as nat,
                left as nat,
                v as int,
                step as int,
            ),
        decreases left,
    {
        proof {
            assert(left * width == (left - 1) * width + width && (left - 1) * width >= 0)
                by (nonlinear_arith)
                requires
                    left > 0,
            ;
        }
        let _long: usize = b.len();
        let x: i128 = v + step + bits_at(b, at, width) as i128;
        if x < 0 || x > 0x7fff_ffff {
            return None;
        }
        v = x;
        at = at + width as u128;
        left = left - 1;
    }
    Some(v)
}

fn check_parts(
    b: &[u8],
    widths: usize,
    s: &Start,
    widest: u8,
    step: i128,
    from: usize,
    many: u32,
    before: Option<i128>,
) -> (r: Option<(usize, u32, Option<i128>)>)
    requires
        widths + s.parts <= from <= b@.len(),
        s.each > 0,
        s.each % 32 == 0,
        widest <= 64,
        before is Some ==> widest <= 32,
        before matches Some(v) ==> 0 <= v <= i32::MAX,
        -0x8000_0000_0000_0000 <= step < 0x8000_0000_0000_0000,
    ensures
        match parts_end(
            b@,
            widths as int,
            0,
            s.front(),
            widest as nat,
            step as int,
            from as int,
            many as nat,
            as_int(before),
        ) {
            Some((end, rest, x)) => {
                &&& r matches Some((e, n, y))
                &&& e == end && n == rest && as_int(y) == x
                &&& e <= b@.len()
                &&& (x is Some <==> before is Some)
                &&& (y matches Some(v) ==> 0 <= v <= i32::MAX)
            },
            None => r is None,
        },
{
    let mut k: u64 = 0;
    let mut at: usize = from;
    let mut left: u32 = many;
    let mut last: Option<i128> = before;
    while k < s.parts && left > 0
        invariant
            k <= s.parts,
            widths + s.parts <= from <= b@.len(),
            at <= b@.len(),
            s.each > 0,
            s.each % 32 == 0,
            widest <= 64,
            before is Some ==> widest <= 32,
            last is Some <==> before is Some,
            last matches Some(v) ==> 0 <= v <= i32::MAX,
            -0x8000_0000_0000_0000 <= step < 0x8000_0000_0000_0000,
            parts_end(
                b@,
                widths as int,
                0,
                s.front(),
                widest as nat,
                step as int,
                from as int,
                many as nat,
                as_int(before),
            ) == parts_end(
                b@,
                widths as int,
                k as nat,
                s.front(),
                widest as nat,
                step as int,
                at as int,
                left as nat,
                as_int(last),
            ),
        decreases s.parts - k,
    {
        let long: usize = b.len();
        let width: u8 = b[widths + k as usize];
        if width > widest {
            return None;
        }
        let each: u64 = s.each;
        proof {
            assert(0 <= width * (each / 8) <= 64 * 0x2000_0000_0000_0000) by (nonlinear_arith)
                requires
                    width <= 64,
                    0 <= each / 8 <= 0x2000_0000_0000_0000,
            ;
        }
        let size: u128 = width as u128 * (each / 8) as u128;
        if size > (long - at) as u128 {
            return None;
        }
        let end: usize = at + size as usize;
        let n: u32 = if each < left as u64 {
            each as u32
        } else {
            left
        };
        if let Some(v) = last {
            proof {
                let eighth = each / 8;
                assert(n * width <= (8 * eighth) * width) by (nonlinear_arith)
                    requires
                        n <= 8 * eighth,
                ;
                assert((8 * eighth) * width == 8 * (width * eighth)) by (nonlinear_arith);
            }
            match check_lengths_packed(b, at, width, n, v, step) {
                None => {
                    return None;
                },
                Some(x) => {
                    last = Some(x);
                },
            }
        }
        at = end;
        left = left - n;
        k = k + 1;
    }
    Some((at, left, last))
}

spec fn as_int(x: Option<i128>) -> Option<int> {
    match x {
        Some(v) => Some(v as int),
        None => None,
    }
}

/// Numbers written as differences, at the front of some bytes: how many there are,
/// and where they end.
pub(crate) fn take_differences(b: &[u8], widest: u8, lengths: bool) -> (r: Option<(u32, usize)>)
    requires
        widest <= 64,
        lengths ==> widest <= 32,
    ensures
        match differences(b@, widest as nat, lengths) {
            Some((count, end)) => r matches Some((n, e)) && n == count && e == end && e
                <= b@.len(),
            None => r is None,
        },
{
    let s = match take_front(b) {
        Some(s) => s,
        None => {
            return None;
        },
    };
    if s.count == 0 {
        return Some((0, s.next));
    }
    if lengths && (s.first < 0 || s.first > 0x7fff_ffff) {
        return None;
    }
    let mut last: Option<i128> = if lengths {
        Some(s.first)
    } else {
        None
    };
    let mut left: u32 = s.count - 1;
    let mut at: usize = s.next;
    while left > 0
        invariant
            at <= b@.len(),
            s.each > 0,
            s.each % 32 == 0,
            widest <= 64,
            lengths ==> widest <= 32,
            last is Some <==> lengths,
            last matches Some(v) ==> 0 <= v <= i32::MAX,
            s.count > 0,
            front(b@) == Some(s.front()),
            !lengths || 0 <= s.first <= i32::MAX,
            blocks_end(
                b@,
                s.front(),
                widest as nat,
                s.next as int,
                (s.count - 1) as nat,
                if lengths {
                    Some(s.first as int)
                } else {
                    None
                },
            ) == blocks_end(
                b@,
                s.front(),
                widest as nat,
                at as int,
                left as nat,
                as_int(last),
            ),
        decreases left,
    {
        let (step, next): (u64, usize) = match take_long(b, at) {
            Some(x) => x,
            None => {
                return None;
            },
        };
        if s.parts > (b.len() - next) as u64 {
            return None;
        }
        match check_parts(
            b,
            next,
            &s,
            widest,
            signed_of(step),
            next + s.parts as usize,
            left,
            last,
        ) {
            None => {
                return None;
            },
            Some((end, rest, x)) => {
                if rest >= left {
                    return None;
                }
                at = end;
                left = rest;
                last = x;
            },
        }
    }
    Some((s.count, at))
}

} // verus!
