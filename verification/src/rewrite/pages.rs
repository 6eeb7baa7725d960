//! The pages of a column in a parquet file, and whether they can be decoded.
//! `parquet`'s decoder takes some things of a page for granted, so they are looked at
//! here before it is handed the file.

use vstd::arithmetic::power2::*;
use vstd::prelude::*;
use vstd::slice::slice_subrange;

use super::deltas;
use super::deltas::take_differences;
use super::footer;
use crate::seqs;

verus! {

/// A column of a group of rows, as a file's footer has it.
#[derive(Clone, Copy, Debug)]
pub struct Chunk {
    /// The number that the format gives its physical type.
    pub physical: i32,
    /// How long a value is, where all are of one length.
    pub width: i32,
    /// The number that the format gives its converted type, less than zero for none.
    pub converted: i32,
    /// Whether a value may be absent from what holds it.
    pub optional: bool,
    /// The highest definition level.
    pub def: i16,
    /// The highest repetition level.
    pub rep: i16,
    /// Where its dictionary begins, where it says so.
    pub dictionary_at: Option<i64>,
    /// Where its data begins.
    pub data_at: i64,
    /// How many bytes it takes.
    pub size: i64,
}

/// A group of rows, as a file's footer has it.
#[derive(Debug)]
pub struct Group {
    /// How many rows it has.
    pub rows: i64,
    /// Its columns.
    pub chunks: Vec<Chunk>,
}

/// A group of rows, as mathematics.
pub struct GroupView {
    pub rows: i64,
    pub chunks: Seq<Chunk>,
}

impl View for Group {
    type V = GroupView;

    open spec fn view(&self) -> GroupView {
        GroupView { rows: self.rows, chunks: self.chunks@ }
    }
}

/// A page of a column, uncompressed. Encodings are the numbers that the format gives
/// them.
#[derive(Debug)]
pub enum Page {
    /// The values that other pages point into.
    Dictionary { values: u32, coding: i32, body: Vec<u8> },
    /// Values, with their levels in front of them.
    Data { values: u32, coding: i32, defs: i32, reps: i32, body: Vec<u8> },
    /// Values of the second form, which says how long the levels are.
    DataV2 { values: u32, nulls: u32, coding: i32, def_len: u32, rep_len: u32, body: Vec<u8> },
}

/// A page of a column, as mathematics.
pub enum PageView {
    Dictionary { values: u32, coding: i32, body: Seq<u8> },
    Data { values: u32, coding: i32, defs: i32, reps: i32, body: Seq<u8> },
    DataV2 { values: u32, nulls: u32, coding: i32, def_len: u32, rep_len: u32, body: Seq<u8> },
}

impl View for Page {
    type V = PageView;

    open spec fn view(&self) -> PageView {
        match *self {
            Page::Dictionary { values, coding, body } => PageView::Dictionary {
                values,
                coding,
                body: body@,
            },
            Page::Data { values, coding, defs, reps, body } => PageView::Data {
                values,
                coding,
                defs,
                reps,
                body: body@,
            },
            Page::DataV2 { values, nulls, coding, def_len, rep_len, body } => PageView::DataV2 {
                values,
                nulls,
                coding,
                def_len,
                rep_len,
                body: body@,
            },
        }
    }
}

/// The physical type that is yes or no.
pub const BOOLEAN: i32 = 0;

/// The physical type that is a whole number of four bytes.
pub const INT32: i32 = 1;

/// The physical type that is a whole number of eight bytes.
pub const INT64: i32 = 2;

/// The physical type that is a real number of four bytes.
pub const FLOAT: i32 = 4;

/// The physical type that is a real number of eight bytes.
pub const DOUBLE: i32 = 5;

/// The physical type that is bytes of any length.
pub const BYTES: i32 = 6;

/// The physical type that is bytes of one length.
pub const FIXED_BYTES: i32 = 7;

/// The converted type that is text.
pub const TEXT: i32 = 0;

/// The converted type that is a decimal number.
pub const DECIMAL: i32 = 5;

/// The encoding of values one after the other.
pub const PLAIN: i32 = 0;

/// The old number of the encoding that points into a dictionary.
pub const OLD_DICTIONARY: i32 = 2;

/// The encoding in runs.
pub const RUNS: i32 = 3;

/// The encoding of whole numbers as differences.
pub const DIFFERENCES: i32 = 5;

/// The encoding of bytes as what they share with those before, and the rest.
pub const SHARED: i32 = 7;

/// The encoding that points into a dictionary.
pub const POINTERS: i32 = 8;

/// The widest pointer into a dictionary, in bits.
pub const WIDEST: u8 = 32;

/// The widest pointer that any dictionary may have, in bits.
pub const NARROW: u8 = 8;

/// How many bytes a value of one length may take at most, inside a list.
pub const WIDEST_LISTED: i32 = 0x1_0000;

/// The most rows that a group may have.
pub const MOST_ROWS: i64 = 0xffff_ffff;

// ------------------------------------------------------------ runs

/// A bit of some bytes, the lowest of each first.
pub open spec fn bit(b: Seq<u8>, at: int) -> nat {
    ((b[at / 8] >> ((at % 8) as u8)) & 1u8) as nat
}

/// The number that so many bits are, the lowest first.
pub open spec fn bits(b: Seq<u8>, at: int, width: nat) -> nat
    decreases width,
{
    if width == 0 {
        0
    } else {
        bit(b, at) + 2 * bits(b, at + 1, (width - 1) as nat)
    }
}

/// How many bytes hold so many bits.
pub open spec fn bytes_for(width: nat) -> nat {
    (width + 7) / 8
}

/// Whether each of some numbers that are packed side by side is below a bound.
pub open spec fn packed_below(b: Seq<u8>, at: int, width: nat, count: nat, below: nat) -> bool {
    forall|i: int| 0 <= i < count ==> #[trigger] bits(b, at + i * width, width) < below
}

/// Whether bytes, from a place on, are runs of numbers so many bits wide: each of one
/// number again and again, or of numbers packed side by side in eights. No number comes
/// again no time, and every number is below the bound, where there is one.
pub open spec fn in_runs(b: Seq<u8>, at: int, width: nat, below: Option<nat>) -> bool
    decreases b.len() - at,
{
    if at >= b.len() {
        true
    } else {
        match footer::varint(b, at, 5) {
            None => false,
            Some((v, next)) => if v == 0 || !(at < next <= b.len()) {
                false
            } else if v % 2 == 0 {
                let end = next + bytes_for(width);
                &&& end <= b.len()
                &&& below matches Some(n) ==> bits(b, 8 * next, 8 * bytes_for(width)) < n
                &&& in_runs(b, end, width, below)
            } else {
                let end = next + (v / 2) * width;
                &&& end <= b.len()
                &&& below matches Some(n) ==> packed_below(b, 8 * next, width, 8 * (v / 2), n)
                &&& in_runs(b, end, width, below)
            },
        }
    }
}

/// How many bits a number takes.
pub open spec fn bits_of(n: nat) -> nat
    decreases n,
{
    if n == 0 {
        0
    } else {
        1 + bits_of(n / 2)
    }
}

/// Where values end, each behind its length.
pub open spec fn lengths_end(b: Seq<u8>, at: int, count: nat) -> Option<int>
    decreases count,
{
    if count == 0 {
        Some(at)
    } else if at < 0 || at + 4 > b.len() {
        None
    } else {
        let next = at + 4 + footer::word(b, at);
        if next <= b.len() {
            lengths_end(b, next, (count - 1) as nat)
        } else {
            None
        }
    }
}

// ------------------------------------------------------------ pages

/// Whether a dictionary's values are there, as its column's type has them.
pub open spec fn holds_values(c: Chunk, values: nat, body: Seq<u8>) -> bool {
    if c.physical == INT32 || c.physical == FLOAT {
        4 * values <= body.len()
    } else if c.physical == INT64 || c.physical == DOUBLE {
        8 * values <= body.len()
    } else if c.physical == BYTES {
        lengths_end(body, 0, values) == Some(body.len() as int)
    } else {
        c.physical == FIXED_BYTES && c.width > 0 && c.width * values == body.len()
    }
}

/// Whether bytes are pointers into a dictionary of so many values: their width, and
/// runs of them, none past the dictionary.
pub open spec fn points_into(b: Seq<u8>, values: nat) -> bool {
    b.len() == 0 || {
        let width = b[0];
        &&& width <= WIDEST
        &&& width <= NARROW || pow2((width - 1) as nat) < values
        &&& in_runs(b.skip(1), 0, width as nat, Some(values))
    }
}

/// Whether bytes are yes and no, in runs behind their length.
pub open spec fn in_runs_of_one(b: Seq<u8>) -> bool {
    b.len() >= 4 && {
        let end = 4 + footer::word(b, 0);
        end <= b.len() && in_runs(b.subrange(4, end as int), 0, 1, None)
    }
}

/// Whether bytes are whole numbers of a width as differences. There is one at least,
/// but for a page without a value.
pub open spec fn in_differences(b: Seq<u8>, width: nat, none: bool) -> bool {
    deltas::differences(b, width, false) matches Some((n, _)) && (n > 0 || none)
}

/// Whether bytes are the lengths of what values share with those before, as
/// differences, and the lengths of the rest, no more of either than there are values.
pub open spec fn in_shares(b: Seq<u8>, values: nat) -> bool {
    match deltas::differences(b, 32, false) {
        None => false,
        Some((n, end)) => n <= values && match deltas::differences(b.skip(end), 32, true) {
            None => false,
            Some((m, _)) => m <= values,
        },
    }
}

/// Whether the values of a page can be decoded, under a dictionary where there is
/// one: at most so many, or none at all. Where their number is known, values behind
/// lengths come out even with it.
pub open spec fn values_sound(
    c: Chunk,
    coding: i32,
    dictionary: Option<u32>,
    values: u32,
    none: bool,
    known: Option<nat>,
    b: Seq<u8>,
) -> bool {
    if coding == PLAIN {
        known matches Some(n) ==> (c.physical == BYTES ==> lengths_end(b, 0, n) == Some(
            b.len() as int,
        ))
    } else if coding == RUNS {
        c.physical == BOOLEAN && in_runs_of_one(b)
    } else if coding == DIFFERENCES {
        ||| c.physical == INT32 && in_differences(b, 32, none)
        ||| c.physical == INT64 && in_differences(b, 64, none)
    } else if coding == SHARED {
        (c.physical == BYTES || c.physical == FIXED_BYTES) && in_shares(b, values as nat)
    } else {
        &&& coding == OLD_DICTIONARY || coding == POINTERS
        &&& dictionary matches Some(n) && points_into(b, n as nat)
    }
}

/// The levels of a page, in runs behind their length: where they end, where they can
/// be decoded.
pub open spec fn levels_end(b: Seq<u8>, at: int, coding: i32, most: i16) -> Option<int> {
    if most <= 0 {
        Some(at)
    } else if coding != RUNS || at < 0 || at + 4 > b.len() {
        None
    } else {
        let end = at + 4 + footer::word(b, at);
        if end <= b.len() && in_runs(b.subrange(at + 4, end), 0, bits_of(most as nat), None) {
            Some(end)
        } else {
            None
        }
    }
}

/// Whether levels of the second form can be decoded.
pub open spec fn levels_sound(b: Seq<u8>, most: i16) -> bool {
    most > 0 ==> in_runs(b, 0, bits_of(most as nat), None)
}

/// Whether levels say of every value that it is not there.
pub open spec fn all_absent(b: Seq<u8>, most: i16) -> bool {
    most > 0 && in_runs(b, 0, bits_of(most as nat), Some(most as nat))
}

/// Whether a page of values can be decoded.
pub open spec fn data_sound(c: Chunk, dictionary: Option<u32>, p: PageView) -> bool {
    match p {
        PageView::Dictionary { .. } => false,
        PageView::Data { values, coding, defs, reps, body } => match levels_end(
            body,
            0,
            reps,
            c.rep,
        ) {
            None => false,
            Some(n) => match levels_end(body, n, defs, c.def) {
                None => false,
                Some(m) => values_sound(
                    c,
                    coding,
                    dictionary,
                    values,
                    m >= n + 4 && all_absent(body.subrange(n + 4, m), c.def),
                    None,
                    body.skip(m),
                ),
            },
        },
        PageView::DataV2 { values, nulls, coding, def_len, rep_len, body } => {
            &&& nulls <= values
            &&& rep_len + def_len <= body.len()
            &&& levels_sound(body.take(rep_len as int), c.rep)
            &&& levels_sound(body.subrange(rep_len as int, rep_len + def_len), c.def)
            &&& values_sound(
                c,
                coding,
                dictionary,
                values,
                all_absent(body.subrange(rep_len as int, rep_len + def_len), c.def),
                Some((values - nulls) as nat),
                body.skip(rep_len + def_len),
            )
        },
    }
}

/// Whether pages, from one of them on, can be decoded, under a dictionary where one
/// came before.
pub open spec fn pages_sound(c: Chunk, ps: Seq<PageView>, i: int, dictionary: Option<u32>) -> bool
    decreases ps.len() - i,
{
    if i < 0 || i >= ps.len() {
        true
    } else {
        match ps[i] {
            PageView::Dictionary { values, coding, body } => {
                &&& dictionary is None
                &&& coding == PLAIN || coding == OLD_DICTIONARY
                &&& holds_values(c, values as nat, body)
                &&& pages_sound(c, ps, i + 1, Some(values))
            },
            p => data_sound(c, dictionary, p) && pages_sound(c, ps, i + 1, dictionary),
        }
    }
}

/// Whether a column's place is a place in a file, and its type is one that is
/// decoded: not the old one of twelve bytes, no decimal number of any length, and
/// inside a list no value that is all too wide.
pub open spec fn placed(c: Chunk) -> bool {
    &&& c.dictionary_at matches Some(at) ==> at >= 0
    &&& c.data_at >= 0
    &&& c.size >= 0
    &&& c.physical == BOOLEAN || c.physical == INT32 || c.physical == INT64 || c.physical == FLOAT
        || c.physical == DOUBLE || c.physical == BYTES || c.physical == FIXED_BYTES
    &&& c.physical == BYTES ==> c.converted != DECIMAL
    &&& c.physical == FIXED_BYTES ==> c.width > 0 && (c.rep > 0 ==> c.width <= WIDEST_LISTED)
}

/// Whether a group of rows is laid out: it has no more rows than are counted, none
/// without a column, and every column has its place.
pub open spec fn laid_out(g: GroupView) -> bool {
    &&& 0 <= g.rows <= MOST_ROWS
    &&& g.chunks.len() == 0 ==> g.rows == 0
    &&& forall|i: int| 0 <= i < g.chunks.len() ==> placed(#[trigger] g.chunks[i])
}

/// How many of some columns are text.
pub open spec fn texts_of(cs: Seq<Chunk>) -> nat
    decreases cs.len(),
{
    if cs.len() == 0 {
        0
    } else {
        texts_of(cs.drop_last()) + if cs.last().physical == BYTES && cs.last().converted == TEXT {
            1nat
        } else {
            0
        }
    }
}

// ------------------------------------------------------------ looking at them

proof fn lemma_bits_below(b: Seq<u8>, at: int, width: nat)
    ensures
        bits(b, at, width) < pow2(width),
    decreases width,
{
    lemma_pow2_pos(width);
    if width > 0 {
        lemma_bits_below(b, at + 1, (width - 1) as nat);
        lemma_pow2_unfold(width);
        let x = b[at / 8] >> ((at % 8) as u8);
        assert(x & 1u8 <= 1u8) by (bit_vector);
    }
}

proof fn lemma_bits_of(n: nat, k: nat)
    requires
        n < pow2(k),
    ensures
        bits_of(n) <= k,
    decreases k,
{
    lemma2_to64();
    if k > 0 && n > 0 {
        lemma_pow2_unfold(k);
        lemma_bits_of(n / 2, (k - 1) as nat);
    }
}

pub(crate) fn bits_at(b: &[u8], at: u128, width: u8) -> (r: u64)
    requires
        width <= 32,
        at + width <= 8 * b@.len(),
    ensures
        r == bits(b@, at as int, width as nat),
{
    let long: usize = b.len();
    let mut i: u8 = width;
    let mut r: u64 = 0;
    proof {
        lemma2_to64();
    }
    while i > 0
        invariant
            i <= width <= 32,
            at + width <= 8 * b@.len(),
            long == b@.len(),
            r == bits(b@, at + i, (width - i) as nat),
            pow2(32) == 0x1_0000_0000,
        decreases i,
    {
        i = i - 1;
        let k: u128 = at + i as u128;
        let x: u8 = b[(k / 8) as usize];
        let s: u8 = (k % 8) as u8;
        proof {
            lemma_bits_below(b@, at + i + 1, (width - i - 1) as nat);
            if width - i - 1 < 32 {
                lemma_pow2_strictly_increases((width - i - 1) as nat, 32);
            }
            let y = x >> s;
            assert(y & 1u8 <= 1u8) by (bit_vector);
        }
        r = 2 * r + ((x >> s) & 1) as u64;
    }
    r
}

fn check_packed(b: &[u8], from: usize, width: u8, count: u64, below: u64) -> (r: bool)
    requires
        width <= 32,
        8 * from + count * width <= 8 * b@.len(),
    ensures
        r == packed_below(b@, 8 * from, width as nat, count as nat, below as nat),
{
    let mut i: u64 = 0;
    let start: u128 = 8 * from as u128;
    while i < count
        invariant
            i <= count,
            width <= 32,
            start == 8 * from,
            8 * from + count * width <= 8 * b@.len(),
            forall|j: int|
                0 <= j < i ==> #[trigger] bits(b@, 8 * from + j * width, width as nat) < below,
        decreases count - i,
    {
        proof {
            assert(i * width + width <= count * width) by (nonlinear_arith)
                requires
                    i < count,
            ;
            assert(0 <= i * width <= 0x20_0000_0000_0000_0000) by (nonlinear_arith)
                requires
                    width <= 32,
                    i <= u64::MAX,
            ;
        }
        if bits_at(b, start + i as u128 * width as u128, width) >= below {
            assert(!(bits(b@, 8 * from + i * width, width as nat) < below));
            return false;
        }
        i = i + 1;
    }
    true
}

pub(crate) fn check_runs(b: &[u8], width: u8, below: Option<u32>) -> (r: bool)
    requires
        width <= 32,
    ensures
        r == in_runs(
            b@,
            0,
            width as nat,
            match below {
                Some(n) => Some(n as nat),
                None => None,
            },
        ),
{
    let ghost bound: Option<nat> = match below {
        Some(n) => Some(n as nat),
        None => None,
    };
    let mut at: usize = 0;
    while at < b.len()
        invariant
            width <= 32,
            bound == (match below {
                Some(n) => Some(n as nat),
                None => None,
            }),
            in_runs(b@, 0, width as nat, bound) == in_runs(b@, at as int, width as nat, bound),
        decreases b@.len() - at,
    {
        match footer::take_varint(b, at, 5) {
            None => {
                return false;
            },
            Some((v, next)) => {
                if v == 0 || next <= at {
                    return false;
                }
                let rest: usize = b.len() - next;
                if v % 2 == 0 {
                    let n: u8 = (width + 7) / 8;
                    if n as usize > rest {
                        return false;
                    }
                    if let Some(limit) = below {
                        if bits_at(b, 8 * next as u128, 8 * n) >= limit as u64 {
                            return false;
                        }
                    }
                    at = next + n as usize;
                } else {
                    let groups: u64 = v / 2;
                    proof {
                        assert(groups * width <= 0x4_0000_0000 * 32) by (nonlinear_arith)
                            requires
                                groups <= 0x4_0000_0000,
                                width <= 32,
                        ;
                        assert((8 * groups) * width == 8 * (groups * width)) by (nonlinear_arith);
                    }
                    let n: u64 = groups * width as u64;
                    if n > rest as u64 {
                        return false;
                    }
                    if let Some(limit) = below {
                        if !check_packed(b, next, width, 8 * groups, limit as u64) {
                            return false;
                        }
                    }
                    at = next + n as usize;
                }
            },
        }
    }
    true
}

pub(crate) fn bit_width(n: u16) -> (r: u8)
    ensures
        r == bits_of(n as nat),
        r <= 16,
    decreases n,
{
    proof {
        lemma2_to64();
        lemma_bits_of(n as nat, 16);
    }
    if n == 0 {
        0
    } else {
        1 + bit_width(n / 2)
    }
}

fn word_at(b: &[u8], at: usize) -> (r: u64)
    requires
        at + 4 <= b@.len(),
    ensures
        r == footer::word(b@, at as int),
{
    b[at] as u64 + 0x100 * b[at + 1] as u64 + 0x1_0000 * b[at + 2] as u64 + 0x100_0000 * b[at
        + 3] as u64
}

fn check_lengths(b: &[u8], count: u32) -> (r: bool)
    ensures
        r == (lengths_end(b@, 0, count as nat) == Some(b@.len() as int)),
{
    let mut at: usize = 0;
    let mut left: u32 = count;
    while left > 0
        invariant
            at <= b@.len(),
            lengths_end(b@, 0, count as nat) == lengths_end(b@, at as int, left as nat),
        decreases left,
    {
        if b.len() - at < 4 {
            return false;
        }
        let n: u64 = word_at(b, at);
        if n > (b.len() - at - 4) as u64 {
            return false;
        }
        at = at + 4 + n as usize;
        left = left - 1;
    }
    at == b.len()
}

fn check_dictionary(c: &Chunk, values: u32, body: &Vec<u8>) -> (r: bool)
    ensures
        r == holds_values(*c, values as nat, body@),
{
    if c.physical == INT32 || c.physical == FLOAT {
        4 * values as u64 <= body.len() as u64
    } else if c.physical == INT64 || c.physical == DOUBLE {
        8 * values as u64 <= body.len() as u64
    } else if c.physical == BYTES {
        check_lengths(body.as_slice(), values)
    } else if c.physical == FIXED_BYTES && c.width > 0 {
        proof {
            assert(0 <= c.width * values <= 0x8000_0000 * 0x1_0000_0000) by (nonlinear_arith)
                requires
                    0 <= c.width <= 0x8000_0000,
                    0 <= values <= 0x1_0000_0000,
            ;
        }
        c.width as u64 * values as u64 == body.len() as u64
    } else {
        false
    }
}

/// Two to the power of one less than a width.
fn half_of(width: u8) -> (r: u64)
    requires
        0 < width <= 32,
    ensures
        r == pow2((width - 1) as nat),
{
    let mut r: u64 = 1;
    let mut i: u8 = 1;
    proof {
        lemma2_to64();
    }
    while i < width
        invariant
            1 <= i <= width <= 32,
            r == pow2((i - 1) as nat),
            pow2(32) == 0x1_0000_0000,
        decreases width - i,
    {
        proof {
            lemma_pow2_strictly_increases((i - 1) as nat, 32);
            lemma_pow2_unfold(i as nat);
        }
        r = 2 * r;
        i = i + 1;
    }
    r
}

fn check_pointers(b: &[u8], values: u32) -> (r: bool)
    ensures
        r == points_into(b@, values as nat),
{
    if b.len() == 0 {
        return true;
    }
    let width: u8 = b[0];
    if width > WIDEST {
        return false;
    }
    if width > NARROW && half_of(width) >= values as u64 {
        return false;
    }
    let rest = slice_subrange(b, 1, b.len());
    assert(rest@ =~= b@.skip(1));
    check_runs(rest, width, Some(values))
}

fn check_ones(b: &[u8]) -> (r: bool)
    ensures
        r == in_runs_of_one(b@),
{
    if b.len() < 4 {
        return false;
    }
    let n: u64 = word_at(b, 0);
    if n > (b.len() - 4) as u64 {
        return false;
    }
    check_runs(slice_subrange(b, 4, 4 + n as usize), 1, None)
}

fn check_differences(b: &[u8], width: u8, none: bool) -> (r: bool)
    requires
        width <= 64,
    ensures
        r == in_differences(b@, width as nat, none),
{
    match take_differences(b, width, false) {
        Some((n, _)) => n > 0 || none,
        None => false,
    }
}

fn check_shares(b: &[u8], values: u32) -> (r: bool)
    ensures
        r == in_shares(b@, values as nat),
{
    match take_differences(b, 32, false) {
        None => false,
        Some((n, end)) => {
            let rest = slice_subrange(b, end, b.len());
            assert(rest@ =~= b@.skip(end as int));
            n <= values && match take_differences(rest, 32, true) {
                None => false,
                Some((m, _)) => m <= values,
            }
        },
    }
}

fn check_absent(b: &[u8], most: i16) -> (r: bool)
    ensures
        r == all_absent(b@, most),
{
    most > 0 && check_runs(b, bit_width(most as u16), Some(most as u32))
}

fn check_values(
    c: &Chunk,
    coding: i32,
    dictionary: Option<u32>,
    values: u32,
    none: bool,
    known: Option<u32>,
    b: &[u8],
) -> (r: bool)
    ensures
        r == values_sound(
            *c,
            coding,
            dictionary,
            values,
            none,
            match known {
                Some(n) => Some(n as nat),
                None => None,
            },
            b@,
        ),
{
    if coding == PLAIN {
        match known {
            Some(n) => c.physical != BYTES || check_lengths(b, n),
            None => true,
        }
    } else if coding == RUNS {
        c.physical == BOOLEAN && check_ones(b)
    } else if coding == DIFFERENCES {
        (c.physical == INT32 && check_differences(b, 32, none)) || (c.physical == INT64
            && check_differences(b, 64, none))
    } else if coding == SHARED {
        (c.physical == BYTES || c.physical == FIXED_BYTES) && check_shares(b, values)
    } else if coding == OLD_DICTIONARY || coding == POINTERS {
        match dictionary {
            Some(n) => check_pointers(b, n),
            None => false,
        }
    } else {
        false
    }
}

pub(crate) fn check_levels(b: &[u8], at: usize, coding: i32, most: i16) -> (r: Option<usize>)
    requires
        at <= b@.len(),
    ensures
        match levels_end(b@, at as int, coding, most) {
            Some(end) => r matches Some(n) && n == end && n <= b@.len(),
            None => r is None,
        },
{
    if most <= 0 {
        return Some(at);
    }
    if coding != RUNS || b.len() - at < 4 {
        return None;
    }
    let n: u64 = word_at(b, at);
    if n > (b.len() - at - 4) as u64 {
        return None;
    }
    let end: usize = at + 4 + n as usize;
    let width: u8 = bit_width(most as u16);
    if check_runs(slice_subrange(b, at + 4, end), width, None) {
        Some(end)
    } else {
        None
    }
}

fn check_data(c: &Chunk, dictionary: Option<u32>, p: &Page) -> (r: bool)
    ensures
        r == data_sound(*c, dictionary, p@),
{
    match p {
        Page::Dictionary { .. } => false,
        Page::Data { values, coding, defs, reps, body } => {
            let b = body.as_slice();
            match check_levels(b, 0, *reps, c.rep) {
                None => false,
                Some(n) => match check_levels(b, n, *defs, c.def) {
                    None => false,
                    Some(m) => {
                        let rest = slice_subrange(b, m, b.len());
                        assert(rest@ =~= body@.skip(m as int));
                        let none = m >= 4 && n <= m - 4 && check_absent(
                            slice_subrange(b, n + 4, m),
                            c.def,
                        );
                        check_values(c, *coding, dictionary, *values, none, None, rest)
                    },
                },
            }
        },
        Page::DataV2 { values, nulls, coding, def_len, rep_len, body } => {
            let b = body.as_slice();
            let long: u64 = *rep_len as u64 + *def_len as u64;
            if *nulls > *values || long > b.len() as u64 {
                return false;
            }
            let m: usize = *rep_len as usize;
            let n: usize = long as usize;
            let reps = slice_subrange(b, 0, m);
            let defs = slice_subrange(b, m, n);
            let rest = slice_subrange(b, n, b.len());
            assert(reps@ =~= body@.take(m as int));
            assert(rest@ =~= body@.skip(n as int));
            if c.rep > 0 && !check_runs(reps, bit_width(c.rep as u16), None) {
                return false;
            }
            if c.def > 0 && !check_runs(defs, bit_width(c.def as u16), None) {
                return false;
            }
            let none = check_absent(defs, c.def);
            check_values(c, *coding, dictionary, *values, none, Some(*values - *nulls), rest)
        },
    }
}

/// Whether a column's pages can be decoded.
pub fn can_decode(c: &Chunk, pages: &Vec<Page>) -> (r: bool)
    ensures
        r == pages_sound(*c, seqs::views(pages@), 0, None),
{
    let ghost ps = seqs::views(pages@);
    let mut dictionary: Option<u32> = None;
    let mut i: usize = 0;
    while i < pages.len()
        invariant
            i <= pages.len(),
            ps == seqs::views(pages@),
            pages_sound(*c, ps, 0, None) == pages_sound(*c, ps, i as int, dictionary),
        decreases pages.len() - i,
    {
        assert(ps[i as int] == pages@[i as int]@);
        match &pages[i] {
            Page::Dictionary { values, coding, body } => {
                if dictionary.is_some() || (*coding != PLAIN && *coding != OLD_DICTIONARY)
                    || !check_dictionary(c, *values, body) {
                    return false;
                }
                dictionary = Some(*values);
            },
            p => {
                if !check_data(c, dictionary, p) {
                    return false;
                }
            },
        }
        i = i + 1;
    }
    true
}

fn has_place(c: &Chunk) -> (r: bool)
    ensures
        r == placed(*c),
{
    let dictionary = match c.dictionary_at {
        Some(at) => at >= 0,
        None => true,
    };
    let known = c.physical == BOOLEAN || c.physical == INT32 || c.physical == INT64 || c.physical
        == FLOAT || c.physical == DOUBLE || c.physical == BYTES || c.physical == FIXED_BYTES;
    dictionary && c.data_at >= 0 && c.size >= 0 && known && (c.physical != BYTES || c.converted
        != DECIMAL) && (c.physical != FIXED_BYTES || (c.width > 0 && (c.rep <= 0 || c.width
        <= WIDEST_LISTED)))
}

/// Whether a group of rows is laid out.
pub fn is_laid_out(g: &Group) -> (r: bool)
    ensures
        r == laid_out(g@),
{
    if !(0 <= g.rows && g.rows <= MOST_ROWS) || (g.chunks.len() == 0 && g.rows != 0) {
        return false;
    }
    let mut i: usize = 0;
    while i < g.chunks.len()
        invariant
            i <= g.chunks.len(),
            forall|j: int| 0 <= j < i ==> placed(#[trigger] g.chunks@[j]),
        decreases g.chunks.len() - i,
    {
        if !has_place(&g.chunks[i]) {
            assert(!placed(g@.chunks[i as int]));
            return false;
        }
        i = i + 1;
    }
    true
}

/// How many of a group's columns are text.
pub fn count_texts(g: &Group) -> (r: usize)
    ensures
        r == texts_of(g@.chunks),
        r <= g@.chunks.len(),
{
    let mut n: usize = 0;
    let mut i: usize = 0;
    while i < g.chunks.len()
        invariant
            i <= g.chunks.len(),
            n <= i,
            n == texts_of(g.chunks@.take(i as int)),
        decreases g.chunks.len() - i,
    {
        let c = &g.chunks[i];
        assert(g.chunks@.take(i + 1).drop_last() =~= g.chunks@.take(i as int));
        if c.physical == BYTES && c.converted == TEXT {
            n = n + 1;
        }
        i = i + 1;
    }
    assert(g.chunks@.take(i as int) =~= g.chunks@);
    n
}

} // verus!
