//! The headers of a column's pages. `parquet` adds up the two lengths in one before it
//! looks at what they come to, so they are looked at here first.

use vstd::prelude::*;

use super::footer;
use super::footer::take_number;
use super::pages;
use super::pages::Chunk;

verus! {

/// How deep the records of a header are looked into.
pub const DEEP: u8 = 4;

/// Where a value ends, by the number that the encoding gives its type. A header has no
/// lists in it.
pub open spec fn value_end(b: Seq<u8>, at: int, kind: int, deep: nat) -> Option<int>
    decreases deep, 0nat, 0int,
{
    if !(0 <= at <= b.len()) {
        None
    } else if kind == 1 || kind == 2 {
        Some(at)
    } else if kind == 3 {
        within(b, at + 1)
    } else if kind == 5 {
        match footer::number(b, at) {
            Some((_, next)) => Some(next),
            None => None,
        }
    } else if kind == 4 || kind == 6 {
        long_end(b, at, 10)
    } else if kind == 7 {
        within(b, at + 8)
    } else if kind == 8 {
        match footer::number(b, at) {
            Some((n, next)) => within(b, next + n),
            None => None,
        }
    } else if kind == 12 && deep > 0 {
        fields_end(b, at, (deep - 1) as nat)
    } else {
        None
    }
}

/// A place in some bytes, or behind the last.
pub open spec fn within(b: Seq<u8>, at: int) -> Option<int> {
    if at <= b.len() {
        Some(at)
    } else {
        None
    }
}

/// Where a number of at most so many bytes ends.
pub open spec fn long_end(b: Seq<u8>, at: int, left: nat) -> Option<int>
    decreases left,
{
    if left == 0 || !(0 <= at < b.len()) {
        None
    } else if b[at] < 0x80 {
        Some(at + 1)
    } else {
        long_end(b, at + 1, (left - 1) as nat)
    }
}

/// Where the fields of a record end.
pub open spec fn fields_end(b: Seq<u8>, at: int, deep: nat) -> Option<int>
    decreases deep, 1nat, b.len() - at,
{
    if !(0 <= at < b.len()) {
        None
    } else if b[at] == 0 {
        Some(at + 1)
    } else if b[at] / 16 == 0 {
        None
    } else {
        match value_end(b, at + 1, (b[at] % 16) as int, deep) {
            Some(next) => if at < next <= b.len() {
                fields_end(b, next, deep)
            } else {
                None
            },
            None => None,
        }
    }
}

/// A number under the next field of a record, and where it ends.
pub open spec fn next_number(b: Seq<u8>, at: int) -> Option<(nat, int)> {
    match footer::mark_at(b, at, 0x15) {
        Some(from) => footer::number(b, from),
        None => None,
    }
}

/// Where so many numbers end, each under the next field of a record.
pub open spec fn numbers_end(b: Seq<u8>, at: int, n: nat) -> Option<int>
    decreases n,
{
    if n == 0 {
        Some(at)
    } else {
        match next_number(b, at) {
            Some((_, next)) => numbers_end(b, next, (n - 1) as nat),
            None => None,
        }
    }
}

/// Where the record of a page of the second form ends. The lengths of its levels, its
/// fifth and sixth numbers, come to what a length can be.
pub open spec fn second_end(b: Seq<u8>, at: int) -> Option<int> {
    match numbers_end(b, at, 4) {
        None => None,
        Some(m) => match next_number(b, m) {
            None => None,
            Some((defs, n)) => match next_number(b, n) {
                None => None,
                Some((reps, next)) => if defs % 2 == 0 && reps % 2 == 0 && defs / 2 + reps / 2
                    <= i32::MAX {
                    fields_end(b, next, DEEP as nat)
                } else {
                    None
                },
            },
        },
    }
}

/// Where a header ends, from behind its field number `last` on.
pub open spec fn rest_end(b: Seq<u8>, at: int, last: int) -> Option<int>
    decreases b.len() - at,
{
    if !(0 <= at < b.len()) {
        None
    } else if b[at] == 0 {
        Some(at + 1)
    } else if b[at] / 16 == 0 || last + b[at] / 16 > 8 {
        None
    } else {
        let id = last + b[at] / 16;
        let kind = (b[at] % 16) as int;
        let end = if id == 8 {
            if kind == 12 {
                second_end(b, at + 1)
            } else {
                None
            }
        } else {
            value_end(b, at + 1, kind, DEEP as nat)
        };
        match end {
            Some(next) => if at < next <= b.len() {
                rest_end(b, next, id)
            } else {
                None
            },
            None => None,
        }
    }
}

/// A page's header: how many bytes the page takes, and where the header ends. Its
/// first numbers are the page's kind, its size, and its size in the file.
pub open spec fn header(b: Seq<u8>, at: int) -> Option<(nat, int)> {
    match numbers_end(b, at, 2) {
        None => None,
        Some(m) => match next_number(b, m) {
            None => None,
            Some((size, n)) => if size % 2 != 0 {
                None
            } else {
                match rest_end(b, n, 3) {
                    Some(end) => Some((size / 2, end)),
                    None => None,
                }
            },
        },
    }
}

/// Whether pages stand one after the other, each behind its header.
pub open spec fn headed(b: Seq<u8>, at: int, end: int) -> bool
    decreases end - at,
{
    if at >= end {
        at == end
    } else {
        match header(b, at) {
            None => false,
            Some((size, from)) => at < from + size <= end && headed(b, from + size, end),
        }
    }
}

/// Whether a column's pages stand one after the other, where the column says.
pub open spec fn column_headed(b: Seq<u8>, c: Chunk) -> bool {
    let at = match c.dictionary_at {
        Some(at) => at,
        None => c.data_at,
    };
    &&& 0 <= at
    &&& 0 <= c.size
    &&& at + c.size <= b.len()
    &&& headed(b, at as int, at + c.size)
}

/// Whether the pages of every column of a group stand one after the other.
pub open spec fn group_headed(b: Seq<u8>, g: pages::GroupView) -> bool {
    forall|i: int| 0 <= i < g.chunks.len() ==> column_headed(b, #[trigger] g.chunks[i])
}

// ------------------------------------------------------------ looking at them

fn skip_long(b: &[u8], at: usize, left: u8) -> (r: Option<usize>)
    ensures
        match long_end(b@, at as int, left as nat) {
            Some(n) => r matches Some(m) && m == n && at < m <= b@.len(),
            None => r is None,
        },
    decreases left,
{
    if left == 0 || at >= b.len() {
        None
    } else if b[at] < 0x80 {
        Some(at + 1)
    } else {
        skip_long(b, at + 1, left - 1)
    }
}

fn skip_value(b: &[u8], at: usize, kind: u8, deep: u8) -> (r: Option<usize>)
    requires
        at <= b@.len(),
    ensures
        match value_end(b@, at as int, kind as int, deep as nat) {
            Some(n) => r matches Some(m) && m == n && at <= m <= b@.len(),
            None => r is None,
        },
    decreases deep, 0nat, 0int,
{
    let left: usize = b.len() - at;
    if kind == 1 || kind == 2 {
        Some(at)
    } else if kind == 3 {
        if left < 1 {
            None
        } else {
            Some(at + 1)
        }
    } else if kind == 5 {
        match take_number(b, at) {
            Some((_, next)) => {
                proof {
                    lemma_number_ends(b@, at as int);
                }
                Some(next)
            },
            None => None,
        }
    } else if kind == 4 || kind == 6 {
        skip_long(b, at, 10)
    } else if kind == 7 {
        if left < 8 {
            None
        } else {
            Some(at + 8)
        }
    } else if kind == 8 {
        match take_number(b, at) {
            Some((n, next)) => {
                proof {
                    lemma_number_ends(b@, at as int);
                }
                if n as usize > b.len() - next {
                    None
                } else {
                    Some(next + n as usize)
                }
            },
            None => None,
        }
    } else if kind == 12 && deep > 0 {
        skip_fields(b, at, deep - 1)
    } else {
        None
    }
}

proof fn lemma_number_ends(b: Seq<u8>, at: int)
    ensures
        footer::number(b, at) matches Some((_, next)) ==> at < next <= b.len(),
{
    lemma_varint_ends(b, at, 5);
}

proof fn lemma_varint_ends(b: Seq<u8>, at: int, left: nat)
    ensures
        footer::varint(b, at, left) matches Some((_, next)) ==> at < next <= b.len(),
    decreases left,
{
    if left > 0 {
        lemma_varint_ends(b, at + 1, (left - 1) as nat);
    }
}

fn skip_fields(b: &[u8], from: usize, deep: u8) -> (r: Option<usize>)
    ensures
        match fields_end(b@, from as int, deep as nat) {
            Some(n) => r matches Some(m) && m == n && from < m <= b@.len(),
            None => r is None,
        },
    decreases deep, 1nat, 0int,
{
    if from >= b.len() {
        return None;
    }
    let mut at: usize = from;
    while at < b.len()
        invariant
            from <= at <= b@.len(),
            fields_end(b@, from as int, deep as nat) == fields_end(b@, at as int, deep as nat),
        decreases b@.len() - at,
    {
        let x: u8 = b[at];
        if x == 0 {
            return Some(at + 1);
        }
        if x / 16 == 0 {
            return None;
        }
        match skip_value(b, at + 1, x % 16, deep) {
            None => {
                return None;
            },
            Some(next) => {
                at = next;
            },
        }
    }
    None
}

fn take_next_number(b: &[u8], at: usize) -> (r: Option<(u32, usize)>)
    ensures
        match next_number(b@, at as int) {
            Some((v, n)) => r matches Some((x, m)) && x == v && m == n && at < m <= b@.len(),
            None => r is None,
        },
{
    if at >= b.len() || b[at] != 0x15 {
        return None;
    }
    proof {
        lemma_number_ends(b@, at + 1);
    }
    take_number(b, at + 1)
}

fn skip_numbers(b: &[u8], at: usize, n: u8) -> (r: Option<usize>)
    ensures
        match numbers_end(b@, at as int, n as nat) {
            Some(e) => r matches Some(m) && m == e && at <= m && (n > 0 ==> at < m <= b@.len()),
            None => r is None,
        },
    decreases n,
{
    if n == 0 {
        return Some(at);
    }
    match take_next_number(b, at) {
        None => None,
        Some((_, next)) => skip_numbers(b, next, n - 1),
    }
}

fn skip_second(b: &[u8], at: usize) -> (r: Option<usize>)
    ensures
        match second_end(b@, at as int) {
            Some(e) => r matches Some(m) && m == e && at < m <= b@.len(),
            None => r is None,
        },
{
    match skip_numbers(b, at, 4) {
        None => None,
        Some(m) => match take_next_number(b, m) {
            None => None,
            Some((defs, n)) => match take_next_number(b, n) {
                None => None,
                Some((reps, next)) => if defs % 2 == 0 && reps % 2 == 0 && defs as u64 / 2
                    + reps as u64 / 2 <= 0x7fff_ffff {
                    skip_fields(b, next, DEEP)
                } else {
                    None
                },
            },
        },
    }
}

fn skip_rest(b: &[u8], at: usize, last: u8) -> (r: Option<usize>)
    requires
        last <= 8,
    ensures
        match rest_end(b@, at as int, last as int) {
            Some(e) => r matches Some(m) && m == e && at < m <= b@.len(),
            None => r is None,
        },
    decreases b@.len() - at,
{
    if at >= b.len() {
        return None;
    }
    let x: u8 = b[at];
    if x == 0 {
        return Some(at + 1);
    }
    if x / 16 == 0 || last + x / 16 > 8 {
        return None;
    }
    let id: u8 = last + x / 16;
    let end: Option<usize> = if id == 8 {
        if x % 16 == 12 {
            skip_second(b, at + 1)
        } else {
            None
        }
    } else {
        skip_value(b, at + 1, x % 16, DEEP)
    };
    match end {
        None => None,
        Some(next) => skip_rest(b, next, id),
    }
}

fn take_header(b: &[u8], at: usize) -> (r: Option<(u32, usize)>)
    ensures
        match header(b@, at as int) {
            Some((v, e)) => r matches Some((x, m)) && x == v && m == e && at < m <= b@.len(),
            None => r is None,
        },
{
    match skip_numbers(b, at, 2) {
        None => None,
        Some(m) => match take_next_number(b, m) {
            None => None,
            Some((size, n)) => if size % 2 != 0 {
                None
            } else {
                match skip_rest(b, n, 3) {
                    Some(end) => Some((size / 2, end)),
                    None => None,
                }
            },
        },
    }
}

fn check_headers(b: &[u8], from: usize, end: usize) -> (r: bool)
    requires
        from <= end <= b@.len(),
    ensures
        r == headed(b@, from as int, end as int),
{
    let mut at: usize = from;
    while at < end
        invariant
            at <= end <= b@.len(),
            headed(b@, from as int, end as int) == headed(b@, at as int, end as int),
        decreases end - at,
    {
        match take_header(b, at) {
            None => {
                return false;
            },
            Some((size, next)) => {
                if next > end || size as usize > end - next {
                    return false;
                }
                at = next + size as usize;
            },
        }
    }
    true
}

fn is_column_headed(b: &[u8], c: &Chunk) -> (r: bool)
    ensures
        r == column_headed(b@, *c),
{
    let at: i64 = match c.dictionary_at {
        Some(at) => at,
        None => c.data_at,
    };
    let long: usize = b.len();
    if at < 0 || c.size < 0 || at as i128 + c.size as i128 > long as i128 {
        return false;
    }
    check_headers(b, at as usize, at as usize + c.size as usize)
}

/// Whether the pages of every column of a group stand one after the other.
pub fn is_headed(b: &Vec<u8>, g: &pages::Group) -> (r: bool)
    ensures
        r == group_headed(b@, g@),
{
    let mut i: usize = 0;
    while i < g.chunks.len()
        invariant
            i <= g.chunks@.len(),
            forall|k: int| 0 <= k < i ==> column_headed(b@, #[trigger] g.chunks@[k]),
        decreases g.chunks@.len() - i,
    {
        if !is_column_headed(b.as_slice(), &g.chunks[i]) {
            assert(!column_headed(b@, g@.chunks[i as int]));
            return false;
        }
        i += 1;
    }
    true
}

} // verus!
