//! The footer of a parquet file, as far as it says how the columns nest. `parquet`
//! walks a schema by recursion and takes some of its marks for granted, so what it is
//! handed is looked at here first, without recursion.

use vstd::prelude::*;
use vstd::slice::slice_subrange;

verus! {

/// What a group of a schema is marked as.
#[derive(Clone, Copy, Debug, PartialEq, Eq, Structural)]
pub enum Mark {
    /// Nothing.
    Bare,
    /// A map.
    Entries,
    /// Anything else.
    Other,
}

/// One element of a schema: a group, or a column where nothing is inside it.
#[derive(Clone, Copy, Debug, PartialEq, Eq, Structural)]
pub struct Element {
    /// How many elements are directly inside it.
    pub children: u32,
    /// What it is marked as.
    pub mark: Mark,
}

/// How deep groups may stand inside each other.
pub const DEEPEST: usize = 256;

/// How many bytes end a file behind its footer: the footer's length and the magic.
pub const TAIL: usize = 8;

// ------------------------------------------------------------ the footer's encoding

/// A number in at most so many bytes, seven bits in each, the lowest first, and
/// where it ends.
pub open spec fn varint(b: Seq<u8>, at: int, left: nat) -> Option<(nat, int)>
    decreases left,
{
    if left == 0 || at < 0 || at >= b.len() {
        None
    } else if b[at] < 0x80 {
        Some((b[at] as nat, at + 1))
    } else {
        match varint(b, at + 1, (left - 1) as nat) {
            Some((v, next)) => Some(((b[at] - 0x80 + 0x80 * v) as nat, next)),
            None => None,
        }
    }
}

/// A number of at most four bytes' worth, and where it ends.
pub open spec fn number(b: Seq<u8>, at: int) -> Option<(nat, int)> {
    match varint(b, at, 5) {
        Some((v, next)) => if v <= u32::MAX {
            Some((v, next))
        } else {
            None
        },
        None => None,
    }
}

/// Where a byte ends, where it is there.
pub open spec fn mark_at(b: Seq<u8>, at: int, x: u8) -> Option<int> {
    if 0 <= at < b.len() && b[at] == x {
        Some(at + 1)
    } else {
        None
    }
}

/// Where a yes or a no under the first field of a record ends.
pub open spec fn flag_at(b: Seq<u8>, at: int) -> Option<int> {
    if 0 <= at < b.len() && (b[at] == 0x11 || b[at] == 0x12) {
        Some(at + 1)
    } else {
        None
    }
}

/// Where a number under the next field of a record ends.
pub open spec fn number_field(b: Seq<u8>, at: int) -> Option<int> {
    match mark_at(b, at, 0x15) {
        None => None,
        Some(from) => match number(b, from) {
            None => None,
            Some((_, next)) => Some(next),
        },
    }
}

/// Where the rest of a record ends that holds a unit of time.
pub open spec fn unit_end(b: Seq<u8>, at: int) -> Option<int> {
    if !(0 <= at && at + 4 < b.len()) {
        None
    } else if b[at] == 0x1c && (b[at + 1] == 0x1c || b[at + 1] == 0x2c || b[at + 1] == 0x3c)
        && b[at + 2] == 0 && b[at + 3] == 0 && b[at + 4] == 0 {
        Some(at + 5)
    } else {
        None
    }
}

/// Where the rest of a record ends that holds a width and a sign.
pub open spec fn integer_end(b: Seq<u8>, at: int) -> Option<int> {
    if !(0 <= at && at + 3 < b.len()) {
        None
    } else if b[at] == 0x13 && (b[at + 2] == 0x11 || b[at + 2] == 0x12) && b[at + 3] == 0 {
        Some(at + 4)
    } else {
        None
    }
}

/// Where the record of a logical type ends, by which of them it is.
pub open spec fn logical_body(b: Seq<u8>, at: int, which: int) -> Option<int> {
    if which == 5 {
        match number_field(b, at) {
            None => None,
            Some(n) => match number_field(b, n) {
                None => None,
                Some(m) => mark_at(b, m, 0),
            },
        }
    } else if which == 7 || which == 8 {
        match flag_at(b, at) {
            None => None,
            Some(n) => unit_end(b, n),
        }
    } else if which == 10 {
        integer_end(b, at)
    } else {
        mark_at(b, at, 0)
    }
}

/// A logical type: which of them it is, and where it ends.
pub open spec fn logical(b: Seq<u8>, at: int) -> Option<(int, int)> {
    if !(0 <= at < b.len()) {
        None
    } else {
        let which = (b[at] / 16) as int;
        if b[at] % 16 != 12 || which == 0 || which == 9 {
            None
        } else {
            match logical_body(b, at + 1, which) {
                None => None,
                Some(n) => match mark_at(b, n, 0) {
                    None => None,
                    Some(next) => Some((which, next)),
                },
            }
        }
    }
}

/// An element with what one of its numbers says of it.
pub open spec fn told(e: Element, id: int, v: nat) -> Option<Element> {
    if id == 5 {
        if v % 2 == 0 {
            Some(Element { children: (v / 2) as u32, mark: e.mark })
        } else {
            None
        }
    } else if id == 6 {
        Some(marked(e, v == 2 || v == 4))
    } else {
        Some(e)
    }
}

/// An element that is marked: as a map, or as something else.
pub open spec fn marked(e: Element, map: bool) -> Element {
    let mark = if map || e.mark == Mark::Entries {
        Mark::Entries
    } else {
        Mark::Other
    };
    Element { children: e.children, mark }
}

/// One element, from behind its field number `last` on: what it says, and where it
/// ends.
pub open spec fn element(b: Seq<u8>, at: int, last: int, e: Element) -> Option<(Element, int)>
    decreases 11 - last,
{
    if !(0 <= at < b.len()) {
        None
    } else if b[at] == 0 {
        Some((e, at + 1))
    } else {
        let id = last + b[at] / 16;
        let kind = b[at] % 16;
        if b[at] / 16 == 0 || id > 10 {
            None
        } else if id == 4 {
            match number(b, at + 1) {
                Some((n, from)) => if kind == 8 && from + n <= b.len() {
                    element(b, from + n, id, e)
                } else {
                    None
                },
                None => None,
            }
        } else if id == 10 {
            match logical(b, at + 1) {
                Some((which, next)) => if kind == 12 {
                    element(b, next, id, marked(e, which == 2))
                } else {
                    None
                },
                None => None,
            }
        } else {
            match number(b, at + 1) {
                Some((v, next)) => match told(e, id, v) {
                    Some(more) => if kind == 5 {
                        element(b, next, id, more)
                    } else {
                        None
                    },
                    None => None,
                },
                None => None,
            }
        }
    }
}

/// An element of which nothing has been said.
pub open spec fn unsaid() -> Element {
    Element { children: 0, mark: Mark::Bare }
}

/// So many elements behind those that were read.
pub open spec fn elements(b: Seq<u8>, at: int, left: nat, read: Seq<Element>) -> Option<
    Seq<Element>,
>
    decreases left,
{
    if left == 0 {
        Some(read)
    } else {
        match element(b, at, 0, unsaid()) {
            None => None,
            Some((e, next)) => elements(b, next, (left - 1) as nat, read.push(e)),
        }
    }
}

/// How many elements a list says it has, and where they begin.
pub open spec fn list_of_records(b: Seq<u8>, at: int) -> Option<(nat, int)> {
    if !(0 <= at < b.len()) || b[at] % 16 != 12 {
        None
    } else if b[at] / 16 < 15 {
        Some(((b[at] / 16) as nat, at + 1))
    } else {
        number(b, at + 1)
    }
}

/// The elements of the schema that a footer begins with, behind the format's
/// version.
pub open spec fn schema_elements(b: Seq<u8>) -> Option<Seq<Element>> {
    match number_field(b, 0) {
        None => None,
        Some(n) => match mark_at(b, n, 0x19) {
            None => None,
            Some(m) => match list_of_records(b, m) {
                None => None,
                Some((count, from)) => if count <= b.len() {
                    elements(b, from, count, Seq::empty())
                } else {
                    None
                },
            },
        },
    }
}

// ------------------------------------------------------------ how a schema nests

/// The groups that are still open, once those with nothing left to come are closed:
/// each by how many elements it has to come.
pub open spec fn still_open(open: Seq<u32>) -> Seq<u32>
    decreases open.len(),
{
    if open.len() > 0 && open.last() == 0 {
        still_open(open.drop_last())
    } else {
        open
    }
}

/// Whether elements, from one of them on, nest in the groups that are open, no
/// deeper than is allowed. A group has no more inside it than there is to come, and
/// what is first in a map is a group.
pub open spec fn nests(es: Seq<Element>, i: int, open: Seq<u32>) -> bool
    decreases es.len() - i,
{
    if i < 0 || i >= es.len() {
        true
    } else {
        let e = es[i];
        let within = still_open(open);
        let left = if i == 0 {
            within
        } else {
            within.update(within.len() - 1, (within.last() - 1) as u32)
        };
        &&& i == 0 <==> within.len() == 0
        &&& i == 0 ==> e.mark == Mark::Bare
        &&& within.len() < DEEPEST
        &&& e.children < es.len() - i
        &&& e.mark == Mark::Entries && e.children > 0 ==> es[i + 1].children > 0
        &&& nests(es, i + 1, left.push(e.children))
    }
}

/// The number that four bytes are, the lowest first.
pub open spec fn word(b: Seq<u8>, at: int) -> int {
    b[at] + 0x100 * b[at + 1] + 0x1_0000 * b[at + 2] + 0x100_0000 * b[at + 3]
}

/// Whether a file ends as a parquet file does.
pub open spec fn ends_in_magic(file: Seq<u8>) -> bool {
    &&& file.len() >= TAIL
    &&& file[file.len() - 4] == 0x50
    &&& file[file.len() - 3] == 0x41
    &&& file[file.len() - 2] == 0x52
    &&& file[file.len() - 1] == 0x31
}

/// A file's footer, where it has one.
pub open spec fn footer_of(file: Seq<u8>) -> Option<Seq<u8>> {
    if !ends_in_magic(file) {
        None
    } else {
        let n = word(file, file.len() - TAIL);
        if n + TAIL <= file.len() {
            Some(file.subrange(file.len() - TAIL - n, file.len() - TAIL))
        } else {
            None
        }
    }
}

/// Whether a footer's schema nests as it may.
pub open spec fn sound_footer(b: Seq<u8>) -> bool {
    schema_elements(b) matches Some(es) && es.len() > 0 && nests(es, 0, Seq::empty())
}

/// Whether a file's schema can be walked: it has no footer, and nothing is walked, or
/// its schema nests as it may.
pub open spec fn bounded(file: Seq<u8>) -> bool {
    footer_of(file) matches Some(b) ==> sound_footer(b)
}

// ------------------------------------------------------------ reading it

/// The most that a number in so many bytes can be, and one more.
pub closed spec fn cap(left: nat) -> nat
    decreases left,
{
    if left == 0 {
        1
    } else {
        0x80 * cap((left - 1) as nat)
    }
}

pub(crate) fn take_varint(b: &[u8], at: usize, left: u8) -> (r: Option<(u64, usize)>)
    requires
        left <= 5,
    ensures
        match varint(b@, at as int, left as nat) {
            Some((v, next)) => r matches Some((x, n)) && x == v && n == next && n <= b@.len() && x
                < cap(left as nat),
            None => r is None,
        },
        cap(left as nat) <= 0x8_0000_0000,
    decreases left,
{
    proof {
        reveal_with_fuel(cap, 6);
    }
    if left == 0 || at >= b.len() {
        return None;
    }
    let x: u8 = b[at];
    if x < 0x80 {
        return Some((x as u64, at + 1));
    }
    match take_varint(b, at + 1, left - 1) {
        Some((v, next)) => Some(((x - 0x80) as u64 + 0x80 * v, next)),
        None => None,
    }
}

pub(crate) fn take_number(b: &[u8], at: usize) -> (r: Option<(u32, usize)>)
    ensures
        match number(b@, at as int) {
            Some((v, next)) => r matches Some((x, n)) && x == v && n == next && n <= b@.len(),
            None => r is None,
        },
{
    match take_varint(b, at, 5) {
        Some((v, next)) => if v <= 0xffff_ffff {
            Some((v as u32, next))
        } else {
            None
        },
        None => None,
    }
}

fn take_mark(b: &[u8], at: usize, x: u8) -> (r: Option<usize>)
    ensures
        match mark_at(b@, at as int, x) {
            Some(next) => r matches Some(n) && n == next && n <= b@.len(),
            None => r is None,
        },
{
    if at < b.len() && b[at] == x {
        Some(at + 1)
    } else {
        None
    }
}

fn take_number_field(b: &[u8], at: usize) -> (r: Option<usize>)
    ensures
        match number_field(b@, at as int) {
            Some(next) => r matches Some(n) && n == next && n <= b@.len(),
            None => r is None,
        },
{
    match take_mark(b, at, 0x15) {
        None => None,
        Some(from) => match take_number(b, from) {
            None => None,
            Some((_, next)) => Some(next),
        },
    }
}

fn take_logical_body(b: &[u8], at: usize, which: u8) -> (r: Option<usize>)
    ensures
        match logical_body(b@, at as int, which as int) {
            Some(next) => r matches Some(n) && n == next && n <= b@.len(),
            None => r is None,
        },
{
    if which == 5 {
        match take_number_field(b, at) {
            None => None,
            Some(n) => match take_number_field(b, n) {
                None => None,
                Some(m) => take_mark(b, m, 0),
            },
        }
    } else if which == 7 || which == 8 {
        if !(at < b.len() && (b[at] == 0x11 || b[at] == 0x12)) {
            return None;
        }
        let n: usize = at + 1;
        if !(b.len() - n > 4) {
            return None;
        }
        if b[n] == 0x1c && (b[n + 1] == 0x1c || b[n + 1] == 0x2c || b[n + 1] == 0x3c) && b[n + 2]
            == 0 && b[n + 3] == 0 && b[n + 4] == 0 {
            Some(n + 5)
        } else {
            None
        }
    } else if which == 10 {
        if !(at < b.len() && b.len() - at > 3) {
            return None;
        }
        if b[at] == 0x13 && (b[at + 2] == 0x11 || b[at + 2] == 0x12) && b[at + 3] == 0 {
            Some(at + 4)
        } else {
            None
        }
    } else {
        take_mark(b, at, 0)
    }
}

fn take_logical(b: &[u8], at: usize) -> (r: Option<(u8, usize)>)
    ensures
        match logical(b@, at as int) {
            Some((which, next)) => r matches Some((x, n)) && x == which && n == next && n
                <= b@.len(),
            None => r is None,
        },
{
    if at >= b.len() {
        return None;
    }
    let which: u8 = b[at] / 16;
    if b[at] % 16 != 12 || which == 0 || which == 9 {
        return None;
    }
    match take_logical_body(b, at + 1, which) {
        None => None,
        Some(n) => match take_mark(b, n, 0) {
            None => None,
            Some(next) => Some((which, next)),
        },
    }
}

fn with_mark(e: Element, map: bool) -> (r: Element)
    ensures
        r == marked(e, map),
{
    let mark = if map || e.mark == Mark::Entries {
        Mark::Entries
    } else {
        Mark::Other
    };
    Element { children: e.children, mark }
}

fn tell(e: Element, id: u8, v: u32) -> (r: Option<Element>)
    ensures
        r == told(e, id as int, v as nat),
{
    if id == 5 {
        if v % 2 == 0 {
            Some(Element { children: v / 2, mark: e.mark })
        } else {
            None
        }
    } else if id == 6 {
        Some(with_mark(e, v == 2 || v == 4))
    } else {
        Some(e)
    }
}

fn take_element(b: &[u8], from: usize) -> (r: Option<(Element, usize)>)
    ensures
        match element(b@, from as int, 0, unsaid()) {
            Some((e, next)) => r matches Some((x, n)) && x == e && n == next && n <= b@.len(),
            None => r is None,
        },
{
    let mut at: usize = from;
    let mut last: u8 = 0;
    let mut e = Element { children: 0, mark: Mark::Bare };
    loop
        invariant
            last <= 10,
            element(b@, from as int, 0, unsaid()) == element(b@, at as int, last as int, e),
        decreases 11 - last,
    {
        if at >= b.len() {
            return None;
        }
        let head: u8 = b[at];
        if head == 0 {
            return Some((e, at + 1));
        }
        let id: u8 = last + head / 16;
        let kind: u8 = head % 16;
        if head / 16 == 0 || id > 10 {
            return None;
        }
        if id == 4 {
            match take_number(b, at + 1) {
                Some((n, next)) => {
                    if !(kind == 8 && n as usize <= b.len() - next) {
                        return None;
                    }
                    at = next + n as usize;
                },
                None => {
                    return None;
                },
            }
        } else if id == 10 {
            match take_logical(b, at + 1) {
                Some((which, next)) => {
                    if kind != 12 {
                        return None;
                    }
                    e = with_mark(e, which == 2);
                    at = next;
                },
                None => {
                    return None;
                },
            }
        } else {
            match take_number(b, at + 1) {
                Some((v, next)) => match tell(e, id, v) {
                    Some(more) => {
                        if kind != 5 {
                            return None;
                        }
                        e = more;
                        at = next;
                    },
                    None => {
                        return None;
                    },
                },
                None => {
                    return None;
                },
            }
        }
        last = id;
    }
}

fn take_elements(b: &[u8], from: usize, count: usize) -> (r: Option<Vec<Element>>)
    ensures
        match elements(b@, from as int, count as nat, Seq::empty()) {
            Some(es) => r matches Some(x) && x@ == es,
            None => r is None,
        },
{
    let mut read: Vec<Element> = Vec::new();
    let mut at: usize = from;
    let mut left: usize = count;
    while left > 0
        invariant
            elements(b@, from as int, count as nat, Seq::empty()) == elements(
                b@,
                at as int,
                left as nat,
                read@,
            ),
        decreases left,
    {
        match take_element(b, at) {
            None => {
                return None;
            },
            Some((e, next)) => {
                read.push(e);
                at = next;
            },
        }
        left = left - 1;
    }
    Some(read)
}

fn take_schema(b: &[u8]) -> (r: Option<Vec<Element>>)
    ensures
        match schema_elements(b@) {
            Some(es) => r matches Some(x) && x@ == es,
            None => r is None,
        },
{
    match take_number_field(b, 0) {
        None => None,
        Some(n) => match take_mark(b, n, 0x19) {
            None => None,
            Some(m) => {
                if m >= b.len() || b[m] % 16 != 12 {
                    return None;
                }
                let (count, from): (usize, usize) = if b[m] / 16 < 15 {
                    ((b[m] / 16) as usize, m + 1)
                } else {
                    match take_number(b, m + 1) {
                        None => {
                            return None;
                        },
                        Some((v, next)) => (v as usize, next),
                    }
                };
                if count <= b.len() {
                    take_elements(b, from, count)
                } else {
                    None
                }
            },
        },
    }
}

fn check_nesting(es: &Vec<Element>) -> (r: bool)
    ensures
        r == nests(es@, 0, Seq::empty()),
{
    let mut open: Vec<u32> = Vec::new();
    let mut i: usize = 0;
    while i < es.len()
        invariant
            i <= es.len(),
            nests(es@, 0, Seq::empty()) == nests(es@, i as int, open@),
        decreases es.len() - i,
    {
        let ghost was = open@;
        while open.len() > 0 && open[open.len() - 1] == 0
            invariant
                still_open(was) == still_open(open@),
            decreases open.len(),
        {
            open.pop();
        }
        let e = es[i];
        if (i == 0) != (open.len() == 0) || (i == 0 && e.mark != Mark::Bare) || open.len()
            >= DEEPEST || e.children as usize >= es.len() - i {
            return false;
        }
        if e.mark == Mark::Entries && e.children > 0 && es[i + 1].children == 0 {
            return false;
        }
        if i > 0 {
            let top: usize = open.len() - 1;
            let n: u32 = open[top];
            open.set(top, n - 1);
        }
        open.push(e.children);
        i = i + 1;
    }
    true
}

/// Whether a file's schema can be walked.
pub fn is_bounded(file: &Vec<u8>) -> (r: bool)
    ensures
        r == bounded(file@),
{
    let n: usize = file.len();
    if n < TAIL || file[n - 4] != 0x50 || file[n - 3] != 0x41 || file[n - 2] != 0x52 || file[n - 1]
        != 0x31 {
        return true;
    }
    let at: usize = n - TAIL;
    let long: u64 = file[at] as u64 + 0x100 * file[at + 1] as u64 + 0x1_0000 * file[at + 2] as u64
        + 0x100_0000 * file[at + 3] as u64;
    if long > at as u64 {
        return true;
    }
    let b = slice_subrange(file.as_slice(), at - long as usize, at);
    match take_schema(b) {
        None => false,
        Some(es) => es.len() > 0 && check_nesting(&es),
    }
}

} // verus!
