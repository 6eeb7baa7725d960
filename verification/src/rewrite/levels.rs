//! The levels of a column's values, and whether those of two columns agree. A map's
//! keys and values are columns of their own, which `parquet` takes to be as long as
//! each other.

use vstd::prelude::*;
use vstd::slice::slice_subrange;

use super::footer;
use super::footer::take_varint;
use super::pages;
use super::pages::{bit_width, bits_at, check_levels, check_runs, Chunk, Page, PageView};
use crate::seqs;

verus! {

/// The most values that a map's column may have in a group of rows.
pub const MOST_VALUES: usize = 0x7fff_ffff;

/// The numbers that runs hold from a place on, one after the other.
pub open spec fn numbers(b: Seq<u8>, at: int, width: nat) -> Seq<nat>
    decreases b.len() - at,
{
    if at >= b.len() {
        Seq::empty()
    } else {
        match footer::varint(b, at, 5) {
            None => Seq::empty(),
            Some((v, next)) => if v == 0 || !(at < next <= b.len()) {
                Seq::empty()
            } else if v % 2 == 0 {
                let end = next + pages::bytes_for(width);
                if end > b.len() {
                    Seq::empty()
                } else {
                    Seq::new(v / 2, |i: int| pages::bits(b, 8 * next, 8 * pages::bytes_for(width)))
                        + numbers(b, end, width)
                }
            } else {
                let end = next + (v / 2) * width;
                if end > b.len() {
                    Seq::empty()
                } else {
                    Seq::new(8 * (v / 2), |i: int| pages::bits(b, 8 * next + i * width, width))
                        + numbers(b, end, width)
                }
            },
        }
    }
}

/// The first numbers of some runs, where there are as many and none is past a bound.
pub open spec fn leading(b: Seq<u8>, most: i16, n: nat) -> Option<Seq<nat>> {
    let all = numbers(b, 0, pages::bits_of(most as nat));
    if n <= all.len() && forall|i: int| 0 <= i < n ==> #[trigger] all[i] <= most {
        Some(all.take(n as int))
    } else {
        None
    }
}

/// The levels of a value: repetition, and definition.
pub type Level = (nat, nat);

/// Levels of both kinds, side by side.
pub open spec fn paired(reps: Seq<nat>, defs: Seq<nat>) -> Seq<Level> {
    Seq::new(reps.len(), |i: int| (reps[i], defs[i]))
}

/// The levels of a page's values. The first of them begins a row.
pub open spec fn page_levels(c: Chunk, p: PageView) -> Option<Seq<Level>> {
    let (reps, defs, n) = match p {
        PageView::Dictionary { .. } => (None, None, 0nat),
        PageView::Data { values, defs, reps, body, .. } => match pages::levels_end(
            body,
            0,
            reps,
            c.rep,
        ) {
            None => (None, None, 0),
            Some(m) => match pages::levels_end(body, m, defs, c.def) {
                None => (None, None, 0),
                Some(e) => (
                    leading(body.subrange(4, m), c.rep, values as nat),
                    leading(body.subrange(m + 4, e), c.def, values as nat),
                    values as nat,
                ),
            },
        },
        PageView::DataV2 { values, def_len, rep_len, body, .. } => if rep_len + def_len
            <= body.len() && pages::levels_sound(body.take(rep_len as int), c.rep)
            && pages::levels_sound(
            body.subrange(rep_len as int, rep_len + def_len),
            c.def,
        ) {
            (
                leading(body.take(rep_len as int), c.rep, values as nat),
                leading(
                    body.subrange(rep_len as int, rep_len + def_len),
                    c.def,
                    values as nat,
                ),
                values as nat,
            )
        } else {
            (None, None, 0)
        },
    };
    match (reps, defs) {
        (Some(r), Some(d)) => if n == 0 || r[0] == 0 {
            Some(paired(r, d))
        } else {
            None
        },
        _ => None,
    }
}

/// The levels of a column's values in its first pages, where they are levels.
pub open spec fn column_levels(c: Chunk, ps: Seq<PageView>, n: nat) -> Option<Seq<Level>>
    decreases n,
{
    if n == 0 {
        Some(Seq::empty())
    } else {
        match column_levels(c, ps, (n - 1) as nat) {
            None => None,
            Some(head) => match ps[n - 1] {
                PageView::Dictionary { .. } => Some(head),
                p => match page_levels(c, p) {
                    None => None,
                    Some(more) => if head.len() + more.len() <= MOST_VALUES {
                        Some(head + more)
                    } else {
                        None
                    },
                },
            },
        }
    }
}

/// Whether a column is a map's: it has levels of both kinds, and its values are of a
/// type that any bytes are values of.
pub open spec fn in_a_map(c: Chunk) -> bool {
    &&& c.rep > 0
    &&& c.def > 0
    &&& c.physical != pages::FIXED_BYTES
}

/// Whether two columns have the same rows in them, as far down as a level.
pub open spec fn agree(a: Seq<Level>, b: Seq<Level>, most: int) -> bool {
    &&& a.len() == b.len()
    &&& forall|i: int|
        0 <= i < a.len() ==> (#[trigger] a[i]).0 == b[i].0 && (a[i].1 == b[i].1 || (a[i].1 >= most
            && b[i].1 >= most))
}

/// Whether the columns of a map agree: each has a value where its keys have one. The
/// keys are there in every entry.
pub open spec fn entries_agree(
    chunks: Seq<Chunk>,
    of: Seq<Seq<PageView>>,
    key: int,
    end: int,
) -> bool {
    &&& 0 <= key < end <= chunks.len() <= of.len()
    &&& !chunks[key].optional
    &&& in_a_map(chunks[key])
    &&& column_levels(chunks[key], of[key], of[key].len()) matches Some(a) && forall|j: int|
        key < j < end ==> value_agrees(#[trigger] chunks[j], of[j], a, chunks[key].def as int)
}

/// Whether a column of a map's values has one where the keys do.
pub open spec fn value_agrees(c: Chunk, ps: Seq<PageView>, keys: Seq<Level>, most: int) -> bool {
    &&& in_a_map(c)
    &&& column_levels(c, ps, ps.len()) matches Some(b) && agree(keys, b, most)
}

// ------------------------------------------------------------ looking at them

/// Level numbers, as mathematics.
pub open spec fn as_nats(s: Seq<u16>) -> Seq<nat> {
    s.map_values(|x: u16| x as nat)
}

/// Levels, as mathematics.
pub open spec fn as_levels(s: Seq<(u16, u16)>) -> Seq<Level> {
    s.map_values(|x: (u16, u16)| (x.0 as nat, x.1 as nat))
}

/// What has been taken of some runs agrees with what they begin with.
spec fn begins(out: Seq<u16>, rest: Seq<nat>, all: Seq<nat>) -> bool {
    &&& out.len() + rest.len() == all.len()
    &&& forall|i: int| 0 <= i < out.len() ==> #[trigger] all[i] == out[i]
    &&& forall|i: int| 0 <= i < rest.len() ==> #[trigger] rest[i] == all[out.len() + i]
}

fn take_leading(b: &[u8], most: i16, n: u32) -> (r: Option<Vec<u16>>)
    requires
        most > 0,
        pages::in_runs(b@, 0, pages::bits_of(most as nat), None),
    ensures
        match leading(b@, most, n as nat) {
            Some(s) => r matches Some(v) && as_nats(v@) == s,
            None => r is None,
        },
{
    let width: u8 = bit_width(most as u16);
    let ghost w = pages::bits_of(most as nat);
    let ghost all = numbers(b@, 0, w);
    let mut out: Vec<u16> = Vec::new();
    let mut at: usize = 0;
    while at < b.len() && out.len() < n as usize
        invariant
            most > 0,
            at <= b@.len(),
            width == w,
            w == pages::bits_of(most as nat),
            width <= 16,
            out@.len() <= n,
            all == numbers(b@, 0, w),
            out@.len() < n ==> begins(out@, numbers(b@, at as int, w), all),
            out@.len() == n ==> n <= all.len() && forall|i: int|
                0 <= i < n ==> #[trigger] all[i] == out@[i],
            forall|i: int| 0 <= i < out@.len() ==> (#[trigger] out@[i]) <= most,
            pages::in_runs(b@, at as int, w, None),
        decreases b@.len() - at,
    {
        let ghost rest = numbers(b@, at as int, w);
        let ghost had = out@;
        match take_varint(b, at, 5) {
            None => {
                return None;
            },
            Some((v, next)) => {
                if v == 0 || next <= at {
                    return None;
                }
                if v % 2 == 0 {
                    let long: u8 = (width + 7) / 8;
                    let x: u64 = bits_at(b, 8 * next as u128, 8 * long);
                    let end: usize = next + long as usize;
                    let ghost run = Seq::new(
                        (v / 2) as nat,
                        |i: int| pages::bits(b@, 8 * next as int, 8 * pages::bytes_for(w)),
                    );
                    let ghost after = numbers(b@, end as int, w);
                    assert(rest == run + after);
                    if x > most as u64 {
                        proof {
                            assert(run[0] == x);
                            assert(rest[0] == run[0]);
                            assert(all[had.len() as int] == rest[0]);
                        }
                        return None;
                    }
                    let mut left: u64 = v / 2;
                    while left > 0 && out.len() < n as usize
                        invariant
                            left <= v / 2,
                            x <= most,
                            most > 0,
                            had.len() <= n,
                            out@.len() <= n,
                            out@.len() == had.len() + (v / 2 - left),
                            forall|i: int| 0 <= i < had.len() ==> out@[i] == had[i],
                            forall|i: int| had.len() <= i < out@.len() ==> (#[trigger] out@[i]) == x,
                            forall|i: int| 0 <= i < out@.len() ==> (#[trigger] out@[i]) <= most,
                        decreases left,
                    {
                        out.push(x as u16);
                        left = left - 1;
                    }
                    proof {
                        lemma_run_taken(had, out@, run, after, all);
                    }
                    at = end;
                } else {
                    let groups: u64 = v / 2;
                    proof {
                        assert(groups * width <= 0x4_0000_0000 * 16) by (nonlinear_arith)
                            requires
                                groups <= 0x4_0000_0000,
                                width <= 16,
                        ;
                    }
                    let end: usize = next + (groups * width as u64) as usize;
                    let ghost run = Seq::new(
                        8 * (v as nat / 2),
                        |i: int| pages::bits(b@, 8 * next + i * w, w),
                    );
                    let ghost after = numbers(b@, end as int, w);
                    assert(rest == run + after);
                    let mut k: u64 = 0;
                    while k < 8 * groups && out.len() < n as usize
                        invariant
                            k <= 8 * groups,
                            groups <= 0x4_0000_0000,
                            groups == v / 2,
                            width == w,
                            width <= 16,
                            most > 0,
                            had.len() <= n,
                            had.len() < n,
                            end == next + groups * width,
                            end <= b@.len(),
                            out@.len() <= n,
                            out@.len() == had.len() + k,
                            forall|i: int| 0 <= i < had.len() ==> out@[i] == had[i],
                            forall|i: int|
                                had.len() <= i < out@.len() ==> (#[trigger] out@[i]) == run[i
                                    - had.len()],
                            forall|i: int| 0 <= i < out@.len() ==> (#[trigger] out@[i]) <= most,
                            run == Seq::new(
                                8 * (v as nat / 2),
                                |i: int| pages::bits(b@, 8 * next + i * w, w),
                            ),
                            rest == run + after,
                            begins(had, rest, all),
                            leading(b@, most, n as nat) is Some ==> forall|i: int|
                                0 <= i < n ==> #[trigger] all[i] <= most,
                        decreases 8 * groups - k,
                    {
                        proof {
                            assert(k * width + width <= 8 * (groups * width)) by (nonlinear_arith)
                                requires
                                    k + 1 <= 8 * groups,
                            ;
                            assert(0 <= k * width <= 0x20_0000_0000 * 16) by (nonlinear_arith)
                                requires
                                    0 <= k <= 0x20_0000_0000,
                                    width <= 16,
                            ;
                        }
                        let x: u64 = bits_at(
                            b,
                            8 * next as u128 + k as u128 * width as u128,
                            width,
                        );
                        assert(x == run[k as int]);
                        if x > most as u64 {
                            proof {
                                assert(rest[k as int] == run[k as int]);
                                assert(all[had.len() + k] == rest[k as int]);
                            }
                            return None;
                        }
                        out.push(x as u16);
                        k = k + 1;
                    }
                    proof {
                        lemma_run_taken(had, out@, run, after, all);
                    }
                    at = end;
                }
            },
        }
    }
    if out.len() < n as usize {
        return None;
    }
    assert(as_nats(out@) =~= all.take(n as int));
    Some(out)
}

proof fn lemma_run_taken(
    had: Seq<u16>,
    out: Seq<u16>,
    run: Seq<nat>,
    after: Seq<nat>,
    all: Seq<nat>,
)
    requires
        begins(had, run + after, all),
        had.len() <= out.len() <= had.len() + run.len(),
        forall|i: int| 0 <= i < had.len() ==> out[i] == had[i],
        forall|i: int| had.len() <= i < out.len() ==> (#[trigger] out[i]) == run[i - had.len()],
    ensures
        out.len() <= all.len(),
        forall|i: int| 0 <= i < out.len() ==> #[trigger] all[i] == out[i],
        out.len() == had.len() + run.len() ==> begins(out, after, all),
{
    let rest = run + after;
    assert forall|i: int| 0 <= i < out.len() implies #[trigger] all[i] == out[i] by {
        if i < had.len() {
            assert(all[i] == had[i]);
        } else {
            assert(rest[i - had.len()] == all[had.len() + (i - had.len())]);
            assert(rest[i - had.len()] == run[i - had.len()]);
        }
    }
    if out.len() == had.len() + run.len() {
        assert forall|i: int| 0 <= i < after.len() implies #[trigger] after[i] == all[out.len()
            + i] by {
            assert(rest[run.len() + i] == after[i]);
            assert(rest[run.len() + i] == all[had.len() + (run.len() + i)]);
        }
    }
}

fn pair_levels(reps: &Vec<u16>, defs: &Vec<u16>) -> (r: Vec<(u16, u16)>)
    requires
        reps@.len() == defs@.len(),
    ensures
        as_levels(r@) == paired(as_nats(reps@), as_nats(defs@)),
{
    let mut out: Vec<(u16, u16)> = Vec::new();
    let mut i: usize = 0;
    while i < reps.len()
        invariant
            i <= reps@.len(),
            reps@.len() == defs@.len(),
            out@.len() == i,
            forall|k: int| 0 <= k < i ==> #[trigger] out@[k] == (reps@[k], defs@[k]),
        decreases reps@.len() - i,
    {
        out.push((reps[i], defs[i]));
        i += 1;
    }
    assert(as_levels(out@) =~= paired(as_nats(reps@), as_nats(defs@)));
    out
}

fn levels_of(c: &Chunk, reps: &[u8], defs: &[u8], n: u32) -> (r: Option<Vec<(u16, u16)>>)
    requires
        c.rep > 0,
        c.def > 0,
        pages::in_runs(reps@, 0, pages::bits_of(c.rep as nat), None),
        pages::in_runs(defs@, 0, pages::bits_of(c.def as nat), None),
    ensures
        match (leading(reps@, c.rep, n as nat), leading(defs@, c.def, n as nat)) {
            (Some(x), Some(y)) => if n == 0 || x[0] == 0 {
                r matches Some(v) && as_levels(v@) == paired(x, y)
            } else {
                r is None
            },
            _ => r is None,
        },
{
    let x = match take_leading(reps, c.rep, n) {
        Some(x) => x,
        None => {
            return None;
        },
    };
    let y = match take_leading(defs, c.def, n) {
        Some(y) => y,
        None => {
            return None;
        },
    };
    assert(as_nats(x@).len() == x@.len() && as_nats(y@).len() == y@.len());
    if x.len() > 0 {
        assert(as_nats(x@)[0] == x@[0]);
        if x[0] != 0 {
            return None;
        }
    }
    Some(pair_levels(&x, &y))
}

fn take_page_levels(c: &Chunk, p: &Page) -> (r: Option<Vec<(u16, u16)>>)
    requires
        c.rep > 0,
        c.def > 0,
    ensures
        match page_levels(*c, p@) {
            Some(s) => r matches Some(v) && as_levels(v@) == s,
            None => r is None,
        },
{
    match p {
        Page::Dictionary { .. } => None,
        Page::Data { values, coding: _, defs, reps, body } => {
            let b = body.as_slice();
            match check_levels(b, 0, *reps, c.rep) {
                None => None,
                Some(m) => match check_levels(b, m, *defs, c.def) {
                    None => None,
                    Some(e) => levels_of(
                        c,
                        slice_subrange(b, 4, m),
                        slice_subrange(b, m + 4, e),
                        *values,
                    ),
                },
            }
        },
        Page::DataV2 { values, nulls: _, coding: _, def_len, rep_len, body } => {
            let b = body.as_slice();
            let long: u64 = *rep_len as u64 + *def_len as u64;
            if long > b.len() as u64 {
                return None;
            }
            let m: usize = *rep_len as usize;
            let reps = slice_subrange(b, 0, m);
            let defs = slice_subrange(b, m, long as usize);
            assert(reps@ =~= body@.take(m as int));
            if !check_runs(reps, bit_width(c.rep as u16), None) || !check_runs(
                defs,
                bit_width(c.def as u16),
                None,
            ) {
                return None;
            }
            levels_of(c, reps, defs, *values)
        },
    }
}

fn take_column_levels(c: &Chunk, ps: &Vec<Page>) -> (r: Option<Vec<(u16, u16)>>)
    requires
        c.rep > 0,
        c.def > 0,
    ensures
        match column_levels(*c, seqs::views(ps@), ps@.len()) {
            Some(s) => r matches Some(v) && as_levels(v@) == s,
            None => r is None,
        },
{
    let ghost all = seqs::views(ps@);
    let mut out: Vec<(u16, u16)> = Vec::new();
    let mut i: usize = 0;
    assert(as_levels(out@) =~= Seq::empty());
    while i < ps.len()
        invariant
            i <= ps@.len(),
            c.rep > 0,
            c.def > 0,
            all == seqs::views(ps@),
            out@.len() <= MOST_VALUES,
            column_levels(*c, all, i as nat) == Some(as_levels(out@)),
        decreases ps@.len() - i,
    {
        let ghost had = as_levels(out@);
        assert(all[i as int] == ps@[i as int]@);
        match &ps[i] {
            Page::Dictionary { .. } => {},
            p => match take_page_levels(c, p) {
                None => {
                    proof {
                        lemma_no_levels(*c, all, i as nat + 1, ps@.len());
                    }
                    return None;
                },
                Some(mut more) => {
                    assert(as_levels(more@).len() == more@.len());
                    if more.len() > MOST_VALUES - out.len() {
                        proof {
                            lemma_no_levels(*c, all, i as nat + 1, ps@.len());
                        }
                        return None;
                    }
                    let ghost m = more@;
                    let ghost o = out@;
                    out.append(&mut more);
                    assert(as_levels(o + m) =~= as_levels(o) + as_levels(m));
                },
            },
        }
        i += 1;
    }
    Some(out)
}

proof fn lemma_no_levels(c: Chunk, ps: Seq<PageView>, n: nat, m: nat)
    requires
        n <= m,
        column_levels(c, ps, n) is None,
    ensures
        column_levels(c, ps, m) is None,
    decreases m - n,
{
    if n < m {
        lemma_no_levels(c, ps, n, (m - 1) as nat);
    }
}

fn check_agree(a: &Vec<(u16, u16)>, b: &Vec<(u16, u16)>, most: i16) -> (r: bool)
    ensures
        r == agree(as_levels(a@), as_levels(b@), most as int),
{
    let ghost x = as_levels(a@);
    let ghost y = as_levels(b@);
    if a.len() != b.len() {
        return false;
    }
    let mut i: usize = 0;
    while i < a.len()
        invariant
            i <= a@.len(),
            a@.len() == b@.len(),
            x == as_levels(a@),
            y == as_levels(b@),
            forall|k: int|
                0 <= k < i ==> (#[trigger] x[k]).0 == y[k].0 && (x[k].1 == y[k].1 || (x[k].1 >= most
                    && y[k].1 >= most)),
        decreases a@.len() - i,
    {
        let (p, q) = (a[i], b[i]);
        assert(x[i as int] == (p.0 as nat, p.1 as nat));
        assert(y[i as int] == (q.0 as nat, q.1 as nat));
        if p.0 != q.0 || (p.1 != q.1 && !(p.1 as i32 >= most as i32 && q.1 as i32 >= most as i32)) {
            return false;
        }
        i += 1;
    }
    true
}

fn has_a_place_in_a_map(c: &Chunk) -> (r: bool)
    ensures
        r == in_a_map(*c),
{
    c.rep > 0 && c.def > 0 && c.physical != pages::FIXED_BYTES
}

/// The pages of columns, as mathematics.
pub open spec fn page_rows(of: Seq<Vec<Page>>) -> Seq<Seq<PageView>> {
    of.map_values(|ps: Vec<Page>| seqs::views(ps@))
}

/// Whether the columns of a map agree.
pub(crate) fn check_entries(
    chunks: &Vec<Chunk>,
    of: &Vec<Vec<Page>>,
    key: usize,
    end: usize,
) -> (r: bool)
    ensures
        r == entries_agree(chunks@, page_rows(of@), key as int, end as int),
{
    let ghost rows = page_rows(of@);
    if !(key < end && end <= chunks.len() && chunks.len() <= of.len()) || chunks[key].optional
        || !has_a_place_in_a_map(&chunks[key]) {
        return false;
    }
    assert(rows[key as int] == seqs::views(of@[key as int]@));
    let keys = match take_column_levels(&chunks[key], &of[key]) {
        Some(keys) => keys,
        None => {
            return false;
        },
    };
    let mut j: usize = key + 1;
    while j < end
        invariant
            key < j <= end <= chunks@.len() <= of@.len(),
            rows == page_rows(of@),
            column_levels(chunks@[key as int], rows[key as int], rows[key as int].len()) == Some(
                as_levels(keys@),
            ),
            !chunks@[key as int].optional,
            in_a_map(chunks@[key as int]),
            forall|k: int|
                key < k < j ==> value_agrees(
                    #[trigger] chunks@[k],
                    rows[k],
                    as_levels(keys@),
                    chunks@[key as int].def as int,
                ),
        decreases end - j,
    {
        assert(rows[j as int] == seqs::views(of@[j as int]@));
        let mut fits: bool = false;
        if has_a_place_in_a_map(&chunks[j]) {
            match take_column_levels(&chunks[j], &of[j]) {
                Some(values) => {
                    fits = check_agree(&keys, &values, chunks[key].def);
                },
                None => {},
            }
        }
        if !fits {
            assert(!value_agrees(
                chunks@[j as int],
                rows[j as int],
                as_levels(keys@),
                chunks@[key as int].def as int,
            ));
            return false;
        }
        j += 1;
    }
    true
}

} // verus!
