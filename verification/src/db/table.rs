//! A table: rows in key order.

use vstd::prelude::*;

use crate::seqs;
use crate::text;
use crate::text::{standing, Standing};

verus! {

/// What orders the rows of a table: the source, the stream, and the place in
/// the stream.
pub struct Key {
    pub source: int,
    pub stream: Seq<char>,
    pub at: int,
}

/// Whether a key comes before another.
pub open spec fn before(a: Key, b: Key) -> bool {
    if a.source != b.source {
        a.source < b.source
    } else if a.stream != b.stream {
        text::text_less(a.stream, b.stream)
    } else {
        a.at < b.at
    }
}

/// Of two keys one comes first, unless they are the same.
pub proof fn lemma_key_order(a: Key, b: Key)
    ensures
        !before(a, a),
        before(a, b) ==> !before(b, a) && a != b,
        a != b ==> before(a, b) || before(b, a),
{
    text::lemma_text_order(a.stream, b.stream);
}

/// The order of keys is transitive.
pub proof fn lemma_key_transitive(a: Key, b: Key, c: Key)
    requires
        before(a, b),
        before(b, c),
    ensures
        before(a, c),
{
    if a.source == b.source && b.source == c.source && a.stream != b.stream && b.stream
        != c.stream {
        text::lemma_text_transitive(a.stream, b.stream, c.stream);
        text::lemma_text_order(a.stream, c.stream);
    }
}

/// Not coming after is transitive too.
pub proof fn lemma_key_not_after(a: Key, b: Key, c: Key)
    requires
        !before(b, a),
        !before(c, b),
    ensures
        !before(c, a),
{
    lemma_key_order(a, b);
    lemma_key_order(b, c);
    if a != b && b != c {
        lemma_key_transitive(a, b, c);
    }
    lemma_key_order(a, c);
}

/// A row that a table can hold.
pub trait Keyed: View + Sized {
    /// The row's key.
    spec fn key_of(v: Self::V) -> Key;

    /// The newest timestamp the row holds.
    spec fn newest_of(v: Self::V) -> i64;

    /// Whether no two rows of a table may have the same key.
    spec fn unique() -> bool;

    /// The row's source.
    fn source(&self) -> (r: i64)
        ensures
            r == Self::key_of(self@).source,
    ;

    /// The row's stream.
    fn stream(&self) -> (r: &str)
        ensures
            r@ == Self::key_of(self@).stream,
    ;

    /// The row's place in its stream.
    fn seat(&self) -> (r: i128)
        ensures
            r == Self::key_of(self@).at,
    ;

    /// The newest timestamp the row holds.
    fn newest(&self) -> (r: i64)
        ensures
            r == Self::newest_of(self@),
    ;

    /// Where the row's key stands against another row's.
    fn stands(&self, other: &Self) -> (r: Standing)
        ensures
            r is Before <==> before(Self::key_of(self@), Self::key_of(other@)),
            r is Same <==> Self::key_of(self@) == Self::key_of(other@),
    ;

    /// The row again.
    fn copied(&self) -> (r: Self)
        ensures
            r@ == self@,
    ;
}

/// How two keys stand, from how their parts do.
pub fn stands_by(
    source: i64,
    stream: &str,
    at: i128,
    other_source: i64,
    other_stream: &str,
    other_at: i128,
) -> (r: Standing)
    ensures
        ({
            let a = Key { source: source as int, stream: stream@, at: at as int };
            let b = Key {
                source: other_source as int,
                stream: other_stream@,
                at: other_at as int,
            };
            (r is Before <==> before(a, b)) && (r is Same <==> a == b)
        }),
{
    if source < other_source {
        return Standing::Before;
    }
    if source > other_source {
        return Standing::After;
    }
    match standing(stream, other_stream) {
        Standing::Before => Standing::Before,
        Standing::After => Standing::After,
        Standing::Same => if at < other_at {
            Standing::Before
        } else if at > other_at {
            Standing::After
        } else {
            Standing::Same
        },
    }
}

/// Whether rows are in key order.
pub open spec fn in_order<R: Keyed>(t: Seq<R::V>) -> bool {
    &&& forall|i: int, j: int|
        0 <= i < j < t.len() ==> !before(R::key_of(#[trigger] t[j]), R::key_of(#[trigger] t[i]))
    &&& R::unique() ==> forall|i: int, j: int|
        0 <= i < j < t.len() ==> R::key_of(#[trigger] t[i]) != R::key_of(#[trigger] t[j])
}

/// The rows once one more is in its place: after every row whose key does not
/// come after its own.
pub open spec fn placed<R: Keyed>(t: Seq<R::V>, x: R::V) -> Seq<R::V>
    decreases t.len(),
{
    if t.len() == 0 || before(R::key_of(x), R::key_of(t[0])) {
        seq![x] + t
    } else {
        seq![t[0]] + placed::<R>(t.skip(1), x)
    }
}

/// Whether some row has a key.
pub open spec fn holds<R: Keyed>(t: Seq<R::V>, k: Key) -> bool {
    exists|i: int| 0 <= i < t.len() && R::key_of(#[trigger] t[i]) == k
}

/// Whether a row is of a source, and of a stream where one is named.
pub open spec fn within<R: Keyed>(v: R::V, source: int, stream: Option<Seq<char>>) -> bool {
    &&& R::key_of(v).source == source
    &&& stream matches Some(s) ==> R::key_of(v).stream == s
}

/// The rows of a source, and of a stream where one is named.
pub open spec fn selected<R: Keyed>(
    t: Seq<R::V>,
    source: int,
    stream: Option<Seq<char>>,
) -> Seq<R::V> {
    t.filter(|v: R::V| within::<R>(v, source, stream))
}

/// Whether a row is old: its newest timestamp is before a cutoff.
pub open spec fn old_row<R: Keyed>(
    v: R::V,
    source: int,
    stream: Option<Seq<char>>,
    cutoff: int,
) -> bool {
    within::<R>(v, source, stream) && R::newest_of(v) < cutoff
}

/// The rows without those of a source, and of a stream where one is named,
/// whose newest timestamp is before a cutoff.
pub open spec fn without_old<R: Keyed>(
    t: Seq<R::V>,
    source: int,
    stream: Option<Seq<char>>,
    cutoff: int,
) -> Seq<R::V> {
    t.filter(|v: R::V| !old_row::<R>(v, source, stream, cutoff))
}

/// Whether a row has a key.
pub open spec fn keyed_by<R: Keyed>(v: R::V, k: Key) -> bool {
    R::key_of(v) == k
}

/// The rows without the one of a key.
pub open spec fn without_key<R: Keyed>(t: Seq<R::V>, k: Key) -> Seq<R::V> {
    t.filter(|v: R::V| !keyed_by::<R>(v, k))
}

/// The place of a new row is the first whose key comes after its own.
pub open spec fn place_of<R: Keyed>(t: Seq<R::V>, x: R::V) -> int
    decreases t.len(),
{
    if t.len() == 0 || before(R::key_of(x), R::key_of(t[0])) {
        0
    } else {
        1 + place_of::<R>(t.skip(1), x)
    }
}

/// What the place of a new row is.
pub proof fn lemma_place<R: Keyed>(t: Seq<R::V>, x: R::V)
    ensures
        0 <= place_of::<R>(t, x) <= t.len(),
        placed::<R>(t, x) == t.take(place_of::<R>(t, x)) + seq![x] + t.skip(place_of::<R>(t, x)),
        forall|i: int|
            0 <= i < place_of::<R>(t, x) ==> !before(R::key_of(x), R::key_of(#[trigger] t[i])),
        place_of::<R>(t, x) < t.len() ==> before(
            R::key_of(x),
            R::key_of(t[place_of::<R>(t, x)]),
        ),
    decreases t.len(),
{
    let n = place_of::<R>(t, x);
    if t.len() == 0 || before(R::key_of(x), R::key_of(t[0])) {
        assert(placed::<R>(t, x) =~= t.take(0) + seq![x] + t.skip(0));
    } else {
        let u = t.skip(1);
        lemma_place::<R>(u, x);
        assert(placed::<R>(t, x) =~= t.take(n) + seq![x] + t.skip(n));
        assert forall|i: int| 0 <= i < n implies !before(
            R::key_of(x),
            R::key_of(#[trigger] t[i]),
        ) by {
            if i > 0 {
                assert(t[i] == u[i - 1]);
            }
        }
        if n < t.len() {
            assert(t[n] == u[n - 1]);
        }
    }
}

/// Placing a row keeps the order.
pub proof fn lemma_placed_in_order<R: Keyed>(t: Seq<R::V>, x: R::V)
    requires
        in_order::<R>(t),
        R::unique() ==> !holds::<R>(t, R::key_of(x)),
    ensures
        in_order::<R>(placed::<R>(t, x)),
{
    let n = place_of::<R>(t, x);
    let p = placed::<R>(t, x);
    lemma_place::<R>(t, x);
    assert forall|i: int, j: int| 0 <= i < j < p.len() implies !before(
        R::key_of(#[trigger] p[j]),
        R::key_of(#[trigger] p[i]),
    ) by {
        let a = if i < n {
            i
        } else {
            i - 1
        };
        let b = if j < n {
            j
        } else {
            j - 1
        };
        if j == n {
            assert(p[i] == t[i]);
        } else if i == n {
            assert(p[j] == t[j - 1]);
            lemma_key_order(R::key_of(x), R::key_of(t[n]));
            if n < j - 1 {
                lemma_key_not_after(R::key_of(x), R::key_of(t[n]), R::key_of(t[j - 1]));
            }
        } else {
            assert(p[i] == t[a]);
            assert(p[j] == t[b]);
        }
    }
    if R::unique() {
        assert forall|i: int, j: int| 0 <= i < j < p.len() implies R::key_of(#[trigger] p[i])
            != R::key_of(#[trigger] p[j]) by {
            let a = if i < n {
                i
            } else {
                i - 1
            };
            let b = if j < n {
                j
            } else {
                j - 1
            };
            if j == n {
                assert(p[i] == t[i]);
            } else if i == n {
                assert(p[j] == t[j - 1]);
            } else {
                assert(p[i] == t[a]);
                assert(p[j] == t[b]);
            }
        }
    }
}

/// Filtering keeps the order.
pub proof fn lemma_filter_in_order<R: Keyed>(t: Seq<R::V>, keep: spec_fn(R::V) -> bool)
    requires
        in_order::<R>(t),
    ensures
        in_order::<R>(t.filter(keep)),
        forall|i: int|
            0 <= i < t.filter(keep).len() ==> keep(#[trigger] t.filter(keep)[i]) && t.contains(
                t.filter(keep)[i],
            ),
    decreases t.len(),
{
    reveal(Seq::filter);
    let f = t.filter(keep);
    if t.len() > 0 {
        let d = t.drop_last();
        assert(in_order::<R>(d)) by {
            assert forall|i: int, j: int| 0 <= i < j < d.len() implies !before(
                R::key_of(#[trigger] d[j]),
                R::key_of(#[trigger] d[i]),
            ) by {
                assert(d[i] == t[i] && d[j] == t[j]);
            }
            if R::unique() {
                assert forall|i: int, j: int| 0 <= i < j < d.len() implies R::key_of(
                    #[trigger] d[i],
                ) != R::key_of(#[trigger] d[j]) by {
                    assert(d[i] == t[i] && d[j] == t[j]);
                }
            }
        }
        lemma_filter_in_order::<R>(d, keep);
        let g = d.filter(keep);
        assert forall|i: int| 0 <= i < g.len() implies t.contains(#[trigger] g[i]) by {
            let k = choose|k: int| 0 <= k < d.len() && d[k] == g[i];
            assert(t[k] == g[i]);
        }
        if keep(t.last()) {
            assert(f == g.push(t.last()));
            assert(t[t.len() - 1] == t.last());
            assert forall|i: int| 0 <= i < f.len() implies keep(#[trigger] f[i]) && t.contains(
                f[i],
            ) by {
                if i < g.len() {
                    assert(f[i] == g[i]);
                }
            }
            assert forall|i: int, j: int| 0 <= i < j < f.len() implies !before(
                R::key_of(#[trigger] f[j]),
                R::key_of(#[trigger] f[i]),
            ) by {
                if j < g.len() {
                    assert(f[i] == g[i] && f[j] == g[j]);
                } else {
                    assert(f[i] == g[i]);
                    let k = choose|k: int| 0 <= k < d.len() && d[k] == g[i];
                    assert(t[k] == g[i]);
                }
            }
            if R::unique() {
                assert forall|i: int, j: int| 0 <= i < j < f.len() implies R::key_of(
                    #[trigger] f[i],
                ) != R::key_of(#[trigger] f[j]) by {
                    if j < g.len() {
                        assert(f[i] == g[i] && f[j] == g[j]);
                    } else {
                        assert(f[i] == g[i]);
                        let k = choose|k: int| 0 <= k < d.len() && d[k] == g[i];
                        assert(t[k] == g[i]);
                    }
                }
            }
        } else {
            assert(f == g);
        }
    }
}

/// Filtering after placing a row: the row is placed among those kept, or left
/// out.
pub proof fn lemma_filter_placed<R: Keyed>(t: Seq<R::V>, x: R::V, keep: spec_fn(R::V) -> bool)
    requires
        in_order::<R>(t),
    ensures
        placed::<R>(t, x).filter(keep) == if keep(x) {
            placed::<R>(t.filter(keep), x)
        } else {
            t.filter(keep)
        },
{
    let n = place_of::<R>(t, x);
    lemma_place::<R>(t, x);
    let a = t.take(n);
    let b = t.skip(n);
    assert(t =~= a + b);
    seqs::lemma_filter_concat(a + seq![x], b, keep);
    seqs::lemma_filter_concat(a, seq![x], keep);
    seqs::lemma_filter_concat(a, b, keep);
    seqs::lemma_filter_single(x, keep);
    if keep(x) {
        let fa = a.filter(keep);
        let fb = b.filter(keep);
        assert forall|i: int| 0 <= i < fa.len() implies !before(
            R::key_of(x),
            R::key_of(#[trigger] fa[i]),
        ) by {
            seqs::lemma_filter_member(a, keep, i);
            let k = choose|k: int| 0 <= k < a.len() && a[k] == fa[i];
            assert(a[k] == t[k]);
        }
        assert(fb.len() > 0 ==> before(R::key_of(x), R::key_of(fb[0]))) by {
            if fb.len() > 0 {
                seqs::lemma_filter_member(b, keep, 0);
                let k = choose|k: int| 0 <= k < b.len() && b[k] == fb[0];
                assert(b[k] == t[n + k]);
                lemma_key_order(R::key_of(x), R::key_of(t[n]));
                if k > 0 {
                    assert(!before(R::key_of(t[n + k]), R::key_of(t[n])));
                    lemma_key_order(R::key_of(t[n + k]), R::key_of(t[n]));
                    if R::key_of(t[n + k]) != R::key_of(t[n]) {
                        lemma_key_transitive(
                            R::key_of(x),
                            R::key_of(t[n]),
                            R::key_of(t[n + k]),
                        );
                    }
                }
            }
        }
        lemma_placed_at::<R>(fa, fb, x);
        assert((fa + seq![x]) + fb =~= fa + seq![x] + fb);
    } else {
        assert(a.filter(keep) + Seq::<R::V>::empty() =~= a.filter(keep));
    }
}

/// A row goes between the rows that do not come after it and those that do.
pub proof fn lemma_placed_at<R: Keyed>(a: Seq<R::V>, b: Seq<R::V>, x: R::V)
    requires
        forall|i: int| 0 <= i < a.len() ==> !before(R::key_of(x), R::key_of(#[trigger] a[i])),
        b.len() > 0 ==> before(R::key_of(x), R::key_of(b[0])),
    ensures
        placed::<R>(a + b, x) == a + seq![x] + b,
    decreases a.len(),
{
    if a.len() == 0 {
        assert(a + b =~= b);
        assert(a + seq![x] + b =~= seq![x] + b);
        if b.len() == 0 {
            assert(seq![x] + (a + b) =~= seq![x] + b);
        }
    } else {
        assert((a + b)[0] == a[0]);
        assert((a + b).skip(1) =~= a.skip(1) + b);
        assert forall|i: int| 0 <= i < a.skip(1).len() implies !before(
            R::key_of(x),
            R::key_of(#[trigger] a.skip(1)[i]),
        ) by {
            assert(a.skip(1)[i] == a[i + 1]);
        }
        lemma_placed_at::<R>(a.skip(1), b, x);
        assert(seq![a[0]] + (a.skip(1) + seq![x] + b) =~= a + seq![x] + b);
    }
}

/// Rows in key order.
#[derive(Debug)]
pub struct Table<R: Keyed> {
    rows: Vec<R>,
}

impl<R: Keyed> View for Table<R> {
    type V = Seq<R::V>;

    closed spec fn view(&self) -> Seq<R::V> {
        seqs::views(self.rows@)
    }
}

impl<R: Keyed> Table<R> {
    #[verifier::type_invariant]
    spec fn inv(self) -> bool {
        in_order::<R>(seqs::views(self.rows@))
    }

    /// The table that holds nothing.
    pub fn new() -> (r: Table<R>)
        ensures
            r@ == Seq::<R::V>::empty(),
    {
        proof {
            seqs::lemma_views_empty::<R>();
        }
        Table { rows: Vec::new() }
    }

    /// How many rows there are. They are in key order.
    pub fn len(&self) -> (r: usize)
        ensures
            r == self@.len(),
            in_order::<R>(self@),
    {
        broadcast use crate::seqs::group_views;

        proof {
            use_type_invariant(self);
        }
        self.rows.len()
    }

    /// The row at a position.
    pub fn at(&self, i: usize) -> (r: &R)
        requires
            i < self@.len(),
        ensures
            r@ == self@[i as int],
    {
        broadcast use crate::seqs::group_views;

        &self.rows[i]
    }

    /// Whether a row with the same key is there.
    pub fn has_key(&self, x: &R) -> (r: bool)
        ensures
            r == holds::<R>(self@, R::key_of(x@)),
    {
        broadcast use crate::seqs::group_views;

        let mut i: usize = 0;
        while i < self.rows.len()
            invariant
                i <= self.rows@.len(),
                self@ == seqs::views(self.rows@),
                forall|j: int| 0 <= j < i ==> R::key_of(#[trigger] self@[j]) != R::key_of(x@),
            decreases self.rows@.len() - i,
        {
            if let Standing::Same = self.rows[i].stands(x) {
                assert(R::key_of(self@[i as int]) == R::key_of(x@));
                return true;
            }
            i += 1;
        }
        false
    }

    /// Put a row in its place.
    pub fn place(&mut self, x: R)
        requires
            R::unique() ==> !holds::<R>(old(self)@, R::key_of(x@)),
        ensures
            final(self)@ == placed::<R>(old(self)@, x@),
    {
        broadcast use crate::seqs::group_views;

        proof {
            use_type_invariant(&*self);
            seqs::lemma_views_empty::<R>();
        }
        let ghost t = self@;
        let ghost v = x@;
        let mut rows: Vec<R> = Vec::new();
        std::mem::swap(&mut rows, &mut self.rows);
        let mut i: usize = 0;
        proof {
            lemma_place::<R>(t, v);
        }
        while i < rows.len()
            invariant
                t == seqs::views(rows@),
                i <= rows@.len(),
                i <= place_of::<R>(t, x@),
                place_of::<R>(t, x@) <= t.len(),
                forall|k: int|
                    0 <= k < place_of::<R>(t, x@) ==> !before(
                        R::key_of(x@),
                        R::key_of(#[trigger] t[k]),
                    ),
                place_of::<R>(t, x@) < t.len() ==> before(
                    R::key_of(x@),
                    R::key_of(t[place_of::<R>(t, x@)]),
                ),
            ensures
                i == place_of::<R>(t, x@),
                t == seqs::views(rows@),
            decreases rows@.len() - i,
        {
            assert(t[i as int] == rows@[i as int]@);
            if let Standing::Before = x.stands(&rows[i]) {
                break;
            }
            i += 1;
        }
        rows.insert(i, x);
        proof {
            assert(seqs::views(rows@) =~= t.take(i as int) + seq![v] + t.skip(i as int));
            lemma_placed_in_order::<R>(t, v);
        }
        self.rows = rows;
    }

    /// The rows of a source, and of a stream where one is named.
    pub fn select(&self, source: i64, stream: Option<&str>) -> (r: Vec<&R>)
        ensures
            seqs::views(r@) == selected::<R>(self@, source as int, seqs::opt_view(stream)),
    {
        broadcast use crate::seqs::group_views;

        let ghost t = self@;
        let ghost keep = |v: R::V| within::<R>(v, source as int, seqs::opt_view(stream));
        let mut out: Vec<&R> = Vec::new();
        let mut i: usize = 0;
        proof {
            seqs::lemma_views_empty::<&R>();
            seqs::lemma_filter_full(t, keep);
        }
        while i < self.rows.len()
            invariant
                i <= self.rows@.len(),
                t == seqs::views(self.rows@),
                keep == |v: R::V| within::<R>(v, source as int, seqs::opt_view(stream)),
                seqs::views(out@) == t.take(i as int).filter(keep),
            decreases self.rows@.len() - i,
        {
            let row = &self.rows[i];
            proof {
                seqs::lemma_filter_take(t, i as int, keep);
                assert(t[i as int] == row@);
            }
            let of_stream = match stream {
                None => true,
                Some(s) => text::same_text(row.stream(), s),
            };
            if row.source() == source && of_stream {
                out.push(row);
            }
            i += 1;
        }
        out
    }

    /// Remove the rows of a source, and of a stream where one is named, whose
    /// newest timestamp is before a cutoff, and say how many they were.
    pub fn remove_old(&mut self, source: i64, stream: Option<&str>, cutoff: i128) -> (r: usize)
        ensures
            final(self)@ == without_old::<R>(
                old(self)@,
                source as int,
                seqs::opt_view(stream),
                cutoff as int,
            ),
            r == old(self)@.len() - final(self)@.len(),
    {
        broadcast use crate::seqs::group_views;

        let ghost t = self@;
        let ghost keep = |v: R::V|
            !old_row::<R>(v, source as int, seqs::opt_view(stream), cutoff as int);
        proof {
            use_type_invariant(&*self);
        }
        let before: usize = self.rows.len();
        let mut kept: Vec<R> = Vec::new();
        let mut i: usize = 0;
        proof {
            seqs::lemma_views_empty::<R>();
            seqs::lemma_filter_full(t, keep);
            lemma_filter_in_order::<R>(t, keep);
            t.lemma_filter_len(keep);
        }
        while i < self.rows.len()
            invariant
                i <= self.rows@.len(),
                t == seqs::views(self.rows@),
                keep == |v: R::V|
                    !old_row::<R>(v, source as int, seqs::opt_view(stream), cutoff as int),
                seqs::views(kept@) == t.take(i as int).filter(keep),
            decreases self.rows@.len() - i,
        {
            let row = &self.rows[i];
            proof {
                seqs::lemma_filter_take(t, i as int, keep);
                assert(t[i as int] == row@);
            }
            let of_stream = match stream {
                None => true,
                Some(s) => text::same_text(row.stream(), s),
            };
            if !(row.source() == source && of_stream && (row.newest() as i128) < cutoff) {
                kept.push(row.copied());
            }
            i += 1;
        }
        self.rows = kept;
        before - self.rows.len()
    }

    /// Remove the row of a key, where it is there.
    pub fn remove_key(&mut self, source: i64, stream: &str, at: i128)
        ensures
            final(self)@ == without_key::<R>(
                old(self)@,
                Key { source: source as int, stream: stream@, at: at as int },
            ),
    {
        broadcast use crate::seqs::group_views;

        let ghost t = self@;
        let ghost k = Key { source: source as int, stream: stream@, at: at as int };
        let ghost keep = |v: R::V| !keyed_by::<R>(v, k);
        let mut kept: Vec<R> = Vec::new();
        let mut i: usize = 0;
        proof {
            use_type_invariant(&*self);
            seqs::lemma_views_empty::<R>();
            seqs::lemma_filter_full(t, keep);
            lemma_filter_in_order::<R>(t, keep);
        }
        while i < self.rows.len()
            invariant
                i <= self.rows@.len(),
                t == seqs::views(self.rows@),
                k == (Key { source: source as int, stream: stream@, at: at as int }),
                keep == |v: R::V| !keyed_by::<R>(v, k),
                seqs::views(kept@) == t.take(i as int).filter(keep),
            decreases self.rows@.len() - i,
        {
            let row = &self.rows[i];
            proof {
                seqs::lemma_filter_take(t, i as int, keep);
                assert(t[i as int] == row@);
            }
            if !(row.source() == source && text::same_text(row.stream(), stream) && row.seat()
                == at) {
                kept.push(row.copied());
            }
            i += 1;
        }
        self.rows = kept;
    }

    /// The table again.
    pub fn copied(&self) -> (r: Table<R>)
        ensures
            r@ == self@,
    {
        broadcast use crate::seqs::group_views;

        let mut rows: Vec<R> = Vec::new();
        let mut i: usize = 0;
        proof {
            seqs::lemma_views_empty::<R>();
        }
        while i < self.rows.len()
            invariant
                i <= self.rows@.len(),
                seqs::views(rows@) == seqs::views(self.rows@).take(i as int),
            decreases self.rows@.len() - i,
        {
            let ghost was = seqs::views(rows@);
            rows.push(self.rows[i].copied());
            proof {
                assert(seqs::views(self.rows@).take(i + 1) =~= was.push(
                    seqs::views(self.rows@)[i as int],
                ));
            }
            i += 1;
        }
        proof {
            use_type_invariant(self);
            assert(seqs::views(self.rows@).take(i as int) =~= seqs::views(self.rows@));
        }
        Table { rows }
    }

    /// Put a row in the place of the one at a position, which has the same
    /// key.
    pub fn replace(&mut self, i: usize, x: R)
        requires
            i < old(self)@.len(),
            R::key_of(x@) == R::key_of(old(self)@[i as int]),
        ensures
            final(self)@ == old(self)@.update(i as int, x@),
    {
        broadcast use crate::seqs::group_views;

        proof {
            use_type_invariant(&*self);
            seqs::lemma_views_empty::<R>();
        }
        let ghost t = self@;
        let ghost v = x@;
        let mut rows: Vec<R> = Vec::new();
        std::mem::swap(&mut rows, &mut self.rows);
        rows.set(i, x);
        proof {
            let u = seqs::views(rows@);
            assert(u =~= t.update(i as int, v));
            assert forall|a: int| 0 <= a < u.len() implies R::key_of(#[trigger] u[a])
                == R::key_of(t[a]) by {}
        }
        self.rows = rows;
    }
}

} // verus!
