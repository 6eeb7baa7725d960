//! Sequences of values and the views of what they hold.

use vstd::prelude::*;

verus! {

/// The views of a sequence's values, in order.
pub open spec fn views<T: View>(s: Seq<T>) -> Seq<T::V> {
    s.map_values(|t: T| t@)
}

/// What the views of a sequence hold.
pub broadcast proof fn lemma_views<T: View>(s: Seq<T>)
    ensures
        #![trigger views(s)]
        views(s).len() == s.len(),
        forall|i: int| 0 <= i < s.len() ==> #[trigger] views(s)[i] == s[i]@,
{
}

/// The views of a sequence that grew by one.
pub broadcast proof fn lemma_views_push<T: View>(s: Seq<T>, t: T)
    ensures
        #[trigger] views(s.push(t)) == views(s).push(t@),
{
    assert(views(s.push(t)) =~= views(s).push(t@));
}

/// The views of nothing.
pub proof fn lemma_views_empty<T: View>()
    ensures
        views(Seq::<T>::empty()) == Seq::<T::V>::empty(),
{
    assert(views(Seq::<T>::empty()) =~= Seq::<T::V>::empty());
}

/// The views of a prefix are a prefix of the views.
pub broadcast proof fn lemma_views_take<T: View>(s: Seq<T>, n: int)
    requires
        0 <= n <= s.len(),
    ensures
        #[trigger] views(s.take(n)) == views(s).take(n),
{
    assert(views(s.take(n)) =~= views(s).take(n));
}

/// The views of a concatenation.
pub broadcast proof fn lemma_views_add<T: View>(s: Seq<T>, t: Seq<T>)
    ensures
        #[trigger] views(s + t) == views(s) + views(t),
{
    assert(views(s + t) =~= views(s) + views(t));
}

pub broadcast group group_views {
    lemma_views,
    lemma_views_push,
    lemma_views_take,
    lemma_views_add,
}

/// The view of a value that may be absent.
pub open spec fn opt_view<T: View>(o: Option<T>) -> Option<T::V> {
    match o {
        Some(t) => Some(t@),
        None => None,
    }
}

/// A copy of bytes.
pub fn copy_bytes(v: &Vec<u8>) -> (r: Vec<u8>)
    ensures
        r@ == v@,
{
    let r = v.clone();
    assert(r@ =~= v@);
    r
}

/// A copy of bytes that may be absent.
pub fn copy_opt_bytes(v: &Option<Vec<u8>>) -> (r: Option<Vec<u8>>)
    ensures
        opt_view(r) == opt_view(*v),
{
    match v {
        Some(b) => Some(copy_bytes(b)),
        None => None,
    }
}

/// A copy of text that may be absent.
pub fn copy_opt_text(v: &Option<String>) -> (r: Option<String>)
    ensures
        opt_view(r) == opt_view(*v),
{
    match v {
        Some(t) => Some(t.clone()),
        None => None,
    }
}

/// Append bytes to bytes.
pub fn append_bytes(out: &mut Vec<u8>, v: &[u8])
    ensures
        final(out)@ == old(out)@ + v@,
{
    out.extend_from_slice(v);
    assert(final(out)@ =~= old(out)@ + v@);
}

/// Filtering a prefix that is one longer.
pub proof fn lemma_filter_take<A>(s: Seq<A>, n: int, keep: spec_fn(A) -> bool)
    requires
        0 <= n < s.len(),
    ensures
        s.take(n + 1).filter(keep) == if keep(s[n]) {
            s.take(n).filter(keep).push(s[n])
        } else {
            s.take(n).filter(keep)
        },
{
    reveal(Seq::filter);
    assert(s.take(n + 1).drop_last() =~= s.take(n));
    assert(s.take(n + 1).last() == s[n]);
}

/// Filtering the whole, as a prefix.
pub proof fn lemma_filter_full<A>(s: Seq<A>, keep: spec_fn(A) -> bool)
    ensures
        s.take(s.len() as int).filter(keep) == s.filter(keep),
        s.take(0).filter(keep) == Seq::<A>::empty(),
{
    assert(s.take(s.len() as int) =~= s);
    reveal(Seq::filter);
}

/// Two predicates that agree on a sequence filter it alike.
pub proof fn lemma_filter_same<A>(s: Seq<A>, p: spec_fn(A) -> bool, q: spec_fn(A) -> bool)
    requires
        forall|i: int| 0 <= i < s.len() ==> p(#[trigger] s[i]) == q(s[i]),
    ensures
        s.filter(p) == s.filter(q),
    decreases s.len(),
{
    reveal(Seq::filter);
    if s.len() > 0 {
        assert forall|i: int| 0 <= i < s.drop_last().len() implies p(#[trigger] s.drop_last()[i])
            == q(s.drop_last()[i]) by {
            assert(s.drop_last()[i] == s[i]);
        }
        lemma_filter_same(s.drop_last(), p, q);
        assert(p(s[s.len() - 1]) == q(s[s.len() - 1]));
    }
}

/// Filtering twice is filtering by both.
pub proof fn lemma_filter_twice<A>(s: Seq<A>, p: spec_fn(A) -> bool, q: spec_fn(A) -> bool)
    ensures
        s.filter(p).filter(q) == s.filter(|a: A| p(a) && q(a)),
    decreases s.len(),
{
    reveal(Seq::filter);
    if s.len() > 0 {
        lemma_filter_twice(s.drop_last(), p, q);
        let head = s.drop_last().filter(p);
        if p(s.last()) {
            assert(head.push(s.last()).drop_last() =~= head);
        }
    }
}

/// Filtering a concatenation.
pub proof fn lemma_filter_concat<A>(a: Seq<A>, b: Seq<A>, keep: spec_fn(A) -> bool)
    ensures
        (a + b).filter(keep) == a.filter(keep) + b.filter(keep),
    decreases b.len(),
{
    reveal(Seq::filter);
    if b.len() == 0 {
        assert(a + b =~= a);
        assert(a.filter(keep) + b.filter(keep) =~= a.filter(keep));
    } else {
        lemma_filter_concat(a, b.drop_last(), keep);
        assert((a + b).drop_last() =~= a + b.drop_last());
        assert((a + b).last() == b.last());
        let fa = a.filter(keep);
        let fd = b.drop_last().filter(keep);
        assert((fa + fd).push(b.last()) =~= fa + fd.push(b.last()));
    }
}

/// Filtering a single value.
pub proof fn lemma_filter_single<A>(x: A, keep: spec_fn(A) -> bool)
    ensures
        seq![x].filter(keep) == if keep(x) {
            seq![x]
        } else {
            Seq::empty()
        },
{
    reveal(Seq::filter);
    reveal_with_fuel(Seq::filter, 2);
    assert(seq![x].drop_last() =~= Seq::<A>::empty());
    assert(seq![x].last() == x);
    assert(Seq::<A>::empty().filter(keep) =~= Seq::<A>::empty());
    if keep(x) {
        assert(seq![x].filter(keep) =~= seq![x]);
    } else {
        assert(seq![x].filter(keep) =~= Seq::<A>::empty());
    }
}

/// What filtering keeps satisfies the predicate and was there before.
pub proof fn lemma_filter_member<A>(s: Seq<A>, keep: spec_fn(A) -> bool, i: int)
    requires
        0 <= i < s.filter(keep).len(),
    ensures
        keep(s.filter(keep)[i]),
        exists|k: int| 0 <= k < s.len() && s[k] == s.filter(keep)[i],
    decreases s.len(),
{
    reveal(Seq::filter);
    if s.len() > 0 {
        let d = s.drop_last();
        if i < d.filter(keep).len() {
            lemma_filter_member(d, keep, i);
            let k = choose|k: int| 0 <= k < d.len() && d[k] == d.filter(keep)[i];
            assert(s[k] == s.filter(keep)[i]);
        } else {
            assert(s[s.len() - 1] == s.filter(keep)[i]);
        }
    }
}

/// What was there and satisfies the predicate is kept.
pub proof fn lemma_filter_keeps<A>(s: Seq<A>, keep: spec_fn(A) -> bool, k: int)
    requires
        0 <= k < s.len(),
        keep(s[k]),
    ensures
        s.filter(keep).contains(s[k]),
    decreases s.len(),
{
    reveal(Seq::filter);
    let d = s.drop_last();
    if k < d.len() {
        lemma_filter_keeps(d, keep, k);
        let i = choose|i: int| 0 <= i < d.filter(keep).len() && d.filter(keep)[i] == d[k];
        assert(s.filter(keep)[i] == s[k]);
    } else {
        let f = s.filter(keep);
        assert(f[f.len() - 1] == s[k]);
    }
}

/// Filtering what a mapping gives is mapping what the filter keeps.
pub proof fn lemma_map_filter<A, B>(s: Seq<A>, f: spec_fn(A) -> B, keep: spec_fn(B) -> bool)
    ensures
        s.map_values(f).filter(keep) == s.filter(|a: A| keep(f(a))).map_values(f),
    decreases s.len(),
{
    reveal(Seq::filter);
    let through = |a: A| keep(f(a));
    if s.len() == 0 {
        assert(s.map_values(f) =~= Seq::<B>::empty());
        assert(s.filter(through).map_values(f) =~= Seq::<B>::empty());
    } else {
        let d = s.drop_last();
        lemma_map_filter(d, f, keep);
        assert(s.map_values(f).drop_last() =~= d.map_values(f));
        assert(s.map_values(f).last() == f(s.last()));
        if keep(f(s.last())) {
            assert(s.filter(through) == d.filter(through).push(s.last()));
            assert(s.filter(through).map_values(f) =~= d.filter(through).map_values(f).push(
                f(s.last()),
            ));
        }
    }
}

/// A filter gives no more than it was given.
pub proof fn lemma_filter_shorter<A>(s: Seq<A>, keep: spec_fn(A) -> bool)
    ensures
        s.filter(keep).len() <= s.len(),
    decreases s.len(),
{
    reveal(Seq::filter);
    if s.len() > 0 {
        lemma_filter_shorter(s.drop_last(), keep);
    }
}

/// A filter that keeps everything changes nothing.
pub proof fn lemma_filter_all<A>(s: Seq<A>, keep: spec_fn(A) -> bool)
    requires
        forall|i: int| 0 <= i < s.len() ==> keep(#[trigger] s[i]),
    ensures
        s.filter(keep) == s,
    decreases s.len(),
{
    reveal(Seq::filter);
    if s.len() > 0 {
        let d = s.drop_last();
        assert forall|i: int| 0 <= i < d.len() implies keep(#[trigger] d[i]) by {
            assert(d[i] == s[i]);
        }
        lemma_filter_all(d, keep);
        assert(keep(s[s.len() - 1]));
        assert(d.push(s.last()) =~= s);
    } else {
        assert(s.filter(keep) =~= s);
    }
}

} // verus!
