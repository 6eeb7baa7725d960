//! Lists of names, in order and each once.

use vstd::prelude::*;

use crate::text;
use crate::text::{standing, Standing};

verus! {

/// Names strictly ascending, so that none occurs twice.
pub open spec fn ascending_names(names: Seq<Seq<char>>) -> bool {
    forall|i: int, j: int|
        0 <= i < j < names.len() ==> text::text_less(#[trigger] names[i], #[trigger] names[j])
}

/// The names once `n` is among them, in order.
pub open spec fn with_name(names: Seq<Seq<char>>, n: Seq<char>) -> Seq<Seq<char>>
    decreases names.len(),
{
    if names.len() == 0 {
        seq![n]
    } else if n == names[0] {
        names
    } else if text::text_less(n, names[0]) {
        seq![n] + names
    } else {
        seq![names[0]] + with_name(names.skip(1), n)
    }
}

/// The names once all of `more` are among them.
pub open spec fn with_names(names: Seq<Seq<char>>, more: Seq<Seq<char>>) -> Seq<Seq<char>>
    decreases more.len(),
{
    if more.len() == 0 {
        names
    } else {
        with_name(with_names(names, more.drop_last()), more.last())
    }
}

/// Adding a name keeps the order, and adds that name alone.
pub proof fn lemma_with_name(names: Seq<Seq<char>>, n: Seq<char>)
    requires
        ascending_names(names),
    ensures
        ascending_names(with_name(names, n)),
        forall|q: Seq<char>|
            #[trigger] names.contains(q) || q == n <==> with_name(names, n).contains(q),
    decreases names.len(),
{
    let w = with_name(names, n);
    if names.len() == 0 {
        assert(w[0] == n);
    } else if n == names[0] {
        assert(names.contains(n));
    } else if text::text_less(n, names[0]) {
        assert forall|i: int, j: int| 0 <= i < j < w.len() implies text::text_less(
            #[trigger] w[i],
            #[trigger] w[j],
        ) by {
            assert(w[j] == names[j - 1]);
            if i > 0 {
                assert(w[i] == names[i - 1]);
            } else if j > 1 {
                assert(text::text_less(names[0], names[j - 1]));
                text::lemma_text_transitive(n, names[0], names[j - 1]);
            }
        }
        assert forall|q: Seq<char>| #[trigger] names.contains(q) || q == n <==> w.contains(q) by {
            assert(w[0] == n);
            if names.contains(q) {
                let k = choose|k: int| 0 <= k < names.len() && names[k] == q;
                assert(w[k + 1] == q);
            }
            if w.contains(q) && q != n {
                let k = choose|k: int| 0 <= k < w.len() && w[k] == q;
                assert(names[k - 1] == q);
            }
        }
    } else {
        let t = names.skip(1);
        assert forall|i: int, j: int| 0 <= i < j < t.len() implies text::text_less(
            #[trigger] t[i],
            #[trigger] t[j],
        ) by {
            assert(t[i] == names[i + 1] && t[j] == names[j + 1]);
        }
        lemma_with_name(t, n);
        let u = with_name(t, n);
        text::lemma_text_order(n, names[0]);
        assert forall|i: int, j: int| 0 <= i < j < w.len() implies text::text_less(
            #[trigger] w[i],
            #[trigger] w[j],
        ) by {
            assert(w[j] == u[j - 1]);
            if i > 0 {
                assert(w[i] == u[i - 1]);
            } else {
                assert(u.contains(w[j]));
                if w[j] != n {
                    assert(t.contains(w[j]));
                    let k = choose|k: int| 0 <= k < t.len() && t[k] == w[j];
                    assert(t[k] == names[k + 1]);
                    assert(text::text_less(names[0], names[k + 1]));
                }
            }
        }
        assert forall|q: Seq<char>| #[trigger] names.contains(q) || q == n <==> w.contains(q) by {
            assert(t.contains(q) || q == n <==> u.contains(q));
            if names.contains(q) {
                let k = choose|k: int| 0 <= k < names.len() && names[k] == q;
                if k > 0 {
                    assert(t[k - 1] == q);
                    let m = choose|m: int| 0 <= m < u.len() && u[m] == q;
                    assert(w[m + 1] == q);
                } else {
                    assert(w[0] == q);
                }
            }
            if q == n {
                let m = choose|m: int| 0 <= m < u.len() && u[m] == q;
                assert(w[m + 1] == q);
            }
            if w.contains(q) && q != n {
                let k = choose|k: int| 0 <= k < w.len() && w[k] == q;
                if k > 0 {
                    assert(u[k - 1] == q);
                    let m = choose|m: int| 0 <= m < t.len() && t[m] == q;
                    assert(names[m + 1] == q);
                } else {
                    assert(names[0] == q);
                }
            }
        }
    }
}

/// Adding names keeps the order, and adds those names alone.
pub proof fn lemma_with_names(names: Seq<Seq<char>>, more: Seq<Seq<char>>)
    requires
        ascending_names(names),
    ensures
        ascending_names(with_names(names, more)),
        forall|q: Seq<char>|
            #[trigger] more.contains(q) || names.contains(q) <==> with_names(
                names,
                more,
            ).contains(q),
    decreases more.len(),
{
    if more.len() == 0 {
    } else {
        let d = more.drop_last();
        lemma_with_names(names, d);
        lemma_with_name(with_names(names, d), more.last());
        assert forall|q: Seq<char>|
            #[trigger] more.contains(q) || names.contains(q) <==> with_names(
                names,
                more,
            ).contains(q) by {
            let mid = with_names(names, d);
            assert(d.contains(q) || names.contains(q) <==> mid.contains(q));
            assert(mid.contains(q) || q == more.last() <==> with_name(mid, more.last()).contains(
                q,
            ));
            if more.contains(q) {
                let k = choose|k: int| 0 <= k < more.len() && more[k] == q;
                if k < d.len() {
                    assert(d[k] == q);
                }
            }
            if d.contains(q) {
                let k = choose|k: int| 0 <= k < d.len() && d[k] == q;
                assert(more[k] == q);
            }
            assert(more[more.len() - 1] == more.last());
        }
    }
}

/// Whether a name is among names once more are added.
pub proof fn lemma_named(names: Seq<Seq<char>>, more: Seq<Seq<char>>, q: Seq<char>)
    requires
        ascending_names(names),
    ensures
        with_names(names, more).contains(q) == (names.contains(q) || more.contains(q)),
        ascending_names(with_names(names, more)),
{
    lemma_with_names(names, more);
    assert(more.contains(q) || names.contains(q) <==> with_names(names, more).contains(q));
}

/// Add a name to names in order.
pub fn add_name(names: &mut Vec<String>, n: &str)
    ensures
        crate::seqs::views(final(names)@) == with_name(crate::seqs::views(old(names)@), n@),
{
    broadcast use crate::seqs::group_views;

    let ghost was = crate::seqs::views(names@);
    let mut i: usize = 0;
    assert(was.skip(0) =~= was);
    assert(with_name(was, n@) =~= was.take(0) + with_name(was.skip(0), n@));
    while i < names.len()
        invariant
            was == crate::seqs::views(names@),
            was == crate::seqs::views(old(names)@),
            i <= names@.len(),
            with_name(was, n@) == was.take(i as int) + with_name(was.skip(i as int), n@),
        ensures
            was == crate::seqs::views(names@),
            i <= names@.len(),
            with_name(was, n@) == was.take(i as int) + with_name(was.skip(i as int), n@),
            i < names@.len() ==> was[i as int] != n@ && text::text_less(n@, was[i as int]),
        decreases names@.len() - i,
    {
        let ghost rest = was.skip(i as int);
        assert(rest[0] == was[i as int]);
        assert(rest.skip(1) =~= was.skip(i + 1));
        match standing(n, names[i].as_str()) {
            Standing::Same => {
                assert(was.take(i as int) + rest =~= was);
                return ;
            },
            Standing::Before => {
                break;
            },
            Standing::After => {
                assert(was.take(i as int) + (seq![rest[0]] + with_name(rest.skip(1), n@))
                    =~= was.take(i + 1) + with_name(was.skip(i + 1), n@));
                i += 1;
            },
        }
    }
    let ghost rest = was.skip(i as int);
    names.insert(i, n.to_owned());
    proof {
        if i < was.len() {
            assert(rest[0] == was[i as int]);
            assert(crate::seqs::views(names@) =~= was.take(i as int) + (seq![n@] + rest));
        } else {
            assert(rest =~= Seq::<Seq<char>>::empty());
            assert(crate::seqs::views(names@) =~= was.take(i as int) + seq![n@]);
        }
    }
}

} // verus!
