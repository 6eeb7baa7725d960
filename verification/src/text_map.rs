//! A map from text to text, in key order: a source's labels and metadata.

use vstd::prelude::*;

use crate::text;
use crate::text::{same_text, standing, Standing};

verus! {

/// One key and its value.
pub type Entry = (Seq<char>, Seq<char>);

/// Keys strictly ascending, so that no key occurs twice.
pub open spec fn ascending(e: Seq<Entry>) -> bool {
    forall|i: int, j: int| 0 <= i < j < e.len() ==> text::text_less(#[trigger] e[i].0, #[trigger] e[j].0)
}

/// The entries once `k` stands for `v`: replaced where the key is held, and
/// otherwise inserted in key order.
pub open spec fn put_entry(e: Seq<Entry>, k: Seq<char>, v: Seq<char>) -> Seq<Entry>
    decreases e.len(),
{
    if e.len() == 0 {
        seq![(k, v)]
    } else if k == e[0].0 {
        seq![(k, v)] + e.skip(1)
    } else if text::text_less(k, e[0].0) {
        seq![(k, v)] + e
    } else {
        seq![e[0]] + put_entry(e.skip(1), k, v)
    }
}

/// The entries once every entry of `more` was put, in order.
pub open spec fn put_entries(e: Seq<Entry>, more: Seq<Entry>) -> Seq<Entry>
    decreases more.len(),
{
    if more.len() == 0 {
        e
    } else {
        put_entry(put_entries(e, more.drop_last()), more.last().0, more.last().1)
    }
}

/// What `k` stands for.
pub open spec fn lookup(e: Seq<Entry>, k: Seq<char>) -> Option<Seq<char>>
    decreases e.len(),
{
    if e.len() == 0 {
        None
    } else if e[0].0 == k {
        Some(e[0].1)
    } else {
        lookup(e.skip(1), k)
    }
}

proof fn lemma_put_keys(e: Seq<Entry>, k: Seq<char>, v: Seq<char>)
    ensures
        forall|i: int|
            0 <= i < put_entry(e, k, v).len() ==> #[trigger] put_entry(e, k, v)[i].0 == k || exists|
                j: int,
            | 0 <= j < e.len() && e[j].0 == put_entry(e, k, v)[i].0,
    decreases e.len(),
{
    let p = put_entry(e, k, v);
    if e.len() > 0 && k != e[0].0 && !text::text_less(k, e[0].0) {
        lemma_put_keys(e.skip(1), k, v);
        let q = put_entry(e.skip(1), k, v);
        assert forall|i: int| 0 <= i < p.len() implies #[trigger] p[i].0 == k || exists|j: int|
            0 <= j < e.len() && e[j].0 == p[i].0 by {
            if i == 0 {
                assert(e[0].0 == p[0].0);
            } else {
                assert(p[i] == q[i - 1]);
                if q[i - 1].0 != k {
                    let j = choose|j: int| 0 <= j < e.skip(1).len() && e.skip(1)[j].0 == q[i - 1].0;
                    assert(e[j + 1].0 == p[i].0);
                }
            }
        }
    } else if e.len() > 0 && k == e[0].0 {
        assert forall|i: int| 0 <= i < p.len() implies #[trigger] p[i].0 == k || exists|j: int|
            0 <= j < e.len() && e[j].0 == p[i].0 by {
            if i > 0 {
                assert(p[i] == e[i]);
            }
        }
    } else if e.len() > 0 {
        assert forall|i: int| 0 <= i < p.len() implies #[trigger] p[i].0 == k || exists|j: int|
            0 <= j < e.len() && e[j].0 == p[i].0 by {
            if i > 0 {
                assert(p[i] == e[i - 1]);
            }
        }
    }
}

/// Putting an entry keeps the keys ascending.
pub proof fn lemma_put_ascending(e: Seq<Entry>, k: Seq<char>, v: Seq<char>)
    requires
        ascending(e),
    ensures
        ascending(put_entry(e, k, v)),
    decreases e.len(),
{
    let p = put_entry(e, k, v);
    if e.len() == 0 {
    } else if k == e[0].0 {
        assert forall|i: int, j: int| 0 <= i < j < p.len() implies text::text_less(
            #[trigger] p[i].0,
            #[trigger] p[j].0,
        ) by {
            assert(p[i].0 == e[i].0);
            assert(p[j].0 == e[j].0);
        }
    } else if text::text_less(k, e[0].0) {
        assert forall|i: int, j: int| 0 <= i < j < p.len() implies text::text_less(
            #[trigger] p[i].0,
            #[trigger] p[j].0,
        ) by {
            assert(p[j].0 == e[j - 1].0);
            if i > 0 {
                assert(p[i].0 == e[i - 1].0);
            } else if j > 1 {
                assert(text::text_less(e[0].0, e[j - 1].0));
                text::lemma_text_transitive(k, e[0].0, e[j - 1].0);
            }
        }
    } else {
        let t = e.skip(1);
        assert forall|i: int, j: int| 0 <= i < j < t.len() implies text::text_less(
            #[trigger] t[i].0,
            #[trigger] t[j].0,
        ) by {
            assert(t[i].0 == e[i + 1].0);
            assert(t[j].0 == e[j + 1].0);
        }
        lemma_put_ascending(t, k, v);
        lemma_put_keys(t, k, v);
        text::lemma_text_order(k, e[0].0);
        let q = put_entry(t, k, v);
        assert forall|i: int, j: int| 0 <= i < j < p.len() implies text::text_less(
            #[trigger] p[i].0,
            #[trigger] p[j].0,
        ) by {
            assert(p[j] == q[j - 1]);
            if i > 0 {
                assert(p[i] == q[i - 1]);
            } else if q[j - 1].0 != k {
                let m = choose|m: int| 0 <= m < t.len() && t[m].0 == q[j - 1].0;
                assert(t[m].0 == e[m + 1].0);
                assert(text::text_less(e[0].0, e[m + 1].0));
            }
        }
    }
}

/// Putting entries keeps the keys ascending.
pub proof fn lemma_put_entries_ascending(e: Seq<Entry>, more: Seq<Entry>)
    requires
        ascending(e),
    ensures
        ascending(put_entries(e, more)),
    decreases more.len(),
{
    if more.len() > 0 {
        lemma_put_entries_ascending(e, more.drop_last());
        lemma_put_ascending(put_entries(e, more.drop_last()), more.last().0, more.last().1);
    }
}

/// A key stands for what was put under it last, and every other key for what
/// it stood for before.
pub proof fn lemma_lookup_put(e: Seq<Entry>, k: Seq<char>, v: Seq<char>, q: Seq<char>)
    requires
        ascending(e),
    ensures
        lookup(put_entry(e, k, v), q) == if q == k {
            Some(v)
        } else {
            lookup(e, q)
        },
    decreases e.len(),
{
    let p = put_entry(e, k, v);
    if e.len() == 0 {
        assert(p.skip(1) =~= e);
    } else if k == e[0].0 {
        assert(p.skip(1) =~= e.skip(1));
    } else if text::text_less(k, e[0].0) {
        assert(p.skip(1) =~= e);
    } else {
        let t = e.skip(1);
        assert(p.skip(1) =~= put_entry(t, k, v));
        assert(ascending(t)) by {
            assert forall|i: int, j: int| 0 <= i < j < t.len() implies text::text_less(
                #[trigger] t[i].0,
                #[trigger] t[j].0,
            ) by {
                assert(t[i].0 == e[i + 1].0);
                assert(t[j].0 == e[j + 1].0);
            }
        }
        lemma_lookup_put(t, k, v, q);
    }
}

/// Putting the last key again changes nothing before it: entries in key order
/// put one by one into nothing come back as they were.
pub proof fn lemma_put_last(e: Seq<Entry>)
    requires
        ascending(e),
        e.len() > 0,
    ensures
        put_entry(e.drop_last(), e.last().0, e.last().1) == e,
    decreases e.len(),
{
    let d = e.drop_last();
    let k = e.last().0;
    let v = e.last().1;
    if d.len() == 0 {
        assert(put_entry(d, k, v) =~= e);
    } else {
        assert(text::text_less(e[0].0, e[e.len() - 1].0));
        text::lemma_text_order(d[0].0, k);
        let t = e.skip(1);
        assert forall|i: int, j: int| 0 <= i < j < t.len() implies text::text_less(
            #[trigger] t[i].0,
            #[trigger] t[j].0,
        ) by {
            assert(t[i].0 == e[i + 1].0);
            assert(t[j].0 == e[j + 1].0);
        }
        lemma_put_last(t);
        assert(d.skip(1) =~= t.drop_last());
        assert(put_entry(d, k, v) =~= e);
    }
}

/// Entries in key order put into nothing come back as they were.
pub proof fn lemma_put_entries_rebuild(e: Seq<Entry>)
    requires
        ascending(e),
    ensures
        put_entries(Seq::empty(), e) == e,
    decreases e.len(),
{
    if e.len() > 0 {
        assert(ascending(e.drop_last()));
        lemma_put_entries_rebuild(e.drop_last());
        lemma_put_last(e);
    } else {
        assert(e =~= Seq::<Entry>::empty());
    }
}

/// A map from text to text that keeps its keys in order.
#[derive(Debug, PartialEq, Eq)]
pub struct TextMap {
    entries: Vec<(String, String)>,
}

/// The entries of the pairs in a vector.
pub open spec fn entries_of(v: Seq<(String, String)>) -> Seq<Entry> {
    v.map_values(|p: (String, String)| (p.0@, p.1@))
}

impl View for TextMap {
    type V = Seq<Entry>;

    closed spec fn view(&self) -> Seq<Entry> {
        entries_of(self.entries@)
    }
}

impl TextMap {
    #[verifier::type_invariant]
    spec fn inv(self) -> bool {
        ascending(entries_of(self.entries@))
    }

    /// The map that holds nothing.
    pub fn new() -> (r: TextMap)
        ensures
            r@ == Seq::<Entry>::empty(),
    {
        let r = TextMap { entries: Vec::new() };
        assert(r@ =~= Seq::<Entry>::empty());
        r
    }

    /// How many keys it holds. They are in order, and none occurs twice.
    pub fn len(&self) -> (r: usize)
        ensures
            r == self@.len(),
            ascending(self@),
    {
        proof {
            use_type_invariant(self);
        }
        self.entries.len()
    }

    /// Whether it holds no key.
    pub fn is_empty(&self) -> (r: bool)
        ensures
            r == (self@.len() == 0),
    {
        self.entries.len() == 0
    }

    /// Its keys with what they stand for, in key order.
    pub fn entries(&self) -> (r: &Vec<(String, String)>)
        ensures
            entries_of(r@) == self@,
            ascending(self@),
    {
        proof {
            use_type_invariant(self);
        }
        &self.entries
    }

    /// The key at a position.
    pub fn key_at(&self, i: usize) -> (r: &String)
        requires
            i < self@.len(),
        ensures
            r@ == self@[i as int].0,
    {
        &self.entries[i].0
    }

    /// The value at a position.
    pub fn value_at(&self, i: usize) -> (r: &String)
        requires
            i < self@.len(),
        ensures
            r@ == self@[i as int].1,
    {
        &self.entries[i].1
    }

    /// What a key stands for.
    pub fn get(&self, key: &str) -> (r: Option<&String>)
        ensures
            r is Some <==> lookup(self@, key@) is Some,
            r matches Some(v) ==> lookup(self@, key@) == Some(v@),
    {
        let mut i: usize = 0;
        assert(self@.skip(0) =~= self@);
        while i < self.entries.len()
            invariant
                i <= self@.len(),
                self@.len() == self.entries@.len(),
                lookup(self@, key@) == lookup(self@.skip(i as int), key@),
            decreases self.entries@.len() - i,
        {
            let ghost rest = self@.skip(i as int);
            assert(rest[0] == self@[i as int]);
            assert(rest.skip(1) =~= self@.skip(i + 1));
            if same_text(self.entries[i].0.as_str(), key) {
                return Some(&self.entries[i].1);
            }
            i += 1;
        }
        None
    }

    /// Let `key` stand for `value`.
    pub fn insert(&mut self, key: String, value: String)
        ensures
            final(self)@ == put_entry(old(self)@, key@, value@),
    {
        proof {
            use_type_invariant(&*self);
        }
        let ghost was = self@;
        let mut entries: Vec<(String, String)> = Vec::new();
        std::mem::swap(&mut entries, &mut self.entries);
        let mut i: usize = 0;
        assert(was.skip(0) =~= was);
        assert(put_entry(was, key@, value@) =~= was.take(0) + put_entry(
            was.skip(0),
            key@,
            value@,
        ));
        while i < entries.len()
            invariant
                was == entries_of(entries@),
                ascending(was),
                i <= entries@.len(),
                put_entry(was, key@, value@) == was.take(i as int) + put_entry(
                    was.skip(i as int),
                    key@,
                    value@,
                ),
                self@ == Seq::<Entry>::empty(),
            ensures
                was == entries_of(entries@),
                ascending(was),
                i <= entries@.len(),
                put_entry(was, key@, value@) == was.take(i as int) + put_entry(
                    was.skip(i as int),
                    key@,
                    value@,
                ),
                i < entries@.len() ==> was[i as int].0 == key@ || text::text_less(
                    key@,
                    was[i as int].0,
                ),
            decreases entries@.len() - i,
        {
            let ghost rest = was.skip(i as int);
            assert(rest[0] == was[i as int]);
            assert(rest.skip(1) =~= was.skip(i + 1));
            match standing(key.as_str(), entries[i].0.as_str()) {
                Standing::After => {
                    assert(was.take(i as int) + (seq![rest[0]] + put_entry(
                        rest.skip(1),
                        key@,
                        value@,
                    )) =~= was.take(i + 1) + put_entry(was.skip(i + 1), key@, value@));
                    i += 1;
                },
                _ => {
                    break;
                },
            }
        }
        let ghost rest = was.skip(i as int);
        let ghost k = key@;
        let ghost v = value@;
        if i < entries.len() && same_text(key.as_str(), entries[i].0.as_str()) {
            assert(rest[0] == was[i as int]);
            entries.set(i, (key, value));
            assert(entries_of(entries@) =~= was.take(i as int) + (seq![(k, v)] + rest.skip(1)));
        } else {
            if i < entries.len() {
                assert(rest[0] == was[i as int]);
            } else {
                assert(rest =~= Seq::<Entry>::empty());
            }
            entries.insert(i, (key, value));
            proof {
                if i < was.len() {
                    assert(entries_of(entries@) =~= was.take(i as int) + (seq![(k, v)] + rest));
                } else {
                    assert(entries_of(entries@) =~= was.take(i as int) + seq![(k, v)]);
                }
            }
        }
        proof {
            lemma_put_ascending(was, k, v);
        }
        self.entries = entries;
    }

    /// Let every key of `other` stand for what it stands for there.
    pub fn merge(&mut self, other: &TextMap)
        ensures
            final(self)@ == put_entries(old(self)@, other@),
    {
        let mut i: usize = 0;
        assert(other@.take(0) =~= Seq::<Entry>::empty());
        while i < other.len()
            invariant
                i <= other@.len(),
                self@ == put_entries(old(self)@, other@.take(i as int)),
            decreases other@.len() - i,
        {
            assert(other@.take(i + 1).drop_last() =~= other@.take(i as int));
            self.insert(other.key_at(i).clone(), other.value_at(i).clone());
            i += 1;
        }
        assert(other@.take(other@.len() as int) =~= other@);
    }
}

impl Clone for TextMap {
    fn clone(&self) -> (r: TextMap)
        ensures
            r@ == self@,
    {
        let mut r = TextMap::new();
        r.merge(self);
        proof {
            use_type_invariant(self);
            lemma_put_entries_rebuild(self@);
        }
        r
    }
}

} // verus!
