//! A small map: one value per key, in no order that shows.

use vstd::prelude::*;

use crate::text::same_text;

verus! {

/// What a value can be kept under.
pub trait SlotKey: View + Sized {
    /// Whether two keys are one.
    fn same(&self, other: &Self) -> (r: bool)
        ensures
            r == (self@ == other@),
    ;
}

impl SlotKey for i64 {
    fn same(&self, other: &i64) -> (r: bool) {
        *self == *other
    }
}

impl SlotKey for u32 {
    fn same(&self, other: &u32) -> (r: bool) {
        *self == *other
    }
}

impl SlotKey for String {
    fn same(&self, other: &String) -> (r: bool) {
        same_text(self.as_str(), other.as_str())
    }
}

impl SlotKey for (i64, String) {
    fn same(&self, other: &(i64, String)) -> (r: bool) {
        self.0 == other.0 && same_text(self.1.as_str(), other.1.as_str())
    }
}

/// The map of entries: a later one stands over an earlier.
pub open spec fn map_of<K: SlotKey, T>(s: Seq<(K, T)>) -> Map<K::V, T>
    decreases s.len(),
{
    if s.len() == 0 {
        Map::empty()
    } else {
        map_of(s.drop_last()).insert(s.last().0@, s.last().1)
    }
}

/// No two entries have one key.
pub open spec fn distinct<K: SlotKey, T>(s: Seq<(K, T)>) -> bool {
    forall|i: int, j: int| 0 <= i < j < s.len() ==> #[trigger] s[i].0@ != #[trigger] s[j].0@
}

proof fn lemma_map_of<K: SlotKey, T>(s: Seq<(K, T)>)
    requires
        distinct(s),
    ensures
        forall|i: int|
            0 <= i < s.len() ==> map_of(s).dom().contains(#[trigger] s[i].0@) && map_of(
                s,
            )[s[i].0@] == s[i].1,
        forall|k: K::V| #[trigger]
            map_of(s).dom().contains(k) ==> exists|i: int|
                0 <= i < s.len() && #[trigger] s[i].0@ == k,
    decreases s.len(),
{
    if s.len() > 0 {
        let d = s.drop_last();
        assert(distinct(d)) by {
            assert forall|i: int, j: int| 0 <= i < j < d.len() implies #[trigger] d[i].0@
                != #[trigger] d[j].0@ by {
                assert(s[i].0@ != s[j].0@);
            }
        }
        lemma_map_of(d);
        assert forall|i: int| 0 <= i < s.len() implies map_of(s).dom().contains(
            #[trigger] s[i].0@,
        ) && map_of(s)[s[i].0@] == s[i].1 by {
            if i < d.len() {
                assert(d[i].0@ == s[i].0@);
                assert(s[i].0@ != s[s.len() - 1].0@);
            }
        }
        assert forall|k: K::V| #[trigger] map_of(s).dom().contains(k) implies exists|i: int|
            0 <= i < s.len() && #[trigger] s[i].0@ == k by {
            if k == s.last().0@ {
                assert(s[s.len() - 1].0@ == k);
            } else {
                assert(map_of(d).dom().contains(k));
                let i = choose|i: int| 0 <= i < d.len() && #[trigger] d[i].0@ == k;
                assert(s[i].0@ == k);
            }
        }
    }
}

/// One value per key.
pub struct Slots<K: SlotKey, T: Copy> {
    entries: Vec<(K, T)>,
}

impl<K: SlotKey, T: Copy> View for Slots<K, T> {
    type V = Map<K::V, T>;

    closed spec fn view(&self) -> Map<K::V, T> {
        map_of(self.entries@)
    }
}

impl<K: SlotKey, T: Copy> Slots<K, T> {
    #[verifier::type_invariant]
    closed spec fn one_each(self) -> bool {
        distinct(self.entries@)
    }

    /// Nothing kept yet.
    pub fn new() -> (r: Slots<K, T>)
        ensures
            r@ == Map::<K::V, T>::empty(),
    {
        Slots { entries: Vec::new() }
    }

    /// The value kept under a key.
    pub fn get(&self, key: &K) -> (r: Option<T>)
        ensures
            r == (if self@.dom().contains(key@) {
                Some(self@[key@])
            } else {
                None
            }),
    {
        proof {
            use_type_invariant(self);
            lemma_map_of(self.entries@);
        }
        let mut i: usize = 0;
        while i < self.entries.len()
            invariant
                i <= self.entries@.len(),
                distinct(self.entries@),
                forall|j: int| 0 <= j < i ==> #[trigger] self.entries@[j].0@ != key@,
                forall|j: int|
                    0 <= j < self.entries@.len() ==> self@.dom().contains(
                        #[trigger] self.entries@[j].0@,
                    ) && self@[self.entries@[j].0@] == self.entries@[j].1,
            decreases self.entries@.len() - i,
        {
            if self.entries[i].0.same(key) {
                assert(self@.dom().contains(self.entries@[i as int].0@));
                return Some(self.entries[i].1);
            }
            i += 1;
        }
        None
    }

    /// Keep a value under a key, over what was there.
    pub fn set(&mut self, key: K, value: T)
        ensures
            final(self)@ == old(self)@.insert(key@, value),
    {
        proof {
            use_type_invariant(&*self);
        }
        let mut entries: Vec<(K, T)> = Vec::new();
        std::mem::swap(&mut entries, &mut self.entries);
        let ghost was = entries@;
        proof {
            lemma_map_of(was);
        }
        let mut i: usize = 0;
        while i < entries.len()
            invariant
                i <= entries@.len(),
                entries@ == was,
                distinct(was),
                map_of(was) == old(self)@,
                self.entries@.len() == 0,
                forall|j: int| 0 <= j < i ==> #[trigger] was[j].0@ != key@,
            decreases entries@.len() - i,
        {
            if entries[i].0.same(&key) {
                let ghost next = was.update(i as int, (key, value));
                entries.set(i, (key, value));
                proof {
                    assert(entries@ =~= next);
                    assert forall|a: int, b: int| 0 <= a < b < next.len() implies #[trigger] next[a].0@
                        != #[trigger] next[b].0@ by {
                        assert(was[a].0@ != was[b].0@);
                    }
                    lemma_updated(was, i as int, (key, value));
                }
                self.entries = entries;
                return ;
            }
            i += 1;
        }
        entries.push((key, value));
        proof {
            assert(entries@.drop_last() =~= was);
            assert forall|a: int, b: int| 0 <= a < b < entries@.len() implies #[trigger] entries@[a].0@
                != #[trigger] entries@[b].0@ by {
                if b < was.len() {
                    assert(was[a].0@ != was[b].0@);
                } else {
                    assert(was[a].0@ != key@);
                }
            }
        }
        self.entries = entries;
    }
}

proof fn lemma_updated<K: SlotKey, T>(s: Seq<(K, T)>, i: int, e: (K, T))
    requires
        distinct(s),
        0 <= i < s.len(),
        s[i].0@ == e.0@,
    ensures
        map_of(s.update(i, e)) == map_of(s).insert(e.0@, e.1),
    decreases s.len(),
{
    let n = s.update(i, e);
    let d = s.drop_last();
    if i == s.len() - 1 {
        assert(n.drop_last() =~= d);
        assert(map_of(n) =~= map_of(s).insert(e.0@, e.1));
    } else {
        assert(distinct(d)) by {
            assert forall|a: int, b: int| 0 <= a < b < d.len() implies #[trigger] d[a].0@
                != #[trigger] d[b].0@ by {
                assert(s[a].0@ != s[b].0@);
            }
        }
        lemma_updated(d, i, e);
        assert(n.drop_last() =~= d.update(i, e));
        assert(s[i].0@ != s[s.len() - 1].0@);
        assert(map_of(n) =~= map_of(s).insert(e.0@, e.1));
    }
}

} // verus!
