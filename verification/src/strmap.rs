//! A map from text keys to values, kept as an association list.
//!
//! Keys never repeat. Insertion order is preserved, so walking the entries is
//! deterministic; the mathematical view of the map forgets the order.

use vstd::prelude::*;

verus! {

/// No two entries of `s` carry the same key text.
pub open spec fn distinct_keys<V>(s: Seq<(String, V)>) -> bool {
    forall|i: int, j: int| 0 <= i < j < s.len() ==> s[i].0@ != s[j].0@
}

/// Some entry of `s` carries the key `key`.
pub open spec fn has_key<V>(s: Seq<(String, V)>, key: Seq<char>) -> bool {
    exists|i: int| 0 <= i < s.len() && #[trigger] s[i].0@ == key
}

/// The position of `key` in `s` (meaningful when `has_key(s, key)`).
pub open spec fn position_of<V>(s: Seq<(String, V)>, key: Seq<char>) -> int {
    choose|i: int| 0 <= i < s.len() && #[trigger] s[i].0@ == key
}

/// The finite map that an association list with distinct keys denotes.
pub open spec fn map_of<V: View>(s: Seq<(String, V)>) -> Map<Seq<char>, V::V> {
    Map::new(|k: Seq<char>| has_key(s, k), |k: Seq<char>| s[position_of(s, k)].1@)
}

/// In a list with distinct keys every entry is found under its own key.
pub proof fn lemma_map_of_entry<V: View>(s: Seq<(String, V)>, i: int)
    requires
        distinct_keys(s),
        0 <= i < s.len(),
    ensures
        map_of(s).contains_key(s[i].0@),
        map_of(s)[s[i].0@] == s[i].1@,
        position_of(s, s[i].0@) == i,
{
    let k = s[i].0@;
    assert(has_key(s, k));
    let j = position_of(s, k);
    assert(0 <= j < s.len() && s[j].0@ == k);
    if j < i {
        assert(s[j].0@ != s[i].0@);
    } else if i < j {
        assert(s[i].0@ != s[j].0@);
    }
}

/// Appending an entry under a fresh key inserts it into the denoted map.
pub proof fn lemma_map_of_push<V: View>(s: Seq<(String, V)>, e: (String, V))
    requires
        distinct_keys(s),
        !has_key(s, e.0@),
    ensures
        distinct_keys(s.push(e)),
        map_of(s.push(e)) =~= map_of(s).insert(e.0@, e.1@),
{
    let t = s.push(e);
    assert forall|i: int, j: int| 0 <= i < j < t.len() implies t[i].0@ != t[j].0@ by {
        if j == s.len() {
            if t[i].0@ == t[j].0@ {
                assert(s[i].0@ == e.0@);
                assert(has_key(s, e.0@));
            }
        } else {
            assert(s[i].0@ != s[j].0@);
        }
    }
    assert forall|k: Seq<char>| #[trigger] map_of(t).contains_key(k) <==> map_of(s).insert(e.0@, e.1@).contains_key(k) by {
        if has_key(t, k) {
            let i = position_of(t, k);
            if i < s.len() {
                assert(s[i].0@ == k);
                assert(has_key(s, k));
            }
        }
        if has_key(s, k) {
            let i = position_of(s, k);
            assert(t[i].0@ == k);
        }
        if k == e.0@ {
            assert(t[s.len() as int].0@ == k);
        }
    }
    assert forall|k: Seq<char>| map_of(t).contains_key(k) implies #[trigger] map_of(t)[k] == map_of(s).insert(e.0@, e.1@)[k] by {
        let i = position_of(t, k);
        lemma_map_of_entry(t, i);
        if i < s.len() {
            assert(s[i].0@ == k);
            lemma_map_of_entry(s, i);
        }
    }
}

/// Replacing the value of entry `i` inserts the new value under its key.
pub proof fn lemma_map_of_update<V: View>(s: Seq<(String, V)>, i: int, e: (String, V))
    requires
        distinct_keys(s),
        0 <= i < s.len(),
        e.0@ == s[i].0@,
    ensures
        distinct_keys(s.update(i, e)),
        map_of(s.update(i, e)) =~= map_of(s).insert(e.0@, e.1@),
{
    let t = s.update(i, e);
    assert forall|a: int, b: int| 0 <= a < b < t.len() implies t[a].0@ != t[b].0@ by {
        assert(s[a].0@ != s[b].0@);
    }
    assert forall|k: Seq<char>| #[trigger] map_of(t).contains_key(k) <==> map_of(s).insert(e.0@, e.1@).contains_key(k) by {
        if has_key(t, k) {
            let j = position_of(t, k);
            assert(s[j].0@ == k);
        }
        if has_key(s, k) {
            let j = position_of(s, k);
            assert(t[j].0@ == k);
        }
        if k == e.0@ {
            assert(t[i].0@ == k);
        }
    }
    assert forall|k: Seq<char>| map_of(t).contains_key(k) implies #[trigger] map_of(t)[k] == map_of(s).insert(e.0@, e.1@)[k] by {
        let j = position_of(t, k);
        lemma_map_of_entry(t, j);
        if j != i {
            assert(s[j].0@ == k);
            lemma_map_of_entry(s, j);
        }
    }
}

/// Removing entry `i` removes its key from the denoted map.
pub proof fn lemma_map_of_remove<V: View>(s: Seq<(String, V)>, i: int)
    requires
        distinct_keys(s),
        0 <= i < s.len(),
    ensures
        distinct_keys(s.remove(i)),
        map_of(s.remove(i)) =~= map_of(s).remove(s[i].0@),
{
    let t = s.remove(i);
    assert forall|a: int, b: int| 0 <= a < b < t.len() implies t[a].0@ != t[b].0@ by {
        let a0 = if a < i { a } else { a + 1 };
        let b0 = if b < i { b } else { b + 1 };
        assert(s[a0].0@ != s[b0].0@);
    }
    assert forall|k: Seq<char>| #[trigger] map_of(t).contains_key(k) <==> map_of(s).remove(s[i].0@).contains_key(k) by {
        if has_key(t, k) {
            let j = position_of(t, k);
            let j0 = if j < i { j } else { j + 1 };
            assert(s[j0].0@ == k);
            if j0 < i {
                assert(s[j0].0@ != s[i].0@);
            } else {
                assert(s[i].0@ != s[j0].0@);
            }
        }
        if has_key(s, k) && k != s[i].0@ {
            let j = position_of(s, k);
            let j1 = if j < i { j } else { j - 1 };
            assert(t[j1].0@ == k);
        }
    }
    assert forall|k: Seq<char>| map_of(t).contains_key(k) implies #[trigger] map_of(t)[k] == map_of(s).remove(s[i].0@)[k] by {
        let j = position_of(t, k);
        lemma_map_of_entry(t, j);
        let j0 = if j < i { j } else { j + 1 };
        assert(s[j0].0@ == k);
        lemma_map_of_entry(s, j0);
    }
}

/// Whether two strings hold the same text.
pub fn same_text(a: &String, b: &String) -> (r: bool)
    ensures
        r == (a@ == b@),
{
    *a == *b
}

/// A map from text keys to values.
#[derive(Debug)]
pub struct StrMap<V> {
    entries: Vec<(String, V)>,
}

impl<V: View> View for StrMap<V> {
    type V = Map<Seq<char>, V::V>;

    open spec fn view(&self) -> Map<Seq<char>, V::V> {
        map_of(self.seq())
    }
}

impl<V> StrMap<V> {
    /// The entries in insertion order.
    pub closed spec fn seq(&self) -> Seq<(String, V)> {
        self.entries@
    }

    /// Keys are distinct. Every operation of the type keeps this.
    pub open spec fn wf(&self) -> bool {
        distinct_keys(self.seq())
    }
}

impl<V: View> StrMap<V> {
    /// The empty map.
    pub fn new() -> (r: Self)
        ensures
            r.wf(),
            r.seq() == Seq::<(String, V)>::empty(),
            r@ == Map::<Seq<char>, V::V>::empty(),
    {
        let r = StrMap { entries: Vec::new() };
        assert(r@ =~= Map::<Seq<char>, V::V>::empty());
        r
    }

    /// The number of entries.
    pub fn len(&self) -> (n: usize)
        requires
            self.wf(),
        ensures
            n == self.seq().len(),
    {
        self.entries.len()
    }

    /// Whether the map holds no entry.
    pub fn is_empty(&self) -> (r: bool)
        requires
            self.wf(),
        ensures
            r == (self.seq().len() == 0),
            r == (self@ == Map::<Seq<char>, V::V>::empty()),
    {
        proof {
            if self.entries@.len() == 0 {
                assert(self@ =~= Map::<Seq<char>, V::V>::empty());
            } else {
                lemma_map_of_entry(self.entries@, 0);
            }
        }
        self.entries.len() == 0
    }

    /// The key of the entry at position `i`.
    pub fn key_at(&self, i: usize) -> (k: &String)
        requires
            self.wf(),
            i < self.seq().len(),
        ensures
            *k == self.seq()[i as int].0,
    {
        &self.entries[i].0
    }

    /// The value of the entry at position `i`.
    pub fn value_at(&self, i: usize) -> (v: &V)
        requires
            self.wf(),
            i < self.seq().len(),
        ensures
            *v == self.seq()[i as int].1,
    {
        &self.entries[i].1
    }

    /// The position of `key` among the entries, if it is present.
    pub fn find(&self, key: &String) -> (r: Option<usize>)
        requires
            self.wf(),
        ensures
            match r {
                Some(i) => i < self.seq().len() && self.seq()[i as int].0@ == key@,
                None => !has_key(self.seq(), key@),
            },
    {
        let mut i: usize = 0;
        while i < self.entries.len()
            invariant
                i <= self.entries.len(),
                forall|j: int| 0 <= j < i ==> self.entries@[j].0@ != key@,
            decreases self.entries.len() - i,
        {
            if same_text(&self.entries[i].0, key) {
                return Some(i);
            }
            i += 1;
        }
        None
    }

    /// Whether `key` is present.
    pub fn contains_key(&self, key: &String) -> (r: bool)
        requires
            self.wf(),
        ensures
            r == self@.contains_key(key@),
    {
        self.find(key).is_some()
    }

    /// The value stored under `key`.
    pub fn get(&self, key: &String) -> (r: Option<&V>)
        requires
            self.wf(),
        ensures
            match r {
                Some(v) => self@.contains_key(key@) && self@[key@] == v@,
                None => !self@.contains_key(key@),
            },
    {
        match self.find(key) {
            Some(i) => {
                proof {
                    lemma_map_of_entry(self.entries@, i as int);
                }
                Some(&self.entries[i].1)
            },
            None => None,
        }
    }

    /// Stores `value` under `key`, replacing what was there.
    pub fn insert(&mut self, key: String, value: V)
        requires
            old(self).wf(),
        ensures
            final(self).wf(),
            final(self)@ == old(self)@.insert(key@, value@),
            match old(self).index_of(key@) {
                Some(i) => final(self).seq() == old(self).seq().update(i, (key, value)),
                None => final(self).seq() == old(self).seq().push((key, value)),
            },
    {
        match self.find(&key) {
            Some(i) => {
                proof {
                    lemma_map_of_entry(self.entries@, i as int);
                    lemma_map_of_update(self.entries@, i as int, (key, value));
                }
                self.entries[i] = (key, value);
            },
            None => {
                proof {
                    lemma_map_of_push(self.entries@, (key, value));
                }
                self.entries.push((key, value));
            },
        }
    }

    /// Removes `key`, handing back what was stored under it.
    pub fn remove(&mut self, key: &String) -> (r: Option<V>)
        requires
            old(self).wf(),
        ensures
            final(self).wf(),
            final(self)@ == old(self)@.remove(key@),
            match r {
                Some(v) => old(self)@.contains_key(key@) && old(self)@[key@] == v@,
                None => !old(self)@.contains_key(key@),
            },
    {
        match self.find(key) {
            Some(i) => {
                proof {
                    lemma_map_of_entry(self.entries@, i as int);
                    lemma_map_of_remove(self.entries@, i as int);
                }
                let e = self.entries.remove(i);
                Some(e.1)
            },
            None => {
                assert(self@ =~= old(self)@.remove(key@));
                None
            },
        }
    }

    /// Removes every entry.
    pub fn clear(&mut self)
        ensures
            final(self).wf(),
            final(self).seq() == Seq::<(String, V)>::empty(),
            final(self)@ == Map::<Seq<char>, V::V>::empty(),
    {
        self.entries.clear();
        assert(self@ =~= Map::<Seq<char>, V::V>::empty());
    }

    /// Stores every entry of `other`, in its order, replacing what was there.
    pub fn extend(&mut self, other: StrMap<V>)
        requires
            old(self).wf(),
            other.wf(),
        ensures
            final(self).wf(),
            final(self)@ == old(self)@.union_prefer_right(other@),
    {
        let ghost src = other.entries@;
        let mut rest = other.entries;
        let mut rev: Vec<(String, V)> = Vec::new();
        while rest.len() > 0
            invariant
                rest@.len() + rev@.len() == src.len(),
                forall|i: int| 0 <= i < rest@.len() ==> rest@[i] == src[i],
                forall|i: int| 0 <= i < rev@.len() ==> rev@[i] == src[src.len() - 1 - i],
            decreases rest.len(),
        {
            let e = rest.pop().unwrap();
            rev.push(e);
        }
        let ghost start = self@;
        assert(map_of(src.take(0)) =~= Map::<Seq<char>, V::V>::empty());
        assert(start.union_prefer_right(map_of(src.take(0))) =~= start);
        while rev.len() > 0
            invariant
                rev@.len() <= src.len(),
                distinct_keys(src),
                forall|i: int| 0 <= i < rev@.len() ==> rev@[i] == src[src.len() - 1 - i],
                self.wf(),
                self@ == start.union_prefer_right(map_of(src.take(src.len() - rev@.len()))),
            decreases rev.len(),
        {
            let ghost done = src.len() - rev@.len();
            let e = rev.pop().unwrap();
            proof {
                assert(e == src[done]);
                let head = src.take(done);
                assert(src.take(done + 1) =~= head.push(e));
                assert(distinct_keys(head));
                if has_key(head, e.0@) {
                    let j = position_of(head, e.0@);
                    assert(src[j].0@ == e.0@);
                    assert(src[j].0@ != src[done].0@);
                }
                lemma_map_of_push(head, e);
                assert(start.union_prefer_right(map_of(head).insert(e.0@, e.1@))
                    =~= start.union_prefer_right(map_of(head)).insert(e.0@, e.1@));
            }
            self.insert(e.0, e.1);
        }
        assert(src.take(src.len() as int) =~= src);
    }

    /// The position of `key` in the entry list, as a specification value.
    pub open spec fn index_of(&self, key: Seq<char>) -> Option<int> {
        if has_key(self.seq(), key) {
            Some(position_of(self.seq(), key))
        } else {
            None
        }
    }
}

impl<V: Clone> Clone for StrMap<V> {
    /// A copy with the same keys in the same order, each value cloned.
    fn clone(&self) -> (r: Self)
        ensures
            r.seq().len() == self.seq().len(),
            forall|i: int|
                0 <= i < self.seq().len() ==> (#[trigger] r.seq()[i]).0 == self.seq()[i].0
                    && cloned(self.seq()[i].1, r.seq()[i].1),
            self.wf() ==> r.wf(),
    {
        let mut entries: Vec<(String, V)> = Vec::new();
        let mut i: usize = 0;
        while i < self.entries.len()
            invariant
                i <= self.entries.len(),
                entries@.len() == i,
                forall|j: int|
                    0 <= j < i ==> (#[trigger] entries@[j]).0 == self.entries@[j].0 && cloned(
                        self.entries@[j].1,
                        entries@[j].1,
                    ),
            decreases self.entries.len() - i,
        {
            let k = self.entries[i].0.clone();
            let v = self.entries[i].1.clone();
            entries.push((k, v));
            i += 1;
        }
        StrMap { entries }
    }
}

} // verus!
