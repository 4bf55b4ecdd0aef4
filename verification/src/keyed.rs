//! A small map from text keys to values that keeps its entries in the
//! order in which their keys first arrived.

use vstd::prelude::*;

verus! {

/// No two entries share a key.
pub open spec fn keys_distinct<V>(s: Seq<(String, V)>) -> bool {
    forall|i: int, j: int|
        0 <= i < s.len() && 0 <= j < s.len() && i != j ==> #[trigger] s[i].0@ != #[trigger] s[j].0@
}

/// The position of the last entry with key `k`, or -1.
pub open spec fn find_key<V>(s: Seq<(String, V)>, k: Seq<char>) -> int
    decreases s.len(),
{
    if s.len() == 0 {
        -1
    } else if s.last().0@ == k {
        s.len() - 1
    } else {
        find_key(s.drop_last(), k)
    }
}

/// The map that a sequence of entries with distinct keys stands for.
pub open spec fn entries_map<V>(s: Seq<(String, V)>) -> Map<Seq<char>, V> {
    Map::new(|k: Seq<char>| find_key(s, k) >= 0, |k: Seq<char>| s[find_key(s, k)].1)
}

pub proof fn lemma_find_key<V>(s: Seq<(String, V)>, k: Seq<char>)
    ensures
        -1 <= find_key(s, k) < s.len(),
        find_key(s, k) >= 0 ==> s[find_key(s, k)].0@ == k,
        find_key(s, k) == -1 ==> forall|i: int| 0 <= i < s.len() ==> #[trigger] s[i].0@ != k,
    decreases s.len(),
{
    if s.len() > 0 && s.last().0@ != k {
        lemma_find_key(s.drop_last(), k);
        if find_key(s, k) == -1 {
            assert forall|i: int| 0 <= i < s.len() implies #[trigger] s[i].0@ != k by {
                if i < s.len() - 1 {
                    assert(s[i] == s.drop_last()[i]);
                }
            }
        }
    }
}

pub proof fn lemma_find_key_at<V>(s: Seq<(String, V)>, i: int)
    requires
        keys_distinct(s),
        0 <= i < s.len(),
    ensures
        find_key(s, s[i].0@) == i,
{
    lemma_find_key(s, s[i].0@);
    let j = find_key(s, s[i].0@);
    assert(j >= 0);
}

/// Entries keyed by text, no key twice, in arrival order.
pub struct KeyedVec<V> {
    entries: Vec<(String, V)>,
}

impl<V> View for KeyedVec<V> {
    type V = Map<Seq<char>, V>;

    open spec fn view(&self) -> Map<Seq<char>, V> {
        entries_map(self.pairs())
    }
}

impl<V> KeyedVec<V> {
    #[verifier::type_invariant]
    spec fn distinct(self) -> bool {
        keys_distinct(self.entries@)
    }

    /// The entries in order.
    pub closed spec fn pairs(self) -> Seq<(String, V)> {
        self.entries@
    }

    /// An empty collection.
    pub fn new() -> (r: Self)
        ensures
            r.pairs() == Seq::<(String, V)>::empty(),
            r@ == Map::<Seq<char>, V>::empty(),
    {
        let r = KeyedVec { entries: Vec::new() };
        assert(r@ =~= Map::<Seq<char>, V>::empty());
        r
    }

    /// The number of entries.
    pub fn len(&self) -> (n: usize)
        ensures
            n == self.pairs().len(),
    {
        self.entries.len()
    }

    /// The key of the `i`-th entry.
    pub fn key_at(&self, i: usize) -> (k: &String)
        requires
            i < self.pairs().len(),
        ensures
            *k == self.pairs()[i as int].0,
    {
        &self.entries[i].0
    }

    /// The value of the `i`-th entry.
    pub fn value_at(&self, i: usize) -> (v: &V)
        requires
            i < self.pairs().len(),
        ensures
            *v == self.pairs()[i as int].1,
    {
        &self.entries[i].1
    }

    /// The position of the entry with key `key`, if there is one.
    pub fn position(&self, key: &String) -> (r: Option<usize>)
        ensures
            match r {
                Some(i) => i < self.pairs().len() && self.pairs()[i as int].0@ == key@
                    && find_key(self.pairs(), key@) == i,
                None => find_key(self.pairs(), key@) == -1,
            },
            r is Some <==> self@.contains_key(key@),
    {
        proof {
            use_type_invariant(self);
            lemma_find_key(self.entries@, key@);
        }
        for i in 0..self.entries.len()
            invariant
                forall|j: int| 0 <= j < i ==> #[trigger] self.entries@[j].0@ != key@,
                keys_distinct(self.entries@),
                -1 <= find_key(self.entries@, key@) < self.entries@.len(),
                find_key(self.entries@, key@) >= 0 ==> self.entries@[find_key(
                    self.entries@,
                    key@,
                )].0@ == key@,
        {
            if self.entries[i].0 == *key {
                proof {
                    lemma_find_key_at(self.entries@, i as int);
                }
                return Some(i);
            }
        }
        None
    }

    /// The value under `key`, if any.
    pub fn get(&self, key: &String) -> (r: Option<&V>)
        ensures
            match r {
                Some(v) => self@.contains_key(key@) && *v == self@[key@],
                None => !self@.contains_key(key@),
            },
    {
        match self.position(key) {
            Some(i) => Some(&self.entries[i].1),
            None => None,
        }
    }

    /// Sets the value under `key`: an entry already there keeps its
    /// place, a new key goes to the end.
    pub fn insert(&mut self, key: String, value: V)
        ensures
            final(self)@ == old(self)@.insert(key@, value),
            old(self)@.contains_key(key@) ==> final(self).pairs() == old(self).pairs().update(
                find_key(old(self).pairs(), key@),
                (key, value),
            ),
            !old(self)@.contains_key(key@) ==> final(self).pairs() == old(self).pairs().push(
                (key, value),
            ),
    {
        proof {
            use_type_invariant(&*self);
        }
        let ghost old_s = self.entries@;
        let ghost k = key@;
        match self.position(&key) {
            Some(i) => {
                let mut entries: Vec<(String, V)> = Vec::new();
                std::mem::swap(&mut entries, &mut self.entries);
                entries.set(i, (key, value));
                let ghost new_s = entries@;
                assert(keys_distinct(new_s));
                assert forall|q: Seq<char>| #[trigger] find_key(new_s, q) == (if q == k {
                    i as int
                } else {
                    find_key(old_s, q)
                }) by {
                    lemma_find_key(old_s, q);
                    lemma_find_key(new_s, q);
                    if find_key(new_s, q) >= 0 {
                        lemma_find_key_at(new_s, find_key(new_s, q));
                    }
                    if find_key(old_s, q) >= 0 {
                        lemma_find_key_at(old_s, find_key(old_s, q));
                        if q != k {
                            lemma_find_key_at(new_s, find_key(old_s, q));
                        }
                    }
                    if q == k {
                        lemma_find_key_at(new_s, i as int);
                    }
                }
                self.entries = entries;
                assert forall|q: Seq<char>| #[trigger] self@.contains_key(q) implies self@[q]
                    == old(self)@.insert(k, value)[q] by {
                    lemma_find_key(old_s, q);
                }
                assert(self@ =~= old(self)@.insert(k, value));
            },
            None => {
                let mut entries: Vec<(String, V)> = Vec::new();
                std::mem::swap(&mut entries, &mut self.entries);
                entries.push((key, value));
                let ghost new_s = entries@;
                proof {
                    lemma_find_key(old_s, k);
                }
                assert(keys_distinct(new_s));
                assert forall|q: Seq<char>| #[trigger] find_key(new_s, q) == (if q == k {
                    old_s.len() as int
                } else {
                    find_key(old_s, q)
                }) by {
                    assert(new_s.drop_last() == old_s);
                }
                self.entries = entries;
                assert forall|q: Seq<char>| #[trigger] self@.contains_key(q) implies self@[q]
                    == old(self)@.insert(k, value)[q] by {
                    lemma_find_key(old_s, q);
                }
                assert(self@ =~= old(self)@.insert(k, value));
            },
        }
    }

    /// Removes the entry under `key`, if any; the others keep their order.
    pub fn remove(&mut self, key: &String)
        ensures
            final(self)@ == old(self)@.remove(key@),
            old(self)@.contains_key(key@) ==> final(self).pairs() == old(self).pairs().remove(
                find_key(old(self).pairs(), key@),
            ),
            !old(self)@.contains_key(key@) ==> final(self).pairs() == old(self).pairs(),
    {
        proof {
            use_type_invariant(&*self);
        }
        let ghost old_s = self.entries@;
        let ghost k = key@;
        match self.position(key) {
            Some(i) => {
                let mut entries: Vec<(String, V)> = Vec::new();
                std::mem::swap(&mut entries, &mut self.entries);
                entries.remove(i);
                let ghost new_s = entries@;
                assert(keys_distinct(new_s)) by {
                    assert forall|a: int, b: int|
                        0 <= a < new_s.len() && 0 <= b < new_s.len() && a != b implies #[trigger] new_s[a].0@
                        != #[trigger] new_s[b].0@ by {
                        let a2 = if a < i { a } else { a + 1 };
                        let b2 = if b < i { b } else { b + 1 };
                        assert(new_s[a] == old_s[a2]);
                        assert(new_s[b] == old_s[b2]);
                    }
                }
                assert forall|q: Seq<char>| #[trigger] find_key(new_s, q) == (if q == k {
                    -1
                } else if find_key(old_s, q) < i {
                    find_key(old_s, q)
                } else {
                    find_key(old_s, q) - 1
                }) by {
                    lemma_find_key(old_s, q);
                    lemma_find_key(new_s, q);
                    if q == k {
                        if find_key(new_s, q) >= 0 {
                            let f = find_key(new_s, q);
                            let f2 = if f < i { f } else { f + 1 };
                            assert(new_s[f] == old_s[f2]);
                            lemma_find_key_at(old_s, f2);
                        }
                    } else if find_key(old_s, q) >= 0 {
                        let f = find_key(old_s, q);
                        let g = if f < i { f } else { f - 1 };
                        assert(new_s[g] == old_s[f]);
                        lemma_find_key_at(new_s, g);
                    } else {
                        if find_key(new_s, q) >= 0 {
                            let f = find_key(new_s, q);
                            let f2 = if f < i { f } else { f + 1 };
                            assert(new_s[f] == old_s[f2]);
                        }
                    }
                }
                self.entries = entries;
                assert forall|q: Seq<char>| #[trigger] self@.contains_key(q) implies self@[q]
                    == old(self)@.remove(k)[q] by {
                    lemma_find_key(old_s, q);
                    let f = find_key(old_s, q);
                    if f >= 0 && q != k {
                        let g = if f < i { f } else { f - 1 };
                        assert(new_s[g] == old_s[f]);
                    }
                }
                assert forall|q: Seq<char>| #[trigger] self@.contains_key(q) == old(self)@.remove(
                    k,
                ).contains_key(q) by {
                    lemma_find_key(old_s, q);
                    let f = find_key(old_s, q);
                    assert(f >= 0 && q != k ==> f != i);
                    assert(find_key(new_s, q) == (if q == k {
                        -1
                    } else if f < i {
                        f
                    } else {
                        f - 1
                    }));
                }
                assert(self@ =~= old(self)@.remove(k));
            },
            None => {
                assert(self@ =~= old(self)@.remove(k));
            },
        }
    }
}

impl KeyedVec<String> {
    /// A copy of the entries.
    pub fn duplicate(&self) -> (r: Self)
        ensures
            r.pairs() == self.pairs(),
            r@ == self@,
    {
        proof {
            use_type_invariant(self);
        }
        let mut entries: Vec<(String, String)> = Vec::new();
        for i in 0..self.entries.len()
            invariant
                entries@ == self.entries@.take(i as int),
        {
            let k = self.entries[i].0.clone();
            let v = self.entries[i].1.clone();
            entries.push((k, v));
            assert(self.entries@.take(i + 1) == self.entries@.take(i as int).push(self.entries@[i as int]));
        }
        assert(self.entries@.take(self.entries@.len() as int) == self.entries@);
        KeyedVec { entries }
    }
}

} // verus!
