//! A map from names to values that keeps its entries in insertion order.
//!
//! Adventures, pages and results hold their records, names, conditions,
//! tests, results and side effects by name. Each name occurs at most once;
//! inserting under a name that is present replaces its value in place.

use vstd::prelude::*;

verus! {

/// The value stored under `key` in a list of entries, taking the first entry
/// with that key.
pub open spec fn lookup<T>(s: Seq<(Seq<char>, T)>, key: Seq<char>) -> Option<T>
    decreases s.len(),
{
    if s.len() == 0 {
        None
    } else if s[0].0 == key {
        Some(s[0].1)
    } else {
        lookup(s.drop_first(), key)
    }
}

/// No key occurs twice.
pub open spec fn unique_keys<T>(s: Seq<(Seq<char>, T)>) -> bool {
    forall|i: int, j: int| 0 <= i < j < s.len() ==> s[i].0 != s[j].0
}

/// The position of the first entry with `key`, or the length when there is none.
pub open spec fn position<T>(s: Seq<(Seq<char>, T)>, key: Seq<char>) -> int
    decreases s.len(),
{
    if s.len() == 0 {
        0
    } else if s[0].0 == key {
        0
    } else {
        1 + position(s.drop_first(), key)
    }
}

/// The entries after inserting `value` under `key`: the first entry with
/// `key` gets the new value, or the pair is appended.
pub open spec fn insert_entry<T>(s: Seq<(Seq<char>, T)>, key: Seq<char>, value: T) -> Seq<
    (Seq<char>, T),
> {
    let p = position(s, key);
    if p < s.len() {
        s.update(p, (key, value))
    } else {
        s.push((key, value))
    }
}

/// The entries after removing the first entry with `key`, if any.
pub open spec fn remove_entry<T>(s: Seq<(Seq<char>, T)>, key: Seq<char>) -> Seq<(Seq<char>, T)> {
    let p = position(s, key);
    if p < s.len() {
        s.remove(p)
    } else {
        s
    }
}

/// Where `position` points, and what `lookup` gives there.
pub proof fn lemma_position<T>(s: Seq<(Seq<char>, T)>, key: Seq<char>)
    ensures
        0 <= position(s, key) <= s.len(),
        position(s, key) < s.len() ==> s[position(s, key)].0 == key,
        forall|i: int| 0 <= i < position(s, key) ==> s[i].0 != key,
        lookup(s, key) == (if position(s, key) < s.len() {
            Some(s[position(s, key)].1)
        } else {
            None::<T>
        }),
    decreases s.len(),
{
    if s.len() > 0 && s[0].0 != key {
        lemma_position(s.drop_first(), key);
        assert forall|i: int| 0 <= i < position(s, key) implies s[i].0 != key by {
            if i > 0 {
                assert(s[i] == s.drop_first()[i - 1]);
            }
        }
    }
}

/// Changing the value of an entry keeps the keys unique.
pub proof fn lemma_update_value_unique<T>(s: Seq<(Seq<char>, T)>, i: int, value: T)
    requires
        unique_keys(s),
        0 <= i < s.len(),
    ensures
        unique_keys(s.update(i, (s[i].0, value))),
{
    let r = s.update(i, (s[i].0, value));
    assert forall|a: int, b: int| 0 <= a < b < r.len() implies r[a].0 != r[b].0 by {
        assert(r[a].0 == s[a].0);
        assert(r[b].0 == s[b].0);
    }
}

/// Removing an entry keeps the keys unique.
pub proof fn lemma_remove_unique<T>(s: Seq<(Seq<char>, T)>, p: int)
    requires
        unique_keys(s),
    ensures
        0 <= p < s.len() ==> unique_keys(s.remove(p)),
{
    if 0 <= p < s.len() {
        let r = s.remove(p);
        assert forall|a: int, b: int| 0 <= a < b < r.len() implies r[a].0 != r[b].0 by {
            let a2 = if a < p { a } else { a + 1 };
            let b2 = if b < p { b } else { b + 1 };
            assert(r[a] == s[a2]);
            assert(r[b] == s[b2]);
        }
    }
}

/// Inserting keeps the keys unique.
pub proof fn lemma_insert_unique<T>(s: Seq<(Seq<char>, T)>, key: Seq<char>, value: T)
    requires
        unique_keys(s),
    ensures
        unique_keys(insert_entry(s, key, value)),
        lookup(insert_entry(s, key, value), key) == Some(value),
{
    lemma_position(s, key);
    let r = insert_entry(s, key, value);
    lemma_position(r, key);
    let p = position(s, key);
    if p >= s.len() {
        assert(forall|i: int| 0 <= i < s.len() ==> s[i].0 != key);
        assert(r[p].0 == key);
        assert(forall|i: int| 0 <= i < p ==> r[i] == s[i]);
    } else {
        assert(r[p].0 == key);
        assert(forall|i: int| 0 <= i < p ==> r[i] == s[i]);
    }
    assert(position(r, key) == p);
}

/// Holds its entries in a vector; a key occurs at most once, which every
/// method keeps.
#[derive(Debug, PartialEq)]
pub struct Dict<V> {
    entries: Vec<(String, V)>,
}

impl<V: View> View for Dict<V> {
    type V = Seq<(Seq<char>, V::V)>;

    closed spec fn view(&self) -> Seq<(Seq<char>, V::V)> {
        self.entries@.map_values(|e: (String, V)| (e.0@, e.1@))
    }
}

impl<V> Dict<V> {
    #[verifier::type_invariant]
    spec fn keys_unique(&self) -> bool {
        forall|i: int, j: int|
            0 <= i < j < self.entries@.len() ==> #[trigger] self.entries@[i].0@ != #[trigger] self.entries@[j].0@
    }
}

impl<V: View> Dict<V> {
    /// The keys of the entries are unique, as the type's invariant keeps.
    proof fn lemma_unique(&self)
        requires
            self.keys_unique(),
        ensures
            unique_keys(self@),
    {
        assert forall|i: int, j: int| 0 <= i < j < self@.len() implies self@[i].0 != self@[j].0 by {
            assert(self@[i].0 == self.entries@[i].0@);
            assert(self@[j].0 == self.entries@[j].0@);
        }
    }

    /// Entries whose keys are unique make a map.
    proof fn lemma_keys_unique_of(entries: Seq<(String, V)>)
        requires
            unique_keys(entries.map_values(|e: (String, V)| (e.0@, e.1@))),
        ensures
            forall|i: int, j: int|
                0 <= i < j < entries.len() ==> #[trigger] entries[i].0@ != #[trigger] entries[j].0@,
    {
        let m = entries.map_values(|e: (String, V)| (e.0@, e.1@));
        assert forall|i: int, j: int| 0 <= i < j < entries.len() implies #[trigger] entries[i].0@ != #[trigger] entries[j].0@ by {
            assert(m[i].0 == entries[i].0@);
            assert(m[j].0 == entries[j].0@);
        }
    }

    /// An empty map.
    pub fn new() -> (d: Self)
        ensures
            d@ == Seq::<(Seq<char>, V::V)>::empty(),
            unique_keys(d@),
    {
        let d = Dict { entries: Vec::new() };
        assert(d@ =~= Seq::<(Seq<char>, V::V)>::empty());
        d
    }

    /// The number of entries.
    pub fn len(&self) -> (n: usize)
        ensures
            n == self@.len(),
    {
        self.entries.len()
    }

    /// The key of the entry at position `i`.
    pub fn key_at(&self, i: usize) -> (k: &String)
        requires
            i < self@.len(),
        ensures
            k@ == self@[i as int].0,
    {
        &self.entries[i].0
    }

    /// The value of the entry at position `i`.
    pub fn value_at(&self, i: usize) -> (v: &V)
        requires
            i < self@.len(),
        ensures
            v@ == self@[i as int].1,
    {
        &self.entries[i].1
    }

    /// The position of the entry with `key`, or the number of entries.
    pub fn find(&self, key: &String) -> (p: usize)
        ensures
            p == position(self@, key@),
    {
        proof {
            lemma_position(self@, key@);
        }
        let mut i: usize = 0;
        while i < self.entries.len()
            invariant
                i <= self@.len(),
                self@.len() == self.entries@.len(),
                forall|k: int| 0 <= k < i ==> self@[k].0 != key@,
                0 <= position(self@, key@) <= self@.len(),
                position(self@, key@) < self@.len() ==> self@[position(self@, key@)].0 == key@,
                forall|k: int| 0 <= k < position(self@, key@) ==> self@[k].0 != key@,
            decreases self@.len() - i,
        {
            if self.entries[i].0 == *key {
                assert(self@[i as int].0 == key@);
                return i;
            }
            i = i + 1;
        }
        i
    }

    /// The value under `key`, if there is one.
    pub fn get(&self, key: &str) -> (r: Option<&V>)
        ensures
            match r {
                Some(v) => lookup(self@, key@) == Some(v@),
                None => lookup(self@, key@) is None,
            },
    {
        let k = key.to_owned();
        let p = self.find(&k);
        proof {
            lemma_position(self@, key@);
        }
        if p < self.entries.len() {
            Some(&self.entries[p].1)
        } else {
            None
        }
    }

    /// Tests if there is a value under `key`.
    pub fn contains_key(&self, key: &str) -> (b: bool)
        ensures
            b == (lookup(self@, key@) is Some),
    {
        let k = key.to_owned();
        let p = self.find(&k);
        proof {
            lemma_position(self@, key@);
        }
        p < self.entries.len()
    }

    /// Stores `value` under `key`, replacing the value that was there.
    pub fn insert(&mut self, key: String, value: V)
        ensures
            final(self)@ == insert_entry(old(self)@, key@, value@),
            unique_keys(final(self)@),
    {
        proof {
            use_type_invariant(&*self);
            self.lemma_unique();
            lemma_insert_unique(self@, key@, value@);
        }
        let p = self.find(&key);
        let ghost k = key@;
        let ghost v = value@;
        let mut es: Vec<(String, V)> = Vec::new();
        std::mem::swap(&mut es, &mut self.entries);
        if p < es.len() {
            es.set(p, (key, value));
            assert(es@.map_values(|e: (String, V)| (e.0@, e.1@)) =~= old(self)@.update(p as int, (k, v)));
        } else {
            es.push((key, value));
            assert(es@.map_values(|e: (String, V)| (e.0@, e.1@)) =~= old(self)@.push((k, v)));
        }
        proof {
            Self::lemma_keys_unique_of(es@);
        }
        self.entries = es;
    }

    /// Puts `value` in the entry at `i`, keeping its key and place, and
    /// gives back the value that was there.
    pub fn replace_value(&mut self, i: usize, value: V) -> (previous: V)
        requires
            i < old(self)@.len(),
        ensures
            previous@ == old(self)@[i as int].1,
            final(self)@ == old(self)@.update(i as int, (old(self)@[i as int].0, value@)),
            unique_keys(final(self)@),
    {
        proof {
            use_type_invariant(&*self);
            self.lemma_unique();
            lemma_update_value_unique(self@, i as int, value@);
        }
        let mut es: Vec<(String, V)> = Vec::new();
        std::mem::swap(&mut es, &mut self.entries);
        let (key, previous) = es.remove(i);
        let ghost v = value@;
        es.insert(i, (key, value));
        assert(es@.map_values(|e: (String, V)| (e.0@, e.1@)) =~= old(self)@.update(
            i as int,
            (old(self)@[i as int].0, v),
        ));
        proof {
            Self::lemma_keys_unique_of(es@);
        }
        self.entries = es;
        previous
    }

    /// Replaces the value of the entry at `i`, keeping its key and place.
    pub fn set_value(&mut self, i: usize, value: V)
        requires
            i < old(self)@.len(),
        ensures
            final(self)@ == old(self)@.update(i as int, (old(self)@[i as int].0, value@)),
            unique_keys(final(self)@),
    {
        let _ = self.replace_value(i, value);
    }

    /// Takes out the value under `key`, if there is one.
    pub fn remove(&mut self, key: &str) -> (r: Option<V>)
        ensures
            final(self)@ == remove_entry(old(self)@, key@),
            unique_keys(final(self)@),
            match r {
                Some(v) => lookup(old(self)@, key@) == Some(v@),
                None => lookup(old(self)@, key@) is None,
            },
    {
        let k = key.to_owned();
        let p = self.find(&k);
        proof {
            use_type_invariant(&*self);
            self.lemma_unique();
            lemma_position(self@, key@);
            lemma_remove_unique(self@, p as int);
        }
        if p < self.entries.len() {
            let mut es: Vec<(String, V)> = Vec::new();
            std::mem::swap(&mut es, &mut self.entries);
            let e = es.remove(p);
            assert(es@.map_values(|e: (String, V)| (e.0@, e.1@)) =~= old(self)@.remove(p as int));
            proof {
                Self::lemma_keys_unique_of(es@);
            }
            self.entries = es;
            Some(e.1)
        } else {
            None
        }
    }
}


impl<V: Clone> Clone for Dict<V> {
    /// A copy of the map: the same keys in the same order, each value cloned.
    fn clone(&self) -> (d: Self) {
        proof {
            use_type_invariant(self);
        }
        let mut entries: Vec<(String, V)> = Vec::new();
        let mut i: usize = 0;
        while i < self.entries.len()
            invariant
                i <= self.entries@.len(),
                entries@.len() == i,
                forall|k: int| 0 <= k < i ==> #[trigger] entries@[k].0 == self.entries@[k].0,
                forall|a: int, b: int|
                    0 <= a < b < self.entries@.len() ==> #[trigger] self.entries@[a].0@ != #[trigger] self.entries@[b].0@,
            decreases self.entries@.len() - i,
        {
            let e = &self.entries[i];
            entries.push((e.0.clone(), e.1.clone()));
            i = i + 1;
        }
        assert forall|a: int, b: int| 0 <= a < b < entries@.len() implies #[trigger] entries@[a].0@ != #[trigger] entries@[b].0@ by {
            assert(entries@[a].0 == self.entries@[a].0);
            assert(entries@[b].0 == self.entries@[b].0);
        }
        Dict { entries }
    }
}

impl Dict<String> {
    /// A copy of the map.
    pub fn duplicate(&self) -> (d: Self)
        ensures
            d@ == self@,
            unique_keys(d@),
    {
        proof {
            use_type_invariant(self);
            self.lemma_unique();
        }
        let mut entries: Vec<(String, String)> = Vec::new();
        let mut i: usize = 0;
        while i < self.entries.len()
            invariant
                i <= self.entries@.len(),
                entries@.map_values(|e: (String, String)| (e.0@, e.1@)) =~= self@.subrange(0, i as int),
            decreases self.entries@.len() - i,
        {
            let e = &self.entries[i];
            let ghost before = entries@.map_values(|x: (String, String)| (x.0@, x.1@));
            entries.push((e.0.clone(), e.1.clone()));
            assert(entries@.map_values(|x: (String, String)| (x.0@, x.1@)) =~= before.push(self@[i as int]));
            assert(self@.subrange(0, i + 1) =~= self@.subrange(0, i as int).push(self@[i as int]));
            i = i + 1;
        }
        assert(self@.subrange(0, i as int) =~= self@);
        proof {
            Self::lemma_keys_unique_of(entries@);
        }
        Dict { entries }
    }
}

} // verus!
