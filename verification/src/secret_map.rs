//! A map from strings to strings (here: from secret references to their
//! values), kept as a vector of pairs whose keys are all different.

use vstd::prelude::*;
use crate::env_file::{Pair, pairs_view};

verus! {

/// No key occurs twice in `s`.
pub open spec fn keys_distinct(s: Seq<Pair>) -> bool {
    forall|i: int, j: int| 0 <= i < j < s.len() ==> s[i].0 != s[j].0
}

/// The map that inserting the pairs of `s` one after the other, from the
/// first on, into an empty map gives: a later pair for a key wins.
pub open spec fn map_of(s: Seq<Pair>) -> Map<Seq<char>, Seq<char>>
    decreases s.len(),
{
    if s.len() == 0 {
        Map::empty()
    } else {
        map_of(s.drop_last()).insert(s.last().0, s.last().1)
    }
}

/// In a sequence with distinct keys, each pair is in the map.
pub proof fn lemma_map_of_holds(s: Seq<Pair>, i: int)
    requires
        keys_distinct(s),
        0 <= i < s.len(),
    ensures
        map_of(s).contains_key(s[i].0),
        map_of(s)[s[i].0] == s[i].1,
    decreases s.len(),
{
    if i < s.len() - 1 {
        lemma_map_of_holds(s.drop_last(), i);
    }
}

/// A key that no pair has is not in the map; a key some pair has is.
pub proof fn lemma_map_of_domain(s: Seq<Pair>, k: Seq<char>)
    ensures
        map_of(s).contains_key(k) <==> exists|i: int| 0 <= i < s.len() && s[i].0 == k,
    decreases s.len(),
{
    if s.len() > 0 {
        lemma_map_of_domain(s.drop_last(), k);
        if exists|i: int| 0 <= i < s.len() - 1 && s.drop_last()[i].0 == k {
            let i = choose|i: int| 0 <= i < s.len() - 1 && s.drop_last()[i].0 == k;
            assert(s[i].0 == k);
        }
        if exists|i: int| 0 <= i < s.len() && s[i].0 == k {
            let i = choose|i: int| 0 <= i < s.len() && s[i].0 == k;
            if i < s.len() - 1 {
                assert(s.drop_last()[i].0 == k);
            }
        }
    }
}

/// Changing the value of an existing key changes the map the same way.
pub proof fn lemma_map_of_update(s: Seq<Pair>, i: int, v: Seq<char>)
    requires
        keys_distinct(s),
        0 <= i < s.len(),
    ensures
        map_of(s.update(i, (s[i].0, v))) == map_of(s).insert(s[i].0, v),
    decreases s.len(),
{
    let t = s.update(i, (s[i].0, v));
    if i == s.len() - 1 {
        assert(t.drop_last() == s.drop_last());
        assert(map_of(t) =~= map_of(s).insert(s[i].0, v));
    } else {
        lemma_map_of_update(s.drop_last(), i, v);
        assert(t.drop_last() == s.drop_last().update(i, (s[i].0, v)));
        assert(map_of(t) =~= map_of(s).insert(s[i].0, v));
    }
}

/// What reading `key` in a map whose view is `m` gives: its value, if any.
pub open spec fn lookup(m: Map<Seq<char>, Seq<char>>, key: Seq<char>) -> Option<Seq<char>> {
    if m.contains_key(key) {
        Some(m[key])
    } else {
        None
    }
}

/// A map from strings to strings.
#[derive(Debug)]
pub struct SecretMap {
    entries: Vec<(String, String)>,
}

impl View for SecretMap {
    type V = Map<Seq<char>, Seq<char>>;

    closed spec fn view(&self) -> Map<Seq<char>, Seq<char>> {
        map_of(pairs_view(self.entries@))
    }
}

impl SecretMap {
    #[verifier::type_invariant]
    spec fn wf(self) -> bool {
        keys_distinct(pairs_view(self.entries@))
    }

    /// An empty map.
    pub fn new() -> (m: SecretMap)
        ensures
            m@ == Map::<Seq<char>, Seq<char>>::empty(),
    {
        let m = SecretMap { entries: Vec::new() };
        assert(pairs_view(m.entries@) =~= seq![]);
        m
    }

    /// The position of `key` among the entries, if it is there.
    fn position(&self, key: &String) -> (r: Option<usize>)
        ensures
            match r {
                Some(i) => i < self.entries@.len() && self.entries@[i as int].0@ == key@,
                None => forall|i: int|
                    0 <= i < self.entries@.len() ==> self.entries@[i].0@ != key@,
            },
    {
        let n = self.entries.len();
        let mut i: usize = 0;
        while i < n
            invariant
                n == self.entries@.len(),
                i <= n,
                forall|j: int| 0 <= j < i ==> self.entries@[j].0@ != key@,
            decreases n - i,
        {
            if self.entries[i].0 == *key {
                return Some(i);
            }
            i = i + 1;
        }
        None
    }

    /// The value of `key`, if the map has one.
    pub fn get(&self, key: &str) -> (r: Option<&String>)
        ensures
            r is Some <==> self@.contains_key(key@),
            r matches Some(v) ==> v@ == self@[key@],
            match r {
                Some(v) => lookup(self@, key@) == Some(v@),
                None => lookup(self@, key@) is None,
            },
    {
        proof {
            use_type_invariant(self);
            lemma_map_of_domain(pairs_view(self.entries@), key@);
        }
        let k = key.to_owned();
        match self.position(&k) {
            Some(i) => {
                proof {
                    lemma_map_of_holds(pairs_view(self.entries@), i as int);
                }
                Some(&self.entries[i].1)
            },
            None => {
                proof {
                    if self@.contains_key(key@) {
                        let j = choose|j: int|
                            0 <= j < pairs_view(self.entries@).len() && pairs_view(
                                self.entries@,
                            )[j].0 == key@;
                        assert(self.entries@[j].0@ == key@);
                    }
                }
                None
            },
        }
    }

    /// Sets the value of `key` to `value`, replacing any earlier value.
    pub fn insert(&mut self, key: String, value: String)
        ensures
            final(self)@ == old(self)@.insert(key@, value@),
    {
        proof {
            use_type_invariant(&*self);
        }
        let ghost before = pairs_view(self.entries@);
        let found = self.position(&key);
        let mut entries: Vec<(String, String)> = Vec::new();
        std::mem::swap(&mut entries, &mut self.entries);
        assert(pairs_view(self.entries@) =~= seq![]);
        match found {
            Some(i) => {
                proof {
                    lemma_map_of_update(before, i as int, value@);
                }
                let ghost kv = (entries@[i as int].0@, value@);
                let old_key = entries[i].0.clone();
                entries.set(i, (old_key, value));
                assert(pairs_view(entries@) =~= before.update(i as int, kv));
            },
            None => {
                let ghost kv = (key@, value@);
                entries.push((key, value));
                assert(pairs_view(entries@) =~= before.push(kv));
                assert(before.push(kv).drop_last() == before);
            },
        }
        self.entries = entries;
    }

    /// The entries of the map, each key once.
    pub fn entries(&self) -> (r: &Vec<(String, String)>)
        ensures
            keys_distinct(pairs_view(r@)),
            map_of(pairs_view(r@)) == self@,
    {
        proof {
            use_type_invariant(self);
        }
        &self.entries
    }
}

} // verus!

verus! {

/// What a read gives back after a write: after `m.insert(key, value)` (whose
/// view is `m@.insert(key, value)`), `get(key)` gives `value`, and `get` of any
/// other key gives what it gave before.
pub proof fn read_after_write(m: SecretMap, key: Seq<char>, value: Seq<char>, other: Seq<char>)
    ensures
        lookup(m@.insert(key, value), key) == Some(value),
        other != key ==> lookup(m@.insert(key, value), other) == lookup(m@, other),
{
}

} // verus!
