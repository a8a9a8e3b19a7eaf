//! An insertion-ordered map from relative paths to values, in which no path occurs twice.

use vstd::prelude::*;

verus! {

/// No key occurs twice in `s`.
pub open spec fn distinct_keys<V>(s: Seq<(Seq<char>, V)>) -> bool {
    forall|i: int, j: int| 0 <= i < j < s.len() ==> #[trigger] s[i].0 != #[trigger] s[j].0
}

/// The value stored under `k`, taking the last pair whose key is `k`.
pub open spec fn lookup<V>(s: Seq<(Seq<char>, V)>, k: Seq<char>) -> Option<V>
    decreases s.len(),
{
    if s.len() == 0 {
        None
    } else if s.last().0 == k {
        Some(s.last().1)
    } else {
        lookup(s.drop_last(), k)
    }
}

/// Some pair of `s` has key `k`.
pub open spec fn has_key<V>(s: Seq<(Seq<char>, V)>, k: Seq<char>) -> bool {
    exists|i: int| 0 <= i < s.len() && #[trigger] s[i].0 == k
}

/// The pairs after storing `v` under `k`: an existing pair with that key is
/// replaced in place, otherwise the pair is appended.
pub open spec fn insert_pair<V>(s: Seq<(Seq<char>, V)>, k: Seq<char>, v: V) -> Seq<(Seq<char>, V)> {
    if has_key(s, k) {
        s.update(choose|i: int| 0 <= i < s.len() && #[trigger] s[i].0 == k, (k, v))
    } else {
        s.push((k, v))
    }
}

/// `lookup` finds the value of the pair that holds the key, when keys are distinct.
pub proof fn lemma_lookup<V>(s: Seq<(Seq<char>, V)>, k: Seq<char>)
    requires
        distinct_keys(s),
    ensures
        lookup(s, k) is Some <==> has_key(s, k),
        forall|i: int| 0 <= i < s.len() && #[trigger] s[i].0 == k ==> lookup(s, k) == Some(s[i].1),
    decreases s.len(),
{
    if s.len() > 0 {
        let t = s.drop_last();
        assert(distinct_keys(t)) by {
            assert forall|i: int, j: int| 0 <= i < j < t.len() implies #[trigger] t[i].0
                != #[trigger] t[j].0 by {
                assert(t[i] == s[i] && t[j] == s[j]);
            }
        }
        lemma_lookup(t, k);
        if s.last().0 == k {
            assert(s[s.len() - 1].0 == k);
        } else {
            if has_key(s, k) {
                let i = choose|i: int| 0 <= i < s.len() && #[trigger] s[i].0 == k;
                assert(t[i] == s[i]);
            }
            if has_key(t, k) {
                let i = choose|i: int| 0 <= i < t.len() && #[trigger] t[i].0 == k;
                assert(t[i] == s[i]);
            }
            assert forall|i: int| 0 <= i < s.len() && #[trigger] s[i].0 == k implies lookup(s, k)
                == Some(s[i].1) by {
                assert(t[i] == s[i]);
            }
        }
    }
}

/// Storing a value keeps keys distinct, and afterwards the key finds the new value
/// while every other key finds what it found before.
pub proof fn lemma_insert_pair<V>(s: Seq<(Seq<char>, V)>, k: Seq<char>, v: V)
    requires
        distinct_keys(s),
    ensures
        distinct_keys(insert_pair(s, k, v)),
        forall|k2: Seq<char>| #[trigger] lookup(insert_pair(s, k, v), k2) == if k2 == k { Some(v) } else { lookup(s, k2) },
{
    let t = insert_pair(s, k, v);
    if has_key(s, k) {
        let c = choose|i: int| 0 <= i < s.len() && #[trigger] s[i].0 == k;
        assert(t == s.update(c, (k, v)));
        assert forall|a: int, b: int| 0 <= a < b < t.len() implies #[trigger] t[a].0 != #[trigger] t[b].0 by {
            assert(s[a].0 != s[b].0);
        }
    } else {
        assert(t == s.push((k, v)));
        assert forall|a: int, b: int| 0 <= a < b < t.len() implies #[trigger] t[a].0 != #[trigger] t[b].0 by {
            if b == s.len() {
                assert(s[a].0 != k);
            } else {
                assert(s[a].0 != s[b].0);
            }
        }
    }
    assert forall|k2: Seq<char>| #[trigger] lookup(t, k2) == if k2 == k { Some(v) } else { lookup(s, k2) } by {
        lemma_lookup(t, k2);
        lemma_lookup(s, k2);
        if has_key(s, k) {
            let c = choose|i: int| 0 <= i < s.len() && #[trigger] s[i].0 == k;
            if k2 == k {
                assert(t[c].0 == k2);
            } else {
                if has_key(s, k2) {
                    let i = choose|i: int| 0 <= i < s.len() && #[trigger] s[i].0 == k2;
                    assert(t[i] == s[i]);
                }
                if has_key(t, k2) {
                    let i = choose|i: int| 0 <= i < t.len() && #[trigger] t[i].0 == k2;
                    assert(t[i] == s[i]);
                }
            }
        } else {
            if k2 == k {
                assert(t[s.len() as int].0 == k2);
            } else {
                if has_key(s, k2) {
                    let i = choose|i: int| 0 <= i < s.len() && #[trigger] s[i].0 == k2;
                    assert(t[i] == s[i]);
                }
                if has_key(t, k2) {
                    let i = choose|i: int| 0 <= i < t.len() && #[trigger] t[i].0 == k2;
                    assert(t[i] == s[i]);
                }
            }
        }
    }
}

/// Map from relative path to `V`, kept in insertion order with distinct paths.
pub struct PathMap<V> {
    entries: Vec<(String, V)>,
}

impl<V> PathMap<V> {
    /// The entries in order, each path taken by its characters.
    pub closed spec fn pairs(&self) -> Seq<(Seq<char>, V)> {
        self.entries@.map_values(|p: (String, V)| (p.0@, p.1))
    }

    /// No path occurs twice; every value of the type satisfies this.
    #[verifier::type_invariant]
    pub open spec fn paths_distinct(&self) -> bool {
        distinct_keys(self.pairs())
    }

    /// An empty map.
    pub fn new() -> (m: Self)
        ensures
            m.pairs() == Seq::<(Seq<char>, V)>::empty(),
    {
        let m = PathMap { entries: Vec::new() };
        assert(m.pairs() =~= Seq::<(Seq<char>, V)>::empty());
        m
    }

    /// Number of entries.
    pub fn len(&self) -> (n: usize)
        ensures
            n == self.pairs().len(),
    {
        self.entries.len()
    }

    /// The `i`-th entry in insertion order.
    pub fn entry(&self, i: usize) -> (r: (&String, &V))
        requires
            i < self.pairs().len(),
        ensures
            r.0@ == self.pairs()[i as int].0,
            *r.1 == self.pairs()[i as int].1,
    {
        let e = &self.entries[i];
        (&e.0, &e.1)
    }

    /// Position of the entry whose path is `key`, if any.
    pub fn find(&self, key: &String) -> (r: Option<usize>)
        ensures
            r matches Some(i) ==> i < self.pairs().len() && self.pairs()[i as int].0 == key@,
            r is None ==> !has_key(self.pairs(), key@),
    {
        let n = self.entries.len();
        for i in 0..n
            invariant
                n == self.entries@.len(),
                forall|j: int| 0 <= j < i ==> self.pairs()[j].0 != key@,
        {
            if self.entries[i].0 == *key {
                return Some(i);
            }
        }
        assert(!has_key(self.pairs(), key@));
        None
    }

    /// The value stored under `key`.
    pub fn get(&self, key: &String) -> (r: Option<&V>)
        ensures
            r matches Some(v) ==> lookup(self.pairs(), key@) == Some(*v),
            r is None ==> lookup(self.pairs(), key@) is None,
    {
        proof {
            use_type_invariant(self);
            lemma_lookup(self.pairs(), key@);
        }
        match self.find(key) {
            Some(i) => Some(&self.entries[i].1),
            None => None,
        }
    }

    /// Whether some entry has path `key`.
    pub fn contains_key(&self, key: &String) -> (b: bool)
        ensures
            b == has_key(self.pairs(), key@),
    {
        self.find(key).is_some()
    }

    /// Stores `value` under `key`, replacing the value of an existing entry in place.
    pub fn insert(&mut self, key: String, value: V)
        ensures
            final(self).pairs() == insert_pair(old(self).pairs(), key@, value),
    {
        proof {
            use_type_invariant(&*self);
        }
        let ghost k = key@;
        let ghost before = self.pairs();
        match self.find(&key) {
            Some(i) => {
                proof {
                    let c = choose|j: int| 0 <= j < before.len() && #[trigger] before[j].0 == k;
                    assert(c == i as int) by {
                        if c != i as int {
                            if c < i { assert(before[c].0 != before[i as int].0); }
                            else { assert(before[i as int].0 != before[c].0); }
                        }
                    }
                }
                let mut entries: Vec<(String, V)> = Vec::new();
                std::mem::swap(&mut entries, &mut self.entries);
                entries.set(i, (key, value));
                proof {
                    let np = entries@.map_values(|p: (String, V)| (p.0@, p.1));
                    assert(np =~= before.update(i as int, (k, value)));
                    assert forall|a: int, b: int| 0 <= a < b < np.len() implies
                        #[trigger] np[a].0 != #[trigger] np[b].0 by {
                        assert(before[a].0 != before[b].0);
                    }
                }
                self.entries = entries;
                assert(self.pairs() =~= before.update(i as int, (k, value)));
            },
            None => {
                let mut entries: Vec<(String, V)> = Vec::new();
                std::mem::swap(&mut entries, &mut self.entries);
                entries.push((key, value));
                proof {
                    let np = entries@.map_values(|p: (String, V)| (p.0@, p.1));
                    assert(np =~= before.push((k, value)));
                    assert forall|a: int, b: int| 0 <= a < b < np.len() implies
                        #[trigger] np[a].0 != #[trigger] np[b].0 by {
                        if b == before.len() {
                            assert(before[a].0 != k);
                        } else {
                            assert(before[a].0 != before[b].0);
                        }
                    }
                }
                self.entries = entries;
                assert(self.pairs() =~= before.push((k, value)));
            },
        }
    }
}

impl<V> View for PathMap<V> {
    type V = Map<Seq<char>, V>;

    /// The map from each path to its value.
    open spec fn view(&self) -> Map<Seq<char>, V> {
        Map::new(|k: Seq<char>| lookup(self.pairs(), k) is Some, |k: Seq<char>| lookup(self.pairs(), k)->0)
    }
}

} // verus!
