//! A map keyed by text, kept as a list of pairs whose keys never repeat.

use vstd::prelude::*;

verus! {

/// The map that a list of pairs denotes: a later pair overrides an earlier one.
pub open spec fn table_map<T>(s: Seq<(String, T)>) -> Map<Seq<char>, T>
    decreases s.len(),
{
    if s.len() == 0 {
        Map::empty()
    } else {
        table_map(s.drop_last()).insert(s.last().0@, s.last().1)
    }
}

/// No key occurs twice in the list.
pub open spec fn keys_distinct<T>(s: Seq<(String, T)>) -> bool {
    forall|i: int, j: int| 0 <= i < j < s.len() ==> (#[trigger] s[i]).0@ != (#[trigger] s[j]).0@
}

/// A key is in the map of a list exactly when some pair carries it.
pub proof fn lemma_table_map_dom<T>(s: Seq<(String, T)>, k: Seq<char>)
    ensures
        table_map(s).contains_key(k) <==> exists|i: int| 0 <= i < s.len() && (#[trigger] s[i]).0@ == k,
    decreases s.len(),
{
    if s.len() > 0 {
        lemma_table_map_dom(s.drop_last(), k);
        if table_map(s).contains_key(k) && k != s.last().0@ {
            let i = choose|i: int| 0 <= i < s.drop_last().len() && (#[trigger] s.drop_last()[i]).0@ == k;
            assert(s[i] == s.drop_last()[i]);
        }
        if exists|i: int| 0 <= i < s.len() && (#[trigger] s[i]).0@ == k {
            let i = choose|i: int| 0 <= i < s.len() && (#[trigger] s[i]).0@ == k;
            if i < s.len() - 1 {
                assert(s.drop_last()[i] == s[i]);
            }
        }
    }
}

/// With distinct keys, the map sends each pair's key to that pair's value.
pub proof fn lemma_table_map_at<T>(s: Seq<(String, T)>, i: int)
    requires
        keys_distinct(s),
        0 <= i < s.len(),
    ensures
        table_map(s).contains_key(s[i].0@),
        table_map(s)[s[i].0@] == s[i].1,
    decreases s.len(),
{
    if i < s.len() - 1 {
        assert(s.drop_last()[i] == s[i]);
        lemma_table_map_at(s.drop_last(), i);
        assert(s[i].0@ != s[s.len() - 1].0@);
    }
}

/// Replacing the value of the pair at `i` (same key) updates the map at that key.
pub proof fn lemma_table_map_update<T>(s: Seq<(String, T)>, i: int, p: (String, T))
    requires
        keys_distinct(s),
        0 <= i < s.len(),
        p.0@ == s[i].0@,
    ensures
        table_map(s.update(i, p)) == table_map(s).insert(p.0@, p.1),
        keys_distinct(s.update(i, p)),
    decreases s.len(),
{
    let u = s.update(i, p);
    if i == s.len() - 1 {
        assert(u.drop_last() == s.drop_last());
        assert(table_map(u) =~= table_map(s).insert(p.0@, p.1));
    } else {
        assert(u.drop_last() == s.drop_last().update(i, p));
        lemma_table_map_update(s.drop_last(), i, p);
        assert(s[i].0@ != s[s.len() - 1].0@);
        assert(table_map(u) =~= table_map(s).insert(p.0@, p.1));
    }
    assert forall|a: int, b: int| 0 <= a < b < u.len() implies (#[trigger] u[a]).0@ != (
    #[trigger] u[b]).0@ by {
        assert(s[a].0@ != s[b].0@);
    }
}

/// A map from texts to values; the same key never appears twice.
pub struct StrMap<T> {
    entries: Vec<(String, T)>,
}

impl<T> View for StrMap<T> {
    type V = Map<Seq<char>, T>;

    closed spec fn view(&self) -> Map<Seq<char>, T> {
        table_map(self.entries@)
    }
}

impl<T> StrMap<T> {
    #[verifier::type_invariant]
    spec fn distinct_keys(self) -> bool {
        keys_distinct(self.entries@)
    }

    /// An empty map.
    pub fn new() -> (m: Self)
        ensures
            m@ == Map::<Seq<char>, T>::empty(),
    {
        StrMap { entries: Vec::new() }
    }

    /// Where `key` sits in the list of pairs, if it is there.
    fn position(&self, key: &String) -> (r: Option<usize>)
        ensures
            match r {
                Some(i) => i < self.entries@.len() && self.entries@[i as int].0@ == key@,
                None => forall|i: int| 0 <= i < self.entries@.len() ==> (#[trigger] self.entries@[i]).0@ != key@,
            },
    {
        let n = self.entries.len();
        let mut i: usize = 0;
        while i < n
            invariant
                n == self.entries@.len(),
                i <= n,
                forall|j: int| 0 <= j < i ==> (#[trigger] self.entries@[j]).0@ != key@,
            decreases n - i,
        {
            if self.entries[i].0 == *key {
                return Some(i);
            }
            i = i + 1;
        }
        None
    }

    /// The value stored under `key`.
    pub fn get(&self, key: &str) -> (r: Option<&T>)
        ensures
            match r {
                Some(v) => self@.contains_key(key@) && *v == self@[key@],
                None => !self@.contains_key(key@),
            },
    {
        proof {
            use_type_invariant(self);
        }
        let k = key.to_string();
        match self.position(&k) {
            Some(i) => {
                proof {
                    lemma_table_map_at(self.entries@, i as int);
                }
                Some(&self.entries[i].1)
            },
            None => {
                proof {
                    lemma_table_map_dom(self.entries@, key@);
                }
                None
            },
        }
    }

    /// Stores `value` under `key`, replacing what was there.
    pub fn insert(&mut self, key: String, value: T)
        ensures
            final(self)@ == old(self)@.insert(key@, value),
    {
        proof {
            use_type_invariant(&*self);
        }
        let pos = self.position(&key);
        let mut entries: Vec<(String, T)> = Vec::new();
        std::mem::swap(&mut entries, &mut self.entries);
        match pos {
            Some(i) => {
                proof {
                    lemma_table_map_update(entries@, i as int, (key, value));
                }
                entries.set(i, (key, value));
            },
            None => {
                proof {
                    lemma_table_map_dom(entries@, key@);
                }
                let ghost before = entries@;
                entries.push((key, value));
                assert(entries@.drop_last() == before);
            },
        }
        self.entries = entries;
    }

    /// The pairs of the map, each key once.
    pub fn pairs(&self) -> (r: &Vec<(String, T)>)
        ensures
            table_map(r@) == self@,
            keys_distinct(r@),
    {
        proof {
            use_type_invariant(self);
        }
        &self.entries
    }
}

} // verus!
