//! Tables keyed by names: the lookups that the layout does by entity or
//! participant name.
use vstd::prelude::*;

use crate::text::str_eq;

verus! {

/// No name occurs twice.
pub open spec fn distinct_names(names: Seq<Seq<char>>) -> bool {
    forall|i: int, j: int| 0 <= i < j < names.len() ==> #[trigger] names[i] != #[trigger] names[j]
}

/// The position of `k` in `names`.
pub open spec fn index_in(names: Seq<Seq<char>>, k: Seq<char>) -> int {
    choose|i: int| 0 <= i < names.len() && names[i] == k
}

/// In a sequence without repetitions a name's position is unique.
pub proof fn lemma_index_in(names: Seq<Seq<char>>, j: int)
    requires
        distinct_names(names),
        0 <= j < names.len(),
    ensures
        index_in(names, names[j]) == j,
{
    let c = index_in(names, names[j]);
    assert(0 <= c < names.len() && names[c] == names[j]);
    if c < j {
        assert(names[c] != names[j]);
    } else if c > j {
        assert(names[j] != names[c]);
    }
}

/// A finite map from names to values, holding each name once.
pub struct NameTable<V> {
    entries: Vec<(String, V)>,
}

impl<V> NameTable<V> {
    #[verifier::type_invariant]
    spec fn inv(self) -> bool {
        distinct_names(self.names())
    }

    /// Names held, in insertion order.
    pub closed spec fn names(self) -> Seq<Seq<char>> {
        self.entries@.map_values(|e: (String, V)| e.0@)
    }

    /// The table as a map from names to values.
    pub closed spec fn as_map(self) -> Map<Seq<char>, V> {
        Map::new(
            |k: Seq<char>| self.names().contains(k),
            |k: Seq<char>| self.entries@[index_in(self.names(), k)].1,
        )
    }

    /// An empty table.
    pub fn new() -> (res: Self)
        ensures
            res@ == Map::<Seq<char>, V>::empty(),
    {
        let res = NameTable { entries: Vec::new() };
        assert(res@ =~= Map::<Seq<char>, V>::empty());
        res
    }

    /// Position of `name` among the held names.
    fn index_of(&self, name: &str) -> (res: Option<usize>)
        ensures
            match res {
                Some(i) => i < self.entries.len() && self.names()[i as int] == name@,
                None => !self.names().contains(name@),
            },
    {
        for i in 0..self.entries.len()
            invariant
                forall|j: int| 0 <= j < i ==> self.names()[j] != name@,
        {
            if str_eq(self.entries[i].0.as_str(), name) {
                return Some(i);
            }
        }
        assert(!self.names().contains(name@)) by {
            if self.names().contains(name@) {
                let j = choose|j: int| 0 <= j < self.names().len() && self.names()[j] == name@;
                assert(self.names()[j] != name@);
            }
        }
        None
    }

    /// The value stored under `name`.
    pub fn get(&self, name: &str) -> (res: Option<&V>)
        ensures
            match res {
                Some(v) => self@.contains_key(name@) && *v == self@[name@],
                None => !self@.contains_key(name@),
            },
    {
        proof {
            use_type_invariant(self);
        }
        match self.index_of(name) {
            Some(i) => {
                proof {
                    lemma_index_in(self.names(), i as int);
                }
                Some(&self.entries[i].1)
            },
            None => None,
        }
    }

    /// Stores `value` under `name`, replacing what was stored there.
    pub fn insert(&mut self, name: String, value: V)
        ensures
            final(self)@ == old(self)@.insert(name@, value),
    {
        proof {
            use_type_invariant(&*self);
        }
        let ghost old_names = self.names();
        let ghost old_map = self@;
        let ghost key = name@;
        let found = self.index_of(name.as_str());
        let mut entries: Vec<(String, V)> = Vec::new();
        std::mem::swap(&mut entries, &mut self.entries);
        match found {
            Some(i) => {
                entries.set(i, (name, value));
                assert(entries@.map_values(|e: (String, V)| e.0@) =~= old_names);
                self.entries = entries;
                proof {
                    assert(self.names() =~= old_names);
                    assert forall|k: Seq<char>| #[trigger] self@.contains_key(k) implies self@[k]
                        == old_map.insert(key, value)[k] by {
                        let j = index_in(old_names, k);
                        assert(0 <= j < old_names.len() && old_names[j] == k);
                        lemma_index_in(old_names, j);
                    }
                    assert(self@ =~= old_map.insert(key, value));
                }
            },
            None => {
                entries.push((name, value));
                assert(entries@.map_values(|e: (String, V)| e.0@) =~= old_names.push(key));
                self.entries = entries;
                proof {
                    let n = old_names.len() as int;
                    assert(self.names() =~= old_names.push(key));
                    assert(distinct_names(self.names()));
                    assert forall|k: Seq<char>| #[trigger] self@.contains_key(k) implies self@[k]
                        == old_map.insert(key, value)[k] by {
                        let j = index_in(self.names(), k);
                        assert(0 <= j < self.names().len() && self.names()[j] == k);
                        lemma_index_in(self.names(), j);
                        if j < n {
                            lemma_index_in(old_names, j);
                        }
                    }
                    assert forall|k: Seq<char>| old_map.insert(key, value).contains_key(k) implies #[trigger] self@.contains_key(k) by {
                        if k != key {
                            let j = choose|j: int| 0 <= j < old_names.len() && old_names[j] == k;
                            assert(self.names()[j] == k);
                        } else {
                            assert(self.names()[n] == k);
                        }
                    }
                    assert(self@ =~= old_map.insert(key, value));
                }
            },
        }
    }
}

impl<V> View for NameTable<V> {
    type V = Map<Seq<char>, V>;

    closed spec fn view(&self) -> Map<Seq<char>, V> {
        self.as_map()
    }
}

/// Reading after writing: after `insert(name, value)` a lookup of `name`
/// finds `value`, and every other name finds what it found before.
pub proof fn lemma_lookup_after_insert<V>(m: Map<Seq<char>, V>, name: Seq<char>, value: V, other: Seq<char>)
    ensures
        m.insert(name, value).contains_key(name),
        m.insert(name, value)[name] == value,
        other != name ==> (m.insert(name, value).contains_key(other) == m.contains_key(other)),
        other != name && m.contains_key(other) ==> m.insert(name, value)[other] == m[other],
{
}

} // verus!
