//! The flattened path mapping: a finite map from path strings to text values.

use vstd::prelude::*;

verus! {

/// The map that a sequence of entries stands for: the entries are inserted
/// from first to last, so a later entry replaces an earlier one with its key.
spec fn entries_map(entries: Seq<(String, String)>) -> Map<Seq<char>, Seq<char>>
    decreases entries.len(),
{
    if entries.len() == 0 {
        Map::empty()
    } else {
        entries_map(entries.drop_last()).insert(entries.last().0@, entries.last().1@)
    }
}

/// No two entries have the same key.
spec fn distinct_keys(entries: Seq<(String, String)>) -> bool {
    forall|i: int, j: int| 0 <= i < j < entries.len() ==> entries[i].0@ != entries[j].0@
}

/// Whether `i` is the index of an entry with key `key`.
spec fn key_index(entries: Seq<(String, String)>, key: Seq<char>, i: int) -> bool {
    0 <= i < entries.len() && entries[i].0@ == key
}

/// A key is in the map exactly if an entry has it.
proof fn lemma_entries_map_domain(entries: Seq<(String, String)>, key: Seq<char>)
    ensures
        entries_map(entries).contains_key(key) <==> exists|i: int| key_index(entries, key, i),
        entries_map(entries).dom().finite(),
    decreases entries.len(),
{
    if entries.len() > 0 {
        let front = entries.drop_last();
        lemma_entries_map_domain(front, key);
        if entries_map(entries).contains_key(key) {
            if entries.last().0@ == key {
                assert(key_index(entries, key, entries.len() - 1));
            } else {
                let i = choose|i: int| key_index(front, key, i);
                assert(key_index(entries, key, i));
            }
        }
        if exists|i: int| key_index(entries, key, i) {
            let i = choose|i: int| key_index(entries, key, i);
            if i < entries.len() - 1 {
                assert(key_index(front, key, i));
            }
        }
    }
}

/// Where the keys are distinct, each entry's value stands under its key.
proof fn lemma_entries_map_value(entries: Seq<(String, String)>, i: int)
    requires
        distinct_keys(entries),
        0 <= i < entries.len(),
    ensures
        entries_map(entries).contains_key(entries[i].0@),
        entries_map(entries)[entries[i].0@] == entries[i].1@,
    decreases entries.len(),
{
    if i < entries.len() - 1 {
        lemma_entries_map_value(entries.drop_last(), i);
    }
}

/// Where the keys are distinct, the map has as many keys as there are entries.
proof fn lemma_entries_map_len(entries: Seq<(String, String)>)
    requires
        distinct_keys(entries),
    ensures
        entries_map(entries).dom().finite(),
        entries_map(entries).len() == entries.len(),
    decreases entries.len(),
{
    if entries.len() > 0 {
        let front = entries.drop_last();
        lemma_entries_map_len(front);
        lemma_entries_map_domain(front, entries.last().0@);
        if exists|i: int| key_index(front, entries.last().0@, i) {
            let i = choose|i: int| key_index(front, entries.last().0@, i);
            assert(entries[i].0@ == entries[entries.len() - 1].0@);
        }
    }
}

/// Replacing the entry of a key in place puts the new value under the key.
proof fn lemma_entries_map_replace(
    entries: Seq<(String, String)>,
    i: int,
    entry: (String, String),
)
    requires
        distinct_keys(entries),
        0 <= i < entries.len(),
        entry.0@ == entries[i].0@,
    ensures
        distinct_keys(entries.update(i, entry)),
        entries_map(entries.update(i, entry)) == entries_map(entries).insert(entry.0@, entry.1@),
    decreases entries.len(),
{
    let updated = entries.update(i, entry);
    assert(distinct_keys(updated)) by {
        assert forall|a: int, b: int| 0 <= a < b < updated.len() implies updated[a].0@
            != updated[b].0@ by {
            assert(entries[a].0@ != entries[b].0@);
        }
    }
    let front = entries.drop_last();
    if i == entries.len() - 1 {
        assert(updated.drop_last() == front);
        assert(entries_map(updated) == entries_map(entries).insert(entry.0@, entry.1@));
    } else {
        lemma_entries_map_replace(front, i, entry);
        assert(updated.drop_last() == front.update(i, entry));
        assert(entries[i].0@ != entries[entries.len() - 1].0@);
        assert(entries_map(updated) == entries_map(entries).insert(entry.0@, entry.1@));
    }
}

/// A finite map from path strings to text values, with each key held once.
#[derive(Debug)]
pub struct PathMap {
    entries: Vec<(String, String)>,
}

impl View for PathMap {
    type V = Map<Seq<char>, Seq<char>>;

    closed spec fn view(&self) -> Map<Seq<char>, Seq<char>> {
        entries_map(self.entries@)
    }
}

impl PathMap {
    #[verifier::type_invariant]
    spec fn keys_are_distinct(&self) -> bool {
        distinct_keys(self.entries@)
    }

    /// The empty map.
    pub fn new() -> (map: PathMap)
        ensures
            map@ == Map::<Seq<char>, Seq<char>>::empty(),
    {
        PathMap { entries: Vec::new() }
    }

    /// The number of keys.
    pub fn len(&self) -> (n: usize)
        ensures
            self@.dom().finite(),
            n == self@.len(),
    {
        proof {
            use_type_invariant(self);
            lemma_entries_map_len(self.entries@);
        }
        self.entries.len()
    }

    /// Whether the map holds no key.
    pub fn is_empty(&self) -> (empty: bool)
        ensures
            empty <==> self@ == Map::<Seq<char>, Seq<char>>::empty(),
    {
        proof {
            use_type_invariant(self);
            lemma_entries_map_len(self.entries@);
            if self.entries@.len() > 0 {
                lemma_entries_map_value(self.entries@, 0);
            }
        }
        self.entries.len() == 0
    }

    /// The position of `key` among the entries.
    fn position(&self, key: &String) -> (found: Option<usize>)
        ensures
            match found {
                Some(i) => key_index(self.entries@, key@, i as int),
                None => !self@.contains_key(key@),
            },
    {
        let mut i: usize = 0;
        while i < self.entries.len()
            invariant
                i <= self.entries.len(),
                forall|j: int| 0 <= j < i ==> !key_index(self.entries@, key@, j),
            decreases self.entries.len() - i,
        {
            if self.entries[i].0 == *key {
                return Some(i);
            }
            i += 1;
        }
        proof {
            lemma_entries_map_domain(self.entries@, key@);
        }
        None
    }

    /// The value under `key`, if the map has that key.
    pub fn get(&self, key: &str) -> (value: Option<&String>)
        ensures
            match value {
                Some(text) => self@.contains_key(key@) && text@ == self@[key@],
                None => !self@.contains_key(key@),
            },
    {
        let owned = key.to_owned();
        match self.position(&owned) {
            Some(i) => {
                proof {
                    use_type_invariant(self);
                    lemma_entries_map_value(self.entries@, i as int);
                }
                Some(&self.entries[i].1)
            },
            None => None,
        }
    }

    /// Whether the map has `key`.
    pub fn contains_key(&self, key: &str) -> (present: bool)
        ensures
            present == self@.contains_key(key@),
    {
        self.get(key).is_some()
    }

    /// Puts `value` under `key`, in place of the value that `key` had, if any.
    pub fn insert(&mut self, key: String, value: String)
        ensures
            final(self)@ == old(self)@.insert(key@, value@),
    {
        proof {
            use_type_invariant(&*self);
        }
        let found = self.position(&key);
        let mut entries: Vec<(String, String)> = Vec::new();
        core::mem::swap(&mut self.entries, &mut entries);
        let ghost before = entries@;
        match found {
            Some(i) => {
                proof {
                    lemma_entries_map_replace(before, i as int, (key, value));
                }
                entries.set(i, (key, value));
            },
            None => {
                proof {
                    lemma_entries_map_domain(before, key@);
                    let after = before.push((key, value));
                    assert(after.drop_last() == before);
                    assert forall|a: int, b: int| 0 <= a < b < after.len() implies after[a].0@
                        != after[b].0@ by {
                        if b == before.len() {
                            assert(!key_index(before, key@, a));
                        }
                    }
                }
                entries.push((key, value));
            },
        }
        self.entries = entries;
    }

    /// A map with the same keys and values.
    pub fn copy(&self) -> (map: PathMap)
        ensures
            map@ == self@,
    {
        proof {
            use_type_invariant(self);
        }
        let mut entries: Vec<(String, String)> = Vec::new();
        let mut i: usize = 0;
        while i < self.entries.len()
            invariant
                i <= self.entries.len(),
                entries@ == self.entries@.take(i as int),
            decreases self.entries.len() - i,
        {
            let key = self.entries[i].0.clone();
            let value = self.entries[i].1.clone();
            entries.push((key, value));
            assert(entries@ == self.entries@.take(i + 1));
            i += 1;
        }
        assert(entries@ == self.entries@);
        PathMap { entries }
    }
}

} // verus!
