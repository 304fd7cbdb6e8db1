//! Maps from names to values.

use crate::sequences::first_index;
use crate::sequences::lemma_first_index;
use crate::sequences::lemma_first_index_is;
use crate::text::same_text;
use vstd::prelude::*;

verus! {

/// A map from names to values that keeps its entries in the order of their first insertion.
#[derive(Debug)]
pub struct NameMap<V> {
    /// The entries: a name and its value
    entries: Vec<(String, V)>,
}

/// The names of a list of entries.
pub open spec fn names_of<V>(entries: Seq<(String, V)>) -> Seq<Seq<char>> {
    entries.map_values(|e: (String, V)| e.0@)
}

/// The value that a list of entries gives to a name: that of the first entry with the name.
pub open spec fn value_at<V>(entries: Seq<(String, V)>, name: Seq<char>) -> Option<V> {
    if names_of(entries).contains(name) {
        Some(entries[first_index(names_of(entries), name)].1)
    } else {
        None
    }
}

/// The entries after `value` was stored under `name`: the value of an entry with that name is
/// replaced, and an entry for a new name is added at the end.
pub open spec fn stored<V>(entries: Seq<(String, V)>, name: String, value: V) -> Seq<(String, V)> {
    if names_of(entries).contains(name@) {
        let i = first_index(names_of(entries), name@);
        entries.update(i, (entries[i].0, value))
    } else {
        entries.push((name, value))
    }
}

/// The position of the first entry with a name, or the number of entries where there is none
pub fn find_entry<V>(entries: &Vec<(String, V)>, name: &str) -> (r: usize)
    ensures
        r == first_index(names_of(entries@), name@),
        r <= entries@.len(),
{
    let mut i: usize = 0;
    while i < entries.len() && !same_text(entries[i].0.as_str(), name)
        invariant
            i <= entries.len(),
            forall|j: int| 0 <= j < i ==> names_of(entries@)[j] != name@,
        decreases entries.len() - i,
    {
        i = i + 1;
    }
    proof {
        lemma_first_index_is(names_of(entries@), name@, i as int);
    }
    i
}

/// Store a value under a name in a list of entries
pub fn store_entry<V>(entries: &mut Vec<(String, V)>, name: String, value: V)
    ensures
        final(entries)@ == stored(old(entries)@, name, value),
{
    proof {
        lemma_first_index(names_of(entries@), name@);
    }
    let i: usize = find_entry(entries, name.as_str());
    if i < entries.len() {
        entries[i].1 = value;
    } else {
        entries.push((name, value));
    }
}

impl<V> NameMap<V> {
    /// The entries, in the order of their first insertion.
    pub closed spec fn entries(&self) -> Seq<(String, V)> {
        self.entries@
    }

    /// The names in the map, in order.
    pub open spec fn names(&self) -> Seq<Seq<char>> {
        names_of(self.entries())
    }

    /// The values in the map, in order.
    pub open spec fn values(&self) -> Seq<V> {
        self.entries().map_values(|e: (String, V)| e.1)
    }

    /// No name occurs twice.
    #[verifier::type_invariant]
    pub open spec fn wf(&self) -> bool {
        self.names().no_duplicates()
    }

    /// The value that the map gives to a name.
    pub open spec fn at(&self, name: Seq<char>) -> Option<V> {
        value_at(self.entries(), name)
    }

    /// Create an empty map
    pub fn new() -> (r: Self)
        ensures
            r.entries() == Seq::<(String, V)>::empty(),
            r.wf(),
    {
        NameMap { entries: Vec::new() }
    }

    /// The number of entries
    pub fn len(&self) -> (r: usize)
        ensures
            r == self.names().len(),
    {
        self.entries.len()
    }

    /// Whether the map has no entries
    pub fn is_empty(&self) -> (r: bool)
        ensures
            r == (self.names().len() == 0),
    {
        self.entries.len() == 0
    }

    /// Whether the map holds a name
    pub fn contains_key(&self, name: &str) -> (r: bool)
        ensures
            r == self.names().contains(name@),
    {
        proof {
            lemma_first_index(self.names(), name@);
        }
        find_entry(&self.entries, name) < self.entries.len()
    }

    /// The value of a name
    pub fn get(&self, name: &str) -> (r: Option<&V>)
        ensures
            match r {
                Some(v) => self.at(name@) == Some(*v),
                None => self.at(name@) is None,
            },
    {
        proof {
            lemma_first_index(self.names(), name@);
        }
        let i: usize = find_entry(&self.entries, name);
        if i < self.entries.len() {
            Some(&self.entries[i].1)
        } else {
            None
        }
    }

    /// The entry at a position
    pub fn entry(&self, i: usize) -> (r: &(String, V))
        requires
            i < self.names().len(),
        ensures
            *r == self.entries()[i as int],
    {
        &self.entries[i]
    }

    /// All entries
    pub fn into_entries(self) -> (r: Vec<(String, V)>)
        ensures
            r@ == self.entries(),
            names_of(r@).no_duplicates(),
    {
        proof {
            use_type_invariant(&self);
        }
        self.entries
    }

    /// Store a value under a name
    pub fn insert(&mut self, name: String, value: V)
        ensures
            final(self).entries() == stored(old(self).entries(), name, value),
            final(self).wf(),
    {
        proof {
            use_type_invariant(&*self);
            lemma_stored(self.entries(), name, value);
        }
        let mut entries: Vec<(String, V)> = Vec::new();
        std::mem::swap(&mut self.entries, &mut entries);
        store_entry(&mut entries, name, value);
        self.entries = entries;
    }
}

/// Storing a value keeps the names apart, and changes what the map gives to that name only.
pub proof fn lemma_stored<V>(entries: Seq<(String, V)>, name: String, value: V)
    ensures
        names_of(entries).no_duplicates() ==> names_of(
            stored(entries, name, value),
        ).no_duplicates(),
        value_at(stored(entries, name, value), name@) == Some(value),
        forall|other: Seq<char>|
            other != name@ ==> #[trigger] value_at(stored(entries, name, value), other) == value_at(
                entries,
                other,
            ),
        forall|n: Seq<char>| #[trigger]
            names_of(stored(entries, name, value)).contains(n) <==> n == name@ || names_of(
                entries,
            ).contains(n),
{
    let old_names = names_of(entries);
    let new = stored(entries, name, value);
    let new_names = names_of(new);
    lemma_first_index(old_names, name@);
    if old_names.contains(name@) {
        assert(new_names =~= old_names);
    } else {
        assert(new_names =~= old_names.push(name@));
        assert(new_names[old_names.len() as int] == name@);
        assert forall|n: Seq<char>| #[trigger] new_names.contains(n) <==> n == name@
            || old_names.contains(n) by {
            if old_names.contains(n) {
                let k = choose|k: int| 0 <= k < old_names.len() && old_names[k] == n;
                assert(new_names[k] == n);
            }
            if new_names.contains(n) {
                let k = choose|k: int| 0 <= k < new_names.len() && new_names[k] == n;
                if k < old_names.len() {
                    assert(old_names[k] == n);
                }
            }
        }
        lemma_first_index_is(new_names, name@, old_names.len() as int);
    }
    assert forall|other: Seq<char>| other != name@ implies #[trigger] value_at(new, other)
        == value_at(entries, other) by {
        lemma_first_index(old_names, other);
        if old_names.contains(other) {
            lemma_first_index_is(new_names, other, first_index(old_names, other));
        }
    }
}

/// The entries of a map are told apart by their names: a map gives each name the value of its
/// entry, and a name without an entry nothing.
pub proof fn entries_are_found_by_name<V>(map: NameMap<V>, name: Seq<char>, i: int)
    requires
        map.wf(),
        0 <= i < map.entries().len(),
    ensures
        map.names().len() == map.entries().len(),
        map.values().len() == map.entries().len(),
        map.names()[i] == map.entries()[i].0@,
        map.values()[i] == map.entries()[i].1,
        map.at(map.entries()[i].0@) == Some(map.entries()[i].1),
        map.at(name) is Some <==> exists|j: int|
            0 <= j < map.entries().len() && (#[trigger] map.entries()[j]).0@ == name,
{
    let names = map.names();
    let key = map.entries()[i].0@;
    assert(names[i] == key);
    assert(names.contains(key));
    lemma_first_index(names, key);
    if map.at(name) is Some {
        let j = choose|j: int| 0 <= j < names.len() && names[j] == name;
        assert(map.entries()[j].0@ == name);
    }
    if exists|j: int| 0 <= j < map.entries().len() && (#[trigger] map.entries()[j]).0@ == name {
        let j = choose|j: int|
            0 <= j < map.entries().len() && (#[trigger] map.entries()[j]).0@ == name;
        assert(names[j] == name);
    }
}

/// Storing keeps the order of the names: a new name comes last.
pub proof fn new_names_come_last<V>(entries: Seq<(String, V)>, name: String, value: V)
    ensures
        names_of(entries).contains(name@) ==> names_of(stored(entries, name, value)) == names_of(
            entries,
        ),
        !names_of(entries).contains(name@) ==> names_of(stored(entries, name, value)) == names_of(
            entries,
        ).push(name@),
{
    lemma_first_index(names_of(entries), name@);
    if names_of(entries).contains(name@) {
        assert(names_of(stored(entries, name, value)) =~= names_of(entries));
    } else {
        assert(names_of(stored(entries, name, value)) =~= names_of(entries).push(name@));
    }
}

} // verus!
