//! A small map from text keys to byte strings.

use crate::search::{first, lemma_first, lemma_first_unique};
use crate::text::str_eq;
use vstd::prelude::*;

verus! {

/// A map from text keys to byte strings, kept in insertion order.
///
/// Its view is the mathematical map. Inserting under a key that is already
/// there replaces the value, so that no key stands twice in a table that
/// was made by `new` and `insert`.
#[derive(Debug)]
pub struct Table {
    entries: Vec<(String, Vec<u8>)>,
}

/// The first position in `entries` whose key is `key`, or the length of
/// `entries` if no entry has that key.
pub open spec fn position(entries: Seq<(String, Vec<u8>)>, key: Seq<char>) -> int {
    first(entries, has_key(key))
}

/// The condition of standing under `key`.
pub open spec fn has_key(key: Seq<char>) -> spec_fn((String, Vec<u8>)) -> bool {
    |e: (String, Vec<u8>)| e.0@ == key
}

/// The map that a list of entries stands for: each key with the value of the
/// first entry that has it.
pub open spec fn entries_map(entries: Seq<(String, Vec<u8>)>) -> Map<Seq<char>, Seq<u8>> {
    Map::new(
        |key: Seq<char>| position(entries, key) < entries.len(),
        |key: Seq<char>| entries[position(entries, key)].1@,
    )
}

proof fn lemma_position(entries: Seq<(String, Vec<u8>)>, key: Seq<char>)
    ensures
        0 <= position(entries, key) <= entries.len(),
        forall|j: int| 0 <= j < position(entries, key) ==> (#[trigger] entries[j]).0@ != key,
        position(entries, key) < entries.len() ==> entries[position(entries, key)].0@ == key,
{
    lemma_first(entries, has_key(key));
}

proof fn lemma_position_unique(entries: Seq<(String, Vec<u8>)>, key: Seq<char>, i: int)
    requires
        0 <= i <= entries.len(),
        forall|j: int| 0 <= j < i ==> (#[trigger] entries[j]).0@ != key,
        i < entries.len() ==> entries[i].0@ == key,
    ensures
        position(entries, key) == i,
{
    lemma_first_unique(entries, has_key(key), i);
}

/// Appending an entry under a new key adds that key to the map.
proof fn lemma_push(entries: Seq<(String, Vec<u8>)>, entry: (String, Vec<u8>))
    requires
        position(entries, entry.0@) == entries.len(),
    ensures
        entries_map(entries.push(entry)) == entries_map(entries).insert(entry.0@, entry.1@),
{
    let after = entries.push(entry);
    assert forall|key: Seq<char>|
        0 <= #[trigger] position(entries, key) <= entries.len() && position(after, key) == (
        if position(entries, key) < entries.len() || key == entry.0@ {
            position(entries, key)
        } else {
            after.len() as int
        }) by {
        lemma_position(entries, key);
        let p = position(entries, key);
        if p < entries.len() || key == entry.0@ {
            lemma_position_unique(after, key, p);
        } else {
            lemma_position_unique(after, key, after.len() as int);
        }
    }
    assert(entries_map(after) =~= entries_map(entries).insert(entry.0@, entry.1@));
}

/// Replacing the value of the first entry under a key replaces that key's
/// value in the map.
proof fn lemma_replace(entries: Seq<(String, Vec<u8>)>, i: int, entry: (String, Vec<u8>))
    requires
        position(entries, entry.0@) == i,
        i < entries.len(),
    ensures
        entries_map(entries.update(i, entry)) == entries_map(entries).insert(entry.0@, entry.1@),
{
    lemma_position(entries, entry.0@);
    let after = entries.update(i, entry);
    assert forall|key: Seq<char>|
        0 <= #[trigger] position(entries, key) <= entries.len() && position(after, key)
            == position(entries, key) && (position(entries, key) == i <==> key == entry.0@) by {
        lemma_position(entries, key);
        lemma_position_unique(after, key, position(entries, key));
    }
    assert(entries_map(after) =~= entries_map(entries).insert(entry.0@, entry.1@));
}

impl View for Table {
    type V = Map<Seq<char>, Seq<u8>>;

    closed spec fn view(&self) -> Map<Seq<char>, Seq<u8>> {
        entries_map(self.entries@)
    }
}

impl Table {
    /// Tells whether no key stands twice in the list.
    pub closed spec fn distinct(&self) -> bool {
        forall|i: int, j: int|
            0 <= i < j < self.entries@.len() ==> (#[trigger] self.entries@[i]).0@
                != (#[trigger] self.entries@[j]).0@
    }

    /// An empty table.
    pub fn new() -> (r: Table)
        ensures
            r@ == Map::<Seq<char>, Seq<u8>>::empty(),
            r.distinct(),
    {
        let r = Table { entries: Vec::new() };
        assert(r@ =~= Map::<Seq<char>, Seq<u8>>::empty());
        r
    }

    /// The position of the first entry under `key`, or the number of entries.
    fn locate(&self, key: &str) -> (i: usize)
        ensures
            i == position(self.entries@, key@),
            i <= self.entries@.len(),
    {
        let mut i: usize = 0;
        while i < self.entries.len() && !str_eq(self.entries[i].0.as_str(), key)
            invariant
                i <= self.entries@.len(),
                forall|j: int| 0 <= j < i ==> (#[trigger] self.entries@[j]).0@ != key@,
            decreases self.entries@.len() - i,
        {
            i += 1;
        }
        proof {
            lemma_position_unique(self.entries@, key@, i as int);
        }
        i
    }

    /// Sets the value under `key`.
    pub fn insert(&mut self, key: String, value: Vec<u8>)
        ensures
            final(self)@ == old(self)@.insert(key@, value@),
            old(self).distinct() ==> final(self).distinct(),
    {
        let i = self.locate(key.as_str());
        let entry = (key, value);
        proof {
            lemma_position(self.entries@, entry.0@);
        }
        if i < self.entries.len() {
            proof {
                lemma_replace(self.entries@, i as int, entry);
            }
            self.entries.set(i, entry);
        } else {
            proof {
                lemma_push(self.entries@, entry);
            }
            self.entries.push(entry);
        }
    }

    /// The value under `key`, if there is one.
    pub fn get(&self, key: &str) -> (r: Option<&[u8]>)
        ensures
            match r {
                Some(value) => self@.contains_key(key@) && self@[key@] == value@,
                None => !self@.contains_key(key@),
            },
    {
        let i = self.locate(key);
        if i < self.entries.len() {
            Some(self.entries[i].1.as_slice())
        } else {
            None
        }
    }
}

} // verus!
