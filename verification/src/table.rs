//! The persona table: a finite map from identifiers to personas.

use vstd::prelude::*;

use crate::persona::Persona;
use crate::text::same_text;

verus! {

/// One row of the table.
#[derive(Debug)]
struct Entry {
    key: String,
    persona: Persona,
}

/// Whether row `i` of `entries` is the row of `key`.
spec fn keyed_at(entries: Seq<Entry>, key: Seq<char>, i: int) -> bool {
    0 <= i < entries.len() && entries[i].key@ == key
}

/// Whether some row of `entries` is the row of `key`.
spec fn has_key(entries: Seq<Entry>, key: Seq<char>) -> bool {
    exists|i: int| keyed_at(entries, key, i)
}

/// The persona in the row of `key`.
spec fn value_of(entries: Seq<Entry>, key: Seq<char>) -> Persona {
    entries[choose|i: int| keyed_at(entries, key, i)].persona
}

/// Whether no two rows of `entries` share a key.
spec fn distinct_keys(entries: Seq<Entry>) -> bool {
    forall|i: int, j: int|
        0 <= i < j < entries.len() ==> (#[trigger] entries[i]).key@ != (#[trigger] entries[j]).key@
}

/// In a table without repeated keys, the row found for a key holds its value.
proof fn lemma_row_holds_value(entries: Seq<Entry>, key: Seq<char>, i: int)
    requires
        distinct_keys(entries),
        keyed_at(entries, key, i),
    ensures
        has_key(entries, key),
        value_of(entries, key) == entries[i].persona,
{
    let chosen = choose|c: int| keyed_at(entries, key, c);
    assert(keyed_at(entries, key, chosen));
    if chosen < i {
        assert(entries[chosen].key@ != entries[i].key@);
    } else if i < chosen {
        assert(entries[i].key@ != entries[chosen].key@);
    }
}

/// The rows after `entry` took the place of the row at `at`, or joined the
/// table where `at` is nothing.
spec fn rows_with(before: Seq<Entry>, at: Option<usize>, entry: Entry) -> Seq<Entry> {
    match at {
        Some(i) => before.remove(i as int).push(entry),
        None => before.push(entry),
    }
}

/// Where a row of `rows_with` came from: its index in the rows before.
spec fn row_origin(at: Option<usize>, i: int) -> int {
    match at {
        Some(gone) => if i < gone { i } else { i + 1 },
        None => i,
    }
}

/// Replacing the row of a key, or adding a row for a key that has none,
/// keeps the keys distinct, stores the new value under that key and leaves
/// every other key as it was.
proof fn lemma_rows_with(before: Seq<Entry>, at: Option<usize>, entry: Entry)
    requires
        distinct_keys(before),
        match at {
            Some(i) => keyed_at(before, entry.key@, i as int),
            None => !has_key(before, entry.key@),
        },
    ensures
        distinct_keys(rows_with(before, at, entry)),
        has_key(rows_with(before, at, entry), entry.key@),
        value_of(rows_with(before, at, entry), entry.key@) == entry.persona,
        forall|k: Seq<char>|
            k != entry.key@ ==> (#[trigger] has_key(rows_with(before, at, entry), k)) == has_key(
                before,
                k,
            ),
        forall|k: Seq<char>|
            k != entry.key@ && has_key(before, k) ==> (#[trigger] value_of(
                rows_with(before, at, entry),
                k,
            )) == value_of(before, k),
{
    let after = rows_with(before, at, entry);
    let last = after.len() - 1;
    assert(keyed_at(after, entry.key@, last));
    assert forall|i: int| 0 <= i < last implies #[trigger] after[i] == before[row_origin(at, i)] by {}
    assert forall|i: int, j: int| 0 <= i < j < after.len() implies (#[trigger] after[i]).key@ != (
    #[trigger] after[j]).key@ by {
        let from_i = row_origin(at, i);
        if j < last {
            assert(before[from_i].key@ != before[row_origin(at, j)].key@);
        } else {
            match at {
                Some(gone) => {
                    assert(before[from_i].key@ != before[gone as int].key@);
                },
                None => {
                    assert(!keyed_at(before, entry.key@, from_i));
                },
            }
        }
    }
    lemma_row_holds_value(after, entry.key@, last);
    assert forall|k: Seq<char>| k != entry.key@ implies (#[trigger] has_key(after, k)) == has_key(
        before,
        k,
    ) by {
        if has_key(after, k) {
            let i = choose|i: int| keyed_at(after, k, i);
            assert(keyed_at(before, k, row_origin(at, i)));
        }
        if has_key(before, k) {
            let i = choose|i: int| keyed_at(before, k, i);
            let to = if at is Some && i > at->0 { i - 1 } else { i };
            assert(row_origin(at, to) == i);
            assert(keyed_at(after, k, to));
        }
    }
    assert forall|k: Seq<char>| k != entry.key@ && has_key(before, k) implies (#[trigger] value_of(
        after,
        k,
    )) == value_of(before, k) by {
        let i = choose|i: int| keyed_at(before, k, i);
        let to = if at is Some && i > at->0 { i - 1 } else { i };
        assert(row_origin(at, to) == i);
        lemma_row_holds_value(after, k, to);
        lemma_row_holds_value(before, k, i);
    }
}

/// The keys of `entries`.
spec fn key_set(entries: Seq<Entry>) -> Set<Seq<char>> {
    Set::new(|key: Seq<char>| has_key(entries, key))
}

/// A table without repeated keys has as many keys as rows.
proof fn lemma_one_key_per_row(entries: Seq<Entry>)
    requires
        distinct_keys(entries),
    ensures
        key_set(entries).finite(),
        key_set(entries).len() == entries.len(),
    decreases entries.len(),
{
    if entries.len() == 0 {
        assert(key_set(entries) =~= Set::<Seq<char>>::empty());
    } else {
        let earlier = entries.drop_last();
        let last = entries.len() - 1;
        lemma_one_key_per_row(earlier);
        assert forall|key: Seq<char>| #[trigger]
            has_key(entries, key) == (key == entries[last].key@ || has_key(earlier, key)) by {
            if has_key(entries, key) {
                let i = choose|i: int| keyed_at(entries, key, i);
                if i < last {
                    assert(keyed_at(earlier, key, i));
                }
            }
            if has_key(earlier, key) {
                let i = choose|i: int| keyed_at(earlier, key, i);
                assert(keyed_at(entries, key, i));
            }
            if key == entries[last].key@ {
                assert(keyed_at(entries, key, last));
            }
        }
        if has_key(earlier, entries[last].key@) {
            let i = choose|i: int| keyed_at(earlier, entries[last].key@, i);
            assert(entries[i].key@ != entries[last].key@);
        }
        assert(key_set(entries) =~= key_set(earlier).insert(entries[last].key@));
    }
}

/// A map from persona identifiers to personas. No identifier occurs twice.
#[derive(Debug)]
pub struct PersonaTable {
    entries: Vec<Entry>,
}

impl PersonaTable {
    #[verifier::type_invariant]
    spec fn keys_distinct(&self) -> bool {
        distinct_keys(self.entries@)
    }
}

impl View for PersonaTable {
    type V = Map<Seq<char>, Persona>;

    closed spec fn view(&self) -> Map<Seq<char>, Persona> {
        Map::new(
            |key: Seq<char>| has_key(self.entries@, key),
            |key: Seq<char>| value_of(self.entries@, key),
        )
    }
}

impl PersonaTable {
    /// The empty table.
    pub fn new() -> (table: PersonaTable)
        ensures
            table@ == Map::<Seq<char>, Persona>::empty(),
    {
        let table = PersonaTable { entries: Vec::new() };
        assert(table@ =~= Map::<Seq<char>, Persona>::empty());
        table
    }

    /// The row that holds `key`, if any.
    fn position(&self, key: &str) -> (found: Option<usize>)
        ensures
            match found {
                Some(i) => keyed_at(self.entries@, key@, i as int),
                None => forall|i: int| !keyed_at(self.entries@, key@, i),
            },
    {
        let mut i: usize = 0;
        while i < self.entries.len()
            invariant
                i <= self.entries@.len(),
                forall|k: int| 0 <= k < i ==> !keyed_at(self.entries@, key@, k),
            decreases self.entries@.len() - i,
        {
            if same_text(self.entries[i].key.as_str(), key) {
                return Some(i);
            }
            i += 1;
        }
        None
    }

    /// The number of personas in the table.
    pub fn len(&self) -> (count: usize)
        ensures
            self@.dom().finite(),
            count == self@.dom().len(),
    {
        proof {
            use_type_invariant(self);
            lemma_one_key_per_row(self.entries@);
            assert(self@.dom() =~= key_set(self.entries@));
        }
        self.entries.len()
    }

    /// Whether the table holds no persona.
    pub fn is_empty(&self) -> (empty: bool)
        ensures
            empty == (self@.dom().len() == 0),
    {
        self.len() == 0
    }

    /// Whether the table has a persona under `key`.
    pub fn contains_key(&self, key: &str) -> (present: bool)
        ensures
            present == self@.contains_key(key@),
    {
        self.position(key).is_some()
    }

    /// The persona stored under `key`.
    pub fn get(&self, key: &str) -> (found: Option<&Persona>)
        ensures
            match found {
                Some(persona) => self@.contains_key(key@) && *persona == self@[key@],
                None => !self@.contains_key(key@),
            },
    {
        proof {
            use_type_invariant(self);
        }
        match self.position(key) {
            Some(i) => {
                proof {
                    lemma_row_holds_value(self.entries@, key@, i as int);
                }
                Some(&self.entries[i].persona)
            },
            None => None,
        }
    }

    /// Stores `persona` under `key` and returns the persona that was there
    /// before, if any.
    pub fn insert(&mut self, key: String, persona: Persona) -> (previous: Option<Persona>)
        ensures
            final(self)@ == old(self)@.insert(key@, persona),
            match previous {
                Some(p) => old(self)@.contains_key(key@) && p == old(self)@[key@],
                None => !old(self)@.contains_key(key@),
            },
    {
        proof {
            use_type_invariant(&*self);
        }
        let found = self.position(key.as_str());
        let mut taken = PersonaTable { entries: Vec::new() };
        core::mem::swap(self, &mut taken);
        let mut entries = taken.entries;
        let ghost before = entries@;
        let previous = match found {
            Some(i) => {
                proof {
                    lemma_row_holds_value(before, key@, i as int);
                }
                Some(entries.remove(i).persona)
            },
            None => None,
        };
        let entry = Entry { key, persona };
        proof {
            lemma_rows_with(before, found, entry);
        }
        entries.push(entry);
        assert(entries@ == rows_with(before, found, entry));
        *self = PersonaTable { entries };
        assert(self@ =~= old(self)@.insert(entry.key@, entry.persona));
        previous
    }
}

} // verus!
