//! The in-memory index: for each key, the offset of its latest record.

use vstd::prelude::*;

verus! {

/// One key and the offset recorded for it.
struct Entry {
    key: Vec<u8>,
    offset: u64,
}

/// A map from keys to log offsets.
///
/// The entries are kept in the order in which their keys first arrived, and
/// no key occurs twice.
pub struct Index {
    entries: Vec<Entry>,
}

/// No key occurs twice among `entries`.
spec fn distinct_keys(entries: Seq<Entry>) -> bool {
    forall|i: int, j: int| 0 <= i < j < entries.len() ==> entries[i].key@ != entries[j].key@
}

/// Whether some entry holds `key`.
spec fn holds(entries: Seq<Entry>, key: Seq<u8>) -> bool {
    exists|i: int| 0 <= i < entries.len() && #[trigger] entries[i].key@ == key
}

/// The place of an entry that holds `key`.
spec fn place(entries: Seq<Entry>, key: Seq<u8>) -> int {
    choose|i: int| 0 <= i < entries.len() && #[trigger] entries[i].key@ == key
}

/// The map that `entries` stand for.
spec fn as_map(entries: Seq<Entry>) -> Map<Seq<u8>, u64> {
    Map::new(|key: Seq<u8>| holds(entries, key), |key: Seq<u8>| entries[place(entries, key)].offset)
}

/// Each entry is the map's entry for its key.
proof fn lemma_entry_in_map(entries: Seq<Entry>, i: int)
    requires
        distinct_keys(entries),
        0 <= i < entries.len(),
    ensures
        as_map(entries).contains_key(entries[i].key@),
        as_map(entries)[entries[i].key@] == entries[i].offset,
{
    assert(holds(entries, entries[i].key@));
    let j = place(entries, entries[i].key@);
    assert(i == j);
}

/// Appending an entry for a new key inserts it into the map.
proof fn lemma_push_inserts(entries: Seq<Entry>, entry: Entry)
    requires
        distinct_keys(entries),
        !holds(entries, entry.key@),
    ensures
        distinct_keys(entries.push(entry)),
        as_map(entries.push(entry)) == as_map(entries).insert(entry.key@, entry.offset),
{
    let pushed = entries.push(entry);
    assert(distinct_keys(pushed)) by {
        assert forall|i: int, j: int| 0 <= i < j < pushed.len() implies pushed[i].key@
            != pushed[j].key@ by {
            if j == entries.len() {
                assert(entries[i].key@ == pushed[i].key@);
            }
        }
    }
    assert forall|key: Seq<u8>| holds(pushed, key) <==> (key == entry.key@ || holds(entries, key)) by {
        if holds(pushed, key) {
            let i = place(pushed, key);
            if i < entries.len() {
                assert(entries[i].key@ == key);
            }
        }
        if holds(entries, key) {
            let i = place(entries, key);
            assert(pushed[i].key@ == key);
        }
        if key == entry.key@ {
            assert(pushed[entries.len() as int].key@ == key);
        }
    }
    assert forall|key: Seq<u8>| holds(pushed, key) implies as_map(pushed)[key] == as_map(
        entries,
    ).insert(entry.key@, entry.offset)[key] by {
        let i = place(pushed, key);
        lemma_entry_in_map(pushed, i);
        if i < entries.len() {
            lemma_entry_in_map(entries, i);
        }
    }
    assert(as_map(pushed) =~= as_map(entries).insert(entry.key@, entry.offset));
}

/// Changing the offset of an entry changes the map at its key alone.
proof fn lemma_update_inserts(entries: Seq<Entry>, i: int, entry: Entry)
    requires
        distinct_keys(entries),
        0 <= i < entries.len(),
        entry.key@ == entries[i].key@,
    ensures
        distinct_keys(entries.update(i, entry)),
        as_map(entries.update(i, entry)) == as_map(entries).insert(entry.key@, entry.offset),
{
    let updated = entries.update(i, entry);
    assert forall|key: Seq<u8>| holds(updated, key) <==> holds(entries, key) by {
        if holds(updated, key) {
            let j = place(updated, key);
            assert(entries[j].key@ == key);
        }
        if holds(entries, key) {
            let j = place(entries, key);
            assert(updated[j].key@ == key);
        }
    }
    assert(holds(entries, entry.key@));
    assert forall|key: Seq<u8>| holds(updated, key) implies as_map(updated)[key] == as_map(
        entries,
    ).insert(entry.key@, entry.offset)[key] by {
        let j = place(updated, key);
        lemma_entry_in_map(updated, j);
        lemma_entry_in_map(entries, j);
    }
    assert(as_map(updated) =~= as_map(entries).insert(entry.key@, entry.offset));
}

/// Whether two byte strings are equal.
pub fn same_bytes(a: &[u8], b: &[u8]) -> (same: bool)
    ensures
        same == (a@ == b@),
{
    if a.len() != b.len() {
        return false;
    }
    let mut i: usize = 0;
    while i < a.len()
        invariant
            a@.len() == b@.len(),
            i <= a@.len(),
            a@.subrange(0, i as int) == b@.subrange(0, i as int),
        decreases a@.len() - i,
    {
        if a[i] != b[i] {
            return false;
        }
        i += 1;
        assert(a@.subrange(0, i as int) =~= a@.subrange(0, i - 1).push(a@[i - 1]));
        assert(b@.subrange(0, i as int) =~= b@.subrange(0, i - 1).push(b@[i - 1]));
    }
    assert(a@ =~= a@.subrange(0, i as int));
    assert(b@ =~= b@.subrange(0, i as int));
    true
}

/// Where `key` stands among `entries`, if it does.
fn position(entries: &Vec<Entry>, key: &[u8]) -> (found: Option<usize>)
    ensures
        match found {
            Some(i) => i < entries@.len() && entries@[i as int].key@ == key@,
            None => !holds(entries@, key@),
        },
{
    let mut i: usize = 0;
    while i < entries.len()
        invariant
            i <= entries@.len(),
            forall|j: int| 0 <= j < i ==> entries@[j].key@ != key@,
        decreases entries@.len() - i,
    {
        if same_bytes(entries[i].key.as_slice(), key) {
            return Some(i);
        }
        i += 1;
    }
    None
}

impl Index {
    #[verifier::type_invariant]
    spec fn well_formed(&self) -> bool {
        distinct_keys(self.entries@)
    }

    /// The index as a mathematical map.
    pub closed spec fn view(&self) -> Map<Seq<u8>, u64> {
        as_map(self.entries@)
    }

    /// An index without entries.
    pub fn new() -> (index: Index)
        ensures
            index@ == Map::<Seq<u8>, u64>::empty(),
    {
        let index = Index { entries: Vec::new() };
        assert(index@ =~= Map::<Seq<u8>, u64>::empty());
        index
    }

    /// The offset recorded for `key`.
    pub fn get(&self, key: &[u8]) -> (offset: Option<u64>)
        ensures
            offset == (if self@.contains_key(key@) {
                Some(self@[key@])
            } else {
                None
            }),
    {
        proof {
            use_type_invariant(self);
        }
        match position(&self.entries, key) {
            Some(i) => {
                proof {
                    lemma_entry_in_map(self.entries@, i as int);
                }
                Some(self.entries[i].offset)
            },
            None => None,
        }
    }

    /// Records `offset` for `key`, in place of the offset that it had.
    pub fn insert(&mut self, key: Vec<u8>, offset: u64)
        ensures
            final(self)@ == old(self)@.insert(key@, offset),
    {
        proof {
            use_type_invariant(&*self);
        }
        let mut entries: Vec<Entry> = Vec::new();
        core::mem::swap(&mut self.entries, &mut entries);
        match position(&entries, key.as_slice()) {
            Some(i) => {
                proof {
                    lemma_update_inserts(entries@, i as int, Entry { key, offset });
                }
                entries[i] = Entry { key, offset };
            },
            None => {
                proof {
                    lemma_push_inserts(entries@, Entry { key, offset });
                }
                entries.push(Entry { key, offset });
            },
        }
        self.entries = entries;
    }
}

} // verus!
