//! The log store: the log's bytes and the index that is derived from them.

use crate::codec::{
    decode, encode, lemma_append_keeps_record, lemma_appended_record, lemma_record_at_bounds,
    record_at, record_bytes, Decoded, KeyValuePair, Outcome,
};
use crate::error::Error;
use crate::index::Index;
use crate::replay::{
    finds, intact, lemma_scan_appended, lemma_scan_keeps_latest, lemma_scan_points_at_records,
    points_at_records, scan,
};
use vstd::prelude::*;
use vstd::slice::slice_to_vec;

verus! {

/// A key-value store over an append-only log.
pub struct RustyKV {
    /// The bytes of the log, from its first record on.
    pub log: Vec<u8>,
    /// For each key, the offset in `log` of its latest record.
    pub index: Index,
}

impl View for RustyKV {
    type V = Map<Seq<u8>, Seq<u8>>;

    /// The store as a map from each indexed key to the value of the record
    /// that its entry points at. A deleted key maps to the empty value.
    open spec fn view(&self) -> Map<Seq<u8>, Seq<u8>> {
        Map::new(
            |key: Seq<u8>| self.index@.contains_key(key),
            |key: Seq<u8>| record_at(self.log@, self.index@[key] as int)->value,
        )
    }
}

impl RustyKV {
    /// Whether each index entry is the offset of a record of its key.
    pub open spec fn consistent(&self) -> bool {
        points_at_records(self.log@, self.index@)
    }

    /// Whether the log is intact and the index is what a scan of it yields.
    pub open spec fn loaded(&self) -> bool {
        &&& intact(self.log@, 0)
        &&& self.index@ == scan(self.log@, 0, Map::empty())
    }

    /// Whether `after` is this store with the record of `key` and `value`
    /// appended to the log and the entry of `key` pointing at it.
    pub open spec fn inserted(&self, key: Seq<u8>, value: Seq<u8>, after: RustyKV) -> bool {
        &&& after.log@ == self.log@ + record_bytes(key, value)
        &&& after.index@ == self.index@.insert(key, self.log@.len() as u64)
    }

    /// What the store answers when asked for `key`.
    pub open spec fn lookup(&self, key: Seq<u8>) -> Result<Option<Seq<u8>>, Error> {
        if !self.index@.contains_key(key) {
            Ok(None)
        } else {
            match record_at(self.log@, self.index@[key] as int) {
                Outcome::Record { value, .. } => Ok(Some(value)),
                _ => Err(Error::Corruption),
            }
        }
    }

    /// A store over the bytes of a log, with an empty index. The log is not
    /// read before `load`.
    pub fn open(log: Vec<u8>) -> (store: RustyKV)
        ensures
            store.log@ == log@,
            store.index@ == Map::<Seq<u8>, u64>::empty(),
            store.consistent(),
    {
        RustyKV { log, index: Index::new() }
    }

    /// Decodes the record at offset `pos` of the log. A position that holds
    /// no whole record, the end of the log included, is corruption.
    pub fn get_at(&self, pos: u64) -> (r: Result<KeyValuePair, Error>)
        ensures
            match r {
                Ok(pair) => {
                    &&& record_at(self.log@, pos as int) is Record
                    &&& pair.key@ == record_at(self.log@, pos as int)->key
                    &&& pair.value@ == record_at(self.log@, pos as int)->value
                },
                Err(_) => !(record_at(self.log@, pos as int) is Record),
            },
    {
        proof {
            lemma_record_at_bounds(self.log@, pos as int);
        }
        if pos >= self.log.len() as u64 {
            return Err(Error::Corruption);
        }
        match decode(self.log.as_slice(), pos as usize) {
            Ok(Decoded::Record { pair, .. }) => Ok(pair),
            Ok(Decoded::EndOfLog) => Err(Error::Corruption),
            Err(e) => Err(e),
        }
    }

    /// The value of the latest record of `key`, or `None` for a key without
    /// an index entry. The value of a deleted key is empty.
    pub fn get(&self, key: &[u8]) -> (r: Result<Option<Vec<u8>>, Error>)
        ensures
            match r {
                Ok(Some(value)) => self.lookup(key@) == Ok::<Option<Seq<u8>>, Error>(Some(value@)),
                Ok(None) => self.lookup(key@) == Ok::<Option<Seq<u8>>, Error>(None),
                Err(e) => self.lookup(key@) == Err::<Option<Seq<u8>>, Error>(e),
            },
            self.consistent() ==> r is Ok,
    {
        let position = match self.index.get(key) {
            None => return Ok(None),
            Some(position) => position,
        };
        match self.get_at(position) {
            Ok(pair) => Ok(Some(pair.value)),
            Err(e) => Err(e),
        }
    }

    /// Appends the record of `key` and `value` to the log and returns the
    /// offset at which it starts. The index is left as it is.
    pub fn insert_but_ignore_index(&mut self, key: &[u8], value: &[u8]) -> (position: u64)
        requires
            key@.len() <= u32::MAX,
            value@.len() <= u32::MAX,
        ensures
            position == old(self).log@.len(),
            final(self).log@ == old(self).log@ + record_bytes(key@, value@),
            final(self).index == old(self).index,
    {
        let position = self.log.len() as u64;
        let mut record = encode(key, value);
        self.log.append(&mut record);
        position
    }

    /// Appends the record of `key` and `value` and points the index entry of
    /// `key` at it.
    pub fn insert(&mut self, key: &[u8], value: &[u8])
        requires
            key@.len() <= u32::MAX,
            value@.len() <= u32::MAX,
        ensures
            old(self).inserted(key@, value@, *final(self)),
            final(self).lookup(key@) == Ok::<Option<Seq<u8>>, Error>(Some(value@)),
            old(self).consistent() ==> final(self).consistent() && final(self)@ == old(self)@.insert(
                key@,
                value@,
            ),
            old(self).loaded() ==> final(self).loaded(),
    {
        let position = self.insert_but_ignore_index(key, value);
        self.index.insert(slice_to_vec(key), position);
        proof {
            lemma_insert_then_get(*old(self), *self, key@, value@);
            if old(self).consistent() {
                lemma_insert_keeps_consistent(*old(self), *self, key@, value@);
            }
            if old(self).loaded() {
                lemma_insert_keeps_loaded(*old(self), *self, key@, value@);
            }
        }
    }

    /// Marks `key` as deleted: inserts it with the empty value. The key keeps
    /// its index entry, and no earlier record is touched.
    pub fn delete(&mut self, key: &[u8])
        requires
            key@.len() <= u32::MAX,
        ensures
            old(self).inserted(key@, Seq::empty(), *final(self)),
            final(self).lookup(key@) == Ok::<Option<Seq<u8>>, Error>(Some(Seq::empty())),
            old(self).consistent() ==> final(self).consistent() && final(self)@ == old(self)@.insert(
                key@,
                Seq::empty(),
            ),
            old(self).loaded() ==> final(self).loaded(),
    {
        let empty: Vec<u8> = Vec::new();
        self.insert(key, empty.as_slice())
    }

    /// Replaces the value of `key`: the same as `insert`.
    pub fn update(&mut self, key: &[u8], value: &[u8])
        requires
            key@.len() <= u32::MAX,
            value@.len() <= u32::MAX,
        ensures
            old(self).inserted(key@, value@, *final(self)),
            final(self).lookup(key@) == Ok::<Option<Seq<u8>>, Error>(Some(value@)),
            old(self).consistent() ==> final(self).consistent() && final(self)@ == old(self)@.insert(
                key@,
                value@,
            ),
            old(self).loaded() ==> final(self).loaded(),
    {
        self.insert(key, value)
    }

    /// Rebuilds the index from the log: scans it from offset 0 and points the
    /// entry of each record's key at that record, later records overriding
    /// earlier ones. Stops without error at the end of the log, and with an
    /// error at the first offset that holds a damaged record.
    pub fn load(&mut self) -> (r: Result<(), Error>)
        ensures
            final(self).log@ == old(self).log@,
            final(self).index@ == scan(old(self).log@, 0, old(self).index@),
            r is Ok <==> intact(old(self).log@, 0),
            old(self).consistent() ==> final(self).consistent(),
            r is Ok && old(self).index@ == Map::<Seq<u8>, u64>::empty() ==> final(self).loaded(),
    {
        proof {
            if old(self).consistent() {
                lemma_log_len_fits(*old(self));
                lemma_scan_points_at_records(old(self).log@, 0, old(self).index@);
            }
        }
        let mut position: usize = 0;
        loop
            invariant
                self.log@ == old(self).log@,
                position <= self.log@.len(),
                scan(self.log@, position as int, self.index@) == scan(
                    old(self).log@,
                    0,
                    old(self).index@,
                ),
                intact(self.log@, position as int) == intact(old(self).log@, 0),
                old(self).consistent() ==> points_at_records(
                    old(self).log@,
                    scan(old(self).log@, 0, old(self).index@),
                ),
            decreases self.log@.len() - position,
        {
            proof {
                lemma_record_at_bounds(self.log@, position as int);
            }
            match decode(self.log.as_slice(), position) {
                Ok(Decoded::Record { pair, next }) => {
                    self.index.insert(pair.key, position as u64);
                    position = next;
                },
                Ok(Decoded::EndOfLog) => {
                    return Ok(());
                },
                Err(e) => {
                    return Err(e);
                },
            }
        }
    }
}

/// The offset at which a store's log ends fits an index entry.
proof fn lemma_log_len_fits(store: RustyKV)
    ensures
        store.log@.len() <= u64::MAX,
{
    assert(store.log.len() == store.log@.len());
}

/// A key that was just inserted reads back as the value given, whatever the
/// store held before.
pub proof fn lemma_insert_then_get(
    before: RustyKV,
    after: RustyKV,
    key: Seq<u8>,
    value: Seq<u8>,
)
    requires
        key.len() <= u32::MAX,
        value.len() <= u32::MAX,
        before.inserted(key, value, after),
    ensures
        after.lookup(key) == Ok::<Option<Seq<u8>>, Error>(Some(value)),
{
    lemma_log_len_fits(before);
    lemma_appended_record(before.log@, key, value);
}

/// An insertion into a consistent store leaves it consistent, sets the key
/// to the value in the store's map, and changes the answer for no other key.
pub proof fn lemma_insert_keeps_consistent(
    before: RustyKV,
    after: RustyKV,
    key: Seq<u8>,
    value: Seq<u8>,
)
    requires
        key.len() <= u32::MAX,
        value.len() <= u32::MAX,
        before.consistent(),
        before.inserted(key, value, after),
    ensures
        after.consistent(),
        after@ == before@.insert(key, value),
        forall|other: Seq<u8>| other != key ==> after.lookup(other) == before.lookup(other),
{
    let record = record_bytes(key, value);
    lemma_log_len_fits(before);
    lemma_appended_record(before.log@, key, value);
    assert forall|other: Seq<u8>| #[trigger]
        before.index@.contains_key(other) implies record_at(
        before.log@ + record,
        before.index@[other] as int,
    ) == record_at(before.log@, before.index@[other] as int) by {
        lemma_append_keeps_record(before.log@, record, before.index@[other] as int);
    }
    assert(after@ =~= before@.insert(key, value));
}

/// An insertion into a loaded store leaves it loaded: opening a store on the
/// longer log and loading it gives the index that the insertion left.
pub proof fn lemma_insert_keeps_loaded(
    before: RustyKV,
    after: RustyKV,
    key: Seq<u8>,
    value: Seq<u8>,
)
    requires
        key.len() <= u32::MAX,
        value.len() <= u32::MAX,
        before.loaded(),
        before.inserted(key, value, after),
    ensures
        after.loaded(),
{
    lemma_scan_appended(before.log@, 0, Map::empty(), key, value);
}

/// A loaded store is consistent.
pub proof fn lemma_loaded_is_consistent(store: RustyKV)
    requires
        store.loaded(),
    ensures
        store.consistent(),
{
    lemma_log_len_fits(store);
    lemma_scan_points_at_records(store.log@, 0, Map::empty());
}

/// A loaded store indexes exactly the keys that have a record in the log,
/// each at the latest of its records.
pub proof fn lemma_index_points_at_latest(store: RustyKV, key: Seq<u8>)
    requires
        store.loaded(),
    ensures
        store.index@.contains_key(key) <==> exists|pos: int| finds(store.log@, 0, key, pos),
        store.index@.contains_key(key) ==> {
            &&& finds(store.log@, 0, key, store.index@[key] as int)
            &&& forall|pos: int| finds(store.log@, 0, key, pos) ==> pos <= store.index@[key]
        },
{
    lemma_log_len_fits(store);
    lemma_scan_keeps_latest(store.log@, 0, Map::empty(), key);
}

/// A consistent store answers every key without error, with what its map
/// holds for the key.
pub proof fn lemma_consistent_lookup(store: RustyKV, key: Seq<u8>)
    requires
        store.consistent(),
    ensures
        store.lookup(key) == Ok::<Option<Seq<u8>>, Error>(
            if store@.contains_key(key) {
                Some(store@[key])
            } else {
                None
            },
        ),
{
}

/// Two stores that were loaded from the same log hold the same index.
pub proof fn lemma_reload_same_index(first: RustyKV, second: RustyKV)
    requires
        first.loaded(),
        second.loaded(),
        first.log@ == second.log@,
    ensures
        first.index@ == second.index@,
{
}

/// Of two insertions under one key the later one wins: the key reads back as
/// the second value, and a scan of the log of a store that was loaded before
/// them points the key at the second record.
pub proof fn lemma_last_write_wins(
    start: RustyKV,
    middle: RustyKV,
    end: RustyKV,
    key: Seq<u8>,
    first: Seq<u8>,
    second: Seq<u8>,
)
    requires
        key.len() <= u32::MAX,
        first.len() <= u32::MAX,
        second.len() <= u32::MAX,
        start.inserted(key, first, middle),
        middle.inserted(key, second, end),
    ensures
        end.lookup(key) == Ok::<Option<Seq<u8>>, Error>(Some(second)),
        start.loaded() ==> intact(end.log@, 0) && scan(end.log@, 0, Map::empty())[key]
            == middle.log@.len() as u64,
{
    lemma_insert_then_get(middle, end, key, second);
    if start.loaded() {
        lemma_insert_keeps_loaded(start, middle, key, first);
        lemma_insert_keeps_loaded(middle, end, key, second);
    }
}

/// A deleted key stays in the store: it reads back as the empty value, not as
/// a key that was never inserted.
pub proof fn lemma_delete_then_get(before: RustyKV, after: RustyKV, key: Seq<u8>)
    requires
        key.len() <= u32::MAX,
        before.inserted(key, Seq::empty(), after),
    ensures
        after.lookup(key) == Ok::<Option<Seq<u8>>, Error>(Some(Seq::empty())),
        after.index@.contains_key(key),
{
    lemma_insert_then_get(before, after, key, Seq::empty());
}

} // verus!
