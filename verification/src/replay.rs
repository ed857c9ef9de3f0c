//! Replaying a log: what a scan from its first byte finds, and how that
//! changes when a record is appended.

use crate::codec::{
    lemma_record_at_bounds, lemma_record_at_is_encoding, lemma_record_at_local,
    lemma_record_framed, lemma_record_len, record_at, record_bytes, Outcome, HEADER_LEN,
};
use vstd::prelude::*;

verus! {

/// Whether `log`, read from offset `pos`, is whole records up to its end.
pub open spec fn intact(log: Seq<u8>, pos: int) -> bool
    decreases log.len() - pos,
    via intact_terminates
{
    match record_at(log, pos) {
        Outcome::Record { next, .. } => intact(log, next),
        Outcome::EndOfLog => true,
        Outcome::Corrupt => false,
    }
}

/// The index that a scan of `log` from offset `pos` leaves, when it starts
/// with `index`: each record sets the entry of its key to its own offset, and
/// the scan stops at the first offset that holds no record.
pub open spec fn scan(log: Seq<u8>, pos: int, index: Map<Seq<u8>, u64>) -> Map<Seq<u8>, u64>
    decreases log.len() - pos,
    via scan_terminates
{
    match record_at(log, pos) {
        Outcome::Record { key, next, .. } => scan(log, next, index.insert(key, pos as u64)),
        _ => index,
    }
}

/// Whether a scan of `log` from offset `from` comes to a record at offset
/// `pos`.
pub open spec fn reaches(log: Seq<u8>, from: int, pos: int) -> bool
    decreases log.len() - from,
    via reaches_terminates
{
    match record_at(log, from) {
        Outcome::Record { next, .. } => from == pos || reaches(log, next, pos),
        _ => false,
    }
}

/// Whether a scan of `log` from offset `from` comes to a record of `key` at
/// offset `pos`.
pub open spec fn finds(log: Seq<u8>, from: int, key: Seq<u8>, pos: int) -> bool {
    reaches(log, from, pos) && record_at(log, pos)->key == key
}

#[via_fn]
proof fn reaches_terminates(log: Seq<u8>, from: int, pos: int) {
    lemma_record_at_bounds(log, from);
}

#[via_fn]
proof fn intact_terminates(log: Seq<u8>, pos: int) {
    lemma_record_at_bounds(log, pos);
}

#[via_fn]
proof fn scan_terminates(log: Seq<u8>, pos: int, index: Map<Seq<u8>, u64>) {
    lemma_record_at_bounds(log, pos);
}

/// Whether each entry of `index` is the offset of a record of its key in
/// `log`.
pub open spec fn points_at_records(log: Seq<u8>, index: Map<Seq<u8>, u64>) -> bool {
    forall|key: Seq<u8>| #[trigger]
        index.contains_key(key) ==> record_at(log, index[key] as int) is Record && record_at(
            log,
            index[key] as int,
        )->key == key
}

/// Appending a record to an intact log leaves it intact, and a scan of the
/// longer log finds what a scan of the shorter one does, with the key of the
/// new record at the offset where the shorter log ended.
pub proof fn lemma_scan_appended(
    log: Seq<u8>,
    pos: int,
    index: Map<Seq<u8>, u64>,
    key: Seq<u8>,
    value: Seq<u8>,
)
    requires
        0 <= pos <= log.len(),
        intact(log, pos),
        key.len() <= u32::MAX,
        value.len() <= u32::MAX,
    ensures
        intact(log + record_bytes(key, value), pos),
        scan(log + record_bytes(key, value), pos, index) == scan(log, pos, index).insert(
            key,
            log.len() as u64,
        ),
    decreases log.len() - pos,
{
    let record = record_bytes(key, value);
    let longer = log + record;
    lemma_record_len(key, value);
    lemma_record_at_bounds(log, pos);
    match record_at(log, pos) {
        Outcome::Record { key: found, next, .. } => {
            lemma_record_at_is_encoding(log, pos);
            assert(longer.subrange(pos, next) =~= log.subrange(pos, next));
            lemma_record_at_local(log, longer, pos);
            lemma_scan_appended(log, next, index.insert(found, pos as u64), key, value);
        },
        Outcome::EndOfLog => {
            let end = pos + HEADER_LEN + key.len() + value.len();
            assert(longer.subrange(pos, end) =~= record);
            lemma_record_framed(longer, pos, key, value);
            lemma_record_at_bounds(longer, end);
            reveal_with_fuel(intact, 2);
            reveal_with_fuel(scan, 2);
        },
        Outcome::Corrupt => {},
    }
}

/// A scan adds only entries that are the offsets of records of their keys.
pub proof fn lemma_scan_points_at_records(log: Seq<u8>, pos: int, index: Map<Seq<u8>, u64>)
    requires
        0 <= pos,
        log.len() <= u64::MAX,
        points_at_records(log, index),
    ensures
        points_at_records(log, scan(log, pos, index)),
    decreases log.len() - pos,
{
    lemma_record_at_bounds(log, pos);
    match record_at(log, pos) {
        Outcome::Record { key, next, .. } => {
            lemma_scan_points_at_records(log, next, index.insert(key, pos as u64));
        },
        _ => {},
    }
}

/// A scan comes only to offsets at or after its start that hold a record.
pub proof fn lemma_reaches_bounds(log: Seq<u8>, from: int, pos: int)
    requires
        reaches(log, from, pos),
    ensures
        from <= pos < log.len(),
        record_at(log, pos) is Record,
    decreases log.len() - from,
{
    lemma_record_at_bounds(log, from);
    match record_at(log, from) {
        Outcome::Record { next, .. } => {
            if from != pos {
                lemma_reaches_bounds(log, next, pos);
            }
        },
        _ => {},
    }
}

/// A scan leaves each key at its latest record: where the scan comes to
/// records of `key`, the entry of `key` is the greatest of their offsets;
/// where it comes to none, the entry is as it was before the scan.
pub proof fn lemma_scan_keeps_latest(
    log: Seq<u8>,
    from: int,
    index: Map<Seq<u8>, u64>,
    key: Seq<u8>,
)
    requires
        0 <= from,
        log.len() <= u64::MAX,
    ensures
        (exists|pos: int| finds(log, from, key, pos)) ==> {
            &&& scan(log, from, index).contains_key(key)
            &&& finds(log, from, key, scan(log, from, index)[key] as int)
            &&& forall|pos: int| finds(log, from, key, pos) ==> pos <= scan(log, from, index)[key]
        },
        !(exists|pos: int| finds(log, from, key, pos)) ==> {
            &&& scan(log, from, index).contains_key(key) == index.contains_key(key)
            &&& index.contains_key(key) ==> scan(log, from, index)[key] == index[key]
        },
    decreases log.len() - from,
{
    lemma_record_at_bounds(log, from);
    match record_at(log, from) {
        Outcome::Record { key: here, next, .. } => {
            let seeded = index.insert(here, from as u64);
            let found = scan(log, next, seeded);
            lemma_scan_keeps_latest(log, next, seeded, key);
            assert forall|pos: int| finds(log, next, key, pos) implies finds(log, from, key, pos)
                && next <= pos by {
                lemma_reaches_bounds(log, next, pos);
            }
            assert forall|pos: int| finds(log, from, key, pos) implies (pos == from && here == key)
                || finds(log, next, key, pos) by {}
            if exists|pos: int| finds(log, next, key, pos) {
                let later = choose|pos: int| finds(log, next, key, pos);
                assert(finds(log, from, key, later));
                assert(finds(log, next, key, found[key] as int));
                assert forall|pos: int| finds(log, from, key, pos) implies pos <= found[key] by {
                    if pos != from {
                        assert(finds(log, next, key, pos));
                    }
                }
            } else if here == key {
                assert(finds(log, from, key, from));
                assert(found[key] == from);
                assert forall|pos: int| finds(log, from, key, pos) implies pos <= found[key] by {
                    if pos != from {
                        assert(finds(log, next, key, pos));
                    }
                }
            } else {
                assert forall|pos: int| !finds(log, from, key, pos) by {
                    if finds(log, from, key, pos) {
                        assert(finds(log, next, key, pos));
                    }
                }
            }
        },
        _ => {},
    }
}

/// A scan that starts with some index leaves that index overridden by what
/// the same scan finds when it starts with none.
pub proof fn lemma_scan_overrides(log: Seq<u8>, pos: int, index: Map<Seq<u8>, u64>)
    requires
        0 <= pos,
    ensures
        scan(log, pos, index) == index.union_prefer_right(scan(log, pos, Map::empty())),
    decreases log.len() - pos,
{
    let empty = Map::<Seq<u8>, u64>::empty();
    lemma_record_at_bounds(log, pos);
    match record_at(log, pos) {
        Outcome::Record { key, next, .. } => {
            let first = empty.insert(key, pos as u64);
            lemma_scan_overrides(log, next, index.insert(key, pos as u64));
            lemma_scan_overrides(log, next, first);
            let rest = scan(log, next, empty);
            assert(index.insert(key, pos as u64).union_prefer_right(rest)
                =~= index.union_prefer_right(first.union_prefer_right(rest)));
        },
        _ => {
            assert(index =~= index.union_prefer_right(empty));
        },
    }
}

/// Scanning a log again, starting with the index that a scan of it left,
/// changes nothing.
pub proof fn lemma_scan_idempotent(log: Seq<u8>, index: Map<Seq<u8>, u64>)
    ensures
        scan(log, 0, scan(log, 0, index)) == scan(log, 0, index),
{
    let found = scan(log, 0, Map::empty());
    lemma_scan_overrides(log, 0, index);
    lemma_scan_overrides(log, 0, scan(log, 0, index));
    assert(index.union_prefer_right(found).union_prefer_right(found) =~= index.union_prefer_right(
        found,
    ));
}

} // verus!
