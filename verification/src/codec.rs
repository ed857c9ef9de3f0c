//! The record codec: one key-value pair to and from its bytes in the log.
//!
//! A record is laid out as
//!
//! ```text
//! checksum (4) | key length (4) | value length (4) | key | value
//! ```
//!
//! with the three integers little-endian and the checksum taken over the key
//! bytes followed by the value bytes.
//!
//! Both directions go in two steps. Framing lays the fields out or picks them
//! apart and knows nothing of how a checksum is computed; `encode` and
//! `decode` compute the checksum and hand it to the framing step.

use crate::checksum::{checksum, crc32};
use crate::endian::{
    lemma_u32_le_bytes_round_trip, lemma_u32_le_round_trip, read_u32_le, u32_from_le, u32_to_le,
    write_u32_le,
};
use crate::error::Error;
use vstd::prelude::*;
use vstd::slice::{slice_subrange, slice_to_vec};

verus! {

/// Bytes that precede the payload of every record.
pub const HEADER_LEN: usize = 12;

/// A key and the value stored under it.
#[derive(Debug, Clone, PartialEq, Eq)]
pub struct KeyValuePair {
    pub key: Vec<u8>,
    pub value: Vec<u8>,
}

/// A record as it stands in the log, before its checksum is verified.
#[derive(Debug)]
pub struct Frame<'a> {
    /// The checksum that the header stores.
    pub checksum: u32,
    /// The length of the key that the header announces.
    pub key_len: u32,
    /// The key followed by the value.
    pub payload: &'a [u8],
    /// The offset just past the record.
    pub next: usize,
}

/// What `decode` found at a position that does not hold a damaged record.
#[derive(Debug, Clone, PartialEq, Eq)]
pub enum Decoded {
    /// A whole record with a matching checksum; `next` is the offset just
    /// past it.
    Record { pair: KeyValuePair, next: usize },
    /// No byte is left at the position: the log ends here.
    EndOfLog,
}

/// How the bytes at a position of a log divide into the fields of a record.
pub enum Framing {
    /// A whole header and the payload that it announces.
    Frame { checksum: u32, key: Seq<u8>, value: Seq<u8>, next: int },
    /// No byte is left at the position.
    EndOfLog,
    /// Some bytes are left, but fewer than a header and the payload that it
    /// announces.
    Truncated,
}

/// The three things that a position in a log can hold.
pub enum Outcome {
    Record { key: Seq<u8>, value: Seq<u8>, next: int },
    EndOfLog,
    Corrupt,
}

impl<'a> View for Frame<'a> {
    type V = Framing;

    open spec fn view(&self) -> Framing {
        Framing::Frame {
            checksum: self.checksum,
            key: self.payload@.subrange(0, self.key_len as int),
            value: self.payload@.subrange(self.key_len as int, self.payload@.len() as int),
            next: self.next as int,
        }
    }
}

impl View for Decoded {
    type V = Outcome;

    open spec fn view(&self) -> Outcome {
        match *self {
            Decoded::Record { pair, next } => Outcome::Record {
                key: pair.key@,
                value: pair.value@,
                next: next as int,
            },
            Decoded::EndOfLog => Outcome::EndOfLog,
        }
    }
}

/// The bytes of a record that stores `checksum` with `key` and `value`.
#[verifier::opaque]
pub open spec fn frame_bytes(checksum: u32, key: Seq<u8>, value: Seq<u8>) -> Seq<u8> {
    u32_to_le(checksum) + u32_to_le(key.len() as u32) + u32_to_le(value.len() as u32) + key + value
}

/// The bytes of the record that holds `key` and `value`: their frame with
/// the checksum of the key followed by the value.
pub open spec fn record_bytes(key: Seq<u8>, value: Seq<u8>) -> Seq<u8> {
    frame_bytes(crc32(key + value), key, value)
}

/// How the bytes of `source` at offset `pos` divide into a record's fields.
#[verifier::opaque]
pub open spec fn frame_at(source: Seq<u8>, pos: int) -> Framing {
    if pos >= source.len() {
        Framing::EndOfLog
    } else if source.len() - pos < HEADER_LEN {
        Framing::Truncated
    } else {
        let checksum = u32_from_le(source.subrange(pos, pos + 4));
        let key_len = u32_from_le(source.subrange(pos + 4, pos + 8));
        let val_len = u32_from_le(source.subrange(pos + 8, pos + 12));
        let start = pos + HEADER_LEN;
        if source.len() - start < key_len + val_len {
            Framing::Truncated
        } else {
            Framing::Frame {
                checksum,
                key: source.subrange(start, start + key_len),
                value: source.subrange(start + key_len, start + key_len + val_len),
                next: start + key_len + val_len,
            }
        }
    }
}

/// What the log `source` holds at offset `pos`.
///
/// Nothing at or past the end is the end of the log. A header that does not
/// fit, a payload shorter than the header announces, or a stored checksum
/// that differs from the one taken over the payload is corruption.
pub open spec fn record_at(source: Seq<u8>, pos: int) -> Outcome {
    match frame_at(source, pos) {
        Framing::Frame { checksum, key, value, next } => if crc32(key + value) == checksum {
            Outcome::Record { key, value, next }
        } else {
            Outcome::Corrupt
        },
        Framing::EndOfLog => Outcome::EndOfLog,
        Framing::Truncated => Outcome::Corrupt,
    }
}

/// `bytes` with bit number `bit` of the byte at offset `at` inverted.
pub open spec fn flip_bit(bytes: Seq<u8>, at: int, bit: u8) -> Seq<u8> {
    bytes.update(at, bytes[at] ^ (1u8 << bit))
}

/// Appends `bytes` to `out`.
fn append(out: &mut Vec<u8>, bytes: &[u8])
    ensures
        final(out)@ == old(out)@ + bytes@,
{
    let mut i: usize = 0;
    while i < bytes.len()
        invariant
            i <= bytes@.len(),
            out@ == old(out)@ + bytes@.subrange(0, i as int),
        decreases bytes@.len() - i,
    {
        out.push(bytes[i]);
        i += 1;
        assert(out@ =~= old(out)@ + bytes@.subrange(0, i as int));
    }
    assert(bytes@.subrange(0, i as int) =~= bytes@);
}

/// Lays out a record that stores `checksum` with `key` and `value`.
pub fn write_frame(checksum: u32, key: &[u8], value: &[u8]) -> (bytes: Vec<u8>)
    requires
        key@.len() <= u32::MAX,
        value@.len() <= u32::MAX,
    ensures
        bytes@ == frame_bytes(checksum, key@, value@),
{
    let mut bytes: Vec<u8> = Vec::new();
    append(&mut bytes, write_u32_le(checksum).as_slice());
    append(&mut bytes, write_u32_le(key.len() as u32).as_slice());
    append(&mut bytes, write_u32_le(value.len() as u32).as_slice());
    append(&mut bytes, key);
    append(&mut bytes, value);
    proof {
        reveal(frame_bytes);
    }
    bytes
}

/// Serializes one record.
pub fn encode(key: &[u8], value: &[u8]) -> (bytes: Vec<u8>)
    requires
        key@.len() <= u32::MAX,
        value@.len() <= u32::MAX,
    ensures
        bytes@ == record_bytes(key@, value@),
        bytes@.len() == HEADER_LEN + key@.len() + value@.len(),
        record_at(bytes@, 0) == (Outcome::Record {
            key: key@,
            value: value@,
            next: bytes@.len() as int,
        }),
{
    let mut payload: Vec<u8> = Vec::new();
    append(&mut payload, key);
    append(&mut payload, value);
    proof {
        lemma_record_len(key@, value@);
        lemma_round_trip(key@, value@);
    }
    write_frame(checksum(payload.as_slice()), key, value)
}

/// Picks apart the record that starts at offset `pos` of `source`, without
/// verifying its checksum. `None` is the end of the log; a record that is
/// cut short is an error.
pub fn read_frame<'a>(source: &'a [u8], pos: usize) -> (r: Result<Option<Frame<'a>>, Error>)
    ensures
        match r {
            Ok(Some(frame)) => frame@ == frame_at(source@, pos as int) && frame.key_len
                <= frame.payload@.len(),
            Ok(None) => frame_at(source@, pos as int) is EndOfLog,
            Err(_) => frame_at(source@, pos as int) is Truncated,
        },
{
    proof {
        reveal(frame_at);
    }
    let len = source.len();
    if pos >= len {
        return Ok(None);
    }
    let remaining = len - pos;
    if remaining < HEADER_LEN {
        return Err(Error::Corruption);
    }
    let checksum = read_u32_le(slice_subrange(source, pos, pos + 4));
    let key_len = read_u32_le(slice_subrange(source, pos + 4, pos + 8));
    let val_len = read_u32_le(slice_subrange(source, pos + 8, pos + 12));

    let data_len: u64 = key_len as u64 + val_len as u64;
    if ((remaining - HEADER_LEN) as u64) < data_len {
        return Err(Error::Corruption);
    }
    let start = pos + HEADER_LEN;
    let next = start + data_len as usize;
    let payload = slice_subrange(source, start, next);
    proof {
        let mid = start + key_len;
        assert(payload@.subrange(0, key_len as int) =~= source@.subrange(start as int, mid));
        assert(payload@.subrange(key_len as int, payload@.len() as int) =~= source@.subrange(
            mid,
            next as int,
        ));
    }
    Ok(Some(Frame { checksum, key_len, payload, next }))
}

/// Accepts a frame whose stored checksum is the one `computed` over its
/// payload, and splits the payload into key and value. Any other frame is
/// corrupt, and so is one whose key does not fit its payload.
pub fn check_frame(frame: &Frame, computed: u32) -> (r: Result<KeyValuePair, Error>)
    ensures
        match r {
            Ok(pair) => {
                &&& computed == frame.checksum
                &&& frame.key_len <= frame.payload@.len()
                &&& pair.key@ == frame.payload@.subrange(0, frame.key_len as int)
                &&& pair.value@ == frame.payload@.subrange(
                    frame.key_len as int,
                    frame.payload@.len() as int,
                )
            },
            Err(_) => computed != frame.checksum || frame.key_len > frame.payload@.len(),
        },
{
    if computed != frame.checksum {
        return Err(Error::Corruption);
    }
    let len = frame.payload.len();
    if frame.key_len as u64 > len as u64 {
        return Err(Error::Corruption);
    }
    let mid = frame.key_len as usize;
    let key = slice_to_vec(slice_subrange(frame.payload, 0, mid));
    let value = slice_to_vec(slice_subrange(frame.payload, mid, len));
    Ok(KeyValuePair { key, value })
}

/// Deserializes the record that starts at offset `pos` of `source`.
pub fn decode(source: &[u8], pos: usize) -> (r: Result<Decoded, Error>)
    ensures
        match r {
            Ok(found) => found@ == record_at(source@, pos as int),
            Err(_) => record_at(source@, pos as int) is Corrupt,
        },
{
    match read_frame(source, pos) {
        Err(e) => Err(e),
        Ok(None) => Ok(Decoded::EndOfLog),
        Ok(Some(frame)) => {
            let computed = checksum(frame.payload);
            assert(frame@->key + frame@->value =~= frame.payload@);
            match check_frame(&frame, computed) {
                Ok(pair) => Ok(Decoded::Record { pair, next: frame.next }),
                Err(e) => Err(e),
            }
        },
    }
}

/// A frame is its header followed by the key and the value.
pub proof fn lemma_frame_len(checksum: u32, key: Seq<u8>, value: Seq<u8>)
    ensures
        frame_bytes(checksum, key, value).len() == HEADER_LEN + key.len() + value.len(),
{
    reveal(frame_bytes);
}

/// A record is its header followed by the key and the value.
pub proof fn lemma_record_len(key: Seq<u8>, value: Seq<u8>)
    ensures
        record_bytes(key, value).len() == HEADER_LEN + key.len() + value.len(),
{
    lemma_frame_len(crc32(key + value), key, value);
}

/// The log ends where no byte is left, and a frame ends after its header
/// and within the log.
pub proof fn lemma_frame_at_bounds(source: Seq<u8>, pos: int)
    ensures
        frame_at(source, pos) is EndOfLog <==> pos >= source.len(),
        frame_at(source, pos) is Frame ==> pos + HEADER_LEN <= frame_at(source, pos)->next
            <= source.len(),
{
    reveal(frame_at);
}

/// The log ends where no byte is left, and a record ends after its header
/// and within the log.
pub proof fn lemma_record_at_bounds(source: Seq<u8>, pos: int)
    ensures
        record_at(source, pos) is EndOfLog <==> pos >= source.len(),
        record_at(source, pos) is Record ==> pos + HEADER_LEN <= record_at(source, pos)->next
            <= source.len(),
{
    lemma_frame_at_bounds(source, pos);
}

/// Where each field of a frame lies within its bytes.
proof fn lemma_frame_fields(checksum: u32, key: Seq<u8>, value: Seq<u8>)
    ensures
        ({
            let frame = frame_bytes(checksum, key, value);
            let mid = HEADER_LEN + key.len();
            let end = mid + value.len();
            &&& frame.len() == end
            &&& frame.subrange(0, 4) == u32_to_le(checksum)
            &&& frame.subrange(4, 8) == u32_to_le(key.len() as u32)
            &&& frame.subrange(8, 12) == u32_to_le(value.len() as u32)
            &&& frame.subrange(HEADER_LEN as int, mid) == key
            &&& frame.subrange(mid, end) == value
            &&& frame.subrange(HEADER_LEN as int, end) == key + value
        }),
{
    reveal(frame_bytes);
    let frame = frame_bytes(checksum, key, value);
    let mid = HEADER_LEN + key.len();
    let end = mid + value.len();
    let sum = u32_to_le(checksum);
    let key_len = u32_to_le(key.len() as u32);
    let val_len = u32_to_le(value.len() as u32);
    assert(sum.len() == 4 && key_len.len() == 4 && val_len.len() == 4);
    assert(frame.subrange(0, 4) =~= sum);
    assert(frame.subrange(4, 8) =~= key_len);
    assert(frame.subrange(8, 12) =~= val_len);
    assert(frame.subrange(HEADER_LEN as int, mid) =~= key);
    assert(frame.subrange(mid, end) =~= value);
    assert(frame.subrange(HEADER_LEN as int, end) =~= key + value);
}

/// A range of a range is a range of the whole.
proof fn lemma_subrange_of_subrange(s: Seq<u8>, from: int, to: int, a: int, b: int)
    requires
        0 <= from <= to <= s.len(),
        0 <= a <= b <= to - from,
    ensures
        s.subrange(from, to).subrange(a, b) == s.subrange(from + a, from + b),
{
    assert(s.subrange(from, to).subrange(a, b) =~= s.subrange(from + a, from + b));
}

/// Wherever the bytes of a frame stand in a log, they divide into the
/// fields that the frame was laid out from, whatever comes before and after
/// them.
pub proof fn lemma_frame_framed(
    source: Seq<u8>,
    pos: int,
    checksum: u32,
    key: Seq<u8>,
    value: Seq<u8>,
)
    requires
        0 <= pos,
        key.len() <= u32::MAX,
        value.len() <= u32::MAX,
        pos + HEADER_LEN + key.len() + value.len() <= source.len(),
        source.subrange(pos, pos + HEADER_LEN + key.len() + value.len()) == frame_bytes(
            checksum,
            key,
            value,
        ),
    ensures
        frame_at(source, pos) == (Framing::Frame {
            checksum,
            key,
            value,
            next: pos + HEADER_LEN + key.len() + value.len(),
        }),
{
    reveal(frame_at);
    let start = pos + HEADER_LEN;
    let mid = start + key.len();
    let end = mid + value.len();
    lemma_frame_fields(checksum, key, value);
    lemma_subrange_of_subrange(source, pos, end, 0, 4);
    lemma_subrange_of_subrange(source, pos, end, 4, 8);
    lemma_subrange_of_subrange(source, pos, end, 8, 12);
    lemma_subrange_of_subrange(source, pos, end, 12, mid - pos);
    lemma_subrange_of_subrange(source, pos, end, mid - pos, end - pos);
    lemma_u32_le_round_trip(checksum);
    lemma_u32_le_round_trip(key.len() as u32);
    lemma_u32_le_round_trip(value.len() as u32);
}

/// Wherever the bytes of a record stand in a log, that record is what the
/// log holds at their offset, whatever comes before and after them.
pub proof fn lemma_record_framed(source: Seq<u8>, pos: int, key: Seq<u8>, value: Seq<u8>)
    requires
        0 <= pos,
        key.len() <= u32::MAX,
        value.len() <= u32::MAX,
        pos + HEADER_LEN + key.len() + value.len() <= source.len(),
        source.subrange(pos, pos + HEADER_LEN + key.len() + value.len()) == record_bytes(
            key,
            value,
        ),
    ensures
        record_at(source, pos) == (Outcome::Record {
            key,
            value,
            next: pos + HEADER_LEN + key.len() + value.len(),
        }),
{
    lemma_frame_framed(source, pos, crc32(key + value), key, value);
}

/// Decoding the encoding of a pair gives the pair back, and ends where the
/// encoding ends.
pub proof fn lemma_round_trip(key: Seq<u8>, value: Seq<u8>)
    requires
        key.len() <= u32::MAX,
        value.len() <= u32::MAX,
    ensures
        record_at(record_bytes(key, value), 0) == (Outcome::Record {
            key,
            value,
            next: record_bytes(key, value).len() as int,
        }),
{
    let record = record_bytes(key, value);
    lemma_record_len(key, value);
    assert(record.subrange(0, record.len() as int) =~= record);
    lemma_record_framed(record, 0, key, value);
}

/// Where a log divides into a frame, the bytes from the frame's offset to
/// the offset just past it are the frame's fields laid out again.
pub proof fn lemma_frame_at_is_layout(source: Seq<u8>, pos: int)
    requires
        0 <= pos,
        frame_at(source, pos) is Frame,
    ensures
        ({
            let checksum = frame_at(source, pos)->checksum;
            let key = frame_at(source, pos)->key;
            let value = frame_at(source, pos)->value;
            let next = frame_at(source, pos)->next;
            &&& key.len() <= u32::MAX
            &&& value.len() <= u32::MAX
            &&& next == pos + HEADER_LEN + key.len() + value.len()
            &&& next <= source.len()
            &&& source.subrange(pos, next) == frame_bytes(checksum, key, value)
        }),
{
    reveal(frame_at);
    reveal(frame_bytes);
    let checksum = frame_at(source, pos)->checksum;
    let key = frame_at(source, pos)->key;
    let value = frame_at(source, pos)->value;
    let next = frame_at(source, pos)->next;
    lemma_u32_le_bytes_round_trip(source.subrange(pos, pos + 4));
    lemma_u32_le_bytes_round_trip(source.subrange(pos + 4, pos + 8));
    lemma_u32_le_bytes_round_trip(source.subrange(pos + 8, pos + 12));
    lemma_subrange_of_subrange(source, pos, pos + 4, 0, 4);
    lemma_subrange_of_subrange(source, pos + 4, pos + 8, 0, 4);
    lemma_subrange_of_subrange(source, pos + 8, pos + 12, 0, 4);
    assert(source.subrange(pos, next) =~= frame_bytes(checksum, key, value));
}

/// Where a log holds a record, the bytes from its offset to the offset just
/// past it are exactly the encoding of its key and value.
pub proof fn lemma_record_at_is_encoding(source: Seq<u8>, pos: int)
    requires
        0 <= pos,
        record_at(source, pos) is Record,
    ensures
        ({
            let key = record_at(source, pos)->key;
            let value = record_at(source, pos)->value;
            let next = record_at(source, pos)->next;
            &&& key.len() <= u32::MAX
            &&& value.len() <= u32::MAX
            &&& next == pos + HEADER_LEN + key.len() + value.len()
            &&& next <= source.len()
            &&& source.subrange(pos, next) == record_bytes(key, value)
        }),
{
    lemma_frame_at_is_layout(source, pos);
}

/// A record is decided by its own bytes: a log that agrees with another on
/// the bytes of a record holds the same record there.
pub proof fn lemma_record_at_local(a: Seq<u8>, b: Seq<u8>, pos: int)
    requires
        0 <= pos,
        record_at(a, pos) is Record,
        record_at(a, pos)->next <= b.len(),
        b.subrange(pos, record_at(a, pos)->next) == a.subrange(pos, record_at(a, pos)->next),
    ensures
        record_at(b, pos) == record_at(a, pos),
{
    lemma_record_at_is_encoding(a, pos);
    lemma_record_framed(b, pos, record_at(a, pos)->key, record_at(a, pos)->value);
}

/// A record appended to a log is what the longer log holds where the
/// shorter one ended.
pub proof fn lemma_appended_record(log: Seq<u8>, key: Seq<u8>, value: Seq<u8>)
    requires
        key.len() <= u32::MAX,
        value.len() <= u32::MAX,
    ensures
        record_at(log + record_bytes(key, value), log.len() as int) == (Outcome::Record {
            key,
            value,
            next: log.len() + HEADER_LEN + key.len() + value.len(),
        }),
{
    let longer = log + record_bytes(key, value);
    lemma_record_len(key, value);
    assert(longer.subrange(log.len() as int, longer.len() as int) =~= record_bytes(key, value));
    lemma_record_framed(longer, log.len() as int, key, value);
}

/// Appending to a log changes none of the records that it holds.
pub proof fn lemma_append_keeps_record(log: Seq<u8>, more: Seq<u8>, pos: int)
    requires
        0 <= pos,
        record_at(log, pos) is Record,
    ensures
        record_at(log + more, pos) == record_at(log, pos),
{
    let next = record_at(log, pos)->next;
    lemma_record_at_bounds(log, pos);
    assert((log + more).subrange(pos, next) =~= log.subrange(pos, next));
    lemma_record_at_local(log, log + more, pos);
}

/// Inverting a bit changes the byte.
proof fn lemma_flip_changes(byte: u8, bit: u8)
    requires
        bit < 8,
    ensures
        byte ^ (1u8 << bit) != byte,
{
    assert(bit < 8 ==> byte ^ (1u8 << bit) != byte) by (bit_vector);
}

/// Inverting any bit of the stored checksum of a record makes the record
/// corrupt.
pub proof fn lemma_checksum_bit_flip_detected(key: Seq<u8>, value: Seq<u8>, at: int, bit: u8)
    requires
        key.len() <= u32::MAX,
        value.len() <= u32::MAX,
        0 <= at < 4,
        bit < 8,
    ensures
        record_at(flip_bit(record_bytes(key, value), at, bit), 0) is Corrupt,
{
    reveal(frame_at);
    let record = record_bytes(key, value);
    let damaged = flip_bit(record, at, bit);
    let end = HEADER_LEN + key.len() + value.len();
    lemma_frame_fields(crc32(key + value), key, value);
    lemma_flip_changes(record[at], bit);
    assert(damaged.subrange(4, 8) =~= record.subrange(4, 8));
    assert(damaged.subrange(8, 12) =~= record.subrange(8, 12));
    assert(damaged.subrange(HEADER_LEN as int, HEADER_LEN + key.len()) =~= key);
    assert(damaged.subrange(HEADER_LEN + key.len(), end) =~= value);
    lemma_u32_le_round_trip(key.len() as u32);
    lemma_u32_le_round_trip(value.len() as u32);
    let stored = u32_from_le(damaged.subrange(0, 4));
    if stored == crc32(key + value) {
        lemma_u32_le_bytes_round_trip(damaged.subrange(0, 4));
        lemma_subrange_of_subrange(damaged, 0, 4, 0, 4);
        assert(damaged.subrange(0, 4)[at] == record.subrange(0, 4)[at]);
    }
}

/// Inverting any bit of the key or the value of a record changes the payload,
/// and the record is then corrupt exactly when the checksum of the changed
/// payload differs from the one stored. The pair that was encoded is never
/// decoded from the damaged bytes.
pub proof fn lemma_payload_bit_flip(key: Seq<u8>, value: Seq<u8>, at: int, bit: u8)
    requires
        key.len() <= u32::MAX,
        value.len() <= u32::MAX,
        HEADER_LEN <= at < HEADER_LEN + key.len() + value.len(),
        bit < 8,
    ensures
        ({
            let damaged = flip_bit(record_bytes(key, value), at, bit);
            let payload = damaged.subrange(HEADER_LEN as int, damaged.len() as int);
            &&& payload != key + value
            &&& record_at(damaged, 0) is Corrupt <==> crc32(payload) != crc32(key + value)
            &&& record_at(damaged, 0) is Record ==> record_at(damaged, 0)->key + record_at(
                damaged,
                0,
            )->value == payload
        }),
{
    reveal(frame_at);
    let record = record_bytes(key, value);
    let damaged = flip_bit(record, at, bit);
    let end = HEADER_LEN + key.len() + value.len();
    let payload = damaged.subrange(HEADER_LEN as int, end);
    lemma_frame_fields(crc32(key + value), key, value);
    lemma_flip_changes(record[at], bit);
    assert(damaged.subrange(0, 4) =~= record.subrange(0, 4));
    assert(damaged.subrange(4, 8) =~= record.subrange(4, 8));
    assert(damaged.subrange(8, 12) =~= record.subrange(8, 12));
    lemma_u32_le_round_trip(crc32(key + value));
    lemma_u32_le_round_trip(key.len() as u32);
    lemma_u32_le_round_trip(value.len() as u32);
    assert(payload[at - HEADER_LEN] != (key + value)[at - HEADER_LEN]) by {
        assert(record.subrange(HEADER_LEN as int, end)[at - HEADER_LEN] == record[at]);
    }
    assert(damaged.subrange(HEADER_LEN as int, HEADER_LEN + key.len()) + damaged.subrange(
        HEADER_LEN + key.len(),
        end,
    ) =~= payload);
}

} // verus!
