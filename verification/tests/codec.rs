use rustykv::codec::{
    check_frame, decode, encode, read_frame, write_frame, Decoded, Frame, KeyValuePair, HEADER_LEN,
};
use rustykv::error::Error;

fn record(key: &[u8], value: &[u8], next: usize) -> Result<Decoded, Error> {
    Ok(Decoded::Record {
        pair: KeyValuePair { key: key.to_vec(), value: value.to_vec() },
        next,
    })
}

#[test]
fn encode_lays_out_checksum_lengths_key_value() {
    // CRC-32 of "a1" is 0x6ce14823.
    assert_eq!(
        encode(b"a", b"1"),
        vec![0x23, 0x48, 0xe1, 0x6c, 1, 0, 0, 0, 1, 0, 0, 0, b'a', b'1']
    );
    // CRC-32 of "a99" is 0xe7d57db7.
    assert_eq!(
        encode(b"a", b"99"),
        vec![0xb7, 0x7d, 0xd5, 0xe7, 1, 0, 0, 0, 2, 0, 0, 0, b'a', b'9', b'9']
    );
}

#[test]
fn encode_checksum_is_the_standard_check_value() {
    let bytes = encode(b"123456789", b"");
    assert_eq!(&bytes[..4], &[0x26, 0x39, 0xf4, 0xcb]);
    assert_eq!(&bytes[4..12], &[9, 0, 0, 0, 0, 0, 0, 0]);
    assert_eq!(&bytes[12..], b"123456789");
}

#[test]
fn encode_covers_key_and_value_with_one_checksum() {
    // The checksum is taken over key followed by value, so moving the
    // boundary between them leaves it as it is.
    let left = encode(b"ab", b"c");
    let right = encode(b"a", b"bc");
    assert_eq!(&left[..4], &right[..4]);
    assert_ne!(left, right);
}

#[test]
fn encode_writes_lengths_little_endian() {
    let key: Vec<u8> = (0..258).map(|i| (i % 256) as u8).collect();
    let bytes = encode(&key, b"v");
    assert_eq!(&bytes[4..8], &[2, 1, 0, 0]);
    assert_eq!(&bytes[8..12], &[1, 0, 0, 0]);
    assert_eq!(bytes.len(), HEADER_LEN + 258 + 1);
}

#[test]
fn encode_of_empty_pair_is_a_bare_header() {
    assert_eq!(encode(b"", b""), vec![0u8; 12]);
    assert_eq!(decode(&[0u8; 12], 0), record(b"", b"", 12));
}

#[test]
fn decode_inverts_encode() {
    let bytes = encode(b"key", b"value");
    assert_eq!(decode(&bytes, 0), record(b"key", b"value", bytes.len()));
}

#[test]
fn decode_reads_lengths_little_endian() {
    let key: Vec<u8> = (0..300).map(|i| (i % 251) as u8).collect();
    let value: Vec<u8> = (0..70_000).map(|i| (i % 253) as u8).collect();
    let bytes = encode(&key, &value);
    assert_eq!(decode(&bytes, 0), record(&key, &value, 12 + 300 + 70_000));
}

#[test]
fn decode_reads_a_handwritten_record() {
    let bytes = [0x5a, 0x4a, 0xc5, 0xde, 1, 0, 0, 0, 1, 0, 0, 0, b'b', b'2'];
    assert_eq!(decode(&bytes, 0), record(b"b", b"2", 14));
}

#[test]
fn decode_at_an_offset_ignores_what_surrounds_the_record() {
    let mut log = encode(b"first", b"1");
    let offset = log.len();
    log.extend_from_slice(&encode(b"second", b"22"));
    let end = log.len();
    log.extend_from_slice(&[0xff, 0xff, 0xff]);
    assert_eq!(decode(&log, offset), record(b"second", b"22", end));
}

#[test]
fn decode_of_nothing_is_end_of_log() {
    assert_eq!(decode(&[], 0), Ok(Decoded::EndOfLog));
    let bytes = encode(b"k", b"v");
    assert_eq!(decode(&bytes, bytes.len()), Ok(Decoded::EndOfLog));
    assert_eq!(decode(&bytes, bytes.len() + 5), Ok(Decoded::EndOfLog));
    assert_eq!(decode(&bytes, usize::MAX), Ok(Decoded::EndOfLog));
}

#[test]
fn decode_of_a_partial_header_is_corruption() {
    let bytes = encode(b"k", b"v");
    for len in 1..HEADER_LEN {
        assert_eq!(decode(&bytes[..len], 0), Err(Error::Corruption));
    }
}

#[test]
fn decode_of_a_short_payload_is_corruption() {
    let bytes = encode(b"key", b"value");
    for len in HEADER_LEN..bytes.len() {
        assert_eq!(decode(&bytes[..len], 0), Err(Error::Corruption));
    }
}

#[test]
fn decode_of_huge_announced_lengths_is_corruption() {
    let mut bytes = vec![0u8; 4];
    bytes.extend_from_slice(&[0xff; 8]);
    bytes.extend_from_slice(b"some payload");
    assert_eq!(decode(&bytes, 0), Err(Error::Corruption));
}

#[test]
fn decode_detects_every_bit_flip_in_the_checksum() {
    let bytes = encode(b"key", b"value");
    for at in 0..4 {
        for bit in 0..8 {
            let mut damaged = bytes.clone();
            damaged[at] ^= 1 << bit;
            assert_eq!(decode(&damaged, 0), Err(Error::Corruption));
        }
    }
}

#[test]
fn decode_detects_every_bit_flip_in_the_payload() {
    let bytes = encode(b"key", b"value");
    for at in HEADER_LEN..bytes.len() {
        for bit in 0..8 {
            let mut damaged = bytes.clone();
            damaged[at] ^= 1 << bit;
            assert_eq!(decode(&damaged, 0), Err(Error::Corruption));
        }
    }
}

#[test]
fn decode_rejects_a_wrong_checksum() {
    let mut bytes = encode(b"a", b"1");
    bytes[13] = b'2';
    assert_eq!(decode(&bytes, 0), Err(Error::Corruption));
}

#[test]
fn write_frame_stores_the_checksum_it_is_given() {
    assert_eq!(
        write_frame(0x0102_0304, b"k", b"vv"),
        vec![4, 3, 2, 1, 1, 0, 0, 0, 2, 0, 0, 0, b'k', b'v', b'v']
    );
    assert_eq!(write_frame(0, b"", b""), vec![0u8; 12]);
    assert_eq!(write_frame(u32::MAX, b"", b"x"), vec![255, 255, 255, 255, 0, 0, 0, 0, 1, 0, 0, 0, b'x']);
}

#[test]
fn read_frame_does_not_verify_the_checksum() {
    let bytes = write_frame(0x0102_0304, b"k", b"vv");
    let frame = read_frame(&bytes, 0).unwrap().unwrap();
    assert_eq!(frame.checksum, 0x0102_0304);
    assert_eq!(frame.key_len, 1);
    assert_eq!(frame.payload, b"kvv");
    assert_eq!(frame.next, 15);
}

#[test]
fn read_frame_at_an_offset() {
    let mut bytes = vec![9u8; 5];
    bytes.extend_from_slice(&write_frame(7, b"key", b""));
    bytes.extend_from_slice(&[1, 2, 3]);
    let frame = read_frame(&bytes, 5).unwrap().unwrap();
    assert_eq!(frame.checksum, 7);
    assert_eq!(frame.key_len, 3);
    assert_eq!(frame.payload, b"key");
    assert_eq!(frame.next, 5 + 12 + 3);
}

#[test]
fn read_frame_tells_the_end_from_a_cut() {
    let bytes = write_frame(7, b"key", b"value");
    assert!(matches!(read_frame(&bytes, bytes.len()), Ok(None)));
    assert!(matches!(read_frame(&[], 0), Ok(None)));
    for len in 1..bytes.len() {
        assert!(matches!(read_frame(&bytes[..len], 0), Err(Error::Corruption)));
    }
    assert!(matches!(read_frame(&bytes, 1), Err(Error::Corruption)));
}

#[test]
fn check_frame_accepts_the_stored_checksum_only() {
    let frame = Frame { checksum: 5, key_len: 3, payload: b"keyvalue", next: 20 };
    assert_eq!(
        check_frame(&frame, 5),
        Ok(KeyValuePair { key: b"key".to_vec(), value: b"value".to_vec() })
    );
    assert_eq!(check_frame(&frame, 4), Err(Error::Corruption));
    assert_eq!(check_frame(&frame, 6), Err(Error::Corruption));
}

#[test]
fn check_frame_splits_at_the_key_length() {
    let payload = b"abc";
    for key_len in 0..=3u32 {
        let frame = Frame { checksum: 0, key_len, payload, next: 15 };
        let at = key_len as usize;
        assert_eq!(
            check_frame(&frame, 0),
            Ok(KeyValuePair { key: payload[..at].to_vec(), value: payload[at..].to_vec() })
        );
    }
    let frame = Frame { checksum: 0, key_len: 4, payload, next: 15 };
    assert_eq!(check_frame(&frame, 0), Err(Error::Corruption));
}
