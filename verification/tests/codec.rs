use easy_lsm::data_stores::block::{Block, Header};
use easy_lsm::data_stores::block::{Key as BlockKey, Value as BlockValue};
use easy_lsm::data_stores::key::Key;
use easy_lsm::data_stores::manifest::{FileMetadata, Level};
use easy_lsm::data_stores::value::Value;
use easy_lsm::data_stores::Loggable;
use easy_lsm::err::{DbError, IoErrorKind};
use std::cmp::Ordering;

fn encoded<T: Loggable>(value: &T) -> Vec<u8> {
    let mut out = Vec::new();
    value.encode(&mut out);
    out
}

fn is_eof<T>(r: Result<T, DbError>) -> bool {
    matches!(r, Err(DbError::Io(IoErrorKind::UnexpectedEof)))
}

#[test]
fn integers_are_little_endian() {
    assert_eq!(encoded(&0x12u8), vec![0x12]);
    assert_eq!(encoded(&0x1234u16), vec![0x34, 0x12]);
    assert_eq!(encoded(&0x12345678u32), vec![0x78, 0x56, 0x34, 0x12]);
    assert_eq!(encoded(&u64::MAX), vec![0xFF; 8]);
    let mut reader = &[0x34, 0x12, 7][..];
    assert_eq!(u16::decode(&mut reader).unwrap(), 0x1234);
    assert_eq!(reader, &[7]);
    assert!(is_eof(u32::decode(&mut reader)));
    assert!(reader.is_empty());
}

#[test]
fn vectors_and_strings_carry_their_lengths() {
    assert_eq!(encoded(&vec![1u16, 2]), vec![2, 0, 0, 0, 1, 0, 2, 0]);
    let mut reader = &[2, 0, 0, 0, 1, 0, 2, 0, 9][..];
    assert_eq!(Vec::<u16>::decode(&mut reader).unwrap(), vec![1, 2]);
    assert_eq!(reader, &[9]);
    assert!(is_eof(Vec::<u16>::decode(&mut &[2, 0, 0, 0, 1, 0, 2][..])));

    let text = "h\u{e9}".to_string();
    assert_eq!(encoded(&text), vec![3, 0, 0, 0, b'h', 0xC3, 0xA9]);
    assert_eq!(String::decode(&mut &encoded(&text)[..]).unwrap(), text);
    assert!(matches!(
        String::decode(&mut &[1, 0, 0, 0, 0xFF][..]),
        Err(DbError::ManifestCorrupted)
    ));
}

#[test]
fn keys_are_an_lsn_a_length_and_bytes() {
    let key = Key::new(b"ab", 0x0304);
    let bytes = encoded(&key);
    assert_eq!(bytes, vec![4, 3, 0, 0, 0, 0, 0, 0, 2, 0, b'a', b'b']);
    assert_eq!(bytes.len(), Key::SERIALIZED_HEADER_SIZE + 2);
    assert_eq!(Key::decode(&mut &bytes[..]).unwrap(), key);
    for n in 0..bytes.len() {
        assert!(is_eof(Key::decode(&mut &bytes[..n])));
    }
}

#[test]
fn keys_are_ordered_by_bytes_and_then_newest_first() {
    let a = Key::new(b"a", 1);
    assert_eq!(a.cmp(&Key::new(b"b", 9)), Ordering::Less);
    assert_eq!(a.cmp(&Key::new(b"a", 2)), Ordering::Greater);
    assert_eq!(a.cmp(&Key::new(b"a", 1)), Ordering::Equal);
    assert_eq!(a.cmp(&Key::new(b"", 1)), Ordering::Greater);
    assert!(Key::new(b"a", 2) < a && a < Key::new(b"aa", 5));
    assert!(a == a.clone() && a != Key::new(b"a", 2));
    let mut b = a.clone();
    b.update_lsn(7);
    assert_eq!(b, Key::new(b"a", 7));
    assert!(b.before(&a) && !a.before(&b) && !a.before(&a));
}

#[test]
fn values_carry_their_type() {
    let cases = [
        (Value::new(b"xy"), vec![0, 2, 0, 0, 0, b'x', b'y']),
        (Value::Str("z".to_string()), vec![2, 1, 0, 0, 0, b'z']),
        (
            Value::Int(-2),
            vec![4, 8, 0, 0, 0, 0xFE, 0xFF, 0xFF, 0xFF, 0xFF, 0xFF, 0xFF, 0xFF],
        ),
        (Value::Tombstone, vec![1, 0, 0, 0, 0]),
    ];
    for (value, bytes) in cases {
        assert_eq!(encoded(&value), bytes);
        assert_eq!(value.payload_len() + Value::SERIALIZED_HEADER_SIZE, bytes.len());
        let back = Value::decode(&mut &bytes[..]).unwrap();
        assert_eq!(format!("{:?}", back), format!("{:?}", value));
        assert_eq!(back.is_tombstone(), matches!(value, Value::Tombstone));
        for n in 0..bytes.len() {
            assert!(is_eof(Value::decode(&mut &bytes[..n])));
        }
    }
}

#[test]
fn odd_values_are_read_as_far_as_they_make_sense() {
    let decode = |bytes: &[u8]| Value::decode(&mut &bytes[..]);
    // A tombstone is one whatever else is set, and with any payload.
    assert!(matches!(decode(&[5, 1, 0, 0, 0, 9]), Ok(Value::Tombstone)));
    // Text that is not UTF-8 reads as empty.
    assert!(matches!(decode(&[2, 1, 0, 0, 0, 0xFF]), Ok(Value::Str(s)) if s.is_empty()));
    // An integer takes its first eight bytes, and needs eight.
    assert!(matches!(
        decode(&[4, 9, 0, 0, 0, 5, 0, 0, 0, 0, 0, 0, 0, 77]),
        Ok(Value::Int(5))
    ));
    assert!(matches!(decode(&[4, 1, 0, 0, 0, 5]), Err(DbError::ManifestCorrupted)));
    assert!(matches!(decode(&[6, 0, 0, 0, 0]), Err(DbError::ManifestCorrupted)));
}

#[test]
fn values_of_all_sizes_survive() {
    for n in [i64::MIN, -1, 0, 1, i64::MAX] {
        let bytes = encoded(&Value::Int(n));
        assert!(matches!(Value::decode(&mut &bytes[..]), Ok(Value::Int(m)) if m == n));
        assert_eq!(&bytes[5..], &n.to_le_bytes());
    }
    let text = "\u{1F600} and \u{20AC}";
    let bytes = encoded(&Value::Str(text.to_string()));
    assert_eq!(&bytes[5..], text.as_bytes());
    assert!(matches!(Value::decode(&mut &bytes[..]), Ok(Value::Str(s)) if s == text));
}

#[test]
fn levels_are_lists_of_files() {
    let level = Level {
        files: vec![FileMetadata {
            file_id: 1,
            file_size: 2,
            min_key: Key::new(b"a", 3),
            max_key: Key::new(b"b", 4),
        }],
    };
    let bytes = encoded(&level);
    assert_eq!(bytes.len(), 4 + 8 + 11 + 11);
    assert_eq!(&bytes[0..12], &[1, 0, 0, 0, 1, 0, 0, 0, 2, 0, 0, 0]);
    let back = Level::decode(&mut &bytes[..]).unwrap();
    assert_eq!(back.files[0].file_size, 2);
    assert_eq!(back.files[0].max_key, Key::new(b"b", 4));
    assert!(is_eof(Level::decode(&mut &bytes[..20])));
}

#[test]
fn fixed_blocks_are_walked_entry_by_entry() {
    let mut buffer = [0u8; 32];
    buffer[0..4].copy_from_slice(&0xAABBCCDDu32.to_le_bytes());
    buffer[4..8].copy_from_slice(&2u32.to_le_bytes());
    buffer[8..20].copy_from_slice(&[1, 0, b'k', 2, 0, b'v', b'w', 0, 0, 1, 0, b'x']);
    let header = Header::from_bytes(&buffer);
    assert_eq!((header.checksum, header.entries), (0xAABBCCDD, 2));
    let block = Block { buffer: &buffer };
    let mut iter = block.iter();
    let (key, value) = iter.next().unwrap();
    assert_eq!((key.key_len, key.key_data, key.size()), (1, &b"k"[..], 3));
    assert_eq!((value.value_len, value.value_data, value.size()), (2, &b"vw"[..], 4));
    let (key, value) = iter.next().unwrap();
    assert_eq!((key.key_data, value.value_data), (&b""[..], &b"x"[..]));
    assert!(iter.next().is_none());

    assert_eq!(BlockKey::from_bytes(&[1, 0, 9, 8]).key_data, &[9]);
    assert_eq!(BlockValue::from_bytes(&[0, 0]).value_data, &[] as &[u8]);
}
