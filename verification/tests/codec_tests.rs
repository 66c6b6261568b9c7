//! The record codec on its own: round trips, framing, and corrupt input.

use kvs::codec::{encode_record, parse_record, Record};
use kvs::{KvError, KvStore};

#[test]
fn encode_then_parse_a_set_record() {
    let rec = Record::Put { key: b"hello".to_vec(), value: b"world!".to_vec() };
    let bytes = encode_record(&rec);
    let (parsed, end) = parse_record(&bytes, 0).unwrap();
    assert_eq!(end, bytes.len());
    match parsed {
        Record::Put { key, value } => {
            assert_eq!(key, b"hello".to_vec());
            assert_eq!(value, b"world!".to_vec());
        }
        Record::Remove { .. } => panic!("parsed the wrong variant"),
    }
}

#[test]
fn encode_then_parse_a_remove_record() {
    let rec = Record::Remove { key: b"gone".to_vec() };
    let bytes = encode_record(&rec);
    let (parsed, end) = parse_record(&bytes, 0).unwrap();
    assert_eq!(end, bytes.len());
    match parsed {
        Record::Remove { key } => assert_eq!(key, b"gone".to_vec()),
        Record::Put { .. } => panic!("parsed the wrong variant"),
    }
}

#[test]
fn two_concatenated_records_parse_in_sequence() {
    let mut bytes = encode_record(&Record::Put { key: b"a".to_vec(), value: b"1".to_vec() });
    let second = encode_record(&Record::Put { key: b"bb".to_vec(), value: b"22".to_vec() });
    bytes.extend_from_slice(&second);
    let (first, mid) = parse_record(&bytes, 0).unwrap();
    match first {
        Record::Put { key, value } => {
            assert_eq!(key, b"a".to_vec());
            assert_eq!(value, b"1".to_vec());
        }
        Record::Remove { .. } => panic!("parsed the wrong variant"),
    }
    let (next, end) = parse_record(&bytes, mid).unwrap();
    assert_eq!(end, bytes.len());
    match next {
        Record::Put { key, value } => {
            assert_eq!(key, b"bb".to_vec());
            assert_eq!(value, b"22".to_vec());
        }
        Record::Remove { .. } => panic!("parsed the wrong variant"),
    }
}

#[test]
fn a_truncated_record_does_not_parse() {
    let mut bytes = encode_record(&Record::Put { key: b"key".to_vec(), value: b"value".to_vec() });
    bytes.pop();
    assert_eq!(parse_record(&bytes, 0).unwrap_err(), KvError::Corruption);
}

#[test]
fn an_unknown_tag_does_not_parse() {
    let bytes = vec![0u8, 1, 2, 3];
    assert_eq!(parse_record(&bytes, 0).unwrap_err(), KvError::Corruption);
}

#[test]
fn a_stored_value_that_is_not_utf8_is_corruption_on_get() {
    let rec = Record::Put { key: b"k".to_vec(), value: vec![0xff, 0xfe, 0x01] };
    let log = encode_record(&rec);
    let store = KvStore::open(log).unwrap();
    assert_eq!(store.get("k".to_string()).unwrap_err(), KvError::Corruption);
}

#[test]
fn values_keep_arbitrary_text_including_spaces() {
    let mut store = KvStore::open(Vec::new()).unwrap();
    store.set("spaced key".to_string(), "a value\nwith lines\tand tabs".to_string()).unwrap();
    assert_eq!(
        store.get("spaced key".to_string()).unwrap(),
        Some("a value\nwith lines\tand tabs".to_string())
    );
}
