use jot::codec::{decode_records, encode_records};
use jot::{Memo, MemoId, MemoRepository, MemoStore, StoreError, Timestamp};

fn memo(id: u128, content: &str, secs: i64) -> Memo {
    Memo::new(MemoId(id), content.to_string(), Timestamp { secs, nanos: 7, offset: -3600 }, "/p".to_string())
}

#[test]
fn one_record_layout() {
    let m = Memo::new(
        MemoId(0x0102),
        "hé".to_string(),
        Timestamp { secs: -1, nanos: 5, offset: -2 },
        "/a".to_string(),
    );
    let bytes = encode_records(&vec![m]);
    let mut expected: Vec<u8> = vec![0x02, 0x01];
    expected.extend(vec![0u8; 14]);
    expected.extend(vec![0xffu8; 8]);
    expected.extend(vec![5u8, 0, 0, 0]);
    expected.extend(vec![0xfeu8, 0xff, 0xff, 0xff]);
    expected.extend(vec![2u8, 0, 0, 0, 0, 0, 0, 0]);
    expected.extend(b"/a".to_vec());
    expected.extend(vec![3u8, 0, 0, 0, 0, 0, 0, 0]);
    expected.extend(vec![b'h', 0xc3, 0xa9]);
    assert_eq!(bytes, expected);
}

#[test]
fn empty_input_decodes_to_no_memos() {
    assert_eq!(decode_records(&[]).unwrap().len(), 0);
    assert!(encode_records(&Vec::new()).is_empty());
}

#[test]
fn store_round_trips_through_bytes() {
    let mut store = MemoStore::new();
    store.insert(memo(1, "buy milk", 20)).unwrap();
    store.insert(memo(2, "call Sam\nabout the car", 10)).unwrap();
    store.insert(memo(3, "", -5)).unwrap();
    let bytes = store.to_bytes();
    let back = MemoStore::from_bytes(&bytes).unwrap();
    let listed = back.list();
    let ids: Vec<u128> = listed.iter().map(|m| m.id().0).collect();
    assert_eq!(ids, vec![3, 2, 1]);
    assert_eq!(listed[1].content(), "call Sam\nabout the car");
    assert_eq!(listed[1].created_date(), Timestamp { secs: 10, nanos: 7, offset: -3600 });
    assert_eq!(listed[1].created_path(), "/p");
    assert_eq!(back.to_bytes(), bytes);
}

#[test]
fn truncated_bytes_are_an_io_failure() {
    let mut store = MemoStore::new();
    store.insert(memo(1, "buy milk", 20)).unwrap();
    let mut bytes = store.to_bytes();
    bytes.pop();
    assert!(decode_records(&bytes).is_none());
    assert_eq!(MemoStore::from_bytes(&bytes).err(), Some(StoreError::IoFailure));
}

#[test]
fn invalid_utf8_is_an_io_failure() {
    let mut bytes = encode_records(&vec![memo(1, "ab", 1)]);
    let last = bytes.len() - 1;
    bytes[last] = 0xff;
    assert_eq!(MemoStore::from_bytes(&bytes).err(), Some(StoreError::IoFailure));
}

#[test]
fn repeated_id_in_bytes_is_duplicate() {
    let bytes = encode_records(&vec![memo(4, "one", 1), memo(4, "two", 2)]);
    assert_eq!(decode_records(&bytes).unwrap().len(), 2);
    assert_eq!(MemoStore::from_bytes(&bytes).err(), Some(StoreError::DuplicateId));
}
