use jot::{Memo, MemoId, MemoRepository, MemoStore, StoreError, Timestamp};

fn at(secs: i64) -> Timestamp {
    Timestamp { secs, nanos: 0, offset: 0 }
}

fn memo(id: u128, content: &str, secs: i64) -> Memo {
    Memo::new(MemoId(id), content.to_string(), at(secs), "/home/memo".to_string())
}

fn ids(memos: &[Memo]) -> Vec<u128> {
    memos.iter().map(|m| m.id().0).collect()
}

#[test]
fn two_memos_list_in_creation_order() {
    let mut store = MemoStore::new();
    store.insert(memo(0xA, "buy milk", 1_700_000_000)).unwrap();
    store.insert(memo(0xB, "call Sam", 1_700_000_001)).unwrap();
    let listed = store.list();
    assert_eq!(ids(&listed), vec![0xA, 0xB]);
    assert_eq!(listed[0].content(), "buy milk");
    assert_eq!(listed[1].content(), "call Sam");
}

#[test]
fn insert_out_of_order_still_lists_by_time() {
    let mut store = MemoStore::new();
    store.insert(memo(1, "third", 30)).unwrap();
    store.insert(memo(2, "first", 10)).unwrap();
    store.insert(memo(3, "second", 20)).unwrap();
    assert_eq!(ids(&store.list()), vec![2, 3, 1]);
}

#[test]
fn same_instant_orders_by_id() {
    let mut store = MemoStore::new();
    store.insert(memo(9, "later id", 5)).unwrap();
    store.insert(memo(4, "earlier id", 5)).unwrap();
    assert_eq!(ids(&store.list()), vec![4, 9]);
}

#[test]
fn nanoseconds_break_ties_in_seconds() {
    let mut store = MemoStore::new();
    let late = Memo::new(MemoId(1), "a".to_string(), Timestamp { secs: 5, nanos: 900, offset: 0 }, String::new());
    let early = Memo::new(MemoId(2), "b".to_string(), Timestamp { secs: 5, nanos: 100, offset: 0 }, String::new());
    store.insert(late).unwrap();
    store.insert(early).unwrap();
    assert_eq!(ids(&store.list()), vec![2, 1]);
}

#[test]
fn find_by_id_returns_each_inserted_memo() {
    let mut store = MemoStore::new();
    for i in 0..5u128 {
        store.insert(memo(100 + i, &format!("note {}", i), 50 - i as i64)).unwrap();
    }
    for i in 0..5u128 {
        let found = store.find_by_id(MemoId(100 + i)).unwrap();
        assert_eq!(found.id(), MemoId(100 + i));
        assert_eq!(found.content(), format!("note {}", i));
        assert_eq!(found.created_date(), at(50 - i as i64));
        assert_eq!(found.created_path(), "/home/memo");
    }
    assert!(store.find_by_id(MemoId(7)).is_none());
    assert_eq!(store.len(), 5);
}

#[test]
fn duplicate_id_is_refused_and_store_unchanged() {
    let mut store = MemoStore::new();
    store.insert(memo(1, "original", 10)).unwrap();
    assert_eq!(store.insert(memo(1, "impostor", 5)), Err(StoreError::DuplicateId));
    assert_eq!(store.len(), 1);
    assert_eq!(store.find_by_id(MemoId(1)).unwrap().content(), "original");
}

#[test]
fn insert_then_remove_leaves_nothing() {
    let mut store = MemoStore::new();
    store.insert(memo(0xA, "buy milk", 1)).unwrap();
    assert_eq!(store.remove(MemoId(0xA)), Ok(()));
    assert!(store.find_by_id(MemoId(0xA)).is_none());
    assert!(store.list().is_empty());
}

#[test]
fn remove_missing_is_not_found_and_changes_nothing() {
    let mut store = MemoStore::new();
    store.insert(memo(1, "one", 1)).unwrap();
    store.insert(memo(2, "two", 2)).unwrap();
    assert_eq!(store.remove(MemoId(3)), Err(StoreError::NotFound));
    assert_eq!(ids(&store.list()), vec![1, 2]);
    assert_eq!(MemoStore::new().remove(MemoId(3)), Err(StoreError::NotFound));
}

#[test]
fn remove_keeps_the_others_in_order() {
    let mut store = MemoStore::new();
    for i in 1..=4u128 {
        store.insert(memo(i, "x", i as i64)).unwrap();
    }
    store.remove(MemoId(2)).unwrap();
    assert_eq!(ids(&store.list()), vec![1, 3, 4]);
}

#[test]
fn empty_store_lists_nothing() {
    let store = MemoStore::new();
    assert!(store.list().is_empty());
    assert_eq!(store.len(), 0);
}

#[test]
fn from_memos_finds_each_memo_in_order() {
    let memos = vec![memo(30, "c", 3), memo(10, "a", 1), memo(20, "b", 2)];
    let store = MemoStore::from_memos(&memos).unwrap();
    for (id, text) in [(10u128, "a"), (20, "b"), (30, "c")] {
        assert_eq!(store.find_by_id(MemoId(id)).unwrap().content(), text);
    }
    assert_eq!(ids(&store.list()), vec![10, 20, 30]);
}

#[test]
fn from_memos_with_repeated_id_is_duplicate() {
    let memos = vec![memo(1, "a", 1), memo(2, "b", 2), memo(1, "c", 3)];
    assert_eq!(MemoStore::from_memos(&memos).err(), Some(StoreError::DuplicateId));
}
