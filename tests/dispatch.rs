use jot::cli::{error_message, failure, listing, memo_line, preview, render_memo, run_list, run_new};
use jot::{Memo, MemoId, MemoRepository, MemoStore, StoreError, Timestamp};

const ID_A: u128 = 0x0123_4567_89ab_cdef_0011_2233_4455_6677;

fn at(secs: i64) -> Timestamp {
    Timestamp { secs, nanos: 0, offset: 0 }
}

#[test]
fn id_text_is_hyphenated_lower_hex() {
    assert_eq!(MemoId(ID_A).to_text(), "01234567-89ab-cdef-0011-223344556677");
    assert_eq!(MemoId(0).to_text(), "00000000-0000-0000-0000-000000000000");
    assert_eq!(MemoId(u128::MAX).to_text(), "ffffffff-ffff-ffff-ffff-ffffffffffff");
}

#[test]
fn timestamp_text_uses_offset() {
    assert_eq!(at(0).to_text().unwrap(), "1970-01-01 00:00:00");
    let east = Timestamp { secs: 1_431_648_000, nanos: 0, offset: 3600 };
    assert_eq!(east.to_text().unwrap(), "2015-05-15 01:00:00");
}

#[test]
fn timestamp_out_of_range_has_no_text() {
    let bad_offset = Timestamp { secs: 0, nanos: 0, offset: 86_400 };
    assert!(bad_offset.to_text().is_none());
    let bad_secs = Timestamp { secs: i64::MAX, nanos: 0, offset: 0 };
    assert!(bad_secs.to_text().is_none());
}

#[test]
fn preview_cuts_at_line_break_and_width() {
    assert_eq!(preview("buy milk"), "buy milk");
    assert_eq!(preview("buy milk\nand eggs"), "buy milk");
    assert_eq!(preview(""), "");
    assert_eq!(preview("\nhidden"), "");
    let long = "x".repeat(50);
    assert_eq!(preview(&long), "x".repeat(40));
    assert_eq!(preview("äöü\nß"), "äöü");
}

#[test]
fn memo_line_joins_id_time_and_preview() {
    let m = Memo::new(MemoId(ID_A), "call Sam\nabout the car".to_string(), at(0), "/tmp".to_string());
    assert_eq!(
        memo_line(&m, Some("2024-01-02 03:04:05".to_string())),
        "01234567-89ab-cdef-0011-223344556677  2024-01-02 03:04:05  call Sam"
    );
    assert_eq!(
        memo_line(&m, None),
        "01234567-89ab-cdef-0011-223344556677  unknown time  call Sam"
    );
    assert_eq!(
        render_memo(&m),
        "01234567-89ab-cdef-0011-223344556677  1970-01-01 00:00:00  call Sam"
    );
}

#[test]
fn list_on_empty_store_prints_message() {
    let store = MemoStore::new();
    let outcome = run_list(&store);
    assert_eq!(outcome.out, vec!["no memos".to_string()]);
    assert!(outcome.err.is_empty());
    assert_eq!(outcome.status, 0);
    assert_eq!(listing(&Vec::new()), vec!["no memos".to_string()]);
}

#[test]
fn list_prints_one_line_per_memo_in_order() {
    let mut store = MemoStore::new();
    assert_eq!(run_new(&mut store, MemoId(2), "call Sam".to_string(), at(61), "/b".to_string()).status, 0);
    assert_eq!(run_new(&mut store, MemoId(1), "buy milk".to_string(), at(60), "/a".to_string()).status, 0);
    let outcome = run_list(&store);
    assert_eq!(
        outcome.out,
        vec![
            "00000000-0000-0000-0000-000000000001  1970-01-01 00:01:00  buy milk".to_string(),
            "00000000-0000-0000-0000-000000000002  1970-01-01 00:01:01  call Sam".to_string(),
        ]
    );
    assert_eq!(outcome.status, 0);
}

#[test]
fn new_prints_the_id() {
    let mut store = MemoStore::new();
    let outcome = run_new(&mut store, MemoId(ID_A), "buy milk".to_string(), at(1), "/a".to_string());
    assert_eq!(outcome.out, vec!["01234567-89ab-cdef-0011-223344556677".to_string()]);
    assert!(outcome.err.is_empty());
    assert_eq!(outcome.status, 0);
    assert_eq!(store.find_by_id(MemoId(ID_A)).unwrap().content(), "buy milk");
}

#[test]
fn new_with_taken_id_fails() {
    let mut store = MemoStore::new();
    run_new(&mut store, MemoId(5), "first".to_string(), at(1), "/a".to_string());
    let outcome = run_new(&mut store, MemoId(5), "second".to_string(), at(2), "/a".to_string());
    assert_eq!(outcome.status, 1);
    assert!(outcome.out.is_empty());
    assert_eq!(outcome.err, vec!["a memo with this id already exists".to_string()]);
    assert_eq!(store.len(), 1);
    assert_eq!(store.find_by_id(MemoId(5)).unwrap().content(), "first");
}

#[test]
fn error_messages() {
    assert_eq!(error_message(StoreError::DuplicateId), "a memo with this id already exists");
    assert_eq!(error_message(StoreError::NotFound), "no memo with this id");
    assert_eq!(error_message(StoreError::IoFailure), "could not read or write the memo store");
    let f = failure(StoreError::IoFailure);
    assert_eq!(f.status, 1);
    assert_eq!(f.err, vec!["could not read or write the memo store".to_string()]);
    assert!(f.out.is_empty());
}

#[test]
fn timestamp_in_range_always_has_text() {
    let far = Timestamp { secs: 8_000_000_000_000, nanos: 999_999_999, offset: 86_399 };
    assert!(far.to_text().is_some());
    let early = Timestamp { secs: -8_000_000_000_000, nanos: 0, offset: -86_399 };
    assert!(early.to_text().is_some());
}

#[test]
fn unshowable_time_renders_as_unknown() {
    let m = Memo::new(MemoId(1), "x".to_string(), Timestamp { secs: i64::MAX, nanos: 0, offset: 0 }, String::new());
    assert_eq!(render_memo(&m), "00000000-0000-0000-0000-000000000001  unknown time  x");
}
