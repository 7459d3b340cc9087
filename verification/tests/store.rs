use kvs::codec::{decode, encode};
use kvs::engine::{KvStore, KvStorePersist};
use kvs::errors::KvsError;
use kvs::kv_map::{KvStore as MapKvStore, KvStoreMap};
use kvs::record::{Operation, Record};

fn chars(s: &str) -> Vec<char> {
    s.chars().collect()
}

fn text(v: &[char]) -> String {
    v.iter().collect()
}

#[test]
fn round_trip_set_record() {
    let rec = Record {
        key: String::from("answer"),
        value: Some(String::from("42")),
        op: Operation::Insert,
    };
    let line = encode(&rec);
    let back = decode(&line).expect("round trip must decode");
    assert_eq!(back.key, "answer");
    assert_eq!(back.value.as_deref(), Some("42"));
    assert_eq!(back.op, Operation::Insert);
}

#[test]
fn round_trip_delete_record() {
    let rec = Record { key: String::from("gone"), value: None, op: Operation::Delete };
    let line = encode(&rec);
    let back = decode(&line).expect("round trip must decode");
    assert_eq!(back.key, "gone");
    assert_eq!(back.value, None);
    assert_eq!(back.op, Operation::Delete);
}

#[test]
fn round_trip_with_escaped_characters() {
    let rec = Record {
        key: String::from("a key\nwith \\ specials"),
        value: Some(String::from(" leading and trailing ")),
        op: Operation::Insert,
    };
    let line = encode(&rec);
    // the line holds exactly one newline, its terminator
    assert_eq!(line.iter().filter(|c| **c == '\n').count(), 1);
    assert_eq!(*line.last().unwrap(), '\n');
    let back = decode(&line).expect("round trip must decode");
    assert_eq!(back.key, "a key\nwith \\ specials");
    assert_eq!(back.value.as_deref(), Some(" leading and trailing "));
}

#[test]
fn encoded_line_format_is_stable() {
    let rec = Record {
        key: String::from("a"),
        value: Some(String::from("1")),
        op: Operation::Insert,
    };
    assert_eq!(text(&encode(&rec)), "S a 1\n");
    let del = Record { key: String::from("a b"), value: None, op: Operation::Delete };
    assert_eq!(text(&encode(&del)), "D a\\sb\n");
}

#[test]
fn decode_rejects_malformed_lines() {
    for bad in [
        "",
        "S a 1",          // no terminating newline
        "X a 1\n",        // unknown tag
        "S  1\n",         // empty key
        "D \n",           // empty key
        "S a\n",          // no value field
        "S a b c\n",      // raw space in value
        "D a b\n",        // raw space in key
        "S a 1\nextra\n", // newline inside the line
        "S a \\x\n",      // unknown escape
        "S a \\\n",       // truncated escape
    ] {
        assert_eq!(decode(&chars(bad)).unwrap_err(), KvsError::CorruptRecord, "{bad:?}");
    }
}

#[test]
fn set_then_get() {
    let mut store = KvStorePersist::new(String::from("t.db"));
    store.set(String::from("a"), String::from("1")).unwrap();
    assert_eq!(store.get(String::from("a")).unwrap().as_deref(), Some("1"));
}

#[test]
fn overwrite_keeps_latest_value() {
    let mut store = KvStorePersist::new(String::from("t.db"));
    store.set(String::from("a"), String::from("1")).unwrap();
    store.set(String::from("a"), String::from("2")).unwrap();
    assert_eq!(store.get(String::from("a")).unwrap().as_deref(), Some("2"));
}

#[test]
fn get_of_missing_key_is_none_not_error() {
    let mut store = KvStorePersist::new(String::from("t.db"));
    assert_eq!(store.get(String::from("never-set")).unwrap(), None);
}

#[test]
fn remove_then_get_is_none_and_second_remove_fails() {
    let mut store = KvStorePersist::new(String::from("t.db"));
    store.set(String::from("a"), String::from("1")).unwrap();
    store.remove(String::from("a")).unwrap();
    assert_eq!(store.get(String::from("a")).unwrap(), None);
    assert_eq!(store.remove(String::from("a")).unwrap_err(), KvsError::KeyNotFound);
}

#[test]
fn remove_of_absent_key_fails_without_tombstone() {
    let mut store = KvStorePersist::new(String::from("t.db"));
    assert_eq!(store.remove(String::from("a")).unwrap_err(), KvsError::KeyNotFound);
    assert!(store.log_contents().is_empty());
}

#[test]
fn durability_across_restart() {
    let mut store = KvStorePersist::new(String::from("t.db"));
    store.set(String::from("a"), String::from("1")).unwrap();
    store.set(String::from("b"), String::from("two words")).unwrap();
    store.remove(String::from("a")).unwrap();
    let file = store.log_contents().clone();

    let mut reopened = KvStorePersist::new(String::from("t.db"));
    reopened.load_database_from_logs(file).unwrap();
    assert_eq!(reopened.get(String::from("a")).unwrap(), None);
    assert_eq!(reopened.get(String::from("b")).unwrap().as_deref(), Some("two words"));
}

#[test]
fn recovery_is_idempotent() {
    let mut store = KvStorePersist::new(String::from("t.db"));
    for (k, v) in [("x", "1"), ("y", "2"), ("x", "3")] {
        store.set(String::from(k), String::from(v)).unwrap();
    }
    store.remove(String::from("y")).unwrap();
    let file = store.log_contents().clone();

    let mut first = KvStorePersist::new(String::from("t.db"));
    first.load_database_from_logs(file.clone()).unwrap();
    let mut second = KvStorePersist::new(String::from("t.db"));
    second.load_database_from_logs(file).unwrap();
    for k in ["x", "y", "z"] {
        assert_eq!(
            first.get(String::from(k)).unwrap(),
            second.get(String::from(k)).unwrap()
        );
    }
    assert_eq!(first.log_contents(), second.log_contents());
}

#[test]
fn example_scenario() {
    let mut store = KvStorePersist::open().unwrap();
    store.set(String::from("a"), String::from("1")).unwrap();
    store.set(String::from("b"), String::from("2")).unwrap();
    store.remove(String::from("a")).unwrap();
    let file = store.log_contents().clone();

    let mut reopened = KvStorePersist::open().unwrap();
    reopened.load_database_from_logs(file).unwrap();
    assert_eq!(reopened.get(String::from("a")).unwrap(), None);
    assert_eq!(reopened.get(String::from("b")).unwrap().as_deref(), Some("2"));
    assert_eq!(reopened.remove(String::from("a")).unwrap_err(), KvsError::KeyNotFound);
}

#[test]
fn recovery_rejects_corrupt_logs() {
    let mut store = KvStorePersist::new(String::from("t.db"));
    store.set(String::from("a"), String::from("1")).unwrap();
    assert_eq!(
        store.load_database_from_logs(chars("not a record\n")).unwrap_err(),
        KvsError::CorruptLog
    );
    assert_eq!(
        store.load_database_from_logs(chars("S a 1")).unwrap_err(),
        KvsError::CorruptLog
    );
    // a failed recovery leaves the store untouched
    assert_eq!(store.get(String::from("a")).unwrap().as_deref(), Some("1"));
}

#[test]
fn recovery_of_empty_log_yields_empty_store() {
    let mut store = KvStorePersist::new(String::from("t.db"));
    store.load_database_from_logs(Vec::new()).unwrap();
    assert_eq!(store.get(String::from("a")).unwrap(), None);
}

#[test]
fn read_at_offset_reports_missing_record() {
    let store = KvStorePersist::new(String::from("t.db"));
    assert_eq!(
        store.get_entry_from_pos(0).unwrap_err(),
        KvsError::TruncatedOrMissingRecord
    );
}

#[test]
fn read_at_offset_returns_the_record_there() {
    let mut store = KvStorePersist::new(String::from("t.db"));
    store.set(String::from("a"), String::from("1")).unwrap();
    let first_len = store.log_contents().len();
    store.set(String::from("b"), String::from("2")).unwrap();
    let rec = store.get_entry_from_pos(first_len).unwrap();
    assert_eq!(rec.key, "b");
    assert_eq!(rec.value.as_deref(), Some("2"));
    assert_eq!(rec.op, Operation::Insert);
}

#[test]
fn empty_and_unicode_values_survive() {
    let mut store = KvStorePersist::new(String::from("t.db"));
    store.set(String::from("empty"), String::new()).unwrap();
    store.set(String::from("caf\u{e9}"), String::from("\u{1F600} d\u{e9}j\u{e0} vu")).unwrap();
    let file = store.log_contents().clone();
    let mut reopened = KvStorePersist::new(String::from("t.db"));
    reopened.load_database_from_logs(file).unwrap();
    assert_eq!(reopened.get(String::from("empty")).unwrap().as_deref(), Some(""));
    assert_eq!(
        reopened.get(String::from("caf\u{e9}")).unwrap().as_deref(),
        Some("\u{1F600} d\u{e9}j\u{e0} vu")
    );
}

#[test]
fn in_memory_map_set_get_remove() {
    let mut store = KvStoreMap::new();
    assert_eq!(store.get(String::from("a")), None);
    store.set(String::from("a"), String::from("1"));
    store.set(String::from("b"), String::from("2"));
    assert_eq!(store.get(String::from("a")).as_deref(), Some("1"));
    store.set(String::from("a"), String::from("3"));
    assert_eq!(store.get(String::from("a")).as_deref(), Some("3"));
    store.remove(String::from("a"));
    assert_eq!(store.get(String::from("a")), None);
    assert_eq!(store.get(String::from("b")).as_deref(), Some("2"));
}

#[test]
fn key_not_found_message() {
    assert_eq!(KvsError::KeyNotFound.message(), "Key not found");
}
