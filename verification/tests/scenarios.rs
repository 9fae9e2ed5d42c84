//! End-to-end scenarios: the engine observed through its public API,
//! including close-and-reopen via the log contents.

use kvs::{Error, KvStore};

fn reopen(store: &KvStore) -> KvStore {
    KvStore::open(&store.log_contents()).expect("reopen must succeed on the engine's own log")
}

#[test]
fn open_empty_then_set_get_reopen() {
    let mut store = KvStore::open("").expect("open of an empty log");
    assert_eq!(store.get("a".to_string()).unwrap(), None);
    store.set("a".to_string(), "1".to_string()).unwrap();
    assert_eq!(store.get("a".to_string()).unwrap(), Some("1".to_string()));
    let store2 = reopen(&store);
    assert_eq!(store2.get("a".to_string()).unwrap(), Some("1".to_string()));
}

#[test]
fn overwrites_keep_latest_value() {
    let mut store = KvStore::open("").unwrap();
    store.set("k".to_string(), "v1".to_string()).unwrap();
    store.set("k".to_string(), "v2".to_string()).unwrap();
    store.set("k".to_string(), "v3".to_string()).unwrap();
    assert_eq!(store.get("k".to_string()).unwrap(), Some("v3".to_string()));
    let store2 = reopen(&store);
    assert_eq!(store2.get("k".to_string()).unwrap(), Some("v3".to_string()));
}

#[test]
fn remove_then_remove_again_fails() {
    let mut store = KvStore::open("").unwrap();
    store.set("x".to_string(), "y".to_string()).unwrap();
    store.remove("x".to_string()).unwrap();
    assert_eq!(store.get("x".to_string()).unwrap(), None);
    assert_eq!(store.remove("x".to_string()), Err(Error::KeyNotFound));
}

#[test]
fn remove_survives_reopen() {
    let mut store = KvStore::open("").unwrap();
    store.set("a".to_string(), "1".to_string()).unwrap();
    store.set("b".to_string(), "2".to_string()).unwrap();
    store.remove("a".to_string()).unwrap();
    let store2 = reopen(&store);
    assert_eq!(store2.get("a".to_string()).unwrap(), None);
    assert_eq!(store2.get("b".to_string()).unwrap(), Some("2".to_string()));
}

#[test]
fn set_leaves_other_keys_unchanged() {
    let mut store = KvStore::open("").unwrap();
    store.set("a".to_string(), "1".to_string()).unwrap();
    store.set("b".to_string(), "2".to_string()).unwrap();
    store.set("a".to_string(), "9".to_string()).unwrap();
    assert_eq!(store.get("a".to_string()).unwrap(), Some("9".to_string()));
    assert_eq!(store.get("b".to_string()).unwrap(), Some("2".to_string()));
}

#[test]
fn obsolete_counter_rebuilt_by_open() {
    let mut store = KvStore::open("").unwrap();
    assert_eq!(store.obsolete_count(), 0);
    store.set("a".to_string(), "1".to_string()).unwrap();
    store.set("a".to_string(), "2".to_string()).unwrap();
    store.set("b".to_string(), "3".to_string()).unwrap();
    store.remove("b".to_string()).unwrap();
    // One overwritten Set and one Remove of a present key: two obsolete
    // records, counted again by replay on reopen.
    assert_eq!(store.obsolete_count(), 2);
    let store2 = KvStore::open(&store.log_contents()).unwrap();
    assert_eq!(store2.obsolete_count(), 2);
}

#[test]
fn remove_of_absent_key_writes_nothing() {
    let mut store = KvStore::open("").unwrap();
    store.set("a".to_string(), "1".to_string()).unwrap();
    let before = store.log_contents();
    assert_eq!(store.remove("zzz".to_string()), Err(Error::KeyNotFound));
    assert_eq!(store.log_contents(), before);
}

#[test]
fn unicode_keys_and_values_round_trip() {
    let key = "cl\u{00e9}-\u{043a}\u{043b}\u{044e}\u{0447}".to_string();
    let value = "\u{1f680} value \u{4e2d}\u{6587}".to_string();
    let mut store = KvStore::open("").unwrap();
    store.set(key.clone(), value.clone()).unwrap();
    assert_eq!(store.get(key.clone()).unwrap(), Some(value.clone()));
    let store2 = reopen(&store);
    assert_eq!(store2.get(key).unwrap(), Some(value));
}

#[test]
fn control_and_quote_characters_round_trip() {
    let key = "a\"b\\c".to_string();
    let value = "line1\nline2\ttab\u{1}\u{1f}\u{8}\u{c}\rend".to_string();
    let mut store = KvStore::open("").unwrap();
    store.set(key.clone(), value.clone()).unwrap();
    assert_eq!(store.get(key.clone()).unwrap(), Some(value.clone()));
    let store2 = reopen(&store);
    assert_eq!(store2.get(key).unwrap(), Some(value));
}

#[test]
fn empty_key_and_empty_value() {
    let mut store = KvStore::open("").unwrap();
    store.set("".to_string(), "".to_string()).unwrap();
    assert_eq!(store.get("".to_string()).unwrap(), Some("".to_string()));
    let store2 = reopen(&store);
    assert_eq!(store2.get("".to_string()).unwrap(), Some("".to_string()));
}
