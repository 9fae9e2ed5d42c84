//! The on-disk record format: exact record text, foreign input the reader
//! must tolerate, corruption it must reject, and the replay iterator.

use kvs::chars::chars_of;
use kvs::{Command, Error, KvStore, LogReplay};

#[test]
fn record_text_matches_reference_format() {
    let mut store = KvStore::open("").unwrap();
    store.set("a".to_string(), "1".to_string()).unwrap();
    assert_eq!(store.log_contents(), "{\"Set\":{\"key\":\"a\",\"value\":\"1\"}}");
    store.remove("a".to_string()).unwrap();
    assert_eq!(
        store.log_contents(),
        "{\"Set\":{\"key\":\"a\",\"value\":\"1\"}}{\"Remove\":{\"key\":\"a\"}}"
    );
}

#[test]
fn escapes_in_record_text() {
    let mut store = KvStore::open("").unwrap();
    store.set("q\"".to_string(), "b\\\n\u{1}".to_string()).unwrap();
    assert_eq!(
        store.log_contents(),
        "{\"Set\":{\"key\":\"q\\\"\",\"value\":\"b\\\\\\n\\u0001\"}}"
    );
}

#[test]
fn reader_accepts_whitespace_between_records() {
    let text = "  {\"Set\":{\"key\":\"a\",\"value\":\"1\"}} \n\t{\"Set\":{\"key\":\"b\",\"value\":\"2\"}}\r\n";
    let store = KvStore::open(text).unwrap();
    assert_eq!(store.get("a".to_string()).unwrap(), Some("1".to_string()));
    assert_eq!(store.get("b".to_string()).unwrap(), Some("2".to_string()));
}

#[test]
fn reader_accepts_unicode_and_solidus_escapes() {
    let text = "{\"Set\":{\"key\":\"\\u0041\",\"value\":\"\\/x\\u00e9\"}}";
    let store = KvStore::open(text).unwrap();
    assert_eq!(store.get("A".to_string()).unwrap(), Some("/x\u{e9}".to_string()));
}

#[test]
fn truncated_trailing_record_is_corrupt() {
    let mut store = KvStore::open("").unwrap();
    store.set("a".to_string(), "1".to_string()).unwrap();
    store.set("b".to_string(), "22".to_string()).unwrap();
    let mut text = store.log_contents();
    let cut = text.len() - 7;
    text.truncate(cut);
    assert_eq!(KvStore::open(&text).err(), Some(Error::LogFileCorrupted));
}

#[test]
fn garbage_log_is_corrupt() {
    assert_eq!(KvStore::open("not json").err(), Some(Error::LogFileCorrupted));
    assert_eq!(
        KvStore::open("{\"Set\":{\"key\":\"a\",\"value\":1}}").err(),
        Some(Error::LogFileCorrupted)
    );
    assert_eq!(
        KvStore::open("{\"Set\":{\"key\":\"a\",\"value\":\"\\q\"}}").err(),
        Some(Error::LogFileCorrupted)
    );
    assert_eq!(
        KvStore::open("{\"Set\":{\"key\":\"a\",\"value\":\"\\ud800\"}}").err(),
        Some(Error::LogFileCorrupted)
    );
}

#[test]
fn remove_of_absent_key_in_log_is_key_not_found() {
    let text = "{\"Remove\":{\"key\":\"ghost\"}}";
    assert_eq!(KvStore::open(text).err(), Some(Error::KeyNotFound));
}

#[test]
fn replay_yields_commands_with_their_offsets() {
    let first = "{\"Set\":{\"key\":\"a\",\"value\":\"1\"}}";
    let second = "{\"Remove\":{\"key\":\"a\"}}";
    let text = format!("{}{}", first, second);
    let data = chars_of(&text);
    let mut replay = LogReplay::new(&data);

    let (cmd, ptr) = replay.next().expect("first record").expect("decodes");
    assert_eq!(ptr.0, 0);
    match cmd {
        Command::Put { key, value } => {
            assert_eq!(key, "a");
            assert_eq!(value, "1");
        }
        Command::Remove { .. } => panic!("expected a Set record"),
    }

    let (cmd2, ptr2) = replay.next().expect("second record").expect("decodes");
    assert_eq!(ptr2.0 as usize, first.len());
    match cmd2 {
        Command::Remove { key } => assert_eq!(key, "a"),
        Command::Put { .. } => panic!("expected a Remove record"),
    }

    assert!(replay.next().is_none());
}

#[test]
fn log_append_then_read_back_at_pointer() {
    let mut log = kvs::Log::open(Vec::new());
    let ptr1 = log
        .append_command(Command::Put { key: "k".to_string(), value: "v".to_string() })
        .unwrap();
    let ptr2 = log.append_command(Command::Remove { key: "k".to_string() }).unwrap();
    assert_eq!(ptr1.0, 0);
    assert_eq!(ptr2.0 as usize, "{\"Set\":{\"key\":\"k\",\"value\":\"v\"}}".len());
    match log.read(&ptr1).unwrap() {
        Command::Put { key, value } => {
            assert_eq!(key, "k");
            assert_eq!(value, "v");
        }
        Command::Remove { .. } => panic!("expected the Set record"),
    }
    match log.read(&ptr2).unwrap() {
        Command::Remove { key } => assert_eq!(key, "k"),
        Command::Put { .. } => panic!("expected the Remove record"),
    }
    assert_eq!(log.contents(), "{\"Set\":{\"key\":\"k\",\"value\":\"v\"}}{\"Remove\":{\"key\":\"k\"}}");
}

#[test]
fn index_insert_lookup_remove() {
    let mut index = kvs::store::Index::new();
    assert_eq!(index.get_ptr(&chars_of("a")), None);
    assert!(!index.insert(chars_of("a"), 7));
    assert!(index.insert(chars_of("a"), 9));
    index.insert_new(chars_of("b"), 11);
    assert_eq!(index.get_ptr(&chars_of("a")), Some(9));
    assert_eq!(index.get_ptr(&chars_of("b")), Some(11));
    assert_eq!(index.remove(&chars_of("a")), Some(9));
    assert_eq!(index.remove(&chars_of("a")), None);
    assert_eq!(index.get_ptr(&chars_of("b")), Some(11));
}

#[test]
fn replay_of_corrupt_tail_yields_one_error_item() {
    let text = "{\"Set\":{\"key\":\"a\",\"value\":\"1\"}}{\"Set\":{\"key\":";
    let data = chars_of(text);
    let mut replay = LogReplay::new(&data);
    assert!(replay.next().unwrap().is_ok());
    match replay.next() {
        Some(Err(Error::LogFileCorrupted)) => {}
        other => panic!("expected a corruption item, got {:?}", other.map(|r| r.map(|_| ()))),
    }
    assert!(replay.next().is_none(), "the error item terminates the replay");
}
