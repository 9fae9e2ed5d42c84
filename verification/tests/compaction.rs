//! Compaction: triggered by the obsolete-record counter, it shrinks the
//! log and changes no observable value.

use kvs::KvStore;

#[test]
fn bulk_overwrite_triggers_compaction_and_keeps_values() {
    let mut store = KvStore::open("").unwrap();
    let count: usize = 10_000;
    for i in 0..count {
        store.set(format!("{}k", i), format!("{}v", i)).unwrap();
    }
    assert_eq!(store.obsolete_count(), 0);
    let mut shrank = false;
    for i in 0..count {
        let before = if store.obsolete_count() == 999 {
            Some(store.log_contents().len())
        } else {
            None
        };
        store.set(format!("{}k", i), format!("{}w", i)).unwrap();
        if let Some(b) = before {
            let after = store.log_contents().len();
            assert!(after < b, "log must be strictly smaller after compaction");
            shrank = true;
        }
    }
    assert!(shrank, "the obsolete counter must have crossed the threshold");
    assert_eq!(store.obsolete_count(), 0);
    for i in 0..count {
        assert_eq!(
            store.get(format!("{}k", i)).unwrap(),
            Some(format!("{}w", i)),
            "key {} must hold its latest value",
            i
        );
    }
}

#[test]
fn compaction_preserves_removes_and_reopen() {
    let mut store = KvStore::open("").unwrap();
    for i in 0..600usize {
        store.set(format!("a{}", i), "x".to_string()).unwrap();
    }
    for i in 0..600usize {
        store.set(format!("b{}", i), format!("y{}", i)).unwrap();
    }
    for i in 0..600usize {
        store.remove(format!("a{}", i)).unwrap();
    }
    for i in 0..600usize {
        store.set(format!("b{}", i), format!("z{}", i)).unwrap();
    }
    // 600 removes and 600 overwrites made 1200 records obsolete; the
    // counter crossed the threshold once and was reset by compaction.
    assert_eq!(store.obsolete_count(), 200);
    let store2 = KvStore::open(&store.log_contents()).unwrap();
    for i in 0..600usize {
        assert_eq!(store2.get(format!("a{}", i)).unwrap(), None);
    }
    for i in 0..600usize {
        assert_eq!(store2.get(format!("b{}", i)).unwrap(), Some(format!("z{}", i)));
    }
}
