//! End-to-end behavior of the store over a simulated log file: the file is a
//! byte vector that each returned effect is applied to, exactly as a real
//! front end would apply it to `kvs.log`.

use kvs::{KvError, KvStore, LogEffect, THRESHOLD};

/// Apply one effect to the simulated file; afterwards the file must equal the
/// engine's log contents.
fn apply(file: &mut Vec<u8>, store: &KvStore, eff: LogEffect) {
    match eff {
        LogEffect::Appended(d) => file.extend_from_slice(&d),
        LogEffect::Compacted => {
            file.clear();
            file.extend_from_slice(store.log_bytes());
        }
    }
    assert_eq!(file.as_slice(), store.log_bytes().as_slice());
}

fn set(file: &mut Vec<u8>, store: &mut KvStore, k: &str, v: &str) {
    let eff = store.set(k.to_string(), v.to_string()).unwrap();
    apply(file, store, eff);
}

fn get(store: &KvStore, k: &str) -> Option<String> {
    store.get(k.to_string()).unwrap()
}

#[test]
fn open_empty_dir_gives_empty_store() {
    let store = KvStore::open(Vec::new()).unwrap();
    assert_eq!(store.log_bytes().len(), 0);
    assert_eq!(store.stale_bytes(), 0);
    assert_eq!(get(&store, "anything"), None);
}

#[test]
fn set_overwrite_get_and_reopen() {
    let mut file: Vec<u8> = Vec::new();
    let mut store = KvStore::open(file.clone()).unwrap();
    set(&mut file, &mut store, "a", "1");
    set(&mut file, &mut store, "a", "2");
    assert_eq!(get(&store, "a"), Some("2".to_string()));
    let reopened = KvStore::open(file.clone()).unwrap();
    assert_eq!(get(&reopened, "a"), Some("2".to_string()));
}

#[test]
fn remove_then_absent_and_reopen() {
    let mut file: Vec<u8> = Vec::new();
    let mut store = KvStore::open(file.clone()).unwrap();
    set(&mut file, &mut store, "k", "v");
    let eff = store.remove("k".to_string()).unwrap();
    apply(&mut file, &store, eff);
    assert_eq!(get(&store, "k"), None);
    let reopened = KvStore::open(file.clone()).unwrap();
    assert_eq!(get(&reopened, "k"), None);
}

#[test]
fn remove_missing_key_is_an_error_and_writes_nothing() {
    let mut store = KvStore::open(Vec::new()).unwrap();
    let r = store.remove("missing".to_string());
    assert_eq!(r.unwrap_err(), KvError::KeyNotFound);
    assert_eq!(store.log_bytes().len(), 0);
    assert_eq!(store.stale_bytes(), 0);
}

#[test]
fn remove_missing_key_changes_nothing_later_too() {
    let mut file: Vec<u8> = Vec::new();
    let mut store = KvStore::open(file.clone()).unwrap();
    set(&mut file, &mut store, "a", "1");
    let log_before = store.log_bytes().clone();
    let stale_before = store.stale_bytes();
    let r = store.remove("b".to_string());
    assert_eq!(r.unwrap_err(), KvError::KeyNotFound);
    assert_eq!(store.log_bytes(), &log_before);
    assert_eq!(store.stale_bytes(), stale_before);
    assert_eq!(get(&store, "a"), Some("1".to_string()));
}

#[test]
fn get_returns_last_of_many_overwrites() {
    let mut file: Vec<u8> = Vec::new();
    let mut store = KvStore::open(file.clone()).unwrap();
    for i in 0..50 {
        set(&mut file, &mut store, "key", &format!("value-{}", i));
    }
    assert_eq!(get(&store, "key"), Some("value-49".to_string()));
}

#[test]
fn thousand_keys_overwritten_compact_and_reopen() {
    let mut file: Vec<u8> = Vec::new();
    let mut store = KvStore::open(file.clone()).unwrap();
    for i in 0..1000 {
        set(&mut file, &mut store, &format!("key{}", i), &format!("v{}", i));
    }
    let mut compacted = false;
    for i in 0..1000 {
        let eff = store
            .set(format!("key{}", i), format!("w{}", i))
            .unwrap();
        if matches!(eff, LogEffect::Compacted) {
            compacted = true;
        }
        apply(&mut file, &store, eff);
    }
    assert!(compacted);
    for i in 0..1000 {
        assert_eq!(
            get(&store, &format!("key{}", i)),
            Some(format!("w{}", i))
        );
    }
    let reopened = KvStore::open(file.clone()).unwrap();
    for i in 0..1000 {
        assert_eq!(
            get(&reopened, &format!("key{}", i)),
            Some(format!("w{}", i))
        );
    }
}

#[test]
fn repeated_overwrites_keep_the_log_small() {
    let mut single: Vec<u8> = Vec::new();
    let mut one = KvStore::open(single.clone()).unwrap();
    set(&mut single, &mut one, "x", "1");
    let single_len = one.log_bytes().len() as u64;

    let mut file: Vec<u8> = Vec::new();
    let mut store = KvStore::open(file.clone()).unwrap();
    for _ in 0..200 {
        set(&mut file, &mut store, "x", "1");
    }
    assert_eq!(get(&store, "x"), Some("1".to_string()));
    assert!(file.len() as u64 <= single_len + THRESHOLD);
}

#[test]
fn reopening_the_old_log_recovers_both_keys() {
    // A crash in the middle of a rewrite leaves the old log authoritative
    // (the front end deletes the unfinished sibling before opening); the old
    // bytes must replay to the full state.
    let mut file: Vec<u8> = Vec::new();
    let mut store = KvStore::open(file.clone()).unwrap();
    set(&mut file, &mut store, "a", "1");
    set(&mut file, &mut store, "b", "2");
    let reopened = KvStore::open(file.clone()).unwrap();
    assert_eq!(get(&reopened, "a"), Some("1".to_string()));
    assert_eq!(get(&reopened, "b"), Some("2".to_string()));
}

#[test]
fn compacting_twice_changes_nothing() {
    let mut file: Vec<u8> = Vec::new();
    let mut store = KvStore::open(file.clone()).unwrap();
    for i in 0..40 {
        set(&mut file, &mut store, &format!("k{}", i % 4), &format!("v{}", i));
    }
    store.compact();
    let log_once = store.log_bytes().clone();
    assert_eq!(store.stale_bytes(), 0);
    store.compact();
    assert_eq!(store.log_bytes(), &log_once);
    assert_eq!(store.stale_bytes(), 0);
    for i in 36..40 {
        assert_eq!(
            get(&store, &format!("k{}", i % 4)),
            Some(format!("v{}", i))
        );
    }
}

#[test]
fn open_rejects_garbage() {
    let r = KvStore::open(b"garbage bytes".to_vec());
    assert_eq!(r.unwrap_err(), KvError::Corruption);
}

#[test]
fn open_rejects_a_truncated_trailing_record() {
    let mut file: Vec<u8> = Vec::new();
    let mut store = KvStore::open(file.clone()).unwrap();
    set(&mut file, &mut store, "a", "1");
    set(&mut file, &mut store, "b", "2");
    file.pop();
    let r = KvStore::open(file);
    assert_eq!(r.unwrap_err(), KvError::Corruption);
}

#[test]
fn whitespace_between_records_is_tolerated() {
    let mut file: Vec<u8> = Vec::new();
    let mut store = KvStore::open(file.clone()).unwrap();
    set(&mut file, &mut store, "a", "1");
    set(&mut file, &mut store, "b", "2");
    let mut padded: Vec<u8> = Vec::new();
    padded.extend_from_slice(b"  \n");
    let split = file.len() / 2;
    // the two records of this log have equal length, so half-way is a boundary
    padded.extend_from_slice(&file[..split]);
    padded.extend_from_slice(b"\r\n\t");
    padded.extend_from_slice(&file[split..]);
    padded.extend_from_slice(b"\n");
    let reopened = KvStore::open(padded).unwrap();
    assert_eq!(get(&reopened, "a"), Some("1".to_string()));
    assert_eq!(get(&reopened, "b"), Some("2".to_string()));
}

#[test]
fn stale_bytes_track_overwrites_and_stay_bounded() {
    let mut file: Vec<u8> = Vec::new();
    let mut store = KvStore::open(file.clone()).unwrap();
    set(&mut file, &mut store, "a", "1");
    assert_eq!(store.stale_bytes(), 0);
    let first_len = store.log_bytes().len() as u64;
    set(&mut file, &mut store, "a", "1");
    assert_eq!(store.stale_bytes(), first_len);
    for _ in 0..50 {
        set(&mut file, &mut store, "a", "1");
        assert!(store.stale_bytes() <= THRESHOLD);
    }
}
