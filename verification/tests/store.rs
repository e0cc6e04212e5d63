use kvs::codec::encode_put;
use kvs::kv::{Effect, KvStore, COMPACTION_THRESHOLD};
use kvs::wal::LogFile;
use kvs::{log_file_name, log_path, sorted_gen_list, KvsError};

fn open_empty() -> KvStore {
    KvStore::open(Vec::new()).unwrap()
}

fn disk_bytes(store: &KvStore) -> usize {
    let mut total = 0;
    for f in store.files().iter() {
        total += f.data.len();
    }
    total
}

fn reopen(store: &KvStore) -> KvStore {
    KvStore::open(store.files().clone()).unwrap()
}

#[test]
fn set_then_get() {
    let mut store = open_empty();
    store.set("k1".to_string(), "v1".to_string()).unwrap();
    assert_eq!(store.get("k1".to_string()).unwrap(), Some("v1".to_string()));
    assert_eq!(store.get("k2".to_string()).unwrap(), None);
}

#[test]
fn overwrite_keeps_last_value() {
    let mut store = open_empty();
    store.set("k".to_string(), "v1".to_string()).unwrap();
    store.set("k".to_string(), "v2".to_string()).unwrap();
    store.set("k".to_string(), "v3".to_string()).unwrap();
    assert_eq!(store.get("k".to_string()).unwrap(), Some("v3".to_string()));
}

#[test]
fn remove_then_remove_again() {
    let mut store = open_empty();
    store.set("k".to_string(), "v".to_string()).unwrap();
    store.remove("k".to_string()).unwrap();
    assert_eq!(store.get("k".to_string()).unwrap(), None);
    assert_eq!(store.remove("k".to_string()), Err(KvsError::KeyNotFound));
}

#[test]
fn reopen_restores_state() {
    let mut store = open_empty();
    store.set("a".to_string(), "1".to_string()).unwrap();
    store.set("b".to_string(), "2".to_string()).unwrap();
    store.set("a".to_string(), "3".to_string()).unwrap();
    let mut store2 = reopen(&store);
    assert_eq!(store2.get("a".to_string()).unwrap(), Some("3".to_string()));
    assert_eq!(store2.get("b".to_string()).unwrap(), Some("2".to_string()));
}

#[test]
fn reopen_twice_is_idempotent() {
    let mut store = open_empty();
    store.set("a".to_string(), "1".to_string()).unwrap();
    store.remove("a".to_string()).unwrap();
    store.set("b".to_string(), "2".to_string()).unwrap();
    let store2 = reopen(&store);
    let mut store3 = reopen(&store2);
    assert_eq!(store3.get("a".to_string()).unwrap(), None);
    assert_eq!(store3.get("b".to_string()).unwrap(), Some("2".to_string()));
}

#[test]
fn empty_directory_gives_empty_store() {
    let mut store = open_empty();
    assert_eq!(store.get("anything".to_string()).unwrap(), None);
    assert_eq!(store.files().len(), 1);
    assert_eq!(store.files()[0].gen, 1);
    assert!(store.files()[0].data.is_empty());
}

#[test]
fn non_log_names_are_ignored() {
    let names = vec![
        "data.txt".to_string(),
        "log".to_string(),
        ".log".to_string(),
        "a7.log".to_string(),
        "7.log.bak".to_string(),
    ];
    assert_eq!(sorted_gen_list(&names), Vec::<u64>::new());
}

#[test]
fn gen_list_is_sorted_and_deduplicated() {
    let names = vec![
        "2.log".to_string(),
        "10.log".to_string(),
        "1.log".to_string(),
        "2.log".to_string(),
        "kvs.txt".to_string(),
    ];
    assert_eq!(sorted_gen_list(&names), vec![1, 2, 10]);
}

#[test]
fn log_names_and_paths() {
    assert_eq!(log_file_name(7), "7.log");
    assert_eq!(log_file_name(0), "0.log");
    assert_eq!(log_path("/tmp/a", 42), "/tmp/a/42.log");
}

#[test]
fn truncated_final_record_is_tolerated() {
    let r1 = encode_put(&b"a".to_vec(), &b"1".to_vec());
    let r2 = encode_put(&b"b".to_vec(), &b"2".to_vec());
    let mut data = r1.clone();
    data.extend_from_slice(&r2[..r2.len() - 5]);
    let mut store = KvStore::open(vec![LogFile { gen: 1, data }]).unwrap();
    assert_eq!(store.get("a".to_string()).unwrap(), Some("1".to_string()));
    assert_eq!(store.get("b".to_string()).unwrap(), None);
}

#[test]
fn trailing_garbage_is_tolerated() {
    let mut data = Vec::new();
    data.extend_from_slice(&encode_put(&b"a".to_vec(), &b"1".to_vec()));
    data.extend_from_slice(&encode_put(&b"b".to_vec(), &b"2".to_vec()));
    data.extend_from_slice(b"garbage garbage!!"); // 17 bytes of garbage
    let mut store = KvStore::open(vec![LogFile { gen: 1, data }]).unwrap();
    assert_eq!(store.get("a".to_string()).unwrap(), Some("1".to_string()));
    assert_eq!(store.get("b".to_string()).unwrap(), Some("2".to_string()));
    store.set("c".to_string(), "3".to_string()).unwrap();
    assert_eq!(store.get("c".to_string()).unwrap(), Some("3".to_string()));
    let mut store2 = reopen(&store);
    assert_eq!(store2.get("b".to_string()).unwrap(), Some("2".to_string()));
    assert_eq!(store2.get("c".to_string()).unwrap(), Some("3".to_string()));
}

#[test]
fn compaction_runs_when_threshold_crossed() {
    let mut store = open_empty();
    let big = "x".repeat(300 * 1024);
    for _ in 0..5 {
        store.set("k".to_string(), big.clone()).unwrap();
    }
    // Four superseded 300 KiB records crossed the 1 MiB threshold.
    assert_eq!(store.files().len(), 2);
    assert!(disk_bytes(&store) < 400 * 1024);
    assert_eq!(store.get("k".to_string()).unwrap(), Some(big));
    assert!(COMPACTION_THRESHOLD == 1024 * 1024);
}

#[test]
fn space_is_reclaimed() {
    let mut store = open_empty();
    let value = "v".repeat(200);
    for _round in 0..6 {
        for i in 0..10_000u32 {
            store.set(format!("{i}key"), value.clone()).unwrap();
        }
    }
    // 6 rounds of 10,000 200-byte values were written, but compaction keeps
    // the disk near one copy of the live data.
    assert!(disk_bytes(&store) < 10_000 * 200 * 2);
    let mut store2 = reopen(&store);
    assert_eq!(store2.get("9999key".to_string()).unwrap(), Some(value));
}

#[test]
fn generation_overflow_is_reported() {
    let r = KvStore::open(vec![LogFile { gen: u64::MAX, data: Vec::new() }]);
    assert!(matches!(r, Err(KvsError::GenerationOverflow)));
}

#[test]
fn unicode_round_trip() {
    let mut store = open_empty();
    store
        .set("schlüssel".to_string(), "wert-日本語".to_string())
        .unwrap();
    let mut store2 = reopen(&store);
    assert_eq!(
        store2.get("schlüssel".to_string()).unwrap(),
        Some("wert-日本語".to_string())
    );
}

#[test]
fn effects_describe_the_writes() {
    let mut store = open_empty();
    let mut effects = store.take_effects();
    assert_eq!(effects.len(), 1);
    assert!(matches!(effects[0], Effect::Create { gen: 1 }));
    store.set("k".to_string(), "v".to_string()).unwrap();
    effects = store.take_effects();
    assert_eq!(effects.len(), 1);
    match &effects[0] {
        Effect::Append { gen, data } => {
            assert_eq!(*gen, 1);
            assert_eq!(*data, encode_put(&b"k".to_vec(), &b"v".to_vec()));
        }
        _ => panic!("expected an append"),
    }
    // A failed remove writes nothing.
    assert_eq!(store.remove("absent".to_string()), Err(KvsError::KeyNotFound));
    assert!(store.take_effects().is_empty());
    // A successful remove appends one record.
    store.remove("k".to_string()).unwrap();
    effects = store.take_effects();
    assert_eq!(effects.len(), 1);
    assert!(matches!(&effects[0], Effect::Append { gen: 1, data: _ }));
}

#[test]
fn non_utf8_value_is_reported() {
    // A record whose value bytes are not valid UTF-8 can only come from a
    // hand-written log file; `get` must refuse to return it as a string.
    let data = encode_put(&b"k".to_vec(), &vec![0xff, 0xfe, 0x41]);
    let mut store = KvStore::open(vec![LogFile { gen: 1, data }]).unwrap();
    assert_eq!(store.get("k".to_string()), Err(KvsError::ValueNotUtf8));
}

#[test]
fn get_on_absent_key_is_none() {
    let mut store = open_empty();
    store.set("present".to_string(), "v".to_string()).unwrap();
    assert_eq!(store.get("absent".to_string()).unwrap(), None);
}
