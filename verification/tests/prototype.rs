use kvs::mem::KvStore;

#[test]
fn prototype_set_and_get() {
    let mut store = KvStore::new();
    store.set("key".to_string(), "value".to_string());
    assert_eq!(store.get("key".to_string()), Some("value".to_string()));
    assert_eq!(store.get("other".to_string()), None);
}

#[test]
fn prototype_overwrite() {
    let mut store = KvStore::new();
    store.set("key".to_string(), "one".to_string());
    store.set("key".to_string(), "two".to_string());
    assert_eq!(store.get("key".to_string()), Some("two".to_string()));
}

#[test]
fn prototype_remove() {
    let mut store = KvStore::new();
    store.set("key".to_string(), "value".to_string());
    store.remove("key".to_string());
    assert_eq!(store.get("key".to_string()), None);
    // Removing an absent key is a no-op for the prototype.
    store.remove("key".to_string());
    assert_eq!(store.get("key".to_string()), None);
}
