use raft_kv::store::KvStore;

fn make_store() -> KvStore {
    let mut kv = KvStore::new();
    kv.set("user:1".into(), "alice".into());
    kv.set("user:2".into(), "bob".into());
    kv.set("user:3".into(), "carol".into());
    kv.set("config:host".into(), "localhost".into());
    kv.set("config:port".into(), "8080".into());
    kv
}

#[test]
fn test_new_store_is_empty() {
    let kv = KvStore::new();
    assert!(kv.is_empty());
    assert_eq!(kv.len(), 0);
}

#[test]
fn test_set_and_get() {
    let mut kv = KvStore::new();
    kv.set("foo".into(), "bar".into());
    assert_eq!(kv.get("foo"), Some(&"bar".to_string()));
}

#[test]
fn test_get_missing_key_returns_none() {
    let kv = KvStore::new();
    assert_eq!(kv.get("ghost"), None);
}

#[test]
fn test_overwrite_existing_key() {
    let mut kv = KvStore::new();
    kv.set("k".into(), "v1".into());
    kv.set("k".into(), "v2".into());
    assert_eq!(kv.get("k"), Some(&"v2".to_string()));
    assert_eq!(kv.len(), 1);
}

#[test]
fn test_delete_existing_key() {
    let mut kv = KvStore::new();
    kv.set("x".into(), "42".into());
    let old = kv.delete("x");
    assert_eq!(old, Some("42".to_string()));
    assert_eq!(kv.get("x"), None);
}

#[test]
fn test_delete_missing_key_returns_none() {
    let mut kv = KvStore::new();
    assert_eq!(kv.delete("nope"), None);
}

#[test]
fn test_len_and_is_empty() {
    let kv = make_store();
    assert!(!kv.is_empty());
    assert_eq!(kv.len(), 5);
}

#[test]
fn test_keys_returns_all_keys() {
    let kv = make_store();
    let mut keys: Vec<&String> = kv.keys();
    keys.sort();
    assert_eq!(
        keys,
        vec!["config:host", "config:port", "user:1", "user:2", "user:3"]
    );
}

#[test]
fn test_scan_prefix() {
    let kv = make_store();
    let results = kv.scan("user:");
    assert_eq!(results.len(), 3);
    assert_eq!(results[0], (&"user:1".to_string(), &"alice".to_string()));
    assert_eq!(results[1], (&"user:2".to_string(), &"bob".to_string()));
    assert_eq!(results[2], (&"user:3".to_string(), &"carol".to_string()));
}

#[test]
fn test_scan_no_match() {
    let kv = make_store();
    let results = kv.scan("nope:");
    assert!(results.is_empty());
}

#[test]
fn test_scan_empty_prefix_returns_all_sorted() {
    let kv = make_store();
    let results = kv.scan("");
    assert_eq!(results.len(), 5);
}
