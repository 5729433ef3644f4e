use std::path::PathBuf;

use tplan_kv::KvStore;

#[test]
fn scenario_set_then_get() {
    let mut store = KvStore::new();
    store.set("a".to_string(), "1".to_string()).unwrap();
    assert_eq!(store.get("a".to_string()).unwrap(), Some("1".to_string()));
}

#[test]
fn scenario_get_on_empty_store() {
    let store = KvStore::new();
    assert_eq!(store.get("missing".to_string()).unwrap(), None);
}

#[test]
fn scenario_last_write_wins() {
    let mut store = KvStore::new();
    store.set("a".to_string(), "1".to_string()).unwrap();
    store.set("a".to_string(), "2".to_string()).unwrap();
    assert_eq!(store.get("a".to_string()).unwrap(), Some("2".to_string()));
}

#[test]
fn scenario_remove_then_get() {
    let mut store = KvStore::new();
    store.set("a".to_string(), "1".to_string()).unwrap();
    store.remove("a".to_string()).unwrap();
    assert_eq!(store.get("a".to_string()).unwrap(), None);
}

#[test]
fn scenario_remove_never_set() {
    let mut store = KvStore::new();
    assert!(store.remove("never-set".to_string()).is_ok());
}

#[test]
fn set_then_get_returns_value_for_many_keys() {
    let mut store = KvStore::new();
    let pairs = [
        ("key1", "value1"),
        ("key2", "value2"),
        ("a longer key with spaces", "a longer value with spaces"),
        ("", "value for the empty key"),
        ("key with empty value", ""),
    ];
    for (k, v) in pairs {
        store.set(k.to_string(), v.to_string()).unwrap();
        assert_eq!(store.get(k.to_string()).unwrap(), Some(v.to_string()));
    }
}

#[test]
fn fresh_store_reports_every_key_absent() {
    let store = KvStore::new();
    for k in ["", "a", "key", "another key"] {
        assert_eq!(store.get(k.to_string()).unwrap(), None);
    }
}

#[test]
fn open_yields_empty_store() {
    let store = KvStore::open(&PathBuf::from("some/backing/location")).unwrap();
    assert_eq!(store.get("a".to_string()).unwrap(), None);
}

#[test]
fn multiple_keys_coexist() {
    let mut store = KvStore::new();
    store.set("a".to_string(), "1".to_string()).unwrap();
    store.set("b".to_string(), "2".to_string()).unwrap();
    store.set("c".to_string(), "3".to_string()).unwrap();
    assert_eq!(store.get("a".to_string()).unwrap(), Some("1".to_string()));
    assert_eq!(store.get("b".to_string()).unwrap(), Some("2".to_string()));
    assert_eq!(store.get("c".to_string()).unwrap(), Some("3".to_string()));
}

#[test]
fn remove_deletes_only_its_key() {
    let mut store = KvStore::new();
    store.set("a".to_string(), "1".to_string()).unwrap();
    store.set("b".to_string(), "2".to_string()).unwrap();
    store.remove("a".to_string()).unwrap();
    assert_eq!(store.get("a".to_string()).unwrap(), None);
    assert_eq!(store.get("b".to_string()).unwrap(), Some("2".to_string()));
}

#[test]
fn set_after_remove_restores_key() {
    let mut store = KvStore::new();
    store.set("a".to_string(), "1".to_string()).unwrap();
    store.remove("a".to_string()).unwrap();
    store.set("a".to_string(), "3".to_string()).unwrap();
    assert_eq!(store.get("a".to_string()).unwrap(), Some("3".to_string()));
}

#[test]
fn remove_on_absent_key_leaves_store_unchanged() {
    let mut store = KvStore::new();
    store.set("a".to_string(), "1".to_string()).unwrap();
    store.remove("b".to_string()).unwrap();
    assert_eq!(store.get("a".to_string()).unwrap(), Some("1".to_string()));
    assert_eq!(store.get("b".to_string()).unwrap(), None);
}

#[test]
fn get_does_not_mutate_the_store() {
    let mut store = KvStore::new();
    store.set("a".to_string(), "1".to_string()).unwrap();
    assert_eq!(store.get("a".to_string()).unwrap(), Some("1".to_string()));
    assert_eq!(store.get("missing".to_string()).unwrap(), None);
    assert_eq!(store.get("a".to_string()).unwrap(), Some("1".to_string()));
}

#[test]
fn many_overwrites_keep_only_the_last() {
    let mut store = KvStore::new();
    for i in 0..10 {
        store.set("counter".to_string(), format!("{}", i)).unwrap();
    }
    assert_eq!(
        store.get("counter".to_string()).unwrap(),
        Some("9".to_string())
    );
}
