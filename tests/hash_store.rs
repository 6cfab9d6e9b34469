use logsentry::hash_store::{are_dictionaries_updated, HashStore};

fn strings(v: &[&str]) -> Vec<String> {
    v.iter().map(|s| s.to_string()).collect()
}

#[test]
fn missing_record_is_stale() {
    let store = HashStore::new();
    assert!(are_dictionaries_updated(&store, &strings(&["malicious_logs.txt"]), &strings(&["42"])));
}

#[test]
fn saved_hashes_are_not_stale() {
    let mut store = HashStore::new();
    let names = strings(&["m1", "m2"]);
    let hashes = strings(&["111", "222"]);
    store.save_hashes(&names, &hashes);
    assert!(!are_dictionaries_updated(&store, &names, &hashes));
}

#[test]
fn changed_hash_is_stale() {
    let mut store = HashStore::new();
    let names = strings(&["m1", "m2"]);
    store.save_hashes(&names, &strings(&["111", "222"]));
    assert!(are_dictionaries_updated(&store, &names, &strings(&["111", "223"])));
    assert!(are_dictionaries_updated(&store, &strings(&["m1", "m3"]), &strings(&["111", "222"])));
}

#[test]
fn record_is_overwritten() {
    let mut store = HashStore::new();
    store.set("f", "1");
    store.set("f", "2");
    assert_eq!(store.get("f"), Some("2".to_string()));
    assert_eq!(store.get("g"), None);
    assert!(!are_dictionaries_updated(&store, &strings(&[]), &strings(&[])));
}
