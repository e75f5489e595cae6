use learn_words::storage::LocalStorage;

#[test]
fn set_then_get_returns_the_value() {
    let mut storage = LocalStorage::new();
    storage.set("learn_words_data", "abc");
    assert_eq!(storage.get("learn_words_data"), Some("abc".to_string()));
    assert_eq!(storage.get("other"), None);
    assert_eq!(storage.len(), 1);
}

#[test]
fn set_replaces_the_value_of_a_stored_key() {
    let mut storage = LocalStorage::new();
    storage.set("a", "1");
    storage.set("b", "2");
    storage.set("a", "3");
    assert_eq!(storage.len(), 2);
    assert_eq!(storage.get("a"), Some("3".to_string()));
    assert_eq!(storage.key(0), Some("a".to_string()));
    assert_eq!(storage.key(1), Some("b".to_string()));
    assert_eq!(storage.key(2), None);
}

#[test]
fn remove_drops_only_the_named_key() {
    let mut storage = LocalStorage::new();
    storage.set("a", "1");
    storage.set("b", "2");
    storage.set("c", "3");
    storage.remove("b");
    assert_eq!(storage.len(), 2);
    assert_eq!(storage.get("b"), None);
    assert_eq!(storage.key(0), Some("a".to_string()));
    assert_eq!(storage.key(1), Some("c".to_string()));
    storage.remove("missing");
    assert_eq!(storage.len(), 2);
}

#[test]
fn clear_empties_the_storage() {
    let mut storage = LocalStorage::new();
    storage.set("a", "1");
    storage.set("b", "2");
    storage.clear();
    assert_eq!(storage.len(), 0);
    assert_eq!(storage.key(0), None);
    assert_eq!(storage.get("a"), None);
}
