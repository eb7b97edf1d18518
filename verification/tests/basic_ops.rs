use kvstore::store::open;

#[test]
fn delete_absent_is_noop() {
    let mut store = open("default");
    store.delete("foo");
    assert!(!store.contains("foo"));
    assert_eq!(store.get("foo"), None);
    let (keys, next) = store.list_keys(None);
    assert!(keys.is_empty());
    assert_eq!(next, None);
}

#[test]
fn set_get_round_trip() {
    let mut store = open("default");
    store.set("foo", b"valfoo");
    assert!(store.contains("foo"));
    assert_eq!(store.get("foo"), Some(b"valfoo".to_vec()));
}

#[test]
fn set_overwrites() {
    let mut store = open("default");
    store.set("foo", b"one");
    store.set("foo", b"two");
    assert_eq!(store.get("foo"), Some(b"two".to_vec()));
}

#[test]
fn delete_removes() {
    let mut store = open("default");
    store.set("foo", b"valfoo");
    store.delete("foo");
    assert!(!store.contains("foo"));
    assert_eq!(store.get("foo"), None);
}

#[test]
fn deleted_key_starts_fresh() {
    let mut store = open("default");
    store.set("foo", b"one");
    store.delete("foo");
    assert!(!store.contains("foo"));
    store.set("foo", b"two");
    assert_eq!(store.get("foo"), Some(b"two".to_vec()));
}

#[test]
fn list_keys_snapshot() {
    let mut store = open("default");
    store.set("a", b"1");
    store.set("b", b"2");
    store.set("c", b"3");
    store.delete("b");
    let (mut keys, next) = store.list_keys(None);
    assert_eq!(next, None);
    keys.sort();
    assert_eq!(keys, vec!["a".to_string(), "c".to_string()]);
    // a pagination cursor is accepted; everything still comes in one page
    let (mut keys2, next2) = store.list_keys(Some(7));
    assert_eq!(next2, None);
    keys2.sort();
    assert_eq!(keys2, vec!["a".to_string(), "c".to_string()]);
}

#[test]
fn stores_are_independent() {
    let mut one = open("one");
    let two = open("two");
    one.set("foo", b"valfoo");
    assert!(one.contains("foo"));
    assert!(!two.contains("foo"));
}
