use kvstore::batch::{delete_many, get_many, set_many};
use kvstore::store::open;

#[test]
fn get_many_on_missing_is_empty() {
    let mut store = open("default");
    delete_many(&mut store, &vec!["foo".to_string(), "foo2".to_string()]);
    let r = get_many(&store, &vec!["foo".to_string(), "foo2".to_string()]);
    assert!(r.is_empty());
}

#[test]
fn set_many_then_get_many() {
    let mut store = open("default");
    set_many(
        &mut store,
        &vec![
            ("foo".to_string(), b"valfoo".to_vec()),
            ("foo2".to_string(), b"valfoo2".to_vec()),
        ],
    );
    let r = get_many(&store, &vec!["foo".to_string(), "foo2".to_string()]);
    assert_eq!(
        r,
        vec![
            ("foo".to_string(), Some(b"valfoo".to_vec())),
            ("foo2".to_string(), Some(b"valfoo2".to_vec())),
        ]
    );
}

#[test]
fn get_many_omits_absent() {
    let mut store = open("default");
    store.set("k1", b"v1");
    store.set("k2", b"v2");
    let r = get_many(
        &store,
        &vec!["k1".to_string(), "k2".to_string(), "k3".to_string()],
    );
    // the absent key contributes no entry at all, not a (k3, None) pair
    assert_eq!(r.len(), 2);
    assert_eq!(
        r,
        vec![
            ("k1".to_string(), Some(b"v1".to_vec())),
            ("k2".to_string(), Some(b"v2".to_vec())),
        ]
    );
}

#[test]
fn delete_many_skips_absent() {
    let mut store = open("default");
    store.set("foo", b"valfoo");
    delete_many(&mut store, &vec!["foo".to_string(), "foo2".to_string()]);
    assert!(!store.contains("foo"));
    assert!(!store.contains("foo2"));
}

#[test]
fn set_many_last_write_wins_per_key() {
    let mut store = open("default");
    set_many(
        &mut store,
        &vec![
            ("foo".to_string(), b"one".to_vec()),
            ("foo".to_string(), b"two".to_vec()),
        ],
    );
    assert_eq!(store.get("foo"), Some(b"two".to_vec()));
}
