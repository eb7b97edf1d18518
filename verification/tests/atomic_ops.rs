use kvstore::atomics::{increment, swap, Cas, CasError};
use kvstore::codec::{decode_value, encode_value};
use kvstore::store::{open, Error};

#[test]
fn increment_twice_from_absent() {
    let mut store = open("default");
    assert_eq!(increment(&mut store, "foo", 1), Ok(1));
    assert_eq!(increment(&mut store, "foo", 1), Ok(2));
}

#[test]
fn increment_by_delta() {
    let mut store = open("default");
    assert_eq!(increment(&mut store, "n", -5), Ok(-5));
    assert_eq!(increment(&mut store, "n", 12), Ok(7));
}

#[test]
fn increment_stores_little_endian_bytes() {
    let mut store = open("default");
    assert_eq!(increment(&mut store, "n", 1), Ok(1));
    assert_eq!(store.get("n"), Some(vec![1, 0, 0, 0, 0, 0, 0, 0]));
    assert_eq!(increment(&mut store, "m", -1), Ok(-1));
    assert_eq!(store.get("m"), Some(vec![0xff; 8]));
}

#[test]
fn increment_wraps_like_i64() {
    let mut store = open("default");
    assert_eq!(increment(&mut store, "n", i64::MAX), Ok(i64::MAX));
    assert_eq!(increment(&mut store, "n", 1), Ok(i64::MIN));
}

#[test]
fn increment_type_mismatch() {
    let mut store = open("default");
    store.set("foo", b"not a number");
    assert_eq!(increment(&mut store, "foo", 1), Err(Error::TypeMismatch));
    // the failed increment leaves the record untouched
    assert_eq!(store.get("foo"), Some(b"not a number".to_vec()));
}

#[test]
fn codec_exact_bytes() {
    assert_eq!(encode_value(1), vec![1, 0, 0, 0, 0, 0, 0, 0]);
    assert_eq!(encode_value(-1), vec![0xff; 8]);
    assert_eq!(
        encode_value(0x0102030405060708),
        vec![8, 7, 6, 5, 4, 3, 2, 1]
    );
    assert_eq!(decode_value(&[8, 7, 6, 5, 4, 3, 2, 1]), Some(0x0102030405060708));
    assert_eq!(decode_value(&[1, 2, 3]), None);
    assert_eq!(decode_value(&[]), None);
    assert_eq!(decode_value(&encode_value(i64::MIN)), Some(i64::MIN));
    assert_eq!(decode_value(&encode_value(i64::MAX)), Some(i64::MAX));
}

#[test]
fn blind_swap_race_both_succeed() {
    let mut store = open("default");
    store.delete("foo");
    let cas1 = Cas::new(&store, "foo");
    let cas2 = Cas::new(&store, "foo");
    assert!(swap(cas1, &mut store, b"valfoo").is_ok());
    assert!(swap(cas2, &mut store, b"valfoo2").is_ok());
    // last write wins, by commit order
    assert_eq!(store.get("foo"), Some(b"valfoo2".to_vec()));
}

#[test]
fn blind_swap_race_on_existing_key() {
    let mut store = open("default");
    store.set("foo", b"valfoo");
    let cas1 = Cas::new(&store, "foo");
    let cas2 = Cas::new(&store, "foo");
    assert!(swap(cas1, &mut store, b"valfoo").is_ok());
    assert!(swap(cas2, &mut store, b"valfoo2").is_ok());
    assert_eq!(store.get("foo"), Some(b"valfoo2".to_vec()));
}

#[test]
fn versioned_race_one_succeeds() {
    let mut store = open("default");
    store.set("foo", b"valfoo");
    let mut cas1 = Cas::new(&store, "foo");
    let mut cas2 = Cas::new(&store, "foo");
    assert_eq!(cas1.current(&store), Ok(Some(b"valfoo".to_vec())));
    assert_eq!(cas2.current(&store), Ok(Some(b"valfoo".to_vec())));
    assert!(swap(cas1, &mut store, b"one").is_ok());
    let res = swap(cas2, &mut store, b"two");
    match res {
        Err(CasError::CasFailed(refreshed)) => {
            // the retry with the refreshed handle succeeds
            assert!(swap(refreshed, &mut store, b"two").is_ok());
            assert_eq!(store.get("foo"), Some(b"two".to_vec()));
        }
        _ => panic!("second swap must fail with CasFailed"),
    }
}

#[test]
fn versioned_race_loser_leaves_store_untouched() {
    let mut store = open("default");
    store.set("foo", b"valfoo");
    let mut cas1 = Cas::new(&store, "foo");
    let mut cas2 = Cas::new(&store, "foo");
    assert_eq!(cas1.current(&store), Ok(Some(b"valfoo".to_vec())));
    assert_eq!(cas2.current(&store), Ok(Some(b"valfoo".to_vec())));
    assert!(swap(cas1, &mut store, b"one").is_ok());
    assert!(swap(cas2, &mut store, b"two").is_err());
    assert_eq!(store.get("foo"), Some(b"one".to_vec()));
}

#[test]
fn absent_capture_race() {
    let mut store = open("default");
    store.delete("foo");
    let mut cas1 = Cas::new(&store, "foo");
    let mut cas2 = Cas::new(&store, "foo");
    assert_eq!(cas1.current(&store), Ok(None));
    assert_eq!(cas2.current(&store), Ok(None));
    assert!(swap(cas1, &mut store, b"valfoo").is_ok());
    let res = swap(cas2, &mut store, b"valfoo2");
    match res {
        Err(CasError::CasFailed(mut refreshed)) => {
            // the refreshed handle has captured the first swap's write
            assert_eq!(refreshed.current(&store), Ok(Some(b"valfoo".to_vec())));
            assert!(swap(refreshed, &mut store, b"valfoo2").is_ok());
            assert_eq!(store.get("foo"), Some(b"valfoo2".to_vec()));
        }
        _ => panic!("second swap must fail with CasFailed"),
    }
}

#[test]
fn capture_is_immutable_once_read() {
    let mut store = open("default");
    store.set("foo", b"old");
    let mut cas = Cas::new(&store, "foo");
    assert_eq!(cas.current(&store), Ok(Some(b"old".to_vec())));
    store.set("foo", b"new");
    // the handle keeps the state it captured, not the store's new state
    assert_eq!(cas.current(&store), Ok(Some(b"old".to_vec())));
    // and its swap fails, because the captured version is stale
    assert!(swap(cas, &mut store, b"other").is_err());
}

#[test]
fn swap_after_delete_of_captured_key_fails() {
    let mut store = open("default");
    store.set("foo", b"valfoo");
    let mut cas = Cas::new(&store, "foo");
    assert_eq!(cas.current(&store), Ok(Some(b"valfoo".to_vec())));
    store.delete("foo");
    let res = swap(cas, &mut store, b"next");
    match res {
        Err(CasError::CasFailed(mut refreshed)) => {
            assert_eq!(refreshed.current(&store), Ok(None));
            assert!(swap(refreshed, &mut store, b"next").is_ok());
            assert_eq!(store.get("foo"), Some(b"next".to_vec()));
        }
        _ => panic!("swap against a deleted capture must fail with CasFailed"),
    }
}
