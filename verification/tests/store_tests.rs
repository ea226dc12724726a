use drum::Error;
use drum::KVStore;
use drum::Store;

#[test]
fn insert_remove() {
    let buffer: Vec<u8> = Vec::new();
    let mut store: Store = Store::new(buffer);
    store.insert(String::from("foo"), 100).unwrap();
    assert_eq!(store.get(&String::from("foo")).unwrap().unwrap(), 100);
    store.remove(&String::from("foo")).unwrap();
    match store.get(&String::from("foo")).unwrap() {
        None => assert!(true),
        Some(_) => assert!(false),
    }
}

#[test]
fn multiple_insert() {
    let buffer: Vec<u8> = Vec::new();
    let mut store: Store = Store::new(buffer);
    store.insert(String::from("foo"), 100).unwrap();
    store.insert(String::from("bar"), 200).unwrap();
    assert_eq!(store.get(&String::from("foo")).unwrap().unwrap(), 100);
}

#[test]
fn keys() {
    let buffer: Vec<u8> = Vec::new();
    let mut store: Store = Store::new(buffer);
    store.insert(String::from("foo"), 50).unwrap();
    for key in store.keys() {
        assert_eq!(key, String::from("foo"));
    }
}

#[test]
fn reopen() {
    let mut buffer: Vec<u8> = Vec::new();
    {
        let mut store: Store = Store::new(buffer);
        store.insert(String::from("foo"), 50).unwrap();
        buffer = store.into_inner();
    }

    let store: Store = Store::reopen(buffer).unwrap();

    for key in store.keys() {
        assert_eq!(key, String::from("foo"));
    }

    assert_eq!(store.get(&String::from("foo")).unwrap().unwrap(), 50);
}

#[test]
fn overwrite_returns_previous() {
    let mut store = Store::new(Vec::new());
    assert_eq!(store.insert(String::from("foo"), 1).unwrap(), None);
    assert_eq!(store.insert(String::from("foo"), 2).unwrap(), Some(1));
    assert_eq!(store.get(&String::from("foo")).unwrap(), Some(2));
}

#[test]
fn single_key_lifecycle() {
    let mut store = Store::new(Vec::new());
    store.insert(String::from("foo"), 50).unwrap();
    assert_eq!(store.keys(), vec![String::from("foo")]);
    assert_eq!(store.get(&String::from("foo")).unwrap(), Some(50));
    assert_eq!(store.remove(&String::from("foo")).unwrap(), Some(50));
    assert_eq!(store.get(&String::from("foo")).unwrap(), None);
    assert_eq!(store.keys(), Vec::<String>::new());
}

#[test]
fn distinct_keys_do_not_interfere() {
    let mut store = Store::new(Vec::new());
    store.insert(String::from("foo"), 100).unwrap();
    store.insert(String::from("bar"), 200).unwrap();
    assert_eq!(store.get(&String::from("foo")).unwrap(), Some(100));
    assert_eq!(store.get(&String::from("bar")).unwrap(), Some(200));
    assert_eq!(store.remove(&String::from("bar")).unwrap(), Some(200));
    assert_eq!(store.get(&String::from("foo")).unwrap(), Some(100));
}

#[test]
fn persistence_either_insertion_order() {
    let mut first = Store::new(Vec::new());
    first.insert(String::from("a"), 1).unwrap();
    first.insert(String::from("b"), 2).unwrap();
    first.insert(String::from("c"), 3).unwrap();

    let mut second = Store::new(Vec::new());
    second.insert(String::from("c"), 3).unwrap();
    second.insert(String::from("b"), 2).unwrap();
    second.insert(String::from("a"), 1).unwrap();

    for bytes in [first.into_inner(), second.into_inner()] {
        let reopened = Store::reopen(bytes).unwrap();
        let mut ks = reopened.keys();
        ks.sort();
        assert_eq!(
            ks,
            vec![String::from("a"), String::from("b"), String::from("c")]
        );
        assert_eq!(reopened.get(&String::from("a")).unwrap(), Some(1));
        assert_eq!(reopened.get(&String::from("b")).unwrap(), Some(2));
        assert_eq!(reopened.get(&String::from("c")).unwrap(), Some(3));
    }
}

#[test]
fn reopen_observes_then_overwrites() {
    let mut store = Store::new(Vec::new());
    store.insert(String::from("foo"), 100).unwrap();
    let bytes = store.into_inner();

    let mut reopened = Store::reopen(bytes).unwrap();
    assert_eq!(reopened.get(&String::from("foo")).unwrap(), Some(100));
    assert_eq!(reopened.insert(String::from("foo"), 200).unwrap(), Some(100));
    assert_eq!(reopened.get(&String::from("foo")).unwrap(), Some(200));
}

#[test]
fn reopen_twice_yields_identical_contents() {
    let mut store = Store::new(Vec::new());
    store.insert(String::from("one"), 1).unwrap();
    store.insert(String::from("two"), 2).unwrap();
    store.insert(String::from("one"), 11).unwrap();
    let bytes = store.into_inner();

    let r1 = Store::reopen(bytes.clone()).unwrap();
    let r2 = Store::reopen(bytes).unwrap();
    assert_eq!(r1.keys(), r2.keys());
    for key in r1.keys() {
        assert_eq!(r1.get(&key).unwrap(), r2.get(&key).unwrap());
    }
    assert_eq!(r1.get(&String::from("one")).unwrap(), Some(11));
    assert_eq!(r2.get(&String::from("two")).unwrap(), Some(2));
}

#[test]
fn reopen_empty_bytes_is_fresh_store() {
    let store = Store::reopen(Vec::new()).unwrap();
    assert_eq!(store.keys(), Vec::<String>::new());
    assert_eq!(store.get(&String::from("foo")).unwrap(), None);
}

#[test]
fn reopen_garbage_fails() {
    let err = match Store::reopen(vec![1, 2, 3]) {
        Ok(_) => panic!("garbage bytes must not reopen"),
        Err(e) => e,
    };
    assert_eq!(err, Error::RebuildError);
}

#[test]
fn reopen_truncated_log_fails() {
    let mut store = Store::new(Vec::new());
    store.insert(String::from("foo"), 7).unwrap();
    let mut bytes = store.into_inner();
    bytes.pop();
    let err = match Store::reopen(bytes) {
        Ok(_) => panic!("a truncated log must not reopen"),
        Err(e) => e,
    };
    assert_eq!(err, Error::RebuildError);
}

#[test]
fn reopen_trailing_bytes_fail() {
    let mut store = Store::new(Vec::new());
    store.insert(String::from("foo"), 7).unwrap();
    let mut bytes = store.into_inner();
    bytes.push(0);
    let err = match Store::reopen(bytes) {
        Ok(_) => panic!("trailing bytes must not reopen"),
        Err(e) => e,
    };
    assert_eq!(err, Error::RebuildError);
}

#[test]
fn removal_is_not_persisted() {
    // A remove is a pure index-level delete: no tombstone reaches the log,
    // so replaying the unchanged bytes brings the record back.
    let mut store = Store::new(Vec::new());
    store.insert(String::from("foo"), 9).unwrap();
    assert_eq!(store.remove(&String::from("foo")).unwrap(), Some(9));
    let bytes = store.into_inner();
    let reopened = Store::reopen(bytes).unwrap();
    assert_eq!(reopened.get(&String::from("foo")).unwrap(), Some(9));
}

#[test]
fn non_ascii_key_roundtrip() {
    let mut store = Store::new(Vec::new());
    store.insert(String::from("clé däta"), 42).unwrap();
    let bytes = store.into_inner();
    let reopened = Store::reopen(bytes).unwrap();
    assert_eq!(reopened.get(&String::from("clé däta")).unwrap(), Some(42));
    assert_eq!(reopened.keys(), vec![String::from("clé däta")]);
}

#[test]
fn empty_key_roundtrip() {
    let mut store = Store::new(Vec::new());
    store.insert(String::new(), 5).unwrap();
    let bytes = store.into_inner();
    let reopened = Store::reopen(bytes).unwrap();
    assert_eq!(reopened.get(&String::new()).unwrap(), Some(5));
}

#[test]
fn log_grows_only_by_appends() {
    // The log starts empty, gains the header with the first insert, and
    // afterwards only ever grows; a remove does not shrink it.
    let mut store = Store::new(Vec::new());
    store.insert(String::from("k"), 1).unwrap();
    let bytes = store.into_inner();
    let first_len = bytes.len();
    assert!(first_len > 8);

    let mut store = Store::reopen(bytes).unwrap();
    store.insert(String::from("k"), 2).unwrap();
    let bytes = store.into_inner();
    assert!(bytes.len() > first_len);

    let mut store = Store::reopen(bytes).unwrap();
    let len_before = store.keys().len();
    assert_eq!(len_before, 1);
    store.remove(&String::from("k")).unwrap();
    let bytes = store.into_inner();
    assert!(bytes.len() > first_len);
}

#[test]
fn trait_calls_reach_the_store() {
    let mut store = Store::new(Vec::new());
    KVStore::insert(&mut store, String::from("foo"), 1).unwrap();
    assert_eq!(KVStore::get(&store, &String::from("foo")).unwrap(), Some(1));
    assert_eq!(KVStore::keys(&store), vec![String::from("foo")]);
    assert_eq!(
        KVStore::remove(&mut store, &String::from("foo")).unwrap(),
        Some(1)
    );
    assert_eq!(KVStore::get(&store, &String::from("foo")).unwrap(), None);
}
