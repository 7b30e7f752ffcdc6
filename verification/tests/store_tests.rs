use mem_store_rs::error::Error;
use mem_store_rs::store::{Item, Store};

fn s(x: &str) -> String {
    x.to_string()
}

#[test]
fn new_store_is_empty() {
    let store = Store::new();
    assert!(store.get(s("k")).is_none());
}

#[test]
fn get_after_add() {
    let mut store = Store::new();
    assert_eq!(store.add(s("k"), Item::String(s("v"))), Ok(()));
    assert_eq!(store.get(s("k")), Some(&Item::String(s("v"))));
}

#[test]
fn first_add_wins() {
    let mut store = Store::new();
    store.add(s("k"), Item::String(s("first"))).unwrap();
    assert_eq!(store.add(s("k"), Item::String(s("second"))), Err(Error::StoreSetError));
    assert_eq!(store.get(s("k")), Some(&Item::String(s("first"))));
}

#[test]
fn add_keeps_other_keys() {
    let mut store = Store::new();
    store.add(s("a"), Item::String(s("1"))).unwrap();
    store.add(s("b"), Item::List(vec![s("x"), s("y")])).unwrap();
    assert_eq!(store.get(s("a")), Some(&Item::String(s("1"))));
    assert_eq!(store.get(s("b")), Some(&Item::List(vec![s("x"), s("y")])));
}

#[test]
fn delete_removes_key() {
    let mut store = Store::new();
    store.add(s("a"), Item::String(s("1"))).unwrap();
    store.add(s("b"), Item::String(s("2"))).unwrap();
    assert_eq!(store.delete(s("a")), Ok(()));
    assert!(store.get(s("a")).is_none());
    assert_eq!(store.get(s("b")), Some(&Item::String(s("2"))));
}

#[test]
fn delete_missing_key_fails() {
    let mut store = Store::new();
    assert_eq!(store.delete(s("a")), Err(Error::KeyNotFoundError));
}

#[test]
fn delete_undoes_add() {
    let mut store = Store::new();
    store.add(s("a"), Item::String(s("1"))).unwrap();
    store.delete(s("a")).unwrap();
    assert!(store.get(s("a")).is_none());
    assert_eq!(store.delete(s("a")), Err(Error::KeyNotFoundError));
    store.add(s("a"), Item::String(s("2"))).unwrap();
    assert_eq!(store.get(s("a")), Some(&Item::String(s("2"))));
}

#[test]
fn clone_keeps_entries() {
    let mut store = Store::new();
    store.add(s("a"), Item::String(s("1"))).unwrap();
    let copy = store.clone();
    assert_eq!(copy.get(s("a")), Some(&Item::String(s("1"))));
}
