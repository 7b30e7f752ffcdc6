//! What the HTTP interface answers for each request on a store. Routing,
//! locking the shared store and the HTTP exchange happen outside this module.
use vstd::prelude::*;

use crate::error::Error;
use crate::item::{item_from_text, item_text, Item};
use crate::store::{after_add, lookup, Store};

verus! {

/// The HTTP status for a key that is not held.
pub const NOT_FOUND: u16 = 404;

/// The HTTP status for a store that failed.
pub const INTERNAL_SERVER_ERROR: u16 = 500;

/// `GET /{key}`: the text form of the value held under `key`, or
/// `NOT_FOUND`.
pub fn get_key(store: &Store, key: String) -> (r: Result<String, u16>)
    ensures
        match lookup(store@, key@) {
            Some(v) => r matches Ok(s) && s@ == item_text(v),
            None => r == Err::<String, u16>(NOT_FOUND),
        },
{
    if let Some(value) = store.get(key) {
        return Ok(value.to_string());
    }
    Err(NOT_FOUND)
}

/// `POST /{key}/{value}`: adds the value that the text `value` stands for
/// under `key`; a key already held keeps its value and is answered with
/// `INTERNAL_SERVER_ERROR`.
pub fn post_key(store: &mut Store, key: String, value: String) -> (r: Result<(), u16>)
    ensures
        r is Ok <==> !old(store)@.contains_key(key@),
        r is Err ==> r == Err::<(), u16>(INTERNAL_SERVER_ERROR),
        final(store)@ == after_add(old(store)@, key@, item_from_text(value@)),
{
    if let Err(_) = store.add(key, Item::from_string(value)) {
        return Err(INTERNAL_SERVER_ERROR);
    }
    Ok(())
}

/// `DELETE /{key}`: removes `key`, or answers `NOT_FOUND` where it is not
/// held.
pub fn delete_key(store: &mut Store, key: String) -> (r: Result<(), u16>)
    ensures
        r is Ok <==> old(store)@.contains_key(key@),
        r is Err ==> r == Err::<(), u16>(NOT_FOUND),
        final(store)@ == old(store)@.remove(key@),
{
    match store.delete(key) {
        Ok(_) => Ok(()),
        Err(Error::KeyNotFoundError) => Err(NOT_FOUND),
        Err(_) => Err(INTERNAL_SERVER_ERROR),
    }
}

} // verus!
