//! The part of the tree-backed engine that is no call into the tree: what the
//! answers of the tree mean to a client of the engine.

use vstd::prelude::*;
use vstd::utf8::{encode_utf8, valid_utf8};
use crate::codec::text_from_utf8;
use crate::error::KvsError;

verus! {

/// The bytes that the tree stores for a value.
pub fn value_bytes(value: String) -> (bytes: Vec<u8>)
    ensures
        bytes@ == encode_utf8(value@),
{
    value.as_str().as_bytes_vec()
}

/// What `get` answers, given what the tree holds for the key: the text of
/// the bytes, `None` for no entry, and `CorruptValue` for bytes that are no
/// UTF-8.
pub fn get_result(found: Option<Vec<u8>>) -> (got: Result<Option<String>, KvsError>)
    ensures
        match found {
            None => got matches Ok(None),
            Some(bytes) => if valid_utf8(bytes@) {
                got matches Ok(Some(value)) && encode_utf8(value@) == bytes@
            } else {
                got matches Err(KvsError::CorruptValue)
            },
        },
{
    match found {
        None => Ok(None),
        Some(bytes) => match text_from_utf8(bytes) {
            Some(value) => Ok(Some(value)),
            None => Err(KvsError::CorruptValue),
        },
    }
}

/// What `remove` answers, given the entry that the tree took out: success,
/// or `KeyNotFound` where the tree had no entry for the key.
pub fn remove_result(removed: Option<Vec<u8>>) -> (done: Result<(), KvsError>)
    ensures
        match removed {
            Some(_) => done is Ok,
            None => done matches Err(KvsError::KeyNotFound),
        },
{
    match removed {
        Some(_) => Ok(()),
        None => Err(KvsError::KeyNotFound),
    }
}

} // verus!
