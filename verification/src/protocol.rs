//! What travels between a client and a server: one request, then one
//! response of the kind that answers it.

use vstd::prelude::*;

verus! {

/// A command that a client sends.
#[derive(Debug)]
pub enum Request {
    /// Bind `key` to `value`.
    Put { key: String, value: String },
    /// Ask for the value of `key`.
    Get { key: String },
    /// Drop `key`.
    Remove { key: String },
}

/// The answer to a request that binds a key.
#[derive(Debug)]
pub enum SetResponse {
    /// The key is bound.
    Done(()),
    /// The engine failed; the text says how.
    Failed(String),
}

/// The answer to a request for a value.
#[derive(Debug)]
pub enum GetResponse {
    /// The value of the key, or `None` where the store has no such key.
    Done(Option<String>),
    /// The engine failed; the text says how.
    Failed(String),
}

/// The answer to a request that drops a key.
#[derive(Debug)]
pub enum RemoveResponse {
    /// The key is dropped.
    Done(()),
    /// The engine failed; the text says how.
    Failed(String),
}

/// A response of any of the three kinds.
#[derive(Debug)]
pub enum Response {
    /// Answers `Request::Put`.
    Put(SetResponse),
    /// Answers `Request::Get`.
    Get(GetResponse),
    /// Answers `Request::Remove`.
    Remove(RemoveResponse),
}

} // verus!
