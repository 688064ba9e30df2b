//! The ways in which an operation of the store can fail.

use vstd::prelude::*;

verus! {

/// An error of the store, of a server or of a client.
#[derive(Debug)]
pub enum KvsError {
    /// The file system or the network failed; the text says how.
    Io(String),
    /// A log holds bytes that are no record, or a record of the wrong kind
    /// stands where the index points.
    CorruptLog,
    /// A stored value is not UTF-8.
    CorruptValue,
    /// The key to remove is not in the store.
    KeyNotFound,
    /// A peer sent what the protocol does not allow; the text says what.
    Protocol(String),
    /// The directory was written by another engine than the one asked for.
    EngineMismatch,
    /// The server reported the error that the text gives.
    StringError(String),
}

/// The text shown for each error.
pub open spec fn message_of(err: KvsError) -> Seq<char> {
    match err {
        KvsError::Io(text) => text@,
        KvsError::CorruptLog => "Corrupt log"@,
        KvsError::CorruptValue => "Corrupt value"@,
        KvsError::KeyNotFound => "Key not found"@,
        KvsError::Protocol(text) => text@,
        KvsError::EngineMismatch => "Wrong engine!"@,
        KvsError::StringError(text) => text@,
    }
}

impl KvsError {
    /// The text to show for this error.
    pub fn message(&self) -> (text: String)
        ensures
            text@ == message_of(*self),
    {
        match self {
            KvsError::Io(text) => text.clone(),
            KvsError::CorruptLog => "Corrupt log".to_owned(),
            KvsError::CorruptValue => "Corrupt value".to_owned(),
            KvsError::KeyNotFound => "Key not found".to_owned(),
            KvsError::Protocol(text) => text.clone(),
            KvsError::EngineMismatch => "Wrong engine!".to_owned(),
            KvsError::StringError(text) => text.clone(),
        }
    }
}

} // verus!
