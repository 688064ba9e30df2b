//! What a storage engine offers to a server.

use vstd::prelude::*;
use crate::error::KvsError;
use crate::model::{after_remove, after_set, answer, found, Held};
use crate::store::KvStore;

verus! {

/// A key-value storage engine.
///
/// An engine may fail at any call. What it promises is what a call that
/// succeeded has done.
pub trait KvsEngine {
    /// The engine is fit for use.
    spec fn ready(&self) -> bool;

    /// What the engine holds: the value of each key.
    spec fn holds(&self) -> Held;

    /// Binds `key` to `value`. A value that the key had before is lost.
    fn set(&mut self, key: String, value: String) -> (done: Result<(), KvsError>)
        requires
            old(self).ready(),
        ensures
            final(self).ready(),
            done is Ok ==> final(self).holds() == after_set(old(self).holds(), key@, value@),
    ;

    /// The value of `key`, or `None` where the engine has no such key.
    fn get(&mut self, key: String) -> (got: Result<Option<String>, KvsError>)
        requires
            old(self).ready(),
        ensures
            final(self).ready(),
            final(self).holds() == old(self).holds(),
            got matches Ok(value) ==> answer(value) == found(old(self).holds(), key@),
    ;

    /// Drops `key`. Fails with `KeyNotFound` where the engine has no such
    /// key.
    fn remove(&mut self, key: String) -> (done: Result<(), KvsError>)
        requires
            old(self).ready(),
        ensures
            final(self).ready(),
            done is Ok ==> Some(final(self).holds()) == after_remove(old(self).holds(), key@),
            done matches Err(KvsError::KeyNotFound) ==> after_remove(old(self).holds(), key@)
                is None && final(self).holds() == old(self).holds(),
    ;
}

impl KvsEngine for KvStore {
    open spec fn ready(&self) -> bool {
        self.wf()
    }

    open spec fn holds(&self) -> Held {
        self@
    }

    fn set(&mut self, key: String, value: String) -> (done: Result<(), KvsError>)
        ensures
            done is Ok,
    {
        KvStore::set(self, key, value)
    }

    fn get(&mut self, key: String) -> (got: Result<Option<String>, KvsError>)
        ensures
            got is Ok,
    {
        KvStore::get(self, key)
    }

    fn remove(&mut self, key: String) -> (done: Result<(), KvsError>)
        ensures
            after_remove(old(self).holds(), key@) is Some <==> done is Ok,
            after_remove(old(self).holds(), key@) is None <==> done matches Err(
                KvsError::KeyNotFound,
            ),
    {
        KvStore::remove(self, key)
    }
}

} // verus!
