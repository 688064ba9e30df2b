//! The server's part in one exchange: a request is handed to the engine, and
//! what the engine says becomes the response. An engine that fails is
//! reported to the client; the connection goes on.

use vstd::prelude::*;
use crate::engine::KvsEngine;
use crate::error::{message_of, KvsError};
use crate::model::{after_remove, after_set, answer, found, Held};
use crate::protocol::{GetResponse, RemoveResponse, Request, Response, SetResponse};
use crate::store::KvStore;

verus! {

/// The response to a request that binds a key, given what the engine said.
pub fn set_response(done: Result<(), KvsError>) -> (response: SetResponse)
    ensures
        match done {
            Ok(_) => response == SetResponse::Done(()),
            Err(err) => response matches SetResponse::Failed(text) && text@ == message_of(err),
        },
{
    match done {
        Ok(_) => SetResponse::Done(()),
        Err(err) => SetResponse::Failed(err.message()),
    }
}

/// The response to a request for a value, given what the engine said.
pub fn get_response(got: Result<Option<String>, KvsError>) -> (response: GetResponse)
    ensures
        match got {
            Ok(value) => response == GetResponse::Done(value),
            Err(err) => response matches GetResponse::Failed(text) && text@ == message_of(err),
        },
{
    match got {
        Ok(value) => GetResponse::Done(value),
        Err(err) => GetResponse::Failed(err.message()),
    }
}

/// The response to a request that drops a key, given what the engine said.
pub fn remove_response(done: Result<(), KvsError>) -> (response: RemoveResponse)
    ensures
        match done {
            Ok(_) => response == RemoveResponse::Done(()),
            Err(err) => response matches RemoveResponse::Failed(text) && text@ == message_of(
                err,
            ),
        },
{
    match done {
        Ok(_) => RemoveResponse::Done(()),
        Err(err) => RemoveResponse::Failed(err.message()),
    }
}

/// The response answers the request: it is of the kind of the request, and
/// where it reports success, the engine has done what was asked.
pub open spec fn answers(
    request: Request,
    response: Response,
    before: Held,
    after: Held,
) -> bool {
    match request {
        Request::Put { key, value } => {
            &&& response is Put
            &&& response->Put_0 is Done ==> after == after_set(before, key@, value@)
        },
        Request::Get { key } => {
            &&& response is Get
            &&& after == before
            &&& response->Get_0 matches GetResponse::Done(value) ==> answer(value) == found(
                before,
                key@,
            )
        },
        Request::Remove { key } => {
            &&& response is Remove
            &&& response->Remove_0 is Done ==> Some(after) == after_remove(before, key@)
        },
    }
}

/// Serves one request: the engine is called as the request says, and its
/// result is turned into the response.
pub fn serve<E: KvsEngine>(engine: &mut E, request: Request) -> (response: Response)
    requires
        old(engine).ready(),
    ensures
        final(engine).ready(),
        answers(request, response, old(engine).holds(), final(engine).holds()),
{
    match request {
        Request::Put { key, value } => Response::Put(set_response(engine.set(key, value))),
        Request::Get { key } => Response::Get(get_response(engine.get(key))),
        Request::Remove { key } => Response::Remove(remove_response(engine.remove(key))),
    }
}

/// Serves a request for the value of `key` from the log-structured store.
/// The store is only read, so requests of this kind need not wait for one
/// another.
pub fn read_store(store: &KvStore, key: String) -> (response: Response)
    requires
        store.wf(),
    ensures
        response matches Response::Get(GetResponse::Done(value)) && answer(value) == found(
            store@,
            key@,
        ),
{
    Response::Get(get_response(KvStore::get(store, key)))
}

/// Serves one request from the log-structured store, which fails at no
/// request but the removal of a key that it does not hold: a key is bound,
/// a value is found or not, a key is dropped, or `Key not found` is
/// reported and the store is as it was.
pub fn serve_store(store: &mut KvStore, request: Request) -> (response: Response)
    requires
        old(store).wf(),
    ensures
        final(store).wf(),
        match request {
            Request::Put { key, value } => response == Response::Put(SetResponse::Done(()))
                && final(store)@ == after_set(old(store)@, key@, value@),
            Request::Get { key } => response matches Response::Get(GetResponse::Done(value))
                && answer(value) == found(old(store)@, key@) && final(store).same_as(old(store)),
            Request::Remove { key } => if old(store)@.contains_key(key@) {
                response == Response::Remove(RemoveResponse::Done(())) && final(store)@ == old(
                    store,
                )@.remove(key@)
            } else {
                response matches Response::Remove(RemoveResponse::Failed(text)) && text@
                    == "Key not found"@ && final(store).same_as(old(store))
            },
        },
{
    match request {
        Request::Put { key, value } => {
            Response::Put(set_response(KvStore::set(store, key, value)))
        },
        Request::Get { key } => read_store(store, key),
        Request::Remove { key } => {
            Response::Remove(remove_response(KvStore::remove(store, key)))
        },
    }
}

} // verus!
