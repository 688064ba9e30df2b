//! The client's part in one exchange: it sends one request and reads one
//! response, which must be of the kind that answers the request.

use vstd::prelude::*;
use crate::error::KvsError;
use crate::protocol::{GetResponse, RemoveResponse, Request, Response, SetResponse};

verus! {

/// The request that asks for the value of `key`.
pub fn get_request(key: String) -> (request: Request)
    ensures
        request == (Request::Get { key }),
{
    Request::Get { key }
}

/// The request that binds `key` to `value`.
pub fn set_request(key: String, value: String) -> (request: Request)
    ensures
        request == (Request::Put { key, value }),
{
    Request::Put { key, value }
}

/// The request that drops `key`.
pub fn remove_request(key: String) -> (request: Request)
    ensures
        request == (Request::Remove { key }),
{
    Request::Remove { key }
}

/// What a client has from the response to a request for a value: the value
/// that the server found, the error that the server reports, or a protocol
/// error where the response is missing or of another kind.
pub fn get_result(response: Option<Response>) -> (got: Result<Option<String>, KvsError>)
    ensures
        match response {
            Some(Response::Get(GetResponse::Done(value))) => got == Ok::<
                Option<String>,
                KvsError,
            >(value),
            Some(Response::Get(GetResponse::Failed(text))) => got == Err::<
                Option<String>,
                KvsError,
            >(KvsError::StringError(text)),
            Some(_) => got matches Err(KvsError::Protocol(text)) && text@
                == "Invalid response"@,
            None => got matches Err(KvsError::Protocol(text)) && text@
                == "No response received"@,
        },
{
    match response {
        Some(Response::Get(GetResponse::Done(value))) => Ok(value),
        Some(Response::Get(GetResponse::Failed(text))) => Err(KvsError::StringError(text)),
        Some(_) => Err(KvsError::Protocol("Invalid response".to_owned())),
        None => Err(KvsError::Protocol("No response received".to_owned())),
    }
}

/// What a client has from the response to a request that binds a key.
pub fn set_result(response: Option<Response>) -> (done: Result<(), KvsError>)
    ensures
        match response {
            Some(Response::Put(SetResponse::Done(_))) => done is Ok,
            Some(Response::Put(SetResponse::Failed(text))) => done == Err::<(), KvsError>(
                KvsError::StringError(text),
            ),
            Some(_) => done matches Err(KvsError::Protocol(text)) && text@
                == "Invalid response"@,
            None => done matches Err(KvsError::Protocol(text)) && text@
                == "No response received"@,
        },
{
    match response {
        Some(Response::Put(SetResponse::Done(_))) => Ok(()),
        Some(Response::Put(SetResponse::Failed(text))) => Err(KvsError::StringError(text)),
        Some(_) => Err(KvsError::Protocol("Invalid response".to_owned())),
        None => Err(KvsError::Protocol("No response received".to_owned())),
    }
}

/// What a client has from the response to a request that drops a key.
pub fn remove_result(response: Option<Response>) -> (done: Result<(), KvsError>)
    ensures
        match response {
            Some(Response::Remove(RemoveResponse::Done(_))) => done is Ok,
            Some(Response::Remove(RemoveResponse::Failed(text))) => done == Err::<(), KvsError>(
                KvsError::StringError(text),
            ),
            Some(_) => done matches Err(KvsError::Protocol(text)) && text@
                == "Invalid response"@,
            None => done matches Err(KvsError::Protocol(text)) && text@
                == "No response received"@,
        },
{
    match response {
        Some(Response::Remove(RemoveResponse::Done(_))) => Ok(()),
        Some(Response::Remove(RemoveResponse::Failed(text))) => Err(KvsError::StringError(text)),
        Some(_) => Err(KvsError::Protocol("Invalid response".to_owned())),
        None => Err(KvsError::Protocol("No response received".to_owned())),
    }
}

} // verus!
