//! The client side of the request/response protocol: the request to send
//! for an operation, and what an answer means for the caller.
use crate::common::{GetResponse, RemoveResponse, Request, SetResponse};
use crate::error::Error;
use vstd::prelude::*;

verus! {

/// The request that asks for the value of `key`.
pub fn get_request(key: String) -> (req: Request)
    ensures
        req == (Request::Get { key }),
{
    Request::Get { key }
}

/// The request that asks to put `value` under `key`.
pub fn set_request(key: String, value: String) -> (req: Request)
    ensures
        req == (Request::Put { key, value }),
{
    Request::Put { key, value }
}

/// The request that asks to remove `key`.
pub fn remove_request(key: String) -> (req: Request)
    ensures
        req == (Request::Remove { key }),
{
    Request::Remove { key }
}

/// What the answer to a `Get` request means: the value found, or the
/// failure that the server reports.
pub fn get_result(resp: GetResponse) -> (r: Result<Option<String>, Error>)
    ensures
        match resp {
            GetResponse::Success(value) => r == Ok::<Option<String>, Error>(value),
            GetResponse::Failure(msg) => r == Err::<Option<String>, Error>(Error::StringError(msg)),
        },
{
    match resp {
        GetResponse::Success(value) => Ok(value),
        GetResponse::Failure(msg) => Err(Error::StringError(msg)),
    }
}

/// What the answer to a `Put` request means: success, or the failure that
/// the server reports.
pub fn set_result(resp: SetResponse) -> (r: Result<(), Error>)
    ensures
        match resp {
            SetResponse::Success(_) => r is Ok,
            SetResponse::Failure(msg) => r == Err::<(), Error>(Error::StringError(msg)),
        },
{
    match resp {
        SetResponse::Success(_) => Ok(()),
        SetResponse::Failure(msg) => Err(Error::StringError(msg)),
    }
}

/// What the answer to a `Remove` request means: success, or the failure
/// that the server reports.
pub fn remove_result(resp: RemoveResponse) -> (r: Result<(), Error>)
    ensures
        match resp {
            RemoveResponse::Success(_) => r is Ok,
            RemoveResponse::Failure(msg) => r == Err::<(), Error>(Error::StringError(msg)),
        },
{
    match resp {
        RemoveResponse::Success(_) => Ok(()),
        RemoveResponse::Failure(msg) => Err(Error::StringError(msg)),
    }
}

} // verus!
