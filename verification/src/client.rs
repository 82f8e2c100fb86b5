use vstd::prelude::*;

use crate::error::RustVaultError;
use crate::protocol::{Response, ResponseModel};

verus! {

// ---------------------------------------------------------------------------
// The client's reading of a reply
//
// A client sends one command and reads one response line. What the response
// means depends on the operation: these functions turn the reply into the
// operation's result, and reject replies the operation cannot produce.
// ---------------------------------------------------------------------------

/// What a `SET` learns from the reply: acknowledged, refused by the server,
/// or not an answer to a `SET` at all.
pub fn set_outcome(response: Response) -> (r: Result<(), RustVaultError>)
    ensures
        match response@ {
            ResponseModel::Okay => r is Ok,
            ResponseModel::Error(e) => r matches Err(err) && err matches RustVaultError::Server(m)
                && m@ == e,
            _ => r matches Err(err) && err matches RustVaultError::Protocol(m) && m@
                == "Unexpected response for SET"@,
        },
{
    match response {
        Response::Okay => Ok(()),
        Response::Error(e) => Err(RustVaultError::Server(e)),
        _ => Err(RustVaultError::Protocol("Unexpected response for SET".to_owned())),
    }
}

/// What a `GET` learns from the reply: the value, its absence, a server
/// failure, or a reply a `GET` cannot produce.
pub fn get_outcome(response: Response) -> (r: Result<Option<String>, RustVaultError>)
    ensures
        match response@ {
            ResponseModel::Value(v) => r matches Ok(opt) && opt matches Some(value) && value@
                == v,
            ResponseModel::NotFound => r matches Ok(opt) && opt is None,
            ResponseModel::Error(e) => r matches Err(err) && err matches RustVaultError::Server(m)
                && m@ == e,
            ResponseModel::Okay => r matches Err(err) && err matches RustVaultError::Protocol(m)
                && m@ == "Unexpected response for GET"@,
        },
{
    match response {
        Response::Value(value) => Ok(Some(value)),
        Response::NotFound => Ok(None),
        Response::Error(e) => Err(RustVaultError::Server(e)),
        _ => Err(RustVaultError::Protocol("Unexpected response for GET".to_owned())),
    }
}

/// What a `DELETE` learns from the reply: whether the key was there, a
/// server failure, or a reply a `DELETE` cannot produce.
pub fn delete_outcome(response: Response) -> (r: Result<bool, RustVaultError>)
    ensures
        match response@ {
            ResponseModel::Okay => r matches Ok(was) && was,
            ResponseModel::NotFound => r matches Ok(was) && !was,
            ResponseModel::Error(e) => r matches Err(err) && err matches RustVaultError::Server(m)
                && m@ == e,
            ResponseModel::Value(_) => r matches Err(err) && err matches RustVaultError::Protocol(
                m,
            ) && m@ == "Unexpected response for DELETE"@,
        },
{
    match response {
        Response::Okay => Ok(true),
        Response::NotFound => Ok(false),
        Response::Error(e) => Err(RustVaultError::Server(e)),
        _ => Err(RustVaultError::Protocol("Unexpected response for DELETE".to_owned())),
    }
}

} // verus!
