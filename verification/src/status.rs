//! Engine operation outcomes and their translation into results.

use vstd::prelude::*;

verus! {

/// Outcome of one engine operation: success, "no such key", or any other
/// failure together with the engine's numeric diagnostic code.
#[derive(Clone, Copy, PartialEq, Eq, Structural, Debug)]
pub enum EngineStatus {
    Success,
    NotFound,
    Failure(u32),
}

/// Errors surfaced to callers.  A point lookup that finds no key is not an
/// error (it yields an absent-value result instead); `NotFound` appears here
/// only when a non-lookup operation reports it.  `OperationFailure` carries
/// the engine's diagnostic code and is never retried by this layer.
#[derive(Clone, Copy, PartialEq, Eq, Structural, Debug)]
pub enum Error {
    NotFound,
    OperationFailure(u32),
}

/// Translate an engine outcome into a result: success becomes `Ok`, every
/// other outcome becomes the corresponding error.
pub fn into_result(status: &EngineStatus) -> (r: Result<(), Error>)
    ensures
        r == (match *status {
            EngineStatus::Success => Result::<(), Error>::Ok(()),
            EngineStatus::NotFound => Result::<(), Error>::Err(Error::NotFound),
            EngineStatus::Failure(code) => Result::<(), Error>::Err(Error::OperationFailure(code)),
        }),
{
    match status {
        EngineStatus::Success => Ok(()),
        EngineStatus::NotFound => Err(Error::NotFound),
        EngineStatus::Failure(code) => Err(Error::OperationFailure(*code)),
    }
}

} // verus!
