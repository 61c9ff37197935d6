//! Mapping from RPC status codes to HTTP responses, for the REST layer that
//! fronts the controller.

use vstd::prelude::*;

verus! {

/// The status code of a failed RPC reply, as the controller's transport
/// reports it.
#[derive(Clone, Copy, Debug, PartialEq, Eq, Structural)]
pub enum RpcCode {
    Cancelled,
    Unknown,
    InvalidArgument,
    DeadlineExceeded,
    NotFound,
    AlreadyExists,
    PermissionDenied,
    ResourceExhausted,
    FailedPrecondition,
    Aborted,
    OutOfRange,
    Unimplemented,
    Internal,
    Unavailable,
    DataLoss,
    Unauthenticated,
}

/// The HTTP status that the REST layer answers with for each RPC code.
pub open spec fn spec_http_status(code: RpcCode) -> u16 {
    match code {
        RpcCode::Cancelled => 408,
        RpcCode::InvalidArgument => 400,
        RpcCode::DeadlineExceeded => 504,
        RpcCode::NotFound => 404,
        RpcCode::AlreadyExists => 409,
        RpcCode::PermissionDenied => 403,
        RpcCode::ResourceExhausted => 429,
        RpcCode::FailedPrecondition => 412,
        RpcCode::Aborted => 409,
        RpcCode::OutOfRange => 400,
        RpcCode::Unimplemented => 501,
        RpcCode::Unavailable => 503,
        RpcCode::Unauthenticated => 401,
        RpcCode::Unknown => 500,
        RpcCode::Internal => 500,
        RpcCode::DataLoss => 500,
    }
}

/// An error answer of the REST layer: an HTTP status and a message for the
/// JSON body. No internal detail leaks through the message.
pub struct ErrorResp {
    pub status_code: u16,
    pub message: String,
}

/// Maps an RPC status code to the HTTP status the REST layer answers with.
pub fn http_status(code: RpcCode) -> (r: u16)
    ensures
        r == spec_http_status(code),
{
    match code {
        RpcCode::Cancelled => 408,
        RpcCode::InvalidArgument => 400,
        RpcCode::DeadlineExceeded => 504,
        RpcCode::NotFound => 404,
        RpcCode::AlreadyExists => 409,
        RpcCode::PermissionDenied => 403,
        RpcCode::ResourceExhausted => 429,
        RpcCode::FailedPrecondition => 412,
        RpcCode::Aborted => 409,
        RpcCode::OutOfRange => 400,
        RpcCode::Unimplemented => 501,
        RpcCode::Unavailable => 503,
        RpcCode::Unauthenticated => 401,
        RpcCode::Unknown => 500,
        RpcCode::Internal => 500,
        RpcCode::DataLoss => 500,
    }
}

/// Builds the error answer for a failed RPC: the mapped HTTP status and the
/// RPC's own message as the body.
pub fn error_resp_for(code: RpcCode, message: String) -> (r: ErrorResp)
    ensures
        r.status_code == spec_http_status(code),
        r.message@ == message@,
{
    ErrorResp { status_code: http_status(code), message }
}

/// The answer for an unexpected internal error: a 500 with a fixed message,
/// so that no internal detail leaks to the caller.
pub fn internal_error_resp() -> (r: ErrorResp)
    ensures
        r.status_code == 500,
        r.message@ == "Something went wrong"@,
{
    ErrorResp { status_code: 500, message: "Something went wrong".to_owned() }
}

} // verus!
