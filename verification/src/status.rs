//! The classes of HTTP status codes.

use vstd::prelude::*;

verus! {

/// The status that stands for a request that timed out.
pub const REQUEST_TIMEOUT: u16 = 408;

/// The status that stands for a connection that could not be made.
pub const BAD_GATEWAY: u16 = 502;

/// The status that stands for a request that could not be built or sent.
pub const BAD_REQUEST: u16 = 400;

/// A success: 200 to 299.
pub open spec fn success(code: u16) -> bool {
    200 <= code <= 299
}

/// A redirection: 300 to 399.
pub open spec fn redirection(code: u16) -> bool {
    300 <= code <= 399
}

/// A client error: 400 to 499.
pub open spec fn client_error(code: u16) -> bool {
    400 <= code <= 499
}

/// A server error: 500 to 599.
pub open spec fn server_error(code: u16) -> bool {
    500 <= code <= 599
}

/// A client or server error.
pub open spec fn error(code: u16) -> bool {
    client_error(code) || server_error(code)
}

/// Whether `code` is a success.
pub fn is_success(code: u16) -> (yes: bool)
    ensures
        yes == success(code),
{
    200 <= code && code <= 299
}

/// Whether `code` is a redirection.
pub fn is_redirection(code: u16) -> (yes: bool)
    ensures
        yes == redirection(code),
{
    300 <= code && code <= 399
}

/// Whether `code` is a client error.
pub fn is_client_error(code: u16) -> (yes: bool)
    ensures
        yes == client_error(code),
{
    400 <= code && code <= 499
}

/// Whether `code` is a server error.
pub fn is_server_error(code: u16) -> (yes: bool)
    ensures
        yes == server_error(code),
{
    500 <= code && code <= 599
}

/// Whether `code` is a client or server error.
pub fn is_error(code: u16) -> (yes: bool)
    ensures
        yes == error(code),
{
    400 <= code && code <= 599
}

} // verus!
