//! The three responses that the relay writes on its own account.

use vstd::prelude::*;
use vstd::slice::slice_to_vec;
use vstd::string::*;
use vstd::utf8::encode_utf8;

verus! {

/// Sent in place of forwarding a request whose path is blocked.
pub const FORBIDDEN: &'static str = "HTTP/1.1 401 Forbidden\r\n\r\n";

/// Sent when a request has no readable request line.
pub const BAD_REQUEST: &'static str = "HTTP/1.1 400 Bad Request\r\n\r\n";

/// Sent when the upstream cannot be reached.
pub const BAD_GATEWAY: &'static str = "HTTP/1.1 502 Bad Gateway\r\n\r\n";

/// The bytes of `FORBIDDEN` on the wire.
pub open spec fn forbidden_wire() -> Seq<u8> {
    encode_utf8(FORBIDDEN@)
}

/// The bytes of `BAD_REQUEST` on the wire.
pub open spec fn bad_request_wire() -> Seq<u8> {
    encode_utf8(BAD_REQUEST@)
}

/// The bytes of `BAD_GATEWAY` on the wire.
pub open spec fn bad_gateway_wire() -> Seq<u8> {
    encode_utf8(BAD_GATEWAY@)
}

/// The response to a blocked request.
pub fn forbidden() -> (bytes: Vec<u8>)
    ensures
        bytes@ == forbidden_wire(),
{
    slice_to_vec(FORBIDDEN.as_bytes())
}

/// The response to a request without a readable request line.
pub fn bad_request() -> (bytes: Vec<u8>)
    ensures
        bytes@ == bad_request_wire(),
{
    slice_to_vec(BAD_REQUEST.as_bytes())
}

/// The response to a request whose upstream cannot be reached.
pub fn bad_gateway() -> (bytes: Vec<u8>)
    ensures
        bytes@ == bad_gateway_wire(),
{
    slice_to_vec(BAD_GATEWAY.as_bytes())
}

} // verus!
