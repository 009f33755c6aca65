//! The plain-text HTTP replies with which the proxy refuses a client.

use vstd::prelude::*;
use crate::text::{decimal, push_decimal};

verus! {

/// A plain-text HTTP/1.1 reply that closes the connection: status line,
/// content type, a content length of `body_len` bytes, and the body.
pub open spec fn plain_reply_text(code: nat, reason: Seq<char>, body: Seq<char>, body_len: nat) -> Seq<char> {
    "HTTP/1.1 "@ + decimal(code) + " "@ + reason + "\r\nContent-Type: text/plain\r\nContent-Length: "@
        + decimal(body_len) + "\r\nConnection: close\r\n\r\n"@ + body
}

/// Builds the plain-text reply with status `code` and `reason` that carries
/// `body`; its `Content-Length` is the body's length in bytes.
pub fn plain_reply(code: u16, reason: &str, body: &str) -> (r: String)
    ensures
        r@ == plain_reply_text(code as nat, reason@, body@, body.len() as nat),
{
    let mut reply = String::from_str("HTTP/1.1 ");
    push_decimal(&mut reply, code as u128);
    reply.append(" ");
    reply.append(reason);
    reply.append("\r\nContent-Type: text/plain\r\nContent-Length: ");
    push_decimal(&mut reply, body.len() as u128);
    reply.append("\r\nConnection: close\r\n\r\n");
    reply.append(body);
    reply
}

/// The reply to a client when no backend is healthy: 503 Service
/// Unavailable.
pub fn service_unavailable() -> (r: String)
    ensures
        r@ == plain_reply_text(
            503,
            "Service Unavailable"@,
            "Service Unavailable"@,
            "Service Unavailable".len() as nat,
        ),
{
    plain_reply(503, "Service Unavailable", "Service Unavailable")
}

/// The reply to a client over its rate limit: 429 Too Many Requests.
pub fn too_many_requests() -> (r: String)
    ensures
        r@ == plain_reply_text(
            429,
            "Too Many Requests"@,
            "Too Many Requests"@,
            "Too Many Requests".len() as nat,
        ),
{
    plain_reply(429, "Too Many Requests", "Too Many Requests")
}

} // verus!
