//! The HTTP-side decisions of the client: method normalization, the `Host`
//! header derived from a URL's authority, the per-request error kinds, and
//! when the wall-clock timeout is armed.  The connection handling itself
//! (sockets, TLS, the HTTP exchange) lives outside the library.

use vstd::prelude::*;

use crate::curl::{ascii_upper, spec_ascii_upper};
use crate::text::{dec_digits, str_eq, u64_to_string};

verus! {

/// The request methods the engine issues; anything unknown is sent as GET.
#[derive(Clone, Copy, Debug, PartialEq, Eq, Structural)]
pub enum HttpMethod {
    Get,
    Post,
    Put,
    Delete,
    Head,
    Patch,
    Options,
}

/// The method a request string names, compared upper-cased; unknown names
/// fall back to GET.
pub open spec fn spec_method_of(s: Seq<char>) -> HttpMethod {
    let u = spec_ascii_upper(s);
    if u == "GET"@ {
        HttpMethod::Get
    } else if u == "POST"@ {
        HttpMethod::Post
    } else if u == "PUT"@ {
        HttpMethod::Put
    } else if u == "DELETE"@ {
        HttpMethod::Delete
    } else if u == "HEAD"@ {
        HttpMethod::Head
    } else if u == "PATCH"@ {
        HttpMethod::Patch
    } else if u == "OPTIONS"@ {
        HttpMethod::Options
    } else {
        HttpMethod::Get
    }
}

/// Normalizes a method string, exactly as `spec_method_of` describes.
pub fn normalize_method(s: &str) -> (m: HttpMethod)
    ensures
        m == spec_method_of(s@),
{
    let u = ascii_upper(s);
    if str_eq(u.as_str(), "GET") {
        HttpMethod::Get
    } else if str_eq(u.as_str(), "POST") {
        HttpMethod::Post
    } else if str_eq(u.as_str(), "PUT") {
        HttpMethod::Put
    } else if str_eq(u.as_str(), "DELETE") {
        HttpMethod::Delete
    } else if str_eq(u.as_str(), "HEAD") {
        HttpMethod::Head
    } else if str_eq(u.as_str(), "PATCH") {
        HttpMethod::Patch
    } else if str_eq(u.as_str(), "OPTIONS") {
        HttpMethod::Options
    } else {
        HttpMethod::Get
    }
}

impl HttpMethod {
    /// The method's wire name.
    pub fn name(&self) -> (r: &'static str)
        ensures
            self is Get ==> r@ == "GET"@,
            self is Post ==> r@ == "POST"@,
            self is Put ==> r@ == "PUT"@,
            self is Delete ==> r@ == "DELETE"@,
            self is Head ==> r@ == "HEAD"@,
            self is Patch ==> r@ == "PATCH"@,
            self is Options ==> r@ == "OPTIONS"@,
    {
        match self {
            HttpMethod::Get => "GET",
            HttpMethod::Post => "POST",
            HttpMethod::Put => "PUT",
            HttpMethod::Delete => "DELETE",
            HttpMethod::Head => "HEAD",
            HttpMethod::Patch => "PATCH",
            HttpMethod::Options => "OPTIONS",
        }
    }
}

/// The per-request failures the engine distinguishes.
#[derive(Clone, Copy, Debug, PartialEq, Eq, Structural)]
pub enum ClientErrorKind {
    /// The URL does not parse.
    InvalidUrl,
    /// No connection to the authority could be established.
    ConnectFailed,
    /// The protocol handshake failed.
    HandshakeFailed,
    /// The request could not be sent or the response not read.
    SendFailed,
    /// The wall-clock timeout elapsed before the body was drained.
    Timeout,
    /// The request value could not be built.
    BuildRequestFailed,
}

impl ClientErrorKind {
    /// The label of the kind, the prefix of its report line.
    pub fn label(&self) -> (r: &'static str)
        ensures
            self is InvalidUrl ==> r@ == "Invalid URL"@,
            self is ConnectFailed ==> r@ == "Failed to connect"@,
            self is HandshakeFailed ==> r@ == "Failed to handshake"@,
            self is SendFailed ==> r@ == "Request failed"@,
            self is Timeout ==> r@ == "Request timeout"@,
            self is BuildRequestFailed ==> r@ == "Failed to build request"@,
    {
        match self {
            ClientErrorKind::InvalidUrl => "Invalid URL",
            ClientErrorKind::ConnectFailed => "Failed to connect",
            ClientErrorKind::HandshakeFailed => "Failed to handshake",
            ClientErrorKind::SendFailed => "Request failed",
            ClientErrorKind::Timeout => "Request timeout",
            ClientErrorKind::BuildRequestFailed => "Failed to build request",
        }
    }
}

/// The `Host` header for an authority: the host, with an explicit port
/// appended after a colon.
pub fn host_header_value(host: &str, port: Option<u16>) -> (r: String)
    ensures
        (port matches Some(p) ==> r@ == host@ + ":"@ + dec_digits(p as int)),
        (port is None ==> r@ == host@),
{
    match port {
        Some(p) => {
            let mut s = host.to_owned();
            s.append(":");
            let digits = u64_to_string(p as u64);
            s.append(digits.as_str());
            s
        },
        None => host.to_owned(),
    }
}

/// Whether a per-request timeout is enforced: every positive timeout arms
/// the wall-clock race; 0 means no deadline.
pub fn timeout_armed(timeout_ms: u64) -> (r: bool)
    ensures
        r == (timeout_ms > 0),
{
    timeout_ms > 0
}

} // verus!
