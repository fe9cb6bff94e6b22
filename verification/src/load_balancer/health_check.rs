//! The computing half of upstream health probes.  Opening the connection,
//! the timeout and the periodic probe loop are I/O and live in the
//! surrounding application; what to send and how to read the answer are
//! specified here.

use vstd::prelude::*;
use vstd::string::StringExecFns;

use crate::text::{spec_starts_with, str_starts_with};

verus! {

/// The request a health probe sends to an upstream.
pub fn health_request(address: &str, path: &str) -> (r: String)
    ensures
        r@ == "GET "@ + path@ + " HTTP/1.1\r\nHost: "@ + address@
            + "\r\nConnection: close\r\n\r\n"@,
{
    let mut r = String::new();
    r.append("GET ");
    r.append(path);
    r.append(" HTTP/1.1\r\nHost: ");
    r.append(address);
    r.append("\r\nConnection: close\r\n\r\n");
    proof {
        assert(r@ =~= "GET "@ + path@ + " HTTP/1.1\r\nHost: "@ + address@
            + "\r\nConnection: close\r\n\r\n"@);
    }
    r
}

/// Whether the first bytes of a probe's answer signal a healthy upstream:
/// an HTTP 200 status line.
pub fn is_healthy_response(response: &str) -> (r: bool)
    ensures
        r == (spec_starts_with(response@, "HTTP/1.1 200"@)
            || spec_starts_with(response@, "HTTP/1.0 200"@)),
{
    if str_starts_with(response, "HTTP/1.1 200") {
        return true;
    }
    str_starts_with(response, "HTTP/1.0 200")
}

} // verus!
