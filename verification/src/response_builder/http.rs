//! The success response header and the content-type rule behind it.

use vstd::prelude::*;
use vstd::string::StringExecFns;

use crate::text::{dec_digits, push_decimal, spec_ends_with, str_ends_with};

verus! {

/// Content type served for a path, decided by its ending; anything
/// unrecognized is served as a binary stream.
pub open spec fn spec_file_type(p: Seq<char>) -> Seq<char> {
    if spec_ends_with(p, ".html"@) {
        "text/html"@
    } else if spec_ends_with(p, ".css"@) {
        "text/css"@
    } else if spec_ends_with(p, ".js"@) {
        "application/javascript"@
    } else {
        "application/octet-stream"@
    }
}

pub fn get_file_type(path: &str) -> (r: String)
    ensures
        r@ == spec_file_type(path@),
{
    if str_ends_with(path, ".html") {
        "text/html".to_owned()
    } else if str_ends_with(path, ".css") {
        "text/css".to_owned()
    } else if str_ends_with(path, ".js") {
        "application/javascript".to_owned()
    } else {
        "application/octet-stream".to_owned()
    }
}

/// The header of a 200 response announcing `content_length` bytes of the
/// content type of `path`, one connection per request.
pub fn response_header(content_length: usize, path: &str) -> (r: String)
    ensures
        r@ == "HTTP/1.1 200 OK\r\nContent-Length: "@ + dec_digits(content_length as nat)
            + "\r\nContent-Type: "@ + spec_file_type(path@)
            + "\r\nConnection: close\r\n\r\n"@,
{
    let mut r = String::new();
    r.append("HTTP/1.1 200 OK\r\nContent-Length: ");
    push_decimal(&mut r, content_length);
    r.append("\r\nContent-Type: ");
    let content_type = get_file_type(path);
    r.append(content_type.as_str());
    r.append("\r\nConnection: close\r\n\r\n");
    proof {
        assert(r@ =~= "HTTP/1.1 200 OK\r\nContent-Length: "@
            + dec_digits(content_length as nat) + "\r\nContent-Type: "@
            + spec_file_type(path@) + "\r\nConnection: close\r\n\r\n"@);
    }
    r
}

/// The header of a 200 response for `contents`: its exact byte length, the
/// content type of `path`, and a close-after-response connection.
pub fn create_response(contents: &[u8], path: &str) -> (r: String)
    ensures
        r@ == "HTTP/1.1 200 OK\r\nContent-Length: "@ + dec_digits(contents@.len())
            + "\r\nContent-Type: "@ + spec_file_type(path@)
            + "\r\nConnection: close\r\n\r\n"@,
{
    response_header(contents.len(), path)
}

} // verus!
