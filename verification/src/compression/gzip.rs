//! The framing of a gzip-compressed, chunked transfer body.  The gzip
//! encoding itself and the async read/write loop around it live in the
//! surrounding application; the chunk framing they must follow is specified
//! here.

use vstd::prelude::*;
use vstd::string::StringExecFns;

use crate::text::{hex_digits, push_hex};

verus! {

/// How a response body is encoded on the wire.
pub enum Encoding {
    GZIP,
    NONE,
}

/// The header that opens one chunk of a chunked transfer body: the chunk's
/// byte length in upper-case hexadecimal, then CRLF.  The chunk's bytes
/// follow it, closed by another CRLF.
pub fn chunk_header(len: usize) -> (r: String)
    ensures
        r@ == hex_digits(len as nat) + "\r\n"@,
{
    let mut r = String::new();
    push_hex(&mut r, len);
    r.append("\r\n");
    proof {
        assert(r@ =~= hex_digits(len as nat) + "\r\n"@);
    }
    r
}

/// The final, zero-length chunk that closes a chunked transfer body.
pub fn last_chunk() -> (r: String)
    ensures
        r@ == "0\r\n\r\n"@,
{
    "0\r\n\r\n".to_owned()
}

} // verus!
