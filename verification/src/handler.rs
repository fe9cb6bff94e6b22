//! The computing half of request handling: parsing the request line and the
//! decisions the static-file handler makes.  The socket reads and writes
//! around them live in the surrounding application.

pub mod static_handler;
