//! Building HTTP responses for the static-file path.

pub mod http;
