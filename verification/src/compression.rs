//! Compressed, chunked transfer of response bodies.

pub mod gzip;
