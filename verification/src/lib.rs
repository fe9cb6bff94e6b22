//! Verified core of an HTTP edge server: a byte-bounded LRU cache for the
//! static-file path, configuration validation, load-balancing strategies,
//! and the pure parts of request handling and response building.
//!
//! Concurrency note: the cache here is the sequential data structure with its
//! invariants proved; a surrounding application shares one instance behind a
//! single coarse read/write lock, so every interleaving of `get`/`add` calls
//! is a sequence of calls each of which is proved to preserve the invariants.

pub mod cache;
pub mod compression;
pub mod config;
pub mod handler;
pub mod load_balancer;
pub mod recency;
pub mod response_builder;
pub mod text;
