//! Verified core of a webseed tile proxy.
//!
//! The crate covers the request-handling pipeline of a caching HTTP proxy
//! that mirrors static tile data from upstream origins: path sanitization,
//! a bounded per-origin LRU object cache, HTTP `Range` parsing and
//! partial-content serving, per-origin usage counters, and the dispatcher
//! that ties them together. Network and file I/O stay outside the library;
//! callers perform them and hand the resulting bytes back in.

pub mod cache;
pub mod dispatch;
pub mod numfmt;
pub mod range;
pub mod response;
pub mod sanitize;
pub mod stats;
