//! The core of a small HTTP/1.1 origin server: request framing, response
//! formatting, routing, gzip content-encoding and the per-connection state
//! machine. It touches neither socket nor file system: the caller moves the
//! bytes, and every decision is made here, by functions that are verified
//! against contracts over mathematical models of the data.

pub mod args;
pub mod connection;
pub mod encoding;
pub mod handlers;
pub mod headers;
pub mod request;
pub mod response;
pub mod round_trip;
pub mod text;
pub mod utf8;
