//! A minimal verified HTTP file-server library.
//!
//! The library holds the protocol and security logic of a small
//! single-connection-at-a-time HTTP server: parsing a raw request out of the
//! bytes read from a connection, choosing how to answer it, building and
//! serialising the response, and validating filenames before any storage
//! access.  All functions here are pure computations over byte vectors; the
//! TCP and file handling that surrounds them lives outside the library.

pub mod client;
pub mod request;
pub mod response;
pub mod storage;
pub mod text;
