//! Directory-scoped static file serving: maps a request path under a URL
//! prefix onto a file below a root directory, refuses every target that
//! resolves to somewhere else than the request pointed, and describes the
//! response, whose body is read from the opened file as it is sent.
//!
//! The file system is reached through two strategies that the caller
//! supplies: one that resolves a path to its absolute form without links,
//! and one that opens a file and tells its length. [`ServeDir::call`] runs a
//! request to its response with strategies that answer at once. A caller
//! whose strategies answer later takes the same steps one by one:
//! [`ServeDir::candidate`], then [`after_canonicalize`] on what the first
//! strategy answered, then [`after_open`] on what the second answered.
//!
//! Paths are byte strings with `/` between their names.

pub mod endpoint;
pub mod path;
pub mod response;
pub mod route;

pub use endpoint::{after_canonicalize, after_open, Refusal, ServeDir, Step};
pub use response::{Body, Response, StatusCode};
