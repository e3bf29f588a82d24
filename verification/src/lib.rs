//! Serving a directory tree over HTTP: the decisions, without the socket and
//! without the disk.
//!
//! - [`httpd`]: the server of one tree, and the steps that answer a request.
//! - [`entry`]: request paths, and what they resolve to below the root.
//! - [`listing`]: the index page of a directory.
//! - [`range`]: the `Range` header, read against the length of a file.
//! - [`response`]: responses, the framing of a file, and reading it in steps.
//! - [`escape`]: percent-escaping of paths, and its inverse.
//! - [`text`]: characters and decimal numbers.

pub mod entry;
pub mod escape;
pub mod httpd;
pub mod listing;
pub mod range;
pub mod response;
pub mod text;
