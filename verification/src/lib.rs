//! The core of a small single-threaded static-file web server: request-line
//! parsing, path resolution under a document root, response framing, and the
//! table of connections that a readiness loop drives. The crate performs no
//! I/O; the caller reads and writes sockets and files and reports what
//! happened.
//!
//! - `request` reads the request line at the head of raw input.
//! - `resolver` follows a request path down from the document root.
//! - `response` frames the status line, the headers and the body.
//! - `pipeline` goes from the bytes of a request to the bytes of its response.
//! - `server` keeps the table of connections and decides on each event.
//! - `bytes` and `text` search, compare and validate byte strings.

pub mod bytes;
pub mod pipeline;
pub mod request;
pub mod resolver;
pub mod response;
pub mod server;
pub mod text;
