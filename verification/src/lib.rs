//! A helper library for serving files over HTTP.
//!
//! Given a parsed request line and a handful of request headers, the
//! library decides what a static-file response looks like: status,
//! response headers (`ETag`, `Last-Modified`, `Content-Range`,
//! `Content-Encoding`, `Content-Type`), and how many body bytes to send.
//! The host performs the filesystem and network I/O; everything that
//! decides is here, with its behaviour stated in contracts.
pub mod ascii;
pub mod range;
pub mod accept_encoding;
pub mod metadata;
pub mod etag;
pub mod conditionals;
pub mod config;
pub mod input;
pub mod output;

pub use accept_encoding::Encoding;
pub use accept_encoding::Iter as EncodingIter;
pub use config::Config;
pub use input::Input;
pub use output::FileWrapper;
pub use output::Head;
pub use output::Output;
