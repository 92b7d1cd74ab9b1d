//! HTTP/3 streams.
pub mod history;
pub mod stream;
