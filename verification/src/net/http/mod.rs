//! HTTP messages, their parts and their sealed forms.
use vstd::prelude::*;

pub mod compression;
pub mod fields;
pub mod headers;
pub mod http3;
pub mod http3_client;
pub mod message;
pub mod method;
pub mod negotiation;
pub mod parser;
pub mod preference;
pub mod quality;
pub mod request;
pub mod response;
pub mod served;
pub mod server;
pub mod trailer;
pub mod version;
pub mod wire;

pub use crate::net::http::compression::{
    parse_accept_encoding, CompressionAlgorithm, CompressionLevel,
};
pub use crate::net::http::headers::Headers;
pub use crate::net::http::http3_client::Http3Client;
pub use crate::net::http::method::HttpMethod;
pub use crate::net::http::negotiation::{
    ContentNegotiator, EncodingPreference, LanguageTag, MediaType,
};
pub use crate::net::http::request::HttpRequest;
pub use crate::net::http::response::HttpResponse;
pub use crate::net::http::server::{HttpServer, HttpServerCfg};
pub use crate::net::http::trailer::TrailerHeaders;
pub use crate::net::http::version::HttpVersion;

verus! {

/// What a client calls itself.
pub const DEFAULT_USER_AGENT: &'static str = "Singularity/0.0.1";

/// How many redirections a client follows.
pub const MAX_REDIRECTS: usize = 10;

/// How long a client waits, in seconds.
pub const DEFAULT_TIMEOUT_SECS: u64 = 30;

/// The codings that a client accepts.
pub const DEFAULT_ACCEPT_ENCODING: &'static str = "br, zstd, gzip, deflate, identity";

}
