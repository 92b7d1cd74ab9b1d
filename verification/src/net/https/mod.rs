//! HTTP over TLS: payload envelopes, client, server, certificates and the parts of TLS.
pub mod alpn;
pub mod client;
pub mod ct;
pub mod exchange;
pub mod http1;
pub mod http2;
pub mod payload;
pub mod revocation;
pub mod served;
pub mod server;
pub mod state;
pub mod tls;
pub mod trust_store;
pub mod url;
pub mod words;

pub use crate::net::https::client::{HttpsClient, HttpsClientCfg, HttpsError};
pub use crate::net::https::payload::{
    decode_secure_https_payload, encode_secure_https_payload, encode_secure_https_payload_auto,
    SecureHttpsEnvelopeMeta, HTTPS_SECURE_ENVELOPE_MAGIC,
};
pub use crate::net::https::server::{HttpsServer, HttpsServerCfg};
pub use crate::net::https::tls::{TlsCfg, TlsError, TlsStream};
pub use crate::net::https::trust_store::{TrustStore, TrustStoreError};
