//! The parts of TLS: settings, hello messages, certificates, keys, records, sessions and the order of
//! the handshake. Sockets, random octets, signatures, key exchange and ciphers are outside; what they
//! yield comes in as arguments.
pub mod certificate;
pub mod config;
pub mod handshake;
pub mod hello;
pub mod keys;
pub mod records;
pub mod session;
pub mod stream;
pub mod words;

pub use crate::net::https::tls::session::{SessionCache, TlsSession};
pub use crate::net::https::tls::stream::TlsStream;
pub use crate::net::https::tls::config::{
    TlsCfg, TlsError, TlsRecordCompressionCfg, TlsRecordSecurityCfg, TlsVersion,
};
