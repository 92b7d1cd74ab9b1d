//! Transport envelopes and the HTTP layers above them.
use vstd::prelude::*;

use crate::net::blob::opt_bytes;
use crate::net::envelope::{contents, EnvelopeError, EnvelopeMeta};
use crate::net::frame::{net_sealed, net_unsealed, seal_net, unseal_net};
use crate::net::http::compression::{select_compressing, selected, CompressionAlgorithm};

pub mod address;
pub mod blob;
pub mod envelope;
pub mod frame;
pub mod http;
pub mod https;
pub mod record;
pub mod tcp;
pub mod ticket;
pub mod udp;

verus! {

/// What goes wrong on the network.
#[derive(Debug)]
pub enum NetErr {
    Io(String),
    ConnectionFailed(String),
    Timeout,
    InvalidAddr,
    DnsResFailed,
    InvalidResponse,
    ConnectionClosed,
    Http3Error(String),
    ProtocolError(String),
}

pub type NetResult<T> = Result<T, NetErr>;

impl NetErr {
    pub open spec fn text(&self) -> Seq<char> {
        match self {
            NetErr::Io(e) => "IO Error: "@ + e@,
            NetErr::ConnectionFailed(m) => "Connection Failed: "@ + m@,
            NetErr::Timeout => "Connection Timeout"@,
            NetErr::InvalidAddr => "Invalid Address"@,
            NetErr::DnsResFailed => "DNS Resolution Failed"@,
            NetErr::InvalidResponse => "Invalid Response"@,
            NetErr::ConnectionClosed => "Connection Closed"@,
            NetErr::Http3Error(m) => "HTTP/3 Error: "@ + m@,
            NetErr::ProtocolError(m) => "Protocol Error: "@ + m@,
        }
    }

    /// The error in words.
    pub fn message(&self) -> (r: String)
        ensures
            r@ == self.text(),
    {
        match self {
            NetErr::Io(e) => "IO Error: ".to_owned().concat(e.as_str()),
            NetErr::ConnectionFailed(m) => "Connection Failed: ".to_owned().concat(m.as_str()),
            NetErr::Timeout => "Connection Timeout".to_owned(),
            NetErr::InvalidAddr => "Invalid Address".to_owned(),
            NetErr::DnsResFailed => "DNS Resolution Failed".to_owned(),
            NetErr::InvalidResponse => "Invalid Response".to_owned(),
            NetErr::ConnectionClosed => "Connection Closed".to_owned(),
            NetErr::Http3Error(m) => "HTTP/3 Error: ".to_owned().concat(m.as_str()),
            NetErr::ProtocolError(m) => "Protocol Error: ".to_owned().concat(m.as_str()),
        }
    }
}

/// The header of a payload envelope.
pub type SecureNetEnvelopeMeta = EnvelopeMeta;

/// Chooses the coding for a payload from an `Accept-Encoding` value.
pub fn select_secure_compression_algorithm(accept_encoding: &str) -> (r: CompressionAlgorithm)
    ensures
        r == selected(accept_encoding@, false),
{
    select_compressing(accept_encoding)
}

/// Seals a payload. `coded` is what the codec of `algorithm` made of `raw_payload`, `None` where the
/// codec failed; it is not looked at under the identity.
pub fn encode_secure_net_payload(
    raw_payload: &[u8],
    algorithm: CompressionAlgorithm,
    coded: Option<&[u8]>,
    nonce: &[u8],
    issued_at_unix: u64,
) -> (r: Result<(SecureNetEnvelopeMeta, Vec<u8>), EnvelopeError>)
    ensures
        contents(r) == net_sealed(
            raw_payload@,
            algorithm,
            opt_bytes(coded),
            nonce@,
            issued_at_unix as nat,
        ),
{
    seal_net(raw_payload, algorithm, coded, nonce, issued_at_unix)
}

/// Seals a payload in the coding chosen from an `Accept-Encoding` value.
pub fn encode_secure_net_payload_auto(
    raw_payload: &[u8],
    accept_encoding: &str,
    coded: Option<&[u8]>,
    nonce: &[u8],
    issued_at_unix: u64,
) -> (r: Result<(SecureNetEnvelopeMeta, Vec<u8>), EnvelopeError>)
    ensures
        contents(r) == net_sealed(
            raw_payload@,
            selected(accept_encoding@, false),
            opt_bytes(coded),
            nonce@,
            issued_at_unix as nat,
        ),
{
    let algorithm = select_secure_compression_algorithm(accept_encoding);
    encode_secure_net_payload(raw_payload, algorithm, coded, nonce, issued_at_unix)
}

/// Unseals a payload. `plain` is what the codec made of the payload as sent, `None` where the codec
/// failed; it is not looked at under the identity.
pub fn decode_secure_net_payload(secure_blob: &[u8], plain: Option<&[u8]>) -> (r: Result<
    (SecureNetEnvelopeMeta, Vec<u8>),
    EnvelopeError,
>)
    ensures
        contents(r) == net_unsealed(secure_blob@, opt_bytes(plain)),
{
    unseal_net(secure_blob, plain)
}

}
