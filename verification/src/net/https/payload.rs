//! Payload envelopes: octets with a digest and a tag, sent over TLS in place of a body.
use vstd::prelude::*;

use crate::net::blob::opt_bytes;
use crate::net::envelope::{EnvelopeError, EnvelopeMeta, MetaView};
use crate::net::http::compression::{select_compressing, selected, CompressionAlgorithm};
use crate::net::ticket::{
    law_ticket_roundtrip, seal_ticket, ticket_sealed, ticket_unsealed, unseal_ticket, TicketKind,
};

verus! {

/// The first line of a payload envelope.
pub const HTTPS_SECURE_ENVELOPE_MAGIC: &'static str = "SINGULARITY_HTTPS_SECURE_ENVELOPE_V1";

/// The header of a payload envelope; it holds no time of issue, which counts as 0.
#[derive(Debug, Clone)]
pub struct SecureHttpsEnvelopeMeta {
    pub algorithm: CompressionAlgorithm,
    pub nonce_b64: String,
    pub digest_b64: String,
    pub tag_b64: String,
    pub raw_size: usize,
    pub encoded_size: usize,
}

impl View for SecureHttpsEnvelopeMeta {
    type V = MetaView;

    open spec fn view(&self) -> MetaView {
        MetaView {
            algorithm: self.algorithm,
            nonce: self.nonce_b64@,
            digest: self.digest_b64@,
            tag: self.tag_b64@,
            raw_size: self.raw_size as nat,
            encoded_size: self.encoded_size as nat,
            issued_at: 0,
        }
    }
}

fn timeless(meta: EnvelopeMeta) -> (r: SecureHttpsEnvelopeMeta)
    requires
        meta@.issued_at == 0,
    ensures
        r@ == meta@,
{
    SecureHttpsEnvelopeMeta {
        algorithm: meta.algorithm,
        nonce_b64: meta.nonce_b64,
        digest_b64: meta.digest_b64,
        tag_b64: meta.tag_b64,
        raw_size: meta.raw_size,
        encoded_size: meta.encoded_size,
    }
}

/// A header and octets, or why there are none.
pub open spec fn payload_contents(r: Result<(SecureHttpsEnvelopeMeta, Vec<u8>), EnvelopeError>) -> Result<
    (MetaView, Seq<u8>),
    EnvelopeError,
> {
    match r {
        Ok((meta, octets)) => Ok((meta@, octets@)),
        Err(e) => Err(e),
    }
}

/// The envelope of a payload.
pub open spec fn payload_sealed(
    raw: Seq<u8>,
    algorithm: CompressionAlgorithm,
    coded: Option<Seq<u8>>,
    nonce: Seq<u8>,
) -> Result<(MetaView, Seq<u8>), EnvelopeError> {
    ticket_sealed(TicketKind::HttpsPayload, raw, algorithm, coded, nonce, 0)
}

/// The payload in an envelope.
pub open spec fn payload_unsealed(data: Seq<u8>, plain: Option<Seq<u8>>) -> Result<
    (MetaView, Seq<u8>),
    EnvelopeError,
> {
    ticket_unsealed(TicketKind::HttpsPayload, data, plain)
}

/// Seals a payload. `coded` is what the codec of `algorithm` made of the payload, `None` where the codec
/// failed; it is not looked at under the identity.
pub fn encode_secure_https_payload(
    raw_payload: &[u8],
    algorithm: CompressionAlgorithm,
    coded: Option<&[u8]>,
    nonce: &[u8],
) -> (r: Result<(SecureHttpsEnvelopeMeta, Vec<u8>), EnvelopeError>)
    ensures
        payload_contents(r) == payload_sealed(raw_payload@, algorithm, opt_bytes(coded), nonce@),
{
    match seal_ticket(TicketKind::HttpsPayload, raw_payload, algorithm, coded, nonce, 0) {
        Ok((meta, blob)) => Ok((timeless(meta), blob)),
        Err(e) => Err(e),
    }
}

/// Seals a payload in the coding chosen from an `Accept-Encoding` value.
pub fn encode_secure_https_payload_auto(
    raw_payload: &[u8],
    accept_encoding: &str,
    coded: Option<&[u8]>,
    nonce: &[u8],
) -> (r: Result<(SecureHttpsEnvelopeMeta, Vec<u8>), EnvelopeError>)
    ensures
        payload_contents(r) == payload_sealed(
            raw_payload@,
            selected(accept_encoding@, false),
            opt_bytes(coded),
            nonce@,
        ),
{
    let algorithm = select_compressing(accept_encoding);
    encode_secure_https_payload(raw_payload, algorithm, coded, nonce)
}

/// Opens a payload envelope. `plain` is what the codec made of the payload as sent, `None` where the
/// codec failed; it is not looked at under the identity.
pub fn decode_secure_https_payload(secure_blob: &[u8], plain: Option<&[u8]>) -> (r: Result<
    (SecureHttpsEnvelopeMeta, Vec<u8>),
    EnvelopeError,
>)
    ensures
        payload_contents(r) == payload_unsealed(secure_blob@, opt_bytes(plain)),
{
    match unseal_ticket(TicketKind::HttpsPayload, secure_blob, plain) {
        Ok((meta, payload)) => Ok((timeless(meta), payload)),
        Err(e) => Err(e),
    }
}

/// A payload that was sealed is opened again, given that the codec undoes what it did. An envelope with an
/// empty nonce would be refused.
pub proof fn law_payload_roundtrip(
    raw: Seq<u8>,
    algorithm: CompressionAlgorithm,
    coded: Option<Seq<u8>>,
    nonce: Seq<u8>,
)
    requires
        raw.len() <= usize::MAX,
        coded matches Some(c) ==> c.len() <= usize::MAX,
        nonce.len() > 0,
    ensures
        payload_sealed(raw, algorithm, coded, nonce) matches Ok((meta, blob)) ==> payload_unsealed(
            blob,
            Some(raw),
        ) == Ok::<(MetaView, Seq<u8>), EnvelopeError>((meta, raw)),
{
    law_ticket_roundtrip(TicketKind::HttpsPayload, raw, algorithm, coded, nonce, 0);
}

}
