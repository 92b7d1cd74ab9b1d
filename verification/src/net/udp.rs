//! Secured datagrams.
use vstd::prelude::*;

use crate::net::blob::opt_bytes;
use crate::net::envelope::EnvelopeError;
use crate::net::frame::{
    frame_contents, frame_sealed, frame_unsealed, seal_frame, unseal_frame, FrameKind, FrameMeta,
};
use crate::net::http::compression::{
    implemented, select_compressing, selected, CompressionAlgorithm, CompressionLevel,
};

verus! {

/// The header of a datagram.
pub type SecureUdpDatagramMeta = FrameMeta;

/// How a datagram is protected.
#[derive(Debug, Clone, Copy)]
pub struct UdpSecurityCfg {
    pub enable_integrity: bool,
    pub nonce_len: usize,
}

/// How a datagram is compressed.
#[derive(Debug, Clone, Copy)]
pub struct UdpCompressionCfg {
    pub enabled: bool,
    pub algorithm: CompressionAlgorithm,
    pub level: CompressionLevel,
    pub min_size: usize,
}

impl Default for UdpSecurityCfg {
    fn default() -> (r: Self)
        ensures
            r.enable_integrity,
            r.nonce_len == 24,
    {
        UdpSecurityCfg { enable_integrity: true, nonce_len: 24 }
    }
}

impl Default for UdpCompressionCfg {
    fn default() -> (r: Self)
        ensures
            r.enabled,
            r.algorithm == CompressionAlgorithm::Brotli,
            r.level == CompressionLevel::Default,
            r.min_size == 512,
    {
        UdpCompressionCfg {
            enabled: true,
            algorithm: CompressionAlgorithm::Brotli,
            level: CompressionLevel::Default,
            min_size: 512,
        }
    }
}

impl UdpSecurityCfg {
    /// How many random octets the nonce of a datagram takes: at least eight, and none without integrity.
    pub fn nonce_size(&self) -> (r: usize)
        ensures
            r == (if !self.enable_integrity {
                0
            } else if self.nonce_len < 8 {
                8
            } else {
                self.nonce_len as int
            }),
    {
        if !self.enable_integrity {
            0
        } else if self.nonce_len < 8 {
            8
        } else {
            self.nonce_len
        }
    }
}

impl UdpCompressionCfg {
    /// The coding in which a payload of `raw_size` octets is sent.
    pub open spec fn coding_for(&self, raw_size: nat) -> CompressionAlgorithm {
        if self.enabled && raw_size >= self.min_size && implemented(self.algorithm) {
            self.algorithm
        } else {
            CompressionAlgorithm::Identity
        }
    }

    /// Chooses the coding for a payload of `raw_size` octets.
    pub fn select_coding(&self, raw_size: usize) -> (r: CompressionAlgorithm)
        ensures
            r == self.coding_for(raw_size as nat),
    {
        if self.enabled && raw_size >= self.min_size && self.algorithm.is_implemented() {
            self.algorithm
        } else {
            CompressionAlgorithm::Identity
        }
    }
}

/// Chooses the coding for a payload from an `Accept-Encoding` value.
pub fn select_secure_udp_compression_algorithm(accept_encoding: &str) -> (r: CompressionAlgorithm)
    ensures
        r == selected(accept_encoding@, false),
{
    select_compressing(accept_encoding)
}

/// Seals a datagram. `coded` is what the codec of the chosen coding made of `raw_payload`, `None`
/// where the codec failed; it is not looked at under the identity.
pub fn encode_secure_udp_datagram(
    raw_payload: &[u8],
    security_cfg: &UdpSecurityCfg,
    compression_cfg: &UdpCompressionCfg,
    coded: Option<&[u8]>,
    nonce: &[u8],
    issued_at_unix: u64,
) -> (r: Result<(SecureUdpDatagramMeta, Vec<u8>), EnvelopeError>)
    ensures
        frame_contents(r) == frame_sealed(
            FrameKind::Udp,
            raw_payload@,
            compression_cfg.coding_for(raw_payload@.len()),
            opt_bytes(coded),
            security_cfg.enable_integrity,
            nonce@,
            issued_at_unix as nat,
        ),
{
    let algorithm = compression_cfg.select_coding(raw_payload.len());
    seal_frame(
        FrameKind::Udp,
        raw_payload,
        algorithm,
        coded,
        security_cfg.enable_integrity,
        nonce,
        issued_at_unix,
    )
}

/// Unseals a datagram. `plain` is what the codec made of the payload as sent, `None` where the codec
/// failed; it is not looked at under the identity.
pub fn decode_secure_udp_datagram(
    secure_datagram: &[u8],
    security_cfg: &UdpSecurityCfg,
    plain: Option<&[u8]>,
) -> (r: Result<(SecureUdpDatagramMeta, Vec<u8>), EnvelopeError>)
    ensures
        frame_contents(r) == frame_unsealed(
            FrameKind::Udp,
            secure_datagram@,
            security_cfg.enable_integrity,
            opt_bytes(plain),
        ),
{
    unseal_frame(FrameKind::Udp, secure_datagram, security_cfg.enable_integrity, plain)
}

/// A payload is sent in the coding of the settings where they allow it and it is long enough, and as it is otherwise.
pub proof fn law_coding_by_size(cfg: UdpCompressionCfg, raw_size: nat)
    ensures
        cfg.enabled && raw_size >= cfg.min_size ==> cfg.coding_for(raw_size) == cfg.algorithm,
        !cfg.enabled || raw_size < cfg.min_size ==> cfg.coding_for(raw_size) == CompressionAlgorithm::Identity,
{
}

}
