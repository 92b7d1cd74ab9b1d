//! Secured frames on a byte stream.
use vstd::prelude::*;

use crate::bytes::{be32, from_be32, push_be32, push_bytes, read_be32};
use crate::net::blob::opt_bytes;
use crate::net::envelope::EnvelopeError;
use crate::net::frame::{
    frame_contents, frame_sealed, frame_unsealed, seal_frame, unseal_frame, FrameKind, FrameMeta,
};
use crate::net::http::compression::{
    implemented, select_compressing, selected, CompressionAlgorithm, CompressionLevel,
};

verus! {

/// The header of a frame.
pub type SecureTcpFrameMeta = FrameMeta;

/// How a frame is protected.
#[derive(Debug, Clone, Copy)]
pub struct TcpSecurityCfg {
    pub enable_integrity: bool,
    pub nonce_len: usize,
}

/// How a frame is compressed.
#[derive(Debug, Clone, Copy)]
pub struct TcpCompressionCfg {
    pub enabled: bool,
    pub algorithm: CompressionAlgorithm,
    pub level: CompressionLevel,
    pub min_size: usize,
}

impl Default for TcpSecurityCfg {
    fn default() -> (r: Self)
        ensures
            r.enable_integrity,
            r.nonce_len == 24,
    {
        TcpSecurityCfg { enable_integrity: true, nonce_len: 24 }
    }
}

impl Default for TcpCompressionCfg {
    fn default() -> (r: Self)
        ensures
            r.enabled,
            r.algorithm == CompressionAlgorithm::Brotli,
            r.level == CompressionLevel::Default,
            r.min_size == 512,
    {
        TcpCompressionCfg {
            enabled: true,
            algorithm: CompressionAlgorithm::Brotli,
            level: CompressionLevel::Default,
            min_size: 512,
        }
    }
}

impl TcpSecurityCfg {
    /// How many random octets the nonce of a frame takes: at least eight, and none without integrity.
    pub fn nonce_size(&self) -> (r: usize)
        ensures
            r == (if !self.enable_integrity {
                0
            } else if self.nonce_len < 8 {
                8
            } else {
                self.nonce_len as int
            }),
    {
        if !self.enable_integrity {
            0
        } else if self.nonce_len < 8 {
            8
        } else {
            self.nonce_len
        }
    }
}

impl TcpCompressionCfg {
    /// The coding in which a payload of `raw_size` octets is sent.
    pub open spec fn coding_for(&self, raw_size: nat) -> CompressionAlgorithm {
        if self.enabled && raw_size >= self.min_size && implemented(self.algorithm) {
            self.algorithm
        } else {
            CompressionAlgorithm::Identity
        }
    }

    /// Chooses the coding for a payload of `raw_size` octets.
    pub fn select_coding(&self, raw_size: usize) -> (r: CompressionAlgorithm)
        ensures
            r == self.coding_for(raw_size as nat),
    {
        if self.enabled && raw_size >= self.min_size && self.algorithm.is_implemented() {
            self.algorithm
        } else {
            CompressionAlgorithm::Identity
        }
    }
}

/// Chooses the coding for a payload from an `Accept-Encoding` value.
pub fn select_secure_tcp_compression_algorithm(accept_encoding: &str) -> (r: CompressionAlgorithm)
    ensures
        r == selected(accept_encoding@, false),
{
    select_compressing(accept_encoding)
}

/// Seals a frame. `coded` is what the codec of the chosen coding made of `raw_payload`, `None` where
/// the codec failed; it is not looked at under the identity.
pub fn encode_secure_tcp_frame(
    raw_payload: &[u8],
    security_cfg: &TcpSecurityCfg,
    compression_cfg: &TcpCompressionCfg,
    coded: Option<&[u8]>,
    nonce: &[u8],
    issued_at_unix: u64,
) -> (r: Result<(SecureTcpFrameMeta, Vec<u8>), EnvelopeError>)
    ensures
        frame_contents(r) == frame_sealed(
            FrameKind::Tcp,
            raw_payload@,
            compression_cfg.coding_for(raw_payload@.len()),
            opt_bytes(coded),
            security_cfg.enable_integrity,
            nonce@,
            issued_at_unix as nat,
        ),
{
    let algorithm = compression_cfg.select_coding(raw_payload.len());
    seal_frame(
        FrameKind::Tcp,
        raw_payload,
        algorithm,
        coded,
        security_cfg.enable_integrity,
        nonce,
        issued_at_unix,
    )
}

/// Unseals a frame. `plain` is what the codec made of the payload as sent, `None` where the codec
/// failed; it is not looked at under the identity.
pub fn decode_secure_tcp_frame(
    secure_frame: &[u8],
    security_cfg: &TcpSecurityCfg,
    plain: Option<&[u8]>,
) -> (r: Result<(SecureTcpFrameMeta, Vec<u8>), EnvelopeError>)
    ensures
        frame_contents(r) == frame_unsealed(
            FrameKind::Tcp,
            secure_frame@,
            security_cfg.enable_integrity,
            opt_bytes(plain),
        ),
{
    unseal_frame(FrameKind::Tcp, secure_frame, security_cfg.enable_integrity, plain)
}

/// Why a frame cannot be sent or received.
#[derive(Debug, Clone, Copy, PartialEq, Eq, Structural)]
pub enum FrameLengthError {
    TooLarge,
    Zero,
    ExceedsMaximum,
}

/// A frame as it goes on the stream: its length in four octets, then the frame.
pub fn length_prefixed(frame: &[u8]) -> (r: Result<Vec<u8>, FrameLengthError>)
    ensures
        match r {
            Ok(out) => frame@.len() <= u32::MAX && out@ == be32(frame@.len() as u32) + frame@,
            Err(e) => e == FrameLengthError::TooLarge && frame@.len() > u32::MAX,
        },
{
    if frame.len() as u64 > u32::MAX as u64 {
        return Err(FrameLengthError::TooLarge);
    }
    let mut out: Vec<u8> = Vec::new();
    push_be32(&mut out, frame.len() as u32);
    push_bytes(&mut out, frame);
    assert(out@ =~= be32(frame@.len() as u32) + frame@);
    Ok(out)
}

/// Reads the length of the frame that follows: not zero and not above the maximum.
pub fn frame_length(prefix: [u8; 4], max_frame_size: usize) -> (r: Result<u32, FrameLengthError>)
    ensures
        ({
            let n = from_be32(prefix[0], prefix[1], prefix[2], prefix[3]);
            match r {
                Ok(len) => len == n && 0 < n <= max_frame_size,
                Err(FrameLengthError::Zero) => n == 0,
                Err(FrameLengthError::ExceedsMaximum) => n > max_frame_size && n > 0,
                Err(FrameLengthError::TooLarge) => false,
            }
        }),
{
    let len = read_be32(prefix.as_slice(), 0);
    if len == 0 {
        Err(FrameLengthError::Zero)
    } else if len as u64 > max_frame_size as u64 {
        Err(FrameLengthError::ExceedsMaximum)
    } else {
        Ok(len)
    }
}

/// Takes another chunk into what was read so far; fails where it would be more than `max_bytes`, and
/// then leaves the buffer as it was.
pub fn take_chunk(buffer: &mut Vec<u8>, chunk: &[u8], max_bytes: usize) -> (r: Result<
    (),
    FrameLengthError,
>)
    ensures
        match r {
            Ok(()) => old(buffer)@.len() + chunk@.len() <= max_bytes && final(buffer)@ == old(
                buffer,
            )@ + chunk@,
            Err(e) => e == FrameLengthError::ExceedsMaximum && old(buffer)@.len() + chunk@.len()
                > max_bytes && final(buffer)@ == old(buffer)@,
        },
{
    if buffer.len() > max_bytes || chunk.len() > max_bytes - buffer.len() {
        return Err(FrameLengthError::ExceedsMaximum);
    }
    push_bytes(buffer, chunk);
    Ok(())
}

/// A length prefix announces the frame behind it.
pub proof fn law_length_prefix(n: u32)
    ensures
        be32(n).len() == 4,
        from_be32(be32(n)[0], be32(n)[1], be32(n)[2], be32(n)[3]) == n,
{
    crate::bytes::law_be32_roundtrip(n);
}

/// A payload is sent in the coding of the settings where they allow it and it is long enough, and as it is otherwise.
pub proof fn law_coding_by_size(cfg: TcpCompressionCfg, raw_size: nat)
    ensures
        cfg.enabled && raw_size >= cfg.min_size ==> cfg.coding_for(raw_size) == cfg.algorithm,
        !cfg.enabled || raw_size < cfg.min_size ==> cfg.coding_for(raw_size) == CompressionAlgorithm::Identity,
{
}

}
