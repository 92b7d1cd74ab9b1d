use singularity_net::net::envelope::EnvelopeError;
use singularity_net::net::http::compression::{CompressionAlgorithm, CompressionLevel};
use singularity_net::net::tcp::{
    decode_secure_tcp_frame, encode_secure_tcp_frame, frame_length, length_prefixed,
    select_secure_tcp_compression_algorithm, take_chunk, FrameLengthError, TcpCompressionCfg,
    TcpSecurityCfg,
};
use singularity_net::net::udp::{
    decode_secure_udp_datagram, encode_secure_udp_datagram, select_secure_udp_compression_algorithm,
    UdpCompressionCfg, UdpSecurityCfg,
};
use singularity_net::net::{
    decode_secure_net_payload, encode_secure_net_payload, encode_secure_net_payload_auto,
    select_secure_compression_algorithm,
};

const NONCE: [u8; 24] = [9; 24];

fn swapped(data: &[u8]) -> Vec<u8> {
    data.iter().rev().copied().collect()
}

fn no_tcp_compression() -> TcpCompressionCfg {
    TcpCompressionCfg {
        enabled: false,
        algorithm: CompressionAlgorithm::Identity,
        level: CompressionLevel::Default,
        min_size: usize::MAX,
    }
}

fn no_udp_compression() -> UdpCompressionCfg {
    UdpCompressionCfg {
        enabled: false,
        algorithm: CompressionAlgorithm::Identity,
        level: CompressionLevel::Default,
        min_size: usize::MAX,
    }
}

#[test]
fn test_secure_net_roundtrip_identity() {
    let payload = b"hello secure net".to_vec();
    let (meta, blob) =
        encode_secure_net_payload(&payload, CompressionAlgorithm::Identity, None, &NONCE, 1).unwrap();

    assert_eq!(meta.algorithm, CompressionAlgorithm::Identity);

    let (decoded_meta, decoded) = decode_secure_net_payload(&blob, None).unwrap();
    assert_eq!(decoded_meta.algorithm, CompressionAlgorithm::Identity);
    assert_eq!(decoded, payload);
}

#[test]
fn test_secure_net_roundtrip_gzip() {
    let payload = b"repeat repeat repeat repeat repeat repeat repeat".to_vec();
    let coded = swapped(&payload);
    let (meta, blob) =
        encode_secure_net_payload(&payload, CompressionAlgorithm::Gzip, Some(&coded), &NONCE, 1).unwrap();

    assert_eq!(meta.algorithm, CompressionAlgorithm::Gzip);

    let (decoded_meta, decoded) = decode_secure_net_payload(&blob, Some(&swapped(&coded))).unwrap();
    assert_eq!(decoded_meta.algorithm, CompressionAlgorithm::Gzip);
    assert_eq!(decoded, payload);
}

#[test]
fn test_secure_net_tamper_detection() {
    let payload = b"tamper-target".to_vec();
    let (_, mut blob) =
        encode_secure_net_payload(&payload, CompressionAlgorithm::Identity, None, &NONCE, 1).unwrap();

    let idx = blob.len() - 1;
    blob[idx] ^= 0x01;

    let result = decode_secure_net_payload(&blob, None);
    assert!(result.is_err());
}

#[test]
fn test_select_secure_compression_algorithm() {
    let algo = select_secure_compression_algorithm("br;q=0.2, gzip;q=0.9, identity;q=0.1");
    assert_eq!(algo, CompressionAlgorithm::Gzip);
}

#[test]
fn test_auto_secure_encoding() {
    let payload = b"auto select".to_vec();
    let (meta, _) =
        encode_secure_net_payload_auto(&payload, "zstd, gzip;q=0.8", Some(&payload), &NONCE, 1).unwrap();
    assert_ne!(meta.algorithm, CompressionAlgorithm::Identity);
}

#[test]
fn test_select_secure_tcp_compression_algorithm() {
    let selected = select_secure_tcp_compression_algorithm("identity;q=0.1, br;q=1.0");
    assert_eq!(selected, CompressionAlgorithm::Brotli);

    let selected_identity = select_secure_tcp_compression_algorithm("identity");
    assert_eq!(selected_identity, CompressionAlgorithm::Identity);
}

#[test]
fn test_secure_tcp_frame_roundtrip_identity() {
    let payload = b"hello secure tcp".to_vec();
    let security_cfg = TcpSecurityCfg::default();
    let compression_cfg = no_tcp_compression();

    let (meta, frame) =
        encode_secure_tcp_frame(&payload, &security_cfg, &compression_cfg, None, &NONCE, 1)
            .expect("encode must succeed");
    assert_eq!(meta.algorithm, CompressionAlgorithm::Identity);

    let (_, decoded) =
        decode_secure_tcp_frame(&frame, &security_cfg, None).expect("decode must succeed");
    assert_eq!(decoded, payload);
}

#[test]
fn test_secure_tcp_frame_roundtrip_compressed() {
    let payload = vec![b'a'; 4096];
    let security_cfg = TcpSecurityCfg::default();
    let compression_cfg = TcpCompressionCfg {
        enabled: true,
        algorithm: CompressionAlgorithm::Gzip,
        level: CompressionLevel::Default,
        min_size: 1,
    };

    let coded = b"much shorter".to_vec();
    let (meta, frame) =
        encode_secure_tcp_frame(&payload, &security_cfg, &compression_cfg, Some(&coded), &NONCE, 1)
            .expect("encode must succeed");
    assert_eq!(meta.algorithm, CompressionAlgorithm::Gzip);

    let (_, decoded) =
        decode_secure_tcp_frame(&frame, &security_cfg, Some(&payload)).expect("decode must succeed");
    assert_eq!(decoded, payload);
}

#[test]
fn test_secure_tcp_frame_tamper_detected() {
    let payload = b"integrity check payload".to_vec();
    let security_cfg = TcpSecurityCfg::default();
    let compression_cfg = no_tcp_compression();

    let (_, mut frame) =
        encode_secure_tcp_frame(&payload, &security_cfg, &compression_cfg, None, &NONCE, 1)
            .expect("encode must succeed");

    let last = frame.len().saturating_sub(1);
    frame[last] ^= 0x01;

    let result = decode_secure_tcp_frame(&frame, &security_cfg, None);
    assert!(result.is_err());
}

#[test]
fn test_secure_tcp_frame_requires_integrity_when_enabled() {
    let payload = b"no-integrity payload".to_vec();
    let no_integrity_cfg = TcpSecurityCfg {
        enable_integrity: false,
        nonce_len: 0,
    };
    let compression_cfg = no_tcp_compression();

    let (_, frame) =
        encode_secure_tcp_frame(&payload, &no_integrity_cfg, &compression_cfg, None, &[], 1)
            .expect("encode must succeed");

    let result = decode_secure_tcp_frame(&frame, &TcpSecurityCfg::default(), None);
    assert!(result.is_err());
}

#[test]
fn test_select_secure_udp_compression_algorithm() {
    let selected = select_secure_udp_compression_algorithm("identity;q=0.1, br;q=1.0");
    assert_eq!(selected, CompressionAlgorithm::Brotli);

    let selected_identity = select_secure_udp_compression_algorithm("identity");
    assert_eq!(selected_identity, CompressionAlgorithm::Identity);
}

#[test]
fn test_secure_udp_datagram_roundtrip_identity() {
    let payload = b"hello secure udp".to_vec();
    let security_cfg = UdpSecurityCfg::default();
    let compression_cfg = no_udp_compression();

    let (meta, datagram) =
        encode_secure_udp_datagram(&payload, &security_cfg, &compression_cfg, None, &NONCE, 1)
            .expect("encode must succeed");
    assert_eq!(meta.algorithm, CompressionAlgorithm::Identity);

    let (_, decoded) =
        decode_secure_udp_datagram(&datagram, &security_cfg, None).expect("decode must succeed");
    assert_eq!(decoded, payload);
}

#[test]
fn test_secure_udp_datagram_roundtrip_compressed() {
    let payload = vec![b'a'; 4096];
    let security_cfg = UdpSecurityCfg::default();
    let compression_cfg = UdpCompressionCfg {
        enabled: true,
        algorithm: CompressionAlgorithm::Gzip,
        level: CompressionLevel::Default,
        min_size: 1,
    };

    let coded = b"much shorter".to_vec();
    let (meta, datagram) =
        encode_secure_udp_datagram(&payload, &security_cfg, &compression_cfg, Some(&coded), &NONCE, 1)
            .expect("encode must succeed");
    assert_eq!(meta.algorithm, CompressionAlgorithm::Gzip);

    let (_, decoded) = decode_secure_udp_datagram(&datagram, &security_cfg, Some(&payload))
        .expect("decode must succeed");
    assert_eq!(decoded, payload);
}

#[test]
fn test_secure_udp_datagram_tamper_detected() {
    let payload = b"integrity check payload".to_vec();
    let security_cfg = UdpSecurityCfg::default();
    let compression_cfg = no_udp_compression();

    let (_, mut datagram) =
        encode_secure_udp_datagram(&payload, &security_cfg, &compression_cfg, None, &NONCE, 1)
            .expect("encode must succeed");

    let last = datagram.len().saturating_sub(1);
    datagram[last] ^= 0x01;

    let result = decode_secure_udp_datagram(&datagram, &security_cfg, None);
    assert!(result.is_err());
}

#[test]
fn test_secure_udp_datagram_requires_integrity_when_enabled() {
    let payload = b"no-integrity payload".to_vec();
    let no_integrity_cfg = UdpSecurityCfg {
        enable_integrity: false,
        nonce_len: 0,
    };
    let compression_cfg = no_udp_compression();

    let (_, datagram) =
        encode_secure_udp_datagram(&payload, &no_integrity_cfg, &compression_cfg, None, &[], 1)
            .expect("encode must succeed");

    let result = decode_secure_udp_datagram(&datagram, &UdpSecurityCfg::default(), None);
    assert!(result.is_err());
}

#[test]
fn net_envelope_faults() {
    let (_, blob) =
        encode_secure_net_payload(b"abc", CompressionAlgorithm::Identity, None, &NONCE, 5).unwrap();
    let text = String::from_utf8(blob).unwrap();
    let refused = |changed: String| decode_secure_net_payload(changed.as_bytes(), None).err().unwrap();
    assert_eq!(refused("no header".to_string()), EnvelopeError::MissingSeparator);
    assert_eq!(refused(text.replace("_V1\n", "_V2\n")), EnvelopeError::BadMagic);
    assert_eq!(
        refused(text.replace("content-encoding=identity", "content-encoding=lzma")),
        EnvelopeError::UnsupportedEncoding
    );
    assert_eq!(refused(text.replace("nonce=", "n=")), EnvelopeError::MissingNonce);
    assert_eq!(refused(text.replace("digest=", "d=")), EnvelopeError::MissingDigest);
    assert_eq!(refused(text.replace("tag=", "t=")), EnvelopeError::MissingTag);
    assert_eq!(refused(text.replace("raw-size=3", "raw-size=x")), EnvelopeError::MissingRawSize);
    assert_eq!(
        refused(text.replace("encoded-size=3", "encoded-size=")),
        EnvelopeError::MissingEncodedSize
    );
    assert_eq!(
        refused(text.replace("encoded-size=3", "encoded-size=4")),
        EnvelopeError::EncodedSizeMismatch
    );
    assert_eq!(refused(text.replace("issued-at=5", "issued-at=-5")), EnvelopeError::MissingIssuedAt);
    assert_eq!(refused(text.replace("raw-size=3", "raw-size=4")), EnvelopeError::TagMismatch);
    let mut not_text = text.clone().into_bytes();
    not_text[0] = 0xff;
    assert_eq!(
        decode_secure_net_payload(&not_text, None).err().unwrap(),
        EnvelopeError::HeaderNotUtf8
    );
    assert_eq!(EnvelopeError::BadMagic.message(), "magic mismatch");
}

#[test]
fn net_codec_failure_is_told() {
    assert_eq!(
        encode_secure_net_payload(b"abc", CompressionAlgorithm::Zstd, None, &NONCE, 5).err().unwrap(),
        EnvelopeError::Codec
    );
    let (_, blob) =
        encode_secure_net_payload(b"abc", CompressionAlgorithm::Zstd, Some(b"x"), &NONCE, 5).unwrap();
    assert_eq!(decode_secure_net_payload(&blob, None).err().unwrap(), EnvelopeError::Codec);
    assert_eq!(
        decode_secure_net_payload(&blob, Some(b"abcd")).err().unwrap(),
        EnvelopeError::RawSizeMismatch
    );
    assert_eq!(
        decode_secure_net_payload(&blob, Some(b"abd")).err().unwrap(),
        EnvelopeError::DigestMismatch
    );
    assert_eq!(decode_secure_net_payload(&blob, Some(b"abc")).unwrap().1, b"abc");
}

#[test]
fn stream_frames_carry_their_length() {
    assert_eq!(length_prefixed(b"abc").unwrap(), vec![0, 0, 0, 3, b'a', b'b', b'c']);
    assert_eq!(frame_length([0, 0, 1, 2], 300).unwrap(), 258);
    assert!(matches!(frame_length([0, 0, 0, 0], 300), Err(FrameLengthError::Zero)));
    assert!(matches!(frame_length([0, 0, 1, 45], 300), Err(FrameLengthError::ExceedsMaximum)));
}

#[test]
fn chunks_are_taken_up_to_the_limit() {
    let mut buffer = vec![1, 2];
    take_chunk(&mut buffer, &[3], 3).unwrap();
    assert_eq!(buffer, vec![1, 2, 3]);
    assert!(take_chunk(&mut buffer, &[4], 3).is_err());
}

#[test]
fn nonce_size_has_a_floor() {
    assert_eq!(TcpSecurityCfg { enable_integrity: true, nonce_len: 3 }.nonce_size(), 8);
    assert_eq!(TcpSecurityCfg { enable_integrity: false, nonce_len: 3 }.nonce_size(), 0);
    assert_eq!(UdpSecurityCfg { enable_integrity: true, nonce_len: 30 }.nonce_size(), 30);
}
