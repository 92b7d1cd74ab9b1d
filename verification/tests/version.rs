use singularity_net::net::envelope::EnvelopeError;
use singularity_net::net::http::compression::CompressionAlgorithm;
use singularity_net::net::http::version::{
    deserialize_http_version, serialize_http_version, HttpVersion,
};

const NONCE: [u8; 24] = [5; 24];

fn swapped(data: &[u8]) -> Vec<u8> {
    data.iter().rev().copied().collect()
}

#[test]
fn test_http_version_from_str_variants() {
    assert_eq!(HttpVersion::from_str("HTTP/1.0"), Some(HttpVersion::Http10));
    assert_eq!(HttpVersion::from_str("HTTP/1.1"), Some(HttpVersion::Http11));
    assert_eq!(HttpVersion::from_str("HTTP/2"), Some(HttpVersion::Http2));
    assert_eq!(HttpVersion::from_str("h2"), Some(HttpVersion::Http2));
    assert_eq!(HttpVersion::from_str("HTTP/3"), Some(HttpVersion::Http3));
    assert_eq!(HttpVersion::from_str("h3"), Some(HttpVersion::Http3));
    assert_eq!(HttpVersion::from_str("HTTP/9.9"), None);
}

#[test]
fn test_http_version_negotiate_prefers_highest_supported() {
    let supported = [HttpVersion::Http11, HttpVersion::Http2];
    assert_eq!(
        HttpVersion::negotiate(&supported, HttpVersion::Http3),
        HttpVersion::Http2
    );
}

#[test]
fn test_secure_blob_roundtrip_identity() {
    let version = HttpVersion::Http2;
    let (meta, blob) = version
        .to_secure_blob(CompressionAlgorithm::Identity, None, &NONCE, 1)
        .expect("failed to encode secure blob");

    assert_eq!(meta.algorithm, CompressionAlgorithm::Identity);

    let (decoded_meta, decoded_version) =
        HttpVersion::from_secure_blob(&blob, None).expect("failed to decode secure blob");

    assert_eq!(decoded_meta.raw_size, meta.raw_size);
    assert_eq!(decoded_version, version);
}

#[test]
fn test_secure_blob_roundtrip_compressed() {
    let version = HttpVersion::Http3;
    let coded = swapped(&serialize_http_version(&version));
    let (_meta, blob) = version
        .to_secure_blob(CompressionAlgorithm::Gzip, Some(&coded), &NONCE, 1)
        .expect("failed to encode secure compressed blob");

    let (_decoded_meta, decoded_version) = HttpVersion::from_secure_blob(&blob, Some(&swapped(&coded)))
        .expect("failed to decode secure compressed blob");

    assert_eq!(decoded_version, version);
}

#[test]
fn test_secure_blob_tamper_detected() {
    let version = HttpVersion::Http11;
    let (_meta, mut blob) = version
        .to_secure_blob(CompressionAlgorithm::Identity, None, &NONCE, 1)
        .expect("failed to encode secure blob");

    let idx = blob
        .len()
        .checked_sub(1)
        .expect("blob should not be empty");
    blob[idx] ^= 0x01;

    let result = HttpVersion::from_secure_blob(&blob, None);
    assert!(result.is_err());
}

#[test]
fn test_parse_alt_svc() {
    let parsed = HttpVersion::parse_alt_svc(r#"h3=":443"; ma=86400, h2="example.com:8443""#);
    assert_eq!(parsed.len(), 2);
    assert_eq!(parsed[0].0, HttpVersion::Http3);
    assert_eq!(parsed[1].0, HttpVersion::Http2);
    assert_eq!(parsed[1].1, "example.com");
    assert_eq!(parsed[1].2, 8443);
}

#[test]
fn test_http_version_comparison() {
    assert_eq!(HttpVersion::Http10, HttpVersion::Http10);
    assert_ne!(HttpVersion::Http11, HttpVersion::Http2);

    assert_eq!(HttpVersion::Http10.as_str(), "HTTP/1.0");
    assert_eq!(HttpVersion::Http11.as_str(), "HTTP/1.1");
    assert_eq!(HttpVersion::Http2.as_str(), "HTTP/2.0");
}

#[test]
fn alt_svc_elements_that_say_nothing_are_passed_over() {
    let parsed = HttpVersion::parse_alt_svc("clear, spdy=\":1\", h2=\"host\", h3-29=\"[::1]:70000\", http/1.1=a:80");
    assert_eq!(parsed, vec![(HttpVersion::Http11, "a".to_string(), 80)]);
}

#[test]
fn negotiation_without_common_ground() {
    assert_eq!(HttpVersion::negotiate(&[], HttpVersion::Http3), HttpVersion::Http11);
    assert_eq!(
        HttpVersion::negotiate(&[HttpVersion::Http10, HttpVersion::Http3], HttpVersion::Http10),
        HttpVersion::Http10
    );
}

#[test]
fn version_abilities() {
    assert_eq!(HttpVersion::Http3.alpn_protocol(), Some(&b"h3"[..]));
    assert_eq!(HttpVersion::Http11.alpn_protocol(), Some(&b"http/1.1"[..]));
    assert_eq!(HttpVersion::Http10.alpn_protocol(), None);
    assert!(HttpVersion::Http3.uses_quic() && !HttpVersion::Http2.uses_quic());
    assert_eq!(HttpVersion::Http10.default_accept_encoding(), "identity");
    assert_eq!(HttpVersion::default(), HttpVersion::Http11);
    assert_eq!(HttpVersion::Http2.priority(), 3);
}

#[test]
fn serialized_version_is_exact() {
    let text = String::from_utf8(serialize_http_version(&HttpVersion::Http10)).unwrap();
    assert_eq!(
        text,
        "version=HTTP/1.0\npriority=1\nis-binary=0\nuses-quic=0\nrequires-tls=0\nalpn=\n"
    );
}

#[test]
fn version_that_boasts_is_refused() {
    assert_eq!(deserialize_http_version(b"version=h2"), Some(HttpVersion::Http2));
    assert_eq!(deserialize_http_version(b"version=h2\npriority=4"), None);
    assert_eq!(deserialize_http_version(b"version=h2\nuses-quic=True"), None);
    assert_eq!(deserialize_http_version(b"version=h2\nalpn=h3"), None);
    assert_eq!(deserialize_http_version(b"priority=4"), None);
    assert_eq!(deserialize_http_version(b"\xff"), None);
}

#[test]
fn version_blob_header_is_lenient() {
    let (_, blob) =
        HttpVersion::Http2.to_secure_blob(CompressionAlgorithm::Identity, None, &NONCE, 8).unwrap();
    let text = String::from_utf8(blob).unwrap();
    let bare = text.replace("digest=SHA-256=", "digest=").replace("\nnonce=", "\nnothing\n nonce = ");
    assert!(HttpVersion::from_secure_blob(bare.as_bytes(), None).is_ok());
    let refused = |t: String| HttpVersion::from_secure_blob(t.as_bytes(), None).err().unwrap();
    assert_eq!(refused(text.replace("nonce=", "n=")), EnvelopeError::MissingSecurityFields);
    assert_eq!(refused(text.replace("issued-at=8", "issued-at=x")), EnvelopeError::BadIssuedAt);
    assert_eq!(refused(text.replace("issued-at=8", "issued=8")), EnvelopeError::MissingIssuedAt);
    assert_eq!(refused(text.replace("raw-size=", "raw-size=z")), EnvelopeError::BadRawSize);
    assert_eq!(refused(text.replace("_BLOB_V1", "_BLOB_V9")), EnvelopeError::BadMagic);
    assert_eq!(refused("\n\n".to_string()), EnvelopeError::MissingMagic);
}
