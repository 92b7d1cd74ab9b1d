use singularity_net::net::envelope::EnvelopeError;
use singularity_net::net::http::compression::CompressionAlgorithm;
use singularity_net::net::http::trailer::common;
use singularity_net::net::http::trailer::{
    decode_secure_trailer_headers, is_forbidden_trailer_field, serialize_trailer_headers, TrailerError,
    TrailerHeaders,
};

const NONCE: [u8; 24] = [3; 24];

fn swapped(data: &[u8]) -> Vec<u8> {
    data.iter().rev().copied().collect()
}

#[test]
fn test_basic_trailer_creation() {
    let trailers = TrailerHeaders::new();
    assert!(trailers.is_empty());
    assert_eq!(trailers.len(), 0);
}

#[test]
fn test_add_valid_trailer() {
    let mut trailers = TrailerHeaders::new();

    let result = trailers.add("X-Checksum".to_string(), "abc123".to_string());
    assert!(result.is_ok());
    assert_eq!(trailers.len(), 1);
    assert_eq!(trailers.get("X-Checksum"), Some(&"abc123".to_string()));
}

#[test]
fn test_add_multiple_trailers() {
    let mut trailers = TrailerHeaders::new();

    trailers.add("X-Checksum".to_string(), "abc123".to_string()).unwrap();
    trailers.add("X-Status".to_string(), "OK".to_string()).unwrap();
    trailers.add("X-Processing-Time".to_string(), "1234ms".to_string()).unwrap();

    assert_eq!(trailers.len(), 3);
}

#[test]
fn test_forbidden_transfer_encoding() {
    let mut trailers = TrailerHeaders::new();
    let result = trailers.add("Transfer-Encoding".to_string(), "chunked".to_string());
    assert!(result.is_err());
}

#[test]
fn test_forbidden_content_length() {
    let mut trailers = TrailerHeaders::new();
    let result = trailers.add("Content-Length".to_string(), "100".to_string());
    assert!(result.is_err());
}

#[test]
fn test_forbidden_host() {
    let mut trailers = TrailerHeaders::new();
    let result = trailers.add("Host".to_string(), "example.com".to_string());
    assert!(result.is_err());
}

#[test]
fn test_forbidden_authorization() {
    let mut trailers = TrailerHeaders::new();
    let result = trailers.add("Authorization".to_string(), "Bearer token".to_string());
    assert!(result.is_err());
}

#[test]
fn test_forbidden_cookie() {
    let mut trailers = TrailerHeaders::new();
    let result = trailers.add("Cookie".to_string(), "session=abc".to_string());
    assert!(result.is_err());
}

#[test]
fn test_forbidden_set_cookie() {
    let mut trailers = TrailerHeaders::new();
    let result = trailers.add("Set-Cookie".to_string(), "session=abc".to_string());
    assert!(result.is_err());
}

#[test]
fn test_forbidden_content_encoding() {
    let mut trailers = TrailerHeaders::new();
    let result = trailers.add("Content-Encoding".to_string(), "gzip".to_string());
    assert!(result.is_err());
}

#[test]
fn test_forbidden_connection() {
    let mut trailers = TrailerHeaders::new();
    let result = trailers.add("Connection".to_string(), "close".to_string());
    assert!(result.is_err());
}

#[test]
fn test_allowed_custom_headers() {
    let mut trailers = TrailerHeaders::new();

    assert!(trailers.add("X-Custom-Header".to_string(), "value".to_string()).is_ok());
    assert!(trailers.add("X-Request-ID".to_string(), "12345".to_string()).is_ok());
    assert!(trailers.add("X-Trace-ID".to_string(), "trace-123".to_string()).is_ok());
}

#[test]
fn test_allowed_digest_headers() {
    let mut trailers = TrailerHeaders::new();

    assert!(trailers.add("Content-MD5".to_string(), "abc123".to_string()).is_ok());
    assert!(trailers.add("Digest".to_string(), "SHA-256=xyz".to_string()).is_ok());
    assert!(trailers.add("X-Content-SHA256".to_string(), "hash".to_string()).is_ok());
}

#[test]
fn test_trailer_with_expected_list() {
    let trailers = TrailerHeaders::with_expected("X-Checksum, X-Status, X-Time");

    let expected = trailers.expected.as_ref().unwrap();
    assert_eq!(expected.len(), 3);
    assert!(expected.contains("x-checksum"));
    assert!(expected.contains("x-status"));
    assert!(expected.contains("x-time"));
}

#[test]
fn test_trailer_with_whitespace_in_expected() {
    let trailers = TrailerHeaders::with_expected("  X-Checksum  ,  X-Status  ");

    let expected = trailers.expected.as_ref().unwrap();
    assert_eq!(expected.len(), 2);
    assert!(expected.contains("x-checksum"));
    assert!(expected.contains("x-status"));
}

#[test]
fn test_validate_expected_all_present() {
    let mut trailers = TrailerHeaders::with_expected("X-Checksum, X-Status");

    trailers.add("X-Checksum".to_string(), "abc".to_string()).unwrap();
    trailers.add("X-Status".to_string(), "OK".to_string()).unwrap();

    assert!(trailers.validate_expected().is_ok());
}

#[test]
fn test_validate_expected_missing() {
    let mut trailers = TrailerHeaders::with_expected("X-Checksum, X-Status");

    trailers.add("X-Checksum".to_string(), "abc".to_string()).unwrap();

    let result = trailers.validate_expected();
    assert!(result.is_err());
    let missing = result.unwrap_err();
    assert_eq!(missing.len(), 1);
    assert!(missing.contains(&"x-status".to_string()));
}

#[test]
fn test_parse_simple_trailers() {
    let data = b"X-Checksum: abc123\r\nX-Status: OK\r\n\r\n";

    let (trailers, _) = TrailerHeaders::parse(data, false, None).unwrap();

    assert_eq!(trailers.len(), 2);
    assert_eq!(trailers.get("X-Checksum"), Some(&"abc123".to_string()));
    assert_eq!(trailers.get("X-Status"), Some(&"OK".to_string()));
}

#[test]
fn test_parse_trailers_with_expected() {
    let data = b"X-Checksum: abc123\r\nX-Status: OK\r\n\r\n";

    let (trailers, _) = TrailerHeaders::parse(data, true, Some("X-Checksum, X-Status")).unwrap();

    assert_eq!(trailers.len(), 2);
    assert!(trailers.validate_expected().is_ok());
}

#[test]
fn test_parse_trailers_multiline_value() {
    let data = b"X-Long-Value: part1\r\n part2\r\nX-Status: OK\r\n\r\n";

    // The continuation line has no colon.
    let result = TrailerHeaders::parse(data, false, None);
    assert!(matches!(result, Err(TrailerError::Malformed(line)) if line == "part2"));
}

#[test]
fn test_parse_empty_trailers() {
    let data = b"\r\n";

    let (trailers, _) = TrailerHeaders::parse(data, false, None).unwrap();
    assert!(trailers.is_empty());
}

#[test]
fn test_parse_forbidden_in_trailer() {
    let data = b"Content-Length: 100\r\n\r\n";

    let result = TrailerHeaders::parse(data, false, None);
    assert!(result.is_err());
}

#[test]
fn test_parse_malformed_no_colon() {
    let data = b"Invalid Line\r\n\r\n";

    let result = TrailerHeaders::parse(data, false, None);
    assert!(result.is_err());
}

#[test]
fn test_parse_malformed_no_value() {
    let data = b"X-Header:\r\n\r\n";

    let (trailers, _) = TrailerHeaders::parse(data, false, None).unwrap();
    assert_eq!(trailers.len(), 1);
    assert_eq!(trailers.get("X-Header"), Some(&"".to_string()));
}

#[test]
fn test_parse_with_spaces() {
    let data = b"X-Checksum:   abc123   \r\nX-Status:  OK  \r\n\r\n";

    let (trailers, _) = TrailerHeaders::parse(data, false, None).unwrap();
    assert_eq!(trailers.get("X-Checksum"), Some(&"abc123".to_string()));
    assert_eq!(trailers.get("X-Status"), Some(&"OK".to_string()));
}

#[test]
fn test_into_map() {
    let mut trailers = TrailerHeaders::new();
    trailers.add("X-Checksum".to_string(), "abc".to_string()).unwrap();
    trailers.add("X-Status".to_string(), "OK".to_string()).unwrap();

    let map = trailers.into_map();
    assert_eq!(map.len(), 2);
    assert_eq!(map.get("X-Checksum"), Some(&"abc".to_string()));
}

#[test]
fn test_common_trailer_constants() {
    assert_eq!(common::CONTENT_MD5, "Content-MD5");
    assert_eq!(common::X_CONTENT_SHA256, "X-Content-SHA256");
    assert_eq!(common::DIGEST, "Digest");
    assert_eq!(common::SERVER_TIMING, "Server-Timing");
}

#[test]
fn test_is_forbidden_all_standard_fields() {
    // Transfer control
    assert!(is_forbidden_trailer_field("transfer-encoding"));
    assert!(is_forbidden_trailer_field("content-length"));
    assert!(is_forbidden_trailer_field("trailer"));

    // Request control
    assert!(is_forbidden_trailer_field("host"));
    assert!(is_forbidden_trailer_field("cache-control"));
    assert!(is_forbidden_trailer_field("expect"));
    assert!(is_forbidden_trailer_field("pragma"));

    // Authentication
    assert!(is_forbidden_trailer_field("authorization"));
    assert!(is_forbidden_trailer_field("proxy-authorization"));

    // Cookies
    assert!(is_forbidden_trailer_field("cookie"));
    assert!(is_forbidden_trailer_field("set-cookie"));

    // Connection
    assert!(is_forbidden_trailer_field("connection"));
    assert!(is_forbidden_trailer_field("upgrade"));

    // Conditional
    assert!(is_forbidden_trailer_field("if-match"));
    assert!(is_forbidden_trailer_field("if-none-match"));
}

#[test]
fn test_is_not_forbidden_custom_fields() {
    assert!(!is_forbidden_trailer_field("x-custom"));
    assert!(!is_forbidden_trailer_field("x-request-id"));
    assert!(!is_forbidden_trailer_field("server-timing"));
    assert!(!is_forbidden_trailer_field("content-md5"));
}

#[test]
fn test_case_insensitive_forbidden_check() {
    assert!(is_forbidden_trailer_field("content-length"));
    assert!(is_forbidden_trailer_field("Content-Length"));
    assert!(is_forbidden_trailer_field("CONTENT-LENGTH"));
}

#[test]
fn test_real_world_digest_trailer() {
    let data = b"Digest: SHA-256=X48E9qOokqqrvdts8nOJRJN3OWDUoyWxBf7kbu9DBPE=\r\n\r\n";

    let (trailers, _) = TrailerHeaders::parse(data, false, None).unwrap();
    assert_eq!(trailers.len(), 1);
    assert!(trailers.get("Digest").is_some());
}

#[test]
fn test_real_world_server_timing_trailer() {
    let data = b"Server-Timing: db;dur=123, api;dur=456\r\n\r\n";

    let (trailers, _) = TrailerHeaders::parse(data, false, None).unwrap();
    assert_eq!(trailers.len(), 1);
    assert_eq!(trailers.get("Server-Timing"), Some(&"db;dur=123, api;dur=456".to_string()));
}

#[test]
fn test_multiple_trailers_with_validation() {
    let data = b"X-Checksum: abc123\r\nX-Status: complete\r\nX-Time: 1234ms\r\n\r\n";

    let (trailers, _) = TrailerHeaders::parse(data, true, Some("X-Checksum, X-Status, X-Time")).unwrap();
    assert_eq!(trailers.len(), 3);
    assert!(trailers.validate_expected().is_ok());
}

#[test]
fn test_unexpected_trailer_still_parsed() {
    let data = b"X-Checksum: abc123\r\nX-Unexpected: value\r\n\r\n";

    let (trailers, _) = TrailerHeaders::parse(data, true, Some("X-Checksum")).unwrap();
    assert_eq!(trailers.len(), 2);
    assert_eq!(trailers.get("X-Unexpected"), Some(&"value".to_string()));
}

#[test]
fn test_trailer_creation() {
    let mut trailers = TrailerHeaders::new();
    assert!(trailers.is_empty());

    trailers
        .add("X-Custom".to_string(), "value".to_string())
        .unwrap();
    assert_eq!(trailers.len(), 1);
    assert_eq!(trailers.get("X-Custom"), Some(&"value".to_string()));
}

#[test]
fn test_forbidden_trailer_fields() {
    assert!(is_forbidden_trailer_field("transfer-encoding"));
    assert!(is_forbidden_trailer_field("content-length"));
    assert!(is_forbidden_trailer_field("host"));
    assert!(is_forbidden_trailer_field("authorization"));
    assert!(is_forbidden_trailer_field("cookie"));

    assert!(!is_forbidden_trailer_field("x-custom-header"));
    assert!(!is_forbidden_trailer_field("content-md5"));
    assert!(!is_forbidden_trailer_field("digest"));
}

#[test]
fn test_trailer_validation_forbidden() {
    let mut trailers = TrailerHeaders::new();

    let result = trailers.add("Content-Length".to_string(), "100".to_string());
    assert!(result.is_err());
    assert_eq!(trailers.len(), 0);
}

#[test]
fn test_trailer_with_expected() {
    let trailers = TrailerHeaders::with_expected("X-Checksum, X-Status");
    assert_eq!(trailers.expected.as_ref().unwrap().len(), 2);
    assert!(trailers.expected.as_ref().unwrap().contains("x-checksum"));
    assert!(trailers.expected.as_ref().unwrap().contains("x-status"));
}

#[test]
fn test_trailer_parse() {
    let data = b"X-Checksum: abc123\r\nX-Status: OK\r\n\r\n";

    let (trailers, _) = TrailerHeaders::parse(data, false, None).unwrap();
    assert_eq!(trailers.len(), 2);
    assert_eq!(trailers.get("X-Checksum"), Some(&"abc123".to_string()));
    assert_eq!(trailers.get("X-Status"), Some(&"OK".to_string()));
}

#[test]
fn test_trailer_parse_with_expected() {
    let data = b"X-Checksum: abc123\r\nX-Status: OK\r\n\r\n";

    let (trailers, _) = TrailerHeaders::parse(data, true, Some("X-Checksum, X-Status")).unwrap();
    assert_eq!(trailers.len(), 2);
    assert!(trailers.validate_expected().is_ok());
}

#[test]
fn test_trailer_parse_missing_expected() {
    let data = b"X-Checksum: abc123\r\n\r\n";

    let (trailers, _) = TrailerHeaders::parse(data, true, Some("X-Checksum, X-Status")).unwrap();
    assert_eq!(trailers.len(), 1);

    let result = trailers.validate_expected();
    assert!(result.is_err());
    assert_eq!(result.unwrap_err(), vec!["x-status"]);
}

#[test]
fn test_trailer_parse_forbidden_field() {
    let data = b"Content-Length: 100\r\n\r\n";

    let result = TrailerHeaders::parse(data, false, None);
    assert!(result.is_err());
}

#[test]
fn test_trailer_parse_malformed() {
    let data = b"Invalid Line Without Colon\r\n\r\n";

    let result = TrailerHeaders::parse(data, false, None);
    assert!(result.is_err());
}

#[test]
fn test_common_trailer_fields() {
    assert!(!is_forbidden_trailer_field(
        common::CONTENT_MD5.to_lowercase().as_str()
    ));
    assert!(!is_forbidden_trailer_field(
        common::X_CONTENT_SHA256.to_lowercase().as_str()
    ));
    assert!(!is_forbidden_trailer_field(common::DIGEST.to_lowercase().as_str()));
    assert!(!is_forbidden_trailer_field(
        common::SERVER_TIMING.to_lowercase().as_str()
    ));
}

#[test]
fn test_secure_trailer_blob_roundtrip_identity() {
    let mut trailers = TrailerHeaders::with_expected("X-Checksum, X-Status");
    trailers
        .add("X-Checksum".to_string(), "abc123".to_string())
        .unwrap();
    trailers
        .add("X-Status".to_string(), "OK".to_string())
        .unwrap();

    let (meta, blob) = trailers
        .to_secure_blob(CompressionAlgorithm::Identity, None, &NONCE, 1)
        .unwrap();
    assert_eq!(meta.algorithm, CompressionAlgorithm::Identity);

    let (decoded_meta, restored) = TrailerHeaders::from_secure_blob(&blob, None).unwrap();
    assert_eq!(decoded_meta.algorithm, CompressionAlgorithm::Identity);
    assert_eq!(restored.get("X-Checksum"), Some(&"abc123".to_string()));
    assert_eq!(restored.get("X-Status"), Some(&"OK".to_string()));
    assert!(restored
        .expected
        .as_ref()
        .unwrap()
        .contains("x-checksum"));
    assert!(restored.expected.as_ref().unwrap().contains("x-status"));
}

#[test]
fn test_secure_trailer_blob_roundtrip_auto() {
    let mut trailers = TrailerHeaders::new();
    trailers
        .add("X-Content-SHA256".to_string(), "deadbeef".to_string())
        .unwrap();

    let raw = serialize_trailer_headers(&trailers);
    let coded = swapped(&raw);
    let (meta, blob) = trailers
        .to_secure_blob_auto("gzip, br;q=0.5, identity;q=0.1", Some(&coded), &NONCE, 1)
        .unwrap();
    assert!(meta.encoded_size > 0);

    let (decoded_meta, restored) = decode_secure_trailer_headers(&blob, Some(&swapped(&coded))).unwrap();
    assert_eq!(decoded_meta.algorithm, meta.algorithm);
    assert_eq!(restored.get("X-Content-SHA256"), Some(&"deadbeef".to_string()));
}

#[test]
fn test_secure_trailer_blob_tamper_detection() {
    let mut trailers = TrailerHeaders::new();
    trailers
        .add("X-Trailer-Status".to_string(), "ok".to_string())
        .unwrap();

    let (_, mut blob) = trailers
        .to_secure_blob(CompressionAlgorithm::Identity, None, &NONCE, 1)
        .unwrap();
    let idx = blob.len() - 1;
    blob[idx] ^= 0x01;

    let err = TrailerHeaders::from_secure_blob(&blob, None).unwrap_err();
    assert_eq!(err, EnvelopeError::TagMismatch);
}


#[test]
fn serialized_trailers_are_sorted() {
    let mut trailers = TrailerHeaders::with_expected("X-B, X-A");
    trailers.add("b".to_string(), "2".to_string()).unwrap();
    trailers.add("a".to_string(), "1".to_string()).unwrap();
    let text = String::from_utf8(serialize_trailer_headers(&trailers)).unwrap();
    assert_eq!(text, "e=eC1h\ne=eC1i\nh=YQ==|MQ==\nh=Yg==|Mg==");
}

#[test]
fn trailers_stop_at_the_blank_line() {
    let (trailers, missing) =
        TrailerHeaders::parse(b"A: 1\n\nB: 2\n\xff", true, Some("A, B, C")).unwrap();
    assert_eq!(trailers.len(), 1);
    assert_eq!(missing, vec!["b", "c"]);
}

#[test]
fn trailers_that_are_not_text_are_refused() {
    let refused = TrailerHeaders::parse(b"A: \xff\n", false, None).err().unwrap();
    assert!(matches!(refused, TrailerError::NotUtf8));
    assert_eq!(refused.message(), "stream did not contain valid UTF-8");
}

#[test]
fn trailer_errors_tell_what_was_wrong() {
    let mut trailers = TrailerHeaders::new();
    let refused = trailers.add("Host".to_string(), "x".to_string()).err().unwrap();
    assert_eq!(refused.message(), "Forbidden trailer field: Host");
    let refused = TrailerHeaders::parse(b" nothing here \n", false, None).err().unwrap();
    assert_eq!(refused.message(), "Malformed trailer line: nothing here");
}

#[test]
fn trailer_names_are_lowered_by_unicode() {
    let trailers = TrailerHeaders::with_expected("X-\u{c4}");
    assert!(trailers.expected.as_ref().unwrap().contains("x-\u{e4}"));
}

#[test]
fn sealed_trailers_keep_their_rules() {
    let mut trailers = TrailerHeaders::new();
    trailers.add("a".to_string(), "1".to_string()).unwrap();
    let (_, blob) = trailers.to_secure_blob(CompressionAlgorithm::Zstd, Some(b"x"), &NONCE, 1).unwrap();
    // "Host" is forbidden, whatever vouches for it.
    assert_eq!(
        decode_secure_trailer_headers(&blob, Some(b"h=SG9zdA==|eA==")).err().unwrap(),
        EnvelopeError::RawSizeMismatch
    );
}

#[test]
fn announced_names_survive_a_round_trip() {
    for value in ["Digest, X-Checksum", "", " A ,b,, A"] {
        let mut t = TrailerHeaders::with_expected(value);
        t.add("X-Checksum".to_string(), "1".to_string()).unwrap();
        let (_, blob) = t.to_secure_blob(CompressionAlgorithm::Identity, None, &NONCE, 1).unwrap();
        let (_, back) = TrailerHeaders::from_secure_blob(&blob, None).unwrap();
        assert_eq!(back.get("X-Checksum"), Some(&"1".to_string()));
        assert_eq!(serialize_trailer_headers(&back), serialize_trailer_headers(&t));
        assert_eq!(back.validate_expected(), t.validate_expected());
    }
}
