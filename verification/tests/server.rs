use singularity_net::crypto::base64;
use singularity_net::net::envelope::EnvelopeError;
use singularity_net::net::http::message::MessageError;
use singularity_net::net::http::server::{
    deserialize_http_server_profile, read_head_fields, serialize_http_server_profile,
};
use singularity_net::net::http::{
    CompressionAlgorithm, HttpMethod, HttpRequest, HttpResponse, HttpServer, HttpServerCfg, HttpVersion,
};
use singularity_net::table::Table;

const NONCE: [u8; 24] = [6; 24];

const NOW: u64 = 1_700_000_000;

fn response(body: &[u8], fields: &[(&str, &str)]) -> HttpResponse {
    let mut headers: Table<String> = Table::new();
    for (k, v) in fields {
        headers.insert(k.to_string(), v.to_string());
    }
    HttpResponse::new(200, "OK".to_string(), HttpVersion::Http11, headers, body.to_vec())
}

#[test]
fn test_server_creation() {
    let server = HttpServer::new();
    assert!(!server.running);
}

#[test]
fn test_server_config() {
    let config = HttpServerCfg::default();
    assert_eq!(config.max_connections, 100);
    assert_eq!(config.max_body_size, 10 * 1024 * 1024);
}

#[test]
fn test_secure_server_profile_roundtrip_identity() {
    let mut server = HttpServer::new();
    server.address = Some("127.0.0.1:8080".to_string());

    let (meta, blob) = server
        .to_secure_profile_blob(CompressionAlgorithm::Identity, None, &NONCE, NOW)
        .unwrap();
    assert_eq!(meta.algorithm, CompressionAlgorithm::Identity);

    let (decoded_meta, restored) = HttpServer::from_secure_profile_blob(&blob, None).unwrap();
    assert_eq!(decoded_meta.algorithm, CompressionAlgorithm::Identity);
    assert_eq!(restored.cfg.max_connections, server.cfg.max_connections);
    assert_eq!(restored.cfg.max_body_size, server.cfg.max_body_size);
    assert_eq!(restored.cfg.keep_alive, server.cfg.keep_alive);
    assert_eq!(restored.cfg.default_version, server.cfg.default_version);
    assert_eq!(restored.address, server.address);
    assert!(!restored.running);
}

#[test]
fn test_secure_server_profile_tamper_detection() {
    let server = HttpServer::new();
    let (_, mut blob) = server
        .to_secure_profile_blob(CompressionAlgorithm::Identity, None, &NONCE, NOW)
        .unwrap();

    let idx = blob.len() - 1;
    blob[idx] ^= 0x01;

    let err = match HttpServer::from_secure_profile_blob(&blob, None) {
        Ok(_) => panic!("a changed profile was accepted"),
        Err(e) => e,
    };
    assert_eq!(err, EnvelopeError::TagMismatch);
}

#[test]
fn a_server_starts_only_when_bound() {
    let mut server = HttpServer::new();
    assert!(server.start().is_err());
    assert!(!server.running);
    server.bind("127.0.0.1:8080").unwrap();
    assert!(server.start().is_ok());
    assert!(server.running);
    server.stop();
    assert!(!server.running);
}

#[test]
fn a_request_is_read_with_its_body() {
    let wire = b"POST /items HTTP/1.1\r\nHost: a\r\nContent-Length: 5\r\n\r\nhello";
    let cfg = HttpServerCfg::default();
    assert_eq!(HttpServer::body_length(wire, &cfg), Ok(5));
    let request = HttpServer::parse_request(wire, &cfg, None).unwrap();
    assert_eq!(request.method(), HttpMethod::POST);
    assert_eq!(request.path(), "/items");
    assert_eq!(request.body_bytes(), b"hello");
    assert_eq!(request.headers().get("host"), Some("a"));
}

#[test]
fn a_body_over_the_limit_is_refused() {
    let wire = b"POST / HTTP/1.1\r\nContent-Length: 11\r\n\r\nhello world";
    let mut cfg = HttpServerCfg::default();
    cfg.max_body_size = 10;
    assert_eq!(HttpServer::body_length(wire, &cfg), Err(MessageError::BodyTooLarge));
}

#[test]
fn a_coded_body_is_taken_from_its_plain_form() {
    let wire = b"POST / HTTP/1.1\r\nContent-Encoding: gzip\r\nContent-Length: 3\r\n\r\ncba";
    let cfg = HttpServerCfg::default();
    assert_eq!(HttpServer::body_coding(wire), Ok(Some(CompressionAlgorithm::Gzip)));
    let plain: &[u8] = b"abc";
    let request = HttpServer::parse_request(wire, &cfg, Some(plain)).unwrap();
    assert_eq!(request.body_bytes(), b"abc");
    assert!(HttpServer::parse_request(wire, &cfg, None).is_err());
}

#[test]
fn head_fields_end_at_the_empty_line() {
    let wire = b"A: 1\r\nContent-Length: 7\r\n\r\nrest";
    let head = read_head_fields(wire, 0).unwrap();
    assert_eq!(head.length, 7);
    assert_eq!(head.headers.get_nocase("a"), Some(&"1".to_string()));
}

#[test]
fn a_response_is_finished_for_its_coding() {
    let r = response(b"aaaa", &[]);
    let coded: &[u8] = b"4a";
    let out = HttpServer::finalize_response_for_request(&r, Some(CompressionAlgorithm::Gzip), Some(coded)).unwrap();
    assert_eq!(out.body(), b"4a");
    let same = HttpServer::finalize_response_for_request(&r, None, None).unwrap();
    assert_eq!(same.body(), b"aaaa");
}

#[test]
fn the_default_handler_finds_nothing() {
    let request = HttpRequest::new(HttpMethod::GET, "/x");
    let answer = HttpServer::default_handler(&request);
    assert_eq!(answer.status_code(), 404);
    assert!(answer.body_as_string().unwrap().contains("path: /x</p>"));
    let fault = HttpServer::error_response(400, "Bad Request");
    assert_eq!(fault.status_code(), 400);
    assert_eq!(fault.reason_phrase(), "Bad Request");
}

#[test]
fn negotiation_reads_the_request() {
    let request = HttpRequest::new(HttpMethod::GET, "/")
        .header("Accept", "text/plain")
        .header("Accept-Language", "de")
        .header("Accept-Encoding", "br");
    assert_eq!(
        HttpServer::negotiate_content_type(&request, &["text/html", "text/plain"]),
        Some("text/plain".to_string())
    );
    assert_eq!(HttpServer::negotiate_language(&request, &["en", "de"]), Some("de".to_string()));
    assert_eq!(HttpServer::negotiate_encoding(&request, &["gzip", "br"]), Some("br".to_string()));
}

#[test]
fn connection_close_is_heeded() {
    let cfg = HttpServerCfg::default();
    let stays = HttpRequest::new(HttpMethod::GET, "/").with_keep_alive();
    let leaves = HttpRequest::new(HttpMethod::GET, "/").without_keep_alive();
    let r = response(b"", &[]);
    assert!(!HttpServer::closes_after(&cfg, &stays, &r));
    assert!(HttpServer::closes_after(&cfg, &leaves, &r));
}

#[test]
fn a_server_reads_what_a_request_wrote() {
    let cfg = HttpServerCfg::default();
    let sent = HttpRequest::new(HttpMethod::POST, "/items?page=2")
        .header("X-Trace", "abc: def")
        .body(b"\r\nhello\n\n".to_vec());
    let read = HttpServer::parse_request(&sent.build("example.org", None), &cfg, None).unwrap();
    assert_eq!(read.method(), HttpMethod::POST);
    assert_eq!(read.path(), "/items?page=2");
    assert_eq!(read.body_bytes(), b"\r\nhello\n\n");
    assert_eq!(read.headers().get("host"), Some("example.org"));
    assert_eq!(read.headers().get("x-trace"), Some("abc: def"));
    assert_eq!(read.headers().get("content-length"), Some("9"));
    assert!(read.headers().get("digest").is_some());

    let bare = HttpRequest::new(HttpMethod::GET, "/");
    let read = HttpServer::parse_request(&bare.build("a", None), &cfg, None).unwrap();
    assert_eq!(read.method(), HttpMethod::GET);
    assert_eq!(read.body_bytes(), b"");
}

#[test]
fn a_client_reads_what_a_server_completed() {
    let r = response(b"plain body", &[("X-Trace", "1")]);
    let sent = HttpServer::finalize_response_for_request(&r, None, None).unwrap();
    let read = HttpResponse::from_bytes(&HttpServer::serialize_response(&sent), None).unwrap();
    assert_eq!(read.status_code(), 200);
    assert_eq!(read.reason_phrase(), "OK");
    assert_eq!(read.body(), b"plain body");
    assert_eq!(read.header("Content-Type"), Some(&"application/octet-stream".to_string()));

    let coded: &[u8] = b"coded";
    let plain: &[u8] = b"plain body";
    let sent =
        HttpServer::finalize_response_for_request(&r, Some(CompressionAlgorithm::Gzip), Some(coded)).unwrap();
    let read = HttpResponse::from_bytes(&HttpServer::serialize_response(&sent), Some(plain)).unwrap();
    assert_eq!(read.body(), b"plain body");
    assert_eq!(read.header("Content-Length"), Some(&"10".to_string()));
}

#[test]
fn a_profile_with_no_address_is_refused() {
    let mut server = HttpServer::new();
    assert!(server.bind("localhost:80").is_err());
    assert!(server.bind("[::FFFF:c000:0201]:80").is_ok());
    assert_eq!(server.address, Some("[::ffff:192.0.2.1]:80".to_string()));
    let raw = serialize_http_server_profile(&server);
    let back = deserialize_http_server_profile(&raw).unwrap();
    assert_eq!(back.address, server.address);
    let text = String::from_utf8(raw).unwrap();
    let bad = text.replace(&base64::encode(b"[::ffff:192.0.2.1]:80"), &base64::encode(b"localhost:80"));
    assert!(bad != text);
    assert!(deserialize_http_server_profile(bad.as_bytes()).is_none());
}
