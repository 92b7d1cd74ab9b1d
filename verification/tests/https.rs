use singularity_net::crypto::base64;
use singularity_net::crypto::sha256::sha256;
use singularity_net::net::envelope::EnvelopeError;
use singularity_net::net::http::message::MessageError;
use singularity_net::net::http::{CompressionAlgorithm, Headers, HttpMethod, HttpResponse, HttpVersion};
use singularity_net::net::https::alpn::AlpnProtocol;
use singularity_net::net::https::client::{Http2Fault, PendingRequest, ResponseFault};
use singularity_net::net::https::exchange::{
    build_synthetic_http1_response, compute_payload_tag, decode_hmac_header_value, http1_request,
    http2_request_headers, is_truthy_header, AfterResponse,
};
use singularity_net::net::https::http1::{
    chunked_body_complete, find_http_header_end, finish_http1_read, on_read_event, parse_http1_meta, response_complete, ReadEvent,
    ReadStep,
};
use singularity_net::net::https::http2::{build_http2_frame, Http2Reader, Http2Step};
use singularity_net::net::https::server::{RequestFault, ServedProtocol};
use singularity_net::net::https::state::{
    deserialize_client_snapshot, serialize_client_snapshot, HttpsClientStateSnapshot,
};
use singularity_net::net::https::tls::config::HandshakeFault;
use singularity_net::net::https::url::{
    connection_key, host_header, parse_url, redirect_url, resolve_url, socket_address, UrlFault,
};
use singularity_net::net::https::{
    decode_secure_https_payload, encode_secure_https_payload, encode_secure_https_payload_auto, HttpsClient,
    HttpsClientCfg, HttpsError, HttpsServer, HttpsServerCfg, TlsCfg, TlsError, TrustStore,
};
use singularity_net::table::Table;

const SEAL: [u8; 24] = [8; 24];

const NONCE: [u8; 16] = [9; 16];

const NOW: u64 = 1_700_000_000;

const RESPONSE_CONTEXT: &[u8] = b"SINGULARITY_HTTPS_CLIENT_RESPONSE_TAG_V1";

const REQUEST_CONTEXT: &[u8] = b"SINGULARITY_HTTPS_CLIENT_REQUEST_TAG_V1";

fn turned(data: &[u8]) -> Vec<u8> {
    data.iter().rev().copied().collect()
}

fn tls() -> TlsCfg {
    TlsCfg::with_trust_store(TrustStore::empty())
}

fn client_cfg() -> HttpsClientCfg {
    HttpsClientCfg::with_tls_cfg(tls())
}

fn client() -> HttpsClient {
    HttpsClient::new(client_cfg(), vec![AlpnProtocol::Http2, AlpnProtocol::Http11])
}

fn fields(pairs: &[(&str, &str)]) -> Table<String> {
    let mut t: Table<String> = Table::new();
    for (k, v) in pairs {
        t.insert(k.to_string(), v.to_string());
    }
    t
}

fn answer(status: u16, pairs: &[(&str, &str)], body: &[u8]) -> HttpResponse {
    HttpResponse::new(status, "OK".to_string(), HttpVersion::Http11, fields(pairs), body.to_vec())
}

#[test]
fn test_secure_https_payload_roundtrip_identity() {
    let payload = b"hello secure https".to_vec();
    let (meta, blob) =
        encode_secure_https_payload(&payload, CompressionAlgorithm::Identity, None, &SEAL).unwrap();

    assert_eq!(meta.algorithm, CompressionAlgorithm::Identity);

    let (decoded_meta, decoded_payload) = decode_secure_https_payload(&blob, None).unwrap();
    assert_eq!(decoded_meta.algorithm, CompressionAlgorithm::Identity);
    assert_eq!(decoded_payload, payload);
}

#[test]
fn test_secure_https_payload_roundtrip_gzip() {
    let payload = b"payload payload payload payload payload payload".to_vec();
    let coded = turned(&payload);
    let (meta, blob) =
        encode_secure_https_payload(&payload, CompressionAlgorithm::Gzip, Some(&coded), &SEAL).unwrap();

    assert_eq!(meta.algorithm, CompressionAlgorithm::Gzip);

    let (_, decoded_payload) = decode_secure_https_payload(&blob, Some(&payload)).unwrap();
    assert_eq!(decoded_payload, payload);
}

#[test]
fn test_secure_https_payload_tamper_detection() {
    let payload = b"this should fail if modified".to_vec();
    let (_, mut blob) =
        encode_secure_https_payload(&payload, CompressionAlgorithm::Identity, None, &SEAL).unwrap();

    let last = blob.len() - 1;
    blob[last] ^= 0x01;

    let err = decode_secure_https_payload(&blob, None).unwrap_err();
    assert!(err.message().contains("verification failed"));
}

#[test]
fn test_secure_https_payload_auto_select() {
    let payload = b"auto encoding".to_vec();
    let coded = turned(&payload);
    let (meta, _) =
        encode_secure_https_payload_auto(&payload, "zstd, br;q=0.9, gzip;q=0.8", Some(&coded), &SEAL).unwrap();

    assert_ne!(meta.algorithm, CompressionAlgorithm::Identity);
}

#[test]
fn test_https_client_creation() {
    let client = client();
    assert!(client.tls_connections.is_empty());
}

#[test]
fn test_parse_url_default_port() {
    let t = parse_url("https://example.com/path").unwrap();
    assert_eq!(t.host, "example.com");
    assert_eq!(t.port, 443);
    assert_eq!(t.path, "/path");
}

#[test]
fn test_parse_url_custom_port() {
    let t = parse_url("https://example.com:8443/path").unwrap();
    assert_eq!(t.host, "example.com");
    assert_eq!(t.port, 8443);
    assert_eq!(t.path, "/path");
}

#[test]
fn test_resolve_relative_url() {
    let resolved = resolve_url("https://example.com/root/page", "next");

    assert_eq!(resolved, "https://example.com/root/next");
}

#[test]
fn test_secure_state_roundtrip() {
    let mut client = client();
    client
        .negotiated_protocols
        .insert("example.com:443".to_string(), AlpnProtocol::Http2);

    let raw = serialize_client_snapshot(&client.snapshot(NOW));
    let coded = turned(&raw);
    let (meta, blob) = client
        .export_secure_state(CompressionAlgorithm::Gzip, Some(&coded), &SEAL, NOW)
        .unwrap();
    assert_eq!(meta.algorithm, CompressionAlgorithm::Gzip);

    let (decoded_meta, snapshot) = HttpsClient::import_secure_state(&blob, Some(&raw)).unwrap();
    assert_eq!(decoded_meta.algorithm, CompressionAlgorithm::Gzip);
    assert_eq!(
        snapshot.negotiated_protocols.get("example.com:443"),
        Some(&AlpnProtocol::Http2)
    );
}

#[test]
fn test_secure_state_tamper_detection() {
    let client = client();
    let (_, mut blob) = client
        .export_secure_state(CompressionAlgorithm::Identity, None, &SEAL, NOW)
        .unwrap();

    let last = blob.len() - 1;
    blob[last] ^= 0x01;

    let err = HttpsClient::import_secure_state(&blob, None).unwrap_err();
    assert!(err.message().contains("verification"));
}

#[test]
fn test_secure_response_envelope_decode() {
    let payload = b"secure response payload".to_vec();
    let (_, blob) =
        encode_secure_https_payload(&payload, CompressionAlgorithm::Identity, None, &SEAL).unwrap();

    let size = blob.len().to_string();
    let response = answer(
        200,
        &[("x-singularity-secure-envelope", "v1"), ("content-length", &size)],
        &blob,
    );

    let client = client();
    let decoded = client.maybe_decode_secure_response(response, None).unwrap();

    assert_eq!(decoded.body(), payload.as_slice());
}

#[test]
fn test_apply_outbound_security_adds_headers() {
    let mut cfg = client_cfg();
    cfg.enable_secure_envelopes = true;
    cfg.request_compression_min_size = 1;

    let client = HttpsClient::new(cfg, vec![]);
    let mut headers = Headers::new();
    headers.insert("Accept-Encoding", "gzip, identity");

    let mut body = b"hello world".to_vec();
    let coded = turned(&body);
    client
        .apply_outbound_security(&mut headers, &mut body, Some(&coded), &SEAL, &NONCE)
        .unwrap();

    assert!(headers.contains("digest"));
    assert!(headers.contains("x-singularity-request-nonce"));
    assert!(headers.contains("x-singularity-request-tag"));
    assert!(headers.contains("x-singularity-secure-envelope"));
}

#[test]
fn test_response_integrity_optional_enforcement() {
    let body = b"body".to_vec();
    let nonce = NONCE.to_vec();
    let mut bad_tag = compute_payload_tag(RESPONSE_CONTEXT, &nonce, b"tampered");
    bad_tag[0] ^= 0x01;

    let shown = base64::encode(&nonce);
    let tag = format!("HMAC-SHA-256={}", base64::encode(&bad_tag));
    let pairs = [("x-singularity-response-nonce", shown.as_str()), ("x-singularity-response-tag", tag.as_str())];

    let response = answer(200, &pairs, &body);

    let client_non_enforcing = client();
    assert!(client_non_enforcing.verify_optional_response_integrity(&response).is_ok());
    let mut strict_cfg = client_cfg();
    strict_cfg.enforce_response_integrity = true;
    let client_enforcing = HttpsClient::new(strict_cfg, vec![]);

    let strict_resp = answer(200, &pairs, &body);

    assert!(client_enforcing.verify_optional_response_integrity(&strict_resp).is_err());
}

#[test]
fn test_https_server_creation() {
    let server = HttpsServer::new(tls());
    assert!(!server.running);
}

#[test]
fn test_select_algorithm_from_accept_encoding() {
    let preferred = vec![
        CompressionAlgorithm::Brotli,
        CompressionAlgorithm::Zstd,
        CompressionAlgorithm::Gzip,
    ];

    let selected =
        HttpsServer::select_algorithm_from_accept_encoding("gzip, br;q=0.9, identity;q=0.1", &preferred);

    assert_eq!(selected, CompressionAlgorithm::Brotli);
}

#[test]
fn test_verify_request_digest_ok() {
    let body = b"hello secure world".to_vec();
    let shown = format!("SHA-256={}", base64::encode(&sha256(&body)));
    let headers = fields(&[("Digest", &shown)]);

    let ok = HttpsServer::verify_request_digest(&headers, &body).unwrap();
    assert!(ok);
}

#[test]
fn test_verify_request_digest_tampered() {
    let body = b"hello secure world".to_vec();
    let shown = format!("SHA-256={}", base64::encode(&sha256(b"other body")));
    let headers = fields(&[("Digest", &shown)]);

    let err = HttpsServer::verify_request_digest(&headers, &body).unwrap_err();
    assert!(err.message().to_ascii_lowercase().contains("digest verification failed"));
}

#[test]
fn test_verify_request_tag_ok() {
    let method = "POST";
    let path = "/api/v1/data";
    let wire_body = b"{\"ok\":true}".to_vec();
    let nonce = b"0123456789abcdef".to_vec();

    let tag = HttpsServer::compute_request_tag(method, path, &nonce, &wire_body);
    let headers = fields(&[
        ("X-Singularity-Nonce", &base64::encode(&nonce)),
        ("X-Singularity-Request-Tag", &base64::encode(&tag)),
    ]);

    let ok = HttpsServer::verify_request_tag(method, path, &headers, &wire_body).unwrap();
    assert!(ok);
}

#[test]
fn test_prepare_secure_response_body_identity() {
    let cfg = HttpsServerCfg::with_tls_cfg(tls());
    let (meta, wire) = HttpsServer::prepare_secure_response_body(
        200,
        "OK",
        b"small body",
        Some("identity"),
        &cfg,
        None,
        &NONCE,
    )
    .unwrap();

    assert_eq!(meta.algorithm, CompressionAlgorithm::Identity);
    assert_eq!(wire, b"small body");
    assert!(!meta.digest_b64.is_empty());
    assert!(!meta.tag_b64.is_empty());
}

#[test]
fn urls_that_cannot_be_read_are_told_apart() {
    assert_eq!(parse_url("http://example.com/").unwrap_err(), UrlFault::Scheme);
    assert_eq!(parse_url("https:///path").unwrap_err(), UrlFault::MissingHost);
    assert_eq!(parse_url("https://[::1/").unwrap_err(), UrlFault::BadIpv6Host);
    assert_eq!(parse_url("https://[::1]x/").unwrap_err(), UrlFault::BadHostPort);
    assert_eq!(parse_url("https://example.com:99999/").unwrap_err(), UrlFault::BadPort);
    assert!(UrlFault::Scheme.message().contains("https://"));
}

#[test]
fn an_ipv6_host_is_read_without_brackets() {
    let t = parse_url("https://[2001:db8::1]:8443/x").unwrap();
    assert_eq!(t.host, "2001:db8::1");
    assert_eq!(t.port, 8443);
    assert_eq!(socket_address("2001:db8::1", 8443), "[2001:db8::1]:8443");
    assert_eq!(socket_address("example.com", 443), "example.com:443");
    assert_eq!(connection_key("example.com", 443), "example.com:443");
    assert_eq!(host_header("example.com", 443), "example.com");
    assert_eq!(host_header("example.com", 8443), "example.com:8443");
}

#[test]
fn a_redirection_to_a_path_stays_with_the_host() {
    let t = parse_url("https://example.com:8443/a/b").unwrap();
    assert_eq!(
        redirect_url("https://example.com:8443/a/b", &t, "/c"),
        "https://example.com:8443/c"
    );
    assert_eq!(
        redirect_url("https://example.com:8443/a/b", &t, "c"),
        "https://example.com:8443/a/c"
    );
    assert_eq!(redirect_url("https://a/", &t, "//other/x"), "https://other/x");
    assert_eq!(resolve_url("https://a/b?q=1#f", "c"), "https://a/c");
    assert_eq!(resolve_url("https://a/b", "http://c/d"), "http://c/d");
}

#[test]
fn redirections_are_followed_and_end() {
    let client = client();
    let t = parse_url("https://example.com/a").unwrap();
    let moved = answer(302, &[("location", "/b")], b"");
    let mut request: PendingRequest = client.get("https://example.com/a");
    let mut sent = 0;
    loop {
        match client.plan_request(&request) {
            Ok(_) => sent += 1,
            Err(e) => {
                assert_eq!(e, HttpsError::TooManyRedirects);
                break;
            }
        }
        match client.on_response(&request, &t, &moved) {
            AfterResponse::Deliver => panic!("not followed"),
            AfterResponse::Follow(next) => {
                assert_eq!(next.url, "https://example.com/b");
                request = next;
            }
        }
    }
    assert_eq!(sent, client.cfg.max_redirects + 1);
    let fine = answer(200, &[], b"x");
    assert!(matches!(client.on_response(&request, &t, &fine), AfterResponse::Deliver));
}

#[test]
fn a_posted_form_is_not_posted_again_after_see_other() {
    let client = client();
    let t = parse_url("https://example.com/a").unwrap();
    let other = answer(303, &[("location", "/b")], b"");
    let request = client.post("https://example.com/a", b"data".to_vec());
    match client.on_response(&request, &t, &other) {
        AfterResponse::Follow(next) => {
            assert_eq!(next.method, HttpMethod::GET);
            assert_eq!(next.body, None);
        }
        AfterResponse::Deliver => panic!("not followed"),
    }
}

#[test]
fn a_plan_fails_on_a_bad_address() {
    let client = client();
    let err = client.plan_request(&client.get("http://example.com/")).unwrap_err();
    assert_eq!(err, HttpsError::InvalidUrl(UrlFault::Scheme));
    let plan = client.plan_request(&client.get("https://example.com/x")).unwrap();
    assert_eq!(plan.target.path, "/x");
    assert_eq!(plan.headers.get("host"), Some("example.com"));
}

#[test]
fn a_client_keeps_its_connections() {
    let mut client = client();
    assert!(!client.is_connected("example.com", 443));
    let p = client.on_connected("example.com", 443, Some(AlpnProtocol::Http11));
    assert_eq!(p, AlpnProtocol::Http11);
    assert!(client.is_connected("example.com", 443));
    assert_eq!(client.get_negotiated_protocol("example.com", 443), Some(AlpnProtocol::Http11));
    assert_eq!(client.get_connection_stats().len(), 1);
    client.clear_connections();
    assert!(!client.is_connected("example.com", 443));
}

#[test]
fn a_request_of_http1_begins_with_its_line() {
    let mut headers = Headers::new();
    headers.insert("Host", "example.com");
    let wire = http1_request(HttpMethod::POST, "/x", &headers, b"abc");
    assert!(wire.starts_with(b"POST /x HTTP/1.1\r\n"));
    assert!(wire.ends_with(b"\r\n\r\nabc"));
    let named = http2_request_headers(HttpMethod::GET, "/y", &headers, 0);
    assert_eq!(named.get(":method"), Some(&"GET".to_string()));
    assert_eq!(named.get(":path"), Some(&"/y".to_string()));
}

#[test]
fn outbound_octets_are_vouched_for() {
    let client = client();
    let mut headers = Headers::new();
    let mut body = b"a body".to_vec();
    client
        .apply_outbound_security(&mut headers, &mut body, None, &SEAL, &NONCE)
        .unwrap();
    assert_eq!(body, b"a body");
    assert_eq!(
        headers.get("digest"),
        Some(format!("SHA-256={}", base64::encode(&sha256(b"a body"))).as_str())
    );
    let tag = compute_payload_tag(REQUEST_CONTEXT, &NONCE, b"a body");
    assert_eq!(
        headers.get("x-singularity-request-tag"),
        Some(format!("HMAC-SHA-256={}", base64::encode(&tag)).as_str())
    );
    assert_eq!(headers.get("x-singularity-request-nonce"), Some(base64::encode(&NONCE).as_str()));
}

#[test]
fn a_failed_codec_is_told() {
    let mut cfg = client_cfg();
    cfg.enable_secure_envelopes = false;
    cfg.preferred_request_compression = CompressionAlgorithm::Gzip;
    cfg.request_compression_min_size = 1;
    let client = HttpsClient::new(cfg, vec![]);
    let mut headers = Headers::new();
    let mut body = b"aaaa".to_vec();
    assert_eq!(
        client.apply_outbound_security(&mut headers, &mut body, None, &SEAL, &NONCE),
        Err(HttpsError::Codec)
    );
}

#[test]
fn a_response_with_its_own_tag_is_accepted() {
    let mut cfg = client_cfg();
    cfg.enforce_response_integrity = true;
    let client = HttpsClient::new(cfg, vec![]);
    let tag = compute_payload_tag(RESPONSE_CONTEXT, &NONCE, b"body");
    let shown = base64::encode(&NONCE);
    let value = format!("HMAC-SHA-256={}", base64::encode(&tag));
    let good = answer(
        200,
        &[("x-singularity-response-nonce", &shown), ("x-singularity-response-tag", &value)],
        b"body",
    );
    assert_eq!(client.verify_optional_response_integrity(&good), Ok(()));
    let other = answer(
        200,
        &[("x-singularity-response-nonce", &shown), ("x-singularity-response-tag", &value)],
        b"bode",
    );
    assert_eq!(
        client.verify_optional_response_integrity(&other),
        Err(HttpsError::InvalidResponse(ResponseFault::Integrity))
    );
    assert_eq!(decode_hmac_header_value(&value), Some(tag));
    assert_eq!(decode_hmac_header_value("HMAC-SHA-256=**"), None);
}

#[test]
fn some_words_count_as_true() {
    assert!(is_truthy_header("1"));
    assert!(is_truthy_header("TRUE"));
    assert!(!is_truthy_header("0"));
}

#[test]
fn responses_of_http1_are_parsed() {
    let client = client();
    let wire = b"HTTP/1.1 200 OK\r\nContent-Length: 2\r\n\r\nhi";
    let r = client.parse_http1_response(wire, None, None).unwrap();
    assert_eq!(r.status_code(), 200);
    assert_eq!(r.body(), b"hi");
    assert_eq!(
        client.parse_http1_response(b"HTTP/1.1 200 OK\r\n", None, None).unwrap_err(),
        HttpsError::InvalidResponse(ResponseFault::Unreadable(MessageError::NoHeaderEnd))
    );
}

#[test]
fn responses_of_http2_need_a_status() {
    let client = client();
    let status = (":status".to_string(), "204".to_string());
    let r = client.parse_http2_response(&vec![status], b"", None, None).unwrap();
    assert_eq!(r.status_code(), 204);
    let bad = (":status".to_string(), "many".to_string());
    assert_eq!(
        client.parse_http2_response(&vec![bad], b"", None, None).unwrap_err(),
        HttpsError::InvalidResponse(ResponseFault::BadStatus)
    );
}

#[test]
fn a_synthetic_response_reads_back() {
    let wire = build_synthetic_http1_response(201, "Created", &fields(&[("X-A", "b")]), b"xyz");
    let r = HttpResponse::from_bytes(&wire, None).unwrap();
    assert_eq!(r.status_code(), 201);
    assert_eq!(r.body(), b"xyz");
}

#[test]
fn streams_of_http2_are_numbered_oddly() {
    let mut client = client();
    client.on_connected("example.com", 443, Some(AlpnProtocol::Http2));
    let (first, id1) = client.begin_http2_request("example.com:443", b"hb", b"").unwrap();
    assert_eq!(id1, 1);
    assert!(first.starts_with(b"PRI * HTTP/2.0\r\n\r\nSM\r\n\r\n"));
    let (second, id2) = client.begin_http2_request("example.com:443", b"hb", b"data").unwrap();
    assert_eq!(id2, 3);
    assert!(!second.starts_with(b"PRI"));
    assert_eq!(
        client.begin_http2_request("nowhere:1", b"hb", b"").unwrap_err(),
        HttpsError::ConnectionFailed
    );
}

#[test]
fn the_end_of_a_header_is_found() {
    assert_eq!(find_http_header_end(b"A: b\r\n\r\nrest"), Some(8));
    assert_eq!(find_http_header_end(b"A: b\r\n"), None);
}

#[test]
fn the_length_of_a_body_is_read() {
    assert_eq!(
        parse_http1_meta(b"HTTP/1.1 200 OK\r\nContent-Length: 12\r\n\r\n"),
        (Some(12), false)
    );
    assert_eq!(
        parse_http1_meta(b"HTTP/1.1 200 OK\r\nTransfer-Encoding: Chunked\r\n\r\n"),
        (None, true)
    );
    assert_eq!(
        parse_http1_meta(b"HTTP/1.1 200 OK\r\nX: \xff\xff\r\nContent-Length: 3\r\n\r\n"),
        (Some(3), false)
    );
}

#[test]
fn a_response_is_complete_when_its_body_is_there() {
    assert!(response_complete(b"HTTP/1.1 200 OK\r\nContent-Length: 2\r\n\r\nhi"));
    assert!(!response_complete(b"HTTP/1.1 200 OK\r\nContent-Length: 3\r\n\r\nhi"));
    assert!(chunked_body_complete(b"2\r\nhi\r\n0\r\n\r\n"));
    assert!(!chunked_body_complete(b"2\r\nhi\r\n"));
    assert!(response_complete(
        b"HTTP/1.1 200 OK\r\nTransfer-Encoding: chunked\r\n\r\n2\r\nhi\r\n0\r\n\r\n"
    ));
}

#[test]
fn reading_goes_on_until_all_is_there() {
    let mut data: Vec<u8> = Vec::new();
    assert_eq!(on_read_event(&mut data, &ReadEvent::NotReady), ReadStep::Wait);
    assert_eq!(on_read_event(&mut data, &ReadEvent::Elapsed), ReadStep::TimedOut);
    let head = ReadEvent::Octets(b"HTTP/1.1 200 OK\r\nContent-Length: 2\r\n\r\n".to_vec());
    assert_eq!(on_read_event(&mut data, &head), ReadStep::Read);
    assert_eq!(on_read_event(&mut data, &ReadEvent::Octets(b"hi".to_vec())), ReadStep::Done);
    assert_eq!(on_read_event(&mut data, &ReadEvent::Closed), ReadStep::Done);
    assert!(data.ends_with(b"hi"));
}

#[test]
fn frames_of_a_response_are_put_together() {
    let mut reader = Http2Reader::new(1);
    let mut wire = build_http2_frame(4, 0, 0, b"");
    wire.extend(build_http2_frame(1, 4, 1, b"header"));
    wire.extend(build_http2_frame(0, 0, 3, b"other"));
    wire.extend(build_http2_frame(0, 1, 1, b"body"));
    let (early, reset) = reader.on_octets(&wire[..12]);
    assert_eq!(early, build_http2_frame(4, 1, 0, b""));
    assert!(!reset);
    assert!(!reader.end_stream);
    let (late, reset) = reader.on_octets(&wire[12..]);
    assert!(late.is_empty());
    assert!(!reset);
    assert!(reader.end_stream);
    assert_eq!(reader.header_block, b"header");
    assert_eq!(reader.body, b"body");
}

#[test]
fn a_reset_breaks_a_response_off() {
    let mut reader = Http2Reader::new(5);
    let (_, reset) = reader.on_octets(&build_http2_frame(3, 0, 5, &[0, 0, 0, 8]));
    assert!(reset);
    assert!(HttpsError::Http2Error(Http2Fault::Reset).message().contains("RST_STREAM"));
}

#[test]
fn reading_frames_goes_on_until_the_stream_ends() {
    let mut reader = Http2Reader::new(1);
    assert_eq!(reader.on_event(&ReadEvent::NotReady).1, Http2Step::Wait);
    assert_eq!(reader.on_event(&ReadEvent::Elapsed).1, Http2Step::TimedOut);
    let head = ReadEvent::Octets(build_http2_frame(1, 4, 1, b"hb"));
    assert_eq!(reader.on_event(&head).1, Http2Step::Read);
    assert_eq!(reader.on_event(&ReadEvent::Elapsed).1, Http2Step::Done);
    let data = ReadEvent::Octets(build_http2_frame(0, 1, 1, b"data"));
    assert_eq!(reader.on_event(&data).1, Http2Step::Done);
    assert_eq!(reader.finish(), Ok((b"hb".to_vec(), b"data".to_vec())));
    let mut broken = Http2Reader::new(1);
    let reset = ReadEvent::Octets(build_http2_frame(3, 0, 1, &[0; 4]));
    assert_eq!(broken.on_event(&reset).1, Http2Step::Reset);
}

#[test]
fn nothing_is_no_response() {
    assert_eq!(
        finish_http1_read(vec![]),
        Err(HttpsError::InvalidResponse(ResponseFault::Empty))
    );
    assert_eq!(finish_http1_read(vec![1]), Ok(vec![1]));
    assert_eq!(
        Http2Reader::new(1).finish(),
        Err(HttpsError::InvalidResponse(ResponseFault::MissingHeaders))
    );
}

#[test]
fn a_snapshot_reads_back() {
    let mut protocols: Table<AlpnProtocol> = Table::new();
    protocols.insert("a:443".to_string(), AlpnProtocol::Http2);
    protocols.insert("b:443".to_string(), AlpnProtocol::Http11);
    let snapshot = HttpsClientStateSnapshot {
        exported_at_unix: 12,
        secure_envelopes_enabled: true,
        negotiated_protocols: protocols,
    };
    let back = deserialize_client_snapshot(&serialize_client_snapshot(&snapshot)).unwrap();
    assert_eq!(back.exported_at_unix, 12);
    assert!(back.secure_envelopes_enabled);
    assert_eq!(back.negotiated_protocols.get("b:443"), Some(&AlpnProtocol::Http11));
    assert!(deserialize_client_snapshot(&[0xff]).is_none());
}

#[test]
fn a_snapshot_is_applied() {
    let mut from = client();
    from.on_connected("a", 443, Some(AlpnProtocol::Http11));
    let snapshot = from.snapshot(NOW);
    let mut to = client();
    to.apply_state_snapshot(&snapshot);
    assert_eq!(to.get_negotiated_protocol("a", 443), Some(AlpnProtocol::Http11));
}

#[test]
fn a_state_of_another_kind_is_refused() {
    let (_, blob) =
        encode_secure_https_payload(b"x", CompressionAlgorithm::Identity, None, &SEAL).unwrap();
    let err = HttpsClient::import_secure_state(&blob, None).unwrap_err();
    assert_eq!(err, HttpsError::InvalidResponse(ResponseFault::State(EnvelopeError::BadMagic)));
}

#[test]
fn required_proofs_of_a_request_are_asked_for() {
    let mut cfg = HttpsServerCfg::with_tls_cfg(tls());
    cfg.require_request_digest = true;
    let none = fields(&[]);
    assert_eq!(
        HttpsServer::verify_request_integrity("GET", "/", &none, b"x", &cfg),
        Err(RequestFault::DigestRequired)
    );
    cfg.require_request_digest = false;
    cfg.require_request_tag = true;
    assert_eq!(
        HttpsServer::verify_request_integrity("GET", "/", &none, b"x", &cfg),
        Err(RequestFault::TagRequired)
    );
    let bad = fields(&[("Digest", "SHA-256=***")]);
    assert_eq!(
        HttpsServer::verify_request_digest(&bad, b"x").unwrap_err(),
        RequestFault::DigestEncoding
    );
}

#[test]
fn a_tag_of_another_request_is_refused() {
    let tag = HttpsServer::compute_request_tag("POST", "/a", &NONCE, b"x");
    let headers = fields(&[
        ("x-singularity-nonce", &base64::encode(&NONCE)),
        ("x-singularity-request-tag", &base64::encode(&tag)),
    ]);
    assert_eq!(HttpsServer::verify_request_tag("POST", "/a", &headers, b"x"), Ok(true));
    assert_eq!(
        HttpsServer::verify_request_tag("POST", "/b", &headers, b"x"),
        Err(RequestFault::TagMismatch)
    );
    assert_eq!(HttpsServer::verify_request_tag("POST", "/a", &fields(&[]), b"x"), Ok(false));
}

#[test]
fn a_request_is_served_from_its_octets() {
    let cfg = HttpsServerCfg::with_tls_cfg(tls());
    let wire = b"POST /x HTTP/1.1\r\nHost: a\r\nContent-Length: 3\r\n\r\nabc";
    assert_eq!(HttpsServer::body_length(wire, &cfg), Ok(3));
    let request = HttpsServer::parse_request(wire, &cfg, None).unwrap();
    assert_eq!(request.path(), "/x");
    assert_eq!(request.body_bytes(), b"abc");
    assert_eq!(HttpsServer::parse_request(b"", &cfg, None).unwrap_err(), RequestFault::Closed);
}

#[test]
fn a_served_response_vouches_for_its_body() {
    let cfg = HttpsServerCfg::with_tls_cfg(tls());
    let wire = HttpsServer::serialize_response(
        &answer(200, &[("Digest", "forged")], b"payload"),
        Some("identity"),
        false,
        &cfg,
        None,
        &NONCE,
    )
    .unwrap();
    let r = HttpResponse::from_bytes(&wire, None).unwrap();
    assert_eq!(r.body(), b"payload");
    assert_eq!(
        r.header("Digest"),
        Some(&format!("SHA-256={}", base64::encode(&sha256(b"payload"))))
    );
    let tag = HttpsServer::compute_response_tag(200, "OK", &NONCE, b"payload");
    assert_eq!(r.header("X-Singularity-Response-Tag"), Some(&base64::encode(&tag)));
}

#[test]
fn fields_that_the_server_sets_are_its_own() {
    assert!(HttpsServer::is_controlled_response_header("DIGEST"));
    assert!(HttpsServer::is_controlled_response_header("content-length"));
    assert!(!HttpsServer::is_controlled_response_header("X-Other"));
}

#[test]
fn the_protocol_that_was_agreed_is_served() {
    assert_eq!(HttpsServer::served_protocol(None), ServedProtocol::Http1);
    assert_eq!(HttpsServer::served_protocol(Some(AlpnProtocol::Http2)), ServedProtocol::Http2);
    assert_eq!(HttpsServer::served_protocol(Some(AlpnProtocol::Http3)), ServedProtocol::Unsupported);
}

#[test]
fn an_https_server_starts_only_when_bound() {
    let mut server = HttpsServer::new(tls());
    assert!(server.start().is_err());
    server.bind("127.0.0.1:8443").unwrap();
    assert!(server.start().is_ok());
    assert!(server.running);
    server.stop();
    assert!(!server.running);
}

#[test]
fn the_client_reads_what_the_server_answers() {
    let cfg = HttpsServerCfg::with_tls_cfg(tls());
    let r = answer(201, &[("X-Trace", "1"), ("content-length", "999")], b"payload");
    let wire = HttpsServer::serialize_response(&r, Some("identity"), true, &cfg, None, &NONCE).unwrap();
    let read = client().parse_http1_response(&wire, None, None).unwrap();
    assert_eq!(read.status_code(), 201);
    assert_eq!(read.body(), b"payload");
    assert_eq!(read.header("X-Trace"), Some(&"1".to_string()));
    assert_eq!(read.header("Content-Length"), Some(&"7".to_string()));
    assert_eq!(read.header("Connection"), Some(&"keep-alive".to_string()));
}

#[test]
fn the_server_takes_what_the_client_vouched_for() {
    let mut own = client_cfg();
    own.enable_secure_envelopes = false;
    own.preferred_request_compression = CompressionAlgorithm::Identity;
    let client = HttpsClient::new(own, vec![AlpnProtocol::Http11]);
    let mut headers = Headers::new();
    headers.insert("Host", "example.org");
    let mut body = b"payload".to_vec();
    client.apply_outbound_security(&mut headers, &mut body, None, &SEAL, &NONCE).unwrap();
    assert_eq!(body, b"payload");
    let wire = http1_request(HttpMethod::PUT, "/x", &headers, &body);
    let mut cfg = HttpsServerCfg::with_tls_cfg(tls());
    cfg.require_request_digest = true;
    let taken = HttpsServer::parse_request(&wire, &cfg, None).unwrap();
    assert_eq!(taken.method(), HttpMethod::PUT);
    assert_eq!(taken.path(), "/x");
    assert_eq!(taken.body_bytes(), b"payload");
    assert_eq!(taken.headers().get("host"), Some("example.org"));
    cfg.require_request_tag = true;
    assert_eq!(HttpsServer::parse_request(&wire, &cfg, None).unwrap_err(), RequestFault::TagRequired);
}

#[test]
fn the_client_reads_what_the_server_answers_over_http2() {
    let cfg = HttpsServerCfg::with_tls_cfg(tls());
    for body in [&b"payload"[..], &b""[..]] {
        let r = answer(404, &[("X-Trace", "1")], body);
        let (meta, wire) =
            HttpsServer::prepare_secure_response_body(404, "OK", body, None, &cfg, None, &NONCE).unwrap();
        let fields = HttpsServer::http2_response_headers(&r, &meta, &wire);
        let read = client().parse_http2_response(&fields, &wire, None, None).unwrap();
        assert_eq!(read.status_code(), 404);
        assert_eq!(read.reason_phrase(), "Not Found");
        assert_eq!(read.version(), HttpVersion::Http2);
        assert_eq!(read.body(), body);
        assert_eq!(read.header("X-Trace"), Some(&"1".to_string()));
        assert_eq!(read.header("Content-Length"), Some(&body.len().to_string()));
    }
}

#[test]
fn errors_of_a_client_in_words() {
    let of = |e: HttpsError| e.to_string("this");
    assert_eq!(of(HttpsError::Tls(TlsError::AlertReceived(2, 40))), "TLS error: AlertReceived(2, 40)");
    assert_eq!(
        of(HttpsError::Tls(TlsError::HandshakeFailed(HandshakeFault::ExpectedServerHello))),
        "TLS error: HandshakeFailed(\"Expected ServerHello\")"
    );
    assert_eq!(of(HttpsError::Tls(TlsError::NoSharedCipher)), "TLS error: NoSharedCipher");
    assert_eq!(of(HttpsError::InvalidUrl(UrlFault::MissingHost)), "invalid URL: missing host");
    assert_eq!(
        of(HttpsError::InvalidResponse(ResponseFault::BadStatus)),
        "invalid response: invalid HTTP/2 status code: this"
    );
    assert_eq!(
        of(HttpsError::InvalidResponse(ResponseFault::State(EnvelopeError::BadMagic))),
        "invalid response: state blob magic mismatch"
    );
    assert_eq!(
        of(HttpsError::InvalidResponse(ResponseFault::Sealing(EnvelopeError::Codec))),
        "invalid response: secure envelope encode failed: content coding failed"
    );
    assert_eq!(of(HttpsError::ConnectionFailed), "connection failed: this");
    assert_eq!(of(HttpsError::Timeout), "request timeout");
    assert_eq!(of(HttpsError::Http2Error(Http2Fault::HeaderBlock)), "HTTP/2 error: HPACK decode failed: this");
}
