use singularity_net::net::blob::{seal, BlobKind};
use singularity_net::net::envelope::EnvelopeError;
use singularity_net::net::http::compression::CompressionAlgorithm;
use singularity_net::net::http::message::MessageError;
use singularity_net::net::http::method::HttpMethod;
use singularity_net::net::http::parser::{
    decode_secure_http_response, encode_secure_http_response, BodyPlan, HttpParser, StatusCode,
};
use singularity_net::net::http::request::{HttpRequest, RequestBuilder};
use singularity_net::net::http::response::{decode_chunked, read_chunk_size, HttpResponse};
use singularity_net::net::http::version::HttpVersion;
use singularity_net::table::Table;

const NONCE: [u8; 24] = [1; 24];

fn fields(pairs: &[(&str, &str)]) -> Table<String> {
    let mut t = Table::new();
    for (name, value) in pairs {
        t.insert(name.to_string(), value.to_string());
    }
    t
}

#[test]
fn test_header_management() {
    let mut request = HttpRequest::new(HttpMethod::GET, "http://example.com");

    request.set_header("Content-Type".to_string(), "application/json".to_string());
    request.set_header("X-Custom-Header".to_string(), "custom-value".to_string());

    assert_eq!(request.headers().get("Content-Type"), Some("application/json"));
    assert_eq!(request.headers().get("X-Custom-Header"), Some("custom-value"));
}

#[test]
fn test_request_body() {
    let mut request = HttpRequest::new(HttpMethod::POST, "http://example.com");
    let body_data = b"test request body".to_vec();

    request.set_body(body_data.clone());

    assert_eq!(request.headers().get("Content-Length"), Some("17"));
}

#[test]
fn test_response_status_categories() {
    // 2xx Success
    let response = HttpResponse::new(
        200,
        "OK".to_string(),
        HttpVersion::Http11,
        Table::new(),
        vec![],
    );
    assert!(response.is_success());
    assert!(!response.is_redirect());
    assert!(!response.is_client_error());
    assert!(!response.is_server_error());

    // 3xx Redirect
    let response = HttpResponse::new(
        301,
        "Moved Permanently".to_string(),
        HttpVersion::Http11,
        Table::new(),
        vec![],
    );
    assert!(!response.is_success());
    assert!(response.is_redirect());

    // 4xx Client Error
    let response = HttpResponse::new(
        404,
        "Not Found".to_string(),
        HttpVersion::Http11,
        Table::new(),
        vec![],
    );
    assert!(!response.is_success());
    assert!(response.is_client_error());

    // 5xx Server Error
    let response = HttpResponse::new(
        500,
        "Internal Server Error".to_string(),
        HttpVersion::Http11,
        Table::new(),
        vec![],
    );
    assert!(!response.is_success());
    assert!(response.is_server_error());
}

#[test]
fn test_secure_request_blob_roundtrip_identity() {
    let request = HttpRequest::new(HttpMethod::POST, "/api/v1/items")
        .version(HttpVersion::Http11)
        .header("Content-Type", "application/json")
        .header("X-Test", "true")
        .body(br#"{"id":1}"#.to_vec());

    let (meta, blob) = request
        .to_secure_blob(CompressionAlgorithm::Identity, None, &NONCE, 1)
        .unwrap();
    assert_eq!(meta.algorithm, CompressionAlgorithm::Identity);

    let (decoded_meta, restored) = HttpRequest::from_secure_blob(&blob, None).unwrap();
    assert_eq!(decoded_meta.algorithm, CompressionAlgorithm::Identity);
    assert_eq!(restored.method(), HttpMethod::POST);
    assert_eq!(restored.path(), "/api/v1/items");
    assert_eq!(restored.version_ref(), &HttpVersion::Http11);
    assert_eq!(restored.headers().get("content-type"), Some("application/json"));
    assert_eq!(restored.headers().get("x-test"), Some("true"));
    assert_eq!(restored.body_bytes(), br#"{"id":1}"#);
}

#[test]
fn test_secure_request_blob_tamper_detection() {
    let request = HttpRequest::new(HttpMethod::GET, "/health");

    let (_, mut blob) = request
        .to_secure_blob(CompressionAlgorithm::Identity, None, &NONCE, 1)
        .unwrap();
    let idx = blob.len() - 1;
    blob[idx] ^= 0x01;

    let err = HttpRequest::from_secure_blob(&blob, None).unwrap_err();
    assert_eq!(err, EnvelopeError::TagMismatch);
}

#[test]
fn test_parse_status_line_valid() {
    let (version, status, reason) = HttpParser::parse_status_line("HTTP/1.1 200 OK").unwrap();
    assert_eq!(version, HttpVersion::Http11);
    assert_eq!(status.code(), 200);
    assert_eq!(reason, "OK");
}

#[test]
fn test_parse_status_line_invalid() {
    let err = HttpParser::parse_status_line("BROKEN").unwrap_err();
    assert_eq!(err, MessageError::BadStartLine);
}

#[test]
fn test_secure_http_response_blob_roundtrip_identity() {
    let headers = fields(&[("Content-Type", "application/json")]);
    let response = HttpResponse::new(
        200,
        "OK".to_string(),
        HttpVersion::Http11,
        headers,
        br#"{"ok":true}"#.to_vec(),
    );

    let (meta, blob) =
        encode_secure_http_response(&response, CompressionAlgorithm::Identity, None, &NONCE, 1).unwrap();
    assert_eq!(meta.algorithm, CompressionAlgorithm::Identity);

    let (decoded_meta, restored) = decode_secure_http_response(&blob, None, None).unwrap();
    assert_eq!(decoded_meta.algorithm, CompressionAlgorithm::Identity);
    assert_eq!(restored.status_code(), 200);
    assert_eq!(restored.reason_phrase(), "OK");
    assert_eq!(restored.body(), br#"{"ok":true}"#);
}

#[test]
fn test_secure_http_response_blob_tamper_detection() {
    let response = HttpResponse::new(
        204,
        "No Content".to_string(),
        HttpVersion::Http11,
        Table::new(),
        Vec::new(),
    );

    let (_, mut blob) =
        encode_secure_http_response(&response, CompressionAlgorithm::Identity, None, &NONCE, 1).unwrap();
    let idx = blob.len() - 1;
    blob[idx] ^= 0x01;

    let err = decode_secure_http_response(&blob, None, None).unwrap_err();
    assert_eq!(err, EnvelopeError::TagMismatch);
}

#[test]
fn test_response_to_from_bytes() {
    let headers = fields(&[("Content-Type", "text/plain")]);

    let response = HttpResponse::new(
        200,
        "OK".to_string(),
        HttpVersion::Http11,
        headers,
        b"hello".to_vec(),
    );

    let bytes = response.to_bytes();
    let decoded = HttpResponse::from_bytes(&bytes, None).unwrap();
    assert_eq!(decoded.status_code(), 200);
    assert_eq!(decoded.reason_phrase(), "OK");
    assert_eq!(decoded.body(), b"hello");
}

#[test]
fn test_secure_response_blob_roundtrip_identity() {
    let headers = fields(&[("Content-Type", "application/json")]);

    let response = HttpResponse::new(
        201,
        "Created".to_string(),
        HttpVersion::Http11,
        headers,
        br#"{"ok":true}"#.to_vec(),
    );

    let (meta, blob) = response
        .to_secure_blob(CompressionAlgorithm::Identity, None, &NONCE, 1)
        .unwrap();
    assert_eq!(meta.algorithm, CompressionAlgorithm::Identity);

    let (decoded_meta, decoded_response) = HttpResponse::from_secure_blob(&blob, None, None).unwrap();
    assert_eq!(decoded_meta.algorithm, CompressionAlgorithm::Identity);
    assert_eq!(decoded_response.status_code(), 201);
    assert_eq!(decoded_response.reason_phrase(), "Created");
    assert_eq!(decoded_response.body(), br#"{"ok":true}"#);
}

#[test]
fn test_secure_response_blob_tamper_detection() {
    let response = HttpResponse::new(
        204,
        "No Content".to_string(),
        HttpVersion::Http11,
        Table::new(),
        Vec::new(),
    );

    let (_, mut blob) = response
        .to_secure_blob(CompressionAlgorithm::Identity, None, &NONCE, 1)
        .unwrap();
    let idx = blob.len() - 1;
    blob[idx] ^= 0x01;

    let err = HttpResponse::from_secure_blob(&blob, None, None).unwrap_err();
    assert_eq!(err, EnvelopeError::TagMismatch);
}

#[test]
fn request_on_the_wire() {
    let request = HttpRequest::new(HttpMethod::GET, "/x").header("X-A", "1");
    let text = String::from_utf8(request.build("example.com", None)).unwrap();
    assert_eq!(
        text,
        "GET /x HTTP/1.1\r\naccept: */*\r\naccept-encoding: br, zstd, gzip, deflate, identity\r\n\
         connection: keep-alive\r\nhost: example.com\r\nuser-agent: Singularity/0.0.1\r\nx-a: 1\r\n\r\n"
    );
}

#[test]
fn request_is_read_back() {
    let request = HttpRequest::new(HttpMethod::PUT, "/y").body(b"abc".to_vec());
    let bytes = request.build("h", None);
    let read = HttpRequest::from_bytes(&bytes, None).unwrap();
    assert_eq!(read.method(), HttpMethod::PUT);
    assert_eq!(read.path(), "/y");
    assert_eq!(read.body_bytes(), b"abc");
    assert_eq!(
        read.headers().get("digest"),
        Some("SHA-256=ungWv48Bz+pBQUDeXa4iI7ADYaOWF3qctBD/YfIAFa0=")
    );
    assert_eq!(
        read.headers().get("X-Content-SHA256"),
        Some("ba7816bf8f01cfea414140de5dae2223b00361a396177a9cb410ff61f20015ad")
    );
}

#[test]
fn request_with_coded_body() {
    let request = HttpRequest::new(HttpMethod::PUT, "/y")
        .header("Content-Encoding", "gzip")
        .body(b"abc".to_vec());
    let bytes = request.build("h", Some(b"zz"));
    assert!(bytes.ends_with(b"\r\n\r\nzz"));
    assert_eq!(HttpRequest::from_bytes(&bytes, None).err().unwrap(), MessageError::Codec);
    let read = HttpRequest::from_bytes(&bytes, Some(b"abc")).unwrap();
    assert_eq!(read.body_bytes(), b"abc");
    assert!(request.build("h", None).ends_with(b"\r\n\r\nabc"));
}

#[test]
fn request_faults() {
    let fault = |bytes: &[u8]| HttpRequest::from_bytes(bytes, None).err().unwrap();
    assert_eq!(fault(b"\xff\r\n\r\n"), MessageError::NotUtf8);
    assert_eq!(fault(b"GET / HTTP/1.1\r\n"), MessageError::NoHeaderEnd);
    assert_eq!(fault(b"\r\n\r\n"), MessageError::Empty);
    assert_eq!(fault(b"GET /\r\n\r\n"), MessageError::BadStartLine);
    assert_eq!(fault(b"get / HTTP/1.1\r\n\r\n"), MessageError::BadMethod);
    assert_eq!(fault(b"GET / HTTP/4\r\n\r\n"), MessageError::BadVersion);
    assert_eq!(fault(b"GET / HTTP/1.1\r\nnothing\r\n\r\n"), MessageError::BadHeaderLine);
    assert_eq!(
        fault(b"GET / HTTP/1.1\r\nContent-Encoding: lzma\r\n\r\n"),
        MessageError::UnsupportedCoding
    );
    assert_eq!(
        fault(b"GET / HTTP/1.1\r\nDigest: SHA-256=!\r\n\r\n"),
        MessageError::DigestEncoding
    );
    assert_eq!(
        fault(b"GET / HTTP/1.1\r\nDigest: sha-256=AAAA\r\n\r\nx"),
        MessageError::DigestMismatch
    );
    assert!(HttpRequest::from_bytes(b"GET / HTTP/1.1\r\nDigest: MD5=?\r\n\r\nx", None).is_ok());
    assert_eq!(MessageError::DigestMismatch.message(), "Digest verification failed");
}

#[test]
fn request_builder_steps() {
    let request = RequestBuilder::new(HttpMethod::DELETE, "/z")
        .header("A", "1")
        .keep_alive(false)
        .body(vec![1])
        .build();
    assert!(!request.wants_keep_alive());
    assert_eq!(request.headers().get("a"), Some("1"));
    let request = RequestBuilder::new(HttpMethod::GET, "/").connection("CLOSE").build();
    assert!(!request.wants_keep_alive());
    assert!(request.with_keep_alive().wants_keep_alive());
}

#[test]
fn accept_lists() {
    let mut request = HttpRequest::new(HttpMethod::GET, "/");
    request.set_accept(vec!["a/b".to_string(), "c/d".to_string()]);
    request.set_accept_language(vec!["de".to_string()]);
    request.set_accept_charset(vec![]);
    assert_eq!(request.accept(), Some("a/b, c/d"));
    assert_eq!(request.accept_language(), Some("de"));
    assert_eq!(request.accept_charset(), Some(""));
    assert_eq!(request.accept_encoding(), None);
}

#[test]
fn repeated_fields_survive_a_blob() {
    let mut request = HttpRequest::new(HttpMethod::GET, "/");
    request.headers_mut().append("X", "1");
    request.headers_mut().append("x", "2");
    let (_, blob) =
        request.to_secure_blob(CompressionAlgorithm::Identity, None, &NONCE, 1).unwrap();
    let (_, read) = HttpRequest::from_secure_blob(&blob, None).unwrap();
    assert_eq!(read.headers().len(), 1);
    assert_eq!(read.headers().values_at(0).len(), 2);
    assert_eq!(read.headers().values_at(0).at(1), "2");
}

#[test]
fn response_on_the_wire() {
    let response =
        HttpResponse::new(404, "Not Found".to_string(), HttpVersion::Http10, fields(&[("b", "2"), ("A", "1")]), b"xy".to_vec());
    assert_eq!(
        response.to_bytes(),
        b"HTTP/1.0 404 Not Found\r\nA: 1\r\nb: 2\r\nContent-Length: 2\r\n\r\nxy".to_vec()
    );
}

#[test]
fn response_faults() {
    let fault = |bytes: &[u8]| HttpResponse::from_bytes(bytes, None).err().unwrap();
    assert_eq!(fault(b"HTTP/1.1 200 OK\r\n"), MessageError::NoHeaderEnd);
    assert_eq!(fault(b"\xff\r\n\r\n"), MessageError::NotUtf8);
    assert_eq!(fault(b"\r\n\r\n"), MessageError::Empty);
    assert_eq!(fault(b"HTTP/1.1\r\n\r\n"), MessageError::BadStartLine);
    assert_eq!(fault(b"HTTP/7 200\r\n\r\n"), MessageError::BadVersion);
    assert_eq!(fault(b"HTTP/1.1 2x0\r\n\r\n"), MessageError::BadStatus);
    assert_eq!(fault(b"HTTP/1.1 200 OK\r\nA\r\n\r\n"), MessageError::BadHeaderLine);
    assert_eq!(
        fault(b"HTTP/1.1 200 OK\r\ncontent-length: q\r\n\r\nx"),
        MessageError::BadContentLength
    );
    assert_eq!(fault(b"HTTP/1.1 200 OK\r\nCONTENT-LENGTH: 2\r\n\r\nx"), MessageError::BodyTooShort);
}

#[test]
fn response_phrase_is_made_up_where_it_is_missing() {
    let response = HttpResponse::from_bytes(b"HTTP/1.1 503\r\n\r\n", None).unwrap();
    assert_eq!(response.reason_phrase(), "Service Unavailable");
    assert_eq!(HttpResponse::default_reason_phrase(418), "Unknown");
}

#[test]
fn sizes_of_chunks() {
    assert_eq!(read_chunk_size(b" 1A ;name=value"), Ok(26));
    assert_eq!(read_chunk_size(b"0"), Ok(0));
    assert_eq!(read_chunk_size(b""), Err(MessageError::BadChunkSize));
    assert_eq!(read_chunk_size(b"\xff"), Err(MessageError::ChunkSizeNotUtf8));
}

#[test]
fn a_chunk_may_hold_what_looks_like_the_end() {
    assert_eq!(decode_chunked(b"9\r\na\r\n0\r\n\r\nb\r\n0\r\nX: y\r\n\r\n").unwrap(), b"a\r\n0\r\n\r\nb");
}

#[test]
fn chunked_bodies() {
    assert_eq!(decode_chunked(b"3;x=y\r\nabc\r\n2\r\nde\r\n0\r\n\r\n").unwrap(), b"abcde");
    let fault = |bytes: &[u8]| decode_chunked(bytes).err().unwrap();
    assert_eq!(fault(b"3"), MessageError::ChunkSizeUnended);
    assert_eq!(fault(b"\xff\r\n"), MessageError::ChunkSizeNotUtf8);
    assert_eq!(fault(b"g\r\n"), MessageError::BadChunkSize);
    assert_eq!(fault(b"ffffffffffffffff1\r\n"), MessageError::BadChunkSize);
    assert_eq!(fault(b"ffffffffffffffff\r\nx"), MessageError::ChunkTooLong);
    assert_eq!(fault(b"1\r\nabc"), MessageError::ChunkUnended);
    let response =
        HttpResponse::from_bytes(b"HTTP/1.1 200 OK\r\nTransfer-Encoding: Chunked\r\n\r\n1\r\nz\r\n0\r\n\r\n", None)
            .unwrap();
    assert_eq!(response.body(), b"z");
    assert_eq!(response.body_as_string().unwrap(), "z");
}

#[test]
fn coded_response_bodies() {
    let bytes = b"HTTP/1.1 200 OK\r\ncontent-encoding: br\r\n\r\nzz";
    let response = HttpResponse::from_bytes(bytes, Some(b"plain")).unwrap();
    assert_eq!(response.body(), b"plain");
    assert_eq!(response.header("CONTENT-length"), Some(&"5".to_string()));
    assert_eq!(response.header("content-encoding"), None);
    assert_eq!(HttpResponse::from_bytes(bytes, None).err().unwrap(), MessageError::Codec);
}

#[test]
fn connections_of_responses() {
    let with = |v: HttpVersion, t: Table<String>| HttpResponse::new(200, String::new(), v, t, vec![]);
    assert!(with(HttpVersion::Http11, Table::new()).wants_keep_alive());
    assert!(!with(HttpVersion::Http10, Table::new()).wants_keep_alive());
    let closing = with(HttpVersion::Http11, fields(&[("connection", "Close")]));
    assert!(closing.should_close_connection() && !closing.wants_keep_alive());
    assert_eq!(closing.connection_type(), "Close");
    assert_eq!(with(HttpVersion::Http11, Table::new()).connection_type(), "keep-alive");
}

#[test]
fn responses_put_together_from_pieces() {
    assert_eq!(HttpParser::trim_line("abc\r\n"), "abc");
    assert_eq!(HttpParser::trim_line("abc\n"), "abc");
    assert_eq!(HttpParser::trim_line("abc\r"), "abc\r");
    let headers = HttpParser::parse_headers(&vec![
        "Content-Length: 3".to_string(),
        "junk".to_string(),
        "X: 1".to_string(),
        "x: 2".to_string(),
    ]);
    assert_eq!(HttpParser::body_plan(&headers), BodyPlan::Sized(3));
    let response =
        HttpParser::assemble(HttpVersion::Http11, StatusCode::new(200), "OK".to_string(), &headers, b"abc".to_vec(), None)
            .unwrap();
    assert_eq!(response.header("x"), Some(&"1, 2".to_string()));
    let chunked = HttpParser::parse_headers(&vec!["Transfer-Encoding: gzip, Chunked".to_string()]);
    assert_eq!(HttpParser::body_plan(&chunked), BodyPlan::Chunked);
    let open = HttpParser::parse_headers(&vec![]);
    assert_eq!(HttpParser::body_plan(&open), BodyPlan::UntilClose);
}

#[test]
fn a_blob_without_a_response_says_why() {
    for kind in [BlobKind::Response, BlobKind::ParsedResponse] {
        let (_, blob) = seal(kind, b"HTTP/1.1 200 OK", CompressionAlgorithm::Identity, None, &NONCE, 1).unwrap();
        let err = match kind {
            BlobKind::Response => HttpResponse::from_secure_blob(&blob, None, None).unwrap_err(),
            _ => decode_secure_http_response(&blob, None, None).unwrap_err(),
        };
        assert_eq!(err, EnvelopeError::BadResponse(MessageError::NoHeaderEnd));
        assert_eq!(err.message(), "invalid response payload");
    }
}
