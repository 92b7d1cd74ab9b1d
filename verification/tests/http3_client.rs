use singularity_net::crypto::base64;
use singularity_net::net::http::http3_client::{
    deserialize_http3_client_profile, select_secure_http3_client_profile_algorithm, serialize_http3_client_profile,
    TargetFault,
};
use singularity_net::net::http::{CompressionAlgorithm, Http3Client, HttpMethod, HttpRequest};

const NONCE: [u8; 24] = [7; 24];

const NOW: u64 = 1_700_000_000;

fn turned(data: &[u8]) -> Vec<u8> {
    data.iter().rev().copied().collect()
}

#[test]
fn test_secure_http3_client_profile_roundtrip_identity() {
    let mut client = Http3Client::new().with_timeout(4200);
    client.remember("127.0.0.1:443", "example.com");
    client.remember("127.0.0.1:8443", "api.example.com");

    let (meta, blob) = client
        .to_secure_profile_blob(CompressionAlgorithm::Identity, None, &NONCE, NOW)
        .expect("failed to encode secure http3 profile");

    assert_eq!(meta.algorithm, CompressionAlgorithm::Identity);

    let (decoded_meta, restored) =
        Http3Client::from_secure_profile_blob(&blob, None).expect("failed to decode secure http3 profile");

    assert_eq!(decoded_meta.raw_size, meta.raw_size);
    assert_eq!(restored.default_timeout_ms, 4200);
    assert_eq!(restored.server_name("127.0.0.1:443"), Some(&"example.com".to_string()));
    assert_eq!(restored.server_name("127.0.0.1:8443"), Some(&"api.example.com".to_string()));
}

#[test]
fn test_secure_http3_client_profile_roundtrip_compressed() {
    let mut client = Http3Client::new().with_timeout(12_000);
    client.remember("127.0.0.1:443", "compressed.example");

    let raw = serialize_http3_client_profile(&client);
    let coded = turned(&raw);
    let (_meta, blob) = client
        .to_secure_profile_blob(CompressionAlgorithm::Gzip, Some(&coded), &NONCE, NOW)
        .expect("failed to encode compressed secure http3 profile");

    let (_decoded_meta, restored) = Http3Client::from_secure_profile_blob(&blob, Some(&raw))
        .expect("failed to decode compressed secure http3 profile");

    assert_eq!(restored.default_timeout_ms, 12_000);
    assert_eq!(restored.server_name("127.0.0.1:443"), Some(&"compressed.example".to_string()));
}

#[test]
fn test_secure_http3_client_profile_tamper_detected() {
    let mut client = Http3Client::new();
    client.remember("127.0.0.1:443", "tamper.example");

    let (_meta, mut blob) = client
        .to_secure_profile_blob(CompressionAlgorithm::Identity, None, &NONCE, NOW)
        .expect("failed to encode secure http3 profile");

    let idx = blob.len().checked_sub(1).expect("blob should not be empty");
    blob[idx] ^= 0x01;

    let result = Http3Client::from_secure_profile_blob(&blob, None);
    assert!(result.is_err());
}

#[test]
fn a_url_is_split_into_its_parts() {
    let t = Http3Client::parse_url("https://192.0.2.7:8443/a/b?c=d").unwrap();
    assert_eq!(t.host, "192.0.2.7");
    assert_eq!(t.port, 8443);
    assert_eq!(t.path, "/a/b?c=d");
    assert_eq!(t.address, "192.0.2.7:8443");
    let bare = Http3Client::parse_url("https://192.0.2.7").unwrap();
    assert_eq!(bare.port, 443);
    assert_eq!(bare.path, "/");
    let six = Http3Client::parse_url("https://[2001:DB8:0:0::1]:443/").unwrap();
    assert_eq!(six.address, "[2001:db8::1]:443");
    assert_eq!(
        Http3Client::parse_url("https://192.0.2.7:port/").unwrap_err(),
        TargetFault::Port("port".to_string())
    );
    assert_eq!(
        Http3Client::parse_url("https://example.com/x").unwrap_err(),
        TargetFault::Address("example.com:443".to_string())
    );
}

#[test]
fn servers_are_known_by_address() {
    let mut client = Http3Client::new();
    assert!(client.remember("[0:0:0:0:0:0:0:1]:443", "one"));
    assert!(client.remember("[::1]:443", "two"));
    assert!(!client.remember("example.com:443", "three"));
    assert_eq!(client.server_names.len(), 1);
    assert_eq!(client.server_name("[0::1]:0443"), Some(&"two".to_string()));
    assert_eq!(client.server_name("example.com:443"), None);
    let raw = format!(
        "default-timeout-ms=1\nknown-server-count=1\nactive-connections=0\nserver-name-0-addr={}\nserver-name-0-name={}\n",
        base64::encode(b"example.com:443"),
        base64::encode(b"x")
    );
    assert!(deserialize_http3_client_profile(raw.as_bytes()).is_none());
    let good = raw.replace(&base64::encode(b"example.com:443"), &base64::encode(b"192.0.2.1:1"));
    assert!(deserialize_http3_client_profile(good.as_bytes()).is_some());
}

#[test]
fn pseudo_fields_come_first() {
    let t = Http3Client::parse_url("https://192.0.2.7/x").unwrap();
    let get = Http3Client::get(&t);
    assert_eq!(get[0], (":method".to_string(), "GET".to_string()));
    assert!(get.contains(&(":path".to_string(), "/x".to_string())));
    let post = Http3Client::post(&t, b"12345");
    assert_eq!(post[post.len() - 1], ("content-length".to_string(), "5".to_string()));
    let request = HttpRequest::new(HttpMethod::DELETE, "/x").header("x-a", "b");
    let fields = Http3Client::request(&t, &request);
    assert_eq!(fields[0].1, "DELETE");
    assert_eq!(fields[fields.len() - 1].1, "b");
}

#[test]
fn a_profile_that_is_no_text_is_refused() {
    assert!(deserialize_http3_client_profile(&[0xff]).is_none());
    assert_eq!(
        select_secure_http3_client_profile_algorithm("identity, gzip;q=0.1"),
        CompressionAlgorithm::Gzip
    );
    assert_eq!(Http3Client::new().connection_count(), 0);
}
