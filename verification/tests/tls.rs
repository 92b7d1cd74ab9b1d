use singularity_net::crypto::base64;
use singularity_net::crypto::sha256::sha256;
use singularity_net::net::http::CompressionAlgorithm;
use singularity_net::net::https::alpn::AlpnProtocol;
use singularity_net::net::https::tls::certificate::{
    build_certificate, build_certificate_verify, certificate_verify_content, parse_certificate_chain,
    split_certificate_chain, validate_certificate_chain, verify_certificate, verify_certificate_verify,
    AnchorFindings, KeyFinding,
};
use singularity_net::net::https::tls::config::{
    parse_configured_cipher_suite, CertificateFault, CipherFault, CodecFault, DecodeFault, HandshakeFault, TlsCfg, TlsError,
    TlsVersion, TrustFault, ALERT_CLOSE_NOTIFY, ALERT_HANDSHAKE_FAILURE, ALERT_LEVEL_FATAL, ALERT_LEVEL_WARNING,
    CONTENT_TYPE_ALERT, CONTENT_TYPE_APPLICATION_DATA, CONTENT_TYPE_HANDSHAKE, TLS_AES_128_GCM_SHA256,
    TLS_AES_256_GCM_SHA384, TLS_CHACHA20_POLY1305_SHA256,
};
use singularity_net::net::https::tls::handshake::{
    ChainFindings, HelloStep, KeyExchange, HANDSHAKE_CERTIFICATE, HANDSHAKE_CLIENT_HELLO,
    HANDSHAKE_ENCRYPTED_EXTENSIONS, HANDSHAKE_FINISHED, HANDSHAKE_SERVER_HELLO,
};
use singularity_net::net::https::tls::hello::{
    build_alpn_extension, build_client_hello, parse_alpn_extension, parse_client_hello, parse_new_session_ticket,
    validate_negotiated_protocol,
};
use singularity_net::net::https::tls::keys::{
    aead_key_len, compute_finished, derive_application_keys, hkdf_expand_label, verify_finished, TlsKeys,
};
use singularity_net::net::https::tls::records::{
    build_handshake_message, build_record, build_secure_record_payload, choose_record_algorithm,
    compression_algorithm_from_id, compression_algorithm_to_id, compute_record_nonce, finish_decryption,
    parse_handshake_message, parse_secure_record_payload, read_alert, read_record_header,
};
use singularity_net::net::https::tls::session::{SessionCache, TlsSession, MAX_SESSION_LIFETIME, SECOND};
use singularity_net::net::https::tls::stream::{ConnectionState, IncomingRecord, OutgoingRecord, TlsStream};
use singularity_net::net::https::trust_store::{Certificate, TrustStore};

const NONCE: [u8; 16] = [4; 16];

const NOW: u128 = 1_700_000_000_500_000_000;
const NO_ANCHOR: AnchorFindings = AnchorFindings { valid_now: false, signed: false };

fn turned(data: &[u8]) -> Vec<u8> {
    data.iter().rev().copied().collect()
}

struct Issued {
    cert: Certificate,
    key: u8,
    signer: u8,
}

/// A certificate of the holder of `key`, signed with the key `signer`.
fn issued(
    subject: &str,
    issuer: &str,
    key: u8,
    signer: u8,
    is_ca: bool,
    path_len: Option<u32>,
    can_sign: bool,
    server_auth: bool,
) -> Issued {
    let mut der = subject.as_bytes().to_vec();
    der.extend_from_slice(issuer.as_bytes());
    der.push(key);
    der.push(signer);
    Issued {
        cert: Certificate {
            der,
            subject: subject.as_bytes().to_vec(),
            issuer: issuer.as_bytes().to_vec(),
            subject_key_id: vec![],
            authority_key_id: vec![],
            valid_now: true,
            server_auth,
            can_sign,
            basic_constraints: Some((is_ca, path_len)),
        },
        key,
        signer,
    }
}

fn signatures(chain: &[&Issued]) -> Vec<bool> {
    (0..chain.len())
        .map(|i| i + 1 < chain.len() && chain[i].signer == chain[i + 1].key)
        .collect()
}

fn store_of(anchors: &[&Issued]) -> TrustStore {
    let mut store = TrustStore::empty();
    for a in anchors {
        store.add_cert(a.cert.clone());
    }
    store
}

fn checked(store: &TrustStore, chain: &[&Issued]) -> Result<(), TlsError> {
    let certs: Vec<Certificate> = chain.iter().map(|c| c.cert.clone()).collect();
    validate_certificate_chain(store, &certs, &signatures(chain), NO_ANCHOR)
}

fn keys() -> Option<TlsKeys> {
    Some(TlsKeys {
        client_write_key: vec![0x11; 16],
        server_write_key: vec![0x22; 16],
        client_write_iv: vec![0x33; 12],
        server_write_iv: vec![0x44; 12],
    })
}

fn cfg() -> TlsCfg {
    TlsCfg::with_trust_store(TrustStore::empty())
}

fn connected(is_client: bool) -> TlsStream {
    let mut tls = if is_client {
        TlsStream::new_client(cfg(), vec![])
    } else {
        TlsStream::new_server(cfg(), vec![])
    };
    tls.state = ConnectionState::Connected;
    tls.cipher_suite = TLS_AES_128_GCM_SHA256;
    tls.keys = keys();
    tls
}

#[test]
fn test_validate_certificate_chain_success() {
    let root = issued("Test Root CA", "Test Root CA", 1, 1, true, None, true, true);
    let leaf = issued("example.com", "Test Root CA", 2, 1, false, None, false, true);
    assert!(checked(&store_of(&[&root]), &[&leaf, &root]).is_ok());
}

#[test]
fn test_validate_certificate_chain_intermediate_success() {
    let root = issued("Test Root CA", "Test Root CA", 1, 1, true, None, true, true);
    let intermediate = issued("Test Intermediate CA", "Test Root CA", 3, 1, true, Some(0), true, true);
    let leaf = issued("example.com", "Test Intermediate CA", 2, 3, false, None, false, true);
    assert!(checked(&store_of(&[&root]), &[&leaf, &intermediate, &root]).is_ok());
}

#[test]
fn test_validate_certificate_chain_fails_with_empty_trust_store() {
    let root = issued("Test Root CA", "Test Root CA", 1, 1, true, None, true, true);
    assert!(checked(&TrustStore::empty(), &[&root]).is_err());
}

#[test]
fn test_validate_certificate_chain_fails_on_wrong_signer() {
    let root = issued("Test Root CA", "Test Root CA", 1, 1, true, None, true, true);
    let leaf = issued("example.com", "Test Root CA", 2, 9, false, None, false, true);
    assert!(checked(&store_of(&[&root]), &[&leaf, &root]).is_err());
}

#[test]
fn test_validate_certificate_chain_fails_when_issuer_not_ca() {
    let root = issued("Test Root CA", "Test Root CA", 1, 1, false, None, true, true);
    let leaf = issued("example.com", "Test Root CA", 2, 1, false, None, false, true);
    assert!(checked(&store_of(&[&root]), &[&leaf, &root]).is_err());
}

#[test]
fn test_validate_certificate_chain_fails_on_eku_mismatch() {
    let root = issued("Test Root CA", "Test Root CA", 1, 1, true, None, true, true);
    let leaf = issued("example.com", "Test Root CA", 2, 1, false, None, false, false);
    assert!(checked(&store_of(&[&root]), &[&leaf, &root]).is_err());
}

#[test]
fn test_validate_certificate_chain_fails_on_path_len_violation() {
    let root = issued("Test Root CA", "Test Root CA", 1, 1, true, None, true, true);
    let intermediate = issued("Test Intermediate CA", "Test Root CA", 3, 1, true, Some(0), true, true);
    let sub_intermediate =
        issued("Test Sub Intermediate CA", "Test Intermediate CA", 4, 3, true, None, true, true);
    let leaf = issued("example.com", "Test Sub Intermediate CA", 2, 4, false, None, false, true);
    assert!(checked(&store_of(&[&root]), &[&leaf, &sub_intermediate, &intermediate, &root]).is_err());
}

#[test]
fn test_verify_certificate_end_to_end_via_certificate_message() {
    let root = issued("Test Root CA", "Test Root CA", 1, 1, true, None, true, true);
    let leaf = issued("example.com", "Test Root CA", 2, 1, false, None, false, true);

    let config = TlsCfg::with_trust_store(store_of(&[&root]));
    let tls = TlsStream::new_client_with_sni(config, "example.com".to_string(), vec![]);

    let mut cert_msg = vec![0u8];
    let mut cert_list: Vec<u8> = Vec::new();
    for cert in [&leaf, &root] {
        let der = &cert.cert.der;
        let len = der.len() as u32;
        cert_list.push(((len >> 16) & 0xff) as u8);
        cert_list.push(((len >> 8) & 0xff) as u8);
        cert_list.push((len & 0xff) as u8);
        cert_list.extend_from_slice(der);
        cert_list.extend_from_slice(&0u16.to_be_bytes());
    }

    let list_len = cert_list.len() as u32;
    cert_msg.push(((list_len >> 16) & 0xff) as u8);
    cert_msg.push(((list_len >> 8) & 0xff) as u8);
    cert_msg.push((list_len & 0xff) as u8);
    cert_msg.extend_from_slice(&cert_list);

    let (ders, fault) = split_certificate_chain(&cert_msg);
    assert_eq!(ders, vec![leaf.cert.der.clone(), root.cert.der.clone()]);
    assert_eq!(fault, None);
    let found = ChainFindings {
        certs: vec![Some(leaf.cert.clone()), Some(root.cert.clone())],
        name_matches: true,
        signed: signatures(&[&leaf, &root]),
        anchor: NO_ANCHOR,
    };
    let result = tls.verify_certificate_message(&cert_msg, found);
    assert!(result.is_ok(), "verify_certificate failed: {:?}", result);
}

#[test]
fn test_tls_config_default() {
    let root = issued("Test Root CA", "Test Root CA", 1, 1, true, None, true, true);
    let cfg = TlsCfg::with_trust_store(store_of(&[&root]));
    assert_eq!(cfg.min_version, TlsVersion::Tls1_2);
    assert_eq!(cfg.max_version, TlsVersion::Tls1_3);
    assert!(cfg.verify_peer);
    assert!(!cfg.trust_store.is_empty());
    assert!(cfg.trust_store.find_issuer(&root.cert).is_some());
    assert!(cfg.session_cache);
    assert_eq!(cfg.supported_ciphers.len(), 3);
    assert!(cfg.record_compression.enabled);
    assert!(cfg.record_security.enable_integrity);
}

#[test]
fn test_cipher_suite_selection() {
    let client_ciphers = vec![0x1301, 0x1302];
    let result = cfg().select_cipher_suite(&client_ciphers);
    assert!(result.is_ok());
}

#[test]
fn test_client_hello_parsing() {
    let client_hello = vec![
        0x03, 0x03,
        0x00, 0x00, 0x00, 0x00, 0x00, 0x00, 0x00, 0x00,
        0x00, 0x00, 0x00, 0x00, 0x00, 0x00, 0x00, 0x00,
        0x00, 0x00, 0x00, 0x00, 0x00, 0x00, 0x00, 0x00,
        0x00, 0x00, 0x00, 0x00, 0x00, 0x00, 0x00, 0x00,
        0x00,
        0x00, 0x02, 0x13, 0x01,
        0x01, 0x00,
        0x00, 0x00,
    ];

    let result = parse_client_hello(&client_hello);
    assert!(result.is_ok());
}

#[test]
fn test_secure_record_roundtrip_identity() {
    let tls = connected(true);
    let payload = b"secure tls payload";
    let blob = build_secure_record_payload(
        &tls.config.record_security,
        &tls.config.record_compression,
        tls.negotiated_record_compression,
        &tls.keys,
        true,
        payload,
        CONTENT_TYPE_APPLICATION_DATA,
        7,
        true,
        None,
        &NONCE,
    )
    .unwrap();

    let (decoded, inner_type) = parse_secure_record_payload(
        &tls.config.record_security,
        &tls.keys,
        true,
        &blob,
        7,
        true,
        CONTENT_TYPE_APPLICATION_DATA,
        None,
    )
    .unwrap();

    assert_eq!(inner_type, CONTENT_TYPE_APPLICATION_DATA);
    assert_eq!(decoded, payload);
}

#[test]
fn test_secure_record_roundtrip_compressed() {
    let mut tls = connected(true);
    tls.config.record_compression.enabled = true;
    tls.config.record_compression.min_size = 1;
    tls.config.record_compression.preferred_algorithm = CompressionAlgorithm::Gzip;

    let payload = b"this is a compressible secure tls payload repeated repeated repeated";
    let coded = turned(&payload[..payload.len() - 1]);
    let blob = build_secure_record_payload(
        &tls.config.record_security,
        &tls.config.record_compression,
        tls.negotiated_record_compression,
        &tls.keys,
        true,
        payload,
        CONTENT_TYPE_APPLICATION_DATA,
        12,
        true,
        Some(&coded),
        &NONCE,
    )
    .unwrap();
    assert!(blob.ends_with(&coded));

    let (decoded, inner_type) = parse_secure_record_payload(
        &tls.config.record_security,
        &tls.keys,
        true,
        &blob,
        12,
        true,
        CONTENT_TYPE_APPLICATION_DATA,
        Some(payload),
    )
    .unwrap();

    assert_eq!(inner_type, CONTENT_TYPE_APPLICATION_DATA);
    assert_eq!(decoded, payload);
}

#[test]
fn test_secure_record_tamper_detection() {
    let tls = connected(true);
    let payload = b"tamper me";
    let mut blob = build_secure_record_payload(
        &tls.config.record_security,
        &tls.config.record_compression,
        tls.negotiated_record_compression,
        &tls.keys,
        true,
        payload,
        CONTENT_TYPE_APPLICATION_DATA,
        99,
        true,
        None,
        &NONCE,
    )
    .unwrap();

    let last = blob.len() - 1;
    blob[last] ^= 0x01;

    let result = parse_secure_record_payload(
        &tls.config.record_security,
        &tls.keys,
        true,
        &blob,
        99,
        true,
        CONTENT_TYPE_APPLICATION_DATA,
        None,
    );
    assert!(result.is_err());
    assert_eq!(result.unwrap_err(), TlsError::IntegrityError);
}

#[test]
fn test_alert_encoding() {
    let alert = vec![ALERT_LEVEL_FATAL, ALERT_HANDSHAKE_FAILURE];
    assert_eq!(alert[0], ALERT_LEVEL_FATAL);
    assert_eq!(alert[1], ALERT_HANDSHAKE_FAILURE);
    assert_eq!(
        read_alert(CONTENT_TYPE_ALERT, &alert),
        Some(TlsError::AlertReceived(ALERT_LEVEL_FATAL, ALERT_HANDSHAKE_FAILURE))
    );
}

#[test]
fn test_version_ordering() {
    assert!(TlsVersion::Tls1_2 < TlsVersion::Tls1_3);
    assert_eq!(TlsVersion::Tls1_3, TlsVersion::Tls1_3);
}

#[test]
fn test_pem_for_debug_digest_only() {
    let digest = sha256(b"digest-example");
    let b64 = base64::encode(&digest);
    assert!(!b64.is_empty());
}

#[test]
fn faults_of_a_chain_are_told_apart() {
    let root = issued("R", "R", 1, 1, true, None, true, true);
    let store = store_of(&[&root]);
    let leaf = issued("L", "R", 2, 1, false, None, false, true);
    assert_eq!(
        checked(&TrustStore::empty(), &[&leaf, &root]),
        Err(TlsError::VerificationFailed(TrustFault::NoAnchors))
    );
    let astray = issued("L", "X", 2, 1, false, None, false, true);
    assert_eq!(
        checked(&store, &[&astray, &root]),
        Err(TlsError::VerificationFailed(TrustFault::NameMismatch))
    );
    let forged = issued("L", "R", 2, 7, false, None, false, true);
    assert_eq!(
        checked(&store, &[&forged, &root]),
        Err(TlsError::VerificationFailed(TrustFault::ChainSignature))
    );
    let mut stale = issued("L", "R", 2, 1, false, None, false, true);
    stale.cert.valid_now = false;
    assert_eq!(
        checked(&store, &[&stale, &root]),
        Err(TlsError::InvalidCertificate(CertificateFault::ChainExpired))
    );
    let coder = issued("L", "R", 2, 1, false, None, false, false);
    assert_eq!(
        checked(&store, &[&coder, &root]),
        Err(TlsError::VerificationFailed(TrustFault::ExtendedKeyUsage))
    );
    let mute = issued("R", "R", 1, 1, true, None, false, true);
    assert_eq!(
        checked(&store_of(&[&mute]), &[&leaf, &mute]),
        Err(TlsError::VerificationFailed(TrustFault::KeyUsage))
    );
    let stranger = issued("S", "S", 5, 5, true, None, true, true);
    let theirs = issued("L", "S", 2, 5, false, None, false, true);
    assert_eq!(
        checked(&store, &[&theirs, &stranger]),
        Err(TlsError::VerificationFailed(TrustFault::NoTrustedRoot))
    );
}

#[test]
fn a_chain_without_its_root_is_closed_by_an_anchor() {
    let root = issued("R", "R", 1, 1, true, None, true, true);
    let leaf = issued("L", "R", 2, 1, false, None, false, true);
    let store = store_of(&[&root]);
    let chain = vec![leaf.cert.clone()];
    let found = |valid_now: bool, signed: bool| AnchorFindings { valid_now, signed };
    assert_eq!(validate_certificate_chain(&store, &chain, &vec![false], found(true, true)), Ok(()));
    assert_eq!(
        validate_certificate_chain(&store, &chain, &vec![false], found(true, false)),
        Err(TlsError::VerificationFailed(TrustFault::AnchorSignature))
    );
    assert_eq!(
        validate_certificate_chain(&store, &chain, &vec![false], found(false, true)),
        Err(TlsError::InvalidCertificate(CertificateFault::AnchorExpired))
    );
    let whole = vec![leaf.cert.clone(), root.cert.clone()];
    assert_eq!(validate_certificate_chain(&store, &whole, &vec![true, false], found(false, false)), Ok(()));
}

#[test]
fn a_leaf_has_to_be_in_force_and_named() {
    let root = issued("R", "R", 1, 1, true, None, true, true);
    let leaf = issued("L", "R", 2, 1, false, None, false, true);
    let store = store_of(&[&root]);
    let chain = vec![leaf.cert.clone(), root.cert.clone()];
    let signed = vec![true, false];
    assert_eq!(verify_certificate(&store, true, Some("L"), true, &chain, &signed, NO_ANCHOR), Ok(()));
    assert_eq!(
        verify_certificate(&store, true, Some("L"), false, &chain, &signed, NO_ANCHOR),
        Err(TlsError::InvalidCertificate(CertificateFault::HostnameMismatch))
    );
    let mut stale = chain.clone();
    stale[0].valid_now = false;
    assert_eq!(
        verify_certificate(&store, false, Some("L"), true, &stale, &signed, NO_ANCHOR),
        Err(TlsError::InvalidCertificate(CertificateFault::LeafExpired))
    );
    assert_eq!(verify_certificate(&TrustStore::empty(), false, None, true, &chain, &signed, NO_ANCHOR), Ok(()));
}

#[test]
fn a_certificate_message_is_split_into_what_was_put_in() {
    let msg = build_certificate(&vec![vec![1, 2, 3], vec![4]]);
    assert_eq!(split_certificate_chain(&msg), (vec![vec![1, 2, 3], vec![4]], None));
    assert_eq!(split_certificate_chain(&[0, 0]).1, Some(CertificateFault::MessageTooShort));
    assert_eq!(split_certificate_chain(&[0, 0, 0, 99, 0, 0, 0, 0, 0, 0]).1, Some(CertificateFault::ListTruncated));
    assert!(parse_certificate_chain(vec![None], None).is_err());
}

#[test]
fn a_certificate_verify_message_is_checked() {
    let content = certificate_verify_content(false, &[7; 32]);
    assert!(content.starts_with(&[0x20; 64]));
    let msg = build_certificate_verify(Some(&[1, 2])).unwrap();
    assert_eq!(verify_certificate_verify(&msg, &vec![KeyFinding::Checked(true)]), Ok(()));
    assert_eq!(
        build_certificate_verify(None).unwrap_err(),
        TlsError::CipherError(CipherFault::Sign)
    );
    assert_eq!(
        verify_certificate_verify(&msg, &vec![KeyFinding::Checked(false), KeyFinding::BadKey]),
        Err(TlsError::InvalidCertificate(CertificateFault::BadPublicKey))
    );
    assert_eq!(
        verify_certificate_verify(&msg, &vec![KeyFinding::NoKey]),
        Err(TlsError::InvalidCertificate(CertificateFault::NoPublicKey))
    );
    assert_eq!(
        verify_certificate_verify(&[0], &vec![KeyFinding::Checked(true)]),
        Err(TlsError::VerificationFailed(TrustFault::VerifyTooShort))
    );
}

#[test]
fn suites_are_known_by_name() {
    assert_eq!(parse_configured_cipher_suite("TLS_AES_128_GCM_SHA256"), Some(TLS_AES_128_GCM_SHA256));
    assert_eq!(parse_configured_cipher_suite("NULL"), None);
    assert_eq!(cfg().select_cipher_suite(&vec![0x0001]), Err(TlsError::NoSharedCipher));
    assert_eq!(cfg().negotiate_version(&vec![0x0304, 0x0303]), Ok(TlsVersion::Tls1_3));
    assert_eq!(cfg().negotiate_version(&vec![0x0301]), Err(TlsError::UnsupportedVersion));
    assert_eq!(TlsVersion::Tls1_2.code(), 0x0303);
}

#[test]
fn a_hello_is_read_back() {
    let hello = build_client_hello(
        &[5; 32],
        &vec![TLS_AES_128_GCM_SHA256, TLS_CHACHA20_POLY1305_SHA256],
        &Some("example.com".to_string()),
        &vec![AlpnProtocol::Http2],
        &[6; 32],
    );
    let read = parse_client_hello(&hello).unwrap();
    assert_eq!(read.random, vec![5; 32]);
    assert_eq!(read.ciphers, vec![TLS_AES_128_GCM_SHA256, TLS_CHACHA20_POLY1305_SHA256]);
    assert_eq!(read.public_key, vec![6; 32]);
    assert_eq!(
        parse_client_hello(&[3, 3]).unwrap_err(),
        TlsError::DecodeError(DecodeFault::ClientHelloTooShort)
    );
}

#[test]
fn protocols_are_offered_and_agreed_on() {
    let offered = vec![AlpnProtocol::Http2, AlpnProtocol::Http11];
    assert!(!build_alpn_extension(&offered).is_empty());
    assert_eq!(parse_alpn_extension(&[0, 3, 2, b'h', b'2'], &offered), Ok(AlpnProtocol::Http2));
    assert!(parse_alpn_extension(&[], &offered).is_err());
    assert_eq!(validate_negotiated_protocol(Some(AlpnProtocol::Http2), &offered), Ok(()));
    assert!(validate_negotiated_protocol(Some(AlpnProtocol::Http3), &offered).is_err());
    assert!(parse_new_session_ticket(&[0]).is_err());
}

#[test]
fn keys_fit_their_suite() {
    assert_eq!(aead_key_len(TLS_AES_128_GCM_SHA256), 16);
    assert_eq!(aead_key_len(TLS_AES_256_GCM_SHA384), 32);
    let k = derive_application_keys(&[1; 32], &[2; 32], TLS_AES_256_GCM_SHA384);
    assert_eq!(k.client_write_key.len(), 32);
    assert_eq!(k.server_write_iv.len(), 12);
    assert_ne!(k.client_write_key, k.server_write_key);
    assert_eq!(hkdf_expand_label(&[1; 32], b"key", b"", 16).unwrap().len(), 16);
}

#[test]
fn finished_data_is_accepted_by_the_other_side() {
    let data = compute_finished(&keys(), &[3; 32], false).unwrap();
    assert_eq!(verify_finished(&keys(), &[3; 32], &data, false), Ok(()));
    assert_eq!(
        verify_finished(&keys(), &[4; 32], &data, false),
        Err(TlsError::HandshakeFailed(HandshakeFault::FinishedMismatch))
    );
    assert_eq!(
        compute_finished(&None, &[3; 32], true).unwrap_err(),
        TlsError::HandshakeFailed(HandshakeFault::KeysNotDerived)
    );
}

#[test]
fn records_carry_type_and_length() {
    let record = build_record(CONTENT_TYPE_HANDSHAKE, b"abc");
    assert_eq!(record, vec![22, 3, 3, 0, 3, b'a', b'b', b'c']);
    assert_eq!(read_record_header(&record[..5]), (CONTENT_TYPE_HANDSHAKE, 3));
    let message = build_handshake_message(HANDSHAKE_FINISHED, b"xy");
    assert_eq!(parse_handshake_message(&message), Ok((HANDSHAKE_FINISHED, b"xy".to_vec())));
    assert_eq!(
        parse_handshake_message(&message[..3]),
        Err(TlsError::DecodeError(DecodeFault::MessageTooShort))
    );
    assert_eq!(
        parse_handshake_message(&message[..5]),
        Err(TlsError::DecodeError(DecodeFault::MessageIncomplete))
    );
}

#[test]
fn record_nonces_differ_by_number() {
    assert_eq!(
        compute_record_nonce(&[0; 12], 0x0102),
        vec![0, 0, 0, 0, 0, 0, 0, 0, 0, 0, 1, 2]
    );
    assert_ne!(compute_record_nonce(&[9; 12], 1), compute_record_nonce(&[9; 12], 2));
}

#[test]
fn the_type_of_a_record_stands_at_its_end() {
    assert_eq!(finish_decryption(Some(vec![1, 2, 23])), Ok((vec![1, 2], 23)));
    assert_eq!(finish_decryption(Some(vec![])), Err(TlsError::CipherError(CipherFault::PlaintextEmpty)));
    assert_eq!(finish_decryption(None), Err(TlsError::CipherError(CipherFault::Open)));
}

#[test]
fn codings_of_records_have_numbers() {
    for a in [
        CompressionAlgorithm::Identity,
        CompressionAlgorithm::Gzip,
        CompressionAlgorithm::Deflate,
        CompressionAlgorithm::Brotli,
        CompressionAlgorithm::Zstd,
    ] {
        assert_eq!(compression_algorithm_from_id(compression_algorithm_to_id(a)), Ok(a));
    }
    assert_eq!(
        compression_algorithm_from_id(77),
        Err(TlsError::DecodeError(DecodeFault::UnknownCompression(77)))
    );
    let c = cfg().record_compression;
    assert_eq!(choose_record_algorithm(&c, 511), CompressionAlgorithm::Identity);
    assert_eq!(choose_record_algorithm(&c, 512), CompressionAlgorithm::Zstd);
}

#[test]
fn a_secured_record_is_bound_to_its_number() {
    let tls = connected(true);
    let blob = build_secure_record_payload(
        &tls.config.record_security,
        &tls.config.record_compression,
        CompressionAlgorithm::Identity,
        &tls.keys,
        true,
        b"data",
        CONTENT_TYPE_APPLICATION_DATA,
        1,
        true,
        None,
        &NONCE,
    )
    .unwrap();
    let other = parse_secure_record_payload(
        &tls.config.record_security,
        &tls.keys,
        true,
        &blob,
        2,
        true,
        CONTENT_TYPE_APPLICATION_DATA,
        None,
    );
    assert_eq!(other, Err(TlsError::IntegrityError));
    let keyless = build_secure_record_payload(
        &tls.config.record_security,
        &tls.config.record_compression,
        CompressionAlgorithm::Identity,
        &None,
        true,
        b"data",
        CONTENT_TYPE_APPLICATION_DATA,
        1,
        true,
        None,
        &NONCE,
    );
    assert_eq!(keyless, Err(TlsError::NoIntegrityKeys));
}

#[test]
fn data_sent_by_a_client_arrives_at_the_server() {
    let mut client = connected(true);
    let mut server = connected(false);
    for text in [&b"first"[..], &b"second"[..]] {
        let sealed = match client
            .prepare_record(CONTENT_TYPE_APPLICATION_DATA, text, None, &NONCE)
            .unwrap()
        {
            OutgoingRecord::Seal(input) => turned(&input.text),
            OutgoingRecord::Ready(_) => panic!("not enciphered"),
        };
        let mut cipher = sealed.clone();
        cipher.extend_from_slice(&[0; 16]);
        let record = TlsStream::sealed_record(Some(&cipher)).unwrap();
        let (kind, len) = read_record_header(&record[..5]);
        assert_eq!(len, record.len() - 5);
        let arrived = match server.accept_record(kind, &record[5..]).unwrap() {
            IncomingRecord::Open(input, seq) => {
                let opened = turned(&input.text[..input.text.len() - 16]);
                server.receive_opened(Some(opened), seq, None).unwrap()
            }
            IncomingRecord::Ready(_) => panic!("not enciphered"),
        };
        assert_eq!(arrived, text);
    }
    assert_eq!(client.client_seq, 2);
    assert_eq!(server.client_seq, 2);
}

#[test]
fn what_is_not_read_at_once_is_kept() {
    let mut tls = connected(true);
    let first = tls.read_arrived(b"abcdef", 4);
    assert_eq!(first, b"abcd");
    assert_eq!(tls.read_buffered(10), Ok(Some(b"ef".to_vec())));
    assert_eq!(tls.read_buffered(10), Ok(None));
    assert!(tls.close().is_some());
    assert_eq!(tls.state, ConnectionState::Closed);
    assert!(tls.close().is_none());
    assert_eq!(tls.read_buffered(1), Err(TlsError::NotConnected));
}

#[test]
fn an_alert_is_two_octets() {
    let tls = connected(true);
    let record = tls.send_alert(ALERT_LEVEL_WARNING, ALERT_CLOSE_NOTIFY);
    assert_eq!(&record[5..], &[ALERT_LEVEL_WARNING, ALERT_CLOSE_NOTIFY]);
    assert_eq!(read_alert(CONTENT_TYPE_HANDSHAKE, &[1, 0]), None);
}

#[test]
fn a_client_says_hello_first() {
    let mut client = TlsStream::new_client_with_sni(cfg(), "example.com".to_string(), vec![AlpnProtocol::Http2]);
    let (hello, session) = client.begin_client(&SessionCache::new(), &[1; 32], &[2; 32], NOW);
    assert!(session.is_none());
    assert_eq!(client.state, ConnectionState::Handshaking);
    assert_eq!(parse_handshake_message(&hello), Ok((HANDSHAKE_CLIENT_HELLO, client.handshake_msg.clone())));
    let early = client.on_server_hello(HANDSHAKE_FINISHED, &[], None, &None);
    assert_eq!(
        early.unwrap_err(),
        TlsError::HandshakeFailed(HandshakeFault::ExpectedServerHello)
    );
    assert_eq!(
        client.on_client_secret(&KeyExchange::PeerKeyRefused),
        Err(TlsError::CipherError(CipherFault::PeerKey))
    );
    assert_eq!(
        client.on_client_secret(&KeyExchange::Failed),
        Err(TlsError::HandshakeFailed(HandshakeFault::KeyExchange))
    );
    assert_eq!(client.client_finished().unwrap_err(), TlsError::HandshakeFailed(HandshakeFault::KeysNotDerived));
}

#[test]
fn a_server_answers_a_hello() {
    let mut client = TlsStream::new_client(cfg(), vec![AlpnProtocol::Http2]);
    let mut server = TlsStream::new_server(cfg(), vec![AlpnProtocol::Http2]);
    let (hello, _) = client.begin_client(&SessionCache::new(), &[1; 32], &[2; 32], NOW);
    let (kind, body) = parse_handshake_message(&hello).unwrap();
    let (answer, key) = server.on_client_hello(kind, &body, &[3; 32], &[4; 32]).unwrap();
    assert_eq!(key, vec![2; 32]);
    assert_eq!(server.cipher_suite, TLS_AES_256_GCM_SHA384);
    let (_, said) = parse_handshake_message(&answer).unwrap();
    assert!(server.handshake_msg.ends_with(&said));
    assert_eq!(
        server.on_server_secret(&KeyExchange::PeerKeyRefused),
        Err(TlsError::HandshakeFailed(HandshakeFault::PeerKeyRefused))
    );
    assert_eq!(server.on_server_secret(&KeyExchange::Secret(vec![5; 32])), Ok(()));
    assert!(server.keys.is_some());
    assert!(!server.say_encrypted_extensions().is_empty());
    let done = server.say_finished().unwrap();
    assert_eq!(parse_handshake_message(&done).unwrap().1.len(), 32);
    assert_eq!(
        server.on_client_finished(HANDSHAKE_SERVER_HELLO, &[]),
        Err(TlsError::HandshakeFailed(HandshakeFault::ExpectedFinished))
    );
}

#[test]
fn a_server_refuses_a_hello_out_of_turn() {
    let mut server = TlsStream::new_server(cfg(), vec![]);
    assert_eq!(
        server.on_client_hello(HANDSHAKE_FINISHED, &[], &[3; 32], &[4; 32]).unwrap_err(),
        TlsError::HandshakeFailed(HandshakeFault::ExpectedClientHello)
    );
}

fn nothing_found() -> ChainFindings {
    ChainFindings { certs: vec![], name_matches: false, signed: vec![], anchor: NO_ANCHOR }
}

#[test]
fn a_client_waits_for_finished() {
    let mut client = TlsStream::new_client(cfg(), vec![]);
    client.begin_client(&SessionCache::new(), &[1; 32], &[2; 32], NOW);
    assert_eq!(client.on_client_secret(&KeyExchange::Secret(vec![9; 32])), Ok(()));
    assert_eq!(
        client.on_server_message(&mut SessionCache::new(), HANDSHAKE_ENCRYPTED_EXTENSIONS, &[0, 0], nothing_found(), NOW),
        Ok(false)
    );
    let hash = client.compute_transcript_hash();
    let data = compute_finished(&client.keys, &hash, false).unwrap();
    assert_eq!(client.on_server_message(&mut SessionCache::new(), HANDSHAKE_FINISHED, &data, nothing_found(), NOW), Ok(true));
    let wrong = turned(&data);
    assert!(client.on_server_message(&mut SessionCache::new(), HANDSHAKE_FINISHED, &wrong, nothing_found(), NOW).is_err());
    assert_eq!(
        client.on_server_message(&mut SessionCache::new(), 99, &[], nothing_found(), NOW),
        Err(TlsError::HandshakeFailed(HandshakeFault::UnexpectedMessage(99)))
    );
}

#[test]
fn a_bad_certificate_ends_the_handshake() {
    let mut client = TlsStream::new_client(cfg(), vec![]);
    client.begin_client(&SessionCache::new(), &[1; 32], &[2; 32], NOW);
    let msg = build_certificate(&vec![vec![1, 2, 3]]);
    let found = ChainFindings { certs: vec![None], name_matches: true, signed: vec![], anchor: NO_ANCHOR };
    assert_eq!(
        client.on_server_message(&mut SessionCache::new(), HANDSHAKE_CERTIFICATE, &msg, found, NOW),
        Err(TlsError::InvalidCertificate(CertificateFault::Unreadable))
    );
}

#[test]
fn connections_share_a_store() {
    let mut sessions = SessionCache::new();
    let open = || TlsStream::new_client_with_sni(cfg(), "example.com".to_string(), vec![]);
    let mut first = open();
    let mut second = open();
    assert!(second.begin_client(&sessions, &[1; 32], &[2; 32], NOW).1.is_none());
    first.save_session(&mut sessions, &[7; 32], &[8; 32], NOW);
    assert_eq!(second.begin_client(&sessions, &[1; 32], &[2; 32], NOW).1.unwrap().session_id, vec![8; 32]);

    let mut config = cfg();
    config.session_cache = false;
    let mut third = TlsStream::new_client_with_sni(config, "example.com".to_string(), vec![]);
    assert!(third.begin_client(&sessions, &[1; 32], &[2; 32], NOW).1.is_none());
    sessions.clear();
    third.save_session(&mut sessions, &[7; 32], &[8; 32], NOW);
    assert!(sessions.get("example.com").is_none());
}

#[test]
fn a_kept_session_is_offered_again() {
    let mut config = cfg();
    config.enable_session_resumption = true;
    let mut sessions = SessionCache::new();
    let mut client = TlsStream::new_client_with_sni(config, "example.com".to_string(), vec![]);
    client.cipher_suite = TLS_AES_128_GCM_SHA256;
    client.save_session(&mut sessions, &[7; 32], &[8; 32], NOW);
    assert_eq!(client.session_id, vec![8; 32]);
    let mut again = TlsStream::new_client_with_sni(
        {
            let mut c = cfg();
            c.enable_session_resumption = true;
            c
        },
        "example.com".to_string(),
        vec![],
    );
    let (hello, session) = again.begin_client(&sessions, &[1; 32], &[2; 32], NOW + 10 * SECOND);
    let session = session.unwrap();
    assert_eq!(session.session_id, vec![8; 32]);
    assert!(again.resuming_session);
    assert_eq!(&hello[38..71], [&[32u8][..], &[8; 32][..]].concat().as_slice());

    let mut answer = vec![3, 3];
    answer.extend_from_slice(&[6; 32]);
    answer.push(32);
    answer.extend_from_slice(&[8; 32]);
    answer.extend_from_slice(&[0x13, 0x01, 0, 0, 0]);
    let step = again.on_server_hello(HANDSHAKE_SERVER_HELLO, &answer, None, &Some(session));
    assert!(matches!(step, Ok(HelloStep::Resumed)));
    assert_eq!(again.state, ConnectionState::Connected);
}

#[test]
fn sessions_grow_old() {
    let s = TlsSession::new(vec![1], vec![2], 0x1301, "a".to_string(), TlsVersion::Tls1_3, NOW);
    assert!(s.is_valid(NOW + MAX_SESSION_LIFETIME - 1));
    assert!(!s.is_valid(NOW + MAX_SESSION_LIFETIME));
    assert_eq!(MAX_SESSION_LIFETIME, 7200 * SECOND);
    assert_eq!(s.age(NOW + SECOND - 1), 0);
    assert_eq!(s.age(NOW + SECOND), 1);
    assert_eq!(s.age(NOW - 1), u32::MAX);
    assert!(!s.is_valid(NOW - 1));
    let mut cache = SessionCache::new();
    cache.insert("a".to_string(), s);
    assert!(cache.get("a").is_some());
    assert!(cache.get_valid("a", NOW + 2 * MAX_SESSION_LIFETIME).is_none());
    cache.cleanup_expired(NOW + 2 * MAX_SESSION_LIFETIME);
    assert!(cache.get("a").is_none());
}

#[test]
fn errors_in_words() {
    let of = |e: TlsError| e.to_string("this");
    assert_eq!(of(TlsError::AlertReceived(2, 40)), "Alert Received: level=2, description=40");
    assert_eq!(
        of(TlsError::HandshakeFailed(HandshakeFault::UnexpectedMessage(99))),
        "Handshake Failed: Unexpected handshake message: 99"
    );
    assert_eq!(
        of(TlsError::HandshakeFailed(HandshakeFault::AlpnNotOffered(AlpnProtocol::Http2))),
        "Handshake Failed: Server selected protocol 'h2' not in client offer"
    );
    assert_eq!(
        of(TlsError::InvalidCertificate(CertificateFault::HostnameMismatch)),
        "Invalid Certificate: Certificate hostname mismatch: expected this"
    );
    assert_eq!(
        of(TlsError::VerificationFailed(TrustFault::NoTrustedRoot)),
        "Verification Failed: Certificate chain does not terminate at a trusted root"
    );
    assert_eq!(
        of(TlsError::DecodeError(DecodeFault::RecordRawSize(5, 7))),
        "Decode Error: Secure record raw length mismatch: expected 5, got 7"
    );
    assert_eq!(of(TlsError::CipherError(CipherFault::Expand)), "Cipher Error: HKDF expand failed: this");
    assert_eq!(
        of(TlsError::CompressionError(CodecFault::Decompress)),
        "Compression Error: Failed to decompress secure record: this"
    );
    assert_eq!(of(TlsError::NoIntegrityKeys), "Integrity Error: TLS keys not initialized");
    assert_eq!(
        of(TlsError::ProtocolNegotiationFailed(Some(AlpnProtocol::Http11))),
        "Protocol Negotiation Failed: Server negotiated unexpected protocol: http/1.1"
    );
    assert_eq!(of(TlsError::NoSharedCipher), "No Shared Cipher Suite");
    assert_eq!(TlsError::AlertReceived(2, 40).message(), "Alert Received");
}
