use singularity_net::crypto::sha256::sha256;
use singularity_net::net::https::ct::{
    embedded_sct_checks, parse_sct_list, parse_single_sct, precert_signed_data, spki_parameters,
    verify_embedded_scts, CtError, CtEvidence, CtLog, CtLogBundle, IssuerKey, KeyParameters, Sct,
};
use singularity_net::net::https::revocation::{
    check_revocation, crl_cache_key, fetch_and_verify_crl, CertificateList, CrlAnswer, CrlCache, RevocationFault,
    RevocationPolicy, RevocationStatus, RevocationStep, MAX_CRL_RESPONSE_BYTES,
};
use singularity_net::net::https::trust_store::{
    candidate_files, split_pem_certificates, Certificate, TrustStore, TrustStoreError,
};

fn certificate(name: &[u8]) -> Certificate {
    Certificate {
        der: name.to_vec(),
        subject: name.to_vec(),
        issuer: name.to_vec(),
        subject_key_id: vec![],
        authority_key_id: vec![],
        valid_now: true,
        server_auth: true,
        can_sign: true,
        basic_constraints: Some((true, None)),
    }
}

#[test]
fn test_empty_store() {
    let store = TrustStore::empty();
    assert!(store.is_empty());
    assert_eq!(store.len(), 0);
}

#[test]
fn test_split_pem_certificates_ignores_comments() {
    let data = "\
## some header text\n\
## more header\n\
Friendly Name\n\
=============\n\
-----BEGIN CERTIFICATE-----\n\
AAAA\n\
BBBB\n\
-----END CERTIFICATE-----\n\
\n\
Another Name\n\
============\n\
-----BEGIN CERTIFICATE-----\n\
CCCC\n\
-----END CERTIFICATE-----\n\
";

    let blocks = split_pem_certificates(data);
    assert_eq!(blocks.len(), 2);
    assert!(blocks[0].contains("AAAA"));
    assert!(blocks[0].contains("BBBB"));
    assert!(blocks[1].contains("CCCC"));
}

#[test]
fn test_find_issuer_none_when_empty() {
    let store = TrustStore::empty();
    let mut bundled = TrustStore::empty();
    bundled.add_cert(certificate(b"root"));
    if let Some(anchor) = bundled.anchors().first() {
        assert!(store.find_issuer(anchor).is_none());
    }
}

#[test]
fn anchors_are_found_by_name_and_key() {
    let mut store = TrustStore::empty();
    let mut first = certificate(b"root");
    first.subject_key_id = vec![1];
    let mut second = certificate(b"root");
    second.subject_key_id = vec![2];
    second.der = b"second".to_vec();
    store.add_cert(first);
    assert_eq!(store.add_der(None), Err(TrustStoreError::Parse));
    assert_eq!(store.add_pem_bundle(vec![None, Some(second)]), 1);
    assert_eq!(store.len(), 2);
    let mut leaf = certificate(b"root");
    leaf.authority_key_id = vec![2];
    assert_eq!(store.find_issuer(&leaf).unwrap().der, b"second".to_vec());
    assert!(store.contains_exact(&certificate(b"root")));
    assert!(!store.contains_exact(&certificate(b"other")));
}

#[test]
fn named_files_are_tried_first() {
    let files = candidate_files(Some("/a.pem"), Some("/b.pem"));
    assert_eq!(files[0], "/a.pem");
    assert_eq!(files[1], "/b.pem");
    assert!(files.len() > 2);
    assert_eq!(candidate_files(None, None).len(), files.len() - 2);
}

fn list() -> CertificateList {
    CertificateList {
        this_update: 1_704_067_200,
        next_update: Some(1_706_745_600),
        serials: vec![vec![0x07]],
    }
}

#[test]
fn test_crl_cache_round_trip_and_expiry_filter() {
    let list = list();

    let mut cache = CrlCache::new();
    cache.insert("issuer|http://example/ca.crl".to_string(), list.clone());

    assert!(cache.get("issuer|http://example/ca.crl", list.this_update + 10).is_some());
    assert!(cache.get("issuer|http://example/ca.crl", list.next_update.unwrap() + 10).is_none());
}

#[test]
fn test_check_revocation_unknown_when_no_distribution_points() {
    match check_revocation(Some(vec![]), Some(vec![1]), b"issuer".to_vec()) {
        Err(RevocationStatus::Unknown(_)) => {}
        other => panic!("expected Unknown, got {:?}", other),
    }
}

#[test]
fn a_certificate_without_points_is_unknown() {
    assert_eq!(
        check_revocation(None, Some(vec![1]), vec![]).unwrap_err(),
        RevocationStatus::Unknown(RevocationFault::PointsUnreadable)
    );
    assert_eq!(
        check_revocation(Some(vec![]), Some(vec![1]), vec![]).unwrap_err(),
        RevocationStatus::Unknown(RevocationFault::NoPoints)
    );
    assert_eq!(
        check_revocation(Some(vec!["http://a".to_string()]), None, vec![]).unwrap_err(),
        RevocationStatus::Unknown(RevocationFault::SerialUnreadable)
    );
    assert_eq!(RevocationPolicy::default(), RevocationPolicy::SoftFail);
}

#[test]
fn a_listed_serial_is_revoked() {
    assert_eq!(list().status_of(&[0x07]), RevocationStatus::Revoked);
    assert_eq!(list().status_of(&[0x08]), RevocationStatus::Good);
}

#[test]
fn answers_about_lists_are_checked() {
    let now = 1_704_067_300;
    let good = CrlAnswer { status_code: 200, body_len: 10, list: Some(list()), signed: true };
    assert!(fetch_and_verify_crl(Some(good.clone()), now).is_ok());
    assert_eq!(fetch_and_verify_crl(None, now).unwrap_err(), RevocationFault::FetchFailed);
    let missing = CrlAnswer { status_code: 404, ..good.clone() };
    assert_eq!(fetch_and_verify_crl(Some(missing), now).unwrap_err(), RevocationFault::HttpStatus(404));
    let huge = CrlAnswer { body_len: MAX_CRL_RESPONSE_BYTES + 1, ..good.clone() };
    assert_eq!(
        fetch_and_verify_crl(Some(huge), now).unwrap_err(),
        RevocationFault::TooLarge(MAX_CRL_RESPONSE_BYTES + 1)
    );
    let garbled = CrlAnswer { list: None, ..good.clone() };
    assert_eq!(fetch_and_verify_crl(Some(garbled), now).unwrap_err(), RevocationFault::Unparsable);
    let forged = CrlAnswer { signed: false, ..good.clone() };
    assert_eq!(fetch_and_verify_crl(Some(forged), now).unwrap_err(), RevocationFault::BadSignature);
    assert_eq!(
        fetch_and_verify_crl(Some(good), 1_706_745_601).unwrap_err(),
        RevocationFault::NotValid
    );
}

#[test]
fn points_are_tried_in_turn() {
    let now = 1_704_067_300;
    let urls = vec!["http://a".to_string(), "http://b".to_string()];
    let mut check = check_revocation(Some(urls), Some(vec![0x07]), b"ca".to_vec()).unwrap();
    let mut cache = CrlCache::new();
    match check.next(&cache, now) {
        RevocationStep::Fetch(u) => assert_eq!(u, "http://a"),
        RevocationStep::Done(_) => panic!("nothing is kept yet"),
    }
    assert_eq!(check.on_fetched(Err(RevocationFault::FetchFailed), &mut cache), None);
    match check.next(&cache, now) {
        RevocationStep::Fetch(u) => assert_eq!(u, "http://b"),
        RevocationStep::Done(_) => panic!("one is left"),
    }
    assert_eq!(check.on_fetched(Ok(list()), &mut cache), Some(RevocationStatus::Revoked));
    assert!(cache.get(&crl_cache_key(b"ca", "http://b"), now).is_some());
    let again = check_revocation(Some(vec!["http://b".to_string()]), Some(vec![0x09]), b"ca".to_vec()).unwrap();
    match again.next(&cache, now) {
        RevocationStep::Done(s) => assert_eq!(s, RevocationStatus::Good),
        RevocationStep::Fetch(_) => panic!("the list is kept"),
    }
}

fn sct_bytes(log_id: &[u8], timestamp: u64, signature: &[u8]) -> Vec<u8> {
    let mut out = vec![0];
    out.extend_from_slice(log_id);
    out.extend_from_slice(&timestamp.to_be_bytes());
    out.extend_from_slice(&0u16.to_be_bytes());
    out.push(4);
    out.push(3);
    out.extend_from_slice(&(signature.len() as u16).to_be_bytes());
    out.extend_from_slice(signature);
    out
}

fn sct_list(scts: &[Vec<u8>]) -> Vec<u8> {
    let mut inner = Vec::new();
    for s in scts {
        inner.extend_from_slice(&(s.len() as u16).to_be_bytes());
        inner.extend_from_slice(s);
    }
    let mut out = (inner.len() as u16).to_be_bytes().to_vec();
    out.extend_from_slice(&inner);
    out
}

/// A signature that stands for one of the log: a digest of the key and of what is signed.
fn sign(key: &[u8], signed: &[u8]) -> Vec<u8> {
    let mut all = key.to_vec();
    all.extend_from_slice(signed);
    sha256(&all)
}

fn outcomes(evidence: &CtEvidence, bundle: &CtLogBundle) -> Vec<bool> {
    embedded_sct_checks(evidence, bundle)
        .unwrap()
        .iter()
        .map(|c| sign(&c.public_key_der, &c.signed) == c.signature)
        .collect()
}

#[test]
fn test_verify_embedded_scts_accepts_valid_signature_and_rejects_tampering() {
    let log_spki_der = b"log public key".to_vec();
    let log_id = sha256(&log_spki_der);
    let mut bundle = CtLogBundle::bundled("");
    bundle.insert(CtLog {
        operator: "Test".to_string(),
        description: "Test Log".to_string(),
        public_key_der: log_spki_der.clone(),
    });

    let issuer_spki_der = b"issuer public key".to_vec();
    let issuer_key_hash = sha256(&issuer_spki_der);
    let precert_tbs = b"certificate 1".to_vec();
    let timestamp = 1_700_000_000_000u64;

    let sct = Sct {
        version: 0,
        log_id: log_id.clone(),
        timestamp,
        extensions: Vec::new(),
        signature: Vec::new(),
    };
    let to_sign = precert_signed_data(&sct, &issuer_key_hash, &precert_tbs);
    let signature = sign(&log_spki_der, &to_sign);
    let scts = sct_list(&[sct_bytes(&log_id, timestamp, &signature)]);

    let leaf = CtEvidence {
        sct_list: Some(scts.clone()),
        precert_tbs: Some(precert_tbs),
        issuer_spki_der: IssuerKey::Encoded(issuer_spki_der.clone()),
    };
    assert!(verify_embedded_scts(&leaf, &bundle, &outcomes(&leaf, &bundle)).is_ok());

    let tampered_leaf = CtEvidence {
        sct_list: Some(scts),
        precert_tbs: Some(b"certificate 2".to_vec()),
        issuer_spki_der: IssuerKey::Encoded(issuer_spki_der),
    };
    assert!(verify_embedded_scts(&tampered_leaf, &bundle, &outcomes(&tampered_leaf, &bundle)).is_err());
}

#[test]
fn faults_of_evidence_are_told_apart() {
    let mut bundle = CtLogBundle::bundled("");
    let full = CtEvidence {
        sct_list: Some(sct_list(&[sct_bytes(&[1; 32], 5, &[9])])),
        precert_tbs: Some(vec![1]),
        issuer_spki_der: IssuerKey::Encoded(vec![2]),
    };
    assert!(bundle.is_empty());
    assert_eq!(verify_embedded_scts(&full, &bundle, &vec![]), Err(CtError::NoLogs));
    bundle.insert(CtLog {
        operator: "o".to_string(),
        description: "d".to_string(),
        public_key_der: vec![3],
    });
    assert_eq!(bundle.len(), 1);
    assert!(bundle.find(&sha256(&[3])).is_some());
    assert_eq!(verify_embedded_scts(&full, &bundle, &vec![]), Err(CtError::NotVerified));
    let unparsed = CtEvidence { sct_list: Some(vec![0, 0]), ..full.clone() };
    assert_eq!(verify_embedded_scts(&unparsed, &bundle, &vec![]), Err(CtError::NoSctParsed));
    let bare = CtEvidence { precert_tbs: None, ..full.clone() };
    assert_eq!(verify_embedded_scts(&bare, &bundle, &vec![]), Err(CtError::PrecertUnreadable));
    let flat = CtEvidence { issuer_spki_der: IssuerKey::NoCurve, ..full.clone() };
    assert_eq!(verify_embedded_scts(&flat, &bundle, &vec![]), Err(CtError::NoCurve));
    let orphan = CtEvidence { issuer_spki_der: IssuerKey::Unreadable, ..full };
    assert_eq!(verify_embedded_scts(&orphan, &bundle, &vec![]), Err(CtError::IssuerKeyUnreadable));
}

#[test]
fn logs_are_read_from_text() {
    let bundle = CtLogBundle::bundled("# comment\nOp|Log|AQID\nbroken line\n");
    assert_eq!(bundle.len(), 1);
    assert_eq!(bundle.find(&sha256(&[1, 2, 3])).unwrap().operator, "Op");
}

#[test]
fn an_sct_is_read_in_parts() {
    let raw = sct_bytes(&[7; 32], 77, &[1, 2, 3]);
    let sct = parse_single_sct(&raw).unwrap();
    assert_eq!(sct.log_id, vec![7; 32]);
    assert_eq!(sct.timestamp, 77);
    assert_eq!(sct.signature, vec![1, 2, 3]);
    assert!(parse_single_sct(&raw[..20]).is_none());
    assert_eq!(parse_sct_list(&sct_list(&[raw.clone(), raw])).len(), 2);
}

#[test]
fn a_key_on_a_curve_names_it() {
    let curve = [1, 2, 840, 10045, 2, 1];
    let rsa = [1, 2, 840, 113549, 1, 1, 1];
    assert!(matches!(spki_parameters(&curve, Some(&[6, 8])), Ok(KeyParameters::Curve(c)) if c == vec![6, 8]));
    assert!(matches!(spki_parameters(&curve, None), Err(CtError::NoCurve)));
    assert!(matches!(spki_parameters(&rsa, Some(&[5, 0])), Ok(KeyParameters::Null)));
    assert!(matches!(spki_parameters(&[1, 3, 101, 112], None), Ok(KeyParameters::Null)));
}

#[test]
fn faults_of_certificates_in_words() {
    assert_eq!(RevocationFault::HttpStatus(404).to_string(""), "CRL fetch returned HTTP 404");
    assert_eq!(RevocationFault::FetchFailed.to_string("timed out"), "CRL fetch failed: timed out");
    assert_eq!(
        RevocationFault::TooLarge(70_000_000).to_string("x"),
        format!("CRL response too large (70000000 bytes, cap is {})", MAX_CRL_RESPONSE_BYTES)
    );
    assert_eq!(RevocationFault::NotValid.to_string("x"), "CRL is expired or not yet valid");
    assert_eq!(CtError::NoCurve.to_string("x"), "EC public key missing curve parameters");
    assert_eq!(CtError::ListUnreadable.to_string("Eof"), "failed to read SCT list extension: Eof");
    assert_eq!(CtError::IssuerKeyUnreadable.to_string("Eof"), "Eof");
    assert_eq!(TrustStoreError::Parse.to_string("no block"), "Trust store parse error: no block");
}
