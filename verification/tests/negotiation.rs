use singularity_net::net::envelope::EnvelopeError;
use singularity_net::net::http::compression::{parse_accept_encoding, select_any, select_compressing};
use singularity_net::net::http::negotiation::{
    deserialize_content_negotiation_profile, select_secure_content_negotiation_algorithm,
    serialize_content_negotiation_profile, ContentNegotiationProfile, ContentNegotiator, EncodingPreference,
    LanguageTag, MediaType,
};
use singularity_net::net::http::CompressionAlgorithm;

const NONCE: [u8; 24] = [5; 24];

const NOW: u64 = 1_700_000_000;

fn unit(quality: u32) -> f32 {
    f32::from_bits(quality)
}

fn owned(s: &str) -> Option<String> {
    Some(s.to_string())
}

#[test]
fn test_media_type_parse() {
    let mt = MediaType::parse("text/html; q=0.8").unwrap();
    assert_eq!(mt.type_, "text");
    assert_eq!(mt.subtype, "html");
    assert_eq!(unit(mt.quality), 0.8);
}

#[test]
fn test_media_type_wildcard() {
    let mt1 = MediaType::parse("text/*").unwrap();
    let mt2 = MediaType::parse("text/html").unwrap();
    assert!(mt1.matches(&mt2));
}

#[test]
fn test_negotiate_media_type() {
    let result = ContentNegotiator::negotiate_media_type(
        "text/html, application/json; q=0.9, */*; q=0.1",
        &["application/json", "text/plain"],
    );

    assert_eq!(result, Some("application/json".to_string()));
}

#[test]
fn test_language_tag_parse() {
    let lang = LanguageTag::parse("en-US; q=0.9").unwrap();
    assert_eq!(lang.language, "en");
    assert_eq!(lang.region, Some("US".to_string()));
    assert_eq!(unit(lang.quality), 0.9);
}

#[test]
fn test_negotiate_language() {
    let result = ContentNegotiator::negotiate_language("en-US, en; q=0.9, fr; q=0.8", &["en", "de"]);

    assert_eq!(result, Some("en".to_string()));
}

#[test]
fn test_negotiate_encoding() {
    let result = ContentNegotiator::negotiate_encoding(
        "gzip, deflate; q=0.8, identity; q=0.1",
        &["deflate", "identity"],
    );

    assert_eq!(result, Some("deflate".to_string()));
}

#[test]
fn test_negotiate_encoding_wildcard() {
    let result = ContentNegotiator::negotiate_encoding("*; q=0.5", &["br", "gzip", "identity"]);
    assert_eq!(result, Some("br".to_string()));
}

#[test]
fn test_secure_negotiation_profile_roundtrip_identity() {
    let profile = ContentNegotiationProfile {
        accept: owned("application/json, text/plain; q=0.8"),
        accept_language: owned("en-US, en; q=0.9"),
        accept_encoding: owned("br, gzip; q=0.9, identity; q=0.1"),
    };

    let (meta, blob) = profile
        .to_secure_blob(CompressionAlgorithm::Identity, None, &NONCE, NOW)
        .unwrap();

    assert_eq!(meta.algorithm, CompressionAlgorithm::Identity);

    let (decoded_meta, restored) = ContentNegotiationProfile::from_secure_blob(&blob, None).unwrap();

    assert_eq!(decoded_meta.algorithm, CompressionAlgorithm::Identity);
    assert_eq!(restored, profile);
}

#[test]
fn test_secure_negotiation_profile_tamper_detection() {
    let profile = ContentNegotiationProfile {
        accept: owned("text/html"),
        accept_language: None,
        accept_encoding: owned("gzip"),
    };

    let (_, mut blob) = profile
        .to_secure_blob(CompressionAlgorithm::Identity, None, &NONCE, NOW)
        .unwrap();

    let idx = blob.len() - 1;
    blob[idx] ^= 0x01;

    let err = ContentNegotiationProfile::from_secure_blob(&blob, None).unwrap_err();
    assert_eq!(err, EnvelopeError::TagMismatch);
}

#[test]
fn parameters_of_a_media_type_are_kept() {
    let mt = MediaType::parse("text/html; charset=utf-8; q=0.25").unwrap();
    assert_eq!(mt.params, vec![("charset".to_string(), "utf-8".to_string())]);
    assert_eq!(unit(mt.quality), 0.25);
    assert!(MediaType::parse("texthtml").is_none());
    let plain = MediaType::parse("text/html").unwrap();
    assert_eq!(unit(plain.quality), 1.0);
}

#[test]
fn wildcards_are_less_specific() {
    assert_eq!(MediaType::parse("*/*").unwrap().specificity(), 0);
    assert_eq!(MediaType::parse("text/*").unwrap().specificity(), 1);
    assert_eq!(MediaType::parse("text/html").unwrap().specificity(), 2);
}

#[test]
fn accepted_media_are_sorted_by_quality() {
    let wishes = ContentNegotiator::parse_accept("a/b;q=0.1, c/d, e/f;q=0.5");
    let names: Vec<String> = wishes.iter().map(|m| format!("{}/{}", m.type_, m.subtype)).collect();
    assert_eq!(names, vec!["c/d", "e/f", "a/b"]);
}

#[test]
fn nothing_in_common_is_no_agreement() {
    assert_eq!(ContentNegotiator::negotiate_media_type("text/html", &["image/png"]), None);
    assert_eq!(ContentNegotiator::negotiate_language("fr", &["en", "de"]), None);
}

#[test]
fn a_language_without_region_fits_any() {
    let any = LanguageTag::parse("en").unwrap();
    let us = LanguageTag::parse("en-US").unwrap();
    let gb = LanguageTag::parse("en-GB").unwrap();
    assert!(any.matches(&us));
    assert!(!us.matches(&gb));
    assert_eq!(us.to_string(), "en-US");
    assert!(LanguageTag::parse("*").unwrap().matches(&gb));
}

#[test]
fn an_empty_wish_is_met_by_identity() {
    assert_eq!(ContentNegotiator::negotiate_encoding("", &["gzip"]), owned("identity"));
    let pref = EncodingPreference::parse("gzip;q=0.5").unwrap();
    assert_eq!(pref.encoding, "gzip");
    assert_eq!(unit(pref.quality), 0.5);
}

#[test]
fn a_profile_is_written_as_lines() {
    let profile = ContentNegotiationProfile::from_headers(Some("text/html"), None, Some("gzip"));
    let raw = serialize_content_negotiation_profile(&profile);
    let back = deserialize_content_negotiation_profile(&raw).unwrap();
    assert_eq!(back.accept, owned("text/html"));
    assert_eq!(back.accept_language, None);
    assert_eq!(back.accept_encoding, owned("gzip"));
    assert!(deserialize_content_negotiation_profile(&[0xff, 0xfe]).is_none());
}

#[test]
fn a_profile_negotiates_by_its_fields() {
    let profile = ContentNegotiationProfile::from_headers(Some("text/html"), Some("de"), Some("br"));
    assert_eq!(profile.negotiate_media_type(&["text/html"]), owned("text/html"));
    assert_eq!(profile.negotiate_language(&["de"]), owned("de"));
    assert_eq!(profile.negotiate_encoding(&["gzip", "br"]), owned("br"));
    let none = ContentNegotiationProfile::new();
    assert_eq!(none.negotiate_media_type(&["text/html"]), None);
}

#[test]
fn the_best_accepted_coding_is_selected() {
    assert_eq!(
        select_secure_content_negotiation_algorithm("gzip;q=0.2, br;q=0.9"),
        CompressionAlgorithm::Brotli
    );
    assert_eq!(select_any("identity, gzip;q=0.5"), CompressionAlgorithm::Identity);
    assert_eq!(select_compressing("identity, gzip;q=0.5"), CompressionAlgorithm::Gzip);
    let accepted = parse_accept_encoding("gzip;q=0.2, snappy, br;q=0.9");
    assert_eq!(accepted.len(), 2);
}

#[test]
fn wishes_compare_by_name_and_by_rank() {
    let html = MediaType::parse("text/html; q=0.8").unwrap();
    let same = MediaType::parse("text/html").unwrap();
    let any = MediaType::parse("*/*; q=0.8").unwrap();
    assert!(html == same);
    assert!(html != any);
    assert!(same < html);
    assert!(html < any);
    let en = LanguageTag::parse("en-US").unwrap();
    assert!(en == LanguageTag::parse("en-US; q=0.1").unwrap());
    assert!(en != LanguageTag::parse("en").unwrap());
    assert!(en < LanguageTag::parse("de; q=0.9").unwrap());
    let gzip = EncodingPreference::parse("gzip").unwrap();
    assert!(gzip == EncodingPreference::parse("GZIP; q=0.3").unwrap());
    assert!(gzip < EncodingPreference::parse("*").unwrap());
}

fn quality(text: &str) -> f32 {
    unit(MediaType::parse(&format!("a/b; q={}", text)).unwrap().quality)
}

#[test]
fn qualities_are_read_with_exponents() {
    assert_eq!(quality("5e-1"), 0.5);
    assert_eq!(quality("0.005E2"), 0.5);
    assert_eq!(quality("2e0"), 1.0);
    assert_eq!(quality("1e-99999999999999999999999999999999999"), 0.0);
    assert_eq!(quality("0e999999999999999999999999999999999999"), 0.0);
    assert_eq!(quality("25e-2"), 0.25);
    assert_eq!(quality("-inf"), 0.0);
    assert_eq!(quality("Infinity"), 1.0);
    assert_eq!(quality("1e"), 1.0);
    assert_eq!(quality("-1"), 0.0);
    assert_eq!(quality(".5"), 0.5);
}

#[test]
fn qualities_are_rounded_to_single_precision() {
    let texts = [
        "0", "1", "0.1", "0.2", "0.3", "0.7", "0.9", "0.900000001", "0.999", "0.9999999", "0.99999997", "0.99999998",
        "0.999999970197677612304687500", "0.9999999701976776123046875001", "0.123456789", "0.1234567891", "1e-3",
        "1e-38", "1.1754943508222875e-38", "1.17549428e-38", "1e-40", "1.4e-45", "7e-46", "7.1e-46", "1e-50", "3e-45",
        "0.00000000000000000000000000000000000000000000070064923216240853546186479164495806564013097093825788587853",
        "0.5000000298023223876953125", "0.50000002980232238769531250001", "0.50000008940696716308593750", "12345e-5",
        "000000000.8", "0.80000000000000000000000000000000", "00000000000000000000000000000000000001e-37", "1.5", "7e3",
    ];
    for text in texts {
        assert_eq!(quality(text), text.parse::<f32>().unwrap().clamp(0.0, 1.0), "{}", text);
    }
    assert_eq!(quality("0.9"), quality("0.900000001"));
    let mut x: u32 = 12345;
    for _ in 0..200 {
        x = x.wrapping_mul(1664525).wrapping_add(1013904223);
        let text = format!("{}e-{}", x, 9 + x % 50);
        assert_eq!(quality(&text), text.parse::<f32>().unwrap().clamp(0.0, 1.0), "{}", text);
    }
}

#[test]
fn what_is_no_number_has_no_quality() {
    for text in ["nan", "NaN", "-nan", "+NAN"] {
        assert_eq!(quality(text), 0.0);
        assert!(ContentNegotiator::parse_accept(&format!("a/b; q={}", text)).is_empty());
    }
    assert_eq!(ContentNegotiator::negotiate_encoding("gzip;q=nan, br;q=0.1", &["gzip", "br"]), owned("br"));
}

#[test]
fn what_has_quality_zero_is_not_accepted() {
    assert!(ContentNegotiator::parse_accept("text/html;q=0").iter().all(|m| m.quality > 0));
    assert_eq!(ContentNegotiator::negotiate_encoding("gzip;q=0, br", &["gzip", "br"]), Some("br".to_string()));
    assert_eq!(ContentNegotiator::negotiate_encoding("gzip", &["br"]), None);
}
