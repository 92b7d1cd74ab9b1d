use singularity_net::net::address::canonical_address;
use singularity_net::bytes::{constant_time_eq, find_bytes, to_hex};
use singularity_net::crypto::base64::{decode, encode};
use singularity_net::crypto::hmac::{hkdf_expand, hkdf_extract, hmac_sha256};
use singularity_net::crypto::sha256::sha256;
use singularity_net::decimal::{parse_hex, parse_u16, parse_u64, to_decimal};
use singularity_net::net::https::alpn::{supported_protocols_wire, AlpnProtocol};
use singularity_net::table::Table;
use singularity_net::text::{lines, split, to_lower, trim};

fn chars(s: &str) -> Vec<char> {
    s.chars().collect()
}

#[test]
fn sha256_of_known_texts() {
    assert_eq!(
        to_hex(&sha256(b"")),
        "e3b0c44298fc1c149afbf4c8996fb92427ae41e4649b934ca495991b7852b855"
    );
    assert_eq!(
        to_hex(&sha256(b"abc")),
        "ba7816bf8f01cfea414140de5dae2223b00361a396177a9cb410ff61f20015ad"
    );
    assert_eq!(
        to_hex(&sha256(b"abcdbcdecdefdefgefghfghighijhijkijkljklmklmnlmnomnopnopq")),
        "248d6a61d20638b8e5c026930c3e6039a33ce45964ff2167f6ecedd419db06c1"
    );
}

#[test]
fn hmac_of_known_texts() {
    assert_eq!(
        to_hex(&hmac_sha256(&[0x0b; 20], b"Hi There")),
        "b0344c61d8db38535ca8afceaf0bf12b881dc200c9833da726e9376c2e32cff7"
    );
    assert_eq!(
        to_hex(&hmac_sha256(b"Jefe", b"what do ya want for nothing?")),
        "5bdcc146bf60754e6a042426089575c75a003f089d2739839dec58b964ec3843"
    );
    assert_eq!(
        to_hex(&hmac_sha256(
            &[0xaa; 131],
            b"Test Using Larger Than Block-Size Key - Hash Key First"
        )),
        "60e431591ee0b67f0d8a26aacbf5b77f8e0bc6213728c5140546040f0ee37f54"
    );
}

#[test]
fn hkdf_of_a_known_key() {
    let salt: Vec<u8> = (0..=0x0c).collect();
    let info: Vec<u8> = (0xf0..=0xf9).collect();
    let prk = hkdf_extract(&salt, &[0x0b; 22]);
    assert_eq!(
        to_hex(&prk),
        "077709362c2e32df0ddc3f0dc47bba6390b6c73bb50f9c3122ec844ad7c2b3e5"
    );
    assert_eq!(
        to_hex(&hkdf_expand(&prk, &info, 42).unwrap()),
        "3cb25f25faacd57a90434f64d0362f2a2d2d0a90cf1a5a4c5db02d56ecc4c5bf34007208d5b887185865"
    );
    assert!(hkdf_expand(&prk, &info, 255 * 32 + 1).is_none());
}

#[test]
fn base64_of_known_texts() {
    for (plain, coded) in [
        ("", ""),
        ("f", "Zg=="),
        ("fo", "Zm8="),
        ("foo", "Zm9v"),
        ("foob", "Zm9vYg=="),
        ("fooba", "Zm9vYmE="),
        ("foobar", "Zm9vYmFy"),
    ] {
        assert_eq!(encode(plain.as_bytes()), coded);
        assert_eq!(decode(coded), Some(plain.as_bytes().to_vec()));
    }
    assert_eq!(decode("Zg*="), None);
}

#[test]
fn numbers_are_written_and_read() {
    assert_eq!(to_decimal(0), chars("0"));
    assert_eq!(to_decimal(u64::MAX), chars("18446744073709551615"));
    assert_eq!(parse_u64(&chars("18446744073709551615")), Some(u64::MAX));
    assert_eq!(parse_u64(&chars("18446744073709551616")), None);
    assert_eq!(parse_u16(&chars("65536")), None);
    assert_eq!(parse_u16(&chars("+80")), Some(80));
    assert_eq!(parse_u16(&chars("")), None);
    assert_eq!(parse_hex(&chars("fF")), Some(255));
    assert_eq!(parse_hex(&chars("g")), None);
}

#[test]
fn octets_are_compared_and_found() {
    assert!(constant_time_eq(b"abc", b"abc"));
    assert!(!constant_time_eq(b"abc", b"abd"));
    assert!(!constant_time_eq(b"abc", b"ab"));
    assert_eq!(find_bytes(b"hello", b"l"), Some(2));
    assert_eq!(find_bytes(b"hello", b"x"), None);
    assert_eq!(to_hex(&[0, 0xab, 0xff]), "00abff");
}

#[test]
fn a_table_holds_each_name_once() {
    let mut t: Table<u32> = Table::new();
    t.insert("b".to_string(), 1);
    t.insert("a".to_string(), 2);
    t.insert("b".to_string(), 3);
    assert_eq!(t.len(), 2);
    assert_eq!(t.name_at(0), "a");
    assert_eq!(t.get("b"), Some(&3));
    assert_eq!(t.get_nocase("B"), Some(&3));
    assert_eq!(t.get("B"), None);
    t.remove("b");
    assert!(!t.contains("b"));
}

#[test]
fn text_is_taken_apart() {
    assert_eq!(trim(&chars("  a b \t")), chars("a b").as_slice());
    let s = chars("a,b,,c");
    assert_eq!(split(&s, ',').len(), 4);
    let l = chars("x\r\ny\n");
    let rows = lines(&l);
    assert_eq!(rows.len(), 2);
    assert_eq!(rows[0], chars("x").as_slice());
    assert_eq!(to_lower(&chars("AbC")), chars("abc"));
}

#[test]
fn protocols_are_named_on_the_wire() {
    assert_eq!(AlpnProtocol::Http2.name(), "h2");
    assert_eq!(AlpnProtocol::from_wire(b"http/1.1"), Some(AlpnProtocol::Http11));
    assert_eq!(AlpnProtocol::from_wire(b"spdy"), None);
    assert_eq!(
        supported_protocols_wire(&vec![AlpnProtocol::Http2, AlpnProtocol::Http11]),
        b"\x02h2\x08http/1.1".to_vec()
    );
}

#[test]
fn addresses_are_read_and_written() {
    let cases = [
        ("127.0.0.1:80", "127.0.0.1:80"),
        ("255.255.255.255:00065535", "255.255.255.255:65535"),
        ("[::]:0", "[::]:0"),
        ("[::1]:443", "[::1]:443"),
        ("[1:2:3:4:5:6:7:8]:1", "[1:2:3:4:5:6:7:8]:1"),
        ("[1:0:0:4:0:0:0:8]:1", "[1:0:0:4::8]:1"),
        ("[1:0:0:4:5:0:0:8]:1", "[1::4:5:0:0:8]:1"),
        ("[1::3:4:5:6:7:8]:1", "[1:0:3:4:5:6:7:8]:1"),
        ("[1:2:3:4:5:6:7::]:1", "[1:2:3:4:5:6:7:0]:1"),
        ("[::FFFF:192.0.2.1]:9", "[::ffff:192.0.2.1]:9"),
        ("[64:ff9b::192.0.2.33]:9", "[64:ff9b::c000:221]:9"),
        ("[1:2:3:4:5:6:1.2.3.4]:9", "[1:2:3:4:5:6:102:304]:9"),
        ("[fe80::1%7]:5", "[fe80::1%7]:5"),
        ("[fe80::0001%000]:5", "[fe80::1]:5"),
    ];
    for (text, words) in cases {
        assert_eq!(canonical_address(text), Some(words.to_string()), "{}", text);
        assert_eq!(canonical_address(words), Some(words.to_string()), "{}", text);
    }
    let bad = [
        "", "127.0.0.1", "127.0.0.1:", "127.0.0.1:65536", "127.0.0.01:80", "256.0.0.1:80", "1.2.3:80", "1.2.3.4.5:80",
        "1.2.3.4:80 ", "1.2.3.4:+80", "::1:80", "[::1]", "[::1]:", "[1:2:3:4:5:6:7]:1", "[1:2:3:4:5:6:7:8:9]:1",
        "[1::2::3]:1", "[12345::]:1", "[::1%]:1", "[::1%4294967296]:1", "[1:2:3:4:5:6:7:1.2.3.4]:1", "[g::]:1",
        "[1.2.3.4::]:1", "localhost:80", "[1:2:3:4:5:6:7::8]:1",
    ];
    for text in bad {
        assert_eq!(canonical_address(text), None, "{}", text);
    }
}
