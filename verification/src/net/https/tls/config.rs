//! Settings of TLS, what can go wrong, and the choice of version and cipher suite.
use vstd::prelude::*;
use vstd::slice::slice_subrange;

use crate::decimal::{
    decimal, hex_parsed, is_digit, law_decimal_roundtrip, lemma_decimal_digits, parse_hex, parse_u16, parsed,
};
use crate::net::http::compression::{CompressionAlgorithm, CompressionLevel};
use crate::net::https::alpn::AlpnProtocol;
use crate::net::https::trust_store::TrustStore;
use crate::text::{begins_with, chars_of, is_text, lemma_trimmed_solid, solid, starts_with, trim, trimmed};

verus! {

pub const TLS_VERSION_1_3: u16 = 0x0304;

pub const TLS_VERSION_1_2: u16 = 0x0303;

pub const CONTENT_TYPE_CHANGE_CIPHER_SPEC: u8 = 20;

pub const CONTENT_TYPE_ALERT: u8 = 21;

pub const CONTENT_TYPE_HANDSHAKE: u8 = 22;

pub const CONTENT_TYPE_APPLICATION_DATA: u8 = 23;

pub const TLS_AES_128_GCM_SHA256: u16 = 0x1301;

pub const TLS_AES_256_GCM_SHA384: u16 = 0x1302;

pub const TLS_CHACHA20_POLY1305_SHA256: u16 = 0x1303;

pub const ALERT_LEVEL_WARNING: u8 = 1;

pub const ALERT_LEVEL_FATAL: u8 = 2;

pub const ALERT_CLOSE_NOTIFY: u8 = 0;

pub const ALERT_HANDSHAKE_FAILURE: u8 = 40;

/// A version of TLS.
#[derive(Debug, Clone, Copy, PartialEq, Eq, PartialOrd, Ord, Structural)]
pub enum TlsVersion {
    Tls1_2,
    Tls1_3,
}

/// The number of a version on the wire.
pub open spec fn version_code(v: TlsVersion) -> u16 {
    match v {
        TlsVersion::Tls1_2 => TLS_VERSION_1_2,
        TlsVersion::Tls1_3 => TLS_VERSION_1_3,
    }
}

/// Whether `v` lies within the versions from `min` to `max`.
pub open spec fn within(v: TlsVersion, min: TlsVersion, max: TlsVersion) -> bool {
    version_code(min) <= version_code(v) <= version_code(max)
}

impl TlsVersion {
    /// The number on the wire.
    pub fn code(&self) -> (r: u16)
        ensures
            r == version_code(*self),
    {
        match self {
            TlsVersion::Tls1_2 => TLS_VERSION_1_2,
            TlsVersion::Tls1_3 => TLS_VERSION_1_3,
        }
    }
}

/// What goes wrong in a handshake.
#[derive(Debug, Clone, Copy, PartialEq, Eq, Structural)]
pub enum HandshakeFault {
    ExpectedServerHello,
    ExpectedClientHello,
    ExpectedFinished,
    UnexpectedMessage(u8),
    NoPeerKey,
    PeerKeyRefused,
    KeyExchange,
    KeysNotDerived,
    FinishedMismatch,
    ServerHelloTooShort,
    NoExtensions,
    NoExtensionsLength,
    ExtensionsTruncated,
    ExtensionOverrun,
    AlpnTooShort,
    AlpnTruncated,
    AlpnEmpty,
    AlpnLength,
    AlpnNotOffered(AlpnProtocol),
    AlpnUnknown,
}

/// What is wrong with a certificate or the message that holds it.
#[derive(Debug, Clone, Copy, PartialEq, Eq, Structural)]
pub enum CertificateFault {
    MessageTooShort,
    ListTruncated,
    DataTruncated,
    Unreadable,
    NoExtensionsLength,
    ExtensionsTruncated,
    ChainEmpty,
    LeafExpired,
    HostnameMismatch,
    ChainExpired,
    AnchorExpired,
    BasicConstraints,
    NoPublicKey,
    BadPublicKey,
}

/// Why a chain of certificates or a signature is not trusted.
#[derive(Debug, Clone, Copy, PartialEq, Eq, Structural)]
pub enum TrustFault {
    NoAnchors,
    ExtendedKeyUsage,
    NameMismatch,
    ChainSignature,
    NotAnAuthority,
    KeyUsage,
    PathLength,
    NoTrustedRoot,
    AnchorSignature,
    AnchorPathLength,
    VerifyTooShort,
    VerifyTruncated,
    VerifyFailed,
}

/// What cannot be read.
#[derive(Debug, Clone, Copy, PartialEq, Eq, Structural)]
pub enum DecodeFault {
    ClientHelloTooShort,
    BadClientHello,
    ServerHelloTooShort,
    BadServerHello,
    TicketTooShort,
    MessageTooShort,
    MessageIncomplete,
    UnknownCompression(u8),
    RecordVersion(u8),
    RecordTooShort,
    RecordSize,
    /// The length that was announced, and the one that was found.
    RecordRawSize(u32, usize),
}

/// What goes wrong with a cipher.
#[derive(Debug, Clone, Copy, PartialEq, Eq, Structural)]
pub enum CipherFault {
    NoKeys,
    CiphertextTooShort,
    PlaintextEmpty,
    Seal,
    Open,
    Expand,
    Sign,
    PeerKey,
}

/// What a codec failed at.
#[derive(Debug, Clone, Copy, PartialEq, Eq, Structural)]
pub enum CodecFault {
    Compress,
    Decompress,
}

/// What can go wrong in TLS.
#[derive(Debug, Clone, Copy, PartialEq, Eq, Structural)]
pub enum TlsError {
    HandshakeFailed(HandshakeFault),
    InvalidCertificate(CertificateFault),
    AlertReceived(u8, u8),
    DecodeError(DecodeFault),
    UnsupportedVersion,
    NoSharedCipher,
    VerificationFailed(TrustFault),
    CipherError(CipherFault),
    CompressionError(CodecFault),
    NoIntegrityKeys,
    IntegrityError,
    /// The protocol that was agreed on and is not expected, if any was.
    ProtocolNegotiationFailed(Option<AlpnProtocol>),
    NotConnected,
}

impl TlsError {
    /// The kind of error.
    pub open spec fn text(&self) -> Seq<char> {
        match self {
            TlsError::HandshakeFailed(_) => "Handshake Failed"@,
            TlsError::InvalidCertificate(_) => "Invalid Certificate"@,
            TlsError::AlertReceived(_, _) => "Alert Received"@,
            TlsError::DecodeError(_) => "Decode Error"@,
            TlsError::UnsupportedVersion => "Unsupported TLS Version"@,
            TlsError::NoSharedCipher => "No Shared Cipher Suite"@,
            TlsError::VerificationFailed(_) => "Verification Failed"@,
            TlsError::CipherError(_) => "Cipher Error"@,
            TlsError::CompressionError(_) => "Compression Error"@,
            TlsError::NoIntegrityKeys => "Integrity Error"@,
            TlsError::IntegrityError => "Integrity Error"@,
            TlsError::ProtocolNegotiationFailed(_) => "Protocol Negotiation Failed"@,
            TlsError::NotConnected => "TLS connection not established"@,
        }
    }

    /// The kind of error in words; `to_string` tells the whole of it.
    pub fn message(&self) -> (r: &'static str)
        ensures
            r@ == self.text(),
    {
        match self {
            TlsError::HandshakeFailed(_) => "Handshake Failed",
            TlsError::InvalidCertificate(_) => "Invalid Certificate",
            TlsError::AlertReceived(_, _) => "Alert Received",
            TlsError::DecodeError(_) => "Decode Error",
            TlsError::UnsupportedVersion => "Unsupported TLS Version",
            TlsError::NoSharedCipher => "No Shared Cipher Suite",
            TlsError::VerificationFailed(_) => "Verification Failed",
            TlsError::CipherError(_) => "Cipher Error",
            TlsError::CompressionError(_) => "Compression Error",
            TlsError::NoIntegrityKeys => "Integrity Error",
            TlsError::IntegrityError => "Integrity Error",
            TlsError::ProtocolNegotiationFailed(_) => "Protocol Negotiation Failed",
            TlsError::NotConnected => "TLS connection not established",
        }
    }
}

/// How records are protected beyond the cipher.
#[derive(Debug, Clone)]
pub struct TlsRecordSecurityCfg {
    pub enable_integrity: bool,
    pub nonce_len: usize,
    pub context: String,
}

/// How records are compressed.
#[derive(Debug, Clone, Copy)]
pub struct TlsRecordCompressionCfg {
    pub enabled: bool,
    pub min_size: usize,
    pub preferred_algorithm: CompressionAlgorithm,
    pub level: CompressionLevel,
    pub fallback_to_identity_on_error: bool,
}

/// Settings of TLS. The chain holds encoded certificates. `session_cache` tells whether sessions are kept in the
/// store that the connection is handed; connections that are handed one store share what it keeps.
#[derive(Debug, Clone)]
pub struct TlsCfg {
    pub cert_chain: Vec<Vec<u8>>,
    pub supported_ciphers: Vec<String>,
    pub min_version: TlsVersion,
    pub max_version: TlsVersion,
    pub verify_peer: bool,
    pub trust_store: TrustStore,
    pub session_cache: bool,
    pub enable_session_resumption: bool,
    pub record_security: TlsRecordSecurityCfg,
    pub record_compression: TlsRecordCompressionCfg,
}

impl Default for TlsRecordSecurityCfg {
    fn default() -> (r: Self)
        ensures
            r.enable_integrity,
            r.nonce_len == 16,
            r.context@ == "SINGULARITY_TLS_RECORD_CTX_V1"@,
    {
        TlsRecordSecurityCfg {
            enable_integrity: true,
            nonce_len: 16,
            context: "SINGULARITY_TLS_RECORD_CTX_V1".to_owned(),
        }
    }
}

impl Default for TlsRecordCompressionCfg {
    fn default() -> (r: Self)
        ensures
            r == (TlsRecordCompressionCfg {
                enabled: true,
                min_size: 512,
                preferred_algorithm: CompressionAlgorithm::Zstd,
                level: CompressionLevel::Default,
                fallback_to_identity_on_error: true,
            }),
    {
        TlsRecordCompressionCfg {
            enabled: true,
            min_size: 512,
            preferred_algorithm: CompressionAlgorithm::Zstd,
            level: CompressionLevel::Default,
            fallback_to_identity_on_error: true,
        }
    }
}

pub open spec fn name_texts(v: Seq<String>) -> Seq<Seq<char>> {
    v.map_values(|s: String| s@)
}

impl TlsCfg {
    /// The settings that hold where none are made, with the given anchors.
    pub fn with_trust_store(trust_store: TrustStore) -> (r: Self)
        ensures
            r.cert_chain@.len() == 0,
            name_texts(r.supported_ciphers@) == seq![
                "TLS_AES_256_GCM_SHA384"@,
                "TLS_AES_128_GCM_SHA256"@,
                "TLS_CHACHA20_POLY1305_SHA256"@,
            ],
            r.min_version == TlsVersion::Tls1_2,
            r.max_version == TlsVersion::Tls1_3,
            r.verify_peer,
            r.trust_store == trust_store,
            r.session_cache,
            r.enable_session_resumption,
            r.record_security.enable_integrity,
            r.record_security.nonce_len == 16,
            r.record_security.context@ == "SINGULARITY_TLS_RECORD_CTX_V1"@,
            r.record_compression == (TlsRecordCompressionCfg {
                enabled: true,
                min_size: 512,
                preferred_algorithm: CompressionAlgorithm::Zstd,
                level: CompressionLevel::Default,
                fallback_to_identity_on_error: true,
            }),
    {
        let mut ciphers: Vec<String> = Vec::new();
        ciphers.push("TLS_AES_256_GCM_SHA384".to_owned());
        ciphers.push("TLS_AES_128_GCM_SHA256".to_owned());
        ciphers.push("TLS_CHACHA20_POLY1305_SHA256".to_owned());
        assert(name_texts(ciphers@) =~= seq![
            "TLS_AES_256_GCM_SHA384"@,
            "TLS_AES_128_GCM_SHA256"@,
            "TLS_CHACHA20_POLY1305_SHA256"@,
        ]);
        TlsCfg {
            cert_chain: Vec::new(),
            supported_ciphers: ciphers,
            min_version: TlsVersion::Tls1_2,
            max_version: TlsVersion::Tls1_3,
            verify_peer: true,
            trust_store,
            session_cache: true,
            enable_session_resumption: true,
            record_security: TlsRecordSecurityCfg::default(),
            record_compression: TlsRecordCompressionCfg::default(),
        }
    }
}

/// The cipher suite that a name denotes: one of three names, a hexadecimal number behind `0x`, or a
/// decimal number.
pub open spec fn suite_named(cipher: Seq<char>) -> Option<u16> {
    let s = trimmed(cipher);
    if s == "TLS_AES_128_GCM_SHA256"@ {
        Some(TLS_AES_128_GCM_SHA256)
    } else if s == "TLS_AES_256_GCM_SHA384"@ {
        Some(TLS_AES_256_GCM_SHA384)
    } else if s == "TLS_CHACHA20_POLY1305_SHA256"@ {
        Some(TLS_CHACHA20_POLY1305_SHA256)
    } else if begins_with(s, "0x"@) || begins_with(s, "0X"@) {
        match hex_parsed(s.skip(2), u16::MAX as nat) {
            Some(n) => Some(n as u16),
            None => None,
        }
    } else {
        match parsed(s, u16::MAX as nat) {
            Some(n) => Some(n as u16),
            None => None,
        }
    }
}

/// Reads the cipher suite that a name denotes.
pub fn parse_configured_cipher_suite(cipher: &str) -> (r: Option<u16>)
    ensures
        r == suite_named(cipher@),
{
    let chars = chars_of(cipher);
    let s = trim(chars.as_slice());
    if is_text(s, "TLS_AES_128_GCM_SHA256") {
        Some(TLS_AES_128_GCM_SHA256)
    } else if is_text(s, "TLS_AES_256_GCM_SHA384") {
        Some(TLS_AES_256_GCM_SHA384)
    } else if is_text(s, "TLS_CHACHA20_POLY1305_SHA256") {
        Some(TLS_CHACHA20_POLY1305_SHA256)
    } else if starts_with(s, "0x") || starts_with(s, "0X") {
        proof {
            reveal_strlit("0x");
            reveal_strlit("0X");
        }
        let digits = slice_subrange(s, 2, s.len());
        assert(digits@ =~= s@.skip(2));
        parse_hex_u16(digits)
    } else {
        parse_u16(s)
    }
}

fn parse_hex_u16(s: &[char]) -> (r: Option<u16>)
    ensures
        match r {
            Some(n) => hex_parsed(s@, u16::MAX as nat) == Some(n as nat),
            None => hex_parsed(s@, u16::MAX as nat) is None,
        },
{
    match parse_hex(s) {
        Some(n) => {
            if n <= 0xffff {
                Some(n as u16)
            } else {
                None
            }
        },
        None => None,
    }
}

/// The suites that the first `n` names denote, without the names that denote none.
pub open spec fn suites_named(names: Seq<Seq<char>>, n: int) -> Seq<u16>
    decreases n,
{
    if n <= 0 {
        seq![]
    } else {
        match suite_named(names[n - 1]) {
            Some(s) => suites_named(names, n - 1).push(s),
            None => suites_named(names, n - 1),
        }
    }
}

/// The suites that a client offers: those that its settings name, else the three that are known.
pub open spec fn offered_suites(names: Seq<Seq<char>>) -> Seq<u16> {
    let s = suites_named(names, names.len() as int);
    if s.len() == 0 {
        seq![TLS_AES_256_GCM_SHA384, TLS_AES_128_GCM_SHA256, TLS_CHACHA20_POLY1305_SHA256]
    } else {
        s
    }
}

/// The first of `names` from `i` on whose suite is among `offered`.
pub open spec fn shared_suite(names: Seq<Seq<char>>, offered: Seq<u16>, i: int) -> Option<u16>
    decreases names.len() - i,
{
    if i < 0 || i >= names.len() {
        None
    } else {
        match suite_named(names[i]) {
            Some(s) => if offered.contains(s) {
                Some(s)
            } else {
                shared_suite(names, offered, i + 1)
            },
            None => shared_suite(names, offered, i + 1),
        }
    }
}

/// The newest version that both sides speak.
pub open spec fn shared_version(offered: Seq<u16>, min: TlsVersion, max: TlsVersion) -> Option<TlsVersion> {
    if offered.contains(TLS_VERSION_1_3) && within(TlsVersion::Tls1_3, min, max) {
        Some(TlsVersion::Tls1_3)
    } else if offered.contains(TLS_VERSION_1_2) && within(TlsVersion::Tls1_2, min, max) {
        Some(TlsVersion::Tls1_2)
    } else {
        None
    }
}

fn holds_u16(v: &Vec<u16>, n: u16) -> (r: bool)
    ensures
        r == v@.contains(n),
{
    let mut i: usize = 0;
    while i < v.len()
        invariant
            i <= v@.len(),
            forall|j: int| 0 <= j < i ==> v@[j] != n,
        decreases v@.len() - i,
    {
        if v[i] == n {
            return true;
        }
        i = i + 1;
    }
    false
}

impl TlsCfg {
    /// Lists the suites that a client offers.
    pub fn configured_cipher_suites(&self) -> (r: Vec<u16>)
        ensures
            r@ == offered_suites(name_texts(self.supported_ciphers@)),
    {
        let ghost names = name_texts(self.supported_ciphers@);
        let mut suites: Vec<u16> = Vec::new();
        let mut i: usize = 0;
        while i < self.supported_ciphers.len()
            invariant
                i <= self.supported_ciphers@.len(),
                names == name_texts(self.supported_ciphers@),
                suites@ == suites_named(names, i as int),
            decreases self.supported_ciphers@.len() - i,
        {
            assert(names[i as int] == self.supported_ciphers@[i as int]@);
            match parse_configured_cipher_suite(self.supported_ciphers[i].as_str()) {
                Some(s) => {
                    suites.push(s);
                },
                None => {},
            }
            i = i + 1;
        }
        if suites.len() == 0 {
            suites.push(TLS_AES_256_GCM_SHA384);
            suites.push(TLS_AES_128_GCM_SHA256);
            suites.push(TLS_CHACHA20_POLY1305_SHA256);
            assert(suites@ =~= offered_suites(names));
        }
        suites
    }

    /// Chooses the first suite of the settings that the client offers.
    pub fn select_cipher_suite(&self, client_ciphers: &Vec<u16>) -> (r: Result<u16, TlsError>)
        ensures
            r == (match shared_suite(name_texts(self.supported_ciphers@), client_ciphers@, 0) {
                Some(s) => Ok::<u16, TlsError>(s),
                None => Err(TlsError::NoSharedCipher),
            }),
    {
        let ghost names = name_texts(self.supported_ciphers@);
        let mut i: usize = 0;
        while i < self.supported_ciphers.len()
            invariant
                i <= self.supported_ciphers@.len(),
                names == name_texts(self.supported_ciphers@),
                shared_suite(names, client_ciphers@, i as int) == shared_suite(
                    names,
                    client_ciphers@,
                    0,
                ),
            decreases self.supported_ciphers@.len() - i,
        {
            assert(names[i as int] == self.supported_ciphers@[i as int]@);
            match parse_configured_cipher_suite(self.supported_ciphers[i].as_str()) {
                Some(s) => {
                    if holds_u16(client_ciphers, s) {
                        return Ok(s);
                    }
                },
                None => {},
            }
            i = i + 1;
        }
        Err(TlsError::NoSharedCipher)
    }

    /// Chooses the newest version that both sides speak.
    pub fn negotiate_version(&self, client_versions: &Vec<u16>) -> (r: Result<TlsVersion, TlsError>)
        ensures
            r == (match shared_version(client_versions@, self.min_version, self.max_version) {
                Some(v) => Ok::<TlsVersion, TlsError>(v),
                None => Err(TlsError::UnsupportedVersion),
            }),
    {
        let min = self.min_version.code();
        let max = self.max_version.code();
        if holds_u16(client_versions, TLS_VERSION_1_3) && min <= TLS_VERSION_1_3 && TLS_VERSION_1_3 <= max {
            return Ok(TlsVersion::Tls1_3);
        }
        if holds_u16(client_versions, TLS_VERSION_1_2) && min <= TLS_VERSION_1_2 && TLS_VERSION_1_2 <= max {
            return Ok(TlsVersion::Tls1_2);
        }
        Err(TlsError::UnsupportedVersion)
    }
}

proof fn lemma_shared_suite(names: Seq<Seq<char>>, offered: Seq<u16>, i: int)
    requires
        0 <= i,
    ensures
        shared_suite(names, offered, i) matches Some(s) ==> offered.contains(s) && exists|k: int|
            i <= k < names.len() && suite_named(#[trigger] names[k]) == Some(s),
        shared_suite(names, offered, i) is None ==> forall|k: int|
            i <= k < names.len() ==> (suite_named(#[trigger] names[k]) matches Some(s)
                ==> !offered.contains(s)),
    decreases names.len() - i,
{
    if i < names.len() {
        lemma_shared_suite(names, offered, i + 1);
    }
}

/// A suite that is chosen was offered by the client and named by the settings; none is chosen only where no
/// suite is both.
pub proof fn law_chosen_suite_is_shared(names: Seq<Seq<char>>, offered: Seq<u16>)
    ensures
        shared_suite(names, offered, 0) matches Some(s) ==> offered.contains(s) && exists|k: int|
            0 <= k < names.len() && suite_named(#[trigger] names[k]) == Some(s),
        shared_suite(names, offered, 0) is None ==> forall|k: int|
            0 <= k < names.len() ==> (suite_named(#[trigger] names[k]) matches Some(s)
                ==> !offered.contains(s)),
{
    lemma_shared_suite(names, offered, 0);
}

/// A version that is chosen lies within the settings and was offered, and no newer one is both.
pub proof fn law_chosen_version_is_newest(offered: Seq<u16>, min: TlsVersion, max: TlsVersion, other: TlsVersion)
    ensures
        shared_version(offered, min, max) matches Some(v) ==> {
            &&& offered.contains(version_code(v))
            &&& within(v, min, max)
            &&& offered.contains(version_code(other)) && within(other, min, max) ==> version_code(other)
                <= version_code(v)
        },
        shared_version(offered, min, max) is None ==> !(offered.contains(version_code(other)) && within(
            other,
            min,
            max,
        )),
{
}

proof fn lemma_suite_passes(names: Seq<Seq<char>>, offered: Seq<u16>, i: int, k: int)
    requires
        0 <= i <= k <= names.len(),
        forall|j: int| i <= j < k ==> (suite_named(#[trigger] names[j]) matches Some(s) ==> !offered.contains(s)),
    ensures
        shared_suite(names, offered, i) == shared_suite(names, offered, k),
    decreases k - i,
{
    if i < k {
        assert(suite_named(names[i]) matches Some(s) ==> !offered.contains(s));
        lemma_suite_passes(names, offered, i + 1, k);
    }
}

/// The suite that is chosen is the one that the settings name first among those that the client offered.
pub proof fn law_chosen_suite_is_first(names: Seq<Seq<char>>, offered: Seq<u16>, k: int, s: u16)
    requires
        0 <= k < names.len(),
        suite_named(names[k]) == Some(s),
        offered.contains(s),
        forall|j: int| 0 <= j < k ==> (suite_named(#[trigger] names[j]) matches Some(t) ==> !offered.contains(t)),
    ensures
        shared_suite(names, offered, 0) == Some(s),
{
    lemma_suite_passes(names, offered, 0, k);
}

/// A suite is known by its name or by its number, in decimal notation or, behind `0x`, in hexadecimal notation.
pub proof fn law_suite_names(n: u16, digits: Seq<char>)
    requires
        solid(digits),
    ensures
        suite_named("TLS_AES_128_GCM_SHA256"@) == Some(0x1301u16),
        suite_named("TLS_AES_256_GCM_SHA384"@) == Some(0x1302u16),
        suite_named("TLS_CHACHA20_POLY1305_SHA256"@) == Some(0x1303u16),
        hex_parsed(digits, u16::MAX as nat) == Some(n as nat) ==> suite_named("0x"@ + digits) == Some(n),
        suite_named(decimal(n as nat)) == Some(n),
{
    reveal_strlit("TLS_AES_128_GCM_SHA256");
    reveal_strlit("TLS_AES_256_GCM_SHA384");
    reveal_strlit("TLS_CHACHA20_POLY1305_SHA256");
    reveal_strlit("0x");
    reveal_strlit("0X");
    lemma_trimmed_solid("TLS_AES_128_GCM_SHA256"@);
    lemma_trimmed_solid("TLS_AES_256_GCM_SHA384"@);
    lemma_trimmed_solid("TLS_CHACHA20_POLY1305_SHA256"@);
    assert("TLS_AES_128_GCM_SHA256"@.len() == 22 && "TLS_AES_256_GCM_SHA384"@.len() == 22
        && "TLS_CHACHA20_POLY1305_SHA256"@.len() == 28);
    assert("TLS_AES_128_GCM_SHA256"@[8] == '1' && "TLS_AES_256_GCM_SHA384"@[8] == '2');
    assert("TLS_AES_128_GCM_SHA256"@[0] == 'T' && "TLS_AES_256_GCM_SHA384"@[0] == 'T'
        && "TLS_CHACHA20_POLY1305_SHA256"@[0] == 'T');
    let h = "0x"@ + digits;
    assert(h[0] == '0');
    if digits.len() > 0 {
        assert(h.last() == digits[digits.len() - 1]);
    }
    lemma_trimmed_solid(h);
    assert(h.take(2) =~= "0x"@);
    assert(h.skip(2) =~= digits);
    let d = decimal(n as nat);
    lemma_decimal_digits(n as nat);
    law_decimal_roundtrip(n as nat, u16::MAX as nat);
    assert(is_digit(d[0]) && is_digit(d[d.len() - 1]));
    lemma_trimmed_solid(d);
    assert(!begins_with(d, "0x"@)) by {
        if begins_with(d, "0x"@) {
            assert(d.take(2)[1] == d[1]);
            assert(is_digit(d[1]));
        }
    }
    assert(!begins_with(d, "0X"@)) by {
        if begins_with(d, "0X"@) {
            assert(d.take(2)[1] == d[1]);
            assert(is_digit(d[1]));
        }
    }
}

proof fn lemma_suites_hold(names: Seq<Seq<char>>, n: int, s: u16)
    requires
        n <= names.len(),
    ensures
        suites_named(names, n).contains(s) <==> exists|i: int| 0 <= i < n && suite_named(#[trigger] names[i]) == Some(s),
    decreases n,
{
    if n > 0 {
        lemma_suites_hold(names, n - 1, s);
        let was = suites_named(names, n - 1);
        if let Some(x) = suite_named(names[n - 1]) {
            let all = was.push(x);
            if was.contains(s) {
                let i = choose|i: int| 0 <= i < was.len() && was[i] == s;
                assert(all[i] == s);
            }
            if x == s {
                assert(all[was.len() as int] == s);
            }
            if all.contains(s) {
                let i = choose|i: int| 0 <= i < all.len() && all[i] == s;
                if i < was.len() {
                    assert(was[i] == s);
                }
            }
        }
    }
}

/// A client offers just the suites that its settings name; where they name none, it offers three.
pub proof fn law_offered_suites(names: Seq<Seq<char>>, s: u16)
    ensures
        (exists|i: int| 0 <= i < names.len() && suite_named(#[trigger] names[i]) == Some(s)) ==> offered_suites(
            names,
        ).contains(s),
        offered_suites(names).contains(s) && (exists|i: int|
            0 <= i < names.len() && suite_named(#[trigger] names[i]) is Some) ==> exists|i: int|
            0 <= i < names.len() && suite_named(#[trigger] names[i]) == Some(s),
        (forall|i: int| 0 <= i < names.len() ==> suite_named(#[trigger] names[i]) is None) ==> offered_suites(names)
            == seq![0x1302u16, 0x1301u16, 0x1303u16],
{
    let n = names.len() as int;
    let all = suites_named(names, n);
    lemma_suites_hold(names, n, s);
    if exists|i: int| 0 <= i < names.len() && suite_named(#[trigger] names[i]) is Some {
        let i = choose|i: int| 0 <= i < names.len() && suite_named(#[trigger] names[i]) is Some;
        let x = suite_named(names[i]).unwrap();
        lemma_suites_hold(names, n, x);
        assert(all.contains(x));
        assert(all.len() > 0);
    }
    if forall|i: int| 0 <= i < names.len() ==> suite_named(#[trigger] names[i]) is None {
        if all.len() > 0 {
            assert(all[0] == all[0]);
            assert(all.contains(all[0]));
            lemma_suites_hold(names, n, all[0]);
        }
    }
}

}
