//! What goes wrong in TLS, in words. Where a fault names what it met, or what an outside part said of it, those
//! words come in as `detail`; other faults do not look at them.
use vstd::prelude::*;

use crate::decimal::{decimal, to_decimal};
use crate::net::https::alpn::{protocol_name, AlpnProtocol};
use crate::net::https::tls::config::{
    CertificateFault, CipherFault, CodecFault, DecodeFault, HandshakeFault, TlsError, TrustFault,
};
use crate::text::{chars_of, push_chars, push_text, string_of};

verus! {

impl HandshakeFault {
    /// How the fault begins in words.
    pub open spec fn lead(&self) -> Seq<char> {
        match self {
            HandshakeFault::ExpectedServerHello => "Expected ServerHello"@,
            HandshakeFault::ExpectedClientHello => "Expected ClientHello"@,
            HandshakeFault::ExpectedFinished => "Expected Finished"@,
            HandshakeFault::UnexpectedMessage(_) => "Unexpected handshake message: "@,
            HandshakeFault::NoPeerKey => "No peer public key received"@,
            HandshakeFault::PeerKeyRefused => "Invalid peer public key: "@,
            HandshakeFault::KeyExchange => "ECDH exchange failed: "@,
            HandshakeFault::KeysNotDerived => "Keys not derived"@,
            HandshakeFault::FinishedMismatch => "Finished verification failed"@,
            HandshakeFault::ServerHelloTooShort => "ServerHello too short"@,
            HandshakeFault::NoExtensions => "ServerHello truncated before extensions"@,
            HandshakeFault::NoExtensionsLength => "ServerHello missing extensions length"@,
            HandshakeFault::ExtensionsTruncated => "ServerHello extensions truncated"@,
            HandshakeFault::ExtensionOverrun => "Extension data exceeds extensions boundary"@,
            HandshakeFault::AlpnTooShort => "ALPN extension too short"@,
            HandshakeFault::AlpnTruncated => "ALPN extension data truncated"@,
            HandshakeFault::AlpnEmpty => "Server sent empty ALPN list"@,
            HandshakeFault::AlpnLength => "Invalid ALPN protocol length"@,
            HandshakeFault::AlpnNotOffered(_) => "Server selected protocol '"@,
            HandshakeFault::AlpnUnknown => "Unknown ALPN protocol: "@,
        }
    }

    /// What the fault names after that.
    pub open spec fn tail(&self, detail: Seq<char>) -> Seq<char> {
        match self {
            HandshakeFault::UnexpectedMessage(n) => decimal(*n as nat),
            HandshakeFault::AlpnNotOffered(p) => protocol_name(*p) + "' not in client offer"@,
            HandshakeFault::PeerKeyRefused | HandshakeFault::KeyExchange | HandshakeFault::AlpnUnknown => detail,
            _ => seq![],
        }
    }

    /// The fault in words.
    pub open spec fn words(&self, detail: Seq<char>) -> Seq<char> {
        self.lead() + self.tail(detail)
    }

    fn lead_text(&self) -> (r: &'static str)
        ensures
            r@ == self.lead(),
    {
        match self {
            HandshakeFault::ExpectedServerHello => "Expected ServerHello",
            HandshakeFault::ExpectedClientHello => "Expected ClientHello",
            HandshakeFault::ExpectedFinished => "Expected Finished",
            HandshakeFault::UnexpectedMessage(_) => "Unexpected handshake message: ",
            HandshakeFault::NoPeerKey => "No peer public key received",
            HandshakeFault::PeerKeyRefused => "Invalid peer public key: ",
            HandshakeFault::KeyExchange => "ECDH exchange failed: ",
            HandshakeFault::KeysNotDerived => "Keys not derived",
            HandshakeFault::FinishedMismatch => "Finished verification failed",
            HandshakeFault::ServerHelloTooShort => "ServerHello too short",
            HandshakeFault::NoExtensions => "ServerHello truncated before extensions",
            HandshakeFault::NoExtensionsLength => "ServerHello missing extensions length",
            HandshakeFault::ExtensionsTruncated => "ServerHello extensions truncated",
            HandshakeFault::ExtensionOverrun => "Extension data exceeds extensions boundary",
            HandshakeFault::AlpnTooShort => "ALPN extension too short",
            HandshakeFault::AlpnTruncated => "ALPN extension data truncated",
            HandshakeFault::AlpnEmpty => "Server sent empty ALPN list",
            HandshakeFault::AlpnLength => "Invalid ALPN protocol length",
            HandshakeFault::AlpnNotOffered(_) => "Server selected protocol '",
            HandshakeFault::AlpnUnknown => "Unknown ALPN protocol: ",
        }
    }

    /// Appends the fault in words.
    pub fn push_words(&self, out: &mut Vec<char>, detail: &str)
        ensures
            final(out)@ == old(out)@ + self.words(detail@),
    {
        push_text(out, self.lead_text());
        match self {
            HandshakeFault::UnexpectedMessage(n) => {
                push_chars(out, to_decimal(*n as u64).as_slice());
            },
            HandshakeFault::AlpnNotOffered(p) => {
                push_text(out, p.name());
                push_text(out, "' not in client offer");
            },
            HandshakeFault::PeerKeyRefused | HandshakeFault::KeyExchange | HandshakeFault::AlpnUnknown => {
                push_text(out, detail);
            },
            _ => {},
        }
        assert(out@ =~= old(out)@ + self.words(detail@));
    }
}

impl CertificateFault {
    /// How the fault begins in words.
    pub open spec fn lead(&self) -> Seq<char> {
        match self {
            CertificateFault::MessageTooShort => "Certificate message too short"@,
            CertificateFault::ListTruncated => "Certificate list truncated"@,
            CertificateFault::DataTruncated => "Certificate data truncated"@,
            CertificateFault::Unreadable => "Failed to parse certificate: "@,
            CertificateFault::NoExtensionsLength => "Certificate entry missing extensions length"@,
            CertificateFault::ExtensionsTruncated => "Certificate entry extensions truncated"@,
            CertificateFault::ChainEmpty => "Certificate chain is empty"@,
            CertificateFault::LeafExpired => "Certificate expired or not yet valid"@,
            CertificateFault::HostnameMismatch => "Certificate hostname mismatch: expected "@,
            CertificateFault::ChainExpired => "Certificate in chain is expired or not yet valid"@,
            CertificateFault::AnchorExpired => "Trust anchor certificate is expired or not yet valid"@,
            CertificateFault::BasicConstraints => "Failed to read basicConstraints: "@,
            CertificateFault::NoPublicKey => "Missing public key"@,
            CertificateFault::BadPublicKey => "Failed to parse public key"@,
        }
    }

    /// What the fault names after that.
    pub open spec fn tail(&self, detail: Seq<char>) -> Seq<char> {
        match self {
            CertificateFault::Unreadable
            | CertificateFault::HostnameMismatch
            | CertificateFault::BasicConstraints => detail,
            _ => seq![],
        }
    }

    /// The fault in words.
    pub open spec fn words(&self, detail: Seq<char>) -> Seq<char> {
        self.lead() + self.tail(detail)
    }

    fn lead_text(&self) -> (r: &'static str)
        ensures
            r@ == self.lead(),
    {
        match self {
            CertificateFault::MessageTooShort => "Certificate message too short",
            CertificateFault::ListTruncated => "Certificate list truncated",
            CertificateFault::DataTruncated => "Certificate data truncated",
            CertificateFault::Unreadable => "Failed to parse certificate: ",
            CertificateFault::NoExtensionsLength => "Certificate entry missing extensions length",
            CertificateFault::ExtensionsTruncated => "Certificate entry extensions truncated",
            CertificateFault::ChainEmpty => "Certificate chain is empty",
            CertificateFault::LeafExpired => "Certificate expired or not yet valid",
            CertificateFault::HostnameMismatch => "Certificate hostname mismatch: expected ",
            CertificateFault::ChainExpired => "Certificate in chain is expired or not yet valid",
            CertificateFault::AnchorExpired => "Trust anchor certificate is expired or not yet valid",
            CertificateFault::BasicConstraints => "Failed to read basicConstraints: ",
            CertificateFault::NoPublicKey => "Missing public key",
            CertificateFault::BadPublicKey => "Failed to parse public key",
        }
    }

    /// Appends the fault in words.
    pub fn push_words(&self, out: &mut Vec<char>, detail: &str)
        ensures
            final(out)@ == old(out)@ + self.words(detail@),
    {
        push_text(out, self.lead_text());
        match self {
            CertificateFault::Unreadable | CertificateFault::HostnameMismatch | CertificateFault::BasicConstraints => {
                push_text(out, detail);
            },
            _ => {},
        }
        assert(out@ =~= old(out)@ + self.words(detail@));
    }
}

impl TrustFault {
    /// How the fault begins in words.
    pub open spec fn lead(&self) -> Seq<char> {
        match self {
            TrustFault::NoAnchors => "No trust anchors configured; cannot verify certificate chain"@,
            TrustFault::ExtendedKeyUsage =>
                "Leaf certificate's extended key usage does not permit TLS server authentication"@,
            TrustFault::NameMismatch => "Certificate chain name mismatch: issuer/subject do not chain"@,
            TrustFault::ChainSignature => "Certificate chain signature verification failed"@,
            TrustFault::NotAnAuthority => "Certificate chain contains a non-CA certificate acting as an issuer"@,
            TrustFault::KeyUsage => "Issuer certificate's key usage does not permit certificate signing"@,
            TrustFault::PathLength => "Certificate chain exceeds issuer's path length constraint"@,
            TrustFault::NoTrustedRoot => "Certificate chain does not terminate at a trusted root"@,
            TrustFault::AnchorSignature => "Certificate chain signature verification against trust anchor failed"@,
            TrustFault::AnchorPathLength => "Certificate chain exceeds trust anchor's path length constraint"@,
            TrustFault::VerifyTooShort => "CertificateVerify message too short"@,
            TrustFault::VerifyTruncated => "CertificateVerify signature truncated"@,
            TrustFault::VerifyFailed => "CertificateVerify verification failed"@,
        }
    }

    /// The fault in words.
    pub open spec fn words(&self, detail: Seq<char>) -> Seq<char> {
        self.lead()
    }

    fn lead_text(&self) -> (r: &'static str)
        ensures
            r@ == self.lead(),
    {
        match self {
            TrustFault::NoAnchors => "No trust anchors configured; cannot verify certificate chain",
            TrustFault::ExtendedKeyUsage =>
                "Leaf certificate's extended key usage does not permit TLS server authentication",
            TrustFault::NameMismatch => "Certificate chain name mismatch: issuer/subject do not chain",
            TrustFault::ChainSignature => "Certificate chain signature verification failed",
            TrustFault::NotAnAuthority => "Certificate chain contains a non-CA certificate acting as an issuer",
            TrustFault::KeyUsage => "Issuer certificate's key usage does not permit certificate signing",
            TrustFault::PathLength => "Certificate chain exceeds issuer's path length constraint",
            TrustFault::NoTrustedRoot => "Certificate chain does not terminate at a trusted root",
            TrustFault::AnchorSignature => "Certificate chain signature verification against trust anchor failed",
            TrustFault::AnchorPathLength => "Certificate chain exceeds trust anchor's path length constraint",
            TrustFault::VerifyTooShort => "CertificateVerify message too short",
            TrustFault::VerifyTruncated => "CertificateVerify signature truncated",
            TrustFault::VerifyFailed => "CertificateVerify verification failed",
        }
    }

    /// Appends the fault in words.
    pub fn push_words(&self, out: &mut Vec<char>, detail: &str)
        ensures
            final(out)@ == old(out)@ + self.words(detail@),
    {
        push_text(out, self.lead_text());
        assert(out@ =~= old(out)@ + self.words(detail@));
    }
}

impl DecodeFault {
    /// How the fault begins in words.
    pub open spec fn lead(&self) -> Seq<char> {
        match self {
            DecodeFault::ClientHelloTooShort => "ClientHello too short"@,
            DecodeFault::BadClientHello => "Invalid ClientHello format"@,
            DecodeFault::ServerHelloTooShort => "ServerHello too short"@,
            DecodeFault::BadServerHello => "Invalid ServerHello format"@,
            DecodeFault::TicketTooShort => "Session ticket too short"@,
            DecodeFault::MessageTooShort => "Handshake message too short"@,
            DecodeFault::MessageIncomplete => "Incomplete handshake message"@,
            DecodeFault::UnknownCompression(_) => "Unknown compression algorithm id: "@,
            DecodeFault::RecordVersion(_) => "Unsupported secure record version: "@,
            DecodeFault::RecordTooShort => "Secure record too short"@,
            DecodeFault::RecordSize => "Secure record size mismatch"@,
            DecodeFault::RecordRawSize(_, _) => "Secure record raw length mismatch: expected "@,
        }
    }

    /// What the fault names after that.
    pub open spec fn tail(&self, detail: Seq<char>) -> Seq<char> {
        match self {
            DecodeFault::UnknownCompression(n) => decimal(*n as nat),
            DecodeFault::RecordVersion(n) => decimal(*n as nat),
            DecodeFault::RecordRawSize(n, m) => decimal(*n as nat) + ", got "@ + decimal(*m as nat),
            _ => seq![],
        }
    }

    /// The fault in words.
    pub open spec fn words(&self, detail: Seq<char>) -> Seq<char> {
        self.lead() + self.tail(detail)
    }

    fn lead_text(&self) -> (r: &'static str)
        ensures
            r@ == self.lead(),
    {
        match self {
            DecodeFault::ClientHelloTooShort => "ClientHello too short",
            DecodeFault::BadClientHello => "Invalid ClientHello format",
            DecodeFault::ServerHelloTooShort => "ServerHello too short",
            DecodeFault::BadServerHello => "Invalid ServerHello format",
            DecodeFault::TicketTooShort => "Session ticket too short",
            DecodeFault::MessageTooShort => "Handshake message too short",
            DecodeFault::MessageIncomplete => "Incomplete handshake message",
            DecodeFault::UnknownCompression(_) => "Unknown compression algorithm id: ",
            DecodeFault::RecordVersion(_) => "Unsupported secure record version: ",
            DecodeFault::RecordTooShort => "Secure record too short",
            DecodeFault::RecordSize => "Secure record size mismatch",
            DecodeFault::RecordRawSize(_, _) => "Secure record raw length mismatch: expected ",
        }
    }

    /// Appends the fault in words.
    pub fn push_words(&self, out: &mut Vec<char>, detail: &str)
        ensures
            final(out)@ == old(out)@ + self.words(detail@),
    {
        push_text(out, self.lead_text());
        match self {
            DecodeFault::UnknownCompression(n) => {
                push_chars(out, to_decimal(*n as u64).as_slice());
            },
            DecodeFault::RecordVersion(n) => {
                push_chars(out, to_decimal(*n as u64).as_slice());
            },
            DecodeFault::RecordRawSize(n, m) => {
                push_chars(out, to_decimal(*n as u64).as_slice());
                push_text(out, ", got ");
                push_chars(out, to_decimal(*m as u64).as_slice());
            },
            _ => {},
        }
        assert(out@ =~= old(out)@ + self.words(detail@));
    }
}

impl CipherFault {
    /// How the fault begins in words.
    pub open spec fn lead(&self) -> Seq<char> {
        match self {
            CipherFault::NoKeys => "Keys not initialized"@,
            CipherFault::CiphertextTooShort => "Ciphertext too short"@,
            CipherFault::PlaintextEmpty => "Decrypted data empty"@,
            CipherFault::Seal => ""@,
            CipherFault::Open => "Authentication tag verification failed"@,
            CipherFault::Expand => "HKDF expand failed: "@,
            CipherFault::Sign => "Failed to sign CertificateVerify: "@,
            CipherFault::PeerKey => "Invalid peer public key"@,
        }
    }

    /// What the fault names after that.
    pub open spec fn tail(&self, detail: Seq<char>) -> Seq<char> {
        match self {
            CipherFault::Seal | CipherFault::Expand | CipherFault::Sign => detail,
            _ => seq![],
        }
    }

    /// The fault in words.
    pub open spec fn words(&self, detail: Seq<char>) -> Seq<char> {
        self.lead() + self.tail(detail)
    }

    fn lead_text(&self) -> (r: &'static str)
        ensures
            r@ == self.lead(),
    {
        match self {
            CipherFault::NoKeys => "Keys not initialized",
            CipherFault::CiphertextTooShort => "Ciphertext too short",
            CipherFault::PlaintextEmpty => "Decrypted data empty",
            CipherFault::Seal => "",
            CipherFault::Open => "Authentication tag verification failed",
            CipherFault::Expand => "HKDF expand failed: ",
            CipherFault::Sign => "Failed to sign CertificateVerify: ",
            CipherFault::PeerKey => "Invalid peer public key",
        }
    }

    /// Appends the fault in words.
    pub fn push_words(&self, out: &mut Vec<char>, detail: &str)
        ensures
            final(out)@ == old(out)@ + self.words(detail@),
    {
        push_text(out, self.lead_text());
        match self {
            CipherFault::Seal | CipherFault::Expand | CipherFault::Sign => {
                push_text(out, detail);
            },
            _ => {},
        }
        assert(out@ =~= old(out)@ + self.words(detail@));
    }
}

impl CodecFault {
    /// How the fault begins in words.
    pub open spec fn lead(&self) -> Seq<char> {
        match self {
            CodecFault::Compress => "Failed to compress TLS record: "@,
            CodecFault::Decompress => "Failed to decompress secure record: "@,
        }
    }

    /// What the fault names after that.
    pub open spec fn tail(&self, detail: Seq<char>) -> Seq<char> {
        match self {
            CodecFault::Compress | CodecFault::Decompress => detail,
        }
    }

    /// The fault in words.
    pub open spec fn words(&self, detail: Seq<char>) -> Seq<char> {
        self.lead() + self.tail(detail)
    }

    fn lead_text(&self) -> (r: &'static str)
        ensures
            r@ == self.lead(),
    {
        match self {
            CodecFault::Compress => "Failed to compress TLS record: ",
            CodecFault::Decompress => "Failed to decompress secure record: ",
        }
    }

    /// Appends the fault in words.
    pub fn push_words(&self, out: &mut Vec<char>, detail: &str)
        ensures
            final(out)@ == old(out)@ + self.words(detail@),
    {
        push_text(out, self.lead_text());
        match self {
            CodecFault::Compress | CodecFault::Decompress => {
                push_text(out, detail);
            },
        }
        assert(out@ =~= old(out)@ + self.words(detail@));
    }
}

/// What is said of the protocol that was agreed on where it is not expected.
pub open spec fn negotiation_words(p: Option<AlpnProtocol>) -> Seq<char> {
    match p {
        Some(p) => "Server negotiated unexpected protocol: "@ + protocol_name(p),
        None => "Server did not negotiate ALPN protocol"@,
    }
}

impl TlsError {
    /// What the error says beside its kind.
    pub open spec fn reason(&self, detail: Seq<char>) -> Seq<char> {
        match self {
            TlsError::HandshakeFailed(f) => f.words(detail),
            TlsError::InvalidCertificate(f) => f.words(detail),
            TlsError::AlertReceived(level, description) => "level="@ + decimal(*level as nat) + ", description="@
                + decimal(*description as nat),
            TlsError::DecodeError(f) => f.words(detail),
            TlsError::VerificationFailed(f) => f.words(detail),
            TlsError::CipherError(f) => f.words(detail),
            TlsError::CompressionError(f) => f.words(detail),
            TlsError::NoIntegrityKeys => "TLS keys not initialized"@,
            TlsError::IntegrityError => "Secure record digest verification failed"@,
            TlsError::ProtocolNegotiationFailed(p) => negotiation_words(*p),
            TlsError::UnsupportedVersion | TlsError::NoSharedCipher | TlsError::NotConnected => seq![],
        }
    }

    /// Whether the error says nothing beside its kind.
    pub open spec fn is_bare(&self) -> bool {
        self is UnsupportedVersion || self is NoSharedCipher || self is NotConnected
    }

    /// The whole error.
    pub open spec fn sentence(&self, detail: Seq<char>) -> Seq<char> {
        if self.is_bare() {
            self.text()
        } else {
            self.text() + ": "@ + self.reason(detail)
        }
    }

    fn push_reason(&self, out: &mut Vec<char>, detail: &str)
        ensures
            final(out)@ == old(out)@ + self.reason(detail@),
    {
        match self {
            TlsError::HandshakeFailed(f) => f.push_words(out, detail),
            TlsError::InvalidCertificate(f) => f.push_words(out, detail),
            TlsError::AlertReceived(level, description) => {
                push_text(out, "level=");
                push_chars(out, to_decimal(*level as u64).as_slice());
                push_text(out, ", description=");
                push_chars(out, to_decimal(*description as u64).as_slice());
            },
            TlsError::DecodeError(f) => f.push_words(out, detail),
            TlsError::VerificationFailed(f) => f.push_words(out, detail),
            TlsError::CipherError(f) => f.push_words(out, detail),
            TlsError::CompressionError(f) => f.push_words(out, detail),
            TlsError::NoIntegrityKeys => push_text(out, "TLS keys not initialized"),
            TlsError::IntegrityError => push_text(out, "Secure record digest verification failed"),
            TlsError::ProtocolNegotiationFailed(Some(p)) => {
                push_text(out, "Server negotiated unexpected protocol: ");
                push_text(out, p.name());
            },
            TlsError::ProtocolNegotiationFailed(None) => {
                push_text(out, "Server did not negotiate ALPN protocol");
            },
            TlsError::UnsupportedVersion | TlsError::NoSharedCipher | TlsError::NotConnected => {},
        }
        assert(out@ =~= old(out)@ + self.reason(detail@));
    }

    /// The whole error in words: its kind and what is behind it.
    pub fn to_string(&self, detail: &str) -> (r: String)
        ensures
            r@ == self.sentence(detail@),
    {
        let mut out = chars_of(self.message());
        match self {
            TlsError::UnsupportedVersion | TlsError::NoSharedCipher | TlsError::NotConnected => {},
            _ => {
                push_text(&mut out, ": ");
                self.push_reason(&mut out, detail);
            },
        }
        assert(out@ =~= self.sentence(detail@));
        string_of(out.as_slice())
    }

    /// The name of the kind of error, as it is written in code.
    pub open spec fn variant(&self) -> Seq<char> {
        match self {
            TlsError::HandshakeFailed(_) => "HandshakeFailed"@,
            TlsError::InvalidCertificate(_) => "InvalidCertificate"@,
            TlsError::AlertReceived(_, _) => "AlertReceived"@,
            TlsError::DecodeError(_) => "DecodeError"@,
            TlsError::UnsupportedVersion => "UnsupportedVersion"@,
            TlsError::NoSharedCipher => "NoSharedCipher"@,
            TlsError::VerificationFailed(_) => "VerificationFailed"@,
            TlsError::CipherError(_) => "CipherError"@,
            TlsError::CompressionError(_) => "CompressionError"@,
            TlsError::NoIntegrityKeys => "IntegrityError"@,
            TlsError::IntegrityError => "IntegrityError"@,
            TlsError::ProtocolNegotiationFailed(_) => "ProtocolNegotiationFailed"@,
            TlsError::NotConnected => "NotConnected"@,
        }
    }

    fn variant_name(&self) -> (r: &'static str)
        ensures
            r@ == self.variant(),
    {
        match self {
            TlsError::HandshakeFailed(_) => "HandshakeFailed",
            TlsError::InvalidCertificate(_) => "InvalidCertificate",
            TlsError::AlertReceived(_, _) => "AlertReceived",
            TlsError::DecodeError(_) => "DecodeError",
            TlsError::UnsupportedVersion => "UnsupportedVersion",
            TlsError::NoSharedCipher => "NoSharedCipher",
            TlsError::VerificationFailed(_) => "VerificationFailed",
            TlsError::CipherError(_) => "CipherError",
            TlsError::CompressionError(_) => "CompressionError",
            TlsError::NoIntegrityKeys => "IntegrityError",
            TlsError::IntegrityError => "IntegrityError",
            TlsError::ProtocolNegotiationFailed(_) => "ProtocolNegotiationFailed",
            TlsError::NotConnected => "NotConnected",
        }
    }

    /// The error as it is written in code: the name of its kind, and what is behind it in quotes. `detail` is
    /// given as it stands inside quotes.
    pub open spec fn in_code(&self, detail: Seq<char>) -> Seq<char> {
        match self {
            TlsError::AlertReceived(level, description) => self.variant() + "("@ + decimal(*level as nat) + ", "@
                + decimal(*description as nat) + ")"@,
            _ => if self.is_bare() {
                self.variant()
            } else {
                self.variant() + "(\""@ + self.reason(detail) + "\")"@
            },
        }
    }

    /// Appends the error as it is written in code.
    pub fn push_in_code(&self, out: &mut Vec<char>, detail: &str)
        ensures
            final(out)@ == old(out)@ + self.in_code(detail@),
    {
        push_text(out, self.variant_name());
        match self {
            TlsError::AlertReceived(level, description) => {
                push_text(out, "(");
                push_chars(out, to_decimal(*level as u64).as_slice());
                push_text(out, ", ");
                push_chars(out, to_decimal(*description as u64).as_slice());
                push_text(out, ")");
            },
            TlsError::UnsupportedVersion | TlsError::NoSharedCipher | TlsError::NotConnected => {},
            _ => {
                push_text(out, "(\"");
                self.push_reason(out, detail);
                push_text(out, "\")");
            },
        }
        assert(out@ =~= old(out)@ + self.in_code(detail@));
    }
}

}
