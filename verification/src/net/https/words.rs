//! What goes wrong for a client and with the certificates of its servers, in words. Where a fault names what it
//! met, or what an outside part said of it, those words come in as `detail`; other faults do not look at them.
use vstd::prelude::*;

use crate::decimal::{decimal, to_decimal};
use crate::net::envelope::EnvelopeError;
use crate::net::https::client::{Http2Fault, HttpsError, ResponseFault};
use crate::net::https::ct::CtError;
use crate::net::https::revocation::{RevocationFault, MAX_CRL_RESPONSE_BYTES};
use crate::net::https::tls::config::TlsError;
use crate::net::https::trust_store::TrustStoreError;
use crate::text::{chars_of, push_chars, push_text, string_of};

verus! {

/// How a fault of a sealed state begins in words.
pub open spec fn state_lead(e: EnvelopeError) -> Seq<char> {
    match e {
        EnvelopeError::MissingMagic => "state blob magic missing"@,
        EnvelopeError::BadMagic => "state blob magic mismatch"@,
        EnvelopeError::UnsupportedEncoding => "unsupported state content-encoding: "@,
        EnvelopeError::BadRawSize => "invalid raw-size"@,
        EnvelopeError::BadEncodedSize => "invalid encoded-size"@,
        EnvelopeError::MissingSecurityFields => "state metadata missing nonce/digest/tag"@,
        EnvelopeError::MissingRawSize => "state metadata missing raw-size"@,
        EnvelopeError::MissingEncodedSize => "state metadata missing encoded-size"@,
        EnvelopeError::EncodedSizeMismatch => "state encoded-size mismatch: "@,
        EnvelopeError::NonceEncoding => "invalid state nonce encoding: "@,
        EnvelopeError::DigestEncoding => "invalid state digest encoding: "@,
        EnvelopeError::TagEncoding => "invalid state tag encoding: "@,
        EnvelopeError::BadFieldLength => "state digest or tag has invalid length"@,
        EnvelopeError::TagMismatch => "state tag verification failed"@,
        EnvelopeError::RawSizeMismatch => "state raw-size mismatch: "@,
        EnvelopeError::DigestMismatch => "state digest verification failed"@,
        EnvelopeError::BadPayload => "state payload "@,
        _ => e.text(),
    }
}

/// Whether a fault of a sealed state names something after that.
pub open spec fn state_names(e: EnvelopeError) -> bool {
    match e {
        EnvelopeError::UnsupportedEncoding
        | EnvelopeError::EncodedSizeMismatch
        | EnvelopeError::NonceEncoding
        | EnvelopeError::DigestEncoding
        | EnvelopeError::TagEncoding
        | EnvelopeError::RawSizeMismatch
        | EnvelopeError::BadPayload => true,
        _ => false,
    }
}

/// A fault of a sealed state in words.
pub open spec fn state_words(e: EnvelopeError, detail: Seq<char>) -> Seq<char> {
    if state_names(e) {
        state_lead(e) + detail
    } else {
        state_lead(e)
    }
}

fn push_state_words(out: &mut Vec<char>, e: EnvelopeError, detail: &str)
    ensures
        final(out)@ == old(out)@ + state_words(e, detail@),
{
    let lead = match e {
        EnvelopeError::MissingMagic => "state blob magic missing",
        EnvelopeError::BadMagic => "state blob magic mismatch",
        EnvelopeError::UnsupportedEncoding => "unsupported state content-encoding: ",
        EnvelopeError::BadRawSize => "invalid raw-size",
        EnvelopeError::BadEncodedSize => "invalid encoded-size",
        EnvelopeError::MissingSecurityFields => "state metadata missing nonce/digest/tag",
        EnvelopeError::MissingRawSize => "state metadata missing raw-size",
        EnvelopeError::MissingEncodedSize => "state metadata missing encoded-size",
        EnvelopeError::EncodedSizeMismatch => "state encoded-size mismatch: ",
        EnvelopeError::NonceEncoding => "invalid state nonce encoding: ",
        EnvelopeError::DigestEncoding => "invalid state digest encoding: ",
        EnvelopeError::TagEncoding => "invalid state tag encoding: ",
        EnvelopeError::BadFieldLength => "state digest or tag has invalid length",
        EnvelopeError::TagMismatch => "state tag verification failed",
        EnvelopeError::RawSizeMismatch => "state raw-size mismatch: ",
        EnvelopeError::DigestMismatch => "state digest verification failed",
        EnvelopeError::BadPayload => "state payload ",
        _ => e.message(),
    };
    push_text(out, lead);
    match e {
        EnvelopeError::UnsupportedEncoding
        | EnvelopeError::EncodedSizeMismatch
        | EnvelopeError::NonceEncoding
        | EnvelopeError::DigestEncoding
        | EnvelopeError::TagEncoding
        | EnvelopeError::RawSizeMismatch
        | EnvelopeError::BadPayload => {
            push_text(out, detail);
        },
        _ => {},
    }
    assert(out@ =~= old(out)@ + state_words(e, detail@));
}

impl ResponseFault {
    /// The fault in words.
    pub open spec fn words(&self, detail: Seq<char>) -> Seq<char> {
        match self {
            ResponseFault::Empty => "empty response"@,
            ResponseFault::BadStatus => "invalid HTTP/2 status code: "@ + detail,
            ResponseFault::MissingHeaders => "HTTP/2 response missing headers block"@,
            ResponseFault::NonceEncoding => "invalid response nonce encoding: "@ + detail,
            ResponseFault::TagEncoding => "invalid HMAC header encoding: "@ + detail,
            ResponseFault::Integrity => "response integrity verification failed"@,
            ResponseFault::Unreadable(e) => "failed to parse HTTP/1 response: "@ + e.text(),
            ResponseFault::UnreadableStream(e) => "failed to parse synthesized HTTP/2 response: "@ + e.text(),
            ResponseFault::Envelope(e) => "failed to decode secure envelope: "@ + e.text(),
            ResponseFault::Sealing(e) => "secure envelope encode failed: "@ + e.text(),
            ResponseFault::State(e) => state_words(*e, detail),
        }
    }

    /// Appends the fault in words.
    pub fn push_words(&self, out: &mut Vec<char>, detail: &str)
        ensures
            final(out)@ == old(out)@ + self.words(detail@),
    {
        match self {
            ResponseFault::Empty => push_text(out, "empty response"),
            ResponseFault::BadStatus => {
                push_text(out, "invalid HTTP/2 status code: ");
                push_text(out, detail);
            },
            ResponseFault::MissingHeaders => push_text(out, "HTTP/2 response missing headers block"),
            ResponseFault::NonceEncoding => {
                push_text(out, "invalid response nonce encoding: ");
                push_text(out, detail);
            },
            ResponseFault::TagEncoding => {
                push_text(out, "invalid HMAC header encoding: ");
                push_text(out, detail);
            },
            ResponseFault::Integrity => push_text(out, "response integrity verification failed"),
            ResponseFault::Unreadable(e) => {
                push_text(out, "failed to parse HTTP/1 response: ");
                push_text(out, e.message());
            },
            ResponseFault::UnreadableStream(e) => {
                push_text(out, "failed to parse synthesized HTTP/2 response: ");
                push_text(out, e.message());
            },
            ResponseFault::Envelope(e) => {
                push_text(out, "failed to decode secure envelope: ");
                push_text(out, e.message());
            },
            ResponseFault::Sealing(e) => {
                push_text(out, "secure envelope encode failed: ");
                push_text(out, e.message());
            },
            ResponseFault::State(e) => push_state_words(out, *e, detail),
        }
        assert(out@ =~= old(out)@ + self.words(detail@));
    }
}

impl HttpsError {
    /// The whole error.
    pub open spec fn sentence(&self, detail: Seq<char>) -> Seq<char> {
        match self {
            HttpsError::Tls(TlsError::NotConnected) => "IO error: TLS connection not established"@,
            HttpsError::Tls(e) => "TLS error: "@ + e.in_code(detail),
            HttpsError::Codec => "IO error: "@ + detail,
            HttpsError::InvalidUrl(e) => "invalid URL: "@ + e.text(),
            HttpsError::InvalidResponse(ResponseFault::State(EnvelopeError::Codec)) => "IO error: "@ + detail,
            HttpsError::InvalidResponse(ResponseFault::State(EnvelopeError::MissingSeparator)) =>
                "IO error: header delimiter not found"@,
            HttpsError::InvalidResponse(ResponseFault::State(EnvelopeError::HeaderNotUtf8)) =>
                "IO error: header is not valid UTF-8"@,
            HttpsError::InvalidResponse(e) => "invalid response: "@ + e.words(detail),
            HttpsError::Timeout => "request timeout"@,
            HttpsError::ConnectionFailed => "connection failed: "@ + detail,
            HttpsError::TooManyRedirects => "too many redirects"@,
            HttpsError::ProtocolNegotiationFailed => "protocol negotiation failed: "@ + detail,
            HttpsError::Http2Error(Http2Fault::Reset) => "HTTP/2 error: received RST_STREAM for request stream"@,
            HttpsError::Http2Error(Http2Fault::HeaderBlock) => "HTTP/2 error: HPACK decode failed: "@ + detail,
        }
    }

    /// The whole error in words.
    pub fn to_string(&self, detail: &str) -> (r: String)
        ensures
            r@ == self.sentence(detail@),
    {
        let mut out: Vec<char> = Vec::new();
        match self {
            HttpsError::Tls(TlsError::NotConnected) => {
                push_text(&mut out, "IO error: TLS connection not established");
            },
            HttpsError::Tls(e) => {
                push_text(&mut out, "TLS error: ");
                e.push_in_code(&mut out, detail);
            },
            HttpsError::Codec | HttpsError::InvalidResponse(ResponseFault::State(EnvelopeError::Codec)) => {
                push_text(&mut out, "IO error: ");
                push_text(&mut out, detail);
            },
            HttpsError::InvalidUrl(e) => {
                push_text(&mut out, "invalid URL: ");
                push_text(&mut out, e.message());
            },
            HttpsError::InvalidResponse(ResponseFault::State(EnvelopeError::MissingSeparator)) => {
                push_text(&mut out, "IO error: header delimiter not found");
            },
            HttpsError::InvalidResponse(ResponseFault::State(EnvelopeError::HeaderNotUtf8)) => {
                push_text(&mut out, "IO error: header is not valid UTF-8");
            },
            HttpsError::InvalidResponse(e) => {
                push_text(&mut out, "invalid response: ");
                e.push_words(&mut out, detail);
            },
            HttpsError::Timeout => push_text(&mut out, "request timeout"),
            HttpsError::ConnectionFailed => {
                push_text(&mut out, "connection failed: ");
                push_text(&mut out, detail);
            },
            HttpsError::TooManyRedirects => push_text(&mut out, "too many redirects"),
            HttpsError::ProtocolNegotiationFailed => {
                push_text(&mut out, "protocol negotiation failed: ");
                push_text(&mut out, detail);
            },
            HttpsError::Http2Error(Http2Fault::Reset) => {
                push_text(&mut out, "HTTP/2 error: received RST_STREAM for request stream");
            },
            HttpsError::Http2Error(Http2Fault::HeaderBlock) => {
                push_text(&mut out, "HTTP/2 error: HPACK decode failed: ");
                push_text(&mut out, detail);
            },
        }
        assert(out@ =~= self.sentence(detail@));
        string_of(out.as_slice())
    }
}

impl RevocationFault {
    /// The fault in words.
    pub open spec fn sentence(&self, detail: Seq<char>) -> Seq<char> {
        match self {
            RevocationFault::PointsUnreadable => "failed to read CRL distribution points: "@ + detail,
            RevocationFault::NoPoints => "certificate has no CRL distribution points"@,
            RevocationFault::SerialUnreadable => "failed to read certificate serial number: "@ + detail,
            RevocationFault::NoUsablePoint => "no usable CRL distribution point"@,
            RevocationFault::FetchFailed => "CRL fetch failed: "@ + detail,
            RevocationFault::Unparsable => "failed to parse CRL: "@ + detail,
            RevocationFault::BadSignature => "CRL signature verification failed: "@ + detail,
            RevocationFault::NotValid => "CRL is expired or not yet valid"@,
            RevocationFault::HttpStatus(n) => "CRL fetch returned HTTP "@ + decimal(*n as nat),
            RevocationFault::TooLarge(n) => "CRL response too large ("@ + decimal(*n as nat) + " bytes, cap is "@
                + decimal(MAX_CRL_RESPONSE_BYTES as nat) + ")"@,
        }
    }

    /// The fault in words.
    pub fn to_string(&self, detail: &str) -> (r: String)
        ensures
            r@ == self.sentence(detail@),
    {
        let mut out: Vec<char> = Vec::new();
        match self {
            RevocationFault::PointsUnreadable => {
                push_text(&mut out, "failed to read CRL distribution points: ");
                push_text(&mut out, detail);
            },
            RevocationFault::NoPoints => push_text(&mut out, "certificate has no CRL distribution points"),
            RevocationFault::SerialUnreadable => {
                push_text(&mut out, "failed to read certificate serial number: ");
                push_text(&mut out, detail);
            },
            RevocationFault::NoUsablePoint => push_text(&mut out, "no usable CRL distribution point"),
            RevocationFault::FetchFailed => {
                push_text(&mut out, "CRL fetch failed: ");
                push_text(&mut out, detail);
            },
            RevocationFault::Unparsable => {
                push_text(&mut out, "failed to parse CRL: ");
                push_text(&mut out, detail);
            },
            RevocationFault::BadSignature => {
                push_text(&mut out, "CRL signature verification failed: ");
                push_text(&mut out, detail);
            },
            RevocationFault::NotValid => push_text(&mut out, "CRL is expired or not yet valid"),
            RevocationFault::HttpStatus(n) => {
                push_text(&mut out, "CRL fetch returned HTTP ");
                push_chars(&mut out, to_decimal(*n as u64).as_slice());
            },
            RevocationFault::TooLarge(n) => {
                push_text(&mut out, "CRL response too large (");
                push_chars(&mut out, to_decimal(*n as u64).as_slice());
                push_text(&mut out, " bytes, cap is ");
                push_chars(&mut out, to_decimal(MAX_CRL_RESPONSE_BYTES as u64).as_slice());
                push_text(&mut out, ")");
            },
        }
        assert(out@ =~= self.sentence(detail@));
        string_of(out.as_slice())
    }
}

impl CtError {
    /// The whole error.
    pub open spec fn sentence(&self, detail: Seq<char>) -> Seq<char> {
        match self {
            CtError::ListUnreadable | CtError::PrecertUnreadable => self.text() + ": "@ + detail,
            CtError::IssuerKeyUnreadable => detail,
            _ => self.text(),
        }
    }

    /// The whole error in words.
    pub fn to_string(&self, detail: &str) -> (r: String)
        ensures
            r@ == self.sentence(detail@),
    {
        let mut out: Vec<char> = Vec::new();
        match self {
            CtError::ListUnreadable | CtError::PrecertUnreadable => {
                push_text(&mut out, self.message());
                push_text(&mut out, ": ");
                push_text(&mut out, detail);
            },
            CtError::IssuerKeyUnreadable => push_text(&mut out, detail),
            _ => push_text(&mut out, self.message()),
        }
        assert(out@ =~= self.sentence(detail@));
        string_of(out.as_slice())
    }
}

impl TrustStoreError {
    /// The error in words.
    pub open spec fn sentence(&self, detail: Seq<char>) -> Seq<char> {
        match self {
            TrustStoreError::Io => "Trust store IO error: "@ + detail,
            TrustStoreError::Parse => "Trust store parse error: "@ + detail,
        }
    }

    /// The error in words.
    pub fn to_string(&self, detail: &str) -> (r: String)
        ensures
            r@ == self.sentence(detail@),
    {
        let mut out = match self {
            TrustStoreError::Io => chars_of("Trust store IO error: "),
            TrustStoreError::Parse => chars_of("Trust store parse error: "),
        };
        push_text(&mut out, detail);
        string_of(out.as_slice())
    }
}

}
