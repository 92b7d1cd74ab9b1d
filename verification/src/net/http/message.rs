//! What requests and responses have in common: digests, content codings, and what can be wrong.
use vstd::prelude::*;

use crate::bytes::constant_time_eq;
use crate::crypto::base64::{
    decode_chars, decoded, encoded, is_symbol, law_base64_roundtrip, lemma_encoded_symbols,
};
use crate::crypto::sha256::{sha256, sha256_of};
use crate::net::envelope::lemma_armoured_tidy;
use crate::net::http::compression::{coding_name, coding_named, law_coding_names, CompressionAlgorithm};
use crate::net::ticket::{loose_key, loose_value, read_loose};
use crate::text::{
    chars_of, is_text, lemma_find_is, lemma_find_none, lemma_tidy_concat, lemma_trimmed_solid, lowered,
    split, split_on, texts, tidy, to_lower, trim, trimmed,
};

verus! {

/// Why a message is refused.
#[derive(Debug, Clone, Copy, PartialEq, Eq, Structural)]
pub enum MessageError {
    NoHeaderEnd,
    NotUtf8,
    Empty,
    BadStartLine,
    BadMethod,
    BadVersion,
    BadStatus,
    BadHeaderLine,
    BadContentLength,
    BodyTooShort,
    ChunkSizeUnended,
    ChunkSizeNotUtf8,
    BadChunkSize,
    ChunkTooLong,
    ChunkUnended,
    UnsupportedCoding,
    Codec,
    DigestEncoding,
    DigestMismatch,
    DigestMissing,
    BodyTooLarge,
}

impl MessageError {
    pub open spec fn text(&self) -> Seq<char> {
        match self {
            MessageError::NoHeaderEnd => "No header terminator found"@,
            MessageError::NotUtf8 => "Invalid UTF-8"@,
            MessageError::Empty => "Empty message"@,
            MessageError::BadStartLine => "Invalid start line"@,
            MessageError::BadMethod => "Invalid HTTP method"@,
            MessageError::BadVersion => "Invalid HTTP version"@,
            MessageError::BadStatus => "Invalid status code"@,
            MessageError::BadHeaderLine => "Invalid header line"@,
            MessageError::BadContentLength => "Invalid Content-Length"@,
            MessageError::BodyTooShort => "Content-Length exceeds available data"@,
            MessageError::ChunkSizeUnended => "Malformed chunked encoding: no CRLF after chunk size"@,
            MessageError::ChunkSizeNotUtf8 => "Invalid UTF-8 in chunk size"@,
            MessageError::BadChunkSize => "Invalid chunk size"@,
            MessageError::ChunkTooLong => "Chunk size exceeds available data"@,
            MessageError::ChunkUnended => "Missing CRLF after chunk data"@,
            MessageError::UnsupportedCoding => "Unsupported content-encoding"@,
            MessageError::Codec => "Failed to decode body"@,
            MessageError::DigestEncoding => "Invalid digest encoding"@,
            MessageError::DigestMismatch => "Digest verification failed"@,
            MessageError::DigestMissing => "Missing SHA-256 digest entry"@,
            MessageError::BodyTooLarge => "Request body too large"@,
        }
    }

    /// The error in words.
    pub fn message(&self) -> (r: &'static str)
        ensures
            r@ == self.text(),
    {
        match self {
            MessageError::NoHeaderEnd => "No header terminator found",
            MessageError::NotUtf8 => "Invalid UTF-8",
            MessageError::Empty => "Empty message",
            MessageError::BadStartLine => "Invalid start line",
            MessageError::BadMethod => "Invalid HTTP method",
            MessageError::BadVersion => "Invalid HTTP version",
            MessageError::BadStatus => "Invalid status code",
            MessageError::BadHeaderLine => "Invalid header line",
            MessageError::BadContentLength => "Invalid Content-Length",
            MessageError::BodyTooShort => "Content-Length exceeds available data",
            MessageError::ChunkSizeUnended => "Malformed chunked encoding: no CRLF after chunk size",
            MessageError::ChunkSizeNotUtf8 => "Invalid UTF-8 in chunk size",
            MessageError::BadChunkSize => "Invalid chunk size",
            MessageError::ChunkTooLong => "Chunk size exceeds available data",
            MessageError::ChunkUnended => "Missing CRLF after chunk data",
            MessageError::UnsupportedCoding => "Unsupported content-encoding",
            MessageError::Codec => "Failed to decode body",
            MessageError::DigestEncoding => "Invalid digest encoding",
            MessageError::DigestMismatch => "Digest verification failed",
            MessageError::DigestMissing => "Missing SHA-256 digest entry",
            MessageError::BodyTooLarge => "Request body too large",
        }
    }
}

/// Whether an element of a `Digest` value is a SHA-256 digest.
pub open spec fn is_sha256(element: Seq<char>) -> bool {
    lowered(loose_key(trimmed(element), '=')) == "sha-256"@
}

/// The octets that an element of a `Digest` value gives.
pub open spec fn digest_in(element: Seq<char>) -> Option<Seq<u8>> {
    decoded(loose_value(trimmed(element), '='))
}

/// Whether one of the first `n` elements is a SHA-256 digest that cannot be read.
pub open spec fn some_unreadable(elements: Seq<Seq<char>>, n: int) -> bool {
    exists|i: int| 0 <= i < n && is_sha256(#[trigger] elements[i]) && digest_in(elements[i]) is None
}

/// Whether one of the first `n` elements is a SHA-256 digest.
pub open spec fn some_sha256(elements: Seq<Seq<char>>, n: int) -> bool {
    exists|i: int| 0 <= i < n && is_sha256(#[trigger] elements[i])
}

/// Whether one of the first `n` elements is the SHA-256 digest of `body`.
pub open spec fn some_match(elements: Seq<Seq<char>>, n: int, body: Seq<u8>) -> bool {
    exists|i: int|
        0 <= i < n && is_sha256(#[trigger] elements[i]) && digest_in(elements[i]) == Some(
            sha256_of(body),
        )
}

/// Why a body does not go with a `Digest` value, if it does not: of several SHA-256 digests, all have
/// to be readable and one has to be that of the body. Other digests are not looked at.
pub open spec fn digest_fault(digest: Seq<char>, body: Seq<u8>) -> Option<MessageError> {
    let elements = split_on(digest, ',');
    let n = elements.len() as int;
    if some_unreadable(elements, n) {
        Some(MessageError::DigestEncoding)
    } else if some_sha256(elements, n) && !some_match(elements, n, body) {
        Some(MessageError::DigestMismatch)
    } else {
        None
    }
}

/// Holds a body against a `Digest` value.
pub fn verify_digest(digest: &str, body: &[u8]) -> (r: Result<(), MessageError>)
    ensures
        match r {
            Ok(()) => digest_fault(digest@, body@) is None,
            Err(e) => digest_fault(digest@, body@) == Some(e),
        },
{
    let text = chars_of(digest);
    let elements = split(text.as_slice(), ',');
    let ghost all = split_on(digest@, ',');
    let actual = sha256(body);
    let mut found = false;
    let mut matched = false;
    let mut i: usize = 0;
    while i < elements.len()
        invariant
            i <= elements@.len(),
            texts(elements@) == all,
            all == split_on(digest@, ','),
            actual@ == sha256_of(body@),
            !some_unreadable(all, i as int),
            found == some_sha256(all, i as int),
            matched == some_match(all, i as int, body@),
        decreases elements@.len() - i,
    {
        assert(all[i as int] == elements@[i as int]@);
        let (name, value) = read_loose(trim(elements[i]), '=');
        let lower = to_lower(name);
        if is_text(lower.as_slice(), "sha-256") {
            assert(is_sha256(all[i as int]));
            found = true;
            match decode_chars(value) {
                Some(expected) => {
                    if constant_time_eq(expected.as_slice(), actual.as_slice()) {
                        matched = true;
                    }
                },
                None => {
                    return Err(MessageError::DigestEncoding);
                },
            }
        }
        i = i + 1;
    }
    if found && !matched {
        Err(MessageError::DigestMismatch)
    } else {
        Ok(())
    }
}

/// Why a body does not go with a `Digest` value that has to hold a SHA-256 digest.
pub open spec fn strict_digest_fault(digest: Seq<char>, body: Seq<u8>) -> Option<MessageError> {
    let elements = split_on(digest, ',');
    if !some_sha256(elements, elements.len() as int) {
        Some(MessageError::DigestMissing)
    } else {
        digest_fault(digest, body)
    }
}

/// Holds a body against a `Digest` value that has to hold a SHA-256 digest.
pub fn verify_digest_strictly(digest: &str, body: &[u8]) -> (r: Result<(), MessageError>)
    ensures
        match r {
            Ok(()) => strict_digest_fault(digest@, body@) is None,
            Err(e) => strict_digest_fault(digest@, body@) == Some(e),
        },
{
    let text = chars_of(digest);
    let elements = split(text.as_slice(), ',');
    let ghost all = split_on(digest@, ',');
    let mut i: usize = 0;
    while i < elements.len()
        invariant
            i <= elements@.len(),
            texts(elements@) == all,
            all == split_on(digest@, ','),
            !some_sha256(all, i as int),
        decreases elements@.len() - i,
    {
        assert(all[i as int] == elements@[i as int]@);
        let (name, _) = read_loose(trim(elements[i]), '=');
        let lower = to_lower(name);
        if is_text(lower.as_slice(), "sha-256") {
            assert(is_sha256(all[i as int]));
            return verify_digest(digest, body);
        }
        i = i + 1;
    }
    Err(MessageError::DigestMissing)
}

/// The coding that a `Content-Encoding` value names; the identity where it is empty.
pub open spec fn body_coding(encoding: Seq<char>) -> Option<CompressionAlgorithm> {
    let e = lowered(trimmed(encoding));
    if e.len() == 0 || e == "identity"@ {
        Some(CompressionAlgorithm::Identity)
    } else {
        coding_named(e)
    }
}

/// Reads the coding that a `Content-Encoding` value names.
pub fn read_body_coding(encoding: &str) -> (r: Option<CompressionAlgorithm>)
    ensures
        r == body_coding(encoding@),
{
    let text = chars_of(encoding);
    let lower = to_lower(trim(text.as_slice()));
    if lower.len() == 0 || is_text(lower.as_slice(), "identity") {
        Some(CompressionAlgorithm::Identity)
    } else {
        CompressionAlgorithm::from_chars(lower.as_slice())
    }
}

/// The body under a `Content-Encoding` value; `plain` is what the codec made of it.
pub open spec fn body_decoded(encoding: Seq<char>, body: Seq<u8>, plain: Option<Seq<u8>>) -> Result<
    Seq<u8>,
    MessageError,
> {
    match body_coding(encoding) {
        None => Err(MessageError::UnsupportedCoding),
        Some(CompressionAlgorithm::Identity) => Ok(body),
        Some(_) => match plain {
            Some(p) => Ok(p),
            None => Err(MessageError::Codec),
        },
    }
}

/// Decodes a body. `plain` is what the codec made of it, `None` where the codec failed; it is not
/// looked at under the identity.
pub fn decode_body<'a>(encoding: &str, body: &'a [u8], plain: Option<&'a [u8]>) -> (r: Result<
    &'a [u8],
    MessageError,
>)
    ensures
        match r {
            Ok(b) => body_decoded(encoding@, body@, crate::net::blob::opt_bytes(plain)) == Ok::<
                Seq<u8>,
                MessageError,
            >(b@),
            Err(e) => body_decoded(encoding@, body@, crate::net::blob::opt_bytes(plain)) == Err::<
                Seq<u8>,
                MessageError,
            >(e),
        },
{
    match read_body_coding(encoding) {
        None => Err(MessageError::UnsupportedCoding),
        Some(CompressionAlgorithm::Identity) => Ok(body),
        Some(_) => match plain {
            Some(p) => Ok(p),
            None => Err(MessageError::Codec),
        },
    }
}


/// The `Digest` value of octets.
pub open spec fn digest_value(wire: Seq<u8>) -> Seq<char> {
    "SHA-256="@ + encoded(sha256_of(wire))
}

/// The digest of octets is one element, and that element is read as what it is.
pub proof fn lemma_own_digest_element(body: Seq<u8>)
    ensures
        split_on(digest_value(body), ',') == seq![digest_value(body)],
        is_sha256(digest_value(body)),
        digest_in(digest_value(body)) == Some(sha256_of(body)),
        tidy(digest_value(body)),
{
    let d = digest_value(body);
    let e = encoded(sha256_of(body));
    reveal_strlit("SHA-256=");
    reveal_strlit("sha-256");
    lemma_encoded_symbols(sha256_of(body));
    lemma_armoured_tidy(e);
    lemma_tidy_concat("SHA-256="@, e);
    lemma_trimmed_solid(d);
    lemma_trimmed_solid(e);
    assert forall|j: int| 0 <= j < d.len() implies d[j] != ',' by {
        if j >= 8 {
            assert(d[j] == e[j - 8]);
            assert(is_symbol(e[j - 8]));
        }
    }
    lemma_find_none(d, ',');
    let elements = split_on(d, ',');
    assert(elements =~= seq![d]);
    assert(d[7] == '=');
    assert forall|j: int| 0 <= j < 7 implies d[j] != '=' by {
        assert(d[j] == "SHA-256="@[j]);
    }
    lemma_find_is(d, '=', 7);
    let k = d.take(7);
    lemma_trimmed_solid(k);
    assert(lowered(k) =~= "sha-256"@);
    assert(d.skip(8) =~= e);
    law_base64_roundtrip(sha256_of(body));
    assert(is_sha256(elements[0]));
    assert(digest_in(elements[0]) == Some(sha256_of(body)));
}

/// A body goes with its own digest.
pub proof fn law_own_digest(body: Seq<u8>)
    ensures
        digest_fault(digest_value(body), body) is None,
        strict_digest_fault(digest_value(body), body) is None,
        tidy(digest_value(body)),
{
    lemma_own_digest_element(body);
    let elements = split_on(digest_value(body), ',');
    assert(is_sha256(elements[0]));
    assert(digest_in(elements[0]) == Some(sha256_of(body)));
}

/// A body under a coding is what the codec gives back, and an error where the codec gives nothing; under the identity
/// it is what was sent. What names no coding is refused.
pub proof fn law_decoded_body(
    encoding: Seq<char>,
    body: Seq<u8>,
    plain: Option<Seq<u8>>,
    a: CompressionAlgorithm,
)
    ensures
        lowered(trimmed(encoding)) == coding_name(a) ==> body_decoded(encoding, body, plain) == (if a
            == CompressionAlgorithm::Identity {
            Ok::<Seq<u8>, MessageError>(body)
        } else {
            match plain {
                Some(p) => Ok(p),
                None => Err(MessageError::Codec),
            }
        }),
        trimmed(encoding).len() == 0 ==> body_decoded(encoding, body, plain) == Ok::<Seq<u8>, MessageError>(body),
        trimmed(encoding).len() > 0 && (forall|b: CompressionAlgorithm|
            lowered(trimmed(encoding)) != #[trigger] coding_name(b)) ==> body_decoded(encoding, body, plain) == Err::<
            Seq<u8>,
            MessageError,
        >(MessageError::UnsupportedCoding),
{
    let e = lowered(trimmed(encoding));
    law_coding_names(a);
    law_coding_names(CompressionAlgorithm::Identity);
    reveal_strlit("identity");
    reveal_strlit("gzip");
    reveal_strlit("deflate");
    reveal_strlit("br");
    reveal_strlit("zstd");
    assert(coding_name(CompressionAlgorithm::Identity) == "identity"@);
    assert("gzip"@.len() == 4 && "deflate"@.len() == 7 && "br"@.len() == 2 && "zstd"@.len() == 4);
    if let Some(b) = coding_named(e) {
        assert(coding_name(b) == e);
    }
}

/// A digest of other octets is refused: the value with which octets are vouched for goes with a body if and only if
/// it holds the digest of that body.
pub proof fn law_foreign_digest(body: Seq<u8>, other: Seq<u8>)
    ensures
        sha256_of(other) != sha256_of(body) ==> digest_fault(digest_value(other), body) == Some(
            MessageError::DigestMismatch,
        ) && strict_digest_fault(digest_value(other), body) == Some(MessageError::DigestMismatch),
        sha256_of(other) == sha256_of(body) ==> digest_fault(digest_value(other), body) is None,
{
    lemma_own_digest_element(other);
    let d = digest_value(other);
    let elements = split_on(d, ',');
    assert(elements.len() == 1 && elements[0] == d);
    assert(is_sha256(elements[0]));
    assert(digest_in(elements[0]) == Some(sha256_of(other)));
}

/// A value without a SHA-256 digest goes with every body, except where one has to be given.
pub proof fn law_other_digests(digest: Seq<char>, body: Seq<u8>)
    requires
        forall|i: int|
            0 <= i < split_on(digest, ',').len() ==> lowered(
                loose_key(trimmed(#[trigger] split_on(digest, ',')[i]), '='),
            ) != "sha-256"@,
    ensures
        digest_fault(digest, body) is None,
        strict_digest_fault(digest, body) == Some(MessageError::DigestMissing),
{
    let elements = split_on(digest, ',');
    assert forall|i: int| 0 <= i < elements.len() implies !is_sha256(#[trigger] elements[i]) by {
        assert(lowered(loose_key(trimmed(split_on(digest, ',')[i]), '=')) != "sha-256"@);
    }
}

}
