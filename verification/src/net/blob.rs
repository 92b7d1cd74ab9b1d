//! Blobs: sealed snapshots of values of the HTTP layer.
//!
//! Every kind of blob has its own magic and its own binding context, so that a blob of one kind is
//! never taken for one of another. The tag covers the context, the content coding, the plain size,
//! the nonce and the payload as sent.
use vstd::prelude::*;
use vstd::slice::slice_subrange;
use vstd::string::StringSliceAdditionalSpecFns;
use vstd::utf8::{encode_utf8, is_ascii_chars};

use crate::bytes::{be64, constant_time_eq, lemma_be64_differ, lemma_same_parts, push_be64, push_bytes};
use crate::crypto::base64::{decode, decoded, encode, encoded, law_base64_roundtrip, lemma_encoded_symbols};
use crate::crypto::hmac::{hmac_of, hmac_sha256, lemma_hmac_len};
use crate::crypto::sha256::{lemma_sha256_len, sha256, sha256_of};
use crate::decimal::{decimal, law_decimal_roundtrip, parse_u64, parse_usize, parsed};
use crate::net::envelope::{
    contents, ends_in, enveloped, field_lines, finish_envelope, header_of, lemma_armoured_tidy, lemma_coding_tidy,
    lemma_decimal_tidy, lemma_field_lines, lemma_parted, lemma_payload_at_end, parted, push_fields, split_header_body,
    writable, EnvelopeError, EnvelopeMeta, MetaView,
};
use crate::net::http::compression::{
    coding_name, coding_named, law_coding_names, lemma_coding_octets, usable, CompressionAlgorithm,
};
use crate::net::record::{lemma_equals_not_blank, lemma_pair, pair_of};
use crate::text::{
    begins_with, chars_of, ended, find_char, is_line, is_text, lacks, lemma_ended_front, lemma_ended_joined,
    lemma_find_from, lemma_lines_joined, lemma_tidy_concat, lemma_tidy_line, lines, lines_of, solid,
    string_of, strip_prefix, texts, trim, trimmed, without_prefix,
};

verus! {

/// What a blob holds.
#[derive(Debug, Clone, Copy, PartialEq, Eq, Structural)]
pub enum BlobKind {
    Stream,
    Http3ClientProfile,
    Negotiation,
    ParsedResponse,
    Request,
    Response,
    ServerProfile,
    Trailers,
}

pub open spec fn magic_of(kind: BlobKind) -> Seq<char> {
    match kind {
        BlobKind::Stream => "SINGULARITY_HTTP3_STREAM_BLOB_V1"@,
        BlobKind::Http3ClientProfile => "SINGULARITY_HTTP3_CLIENT_PROFILE_BLOB_V1"@,
        BlobKind::Negotiation => "SINGULARITY_HTTP_NEGOTIATION_BLOB_V1"@,
        BlobKind::ParsedResponse => "SINGULARITY_HTTP_PARSER_RESPONSE_BLOB_V1"@,
        BlobKind::Request => "SINGULARITY_HTTP_REQUEST_BLOB_V1"@,
        BlobKind::Response => "SINGULARITY_HTTP_RESPONSE_BLOB_V1"@,
        BlobKind::ServerProfile => "SINGULARITY_HTTP_SERVER_PROFILE_BLOB_V1"@,
        BlobKind::Trailers => "SINGULARITY_HTTP_TRAILER_HEADERS_BLOB_V1"@,
    }
}

pub open spec fn context_of(kind: BlobKind) -> Seq<char> {
    match kind {
        BlobKind::Stream => "SINGULARITY_HTTP3_STREAM_BLOB_BINDING_V1"@,
        BlobKind::Http3ClientProfile => "SINGULARITY_HTTP3_CLIENT_PROFILE_BLOB_BINDING_V1"@,
        BlobKind::Negotiation => "SINGULARITY_HTTP_NEGOTIATION_BLOB_BINDING_V1"@,
        BlobKind::ParsedResponse => "SINGULARITY_HTTP_PARSER_RESPONSE_BLOB_BINDING_V1"@,
        BlobKind::Request => "SINGULARITY_HTTP_REQUEST_BLOB_BINDING_V1"@,
        BlobKind::Response => "SINGULARITY_HTTP_RESPONSE_BLOB_BINDING_V1"@,
        BlobKind::ServerProfile => "SINGULARITY_HTTP_SERVER_PROFILE_BLOB_BINDING_V1"@,
        BlobKind::Trailers => "SINGULARITY_HTTP_TRAILER_HEADERS_BLOB_BINDING_V1"@,
    }
}

/// Whether a missing time of issue is reported before a wrong payload size.
pub open spec fn issue_first(kind: BlobKind) -> bool {
    kind == BlobKind::Stream || kind == BlobKind::Http3ClientProfile || kind
        == BlobKind::Negotiation || kind == BlobKind::ServerProfile
}

impl BlobKind {
    pub fn magic(&self) -> (r: &'static str)
        ensures
            r@ == magic_of(*self),
    {
        match self {
            BlobKind::Stream => "SINGULARITY_HTTP3_STREAM_BLOB_V1",
            BlobKind::Http3ClientProfile => "SINGULARITY_HTTP3_CLIENT_PROFILE_BLOB_V1",
            BlobKind::Negotiation => "SINGULARITY_HTTP_NEGOTIATION_BLOB_V1",
            BlobKind::ParsedResponse => "SINGULARITY_HTTP_PARSER_RESPONSE_BLOB_V1",
            BlobKind::Request => "SINGULARITY_HTTP_REQUEST_BLOB_V1",
            BlobKind::Response => "SINGULARITY_HTTP_RESPONSE_BLOB_V1",
            BlobKind::ServerProfile => "SINGULARITY_HTTP_SERVER_PROFILE_BLOB_V1",
            BlobKind::Trailers => "SINGULARITY_HTTP_TRAILER_HEADERS_BLOB_V1",
        }
    }

    pub fn context(&self) -> (r: &'static str)
        ensures
            r@ == context_of(*self),
    {
        match self {
            BlobKind::Stream => "SINGULARITY_HTTP3_STREAM_BLOB_BINDING_V1",
            BlobKind::Http3ClientProfile => "SINGULARITY_HTTP3_CLIENT_PROFILE_BLOB_BINDING_V1",
            BlobKind::Negotiation => "SINGULARITY_HTTP_NEGOTIATION_BLOB_BINDING_V1",
            BlobKind::ParsedResponse => "SINGULARITY_HTTP_PARSER_RESPONSE_BLOB_BINDING_V1",
            BlobKind::Request => "SINGULARITY_HTTP_REQUEST_BLOB_BINDING_V1",
            BlobKind::Response => "SINGULARITY_HTTP_RESPONSE_BLOB_BINDING_V1",
            BlobKind::ServerProfile => "SINGULARITY_HTTP_SERVER_PROFILE_BLOB_BINDING_V1",
            BlobKind::Trailers => "SINGULARITY_HTTP_TRAILER_HEADERS_BLOB_BINDING_V1",
        }
    }

    fn issue_before_size(&self) -> (r: bool)
        ensures
            r == issue_first(*self),
    {
        match self {
            BlobKind::Stream => true,
            BlobKind::Http3ClientProfile => true,
            BlobKind::Negotiation => true,
            BlobKind::ServerProfile => true,
            _ => false,
        }
    }
}

/// What is wrong with a header line, taken by itself.
pub open spec fn line_fault(line: Seq<char>) -> Option<EnvelopeError> {
    if trimmed(line).len() == 0 {
        None
    } else {
        match pair_of(line) {
            None => Some(EnvelopeError::MalformedLine),
            Some((key, value)) => value_fault(key, value),
        }
    }
}

pub open spec fn value_fault(key: Seq<char>, value: Seq<char>) -> Option<EnvelopeError> {
    if key == "content-encoding"@ {
        if coding_named(value) is None {
            Some(EnvelopeError::UnsupportedEncoding)
        } else {
            None
        }
    } else if key == "nonce"@ {
        None
    } else if key == "digest"@ {
        if begins_with(value, "SHA-256="@) {
            None
        } else {
            Some(EnvelopeError::BadDigest)
        }
    } else if key == "tag"@ {
        if begins_with(value, "HMAC-SHA-256="@) {
            None
        } else {
            Some(EnvelopeError::BadTag)
        }
    } else if key == "raw-size"@ {
        if parsed(value, usize::MAX as nat) is None {
            Some(EnvelopeError::BadRawSize)
        } else {
            None
        }
    } else if key == "encoded-size"@ {
        if parsed(value, usize::MAX as nat) is None {
            Some(EnvelopeError::BadEncodedSize)
        } else {
            None
        }
    } else if key == "issued-at"@ {
        if parsed(value, u64::MAX as nat) is None {
            Some(EnvelopeError::BadIssuedAt)
        } else {
            None
        }
    } else {
        None
    }
}

/// The first fault among the lines from `from` on.
pub open spec fn first_fault(lines: Seq<Seq<char>>, from: int) -> Option<EnvelopeError>
    decreases lines.len() - from,
{
    if from < 0 || from >= lines.len() {
        None
    } else {
        match line_fault(lines[from]) {
            Some(e) => Some(e),
            None => first_fault(lines, from + 1),
        }
    }
}

/// The value of `key` among the first `n` lines, of which the first is the magic; the last one
/// counts.
pub open spec fn last_value(lines: Seq<Seq<char>>, key: Seq<char>, n: int) -> Option<Seq<char>>
    decreases n,
{
    if n <= 1 {
        None
    } else {
        match pair_of(lines[n - 1]) {
            Some((k, v)) => if k == key {
                Some(v)
            } else {
                last_value(lines, key, n - 1)
            },
            None => last_value(lines, key, n - 1),
        }
    }
}

pub open spec fn algorithm_among(lines: Seq<Seq<char>>, n: int) -> CompressionAlgorithm {
    match last_value(lines, "content-encoding"@, n) {
        Some(v) => match coding_named(v) {
            Some(a) => a,
            None => CompressionAlgorithm::Identity,
        },
        None => CompressionAlgorithm::Identity,
    }
}

/// The value of `key` among the first `n` lines without the given prefix.
pub open spec fn prefixed_among(
    lines: Seq<Seq<char>>,
    key: Seq<char>,
    prefix: Seq<char>,
    n: int,
) -> Option<Seq<char>> {
    match last_value(lines, key, n) {
        Some(v) => without_prefix(v, prefix),
        None => None,
    }
}

pub open spec fn number_among(lines: Seq<Seq<char>>, key: Seq<char>, max: nat, n: int) -> Option<
    nat,
> {
    match last_value(lines, key, n) {
        Some(v) => parsed(v, max),
        None => None,
    }
}

/// What a blob header says about a payload of `body_len` octets.
pub open spec fn header_meta(kind: BlobKind, header: Seq<char>, body_len: nat) -> Result<
    MetaView,
    EnvelopeError,
> {
    let lines = lines_of(header);
    let n = lines.len() as int;
    let first = if n > 0 {
        lines[0]
    } else {
        seq![]
    };
    let nonce = last_value(lines, "nonce"@, n);
    let digest = prefixed_among(lines, "digest"@, "SHA-256="@, n);
    let tag = prefixed_among(lines, "tag"@, "HMAC-SHA-256="@, n);
    let raw = number_among(lines, "raw-size"@, usize::MAX as nat, n);
    let enc = number_among(lines, "encoded-size"@, usize::MAX as nat, n);
    let issued = number_among(lines, "issued-at"@, u64::MAX as nat, n);
    if first != magic_of(kind) {
        Err(EnvelopeError::BadMagic)
    } else if first_fault(lines, 1) is Some {
        Err(first_fault(lines, 1).unwrap())
    } else if nonce is None {
        Err(EnvelopeError::MissingNonce)
    } else if digest is None {
        Err(EnvelopeError::MissingDigest)
    } else if tag is None {
        Err(EnvelopeError::MissingTag)
    } else if raw is None {
        Err(EnvelopeError::MissingRawSize)
    } else if enc is None {
        Err(EnvelopeError::MissingEncodedSize)
    } else if issue_first(kind) && issued is None {
        Err(EnvelopeError::MissingIssuedAt)
    } else if enc.unwrap() != body_len {
        Err(EnvelopeError::EncodedSizeMismatch)
    } else if issued is None {
        Err(EnvelopeError::MissingIssuedAt)
    } else {
        Ok(
            MetaView {
                algorithm: algorithm_among(lines, n),
                nonce: nonce.unwrap(),
                digest: digest.unwrap(),
                tag: tag.unwrap(),
                raw_size: raw.unwrap(),
                encoded_size: enc.unwrap(),
                issued_at: issued.unwrap(),
            },
        )
    }
}

/// The header fields met so far.
struct Fields<'a> {
    algorithm: CompressionAlgorithm,
    nonce: Option<&'a [char]>,
    digest: Option<&'a [char]>,
    tag: Option<&'a [char]>,
    raw_size: Option<usize>,
    encoded_size: Option<usize>,
    issued_at: Option<u64>,
}

spec fn opt_text(o: Option<&[char]>) -> Option<Seq<char>> {
    match o {
        Some(s) => Some(s@),
        None => None,
    }
}

spec fn opt_size(o: Option<usize>) -> Option<nat> {
    match o {
        Some(n) => Some(n as nat),
        None => None,
    }
}

spec fn opt_time(o: Option<u64>) -> Option<nat> {
    match o {
        Some(n) => Some(n as nat),
        None => None,
    }
}

impl<'a> Fields<'a> {
    spec fn holds(&self, lines: Seq<Seq<char>>, n: int) -> bool {
        &&& self.algorithm == algorithm_among(lines, n)
        &&& opt_text(self.nonce) == last_value(lines, "nonce"@, n)
        &&& opt_text(self.digest) == prefixed_among(lines, "digest"@, "SHA-256="@, n)
        &&& opt_text(self.tag) == prefixed_among(lines, "tag"@, "HMAC-SHA-256="@, n)
        &&& opt_size(self.raw_size) == number_among(lines, "raw-size"@, usize::MAX as nat, n)
        &&& opt_size(self.encoded_size) == number_among(
            lines,
            "encoded-size"@,
            usize::MAX as nat,
            n,
        )
        &&& opt_time(self.issued_at) == number_among(lines, "issued-at"@, u64::MAX as nat, n)
    }
}

/// The names of the fields differ from each other.
proof fn lemma_field_names()
    ensures
        "content-encoding"@.len() == 16,
        "nonce"@.len() == 5,
        "digest"@.len() == 6,
        "tag"@.len() == 3,
        "raw-size"@.len() == 8,
        "encoded-size"@.len() == 12,
        "issued-at"@.len() == 9,
{
    reveal_strlit("content-encoding");
    reveal_strlit("nonce");
    reveal_strlit("digest");
    reveal_strlit("tag");
    reveal_strlit("raw-size");
    reveal_strlit("encoded-size");
    reveal_strlit("issued-at");
}

/// Takes in one header line.
fn take_line<'a>(
    fields: &mut Fields<'a>,
    line: &'a [char],
    Ghost(lines): Ghost<Seq<Seq<char>>>,
    Ghost(n): Ghost<int>,
) -> (r: Result<(), EnvelopeError>)
    requires
        1 <= n < lines.len(),
        lines[n] == line@,
        old(fields).holds(lines, n),
    ensures
        match r {
            Ok(()) => line_fault(line@) is None && final(fields).holds(lines, n + 1),
            Err(e) => line_fault(line@) == Some(e),
        },
{
    proof {
        lemma_field_names();
    }
    let end: usize = line.len();
    match find_char(line, '=') {
        None => {
            if trim(line).len() == 0 {
                Ok(())
            } else {
                Err(EnvelopeError::MalformedLine)
            }
        },
        Some(i) => {
            proof {
                lemma_find_from(line@, '=', 0);
                lemma_equals_not_blank(line@, i as int);
            }
            let key = trim(slice_subrange(line, 0, i));
            let value = trim(slice_subrange(line, i + 1, end));
            assert(line@.subrange(0, i as int) =~= line@.take(i as int));
            assert(line@.subrange(i + 1, end as int) =~= line@.skip(i + 1));
            assert(pair_of(line@) == Some((key@, value@)));
            if is_text(key, "content-encoding") {
                match CompressionAlgorithm::from_chars(value) {
                    Some(a) => {
                        fields.algorithm = a;
                        Ok(())
                    },
                    None => Err(EnvelopeError::UnsupportedEncoding),
                }
            } else if is_text(key, "nonce") {
                fields.nonce = Some(value);
                Ok(())
            } else if is_text(key, "digest") {
                match strip_prefix(value, "SHA-256=") {
                    Some(v) => {
                        fields.digest = Some(v);
                        Ok(())
                    },
                    None => Err(EnvelopeError::BadDigest),
                }
            } else if is_text(key, "tag") {
                match strip_prefix(value, "HMAC-SHA-256=") {
                    Some(v) => {
                        fields.tag = Some(v);
                        Ok(())
                    },
                    None => Err(EnvelopeError::BadTag),
                }
            } else if is_text(key, "raw-size") {
                match parse_usize(value) {
                    Some(v) => {
                        fields.raw_size = Some(v);
                        Ok(())
                    },
                    None => Err(EnvelopeError::BadRawSize),
                }
            } else if is_text(key, "encoded-size") {
                match parse_usize(value) {
                    Some(v) => {
                        fields.encoded_size = Some(v);
                        Ok(())
                    },
                    None => Err(EnvelopeError::BadEncodedSize),
                }
            } else if is_text(key, "issued-at") {
                match parse_u64(value) {
                    Some(v) => {
                        fields.issued_at = Some(v);
                        Ok(())
                    },
                    None => Err(EnvelopeError::BadIssuedAt),
                }
            } else {
                Ok(())
            }
        },
    }
}

/// Reads a blob header.
pub fn parse_meta(kind: BlobKind, header: &str, body_len: usize) -> (r: Result<
    EnvelopeMeta,
    EnvelopeError,
>)
    ensures
        match r {
            Ok(meta) => header_meta(kind, header@, body_len as nat) == Ok::<MetaView, EnvelopeError>(
                meta@,
            ),
            Err(e) => header_meta(kind, header@, body_len as nat) == Err::<MetaView, EnvelopeError>(
                e,
            ),
        },
{
    let text = chars_of(header);
    let rows = lines(text.as_slice());
    let ghost all = lines_of(header@);
    assert(texts(rows@) == all);
    let magic = kind.magic();
    if rows.len() == 0 {
        if magic.unicode_len() > 0 {
            return Err(EnvelopeError::BadMagic);
        }
    } else {
        assert(all[0] == rows@[0]@);
        if !is_text(rows[0], magic) {
            return Err(EnvelopeError::BadMagic);
        }
    }
    proof {
        lemma_magic(kind);
    }
    let mut fields = Fields {
        algorithm: CompressionAlgorithm::Identity,
        nonce: None,
        digest: None,
        tag: None,
        raw_size: None,
        encoded_size: None,
        issued_at: None,
    };
    let mut i: usize = 1;
    while i < rows.len()
        invariant
            1 <= i <= rows@.len(),
            texts(rows@) == all,
            all == lines_of(header@),
            all.len() > 0,
            all[0] == magic_of(kind),
            fields.holds(all, i as int),
            first_fault(all, i as int) == first_fault(all, 1),
        decreases rows@.len() - i,
    {
        assert(all[i as int] == rows@[i as int]@);
        match take_line(&mut fields, rows[i], Ghost(all), Ghost(i as int)) {
            Ok(()) => {},
            Err(e) => {
                return Err(e);
            },
        }
        i = i + 1;
    }
    assert(first_fault(all, 1) is None);
    let nonce = match fields.nonce {
        Some(v) => v,
        None => {
            return Err(EnvelopeError::MissingNonce);
        },
    };
    let digest = match fields.digest {
        Some(v) => v,
        None => {
            return Err(EnvelopeError::MissingDigest);
        },
    };
    let tag = match fields.tag {
        Some(v) => v,
        None => {
            return Err(EnvelopeError::MissingTag);
        },
    };
    let raw_size = match fields.raw_size {
        Some(v) => v,
        None => {
            return Err(EnvelopeError::MissingRawSize);
        },
    };
    let encoded_size = match fields.encoded_size {
        Some(v) => v,
        None => {
            return Err(EnvelopeError::MissingEncodedSize);
        },
    };
    if kind.issue_before_size() && fields.issued_at.is_none() {
        return Err(EnvelopeError::MissingIssuedAt);
    }
    if encoded_size != body_len {
        return Err(EnvelopeError::EncodedSizeMismatch);
    }
    match fields.issued_at {
        Some(issued_at_unix) => Ok(
            EnvelopeMeta {
                algorithm: fields.algorithm,
                nonce_b64: string_of(nonce),
                digest_b64: string_of(digest),
                tag_b64: string_of(tag),
                raw_size,
                encoded_size,
                issued_at_unix,
            },
        ),
        None => Err(EnvelopeError::MissingIssuedAt),
    }
}

/// A magic is a line of text without white space or equals signs.
proof fn lemma_magic(kind: BlobKind)
    ensures
        magic_of(kind).len() > 0,
        solid(magic_of(kind)),
        lacks(magic_of(kind), '='),
        is_ascii_chars(magic_of(kind)),
{
    reveal_strlit("SINGULARITY_HTTP3_STREAM_BLOB_V1");
    reveal_strlit("SINGULARITY_HTTP3_CLIENT_PROFILE_BLOB_V1");
    reveal_strlit("SINGULARITY_HTTP_NEGOTIATION_BLOB_V1");
    reveal_strlit("SINGULARITY_HTTP_PARSER_RESPONSE_BLOB_V1");
    reveal_strlit("SINGULARITY_HTTP_REQUEST_BLOB_V1");
    reveal_strlit("SINGULARITY_HTTP_RESPONSE_BLOB_V1");
    reveal_strlit("SINGULARITY_HTTP_SERVER_PROFILE_BLOB_V1");
    reveal_strlit("SINGULARITY_HTTP_TRAILER_HEADERS_BLOB_V1");
}


/// The tag that binds a payload, as sent, to its header.
pub open spec fn blob_tag(
    kind: BlobKind,
    nonce: Seq<u8>,
    algorithm: CompressionAlgorithm,
    raw_size: nat,
    payload: Seq<u8>,
) -> Seq<u8> {
    hmac_of(encode_utf8(context_of(kind)), blob_material(kind, nonce, algorithm, raw_size, payload))
}

/// What a tag is made over.
pub open spec fn blob_material(
    kind: BlobKind,
    nonce: Seq<u8>,
    algorithm: CompressionAlgorithm,
    raw_size: nat,
    payload: Seq<u8>,
) -> Seq<u8> {
    encode_utf8(context_of(kind)) + encode_utf8(coding_name(algorithm)) + be64(raw_size as u64) + nonce + payload
}

/// Computes the tag of a blob.
pub fn compute_blob_tag(
    kind: BlobKind,
    nonce: &[u8],
    algorithm: CompressionAlgorithm,
    raw_size: usize,
    payload: &[u8],
) -> (r: Vec<u8>)
    ensures
        r@ == blob_tag(kind, nonce@, algorithm, raw_size as nat, payload@),
        r@.len() == 32,
{
    let context = kind.context().as_bytes();
    let mut input = vstd::slice::slice_to_vec(context);
    push_bytes(&mut input, algorithm.content_encoding().as_bytes());
    push_be64(&mut input, raw_size as u64);
    push_bytes(&mut input, nonce);
    push_bytes(&mut input, payload);
    hmac_sha256(context, input.as_slice())
}

/// What a sealed blob's header says.
pub open spec fn sealed_meta(
    kind: BlobKind,
    raw: Seq<u8>,
    algorithm: CompressionAlgorithm,
    payload: Seq<u8>,
    nonce: Seq<u8>,
    issued_at: nat,
) -> MetaView {
    MetaView {
        algorithm,
        nonce: encoded(nonce),
        digest: encoded(sha256_of(raw)),
        tag: encoded(blob_tag(kind, nonce, algorithm, raw.len(), payload)),
        raw_size: raw.len(),
        encoded_size: payload.len(),
        issued_at,
    }
}

/// The lines of a blob header.
pub open spec fn blob_lines(kind: BlobKind, meta: MetaView) -> Seq<Seq<char>> {
    seq![magic_of(kind)] + field_lines(meta)
}

/// The payload in the form in which it is sent: as it is under the identity, else what the codec
/// made of it.
pub open spec fn payload_form(
    algorithm: CompressionAlgorithm,
    plain: Seq<u8>,
    coded: Option<Seq<u8>>,
) -> Option<Seq<u8>> {
    if algorithm == CompressionAlgorithm::Identity {
        Some(plain)
    } else {
        coded
    }
}

pub open spec fn opt_bytes(o: Option<&[u8]>) -> Option<Seq<u8>> {
    match o {
        Some(s) => Some(s@),
        None => None,
    }
}

/// The blob that holds `raw`; `coded` is what the codec of `algorithm` made of it, if it did.
pub open spec fn sealed(
    kind: BlobKind,
    raw: Seq<u8>,
    algorithm: CompressionAlgorithm,
    coded: Option<Seq<u8>>,
    nonce: Seq<u8>,
    issued_at: nat,
) -> Result<(MetaView, Seq<u8>), EnvelopeError> {
    let used = usable(algorithm);
    match payload_form(used, raw, coded) {
        Some(payload) => {
            let meta = sealed_meta(kind, raw, used, payload, nonce, issued_at);
            Ok((meta, enveloped(blob_lines(kind, meta), payload)))
        },
        None => Err(EnvelopeError::Codec),
    }
}

/// Seals `raw` in a blob. `coded` is the output of the codec of `algorithm` for `raw`, `None` where
/// the codec failed; it is not looked at under the identity.
pub fn seal(
    kind: BlobKind,
    raw: &[u8],
    algorithm: CompressionAlgorithm,
    coded: Option<&[u8]>,
    nonce: &[u8],
    issued_at_unix: u64,
) -> (r: Result<(EnvelopeMeta, Vec<u8>), EnvelopeError>)
    ensures
        contents(r) == sealed(
            kind,
            raw@,
            algorithm,
            opt_bytes(coded),
            nonce@,
            issued_at_unix as nat,
        ),
{
    let used = if algorithm.is_implemented() {
        algorithm
    } else {
        CompressionAlgorithm::Identity
    };
    let payload = if used == CompressionAlgorithm::Identity {
        raw
    } else {
        match coded {
            Some(c) => c,
            None => {
                return Err(EnvelopeError::Codec);
            },
        }
    };
    let digest = sha256(raw);
    let tag = compute_blob_tag(kind, nonce, used, raw.len(), payload);
    let meta = EnvelopeMeta {
        algorithm: used,
        nonce_b64: encode(nonce),
        digest_b64: encode(digest.as_slice()),
        tag_b64: encode(tag.as_slice()),
        raw_size: raw.len(),
        encoded_size: payload.len(),
        issued_at_unix,
    };
    let mut header = chars_of(kind.magic());
    header.push('\n');
    push_fields(&mut header, &meta);
    header.push('\n');
    let ghost l = blob_lines(kind, meta@);
    proof {
        lemma_ended_front(l);
        assert(l.skip(1) =~= field_lines(meta@));
        lemma_ended_joined(l);
        assert(header@ =~= ended(l) + seq!['\n']);
        assert(header@ =~= header_of(l) + seq!['\n', '\n']);
    }
    let blob = finish_envelope(header.as_slice(), payload);
    Ok((meta, blob))
}

/// A blob whose header is in order and whose tag fits.
pub struct Opened {
    pub meta: MetaView,
    pub body: Seq<u8>,
    pub digest: Seq<u8>,
}

/// What a blob holds before its payload is decoded.
pub open spec fn opened(kind: BlobKind, data: Seq<u8>) -> Result<Opened, EnvelopeError> {
    match parted(data, true) {
        Err(e) => Err(e),
        Ok((header, body)) => match header_meta(kind, header, body.len()) {
            Err(e) => Err(e),
            Ok(meta) => {
                let nonce = decoded(meta.nonce);
                let digest = decoded(meta.digest);
                let tag = decoded(meta.tag);
                if nonce is None {
                    Err(EnvelopeError::NonceEncoding)
                } else if digest is None {
                    Err(EnvelopeError::DigestEncoding)
                } else if tag is None {
                    Err(EnvelopeError::TagEncoding)
                } else if digest.unwrap().len() != 32 || tag.unwrap().len() != 32 {
                    Err(EnvelopeError::BadFieldLength)
                } else if blob_tag(kind, nonce.unwrap(), meta.algorithm, meta.raw_size, body)
                    != tag.unwrap() {
                    Err(EnvelopeError::TagMismatch)
                } else {
                    Ok(Opened { meta, body, digest: digest.unwrap() })
                }
            },
        },
    }
}

/// The header and the plain payload of a blob; `plain` is what the codec made of the payload.
pub open spec fn unsealed(kind: BlobKind, data: Seq<u8>, plain: Option<Seq<u8>>) -> Result<
    (MetaView, Seq<u8>),
    EnvelopeError,
> {
    match opened(kind, data) {
        Err(e) => Err(e),
        Ok(o) => match payload_form(o.meta.algorithm, o.body, plain) {
            None => Err(EnvelopeError::Codec),
            Some(raw) => if raw.len() != o.meta.raw_size {
                Err(EnvelopeError::RawSizeMismatch)
            } else if sha256_of(raw) != o.digest {
                Err(EnvelopeError::DigestMismatch)
            } else {
                Ok((o.meta, raw))
            },
        },
    }
}

/// Checks header and tag of a blob; gives the header, the payload as sent and the digest.
fn open_blob(kind: BlobKind, data: &[u8]) -> (r: Result<
    (EnvelopeMeta, &[u8], Vec<u8>),
    EnvelopeError,
>)
    ensures
        match r {
            Ok((meta, body, digest)) => opened(kind, data@) == Ok::<Opened, EnvelopeError>(
                Opened { meta: meta@, body: body@, digest: digest@ },
            ),
            Err(e) => opened(kind, data@) == Err::<Opened, EnvelopeError>(e),
        },
{
    let (header, body) = match split_header_body(data, true) {
        Ok(parts) => parts,
        Err(e) => {
            return Err(e);
        },
    };
    let meta = match parse_meta(kind, header.as_str(), body.len()) {
        Ok(meta) => meta,
        Err(e) => {
            return Err(e);
        },
    };
    let nonce = match decode(meta.nonce_b64.as_str()) {
        Some(b) => b,
        None => {
            return Err(EnvelopeError::NonceEncoding);
        },
    };
    let digest = match decode(meta.digest_b64.as_str()) {
        Some(b) => b,
        None => {
            return Err(EnvelopeError::DigestEncoding);
        },
    };
    let tag = match decode(meta.tag_b64.as_str()) {
        Some(b) => b,
        None => {
            return Err(EnvelopeError::TagEncoding);
        },
    };
    if digest.len() != 32 || tag.len() != 32 {
        return Err(EnvelopeError::BadFieldLength);
    }
    let expected = compute_blob_tag(kind, nonce.as_slice(), meta.algorithm, meta.raw_size, body);
    if !constant_time_eq(expected.as_slice(), tag.as_slice()) {
        return Err(EnvelopeError::TagMismatch);
    }
    Ok((meta, body, digest))
}

/// Unseals a blob. `plain` is the output of the codec for the payload, `None` where the codec
/// failed; it is not looked at under the identity.
pub fn unseal(kind: BlobKind, data: &[u8], plain: Option<&[u8]>) -> (r: Result<
    (EnvelopeMeta, Vec<u8>),
    EnvelopeError,
>)
    ensures
        contents(r) == unsealed(kind, data@, opt_bytes(plain)),
{
    let (meta, body, digest) = match open_blob(kind, data) {
        Ok(o) => o,
        Err(e) => {
            return Err(e);
        },
    };
    let raw = if meta.algorithm == CompressionAlgorithm::Identity {
        body
    } else {
        match plain {
            Some(p) => p,
            None => {
                return Err(EnvelopeError::Codec);
            },
        }
    };
    if raw.len() != meta.raw_size {
        return Err(EnvelopeError::RawSizeMismatch);
    }
    let actual = sha256(raw);
    if !constant_time_eq(actual.as_slice(), digest.as_slice()) {
        return Err(EnvelopeError::DigestMismatch);
    }
    Ok((meta, vstd::slice::slice_to_vec(raw)))
}


/// A written header is read back.
pub proof fn law_header_roundtrip(kind: BlobKind, m: MetaView)
    requires
        writable(m),
    ensures
        header_meta(kind, header_of(blob_lines(kind, m)), m.encoded_size) == Ok::<
            MetaView,
            EnvelopeError,
        >(m),
        forall|i: int|
            0 <= i < blob_lines(kind, m).len() ==> is_line(#[trigger] blob_lines(kind, m)[i])
                && is_ascii_chars(blob_lines(kind, m)[i]),
{
    let l = blob_lines(kind, m);
    lemma_magic(kind);
    lemma_tidy_line(magic_of(kind));
    lemma_field_lines(m);
    assert forall|i: int| 0 <= i < l.len() implies is_line(#[trigger] l[i]) && is_ascii_chars(l[i]) by {
        if i > 0 {
            assert(l[i] == field_lines(m)[i - 1]);
        }
    }
    lemma_lines_joined(l);
    lemma_pairs(kind, m);
    lemma_field_names();
    law_coding_names(m.algorithm);
    law_decimal_roundtrip(m.raw_size, usize::MAX as nat);
    law_decimal_roundtrip(m.encoded_size, usize::MAX as nat);
    law_decimal_roundtrip(m.issued_at, u64::MAX as nat);
    assert(("SHA-256="@ + m.digest).take("SHA-256="@.len() as int) =~= "SHA-256="@);
    assert(("SHA-256="@ + m.digest).skip("SHA-256="@.len() as int) =~= m.digest);
    assert(("HMAC-SHA-256="@ + m.tag).take("HMAC-SHA-256="@.len() as int) =~= "HMAC-SHA-256="@);
    assert(("HMAC-SHA-256="@ + m.tag).skip("HMAC-SHA-256="@.len() as int) =~= m.tag);
    reveal_with_fuel(first_fault, 8);
    reveal_with_fuel(last_value, 9);
}

/// The pairs in the lines of a header.
proof fn lemma_pairs(kind: BlobKind, m: MetaView)
    requires
        writable(m),
    ensures
        ({
            let l = blob_lines(kind, m);
            &&& l.len() == 8
            &&& l[0] == magic_of(kind)
            &&& pair_of(l[1]) == Some(("content-encoding"@, coding_name(m.algorithm)))
            &&& pair_of(l[2]) == Some(("nonce"@, m.nonce))
            &&& pair_of(l[3]) == Some(("digest"@, "SHA-256="@ + m.digest))
            &&& pair_of(l[4]) == Some(("tag"@, "HMAC-SHA-256="@ + m.tag))
            &&& pair_of(l[5]) == Some(("raw-size"@, decimal(m.raw_size)))
            &&& pair_of(l[6]) == Some(("encoded-size"@, decimal(m.encoded_size)))
            &&& pair_of(l[7]) == Some(("issued-at"@, decimal(m.issued_at)))
            &&& forall|i: int| 1 <= i < 8 ==> trimmed(#[trigger] l[i]).len() > 0
        }),
{
    let l = blob_lines(kind, m);
    let f = field_lines(m);
    reveal_strlit("content-encoding");
    reveal_strlit("nonce");
    reveal_strlit("digest");
    reveal_strlit("tag");
    reveal_strlit("raw-size");
    reveal_strlit("encoded-size");
    reveal_strlit("issued-at");
    reveal_strlit("content-encoding=");
    reveal_strlit("nonce=");
    reveal_strlit("digest=SHA-256=");
    reveal_strlit("tag=HMAC-SHA-256=");
    reveal_strlit("raw-size=");
    reveal_strlit("encoded-size=");
    reveal_strlit("issued-at=");
    reveal_strlit("SHA-256=");
    reveal_strlit("HMAC-SHA-256=");
    lemma_armoured_tidy(m.nonce);
    lemma_armoured_tidy(m.digest);
    lemma_armoured_tidy(m.tag);
    lemma_coding_tidy(m.algorithm);
    lemma_decimal_tidy(m.raw_size);
    lemma_decimal_tidy(m.encoded_size);
    lemma_decimal_tidy(m.issued_at);
    lemma_tidy_concat("SHA-256="@, m.digest);
    lemma_tidy_concat("HMAC-SHA-256="@, m.tag);
    assert("content-encoding="@ =~= "content-encoding"@ + seq!['=']);
    assert("nonce="@ =~= "nonce"@ + seq!['=']);
    assert("digest=SHA-256="@ =~= "digest"@ + seq!['='] + "SHA-256="@);
    assert("tag=HMAC-SHA-256="@ =~= "tag"@ + seq!['='] + "HMAC-SHA-256="@);
    assert("raw-size="@ =~= "raw-size"@ + seq!['=']);
    assert("encoded-size="@ =~= "encoded-size"@ + seq!['=']);
    assert("issued-at="@ =~= "issued-at"@ + seq!['=']);
    assert(l[1] == f[0] && l[2] == f[1] && l[3] == f[2] && l[4] == f[3] && l[5] == f[4] && l[6] == f[5]
        && l[7] == f[6]);
    lemma_pair(l[1], "content-encoding"@, coding_name(m.algorithm));
    lemma_pair(l[2], "nonce"@, m.nonce);
    assert(l[3] =~= "digest"@ + seq!['='] + ("SHA-256="@ + m.digest));
    lemma_pair(l[3], "digest"@, "SHA-256="@ + m.digest);
    assert(l[4] =~= "tag"@ + seq!['='] + ("HMAC-SHA-256="@ + m.tag));
    lemma_pair(l[4], "tag"@, "HMAC-SHA-256="@ + m.tag);
    lemma_pair(l[5], "raw-size"@, decimal(m.raw_size));
    lemma_pair(l[6], "encoded-size"@, decimal(m.encoded_size));
    lemma_pair(l[7], "issued-at"@, decimal(m.issued_at));
}

proof fn lemma_sealed_writable(
    kind: BlobKind,
    raw: Seq<u8>,
    algorithm: CompressionAlgorithm,
    payload: Seq<u8>,
    nonce: Seq<u8>,
    issued_at: nat,
)
    requires
        raw.len() <= usize::MAX,
        payload.len() <= usize::MAX,
        issued_at <= u64::MAX,
    ensures
        writable(sealed_meta(kind, raw, algorithm, payload, nonce, issued_at)),
{
    lemma_encoded_symbols(nonce);
    lemma_encoded_symbols(sha256_of(raw));
    lemma_encoded_symbols(blob_tag(kind, nonce, algorithm, raw.len(), payload));
}

/// What was sealed is unsealed: the header and the octets come back, given that the codec undoes
/// what it did.
pub proof fn law_blob_roundtrip(
    kind: BlobKind,
    raw: Seq<u8>,
    algorithm: CompressionAlgorithm,
    coded: Option<Seq<u8>>,
    nonce: Seq<u8>,
    issued_at: nat,
)
    requires
        raw.len() <= usize::MAX,
        coded matches Some(c) ==> c.len() <= usize::MAX,
        issued_at <= u64::MAX,
    ensures
        sealed(kind, raw, algorithm, coded, nonce, issued_at) matches Ok((meta, blob)) ==> unsealed(
            kind,
            blob,
            Some(raw),
        ) == Ok::<(MetaView, Seq<u8>), EnvelopeError>((meta, raw)),
{
    let used = usable(algorithm);
    if let Some(payload) = payload_form(used, raw, coded) {
        let meta = sealed_meta(kind, raw, used, payload, nonce, issued_at);
        lemma_sealed_writable(kind, raw, used, payload, nonce, issued_at);
        law_header_roundtrip(kind, meta);
        lemma_parted(blob_lines(kind, meta), payload, true);
        law_base64_roundtrip(nonce);
        law_base64_roundtrip(sha256_of(raw));
        law_base64_roundtrip(blob_tag(kind, nonce, used, raw.len(), payload));
        lemma_sha256_len(raw);
        let context = encode_utf8(context_of(kind));
        lemma_hmac_len(
            context,
            context + encode_utf8(coding_name(used)) + be64(raw.len() as u64) + nonce + payload,
        );
    }
}

/// A payload put in place of the sealed one is refused, unless its tag happens to be the same.
pub proof fn law_changed_payload_refused(
    kind: BlobKind,
    raw: Seq<u8>,
    algorithm: CompressionAlgorithm,
    payload: Seq<u8>,
    nonce: Seq<u8>,
    issued_at: nat,
    other: Seq<u8>,
    plain: Option<Seq<u8>>,
)
    requires
        raw.len() <= usize::MAX,
        payload.len() <= usize::MAX,
        issued_at <= u64::MAX,
        other.len() == payload.len(),
        blob_tag(kind, nonce, algorithm, raw.len(), other) != blob_tag(
            kind,
            nonce,
            algorithm,
            raw.len(),
            payload,
        ),
    ensures
        unsealed(
            kind,
            enveloped(
                blob_lines(kind, sealed_meta(kind, raw, algorithm, payload, nonce, issued_at)),
                other,
            ),
            plain,
        ) == Err::<(MetaView, Seq<u8>), EnvelopeError>(EnvelopeError::TagMismatch),
{
    let meta = sealed_meta(kind, raw, algorithm, payload, nonce, issued_at);
    lemma_sealed_writable(kind, raw, algorithm, payload, nonce, issued_at);
    law_header_roundtrip(kind, meta);
    lemma_parted(blob_lines(kind, meta), other, true);
    law_base64_roundtrip(nonce);
    law_base64_roundtrip(sha256_of(raw));
    law_base64_roundtrip(blob_tag(kind, nonce, algorithm, raw.len(), payload));
    lemma_sha256_len(raw);
    let context = encode_utf8(context_of(kind));
    lemma_hmac_len(
        context,
        context + encode_utf8(coding_name(algorithm)) + be64(raw.len() as u64) + nonce + payload,
    );
}

/// Magics of different kinds differ.
proof fn lemma_magics_differ(a: BlobKind, b: BlobKind)
    requires
        a != b,
    ensures
        magic_of(a) != magic_of(b),
{
    reveal_strlit("SINGULARITY_HTTP3_STREAM_BLOB_V1");
    reveal_strlit("SINGULARITY_HTTP3_CLIENT_PROFILE_BLOB_V1");
    reveal_strlit("SINGULARITY_HTTP_NEGOTIATION_BLOB_V1");
    reveal_strlit("SINGULARITY_HTTP_PARSER_RESPONSE_BLOB_V1");
    reveal_strlit("SINGULARITY_HTTP_REQUEST_BLOB_V1");
    reveal_strlit("SINGULARITY_HTTP_RESPONSE_BLOB_V1");
    reveal_strlit("SINGULARITY_HTTP_SERVER_PROFILE_BLOB_V1");
    reveal_strlit("SINGULARITY_HTTP_TRAILER_HEADERS_BLOB_V1");
    assert(magic_of(a).len() != magic_of(b).len() || magic_of(a)[16] != magic_of(b)[16]
        || magic_of(a)[17] != magic_of(b)[17] || magic_of(a)[18] != magic_of(b)[18]);
}

/// A blob of one kind is not taken for one of another.
pub proof fn law_kinds_kept_apart(
    kind: BlobKind,
    other: BlobKind,
    raw: Seq<u8>,
    algorithm: CompressionAlgorithm,
    coded: Option<Seq<u8>>,
    nonce: Seq<u8>,
    issued_at: nat,
    plain: Option<Seq<u8>>,
)
    requires
        kind != other,
        raw.len() <= usize::MAX,
        coded matches Some(c) ==> c.len() <= usize::MAX,
        issued_at <= u64::MAX,
    ensures
        sealed(kind, raw, algorithm, coded, nonce, issued_at) matches Ok((_, blob)) ==> unsealed(
            other,
            blob,
            plain,
        ) == Err::<(MetaView, Seq<u8>), EnvelopeError>(EnvelopeError::BadMagic),
{
    let used = usable(algorithm);
    if let Some(payload) = payload_form(used, raw, coded) {
        let meta = sealed_meta(kind, raw, used, payload, nonce, issued_at);
        lemma_sealed_writable(kind, raw, used, payload, nonce, issued_at);
        law_header_roundtrip(kind, meta);
        lemma_parted(blob_lines(kind, meta), payload, true);
        lemma_lines_joined(blob_lines(kind, meta));
        lemma_magics_differ(kind, other);
    }
}

/// What is unsealed has the size, the digest and the tag that its header states.
pub proof fn law_unsealed_is_vouched_for(kind: BlobKind, data: Seq<u8>, plain: Option<Seq<u8>>)
    ensures
        unsealed(kind, data, plain) matches Ok((meta, raw)) ==> {
            &&& raw.len() == meta.raw_size
            &&& decoded(meta.digest) == Some(sha256_of(raw))
            &&& parted(data, true) matches Ok((_, body))
            &&& body.len() == meta.encoded_size
            &&& decoded(meta.nonce) matches Some(nonce)
            &&& decoded(meta.tag) == Some(
                blob_tag(kind, nonce, meta.algorithm, meta.raw_size, body),
            )
        },
{
}

/// A blob ends in its payload: as it was under the identity, else as the codec made it. Its header tells the coding that
/// was asked for, the sizes, the nonce, and the digest. It fails only where a codec makes nothing.
pub proof fn law_sealed_payload(
    kind: BlobKind,
    raw: Seq<u8>,
    algorithm: CompressionAlgorithm,
    coded: Option<Seq<u8>>,
    nonce: Seq<u8>,
    issued_at: nat,
)
    ensures
        match sealed(kind, raw, algorithm, coded, nonce, issued_at) {
            Ok((meta, data)) => {
                &&& meta.algorithm == algorithm
                &&& algorithm == CompressionAlgorithm::Identity ==> ends_in(data, raw) && meta.encoded_size == raw.len()
                &&& algorithm != CompressionAlgorithm::Identity ==> (coded matches Some(c) && ends_in(data, c)
                    && meta.encoded_size == c.len())
                &&& meta.raw_size == raw.len()
                &&& decoded(meta.nonce) == Some(nonce) && decoded(meta.digest) == Some(sha256_of(raw))
                &&& meta.issued_at == issued_at
            },
            Err(e) => e == EnvelopeError::Codec && algorithm != CompressionAlgorithm::Identity && coded is None,
        },
{
    if let Ok((meta, data)) = sealed(kind, raw, algorithm, coded, nonce, issued_at) {
        let payload = payload_form(algorithm, raw, coded).unwrap();
        lemma_payload_at_end(blob_lines(kind, meta), payload, data, true);
        law_base64_roundtrip(nonce);
        law_base64_roundtrip(sha256_of(raw));
        law_base64_roundtrip(sha256_of(payload));
    }
}

/// What is taken out is what stands at the end, or what the codec made of that where the header names a coding.
pub proof fn law_unsealed_payload(kind: BlobKind, data: Seq<u8>, plain: Option<Seq<u8>>)
    ensures
        unsealed(kind, data, plain) matches Ok((meta, raw)) ==> {
            &&& meta.algorithm == CompressionAlgorithm::Identity ==> ends_in(data, raw)
            &&& meta.algorithm != CompressionAlgorithm::Identity ==> plain == Some(raw)
            &&& raw.len() == meta.raw_size
        },
{
    lemma_payload_at_end(seq![], seq![], data, true);
}

/// A tag binds all that it vouches for: what it is made over differs wherever the nonce, of one length, the coding, the
/// size or the payload does.
pub proof fn law_blob_tag_binds(
    kind: BlobKind,
    n: Seq<u8>,
    m: Seq<u8>,
    a: CompressionAlgorithm,
    b: CompressionAlgorithm,
    r: u64,
    s: u64,
    p: Seq<u8>,
    q: Seq<u8>,
)
    requires
        n.len() == m.len(),
    ensures
        blob_material(kind, n, a, r as nat, p) == blob_material(kind, m, b, s as nat, q) ==> n == m && a == b && r == s
            && p == q,
        blob_tag(kind, n, a, r as nat, p) == hmac_of(
            encode_utf8(context_of(kind)),
            blob_material(kind, n, a, r as nat, p),
        ),
{
    let c = encode_utf8(context_of(kind));
    let (x, y) = (encode_utf8(coding_name(a)), encode_utf8(coding_name(b)));
    lemma_be64_differ(r, s);
    lemma_be64_differ(s, r);
    lemma_coding_octets(a, b);
    lemma_coding_octets(b, a);
    if blob_material(kind, n, a, r as nat, p) == blob_material(kind, m, b, s as nat, q) {
        assert(blob_material(kind, n, a, r as nat, p) =~= c + (x + (be64(r) + (n + p))));
        assert(blob_material(kind, m, b, s as nat, q) =~= c + (y + (be64(s) + (m + q))));
        lemma_same_parts(c, c, x + (be64(r) + (n + p)), y + (be64(s) + (m + q)));
        assert((x + (be64(r) + (n + p)))[0] == x[0]);
        assert((y + (be64(s) + (m + q)))[0] == y[0]);
        lemma_same_parts(x, y, be64(r) + (n + p), be64(s) + (m + q));
        lemma_same_parts(be64(r), be64(s), n + p, m + q);
        lemma_same_parts(n, m, p, q);
    }
}

}
