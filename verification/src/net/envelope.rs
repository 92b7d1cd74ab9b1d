//! Sealed envelopes: a text header, an empty line, and a payload that the header vouches for.
//!
//! The header names the content coding, a nonce, the digest of the plain payload, an authentication
//! tag, both sizes and the time of issue. This module holds what all envelopes share.
use vstd::prelude::*;
use vstd::slice::slice_subrange;
use vstd::string::StringSliceAdditionalSpecFns;
use vstd::utf8::{
    decode_utf8, encode_utf8, encode_utf8_decode_utf8, encode_utf8_valid_utf8, is_ascii_chars,
    is_ascii_chars_encode_utf8, valid_utf8,
};

use crate::bytes::{find_bytes, push_bytes};
use crate::crypto::base64::{encoded, is_symbol};
use crate::decimal::{decimal, is_digit, lemma_decimal_digits, to_decimal};
use crate::net::http::compression::{coding_name, CompressionAlgorithm};
use crate::net::http::message::MessageError;
use crate::text::{
    ended, first_occurrence, is_line, is_white, joined, lemma_first_occurrence, lemma_no_blank_line,
    lemma_tidy_concat, lemma_tidy_line, occurs_at, push_line, string_of, tidy, utf8_text,
};

verus! {

/// Why an envelope is refused.
#[derive(Debug, Clone, Copy, PartialEq, Eq, Structural)]
pub enum EnvelopeError {
    MissingSeparator,
    HeaderNotUtf8,
    MissingMagic,
    BadMagic,
    MalformedLine,
    UnsupportedEncoding,
    BadDigest,
    BadTag,
    BadRawSize,
    BadEncodedSize,
    BadIssuedAt,
    MissingNonce,
    MissingDigest,
    MissingTag,
    MissingSecurityFields,
    MissingRawSize,
    MissingEncodedSize,
    MissingIssuedAt,
    EncodedSizeMismatch,
    IntegrityDisabled,
    NonceEncoding,
    DigestEncoding,
    TagEncoding,
    BadFieldLength,
    TagMismatch,
    Codec,
    RawSizeMismatch,
    DigestMismatch,
    BadPayload,
    /// The payload is no response; the fault says why.
    BadResponse(MessageError),
}

impl EnvelopeError {
    pub open spec fn text(&self) -> Seq<char> {
        match self {
            EnvelopeError::MissingSeparator => "header separator not found"@,
            EnvelopeError::HeaderNotUtf8 => "header is not valid UTF-8"@,
            EnvelopeError::MissingMagic => "magic missing"@,
            EnvelopeError::BadMagic => "magic mismatch"@,
            EnvelopeError::MalformedLine => "invalid header line"@,
            EnvelopeError::UnsupportedEncoding => "unsupported content-encoding"@,
            EnvelopeError::BadDigest => "invalid digest header"@,
            EnvelopeError::BadTag => "invalid tag header"@,
            EnvelopeError::BadRawSize => "invalid raw-size"@,
            EnvelopeError::BadEncodedSize => "invalid encoded-size"@,
            EnvelopeError::BadIssuedAt => "invalid issued-at"@,
            EnvelopeError::MissingNonce => "missing nonce"@,
            EnvelopeError::MissingDigest => "missing digest"@,
            EnvelopeError::MissingTag => "missing tag"@,
            EnvelopeError::MissingSecurityFields => "missing nonce, digest or tag"@,
            EnvelopeError::MissingRawSize => "missing raw-size"@,
            EnvelopeError::MissingEncodedSize => "missing encoded-size"@,
            EnvelopeError::MissingIssuedAt => "missing issued-at"@,
            EnvelopeError::EncodedSizeMismatch => "encoded-size mismatch"@,
            EnvelopeError::IntegrityDisabled => "integrity disabled"@,
            EnvelopeError::NonceEncoding => "invalid nonce encoding"@,
            EnvelopeError::DigestEncoding => "invalid digest encoding"@,
            EnvelopeError::TagEncoding => "invalid tag encoding"@,
            EnvelopeError::BadFieldLength => "digest or tag has invalid length"@,
            EnvelopeError::TagMismatch => "tag verification failed"@,
            EnvelopeError::Codec => "content coding failed"@,
            EnvelopeError::RawSizeMismatch => "raw-size mismatch"@,
            EnvelopeError::DigestMismatch => "digest verification failed"@,
            EnvelopeError::BadPayload => "invalid payload"@,
            EnvelopeError::BadResponse(_) => "invalid response payload"@,
        }
    }

    /// The error in words.
    pub fn message(&self) -> (r: &'static str)
        ensures
            r@ == self.text(),
    {
        match self {
            EnvelopeError::MissingSeparator => "header separator not found",
            EnvelopeError::HeaderNotUtf8 => "header is not valid UTF-8",
            EnvelopeError::MissingMagic => "magic missing",
            EnvelopeError::BadMagic => "magic mismatch",
            EnvelopeError::MalformedLine => "invalid header line",
            EnvelopeError::UnsupportedEncoding => "unsupported content-encoding",
            EnvelopeError::BadDigest => "invalid digest header",
            EnvelopeError::BadTag => "invalid tag header",
            EnvelopeError::BadRawSize => "invalid raw-size",
            EnvelopeError::BadEncodedSize => "invalid encoded-size",
            EnvelopeError::BadIssuedAt => "invalid issued-at",
            EnvelopeError::MissingNonce => "missing nonce",
            EnvelopeError::MissingDigest => "missing digest",
            EnvelopeError::MissingTag => "missing tag",
            EnvelopeError::MissingSecurityFields => "missing nonce, digest or tag",
            EnvelopeError::MissingRawSize => "missing raw-size",
            EnvelopeError::MissingEncodedSize => "missing encoded-size",
            EnvelopeError::MissingIssuedAt => "missing issued-at",
            EnvelopeError::EncodedSizeMismatch => "encoded-size mismatch",
            EnvelopeError::IntegrityDisabled => "integrity disabled",
            EnvelopeError::NonceEncoding => "invalid nonce encoding",
            EnvelopeError::DigestEncoding => "invalid digest encoding",
            EnvelopeError::TagEncoding => "invalid tag encoding",
            EnvelopeError::BadFieldLength => "digest or tag has invalid length",
            EnvelopeError::TagMismatch => "tag verification failed",
            EnvelopeError::Codec => "content coding failed",
            EnvelopeError::RawSizeMismatch => "raw-size mismatch",
            EnvelopeError::DigestMismatch => "digest verification failed",
            EnvelopeError::BadPayload => "invalid payload",
            EnvelopeError::BadResponse(_) => "invalid response payload",
        }
    }
}

/// What an envelope header says.
#[derive(Debug, Clone)]
pub struct EnvelopeMeta {
    pub algorithm: CompressionAlgorithm,
    pub nonce_b64: String,
    pub digest_b64: String,
    pub tag_b64: String,
    pub raw_size: usize,
    pub encoded_size: usize,
    pub issued_at_unix: u64,
}

/// The contents of an envelope header.
pub struct MetaView {
    pub algorithm: CompressionAlgorithm,
    pub nonce: Seq<char>,
    pub digest: Seq<char>,
    pub tag: Seq<char>,
    pub raw_size: nat,
    pub encoded_size: nat,
    pub issued_at: nat,
}

impl View for EnvelopeMeta {
    type V = MetaView;

    open spec fn view(&self) -> MetaView {
        MetaView {
            algorithm: self.algorithm,
            nonce: self.nonce_b64@,
            digest: self.digest_b64@,
            tag: self.tag_b64@,
            raw_size: self.raw_size as nat,
            encoded_size: self.encoded_size as nat,
            issued_at: self.issued_at_unix as nat,
        }
    }
}

/// An envelope's contents: its header and the plain payload.
pub open spec fn contents(
    r: Result<(EnvelopeMeta, Vec<u8>), EnvelopeError>,
) -> Result<(MetaView, Seq<u8>), EnvelopeError> {
    match r {
        Ok((meta, payload)) => Ok((meta@, payload@)),
        Err(e) => Err(e),
    }
}

/// The lines of a header, after the magic.
pub open spec fn field_lines(m: MetaView) -> Seq<Seq<char>> {
    seq![
        "content-encoding="@ + coding_name(m.algorithm),
        "nonce="@ + m.nonce,
        "digest=SHA-256="@ + m.digest,
        "tag=HMAC-SHA-256="@ + m.tag,
        "raw-size="@ + decimal(m.raw_size),
        "encoded-size="@ + decimal(m.encoded_size),
        "issued-at="@ + decimal(m.issued_at),
    ]
}

/// The text of a header made of lines.
pub open spec fn header_of(lines: Seq<Seq<char>>) -> Seq<char> {
    joined(lines, seq!['\n'])
}

/// A header made of lines, the empty line, and the payload.
pub open spec fn enveloped(lines: Seq<Seq<char>>, payload: Seq<u8>) -> Seq<u8> {
    encode_utf8(header_of(lines) + seq!['\n', '\n']) + payload
}

/// The header and the payload of an envelope. The first empty line ends the header. With `crlf`, an
/// envelope without an empty line may have one that is ended by carriage returns.
pub open spec fn parted(data: Seq<u8>, crlf: bool) -> Result<
    (Seq<char>, Seq<u8>),
    EnvelopeError,
> {
    match first_occurrence(data, seq![10u8, 10u8], 0) {
        Some(i) => part_at(data, i, 2),
        None => if crlf {
            match first_occurrence(data, seq![13u8, 10u8, 13u8, 10u8], 0) {
                Some(i) => part_at(data, i, 4),
                None => Err(EnvelopeError::MissingSeparator),
            }
        } else {
            Err(EnvelopeError::MissingSeparator)
        },
    }
}

pub open spec fn part_at(data: Seq<u8>, i: int, width: int) -> Result<
    (Seq<char>, Seq<u8>),
    EnvelopeError,
> {
    if valid_utf8(data.take(i)) {
        Ok((decode_utf8(data.take(i)), data.skip(i + width)))
    } else {
        Err(EnvelopeError::HeaderNotUtf8)
    }
}

fn split_at(data: &[u8], i: usize, width: usize) -> (r: Result<(String, &[u8]), EnvelopeError>)
    requires
        i + width <= data@.len(),
    ensures
        match r {
            Ok((header, body)) => part_at(data@, i as int, width as int) == Ok::<
                (Seq<char>, Seq<u8>),
                EnvelopeError,
            >((header@, body@)),
            Err(e) => part_at(data@, i as int, width as int) == Err::<
                (Seq<char>, Seq<u8>),
                EnvelopeError,
            >(e),
        },
{
    let head = slice_subrange(data, 0, i);
    assert(head@ =~= data@.take(i as int));
    match utf8_text(head) {
        Some(header) => {
            let end: usize = data.len();
            let body = slice_subrange(data, i + width, end);
            assert(body@ =~= data@.skip(i + width));
            Ok((header, body))
        },
        None => Err(EnvelopeError::HeaderNotUtf8),
    }
}

/// Parts an envelope into header and payload.
pub fn split_header_body(data: &[u8], crlf: bool) -> (r: Result<(String, &[u8]), EnvelopeError>)
    ensures
        match r {
            Ok((header, body)) => parted(data@, crlf) == Ok::<(Seq<char>, Seq<u8>), EnvelopeError>(
                (header@, body@),
            ),
            Err(e) => parted(data@, crlf) == Err::<(Seq<char>, Seq<u8>), EnvelopeError>(e),
        },
{
    let lf: [u8; 2] = [10, 10];
    let crlf_mark: [u8; 4] = [13, 10, 13, 10];
    assert(lf@ =~= seq![10u8, 10u8]);
    assert(crlf_mark@ =~= seq![13u8, 10u8, 13u8, 10u8]);
    match find_bytes(data, lf.as_slice()) {
        Some(i) => split_at(data, i, 2),
        None => {
            if crlf {
                match find_bytes(data, crlf_mark.as_slice()) {
                    Some(i) => split_at(data, i, 4),
                    None => Err(EnvelopeError::MissingSeparator),
                }
            } else {
                Err(EnvelopeError::MissingSeparator)
            }
        },
    }
}

/// Lines that follow others, with one more.
proof fn lemma_line_more(before: Seq<char>, l: Seq<Seq<char>>, k: int, name: Seq<char>, v: Seq<char>)
    requires
        0 <= k < l.len(),
        l[k] == name + v,
    ensures
        before + ended(l.take(k)) + name + v + seq!['\n'] == before + ended(l.take(k + 1)),
{
    assert(l.take(k + 1).drop_last() =~= l.take(k));
    assert(before + ended(l.take(k)) + name + v + seq!['\n'] =~= before + (ended(l.take(k)) + l[k] + seq!['\n']));
}

/// Appends the field lines of a header.
pub fn push_fields(out: &mut Vec<char>, meta: &EnvelopeMeta)
    ensures
        final(out)@ == old(out)@ + ended(field_lines(meta@)),
{
    let ghost before = out@;
    let ghost l = field_lines(meta@);
    assert(before + ended(l.take(0)) =~= before);
    let name = crate::text::chars_of(meta.algorithm.content_encoding());
    push_line(out, "content-encoding=", name.as_slice());
    proof {
        lemma_line_more(before, l, 0, "content-encoding="@, name@);
    }
    let nonce = crate::text::chars_of(meta.nonce_b64.as_str());
    push_line(out, "nonce=", nonce.as_slice());
    proof {
        lemma_line_more(before, l, 1, "nonce="@, nonce@);
    }
    let digest = crate::text::chars_of(meta.digest_b64.as_str());
    push_line(out, "digest=SHA-256=", digest.as_slice());
    proof {
        lemma_line_more(before, l, 2, "digest=SHA-256="@, digest@);
    }
    let tag = crate::text::chars_of(meta.tag_b64.as_str());
    push_line(out, "tag=HMAC-SHA-256=", tag.as_slice());
    proof {
        lemma_line_more(before, l, 3, "tag=HMAC-SHA-256="@, tag@);
    }
    let raw = to_decimal(meta.raw_size as u64);
    push_line(out, "raw-size=", raw.as_slice());
    proof {
        lemma_line_more(before, l, 4, "raw-size="@, raw@);
    }
    let enc = to_decimal(meta.encoded_size as u64);
    push_line(out, "encoded-size=", enc.as_slice());
    proof {
        lemma_line_more(before, l, 5, "encoded-size="@, enc@);
    }
    let issued = to_decimal(meta.issued_at_unix);
    push_line(out, "issued-at=", issued.as_slice());
    proof {
        lemma_line_more(before, l, 6, "issued-at="@, issued@);
    }
    assert(l.take(7) =~= l);
}

/// Turns header text into octets and appends the payload.
pub fn finish_envelope(header: &[char], payload: &[u8]) -> (r: Vec<u8>)
    ensures
        r@ == encode_utf8(header@) + payload@,
{
    let text = string_of(header);
    let mut out = vstd::slice::slice_to_vec(text.as_str().as_bytes());
    push_bytes(&mut out, payload);
    out
}

/// Joined lines of ASCII text part again into header and payload.
pub proof fn lemma_parted(lines: Seq<Seq<char>>, payload: Seq<u8>, crlf: bool)
    requires
        lines.len() > 0,
        forall|i: int| 0 <= i < lines.len() ==> is_line(#[trigger] lines[i]),
        forall|i: int| 0 <= i < lines.len() ==> is_ascii_chars(#[trigger] lines[i]),
    ensures
        parted(enveloped(lines, payload), crlf) == Ok::<(Seq<char>, Seq<u8>), EnvelopeError>(
            (header_of(lines), payload),
        ),
{
    let h = header_of(lines);
    let n = h.len() as int;
    let full = h + seq!['\n', '\n'];
    let data = enveloped(lines, payload);
    lemma_no_blank_line(lines);
    crate::text::lemma_joined_ascii(lines, seq!['\n']);
    is_ascii_chars_encode_utf8(h);
    is_ascii_chars_encode_utf8(full);
    let mark = seq![10u8, 10u8];
    assert(data.len() == n + 2 + payload.len());
    assert(data[n] == 10u8 && data[n + 1] == 10u8) by {
        assert(full[n] == '\n' && full[n + 1] == '\n');
        assert(encode_utf8(full)[n] == full[n] as u8);
        assert(encode_utf8(full)[n + 1] == full[n + 1] as u8);
    }
    assert(occurs_at(data, mark, n)) by {
        assert(data.subrange(n, n + 2) =~= mark);
    }
    assert forall|j: int| 0 <= j < n implies !occurs_at(data, mark, j) by {
        if occurs_at(data, mark, j) {
            assert(data.subrange(j, j + 2)[0] == 10u8);
            assert(data.subrange(j, j + 2)[1] == 10u8);
            assert(encode_utf8(full)[j] == full[j] as u8);
            assert(encode_utf8(full)[j + 1] == full[j + 1] as u8);
            assert(is_ascii_chars(full));
            assert(full[j] == '\n');
            assert(full[j + 1] == '\n');
            if j == n - 1 {
                assert(h.last() == '\n');
            } else {
                assert(h[j] == '\n' && h[j + 1] == '\n');
            }
        }
    }
    lemma_first_occurrence(data, mark, 0);
    assert(first_occurrence(data, mark, 0) == Some(n)) by {
        match first_occurrence(data, mark, 0) {
            Some(i) => {
                if i < n {
                    assert(!occurs_at(data, mark, i));
                } else if i > n {
                    assert(!occurs_at(data, mark, n));
                }
            },
            None => {
                assert(!occurs_at(data, mark, n));
            },
        }
    }
    assert(data.take(n) =~= encode_utf8(h)) by {
        assert forall|j: int| 0 <= j < n implies data[j] == encode_utf8(h)[j] by {
            assert(encode_utf8(full)[j] == full[j] as u8);
            assert(encode_utf8(h)[j] == h[j] as u8);
        }
    }
    assert(data.skip(n + 2) =~= payload);
    encode_utf8_valid_utf8(h);
    encode_utf8_decode_utf8(h);
}


/// Whether a text is made of Base64 characters.
pub open spec fn armoured(s: Seq<char>) -> bool {
    forall|i: int| 0 <= i < s.len() ==> is_symbol(#[trigger] s[i])
}

/// Whether a header can be written and read back: its fields are in Base64 and its numbers fit.
pub open spec fn writable(m: MetaView) -> bool {
    &&& armoured(m.nonce)
    &&& armoured(m.digest)
    &&& armoured(m.tag)
    &&& m.raw_size <= usize::MAX
    &&& m.encoded_size <= usize::MAX
    &&& m.issued_at <= u64::MAX
}

pub proof fn lemma_armoured_tidy(s: Seq<char>)
    requires
        armoured(s),
    ensures
        tidy(s),
{
    assert forall|i: int| 0 <= i < s.len() implies !is_white(#[trigger] s[i]) && s[i] as u32 <= 127 by {
        assert(is_symbol(s[i]));
    }
}

pub proof fn lemma_decimal_tidy(n: nat)
    ensures
        tidy(decimal(n)),
        decimal(n).len() > 0,
{
    lemma_decimal_digits(n);
    let s = decimal(n);
    assert forall|i: int| 0 <= i < s.len() implies !is_white(#[trigger] s[i]) && s[i] as u32 <= 127 by {
        assert(is_digit(s[i]));
    }
}

pub proof fn lemma_coding_tidy(a: CompressionAlgorithm)
    ensures
        tidy(coding_name(a)),
        coding_name(a).len() > 0,
{
    reveal_strlit("identity");
    reveal_strlit("gzip");
    reveal_strlit("deflate");
    reveal_strlit("br");
    reveal_strlit("zstd");
}

/// The names at the beginning of the header lines are tidy.
pub proof fn lemma_names_tidy()
    ensures
        tidy("content-encoding="@),
        tidy("nonce="@),
        tidy("digest=SHA-256="@),
        tidy("tag=HMAC-SHA-256="@),
        tidy("raw-size="@),
        tidy("encoded-size="@),
        tidy("issued-at="@),
        "content-encoding="@.len() > 0,
        "nonce="@.len() > 0,
        "digest=SHA-256="@.len() > 0,
        "tag=HMAC-SHA-256="@.len() > 0,
        "raw-size="@.len() > 0,
        "encoded-size="@.len() > 0,
        "issued-at="@.len() > 0,
{
    reveal_strlit("content-encoding=");
    reveal_strlit("nonce=");
    reveal_strlit("digest=SHA-256=");
    reveal_strlit("tag=HMAC-SHA-256=");
    reveal_strlit("raw-size=");
    reveal_strlit("encoded-size=");
    reveal_strlit("issued-at=");
}

/// The lines of a writable header are tidy lines of text.
pub proof fn lemma_field_lines(m: MetaView)
    requires
        writable(m),
    ensures
        forall|i: int|
            0 <= i < field_lines(m).len() ==> is_line(#[trigger] field_lines(m)[i]) && tidy(
                field_lines(m)[i],
            ),
{
    lemma_names_tidy();
    lemma_coding_tidy(m.algorithm);
    lemma_armoured_tidy(m.nonce);
    lemma_armoured_tidy(m.digest);
    lemma_armoured_tidy(m.tag);
    lemma_decimal_tidy(m.raw_size);
    lemma_decimal_tidy(m.encoded_size);
    lemma_decimal_tidy(m.issued_at);
    lemma_tidy_concat("content-encoding="@, coding_name(m.algorithm));
    lemma_tidy_concat("nonce="@, m.nonce);
    lemma_tidy_concat("digest=SHA-256="@, m.digest);
    lemma_tidy_concat("tag=HMAC-SHA-256="@, m.tag);
    lemma_tidy_concat("raw-size="@, decimal(m.raw_size));
    lemma_tidy_concat("encoded-size="@, decimal(m.encoded_size));
    lemma_tidy_concat("issued-at="@, decimal(m.issued_at));
    let l = field_lines(m);
    lemma_tidy_line(l[0]);
    lemma_tidy_line(l[1]);
    lemma_tidy_line(l[2]);
    lemma_tidy_line(l[3]);
    lemma_tidy_line(l[4]);
    lemma_tidy_line(l[5]);
    lemma_tidy_line(l[6]);
}


/// What an opened envelope holds, where its payload can be read as a value.
pub open spec fn carried<T>(
    opened: Result<(MetaView, Seq<u8>), EnvelopeError>,
    read: spec_fn(Seq<u8>) -> Option<T>,
) -> Result<(MetaView, T), EnvelopeError> {
    match opened {
        Err(e) => Err(e),
        Ok((meta, raw)) => match read(raw) {
            Some(v) => Ok((meta, v)),
            None => Err(EnvelopeError::BadPayload),
        },
    }
}

/// Whether octets stand at the end of others.
pub open spec fn ends_in(data: Seq<u8>, p: Seq<u8>) -> bool {
    p.len() <= data.len() && data.skip(data.len() - p.len()) == p
}

/// The payload of an envelope stands at its end.
pub proof fn lemma_payload_at_end(lines: Seq<Seq<char>>, payload: Seq<u8>, data: Seq<u8>, crlf: bool)
    ensures
        ends_in(enveloped(lines, payload), payload),
        parted(data, crlf) matches Ok((_, body)) ==> ends_in(data, body),
{
    let e = enveloped(lines, payload);
    assert(e.skip(e.len() - payload.len()) =~= payload);
    lemma_first_occurrence(data, seq![10u8, 10u8], 0);
    lemma_first_occurrence(data, seq![13u8, 10u8, 13u8, 10u8], 0);
    if let Ok((_, body)) = parted(data, crlf) {
        assert(data.skip(data.len() - body.len()) =~= body);
    }
}

}
