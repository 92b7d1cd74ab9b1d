//! Envelopes with a lenient header: lines `key=value` or `key: value` in which unknown keys, blank
//! lines and lines without a separator are passed over.
use vstd::prelude::*;
use vstd::slice::slice_subrange;
use vstd::string::StringSliceAdditionalSpecFns;
use vstd::utf8::{encode_utf8, is_ascii_chars};

use crate::bytes::{be64, constant_time_eq, lemma_be64_differ, lemma_same_parts, push_be64, push_bytes};
use crate::crypto::base64::{
    decode, decoded, encode, encoded, law_base64_roundtrip, lemma_encoded_symbols,
};
use crate::crypto::hmac::{hmac_of, hmac_sha256, lemma_hmac_len};
use crate::crypto::sha256::{lemma_sha256_len, sha256, sha256_of};
use crate::decimal::{decimal, law_decimal_roundtrip, parse_u64, parse_usize, parsed, to_decimal};
use crate::net::blob::{opt_bytes, payload_form};
use crate::net::envelope::{
    contents, ends_in, enveloped, field_lines, finish_envelope, header_of, lemma_armoured_tidy, lemma_coding_tidy,
    lemma_decimal_tidy, lemma_parted, lemma_payload_at_end, parted, push_fields, split_header_body, writable,
    EnvelopeError, EnvelopeMeta, MetaView,
};
use crate::net::http::compression::{
    coding_name, coding_named, law_coding_names, lemma_coding_octets, usable, CompressionAlgorithm,
};
use crate::text::{
    chars_of, ended, find, find_char, is_line, is_text, is_white, lacks, lemma_ended_front,
    lemma_ended_joined, lemma_find_is, lemma_lines_joined, lemma_tidy_concat, lemma_trimmed_solid, lines,
    lines_of, push_line, string_of, strip_prefix, texts, tidy, trim, trimmed, without_prefix,
};

verus! {

/// What an envelope holds.
#[derive(Debug, Clone, Copy, PartialEq, Eq, Structural)]
pub enum TicketKind {
    /// A protocol version.
    Version,
    /// A payload sent over TLS.
    HttpsPayload,
    /// The state of a client.
    HttpsState,
}

pub open spec fn ticket_magic(kind: TicketKind) -> Seq<char> {
    match kind {
        TicketKind::Version => "SINGULARITY_HTTP_VERSION_BLOB_V1"@,
        TicketKind::HttpsPayload => "SINGULARITY_HTTPS_SECURE_ENVELOPE_V1"@,
        TicketKind::HttpsState => "SINGULARITY_HTTPS_CLIENT_STATE_BLOB_V1"@,
    }
}

pub open spec fn ticket_context(kind: TicketKind) -> Seq<char> {
    match kind {
        TicketKind::Version => "SINGULARITY_HTTP_VERSION_BLOB_BINDING_V1"@,
        TicketKind::HttpsPayload => "SINGULARITY_HTTPS_SECURE_TAG_CTX_V1"@,
        TicketKind::HttpsState => "SINGULARITY_HTTPS_CLIENT_STATE_BINDING_V1"@,
    }
}

/// The character between key and value.
pub open spec fn separator(kind: TicketKind) -> char {
    match kind {
        TicketKind::Version => '=',
        _ => ':',
    }
}

impl TicketKind {
    pub fn magic(&self) -> (r: &'static str)
        ensures
            r@ == ticket_magic(*self),
    {
        match self {
            TicketKind::Version => "SINGULARITY_HTTP_VERSION_BLOB_V1",
            TicketKind::HttpsPayload => "SINGULARITY_HTTPS_SECURE_ENVELOPE_V1",
            TicketKind::HttpsState => "SINGULARITY_HTTPS_CLIENT_STATE_BLOB_V1",
        }
    }

    pub fn context(&self) -> (r: &'static str)
        ensures
            r@ == ticket_context(*self),
    {
        match self {
            TicketKind::Version => "SINGULARITY_HTTP_VERSION_BLOB_BINDING_V1",
            TicketKind::HttpsPayload => "SINGULARITY_HTTPS_SECURE_TAG_CTX_V1",
            TicketKind::HttpsState => "SINGULARITY_HTTPS_CLIENT_STATE_BINDING_V1",
        }
    }

    fn separator(&self) -> (r: char)
        ensures
            r == separator(*self),
    {
        match self {
            TicketKind::Version => '=',
            _ => ':',
        }
    }
}

/// What stands before the separator, or the whole line where there is none.
pub open spec fn loose_key(line: Seq<char>, sep: char) -> Seq<char> {
    match find(line, sep) {
        Some(i) => trimmed(line.take(i)),
        None => trimmed(line),
    }
}

/// What stands behind the separator, or nothing where there is none.
pub open spec fn loose_value(line: Seq<char>, sep: char) -> Seq<char> {
    match find(line, sep) {
        Some(i) => trimmed(line.skip(i + 1)),
        None => seq![],
    }
}

/// The value of `key` in the lines from `from` to `n`; the last one counts.
pub open spec fn loose_last(
    lines: Seq<Seq<char>>,
    sep: char,
    key: Seq<char>,
    from: int,
    n: int,
) -> Option<Seq<char>>
    decreases n - from,
{
    if n <= from {
        None
    } else if loose_key(lines[n - 1], sep) == key {
        Some(loose_value(lines[n - 1], sep))
    } else {
        loose_last(lines, sep, key, from, n - 1)
    }
}

/// Reads a line as key and value.
pub fn read_loose<'a>(line: &'a [char], sep: char) -> (r: (&'a [char], &'a [char]))
    ensures
        r.0@ == loose_key(line@, sep),
        r.1@ == loose_value(line@, sep),
{
    let end: usize = line.len();
    match find_char(line, sep) {
        Some(i) => {
            let key = trim(slice_subrange(line, 0, i));
            let value = trim(slice_subrange(line, i + 1, end));
            assert(line@.subrange(0, i as int) =~= line@.take(i as int));
            assert(line@.subrange(i + 1, end as int) =~= line@.skip(i + 1));
            (key, value)
        },
        None => {
            let value = slice_subrange(line, end, end);
            assert(value@ =~= seq![]);
            (trim(line), value)
        },
    }
}

/// The value of a key in the lines from `from` on.
pub fn loose_get<'a>(rows: &Vec<&'a [char]>, sep: char, key: &str, from: usize) -> (r: Option<
    &'a [char],
>)
    ensures
        match r {
            Some(v) => loose_last(texts(rows@), sep, key@, from as int, rows@.len() as int) == Some(v@),
            None => loose_last(texts(rows@), sep, key@, from as int, rows@.len() as int) is None,
        },
{
    let ghost all = texts(rows@);
    let mut n: usize = rows.len();
    while n > from
        invariant
            n <= rows@.len(),
            all == texts(rows@),
            loose_last(all, sep, key@, from as int, n as int) == loose_last(
                all,
                sep,
                key@,
                from as int,
                rows@.len() as int,
            ),
        decreases n,
    {
        assert(all[n - 1] == rows@[n - 1]@);
        let (k, v) = read_loose(rows[n - 1], sep);
        if is_text(k, key) {
            return Some(v);
        }
        n = n - 1;
    }
    None
}

/// Why a header line is refused, if it is.
pub open spec fn loose_fault(kind: TicketKind, line: Seq<char>) -> Option<EnvelopeError> {
    let key = loose_key(line, separator(kind));
    let value = loose_value(line, separator(kind));
    if key == "content-encoding"@ && coding_named(value) is None {
        Some(EnvelopeError::UnsupportedEncoding)
    } else if key == "raw-size"@ && parsed(value, usize::MAX as nat) is None {
        Some(EnvelopeError::BadRawSize)
    } else if key == "encoded-size"@ && parsed(value, usize::MAX as nat) is None {
        Some(EnvelopeError::BadEncodedSize)
    } else if kind == TicketKind::Version && key == "issued-at"@ && parsed(value, u64::MAX as nat) is None {
        Some(EnvelopeError::BadIssuedAt)
    } else {
        None
    }
}

/// The first reason to refuse a line from `from` on.
pub open spec fn first_loose_fault(kind: TicketKind, lines: Seq<Seq<char>>, from: int) -> Option<
    EnvelopeError,
>
    decreases lines.len() - from,
{
    if from < 0 || from >= lines.len() {
        None
    } else {
        match loose_fault(kind, lines[from]) {
            Some(e) => Some(e),
            None => first_loose_fault(kind, lines, from + 1),
        }
    }
}

/// A field's text; the name of the hash in front of it may be left out where it is written at all.
pub open spec fn bare(kind: TicketKind, value: Seq<char>, prefix: Seq<char>) -> Seq<char> {
    if kind == TicketKind::Version {
        match without_prefix(value, prefix) {
            Some(v) => v,
            None => value,
        }
    } else {
        value
    }
}

pub open spec fn loose_coding(kind: TicketKind, lines: Seq<Seq<char>>, n: int) -> CompressionAlgorithm {
    match loose_last(lines, separator(kind), "content-encoding"@, 1, n) {
        Some(v) => match coding_named(v) {
            Some(a) => a,
            None => CompressionAlgorithm::Identity,
        },
        None => CompressionAlgorithm::Identity,
    }
}

pub open spec fn loose_text(
    kind: TicketKind,
    lines: Seq<Seq<char>>,
    key: Seq<char>,
    prefix: Seq<char>,
    n: int,
) -> Seq<char> {
    match loose_last(lines, separator(kind), key, 1, n) {
        Some(v) => bare(kind, v, prefix),
        None => seq![],
    }
}

pub open spec fn loose_nonce(kind: TicketKind, lines: Seq<Seq<char>>, n: int) -> Seq<char> {
    match loose_last(lines, separator(kind), "nonce"@, 1, n) {
        Some(v) => v,
        None => seq![],
    }
}

pub open spec fn loose_number(
    kind: TicketKind,
    lines: Seq<Seq<char>>,
    key: Seq<char>,
    max: nat,
    n: int,
) -> Option<nat> {
    match loose_last(lines, separator(kind), key, 1, n) {
        Some(v) => parsed(v, max),
        None => None,
    }
}

/// The time of issue: a version's has to be given, a client state's is zero where it is not, a
/// payload has none.
pub open spec fn loose_issued(kind: TicketKind, lines: Seq<Seq<char>>, n: int) -> Option<nat> {
    let given = loose_number(kind, lines, "issued-at"@, u64::MAX as nat, n);
    match kind {
        TicketKind::Version => given,
        TicketKind::HttpsPayload => Some(0),
        TicketKind::HttpsState => if given is Some {
            given
        } else {
            Some(0)
        },
    }
}

/// What a header says about a payload of `body_len` octets.
pub open spec fn ticket_meta(kind: TicketKind, header: Seq<char>, body_len: nat) -> Result<
    MetaView,
    EnvelopeError,
> {
    let lines = lines_of(header);
    let n = lines.len() as int;
    let nonce = loose_nonce(kind, lines, n);
    let digest = loose_text(kind, lines, "digest"@, "SHA-256="@, n);
    let tag = loose_text(kind, lines, "tag"@, "HMAC-SHA-256="@, n);
    let raw = loose_number(kind, lines, "raw-size"@, usize::MAX as nat, n);
    let enc = loose_number(kind, lines, "encoded-size"@, usize::MAX as nat, n);
    let issued = loose_issued(kind, lines, n);
    if n == 0 {
        Err(EnvelopeError::MissingMagic)
    } else if lines[0] != ticket_magic(kind) {
        Err(EnvelopeError::BadMagic)
    } else if first_loose_fault(kind, lines, 1) is Some {
        Err(first_loose_fault(kind, lines, 1).unwrap())
    } else if nonce.len() == 0 || digest.len() == 0 || tag.len() == 0 {
        Err(EnvelopeError::MissingSecurityFields)
    } else if raw is None {
        Err(EnvelopeError::MissingRawSize)
    } else if enc is None {
        Err(EnvelopeError::MissingEncodedSize)
    } else if enc.unwrap() != body_len {
        Err(EnvelopeError::EncodedSizeMismatch)
    } else if issued is None {
        Err(EnvelopeError::MissingIssuedAt)
    } else {
        Ok(
            MetaView {
                algorithm: loose_coding(kind, lines, n),
                nonce,
                digest,
                tag,
                raw_size: raw.unwrap(),
                encoded_size: enc.unwrap(),
                issued_at: issued.unwrap(),
            },
        )
    }
}

/// The header fields met so far.
struct LooseFields<'a> {
    algorithm: CompressionAlgorithm,
    nonce: Option<&'a [char]>,
    digest: Option<&'a [char]>,
    tag: Option<&'a [char]>,
    raw_size: Option<usize>,
    encoded_size: Option<usize>,
    issued_at: Option<u64>,
}

spec fn text_or_none(o: Option<&[char]>) -> Seq<char> {
    match o {
        Some(s) => s@,
        None => seq![],
    }
}

spec fn opt_size(o: Option<usize>) -> Option<nat> {
    match o {
        Some(n) => Some(n as nat),
        None => None,
    }
}

spec fn opt_time(o: Option<u64>) -> Option<nat> {
    match o {
        Some(n) => Some(n as nat),
        None => None,
    }
}

impl<'a> LooseFields<'a> {
    spec fn holds(&self, kind: TicketKind, lines: Seq<Seq<char>>, n: int) -> bool {
        &&& self.algorithm == loose_coding(kind, lines, n)
        &&& text_or_none(self.nonce) == loose_nonce(kind, lines, n)
        &&& text_or_none(self.digest) == loose_text(kind, lines, "digest"@, "SHA-256="@, n)
        &&& text_or_none(self.tag) == loose_text(kind, lines, "tag"@, "HMAC-SHA-256="@, n)
        &&& opt_size(self.raw_size) == loose_number(kind, lines, "raw-size"@, usize::MAX as nat, n)
        &&& opt_size(self.encoded_size) == loose_number(
            kind,
            lines,
            "encoded-size"@,
            usize::MAX as nat,
            n,
        )
        &&& opt_time(self.issued_at) == loose_number(kind, lines, "issued-at"@, u64::MAX as nat, n)
    }
}

/// The names of the fields differ from each other.
proof fn lemma_field_names()
    ensures
        "content-encoding"@.len() == 16,
        "nonce"@.len() == 5,
        "digest"@.len() == 6,
        "tag"@.len() == 3,
        "raw-size"@.len() == 8,
        "encoded-size"@.len() == 12,
        "issued-at"@.len() == 9,
{
    reveal_strlit("content-encoding");
    reveal_strlit("nonce");
    reveal_strlit("digest");
    reveal_strlit("tag");
    reveal_strlit("raw-size");
    reveal_strlit("encoded-size");
    reveal_strlit("issued-at");
}

fn bare_of<'a>(kind: TicketKind, value: &'a [char], prefix: &str) -> (r: &'a [char])
    ensures
        r@ == bare(kind, value@, prefix@),
{
    if kind == TicketKind::Version {
        match strip_prefix(value, prefix) {
            Some(v) => v,
            None => value,
        }
    } else {
        value
    }
}

/// Takes in one header line.
fn take_line<'a>(
    fields: &mut LooseFields<'a>,
    kind: TicketKind,
    line: &'a [char],
    Ghost(lines): Ghost<Seq<Seq<char>>>,
    Ghost(n): Ghost<int>,
) -> (r: Result<(), EnvelopeError>)
    requires
        1 <= n < lines.len(),
        lines[n] == line@,
        old(fields).holds(kind, lines, n),
    ensures
        match r {
            Ok(()) => loose_fault(kind, line@) is None && final(fields).holds(kind, lines, n + 1),
            Err(e) => loose_fault(kind, line@) == Some(e),
        },
{
    proof {
        lemma_field_names();
    }
    let (key, value) = read_loose(line, kind.separator());
    if is_text(key, "content-encoding") {
        match CompressionAlgorithm::from_chars(value) {
            Some(a) => {
                fields.algorithm = a;
                Ok(())
            },
            None => Err(EnvelopeError::UnsupportedEncoding),
        }
    } else if is_text(key, "nonce") {
        fields.nonce = Some(value);
        Ok(())
    } else if is_text(key, "digest") {
        fields.digest = Some(bare_of(kind, value, "SHA-256="));
        Ok(())
    } else if is_text(key, "tag") {
        fields.tag = Some(bare_of(kind, value, "HMAC-SHA-256="));
        Ok(())
    } else if is_text(key, "raw-size") {
        match parse_usize(value) {
            Some(v) => {
                fields.raw_size = Some(v);
                Ok(())
            },
            None => Err(EnvelopeError::BadRawSize),
        }
    } else if is_text(key, "encoded-size") {
        match parse_usize(value) {
            Some(v) => {
                fields.encoded_size = Some(v);
                Ok(())
            },
            None => Err(EnvelopeError::BadEncodedSize),
        }
    } else if is_text(key, "issued-at") {
        fields.issued_at = parse_u64(value);
        if kind == TicketKind::Version && fields.issued_at.is_none() {
            Err(EnvelopeError::BadIssuedAt)
        } else {
            Ok(())
        }
    } else {
        Ok(())
    }
}

fn is_absent(field: Option<&[char]>) -> (r: bool)
    ensures
        r == (text_or_none(field).len() == 0),
{
    match field {
        Some(s) => s.len() == 0,
        None => true,
    }
}

fn owned(field: Option<&[char]>) -> (r: String)
    ensures
        r@ == text_or_none(field),
{
    match field {
        Some(s) => string_of(s),
        None => {
            let r = string_of(&[]);
            assert(r@ =~= seq![]);
            r
        },
    }
}

/// Reads a header.
pub fn parse_ticket_meta(kind: TicketKind, header: &str, body_len: usize) -> (r: Result<
    EnvelopeMeta,
    EnvelopeError,
>)
    ensures
        match r {
            Ok(meta) => ticket_meta(kind, header@, body_len as nat) == Ok::<MetaView, EnvelopeError>(
                meta@,
            ),
            Err(e) => ticket_meta(kind, header@, body_len as nat) == Err::<MetaView, EnvelopeError>(
                e,
            ),
        },
{
    let text = chars_of(header);
    let rows = lines(text.as_slice());
    let ghost all = lines_of(header@);
    assert(texts(rows@) == all);
    if rows.len() == 0 {
        return Err(EnvelopeError::MissingMagic);
    }
    assert(all[0] == rows@[0]@);
    if !is_text(rows[0], kind.magic()) {
        return Err(EnvelopeError::BadMagic);
    }
    let mut fields = LooseFields {
        algorithm: CompressionAlgorithm::Identity,
        nonce: None,
        digest: None,
        tag: None,
        raw_size: None,
        encoded_size: None,
        issued_at: None,
    };
    let mut i: usize = 1;
    while i < rows.len()
        invariant
            1 <= i <= rows@.len(),
            texts(rows@) == all,
            all == lines_of(header@),
            all.len() > 0,
            all[0] == ticket_magic(kind),
            fields.holds(kind, all, i as int),
            first_loose_fault(kind, all, i as int) == first_loose_fault(kind, all, 1),
        decreases rows@.len() - i,
    {
        assert(all[i as int] == rows@[i as int]@);
        match take_line(&mut fields, kind, rows[i], Ghost(all), Ghost(i as int)) {
            Ok(()) => {},
            Err(e) => {
                return Err(e);
            },
        }
        i = i + 1;
    }
    assert(first_loose_fault(kind, all, 1) is None);
    if is_absent(fields.nonce) || is_absent(fields.digest) || is_absent(fields.tag) {
        return Err(EnvelopeError::MissingSecurityFields);
    }
    let raw_size = match fields.raw_size {
        Some(v) => v,
        None => {
            return Err(EnvelopeError::MissingRawSize);
        },
    };
    let encoded_size = match fields.encoded_size {
        Some(v) => v,
        None => {
            return Err(EnvelopeError::MissingEncodedSize);
        },
    };
    if encoded_size != body_len {
        return Err(EnvelopeError::EncodedSizeMismatch);
    }
    let issued_at_unix = match (kind, fields.issued_at) {
        (TicketKind::HttpsPayload, _) => 0,
        (_, Some(t)) => t,
        (TicketKind::HttpsState, None) => 0,
        (TicketKind::Version, None) => {
            return Err(EnvelopeError::MissingIssuedAt);
        },
    };
    Ok(
        EnvelopeMeta {
            algorithm: fields.algorithm,
            nonce_b64: owned(fields.nonce),
            digest_b64: owned(fields.digest),
            tag_b64: owned(fields.tag),
            raw_size,
            encoded_size,
            issued_at_unix,
        },
    )
}


/// What the tags of HTTPS envelopes cover.
pub open spec fn tag_material(
    kind: TicketKind,
    nonce: Seq<u8>,
    algorithm: CompressionAlgorithm,
    raw_size: nat,
    payload: Seq<u8>,
) -> Seq<u8> {
    encode_utf8(ticket_context(kind)) + nonce + be64(raw_size as u64) + encode_utf8(
        coding_name(algorithm),
    ) + seq![10u8] + be64(payload.len() as u64) + payload
}

/// What the key of the tag of a version is made of.
pub open spec fn ticket_key_material(
    kind: TicketKind,
    nonce: Seq<u8>,
    algorithm: CompressionAlgorithm,
    raw_size: nat,
) -> Seq<u8> {
    encode_utf8(ticket_context(kind)) + nonce + encode_utf8(coding_name(algorithm)) + be64(raw_size as u64)
}

/// What the tag of a version is made over.
pub open spec fn ticket_message(kind: TicketKind, payload: Seq<u8>) -> Seq<u8> {
    encode_utf8(ticket_magic(kind)) + be64(payload.len() as u64) + payload
}

/// The tag that binds a payload, as sent, to its header.
pub open spec fn ticket_tag(
    kind: TicketKind,
    nonce: Seq<u8>,
    algorithm: CompressionAlgorithm,
    raw_size: nat,
    payload: Seq<u8>,
) -> Seq<u8> {
    let context = encode_utf8(ticket_context(kind));
    match kind {
        TicketKind::Version => hmac_of(
            sha256_of(ticket_key_material(kind, nonce, algorithm, raw_size)),
            ticket_message(kind, payload),
        ),
        TicketKind::HttpsPayload => sha256_of(
            tag_material(kind, nonce, algorithm, raw_size, payload),
        ),
        TicketKind::HttpsState => hmac_of(
            context,
            tag_material(kind, nonce, algorithm, raw_size, payload),
        ),
    }
}

/// Computes the tag of an envelope.
pub fn compute_ticket_tag(
    kind: TicketKind,
    nonce: &[u8],
    algorithm: CompressionAlgorithm,
    raw_size: usize,
    payload: &[u8],
) -> (r: Vec<u8>)
    ensures
        r@ == ticket_tag(kind, nonce@, algorithm, raw_size as nat, payload@),
        r@.len() == 32,
{
    let context = kind.context().as_bytes();
    let mut material = vstd::slice::slice_to_vec(context);
    push_bytes(&mut material, nonce);
    match kind {
        TicketKind::Version => {
            push_bytes(&mut material, algorithm.content_encoding().as_bytes());
            push_be64(&mut material, raw_size as u64);
            let key = sha256(material.as_slice());
            let mut signed = vstd::slice::slice_to_vec(kind.magic().as_bytes());
            push_be64(&mut signed, payload.len() as u64);
            push_bytes(&mut signed, payload);
            hmac_sha256(key.as_slice(), signed.as_slice())
        },
        _ => {
            push_be64(&mut material, raw_size as u64);
            push_bytes(&mut material, algorithm.content_encoding().as_bytes());
            material.push(10);
            push_be64(&mut material, payload.len() as u64);
            push_bytes(&mut material, payload);
            assert(material@ =~= tag_material(kind, nonce@, algorithm, raw_size as nat, payload@));
            if kind == TicketKind::HttpsPayload {
                sha256(material.as_slice())
            } else {
                hmac_sha256(context, material.as_slice())
            }
        },
    }
}

/// The octets that the digest is taken of: the plain ones, but for a payload sent over TLS those that
/// are sent.
pub open spec fn digested(kind: TicketKind, raw: Seq<u8>, payload: Seq<u8>) -> Seq<u8> {
    if kind == TicketKind::HttpsPayload {
        payload
    } else {
        raw
    }
}

/// The time of issue that a header can hold.
pub open spec fn issue_kept(kind: TicketKind, issued_at: nat) -> nat {
    if kind == TicketKind::HttpsPayload {
        0
    } else {
        issued_at
    }
}

/// What the header of an envelope made by sealing says.
pub open spec fn ticket_sealed_meta(
    kind: TicketKind,
    raw: Seq<u8>,
    algorithm: CompressionAlgorithm,
    payload: Seq<u8>,
    nonce: Seq<u8>,
    issued_at: nat,
) -> MetaView {
    MetaView {
        algorithm,
        nonce: encoded(nonce),
        digest: encoded(sha256_of(digested(kind, raw, payload))),
        tag: encoded(ticket_tag(kind, nonce, algorithm, raw.len(), payload)),
        raw_size: raw.len(),
        encoded_size: payload.len(),
        issued_at: issue_kept(kind, issued_at),
    }
}

/// The header lines of an HTTPS envelope, after the magic and without the time of issue.
pub open spec fn colon_lines(m: MetaView) -> Seq<Seq<char>> {
    seq![
        "content-encoding: "@ + coding_name(m.algorithm),
        "nonce: "@ + m.nonce,
        "digest: "@ + m.digest,
        "tag: "@ + m.tag,
        "raw-size: "@ + decimal(m.raw_size),
        "encoded-size: "@ + decimal(m.encoded_size),
    ]
}

pub open spec fn ticket_lines(kind: TicketKind, m: MetaView) -> Seq<Seq<char>> {
    match kind {
        TicketKind::Version => seq![ticket_magic(kind)] + field_lines(m),
        TicketKind::HttpsPayload => seq![ticket_magic(kind)] + colon_lines(m),
        TicketKind::HttpsState => seq![ticket_magic(kind)] + colon_lines(m).push(
            "issued-at: "@ + decimal(m.issued_at),
        ),
    }
}

/// The envelope that holds `raw`; `coded` is what the codec of `algorithm` made of it, if it did.
pub open spec fn ticket_sealed(
    kind: TicketKind,
    raw: Seq<u8>,
    algorithm: CompressionAlgorithm,
    coded: Option<Seq<u8>>,
    nonce: Seq<u8>,
    issued_at: nat,
) -> Result<(MetaView, Seq<u8>), EnvelopeError> {
    let used = usable(algorithm);
    match payload_form(used, raw, coded) {
        Some(payload) => {
            let meta = ticket_sealed_meta(kind, raw, used, payload, nonce, issued_at);
            Ok((meta, enveloped(ticket_lines(kind, meta), payload)))
        },
        None => Err(EnvelopeError::Codec),
    }
}

/// Appends the header lines of an HTTPS envelope.
fn push_colon_lines(out: &mut Vec<char>, kind: TicketKind, meta: &EnvelopeMeta)
    requires
        kind != TicketKind::Version,
        old(out)@ == ended(seq![ticket_magic(kind)]),
    ensures
        final(out)@ == ended(ticket_lines(kind, meta@)),
{
    let ghost l = ticket_lines(kind, meta@);
    proof {
        assert(l.take(1) =~= seq![ticket_magic(kind)]);
        assert(l.take(2).drop_last() =~= l.take(1));
        assert(l.take(3).drop_last() =~= l.take(2));
        assert(l.take(4).drop_last() =~= l.take(3));
        assert(l.take(5).drop_last() =~= l.take(4));
        assert(l.take(6).drop_last() =~= l.take(5));
        assert(l.take(7).drop_last() =~= l.take(6));
        assert(l[1] == colon_lines(meta@)[0] && l[2] == colon_lines(meta@)[1]);
        assert(l[3] == colon_lines(meta@)[2] && l[4] == colon_lines(meta@)[3]);
        assert(l[5] == colon_lines(meta@)[4] && l[6] == colon_lines(meta@)[5]);
    }
    let name = chars_of(meta.algorithm.content_encoding());
    push_line(out, "content-encoding: ", name.as_slice());
    assert(out@ == ended(l.take(2)));
    let nonce = chars_of(meta.nonce_b64.as_str());
    push_line(out, "nonce: ", nonce.as_slice());
    assert(out@ == ended(l.take(3)));
    let digest = chars_of(meta.digest_b64.as_str());
    push_line(out, "digest: ", digest.as_slice());
    assert(out@ == ended(l.take(4)));
    let tag = chars_of(meta.tag_b64.as_str());
    push_line(out, "tag: ", tag.as_slice());
    assert(out@ == ended(l.take(5)));
    let raw = to_decimal(meta.raw_size as u64);
    push_line(out, "raw-size: ", raw.as_slice());
    assert(out@ == ended(l.take(6)));
    let enc = to_decimal(meta.encoded_size as u64);
    push_line(out, "encoded-size: ", enc.as_slice());
    assert(out@ == ended(l.take(7)));
    if kind == TicketKind::HttpsState {
        let issued = to_decimal(meta.issued_at_unix);
        push_line(out, "issued-at: ", issued.as_slice());
        assert(l.drop_last() =~= l.take(7));
        assert(l.last() == "issued-at: "@ + decimal(meta@.issued_at));
    } else {
        assert(l.take(7) =~= l);
    }
}

/// Seals a payload. `coded` is the output of the codec of `algorithm` for `raw`, `None` where the
/// codec failed; it is not looked at under the identity.
pub fn seal_ticket(
    kind: TicketKind,
    raw: &[u8],
    algorithm: CompressionAlgorithm,
    coded: Option<&[u8]>,
    nonce: &[u8],
    issued_at_unix: u64,
) -> (r: Result<(EnvelopeMeta, Vec<u8>), EnvelopeError>)
    ensures
        contents(r) == ticket_sealed(
            kind,
            raw@,
            algorithm,
            opt_bytes(coded),
            nonce@,
            issued_at_unix as nat,
        ),
{
    let used = if algorithm.is_implemented() {
        algorithm
    } else {
        CompressionAlgorithm::Identity
    };
    let payload = if used == CompressionAlgorithm::Identity {
        raw
    } else {
        match coded {
            Some(c) => c,
            None => {
                return Err(EnvelopeError::Codec);
            },
        }
    };
    let digest = if kind == TicketKind::HttpsPayload {
        sha256(payload)
    } else {
        sha256(raw)
    };
    let tag = compute_ticket_tag(kind, nonce, used, raw.len(), payload);
    let meta = EnvelopeMeta {
        algorithm: used,
        nonce_b64: encode(nonce),
        digest_b64: encode(digest.as_slice()),
        tag_b64: encode(tag.as_slice()),
        raw_size: raw.len(),
        encoded_size: payload.len(),
        issued_at_unix: if kind == TicketKind::HttpsPayload {
            0
        } else {
            issued_at_unix
        },
    };
    let mut header = chars_of(kind.magic());
    header.push('\n');
    let ghost l = ticket_lines(kind, meta@);
    proof {
        assert(seq![ticket_magic(kind)].drop_last() =~= seq![]);
        assert(header@ =~= ended(seq![ticket_magic(kind)])) by {
            reveal_with_fuel(ended, 2);
        }
        lemma_ended_front(l);
    }
    if kind == TicketKind::Version {
        push_fields(&mut header, &meta);
        assert(l.skip(1) =~= field_lines(meta@));
        assert(header@ =~= ended(l));
    } else {
        push_colon_lines(&mut header, kind, &meta);
    }
    header.push('\n');
    proof {
        lemma_ended_joined(l);
        assert(header@ =~= header_of(l) + seq!['\n', '\n']);
    }
    let blob = finish_envelope(header.as_slice(), payload);
    Ok((meta, blob))
}

/// The header and the plain payload of an envelope; `plain` is what the codec made of the payload.
pub open spec fn ticket_unsealed(kind: TicketKind, data: Seq<u8>, plain: Option<Seq<u8>>) -> Result<
    (MetaView, Seq<u8>),
    EnvelopeError,
> {
    match parted(data, false) {
        Err(e) => Err(e),
        Ok((header, body)) => match ticket_meta(kind, header, body.len()) {
            Err(e) => Err(e),
            Ok(meta) => {
                let form = payload_form(meta.algorithm, body, plain);
                match seals_fault(kind, meta, body) {
                    Some(e) => Err(e),
                    None => match form {
                        None => Err(EnvelopeError::Codec),
                        Some(raw) => if raw.len() != meta.raw_size {
                            Err(EnvelopeError::RawSizeMismatch)
                        } else if kind != TicketKind::HttpsPayload && decoded(meta.digest) != Some(
                            sha256_of(raw),
                        ) {
                            Err(EnvelopeError::DigestMismatch)
                        } else {
                            Ok((meta, raw))
                        },
                    },
                }
            },
        },
    }
}

/// Why the payload, as sent, does not go with its header, if it does not.
pub open spec fn seals_fault(kind: TicketKind, meta: MetaView, body: Seq<u8>) -> Option<
    EnvelopeError,
> {
    let nonce = decoded(meta.nonce);
    let digest = decoded(meta.digest);
    let tag = decoded(meta.tag);
    if kind == TicketKind::HttpsPayload && digest is None {
        Some(EnvelopeError::DigestEncoding)
    } else if kind == TicketKind::HttpsPayload && digest.unwrap() != sha256_of(body) {
        Some(EnvelopeError::DigestMismatch)
    } else if nonce is None {
        Some(EnvelopeError::NonceEncoding)
    } else if digest is None {
        Some(EnvelopeError::DigestEncoding)
    } else if tag is None {
        Some(EnvelopeError::TagEncoding)
    } else if kind == TicketKind::HttpsState && (digest.unwrap().len() != 32 || tag.unwrap().len()
        != 32) {
        Some(EnvelopeError::BadFieldLength)
    } else if tag.unwrap() != ticket_tag(kind, nonce.unwrap(), meta.algorithm, meta.raw_size, body) {
        Some(EnvelopeError::TagMismatch)
    } else {
        None
    }
}

/// Holds the payload, as sent, against its header.
fn check_seals(kind: TicketKind, meta: &EnvelopeMeta, body: &[u8]) -> (r: Result<
    Vec<u8>,
    EnvelopeError,
>)
    ensures
        match r {
            Ok(digest) => seals_fault(kind, meta@, body@) is None && decoded(meta@.digest) == Some(
                digest@,
            ),
            Err(e) => seals_fault(kind, meta@, body@) == Some(e),
        },
{
    let digest = decode(meta.digest_b64.as_str());
    if kind == TicketKind::HttpsPayload {
        match &digest {
            Some(d) => {
                let actual = sha256(body);
                if !constant_time_eq(d.as_slice(), actual.as_slice()) {
                    return Err(EnvelopeError::DigestMismatch);
                }
            },
            None => {
                return Err(EnvelopeError::DigestEncoding);
            },
        }
    }
    let nonce = match decode(meta.nonce_b64.as_str()) {
        Some(b) => b,
        None => {
            return Err(EnvelopeError::NonceEncoding);
        },
    };
    let digest = match digest {
        Some(b) => b,
        None => {
            return Err(EnvelopeError::DigestEncoding);
        },
    };
    let tag = match decode(meta.tag_b64.as_str()) {
        Some(b) => b,
        None => {
            return Err(EnvelopeError::TagEncoding);
        },
    };
    if kind == TicketKind::HttpsState && (digest.len() != 32 || tag.len() != 32) {
        return Err(EnvelopeError::BadFieldLength);
    }
    let expected = compute_ticket_tag(kind, nonce.as_slice(), meta.algorithm, meta.raw_size, body);
    if !constant_time_eq(tag.as_slice(), expected.as_slice()) {
        return Err(EnvelopeError::TagMismatch);
    }
    Ok(digest)
}

/// Unseals a payload. `plain` is the output of the codec for the payload as sent, `None` where the
/// codec failed; it is not looked at under the identity.
pub fn unseal_ticket(kind: TicketKind, data: &[u8], plain: Option<&[u8]>) -> (r: Result<
    (EnvelopeMeta, Vec<u8>),
    EnvelopeError,
>)
    ensures
        contents(r) == ticket_unsealed(kind, data@, opt_bytes(plain)),
{
    let (header, body) = match split_header_body(data, false) {
        Ok(parts) => parts,
        Err(e) => {
            return Err(e);
        },
    };
    let meta = match parse_ticket_meta(kind, header.as_str(), body.len()) {
        Ok(meta) => meta,
        Err(e) => {
            return Err(e);
        },
    };
    let digest = match check_seals(kind, &meta, body) {
        Ok(d) => d,
        Err(e) => {
            return Err(e);
        },
    };
    let raw = if meta.algorithm == CompressionAlgorithm::Identity {
        body
    } else {
        match plain {
            Some(p) => p,
            None => {
                return Err(EnvelopeError::Codec);
            },
        }
    };
    if raw.len() != meta.raw_size {
        return Err(EnvelopeError::RawSizeMismatch);
    }
    if kind != TicketKind::HttpsPayload {
        let actual = sha256(raw);
        if !constant_time_eq(digest.as_slice(), actual.as_slice()) {
            return Err(EnvelopeError::DigestMismatch);
        }
    }
    Ok((meta, vstd::slice::slice_to_vec(raw)))
}

proof fn lemma_ticket_magic(kind: TicketKind)
    ensures
        ticket_magic(kind).len() > 0,
        tidy(ticket_magic(kind)),
{
    reveal_strlit("SINGULARITY_HTTP_VERSION_BLOB_V1");
    reveal_strlit("SINGULARITY_HTTPS_SECURE_ENVELOPE_V1");
    reveal_strlit("SINGULARITY_HTTPS_CLIENT_STATE_BLOB_V1");
}

/// A line made of a key, the separator, at most one space and a value is read as that pair; it is a
/// line of text in ASCII.
proof fn lemma_loose(line: Seq<char>, key: Seq<char>, sep: char, gap: Seq<char>, value: Seq<char>)
    requires
        line == key + seq![sep] + gap + value,
        gap == Seq::<char>::empty() || gap == seq![' '],
        key.len() > 0,
        lacks(key, sep),
        tidy(key),
        tidy(value),
        value.len() > 0,
        sep == '=' || sep == ':',
    ensures
        loose_key(line, sep) == key,
        loose_value(line, sep) == value,
        is_line(line),
        is_ascii_chars(line),
{
    let n = key.len() as int;
    assert(line[n] == sep);
    assert forall|j: int| 0 <= j < n implies line[j] != sep by {
        assert(line[j] == key[j]);
    }
    lemma_find_is(line, sep, n);
    assert(line.take(n) =~= key);
    let rest = line.skip(n + 1);
    assert(rest =~= gap + value);
    lemma_trimmed_solid(key);
    lemma_trimmed_solid(value);
    if gap.len() == 0 {
        assert(rest =~= value);
    } else {
        assert(rest[0] == ' ');
        assert(rest.skip(1) =~= value);
        assert(crate::text::trimmed_start(rest) == value);
    }
    let g = gap.len() as int;
    assert forall|j: int| 0 <= j < line.len() implies #[trigger] line[j] != '\n' && line[j] as u32 <= 127 by {
        if j < n {
            assert(line[j] == key[j]);
            assert(!is_white(key[j]));
        } else if j >= n + 1 + g {
            assert(line[j] == value[j - n - 1 - g]);
            assert(!is_white(value[j - n - 1 - g]));
        }
    }
    assert(line.last() == value.last());
    assert(!is_white(value[value.len() - 1]));
}

/// The pairs in the lines of a header.
proof fn lemma_ticket_pairs(kind: TicketKind, m: MetaView)
    requires
        writable(m),
        m.nonce.len() > 0,
        m.digest.len() > 0,
        m.tag.len() > 0,
    ensures
        ({
            let l = ticket_lines(kind, m);
            let c = separator(kind);
            &&& l.len() == (if kind == TicketKind::HttpsPayload { 7int } else { 8int })
            &&& l[0] == ticket_magic(kind)
            &&& loose_key(l[1], c) == "content-encoding"@
            &&& loose_value(l[1], c) == coding_name(m.algorithm)
            &&& loose_key(l[2], c) == "nonce"@
            &&& loose_value(l[2], c) == m.nonce
            &&& loose_key(l[3], c) == "digest"@
            &&& bare(kind, loose_value(l[3], c), "SHA-256="@) == m.digest
            &&& loose_key(l[4], c) == "tag"@
            &&& bare(kind, loose_value(l[4], c), "HMAC-SHA-256="@) == m.tag
            &&& loose_key(l[5], c) == "raw-size"@
            &&& loose_value(l[5], c) == decimal(m.raw_size)
            &&& loose_key(l[6], c) == "encoded-size"@
            &&& loose_value(l[6], c) == decimal(m.encoded_size)
            &&& kind != TicketKind::HttpsPayload ==> loose_key(l[7], c) == "issued-at"@
            &&& kind != TicketKind::HttpsPayload ==> loose_value(l[7], c) == decimal(m.issued_at)
            &&& forall|i: int| 0 <= i < l.len() ==> is_line(#[trigger] l[i]) && is_ascii_chars(l[i])
        }),
{
    let l = ticket_lines(kind, m);
    let c = separator(kind);
    lemma_ticket_magic(kind);
    crate::text::lemma_tidy_line(ticket_magic(kind));
    lemma_armoured_tidy(m.nonce);
    lemma_armoured_tidy(m.digest);
    lemma_armoured_tidy(m.tag);
    lemma_coding_tidy(m.algorithm);
    lemma_decimal_tidy(m.raw_size);
    lemma_decimal_tidy(m.encoded_size);
    lemma_decimal_tidy(m.issued_at);
    reveal_strlit("content-encoding");
    reveal_strlit("nonce");
    reveal_strlit("digest");
    reveal_strlit("tag");
    reveal_strlit("raw-size");
    reveal_strlit("encoded-size");
    reveal_strlit("issued-at");
    if kind == TicketKind::Version {
        let g = Seq::<char>::empty();
        let f = field_lines(m);
        reveal_strlit("content-encoding=");
        reveal_strlit("nonce=");
        reveal_strlit("digest=SHA-256=");
        reveal_strlit("tag=HMAC-SHA-256=");
        reveal_strlit("raw-size=");
        reveal_strlit("encoded-size=");
        reveal_strlit("issued-at=");
        reveal_strlit("SHA-256=");
        reveal_strlit("HMAC-SHA-256=");
        let d = "SHA-256="@ + m.digest;
        let t = "HMAC-SHA-256="@ + m.tag;
        lemma_tidy_concat("SHA-256="@, m.digest);
        lemma_tidy_concat("HMAC-SHA-256="@, m.tag);
        assert(l[1] =~= "content-encoding"@ + seq![c] + g + coding_name(m.algorithm));
        assert(l[2] =~= "nonce"@ + seq![c] + g + m.nonce);
        assert(l[3] =~= "digest"@ + seq![c] + g + d);
        assert(l[4] =~= "tag"@ + seq![c] + g + t);
        assert(l[5] =~= "raw-size"@ + seq![c] + g + decimal(m.raw_size));
        assert(l[6] =~= "encoded-size"@ + seq![c] + g + decimal(m.encoded_size));
        assert(l[7] =~= "issued-at"@ + seq![c] + g + decimal(m.issued_at));
        lemma_loose(l[1], "content-encoding"@, c, g, coding_name(m.algorithm));
        lemma_loose(l[2], "nonce"@, c, g, m.nonce);
        lemma_loose(l[3], "digest"@, c, g, d);
        lemma_loose(l[4], "tag"@, c, g, t);
        lemma_loose(l[5], "raw-size"@, c, g, decimal(m.raw_size));
        lemma_loose(l[6], "encoded-size"@, c, g, decimal(m.encoded_size));
        lemma_loose(l[7], "issued-at"@, c, g, decimal(m.issued_at));
        assert(d.take(8) =~= "SHA-256="@);
        assert(d.skip(8) =~= m.digest);
        assert(t.take(13) =~= "HMAC-SHA-256="@);
        assert(t.skip(13) =~= m.tag);
        assert(l.len() == 8);
    } else {
        let g = seq![' '];
        reveal_strlit("content-encoding: ");
        reveal_strlit("nonce: ");
        reveal_strlit("digest: ");
        reveal_strlit("tag: ");
        reveal_strlit("raw-size: ");
        reveal_strlit("encoded-size: ");
        reveal_strlit("issued-at: ");
        assert(l[1] =~= "content-encoding"@ + seq![c] + g + coding_name(m.algorithm));
        assert(l[2] =~= "nonce"@ + seq![c] + g + m.nonce);
        assert(l[3] =~= "digest"@ + seq![c] + g + m.digest);
        assert(l[4] =~= "tag"@ + seq![c] + g + m.tag);
        assert(l[5] =~= "raw-size"@ + seq![c] + g + decimal(m.raw_size));
        assert(l[6] =~= "encoded-size"@ + seq![c] + g + decimal(m.encoded_size));
        lemma_loose(l[1], "content-encoding"@, c, g, coding_name(m.algorithm));
        lemma_loose(l[2], "nonce"@, c, g, m.nonce);
        lemma_loose(l[3], "digest"@, c, g, m.digest);
        lemma_loose(l[4], "tag"@, c, g, m.tag);
        lemma_loose(l[5], "raw-size"@, c, g, decimal(m.raw_size));
        lemma_loose(l[6], "encoded-size"@, c, g, decimal(m.encoded_size));
        if kind == TicketKind::HttpsState {
            assert(l[7] =~= "issued-at"@ + seq![c] + g + decimal(m.issued_at));
            lemma_loose(l[7], "issued-at"@, c, g, decimal(m.issued_at));
            assert(l.len() == 8);
        } else {
            assert(l.len() == 7);
        }
    }
    assert forall|i: int| 0 <= i < l.len() implies is_line(#[trigger] l[i]) && is_ascii_chars(l[i]) by {
        assert(i == 0 || i == 1 || i == 2 || i == 3 || i == 4 || i == 5 || i == 6 || i == 7);
    }
}

/// A written header is read back.
pub proof fn law_ticket_header_roundtrip(kind: TicketKind, m: MetaView)
    requires
        writable(m),
        m.nonce.len() > 0,
        m.digest.len() > 0,
        m.tag.len() > 0,
        kind == TicketKind::HttpsPayload ==> m.issued_at == 0,
    ensures
        ticket_meta(kind, header_of(ticket_lines(kind, m)), m.encoded_size) == Ok::<
            MetaView,
            EnvelopeError,
        >(m),
{
    let l = ticket_lines(kind, m);
    let c = separator(kind);
    lemma_ticket_pairs(kind, m);
    lemma_lines_joined(l);
    lemma_field_names();
    law_coding_names(m.algorithm);
    law_decimal_roundtrip(m.raw_size, usize::MAX as nat);
    law_decimal_roundtrip(m.encoded_size, usize::MAX as nat);
    law_decimal_roundtrip(m.issued_at, u64::MAX as nat);
    assert(loose_fault(kind, l[1]) is None);
    assert(loose_fault(kind, l[2]) is None);
    assert(loose_fault(kind, l[3]) is None);
    assert(loose_fault(kind, l[4]) is None);
    assert(loose_fault(kind, l[5]) is None);
    assert(loose_fault(kind, l[6]) is None);
    assert(kind != TicketKind::HttpsPayload ==> loose_fault(kind, l[7]) is None);
    assert(first_loose_fault(kind, l, 1) is None) by {
        reveal_with_fuel(first_loose_fault, 8);
    }
    reveal_with_fuel(loose_last, 9);
}

/// What was sealed is unsealed: the header and the octets come back, given that the codec undoes
/// what it did.
pub proof fn law_ticket_roundtrip(
    kind: TicketKind,
    raw: Seq<u8>,
    algorithm: CompressionAlgorithm,
    coded: Option<Seq<u8>>,
    nonce: Seq<u8>,
    issued_at: nat,
)
    requires
        raw.len() <= usize::MAX,
        coded matches Some(c) ==> c.len() <= usize::MAX,
        nonce.len() > 0,
        issued_at <= u64::MAX,
    ensures
        ticket_sealed(kind, raw, algorithm, coded, nonce, issued_at) matches Ok((meta, blob))
            ==> ticket_unsealed(kind, blob, Some(raw)) == Ok::<(MetaView, Seq<u8>), EnvelopeError>(
            (meta, raw),
        ),
{
    let used = usable(algorithm);
    if let Some(payload) = payload_form(used, raw, coded) {
        let meta = ticket_sealed_meta(kind, raw, used, payload, nonce, issued_at);
        let digest = sha256_of(digested(kind, raw, payload));
        let tag = ticket_tag(kind, nonce, used, raw.len(), payload);
        lemma_sha256_len(digested(kind, raw, payload));
        lemma_tag_len(kind, nonce, used, raw.len(), payload);
        lemma_encoded_symbols(nonce);
        lemma_encoded_symbols(digest);
        lemma_encoded_symbols(tag);
        law_base64_roundtrip(nonce);
        law_base64_roundtrip(digest);
        law_base64_roundtrip(tag);
        law_base64_roundtrip(seq![]);
        assert(encoded(nonce).len() > 0);
        assert(encoded(digest).len() > 0);
        assert(encoded(tag).len() > 0);
        law_ticket_header_roundtrip(kind, meta);
        lemma_ticket_pairs(kind, meta);
        lemma_parted(ticket_lines(kind, meta), payload, false);
    }
}

proof fn lemma_tag_len(
    kind: TicketKind,
    nonce: Seq<u8>,
    algorithm: CompressionAlgorithm,
    raw_size: nat,
    payload: Seq<u8>,
)
    ensures
        ticket_tag(kind, nonce, algorithm, raw_size, payload).len() == 32,
{
    let context = encode_utf8(ticket_context(kind));
    lemma_hmac_len(
        sha256_of(context + nonce + encode_utf8(coding_name(algorithm)) + be64(raw_size as u64)),
        encode_utf8(ticket_magic(kind)) + be64(payload.len() as u64) + payload,
    );
    lemma_sha256_len(tag_material(kind, nonce, algorithm, raw_size, payload));
    lemma_hmac_len(context, tag_material(kind, nonce, algorithm, raw_size, payload));
}

/// Whatever an envelope is unsealed to, its header vouches for: the sizes fit, the digest is that of
/// the octets it is taken of, and the tag is that of the payload as sent.
pub proof fn law_ticket_is_vouched_for(kind: TicketKind, data: Seq<u8>, plain: Option<Seq<u8>>)
    ensures
        ticket_unsealed(kind, data, plain) matches Ok((meta, raw)) ==> {
            &&& raw.len() == meta.raw_size
            &&& parted(data, false) matches Ok((_, body))
            &&& body.len() == meta.encoded_size
            &&& decoded(meta.digest) == Some(sha256_of(digested(kind, raw, body)))
            &&& decoded(meta.nonce) matches Some(nonce)
            &&& decoded(meta.tag) == Some(
                ticket_tag(kind, nonce, meta.algorithm, meta.raw_size, body),
            )
        },
{
}

/// A payload put in place of the sealed one is refused, unless its tag happens to be the same.
pub proof fn law_changed_ticket_refused(
    kind: TicketKind,
    header: Seq<char>,
    body: Seq<u8>,
    other: Seq<u8>,
    plain: Option<Seq<u8>>,
    data: Seq<u8>,
    meta: MetaView,
)
    requires
        parted(data, false) == Ok::<(Seq<char>, Seq<u8>), EnvelopeError>((header, other)),
        ticket_meta(kind, header, body.len()) == Ok::<MetaView, EnvelopeError>(meta),
        seals_fault(kind, meta, body) is None,
        other.len() == body.len(),
        decoded(meta.nonce) matches Some(nonce) && ticket_tag(
            kind,
            nonce,
            meta.algorithm,
            meta.raw_size,
            other,
        ) != ticket_tag(kind, nonce, meta.algorithm, meta.raw_size, body),
    ensures
        ticket_unsealed(kind, data, plain) is Err,
{
}

/// An envelope ends in its payload: as it was under the identity, else as the codec made it. Its header tells the coding that
/// was asked for, the sizes, the nonce, and the digest. It fails only where a codec makes nothing.
pub proof fn law_ticket_sealed_payload(
    kind: TicketKind,
    raw: Seq<u8>,
    algorithm: CompressionAlgorithm,
    coded: Option<Seq<u8>>,
    nonce: Seq<u8>,
    issued_at: nat,
)
    ensures
        match ticket_sealed(kind, raw, algorithm, coded, nonce, issued_at) {
            Ok((meta, data)) => {
                &&& meta.algorithm == algorithm
                &&& algorithm == CompressionAlgorithm::Identity ==> ends_in(data, raw) && meta.encoded_size == raw.len()
                &&& algorithm != CompressionAlgorithm::Identity ==> (coded matches Some(c) && ends_in(data, c)
                    && meta.encoded_size == c.len())
                &&& meta.raw_size == raw.len()
                &&& decoded(meta.nonce) == Some(nonce) && decoded(meta.digest) == Some(
                    if kind == TicketKind::HttpsPayload {
                        sha256_of(data.skip(data.len() - meta.encoded_size))
                    } else {
                        sha256_of(raw)
                    },
                )
                &&& kind != TicketKind::HttpsPayload ==> meta.issued_at == issued_at
            },
            Err(e) => e == EnvelopeError::Codec && algorithm != CompressionAlgorithm::Identity && coded is None,
        },
{
    if let Ok((meta, data)) = ticket_sealed(kind, raw, algorithm, coded, nonce, issued_at) {
        let payload = payload_form(algorithm, raw, coded).unwrap();
        lemma_payload_at_end(ticket_lines(kind, meta), payload, data, false);
        law_base64_roundtrip(nonce);
        law_base64_roundtrip(sha256_of(raw));
        law_base64_roundtrip(sha256_of(payload));
    }
}

/// What is taken out is what stands at the end, or what the codec made of that where the header names a coding.
pub proof fn law_ticket_unsealed_payload(kind: TicketKind, data: Seq<u8>, plain: Option<Seq<u8>>)
    ensures
        ticket_unsealed(kind, data, plain) matches Ok((meta, raw)) ==> {
            &&& meta.algorithm == CompressionAlgorithm::Identity ==> ends_in(data, raw)
            &&& meta.algorithm != CompressionAlgorithm::Identity ==> plain == Some(raw)
            &&& raw.len() == meta.raw_size
        },
{
    lemma_payload_at_end(seq![], seq![], data, false);
}

/// A tag binds all that it vouches for: what it and its key are made of differs wherever the nonce, of one length, the
/// coding, the size or the payload does.
pub proof fn law_ticket_tag_binds(
    kind: TicketKind,
    n: Seq<u8>,
    m: Seq<u8>,
    a: CompressionAlgorithm,
    b: CompressionAlgorithm,
    r: u64,
    s: u64,
    p: Seq<u8>,
    q: Seq<u8>,
)
    requires
        n.len() == m.len(),
    ensures
        tag_material(kind, n, a, r as nat, p) == tag_material(kind, m, b, s as nat, q) && p.len() <= u64::MAX && q.len()
            <= u64::MAX ==> n == m && a == b && r == s && p == q,
        ticket_key_material(kind, n, a, r as nat) == ticket_key_material(kind, m, b, s as nat) ==> n == m && a == b && r
            == s,
        ticket_message(kind, p) == ticket_message(kind, q) ==> p == q,
        ticket_tag(kind, n, a, r as nat, p) == (match kind {
            TicketKind::Version => hmac_of(
                sha256_of(ticket_key_material(kind, n, a, r as nat)),
                ticket_message(kind, p),
            ),
            TicketKind::HttpsPayload => sha256_of(tag_material(kind, n, a, r as nat, p)),
            TicketKind::HttpsState => hmac_of(
                encode_utf8(ticket_context(kind)),
                tag_material(kind, n, a, r as nat, p),
            ),
        }),
{
    let c = encode_utf8(ticket_context(kind));
    let g = encode_utf8(ticket_magic(kind));
    let (x, y) = (encode_utf8(coding_name(a)), encode_utf8(coding_name(b)));
    let (u, v) = (be64(p.len() as u64), be64(q.len() as u64));
    let lf = seq![10u8];
    lemma_be64_differ(r, s);
    lemma_be64_differ(s, r);
    lemma_be64_differ(p.len() as u64, q.len() as u64);
    lemma_be64_differ(q.len() as u64, p.len() as u64);
    lemma_coding_octets(a, b);
    lemma_coding_octets(b, a);
    if tag_material(kind, n, a, r as nat, p) == tag_material(kind, m, b, s as nat, q) {
        let (d, e) = (x + (lf + (u + p)), y + (lf + (v + q)));
        assert(tag_material(kind, n, a, r as nat, p) =~= c + (n + (be64(r) + d)));
        assert(tag_material(kind, m, b, s as nat, q) =~= c + (m + (be64(s) + e)));
        lemma_same_parts(c, c, n + (be64(r) + d), m + (be64(s) + e));
        lemma_same_parts(n, m, be64(r) + d, be64(s) + e);
        lemma_same_parts(be64(r), be64(s), d, e);
        assert(d[0] == x[0] && e[0] == y[0]);
        lemma_same_parts(x, y, lf + (u + p), lf + (v + q));
        lemma_same_parts(lf, lf, u + p, v + q);
        lemma_same_parts(u, v, p, q);
    }
    if ticket_key_material(kind, n, a, r as nat) == ticket_key_material(kind, m, b, s as nat) {
        assert(ticket_key_material(kind, n, a, r as nat) =~= c + (n + (x + be64(r))));
        assert(ticket_key_material(kind, m, b, s as nat) =~= c + (m + (y + be64(s))));
        lemma_same_parts(c, c, n + (x + be64(r)), m + (y + be64(s)));
        lemma_same_parts(n, m, x + be64(r), y + be64(s));
        assert((x + be64(r))[0] == x[0] && (y + be64(s))[0] == y[0]);
        lemma_same_parts(x, y, be64(r), be64(s));
    }
    if ticket_message(kind, p) == ticket_message(kind, q) {
        assert(ticket_message(kind, p) =~= g + (u + p));
        assert(ticket_message(kind, q) =~= g + (v + q));
        lemma_same_parts(g, g, u + p, v + q);
        lemma_same_parts(u, v, p, q);
    }
}

}
