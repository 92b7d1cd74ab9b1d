//! Envelopes of the transport layer: payloads, stream frames and datagrams.
//!
//! The key of the tag is derived from the binding context, the nonce, the plain size and the content
//! coding; the tag itself covers the magic, the payload's size and the payload as sent.
use vstd::prelude::*;
use vstd::string::StringSliceAdditionalSpecFns;
use vstd::utf8::{encode_utf8, is_ascii_chars};

use crate::bytes::{be64, constant_time_eq, lemma_be64_differ, lemma_same_parts, push_be64, push_bytes};
use crate::crypto::base64::{
    decode, decoded, encode, encoded, law_base64_roundtrip, lemma_encoded_symbols,
};
use crate::crypto::hmac::{hmac_of, hmac_sha256, lemma_hmac_len};
use crate::crypto::sha256::{sha256, sha256_of};
use crate::decimal::{decimal, law_decimal_roundtrip, parse_u64, parse_usize, parsed};
use crate::net::blob::{opt_bytes, payload_form};
use crate::net::envelope::{
    contents, ends_in, enveloped, field_lines, finish_envelope, header_of, lemma_armoured_tidy, lemma_coding_tidy,
    lemma_decimal_tidy, lemma_field_lines, lemma_parted, lemma_payload_at_end, parted, push_fields, split_header_body,
    writable, EnvelopeError, EnvelopeMeta, MetaView,
};
use crate::net::http::compression::{
    coding_name, coding_named, law_coding_names, lemma_coding_octets, usable, CompressionAlgorithm,
};
use crate::text::{
    begins_with, chars_of, ended, is_line, is_text, is_text_nocase, lemma_ended_front, lemma_ended_joined,
    lemma_lines_joined, lemma_tidy_concat, lemma_tidy_line, lemma_trimmed_solid, lines, lines_of, push_line,
    same_nocase, solid, string_of, strip_prefix, texts, tidy, trim, trimmed, without_prefix,
};

verus! {

/// Which transport an envelope travels on.
#[derive(Debug, Clone, Copy, PartialEq, Eq, Structural)]
pub enum FrameKind {
    Net,
    Tcp,
    Udp,
}

pub open spec fn frame_magic(kind: FrameKind) -> Seq<char> {
    match kind {
        FrameKind::Net => "SINGULARITY_NET_SECURE_ENVELOPE_V1"@,
        FrameKind::Tcp => "SINGULARITY_TCP_SECURE_FRAME_V1"@,
        FrameKind::Udp => "SINGULARITY_UDP_SECURE_DATAGRAM_V1"@,
    }
}

pub open spec fn frame_context(kind: FrameKind) -> Seq<char> {
    match kind {
        FrameKind::Net => "SINGULARITY_NET_SECURE_ENVELOPE_BINDING_V1"@,
        FrameKind::Tcp => "SINGULARITY_TCP_SECURE_FRAME_BINDING_V1"@,
        FrameKind::Udp => "SINGULARITY_UDP_SECURE_DATAGRAM_BINDING_V1"@,
    }
}

impl FrameKind {
    pub fn magic(&self) -> (r: &'static str)
        ensures
            r@ == frame_magic(*self),
    {
        match self {
            FrameKind::Net => "SINGULARITY_NET_SECURE_ENVELOPE_V1",
            FrameKind::Tcp => "SINGULARITY_TCP_SECURE_FRAME_V1",
            FrameKind::Udp => "SINGULARITY_UDP_SECURE_DATAGRAM_V1",
        }
    }

    pub fn context(&self) -> (r: &'static str)
        ensures
            r@ == frame_context(*self),
    {
        match self {
            FrameKind::Net => "SINGULARITY_NET_SECURE_ENVELOPE_BINDING_V1",
            FrameKind::Tcp => "SINGULARITY_TCP_SECURE_FRAME_BINDING_V1",
            FrameKind::Udp => "SINGULARITY_UDP_SECURE_DATAGRAM_BINDING_V1",
        }
    }
}

proof fn lemma_frame_magic(kind: FrameKind)
    ensures
        frame_magic(kind).len() > 0,
        tidy(frame_magic(kind)),
{
    reveal_strlit("SINGULARITY_NET_SECURE_ENVELOPE_V1");
    reveal_strlit("SINGULARITY_TCP_SECURE_FRAME_V1");
    reveal_strlit("SINGULARITY_UDP_SECURE_DATAGRAM_V1");
}

/// The tag that binds a payload, as sent, to its header.
#[verifier::opaque]
pub open spec fn frame_tag(
    kind: FrameKind,
    nonce: Seq<u8>,
    algorithm: CompressionAlgorithm,
    raw_size: nat,
    payload: Seq<u8>,
) -> Seq<u8> {
    hmac_of(sha256_of(frame_key_material(kind, nonce, algorithm, raw_size)), frame_message(kind, payload))
}

/// What the key of a tag is made of.
pub open spec fn frame_key_material(
    kind: FrameKind,
    nonce: Seq<u8>,
    algorithm: CompressionAlgorithm,
    raw_size: nat,
) -> Seq<u8> {
    encode_utf8(frame_context(kind)) + nonce + be64(raw_size as u64) + encode_utf8(coding_name(algorithm))
}

/// What a tag is made over.
pub open spec fn frame_message(kind: FrameKind, payload: Seq<u8>) -> Seq<u8> {
    encode_utf8(frame_magic(kind)) + be64(payload.len() as u64) + payload
}

/// Computes the tag of a frame.
pub fn compute_frame_tag(
    kind: FrameKind,
    nonce: &[u8],
    algorithm: CompressionAlgorithm,
    raw_size: usize,
    payload: &[u8],
) -> (r: Vec<u8>)
    ensures
        r@ == frame_tag(kind, nonce@, algorithm, raw_size as nat, payload@),
        r@.len() == 32,
{
    proof {
        reveal(frame_tag);
    }
    let mut material = vstd::slice::slice_to_vec(kind.context().as_bytes());
    push_bytes(&mut material, nonce);
    push_be64(&mut material, raw_size as u64);
    push_bytes(&mut material, algorithm.content_encoding().as_bytes());
    let key = sha256(material.as_slice());
    let mut signed = vstd::slice::slice_to_vec(kind.magic().as_bytes());
    push_be64(&mut signed, payload.len() as u64);
    push_bytes(&mut signed, payload);
    hmac_sha256(key.as_slice(), signed.as_slice())
}

/// What follows `prefix` in a line, without the white space around it.
pub open spec fn after(line: Seq<char>, prefix: Seq<char>) -> Option<Seq<char>> {
    match without_prefix(line, prefix) {
        Some(v) => Some(trimmed(v)),
        None => None,
    }
}

/// What follows `prefix` in the last of the first `n` lines that has it; the first line is the magic
/// and does not count.
pub open spec fn last_after(lines: Seq<Seq<char>>, prefix: Seq<char>, n: int) -> Option<Seq<char>>
    decreases n,
{
    if n <= 1 {
        None
    } else {
        match after(lines[n - 1], prefix) {
            Some(v) => Some(v),
            None => last_after(lines, prefix, n - 1),
        }
    }
}

pub open spec fn number_after(lines: Seq<Seq<char>>, prefix: Seq<char>, max: nat, n: int) -> Option<
    nat,
> {
    match last_after(lines, prefix, n) {
        Some(v) => parsed(v, max),
        None => None,
    }
}

pub open spec fn coding_after(lines: Seq<Seq<char>>, n: int) -> CompressionAlgorithm {
    match last_after(lines, "content-encoding="@, n) {
        Some(v) => match coding_named(v) {
            Some(a) => a,
            None => CompressionAlgorithm::Identity,
        },
        None => CompressionAlgorithm::Identity,
    }
}

/// Whether a line names a coding that is not known.
pub open spec fn names_unknown_coding(line: Seq<char>) -> bool {
    after(line, "content-encoding="@) matches Some(v) && coding_named(v) is None
}

/// Whether one of the lines from `from` on names a coding that is not known.
pub open spec fn unknown_coding(lines: Seq<Seq<char>>, from: int) -> bool
    decreases lines.len() - from,
{
    if from < 0 || from >= lines.len() {
        false
    } else {
        names_unknown_coding(lines[from]) || unknown_coding(lines, from + 1)
    }
}

/// Whether a value switches integrity on.
pub open spec fn switches_on(v: Seq<char>) -> bool {
    same_nocase(v, "on"@) || same_nocase(v, "true"@) || v == "1"@
}

pub open spec fn integrity_after(lines: Seq<Seq<char>>, n: int) -> bool {
    match last_after(lines, "integrity="@, n) {
        Some(v) => switches_on(v),
        None => false,
    }
}

/// The header fields met so far.
struct FrameFields<'a> {
    algorithm: CompressionAlgorithm,
    integrity: bool,
    nonce: Option<&'a [char]>,
    digest: Option<&'a [char]>,
    tag: Option<&'a [char]>,
    raw_size: Option<usize>,
    encoded_size: Option<usize>,
    issued_at: Option<u64>,
}

spec fn opt_text(o: Option<&[char]>) -> Option<Seq<char>> {
    match o {
        Some(s) => Some(s@),
        None => None,
    }
}

spec fn opt_size(o: Option<usize>) -> Option<nat> {
    match o {
        Some(n) => Some(n as nat),
        None => None,
    }
}

spec fn opt_time(o: Option<u64>) -> Option<nat> {
    match o {
        Some(n) => Some(n as nat),
        None => None,
    }
}

impl<'a> FrameFields<'a> {
    spec fn holds(&self, lines: Seq<Seq<char>>, n: int) -> bool {
        &&& self.algorithm == coding_after(lines, n)
        &&& self.integrity == integrity_after(lines, n)
        &&& opt_text(self.nonce) == last_after(lines, "nonce="@, n)
        &&& opt_text(self.digest) == last_after(lines, "digest=SHA-256="@, n)
        &&& opt_text(self.tag) == last_after(lines, "tag=HMAC-SHA-256="@, n)
        &&& opt_size(self.raw_size) == number_after(lines, "raw-size="@, usize::MAX as nat, n)
        &&& opt_size(self.encoded_size) == number_after(
            lines,
            "encoded-size="@,
            usize::MAX as nat,
            n,
        )
        &&& opt_time(self.issued_at) == number_after(lines, "issued-at="@, u64::MAX as nat, n)
    }
}

fn text_after<'a>(line: &'a [char], prefix: &str) -> (r: Option<&'a [char]>)
    ensures
        opt_text(r) == after(line@, prefix@),
{
    match strip_prefix(line, prefix) {
        Some(v) => Some(trim(v)),
        None => None,
    }
}

fn switch(v: &[char]) -> (r: bool)
    ensures
        r == switches_on(v@),
{
    is_text_nocase(v, "on") || is_text_nocase(v, "true") || is_text(v, "1")
}

/// Reads the header lines after the magic.
fn scan_fields<'a>(rows: &Vec<&'a [char]>) -> (r: Result<FrameFields<'a>, EnvelopeError>)
    requires
        rows@.len() >= 1,
    ensures
        match r {
            Ok(f) => f.holds(texts(rows@), rows@.len() as int) && !unknown_coding(texts(rows@), 1),
            Err(e) => e == EnvelopeError::UnsupportedEncoding && unknown_coding(texts(rows@), 1),
        },
{
    let mut f = FrameFields {
        algorithm: CompressionAlgorithm::Identity,
        integrity: false,
        nonce: None,
        digest: None,
        tag: None,
        raw_size: None,
        encoded_size: None,
        issued_at: None,
    };
    let ghost all = texts(rows@);
    let mut i: usize = 1;
    while i < rows.len()
        invariant
            1 <= i <= rows@.len(),
            all == texts(rows@),
            f.holds(all, i as int),
            unknown_coding(all, i as int) == unknown_coding(all, 1),
        decreases rows@.len() - i,
    {
        let line = rows[i];
        assert(all[i as int] == line@);
        match text_after(line, "content-encoding=") {
            Some(v) => {
                match CompressionAlgorithm::from_chars(v) {
                    Some(a) => {
                        f.algorithm = a;
                    },
                    None => {
                        return Err(EnvelopeError::UnsupportedEncoding);
                    },
                }
            },
            None => {},
        }
        match text_after(line, "integrity=") {
            Some(v) => {
                f.integrity = switch(v);
            },
            None => {},
        }
        match text_after(line, "nonce=") {
            Some(v) => {
                f.nonce = Some(v);
            },
            None => {},
        }
        match text_after(line, "digest=SHA-256=") {
            Some(v) => {
                f.digest = Some(v);
            },
            None => {},
        }
        match text_after(line, "tag=HMAC-SHA-256=") {
            Some(v) => {
                f.tag = Some(v);
            },
            None => {},
        }
        match text_after(line, "raw-size=") {
            Some(v) => {
                f.raw_size = parse_usize(v);
            },
            None => {},
        }
        match text_after(line, "encoded-size=") {
            Some(v) => {
                f.encoded_size = parse_usize(v);
            },
            None => {},
        }
        match text_after(line, "issued-at=") {
            Some(v) => {
                f.issued_at = parse_u64(v);
            },
            None => {},
        }
        i = i + 1;
    }
    Ok(f)
}

/// What the header of a payload envelope says about a payload of `body_len` octets.
pub open spec fn net_meta(header: Seq<char>, body_len: nat) -> Result<MetaView, EnvelopeError> {
    let lines = lines_of(header);
    let n = lines.len() as int;
    let nonce = last_after(lines, "nonce="@, n);
    let digest = last_after(lines, "digest=SHA-256="@, n);
    let tag = last_after(lines, "tag=HMAC-SHA-256="@, n);
    let raw = number_after(lines, "raw-size="@, usize::MAX as nat, n);
    let enc = number_after(lines, "encoded-size="@, usize::MAX as nat, n);
    let issued = number_after(lines, "issued-at="@, u64::MAX as nat, n);
    if n == 0 || lines[0] != frame_magic(FrameKind::Net) {
        Err(EnvelopeError::BadMagic)
    } else if unknown_coding(lines, 1) {
        Err(EnvelopeError::UnsupportedEncoding)
    } else if nonce is None {
        Err(EnvelopeError::MissingNonce)
    } else if digest is None {
        Err(EnvelopeError::MissingDigest)
    } else if tag is None {
        Err(EnvelopeError::MissingTag)
    } else if raw is None {
        Err(EnvelopeError::MissingRawSize)
    } else if enc is None {
        Err(EnvelopeError::MissingEncodedSize)
    } else if enc.unwrap() != body_len {
        Err(EnvelopeError::EncodedSizeMismatch)
    } else if issued is None {
        Err(EnvelopeError::MissingIssuedAt)
    } else {
        Ok(
            MetaView {
                algorithm: coding_after(lines, n),
                nonce: nonce.unwrap(),
                digest: digest.unwrap(),
                tag: tag.unwrap(),
                raw_size: raw.unwrap(),
                encoded_size: enc.unwrap(),
                issued_at: issued.unwrap(),
            },
        )
    }
}

/// Reads the header of a payload envelope.
pub fn parse_net_meta(header: &str, body_len: usize) -> (r: Result<EnvelopeMeta, EnvelopeError>)
    ensures
        match r {
            Ok(meta) => net_meta(header@, body_len as nat) == Ok::<MetaView, EnvelopeError>(meta@),
            Err(e) => net_meta(header@, body_len as nat) == Err::<MetaView, EnvelopeError>(e),
        },
{
    let text = chars_of(header);
    let rows = lines(text.as_slice());
    let ghost all = lines_of(header@);
    assert(texts(rows@) == all);
    if rows.len() == 0 {
        return Err(EnvelopeError::BadMagic);
    }
    assert(all[0] == rows@[0]@);
    if !is_text(rows[0], FrameKind::Net.magic()) {
        return Err(EnvelopeError::BadMagic);
    }
    let f = match scan_fields(&rows) {
        Ok(f) => f,
        Err(e) => {
            return Err(e);
        },
    };
    let nonce = match f.nonce {
        Some(v) => v,
        None => {
            return Err(EnvelopeError::MissingNonce);
        },
    };
    let digest = match f.digest {
        Some(v) => v,
        None => {
            return Err(EnvelopeError::MissingDigest);
        },
    };
    let tag = match f.tag {
        Some(v) => v,
        None => {
            return Err(EnvelopeError::MissingTag);
        },
    };
    let raw_size = match f.raw_size {
        Some(v) => v,
        None => {
            return Err(EnvelopeError::MissingRawSize);
        },
    };
    let encoded_size = match f.encoded_size {
        Some(v) => v,
        None => {
            return Err(EnvelopeError::MissingEncodedSize);
        },
    };
    if encoded_size != body_len {
        return Err(EnvelopeError::EncodedSizeMismatch);
    }
    match f.issued_at {
        Some(issued_at_unix) => Ok(
            EnvelopeMeta {
                algorithm: f.algorithm,
                nonce_b64: string_of(nonce),
                digest_b64: string_of(digest),
                tag_b64: string_of(tag),
                raw_size,
                encoded_size,
                issued_at_unix,
            },
        ),
        None => Err(EnvelopeError::MissingIssuedAt),
    }
}

/// What the header of a sealed payload says.
pub open spec fn net_sealed_meta(
    raw: Seq<u8>,
    algorithm: CompressionAlgorithm,
    payload: Seq<u8>,
    nonce: Seq<u8>,
    issued_at: nat,
) -> MetaView {
    MetaView {
        algorithm,
        nonce: encoded(nonce),
        digest: encoded(sha256_of(raw)),
        tag: encoded(frame_tag(FrameKind::Net, nonce, algorithm, raw.len(), payload)),
        raw_size: raw.len(),
        encoded_size: payload.len(),
        issued_at,
    }
}

pub open spec fn net_lines(meta: MetaView) -> Seq<Seq<char>> {
    seq![frame_magic(FrameKind::Net)] + field_lines(meta)
}

/// The envelope that holds `raw`; `coded` is what the codec of `algorithm` made of it, if it did.
pub open spec fn net_sealed(
    raw: Seq<u8>,
    algorithm: CompressionAlgorithm,
    coded: Option<Seq<u8>>,
    nonce: Seq<u8>,
    issued_at: nat,
) -> Result<(MetaView, Seq<u8>), EnvelopeError> {
    let used = usable(algorithm);
    match payload_form(used, raw, coded) {
        Some(payload) => {
            let meta = net_sealed_meta(raw, used, payload, nonce, issued_at);
            Ok((meta, enveloped(net_lines(meta), payload)))
        },
        None => Err(EnvelopeError::Codec),
    }
}

/// The header and the plain payload of an envelope; `plain` is what the codec made of the payload.
pub open spec fn net_unsealed(data: Seq<u8>, plain: Option<Seq<u8>>) -> Result<
    (MetaView, Seq<u8>),
    EnvelopeError,
> {
    match parted(data, false) {
        Err(e) => Err(e),
        Ok((header, body)) => match net_meta(header, body.len()) {
            Err(e) => Err(e),
            Ok(meta) => {
                let nonce = decoded(meta.nonce);
                let digest = decoded(meta.digest);
                let tag = decoded(meta.tag);
                if nonce is None {
                    Err(EnvelopeError::NonceEncoding)
                } else if digest is None {
                    Err(EnvelopeError::DigestEncoding)
                } else if tag is None {
                    Err(EnvelopeError::TagEncoding)
                } else if tag.unwrap() != frame_tag(
                    FrameKind::Net,
                    nonce.unwrap(),
                    meta.algorithm,
                    meta.raw_size,
                    body,
                ) {
                    Err(EnvelopeError::TagMismatch)
                } else {
                    match payload_form(meta.algorithm, body, plain) {
                        None => Err(EnvelopeError::Codec),
                        Some(raw) => if raw.len() != meta.raw_size {
                            Err(EnvelopeError::RawSizeMismatch)
                        } else if digest.unwrap() != sha256_of(raw) {
                            Err(EnvelopeError::DigestMismatch)
                        } else {
                            Ok((meta, raw))
                        },
                    }
                }
            },
        },
    }
}

/// Seals a payload. `coded` is the output of the codec of `algorithm` for `raw`, `None` where the
/// codec failed; it is not looked at under the identity.
pub fn seal_net(
    raw: &[u8],
    algorithm: CompressionAlgorithm,
    coded: Option<&[u8]>,
    nonce: &[u8],
    issued_at_unix: u64,
) -> (r: Result<(EnvelopeMeta, Vec<u8>), EnvelopeError>)
    ensures
        contents(r) == net_sealed(raw@, algorithm, opt_bytes(coded), nonce@, issued_at_unix as nat),
{
    let used = if algorithm.is_implemented() {
        algorithm
    } else {
        CompressionAlgorithm::Identity
    };
    let payload = if used == CompressionAlgorithm::Identity {
        raw
    } else {
        match coded {
            Some(c) => c,
            None => {
                return Err(EnvelopeError::Codec);
            },
        }
    };
    let digest = sha256(raw);
    let tag = compute_frame_tag(FrameKind::Net, nonce, used, raw.len(), payload);
    let meta = EnvelopeMeta {
        algorithm: used,
        nonce_b64: encode(nonce),
        digest_b64: encode(digest.as_slice()),
        tag_b64: encode(tag.as_slice()),
        raw_size: raw.len(),
        encoded_size: payload.len(),
        issued_at_unix,
    };
    let mut header = chars_of(FrameKind::Net.magic());
    header.push('\n');
    push_fields(&mut header, &meta);
    header.push('\n');
    let ghost l = net_lines(meta@);
    proof {
        lemma_ended_front(l);
        assert(l.skip(1) =~= field_lines(meta@));
        lemma_ended_joined(l);
        assert(header@ =~= ended(l) + seq!['\n']);
        assert(header@ =~= header_of(l) + seq!['\n', '\n']);
    }
    let blob = finish_envelope(header.as_slice(), payload);
    Ok((meta, blob))
}

/// Unseals a payload. `plain` is the output of the codec for the payload as sent, `None` where the
/// codec failed; it is not looked at under the identity.
pub fn unseal_net(data: &[u8], plain: Option<&[u8]>) -> (r: Result<
    (EnvelopeMeta, Vec<u8>),
    EnvelopeError,
>)
    ensures
        contents(r) == net_unsealed(data@, opt_bytes(plain)),
{
    let (header, body) = match split_header_body(data, false) {
        Ok(parts) => parts,
        Err(e) => {
            return Err(e);
        },
    };
    let meta = match parse_net_meta(header.as_str(), body.len()) {
        Ok(meta) => meta,
        Err(e) => {
            return Err(e);
        },
    };
    let nonce = match decode(meta.nonce_b64.as_str()) {
        Some(b) => b,
        None => {
            return Err(EnvelopeError::NonceEncoding);
        },
    };
    let digest = match decode(meta.digest_b64.as_str()) {
        Some(b) => b,
        None => {
            return Err(EnvelopeError::DigestEncoding);
        },
    };
    let tag = match decode(meta.tag_b64.as_str()) {
        Some(b) => b,
        None => {
            return Err(EnvelopeError::TagEncoding);
        },
    };
    let expected = compute_frame_tag(
        FrameKind::Net,
        nonce.as_slice(),
        meta.algorithm,
        meta.raw_size,
        body,
    );
    if !constant_time_eq(tag.as_slice(), expected.as_slice()) {
        return Err(EnvelopeError::TagMismatch);
    }
    let raw = if meta.algorithm == CompressionAlgorithm::Identity {
        body
    } else {
        match plain {
            Some(p) => p,
            None => {
                return Err(EnvelopeError::Codec);
            },
        }
    };
    if raw.len() != meta.raw_size {
        return Err(EnvelopeError::RawSizeMismatch);
    }
    let actual = sha256(raw);
    if !constant_time_eq(digest.as_slice(), actual.as_slice()) {
        return Err(EnvelopeError::DigestMismatch);
    }
    Ok((meta, vstd::slice::slice_to_vec(raw)))
}

/// What the header of a frame or datagram says.
#[derive(Debug, Clone)]
pub struct FrameMeta {
    pub algorithm: CompressionAlgorithm,
    pub integrity_enabled: bool,
    pub nonce_b64: String,
    pub digest_b64: String,
    pub tag_b64: String,
    pub raw_size: usize,
    pub encoded_size: usize,
    pub issued_at_unix: u64,
}

/// The contents of the header of a frame or datagram.
pub struct FrameView {
    pub integrity: bool,
    pub fields: MetaView,
}

impl View for FrameMeta {
    type V = FrameView;

    open spec fn view(&self) -> FrameView {
        FrameView {
            integrity: self.integrity_enabled,
            fields: MetaView {
                algorithm: self.algorithm,
                nonce: self.nonce_b64@,
                digest: self.digest_b64@,
                tag: self.tag_b64@,
                raw_size: self.raw_size as nat,
                encoded_size: self.encoded_size as nat,
                issued_at: self.issued_at_unix as nat,
            },
        }
    }
}

pub open spec fn frame_contents(r: Result<(FrameMeta, Vec<u8>), EnvelopeError>) -> Result<
    (FrameView, Seq<u8>),
    EnvelopeError,
> {
    match r {
        Ok((meta, payload)) => Ok((meta@, payload@)),
        Err(e) => Err(e),
    }
}

/// What the header of a frame says about a payload of `body_len` octets.
pub open spec fn frame_meta(kind: FrameKind, header: Seq<char>, body_len: nat) -> Result<
    FrameView,
    EnvelopeError,
> {
    let lines = lines_of(header);
    let n = lines.len() as int;
    let integrity = integrity_after(lines, n);
    let nonce = match last_after(lines, "nonce="@, n) {
        Some(v) => v,
        None => seq![],
    };
    let tag = match last_after(lines, "tag=HMAC-SHA-256="@, n) {
        Some(v) => v,
        None => seq![],
    };
    let digest = last_after(lines, "digest=SHA-256="@, n);
    let raw = number_after(lines, "raw-size="@, usize::MAX as nat, n);
    let enc = number_after(lines, "encoded-size="@, usize::MAX as nat, n);
    let issued = number_after(lines, "issued-at="@, u64::MAX as nat, n);
    if n == 0 || lines[0] != frame_magic(kind) {
        Err(EnvelopeError::BadMagic)
    } else if unknown_coding(lines, 1) {
        Err(EnvelopeError::UnsupportedEncoding)
    } else if digest is None {
        Err(EnvelopeError::MissingDigest)
    } else if raw is None {
        Err(EnvelopeError::MissingRawSize)
    } else if enc is None {
        Err(EnvelopeError::MissingEncodedSize)
    } else if issued is None {
        Err(EnvelopeError::MissingIssuedAt)
    } else if enc.unwrap() != body_len {
        Err(EnvelopeError::EncodedSizeMismatch)
    } else if integrity && (nonce.len() == 0 || tag.len() == 0) {
        Err(EnvelopeError::MissingSecurityFields)
    } else {
        Ok(
            FrameView {
                integrity,
                fields: MetaView {
                    algorithm: coding_after(lines, n),
                    nonce,
                    digest: digest.unwrap(),
                    tag,
                    raw_size: raw.unwrap(),
                    encoded_size: enc.unwrap(),
                    issued_at: issued.unwrap(),
                },
            },
        )
    }
}

fn owned(o: Option<&[char]>) -> (r: String)
    ensures
        r@ == (match o {
            Some(s) => s@,
            None => seq![],
        }),
{
    match o {
        Some(s) => string_of(s),
        None => String::new(),
    }
}

/// Reads the header of a frame.
pub fn parse_frame_meta(kind: FrameKind, header: &str, body_len: usize) -> (r: Result<
    FrameMeta,
    EnvelopeError,
>)
    ensures
        match r {
            Ok(meta) => frame_meta(kind, header@, body_len as nat) == Ok::<FrameView, EnvelopeError>(
                meta@,
            ),
            Err(e) => frame_meta(kind, header@, body_len as nat) == Err::<FrameView, EnvelopeError>(
                e,
            ),
        },
{
    let text = chars_of(header);
    let rows = lines(text.as_slice());
    let ghost all = lines_of(header@);
    assert(texts(rows@) == all);
    if rows.len() == 0 {
        return Err(EnvelopeError::BadMagic);
    }
    assert(all[0] == rows@[0]@);
    if !is_text(rows[0], kind.magic()) {
        return Err(EnvelopeError::BadMagic);
    }
    let f = match scan_fields(&rows) {
        Ok(f) => f,
        Err(e) => {
            return Err(e);
        },
    };
    let nonce_b64 = owned(f.nonce);
    let tag_b64 = owned(f.tag);
    let digest = match f.digest {
        Some(v) => v,
        None => {
            return Err(EnvelopeError::MissingDigest);
        },
    };
    let raw_size = match f.raw_size {
        Some(v) => v,
        None => {
            return Err(EnvelopeError::MissingRawSize);
        },
    };
    let encoded_size = match f.encoded_size {
        Some(v) => v,
        None => {
            return Err(EnvelopeError::MissingEncodedSize);
        },
    };
    let issued_at_unix = match f.issued_at {
        Some(v) => v,
        None => {
            return Err(EnvelopeError::MissingIssuedAt);
        },
    };
    if encoded_size != body_len {
        return Err(EnvelopeError::EncodedSizeMismatch);
    }
    if f.integrity && (nonce_b64.as_str().is_empty() || tag_b64.as_str().is_empty()) {
        return Err(EnvelopeError::MissingSecurityFields);
    }
    Ok(
        FrameMeta {
            algorithm: f.algorithm,
            integrity_enabled: f.integrity,
            nonce_b64,
            digest_b64: string_of(digest),
            tag_b64,
            raw_size,
            encoded_size,
            issued_at_unix,
        },
    )
}

pub open spec fn on_off(b: bool) -> Seq<char> {
    if b {
        "on"@
    } else {
        "off"@
    }
}

/// The lines of the header of a frame.
pub open spec fn frame_lines(kind: FrameKind, meta: FrameView) -> Seq<Seq<char>> {
    let f = field_lines(meta.fields);
    seq![frame_magic(kind), f[0], "integrity="@ + on_off(meta.integrity)] + f.skip(1)
}

/// What the header of a sealed frame says. Without integrity it has neither nonce nor tag.
pub open spec fn frame_sealed_meta(
    kind: FrameKind,
    raw: Seq<u8>,
    algorithm: CompressionAlgorithm,
    payload: Seq<u8>,
    integrity: bool,
    nonce: Seq<u8>,
    issued_at: nat,
) -> FrameView {
    FrameView {
        integrity,
        fields: MetaView {
            algorithm,
            nonce: if integrity {
                encoded(nonce)
            } else {
                seq![]
            },
            digest: encoded(sha256_of(raw)),
            tag: if integrity {
                encoded(frame_tag(kind, nonce, algorithm, raw.len(), payload))
            } else {
                seq![]
            },
            raw_size: raw.len(),
            encoded_size: payload.len(),
            issued_at,
        },
    }
}

/// The frame that holds `raw`; `coded` is what the codec of `algorithm` made of it, if it did.
pub open spec fn frame_sealed(
    kind: FrameKind,
    raw: Seq<u8>,
    algorithm: CompressionAlgorithm,
    coded: Option<Seq<u8>>,
    integrity: bool,
    nonce: Seq<u8>,
    issued_at: nat,
) -> Result<(FrameView, Seq<u8>), EnvelopeError> {
    match payload_form(algorithm, raw, coded) {
        Some(payload) => {
            let meta = frame_sealed_meta(
                kind,
                raw,
                algorithm,
                payload,
                integrity,
                nonce,
                issued_at,
            );
            Ok((meta, enveloped(frame_lines(kind, meta), payload)))
        },
        None => Err(EnvelopeError::Codec),
    }
}

/// Appends the header lines of a frame after the magic.
fn push_frame_fields(out: &mut Vec<char>, meta: &FrameMeta)
    ensures
        final(out)@ == old(out)@ + ended(frame_lines(FrameKind::Tcp, meta@).skip(1)),
{
    let ghost m = meta@;
    let ghost l = frame_lines(FrameKind::Tcp, m).skip(1);
    let name = chars_of(meta.algorithm.content_encoding());
    push_line(out, "content-encoding=", name.as_slice());
    let integrity = chars_of(
        if meta.integrity_enabled {
            "on"
        } else {
            "off"
        },
    );
    push_line(out, "integrity=", integrity.as_slice());
    let nonce = chars_of(meta.nonce_b64.as_str());
    push_line(out, "nonce=", nonce.as_slice());
    let digest = chars_of(meta.digest_b64.as_str());
    push_line(out, "digest=SHA-256=", digest.as_slice());
    let tag = chars_of(meta.tag_b64.as_str());
    push_line(out, "tag=HMAC-SHA-256=", tag.as_slice());
    let raw = crate::decimal::to_decimal(meta.raw_size as u64);
    push_line(out, "raw-size=", raw.as_slice());
    let enc = crate::decimal::to_decimal(meta.encoded_size as u64);
    push_line(out, "encoded-size=", enc.as_slice());
    let issued = crate::decimal::to_decimal(meta.issued_at_unix);
    push_line(out, "issued-at=", issued.as_slice());
    proof {
        reveal_with_fuel(ended, 9);
        assert(l.drop_last() =~= l.take(7));
        assert(l.take(7).drop_last() =~= l.take(6));
        assert(l.take(6).drop_last() =~= l.take(5));
        assert(l.take(5).drop_last() =~= l.take(4));
        assert(l.take(4).drop_last() =~= l.take(3));
        assert(l.take(3).drop_last() =~= l.take(2));
        assert(l.take(2).drop_last() =~= l.take(1));
        assert(l.take(1).drop_last() =~= l.take(0));
        assert(out@ =~= old(out)@ + ended(l));
    }
}

/// Seals a frame. `coded` is the output of the codec of `algorithm` for `raw`, `None` where the codec
/// failed; it is not looked at under the identity.
pub fn seal_frame(
    kind: FrameKind,
    raw: &[u8],
    algorithm: CompressionAlgorithm,
    coded: Option<&[u8]>,
    integrity: bool,
    nonce: &[u8],
    issued_at_unix: u64,
) -> (r: Result<(FrameMeta, Vec<u8>), EnvelopeError>)
    ensures
        frame_contents(r) == frame_sealed(
            kind,
            raw@,
            algorithm,
            opt_bytes(coded),
            integrity,
            nonce@,
            issued_at_unix as nat,
        ),
{
    let payload = if algorithm == CompressionAlgorithm::Identity {
        raw
    } else {
        match coded {
            Some(c) => c,
            None => {
                return Err(EnvelopeError::Codec);
            },
        }
    };
    let digest = sha256(raw);
    let nonce_b64 = if integrity {
        encode(nonce)
    } else {
        String::new()
    };
    let tag_b64 = if integrity {
        let tag = compute_frame_tag(kind, nonce, algorithm, raw.len(), payload);
        encode(tag.as_slice())
    } else {
        String::new()
    };
    let meta = FrameMeta {
        algorithm,
        integrity_enabled: integrity,
        nonce_b64,
        digest_b64: encode(digest.as_slice()),
        tag_b64,
        raw_size: raw.len(),
        encoded_size: payload.len(),
        issued_at_unix,
    };
    let mut header = chars_of(kind.magic());
    header.push('\n');
    push_frame_fields(&mut header, &meta);
    header.push('\n');
    let ghost l = frame_lines(kind, meta@);
    proof {
        lemma_ended_front(l);
        assert(l.skip(1) =~= frame_lines(FrameKind::Tcp, meta@).skip(1));
        lemma_ended_joined(l);
        assert(header@ =~= ended(l) + seq!['\n']);
        assert(header@ =~= header_of(l) + seq!['\n', '\n']);
    }
    let blob = finish_envelope(header.as_slice(), payload);
    Ok((meta, blob))
}

/// What is wrong with the tag of a frame.
pub open spec fn frame_tag_fault(kind: FrameKind, fields: MetaView, body: Seq<u8>) -> Option<EnvelopeError> {
    let nonce = decoded(fields.nonce);
    let tag = decoded(fields.tag);
    if nonce is None {
        Some(EnvelopeError::NonceEncoding)
    } else if tag is None {
        Some(EnvelopeError::TagEncoding)
    } else if tag.unwrap() != frame_tag(kind, nonce.unwrap(), fields.algorithm, fields.raw_size, body) {
        Some(EnvelopeError::TagMismatch)
    } else {
        None
    }
}

/// The plain payload of a frame, held against its size and its digest; `plain` is what the codec made of it.
pub open spec fn frame_payload(fields: MetaView, body: Seq<u8>, plain: Option<Seq<u8>>) -> Result<
    Seq<u8>,
    EnvelopeError,
> {
    let digest = decoded(fields.digest);
    match payload_form(fields.algorithm, body, plain) {
        None => Err(EnvelopeError::Codec),
        Some(raw) => if raw.len() != fields.raw_size {
            Err(EnvelopeError::RawSizeMismatch)
        } else if digest is None {
            Err(EnvelopeError::DigestEncoding)
        } else if digest.unwrap() != sha256_of(raw) {
            Err(EnvelopeError::DigestMismatch)
        } else {
            Ok(raw)
        },
    }
}

fn find_tag_fault(kind: FrameKind, meta: &FrameMeta, body: &[u8]) -> (r: Option<EnvelopeError>)
    ensures
        r == frame_tag_fault(kind, meta@.fields, body@),
{
    let nonce = match decode(meta.nonce_b64.as_str()) {
        Some(b) => b,
        None => {
            return Some(EnvelopeError::NonceEncoding);
        },
    };
    let tag = match decode(meta.tag_b64.as_str()) {
        Some(b) => b,
        None => {
            return Some(EnvelopeError::TagEncoding);
        },
    };
    let expected = compute_frame_tag(kind, nonce.as_slice(), meta.algorithm, meta.raw_size, body);
    if constant_time_eq(tag.as_slice(), expected.as_slice()) {
        None
    } else {
        Some(EnvelopeError::TagMismatch)
    }
}

fn read_frame_payload(meta: &FrameMeta, body: &[u8], plain: Option<&[u8]>) -> (r: Result<Vec<u8>, EnvelopeError>)
    ensures
        match r {
            Ok(raw) => frame_payload(meta@.fields, body@, opt_bytes(plain)) == Ok::<Seq<u8>, EnvelopeError>(raw@),
            Err(e) => frame_payload(meta@.fields, body@, opt_bytes(plain)) == Err::<Seq<u8>, EnvelopeError>(e),
        },
{
    let raw = if meta.algorithm == CompressionAlgorithm::Identity {
        body
    } else {
        match plain {
            Some(p) => p,
            None => {
                return Err(EnvelopeError::Codec);
            },
        }
    };
    if raw.len() != meta.raw_size {
        return Err(EnvelopeError::RawSizeMismatch);
    }
    let digest = match decode(meta.digest_b64.as_str()) {
        Some(b) => b,
        None => {
            return Err(EnvelopeError::DigestEncoding);
        },
    };
    let actual = sha256(raw);
    if !constant_time_eq(digest.as_slice(), actual.as_slice()) {
        return Err(EnvelopeError::DigestMismatch);
    }
    Ok(vstd::slice::slice_to_vec(raw))
}

/// The header and the plain payload of a frame; `plain` is what the codec made of the payload.
pub open spec fn frame_unsealed(
    kind: FrameKind,
    data: Seq<u8>,
    integrity_required: bool,
    plain: Option<Seq<u8>>,
) -> Result<(FrameView, Seq<u8>), EnvelopeError> {
    match parted(data, false) {
        Err(e) => Err(e),
        Ok((header, body)) => match frame_meta(kind, header, body.len()) {
            Err(e) => Err(e),
            Ok(meta) => {
                if integrity_required && !meta.integrity {
                    Err(EnvelopeError::IntegrityDisabled)
                } else if meta.integrity && frame_tag_fault(kind, meta.fields, body) is Some {
                    Err(frame_tag_fault(kind, meta.fields, body)->0)
                } else {
                    match frame_payload(meta.fields, body, plain) {
                        Err(e) => Err(e),
                        Ok(raw) => Ok((meta, raw)),
                    }
                }
            },
        },
    }
}

/// Unseals a frame. `plain` is the output of the codec for the payload as sent, `None` where the
/// codec failed; it is not looked at under the identity.
pub fn unseal_frame(
    kind: FrameKind,
    data: &[u8],
    integrity_required: bool,
    plain: Option<&[u8]>,
) -> (r: Result<(FrameMeta, Vec<u8>), EnvelopeError>)
    ensures
        frame_contents(r) == frame_unsealed(kind, data@, integrity_required, opt_bytes(plain)),
{
    let (header, body) = match split_header_body(data, false) {
        Ok(parts) => parts,
        Err(e) => {
            return Err(e);
        },
    };
    let meta = match parse_frame_meta(kind, header.as_str(), body.len()) {
        Ok(meta) => meta,
        Err(e) => {
            return Err(e);
        },
    };
    if integrity_required && !meta.integrity_enabled {
        return Err(EnvelopeError::IntegrityDisabled);
    }
    if meta.integrity_enabled {
        match find_tag_fault(kind, &meta, body) {
            Some(e) => {
                return Err(e);
            },
            None => {},
        }
    }
    match read_frame_payload(&meta, body, plain) {
        Ok(raw) => Ok((meta, raw)),
        Err(e) => Err(e),
    }
}


/// Whether two texts differ within their first two characters.
spec fn heads_differ(a: Seq<char>, b: Seq<char>) -> bool {
    a.len() >= 2 && b.len() >= 2 && (a[0] != b[0] || a[1] != b[1])
}

/// What follows each of several prefixes is found, where the prefixes differ.
proof fn lemma_last_after(
    lines: Seq<Seq<char>>,
    prefixes: Seq<Seq<char>>,
    values: Seq<Seq<char>>,
    k: int,
    n: int,
)
    requires
        lines.len() == prefixes.len() + 1,
        values.len() == prefixes.len(),
        forall|i: int|
            0 <= i < prefixes.len() ==> #[trigger] prefixes[i] + values[i] == lines[i + 1],
        forall|i: int| 0 <= i < values.len() ==> solid(#[trigger] values[i]),
        forall|i: int, j: int|
            0 <= i < prefixes.len() && 0 <= j < prefixes.len() && i != j ==> heads_differ(
                #[trigger] prefixes[i],
                #[trigger] prefixes[j],
            ),
        0 <= k < prefixes.len(),
        k + 1 < n <= lines.len(),
    ensures
        last_after(lines, prefixes[k], n) == Some(values[k]),
    decreases n,
{
    let i = n - 2;
    let p = prefixes[i];
    let v = values[i];
    let line = lines[n - 1];
    assert(p + v == line);
    if i == k {
        assert(line.take(p.len() as int) =~= p);
        assert(line.skip(p.len() as int) =~= v);
        assert(solid(v));
        lemma_trimmed_solid(v);
    } else {
        let q = prefixes[k];
        assert(heads_differ(prefixes[i], prefixes[k]));
        if begins_with(line, q) {
            assert(line.take(q.len() as int)[0] == line[0] && line.take(q.len() as int)[1]
                == line[1]);
            assert(line[0] == p[0] && line[1] == p[1]);
        }
        lemma_last_after(lines, prefixes, values, k, n - 1);
    }
}

/// Where the line that names the coding names a known one and no other line names any, no unknown
/// coding is named.
proof fn lemma_known_coding(
    lines: Seq<Seq<char>>,
    prefixes: Seq<Seq<char>>,
    values: Seq<Seq<char>>,
    from: int,
)
    requires
        lines.len() == prefixes.len() + 1,
        values.len() == prefixes.len(),
        forall|i: int|
            0 <= i < prefixes.len() ==> #[trigger] prefixes[i] + values[i] == lines[i + 1],
        solid(values[0]),
        forall|i: int|
            0 < i < prefixes.len() ==> heads_differ(#[trigger] prefixes[i], prefixes[0]),
        prefixes.len() > 0,
        prefixes[0] == "content-encoding="@,
        coding_named(values[0]) is Some,
        1 <= from,
    ensures
        !unknown_coding(lines, from),
    decreases lines.len() - from,
{
    if from < lines.len() {
        let i = from - 1;
        let p = prefixes[i];
        let v = values[i];
        let line = lines[from];
        let q = prefixes[0];
        assert(p + v == line);
        if i == 0 {
            assert(line.skip(p.len() as int) =~= v);
            lemma_trimmed_solid(v);
        } else {
            assert(heads_differ(prefixes[i], prefixes[0]));
            if begins_with(line, q) {
                assert(line.take(q.len() as int)[0] == line[0] && line.take(q.len() as int)[1]
                    == line[1]);
                assert(line[0] == p[0] && line[1] == p[1]);
            }
        }
        lemma_known_coding(lines, prefixes, values, from + 1);
    }
}

spec fn net_prefixes() -> Seq<Seq<char>> {
    seq![
        "content-encoding="@,
        "nonce="@,
        "digest=SHA-256="@,
        "tag=HMAC-SHA-256="@,
        "raw-size="@,
        "encoded-size="@,
        "issued-at="@,
    ]
}

spec fn net_values(m: MetaView) -> Seq<Seq<char>> {
    seq![
        coding_name(m.algorithm),
        m.nonce,
        m.digest,
        m.tag,
        decimal(m.raw_size),
        decimal(m.encoded_size),
        decimal(m.issued_at),
    ]
}

spec fn frame_prefixes() -> Seq<Seq<char>> {
    seq![
        "content-encoding="@,
        "integrity="@,
        "nonce="@,
        "digest=SHA-256="@,
        "tag=HMAC-SHA-256="@,
        "raw-size="@,
        "encoded-size="@,
        "issued-at="@,
    ]
}

spec fn frame_values(m: FrameView) -> Seq<Seq<char>> {
    seq![
        coding_name(m.fields.algorithm),
        on_off(m.integrity),
        m.fields.nonce,
        m.fields.digest,
        m.fields.tag,
        decimal(m.fields.raw_size),
        decimal(m.fields.encoded_size),
        decimal(m.fields.issued_at),
    ]
}

proof fn lemma_heads()
    ensures
        forall|i: int, j: int|
            0 <= i < 8 && 0 <= j < 8 && i != j ==> heads_differ(
                #[trigger] frame_prefixes()[i],
                #[trigger] frame_prefixes()[j],
            ),
        forall|i: int, j: int|
            0 <= i < 7 && 0 <= j < 7 && i != j ==> heads_differ(
                #[trigger] net_prefixes()[i],
                #[trigger] net_prefixes()[j],
            ),
{
    reveal_strlit("content-encoding=");
    reveal_strlit("integrity=");
    reveal_strlit("nonce=");
    reveal_strlit("digest=SHA-256=");
    reveal_strlit("tag=HMAC-SHA-256=");
    reveal_strlit("raw-size=");
    reveal_strlit("encoded-size=");
    reveal_strlit("issued-at=");
    assert forall|i: int, j: int| 0 <= i < 8 && 0 <= j < 8 && i != j implies heads_differ(
        #[trigger] frame_prefixes()[i],
        #[trigger] frame_prefixes()[j],
    ) by {
        let p = frame_prefixes();
        assert(p[0][0] == 'c' && p[1][0] == 'i' && p[2][0] == 'n' && p[3][0] == 'd' && p[4][0] == 't'
            && p[5][0] == 'r' && p[6][0] == 'e' && p[7][0] == 'i');
        assert(p[1][1] == 'n' && p[7][1] == 's');
    }
    assert forall|i: int, j: int| 0 <= i < 7 && 0 <= j < 7 && i != j implies heads_differ(
        #[trigger] net_prefixes()[i],
        #[trigger] net_prefixes()[j],
    ) by {
        let p = net_prefixes();
        assert(p[0][0] == 'c' && p[1][0] == 'n' && p[2][0] == 'd' && p[3][0] == 't' && p[4][0] == 'r'
            && p[5][0] == 'e' && p[6][0] == 'i');
    }
}

proof fn lemma_values_solid(m: MetaView)
    requires
        writable(m),
    ensures
        solid(m.nonce),
        solid(m.digest),
        solid(m.tag),
        solid(coding_name(m.algorithm)),
        solid(decimal(m.raw_size)),
        solid(decimal(m.encoded_size)),
        solid(decimal(m.issued_at)),
        coding_named(coding_name(m.algorithm)) == Some(m.algorithm),
        parsed(decimal(m.raw_size), usize::MAX as nat) == Some(m.raw_size),
        parsed(decimal(m.encoded_size), usize::MAX as nat) == Some(m.encoded_size),
        parsed(decimal(m.issued_at), u64::MAX as nat) == Some(m.issued_at),
{
    lemma_armoured_tidy(m.nonce);
    lemma_armoured_tidy(m.digest);
    lemma_armoured_tidy(m.tag);
    lemma_coding_tidy(m.algorithm);
    lemma_decimal_tidy(m.raw_size);
    lemma_decimal_tidy(m.encoded_size);
    lemma_decimal_tidy(m.issued_at);
    law_coding_names(m.algorithm);
    law_decimal_roundtrip(m.raw_size, usize::MAX as nat);
    law_decimal_roundtrip(m.encoded_size, usize::MAX as nat);
    law_decimal_roundtrip(m.issued_at, u64::MAX as nat);
}

/// The written header of a payload envelope is read back.
pub proof fn law_net_header_roundtrip(m: MetaView)
    requires
        writable(m),
    ensures
        net_meta(header_of(net_lines(m)), m.encoded_size) == Ok::<MetaView, EnvelopeError>(m),
        forall|i: int|
            0 <= i < net_lines(m).len() ==> is_line(#[trigger] net_lines(m)[i]) && is_ascii_chars(
                net_lines(m)[i],
            ),
{
    let l = net_lines(m);
    let p = net_prefixes();
    let v = net_values(m);
    lemma_frame_magic(FrameKind::Net);
    lemma_tidy_line(frame_magic(FrameKind::Net));
    lemma_field_lines(m);
    assert forall|i: int| 0 <= i < l.len() implies is_line(#[trigger] l[i]) && is_ascii_chars(l[i]) by {
        if i > 0 {
            assert(l[i] == field_lines(m)[i - 1]);
        }
    }
    lemma_lines_joined(l);
    lemma_heads();
    lemma_values_solid(m);
    lemma_last_after(l, p, v, 0, 8);
    lemma_last_after(l, p, v, 1, 8);
    lemma_last_after(l, p, v, 2, 8);
    lemma_last_after(l, p, v, 3, 8);
    lemma_last_after(l, p, v, 4, 8);
    lemma_last_after(l, p, v, 5, 8);
    lemma_last_after(l, p, v, 6, 8);
    lemma_known_coding(l, p, v, 1);
}

/// What was sealed is unsealed: the header and the octets come back, given that the codec undoes
/// what it did.
pub proof fn law_net_roundtrip(
    raw: Seq<u8>,
    algorithm: CompressionAlgorithm,
    coded: Option<Seq<u8>>,
    nonce: Seq<u8>,
    issued_at: nat,
)
    requires
        raw.len() <= usize::MAX,
        coded matches Some(c) ==> c.len() <= usize::MAX,
        issued_at <= u64::MAX,
    ensures
        net_sealed(raw, algorithm, coded, nonce, issued_at) matches Ok((meta, blob))
            ==> net_unsealed(blob, Some(raw)) == Ok::<(MetaView, Seq<u8>), EnvelopeError>(
            (meta, raw),
        ),
{
    let used = usable(algorithm);
    if let Some(payload) = payload_form(used, raw, coded) {
        let meta = net_sealed_meta(raw, used, payload, nonce, issued_at);
        lemma_encoded_symbols(nonce);
        lemma_encoded_symbols(sha256_of(raw));
        lemma_encoded_symbols(frame_tag(FrameKind::Net, nonce, used, raw.len(), payload));
        law_net_header_roundtrip(meta);
        lemma_parted(net_lines(meta), payload, false);
        law_base64_roundtrip(nonce);
        law_base64_roundtrip(sha256_of(raw));
        law_base64_roundtrip(frame_tag(FrameKind::Net, nonce, used, raw.len(), payload));
    }
}

/// A payload put in place of the sealed one is refused, unless its tag happens to be the same.
pub proof fn law_net_changed_payload_refused(
    raw: Seq<u8>,
    algorithm: CompressionAlgorithm,
    payload: Seq<u8>,
    nonce: Seq<u8>,
    issued_at: nat,
    other: Seq<u8>,
    plain: Option<Seq<u8>>,
)
    requires
        raw.len() <= usize::MAX,
        payload.len() <= usize::MAX,
        issued_at <= u64::MAX,
        other.len() == payload.len(),
        frame_tag(FrameKind::Net, nonce, algorithm, raw.len(), other) != frame_tag(
            FrameKind::Net,
            nonce,
            algorithm,
            raw.len(),
            payload,
        ),
    ensures
        net_unsealed(
            enveloped(net_lines(net_sealed_meta(raw, algorithm, payload, nonce, issued_at)), other),
            plain,
        ) == Err::<(MetaView, Seq<u8>), EnvelopeError>(EnvelopeError::TagMismatch),
{
    let meta = net_sealed_meta(raw, algorithm, payload, nonce, issued_at);
    lemma_encoded_symbols(nonce);
    lemma_encoded_symbols(sha256_of(raw));
    lemma_encoded_symbols(frame_tag(FrameKind::Net, nonce, algorithm, raw.len(), payload));
    law_net_header_roundtrip(meta);
    lemma_parted(net_lines(meta), other, false);
    law_base64_roundtrip(nonce);
    law_base64_roundtrip(sha256_of(raw));
    law_base64_roundtrip(frame_tag(FrameKind::Net, nonce, algorithm, raw.len(), payload));
}

/// Whether the header of a frame can be written and read back: with integrity it has a nonce and a
/// tag.
pub open spec fn frame_writable(m: FrameView) -> bool {
    writable(m.fields) && (m.integrity ==> m.fields.nonce.len() > 0 && m.fields.tag.len() > 0)
}

/// The words for the state of integrity are read as what they say.
proof fn lemma_on_off(b: bool)
    ensures
        switches_on(on_off(b)) == b,
        tidy(on_off(b)),
        tidy("integrity="@),
        "integrity="@.len() > 0,
{
    reveal_strlit("on");
    reveal_strlit("off");
    reveal_strlit("true");
    reveal_strlit("1");
    reveal_strlit("integrity=");
    let lo = crate::text::lowered(on_off(b));
    assert(lo.len() == on_off(b).len());
    assert(crate::text::lowered("on"@).len() == 2);
    assert(crate::text::lowered("true"@).len() == 4);
}

/// The written header of a frame is read back.
pub proof fn law_frame_header_roundtrip(kind: FrameKind, m: FrameView)
    requires
        frame_writable(m),
    ensures
        frame_meta(kind, header_of(frame_lines(kind, m)), m.fields.encoded_size) == Ok::<
            FrameView,
            EnvelopeError,
        >(m),
        forall|i: int|
            0 <= i < frame_lines(kind, m).len() ==> is_line(#[trigger] frame_lines(kind, m)[i])
                && is_ascii_chars(frame_lines(kind, m)[i]),
{
    let l = frame_lines(kind, m);
    let f = field_lines(m.fields);
    let p = frame_prefixes();
    let v = frame_values(m);
    lemma_frame_magic(kind);
    lemma_tidy_line(frame_magic(kind));
    lemma_field_lines(m.fields);
    lemma_on_off(m.integrity);
    lemma_tidy_concat("integrity="@, on_off(m.integrity));
    lemma_tidy_line("integrity="@ + on_off(m.integrity));
    assert(l.len() == 9);
    assert forall|i: int| 0 <= i < l.len() implies is_line(#[trigger] l[i]) && is_ascii_chars(l[i]) by {
        if i == 1 {
            assert(l[1] == f[0]);
        } else if i >= 3 {
            assert(l[i] == f[i - 2]);
        }
    }
    lemma_lines_joined(l);
    lemma_heads();
    lemma_values_solid(m.fields);
    lemma_last_after(l, p, v, 0, 9);
    lemma_last_after(l, p, v, 1, 9);
    lemma_last_after(l, p, v, 2, 9);
    lemma_last_after(l, p, v, 3, 9);
    lemma_last_after(l, p, v, 4, 9);
    lemma_last_after(l, p, v, 5, 9);
    lemma_last_after(l, p, v, 6, 9);
    lemma_last_after(l, p, v, 7, 9);
    lemma_known_coding(l, p, v, 1);
}

proof fn lemma_frame_sealed_writable(
    kind: FrameKind,
    raw: Seq<u8>,
    algorithm: CompressionAlgorithm,
    payload: Seq<u8>,
    integrity: bool,
    nonce: Seq<u8>,
    issued_at: nat,
)
    requires
        raw.len() <= usize::MAX,
        payload.len() <= usize::MAX,
        issued_at <= u64::MAX,
        integrity ==> nonce.len() > 0,
    ensures
        frame_writable(
            frame_sealed_meta(kind, raw, algorithm, payload, integrity, nonce, issued_at),
        ),
{
    lemma_encoded_symbols(nonce);
    lemma_encoded_symbols(sha256_of(raw));
    let tag = frame_tag(kind, nonce, algorithm, raw.len(), payload);
    lemma_encoded_symbols(tag);
    lemma_frame_tag_len(kind, nonce, algorithm, raw.len(), payload);
}

proof fn lemma_frame_tag_len(
    kind: FrameKind,
    nonce: Seq<u8>,
    algorithm: CompressionAlgorithm,
    raw_size: nat,
    payload: Seq<u8>,
)
    ensures
        frame_tag(kind, nonce, algorithm, raw_size, payload).len() == 32,
{
    reveal(frame_tag);
    let key = sha256_of(
        encode_utf8(frame_context(kind)) + nonce + be64(raw_size as u64) + encode_utf8(
            coding_name(algorithm),
        ),
    );
    lemma_hmac_len(key, encode_utf8(frame_magic(kind)) + be64(payload.len() as u64) + payload);
}

/// What was sealed is unsealed: the header and the octets come back, given that the codec undoes
/// what it did. A receiver that requires integrity gets them where the frame has it.
pub proof fn law_frame_roundtrip(
    kind: FrameKind,
    raw: Seq<u8>,
    algorithm: CompressionAlgorithm,
    coded: Option<Seq<u8>>,
    integrity: bool,
    integrity_required: bool,
    nonce: Seq<u8>,
    issued_at: nat,
)
    requires
        raw.len() <= usize::MAX,
        coded matches Some(c) ==> c.len() <= usize::MAX,
        issued_at <= u64::MAX,
        integrity ==> nonce.len() > 0,
        integrity_required ==> integrity,
    ensures
        frame_sealed(kind, raw, algorithm, coded, integrity, nonce, issued_at) matches Ok(
            (meta, blob),
        ) ==> frame_unsealed(kind, blob, integrity_required, Some(raw)) == Ok::<
            (FrameView, Seq<u8>),
            EnvelopeError,
        >((meta, raw)),
{
    if let Some(payload) = payload_form(algorithm, raw, coded) {
        let meta = frame_sealed_meta(kind, raw, algorithm, payload, integrity, nonce, issued_at);
        lemma_frame_sealed_writable(kind, raw, algorithm, payload, integrity, nonce, issued_at);
        law_frame_header_roundtrip(kind, meta);
        lemma_parted(frame_lines(kind, meta), payload, false);
        law_base64_roundtrip(nonce);
        law_base64_roundtrip(sha256_of(raw));
        law_base64_roundtrip(frame_tag(kind, nonce, algorithm, raw.len(), payload));
    }
}

/// A receiver that requires integrity refuses a frame sealed without it.
pub proof fn law_frame_requires_integrity(
    kind: FrameKind,
    raw: Seq<u8>,
    algorithm: CompressionAlgorithm,
    coded: Option<Seq<u8>>,
    nonce: Seq<u8>,
    issued_at: nat,
    plain: Option<Seq<u8>>,
)
    requires
        raw.len() <= usize::MAX,
        coded matches Some(c) ==> c.len() <= usize::MAX,
        issued_at <= u64::MAX,
    ensures
        frame_sealed(kind, raw, algorithm, coded, false, nonce, issued_at) matches Ok((_, blob))
            ==> frame_unsealed(kind, blob, true, plain) == Err::<
            (FrameView, Seq<u8>),
            EnvelopeError,
        >(EnvelopeError::IntegrityDisabled),
{
    if let Some(payload) = payload_form(algorithm, raw, coded) {
        let meta = frame_sealed_meta(kind, raw, algorithm, payload, false, nonce, issued_at);
        lemma_frame_sealed_writable(kind, raw, algorithm, payload, false, nonce, issued_at);
        law_frame_header_roundtrip(kind, meta);
        lemma_parted(frame_lines(kind, meta), payload, false);
    }
}

/// With integrity, a payload put in place of the sealed one is refused, unless its tag happens to be
/// the same.
pub proof fn law_frame_changed_payload_refused(
    kind: FrameKind,
    raw: Seq<u8>,
    algorithm: CompressionAlgorithm,
    payload: Seq<u8>,
    nonce: Seq<u8>,
    issued_at: nat,
    other: Seq<u8>,
    integrity_required: bool,
    plain: Option<Seq<u8>>,
)
    requires
        raw.len() <= usize::MAX,
        payload.len() <= usize::MAX,
        issued_at <= u64::MAX,
        nonce.len() > 0,
        other.len() == payload.len(),
        frame_tag(kind, nonce, algorithm, raw.len(), other) != frame_tag(
            kind,
            nonce,
            algorithm,
            raw.len(),
            payload,
        ),
    ensures
        frame_unsealed(
            kind,
            enveloped(
                frame_lines(
                    kind,
                    frame_sealed_meta(kind, raw, algorithm, payload, true, nonce, issued_at),
                ),
                other,
            ),
            integrity_required,
            plain,
        ) == Err::<(FrameView, Seq<u8>), EnvelopeError>(EnvelopeError::TagMismatch),
{
    let meta = frame_sealed_meta(kind, raw, algorithm, payload, true, nonce, issued_at);
    lemma_frame_sealed_writable(kind, raw, algorithm, payload, true, nonce, issued_at);
    law_frame_header_roundtrip(kind, meta);
    lemma_parted(frame_lines(kind, meta), other, false);
    law_base64_roundtrip(nonce);
    law_base64_roundtrip(sha256_of(raw));
    law_base64_roundtrip(frame_tag(kind, nonce, algorithm, raw.len(), payload));
}

/// A frame ends in its payload: as it was under the identity, else as the codec made it. Its header tells the coding that
/// was asked for, the sizes, the nonce, and the digest. It fails only where a codec makes nothing.
pub proof fn law_frame_sealed_payload(
    kind: FrameKind,
    raw: Seq<u8>,
    algorithm: CompressionAlgorithm,
    coded: Option<Seq<u8>>,
    integrity: bool,
    nonce: Seq<u8>,
    issued_at: nat,
)
    ensures
        match frame_sealed(kind, raw, algorithm, coded, integrity, nonce, issued_at) {
            Ok((meta, data)) => {
                &&& meta.fields.algorithm == algorithm
                &&& algorithm == CompressionAlgorithm::Identity ==> ends_in(data, raw) && meta.fields.encoded_size == raw.len()
                &&& algorithm != CompressionAlgorithm::Identity ==> (coded matches Some(c) && ends_in(data, c)
                    && meta.fields.encoded_size == c.len())
                &&& meta.fields.raw_size == raw.len()
                &&& meta.integrity == integrity && decoded(meta.fields.digest) == Some(sha256_of(raw)) && (integrity ==> decoded(
                    meta.fields.nonce,
                ) == Some(nonce))
                &&& meta.fields.issued_at == issued_at
            },
            Err(e) => e == EnvelopeError::Codec && algorithm != CompressionAlgorithm::Identity && coded is None,
        },
{
    if let Ok((meta, data)) = frame_sealed(kind, raw, algorithm, coded, integrity, nonce, issued_at) {
        let payload = payload_form(algorithm, raw, coded).unwrap();
        lemma_payload_at_end(frame_lines(kind, meta), payload, data, false);
        law_base64_roundtrip(nonce);
        law_base64_roundtrip(sha256_of(raw));
        law_base64_roundtrip(sha256_of(payload));
    }
}

/// What is taken out is what stands at the end, or what the codec made of that where the header names a coding.
pub proof fn law_frame_unsealed_payload(kind: FrameKind, data: Seq<u8>, required: bool, plain: Option<Seq<u8>>)
    ensures
        frame_unsealed(kind, data, required, plain) matches Ok((meta, raw)) ==> {
            &&& meta.fields.algorithm == CompressionAlgorithm::Identity ==> ends_in(data, raw)
            &&& meta.fields.algorithm != CompressionAlgorithm::Identity ==> plain == Some(raw)
            &&& raw.len() == meta.fields.raw_size
        },
{
    lemma_payload_at_end(seq![], seq![], data, false);
}

/// An envelope ends in its payload: as it was under the identity, else as the codec made it. Its header tells the coding that
/// was asked for, the sizes, the nonce, and the digest. It fails only where a codec makes nothing.
pub proof fn law_net_sealed_payload(
    raw: Seq<u8>,
    algorithm: CompressionAlgorithm,
    coded: Option<Seq<u8>>,
    nonce: Seq<u8>,
    issued_at: nat,
)
    ensures
        match net_sealed(raw, algorithm, coded, nonce, issued_at) {
            Ok((meta, data)) => {
                &&& meta.algorithm == algorithm
                &&& algorithm == CompressionAlgorithm::Identity ==> ends_in(data, raw) && meta.encoded_size == raw.len()
                &&& algorithm != CompressionAlgorithm::Identity ==> (coded matches Some(c) && ends_in(data, c)
                    && meta.encoded_size == c.len())
                &&& meta.raw_size == raw.len()
                &&& decoded(meta.nonce) == Some(nonce) && decoded(meta.digest) == Some(sha256_of(raw))
                &&& meta.issued_at == issued_at
            },
            Err(e) => e == EnvelopeError::Codec && algorithm != CompressionAlgorithm::Identity && coded is None,
        },
{
    if let Ok((meta, data)) = net_sealed(raw, algorithm, coded, nonce, issued_at) {
        let payload = payload_form(algorithm, raw, coded).unwrap();
        lemma_payload_at_end(net_lines(meta), payload, data, false);
        law_base64_roundtrip(nonce);
        law_base64_roundtrip(sha256_of(raw));
        law_base64_roundtrip(sha256_of(payload));
    }
}

/// What is taken out is what stands at the end, or what the codec made of that where the header names a coding.
pub proof fn law_net_unsealed_payload(data: Seq<u8>, plain: Option<Seq<u8>>)
    ensures
        net_unsealed(data, plain) matches Ok((meta, raw)) ==> {
            &&& meta.algorithm == CompressionAlgorithm::Identity ==> ends_in(data, raw)
            &&& meta.algorithm != CompressionAlgorithm::Identity ==> plain == Some(raw)
            &&& raw.len() == meta.raw_size
        },
{
    lemma_payload_at_end(seq![], seq![], data, false);
}

/// A tag binds all that it vouches for: what its key is made of differs wherever the nonce, of one length, the coding or
/// the size does, and what it is made over wherever the payload does.
pub proof fn law_frame_tag_binds(
    kind: FrameKind,
    n: Seq<u8>,
    m: Seq<u8>,
    a: CompressionAlgorithm,
    b: CompressionAlgorithm,
    r: u64,
    s: u64,
    p: Seq<u8>,
    q: Seq<u8>,
)
    requires
        n.len() == m.len(),
    ensures
        frame_key_material(kind, n, a, r as nat) == frame_key_material(kind, m, b, s as nat) ==> n == m && a == b && r == s,
        frame_message(kind, p) == frame_message(kind, q) ==> p == q,
        frame_tag(kind, n, a, r as nat, p) == hmac_of(
            sha256_of(frame_key_material(kind, n, a, r as nat)),
            frame_message(kind, p),
        ),
{
    reveal(frame_tag);
    let c = encode_utf8(frame_context(kind));
    let (x, y) = (encode_utf8(coding_name(a)), encode_utf8(coding_name(b)));
    lemma_be64_differ(r, s);
    lemma_be64_differ(s, r);
    lemma_coding_octets(a, b);
    lemma_coding_octets(b, a);
    if frame_key_material(kind, n, a, r as nat) == frame_key_material(kind, m, b, s as nat) {
        assert(frame_key_material(kind, n, a, r as nat) =~= c + (n + (be64(r) + x)));
        assert(frame_key_material(kind, m, b, s as nat) =~= c + (m + (be64(s) + y)));
        lemma_same_parts(c, c, n + (be64(r) + x), m + (be64(s) + y));
        lemma_same_parts(n, m, be64(r) + x, be64(s) + y);
        lemma_same_parts(be64(r), be64(s), x, y);
    }
    if frame_message(kind, p) == frame_message(kind, q) {
        let g = encode_utf8(frame_magic(kind));
        let (u, v) = (be64(p.len() as u64), be64(q.len() as u64));
        lemma_be64_differ(p.len() as u64, q.len() as u64);
        lemma_be64_differ(q.len() as u64, p.len() as u64);
        assert(frame_message(kind, p) =~= g + (u + p));
        assert(frame_message(kind, q) =~= g + (v + q));
        lemma_same_parts(g, g, u + p, v + q);
        lemma_same_parts(u, v, p, q);
    }
}

}
