//! A server over TLS apart from its sockets: its settings, how it holds a request against its digest and its tag,
//! and how it completes and writes a response. Random octets and the work of the codec come in as arguments.
use vstd::prelude::*;
use vstd::slice::{slice_subrange, slice_to_vec};
use vstd::string::StringSliceAdditionalSpecFns;
use vstd::utf8::{decode_utf8, encode_utf8, encode_utf8_decode_utf8, valid_utf8};

use crate::bytes::{
    be16, be64, constant_time_eq, hex, law_be16_roundtrip, lemma_be64_differ, lemma_same_front, lemma_same_parts,
    push_be16, push_be64, push_bytes, to_hex,
};
use crate::crypto::base64::{decode, decode_chars, decoded, encode, encoded, law_base64_roundtrip};
use crate::crypto::sha256::{sha256, sha256_of};
use crate::decimal::{decimal, to_decimal};
use crate::net::address::{address_words, canonical_address, NoAddress};
use crate::net::blob::opt_bytes;
use crate::net::http::compression::{
    accepted_codings, coding_name, implemented, law_coding_names, law_selected_is_accepted, parse_accept_encoding,
    select_compressing, selected, AcceptedCoding, CompressionAlgorithm, CompressionLevel,
};
use crate::net::http::headers::{field, law_field_set};
use crate::net::http::message::{
    body_coding, body_decoded, decode_body, digest_in, digest_value, is_sha256, law_decoded_body,
    lemma_own_digest_element, read_body_coding, MessageError,
};
use crate::net::http::method::{law_method_names, method_name, method_named, HttpMethod};
use crate::net::http::request::{HttpRequest, RequestView};
use crate::net::http::response::{
    push_wire_line, table_wire, FieldTable, HttpResponse, ResponseView,
};
use crate::net::http::server::{
    error_page, fields_of, head_in, lemma_fields_of_hold, lemma_fields_of_order, read_head_fields, with_body,
    HeadView, HttpServer, NotBound,
};
use crate::net::http::trailer::{first_line_len, lemma_line_len, line_len};
use crate::net::http::version::{version_name, version_named, HttpVersion};
use crate::net::https::alpn::AlpnProtocol;
use crate::net::https::exchange::pair_texts;
use crate::net::https::tls::config::TlsCfg;
use crate::net::ticket::read_loose;
use crate::table::{
    before, in_name_order, law_put_in_order, law_put_value, law_value_found, law_value_nocase_stands,
    law_value_stands, lemma_put_entries, lemma_put_last, put, value, value_nocase, Table,
};
use crate::text::{
    chars_of, head, is_text, is_text_nocase, lacks, lowercase, lowered, push_chars, push_text, same_nocase, split,
    split_on, starts_with, string_of, texts, to_lower, trim, trimmed, up_to, utf8_text, words, words_of,
};
use crate::net::http::wire::lemma_octets_lack;

verus! {

/// Settings of a server. Times are in milliseconds.
#[derive(Debug, Clone)]
pub struct HttpsServerCfg {
    pub tls_config: TlsCfg,
    pub max_connections: usize,
    pub request_timeout_ms: u64,
    pub max_body_size: usize,
    pub keep_alive: bool,
    pub keep_alive_timeout_ms: u64,
    pub compression_enabled: bool,
    pub compression_level: CompressionLevel,
    pub preferred_compression: Vec<CompressionAlgorithm>,
    pub require_request_digest: bool,
    pub require_request_tag: bool,
}

impl HttpsServerCfg {
    /// The settings that hold where none are made, with the given ones for TLS.
    pub fn with_tls_cfg(tls_config: TlsCfg) -> (r: Self)
        ensures
            r.tls_config == tls_config,
            r.max_connections == 100,
            r.request_timeout_ms == 30000,
            r.max_body_size == 10485760,
            r.keep_alive,
            r.keep_alive_timeout_ms == 60000,
            r.compression_enabled,
            r.compression_level == CompressionLevel::Default,
            r.preferred_compression@ == seq![
                CompressionAlgorithm::Zstd,
                CompressionAlgorithm::Brotli,
                CompressionAlgorithm::Gzip,
                CompressionAlgorithm::Deflate,
            ],
            !r.require_request_digest,
            !r.require_request_tag,
    {
        let preferred = vec![
            CompressionAlgorithm::Zstd,
            CompressionAlgorithm::Brotli,
            CompressionAlgorithm::Gzip,
            CompressionAlgorithm::Deflate,
        ];
        assert(preferred@ =~= seq![
            CompressionAlgorithm::Zstd,
            CompressionAlgorithm::Brotli,
            CompressionAlgorithm::Gzip,
            CompressionAlgorithm::Deflate,
        ]);
        HttpsServerCfg {
            tls_config,
            max_connections: 100,
            request_timeout_ms: 30000,
            max_body_size: 10485760,
            keep_alive: true,
            keep_alive_timeout_ms: 60000,
            compression_enabled: true,
            compression_level: CompressionLevel::Default,
            preferred_compression: preferred,
            require_request_digest: false,
            require_request_tag: false,
        }
    }
}

/// The state of a server. The address is in the words in which socket addresses are written.
#[derive(Debug, Clone)]
pub struct HttpsServer {
    pub config: HttpsServerCfg,
    pub handler_installed: bool,
    pub listener_installed: bool,
    pub running: bool,
    pub address: Option<String>,
}

/// Whether a server was only set up.
pub open spec fn is_idle(s: HttpsServer) -> bool {
    !s.handler_installed && !s.listener_installed && !s.running && s.address is None
}

impl HttpsServer {
    pub fn new(tls_config: TlsCfg) -> (r: Self)
        ensures
            is_idle(r),
            r.config.tls_config == tls_config,
            r.config.max_connections == 100,
            r.config.request_timeout_ms == 30000,
            r.config.max_body_size == 10485760,
            r.config.keep_alive,
            r.config.keep_alive_timeout_ms == 60000,
            r.config.compression_enabled,
            r.config.compression_level == CompressionLevel::Default,
            r.config.preferred_compression@ == seq![
                CompressionAlgorithm::Zstd,
                CompressionAlgorithm::Brotli,
                CompressionAlgorithm::Gzip,
                CompressionAlgorithm::Deflate,
            ],
            !r.config.require_request_digest,
            !r.config.require_request_tag,
    {
        HttpsServer {
            config: HttpsServerCfg::with_tls_cfg(tls_config),
            handler_installed: false,
            listener_installed: false,
            running: false,
            address: None,
        }
    }

    /// A server that is set up anew.
    pub fn with_config(self, config: HttpsServerCfg) -> (r: Self)
        ensures
            is_idle(r),
            r.config == config,
    {
        HttpsServer {
            config,
            handler_installed: false,
            listener_installed: false,
            running: false,
            address: None,
        }
    }

    /// Notes that a handler was installed.
    pub fn set_handler(&mut self)
        ensures
            *final(self) == (HttpsServer { handler_installed: true, ..*old(self) }),
    {
        self.handler_installed = true;
    }

    /// Notes that a listener was bound to an address; fails where the text denotes none.
    pub fn bind(&mut self, addr: &str) -> (r: Result<(), NoAddress>)
        ensures
            match address_words(addr@) {
                Some(w) => r is Ok && (final(self).address matches Some(a) && a@ == w) && *final(self) == (
                HttpsServer { address: final(self).address, listener_installed: true, ..*old(self) }),
                None => r is Err && *final(self) == *old(self),
            },
    {
        match canonical_address(addr) {
            Some(w) => {
                self.address = Some(w);
                self.listener_installed = true;
                Ok(())
            },
            None => Err(NoAddress),
        }
    }

    /// Starts the server, which takes the listener for itself. Fails where it is not bound.
    pub fn start(&mut self) -> (r: Result<(), NotBound>)
        ensures
            match r {
                Ok(()) => old(self).listener_installed && *final(self) == (HttpsServer {
                    listener_installed: false,
                    running: true,
                    ..*old(self)
                }),
                Err(_) => !old(self).listener_installed && *final(self) == *old(self),
            },
    {
        if !self.listener_installed {
            return Err(NotBound);
        }
        self.listener_installed = false;
        self.running = true;
        Ok(())
    }

    /// Starts the server on a thread of its own; the state changes as it does on starting.
    pub fn start_async(&mut self) -> (r: Result<(), NotBound>)
        ensures
            match r {
                Ok(()) => old(self).listener_installed && *final(self) == (HttpsServer {
                    listener_installed: false,
                    running: true,
                    ..*old(self)
                }),
                Err(_) => !old(self).listener_installed && *final(self) == *old(self),
            },
    {
        self.start()
    }

    pub fn stop(&mut self)
        ensures
            *final(self) == (HttpsServer { running: false, ..*old(self) }),
    {
        self.running = false;
    }
}

/// How a connection is served.
#[derive(Debug, Clone, Copy, PartialEq, Eq, Structural)]
pub enum ServedProtocol {
    Http1,
    Http2,
    Unsupported,
}

/// How a connection is served after the protocol that was agreed on, if any.
pub open spec fn served_as(negotiated: Option<AlpnProtocol>) -> ServedProtocol {
    match negotiated {
        Some(AlpnProtocol::Http2) => ServedProtocol::Http2,
        Some(AlpnProtocol::Http11) => ServedProtocol::Http1,
        None => ServedProtocol::Http1,
        _ => ServedProtocol::Unsupported,
    }
}

/// What is wrong with a request.
#[derive(Debug, Clone, Copy, PartialEq, Eq, Structural)]
pub enum RequestFault {
    Closed,
    Message(MessageError),
    DigestEncoding,
    DigestMismatch,
    DigestRequired,
    NonceEncoding,
    TagEncoding,
    TagMismatch,
    TagRequired,
}

impl RequestFault {
    pub open spec fn text(&self) -> Seq<char> {
        match self {
            RequestFault::Closed => "connection closed"@,
            RequestFault::Message(e) => e.text(),
            RequestFault::DigestEncoding => "invalid request digest"@,
            RequestFault::DigestMismatch => "request digest verification failed"@,
            RequestFault::DigestRequired => "request digest required but missing"@,
            RequestFault::NonceEncoding => "invalid request nonce"@,
            RequestFault::TagEncoding => "invalid request tag"@,
            RequestFault::TagMismatch => "request security tag verification failed"@,
            RequestFault::TagRequired => "request security tag required but missing"@,
        }
    }

    /// The fault in words.
    pub fn message(&self) -> (r: &'static str)
        ensures
            r@ == self.text(),
    {
        match self {
            RequestFault::Closed => "connection closed",
            RequestFault::Message(e) => e.message(),
            RequestFault::DigestEncoding => "invalid request digest",
            RequestFault::DigestMismatch => "request digest verification failed",
            RequestFault::DigestRequired => "request digest required but missing",
            RequestFault::NonceEncoding => "invalid request nonce",
            RequestFault::TagEncoding => "invalid request tag",
            RequestFault::TagMismatch => "request security tag verification failed",
            RequestFault::TagRequired => "request security tag required but missing",
        }
    }
}

/// Whether one of the elements of a `Digest` value from `i` on is the digest of `body`. Elements are looked at in
/// their order, up to the first that is: one that cannot be read before it is a fault, and so is it where there are
/// digests but none of them is that of the body. `seen` tells whether there was one before.
pub open spec fn digest_verdict(elements: Seq<Seq<char>>, i: int, body: Seq<u8>, seen: bool) -> Result<
    bool,
    RequestFault,
>
    decreases elements.len() - i,
{
    if i < 0 || i >= elements.len() {
        if seen {
            Err(RequestFault::DigestMismatch)
        } else {
            Ok(false)
        }
    } else if !is_sha256(elements[i]) {
        digest_verdict(elements, i + 1, body, seen)
    } else {
        match digest_in(elements[i]) {
            None => Err(RequestFault::DigestEncoding),
            Some(d) => if d == sha256_of(body) {
                Ok(true)
            } else {
                digest_verdict(elements, i + 1, body, true)
            },
        }
    }
}

/// Whether a request tells the digest of its body.
pub open spec fn digest_told(headers: FieldTable, body: Seq<u8>) -> Result<bool, RequestFault> {
    match value_nocase(headers, "digest"@) {
        None => Ok(false),
        Some(d) => digest_verdict(split_on(d, ','), 0, body, false),
    }
}

/// The coding that the fields name for a body: what stands before the first comma counts.
pub open spec fn coding_told(headers: FieldTable) -> Option<CompressionAlgorithm> {
    match value_nocase(headers, "content-encoding"@) {
        None => Some(CompressionAlgorithm::Identity),
        Some(e) => body_coding(head(e, ',')),
    }
}

/// What the tag of a request is made of.
pub open spec fn request_material(method: Seq<char>, path: Seq<char>, nonce: Seq<u8>, body: Seq<u8>) -> Seq<u8> {
    encode_utf8("SINGULARITY_HTTPS_SERVER_REQUEST_V1"@) + encode_utf8(method) + seq![10u8] + encode_utf8(path)
        + seq![10u8] + nonce + be64((body.len() % 0x1_0000_0000_0000_0000) as u64) + body
}

/// The tag of a request.
pub open spec fn request_tag(method: Seq<char>, path: Seq<char>, nonce: Seq<u8>, body: Seq<u8>) -> Seq<u8> {
    sha256_of(request_material(method, path, nonce, body))
}

/// What the tag of a response is made of.
pub open spec fn response_material(status: u16, reason: Seq<char>, nonce: Seq<u8>, body: Seq<u8>) -> Seq<u8> {
    encode_utf8("SINGULARITY_HTTPS_SERVER_RESPONSE_V1"@) + be16(status) + encode_utf8(reason) + seq![10u8] + nonce
        + be64((body.len() % 0x1_0000_0000_0000_0000) as u64) + body
}

/// The tag of a response.
pub open spec fn response_tag(status: u16, reason: Seq<char>, nonce: Seq<u8>, body: Seq<u8>) -> Seq<u8> {
    sha256_of(response_material(status, reason, nonce, body))
}

fn push_line_feed(out: &mut Vec<u8>)
    ensures
        final(out)@ == old(out)@ + seq![10u8],
{
    out.push(10);
    assert(out@ =~= old(out)@ + seq![10u8]);
}

/// Gathers what the tag of a request is made of.
fn gather_request(method: &str, path: &str, nonce: &[u8], wire_body: &[u8]) -> (r: Vec<u8>)
    ensures
        r@ == request_material(method@, path@, nonce@, wire_body@),
{
    let mut material = slice_to_vec("SINGULARITY_HTTPS_SERVER_REQUEST_V1".as_bytes());
    push_bytes(&mut material, method.as_bytes());
    push_line_feed(&mut material);
    push_bytes(&mut material, path.as_bytes());
    push_line_feed(&mut material);
    push_bytes(&mut material, nonce);
    push_be64(&mut material, wire_body.len() as u64);
    push_bytes(&mut material, wire_body);
    material
}

/// Gathers what the tag of a response is made of.
fn gather_response(status_code: u16, reason_phrase: &str, nonce: &[u8], wire_body: &[u8]) -> (r: Vec<u8>)
    ensures
        r@ == response_material(status_code, reason_phrase@, nonce@, wire_body@),
{
    let mut material = slice_to_vec("SINGULARITY_HTTPS_SERVER_RESPONSE_V1".as_bytes());
    push_be16(&mut material, status_code);
    push_bytes(&mut material, reason_phrase.as_bytes());
    push_line_feed(&mut material);
    push_bytes(&mut material, nonce);
    push_be64(&mut material, wire_body.len() as u64);
    push_bytes(&mut material, wire_body);
    material
}

/// Whether a request tells its tag.
pub open spec fn tag_told(method: Seq<char>, path: Seq<char>, headers: FieldTable, body: Seq<u8>) -> Result<
    bool,
    RequestFault,
> {
    match (
        value_nocase(headers, "X-Singularity-Nonce"@),
        value_nocase(headers, "X-Singularity-Request-Tag"@),
    ) {
        (Some(n), Some(t)) => match (decoded(n), decoded(t)) {
            (None, _) => Err(RequestFault::NonceEncoding),
            (_, None) => Err(RequestFault::TagEncoding),
            (Some(nonce), Some(tag)) => if tag == request_tag(method, path, nonce, body) {
                Ok(true)
            } else {
                Err(RequestFault::TagMismatch)
            },
        },
        _ => Ok(false),
    }
}

/// What is wrong with a request, held against its digest and its tag.
pub open spec fn request_fault(
    cfg: HttpsServerCfg,
    method: Seq<char>,
    path: Seq<char>,
    headers: FieldTable,
    body: Seq<u8>,
) -> Option<RequestFault> {
    match digest_told(headers, body) {
        Err(e) => Some(e),
        Ok(digest) => if cfg.require_request_digest && body.len() > 0 && !digest {
            Some(RequestFault::DigestRequired)
        } else {
            match tag_told(method, path, headers, body) {
                Err(e) => Some(e),
                Ok(tag) => if cfg.require_request_tag && body.len() > 0 && !tag {
                    Some(RequestFault::TagRequired)
                } else {
                    None
                },
            }
        },
    }
}

/// The body of a request with its coding undone; of several codings that are named the first counts.
pub open spec fn body_told(headers: FieldTable, body: Seq<u8>, plain: Option<Seq<u8>>) -> Result<
    Seq<u8>,
    MessageError,
> {
    match value_nocase(headers, "content-encoding"@) {
        None => Ok(body),
        Some(e) => body_decoded(head(e, ','), body, plain),
    }
}

/// Whether `a` is among those that are accepted at all and has a codec.
pub open spec fn is_acceptable(accepted: Seq<AcceptedCoding>, a: CompressionAlgorithm) -> bool {
    exists|i: int|
        0 <= i < accepted.len() && (#[trigger] accepted[i]).algorithm == a && accepted[i].quality > 0
            && implemented(accepted[i].algorithm)
}

/// The first of the preferred codings from `i` on that is acceptable.
pub open spec fn first_preferred(accepted: Seq<AcceptedCoding>, preferred: Seq<CompressionAlgorithm>, i: int) ->
    Option<CompressionAlgorithm>
    decreases preferred.len() - i,
{
    if i < 0 || i >= preferred.len() {
        None
    } else if is_acceptable(accepted, preferred[i]) {
        Some(preferred[i])
    } else {
        first_preferred(accepted, preferred, i + 1)
    }
}

/// The coding for a response: the first preferred one that is acceptable, else the best accepted one.
pub open spec fn answer_coding(accept_encoding: Seq<char>, preferred: Seq<CompressionAlgorithm>) ->
    CompressionAlgorithm {
    match first_preferred(accepted_codings(accept_encoding), preferred, 0) {
        Some(a) => a,
        None => selected(accept_encoding, false),
    }
}

/// What is told of a body as it is sent.
#[derive(Debug, Clone)]
pub struct SecureBodyMeta {
    pub algorithm: CompressionAlgorithm,
    pub nonce_b64: String,
    pub digest_b64: String,
    pub tag_b64: String,
    pub plain_size: usize,
    pub wire_size: usize,
}

#[verifier::ext_equal]
pub struct BodyMetaView {
    pub algorithm: CompressionAlgorithm,
    pub nonce: Seq<char>,
    pub digest: Seq<char>,
    pub tag: Seq<char>,
    pub plain_size: nat,
    pub wire_size: nat,
}

impl View for SecureBodyMeta {
    type V = BodyMetaView;

    open spec fn view(&self) -> BodyMetaView {
        BodyMetaView {
            algorithm: self.algorithm,
            nonce: self.nonce_b64@,
            digest: self.digest_b64@,
            tag: self.tag_b64@,
            plain_size: self.plain_size as nat,
            wire_size: self.wire_size as nat,
        }
    }
}

/// The coding in which the body of a response is sent.
pub open spec fn body_answer_coding(cfg: HttpsServerCfg, body_len: nat, accept: Option<Seq<char>>) ->
    CompressionAlgorithm {
    if cfg.compression_enabled && body_len > 0 {
        answer_coding(
            match accept {
                Some(a) => a,
                None => ""@,
            },
            cfg.preferred_compression@,
        )
    } else {
        CompressionAlgorithm::Identity
    }
}

/// The body of a response as it is sent, and what is told of it; `None` where the codec failed.
pub open spec fn secured_body(
    cfg: HttpsServerCfg,
    status: u16,
    reason: Seq<char>,
    body: Seq<u8>,
    accept: Option<Seq<char>>,
    coded: Option<Seq<u8>>,
    nonce: Seq<u8>,
) -> Option<(BodyMetaView, Seq<u8>)> {
    let a = body_answer_coding(cfg, body.len(), accept);
    let form = if a == CompressionAlgorithm::Identity {
        Some(body)
    } else {
        coded
    };
    match form {
        None => None,
        Some(wire) => Some(
            (
                BodyMetaView {
                    algorithm: a,
                    nonce: encoded(nonce),
                    digest: encoded(sha256_of(wire)),
                    tag: encoded(response_tag(status, reason, nonce, wire)),
                    plain_size: body.len(),
                    wire_size: wire.len(),
                },
                wire,
            ),
        ),
    }
}

/// Whether a field of a response is the server's own to set.
pub open spec fn is_controlled(name: Seq<char>) -> bool {
    same_nocase(name, "Content-Length"@) || same_nocase(name, "Content-Encoding"@) || same_nocase(
        name,
        "Digest"@,
    ) || same_nocase(name, "X-Content-Sha256"@) || same_nocase(name, "X-Singularity-Nonce"@)
        || same_nocase(name, "X-Singularity-Response-Tag"@)
}

/// The first `n` fields without those that are the server's own to set.
pub open spec fn uncontrolled(h: FieldTable, n: int) -> FieldTable
    decreases n,
{
    if n <= 0 {
        seq![]
    } else if is_controlled(h[n - 1].0) {
        uncontrolled(h, n - 1)
    } else {
        uncontrolled(h, n - 1).push(h[n - 1])
    }
}

/// The fields that the server sets, in their order.
pub open spec fn own_fields(meta: BodyMetaView, wire: Seq<u8>) -> FieldTable {
    (if wire.len() > 0 {
        seq![("Content-Length"@, decimal(wire.len()))]
    } else {
        seq![]
    }) + (if meta.algorithm != CompressionAlgorithm::Identity {
        seq![("Content-Encoding"@, coding_name(meta.algorithm))]
    } else {
        seq![]
    }) + seq![
        ("Digest"@, "SHA-256="@ + meta.digest),
        ("X-Content-Sha256"@, hex(sha256_of(wire))),
        ("X-Singularity-Nonce"@, meta.nonce),
        ("X-Singularity-Response-Tag"@, meta.tag),
    ]
}

/// The fields after the first `n` of others have been put among them.
pub open spec fn with_each(h: FieldTable, more: FieldTable, n: int) -> FieldTable
    decreases n,
{
    if n <= 0 {
        h
    } else {
        put(with_each(h, more, n - 1), more[n - 1].0, more[n - 1].1)
    }
}

/// The fields with one that tells whether the connection stays open.
pub open spec fn with_connection(h: FieldTable, keep_alive: bool) -> FieldTable {
    if value_nocase(h, "Connection"@) is Some {
        h
    } else {
        put(
            h,
            "Connection"@,
            if keep_alive {
                "keep-alive"@
            } else {
                "close"@
            },
        )
    }
}

/// The fields of a response as they are sent.
pub open spec fn answer_fields(h: FieldTable, meta: BodyMetaView, wire: Seq<u8>, keep_alive: bool) -> FieldTable {
    let own = own_fields(meta, wire);
    with_connection(with_each(uncontrolled(h, h.len() as int), own, own.len() as int), keep_alive)
}

/// A response on the wire; `None` where the codec failed.
pub open spec fn answer_octets(
    cfg: HttpsServerCfg,
    r: ResponseView,
    accept: Option<Seq<char>>,
    keep_alive: bool,
    coded: Option<Seq<u8>>,
    nonce: Seq<u8>,
) -> Option<Seq<u8>> {
    match secured_body(cfg, r.status, r.reason, r.body, accept, coded, nonce) {
        None => None,
        Some((meta, wire)) => {
            let h = answer_fields(r.headers, meta, wire, keep_alive);
            Some(
                encode_utf8(
                    version_name(r.version) + " "@ + decimal(r.status as nat) + " "@ + r.reason + "\r\n"@
                        + table_wire(h, h.len() as int) + "\r\n"@,
                ) + wire,
            )
        },
    }
}

/// The header of a response of HTTP/2.
pub open spec fn http2_answer(r: ResponseView, meta: BodyMetaView, wire: Seq<u8>) -> FieldTable {
    seq![(":status"@, decimal(r.status as nat))] + uncontrolled(r.headers, r.headers.len() as int)
        + own_fields(meta, wire)
}

pub open spec fn opt_str_text(o: Option<&str>) -> Option<Seq<char>> {
    match o {
        Some(s) => Some(s@),
        None => None,
    }
}

fn holds_acceptable(accepted: &Vec<AcceptedCoding>, a: CompressionAlgorithm) -> (r: bool)
    ensures
        r == is_acceptable(accepted@, a),
{
    let mut i: usize = 0;
    while i < accepted.len()
        invariant
            i <= accepted@.len(),
            forall|j: int|
                0 <= j < i ==> !((#[trigger] accepted@[j]).algorithm == a && accepted@[j].quality > 0
                    && implemented(accepted@[j].algorithm)),
        decreases accepted@.len() - i,
    {
        let c = accepted[i];
        if c.algorithm == a && c.quality > 0 && c.algorithm.is_implemented() {
            assert(accepted@[i as int].algorithm == a);
            return true;
        }
        i = i + 1;
    }
    false
}

fn controlled(name: &str) -> (r: bool)
    ensures
        r == is_controlled(name@),
{
    let c = chars_of(name);
    let s = c.as_slice();
    is_text_nocase(s, "Content-Length") || is_text_nocase(s, "Content-Encoding") || is_text_nocase(
        s,
        "Digest",
    ) || is_text_nocase(s, "X-Content-Sha256") || is_text_nocase(s, "X-Singularity-Nonce")
        || is_text_nocase(s, "X-Singularity-Response-Tag")
}

fn list_own_fields(meta: &SecureBodyMeta, wire: &[u8]) -> (r: Vec<(String, String)>)
    ensures
        pair_texts(r@) == own_fields(meta@, wire@),
{
    let mut out: Vec<(String, String)> = Vec::new();
    if wire.len() > 0 {
        let size = string_of(to_decimal(wire.len() as u64).as_slice());
        out.push(("Content-Length".to_owned(), size));
    }
    if meta.algorithm != CompressionAlgorithm::Identity {
        out.push(("Content-Encoding".to_owned(), meta.algorithm.content_encoding().to_owned()));
    }
    let mut digest = chars_of("SHA-256=");
    push_text(&mut digest, meta.digest_b64.as_str());
    out.push(("Digest".to_owned(), string_of(digest.as_slice())));
    let sum = sha256(wire);
    out.push(("X-Content-Sha256".to_owned(), to_hex(sum.as_slice())));
    out.push(("X-Singularity-Nonce".to_owned(), meta.nonce_b64.as_str().to_owned()));
    out.push(("X-Singularity-Response-Tag".to_owned(), meta.tag_b64.as_str().to_owned()));
    assert(pair_texts(out@) =~= own_fields(meta@, wire@));
    out
}

proof fn lemma_uncontrolled_order(h: FieldTable, n: int, name: Seq<char>)
    requires
        0 <= n <= h.len(),
        forall|j: int| 0 <= j < n ==> before((#[trigger] h[j]).0, name),
    ensures
        forall|j: int|
            0 <= j < uncontrolled(h, n).len() ==> before((#[trigger] uncontrolled(h, n)[j]).0, name),
    decreases n,
{
    if n > 0 {
        lemma_uncontrolled_order(h, n - 1, name);
        assert(before(h[n - 1].0, name));
        assert forall|j: int| 0 <= j < uncontrolled(h, n).len() implies before(
            (#[trigger] uncontrolled(h, n)[j]).0,
            name,
        ) by {
            if j < uncontrolled(h, n - 1).len() {
                assert(uncontrolled(h, n)[j] == uncontrolled(h, n - 1)[j]);
            }
        }
    }
}

fn copy_uncontrolled(headers: &Table<String>) -> (r: Table<String>)
    requires
        headers.inv(),
    ensures
        r.inv(),
        r@ == uncontrolled(headers@, headers@.len() as int),
{
    let mut out: Table<String> = Table::new();
    assert(out@ =~= seq![]);
    let n: usize = headers.len();
    let mut i: usize = 0;
    while i < n
        invariant
            i <= n,
            n == headers@.len(),
            headers.inv(),
            out.inv(),
            out@ == uncontrolled(headers@, i as int),
        decreases n - i,
    {
        let name = headers.name_at(i);
        if !controlled(name) {
            let v = headers.value_at(i).as_str().to_owned();
            proof {
                lemma_uncontrolled_order(headers@, i as int, name@);
                lemma_put_last(out@, name@, v@);
            }
            out.insert(name.to_owned(), v);
        }
        i = i + 1;
    }
    out
}

/// Method, path and version in a request line. A version that is not known counts as 1.1.
pub open spec fn line_parts(line: Seq<char>) -> Result<
    (HttpMethod, Seq<char>, HttpVersion),
    MessageError,
> {
    let w = words_of(line);
    if w.len() < 3 {
        Err(MessageError::BadStartLine)
    } else {
        match method_named(w[0]) {
            None => Err(MessageError::BadMethod),
            Some(m) => Ok(
                (
                    m,
                    w[1],
                    match version_named(w[2]) {
                        Some(v) => v,
                        None => HttpVersion::Http11,
                    },
                ),
            ),
        }
    }
}

/// Where the first line begins that is not blank; `None` where there is none, a fault where a line before it cannot
/// be read.
pub open spec fn first_text_line(data: Seq<u8>, from: int) -> Result<int, RequestFault>
    decreases data.len() - from,
{
    if from < 0 || from >= data.len() {
        Err(RequestFault::Closed)
    } else {
        let rest = data.skip(from);
        let n = line_len(rest);
        if n <= 0 || n > rest.len() {
            Err(RequestFault::Closed)
        } else if !valid_utf8(rest.take(n)) {
            Err(RequestFault::Message(MessageError::NotUtf8))
        } else if trimmed(decode_utf8(rest.take(n))).len() == 0 {
            first_text_line(data, from + n)
        } else {
            Ok(from)
        }
    }
}

/// The head of a request: method, path, version and fields.
pub open spec fn https_head(data: Seq<u8>) -> Result<
    (HttpMethod, Seq<char>, HttpVersion, HeadView),
    RequestFault,
> {
    match first_text_line(data, 0) {
        Err(e) => Err(e),
        Ok(from) => {
            let n = line_len(data.skip(from));
            match line_parts(decode_utf8(data.skip(from).take(n))) {
                Err(e) => Err(RequestFault::Message(e)),
                Ok((m, path, v)) => match head_in(
                    data.skip(from + n),
                    HeadView { headers: seq![], length: 0, size: (from + n) as nat },
                ) {
                    Err(e) => Err(RequestFault::Message(e)),
                    Ok(h) => Ok((m, path, v, h)),
                },
            }
        },
    }
}

/// The request with these parts, held against its digest and its tag, with its coding undone.
pub open spec fn https_request(
    cfg: HttpsServerCfg,
    method: HttpMethod,
    path: Seq<char>,
    version: HttpVersion,
    headers: FieldTable,
    body: Seq<u8>,
    plain: Option<Seq<u8>>,
) -> Result<RequestView, RequestFault> {
    match request_fault(cfg, method_name(method), path, headers, body) {
        Some(e) => Err(e),
        None => match body_told(headers, body, plain) {
            Err(e) => Err(RequestFault::Message(e)),
            Ok(b) => Ok(
                with_body(
                    RequestView {
                        method,
                        path,
                        version,
                        headers: fields_of(headers, headers.len() as int),
                        body: seq![],
                    },
                    b,
                ),
            ),
        },
    }
}

/// The request in octets.
pub open spec fn https_request_in(cfg: HttpsServerCfg, data: Seq<u8>, plain: Option<Seq<u8>>) -> Result<
    RequestView,
    RequestFault,
> {
    match https_head(data) {
        Err(e) => Err(e),
        Ok((method, path, version, h)) => if h.length > cfg.max_body_size {
            Err(RequestFault::Message(MessageError::BodyTooLarge))
        } else if h.size + h.length > data.len() {
            Err(RequestFault::Message(MessageError::BodyTooShort))
        } else {
            https_request(
                cfg,
                method,
                path,
                version,
                h.headers,
                data.subrange(h.size as int, (h.size + h.length) as int),
                plain,
            )
        },
    }
}

struct ServedHead {
    method: HttpMethod,
    path: String,
    version: HttpVersion,
    headers: Table<String>,
    length: usize,
    size: usize,
}

fn read_line_parts(line: &[char]) -> (r: Result<(HttpMethod, String, HttpVersion), MessageError>)
    ensures
        match r {
            Ok((m, p, v)) => line_parts(line@) == Ok::<(HttpMethod, Seq<char>, HttpVersion), MessageError>(
                (m, p@, v),
            ),
            Err(e) => line_parts(line@) == Err::<(HttpMethod, Seq<char>, HttpVersion), MessageError>(e),
        },
{
    let parts = words(line);
    assert(texts(parts@).len() == parts@.len());
    if parts.len() < 3 {
        return Err(MessageError::BadStartLine);
    }
    assert(texts(parts@)[0] == parts@[0]@ && texts(parts@)[1] == parts@[1]@ && texts(parts@)[2]
        == parts@[2]@);
    match HttpMethod::from_chars(parts[0]) {
        None => Err(MessageError::BadMethod),
        Some(m) => {
            let v = match HttpVersion::from_chars(parts[2]) {
                Some(v) => v,
                None => HttpVersion::Http11,
            };
            Ok((m, string_of(parts[1]), v))
        },
    }
}

fn read_first_text_line(data: &[u8]) -> (r: Result<(usize, usize, String), RequestFault>)
    ensures
        match r {
            Ok((from, n, text)) => first_text_line(data@, 0) == Ok::<int, RequestFault>(from as int) && n
                == line_len(data@.skip(from as int)) && from + n <= data@.len() && text@ == decode_utf8(
                data@.skip(from as int).take(n as int),
            ),
            Err(e) => first_text_line(data@, 0) == Err::<int, RequestFault>(e),
        },
{
    let end: usize = data.len();
    let mut from: usize = 0;
    while from < end
        invariant
            from <= end,
            end == data@.len(),
            first_text_line(data@, from as int) == first_text_line(data@, 0),
        decreases end - from,
    {
        let rest = slice_subrange(data, from, end);
        assert(rest@ =~= data@.skip(from as int));
        proof {
            lemma_line_len(rest@);
        }
        let n = first_line_len(rest);
        let piece = slice_subrange(rest, 0, n);
        assert(piece@ =~= rest@.take(n as int));
        let text = match utf8_text(piece) {
            Some(t) => t,
            None => {
                return Err(RequestFault::Message(MessageError::NotUtf8));
            },
        };
        if trim(chars_of(text.as_str()).as_slice()).len() > 0 {
            return Ok((from, n, text));
        }
        from = from + n;
    }
    Err(RequestFault::Closed)
}

fn read_served_head(data: &[u8]) -> (r: Result<ServedHead, RequestFault>)
    ensures
        match r {
            Ok(h) => {
                &&& h.headers.inv()
                &&& h.size <= data@.len()
                &&& https_head(data@) == Ok::<_, RequestFault>(
                    (
                        h.method,
                        h.path@,
                        h.version,
                        HeadView {
                            headers: h.headers@,
                            length: h.length as nat,
                            size: h.size as nat,
                        },
                    ),
                )
            },
            Err(e) => https_head(data@) == Err::<
                (HttpMethod, Seq<char>, HttpVersion, HeadView),
                RequestFault,
            >(e),
        },
{
    let (from, n, text) = match read_first_text_line(data) {
        Ok(x) => x,
        Err(e) => {
            return Err(e);
        },
    };
    let (method, path, version) = match read_line_parts(chars_of(text.as_str()).as_slice()) {
        Ok(x) => x,
        Err(e) => {
            return Err(RequestFault::Message(e));
        },
    };
    let end: usize = data.len();
    match read_head_fields(data, from + n) {
        Ok(h) => Ok(
            ServedHead {
                method,
                path,
                version,
                headers: h.headers,
                length: h.length,
                size: h.size,
            },
        ),
        Err(e) => Err(RequestFault::Message(e)),
    }
}

/// The first value under a name among pairs.
pub open spec fn first_pair(fields: FieldTable, name: Seq<char>, i: int) -> Option<Seq<char>>
    decreases fields.len() - i,
{
    if i < 0 || i >= fields.len() {
        None
    } else if fields[i].0 == name {
        Some(fields[i].1)
    } else {
        first_pair(fields, name, i + 1)
    }
}

fn find_pair<'a>(fields: &'a Vec<(String, String)>, name: &str) -> (r: Option<&'a str>)
    ensures
        opt_str_text(r) == first_pair(pair_texts(fields@), name@, 0),
{
    let mut i: usize = 0;
    assert(pair_texts(fields@).len() == fields@.len());
    while i < fields.len()
        invariant
            i <= fields@.len(),
            first_pair(pair_texts(fields@), name@, i as int) == first_pair(pair_texts(fields@), name@, 0),
        decreases fields@.len() - i,
    {
        assert(pair_texts(fields@)[i as int] == (fields@[i as int].0@, fields@[i as int].1@));
        if is_text(chars_of(fields[i].0.as_str()).as_slice(), name) {
            return Some(fields[i].1.as_str());
        }
        i = i + 1;
    }
    assert(pair_texts(fields@).len() == fields@.len());
    None
}

/// The method that the header of a request of HTTP/2 names.
pub open spec fn stream_method(fields: FieldTable) -> Seq<char> {
    match first_pair(fields, ":method"@, 0) {
        Some(m) => m,
        None => "GET"@,
    }
}

/// The path that the header of a request of HTTP/2 names.
pub open spec fn stream_path(fields: FieldTable) -> Seq<char> {
    match first_pair(fields, ":path"@, 0) {
        Some(p) => p,
        None => "/"@,
    }
}

/// The request on a stream of HTTP/2; `None` where its method is not known, and nothing is answered.
pub open spec fn stream_request(cfg: HttpsServerCfg, fields: FieldTable, body: Seq<u8>, plain: Option<Seq<u8>>) ->
    Result<Option<RequestView>, RequestFault> {
    match method_named(stream_method(fields)) {
        None => Ok(None),
        Some(m) => {
            let h = crate::net::https::exchange::http2_table(fields, fields.len() as int);
            match https_request(cfg, m, stream_path(fields), HttpVersion::Http2, h, body, plain) {
                Ok(q) => Ok(Some(q)),
                Err(e) => Err(e),
            }
        },
    }
}

/// The page where no handler is installed.
pub open spec fn absent_page(path: Seq<char>) -> ResponseView {
    ResponseView {
        status: 404,
        reason: "Not Found"@,
        version: HttpVersion::Http11,
        headers: put(
            put(
                put(seq![], "Content-Type"@, "text/html"@),
                "X-Frame-Options"@,
                "DENY"@,
            ),
            "X-Content-Type-Options"@,
            "nosniff"@,
        ),
        body: encode_utf8(
            "<!DOCTYPE html><html><body><h1>404 Not Found</h1><p>Path: "@ + path + "</p></body></html>"@,
        ),
    }
}

/// The answer on a stream of HTTP/2 where no handler is installed.
pub open spec fn absent_object(path: Seq<char>, method: HttpMethod) -> ResponseView {
    ResponseView {
        status: 404,
        reason: "Not Found"@,
        version: HttpVersion::Http2,
        headers: put(
            put(
                put(
                    put(seq![], "content-type"@, "application/json"@),
                    "x-frame-options"@,
                    "DENY"@,
                ),
                "x-content-type-options"@,
                "nosniff"@,
            ),
            "x-xss-protection"@,
            "1; mode=block"@,
        ),
        body: encode_utf8(
            "{\n  \"status\": \"404\",\n  \"message\": \"Not Found\",\n  \"path\": \""@ + path
                + "\",\n  \"method\": \""@ + method_name(method) + "\"\n}"@,
        ),
    }
}

impl HttpsServer {
    /// Tells how a connection is served.
    pub fn served_protocol(negotiated: Option<AlpnProtocol>) -> (r: ServedProtocol)
        ensures
            r == served_as(negotiated),
    {
        match negotiated {
            Some(AlpnProtocol::Http2) => ServedProtocol::Http2,
            Some(AlpnProtocol::Http11) => ServedProtocol::Http1,
            None => ServedProtocol::Http1,
            _ => ServedProtocol::Unsupported,
        }
    }

    /// Tells whether a request tells the digest of its body; fails where it tells another.
    pub fn verify_request_digest(headers: &Table<String>, wire_body: &[u8]) -> (r: Result<bool, RequestFault>)
        ensures
            r == digest_told(headers@, wire_body@),
    {
        let text = match headers.get_nocase("digest") {
            Some(d) => chars_of(d.as_str()),
            None => {
                return Ok(false);
            },
        };
        let elements = split(text.as_slice(), ',');
        let ghost all = split_on(text@, ',');
        let actual = sha256(wire_body);
        let mut seen = false;
        let mut i: usize = 0;
        assert(texts(elements@).len() == elements@.len());
        while i < elements.len()
            invariant
                i <= elements@.len(),
                texts(elements@) == all,
                all.len() == elements@.len(),
                actual@ == sha256_of(wire_body@),
                digest_told(headers@, wire_body@) == digest_verdict(all, 0, wire_body@, false),
                digest_verdict(all, i as int, wire_body@, seen) == digest_verdict(
                    all,
                    0,
                    wire_body@,
                    false,
                ),
            decreases elements@.len() - i,
        {
            assert(all[i as int] == elements@[i as int]@);
            let (name, v) = read_loose(trim(elements[i]), '=');
            let lower = to_lower(name);
            if is_text(lower.as_slice(), "sha-256") {
                match decode_chars(v) {
                    Some(expected) => {
                        if constant_time_eq(expected.as_slice(), actual.as_slice()) {
                            return Ok(true);
                        }
                        seen = true;
                    },
                    None => {
                        return Err(RequestFault::DigestEncoding);
                    },
                }
            }
            i = i + 1;
        }
        if seen {
            Err(RequestFault::DigestMismatch)
        } else {
            Ok(false)
        }
    }

    /// Computes the tag of a request.
    pub fn compute_request_tag(method: &str, path: &str, nonce: &[u8], wire_body: &[u8]) -> (r: Vec<u8>)
        ensures
            r@ == request_tag(method@, path@, nonce@, wire_body@),
            r@.len() == 32,
    {
        sha256(gather_request(method, path, nonce, wire_body).as_slice())
    }

    /// Computes the tag of a response.
    pub fn compute_response_tag(status_code: u16, reason_phrase: &str, nonce: &[u8], wire_body: &[u8]) -> (r:
        Vec<u8>)
        ensures
            r@ == response_tag(status_code, reason_phrase@, nonce@, wire_body@),
            r@.len() == 32,
    {
        sha256(gather_response(status_code, reason_phrase, nonce, wire_body).as_slice())
    }

    /// Tells whether a request tells its tag; fails where it tells another.
    pub fn verify_request_tag(method: &str, path: &str, headers: &Table<String>, wire_body: &[u8]) -> (r: Result<
        bool,
        RequestFault,
    >)
        ensures
            r == tag_told(method@, path@, headers@, wire_body@),
    {
        let nonce_text = match headers.get_nocase("X-Singularity-Nonce") {
            Some(v) => v,
            None => {
                return Ok(false);
            },
        };
        let tag_text = match headers.get_nocase("X-Singularity-Request-Tag") {
            Some(v) => v,
            None => {
                return Ok(false);
            },
        };
        let nonce = match decode(nonce_text.as_str()) {
            Some(n) => n,
            None => {
                return Err(RequestFault::NonceEncoding);
            },
        };
        let expected = match decode(tag_text.as_str()) {
            Some(t) => t,
            None => {
                return Err(RequestFault::TagEncoding);
            },
        };
        let actual = HttpsServer::compute_request_tag(method, path, nonce.as_slice(), wire_body);
        if constant_time_eq(expected.as_slice(), actual.as_slice()) {
            Ok(true)
        } else {
            Err(RequestFault::TagMismatch)
        }
    }

    /// Holds a request against its digest and its tag.
    pub fn verify_request_integrity(
        method: &str,
        path: &str,
        headers: &Table<String>,
        wire_body: &[u8],
        config: &HttpsServerCfg,
    ) -> (r: Result<(), RequestFault>)
        ensures
            r == (match request_fault(*config, method@, path@, headers@, wire_body@) {
                Some(e) => Err::<(), RequestFault>(e),
                None => Ok(()),
            }),
    {
        let digest = match HttpsServer::verify_request_digest(headers, wire_body) {
            Ok(d) => d,
            Err(e) => {
                return Err(e);
            },
        };
        if config.require_request_digest && wire_body.len() > 0 && !digest {
            return Err(RequestFault::DigestRequired);
        }
        let tag = match HttpsServer::verify_request_tag(method, path, headers, wire_body) {
            Ok(t) => t,
            Err(e) => {
                return Err(e);
            },
        };
        if config.require_request_tag && wire_body.len() > 0 && !tag {
            return Err(RequestFault::TagRequired);
        }
        Ok(())
    }

    /// Tells the coding that the fields name for a body; `None` where it is not known.
    pub fn coding_from_headers(headers: &Table<String>) -> (r: Option<CompressionAlgorithm>)
        ensures
            r == coding_told(headers@),
    {
        match headers.get_nocase("content-encoding") {
            None => Some(CompressionAlgorithm::Identity),
            Some(e) => {
                let all = chars_of(e.as_str());
                let name = string_of(up_to(all.as_slice(), ','));
                read_body_coding(name.as_str())
            },
        }
    }

    /// Tells the coding in which the body of a request came, and where the body begins. `data` holds the head at
    /// least.
    pub fn body_coding(data: &[u8]) -> (r: Result<(Option<CompressionAlgorithm>, usize), RequestFault>)
        ensures
            match https_head(data@) {
                Err(e) => r == Err::<(Option<CompressionAlgorithm>, usize), RequestFault>(e),
                Ok((_, _, _, h)) => r matches Ok((c, n)) && c == coding_told(h.headers) && n == h.size,
            },
    {
        match read_served_head(data) {
            Ok(h) => Ok((HttpsServer::coding_from_headers(&h.headers), h.size)),
            Err(e) => Err(e),
        }
    }

    /// Undoes the coding of a body. `plain` is what the codec made of it, `None` where the codec failed; it is not
    /// looked at under the identity.
    pub fn decode_body_from_headers(headers: &Table<String>, wire_body: &[u8], plain: Option<&[u8]>) -> (r: Result<
        Vec<u8>,
        MessageError,
    >)
        ensures
            match r {
                Ok(b) => body_told(headers@, wire_body@, opt_bytes(plain)) == Ok::<Seq<u8>, MessageError>(
                    b@,
                ),
                Err(e) => body_told(headers@, wire_body@, opt_bytes(plain)) == Err::<
                    Seq<u8>,
                    MessageError,
                >(e),
            },
    {
        match headers.get_nocase("content-encoding") {
            None => Ok(slice_to_vec(wire_body)),
            Some(e) => {
                let all = chars_of(e.as_str());
                let name = string_of(up_to(all.as_slice(), ','));
                match decode_body(name.as_str(), wire_body, plain) {
                    Ok(b) => Ok(slice_to_vec(b)),
                    Err(e) => Err(e),
                }
            },
        }
    }

    /// Chooses the coding for a response.
    pub fn select_algorithm_from_accept_encoding(accept_encoding: &str, preferred: &Vec<CompressionAlgorithm>) -> (r:
        CompressionAlgorithm)
        ensures
            r == answer_coding(accept_encoding@, preferred@),
    {
        let accepted = parse_accept_encoding(accept_encoding);
        let mut i: usize = 0;
        while i < preferred.len()
            invariant
                i <= preferred@.len(),
                accepted@ == accepted_codings(accept_encoding@),
                first_preferred(accepted@, preferred@, i as int) == first_preferred(
                    accepted@,
                    preferred@,
                    0,
                ),
            decreases preferred@.len() - i,
        {
            if holds_acceptable(&accepted, preferred[i]) {
                return preferred[i];
            }
            i = i + 1;
        }
        select_compressing(accept_encoding)
    }

    /// Tells the coding in which the body of a response is sent.
    pub fn response_coding(body_len: usize, accept_encoding: Option<&str>, config: &HttpsServerCfg) -> (r:
        CompressionAlgorithm)
        ensures
            r == body_answer_coding(*config, body_len as nat, opt_str_text(accept_encoding)),
    {
        if config.compression_enabled && body_len > 0 {
            match accept_encoding {
                Some(a) => HttpsServer::select_algorithm_from_accept_encoding(
                    a,
                    &config.preferred_compression,
                ),
                None => HttpsServer::select_algorithm_from_accept_encoding(
                    "",
                    &config.preferred_compression,
                ),
            }
        } else {
            CompressionAlgorithm::Identity
        }
    }

    /// Prepares the body of a response. `coded` is what the codec made of it, `None` where the codec failed; it is
    /// not looked at under the identity. Fails where the codec failed.
    pub fn prepare_secure_response_body(
        status_code: u16,
        reason_phrase: &str,
        body: &[u8],
        accept_encoding: Option<&str>,
        config: &HttpsServerCfg,
        coded: Option<&[u8]>,
        nonce: &[u8],
    ) -> (r: Option<(SecureBodyMeta, Vec<u8>)>)
        ensures
            match r {
                Some((m, w)) => secured_body(
                    *config,
                    status_code,
                    reason_phrase@,
                    body@,
                    opt_str_text(accept_encoding),
                    opt_bytes(coded),
                    nonce@,
                ) == Some((m@, w@)),
                None => secured_body(
                    *config,
                    status_code,
                    reason_phrase@,
                    body@,
                    opt_str_text(accept_encoding),
                    opt_bytes(coded),
                    nonce@,
                ) is None,
            },
    {
        let algorithm = HttpsServer::response_coding(body.len(), accept_encoding, config);
        let wire = if algorithm == CompressionAlgorithm::Identity {
            body
        } else {
            match coded {
                Some(c) => c,
                None => {
                    return None;
                },
            }
        };
        let digest = sha256(wire);
        let tag = HttpsServer::compute_response_tag(status_code, reason_phrase, nonce, wire);
        let meta = SecureBodyMeta {
            algorithm,
            nonce_b64: encode(nonce),
            digest_b64: encode(digest.as_slice()),
            tag_b64: encode(tag.as_slice()),
            plain_size: body.len(),
            wire_size: wire.len(),
        };
        Some((meta, slice_to_vec(wire)))
    }

    /// Whether a field of a response is the server's own to set.
    pub fn is_controlled_response_header(name: &str) -> (r: bool)
        ensures
            r == is_controlled(name@),
    {
        controlled(name)
    }

    /// Writes a response. `coded` is what the codec made of its body, `None` where the codec failed; it is not
    /// looked at under the identity. Fails where the codec failed.
    pub fn serialize_response(
        response: &HttpResponse,
        accept_encoding: Option<&str>,
        keep_alive: bool,
        config: &HttpsServerCfg,
        coded: Option<&[u8]>,
        nonce: &[u8],
    ) -> (r: Option<Vec<u8>>)
        requires
            response.inv(),
        ensures
            match r {
                Some(o) => answer_octets(
                    *config,
                    response@,
                    opt_str_text(accept_encoding),
                    keep_alive,
                    opt_bytes(coded),
                    nonce@,
                ) == Some(o@),
                None => answer_octets(
                    *config,
                    response@,
                    opt_str_text(accept_encoding),
                    keep_alive,
                    opt_bytes(coded),
                    nonce@,
                ) is None,
            },
    {
        let (meta, wire) = HttpsServer::prepare_secure_response_body(
            response.status_code(),
            response.reason_phrase(),
            response.body(),
            accept_encoding,
            config,
            coded,
            nonce,
        )?;
        let headers = HttpsServer::response_headers(response, &meta, wire.as_slice(), keep_alive);
        let mut text = chars_of(response.version().as_str());
        push_text(&mut text, " ");
        push_chars(&mut text, to_decimal(response.status_code() as u64).as_slice());
        push_text(&mut text, " ");
        push_text(&mut text, response.reason_phrase());
        push_text(&mut text, "\r\n");
        let ghost front = text@;
        let n: usize = headers.len();
        let mut i: usize = 0;
        assert(front + table_wire(headers@, 0) =~= front);
        while i < n
            invariant
                i <= n,
                n == headers@.len(),
                text@ == front + table_wire(headers@, i as int),
            decreases n - i,
        {
            push_wire_line(&mut text, headers.name_at(i), headers.value_at(i).as_str());
            assert(text@ =~= front + table_wire(headers@, i + 1));
            i = i + 1;
        }
        push_text(&mut text, "\r\n");
        let top = string_of(text.as_slice());
        let mut out = slice_to_vec(top.as_str().as_bytes());
        push_bytes(&mut out, wire.as_slice());
        Some(out)
    }

    /// The fields of a response as they are sent.
    pub fn response_headers(response: &HttpResponse, meta: &SecureBodyMeta, wire_body: &[u8], keep_alive: bool) -> (r:
        Table<String>)
        requires
            response.inv(),
        ensures
            r.inv(),
            r@ == answer_fields(response@.headers, meta@, wire_body@, keep_alive),
    {
        let mut headers = copy_uncontrolled(response.headers());
        let ghost base = headers@;
        let own = list_own_fields(meta, wire_body);
        let ghost more = own_fields(meta@, wire_body@);
        let mut i: usize = 0;
        assert(pair_texts(own@).len() == own@.len());
        while i < own.len()
            invariant
                i <= own@.len(),
                pair_texts(own@) == more,
                headers.inv(),
                headers@ == with_each(base, more, i as int),
            decreases own@.len() - i,
        {
            assert(more[i as int] == (own@[i as int].0@, own@[i as int].1@));
            headers.insert(own[i].0.as_str().to_owned(), own[i].1.as_str().to_owned());
            i = i + 1;
        }
        if headers.get_nocase("Connection").is_none() {
            if keep_alive {
                headers.insert("Connection".to_owned(), "keep-alive".to_owned());
            } else {
                headers.insert("Connection".to_owned(), "close".to_owned());
            }
        }
        headers
    }

    /// The header of a response of HTTP/2.
    pub fn http2_response_headers(response: &HttpResponse, meta: &SecureBodyMeta, wire_body: &[u8]) -> (r: Vec<
        (String, String),
    >)
        requires
            response.inv(),
        ensures
            pair_texts(r@) == http2_answer(response@, meta@, wire_body@),
    {
        let mut out: Vec<(String, String)> = Vec::new();
        out.push(
            (":status".to_owned(), string_of(to_decimal(response.status_code() as u64).as_slice())),
        );
        let ghost first = seq![(":status"@, decimal(response@.status as nat))];
        assert(pair_texts(out@) =~= first);
        let kept = copy_uncontrolled(response.headers());
        let n: usize = kept.len();
        let mut i: usize = 0;
        assert(first + kept@.take(0) =~= first);
        while i < n
            invariant
                i <= n,
                n == kept@.len(),
                pair_texts(out@) == first + kept@.take(i as int),
            decreases n - i,
        {
            let e = (kept.name_at(i).to_owned(), kept.value_at(i).as_str().to_owned());
            let ghost was = pair_texts(out@);
            out.push(e);
            assert(pair_texts(out@) =~= was.push((e.0@, e.1@)));
            assert(first + kept@.take(i + 1) =~= was.push(kept@[i as int]));
            i = i + 1;
        }
        assert(kept@.take(n as int) =~= kept@);
        let own = list_own_fields(meta, wire_body);
        let ghost front = pair_texts(out@);
        let ghost more = own_fields(meta@, wire_body@);
        let mut j: usize = 0;
        assert(front + more.take(0) =~= front);
        assert(pair_texts(own@).len() == own@.len());
        while j < own.len()
            invariant
                j <= own@.len(),
                pair_texts(own@) == more,
                pair_texts(out@) == front + more.take(j as int),
            decreases own@.len() - j,
        {
            assert(more[j as int] == (own@[j as int].0@, own@[j as int].1@));
            let e = (own[j].0.as_str().to_owned(), own[j].1.as_str().to_owned());
            let ghost was = pair_texts(out@);
            out.push(e);
            assert(pair_texts(out@) =~= was.push((e.0@, e.1@)));
            assert(front + more.take(j + 1) =~= was.push(more[j as int]));
            j = j + 1;
        }
        assert(more.take(more.len() as int) =~= more);
        out
    }

    /// Tells how long the body is that follows a request's head. `data` holds the head at least.
    pub fn body_length(data: &[u8], config: &HttpsServerCfg) -> (r: Result<usize, RequestFault>)
        ensures
            match https_head(data@) {
                Err(e) => r == Err::<usize, RequestFault>(e),
                Ok((_, _, _, h)) => if h.length > config.max_body_size {
                    r == Err::<usize, RequestFault>(RequestFault::Message(MessageError::BodyTooLarge))
                } else {
                    r matches Ok(n) && n == h.length
                },
            },
    {
        match read_served_head(data) {
            Ok(h) => {
                if h.length > config.max_body_size {
                    Err(RequestFault::Message(MessageError::BodyTooLarge))
                } else {
                    Ok(h.length)
                }
            },
            Err(e) => Err(e),
        }
    }

    /// Reads a request. `plain` is what the codec made of its body, `None` where the codec failed; it is not looked
    /// at under the identity.
    pub fn parse_request(data: &[u8], config: &HttpsServerCfg, plain: Option<&[u8]>) -> (r: Result<
        HttpRequest,
        RequestFault,
    >)
        ensures
            match r {
                Ok(q) => q.inv() && https_request_in(*config, data@, opt_bytes(plain)) == Ok::<
                    RequestView,
                    RequestFault,
                >(q@),
                Err(e) => https_request_in(*config, data@, opt_bytes(plain)) == Err::<
                    RequestView,
                    RequestFault,
                >(e),
            },
    {
        let h = match read_served_head(data) {
            Ok(h) => h,
            Err(e) => {
                return Err(e);
            },
        };
        if h.length > config.max_body_size {
            return Err(RequestFault::Message(MessageError::BodyTooLarge));
        }
        if h.length > data.len() - h.size {
            return Err(RequestFault::Message(MessageError::BodyTooShort));
        }
        let sent = slice_subrange(data, h.size, h.size + h.length);
        HttpsServer::complete_request(
            config,
            h.method,
            h.path.as_str(),
            h.version,
            &h.headers,
            sent,
            plain,
        )
    }

    fn complete_request(
        config: &HttpsServerCfg,
        method: HttpMethod,
        path: &str,
        version: HttpVersion,
        headers: &Table<String>,
        sent: &[u8],
        plain: Option<&[u8]>,
    ) -> (r: Result<HttpRequest, RequestFault>)
        requires
            headers.inv(),
        ensures
            ({
                let due = https_request(
                    *config,
                    method,
                    path@,
                    version,
                    headers@,
                    sent@,
                    opt_bytes(plain),
                );
                match r {
                    Ok(q) => q.inv() && due == Ok::<RequestView, RequestFault>(q@),
                    Err(e) => due == Err::<RequestView, RequestFault>(e),
                }
            }),
    {
        match HttpsServer::verify_request_integrity(method.as_str(), path, headers, sent, config) {
            Ok(()) => {},
            Err(e) => {
                return Err(e);
            },
        }
        let body = match HttpsServer::decode_body_from_headers(headers, sent, plain) {
            Ok(b) => b,
            Err(e) => {
                return Err(RequestFault::Message(e));
            },
        };
        let mut request = HttpRequest::new(method, path).version(version);
        let mut i: usize = 0;
        while i < headers.len()
            invariant
                i <= headers@.len(),
                request.inv(),
                request@ == (RequestView {
                    method,
                    path: path@,
                    version,
                    headers: fields_of(headers@, i as int),
                    body: seq![],
                }),
            decreases headers@.len() - i,
        {
            request.set_header(headers.name_at(i).to_owned(), headers.value_at(i).as_str().to_owned());
            i = i + 1;
        }
        request.set_body(body);
        Ok(request)
    }

    /// The fields of a stream of HTTP/2 without those that tell the request line.
    pub fn stream_headers(fields: &Vec<(String, String)>) -> (r: Table<String>)
        ensures
            r.inv(),
            r@ == crate::net::https::exchange::http2_table(pair_texts(fields@), fields@.len() as int),
    {
        let ghost all = pair_texts(fields@);
        let mut headers: Table<String> = Table::new();
        assert(headers@ =~= seq![]);
        let mut i: usize = 0;
        while i < fields.len()
            invariant
                i <= fields@.len(),
                all == pair_texts(fields@),
                headers.inv(),
                headers@ == crate::net::https::exchange::http2_table(all, i as int),
            decreases fields@.len() - i,
        {
            assert(all[i as int] == (fields@[i as int].0@, fields@[i as int].1@));
            if !starts_with(chars_of(fields[i].0.as_str()).as_slice(), ":") {
                headers.insert(fields[i].0.as_str().to_owned(), fields[i].1.as_str().to_owned());
            }
            i = i + 1;
        }
        headers
    }

    /// Reads the request on a stream of HTTP/2; `None` where its method is not known, and nothing is answered.
    /// `plain` is what the codec made of its body, `None` where the codec failed.
    pub fn parse_stream_request(
        fields: &Vec<(String, String)>,
        wire_body: &[u8],
        config: &HttpsServerCfg,
        plain: Option<&[u8]>,
    ) -> (r: Result<Option<HttpRequest>, RequestFault>)
        ensures
            ({
                let due = stream_request(*config, pair_texts(fields@), wire_body@, opt_bytes(plain));
                match r {
                    Ok(Some(q)) => q.inv() && due == Ok::<Option<RequestView>, RequestFault>(Some(q@)),
                    Ok(None) => due == Ok::<Option<RequestView>, RequestFault>(None),
                    Err(e) => due == Err::<Option<RequestView>, RequestFault>(e),
                }
            }),
    {
        let ghost all = pair_texts(fields@);
        let method = match find_pair(fields, ":method") {
            Some(m) => m,
            None => "GET",
        };
        let path = match find_pair(fields, ":path") {
            Some(p) => p,
            None => "/",
        };
        let known = match HttpMethod::from_str(method) {
            Some(m) => m,
            None => {
                return Ok(None);
            },
        };
        let headers = HttpsServer::stream_headers(fields);
        assert(all.len() == fields@.len());
        match HttpsServer::complete_request(
            config,
            known,
            path,
            HttpVersion::Http2,
            &headers,
            wire_body,
            plain,
        ) {
            Ok(q) => Ok(Some(q)),
            Err(e) => Err(e),
        }
    }

    /// Whether a connection stays open after a request.
    pub fn stays_open(request: &HttpRequest, config: &HttpsServerCfg) -> (r: bool)
        requires
            request.inv(),
        ensures
            r == (config.keep_alive && (match field(request@.headers, "connection"@) {
                Some(v) => !crate::text::has_text(lowercase(v), "close"@),
                None => true,
            })),
    {
        config.keep_alive && request.wants_keep_alive()
    }

    /// The answer where no handler is installed.
    pub fn default_handler(request: &HttpRequest) -> (r: HttpResponse)
        ensures
            r.inv(),
            r@ == absent_page(request@.path),
    {
        let mut text = chars_of("<!DOCTYPE html><html><body><h1>404 Not Found</h1><p>Path: ");
        push_text(&mut text, request.path());
        push_text(&mut text, "</p></body></html>");
        let body = string_of(text.as_slice());
        let mut headers: Table<String> = Table::new();
        assert(headers@ =~= seq![]);
        headers.insert("Content-Type".to_owned(), "text/html".to_owned());
        headers.insert("X-Frame-Options".to_owned(), "DENY".to_owned());
        headers.insert("X-Content-Type-Options".to_owned(), "nosniff".to_owned());
        HttpResponse::new(
            404,
            "Not Found".to_owned(),
            HttpVersion::Http11,
            headers,
            slice_to_vec(body.as_str().as_bytes()),
        )
    }

    /// The answer on a stream of HTTP/2 where no handler is installed.
    pub fn default_h2_handler(request: &HttpRequest) -> (r: HttpResponse)
        ensures
            r.inv(),
            r@ == absent_object(request@.path, request@.method),
    {
        let mut text = chars_of(
            "{\n  \"status\": \"404\",\n  \"message\": \"Not Found\",\n  \"path\": \"",
        );
        push_text(&mut text, request.path());
        push_text(&mut text, "\",\n  \"method\": \"");
        push_text(&mut text, request.method().as_str());
        push_text(&mut text, "\"\n}");
        let body = string_of(text.as_slice());
        let mut headers: Table<String> = Table::new();
        assert(headers@ =~= seq![]);
        headers.insert("content-type".to_owned(), "application/json".to_owned());
        headers.insert("x-frame-options".to_owned(), "DENY".to_owned());
        headers.insert("x-content-type-options".to_owned(), "nosniff".to_owned());
        headers.insert("x-xss-protection".to_owned(), "1; mode=block".to_owned());
        HttpResponse::new(
            404,
            "Not Found".to_owned(),
            HttpVersion::Http2,
            headers,
            slice_to_vec(body.as_str().as_bytes()),
        )
    }

    /// The answer that tells of an error.
    pub fn error_response(status_code: u16, reason_phrase: &str) -> (r: HttpResponse)
        ensures
            r.inv(),
            r@ == error_page(status_code, reason_phrase@),
    {
        HttpServer::error_response(status_code, reason_phrase)
    }
}

proof fn lemma_verdict(elements: Seq<Seq<char>>, i: int, body: Seq<u8>, seen: bool)
    requires
        0 <= i,
    ensures
        digest_verdict(elements, i, body, seen) == Ok::<bool, RequestFault>(true) ==> exists|k: int|
            i <= k < elements.len() && is_sha256(#[trigger] elements[k]) && digest_in(elements[k]) == Some(
                sha256_of(body),
            ),
        seen ==> digest_verdict(elements, i, body, seen) != Ok::<bool, RequestFault>(false),
        digest_verdict(elements, i, body, seen) == Ok::<bool, RequestFault>(false) ==> forall|k: int|
            i <= k < elements.len() ==> !is_sha256(#[trigger] elements[k]),
    decreases elements.len() - i,
{
    if i < elements.len() {
        if !is_sha256(elements[i]) {
            lemma_verdict(elements, i + 1, body, seen);
        } else {
            lemma_verdict(elements, i + 1, body, true);
        }
    }
}

/// A request with a body that is accepted where digests and tags are insisted on tells the digest of its body, and
/// the tag of its method, path and body.
pub proof fn law_accepted_request_is_vouched_for(
    cfg: HttpsServerCfg,
    method: Seq<char>,
    path: Seq<char>,
    headers: FieldTable,
    body: Seq<u8>,
)
    requires
        request_fault(cfg, method, path, headers, body) is None,
        body.len() > 0,
    ensures
        cfg.require_request_digest ==> (value_nocase(headers, "digest"@) matches Some(d) && exists|k: int|
            0 <= k < split_on(d, ',').len() && is_sha256(#[trigger] split_on(d, ',')[k]) && digest_in(
                split_on(d, ',')[k],
            ) == Some(sha256_of(body))),
        cfg.require_request_tag ==> (value_nocase(headers, "X-Singularity-Nonce"@) matches Some(n)
            && decoded(n) matches Some(nonce) && (value_nocase(
            headers,
            "X-Singularity-Request-Tag"@,
        ) matches Some(t) && decoded(t) == Some(request_tag(method, path, nonce, body)))),
{
    if cfg.require_request_digest {
        let d = value_nocase(headers, "digest"@)->0;
        lemma_verdict(split_on(d, ','), 0, body, false);
    }
}

/// A request that tells its own tag is accepted as far as tags go.
pub proof fn law_own_request_tag_accepted(
    method: Seq<char>,
    path: Seq<char>,
    headers: FieldTable,
    nonce: Seq<u8>,
    body: Seq<u8>,
)
    requires
        value_nocase(headers, "X-Singularity-Nonce"@) == Some(encoded(nonce)),
        value_nocase(headers, "X-Singularity-Request-Tag"@) == Some(
            encoded(request_tag(method, path, nonce, body)),
        ),
    ensures
        tag_told(method, path, headers, body) == Ok::<bool, RequestFault>(true),
{
    law_base64_roundtrip(nonce);
    law_base64_roundtrip(request_tag(method, path, nonce, body));
}

/// A request that tells the tag of another method, path or body is refused, where the tags differ.
pub proof fn law_foreign_request_tag_refused(
    method: Seq<char>,
    path: Seq<char>,
    headers: FieldTable,
    nonce: Seq<u8>,
    body: Seq<u8>,
    tag: Seq<u8>,
)
    requires
        value_nocase(headers, "X-Singularity-Nonce"@) == Some(encoded(nonce)),
        value_nocase(headers, "X-Singularity-Request-Tag"@) == Some(encoded(tag)),
        tag != request_tag(method, path, nonce, body),
    ensures
        tag_told(method, path, headers, body) == Err::<bool, RequestFault>(RequestFault::TagMismatch),
{
    law_base64_roundtrip(nonce);
    law_base64_roundtrip(tag);
}

/// What a response says in the fields that are the server's own is what the server found out, whatever the handler
/// put there.
pub proof fn law_response_vouches_for_body(h: FieldTable, meta: BodyMetaView, wire: Seq<u8>, keep_alive: bool)
    requires
        in_name_order(h),
    ensures
        ({
            let f = answer_fields(h, meta, wire, keep_alive);
            &&& value(f, "Digest"@) == Some("SHA-256="@ + meta.digest)
            &&& value(f, "X-Content-Sha256"@) == Some(hex(sha256_of(wire)))
            &&& value(f, "X-Singularity-Nonce"@) == Some(meta.nonce)
            &&& value(f, "X-Singularity-Response-Tag"@) == Some(meta.tag)
            &&& wire.len() > 0 ==> value(f, "Content-Length"@) == Some(decimal(wire.len()))
            &&& meta.algorithm != CompressionAlgorithm::Identity ==> value(f, "Content-Encoding"@) == Some(
                coding_name(meta.algorithm),
            )
        }),
{
    reveal_strlit("Digest");
    reveal_strlit("X-Content-Sha256");
    reveal_strlit("X-Singularity-Nonce");
    reveal_strlit("X-Singularity-Response-Tag");
    reveal_strlit("Content-Length");
    reveal_strlit("Content-Encoding");
    reveal_strlit("Connection");
    let base = uncontrolled(h, h.len() as int);
    let own = own_fields(meta, wire);
    let n = own.len() as int;
    lemma_uncontrolled_in_order(h, h.len() as int);
    lemma_own_names(meta, wire);
    lemma_each_found(base, own, n);
    let f = with_each(base, own, n);
    assert("X-Content-Sha256"@[0] == 'X' && "Content-Encoding"@[0] == 'C');
    assert forall|i: int| 0 <= i < n implies value(with_connection(f, keep_alive), (#[trigger] own[i]).0) == Some(
        own[i].1,
    ) by {
        assert(value(f, own[i].0) == Some(own[i].1));
        if value_nocase(f, "Connection"@) is None {
            law_put_value(
                f,
                "Connection"@,
                if keep_alive {
                    "keep-alive"@
                } else {
                    "close"@
                },
                own[i].0,
            );
        }
    }
    assert(own[n - 4] == ("Digest"@, "SHA-256="@ + meta.digest));
    assert(own[n - 3] == ("X-Content-Sha256"@, hex(sha256_of(wire))));
    assert(own[n - 2] == ("X-Singularity-Nonce"@, meta.nonce));
    assert(own[n - 1] == ("X-Singularity-Response-Tag"@, meta.tag));
    if wire.len() > 0 {
        assert(own[0] == ("Content-Length"@, decimal(wire.len())));
    }
    if meta.algorithm != CompressionAlgorithm::Identity {
        assert(own[n - 5] == ("Content-Encoding"@, coding_name(meta.algorithm)));
    }
}

proof fn lemma_own_names(meta: BodyMetaView, wire: Seq<u8>)
    ensures
        ({
            let own = own_fields(meta, wire);
            &&& own.len() >= 4
            &&& forall|i: int, j: int|
                0 <= i < j < own.len() ==> (#[trigger] own[i]).0 != (#[trigger] own[j]).0
            &&& forall|i: int| 0 <= i < own.len() ==> (#[trigger] own[i]).0 != "Connection"@
        }),
{
    reveal_strlit("Digest");
    reveal_strlit("X-Content-Sha256");
    reveal_strlit("X-Singularity-Nonce");
    reveal_strlit("X-Singularity-Response-Tag");
    reveal_strlit("Content-Length");
    reveal_strlit("Content-Encoding");
    reveal_strlit("Connection");
    assert("Digest"@.len() == 6);
    assert("X-Content-Sha256"@.len() == 16 && "X-Content-Sha256"@[0] == 'X');
    assert("X-Singularity-Nonce"@.len() == 19);
    assert("X-Singularity-Response-Tag"@.len() == 26);
    assert("Content-Length"@.len() == 14);
    assert("Content-Encoding"@.len() == 16 && "Content-Encoding"@[0] == 'C');
    assert("Connection"@.len() == 10);
}

proof fn lemma_uncontrolled_in_order(h: FieldTable, n: int)
    requires
        in_name_order(h),
        0 <= n <= h.len(),
    ensures
        in_name_order(uncontrolled(h, n)),
    decreases n,
{
    if n > 0 {
        lemma_uncontrolled_in_order(h, n - 1);
        lemma_uncontrolled_order(h, n - 1, h[n - 1].0);
    }
}

proof fn lemma_each_found(h: FieldTable, more: FieldTable, n: int)
    requires
        in_name_order(h),
        0 <= n <= more.len(),
        forall|i: int, j: int| 0 <= i < j < more.len() ==> (#[trigger] more[i]).0 != (#[trigger] more[j]).0,
    ensures
        in_name_order(with_each(h, more, n)),
        forall|i: int|
            0 <= i < n ==> value(with_each(h, more, n), (#[trigger] more[i]).0) == Some(more[i].1),
    decreases n,
{
    if n > 0 {
        lemma_each_found(h, more, n - 1);
        let was = with_each(h, more, n - 1);
        law_put_in_order(was, more[n - 1].0, more[n - 1].1);
        assert forall|i: int| 0 <= i < n implies value(with_each(h, more, n), (#[trigger] more[i]).0) == Some(
            more[i].1,
        ) by {
            law_put_value(was, more[n - 1].0, more[n - 1].1, more[i].0);
        }
    }
}

/// Whether a name stands first at `k` among pairs.
pub open spec fn stands_first(fields: FieldTable, name: Seq<char>, k: int) -> bool {
    &&& 0 <= k < fields.len()
    &&& fields[k].0 == name
    &&& forall|j: int| 0 <= j < k ==> (#[trigger] fields[j]).0 != name
}

/// Whether a name stands nowhere among pairs.
pub open spec fn stands_nowhere(fields: FieldTable, name: Seq<char>) -> bool {
    forall|j: int| 0 <= j < fields.len() ==> (#[trigger] fields[j]).0 != name
}

proof fn lemma_first_pair(fields: FieldTable, name: Seq<char>, i: int, k: int)
    requires
        0 <= i <= k,
        stands_first(fields, name, k),
    ensures
        first_pair(fields, name, i) == Some(fields[k].1),
    decreases k - i,
{
    if i < k {
        lemma_first_pair(fields, name, i + 1, k);
    }
}

proof fn lemma_no_pair(fields: FieldTable, name: Seq<char>, i: int)
    requires
        0 <= i,
        stands_nowhere(fields, name),
    ensures
        first_pair(fields, name, i) is None,
    decreases fields.len() - i,
{
    if i < fields.len() {
        lemma_no_pair(fields, name, i + 1);
    }
}

/// A request that is taken off a stream of HTTP/2 has the path that its first `:path` field tells and the method that
/// its first `:method` field tells; where one is not told, the path is `/` and the method `GET`. Nothing is taken just
/// where the method is none that is known.
pub proof fn law_stream_request_line(
    cfg: HttpsServerCfg,
    fields: FieldTable,
    body: Seq<u8>,
    plain: Option<Seq<u8>>,
    p: int,
    m: int,
)
    ensures
        stream_request(cfg, fields, body, plain) matches Ok(Some(q)) ==> {
            &&& q.version == HttpVersion::Http2
            &&& stands_first(fields, ":path"@, p) ==> q.path == fields[p].1
            &&& stands_nowhere(fields, ":path"@) ==> q.path == "/"@
            &&& stands_first(fields, ":method"@, m) ==> method_name(q.method) == fields[m].1
            &&& stands_nowhere(fields, ":method"@) ==> q.method == HttpMethod::GET
        },
        stands_first(fields, ":method"@, m) ==> (stream_request(cfg, fields, body, plain) == Ok::<
            Option<RequestView>,
            RequestFault,
        >(None) <==> forall|x: HttpMethod| #[trigger] method_name(x) != fields[m].1),
        stands_nowhere(fields, ":method"@) ==> stream_request(cfg, fields, body, plain) != Ok::<
            Option<RequestView>,
            RequestFault,
        >(None),
{
    if stands_first(fields, ":path"@, p) {
        lemma_first_pair(fields, ":path"@, 0, p);
    }
    if stands_nowhere(fields, ":path"@) {
        lemma_no_pair(fields, ":path"@, 0);
    }
    if stands_first(fields, ":method"@, m) {
        lemma_first_pair(fields, ":method"@, 0, m);
        assert forall|x: HttpMethod| #[trigger] method_name(x) == fields[m].1 implies method_named(fields[m].1) == Some(
            x,
        ) by {
            law_method_names(x);
        }
        if let Some(x) = method_named(fields[m].1) {
            assert(method_name(x) == fields[m].1);
        }
    }
    if stands_nowhere(fields, ":method"@) {
        lemma_no_pair(fields, ":method"@, 0);
        law_method_names(HttpMethod::GET);
        assert(method_name(HttpMethod::GET) == "GET"@);
    }
}

/// A request that is accepted has the method, path and version that were read, every field that was read under a name
/// that no other field has, and the body as it was sent or, where it was sent in a coding, as the codec gives it back.
/// A body that is not empty has its length told.
pub proof fn law_accepted_request_is_what_was_read(
    cfg: HttpsServerCfg,
    method: HttpMethod,
    path: Seq<char>,
    version: HttpVersion,
    t: FieldTable,
    body: Seq<u8>,
    plain: Option<Seq<u8>>,
    k: int,
    a: CompressionAlgorithm,
)
    ensures
        https_request(cfg, method, path, version, t, body, plain) matches Ok(q) ==> {
            &&& q.method == method
            &&& q.path == path
            &&& q.version == version
            &&& 0 <= k < t.len() && lowered(t[k].0) != lowered("Content-Length"@) && (forall|j: int|
                0 <= j < t.len() && j != k ==> lowered((#[trigger] t[j]).0) != lowered(t[k].0)) ==> field(
                q.headers,
                t[k].0,
            ) == Some(t[k].1)
            &&& q.body.len() > 0 ==> field(q.headers, "Content-Length"@) == Some(decimal(q.body.len()))
            &&& (forall|j: int| 0 <= j < t.len() ==> !same_nocase((#[trigger] t[j]).0, "content-encoding"@)) ==> q.body
                == body
            &&& 0 <= k < t.len() && same_nocase(t[k].0, "content-encoding"@) && (forall|j: int|
                0 <= j < k ==> !same_nocase((#[trigger] t[j]).0, "content-encoding"@)) && lowered(
                trimmed(head(t[k].1, ',')),
            ) == coding_name(a) ==> q.body == (if a == CompressionAlgorithm::Identity {
                body
            } else {
                plain->0
            })
        },
{
    let f = fields_of(t, t.len() as int);
    lemma_fields_of_order(t, t.len() as int);
    if 0 <= k < t.len() && forall|j: int| 0 <= j < t.len() && j != k ==> lowered((#[trigger] t[j]).0) != lowered(t[k].0) {
        lemma_fields_of_hold(t, t.len() as int, k);
    }
    law_value_nocase_stands(t, "content-encoding"@);
    if let Ok(q) = https_request(cfg, method, path, version, t, body, plain) {
        let b = body_told(t, body, plain).unwrap();
        law_field_set(f, "Content-Length"@, decimal(b.len()), "Content-Length"@);
        if 0 <= k < t.len() {
            law_field_set(f, "Content-Length"@, decimal(b.len()), t[k].0);
        }
        if 0 <= k < t.len() {
            law_decoded_body(head(t[k].1, ','), body, plain, a);
        }
    }
}

proof fn lemma_uncontrolled_holds(h: FieldTable, n: int, f: (Seq<char>, Seq<char>))
    requires
        n <= h.len(),
    ensures
        uncontrolled(h, n).contains(f) <==> !is_controlled(f.0) && exists|i: int|
            0 <= i < n && #[trigger] h[i] == f,
    decreases n,
{
    if n > 0 {
        lemma_uncontrolled_holds(h, n - 1, f);
        let was = uncontrolled(h, n - 1);
        let all = was.push(h[n - 1]);
        if was.contains(f) {
            let i = choose|i: int| 0 <= i < was.len() && was[i] == f;
            assert(all[i] == f);
        }
        if h[n - 1] == f {
            assert(all[was.len() as int] == f);
        }
        if all.contains(f) {
            let i = choose|i: int| 0 <= i < all.len() && all[i] == f;
            if i < was.len() {
                assert(was[i] == f);
            }
        }
    }
}

proof fn lemma_each_others(h: FieldTable, more: FieldTable, n: int, name: Seq<char>)
    requires
        in_name_order(h),
        0 <= n <= more.len(),
        forall|i: int| 0 <= i < n ==> (#[trigger] more[i]).0 != name,
    ensures
        in_name_order(with_each(h, more, n)),
        value(with_each(h, more, n), name) == value(h, name),
    decreases n,
{
    if n > 0 {
        lemma_each_others(h, more, n - 1, name);
        let was = with_each(h, more, n - 1);
        law_put_in_order(was, more[n - 1].0, more[n - 1].1);
        law_put_value(was, more[n - 1].0, more[n - 1].1, name);
        assert(more[n - 1].0 != name);
    }
}

/// The fields that a handler set are sent as it set them, over either protocol, but for six names, whatever their case,
/// that are the server's own. A response that does not say whether the connection stays open is sent with what the
/// server does about it.
pub proof fn law_handler_fields_are_sent(
    r: ResponseView,
    meta: BodyMetaView,
    wire: Seq<u8>,
    keep_alive: bool,
    i: int,
)
    requires
        in_name_order(r.headers),
        0 <= i < r.headers.len(),
    ensures
        ({
            let name = r.headers[i].0;
            let own = lowered(name) == "content-length"@ || lowered(name) == "content-encoding"@ || lowered(name)
                == "digest"@ || lowered(name) == "x-content-sha256"@ || lowered(name) == "x-singularity-nonce"@
                || lowered(name) == "x-singularity-response-tag"@;
            let f = answer_fields(r.headers, meta, wire, keep_alive);
            &&& !own ==> value(f, name) == Some(r.headers[i].1)
            &&& !own ==> http2_answer(r, meta, wire).contains(r.headers[i])
            &&& http2_answer(r, meta, wire)[0] == (":status"@, decimal(r.status as nat))
            &&& (forall|j: int| 0 <= j < r.headers.len() ==> !same_nocase((#[trigger] r.headers[j]).0, "Connection"@))
                ==> value(f, "Connection"@) == Some(
                if keep_alive {
                    "keep-alive"@
                } else {
                    "close"@
                },
            )
        }),
{
    let h = r.headers;
    let name = h[i].0;
    let n = h.len() as int;
    let base = uncontrolled(h, n);
    let own = own_fields(meta, wire);
    let m = own.len() as int;
    lemma_controlled(name);
    lemma_own_names(meta, wire);
    lemma_own_controlled(meta, wire);
    lemma_uncontrolled_in_order(h, n);
    lemma_each_found(base, own, m);
    let f = with_each(base, own, m);
    assert(h[i] == h[i]);
    lemma_uncontrolled_holds(h, n, h[i]);
    if !is_controlled(name) {
        let k = choose|k: int| 0 <= k < base.len() && base[k] == h[i];
        law_value_found(base, k);
        assert forall|j: int| 0 <= j < m implies (#[trigger] own[j]).0 != name by {
            assert(is_controlled(own[j].0));
        }
        lemma_each_others(base, own, m, name);
        let all = http2_answer(r, meta, wire);
        assert(all[k + 1] == h[i]);
        law_put_value(
            f,
            "Connection"@,
            if keep_alive {
                "keep-alive"@
            } else {
                "close"@
            },
            name,
        );
        law_value_nocase_stands(f, "Connection"@);
        if value_nocase(f, "Connection"@) is None && name == "Connection"@ {
            law_value_stands(f, "Connection"@);
            let v = value(f, "Connection"@).unwrap();
            let x = choose|x: int| 0 <= x < f.len() && #[trigger] f[x] == ("Connection"@, v);
            assert(!same_nocase(f[x].0, "Connection"@));
        }
    }
    if forall|j: int| 0 <= j < h.len() ==> !same_nocase((#[trigger] h[j]).0, "Connection"@) {
        lemma_no_connection(h, meta, wire);
        law_put_value(
            f,
            "Connection"@,
            if keep_alive {
                "keep-alive"@
            } else {
                "close"@
            },
            "Connection"@,
        );
    }
}

proof fn lemma_controlled(name: Seq<char>)
    ensures
        is_controlled(name) <==> lowered(name) == "content-length"@ || lowered(name) == "content-encoding"@ || lowered(
            name,
        ) == "digest"@ || lowered(name) == "x-content-sha256"@ || lowered(name) == "x-singularity-nonce"@ || lowered(
            name,
        ) == "x-singularity-response-tag"@,
{
    reveal_strlit("Content-Length");
    reveal_strlit("content-length");
    reveal_strlit("Content-Encoding");
    reveal_strlit("content-encoding");
    reveal_strlit("Digest");
    reveal_strlit("digest");
    reveal_strlit("X-Content-Sha256");
    reveal_strlit("x-content-sha256");
    reveal_strlit("X-Singularity-Nonce");
    reveal_strlit("x-singularity-nonce");
    reveal_strlit("X-Singularity-Response-Tag");
    reveal_strlit("x-singularity-response-tag");
    assert(lowered("Content-Length"@) =~= "content-length"@);
    assert(lowered("Content-Encoding"@) =~= "content-encoding"@);
    assert(lowered("Digest"@) =~= "digest"@);
    assert(lowered("X-Content-Sha256"@) =~= "x-content-sha256"@);
    assert(lowered("X-Singularity-Nonce"@) =~= "x-singularity-nonce"@);
    assert(lowered("X-Singularity-Response-Tag"@) =~= "x-singularity-response-tag"@);
}

proof fn lemma_own_controlled(meta: BodyMetaView, wire: Seq<u8>)
    ensures
        forall|j: int| 0 <= j < own_fields(meta, wire).len() ==> is_controlled((#[trigger] own_fields(meta, wire)[j]).0),
{
}

/// What holds of no field, and of none that is put there, holds of none afterwards.
proof fn lemma_no_connection(h: FieldTable, meta: BodyMetaView, wire: Seq<u8>)
    requires
        in_name_order(h),
        forall|j: int| 0 <= j < h.len() ==> !same_nocase((#[trigger] h[j]).0, "Connection"@),
    ensures
        value_nocase(
            with_each(uncontrolled(h, h.len() as int), own_fields(meta, wire), own_fields(meta, wire).len() as int),
            "Connection"@,
        ) is None,
{
    let base = uncontrolled(h, h.len() as int);
    let own = own_fields(meta, wire);
    assert forall|j: int| 0 <= j < base.len() implies !same_nocase((#[trigger] base[j]).0, "Connection"@) by {
        assert(base.contains(base[j]));
        lemma_uncontrolled_holds(h, h.len() as int, base[j]);
    }
    lemma_own_controlled(meta, wire);
    reveal_strlit("Connection");
    assert forall|j: int| 0 <= j < own.len() implies !same_nocase((#[trigger] own[j]).0, "Connection"@) by {
        assert(is_controlled(own[j].0));
        lemma_controlled(own[j].0);
        reveal_strlit("content-length");
        reveal_strlit("content-encoding");
        reveal_strlit("digest");
        reveal_strlit("x-content-sha256");
        reveal_strlit("x-singularity-nonce");
        reveal_strlit("x-singularity-response-tag");
        assert(lowered("Connection"@).len() == 10);
    }
    lemma_uncontrolled_in_order(h, h.len() as int);
    lemma_each_without(base, own, own.len() as int, "Connection"@);
    law_value_nocase_stands(with_each(base, own, own.len() as int), "Connection"@);
}

proof fn lemma_each_without(h: FieldTable, more: FieldTable, n: int, name: Seq<char>)
    requires
        in_name_order(h),
        0 <= n <= more.len(),
        forall|j: int| 0 <= j < h.len() ==> !same_nocase((#[trigger] h[j]).0, name),
        forall|j: int| 0 <= j < n ==> !same_nocase((#[trigger] more[j]).0, name),
    ensures
        in_name_order(with_each(h, more, n)),
        forall|j: int| 0 <= j < with_each(h, more, n).len() ==> !same_nocase((#[trigger] with_each(h, more, n)[j]).0, name),
    decreases n,
{
    if n > 0 {
        lemma_each_without(h, more, n - 1, name);
        let was = with_each(h, more, n - 1);
        let all = with_each(h, more, n);
        law_put_in_order(was, more[n - 1].0, more[n - 1].1);
        lemma_put_entries(was, more[n - 1].0, more[n - 1].1);
        assert(!same_nocase(more[n - 1].0, name));
    }
}

/// The body of a response is sent as it is, or as the codec made it; what is told of it is told of what is sent, but for
/// the size of the plain body. An empty body, or one of a server that does not compress, is sent as it is.
pub proof fn law_secured_body(
    cfg: HttpsServerCfg,
    status: u16,
    reason: Seq<char>,
    body: Seq<u8>,
    accept: Option<Seq<char>>,
    coded: Option<Seq<u8>>,
    nonce: Seq<u8>,
)
    ensures
        match secured_body(cfg, status, reason, body, accept, coded, nonce) {
            Some((meta, wire)) => {
                &&& if meta.algorithm == CompressionAlgorithm::Identity {
                    wire == body
                } else {
                    coded == Some(wire)
                }
                &&& body.len() == 0 || !cfg.compression_enabled ==> wire == body && meta.algorithm
                    == CompressionAlgorithm::Identity
                &&& decoded(meta.digest) == Some(sha256_of(wire))
                &&& decoded(meta.nonce) == Some(nonce)
                &&& decoded(meta.tag) == Some(response_tag(status, reason, nonce, wire))
                &&& meta.plain_size == body.len() && meta.wire_size == wire.len()
            },
            None => body.len() > 0 && cfg.compression_enabled && coded is None,
        },
{
    if let Some((meta, wire)) = secured_body(cfg, status, reason, body, accept, coded, nonce) {
        law_base64_roundtrip(sha256_of(wire));
        law_base64_roundtrip(nonce);
        law_base64_roundtrip(response_tag(status, reason, nonce, wire));
    }
}

proof fn lemma_preferred(accepted: Seq<AcceptedCoding>, preferred: Seq<CompressionAlgorithm>, i: int) -> (r: Option<int>)
    requires
        0 <= i,
    ensures
        match r {
            Some(k) => i <= k < preferred.len() && first_preferred(accepted, preferred, i) == Some(preferred[k])
                && is_acceptable(accepted, preferred[k]) && forall|j: int|
                i <= j < k ==> !is_acceptable(accepted, #[trigger] preferred[j]),
            None => first_preferred(accepted, preferred, i) is None && forall|j: int|
                i <= j < preferred.len() ==> !is_acceptable(accepted, #[trigger] preferred[j]),
        },
    decreases preferred.len() - i,
{
    if i >= preferred.len() {
        None
    } else if is_acceptable(accepted, preferred[i]) {
        Some(i)
    } else {
        lemma_preferred(accepted, preferred, i + 1)
    }
}

/// A response gets the first coding that the server prefers among those that are accepted at all; where there is none,
/// the best that is accepted. What it gets is accepted, or is the identity.
pub proof fn law_answer_coding(accept: Seq<char>, preferred: Seq<CompressionAlgorithm>, k: int)
    ensures
        ({
            let accepted = accepted_codings(accept);
            let a = answer_coding(accept, preferred);
            &&& 0 <= k < preferred.len() && (exists|i: int|
                0 <= i < accepted.len() && (#[trigger] accepted[i]).algorithm == preferred[k] && accepted[i].quality > 0
                    && implemented(preferred[k])) ==> exists|j: int| 0 <= j <= k && #[trigger] preferred[j] == a
            &&& (forall|j: int, i: int|
                0 <= j < preferred.len() && 0 <= i < accepted.len() && (#[trigger] accepted[i]).algorithm
                    == #[trigger] preferred[j] ==> accepted[i].quality == 0) ==> a == selected(accept, false)
            &&& a != CompressionAlgorithm::Identity ==> exists|i: int|
                0 <= i < accepted.len() && (#[trigger] accepted[i]).algorithm == a && accepted[i].quality > 0
        }),
{
    let accepted = accepted_codings(accept);
    let r = lemma_preferred(accepted, preferred, 0);
    law_selected_is_accepted(accept, false);
    if 0 <= k < preferred.len() && exists|i: int|
        0 <= i < accepted.len() && (#[trigger] accepted[i]).algorithm == preferred[k] && accepted[i].quality > 0
            && implemented(preferred[k]) {
        assert(is_acceptable(accepted, preferred[k]));
        let j = r.unwrap();
        assert(preferred[j] == answer_coding(accept, preferred));
    }
    if let Some(j) = r {
        assert(is_acceptable(accepted, preferred[j]));
    }
}

/// A request that tells the digest of other octets than its body is refused; one that tells none is, where a digest is
/// required and there is a body.
pub proof fn law_request_digest(
    cfg: HttpsServerCfg,
    method: Seq<char>,
    path: Seq<char>,
    headers: FieldTable,
    body: Seq<u8>,
    other: Seq<u8>,
)
    ensures
        value_nocase(headers, "digest"@) == Some(digest_value(other)) && sha256_of(other) != sha256_of(body)
            ==> request_fault(cfg, method, path, headers, body) == Some(RequestFault::DigestMismatch),
        value_nocase(headers, "digest"@) is None && cfg.require_request_digest && body.len() > 0 ==> request_fault(
            cfg,
            method,
            path,
            headers,
            body,
        ) == Some(RequestFault::DigestRequired),
{
    lemma_own_digest_element(other);
    let elements = split_on(digest_value(other), ',');
    assert(elements.len() == 1 && elements[0] == digest_value(other));
    reveal_with_fuel(digest_verdict, 3);
}

proof fn lemma_same_text(a: Seq<char>, b: Seq<char>, x: Seq<u8>, y: Seq<u8>)
    requires
        lacks(a, '\n'),
        lacks(b, '\n'),
        encode_utf8(a) + seq![10u8] + x == encode_utf8(b) + seq![10u8] + y,
    ensures
        a == b,
        x == y,
{
    lemma_octets_lack(a, '\n');
    lemma_octets_lack(b, '\n');
    encode_utf8_decode_utf8(a);
    encode_utf8_decode_utf8(b);
    lemma_same_front(encode_utf8(a), encode_utf8(b), 10, x, y);
}

proof fn lemma_same_signed(n: Seq<u8>, m: Seq<u8>, i: u64, j: u64, p: Seq<u8>, q: Seq<u8>)
    requires
        n.len() == m.len(),
        n + (be64(i) + p) == m + (be64(j) + q),
    ensures
        n == m,
        p == q,
{
    lemma_be64_differ(i, j);
    lemma_be64_differ(j, i);
    lemma_same_parts(n, m, be64(i) + p, be64(j) + q);
    lemma_same_parts(be64(i), be64(j), p, q);
}

proof fn lemma_request_parts(c: Seq<u8>, m: Seq<u8>, p: Seq<u8>, n: Seq<u8>, u: Seq<u8>, b: Seq<u8>)
    ensures
        c + m + seq![10u8] + p + seq![10u8] + n + u + b == c + (m + seq![10u8] + (p + seq![10u8] + (n + (u + b)))),
{
    let lf = seq![10u8];
    let x = n + (u + b);
    assert(c + m + lf + p + lf + n + u + b =~= c + m + lf + p + lf + x);
    assert(c + m + lf + p + lf + x =~= c + m + lf + (p + lf + x));
    assert(c + m + lf + (p + lf + x) =~= c + (m + lf + (p + lf + x)));
}

/// The tag of a request binds all that it vouches for: what it is made over differs wherever the method, the path, the
/// nonce, of one length, or the body does.
#[verifier::rlimit(40)]
pub proof fn law_request_tag_binds(
    a: (Seq<char>, Seq<char>, Seq<u8>, Seq<u8>),
    b: (Seq<char>, Seq<char>, Seq<u8>, Seq<u8>),
)
    requires
        lacks(a.0, '\n') && lacks(a.1, '\n') && lacks(b.0, '\n') && lacks(b.1, '\n'),
        a.2.len() == b.2.len(),
    ensures
        request_material(a.0, a.1, a.2, a.3) == request_material(b.0, b.1, b.2, b.3) ==> a.0 == b.0 && a.1 == b.1 && a.2
            == b.2 && a.3 == b.3,
        request_tag(a.0, a.1, a.2, a.3) == sha256_of(request_material(a.0, a.1, a.2, a.3)),
{
    if request_material(a.0, a.1, a.2, a.3) == request_material(b.0, b.1, b.2, b.3) {
        let lf = seq![10u8];
        let (i, j) = ((a.3.len() % 0x1_0000_0000_0000_0000) as u64, (b.3.len() % 0x1_0000_0000_0000_0000) as u64);
        let (x, y) = (a.2 + (be64(i) + a.3), b.2 + (be64(j) + b.3));
        let (v, w) = (encode_utf8(a.1) + lf + x, encode_utf8(b.1) + lf + y);
        let c = encode_utf8("SINGULARITY_HTTPS_SERVER_REQUEST_V1"@);
        lemma_request_parts(c, encode_utf8(a.0), encode_utf8(a.1), a.2, be64(i), a.3);
        lemma_request_parts(c, encode_utf8(b.0), encode_utf8(b.1), b.2, be64(j), b.3);
        lemma_same_parts(c, c, encode_utf8(a.0) + lf + v, encode_utf8(b.0) + lf + w);
        lemma_same_text(a.0, b.0, v, w);
        lemma_same_text(a.1, b.1, x, y);
        lemma_same_signed(a.2, b.2, i, j, a.3, b.3);
    }
}

proof fn lemma_response_parts(c: Seq<u8>, s: Seq<u8>, p: Seq<u8>, n: Seq<u8>, u: Seq<u8>, b: Seq<u8>)
    ensures
        c + s + p + seq![10u8] + n + u + b == c + (s + (p + seq![10u8] + (n + (u + b)))),
{
    let lf = seq![10u8];
    let x = n + (u + b);
    assert(c + s + p + lf + n + u + b =~= c + s + p + lf + x);
    assert(c + s + p + lf + x =~= c + s + (p + lf + x));
    assert(c + s + (p + lf + x) =~= c + (s + (p + lf + x)));
}

/// The tag of a response binds all that it vouches for: what it is made over differs wherever the status, the phrase, the
/// nonce, of one length, or the body does.
#[verifier::rlimit(40)]
pub proof fn law_response_tag_binds(
    s: u16,
    t: u16,
    a: (Seq<char>, Seq<u8>, Seq<u8>),
    b: (Seq<char>, Seq<u8>, Seq<u8>),
)
    requires
        lacks(a.0, '\n') && lacks(b.0, '\n'),
        a.1.len() == b.1.len(),
    ensures
        response_material(s, a.0, a.1, a.2) == response_material(t, b.0, b.1, b.2) ==> s == t && a.0 == b.0 && a.1 == b.1
            && a.2 == b.2,
        response_tag(s, a.0, a.1, a.2) == sha256_of(response_material(s, a.0, a.1, a.2)),
{
    if response_material(s, a.0, a.1, a.2) == response_material(t, b.0, b.1, b.2) {
        let lf = seq![10u8];
        let (i, j) = ((a.2.len() % 0x1_0000_0000_0000_0000) as u64, (b.2.len() % 0x1_0000_0000_0000_0000) as u64);
        let (x, y) = (a.1 + (be64(i) + a.2), b.1 + (be64(j) + b.2));
        let (v, w) = (encode_utf8(a.0) + lf + x, encode_utf8(b.0) + lf + y);
        let c = encode_utf8("SINGULARITY_HTTPS_SERVER_RESPONSE_V1"@);
        lemma_response_parts(c, be16(s), encode_utf8(a.0), a.1, be64(i), a.2);
        lemma_response_parts(c, be16(t), encode_utf8(b.0), b.1, be64(j), b.2);
        lemma_same_parts(c, c, be16(s) + v, be16(t) + w);
        law_be16_roundtrip(s);
        law_be16_roundtrip(t);
        lemma_same_parts(be16(s), be16(t), v, w);
        lemma_same_text(a.0, b.0, x, y);
        lemma_same_signed(a.1, b.1, i, j, a.2, b.2);
    }
}

/// A connection is served by HTTP/2 where that was agreed on, by HTTP/1.1 where that was or nothing was, and not at all
/// where another protocol was.
pub proof fn law_served_protocol(p: AlpnProtocol)
    ensures
        served_as(Some(AlpnProtocol::Http2)) == ServedProtocol::Http2,
        served_as(Some(AlpnProtocol::Http11)) == ServedProtocol::Http1,
        served_as(None) == ServedProtocol::Http1,
        p != AlpnProtocol::Http2 && p != AlpnProtocol::Http11 ==> served_as(Some(p)) == ServedProtocol::Unsupported,
{
}

/// The coding of a body is what stands before the first comma in the first field that names one, whatever the case of
/// letters; without such a field it is the identity, and a name that no coding has is none.
pub proof fn law_coding_is_told(t: FieldTable, k: int, a: CompressionAlgorithm)
    ensures
        (forall|j: int| 0 <= j < t.len() ==> !same_nocase((#[trigger] t[j]).0, "content-encoding"@)) ==> coding_told(t)
            == Some(CompressionAlgorithm::Identity),
        0 <= k < t.len() && same_nocase(t[k].0, "content-encoding"@) && (forall|j: int|
            0 <= j < k ==> !same_nocase((#[trigger] t[j]).0, "content-encoding"@)) && lowered(trimmed(head(t[k].1, ',')))
            == coding_name(a) ==> coding_told(t) == Some(a),
        coding_told(t) matches Some(b) ==> b == CompressionAlgorithm::Identity || exists|j: int|
            0 <= j < t.len() && same_nocase((#[trigger] t[j]).0, "content-encoding"@) && lowered(
                trimmed(head(t[j].1, ',')),
            ) == coding_name(b),
{
    law_value_nocase_stands(t, "content-encoding"@);
    law_coding_names(a);
    reveal_strlit("identity");
    reveal_strlit("gzip");
    reveal_strlit("deflate");
    reveal_strlit("br");
    reveal_strlit("zstd");
    assert("identity"@.len() == 8 && "gzip"@.len() == 4 && "deflate"@.len() == 7 && "br"@.len() == 2 && "zstd"@.len()
        == 4);
    if let Some(e) = value_nocase(t, "content-encoding"@) {
        let w = lowered(trimmed(head(e, ',')));
        assert(w.len() == trimmed(head(e, ',')).len());
        let j = choose|j: int|
            0 <= j < t.len() && same_nocase((#[trigger] t[j]).0, "content-encoding"@) && t[j].1 == e;
        if let Some(b) = coding_told(t) {
            if b != CompressionAlgorithm::Identity {
                assert(same_nocase(t[j].0, "content-encoding"@) && coding_name(b) == w);
            }
        }
    }
}

}
