//! Requests and responses of a client over TLS: what a request looks like, what its response is held against, and
//! where a redirection leads. Random octets and the work of the codec come in as arguments.
use vstd::prelude::*;
use vstd::slice::{slice_subrange, slice_to_vec};
use vstd::string::StringSliceAdditionalSpecFns;
use vstd::utf8::encode_utf8;

use crate::bytes::{be64, constant_time_eq, lemma_be64_differ, lemma_same_parts, push_be64, push_bytes};
use crate::crypto::base64::{
    decode, decode_chars, decoded, encode, encoded, law_base64_roundtrip, lemma_encoded_symbols,
};
use crate::crypto::hmac::{hmac_of, hmac_sha256};
use crate::crypto::sha256::{lemma_sha256_len, sha256, sha256_of};
use crate::decimal::{decimal, law_decimal_roundtrip, parse_u16, parsed, to_decimal};
use crate::net::blob::opt_bytes;
use crate::net::http::compression::{
    coding_name, implemented, select_compressing, selected, CompressionAlgorithm,
};
use crate::net::http::headers::{
    field, fields_wire, is_kept, law_field_set, law_value_added, values_of, with_field, with_more, Fields, Headers,
};
use crate::net::http::message::digest_value;
use crate::net::http::method::{method_name, HttpMethod};
use crate::net::http::response::{
    push_wire_line, reason_of, response_of, table_wire, wire_line, FieldTable, HttpResponse, ResponseView,
};
use crate::net::http::version::HttpVersion;
use crate::net::https::alpn::AlpnProtocol;
use crate::net::https::client::{
    Connection, ConnectionView, Http2State, HttpsClient, HttpsClientCfg, HttpsError, PendingRequest,
    PendingView, ResponseFault,
};
use crate::net::https::http2::{
    build_http2_frame, drained, frame, lemma_frames_read, CONNECTION_PREFACE, FLAG_END, FLAG_END_HEADERS, FRAME_DATA,
    FRAME_HEADERS, FRAME_SETTINGS, ReaderView,
};
use crate::net::https::payload::{
    decode_secure_https_payload, encode_secure_https_payload_auto, law_payload_roundtrip, payload_sealed,
    payload_unsealed,
};
use crate::net::https::url::{
    host_header, host_text, parse_url, redirect_url, redirected, target_of, Target, TargetView, UrlFault,
};
use crate::table::{
    before, in_name_order, law_before_irreflexive, law_put_in_order, law_put_value, law_value_found,
    law_value_nocase_stands, law_value_stands, lemma_put_entries, put, value, value_nocase, without_nocase, Table,
};
use crate::text::{
    begins_with, chars_of, find, find_char, is_text, joined, lemma_find_is, lemma_trimmed_solid,
    lowered, push_chars, push_text, same_nocase, starts_with, string_of, to_lower, trim, trimmed,
};

verus! {

/// The fields with the first `n` values more under a name.
pub open spec fn with_values(h: Fields, name: Seq<char>, values: Seq<Seq<char>>, n: int) -> Fields
    decreases n,
{
    if n <= 0 {
        h
    } else {
        with_more(with_values(h, name, values, n - 1), name, values[n - 1])
    }
}

/// The fields with those of `more` added, the first `n` of them.
pub open spec fn with_all(h: Fields, more: Fields, n: int) -> Fields
    decreases n,
{
    if n <= 0 {
        h
    } else {
        with_values(
            with_all(h, more, n - 1),
            more[n - 1].0,
            more[n - 1].1,
            more[n - 1].1.len() as int,
        )
    }
}

/// The fields with one that is put there where it is missing.
pub open spec fn with_missing(h: Fields, probe: Seq<char>, name: Seq<char>, v: Seq<char>) -> Fields {
    if field(h, probe) is None {
        with_field(h, name, v)
    } else {
        h
    }
}

/// The fields of a request.
pub open spec fn prepared_fields(cfg: HttpsClientCfg, custom: Option<Fields>, host: Seq<char>, port: u16) -> Fields {
    let all = match custom {
        Some(c) => with_all(cfg.default_headers@, c, c.len() as int),
        None => cfg.default_headers@,
    };
    with_missing(
        with_missing(
            with_missing(all, "host"@, "Host"@, host_text(host, port)),
            "user-agent"@,
            "User-Agent"@,
            cfg.user_agent@,
        ),
        "accept-encoding"@,
        "Accept-Encoding"@,
        "br, zstd, gzip, deflate, identity"@,
    )
}

/// What is known of a request before it is sent.
#[derive(Debug, Clone)]
pub struct RequestPlan {
    pub target: Target,
    pub headers: Headers,
}

fn set_missing(headers: &mut Headers, probe: &str, name: &str, v: &str)
    requires
        old(headers).inv(),
    ensures
        final(headers).inv(),
        final(headers)@ == with_missing(old(headers)@, probe@, name@, v@),
{
    if !headers.contains(probe) {
        headers.insert(name, v);
    }
}

fn add_all(headers: &mut Headers, more: &Headers)
    requires
        old(headers).inv(),
    ensures
        final(headers).inv(),
        final(headers)@ == with_all(old(headers)@, more@, more@.len() as int),
{
    let ghost base = headers@;
    let n: usize = more.len();
    let mut i: usize = 0;
    while i < n
        invariant
            i <= n,
            n == more@.len(),
            headers.inv(),
            headers@ == with_all(base, more@, i as int),
        decreases n - i,
    {
        let name = more.name_at(i);
        let values = more.values_at(i);
        let ghost so_far = headers@;
        let m: usize = values.len();
        let mut j: usize = 0;
        while j < m
            invariant
                j <= m,
                m == values@.len(),
                headers.inv(),
                headers@ == with_values(so_far, name@, values@, j as int),
            decreases m - j,
        {
            headers.append(name, values.at(j));
            j = j + 1;
        }
        i = i + 1;
    }
}

/// The code that vouches for a payload under a context.
pub open spec fn payload_tag(context: Seq<u8>, nonce: Seq<u8>, payload: Seq<u8>) -> Seq<u8> {
    hmac_of(context, payload_material(nonce, payload))
}

/// What the code of a payload is made over.
pub open spec fn payload_material(nonce: Seq<u8>, payload: Seq<u8>) -> Seq<u8> {
    nonce + be64((payload.len() % 0x1_0000_0000_0000_0000) as u64) + sha256_of(payload) + payload
}

/// Computes the code that vouches for a payload under a context.
pub fn compute_payload_tag(context_key: &[u8], nonce: &[u8], payload: &[u8]) -> (r: Vec<u8>)
    ensures
        r@ == payload_tag(context_key@, nonce@, payload@),
        r@.len() == 32,
{
    let digest = sha256(payload);
    let mut material = slice_to_vec(nonce);
    push_be64(&mut material, payload.len() as u64);
    push_bytes(&mut material, digest.as_slice());
    push_bytes(&mut material, payload);
    hmac_sha256(context_key, material.as_slice())
}

/// What stands behind the first equals sign, or everything.
pub open spec fn behind_equals(v: Seq<char>) -> Seq<char> {
    match find(v, '=') {
        Some(i) => trimmed(v.skip(i + 1)),
        None => trimmed(v),
    }
}

/// Reads a code out of a field.
pub fn decode_hmac_header_value(v: &str) -> (r: Option<Vec<u8>>)
    ensures
        match r {
            Some(o) => decoded(behind_equals(v@)) == Some(o@),
            None => decoded(behind_equals(v@)) is None,
        },
{
    let chars = chars_of(v);
    let end: usize = chars.len();
    let raw = match find_char(chars.as_slice(), '=') {
        Some(i) => {
            let rest = slice_subrange(chars.as_slice(), i + 1, end);
            assert(rest@ =~= v@.skip(i + 1));
            trim(rest)
        },
        None => trim(chars.as_slice()),
    };
    decode_chars(raw)
}

/// Whether a value says yes.
pub open spec fn says_yes(v: Seq<char>) -> bool {
    let s = lowered(trimmed(v));
    s == "1"@ || s == "true"@ || s == "yes"@ || s == "on"@ || s == "v1"@
}

/// Tells whether a value says yes.
pub fn is_truthy_header(v: &str) -> (r: bool)
    ensures
        r == says_yes(v@),
{
    let chars = chars_of(v);
    let low = to_lower(trim(chars.as_slice()));
    let s = low.as_slice();
    is_text(s, "1") || is_text(s, "true") || is_text(s, "yes") || is_text(s, "on") || is_text(s, "v1")
}

/// The request with the code that vouches for its body.
#[verifier::opaque]
pub open spec fn tagged(h: Fields, body: Seq<u8>, nonce: Seq<u8>) -> Fields {
    with_field(
        with_field(
            with_field(h, "X-Singularity-Request-Nonce"@, encoded(nonce)),
            "X-Singularity-Request-Tag"@,
            "HMAC-SHA-256="@ + encoded(
                payload_tag(encode_utf8("SINGULARITY_HTTPS_CLIENT_REQUEST_TAG_V1"@), nonce, body),
            ),
        ),
        "Content-Length"@,
        decimal(body.len()),
    )
}

/// The `Accept-Encoding` value of a request.
pub open spec fn accepted_by(h: Fields) -> Seq<char> {
    match field(h, "accept-encoding"@) {
        Some(v) => v,
        None => "identity"@,
    }
}

/// Whether a body goes into an envelope.
pub open spec fn goes_enveloped(cfg: HttpsClientCfg, len: nat) -> bool {
    cfg.enable_secure_envelopes && len >= cfg.request_compression_min_size
}

/// Whether a body that goes into no envelope is compressed.
pub open spec fn goes_compressed(cfg: HttpsClientCfg, len: nat) -> bool {
    cfg.preferred_request_compression != CompressionAlgorithm::Identity && implemented(
        cfg.preferred_request_compression,
    ) && len >= cfg.request_compression_min_size
}

/// The fields of a request that say that its body is in an envelope.
pub open spec fn announcing_envelope(h: Fields) -> Fields {
    with_field(
        with_field(
            with_field(h, "X-Singularity-Secure-Envelope"@, "v1"@),
            "Content-Type"@,
            "application/x-singularity-secure-envelope"@,
        ),
        "Content-Encoding"@,
        "identity"@,
    )
}

/// Fields and body of a request as they are sent, and what went wrong with that. `coded` is what the codec made of
/// the body, `seal` was drawn for its envelope, `nonce` for its code.
pub open spec fn outbound(
    cfg: HttpsClientCfg,
    h: Fields,
    body: Seq<u8>,
    coded: Option<Seq<u8>>,
    seal: Seq<u8>,
    nonce: Seq<u8>,
) -> (Fields, Seq<u8>, Option<HttpsError>) {
    if body.len() == 0 {
        (h, body, None)
    } else {
        let h1 = with_field(h, "Digest"@, digest_value(body));
        if goes_enveloped(cfg, body.len()) {
            match payload_sealed(body, selected(accepted_by(h1), false), coded, seal) {
                Err(e) => (h1, body, Some(HttpsError::InvalidResponse(ResponseFault::Sealing(e)))),
                Ok((_, blob)) => {
                    (tagged(announcing_envelope(h1), blob, nonce), blob, None)
                },
            }
        } else if goes_compressed(cfg, body.len()) {
            match coded {
                None => (h1, body, Some(HttpsError::Codec)),
                Some(c) => if c.len() < body.len() {
                    (
                        tagged(
                            with_field(
                                h1,
                                "Content-Encoding"@,
                                coding_name(cfg.preferred_request_compression),
                            ),
                            c,
                            nonce,
                        ),
                        c,
                        None,
                    )
                } else {
                    (tagged(h1, body, nonce), body, None)
                },
            }
        } else {
            (tagged(h1, body, nonce), body, None)
        }
    }
}

fn insert_tag(headers: &mut Headers, body: &[u8], nonce: &[u8])
    requires
        old(headers).inv(),
    ensures
        final(headers).inv(),
        final(headers)@ == tagged(old(headers)@, body@, nonce@),
{
    proof {
        reveal(tagged);
    }
    let tag = compute_payload_tag(
        "SINGULARITY_HTTPS_CLIENT_REQUEST_TAG_V1".as_bytes(),
        nonce,
        body,
    );
    let shown = encode(nonce);
    headers.insert("X-Singularity-Request-Nonce", shown.as_str());
    let mut text = chars_of("HMAC-SHA-256=");
    push_text(&mut text, encode(tag.as_slice()).as_str());
    let value = string_of(text.as_slice());
    headers.insert("X-Singularity-Request-Tag", value.as_str());
    let size = string_of(to_decimal(body.len() as u64).as_slice());
    headers.insert("Content-Length", size.as_str());
}

fn insert_digest(headers: &mut Headers, body: &[u8])
    requires
        old(headers).inv(),
    ensures
        final(headers).inv(),
        final(headers)@ == with_field(old(headers)@, "Digest"@, digest_value(body@)),
{
    let digest = sha256(body);
    let mut text = chars_of("SHA-256=");
    push_text(&mut text, encode(digest.as_slice()).as_str());
    let shown = string_of(text.as_slice());
    headers.insert("Digest", shown.as_str());
}

/// Puts a body into an envelope, and says so in the fields.
fn put_in_envelope(headers: &mut Headers, body: &mut Vec<u8>, coded: Option<&[u8]>, seal: &[u8]) -> (r: Result<
    (),
    HttpsError,
>)
    requires
        old(headers).inv(),
    ensures
        final(headers).inv(),
        match payload_sealed(
            old(body)@,
            selected(accepted_by(old(headers)@), false),
            opt_bytes(coded),
            seal@,
        ) {
            Ok((_, blob)) => {
                &&& r == Ok::<(), HttpsError>(())
                &&& final(headers)@ == announcing_envelope(old(headers)@)
                &&& final(body)@ == blob
            },
            Err(e) => {
                &&& r == Err::<(), HttpsError>(HttpsError::InvalidResponse(ResponseFault::Sealing(e)))
                &&& final(headers)@ == old(headers)@
                &&& final(body)@ == old(body)@
            },
        },
{
    let accept = match headers.get("accept-encoding") {
        Some(v) => v.to_owned(),
        None => "identity".to_owned(),
    };
    let blob = match encode_secure_https_payload_auto(body.as_slice(), accept.as_str(), coded, seal) {
        Ok((_, b)) => b,
        Err(e) => {
            return Err(HttpsError::InvalidResponse(ResponseFault::Sealing(e)));
        },
    };
    *body = blob;
    headers.insert("X-Singularity-Secure-Envelope", "v1");
    headers.insert("Content-Type", "application/x-singularity-secure-envelope");
    headers.insert("Content-Encoding", "identity");
    Ok(())
}

/// Puts the compressed form in place of a body where it is shorter, and says so in the fields.
fn put_compressed(headers: &mut Headers, body: &mut Vec<u8>, form: &[u8], algorithm: CompressionAlgorithm)
    requires
        old(headers).inv(),
    ensures
        final(headers).inv(),
        form@.len() < old(body)@.len() ==> final(body)@ == form@ && final(headers)@ == with_field(
            old(headers)@,
            "Content-Encoding"@,
            coding_name(algorithm),
        ),
        form@.len() >= old(body)@.len() ==> final(body)@ == old(body)@ && final(headers)@ == old(headers)@,
{
    if form.len() < body.len() {
        *body = slice_to_vec(form);
        headers.insert("Content-Encoding", algorithm.content_encoding());
    }
}

/// What is wrong with the code of a response, if it has one. A response that has none is not held against
/// anything; one whose code does not fit is refused where the settings say so.
pub open spec fn integrity_fault(enforce: bool, r: ResponseView) -> Option<HttpsError> {
    match (
        value_nocase(r.headers, "x-singularity-response-nonce"@),
        value_nocase(r.headers, "x-singularity-response-tag"@),
    ) {
        (Some(n), Some(t)) => match (decoded(n), decoded(behind_equals(t))) {
            (None, _) => Some(HttpsError::InvalidResponse(ResponseFault::NonceEncoding)),
            (_, None) => Some(HttpsError::InvalidResponse(ResponseFault::TagEncoding)),
            (Some(nonce), Some(tag)) => if enforce && payload_tag(
                encode_utf8("SINGULARITY_HTTPS_CLIENT_RESPONSE_TAG_V1"@),
                nonce,
                r.body,
            ) != tag {
                Some(HttpsError::InvalidResponse(ResponseFault::Integrity))
            } else {
                None
            },
        },
        _ => None,
    }
}

/// Whether a response says that its body is an envelope.
pub open spec fn says_enveloped(h: FieldTable) -> bool {
    value_nocase(h, "x-singularity-secure-envelope"@) matches Some(v) && says_yes(v)
}

/// The fields of a response whose envelope has been opened.
pub open spec fn unveiled_fields(h: FieldTable, len: nat) -> FieldTable {
    put(
        without_nocase(without_nocase(h, "x-singularity-secure-envelope"@), "content-encoding"@),
        "content-length"@,
        decimal(len),
    )
}

/// A response as it is handed on: held against its code, and with its envelope opened. `plain` is what the codec
/// made of the payload in the envelope.
pub open spec fn accepted_response(cfg: HttpsClientCfg, r: ResponseView, plain: Option<Seq<u8>>) -> Result<
    ResponseView,
    HttpsError,
> {
    match integrity_fault(cfg.enforce_response_integrity, r) {
        Some(e) => Err(e),
        None => if !says_enveloped(r.headers) {
            Ok(r)
        } else {
            match payload_unsealed(r.body, plain) {
                Err(e) => Err(HttpsError::InvalidResponse(ResponseFault::Envelope(e))),
                Ok((_, payload)) => Ok(
                    ResponseView {
                        headers: unveiled_fields(r.headers, payload.len()),
                        body: payload,
                        ..r
                    },
                ),
            }
        },
    }
}

/// A request of HTTP/1 on the wire.
pub open spec fn request_octets(method: HttpMethod, path: Seq<char>, h: Fields, body: Seq<u8>) -> Seq<u8> {
    encode_utf8(
        method_name(method) + " "@ + path + " HTTP/1.1\r\n"@ + fields_wire(h, h.len() as int) + "\r\n"@,
    ) + body
}

/// The fields of a request that is sent: the length of a body is told.
pub open spec fn sized_fields(h: Fields, body: Seq<u8>) -> Fields {
    if body.len() > 0 {
        with_missing(h, "content-length"@, "Content-Length"@, decimal(body.len()))
    } else {
        h
    }
}

/// Writes a request of HTTP/1.
pub fn http1_request(method: HttpMethod, path: &str, headers: &Headers, body: &[u8]) -> (r: Vec<u8>)
    requires
        headers.inv(),
    ensures
        r@ == request_octets(method, path@, sized_fields(headers@, body@), body@),
{
    let mut fields = headers.copy();
    if body.len() > 0 {
        let size = string_of(to_decimal(body.len() as u64).as_slice());
        set_missing(&mut fields, "content-length", "Content-Length", size.as_str());
    }
    let mut text = chars_of(method.as_str());
    push_text(&mut text, " ");
    push_text(&mut text, path);
    push_text(&mut text, " HTTP/1.1\r\n");
    push_chars(&mut text, fields.format().as_slice());
    push_text(&mut text, "\r\n");
    let head = string_of(text.as_slice());
    let mut out = slice_to_vec(head.as_str().as_bytes());
    push_bytes(&mut out, body);
    out
}

/// The values of the first `n` fields of a request of HTTP/2, several of one field in one text.
pub open spec fn joined_fields(start: FieldTable, h: Fields, n: int) -> FieldTable
    decreases n,
{
    if n <= 0 {
        start
    } else {
        let before = joined_fields(start, h, n - 1);
        let (name, values) = h[n - 1];
        if begins_with(name, ":"@) || values.len() == 0 {
            before
        } else {
            put(before, name, joined(values, ", "@))
        }
    }
}

/// The header of a request of HTTP/2.
pub open spec fn http2_fields(method: HttpMethod, path: Seq<char>, h: Fields, body_len: nat) -> FieldTable {
    let start = put(
        put(
            put(
                put(seq![], ":method"@, method_name(method)),
                ":path"@,
                path,
            ),
            ":scheme"@,
            "https"@,
        ),
        ":authority"@,
        match field(h, "host"@) {
            Some(v) => v,
            None => seq![],
        },
    );
    let all = joined_fields(start, h, h.len() as int);
    if body_len > 0 {
        put(all, "content-length"@, decimal(body_len))
    } else {
        all
    }
}

fn join_values(values: &crate::net::http::headers::FieldValues) -> (r: String)
    ensures
        r@ == joined(values@, ", "@),
{
    let mut pieces: Vec<Vec<char>> = Vec::new();
    let n: usize = values.len();
    let mut i: usize = 0;
    while i < n
        invariant
            i <= n,
            n == values@.len(),
            crate::text::char_texts(pieces@) =~= values@.take(i as int),
        decreases n - i,
    {
        let p = chars_of(values.at(i));
        let ghost was = crate::text::char_texts(pieces@);
        pieces.push(p);
        assert(crate::text::char_texts(pieces@) =~= was.push(p@));
        i = i + 1;
    }
    assert(values@.take(n as int) =~= values@);
    string_of(crate::text::join(&pieces, ", ").as_slice())
}

/// Makes the header of a request of HTTP/2.
pub fn http2_request_headers(method: HttpMethod, path: &str, headers: &Headers, body_len: usize) -> (r: Table<
    String,
>)
    requires
        headers.inv(),
    ensures
        r.inv(),
        r@ == http2_fields(method, path@, headers@, body_len as nat),
{
    let mut map: Table<String> = Table::new();
    assert(map@ =~= seq![]);
    map.insert(":method".to_owned(), method.as_str().to_owned());
    map.insert(":path".to_owned(), path.to_owned());
    map.insert(":scheme".to_owned(), "https".to_owned());
    let authority = match headers.get("host") {
        Some(v) => v.to_owned(),
        None => String::new(),
    };
    assert(authority@ =~= match field(headers@, "host"@) {
        Some(v) => v,
        None => seq![],
    });
    map.insert(":authority".to_owned(), authority);
    let ghost start = map@;
    let n: usize = headers.len();
    let mut i: usize = 0;
    while i < n
        invariant
            i <= n,
            n == headers@.len(),
            map.inv(),
            map@ == joined_fields(start, headers@, i as int),
        decreases n - i,
    {
        let name = headers.name_at(i);
        let values = headers.values_at(i);
        if !starts_with(chars_of(name).as_slice(), ":") && values.len() > 0 {
            map.insert(name.to_owned(), join_values(values));
        }
        i = i + 1;
    }
    if body_len > 0 {
        let size = string_of(to_decimal(body_len as u64).as_slice());
        map.insert("content-length".to_owned(), size);
    }
    map
}

/// What is sent for a request of HTTP/2 on a stream: where the connection has not begun, it begins first.
pub open spec fn http2_octets(h2: Http2State, header_block: Seq<u8>, body: Seq<u8>) -> Seq<u8> {
    let start = if h2.initialized {
        seq![]
    } else {
        encode_utf8(CONNECTION_PREFACE@) + frame(FRAME_SETTINGS, 0, 0, seq![])
    };
    let head = frame(
        FRAME_HEADERS,
        if body.len() == 0 {
            5u8
        } else {
            FLAG_END_HEADERS
        },
        h2.next_stream_id,
        header_block,
    );
    let data = if body.len() == 0 {
        seq![]
    } else {
        frame(FRAME_DATA, FLAG_END, h2.next_stream_id, body)
    };
    start + head + data
}

/// A connection of HTTP/2 before its first stream.
pub open spec fn fresh_http2() -> Http2State {
    Http2State { next_stream_id: 1, initialized: false }
}

/// A connection of HTTP/2 after one more stream.
pub open spec fn after_stream(h2: Http2State) -> Http2State {
    Http2State { next_stream_id: (h2.next_stream_id + 2) as u32, initialized: true }
}

/// How far a connection of HTTP/2 is.
pub open spec fn http2_of(c: ConnectionView) -> Http2State {
    match c.http2 {
        Some(h) => h,
        None => fresh_http2(),
    }
}

/// The status of a response of HTTP/2, among the first `n` fields; 200 where none tells it.
pub open spec fn http2_status(fields: Seq<(Seq<char>, Seq<char>)>, n: int) -> Option<u16>
    decreases n,
{
    if n <= 0 {
        Some(200)
    } else {
        match http2_status(fields, n - 1) {
            None => None,
            Some(s) => if fields[n - 1].0 == ":status"@ {
                match parsed(fields[n - 1].1, u16::MAX as nat) {
                    Some(c) => Some(c as u16),
                    None => None,
                }
            } else {
                Some(s)
            },
        }
    }
}

/// The fields of a response of HTTP/2, among the first `n`: those whose names do not begin with a colon.
pub open spec fn http2_table(fields: Seq<(Seq<char>, Seq<char>)>, n: int) -> FieldTable
    decreases n,
{
    if n <= 0 {
        seq![]
    } else if begins_with(fields[n - 1].0, ":"@) {
        http2_table(fields, n - 1)
    } else {
        put(http2_table(fields, n - 1), fields[n - 1].0, fields[n - 1].1)
    }
}

pub open spec fn pair_texts(v: Seq<(String, String)>) -> Seq<(Seq<char>, Seq<char>)> {
    v.map_values(|p: (String, String)| (p.0@, p.1@))
}

/// A response in the form that HTTP/1 gives it.
pub open spec fn synthetic_wire(status: u16, reason: Seq<char>, h: FieldTable, body: Seq<u8>) -> Seq<u8> {
    encode_utf8(
        "HTTP/1.1 "@ + decimal(status as nat) + " "@ + reason + "\r\n"@ + table_wire(h, h.len() as int)
            + (if value_nocase(h, "content-length"@) is None {
            wire_line("Content-Length"@, decimal(body.len()))
        } else {
            seq![]
        }) + "\r\n"@,
    ) + body
}

/// Writes a response in the form that HTTP/1 gives it.
pub fn build_synthetic_http1_response(
    status_code: u16,
    reason_phrase: &str,
    headers: &Table<String>,
    body: &[u8],
) -> (r: Vec<u8>)
    ensures
        r@ == synthetic_wire(status_code, reason_phrase@, headers@, body@),
{
    let mut text = chars_of("HTTP/1.1 ");
    push_chars(&mut text, to_decimal(status_code as u64).as_slice());
    push_text(&mut text, " ");
    push_text(&mut text, reason_phrase);
    push_text(&mut text, "\r\n");
    let ghost front = text@;
    let n: usize = headers.len();
    let mut i: usize = 0;
    assert(front + table_wire(headers@, 0) =~= front);
    while i < n
        invariant
            i <= n,
            n == headers@.len(),
            text@ == front + table_wire(headers@, i as int),
        decreases n - i,
    {
        push_wire_line(&mut text, headers.name_at(i), headers.value_at(i).as_str());
        assert(text@ =~= front + table_wire(headers@, i + 1));
        i = i + 1;
    }
    if headers.get_nocase("content-length").is_none() {
        let size = string_of(to_decimal(body.len() as u64).as_slice());
        push_wire_line(&mut text, "Content-Length", size.as_str());
    } else {
        assert(text@ + seq![] =~= text@);
    }
    push_text(&mut text, "\r\n");
    let head = string_of(text.as_slice());
    let mut out = slice_to_vec(head.as_str().as_bytes());
    push_bytes(&mut out, body);
    out
}

/// The response that a header and a body of HTTP/2 make, in the form of HTTP/1.
pub open spec fn http2_wire(fields: Seq<(Seq<char>, Seq<char>)>, body: Seq<u8>) -> Option<Seq<u8>> {
    match http2_status(fields, fields.len() as int) {
        None => None,
        Some(status) => Some(
            synthetic_wire(status, reason_of(status), http2_table(fields, fields.len() as int), body),
        ),
    }
}

/// The response that a header and a body of HTTP/2 make. `plain` is what the codec made of the body, `inner` of the
/// payload in its envelope.
pub open spec fn http2_response(
    cfg: HttpsClientCfg,
    fields: Seq<(Seq<char>, Seq<char>)>,
    body: Seq<u8>,
    plain: Option<Seq<u8>>,
    inner: Option<Seq<u8>>,
) -> Result<ResponseView, HttpsError> {
    match http2_wire(fields, body) {
        None => Err(HttpsError::InvalidResponse(ResponseFault::BadStatus)),
        Some(wire) => match response_of(wire, plain) {
            Err(e) => Err(HttpsError::InvalidResponse(ResponseFault::UnreadableStream(e))),
            Ok(r) => accepted_response(cfg, ResponseView { version: HttpVersion::Http2, ..r }, inner),
        },
    }
}

/// The response that octets of HTTP/1 make.
pub open spec fn http1_response(
    cfg: HttpsClientCfg,
    bytes: Seq<u8>,
    plain: Option<Seq<u8>>,
    inner: Option<Seq<u8>>,
) -> Result<ResponseView, HttpsError> {
    match response_of(bytes, plain) {
        Err(e) => Err(HttpsError::InvalidResponse(ResponseFault::Unreadable(e))),
        Ok(r) => accepted_response(cfg, r, inner),
    }
}

fn read_http2_fields(fields: &Vec<(String, String)>) -> (r: Option<(u16, Table<String>)>)
    ensures
        match r {
            Some((s, t)) => t.inv() && http2_status(pair_texts(fields@), fields@.len() as int) == Some(s)
                && t@ == http2_table(pair_texts(fields@), fields@.len() as int),
            None => http2_status(pair_texts(fields@), fields@.len() as int) is None,
        },
{
    let ghost all = pair_texts(fields@);
    let mut status: u16 = 200;
    let mut map: Table<String> = Table::new();
    assert(map@ =~= seq![]);
    let mut i: usize = 0;
    while i < fields.len()
        invariant
            i <= fields@.len(),
            all == pair_texts(fields@),
            map.inv(),
            http2_status(all, i as int) == Some(status),
            map@ == http2_table(all, i as int),
        decreases fields@.len() - i,
    {
        assert(all[i as int] == (fields@[i as int].0@, fields@[i as int].1@));
        let name = chars_of(fields[i].0.as_str());
        proof {
            reveal_strlit(":status");
            reveal_strlit(":");
            assert(":status"@.take(1) =~= ":"@);
        }
        if is_text(name.as_slice(), ":status") {
            match parse_u16(chars_of(fields[i].1.as_str()).as_slice()) {
                Some(s) => {
                    status = s;
                },
                None => {
                    proof {
                        lemma_status_lost(all, i + 1, fields@.len() as int);
                    }
                    return None;
                },
            }
        } else if !starts_with(name.as_slice(), ":") {
            map.insert(fields[i].0.as_str().to_owned(), fields[i].1.as_str().to_owned());
        }
        i = i + 1;
    }
    Some((status, map))
}

proof fn lemma_status_lost(fields: Seq<(Seq<char>, Seq<char>)>, n: int, m: int)
    requires
        n <= m,
        http2_status(fields, n) is None,
    ensures
        http2_status(fields, m) is None,
    decreases m - n,
{
    if n < m {
        lemma_status_lost(fields, n, m - 1);
        assert(n <= 0 ==> http2_status(fields, n) is Some);
    }
}

/// What follows a response.
#[derive(Debug, Clone)]
pub enum AfterResponse {
    /// It is what was asked for.
    Deliver,
    /// Another request is to be made in its place.
    Follow(PendingRequest),
}

/// Whether a status code leads elsewhere.
pub open spec fn leads_elsewhere(status: u16) -> bool {
    status == 301 || status == 302 || status == 303 || status == 307 || status == 308
}

/// The request that a response leads to.
pub open spec fn followed(cfg: HttpsClientCfg, p: PendingView, from: TargetView, r: ResponseView) -> Option<
    PendingView,
> {
    if !cfg.follow_redirect || !leads_elsewhere(r.status) {
        None
    } else {
        match value_nocase(r.headers, "location"@) {
            None => None,
            Some(location) => Some(
                PendingView {
                    method: if r.status == 303 {
                        HttpMethod::GET
                    } else {
                        p.method
                    },
                    body: if r.status == 303 {
                        None
                    } else {
                        p.body
                    },
                    url: redirected(p.url, from, location),
                    headers: p.headers,
                    redirect_count: (p.redirect_count + 1) as usize,
                },
            ),
        }
    }
}

impl HttpsClient {
    /// Finds out where a request goes and with which fields; fails where too many redirections led to it or its
    /// address cannot be read.
    pub fn plan_request(&self, request: &PendingRequest) -> (r: Result<RequestPlan, HttpsError>)
        requires
            self.inv(),
            request.headers matches Some(h) ==> h.inv(),
        ensures
            match r {
                Ok(p) => {
                    &&& request.redirect_count <= self.cfg.max_redirects
                    &&& target_of(request@.url) == Ok::<TargetView, UrlFault>(p.target@)
                    &&& p.headers.inv()
                    &&& p.headers@ == prepared_fields(
                        self.cfg,
                        request@.headers,
                        p.target@.host,
                        p.target@.port,
                    )
                },
                Err(e) => if request.redirect_count > self.cfg.max_redirects {
                    e == HttpsError::TooManyRedirects
                } else {
                    target_of(request@.url) matches Err(x) && e == HttpsError::InvalidUrl(x)
                },
            },
    {
        if request.redirect_count > self.cfg.max_redirects {
            return Err(HttpsError::TooManyRedirects);
        }
        let target = match parse_url(request.url.as_str()) {
            Ok(t) => t,
            Err(e) => {
                return Err(HttpsError::InvalidUrl(e));
            },
        };
        let mut headers = self.cfg.default_headers.copy();
        match &request.headers {
            Some(h) => add_all(&mut headers, h),
            None => {},
        }
        let host = host_header(target.host.as_str(), target.port);
        set_missing(&mut headers, "host", "Host", host.as_str());
        set_missing(&mut headers, "user-agent", "User-Agent", self.cfg.user_agent.as_str());
        set_missing(
            &mut headers,
            "accept-encoding",
            "Accept-Encoding",
            "br, zstd, gzip, deflate, identity",
        );
        Ok(RequestPlan { target, headers })
    }

    /// The coding whose codec is to be run on a body before it is sent.
    pub fn outbound_coding(&self, headers: &Headers, body_len: usize) -> (r: CompressionAlgorithm)
        requires
            headers.inv(),
        ensures
            r == (if goes_enveloped(self.cfg, body_len as nat) {
                selected(accepted_by(headers@), false)
            } else if goes_compressed(self.cfg, body_len as nat) {
                self.cfg.preferred_request_compression
            } else {
                CompressionAlgorithm::Identity
            }),
    {
        if self.cfg.enable_secure_envelopes && body_len >= self.cfg.request_compression_min_size {
            match headers.get("accept-encoding") {
                Some(v) => select_compressing(v),
                None => select_compressing("identity"),
            }
        } else if self.cfg.preferred_request_compression != CompressionAlgorithm::Identity
            && self.cfg.preferred_request_compression.is_implemented() && body_len
            >= self.cfg.request_compression_min_size {
            self.cfg.preferred_request_compression
        } else {
            CompressionAlgorithm::Identity
        }
    }

    /// Makes a request fit for sending: its body goes into an envelope or is compressed, and is vouched for.
    /// `coded` is what the codec made of the body, `None` where the codec failed; it is not looked at under the
    /// identity. `seal` was drawn for the envelope, `nonce` for the code.
    pub fn apply_outbound_security(
        &self,
        headers: &mut Headers,
        body: &mut Vec<u8>,
        coded: Option<&[u8]>,
        seal: &[u8],
        nonce: &[u8],
    ) -> (r: Result<(), HttpsError>)
        requires
            old(headers).inv(),
        ensures
            final(headers).inv(),
            ({
                let due = outbound(
                    self.cfg,
                    old(headers)@,
                    old(body)@,
                    opt_bytes(coded),
                    seal@,
                    nonce@,
                );
                &&& final(headers)@ == due.0
                &&& final(body)@ == due.1
                &&& r == (match due.2 {
                    Some(e) => Err::<(), HttpsError>(e),
                    None => Ok(()),
                })
            }),
    {
        if body.len() == 0 {
            return Ok(());
        }
        insert_digest(headers, body.as_slice());
        if self.cfg.enable_secure_envelopes && body.len() >= self.cfg.request_compression_min_size {
            match put_in_envelope(headers, body, coded, seal) {
                Ok(()) => {},
                Err(e) => {
                    return Err(e);
                },
            }
        } else if self.cfg.preferred_request_compression != CompressionAlgorithm::Identity
            && self.cfg.preferred_request_compression.is_implemented() && body.len()
            >= self.cfg.request_compression_min_size {
            match coded {
                None => {
                    return Err(HttpsError::Codec);
                },
                Some(c) => put_compressed(headers, body, c, self.cfg.preferred_request_compression),
            }
        }
        insert_tag(headers, body.as_slice(), nonce);
        Ok(())
    }

    /// Holds a response against its code, if it has one.
    pub fn verify_optional_response_integrity(&self, response: &HttpResponse) -> (r: Result<(), HttpsError>)
        ensures
            r == (match integrity_fault(self.cfg.enforce_response_integrity, response@) {
                Some(e) => Err::<(), HttpsError>(e),
                None => Ok(()),
            }),
    {
        let nonce_text = match response.header("x-singularity-response-nonce") {
            Some(v) => v,
            None => {
                return Ok(());
            },
        };
        let tag_text = match response.header("x-singularity-response-tag") {
            Some(v) => v,
            None => {
                return Ok(());
            },
        };
        let nonce = match decode(nonce_text.as_str()) {
            Some(n) => n,
            None => {
                return Err(HttpsError::InvalidResponse(ResponseFault::NonceEncoding));
            },
        };
        let expected = match decode_hmac_header_value(tag_text.as_str()) {
            Some(t) => t,
            None => {
                return Err(HttpsError::InvalidResponse(ResponseFault::TagEncoding));
            },
        };
        let computed = compute_payload_tag(
            "SINGULARITY_HTTPS_CLIENT_RESPONSE_TAG_V1".as_bytes(),
            nonce.as_slice(),
            response.body(),
        );
        if !constant_time_eq(computed.as_slice(), expected.as_slice())
            && self.cfg.enforce_response_integrity {
            return Err(HttpsError::InvalidResponse(ResponseFault::Integrity));
        }
        Ok(())
    }

    /// Holds a response against its code and opens its envelope. `plain` is what the codec made of the payload in
    /// the envelope, `None` where the codec failed; it is not looked at under the identity.
    pub fn maybe_decode_secure_response(&self, response: HttpResponse, plain: Option<&[u8]>) -> (r: Result<
        HttpResponse,
        HttpsError,
    >)
        requires
            response.inv(),
        ensures
            match r {
                Ok(q) => q.inv() && accepted_response(self.cfg, response@, opt_bytes(plain)) == Ok::<
                    ResponseView,
                    HttpsError,
                >(q@),
                Err(e) => accepted_response(self.cfg, response@, opt_bytes(plain)) == Err::<
                    ResponseView,
                    HttpsError,
                >(e),
            },
    {
        match self.verify_optional_response_integrity(&response) {
            Ok(()) => {},
            Err(e) => {
                return Err(e);
            },
        }
        let enveloped = match response.header("x-singularity-secure-envelope") {
            Some(v) => is_truthy_header(v.as_str()),
            None => false,
        };
        if !enveloped {
            return Ok(response);
        }
        let payload = match decode_secure_https_payload(response.body(), plain) {
            Ok((_, p)) => p,
            Err(e) => {
                return Err(HttpsError::InvalidResponse(ResponseFault::Envelope(e)));
            },
        };
        let mut headers = response.headers().copy();
        headers.remove_nocase("x-singularity-secure-envelope");
        headers.remove_nocase("content-encoding");
        let size = string_of(to_decimal(payload.len() as u64).as_slice());
        headers.insert("content-length".to_owned(), size);
        let q = HttpResponse::new(
            response.status_code(),
            response.reason_phrase().to_owned(),
            response.version(),
            headers,
            payload,
        );
        Ok(q)
    }

    /// Reads a response of HTTP/1. `plain` is what the codec made of its body, `inner` of the payload in its
    /// envelope, `None` where the codec failed; they are not looked at under the identity.
    pub fn parse_http1_response(&self, bytes: &[u8], plain: Option<&[u8]>, inner: Option<&[u8]>) -> (r: Result<
        HttpResponse,
        HttpsError,
    >)
        ensures
            match r {
                Ok(q) => q.inv() && http1_response(self.cfg, bytes@, opt_bytes(plain), opt_bytes(inner))
                    == Ok::<ResponseView, HttpsError>(q@),
                Err(e) => http1_response(self.cfg, bytes@, opt_bytes(plain), opt_bytes(inner)) == Err::<
                    ResponseView,
                    HttpsError,
                >(e),
            },
    {
        match HttpResponse::from_bytes(bytes, plain) {
            Ok(q) => self.maybe_decode_secure_response(q, inner),
            Err(e) => Err(HttpsError::InvalidResponse(ResponseFault::Unreadable(e))),
        }
    }

    /// Reads a response of HTTP/2. `fields` are those that its header block was decoded to. `plain` is what the
    /// codec made of its body, `inner` of the payload in its envelope.
    pub fn parse_http2_response(
        &self,
        fields: &Vec<(String, String)>,
        body: &[u8],
        plain: Option<&[u8]>,
        inner: Option<&[u8]>,
    ) -> (r: Result<HttpResponse, HttpsError>)
        ensures
            ({
                let due = http2_response(
                    self.cfg,
                    pair_texts(fields@),
                    body@,
                    opt_bytes(plain),
                    opt_bytes(inner),
                );
                match r {
                    Ok(q) => q.inv() && due == Ok::<ResponseView, HttpsError>(q@),
                    Err(e) => due == Err::<ResponseView, HttpsError>(e),
                }
            }),
    {
        assert(pair_texts(fields@).len() == fields@.len());
        let (status, headers) = match read_http2_fields(fields) {
            Some(x) => x,
            None => {
                return Err(HttpsError::InvalidResponse(ResponseFault::BadStatus));
            },
        };
        let reason = HttpResponse::default_reason_phrase(status);
        let wire = build_synthetic_http1_response(status, reason.as_str(), &headers, body);
        let parsed = match HttpResponse::from_bytes(wire.as_slice(), plain) {
            Ok(q) => q,
            Err(e) => {
                return Err(HttpsError::InvalidResponse(ResponseFault::UnreadableStream(e)));
            },
        };
        let table = parsed.headers().copy();
        let response = HttpResponse::new(
            parsed.status_code(),
            parsed.reason_phrase().to_owned(),
            HttpVersion::Http2,
            table,
            slice_to_vec(parsed.body()),
        );
        self.maybe_decode_secure_response(response, inner)
    }

    /// Begins a request of HTTP/2 on a connection: gives the octets to send and the number of its stream.
    /// `header_block` is what its header was encoded to.
    pub fn begin_http2_request(&mut self, connection_key: &str, header_block: &[u8], body: &[u8]) -> (r: Result<
        (Vec<u8>, u32),
        HttpsError,
    >)
        requires
            old(self).inv(),
            value(old(self).tls_connections@, connection_key@) matches Some(c) ==> http2_of(c).next_stream_id
                <= u32::MAX - 2,
        ensures
            final(self).inv(),
            final(self).cfg == old(self).cfg,
            final(self).alpn_protocols == old(self).alpn_protocols,
            final(self).negotiated_protocols == old(self).negotiated_protocols,
            match value(old(self).tls_connections@, connection_key@) {
                None => r == Err::<(Vec<u8>, u32), HttpsError>(HttpsError::ConnectionFailed)
                    && final(self).tls_connections@ == old(self).tls_connections@,
                Some(c) => if c.protocol != Some(AlpnProtocol::Http2) {
                    r == Err::<(Vec<u8>, u32), HttpsError>(HttpsError::ProtocolNegotiationFailed)
                        && final(self).tls_connections@ == old(self).tls_connections@
                } else {
                    let h2 = http2_of(c);
                    r matches Ok((o, id)) && o@ == http2_octets(h2, header_block@, body@) && id
                        == h2.next_stream_id && final(self).tls_connections@ == put(
                        old(self).tls_connections@,
                        connection_key@,
                        ConnectionView { http2: Some(after_stream(h2)), ..c },
                    )
                },
            },
    {
        let (protocol, host, port, kept) = match self.tls_connections.get(connection_key) {
            Some(c) => (c.protocol, c.host.as_str().to_owned(), c.port, c.http2),
            None => {
                return Err(HttpsError::ConnectionFailed);
            },
        };
        match protocol {
            Some(AlpnProtocol::Http2) => {},
            _ => {
                return Err(HttpsError::ProtocolNegotiationFailed);
            },
        }
        let h2 = match kept {
            Some(h) => h,
            None => Http2State { next_stream_id: 1, initialized: false },
        };
        let none: Vec<u8> = Vec::new();
        assert(none@ =~= seq![]);
        let mut out: Vec<u8> = Vec::new();
        if !h2.initialized {
            push_bytes(&mut out, CONNECTION_PREFACE.as_bytes());
            let settings = build_http2_frame(FRAME_SETTINGS, 0, 0, none.as_slice());
            push_bytes(&mut out, settings.as_slice());
        }
        let flags: u8 = if body.len() == 0 {
            5
        } else {
            FLAG_END_HEADERS
        };
        let head = build_http2_frame(FRAME_HEADERS, flags, h2.next_stream_id, header_block);
        push_bytes(&mut out, head.as_slice());
        if body.len() > 0 {
            let data = build_http2_frame(FRAME_DATA, FLAG_END, h2.next_stream_id, body);
            push_bytes(&mut out, data.as_slice());
        }
        assert(out@ =~= http2_octets(h2, header_block@, body@));
        let next = Connection {
            protocol,
            host,
            port,
            http2: Some(Http2State { next_stream_id: h2.next_stream_id + 2, initialized: true }),
        };
        self.tls_connections.insert(connection_key.to_owned(), next);
        Ok((out, h2.next_stream_id))
    }

    /// Decides what follows a response: where it leads elsewhere and redirections are followed, the request that
    /// is to be made there.
    pub fn on_response(&self, request: &PendingRequest, target: &Target, response: &HttpResponse) -> (r:
        AfterResponse)
        requires
            request.headers matches Some(h) ==> h.inv(),
            request.redirect_count < usize::MAX,
        ensures
            match followed(self.cfg, request@, target@, response@) {
                None => r is Deliver,
                Some(p) => r matches AfterResponse::Follow(q) && q@ == p && (q.headers matches Some(h)
                    ==> h.inv()),
            },
    {
        if !self.cfg.follow_redirect || !response.is_redirect() {
            return AfterResponse::Deliver;
        }
        let location = match response.header("location") {
            Some(l) => l,
            None => {
                return AfterResponse::Deliver;
            },
        };
        let url = redirect_url(request.url.as_str(), target, location.as_str());
        let see_other = response.status_code() == 303;
        let method = if see_other {
            HttpMethod::GET
        } else {
            request.method
        };
        let body = if see_other {
            None
        } else {
            match &request.body {
                Some(b) => Some(slice_to_vec(b.as_slice())),
                None => None,
            }
        };
        let headers = match &request.headers {
            Some(h) => Some(h.copy()),
            None => None,
        };
        AfterResponse::Follow(
            PendingRequest {
                method,
                url,
                body,
                headers,
                redirect_count: request.redirect_count + 1,
            },
        )
    }
}

/// Every redirection that is followed counts, so that a request that would lead on for ever ends in a refusal; and
/// after `See Other` the next request asks for a document and hands over nothing.
pub proof fn law_redirections_end(cfg: HttpsClientCfg, p: PendingView, from: TargetView, r: ResponseView)
    requires
        p.redirect_count < usize::MAX,
    ensures
        followed(cfg, p, from, r) matches Some(q) ==> {
            &&& q.redirect_count == p.redirect_count + 1
            &&& r.status == 303 ==> q.method == HttpMethod::GET && q.body is None
            &&& r.status != 303 ==> q.method == p.method && q.body == p.body
        },
{
}

/// A response with a code of its own body is accepted, even where codes are insisted on.
pub proof fn law_own_tag_accepted(enforce: bool, r: ResponseView, nonce: Seq<u8>)
    requires
        value_nocase(r.headers, "x-singularity-response-nonce"@) == Some(encoded(nonce)),
        value_nocase(r.headers, "x-singularity-response-tag"@) == Some(
            "HMAC-SHA-256="@ + encoded(
                payload_tag(encode_utf8("SINGULARITY_HTTPS_CLIENT_RESPONSE_TAG_V1"@), nonce, r.body),
            ),
        ),
    ensures
        integrity_fault(enforce, r) is None,
{
    let tag = payload_tag(encode_utf8("SINGULARITY_HTTPS_CLIENT_RESPONSE_TAG_V1"@), nonce, r.body);
    let t = "HMAC-SHA-256="@ + encoded(tag);
    reveal_strlit("HMAC-SHA-256=");
    law_base64_roundtrip(nonce);
    law_base64_roundtrip(tag);
    lemma_encoded_symbols(tag);
    lemma_find_is(t, '=', 12);
    assert(t.skip(13) =~= encoded(tag));
    crate::net::envelope::lemma_armoured_tidy(encoded(tag));
    lemma_trimmed_solid(encoded(tag));
}

/// A response whose body is an envelope is handed on with what was put into it, given that the codec undoes what it
/// did.
pub proof fn law_enveloped_response_is_opened(
    cfg: HttpsClientCfg,
    r: ResponseView,
    raw: Seq<u8>,
    algorithm: CompressionAlgorithm,
    coded: Option<Seq<u8>>,
    nonce: Seq<u8>,
)
    requires
        raw.len() <= usize::MAX,
        coded matches Some(c) ==> c.len() <= usize::MAX,
        nonce.len() > 0,
        integrity_fault(cfg.enforce_response_integrity, r) is None,
        says_enveloped(r.headers),
        payload_sealed(raw, algorithm, coded, nonce) matches Ok((_, blob)) && r.body == blob,
    ensures
        accepted_response(cfg, r, Some(raw)) == Ok::<ResponseView, HttpsError>(
            (ResponseView { headers: unveiled_fields(r.headers, raw.len()), body: raw, ..r }),
        ),
{
    law_payload_roundtrip(raw, algorithm, coded, nonce);
}

/// A request with a body says its digest, its length, and the code that vouches for it, whatever becomes of the
/// body.
pub proof fn law_outbound_is_vouched_for(
    cfg: HttpsClientCfg,
    h: Fields,
    body: Seq<u8>,
    coded: Option<Seq<u8>>,
    seal: Seq<u8>,
    nonce: Seq<u8>,
)
    requires
        in_name_order(h),
        body.len() > 0,
        outbound(cfg, h, body, coded, seal, nonce).2 is None,
    ensures
        ({
            let (f, sent, _) = outbound(cfg, h, body, coded, seal, nonce);
            &&& field(f, "digest"@) == Some(digest_value(body))
            &&& field(f, "content-length"@) == Some(decimal(sent.len()))
            &&& field(f, "x-singularity-request-nonce"@) == Some(encoded(nonce))
            &&& field(f, "x-singularity-request-tag"@) == Some(
                "HMAC-SHA-256="@ + encoded(
                    payload_tag(
                        encode_utf8("SINGULARITY_HTTPS_CLIENT_REQUEST_TAG_V1"@),
                        nonce,
                        sent,
                    ),
                ),
            )
            &&& goes_enveloped(cfg, body.len()) ==> field(f, "x-singularity-secure-envelope"@) == Some(
                "v1"@,
            )
        }),
{
    let h1 = with_field(h, "Digest"@, digest_value(body));
    lemma_field_names();
    lemma_with_field_order(h, "Digest"@, digest_value(body));
    law_field_set(h, "Digest"@, digest_value(body), "digest"@);
    if goes_enveloped(cfg, body.len()) {
        let blob = outbound(cfg, h, body, coded, seal, nonce).1;
        let a = with_field(h1, "X-Singularity-Secure-Envelope"@, "v1"@);
        let b = with_field(a, "Content-Type"@, "application/x-singularity-secure-envelope"@);
        let c = with_field(b, "Content-Encoding"@, "identity"@);
        lemma_with_field_order(h1, "X-Singularity-Secure-Envelope"@, "v1"@);
        lemma_with_field_order(a, "Content-Type"@, "application/x-singularity-secure-envelope"@);
        lemma_with_field_order(b, "Content-Encoding"@, "identity"@);
        law_field_set(h1, "X-Singularity-Secure-Envelope"@, "v1"@, "digest"@);
        law_field_set(h1, "X-Singularity-Secure-Envelope"@, "v1"@, "x-singularity-secure-envelope"@);
        law_field_set(
            a,
            "Content-Type"@,
            "application/x-singularity-secure-envelope"@,
            "digest"@,
        );
        law_field_set(
            a,
            "Content-Type"@,
            "application/x-singularity-secure-envelope"@,
            "x-singularity-secure-envelope"@,
        );
        law_field_set(b, "Content-Encoding"@, "identity"@, "digest"@);
        law_field_set(b, "Content-Encoding"@, "identity"@, "x-singularity-secure-envelope"@);
        lemma_tagged(c, blob, nonce);
    } else if goes_compressed(cfg, body.len()) && coded->0.len() < body.len() {
        let name = coding_name(cfg.preferred_request_compression);
        law_field_set(h1, "Content-Encoding"@, name, "digest"@);
        lemma_with_field_order(h1, "Content-Encoding"@, name);
        lemma_tagged(with_field(h1, "Content-Encoding"@, name), coded->0, nonce);
    } else {
        lemma_tagged(h1, body, nonce);
    }
}

proof fn lemma_with_field_order(h: Fields, name: Seq<char>, v: Seq<char>)
    requires
        in_name_order(h),
    ensures
        in_name_order(with_field(h, name, v)),
{
    crate::table::law_put_in_order(h, lowered(name), seq![v]);
}

proof fn lemma_field_names()
    ensures
        lowered("Digest"@) == "digest"@,
        lowered("digest"@) == "digest"@,
        lowered("Content-Type"@) == "content-type"@,
        lowered("Content-Encoding"@) == "content-encoding"@,
        lowered("Content-Length"@) == "content-length"@,
        lowered("content-length"@) == "content-length"@,
        lowered("X-Singularity-Secure-Envelope"@) == "x-singularity-secure-envelope"@,
        lowered("x-singularity-secure-envelope"@) == "x-singularity-secure-envelope"@,
        lowered("X-Singularity-Request-Nonce"@) == "x-singularity-request-nonce"@,
        lowered("x-singularity-request-nonce"@) == "x-singularity-request-nonce"@,
        lowered("X-Singularity-Request-Tag"@) == "x-singularity-request-tag"@,
        lowered("x-singularity-request-tag"@) == "x-singularity-request-tag"@,
        "digest"@.len() == 6,
        "content-type"@.len() == 12,
        "content-encoding"@.len() == 16,
        "content-length"@.len() == 14,
        "x-singularity-secure-envelope"@.len() == 29,
        "x-singularity-request-nonce"@.len() == 27,
        "x-singularity-request-tag"@.len() == 25,
{
    reveal_strlit("Digest");
    reveal_strlit("digest");
    reveal_strlit("Content-Type");
    reveal_strlit("content-type");
    reveal_strlit("Content-Encoding");
    reveal_strlit("content-encoding");
    reveal_strlit("Content-Length");
    reveal_strlit("content-length");
    reveal_strlit("X-Singularity-Secure-Envelope");
    reveal_strlit("x-singularity-secure-envelope");
    reveal_strlit("X-Singularity-Request-Nonce");
    reveal_strlit("x-singularity-request-nonce");
    reveal_strlit("X-Singularity-Request-Tag");
    reveal_strlit("x-singularity-request-tag");
    assert(lowered("Digest"@) =~= "digest"@);
    assert(lowered("digest"@) =~= "digest"@);
    assert(lowered("Content-Type"@) =~= "content-type"@);
    assert(lowered("Content-Encoding"@) =~= "content-encoding"@);
    assert(lowered("Content-Length"@) =~= "content-length"@);
    assert(lowered("content-length"@) =~= "content-length"@);
    assert(lowered("X-Singularity-Secure-Envelope"@) =~= "x-singularity-secure-envelope"@);
    assert(lowered("x-singularity-secure-envelope"@) =~= "x-singularity-secure-envelope"@);
    assert(lowered("X-Singularity-Request-Nonce"@) =~= "x-singularity-request-nonce"@);
    assert(lowered("x-singularity-request-nonce"@) =~= "x-singularity-request-nonce"@);
    assert(lowered("X-Singularity-Request-Tag"@) =~= "x-singularity-request-tag"@);
    assert(lowered("x-singularity-request-tag"@) =~= "x-singularity-request-tag"@);
}

proof fn lemma_tagged(h: Fields, body: Seq<u8>, nonce: Seq<u8>)
    requires
        in_name_order(h),
    ensures
        ({
            let f = tagged(h, body, nonce);
            &&& field(f, "digest"@) == field(h, "digest"@)
            &&& field(f, "x-singularity-secure-envelope"@) == field(h, "x-singularity-secure-envelope"@)
            &&& field(f, "content-length"@) == Some(decimal(body.len()))
            &&& field(f, "x-singularity-request-nonce"@) == Some(encoded(nonce))
            &&& field(f, "x-singularity-request-tag"@) == Some(
                "HMAC-SHA-256="@ + encoded(
                    payload_tag(
                        encode_utf8("SINGULARITY_HTTPS_CLIENT_REQUEST_TAG_V1"@),
                        nonce,
                        body,
                    ),
                ),
            )
        }),
{
    reveal(tagged);
    let tag = "HMAC-SHA-256="@ + encoded(
        payload_tag(encode_utf8("SINGULARITY_HTTPS_CLIENT_REQUEST_TAG_V1"@), nonce, body),
    );
    let len = decimal(body.len());
    let a = with_field(h, "X-Singularity-Request-Nonce"@, encoded(nonce));
    let b = with_field(a, "X-Singularity-Request-Tag"@, tag);
    lemma_field_names();
    lemma_with_field_order(h, "X-Singularity-Request-Nonce"@, encoded(nonce));
    lemma_with_field_order(a, "X-Singularity-Request-Tag"@, tag);
    law_field_set(h, "X-Singularity-Request-Nonce"@, encoded(nonce), "digest"@);
    law_field_set(h, "X-Singularity-Request-Nonce"@, encoded(nonce), "x-singularity-secure-envelope"@);
    law_field_set(h, "X-Singularity-Request-Nonce"@, encoded(nonce), "x-singularity-request-nonce"@);
    law_field_set(a, "X-Singularity-Request-Tag"@, tag, "digest"@);
    law_field_set(a, "X-Singularity-Request-Tag"@, tag, "x-singularity-secure-envelope"@);
    law_field_set(a, "X-Singularity-Request-Tag"@, tag, "x-singularity-request-nonce"@);
    law_field_set(a, "X-Singularity-Request-Tag"@, tag, "x-singularity-request-tag"@);
    law_field_set(b, "Content-Length"@, len, "digest"@);
    law_field_set(b, "Content-Length"@, len, "x-singularity-secure-envelope"@);
    law_field_set(b, "Content-Length"@, len, "x-singularity-request-nonce"@);
    law_field_set(b, "Content-Length"@, len, "x-singularity-request-tag"@);
    law_field_set(b, "Content-Length"@, len, "content-length"@);
}

/// Whether a name begins with a colon.
pub open spec fn has_colon(name: Seq<char>) -> bool {
    name.len() > 0 && name[0] == ':'
}

pub proof fn lemma_has_colon(name: Seq<char>)
    ensures
        begins_with(name, ":"@) == has_colon(name),
{
    reveal_strlit(":");
    if has_colon(name) {
        assert(name.take(1) =~= ":"@);
    }
    if begins_with(name, ":"@) {
        assert(name.take(1)[0] == ':');
    }
}

proof fn lemma_joined_fields_order(start: FieldTable, h: Fields, n: int)
    requires
        in_name_order(start),
    ensures
        in_name_order(joined_fields(start, h, n)),
    decreases n,
{
    if n > 0 {
        lemma_joined_fields_order(start, h, n - 1);
        law_put_in_order(joined_fields(start, h, n - 1), h[n - 1].0, joined(h[n - 1].1, ", "@));
    }
}

/// Fields leave what stands under a name that none of them has.
proof fn lemma_joined_fields_leave(start: FieldTable, h: Fields, n: int, name: Seq<char>)
    requires
        in_name_order(start),
        n <= h.len(),
        forall|i: int| 0 <= i < n && (#[trigger] h[i]).0 == name ==> has_colon(name),
    ensures
        value(joined_fields(start, h, n), name) == value(start, name),
    decreases n,
{
    if n > 0 {
        lemma_joined_fields_leave(start, h, n - 1, name);
        lemma_joined_fields_order(start, h, n - 1);
        lemma_has_colon(h[n - 1].0);
        law_put_value(joined_fields(start, h, n - 1), h[n - 1].0, joined(h[n - 1].1, ", "@), name);
    }
}

/// Every field is found with all its values.
proof fn lemma_joined_fields_hold(start: FieldTable, h: Fields, n: int, i: int)
    requires
        in_name_order(start),
        in_name_order(h),
        0 <= i < n <= h.len(),
        !has_colon(h[i].0),
        h[i].1.len() > 0,
    ensures
        value(joined_fields(start, h, n), h[i].0) == Some(joined(h[i].1, ", "@)),
    decreases n,
{
    let before_last = joined_fields(start, h, n - 1);
    lemma_joined_fields_order(start, h, n - 1);
    lemma_has_colon(h[n - 1].0);
    law_put_value(before_last, h[n - 1].0, joined(h[n - 1].1, ", "@), h[i].0);
    if i < n - 1 {
        lemma_joined_fields_hold(start, h, n - 1, i);
        assert(crate::table::before(h[i].0, h[n - 1].0));
        law_before_irreflexive(h[i].0);
    }
}

proof fn lemma_pseudo_names()
    ensures
        has_colon(":method"@) && has_colon(":path"@) && has_colon(":scheme"@) && has_colon(":authority"@),
        !has_colon("content-length"@),
        ":method"@ != ":path"@,
        ":method"@ != ":scheme"@,
        ":method"@ != ":authority"@,
        ":path"@ != ":scheme"@,
        ":path"@ != ":authority"@,
        ":scheme"@ != ":authority"@,
{
    reveal_strlit(":method");
    reveal_strlit(":path");
    reveal_strlit(":scheme");
    reveal_strlit(":authority");
    reveal_strlit("content-length");
    assert(":method"@[1] == 'm' && ":scheme"@[1] == 's');
    assert(":path"@.len() == 5 && ":authority"@.len() == 10);
}

/// The fields that tell the request line of HTTP/2.
spec fn pseudo_start(method: HttpMethod, path: Seq<char>, authority: Seq<char>) -> FieldTable {
    put(
        put(put(put(seq![], ":method"@, method_name(method)), ":path"@, path), ":scheme"@, "https"@),
        ":authority"@,
        authority,
    )
}

proof fn lemma_pseudo_start(method: HttpMethod, path: Seq<char>, authority: Seq<char>, name: Seq<char>)
    ensures
        ({
            let t = pseudo_start(method, path, authority);
            &&& in_name_order(t)
            &&& value(t, ":method"@) == Some(method_name(method))
            &&& value(t, ":path"@) == Some(path)
            &&& value(t, ":scheme"@) == Some("https"@)
            &&& value(t, ":authority"@) == Some(authority)
            &&& value(t, name) is Some ==> name == ":method"@ || name == ":path"@ || name == ":scheme"@ || name
                == ":authority"@
        }),
{
    lemma_pseudo_names();
    let none = Seq::<(Seq<char>, Seq<char>)>::empty();
    let a = put(none, ":method"@, method_name(method));
    let b = put(a, ":path"@, path);
    let c = put(b, ":scheme"@, "https"@);
    law_put_in_order(none, ":method"@, method_name(method));
    law_put_in_order(a, ":path"@, path);
    law_put_in_order(b, ":scheme"@, "https"@);
    law_put_in_order(c, ":authority"@, authority);
    law_put_value(none, ":method"@, method_name(method), name);
    law_put_value(a, ":path"@, path, name);
    law_put_value(b, ":scheme"@, "https"@, name);
    law_put_value(c, ":authority"@, authority, name);
    law_put_value(a, ":path"@, path, ":method"@);
    law_put_value(b, ":scheme"@, "https"@, ":method"@);
    law_put_value(b, ":scheme"@, "https"@, ":path"@);
    law_put_value(c, ":authority"@, authority, ":method"@);
    law_put_value(c, ":authority"@, authority, ":path"@);
    law_put_value(c, ":authority"@, authority, ":scheme"@);
}

/// The header of a request of HTTP/2 tells the method, the path and the scheme of the request under the names that
/// begin with a colon, and as authority the first value of its host field, if it has one.
pub proof fn law_http2_request_line(method: HttpMethod, path: Seq<char>, h: Fields, body_len: nat)
    requires
        in_name_order(h),
    ensures
        ({
            let t = http2_fields(method, path, h, body_len);
            &&& in_name_order(t)
            &&& value(t, ":method"@) == Some(method_name(method))
            &&& value(t, ":path"@) == Some(path)
            &&& value(t, ":scheme"@) == Some("https"@)
            &&& forall|i: int|
                0 <= i < h.len() && (#[trigger] h[i]).0 == "host"@ ==> value(t, ":authority"@) == Some(h[i].1[0])
            &&& (forall|i: int| 0 <= i < h.len() ==> (#[trigger] h[i]).0 != "host"@) ==> value(t, ":authority"@)
                == Some(Seq::<char>::empty())
        }),
{
    let authority = match field(h, "host"@) {
        Some(v) => v,
        None => seq![],
    };
    let start = pseudo_start(method, path, authority);
    let all = joined_fields(start, h, h.len() as int);
    lemma_pseudo_start(method, path, authority, ":method"@);
    lemma_pseudo_names();
    lemma_joined_fields_order(start, h, h.len() as int);
    lemma_joined_fields_leave(start, h, h.len() as int, ":method"@);
    lemma_joined_fields_leave(start, h, h.len() as int, ":path"@);
    lemma_joined_fields_leave(start, h, h.len() as int, ":scheme"@);
    lemma_joined_fields_leave(start, h, h.len() as int, ":authority"@);
    law_put_in_order(all, "content-length"@, decimal(body_len));
    law_put_value(all, "content-length"@, decimal(body_len), ":method"@);
    law_put_value(all, "content-length"@, decimal(body_len), ":path"@);
    law_put_value(all, "content-length"@, decimal(body_len), ":scheme"@);
    law_put_value(all, "content-length"@, decimal(body_len), ":authority"@);
    reveal_strlit("host");
    assert(lowered("host"@) =~= "host"@);
    law_value_stands(h, "host"@);
    assert forall|i: int| 0 <= i < h.len() && (#[trigger] h[i]).0 == "host"@ implies authority == h[i].1[0] by {
        law_value_found(h, i);
    }
}

/// The header of a request of HTTP/2 carries every field of the request, with all its values in one text, and the
/// length of a body; it carries nothing else.
pub proof fn law_http2_request_carries_fields(
    method: HttpMethod,
    path: Seq<char>,
    h: Fields,
    body_len: nat,
    name: Seq<char>,
)
    requires
        in_name_order(h),
    ensures
        ({
            let t = http2_fields(method, path, h, body_len);
            &&& forall|i: int|
                0 <= i < h.len() && (#[trigger] h[i]).0 == name && h[i].1.len() > 0 && !has_colon(name) && !(body_len > 0
                    && name == "content-length"@) ==> value(t, name) == Some(joined(h[i].1, ", "@))
            &&& body_len > 0 ==> value(t, "content-length"@) == Some(decimal(body_len))
            &&& value(t, name) is Some ==> {
                ||| name == ":method"@ || name == ":path"@ || name == ":scheme"@ || name == ":authority"@
                ||| body_len > 0 && name == "content-length"@
                ||| exists|i: int| 0 <= i < h.len() && (#[trigger] h[i]).0 == name
            }
        }),
{
    let authority = match field(h, "host"@) {
        Some(v) => v,
        None => seq![],
    };
    let start = pseudo_start(method, path, authority);
    let all = joined_fields(start, h, h.len() as int);
    lemma_pseudo_start(method, path, authority, name);
    lemma_pseudo_names();
    lemma_joined_fields_order(start, h, h.len() as int);
    law_put_value(all, "content-length"@, decimal(body_len), name);
    if exists|i: int| 0 <= i < h.len() && (#[trigger] h[i]).0 == name {
        assert forall|i: int|
            0 <= i < h.len() && (#[trigger] h[i]).0 == name && h[i].1.len() > 0 && !has_colon(name) implies value(
            all,
            name,
        ) == Some(joined(h[i].1, ", "@)) by {
            lemma_joined_fields_hold(start, h, h.len() as int, i);
        }
    } else {
        lemma_joined_fields_leave(start, h, h.len() as int, name);
    }
}

proof fn lemma_http2_table_order(fields: Seq<(Seq<char>, Seq<char>)>, n: int)
    ensures
        in_name_order(http2_table(fields, n)),
    decreases n,
{
    if n > 0 {
        lemma_http2_table_order(fields, n - 1);
        law_put_in_order(http2_table(fields, n - 1), fields[n - 1].0, fields[n - 1].1);
    }
}

/// Of the fields of HTTP/2 those whose names do not begin with a colon are kept, the last value that each name has;
/// nothing else is kept.
pub proof fn law_http2_table_holds(fields: Seq<(Seq<char>, Seq<char>)>, n: int, k: int)
    requires
        0 <= n <= fields.len(),
    ensures
        in_name_order(http2_table(fields, n)),
        0 <= k < n && !has_colon(fields[k].0) && (forall|j: int| k < j < n ==> (#[trigger] fields[j]).0 != fields[k].0)
            ==> value(http2_table(fields, n), fields[k].0) == Some(fields[k].1),
        forall|i: int|
            0 <= i < http2_table(fields, n).len() ==> !has_colon((#[trigger] http2_table(fields, n)[i]).0) && exists|
                j: int,
            |
                0 <= j < n && #[trigger] fields[j] == http2_table(fields, n)[i],
    decreases n,
{
    let t = http2_table(fields, n);
    lemma_http2_table_order(fields, n);
    if n > 0 {
        let was = http2_table(fields, n - 1);
        let e = fields[n - 1];
        lemma_http2_table_order(fields, n - 1);
        law_http2_table_holds(fields, n - 1, k);
        lemma_has_colon(e.0);
        if 0 <= k < n {
            law_put_value(was, e.0, e.1, fields[k].0);
        }
        lemma_put_entries(was, e.0, e.1);
        assert forall|i: int| 0 <= i < t.len() implies !has_colon((#[trigger] t[i]).0) && exists|j: int|
            0 <= j < n && #[trigger] fields[j] == t[i] by {
            if was.contains(t[i]) {
                let x = choose|x: int| 0 <= x < was.len() && was[x] == t[i];
                let j = choose|j: int| 0 <= j < n - 1 && #[trigger] fields[j] == was[x];
                assert(fields[j] == t[i]);
            } else {
                assert(fields[n - 1] == t[i]);
            }
        }
    }
}

proof fn lemma_with_values(h: Fields, name: Seq<char>, values: Seq<Seq<char>>, n: int, other: Seq<char>)
    requires
        in_name_order(h),
        0 <= n <= values.len(),
    ensures
        in_name_order(with_values(h, name, values, n)),
        values_of(with_values(h, name, values, n), other) == (if lowered(other) == lowered(name) {
            values_of(h, other) + values.take(n)
        } else {
            values_of(h, other)
        }),
    decreases n,
{
    if n > 0 {
        lemma_with_values(h, name, values, n - 1, other);
        law_value_added(with_values(h, name, values, n - 1), name, values[n - 1], other);
        assert(values.take(n) =~= values.take(n - 1).push(values[n - 1]));
    } else {
        assert(values_of(h, other) + values.take(0) =~= values_of(h, other));
    }
    assert(values_of(with_values(h, name, values, n), other) =~= (if lowered(other) == lowered(name) {
        values_of(h, other) + values.take(n)
    } else {
        values_of(h, other)
    }));
}

proof fn lemma_with_all(h: Fields, more: Fields, n: int, other: Seq<char>)
    requires
        in_name_order(h),
        in_name_order(more),
        is_kept(more),
        0 <= n <= more.len(),
    ensures
        in_name_order(with_all(h, more, n)),
        forall|i: int|
            0 <= i < n && (#[trigger] more[i]).0 == lowered(other) ==> values_of(with_all(h, more, n), other)
                == values_of(h, other) + more[i].1,
        (forall|i: int| 0 <= i < n ==> (#[trigger] more[i]).0 != lowered(other)) ==> values_of(
            with_all(h, more, n),
            other,
        ) == values_of(h, other),
    decreases n,
{
    if n > 0 {
        lemma_with_all(h, more, n - 1, other);
        let (name, values) = more[n - 1];
        lemma_with_values(with_all(h, more, n - 1), name, values, values.len() as int, other);
        assert(values.take(values.len() as int) =~= values);
        assert(lowered(more[n - 1].0) == more[n - 1].0);
        assert forall|i: int| 0 <= i < n && (#[trigger] more[i]).0 == lowered(other) implies values_of(
            with_all(h, more, n),
            other,
        ) == values_of(h, other) + more[i].1 by {
            if i < n - 1 {
                assert(before(more[i].0, more[n - 1].0));
                law_before_irreflexive(more[i].0);
            } else {
                assert forall|j: int| 0 <= j < n - 1 implies (#[trigger] more[j]).0 != lowered(other) by {
                    assert(before(more[j].0, more[n - 1].0));
                    law_before_irreflexive(more[j].0);
                }
            }
        }
    }
}

/// A request has the values that the client's settings give a field, and behind them those of its own; host, user agent
/// and accepted codings are added where neither gives them, and nothing else is.
pub proof fn law_prepared_fields(cfg: HttpsClientCfg, custom: Fields, host: Seq<char>, port: u16, name: Seq<char>)
    requires
        in_name_order(cfg.default_headers@),
        in_name_order(custom),
        is_kept(custom),
    ensures
        ({
            let usual = values_of(cfg.default_headers@, name);
            let own = values_of(custom, name);
            let with = values_of(prepared_fields(cfg, Some(custom), host, port), name);
            let without = values_of(prepared_fields(cfg, None, host, port), name);
            let k = lowered(name);
            let added = if k == "host"@ {
                seq![host_text(host, port)]
            } else if k == "user-agent"@ {
                seq![cfg.user_agent@]
            } else if k == "accept-encoding"@ {
                seq!["br, zstd, gzip, deflate, identity"@]
            } else {
                seq![]
            };
            &&& value(cfg.default_headers@, k) is Some || value(custom, k) is Some ==> with == usual + own
            &&& value(cfg.default_headers@, k) is Some ==> without == usual
            &&& value(cfg.default_headers@, k) is None && value(custom, k) is None ==> with == added && without == added
        }),
{
    let h = cfg.default_headers@;
    let n = custom.len() as int;
    let all = with_all(h, custom, n);
    let k = lowered(name);
    lemma_with_all(h, custom, n, name);
    law_value_stands(custom, k);
    law_value_stands(h, k);
    let nothing = Seq::<Seq<char>>::empty();
    assert(nothing + values_of(custom, name) =~= values_of(custom, name));
    assert(values_of(h, name) + nothing =~= values_of(h, name));
    if let Some(v) = value(custom, k) {
        let i = choose|i: int| 0 <= i < custom.len() && #[trigger] custom[i] == (k, v);
        assert(custom[i].0 == k);
        assert(values_of(all, name) == values_of(h, name) + v);
        assert(v.len() > 0);
    }
    lemma_all_value(h, custom, n, name);
    lemma_gaps(all, cfg, host, port, name);
    lemma_gaps(h, cfg, host, port, name);
}

proof fn lemma_values_value(h: Fields, name: Seq<char>, values: Seq<Seq<char>>, n: int, other: Seq<char>)
    requires
        in_name_order(h),
        0 <= n <= values.len(),
    ensures
        value(with_values(h, name, values, n), lowered(other)) is Some <==> value(h, lowered(other)) is Some || (n > 0
            && lowered(other) == lowered(name)),
    decreases n,
{
    if n > 0 {
        lemma_values_value(h, name, values, n - 1, other);
        let before_ = with_values(h, name, values, n - 1);
        lemma_with_values(h, name, values, n - 1, other);
        law_put_value(before_, lowered(name), values_of(before_, name).push(values[n - 1]), lowered(other));
    }
}

proof fn lemma_all_value(h: Fields, more: Fields, n: int, other: Seq<char>)
    requires
        in_name_order(h),
        in_name_order(more),
        is_kept(more),
        0 <= n <= more.len(),
    ensures
        value(with_all(h, more, n), lowered(other)) is Some <==> value(h, lowered(other)) is Some || exists|i: int|
            0 <= i < n && (#[trigger] more[i]).0 == lowered(other),
    decreases n,
{
    if n > 0 {
        lemma_all_value(h, more, n - 1, other);
        lemma_with_all(h, more, n - 1, other);
        let (name, values) = more[n - 1];
        assert(lowered(more[n - 1].0) == more[n - 1].0 && more[n - 1].1.len() > 0);
        lemma_values_value(with_all(h, more, n - 1), name, values, values.len() as int, other);
    }
}

proof fn lemma_gap(h: Fields, probe: Seq<char>, name: Seq<char>, v: Seq<char>, other: Seq<char>)
    requires
        in_name_order(h),
        lowered(probe) == lowered(name),
    ensures
        in_name_order(with_missing(h, probe, name, v)),
        value(with_missing(h, probe, name, v), lowered(other)) == (if value(h, lowered(other)) is None && lowered(other)
            == lowered(name) {
            Some(seq![v])
        } else {
            value(h, lowered(other))
        }),
{
    law_put_in_order(h, lowered(name), seq![v]);
    law_put_value(h, lowered(name), seq![v], lowered(other));
}

proof fn lemma_gaps(all: Fields, cfg: HttpsClientCfg, host: Seq<char>, port: u16, name: Seq<char>)
    requires
        in_name_order(all),
    ensures
        ({
            let out = with_missing(
                with_missing(
                    with_missing(all, "host"@, "Host"@, host_text(host, port)),
                    "user-agent"@,
                    "User-Agent"@,
                    cfg.user_agent@,
                ),
                "accept-encoding"@,
                "Accept-Encoding"@,
                "br, zstd, gzip, deflate, identity"@,
            );
            let k = lowered(name);
            value(out, k) == (if value(all, k) is Some {
                value(all, k)
            } else if k == "host"@ {
                Some(seq![host_text(host, port)])
            } else if k == "user-agent"@ {
                Some(seq![cfg.user_agent@])
            } else if k == "accept-encoding"@ {
                Some(seq!["br, zstd, gzip, deflate, identity"@])
            } else {
                None
            })
        }),
{
    reveal_strlit("host");
    reveal_strlit("Host");
    reveal_strlit("user-agent");
    reveal_strlit("User-Agent");
    reveal_strlit("accept-encoding");
    reveal_strlit("Accept-Encoding");
    assert(lowered("host"@) =~= "host"@ && lowered("Host"@) =~= "host"@);
    assert(lowered("user-agent"@) =~= "user-agent"@ && lowered("User-Agent"@) =~= "user-agent"@);
    assert(lowered("accept-encoding"@) =~= "accept-encoding"@ && lowered("Accept-Encoding"@) =~= "accept-encoding"@);
    assert("host"@.len() == 4 && "user-agent"@.len() == 10 && "accept-encoding"@.len() == 15);
    let a = with_missing(all, "host"@, "Host"@, host_text(host, port));
    lemma_gap(all, "host"@, "Host"@, host_text(host, port), name);
    let b = with_missing(a, "user-agent"@, "User-Agent"@, cfg.user_agent@);
    lemma_gap(a, "user-agent"@, "User-Agent"@, cfg.user_agent@, name);
    lemma_gap(b, "accept-encoding"@, "Accept-Encoding"@, "br, zstd, gzip, deflate, identity"@, name);
}

/// A request without a body is sent as it is. One that goes into no envelope is sent with its own body, or with what the
/// codec made of it where that is shorter, and then under the name of the coding.
pub proof fn law_outbound_body(
    cfg: HttpsClientCfg,
    h: Fields,
    body: Seq<u8>,
    coded: Option<Seq<u8>>,
    seal: Seq<u8>,
    nonce: Seq<u8>,
)
    requires
        in_name_order(h),
        !cfg.enable_secure_envelopes || body.len() < cfg.request_compression_min_size,
    ensures
        ({
            let (f, sent, fault) = outbound(cfg, h, body, coded, seal, nonce);
            let a = cfg.preferred_request_compression;
            let asked = a != CompressionAlgorithm::Identity && body.len() >= cfg.request_compression_min_size;
            &&& body.len() == 0 ==> f == h && sent == body && fault is None
            &&& body.len() > 0 && !asked ==> sent == body && fault is None && field(f, "content-encoding"@) == field(
                h,
                "content-encoding"@,
            )
            &&& body.len() > 0 && asked ==> match coded {
                None => fault == Some(HttpsError::Codec) && sent == body,
                Some(c) => fault is None && if c.len() < body.len() {
                    sent == c && field(f, "content-encoding"@) == Some(coding_name(a))
                } else {
                    sent == body && field(f, "content-encoding"@) == field(h, "content-encoding"@)
                },
            }
        }),
{
    reveal_strlit("Digest");
    reveal_strlit("Content-Encoding");
    reveal_strlit("content-encoding");
    reveal_strlit("Content-Length");
    reveal_strlit("X-Singularity-Request-Nonce");
    reveal_strlit("X-Singularity-Request-Tag");
    let ce = "content-encoding"@;
    assert(lowered("Content-Encoding"@) =~= lowered(ce));
    assert(lowered("Digest"@).len() == 6 && lowered(ce).len() == 16 && lowered("Content-Length"@).len() == 14);
    assert(lowered("X-Singularity-Request-Nonce"@).len() == 27 && lowered("X-Singularity-Request-Tag"@).len() == 25);
    let a = cfg.preferred_request_compression;
    let h1 = with_field(h, "Digest"@, digest_value(body));
    lemma_with_field_order(h, "Digest"@, digest_value(body));
    law_field_set(h, "Digest"@, digest_value(body), ce);
    let h2 = with_field(h1, "Content-Encoding"@, coding_name(a));
    lemma_with_field_order(h1, "Content-Encoding"@, coding_name(a));
    law_field_set(h1, "Content-Encoding"@, coding_name(a), ce);
    lemma_tagged_others(h1, body, nonce, ce);
    if let Some(c) = coded {
        lemma_tagged_others(h2, c, nonce, ce);
    }
}

proof fn lemma_tagged_others(h: Fields, body: Seq<u8>, nonce: Seq<u8>, other: Seq<char>)
    requires
        in_name_order(h),
        lowered(other) != lowered("X-Singularity-Request-Nonce"@),
        lowered(other) != lowered("X-Singularity-Request-Tag"@),
        lowered(other) != lowered("Content-Length"@),
    ensures
        field(tagged(h, body, nonce), other) == field(h, other),
{
    reveal(tagged);
    let tag = "HMAC-SHA-256="@ + encoded(
        payload_tag(encode_utf8("SINGULARITY_HTTPS_CLIENT_REQUEST_TAG_V1"@), nonce, body),
    );
    lemma_three_set(
        h,
        ("X-Singularity-Request-Nonce"@, encoded(nonce)),
        ("X-Singularity-Request-Tag"@, tag),
        ("Content-Length"@, decimal(body.len())),
        other,
    );
}

proof fn lemma_three_set(
    h: Fields,
    x: (Seq<char>, Seq<char>),
    y: (Seq<char>, Seq<char>),
    z: (Seq<char>, Seq<char>),
    other: Seq<char>,
)
    requires
        in_name_order(h),
        lowered(other) != lowered(x.0) && lowered(other) != lowered(y.0) && lowered(other) != lowered(z.0),
    ensures
        field(with_field(with_field(with_field(h, x.0, x.1), y.0, y.1), z.0, z.1), other) == field(h, other),
{
    let a = with_field(h, x.0, x.1);
    lemma_with_field_order(h, x.0, x.1);
    law_field_set(h, x.0, x.1, other);
    let b = with_field(a, y.0, y.1);
    lemma_with_field_order(a, y.0, y.1);
    law_field_set(a, y.0, y.1, other);
    law_field_set(b, z.0, z.1, other);
}

/// A response with a code of another body is refused where codes are insisted on; where they are not, or where the
/// response has none, it is accepted.
pub proof fn law_foreign_tag_refused(enforce: bool, r: ResponseView, nonce: Seq<u8>, tag: Seq<u8>)
    ensures
        value_nocase(r.headers, "x-singularity-response-nonce"@) == Some(encoded(nonce)) && value_nocase(
            r.headers,
            "x-singularity-response-tag"@,
        ) == Some("HMAC-SHA-256="@ + encoded(tag)) ==> integrity_fault(enforce, r) == (if enforce && tag != payload_tag(
            encode_utf8("SINGULARITY_HTTPS_CLIENT_RESPONSE_TAG_V1"@),
            nonce,
            r.body,
        ) {
            Some(HttpsError::InvalidResponse(ResponseFault::Integrity))
        } else {
            None
        }),
        value_nocase(r.headers, "x-singularity-response-nonce"@) is None || value_nocase(
            r.headers,
            "x-singularity-response-tag"@,
        ) is None ==> integrity_fault(enforce, r) is None,
{
    let t = "HMAC-SHA-256="@ + encoded(tag);
    reveal_strlit("HMAC-SHA-256=");
    law_base64_roundtrip(nonce);
    law_base64_roundtrip(tag);
    lemma_encoded_symbols(tag);
    lemma_find_is(t, '=', 12);
    assert(t.skip(13) =~= encoded(tag));
    crate::net::envelope::lemma_armoured_tidy(encoded(tag));
    lemma_trimmed_solid(encoded(tag));
}

/// A redirection is followed just where the settings allow it, the status is one of five, and a location is told; it
/// leads where the location says, with the request's own fields.
pub proof fn law_redirection_is_followed(cfg: HttpsClientCfg, p: PendingView, from: TargetView, r: ResponseView, k: int)
    ensures
        ({
            let status = r.status == 301 || r.status == 302 || r.status == 303 || r.status == 307 || r.status == 308;
            let told = 0 <= k < r.headers.len() && same_nocase(r.headers[k].0, "location"@) && forall|j: int|
                0 <= j < k ==> !same_nocase((#[trigger] r.headers[j]).0, "location"@);
            &&& !cfg.follow_redirect || !status ==> followed(cfg, p, from, r) is None
            &&& (forall|j: int| 0 <= j < r.headers.len() ==> !same_nocase((#[trigger] r.headers[j]).0, "location"@))
                ==> followed(cfg, p, from, r) is None
            &&& cfg.follow_redirect && status && told ==> (followed(cfg, p, from, r) matches Some(q) && q.url
                == redirected(p.url, from, r.headers[k].1) && q.headers == p.headers)
        }),
{
    law_value_nocase_stands(r.headers, "location"@);
}

/// A response of HTTP/2 has the status that its last field of that name tells, and 200 where none does.
pub proof fn law_http2_status_is_told(fields: Seq<(Seq<char>, Seq<char>)>, n: int, k: int, status: u16)
    requires
        0 <= n <= fields.len(),
        forall|j: int| 0 <= j < n && j != k ==> (#[trigger] fields[j]).0 != ":status"@,
        0 <= k < n ==> fields[k] == (":status"@, decimal(status as nat)),
    ensures
        http2_status(fields, n) == Some(if 0 <= k < n {
            status
        } else {
            200
        }),
    decreases n,
{
    law_decimal_roundtrip(status as nat, u16::MAX as nat);
    if n > 0 {
        law_http2_status_is_told(fields, n - 1, k, status);
        assert(n - 1 != k ==> fields[n - 1].0 != ":status"@);
    }
}

/// The streams of a connection have odd numbers, each beyond the one before.
pub proof fn law_streams_are_odd(h2: Http2State)
    requires
        h2.next_stream_id <= u32::MAX - 2,
        h2.next_stream_id % 2 == 1,
    ensures
        after_stream(h2).next_stream_id > h2.next_stream_id,
        after_stream(h2).next_stream_id % 2 == 1,
        after_stream(h2).initialized,
        fresh_http2().next_stream_id % 2 == 1,
        !fresh_http2().initialized,
{
}

/// The code of a payload binds the payload and the nonce: what it is made over differs wherever one of them does, for
/// nonces of one length.
pub proof fn law_payload_tag_binds(context: Seq<u8>, n: Seq<u8>, m: Seq<u8>, p: Seq<u8>, q: Seq<u8>)
    requires
        n.len() == m.len(),
    ensures
        payload_material(n, p) == payload_material(m, q) ==> n == m && p == q,
        payload_tag(context, n, p) == hmac_of(context, payload_material(n, p)),
{
    let (i, j) = ((p.len() % 0x1_0000_0000_0000_0000) as u64, (q.len() % 0x1_0000_0000_0000_0000) as u64);
    lemma_be64_differ(i, j);
    lemma_be64_differ(j, i);
    if payload_material(n, p) == payload_material(m, q) {
        let (x, y) = (sha256_of(p) + p, sha256_of(q) + q);
        assert(payload_material(n, p) =~= n + (be64(i) + x));
        assert(payload_material(m, q) =~= m + (be64(j) + y));
        lemma_same_parts(n, m, be64(i) + x, be64(j) + y);
        lemma_same_parts(be64(i), be64(j), x, y);
        lemma_sha256_len(p);
        lemma_sha256_len(q);
        lemma_same_parts(sha256_of(p), sha256_of(q), p, q);
    }
}

/// What is sent for a request over HTTP/2 is read back by a reader of its stream: the header and the body whole, and that
/// they end there. A connection begins with the words that open it and with settings, which the reader answers.
pub proof fn law_http2_request_is_framed(h2: Http2State, header_block: Seq<u8>, body: Seq<u8>)
    requires
        0 < h2.next_stream_id < 0x8000_0000,
        header_block.len() < 0x100_0000,
        body.len() < 0x100_0000,
    ensures
        ({
            let id = h2.next_stream_id;
            let sent = http2_octets(h2, header_block, body);
            let words = encode_utf8("PRI * HTTP/2.0\r\n\r\nSM\r\n\r\n"@);
            let start = |received: Seq<u8>|
                ReaderView { target: id, received, header_block: seq![], body: seq![], ended: false };
            let done = ReaderView { target: id, received: seq![], header_block, body, ended: true };
            &&& h2.initialized ==> drained(start(sent), seq![]) == (done, Seq::<u8>::empty(), false)
            &&& !h2.initialized ==> sent.take(words.len() as int) == words && drained(
                start(sent.skip(words.len() as int)),
                seq![],
            ) == (done, frame(4, 1, 0, seq![]), false)
        }),
{
    let id = h2.next_stream_id;
    let sent = http2_octets(h2, header_block, body);
    let words = encode_utf8("PRI * HTTP/2.0\r\n\r\nSM\r\n\r\n"@);
    let none = Seq::<u8>::empty();
    lemma_frames_read(id, header_block, body);
    let settings = frame(4, 0, 0, none);
    let rest = if body.len() == 0 {
        frame(1, 5, id, header_block)
    } else {
        frame(1, 4, id, header_block) + frame(0, 1, id, body)
    };
    if h2.initialized {
        assert(sent =~= rest);
    } else {
        assert(sent =~= words + (settings + rest));
        assert(sent.take(words.len() as int) =~= words);
        assert(sent.skip(words.len() as int) =~= settings + rest);
    }
}

/// A response that says nothing of an envelope is handed on as it is, where its code does not speak against it.
pub proof fn law_plain_response_is_delivered(cfg: HttpsClientCfg, r: ResponseView, plain: Option<Seq<u8>>)
    requires
        forall|j: int| 0 <= j < r.headers.len() ==> !same_nocase((#[trigger] r.headers[j]).0, "x-singularity-secure-envelope"@),
    ensures
        accepted_response(cfg, r, plain) == (match integrity_fault(cfg.enforce_response_integrity, r) {
            Some(e) => Err::<ResponseView, HttpsError>(e),
            None => Ok(r),
        }),
{
    law_value_nocase_stands(r.headers, "x-singularity-secure-envelope"@);
}

}
