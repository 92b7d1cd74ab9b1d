//! Why client and server of HTTPS understand each other: the client reads the responses that the server sends over
//! HTTP/1 and HTTP/2, and the server the requests that the client sends with a body that is neither coded nor in an
//! envelope.
use vstd::prelude::*;
use vstd::utf8::{decode_utf8, encode_utf8};

use crate::bytes::hex;
use crate::crypto::base64::{encoded, lemma_encoded_symbols};
use crate::crypto::sha256::sha256_of;
use crate::decimal::{decimal, law_decimal_roundtrip, parsed};
use crate::net::envelope::{lemma_armoured_tidy, lemma_decimal_tidy};
use crate::net::http::compression::{coding_name, CompressionAlgorithm};
use crate::net::http::headers::{field, fields_wire, is_kept, law_field_set, with_field, Fields};
use crate::net::http::message::{digest_value, law_own_digest, lemma_own_digest_element, MessageError};
use crate::net::http::method::{law_method_names, method_name, HttpMethod};
use crate::net::http::request::{
    all_sendable, is_plain, lemma_fields_wire, lemma_names_long, lemma_plain_field, lemma_set_sendable,
    lemma_tidy_clean, lines_for, RequestView,
};
use crate::net::http::response::{
    is_sendable_field, is_transmissible, lemma_response_received, lemma_told_received, reason_of,
    response_header, response_received, response_wire, table_wire, told_header, FieldTable, ResponseView,
};
use crate::net::http::served::{
    lemma_coding_word, lemma_fields_back, lemma_head_read, lemma_hex_digit_solid, lemma_length_names,
    lemma_line_octets, lemma_names_solid, lemma_put_found, lemma_put_same, lemma_put_table, lemma_table_value,
    lemma_tidy_field, lemma_told_length, lemma_trimmed_something, lemma_value_at, lemma_value_is, lines_from,
    sendable_table, table_of,
};
use crate::net::http::server::HeadView;
use crate::net::http::trailer::line_len;
use crate::net::http::version::{law_version_names, version_name, HttpVersion};
use crate::net::http::wire::{clean, crlf, crlf_ended, lemma_utf8_concat};
use crate::net::https::client::{HttpsClientCfg, HttpsError};
use crate::net::https::exchange::{
    goes_compressed, goes_enveloped, has_colon, http1_response, http2_fields, http2_response, http2_status,
    http2_table, http2_wire, law_http2_request_carries_fields, law_http2_request_line, law_http2_table_holds,
    outbound, payload_tag, request_octets, sized_fields, tagged,
};
use crate::net::https::server::{
    answer_fields, answer_octets, digest_verdict, first_text_line, http2_answer, https_head, https_request_in,
    is_controlled, law_accepted_request_is_what_was_read, law_stream_request_line, line_parts, own_fields,
    request_fault, response_tag, secured_body, stream_request, uncontrolled, with_each, BodyMetaView, HttpsServerCfg, RequestFault,
};
use crate::table::{
    before, in_name_order, law_before_irreflexive, law_put_nocase, law_value_found, law_value_nocase_stands,
    law_value_stands, lemma_put_last, put, value, value_nocase, without,
};
use crate::text::{
    begins_with, is_white, joined, lacks, lemma_three_words_ended, lemma_tidy_concat, lowered, same_nocase, solid,
    split_on, tidy,
};

verus! {

/// What is found after a value was put under a name that no other name is like.
proof fn lemma_put_finds(h: FieldTable, name: Seq<char>, v: Seq<char>)
    requires
        value_nocase(h, name) is None,
    ensures
        forall|o: Seq<char>| #[trigger] value_nocase(put(h, name, v), o) == (if same_nocase(name, o) {
            Some(v)
        } else {
            value_nocase(h, o)
        }),
{
    assert forall|o: Seq<char>| #[trigger] value_nocase(put(h, name, v), o) == (if same_nocase(name, o) {
        Some(v)
    } else {
        value_nocase(h, o)
    }) by {
        law_put_nocase(h, name, v, o);
    }
}

proof fn lemma_push_finds(h: FieldTable, e: (Seq<char>, Seq<char>), o: Seq<char>)
    ensures
        value_nocase(h.push(e), o) == (match value_nocase(h, o) {
            Some(v) => Some(v),
            None => if same_nocase(e.0, o) {
                Some(e.1)
            } else {
                None
            },
        }),
    decreases h.len(),
{
    if h.len() > 0 {
        lemma_push_finds(h.skip(1), e, o);
        assert(h.push(e).skip(1) =~= h.skip(1).push(e));
    } else {
        assert(h.push(e).skip(1) =~= h);
    }
}

/// What is left after the server's own fields were taken out.
proof fn lemma_uncontrolled(h: FieldTable, n: int, o: Seq<char>)
    requires
        in_name_order(h),
        sendable_table(h),
        0 <= n <= h.len(),
    ensures
        in_name_order(uncontrolled(h, n)),
        sendable_table(uncontrolled(h, n)),
        forall|k: int| 0 <= k < uncontrolled(h, n).len() ==> h.take(n).contains(#[trigger] uncontrolled(h, n)[k]),
        is_controlled(o) ==> value_nocase(uncontrolled(h, n), o) is None,
        !is_controlled(o) ==> value_nocase(uncontrolled(h, n), o) == value_nocase(h.take(n), o),
    decreases n,
{
    if n > 0 {
        lemma_uncontrolled(h, n - 1, o);
        let was = uncontrolled(h, n - 1);
        let out = uncontrolled(h, n);
        let e = h[n - 1];
        let before_it = h.take(n - 1);
        assert(h.take(n) =~= before_it.push(e));
        lemma_push_finds(h.take(n - 1), e, o);
        lemma_push_finds(was, e, o);
        assert(is_sendable_field(e.0, e.1));
        assert forall|k: int| 0 <= k < out.len() implies h.take(n).contains(#[trigger] out[k]) by {
            if k < was.len() {
                assert(out[k] == was[k]);
                let i = choose|i: int| 0 <= i < before_it.len() && before_it[i] == was[k];
                assert(h.take(n)[i] == out[k]);
            } else {
                assert(h.take(n)[n - 1] == out[k]);
            }
        }
        assert forall|a: int, b: int| 0 <= a < b < out.len() implies before(
            (#[trigger] out[a]).0,
            (#[trigger] out[b]).0,
        ) by {
            assert(out[a] == was[a]);
            if b < was.len() {
                assert(out[b] == was[b]);
            } else {
                let i = choose|i: int| 0 <= i < before_it.len() && before_it[i] == was[a];
                assert(h[i] == was[a]);
                assert(before(h[i].0, h[n - 1].0));
            }
        }
    } else {
        assert(h.take(0) =~= seq![]);
    }
}

/// Texts without white space: armour, digits, and what is made of them.
proof fn lemma_own_values(meta: BodyMetaView, wire: Seq<u8>, nonce: Seq<u8>, tag: Seq<u8>)
    requires
        meta.nonce == encoded(nonce),
        meta.tag == encoded(tag),
        meta.digest == encoded(sha256_of(wire)),
    ensures
        is_sendable_field("Content-Length"@, decimal(wire.len())),
        is_sendable_field("Content-Encoding"@, coding_name(meta.algorithm)),
        is_sendable_field("Digest"@, "SHA-256="@ + meta.digest),
        is_sendable_field("X-Content-Sha256"@, hex(sha256_of(wire))),
        is_sendable_field("X-Singularity-Nonce"@, meta.nonce),
        is_sendable_field("X-Singularity-Response-Tag"@, meta.tag),
        is_sendable_field("Connection"@, "keep-alive"@),
        is_sendable_field("Connection"@, "close"@),
{
    reveal_strlit("Content-Length");
    reveal_strlit("Content-Encoding");
    reveal_strlit("Digest");
    reveal_strlit("X-Content-Sha256");
    reveal_strlit("X-Singularity-Nonce");
    reveal_strlit("X-Singularity-Response-Tag");
    reveal_strlit("Connection");
    reveal_strlit("keep-alive");
    reveal_strlit("close");
    reveal_strlit("identity");
    reveal_strlit("gzip");
    reveal_strlit("deflate");
    reveal_strlit("br");
    reveal_strlit("zstd");
    lemma_tidy_field("Connection"@, "keep-alive"@);
    lemma_tidy_field("Connection"@, "close"@);
    lemma_tidy_field("Content-Encoding"@, coding_name(meta.algorithm));
    lemma_decimal_tidy(wire.len());
    lemma_tidy_field("Content-Length"@, decimal(wire.len()));
    law_own_digest(wire);
    lemma_tidy_field("Digest"@, digest_value(wire));
    lemma_encoded_symbols(nonce);
    lemma_armoured_tidy(encoded(nonce));
    lemma_tidy_field("X-Singularity-Nonce"@, meta.nonce);
    lemma_encoded_symbols(tag);
    lemma_armoured_tidy(encoded(tag));
    lemma_tidy_field("X-Singularity-Response-Tag"@, meta.tag);
    let d = sha256_of(wire);
    assert forall|j: int| 0 <= j < hex(d).len() implies !is_white(#[trigger] hex(d)[j]) by {
        lemma_hex_digit_solid(d[j / 2] as int / 16);
        lemma_hex_digit_solid(d[j / 2] as int % 16);
    }
    lemma_tidy_field("X-Content-Sha256"@, hex(d));
}

/// The names of the fields that the server sets, and of those that a client looks at.
proof fn lemma_names()
    ensures
        lowered("Content-Length"@) == lowered("content-length"@),
        lowered("Content-Encoding"@) == lowered("content-encoding"@),
        lowered("Digest"@) == lowered("digest"@),
        lowered("X-Singularity-Response-Tag"@) == lowered("x-singularity-response-tag"@),
        lowered("Content-Length"@).len() == 14,
        lowered("Content-Encoding"@).len() == 16,
        lowered("Content-Encoding"@)[0] == 'c',
        lowered("Digest"@).len() == 6,
        lowered("X-Content-Sha256"@).len() == 16,
        lowered("X-Content-Sha256"@)[0] == 'x',
        lowered("X-Singularity-Nonce"@).len() == 19,
        lowered("X-Singularity-Response-Tag"@).len() == 26,
        lowered("Connection"@).len() == 10,
        lowered("x-singularity-response-nonce"@).len() == 28,
        lowered("x-singularity-secure-envelope"@).len() == 29,
{
    reveal_strlit("Content-Length");
    reveal_strlit("content-length");
    reveal_strlit("Content-Encoding");
    reveal_strlit("content-encoding");
    reveal_strlit("Digest");
    reveal_strlit("digest");
    reveal_strlit("X-Content-Sha256");
    reveal_strlit("X-Singularity-Nonce");
    reveal_strlit("X-Singularity-Response-Tag");
    reveal_strlit("x-singularity-response-tag");
    reveal_strlit("Connection");
    reveal_strlit("x-singularity-response-nonce");
    reveal_strlit("x-singularity-secure-envelope");
    assert(lowered("Content-Length"@) =~= lowered("content-length"@));
    assert(lowered("Content-Encoding"@) =~= lowered("content-encoding"@));
    assert(lowered("Digest"@) =~= lowered("digest"@));
    assert(lowered("X-Singularity-Response-Tag"@) =~= lowered("x-singularity-response-tag"@));
}

/// Fields that can be sent, and what is found in them.
spec fn holds(
    h: FieldTable,
    length: Option<Seq<char>>,
    coding: Option<Seq<char>>,
    digest: Option<Seq<char>>,
) -> bool {
    &&& in_name_order(h)
    &&& sendable_table(h)
    &&& value_nocase(h, "content-length"@) == length
    &&& value_nocase(h, "content-encoding"@) == coding
    &&& value_nocase(h, "digest"@) == digest
    &&& value_nocase(h, "x-singularity-response-nonce"@) is None
    &&& value_nocase(h, "x-singularity-secure-envelope"@) is None
}

/// The fields of a response with those that the server sets.
pub open spec fn secured_fields(h: FieldTable, meta: BodyMetaView, wire: Seq<u8>) -> FieldTable {
    let own = own_fields(meta, wire);
    with_each(uncontrolled(h, h.len() as int), own, own.len() as int)
}

/// What a client finds in the fields of a response.
proof fn lemma_secured_fields(h: FieldTable, meta: BodyMetaView, wire: Seq<u8>, nonce: Seq<u8>, tag: Seq<u8>)
    requires
        in_name_order(h),
        sendable_table(h),
        value_nocase(h, "x-singularity-response-nonce"@) is None,
        value_nocase(h, "x-singularity-secure-envelope"@) is None,
        meta.nonce == encoded(nonce),
        meta.tag == encoded(tag),
        meta.digest == encoded(sha256_of(wire)),
    ensures
        holds(
            secured_fields(h, meta, wire),
            if wire.len() > 0 {
                Some(decimal(wire.len()))
            } else {
                None
            },
            if meta.algorithm != CompressionAlgorithm::Identity {
                Some(coding_name(meta.algorithm))
            } else {
                None
            },
            Some(digest_value(wire)),
        ),
{
    lemma_names();
    lemma_own_values(meta, wire, nonce, tag);
    let n = h.len() as int;
    assert(h.take(n) =~= h);
    let h0 = uncontrolled(h, n);
    lemma_uncontrolled(h, n, "Content-Length"@);
    lemma_uncontrolled(h, n, "Content-Encoding"@);
    lemma_uncontrolled(h, n, "Digest"@);
    lemma_uncontrolled(h, n, "X-Content-Sha256"@);
    lemma_uncontrolled(h, n, "X-Singularity-Nonce"@);
    lemma_uncontrolled(h, n, "X-Singularity-Response-Tag"@);
    lemma_uncontrolled(h, n, "content-length"@);
    lemma_uncontrolled(h, n, "content-encoding"@);
    lemma_uncontrolled(h, n, "digest"@);
    lemma_uncontrolled(h, n, "x-singularity-response-nonce"@);
    lemma_uncontrolled(h, n, "x-singularity-secure-envelope"@);
    let own = own_fields(meta, wire);
    let size = decimal(wire.len());
    let coding = coding_name(meta.algorithm);
    let h1 = if wire.len() > 0 {
        lemma_put_finds(h0, "Content-Length"@, size);
        lemma_put_table(h0, "Content-Length"@, size);
        put(h0, "Content-Length"@, size)
    } else {
        h0
    };
    let h2 = if meta.algorithm != CompressionAlgorithm::Identity {
        lemma_put_finds(h1, "Content-Encoding"@, coding);
        lemma_put_table(h1, "Content-Encoding"@, coding);
        put(h1, "Content-Encoding"@, coding)
    } else {
        h1
    };
    lemma_put_finds(h2, "Digest"@, digest_value(wire));
    lemma_put_table(h2, "Digest"@, digest_value(wire));
    let h3 = put(h2, "Digest"@, digest_value(wire));
    let x = hex(sha256_of(wire));
    lemma_put_finds(h3, "X-Content-Sha256"@, x);
    lemma_put_table(h3, "X-Content-Sha256"@, x);
    let h4 = put(h3, "X-Content-Sha256"@, x);
    lemma_put_finds(h4, "X-Singularity-Nonce"@, meta.nonce);
    lemma_put_table(h4, "X-Singularity-Nonce"@, meta.nonce);
    let h5 = put(h4, "X-Singularity-Nonce"@, meta.nonce);
    lemma_put_finds(h5, "X-Singularity-Response-Tag"@, meta.tag);
    lemma_put_table(h5, "X-Singularity-Response-Tag"@, meta.tag);
    let h6 = put(h5, "X-Singularity-Response-Tag"@, meta.tag);
    let k = own.len() as int;
    reveal_with_fuel(with_each, 7);
    assert(own[k - 1] == ("X-Singularity-Response-Tag"@, meta.tag));
    assert(own[k - 2] == ("X-Singularity-Nonce"@, meta.nonce));
    assert(own[k - 3] == ("X-Content-Sha256"@, x));
    assert(own[k - 4] == ("Digest"@, "SHA-256="@ + meta.digest));
    assert(with_each(h0, own, k - 4) == h2);
    assert(with_each(h0, own, k) == h6);
}

/// What a client finds in the fields of a response of HTTP/1.
proof fn lemma_answer_fields(
    h: FieldTable,
    meta: BodyMetaView,
    wire: Seq<u8>,
    keep_alive: bool,
    nonce: Seq<u8>,
    tag: Seq<u8>,
)
    requires
        in_name_order(h),
        sendable_table(h),
        value_nocase(h, "x-singularity-response-nonce"@) is None,
        value_nocase(h, "x-singularity-secure-envelope"@) is None,
        meta.nonce == encoded(nonce),
        meta.tag == encoded(tag),
        meta.digest == encoded(sha256_of(wire)),
    ensures
        holds(
            answer_fields(h, meta, wire, keep_alive),
            if wire.len() > 0 {
                Some(decimal(wire.len()))
            } else {
                None
            },
            if meta.algorithm != CompressionAlgorithm::Identity {
                Some(coding_name(meta.algorithm))
            } else {
                None
            },
            Some(digest_value(wire)),
        ),
{
    lemma_names();
    lemma_own_values(meta, wire, nonce, tag);
    lemma_secured_fields(h, meta, wire, nonce, tag);
    let s = secured_fields(h, meta, wire);
    if value_nocase(s, "Connection"@) is None {
        lemma_put_finds(s, "Connection"@, "keep-alive"@);
        lemma_put_finds(s, "Connection"@, "close"@);
        lemma_put_table(s, "Connection"@, "keep-alive"@);
        lemma_put_table(s, "Connection"@, "close"@);
    }
}

/// What is not found is not found either where a field is left out.
proof fn lemma_without_none(h: FieldTable, name: Seq<char>, o: Seq<char>)
    requires
        value_nocase(h, o) is None,
    ensures
        value_nocase(without(h, name), o) is None,
    decreases h.len(),
{
    if h.len() > 0 {
        lemma_without_none(h.skip(1), name, o);
        let out = without(h, name);
        if h[0].0 != name {
            assert(out.skip(1) =~= without(h.skip(1), name));
        }
    }
}

/// Undoing a coding adds no code and no envelope.
proof fn lemma_opened_fields(h: FieldTable, size: Seq<char>)
    requires
        value_nocase(h, "x-singularity-response-nonce"@) is None,
        value_nocase(h, "x-singularity-secure-envelope"@) is None,
    ensures
        ({
            let out = put(without(h, "content-encoding"@), "Content-Length"@, size);
            &&& value_nocase(out, "x-singularity-response-nonce"@) is None
            &&& value_nocase(out, "x-singularity-secure-envelope"@) is None
        }),
{
    lemma_names();
    let w = without(h, "content-encoding"@);
    lemma_without_none(h, "content-encoding"@, "x-singularity-response-nonce"@);
    lemma_without_none(h, "content-encoding"@, "x-singularity-secure-envelope"@);
    lemma_put_found(w, "Content-Length"@, size, "x-singularity-response-nonce"@);
    lemma_put_found(w, "Content-Length"@, size, "x-singularity-secure-envelope"@);
}

/// Whether a response of a handler can be sent so that a client reads it: its phrase and fields have no line ends,
/// and it has neither a code nor an envelope of its own.
pub open spec fn is_answer(r: ResponseView) -> bool {
    &&& clean(r.reason)
    &&& in_name_order(r.headers)
    &&& sendable_table(r.headers)
    &&& value_nocase(r.headers, "x-singularity-response-nonce"@) is None
    &&& value_nocase(r.headers, "x-singularity-secure-envelope"@) is None
    &&& r.body.len() <= usize::MAX
}

/// The client reads what the server answers: the same status, phrase, version and body, given that the codec undoes
/// what it did, and the fields with which the server sent it. Where a coding was undone, the length is that of the
/// plain body.
pub proof fn law_answer_is_read(
    client: HttpsClientCfg,
    server: HttpsServerCfg,
    r: ResponseView,
    accept: Option<Seq<char>>,
    keep_alive: bool,
    coded: Option<Seq<u8>>,
    nonce: Seq<u8>,
    inner: Option<Seq<u8>>,
)
    requires
        is_answer(r),
        coded matches Some(c) ==> c.len() <= usize::MAX,
    ensures
        answer_octets(server, r, accept, keep_alive, coded, nonce) matches Some(o) ==> (secured_body(
            server,
            r.status,
            r.reason,
            r.body,
            accept,
            coded,
            nonce,
        ) matches Some((meta, wire)) && http1_response(client, o, Some(r.body), inner) == Ok::<
            ResponseView,
            HttpsError,
        >(
            ResponseView {
                headers: if meta.algorithm == CompressionAlgorithm::Identity {
                    answer_fields(r.headers, meta, wire, keep_alive)
                } else {
                    put(
                        without(answer_fields(r.headers, meta, wire, keep_alive), "content-encoding"@),
                        "Content-Length"@,
                        decimal(r.body.len()),
                    )
                },
                ..r
            },
        )),
{
    if let Some((meta, wire)) = secured_body(server, r.status, r.reason, r.body, accept, coded, nonce) {
        let tag = response_tag(r.status, r.reason, nonce, wire);
        lemma_answer_fields(r.headers, meta, wire, keep_alive, nonce, tag);
        let h = answer_fields(r.headers, meta, wire, keep_alive);
        let f = ResponseView { headers: h, body: wire, ..r };
        law_own_digest(wire);
        law_decimal_roundtrip(wire.len(), usize::MAX as nat);
        assert(is_transmissible(f));
        lemma_response_received(f);
        let o = answer_octets(server, r, accept, keep_alive, coded, nonce).unwrap();
        assert(response_header(f) =~= version_name(r.version) + " "@ + decimal(r.status as nat) + " "@ + r.reason
            + "\r\n"@ + table_wire(h, h.len() as int) + "\r\n"@);
        assert(o == response_wire(f));
        if meta.algorithm != CompressionAlgorithm::Identity {
            lemma_coding_word(meta.algorithm);
            lemma_opened_fields(h, decimal(r.body.len()));
        }
    }
}

/// The phrases of the statuses have no line ends.
proof fn lemma_reason_clean(status: u16)
    ensures
        clean(reason_of(status)),
{
    reveal_strlit("Continue");
    reveal_strlit("Switching Protocols");
    reveal_strlit("OK");
    reveal_strlit("Created");
    reveal_strlit("Accepted");
    reveal_strlit("No Content");
    reveal_strlit("Moved Permanently");
    reveal_strlit("Found");
    reveal_strlit("See Other");
    reveal_strlit("Not Modified");
    reveal_strlit("Temporary Redirect");
    reveal_strlit("Permanent Redirect");
    reveal_strlit("Bad Request");
    reveal_strlit("Unauthorized");
    reveal_strlit("Forbidden");
    reveal_strlit("Not Found");
    reveal_strlit("Method Not Allowed");
    reveal_strlit("Request Timeout");
    reveal_strlit("Internal Server Error");
    reveal_strlit("Not Implemented");
    reveal_strlit("Bad Gateway");
    reveal_strlit("Service Unavailable");
    reveal_strlit("Unknown");
}

/// A server's own fields have names without a colon.
proof fn lemma_own_plain(meta: BodyMetaView, wire: Seq<u8>, nonce: Seq<u8>, tag: Seq<u8>)
    requires
        meta.nonce == encoded(nonce),
        meta.tag == encoded(tag),
        meta.digest == encoded(sha256_of(wire)),
    ensures
        forall|k: int|
            0 <= k < own_fields(meta, wire).len() ==> lacks((#[trigger] own_fields(meta, wire)[k]).0, ':'),
{
    lemma_own_values(meta, wire, nonce, tag);
}

/// The fields of HTTP/2 behind the status, as a client reads the first `n` of all.
proof fn lemma_http2_fields(status: u16, u: FieldTable, own: FieldTable, n: int)
    requires
        in_name_order(u),
        sendable_table(u),
        forall|k: int| 0 <= k < own.len() ==> lacks((#[trigger] own[k]).0, ':'),
        1 <= n <= 1 + u.len() + own.len(),
    ensures
        ({
            let all = seq![(":status"@, decimal(status as nat))] + u + own;
            &&& http2_status(all, n) == Some(status)
            &&& http2_table(all, n) == (if n <= 1 + u.len() {
                u.take(n - 1)
            } else {
                with_each(u, own, n - 1 - u.len())
            })
        }),
    decreases n,
{
    let all = seq![(":status"@, decimal(status as nat))] + u + own;
    reveal_strlit(":status");
    reveal_strlit(":");
    if n == 1 {
        law_decimal_roundtrip(status as nat, u16::MAX as nat);
        assert(all[0] == (":status"@, decimal(status as nat)));
        assert(":status"@.take(1) =~= ":"@);
        assert(begins_with(":status"@, ":"@));
        assert(http2_status(all, 0) == Some(200u16));
        assert(http2_table(all, 0) =~= seq![]);
        assert(u.take(0) =~= seq![]);
    } else {
        lemma_http2_fields(status, u, own, n - 1);
        let e = all[n - 1];
        if n <= 1 + u.len() {
            assert(e == u[n - 2]);
            assert(is_sendable_field(u[n - 2].0, u[n - 2].1));
        } else {
            assert(e == own[n - 2 - u.len()]);
        }
        assert(lacks(e.0, ':'));
        if e.0.len() > 0 {
            assert(e.0[0] != ':');
        }
        if begins_with(e.0, ":"@) {
            assert(e.0.take(1)[0] == ":"@[0]);
        }
        assert(":status"@[0] == ':');
        assert(e.0 != ":status"@);
        if n <= 1 + u.len() {
            let was = u.take(n - 2);
            assert forall|j: int| 0 <= j < was.len() implies before((#[trigger] was[j]).0, e.0) by {
                assert(before(u[j].0, u[n - 2].0));
            }
            lemma_put_last(was, e.0, e.1);
            assert(was.push(e) =~= u.take(n - 1));
        } else if n == 2 + u.len() {
            assert(u.take(u.len() as int) =~= u);
            assert(with_each(u, own, 0) == u);
        }
    }
}

/// The fields of a response of HTTP/2 as the client hands them on: the length of the body is always told.
pub open spec fn told_fields(h: FieldTable, wire: Seq<u8>) -> FieldTable {
    if wire.len() == 0 {
        put(h, "Content-Length"@, decimal(0))
    } else {
        h
    }
}

/// What the server answers over HTTP/2 arrives as it was sent, with the phrase that the status has.
proof fn lemma_http2_arrives(r: ResponseView, meta: BodyMetaView, wire: Seq<u8>, nonce: Seq<u8>, tag: Seq<u8>)
    requires
        is_answer(r),
        meta.nonce == encoded(nonce),
        meta.tag == encoded(tag),
        meta.digest == encoded(sha256_of(wire)),
        wire.len() <= usize::MAX,
    ensures
        ({
            let h = told_fields(secured_fields(r.headers, meta, wire), wire);
            &&& http2_wire(http2_answer(r, meta, wire), wire) matches Some(w) && response_received(w) == Ok::<
                ResponseView,
                MessageError,
            >(
                ResponseView {
                    status: r.status,
                    reason: reason_of(r.status),
                    version: HttpVersion::Http11,
                    headers: h,
                    body: wire,
                },
            )
            &&& value_nocase(h, "content-encoding"@) == (if meta.algorithm != CompressionAlgorithm::Identity {
                Some(coding_name(meta.algorithm))
            } else {
                None
            })
            &&& value_nocase(h, "x-singularity-response-nonce"@) is None
            &&& value_nocase(h, "x-singularity-secure-envelope"@) is None
        }),
{
    lemma_names();
    lemma_own_plain(meta, wire, nonce, tag);
    lemma_secured_fields(r.headers, meta, wire, nonce, tag);
    let u = uncontrolled(r.headers, r.headers.len() as int);
    lemma_uncontrolled(r.headers, r.headers.len() as int, "digest"@);
    let own = own_fields(meta, wire);
    let all = http2_answer(r, meta, wire);
    lemma_http2_fields(r.status, u, own, all.len() as int);
    let s = secured_fields(r.headers, meta, wire);
    if own.len() == 0 {
        assert(u.take(u.len() as int) =~= u);
    }
    assert(http2_table(all, all.len() as int) == s);
    let f = ResponseView {
        status: r.status,
        reason: reason_of(r.status),
        version: HttpVersion::Http11,
        headers: s,
        body: wire,
    };
    lemma_reason_clean(r.status);
    law_own_digest(wire);
    law_decimal_roundtrip(wire.len(), usize::MAX as nat);
    assert(is_transmissible(f));
    let told = wire.len() == 0;
    lemma_told_received(f, told);
    reveal_strlit("HTTP/1.1 ");
    reveal_strlit("HTTP/1.1");
    reveal_strlit(" ");
    assert("HTTP/1.1 "@ =~= version_name(HttpVersion::Http11) + " "@);
    assert(http2_wire(all, wire) == Some(encode_utf8(told_header(f, told)) + wire));
    lemma_put_found(s, "Content-Length"@, decimal(0), "x-singularity-response-nonce"@);
    lemma_put_found(s, "Content-Length"@, decimal(0), "x-singularity-secure-envelope"@);
}

/// The client reads what the server answers over HTTP/2: the same status and body, given that the codec undoes what
/// it did, with the phrase that the status has, and the fields with which the server sent it. Where a coding was
/// undone, the length is that of the plain body.
pub proof fn law_http2_answer_is_read(
    client: HttpsClientCfg,
    server: HttpsServerCfg,
    r: ResponseView,
    accept: Option<Seq<char>>,
    coded: Option<Seq<u8>>,
    nonce: Seq<u8>,
    inner: Option<Seq<u8>>,
)
    requires
        is_answer(r),
        coded matches Some(c) ==> c.len() <= usize::MAX,
    ensures
        secured_body(server, r.status, r.reason, r.body, accept, coded, nonce) matches Some((meta, wire)) ==> ({
            let h = told_fields(secured_fields(r.headers, meta, wire), wire);
            http2_response(client, http2_answer(r, meta, wire), wire, Some(r.body), inner) == Ok::<
                ResponseView,
                HttpsError,
            >(
                ResponseView {
                    status: r.status,
                    reason: reason_of(r.status),
                    version: HttpVersion::Http2,
                    headers: if meta.algorithm == CompressionAlgorithm::Identity {
                        h
                    } else {
                        put(without(h, "content-encoding"@), "Content-Length"@, decimal(r.body.len()))
                    },
                    body: r.body,
                },
            )
        }),
{
    if let Some((meta, wire)) = secured_body(server, r.status, r.reason, r.body, accept, coded, nonce) {
        lemma_http2_arrives(r, meta, wire, nonce, response_tag(r.status, r.reason, nonce, wire));
        lemma_names();
        if meta.algorithm != CompressionAlgorithm::Identity {
            lemma_coding_word(meta.algorithm);
            lemma_opened_fields(told_fields(secured_fields(r.headers, meta, wire), wire), decimal(r.body.len()));
        }
    }
}

/// Whether a request can be sent so that a server takes it: its path is a word, its fields can be sent, no content
/// coding is named, a length is told only of a body and is its own, digests that are told are met by the body or are
/// none that the server knows, and what the server insists on is there. Its code is the client's own and none that
/// the server looks at.
pub open spec fn is_servable(server: HttpsServerCfg, path: Seq<char>, h: Fields, body: Seq<u8>) -> bool {
    &&& solid(path) && path.len() > 0
    &&& all_sendable(h)
    &&& field(h, "content-encoding"@) is None
    &&& field(h, "content-length"@) matches Some(t) ==> body.len() > 0 && t == decimal(body.len())
    &&& field(h, "digest"@) matches Some(d) ==> digest_verdict(split_on(d, ','), 0, body, false) is Ok
    &&& field(h, "X-Singularity-Nonce"@) is None
    &&& body.len() <= server.max_body_size
    &&& server.require_request_digest && body.len() > 0 ==> (field(h, "digest"@) matches Some(d)
        && digest_verdict(split_on(d, ','), 0, body, false) == Ok::<bool, RequestFault>(true))
    &&& server.require_request_tag ==> body.len() == 0
}

/// A server finds in a request the line with which it begins.
proof fn lemma_request_line(method: HttpMethod, path: Seq<char>, rest: Seq<u8>)
    requires
        solid(path) && path.len() > 0,
    ensures
        ({
            let o = encode_utf8(method_name(method) + " "@ + path + " HTTP/1.1\r\n"@);
            let data = o + rest;
            &&& first_text_line(data, 0) == Ok::<int, RequestFault>(0)
            &&& line_len(data.skip(0)) == o.len()
            &&& data.skip(o.len() as int) == rest
            &&& line_parts(decode_utf8(data.skip(0).take(o.len() as int))) == Ok::<_, MessageError>(
                (method, path, HttpVersion::Http11),
            )
        }),
{
    reveal_strlit(" ");
    reveal_strlit("\r\n");
    reveal_strlit(" HTTP/1.1\r\n");
    reveal_strlit("HTTP/1.1");
    let m = method_name(method);
    let v = version_name(HttpVersion::Http11);
    let start = m + " "@ + path + " "@ + v;
    assert(m + " "@ + path + " HTTP/1.1\r\n"@ =~= start + crlf());
    lemma_names_solid(method, HttpVersion::Http11);
    lemma_names_long(method, HttpVersion::Http11);
    assert(" "@ =~= seq![' ']);
    assert forall|j: int| 0 <= j < start.len() implies #[trigger] start[j] != '\n' by {
        assert(is_white('\n'));
        if j < m.len() {
            assert(start[j] == m[j]);
        } else if j > m.len() && j < m.len() + 1 + path.len() {
            assert(start[j] == path[j - m.len() - 1]);
        } else if j > m.len() + 1 + path.len() {
            assert(start[j] == v[j - m.len() - path.len() - 2]);
        }
    }
    lemma_line_octets(start, rest);
    let line = start + crlf();
    assert(line[0] == m[0]);
    assert(!is_white(m[0]));
    lemma_trimmed_something(line, 0);
    assert(is_white('\r') && is_white('\n'));
    lemma_three_words_ended(m, path, v, crlf());
    law_method_names(method);
    law_version_names(HttpVersion::Http11);
    let data = encode_utf8(line) + rest;
    assert(data.skip(0) =~= data);
}

/// What is found in the fields of a request once its length is told.
proof fn lemma_sized(h: Fields, body: Seq<u8>)
    requires
        all_sendable(h),
        field(h, "content-length"@) matches Some(t) ==> body.len() > 0 && t == decimal(body.len()),
    ensures
        ({
            let f = sized_fields(h, body);
            &&& all_sendable(f)
            &&& field(f, "content-length"@) == (if body.len() > 0 {
                Some(decimal(body.len()))
            } else {
                None
            })
            &&& field(f, "content-encoding"@) == field(h, "content-encoding"@)
            &&& field(f, "digest"@) == field(h, "digest"@)
            &&& field(f, "X-Singularity-Nonce"@) == field(h, "X-Singularity-Nonce"@)
        }),
{
    let d = decimal(body.len());
    lemma_names();
    reveal_strlit("Content-Length");
    lemma_decimal_tidy(body.len());
    lemma_tidy_clean(d);
    lemma_plain_field("Content-Length"@, d);
    lemma_set_sendable(h, "Content-Length"@, d);
    law_field_set(h, "Content-Length"@, d, "content-length"@);
    law_field_set(h, "Content-Length"@, d, "content-encoding"@);
    law_field_set(h, "Content-Length"@, d, "digest"@);
    law_field_set(h, "Content-Length"@, d, "X-Singularity-Nonce"@);
}

/// How much of a request stands before its body.
spec fn head_size(method: HttpMethod, path: Seq<char>, f: Fields) -> nat {
    encode_utf8(method_name(method) + " "@ + path + " HTTP/1.1\r\n"@).len() + lines_from(f, 0).len()
}

/// A server reads the head of a request as it was written.
proof fn lemma_request_head(method: HttpMethod, path: Seq<char>, f: Fields, body: Seq<u8>)
    requires
        solid(path) && path.len() > 0,
        all_sendable(f),
        body.len() <= usize::MAX,
        field(f, "content-length"@) == (if body.len() > 0 {
            Some(decimal(body.len()))
        } else {
            None
        }),
    ensures
        ({
            let bytes = request_octets(method, path, f, body);
            let size = head_size(method, path, f);
            &&& https_head(bytes) == Ok::<_, RequestFault>(
                (
                    method,
                    path,
                    HttpVersion::Http11,
                    HeadView { headers: table_of(f), length: body.len(), size },
                ),
            )
            &&& bytes.len() == size + body.len()
            &&& bytes.subrange(size as int, (size + body.len()) as int) == body
        }),
{
    let n = body.len();
    law_decimal_roundtrip(n, usize::MAX as nat);
    let start = method_name(method) + " "@ + path + " HTTP/1.1\r\n"@;
    reveal_strlit("\r\n");
    assert("\r\n"@ =~= crlf());
    lemma_fields_wire(f, f.len() as int);
    let l = lines_for(f);
    assert(l.take(f.len() as int) =~= l);
    assert(l.skip(0) =~= l);
    let o = encode_utf8(start);
    let rest = lines_from(f, 0) + body;
    lemma_utf8_concat(start, crlf_ended(l) + crlf());
    assert(start + fields_wire(f, f.len() as int) + "\r\n"@ =~= start + (crlf_ended(l) + crlf()));
    let bytes = request_octets(method, path, f, body);
    assert(bytes =~= o + rest);
    lemma_request_line(method, path, rest);
    assert forall|j: int| 0 <= j < f.len() && (#[trigger] f[j]).0 == lowered("content-length"@) implies parsed(
        f[j].1[0],
        usize::MAX as nat,
    ) == Some(n) by {
        lemma_value_is(f, j);
        assert(field(f, "content-length"@) == Some(f[j].1[0]));
    }
    lemma_head_read(f, 0, n, o.len(), body);
    assert(table_of(f).take(0) =~= seq![]);
    lemma_told_length(f, n);
    let size = head_size(method, path, f);
    assert(bytes.subrange(size as int, (size + n) as int) =~= body);
}

/// Telling a length again that is told already changes nothing.
proof fn lemma_length_again(f: Fields, n: nat)
    requires
        all_sendable(f),
        field(f, "content-length"@) == Some(decimal(n)),
    ensures
        with_field(f, "Content-Length"@, decimal(n)) == f,
{
    lemma_length_names();
    let j = lemma_value_at(f, lowered("content-length"@));
    assert(f[j].1.len() == 1);
    assert(f[j].1 =~= seq![decimal(n)]);
    lemma_put_same(f, j);
}

/// A server takes the request that the client sent: the same method, path and body, and the fields with which it was
/// sent.
pub proof fn law_sent_request_is_taken(
    server: HttpsServerCfg,
    method: HttpMethod,
    path: Seq<char>,
    h: Fields,
    body: Seq<u8>,
    plain: Option<Seq<u8>>,
)
    requires
        is_servable(server, path, h, body),
    ensures
        https_request_in(server, request_octets(method, path, sized_fields(h, body), body), plain) == Ok::<
            RequestView,
            RequestFault,
        >(
            RequestView {
                method,
                path,
                version: HttpVersion::Http11,
                headers: sized_fields(h, body),
                body,
            },
        ),
{
    let f = sized_fields(h, body);
    lemma_sized(h, body);
    lemma_request_head(method, path, f, body);
    let t = table_of(f);
    lemma_table_value(f, "content-encoding"@);
    lemma_table_value(f, "digest"@);
    lemma_table_value(f, "X-Singularity-Nonce"@);
    lemma_fields_back(f, f.len() as int);
    assert(f.take(f.len() as int) =~= f);
    assert(request_fault(server, method_name(method), path, t, body) is None);
    if body.len() > 0 {
        lemma_length_again(f, body.len());
    }
}

/// The names of the fields with which the client vouches for a body.
proof fn lemma_client_names()
    ensures
        is_plain("Digest"@),
        is_plain("X-Singularity-Request-Nonce"@),
        is_plain("X-Singularity-Request-Tag"@),
        is_plain("Content-Length"@),
        lowered("X-Singularity-Request-Nonce"@).len() == 27,
        lowered("X-Singularity-Request-Tag"@).len() == 25,
{
    reveal_strlit("Digest");
    reveal_strlit("X-Singularity-Request-Nonce");
    reveal_strlit("X-Singularity-Request-Tag");
    reveal_strlit("Content-Length");
}

/// One more field that can be sent; what is found under another name stays.
proof fn lemma_with_plain(h: Fields, name: Seq<char>, v: Seq<char>, other: Seq<char>)
    requires
        all_sendable(h),
        is_plain(name),
        tidy(v),
    ensures
        all_sendable(with_field(h, name, v)),
        field(with_field(h, name, v), other) == (if lowered(other) == lowered(name) {
            Some(v)
        } else {
            field(h, other)
        }),
{
    lemma_tidy_clean(v);
    lemma_plain_field(name, v);
    lemma_set_sendable(h, name, v);
    law_field_set(h, name, v, other);
}

/// What is found under a name after the client has vouched for a body.
proof fn lemma_vouched(h: Fields, body: Seq<u8>, nonce: Seq<u8>, other: Seq<char>)
    requires
        all_sendable(h),
    ensures
        ({
            let f = tagged(with_field(h, "Digest"@, digest_value(body)), body, nonce);
            let k = lowered(other);
            &&& all_sendable(f)
            &&& k == lowered("Content-Length"@) ==> field(f, other) == Some(decimal(body.len()))
            &&& k == lowered("Digest"@) ==> field(f, other) == Some(digest_value(body))
            &&& k.len() != 6 && k.len() != 14 && k.len() != 25 && k.len() != 27 ==> field(f, other) == field(
                h,
                other,
            )
        }),
{
    reveal(tagged);
    lemma_names();
    lemma_client_names();
    lemma_own_digest_element(body);
    lemma_encoded_symbols(nonce);
    lemma_armoured_tidy(encoded(nonce));
    let tag = payload_tag(encode_utf8("SINGULARITY_HTTPS_CLIENT_REQUEST_TAG_V1"@), nonce, body);
    lemma_encoded_symbols(tag);
    lemma_armoured_tidy(encoded(tag));
    reveal_strlit("HMAC-SHA-256=");
    lemma_tidy_concat("HMAC-SHA-256="@, encoded(tag));
    lemma_decimal_tidy(body.len());
    let h1 = with_field(h, "Digest"@, digest_value(body));
    lemma_with_plain(h, "Digest"@, digest_value(body), other);
    let h2 = with_field(h1, "X-Singularity-Request-Nonce"@, encoded(nonce));
    lemma_with_plain(h1, "X-Singularity-Request-Nonce"@, encoded(nonce), other);
    let h3 = with_field(h2, "X-Singularity-Request-Tag"@, "HMAC-SHA-256="@ + encoded(tag));
    lemma_with_plain(h2, "X-Singularity-Request-Tag"@, "HMAC-SHA-256="@ + encoded(tag), other);
    lemma_with_plain(h3, "Content-Length"@, decimal(body.len()), other);
}

/// A request with a body that goes neither coded nor in an envelope is taken by a server that insists on no tag of
/// its own, and the server finds the client's digest to be that of the body.
pub proof fn law_vouched_request_is_taken(
    client: HttpsClientCfg,
    server: HttpsServerCfg,
    method: HttpMethod,
    path: Seq<char>,
    h: Fields,
    body: Seq<u8>,
    coded: Option<Seq<u8>>,
    seal: Seq<u8>,
    nonce: Seq<u8>,
    plain: Option<Seq<u8>>,
)
    requires
        solid(path) && path.len() > 0,
        all_sendable(h),
        field(h, "content-encoding"@) is None,
        field(h, "X-Singularity-Nonce"@) is None,
        0 < body.len() <= server.max_body_size,
        !server.require_request_tag,
        !goes_enveloped(client, body.len()),
        !goes_compressed(client, body.len()),
    ensures
        ({
            let (f, sent, fault) = outbound(client, h, body, coded, seal, nonce);
            &&& fault is None
            &&& https_request_in(server, request_octets(method, path, sized_fields(f, sent), sent), plain) == Ok::<
                RequestView,
                RequestFault,
            >(RequestView { method, path, version: HttpVersion::Http11, headers: f, body })
        }),
{
    let f = tagged(with_field(h, "Digest"@, digest_value(body)), body, nonce);
    lemma_names();
    lemma_vouched(h, body, nonce, "content-length"@);
    lemma_vouched(h, body, nonce, "content-encoding"@);
    lemma_vouched(h, body, nonce, "digest"@);
    lemma_vouched(h, body, nonce, "X-Singularity-Nonce"@);
    lemma_own_digest_element(body);
    let d = digest_value(body);
    assert(split_on(d, ',')[0] == d);
    assert(digest_verdict(split_on(d, ','), 0, body, false) == Ok::<bool, RequestFault>(true));
    assert(is_servable(server, path, f, body));
    law_sent_request_is_taken(server, method, path, f, body, plain);
}

/// The fields that a client's header of HTTP/2 leaves at the server: those of the request, each with its values in one
/// text, and the length of a body.
proof fn lemma_http2_arriving(method: HttpMethod, path: Seq<char>, h: Fields, body_len: nat, i: int, name: Seq<char>)
    requires
        in_name_order(h),
        is_kept(h),
    ensures
        ({
            let f = http2_fields(method, path, h, body_len);
            let t = http2_table(f, f.len() as int);
            &&& in_name_order(t)
            &&& forall|j: int| 0 <= j < t.len() ==> lowered((#[trigger] t[j]).0) == t[j].0
            &&& 0 <= i < h.len() && !has_colon(h[i].0) && h[i].0 != "content-length"@ ==> value(t, h[i].0) == Some(
                joined(h[i].1, ", "@),
            )
            &&& (forall|j: int| 0 <= j < h.len() ==> (#[trigger] h[j]).0 != name) && name != "content-length"@ ==> forall|
                j: int,
            |
                0 <= j < t.len() ==> (#[trigger] t[j]).0 != name
        }),
{
    let f = http2_fields(method, path, h, body_len);
    let t = http2_table(f, f.len() as int);
    law_http2_request_line(method, path, h, body_len);
    law_http2_table_holds(f, f.len() as int, 0);
    reveal_strlit("content-length");
    assert(lowered("content-length"@) =~= "content-length"@);
    assert forall|j: int| 0 <= j < t.len() implies lowered((#[trigger] t[j]).0) == t[j].0 && (t[j].0
        == "content-length"@ || exists|x: int| 0 <= x < h.len() && (#[trigger] h[x]).0 == t[j].0) by {
        let x = choose|x: int| 0 <= x < f.len() && #[trigger] f[x] == t[j];
        law_value_found(f, x);
        law_http2_request_carries_fields(method, path, h, body_len, t[j].0);
        lemma_colon_names();
    }
    if 0 <= i < h.len() && !has_colon(h[i].0) && h[i].0 != "content-length"@ {
        assert(h[i].1.len() > 0);
        law_http2_request_carries_fields(method, path, h, body_len, h[i].0);
        law_value_stands(f, h[i].0);
        let x = choose|x: int| 0 <= x < f.len() && #[trigger] f[x] == (h[i].0, joined(h[i].1, ", "@));
        assert forall|j: int| x < j < f.len() implies (#[trigger] f[j]).0 != f[x].0 by {
            assert(before(f[x].0, f[j].0));
            law_before_irreflexive(f[x].0);
        }
        law_http2_table_holds(f, f.len() as int, x);
    }
}

proof fn lemma_colon_names()
    ensures
        has_colon(":method"@) && has_colon(":path"@) && has_colon(":scheme"@) && has_colon(":authority"@),
{
    reveal_strlit(":method");
    reveal_strlit(":path");
    reveal_strlit(":scheme");
    reveal_strlit(":authority");
}

/// In a table whose names are in lower case, nothing is found under a name in lower case that no entry has.
proof fn lemma_lower_lack(t: FieldTable, name: Seq<char>, low: Seq<char>)
    requires
        forall|j: int| 0 <= j < t.len() ==> lowered((#[trigger] t[j]).0) == t[j].0,
        lowered(name) == low,
        forall|j: int| 0 <= j < t.len() ==> (#[trigger] t[j]).0 != low,
    ensures
        value_nocase(t, name) is None,
{
    law_value_nocase_stands(t, name);
}

/// A server of HTTP/2 takes the request that the client's header tells: the same method and path, and every field of
/// the request with all its values; its body is what was sent where no coding is named. It never passes such a
/// request over, and where nothing vouches for the body and the server asks for nothing, it accepts it.
pub proof fn law_http2_request_is_taken(
    server: HttpsServerCfg,
    method: HttpMethod,
    path: Seq<char>,
    h: Fields,
    body: Seq<u8>,
    plain: Option<Seq<u8>>,
    i: int,
)
    requires
        in_name_order(h),
        is_kept(h),
    ensures
        ({
            let got = stream_request(server, http2_fields(method, path, h, body.len()), body, plain);
            let plainly = forall|j: int| 0 <= j < h.len() ==> (#[trigger] h[j]).0 != "content-encoding"@;
            &&& got != Ok::<Option<RequestView>, RequestFault>(None)
            &&& got matches Ok(Some(q)) ==> {
                &&& q.method == method
                &&& q.path == path
                &&& 0 <= i < h.len() && !has_colon(h[i].0) && h[i].0 != "content-length"@ ==> field(q.headers, h[i].0)
                    == Some(joined(h[i].1, ", "@))
                &&& plainly ==> q.body == body
            }
            &&& plainly && (forall|j: int|
                0 <= j < h.len() ==> (#[trigger] h[j]).0 != "digest"@ && h[j].0 != "x-singularity-nonce"@) && (
            body.len() == 0 || !(server.require_request_digest || server.require_request_tag)) ==> got matches Ok(Some(_))
        }),
{
    let f = http2_fields(method, path, h, body.len());
    let t = http2_table(f, f.len() as int);
    law_http2_request_line(method, path, h, body.len());
    law_value_stands(f, ":path"@);
    law_value_stands(f, ":method"@);
    let p = choose|p: int|
        0 <= p < f.len() && #[trigger] f[p] == (":path"@, path) && forall|j: int| 0 <= j < p ==> (#[trigger] f[j]).0 != ":path"@;
    let m = choose|m: int|
        0 <= m < f.len() && #[trigger] f[m] == (":method"@, method_name(method)) && forall|j: int|
            0 <= j < m ==> (#[trigger] f[j]).0 != ":method"@;
    law_stream_request_line(server, f, body, plain, p, m);
    law_method_names(method);
    lemma_http2_arriving(method, path, h, body.len(), i, "content-encoding"@);
    lemma_http2_arriving(method, path, h, body.len(), i, "digest"@);
    lemma_http2_arriving(method, path, h, body.len(), i, "x-singularity-nonce"@);
    lemma_lower_names();
    if forall|j: int| 0 <= j < h.len() ==> (#[trigger] h[j]).0 != "content-encoding"@ {
        lemma_lower_lack(t, "content-encoding"@, "content-encoding"@);
    }
    if forall|j: int| 0 <= j < h.len() ==> (#[trigger] h[j]).0 != "digest"@ && h[j].0 != "x-singularity-nonce"@ {
        lemma_lower_lack(t, "digest"@, "digest"@);
        lemma_lower_lack(t, "X-Singularity-Nonce"@, "x-singularity-nonce"@);
    }
    if 0 <= i < h.len() && !has_colon(h[i].0) && h[i].0 != "content-length"@ {
        law_value_stands(t, h[i].0);
        let x = choose|x: int| 0 <= x < t.len() && #[trigger] t[x] == (h[i].0, joined(h[i].1, ", "@));
        assert forall|j: int| 0 <= j < t.len() && j != x implies lowered((#[trigger] t[j]).0) != lowered(t[x].0) by {
            if j < x {
                assert(before(t[j].0, t[x].0));
            } else {
                assert(before(t[x].0, t[j].0));
            }
            law_before_irreflexive(t[x].0);
        }
        law_accepted_request_is_what_was_read(
            server,
            method,
            path,
            HttpVersion::Http2,
            t,
            body,
            plain,
            x,
            CompressionAlgorithm::Identity,
        );
    }
}

proof fn lemma_lower_names()
    ensures
        lowered("content-encoding"@) == "content-encoding"@,
        lowered("digest"@) == "digest"@,
        lowered("X-Singularity-Nonce"@) == "x-singularity-nonce"@,
        lowered("Content-Length"@) == "content-length"@,
        "content-encoding"@ != "content-length"@,
        "digest"@ != "content-length"@,
        "x-singularity-nonce"@ != "content-length"@,
{
    reveal_strlit("content-encoding");
    reveal_strlit("digest");
    reveal_strlit("X-Singularity-Nonce");
    reveal_strlit("x-singularity-nonce");
    reveal_strlit("Content-Length");
    reveal_strlit("content-length");
    assert(lowered("content-encoding"@) =~= "content-encoding"@);
    assert(lowered("digest"@) =~= "digest"@);
    assert(lowered("X-Singularity-Nonce"@) =~= "x-singularity-nonce"@);
    assert(lowered("Content-Length"@) =~= "content-length"@);
    assert("content-encoding"@.len() == 16 && "content-length"@.len() == 14 && "digest"@.len() == 6
        && "x-singularity-nonce"@.len() == 19);
}

}
