//! Why a server reads the request that was sent, and a client the response: line by line, a head comes out with
//! the fields with which the message was built, and the body with the length that they tell.
use vstd::prelude::*;
use vstd::utf8::{decode_utf8, encode_utf8, encode_utf8_decode_utf8, encode_utf8_valid_utf8, valid_utf8};

use crate::bytes::{hex, hex_digit};
use crate::crypto::sha256::{lemma_sha256_len, sha256_of};
use crate::decimal::{decimal, law_decimal_roundtrip, lemma_decimal_digits, parsed};
use crate::net::envelope::lemma_decimal_tidy;
use crate::net::http::compression::{coding_name, law_coding_names, CompressionAlgorithm};
use crate::net::http::headers::{field, fields_wire, with_field, Fields};
use crate::net::http::message::{body_coding, digest_value, law_own_digest, strict_digest_fault, MessageError};
use crate::net::http::method::{method_name, HttpMethod};
use crate::net::http::request::{
    all_sendable, built, lemma_fields_wire, lemma_names_long, lemma_with_defaults, lemma_with_integrity,
    lines_for, sent_fields, wire_body, with_defaults, RequestView,
};
use crate::net::http::response::{
    bare_line, is_sendable_field, is_transmissible, lemma_bare_line, lemma_crlf_front, lemma_response_received,
    response_of, response_received, response_wire, FieldTable, ResponseView,
};
use crate::net::http::server::{
    fields_of, finalized, head_in, lemma_measured, length_after, measured, request_head, request_line,
    response_coding, sent_response, served_method, served_request, typed, HeadView,
};
use crate::net::http::trailer::{is_forbidden, line_len, trailers_in, TrailerFault};
use crate::net::http::version::{version_name, HttpVersion};
use crate::net::http::wire::{
    clean, crlf, crlf_ended, lemma_crlf_octets, lemma_octets_lack, lemma_trimmed_blank, lemma_utf8_concat,
};
use crate::table::{
    before, in_name_order, law_before_irreflexive, law_before_transitive, law_put_in_order, lemma_put_entries,
    lemma_put_last, put, value, value_nocase, without,
};
use crate::text::{
    find, is_white, lacks, lemma_find_is, lemma_find_none, lemma_three_words, lemma_trimmed_solid, lowercase, lowered,
    same_nocase, solid, trimmed, trimmed_end, trimmed_start,
};

verus! {

proof fn lemma_line_break(a: Seq<u8>, rest: Seq<u8>)
    requires
        forall|i: int| 0 <= i < a.len() ==> #[trigger] a[i] != 10,
    ensures
        line_len(a + seq![10u8] + rest) == a.len() + 1,
    decreases a.len(),
{
    let s = a + seq![10u8] + rest;
    if a.len() > 0 {
        let b = a.skip(1);
        assert forall|i: int| 0 <= i < b.len() implies #[trigger] b[i] != 10 by {
            assert(b[i] == a[i + 1]);
        }
        lemma_line_break(b, rest);
        assert(s[0] == a[0]);
        assert(s.skip(1) =~= b + seq![10u8] + rest);
    } else {
        assert(s[0] == 10);
    }
}

/// The octets of a line stand before all others.
pub proof fn lemma_line_octets(l: Seq<char>, rest: Seq<u8>)
    requires
        lacks(l, '\n'),
    ensures
        ({
            let o = encode_utf8(l + crlf());
            let data = o + rest;
            &&& o.len() > 0
            &&& line_len(data) == o.len()
            &&& data.take(o.len() as int) == o
            &&& data.skip(o.len() as int) == rest
            &&& valid_utf8(o)
            &&& decode_utf8(o) == l + crlf()
        }),
{
    let o = encode_utf8(l + crlf());
    lemma_utf8_concat(l, crlf());
    lemma_crlf_octets();
    lemma_octets_lack(l, '\n');
    let a = encode_utf8(l) + seq![13u8];
    assert forall|i: int| 0 <= i < a.len() implies #[trigger] a[i] != 10 by {
        if i < encode_utf8(l).len() {
            assert(a[i] == encode_utf8(l)[i]);
        }
    }
    assert(o =~= a + seq![10u8]);
    lemma_line_break(a, rest);
    assert(o + rest =~= a + seq![10u8] + rest);
    assert((o + rest).take(o.len() as int) =~= o);
    assert((o + rest).skip(o.len() as int) =~= rest);
    encode_utf8_valid_utf8(l + crlf());
    encode_utf8_decode_utf8(l + crlf());
}

/// A line end is trimmed away.
pub proof fn lemma_trimmed_crlf(s: Seq<char>)
    ensures
        trimmed(s + crlf()) == trimmed(s),
    decreases s.len(),
{
    let t = s + crlf();
    if s.len() == 0 {
        assert(t =~= crlf());
        assert(is_white('\r') && is_white('\n'));
        assert(t.skip(1).skip(1) =~= seq![]);
        assert(trimmed_start(t) == trimmed_start(t.skip(1)));
        assert(trimmed_start(t.skip(1)) == trimmed_start(t.skip(1).skip(1)));
        assert(trimmed_start(s) == s && s =~= seq![]);
    } else if is_white(s[0]) {
        assert(t[0] == s[0]);
        assert(t.skip(1) =~= s.skip(1) + crlf());
        lemma_trimmed_crlf(s.skip(1));
    } else {
        assert(t[0] == s[0]);
        assert(is_white('\r') && is_white('\n'));
        assert(t.drop_last().drop_last() =~= s);
        assert(trimmed_end(t) == trimmed_end(t.drop_last()));
        assert(trimmed_end(t.drop_last()) == trimmed_end(t.drop_last().drop_last()));
    }
}

/// Text with a character that is not white space is not trimmed away.
pub proof fn lemma_trimmed_something(s: Seq<char>, i: int)
    requires
        0 <= i < s.len(),
        !is_white(s[i]),
    ensures
        trimmed(s).len() > 0,
    decreases s.len(),
{
    if is_white(s[0]) {
        assert(s.skip(1)[i - 1] == s[i]);
        lemma_trimmed_something(s.skip(1), i - 1);
    } else {
        lemma_end_something(s, 0);
    }
}

proof fn lemma_end_something(s: Seq<char>, i: int)
    requires
        0 <= i < s.len(),
        !is_white(s[i]),
    ensures
        trimmed_end(s).len() > 0,
    decreases s.len(),
{
    if is_white(s.last()) {
        assert(s.drop_last()[i] == s[i]);
        lemma_end_something(s.drop_last(), i);
    }
}

/// What a server reads in the line of a field.
proof fn lemma_field_line(name: Seq<char>, v: Seq<char>)
    requires
        is_sendable_field(name, v),
    ensures
        ({
            let line = bare_line((name, v)) + crlf();
            let n = name.len() as int;
            &&& trimmed(line).len() > 0
            &&& find(line, ':') == Some(n)
            &&& trimmed(line.take(n)) == name
            &&& trimmed(line.skip(n + 1)) == v
        }),
{
    reveal_strlit(": ");
    let line = bare_line((name, v)) + crlf();
    let n = name.len() as int;
    assert(line[n] == ':');
    assert forall|j: int| 0 <= j < n implies line[j] != ':' by {
        assert(line[j] == name[j]);
    }
    lemma_find_is(line, ':', n);
    lemma_trimmed_something(line, n);
    assert(line.take(n) =~= name);
    assert(line.skip(n + 1) =~= (seq![' '] + v) + crlf());
    lemma_trimmed_crlf(seq![' '] + v);
    lemma_trimmed_blank(v);
}

/// The fields as a table: one value under each name.
pub open spec fn table_of(h: Fields) -> FieldTable {
    h.map_values(|f: (Seq<char>, Seq<Seq<char>>)| (f.0, f.1[0]))
}

/// The length that the first `i` fields tell, where the one that tells it tells `n`.
pub open spec fn told_length(h: Fields, i: int, n: nat) -> nat
    decreases i,
{
    if i <= 0 {
        0
    } else if h[i - 1].0 == lowered("content-length"@) {
        n
    } else {
        told_length(h, i - 1, n)
    }
}

pub proof fn lemma_value_is(h: Fields, j: int)
    requires
        in_name_order(h),
        0 <= j < h.len(),
    ensures
        value(h, h[j].0) == Some(h[j].1),
    decreases h.len(),
{
    if j > 0 {
        let rest = h.skip(1);
        assert(before(h[0].0, h[j].0));
        law_before_irreflexive(h[j].0);
        assert forall|a: int, b: int| 0 <= a < b < rest.len() implies before(
            (#[trigger] rest[a]).0,
            (#[trigger] rest[b]).0,
        ) by {
            assert(before(h[a + 1].0, h[b + 1].0));
        }
        assert(rest[j - 1] == h[j]);
        lemma_value_is(rest, j - 1);
    }
}

pub proof fn lemma_value_at(h: Fields, name: Seq<char>) -> (j: int)
    ensures
        match value(h, name) {
            Some(v) => 0 <= j < h.len() && h[j] == (name, v),
            None => forall|k: int| 0 <= k < h.len() ==> (#[trigger] h[k]).0 != name,
        },
    decreases h.len(),
{
    if h.len() == 0 || h[0].0 == name {
        0
    } else {
        let rest = h.skip(1);
        let k = lemma_value_at(rest, name);
        assert(value(h, name) == value(rest, name));
        match value(h, name) {
            Some(v) => {
                assert(h[k + 1] == rest[k]);
            },
            None => {
                assert forall|i: int| 0 <= i < h.len() implies (#[trigger] h[i]).0 != name by {
                    if i > 0 {
                        assert(rest[i - 1] == h[i]);
                    }
                }
            },
        }
        k + 1
    }
}

/// Putting what stands there already changes nothing.
pub proof fn lemma_put_same(h: Fields, j: int)
    requires
        in_name_order(h),
        0 <= j < h.len(),
    ensures
        put(h, h[j].0, h[j].1) == h,
    decreases h.len(),
{
    let name = h[j].0;
    law_before_irreflexive(name);
    if j == 0 {
        assert(put(h, name, h[j].1) =~= h);
    } else {
        assert(before(h[0].0, name));
        if before(name, h[0].0) {
            law_before_transitive(name, h[0].0, name);
        }
        let rest = h.skip(1);
        assert forall|a: int, b: int| 0 <= a < b < rest.len() implies before(
            (#[trigger] rest[a]).0,
            (#[trigger] rest[b]).0,
        ) by {
            assert(before(h[a + 1].0, h[b + 1].0));
        }
        assert(rest[j - 1] == h[j]);
        lemma_put_same(rest, j - 1);
        assert(put(h, name, h[j].1) =~= h);
    }
}

pub proof fn lemma_told_length(h: Fields, n: nat)
    ensures
        told_length(h, h.len() as int, n) == (if field(h, "content-length"@) is Some {
            n
        } else {
            0
        }),
{
    let j = lemma_value_at(h, lowered("content-length"@));
    if field(h, "content-length"@) is Some {
        lemma_told_some(h, h.len() as int, j, n);
    } else {
        lemma_told_none(h, h.len() as int, n);
    }
}

proof fn lemma_told_some(h: Fields, i: int, j: int, n: nat)
    requires
        0 <= j < i <= h.len(),
        h[j].0 == lowered("content-length"@),
    ensures
        told_length(h, i, n) == n,
    decreases i,
{
    if h[i - 1].0 != lowered("content-length"@) {
        lemma_told_some(h, i - 1, j, n);
    }
}

proof fn lemma_told_none(h: Fields, i: int, n: nat)
    requires
        0 <= i <= h.len(),
        forall|k: int| 0 <= k < h.len() ==> (#[trigger] h[k]).0 != lowered("content-length"@),
    ensures
        told_length(h, i, n) == 0,
    decreases i,
{
    if i > 0 {
        assert(h[i - 1].0 != lowered("content-length"@));
        lemma_told_none(h, i - 1, n);
    }
}

/// A table of fields tells what the fields tell.
pub proof fn lemma_table_value(h: Fields, name: Seq<char>)
    requires
        forall|i: int| 0 <= i < h.len() ==> lowered((#[trigger] h[i]).0) == h[i].0,
    ensures
        value_nocase(table_of(h), name) == field(h, name),
    decreases h.len(),
{
    if h.len() > 0 {
        let rest = h.skip(1);
        assert forall|i: int| 0 <= i < rest.len() implies lowered((#[trigger] rest[i]).0) == rest[i].0 by {
            assert(rest[i] == h[i + 1]);
        }
        lemma_table_value(rest, name);
        assert(table_of(h).skip(1) =~= table_of(rest));
        assert(table_of(h)[0] == (h[0].0, h[0].1[0]));
        assert(lowered(h[0].0) == h[0].0);
    }
}

/// The fields of a table of fields are those fields.
pub proof fn lemma_fields_back(h: Fields, n: int)
    requires
        all_sendable(h),
        0 <= n <= h.len(),
    ensures
        fields_of(table_of(h), n) == h.take(n),
    decreases n,
{
    if n == 0 {
        assert(h.take(0) =~= seq![]);
    } else {
        lemma_fields_back(h, n - 1);
        let was = h.take(n - 1);
        let e = h[n - 1];
        assert(table_of(h)[n - 1] == (e.0, e.1[0]));
        assert(lowered(e.0) == e.0 && e.1.len() == 1);
        assert forall|j: int| 0 <= j < was.len() implies before((#[trigger] was[j]).0, e.0) by {
            assert(before(h[j].0, h[n - 1].0));
        }
        lemma_put_last(was, e.0, seq![e.1[0]]);
        assert(e.1 =~= seq![e.1[0]]);
        assert(was.push(e) =~= h.take(n));
    }
}

/// The octets of the lines of the fields from the `i`th on, and of the empty line behind them.
pub open spec fn lines_from(h: Fields, i: int) -> Seq<u8> {
    encode_utf8(crlf_ended(lines_for(h).skip(i)) + crlf())
}

/// A server that has read the first `i` lines reads the others.
pub proof fn lemma_head_read(h: Fields, i: int, n: nat, size: nat, body: Seq<u8>)
    requires
        all_sendable(h),
        0 <= i <= h.len(),
        forall|j: int|
            0 <= j < h.len() && (#[trigger] h[j]).0 == lowered("content-length"@) ==> parsed(
                h[j].1[0],
                usize::MAX as nat,
            ) == Some(n),
    ensures
        head_in(
            lines_from(h, i) + body,
            HeadView { headers: table_of(h).take(i), length: told_length(h, i, n), size },
        ) == Ok::<HeadView, MessageError>(
            HeadView {
                headers: table_of(h),
                length: told_length(h, h.len() as int, n),
                size: size + lines_from(h, i).len(),
            },
        ),
    decreases h.len() - i,
{
    let t = table_of(h);
    let l = lines_for(h);
    let data = lines_from(h, i) + body;
    let sofar = HeadView { headers: t.take(i), length: told_length(h, i, n), size };
    if i == h.len() {
        assert(l.skip(i) =~= seq![]);
        assert(crlf_ended(l.skip(i)) =~= seq![]);
        let none = Seq::<char>::empty();
        assert(crlf_ended(l.skip(i)) + crlf() =~= none + crlf());
        lemma_line_octets(none, body);
        lemma_trimmed_crlf(none);
        assert(trimmed_start(none) == none);
        assert(trimmed(none).len() == 0);
        assert(t.take(i) =~= t);
    } else {
        let e = h[i];
        assert(e.1.len() == 1 && lowered(e.0) == e.0);
        let name = e.0;
        let v = e.1[0];
        let line = bare_line((name, v));
        assert(l[i] == line);
        assert(l.skip(i) =~= seq![line] + l.skip(i + 1));
        lemma_crlf_front(line, l.skip(i + 1));
        let rest = lines_from(h, i + 1) + body;
        assert(crlf_ended(l.skip(i)) + crlf() =~= (line + crlf()) + (crlf_ended(l.skip(i + 1)) + crlf()));
        lemma_utf8_concat(line + crlf(), crlf_ended(l.skip(i + 1)) + crlf());
        let o = encode_utf8(line + crlf());
        assert(data =~= o + rest);
        lemma_bare_line((name, v));
        lemma_line_octets(line, rest);
        lemma_field_line(name, v);
        let was = t.take(i);
        assert forall|j: int| 0 <= j < was.len() implies before((#[trigger] was[j]).0, name) by {
            assert(was[j] == t[j]);
            assert(t[j] == (h[j].0, h[j].1[0]));
            assert(before(h[j].0, h[i].0));
        }
        lemma_put_last(was, name, v);
        assert(t[i] == (name, v));
        assert(was.push((name, v)) =~= t.take(i + 1));
        assert(length_after(name, v, told_length(h, i, n)) == told_length(h, i + 1, n));
        let next = HeadView {
            headers: t.take(i + 1),
            length: told_length(h, i + 1, n),
            size: size + o.len(),
        };
        assert(head_in(data, sofar) == head_in(rest, next));
        lemma_head_read(h, i + 1, n, size + o.len(), body);
    }
}

/// Whether a request can be sent to a server and read there: a server knows its method, its path is a word, its
/// fields can be sent, no content coding is named, a digest that is given is a SHA-256 digest of the body, and no
/// length is given where there is no body.
pub open spec fn is_servable(q: RequestView, host: Seq<char>) -> bool {
    &&& served_method(method_name(q.method)) == Some(q.method)
    &&& solid(q.path) && q.path.len() > 0
    &&& all_sendable(q.headers)
    &&& clean(host) && trimmed(host) == host
    &&& field(q.headers, "content-encoding"@) is None
    &&& field(q.headers, "digest"@) matches Some(d) ==> strict_digest_fault(d, q.body) is None
    &&& q.body.len() == 0 ==> field(q.headers, "content-length"@) is None
    &&& q.body.len() <= usize::MAX
}

proof fn lemma_start_line(q: RequestView, rest: Seq<u8>)
    requires
        served_method(method_name(q.method)) == Some(q.method),
        solid(q.path) && q.path.len() > 0,
    ensures
        ({
            let start = method_name(q.method) + " "@ + q.path + " "@ + version_name(q.version);
            let data = encode_utf8(start + crlf()) + rest;
            let n = line_len(data);
            &&& n == encode_utf8(start + crlf()).len()
            &&& data.skip(n) == rest
            &&& valid_utf8(data.take(n))
            &&& request_line(decode_utf8(data.take(n))) == Ok::<_, MessageError>((q.method, q.path))
        }),
{
    let m = method_name(q.method);
    let v = version_name(q.version);
    let start = m + " "@ + q.path + " "@ + v;
    reveal_strlit(" ");
    assert(" "@ =~= seq![' ']);
    lemma_names_solid(q.method, q.version);
    lemma_names_long(q.method, q.version);
    lemma_three_words(m, q.path, v);
    assert forall|j: int| 0 <= j < start.len() implies #[trigger] start[j] != '\n' by {
        assert(is_white('\n'));
        if j < m.len() {
            assert(start[j] == m[j]);
        } else if j > m.len() && j < m.len() + 1 + q.path.len() {
            assert(start[j] == q.path[j - m.len() - 1]);
        } else if j > m.len() + 1 + q.path.len() {
            assert(start[j] == v[j - m.len() - q.path.len() - 2]);
        }
    }
    lemma_line_octets(start, rest);
    lemma_trimmed_crlf(start);
    assert(start[0] == m[0]);
    assert(start.last() == v.last());
    lemma_trimmed_solid(start);
}

/// The names of methods and versions are words.
pub proof fn lemma_names_solid(m: HttpMethod, v: HttpVersion)
    ensures
        solid(method_name(m)),
        solid(version_name(v)),
{
    reveal_strlit("GET");
    reveal_strlit("POST");
    reveal_strlit("PUT");
    reveal_strlit("DELETE");
    reveal_strlit("HEAD");
    reveal_strlit("OPTIONS");
    reveal_strlit("PATCH");
    reveal_strlit("TRACE");
    reveal_strlit("CONNECT");
    reveal_strlit("HTTP/1.0");
    reveal_strlit("HTTP/1.1");
    reveal_strlit("HTTP/2.0");
    reveal_strlit("HTTP/3.0");
}

/// A server reads the request that was sent: the same method, path and body, and the fields with which it was
/// sent; the version comes out as HTTP/1.1.
pub proof fn law_sent_request_is_served(
    q: RequestView,
    host: Seq<char>,
    coded: Option<Seq<u8>>,
    max_body_size: nat,
    plain: Option<Seq<u8>>,
)
    requires
        is_servable(q, host),
        q.body.len() <= max_body_size,
    ensures
        served_request(built(q, host, true, coded), max_body_size, plain) == Ok::<RequestView, MessageError>(
            RequestView {
                version: HttpVersion::Http11,
                headers: sent_fields(q, host, true, coded),
                ..q
            },
        ),
{
    let full = with_defaults(q.headers, host);
    lemma_with_defaults(q.headers, host);
    assert(wire_body(full, q.body, coded) == q.body);
    let h = sent_fields(q, host, true, coded);
    lemma_with_integrity(full, q.body);
    law_own_digest(q.body);
    let n = q.body.len();
    law_decimal_roundtrip(n, usize::MAX as nat);
    let start = method_name(q.method) + " "@ + q.path + " "@ + version_name(q.version);
    reveal_strlit("\r\n");
    assert("\r\n"@ =~= crlf());
    lemma_fields_wire(h, h.len() as int);
    let l = lines_for(h);
    assert(l.take(h.len() as int) =~= l);
    assert(l.skip(0) =~= l);
    let o = encode_utf8(start + crlf());
    let rest = lines_from(h, 0) + q.body;
    lemma_utf8_concat(start + crlf(), crlf_ended(l) + crlf());
    assert(start + "\r\n"@ + fields_wire(h, h.len() as int) + "\r\n"@ =~= (start + crlf()) + (crlf_ended(l)
        + crlf()));
    let bytes = built(q, host, true, coded);
    assert(bytes =~= o + rest);
    lemma_start_line(q, rest);
    assert forall|j: int| 0 <= j < h.len() && (#[trigger] h[j]).0 == lowered("content-length"@) implies parsed(
        h[j].1[0],
        usize::MAX as nat,
    ) == Some(n) by {
        lemma_value_is(h, j);
        assert(field(h, "content-length"@) == Some(h[j].1[0]));
    }
    lemma_head_read(h, 0, n, o.len(), q.body);
    assert(table_of(h).take(0) =~= seq![]);
    lemma_told_length(h, n);
    let t = table_of(h);
    let size = o.len() + lines_from(h, 0).len();
    assert(request_head(bytes) == Ok::<_, MessageError>(
        (q.method, q.path, HeadView { headers: t, length: n, size }),
    ));
    assert(bytes.subrange(size as int, (size + n) as int) =~= q.body);
    lemma_table_value(h, "content-encoding"@);
    lemma_table_value(h, "digest"@);
    lemma_fields_back(h, h.len() as int);
    assert(h.take(h.len() as int) =~= h);
    if n > 0 {
        let j = lemma_value_at(h, lowered("content-length"@));
        assert(h[j].1.len() == 1);
        assert(h[j].1 =~= seq![decimal(n)]);
        lemma_put_same(h, j);
        lemma_length_names();
        assert(with_field(h, "Content-Length"@, decimal(n)) == h);
    }
}

pub proof fn lemma_length_names()
    ensures
        lowered("Content-Length"@) == lowered("content-length"@),
{
    reveal_strlit("Content-Length");
    reveal_strlit("content-length");
    assert(lowered("Content-Length"@) =~= lowered("content-length"@));
}

/// Whether fields whose name is like a name have that very name.
pub open spec fn named_only(h: FieldTable, name: Seq<char>) -> bool {
    forall|i: int| 0 <= i < h.len() && same_nocase((#[trigger] h[i]).0, name) ==> h[i].0 == name
}

/// What is put under a name is found under names like it, where no field has a name that is only like it.
pub proof fn lemma_put_found(h: FieldTable, name: Seq<char>, v: Seq<char>, other: Seq<char>)
    ensures
        named_only(h, name) && same_nocase(name, other) ==> value_nocase(put(h, name, v), other) == Some(v),
        !same_nocase(name, other) ==> value_nocase(put(h, name, v), other) == value_nocase(h, other),
    decreases h.len(),
{
    let out = put(h, name, v);
    if h.len() == 0 || before(name, h[0].0) {
        assert(out.skip(1) =~= h);
    } else {
        let rest = h.skip(1);
        if h[0].0 == name {
            assert(out.skip(1) =~= rest);
        } else {
            if named_only(h, name) {
                assert forall|i: int| 0 <= i < rest.len() && same_nocase((#[trigger] rest[i]).0, name) implies
                    rest[i].0 == name by {
                    assert(rest[i] == h[i + 1]);
                }
            }
            lemma_put_found(rest, name, v, other);
            assert(out.skip(1) =~= put(rest, name, v));
            assert(out[0] == h[0]);
        }
    }
}

/// Fields that can be sent still can with one more that can.
pub proof fn lemma_put_table(h: FieldTable, name: Seq<char>, v: Seq<char>)
    requires
        in_name_order(h),
        sendable_table(h),
        is_sendable_field(name, v),
    ensures
        in_name_order(put(h, name, v)),
        sendable_table(put(h, name, v)),
{
    law_put_in_order(h, name, v);
    lemma_put_entries(h, name, v);
    let out = put(h, name, v);
    assert forall|i: int| 0 <= i < out.len() implies is_sendable_field((#[trigger] out[i]).0, out[i].1) by {
        if out[i] != (name, v) {
            let k = choose|k: int| 0 <= k < h.len() && h[k] == out[i];
            assert(is_sendable_field(h[k].0, h[k].1));
        }
    }
}

/// What holds of fields that can be sent still holds with one more that can.
proof fn lemma_put_sendable(h: FieldTable, name: Seq<char>, v: Seq<char>, other: Seq<char>)
    requires
        in_name_order(h),
        sendable_table(h),
        is_sendable_field(name, v),
        named_only(h, other),
        same_nocase(name, other) ==> name == other,
    ensures
        in_name_order(put(h, name, v)),
        sendable_table(put(h, name, v)),
        named_only(put(h, name, v), other),
{
    lemma_put_table(h, name, v);
    lemma_put_entries(h, name, v);
    let out = put(h, name, v);
    assert forall|i: int| 0 <= i < out.len() && same_nocase((#[trigger] out[i]).0, other) implies out[i].0
        == other by {
        if out[i] != (name, v) {
            let k = choose|k: int| 0 <= k < h.len() && h[k] == out[i];
            assert(same_nocase(h[k].0, other));
        }
    }
}

/// Whether all fields can be sent.
pub open spec fn sendable_table(h: FieldTable) -> bool {
    forall|i: int| 0 <= i < h.len() ==> is_sendable_field((#[trigger] h[i]).0, h[i].1)
}

/// A name and a value without white space make a field that can be sent.
pub proof fn lemma_tidy_field(name: Seq<char>, v: Seq<char>)
    requires
        solid(name),
        lacks(name, ':'),
        solid(v),
    ensures
        is_sendable_field(name, v),
{
    assert(is_white('\r') && is_white('\n'));
    lemma_trimmed_solid(name);
    lemma_trimmed_solid(v);
    assert forall|j: int| 0 <= j < name.len() implies #[trigger] name[j] != '\r' && name[j] != '\n' by {
        assert(!is_white(name[j]));
    }
    assert forall|j: int| 0 <= j < v.len() implies #[trigger] v[j] != '\r' && v[j] != '\n' by {
        assert(!is_white(v[j]));
    }
}

/// The fields that a server adds can be sent.
proof fn lemma_own_fields(wire: Seq<u8>, a: CompressionAlgorithm)
    ensures
        is_sendable_field("Content-Type"@, "application/octet-stream"@),
        is_sendable_field("Content-Encoding"@, coding_name(a)),
        is_sendable_field("Content-Length"@, decimal(wire.len())),
        is_sendable_field("Digest"@, digest_value(wire)),
        is_sendable_field("X-Content-SHA256"@, hex(sha256_of(wire))),
{
    reveal_strlit("Content-Type");
    reveal_strlit("application/octet-stream");
    reveal_strlit("Content-Encoding");
    reveal_strlit("identity");
    reveal_strlit("gzip");
    reveal_strlit("deflate");
    reveal_strlit("br");
    reveal_strlit("zstd");
    reveal_strlit("Content-Length");
    reveal_strlit("Digest");
    reveal_strlit("X-Content-SHA256");
    reveal_strlit("SHA-256=");
    lemma_tidy_field("Content-Type"@, "application/octet-stream"@);
    lemma_tidy_field("Content-Encoding"@, coding_name(a));
    lemma_decimal_tidy(wire.len());
    lemma_decimal_digits(wire.len());
    lemma_tidy_field("Content-Length"@, decimal(wire.len()));
    law_own_digest(wire);
    assert(digest_value(wire).len() >= 8);
    lemma_tidy_field("Digest"@, digest_value(wire));
    let d = sha256_of(wire);
    lemma_sha256_len(wire);
    assert forall|j: int| 0 <= j < hex(d).len() implies !is_white(#[trigger] hex(d)[j]) by {
        lemma_hex_digit_solid(d[j / 2] as int / 16);
        lemma_hex_digit_solid(d[j / 2] as int % 16);
    }
    lemma_tidy_field("X-Content-SHA256"@, hex(d));
}

pub proof fn lemma_hex_digit_solid(n: int)
    requires
        0 <= n < 16,
    ensures
        !is_white(hex_digit(n)),
{
}

/// The names of the fields that a server adds differ in more than their case.
proof fn lemma_own_names()
    ensures
        same_nocase("Content-Length"@, "content-length"@),
        same_nocase("Digest"@, "digest"@),
        same_nocase("Content-Encoding"@, "content-encoding"@),
        lowered("Content-Type"@).len() == 12,
        lowered("Content-Length"@).len() == 14,
        lowered("content-length"@).len() == 14,
        lowered("Digest"@).len() == 6,
        lowered("digest"@).len() == 6,
        lowered("Content-Encoding"@).len() == 16,
        lowered("content-encoding"@).len() == 16,
        lowered("X-Content-SHA256"@).len() == 16,
        lowered("X-Content-SHA256"@)[0] == 'x',
        lowered("Content-Encoding"@)[0] == 'c',
        lowered("content-encoding"@)[0] == 'c',
{
    reveal_strlit("Content-Type");
    reveal_strlit("Content-Length");
    reveal_strlit("content-length");
    reveal_strlit("Digest");
    reveal_strlit("digest");
    reveal_strlit("Content-Encoding");
    reveal_strlit("content-encoding");
    reveal_strlit("X-Content-SHA256");
    assert(lowered("Content-Length"@) =~= lowered("content-length"@));
    assert(lowered("Digest"@) =~= lowered("digest"@));
    assert(lowered("Content-Encoding"@) =~= lowered("content-encoding"@));
}

/// What a client finds in the fields that a server measured.
proof fn lemma_measured_fields(h: FieldTable, wire: Seq<u8>)
    requires
        in_name_order(h),
        sendable_table(h),
        named_only(h, "Content-Length"@),
        named_only(h, "Digest"@),
    ensures
        in_name_order(measured(h, wire)),
        sendable_table(measured(h, wire)),
        value_nocase(measured(h, wire), "content-length"@) == Some(decimal(wire.len())),
        value_nocase(measured(h, wire), "digest"@) == Some(digest_value(wire)),
        value_nocase(measured(h, wire), "content-encoding"@) == value_nocase(h, "content-encoding"@),
{
    lemma_own_names();
    lemma_own_fields(wire, CompressionAlgorithm::Identity);
    let n = decimal(wire.len());
    let d = digest_value(wire);
    let x = hex(sha256_of(wire));
    let a = put(h, "Content-Length"@, n);
    let b = put(a, "Digest"@, d);
    lemma_put_found(h, "Content-Length"@, n, "content-length"@);
    lemma_put_found(h, "Content-Length"@, n, "content-encoding"@);
    lemma_put_sendable(h, "Content-Length"@, n, "Digest"@);
    lemma_put_found(a, "Digest"@, d, "content-length"@);
    lemma_put_found(a, "Digest"@, d, "digest"@);
    lemma_put_found(a, "Digest"@, d, "content-encoding"@);
    lemma_put_sendable(a, "Digest"@, d, "Digest"@);
    lemma_put_found(b, "X-Content-SHA256"@, x, "content-length"@);
    lemma_put_found(b, "X-Content-SHA256"@, x, "digest"@);
    lemma_put_found(b, "X-Content-SHA256"@, x, "content-encoding"@);
    lemma_put_sendable(b, "X-Content-SHA256"@, x, "Digest"@);
}

/// Whether a server can complete and send a response so that it is read: its phrase and fields have no line ends,
/// the handler set no content coding, and wrote length and digest, if at all, as the server writes their names.
pub open spec fn is_completable(r: ResponseView) -> bool {
    &&& clean(r.reason)
    &&& in_name_order(r.headers)
    &&& sendable_table(r.headers)
    &&& value_nocase(r.headers, "content-encoding"@) is None
    &&& named_only(r.headers, "Content-Length"@)
    &&& named_only(r.headers, "Digest"@)
    &&& r.body.len() <= usize::MAX
}

/// No name is like one under which nothing is found.
proof fn lemma_none_like(h: FieldTable, name: Seq<char>, other: Seq<char>)
    requires
        value_nocase(h, other) is None,
        same_nocase(name, other),
    ensures
        named_only(h, name),
        value(h, name) is None,
    decreases h.len(),
{
    if h.len() > 0 {
        let rest = h.skip(1);
        lemma_none_like(rest, name, other);
        assert forall|i: int| 0 <= i < h.len() && same_nocase((#[trigger] h[i]).0, name) implies h[i].0
            == name by {
            if i > 0 {
                assert(rest[i - 1] == h[i]);
            }
        }
    }
}

/// A coding's name is a word of its own.
pub proof fn lemma_coding_word(a: CompressionAlgorithm)
    requires
        a != CompressionAlgorithm::Identity,
    ensures
        body_coding(coding_name(a)) == Some(a),
{
    reveal_strlit("identity");
    reveal_strlit("gzip");
    reveal_strlit("deflate");
    reveal_strlit("br");
    reveal_strlit("zstd");
    let n = coding_name(a);
    lemma_trimmed_solid(n);
    assert(lowered(n) =~= n);
    law_coding_names(a);
    assert("identity"@.len() == 8);
}

/// The response that a server completed is sent as its fields tell.
proof fn lemma_completed(f: ResponseView, h: FieldTable)
    requires
        clean(f.reason),
        f.headers == measured(h, f.body),
        in_name_order(h),
        sendable_table(h),
        named_only(h, "Content-Length"@),
        named_only(h, "Digest"@),
        f.body.len() <= usize::MAX,
    ensures
        response_received(sent_response(f)) == Ok::<ResponseView, MessageError>(f),
        value_nocase(f.headers, "content-encoding"@) == value_nocase(h, "content-encoding"@),
{
    lemma_measured_fields(h, f.body);
    law_own_digest(f.body);
    law_decimal_roundtrip(f.body.len(), usize::MAX as nat);
    lemma_measured(h, f.body);
    assert(is_transmissible(f));
    lemma_response_received(f);
    assert(sent_response(f) =~= response_wire(f));
}

/// A client reads the response that a server completed: the same status, phrase, version and body, given that the
/// codec undoes what it did, and the fields with which the server sent it. Where a coding was undone, the length
/// is that of the plain body.
pub proof fn law_completed_response_is_read(
    r: ResponseView,
    chosen: Option<CompressionAlgorithm>,
    coded: Option<Seq<u8>>,
)
    requires
        is_completable(r),
        coded matches Some(c) ==> c.len() <= usize::MAX,
    ensures
        finalized(r, chosen, coded) matches Some(f) ==> response_of(sent_response(f), Some(r.body)) == Ok::<
            ResponseView,
            MessageError,
        >(
            ResponseView {
                status: r.status,
                reason: r.reason,
                version: r.version,
                headers: if response_coding(r, chosen) == CompressionAlgorithm::Identity {
                    f.headers
                } else {
                    put(
                        without(f.headers, "content-encoding"@),
                        "Content-Length"@,
                        decimal(r.body.len()),
                    )
                },
                body: r.body,
            },
        ),
{
    if let Some(f) = finalized(r, chosen, coded) {
        lemma_own_names();
        let a = response_coding(r, chosen);
        lemma_own_fields(f.body, a);
        let t = typed(r.headers);
        let kind = "application/octet-stream"@;
        lemma_put_found(r.headers, "Content-Type"@, kind, "content-encoding"@);
        lemma_put_sendable(r.headers, "Content-Type"@, kind, "Content-Length"@);
        lemma_put_sendable(r.headers, "Content-Type"@, kind, "Digest"@);
        if a == CompressionAlgorithm::Identity {
            lemma_completed(f, t);
        } else {
            let n = coding_name(a);
            let h = put(t, "Content-Encoding"@, n);
            lemma_none_like(t, "Content-Encoding"@, "content-encoding"@);
            lemma_put_found(t, "Content-Encoding"@, n, "content-encoding"@);
            lemma_put_sendable(t, "Content-Encoding"@, n, "Content-Length"@);
            lemma_put_sendable(t, "Content-Encoding"@, n, "Digest"@);
            lemma_completed(f, h);
            lemma_coding_word(a);
        }
    }
}

/// A line of a trailer gives the field that stands before and behind its first colon; where that field may not stand in
/// a trailer, or the line has no colon, the trailer is refused, and a blank line ends it.
pub proof fn law_trailer_line_is_read(
    name: Seq<char>,
    v: Seq<char>,
    rest: Seq<u8>,
    sofar: Seq<(Seq<char>, Seq<char>)>,
)
    requires
        lacks(name, ':') && lacks(name, '\n') && lacks(v, '\n'),
        trimmed(name).len() > 0,
    ensures
        trailers_in(encode_utf8(name + seq![':'] + v + crlf()) + rest, sofar) == (if is_forbidden(
            lowercase(trimmed(name)),
        ) {
            Err::<Seq<(Seq<char>, Seq<char>)>, TrailerFault>(TrailerFault::Forbidden(trimmed(name)))
        } else {
            trailers_in(rest, put(sofar, trimmed(name), trimmed(v)))
        }),
        trailers_in(encode_utf8(name + crlf()) + rest, sofar) == Err::<Seq<(Seq<char>, Seq<char>)>, TrailerFault>(
            TrailerFault::Malformed(trimmed(name)),
        ),
        trailers_in(encode_utf8(crlf()) + rest, sofar) == Ok::<Seq<(Seq<char>, Seq<char>)>, TrailerFault>(sofar),
{
    let l = name + seq![':'] + v;
    let line = l + crlf();
    let n = name.len() as int;
    assert forall|j: int| 0 <= j < l.len() implies #[trigger] l[j] != '\n' by {
        if j < n {
            assert(l[j] == name[j]);
        } else if j > n {
            assert(l[j] == v[j - n - 1]);
        }
    }
    lemma_line_octets(l, rest);
    lemma_line_octets(name, rest);
    let none = Seq::<char>::empty();
    lemma_line_octets(none, rest);
    assert(none + crlf() =~= crlf());
    assert(line =~= name + seq![':'] + (v + crlf()));
    assert forall|j: int| 0 <= j < n implies line[j] != ':' by {
        assert(line[j] == name[j]);
    }
    lemma_find_is(line, ':', n);
    assert(line.take(n) =~= name);
    assert(line.skip(n + 1) =~= v + crlf());
    lemma_trimmed_crlf(v);
    lemma_trimmed_crlf(l);
    lemma_trimmed_crlf(name);
    lemma_trimmed_crlf(none);
    lemma_trimmed_solid(none);
    lemma_not_blank(l, n);
    let bare = name + crlf();
    assert forall|j: int| 0 <= j < bare.len() implies #[trigger] bare[j] != ':' by {
        if j < n {
            assert(bare[j] == name[j]);
        }
    }
    lemma_find_none(bare, ':');
}

/// A text with something in it that is not white is not blank.
proof fn lemma_not_blank(s: Seq<char>, i: int)
    requires
        0 <= i < s.len(),
        !is_white(s[i]),
    ensures
        trimmed(s).len() > 0,
{
    lemma_start_holds(s, i);
    let t = trimmed_start(s);
    let j = choose|j: int| 0 <= j < t.len() && !is_white(#[trigger] t[j]);
    lemma_end_holds(t, j);
}

proof fn lemma_start_holds(s: Seq<char>, i: int)
    requires
        0 <= i < s.len(),
        !is_white(s[i]),
    ensures
        exists|j: int| 0 <= j < trimmed_start(s).len() && !is_white(#[trigger] trimmed_start(s)[j]),
    decreases s.len(),
{
    if is_white(s[0]) {
        assert(s.skip(1)[i - 1] == s[i]);
        lemma_start_holds(s.skip(1), i - 1);
        let t = trimmed_start(s.skip(1));
        let j = choose|j: int| 0 <= j < t.len() && !is_white(#[trigger] t[j]);
        assert(trimmed_start(s)[j] == t[j]);
    } else {
        assert(!is_white(trimmed_start(s)[0]));
    }
}

proof fn lemma_end_holds(s: Seq<char>, i: int)
    requires
        0 <= i < s.len(),
        !is_white(s[i]),
    ensures
        trimmed_end(s).len() > 0,
    decreases s.len(),
{
    if is_white(s.last()) {
        lemma_end_holds(s.drop_last(), i);
    }
}

/// A header line gives the field that stands before and behind its first colon, and the length of the body where it is
/// the field that tells it, whatever the case of its letters; a line without a colon gives nothing, and a blank line ends
/// the header. Every line counts to the size of the header.
pub proof fn law_head_line_is_read(name: Seq<char>, v: Seq<char>, rest: Seq<u8>, sofar: HeadView)
    requires
        lacks(name, ':') && lacks(name, '\n') && lacks(v, '\n'),
        trimmed(name).len() > 0,
    ensures
        ({
            let line = encode_utf8(name + seq![':'] + v + crlf());
            let told = lowered(trimmed(name)) == "content-length"@;
            &&& head_in(line + rest, sofar) == head_in(
                rest,
                HeadView {
                    headers: put(sofar.headers, trimmed(name), trimmed(v)),
                    length: if told {
                        match parsed(trimmed(v), usize::MAX as nat) {
                            Some(n) => n,
                            None => 0,
                        }
                    } else {
                        sofar.length
                    },
                    size: sofar.size + line.len(),
                },
            )
            &&& head_in(encode_utf8(name + crlf()) + rest, sofar) == head_in(
                rest,
                HeadView { size: sofar.size + encode_utf8(name + crlf()).len(), ..sofar },
            )
            &&& head_in(encode_utf8(crlf()) + rest, sofar) == Ok::<HeadView, MessageError>(
                HeadView { size: sofar.size + encode_utf8(crlf()).len(), ..sofar },
            )
        }),
{
    let l = name + seq![':'] + v;
    let line = l + crlf();
    let n = name.len() as int;
    assert forall|j: int| 0 <= j < l.len() implies #[trigger] l[j] != '\n' by {
        if j < n {
            assert(l[j] == name[j]);
        } else if j > n {
            assert(l[j] == v[j - n - 1]);
        }
    }
    lemma_line_octets(l, rest);
    lemma_line_octets(name, rest);
    let none = Seq::<char>::empty();
    lemma_line_octets(none, rest);
    assert(none + crlf() =~= crlf());
    assert(line =~= name + seq![':'] + (v + crlf()));
    assert forall|j: int| 0 <= j < n implies line[j] != ':' by {
        assert(line[j] == name[j]);
    }
    lemma_find_is(line, ':', n);
    assert(line.take(n) =~= name);
    assert(line.skip(n + 1) =~= v + crlf());
    lemma_trimmed_crlf(v);
    lemma_trimmed_crlf(l);
    lemma_trimmed_crlf(name);
    lemma_trimmed_crlf(none);
    lemma_trimmed_solid(none);
    lemma_not_blank(l, n);
    let bare = name + crlf();
    assert forall|j: int| 0 <= j < bare.len() implies #[trigger] bare[j] != ':' by {
        if j < n {
            assert(bare[j] == name[j]);
        }
    }
    lemma_find_none(bare, ':');
    reveal_strlit("content-length");
    assert(lowered("content-length"@) =~= "content-length"@);
}

}
