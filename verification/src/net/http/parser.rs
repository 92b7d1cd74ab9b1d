//! Responses that are read from a connection piece by piece.
use vstd::prelude::*;

use crate::decimal::{
    decimal, is_digit, law_decimal_roundtrip, lemma_decimal_digits, parse_u16, parse_usize, parsed, to_decimal,
};
use crate::net::blob::{opt_bytes, seal, sealed, unseal, unsealed, BlobKind};
use crate::net::envelope::{contents, EnvelopeError, EnvelopeMeta, MetaView};
use crate::net::http::compression::{coding_name, select_any, selected, CompressionAlgorithm};
use crate::net::http::headers::{
    field, field_in, law_field_line, law_value_added, read_field, values_of, with_more, Fields, Headers,
};
use crate::net::http::message::{
    body_decoded, decode_body, digest_fault, law_decoded_body, verify_digest, MessageError,
};
use crate::net::http::response::{
    lemma_start_line, read_status_parts, response_of, response_wire, start_line, status_parts, FieldTable,
    HttpResponse, ResponseView,
};
use crate::net::http::version::{law_version_names, version_name, version_named, HttpVersion};
use crate::table::{
    before, in_name_order, law_before_irreflexive, law_put_in_order, law_put_value, law_value_found, law_value_stands, law_without_in_order,
    law_without_value, put, value, without, Table,
};
use crate::text::{
    char_texts, chars_of, contains_text, find, has_text, join, joined, lacks, lemma_find_from, lemma_find_is,
    lemma_find_none, lowered, occurs_at, string_of, to_lower, trimmed,
};
use crate::net::http::wire::clean;

verus! {

/// A status code.
#[derive(Debug, Clone, Copy, PartialEq, Eq, Structural)]
pub struct StatusCode {
    code: u16,
}

impl StatusCode {
    pub closed spec fn view(&self) -> u16 {
        self.code
    }

    pub fn new(code: u16) -> (r: Self)
        ensures
            r@ == code,
    {
        StatusCode { code }
    }

    pub fn code(&self) -> (r: u16)
        ensures
            r == self@,
    {
        self.code
    }
}

/// How far the body of a response reaches.
#[derive(Debug, Clone, Copy, PartialEq, Eq, Structural)]
pub enum BodyPlan {
    /// It is chunked.
    Chunked,
    /// It has so many octets.
    Sized(usize),
    /// It reaches to the end of the connection.
    UntilClose,
}

/// What a status line says; a phrase that is left out is empty.
pub open spec fn status_line(line: Seq<char>) -> Result<(HttpVersion, u16, Seq<char>), MessageError> {
    match status_parts(line) {
        None => Err(MessageError::BadStartLine),
        Some((first, second, third)) => match version_named(first) {
            None => Err(MessageError::BadVersion),
            Some(version) => match parsed(second, u16::MAX as nat) {
                None => Err(MessageError::BadStatus),
                Some(code) => Ok(
                    (
                        version,
                        code as u16,
                        match third {
                            Some(t) => t,
                            None => seq![],
                        },
                    ),
                ),
            },
        },
    }
}

/// A line without its line end.
pub open spec fn line_content(line: Seq<char>) -> Seq<char> {
    if line.len() >= 2 && line[line.len() - 2] == '\r' && line[line.len() - 1] == '\n' {
        line.take(line.len() - 2)
    } else if line.len() >= 1 && line[line.len() - 1] == '\n' {
        line.take(line.len() - 1)
    } else {
        line
    }
}

/// The fields that the first `n` header lines give; lines without a colon are passed over.
pub open spec fn fields_from(lines: Seq<String>, n: int) -> Fields
    decreases n,
{
    if n <= 0 {
        seq![]
    } else {
        match field_in(lines[n - 1]@) {
            Some((name, v)) => with_more(fields_from(lines, n - 1), name, v),
            None => fields_from(lines, n - 1),
        }
    }
}

/// How far the body reaches that fields announce.
pub open spec fn plan_of(h: Fields) -> BodyPlan {
    if field(h, "transfer-encoding"@) matches Some(t) && has_text(lowered(t), "chunked"@) {
        BodyPlan::Chunked
    } else {
        match field(h, "content-length"@) {
            Some(t) => match parsed(t, usize::MAX as nat) {
                Some(n) => BodyPlan::Sized(n as usize),
                None => BodyPlan::UntilClose,
            },
            None => BodyPlan::UntilClose,
        }
    }
}

/// Fields with one value each: several are put together with commas.
pub open spec fn merged(h: Fields, n: int) -> FieldTable
    decreases n,
{
    if n <= 0 {
        seq![]
    } else {
        put(merged(h, n - 1), h[n - 1].0, joined(h[n - 1].1, ", "@))
    }
}

/// The response that a status line, fields and a body as sent make; `plain` is what the codec made of
/// the body.
pub open spec fn assembled(
    version: HttpVersion,
    status: u16,
    reason: Seq<char>,
    h: Fields,
    body: Seq<u8>,
    plain: Option<Seq<u8>>,
) -> Result<ResponseView, MessageError> {
    let headers = merged(h, h.len() as int);
    if field(h, "digest"@) matches Some(d) && digest_fault(d, body) is Some {
        Err(digest_fault(field(h, "digest"@).unwrap(), body).unwrap())
    } else {
        match field(h, "content-encoding"@) {
            None => Ok(ResponseView { status, reason, version, headers, body }),
            Some(enc) => match body_decoded(enc, body, plain) {
                Err(e) => Err(e),
                Ok(b) => Ok(
                    ResponseView {
                        status,
                        reason,
                        version,
                        headers: put(
                            without(headers, "content-encoding"@),
                            "content-length"@,
                            decimal(b.len()),
                        ),
                        body: b,
                    },
                ),
            },
        }
    }
}

fn merge(headers: &Headers) -> (r: Table<String>)
    ensures
        r.inv(),
        r@ == merged(headers@, headers@.len() as int),
{
    let mut out: Table<String> = Table::new();
    let mut i: usize = 0;
    while i < headers.len()
        invariant
            i <= headers@.len(),
            out.inv(),
            out@ == merged(headers@, i as int),
        decreases headers@.len() - i,
    {
        let values = headers.values_at(i);
        let mut rows: Vec<Vec<char>> = Vec::new();
        let mut k: usize = 0;
        assert(char_texts(rows@) =~= values@.take(0));
        while k < values.len()
            invariant
                k <= values@.len(),
                char_texts(rows@) == values@.take(k as int),
            decreases values@.len() - k,
        {
            let ghost was = rows@;
            let row = chars_of(values.at(k));
            rows.push(row);
            assert(char_texts(rows@) =~= char_texts(was).push(row@));
            assert(values@.take(k as int).push(values@[k as int]) =~= values@.take(k + 1));
            k = k + 1;
        }
        assert(values@.take(values@.len() as int) =~= values@);
        let merged_value = string_of(join(&rows, ", ").as_slice());
        out.insert(headers.name_at(i).to_owned(), merged_value);
        i = i + 1;
    }
    out
}

/// Reads responses.
pub struct HttpParser;

impl HttpParser {
    /// Takes the line end off a line.
    pub fn trim_line(line: &str) -> (r: String)
        ensures
            r@ == line_content(line@),
    {
        let c = chars_of(line);
        let n: usize = c.len();
        if n >= 2 && c[n - 2] == '\r' && c[n - 1] == '\n' {
            let s = vstd::slice::slice_subrange(c.as_slice(), 0, n - 2);
            assert(s@ =~= line@.take(line@.len() - 2));
            string_of(s)
        } else if n >= 1 && c[n - 1] == '\n' {
            let s = vstd::slice::slice_subrange(c.as_slice(), 0, n - 1);
            assert(s@ =~= line@.take(line@.len() - 1));
            string_of(s)
        } else {
            string_of(c.as_slice())
        }
    }

    /// Reads a status line.
    pub fn parse_status_line(line: &str) -> (r: Result<(HttpVersion, StatusCode, String), MessageError>)
        ensures
            match r {
                Ok((version, status, reason)) => status_line(line@) == Ok::<
                    (HttpVersion, u16, Seq<char>),
                    MessageError,
                >((version, status@, reason@)),
                Err(e) => status_line(line@) == Err::<(HttpVersion, u16, Seq<char>), MessageError>(e),
            },
    {
        let c = chars_of(line);
        let (first, second, third) = match read_status_parts(c.as_slice()) {
            Some(parts) => parts,
            None => {
                return Err(MessageError::BadStartLine);
            },
        };
        let version = match HttpVersion::from_chars(first) {
            Some(v) => v,
            None => {
                return Err(MessageError::BadVersion);
            },
        };
        let code = match parse_u16(second) {
            Some(n) => n,
            None => {
                return Err(MessageError::BadStatus);
            },
        };
        let reason = match third {
            Some(t) => string_of(t),
            None => {
                let none = String::new();
                assert(none@ =~= seq![]);
                none
            },
        };
        Ok((version, StatusCode::new(code), reason))
    }

    /// Reads header lines.
    pub fn parse_headers(header_lines: &Vec<String>) -> (r: Headers)
        ensures
            r.inv(),
            r@ == fields_from(header_lines@, header_lines@.len() as int),
    {
        let mut headers = Headers::new();
        let mut i: usize = 0;
        while i < header_lines.len()
            invariant
                i <= header_lines@.len(),
                headers.inv(),
                headers@ == fields_from(header_lines@, i as int),
            decreases header_lines@.len() - i,
        {
            let c = chars_of(header_lines[i].as_str());
            match read_field(c.as_slice()) {
                Some((name, v)) => {
                    headers.append(string_of(name).as_str(), string_of(v).as_str());
                },
                None => {},
            }
            i = i + 1;
        }
        headers
    }

    /// Tells how far the body reaches that fields announce.
    pub fn body_plan(headers: &Headers) -> (r: BodyPlan)
        requires
            headers.inv(),
        ensures
            r == plan_of(headers@),
    {
        match headers.get("transfer-encoding") {
            Some(t) => {
                let lower = to_lower(chars_of(t).as_slice());
                if contains_text(lower.as_slice(), "chunked") {
                    return BodyPlan::Chunked;
                }
            },
            None => {},
        }
        match headers.get("content-length") {
            Some(t) => match parse_usize(chars_of(t).as_slice()) {
                Some(n) => BodyPlan::Sized(n),
                None => BodyPlan::UntilClose,
            },
            None => BodyPlan::UntilClose,
        }
    }

    /// Puts a response together. `plain` is what the codec of its content coding made of its body as
    /// sent, `None` where the codec failed; it is not looked at under the identity.
    pub fn assemble(
        version: HttpVersion,
        status: StatusCode,
        reason: String,
        headers: &Headers,
        wire_body: Vec<u8>,
        plain: Option<&[u8]>,
    ) -> (r: Result<HttpResponse, MessageError>)
        requires
            headers.inv(),
        ensures
            match r {
                Ok(q) => q.inv() && assembled(
                    version,
                    status@,
                    reason@,
                    headers@,
                    wire_body@,
                    opt_bytes(plain),
                ) == Ok::<ResponseView, MessageError>(q@),
                Err(e) => assembled(
                    version,
                    status@,
                    reason@,
                    headers@,
                    wire_body@,
                    opt_bytes(plain),
                ) == Err::<ResponseView, MessageError>(e),
            },
    {
        match headers.get("digest") {
            Some(d) => match verify_digest(d, wire_body.as_slice()) {
                Ok(()) => {},
                Err(e) => {
                    return Err(e);
                },
            },
            None => {},
        }
        let mut table = merge(headers);
        let body = match headers.get("content-encoding") {
            Some(enc) => match decode_body(enc, wire_body.as_slice(), plain) {
                Ok(b) => vstd::slice::slice_to_vec(b),
                Err(e) => {
                    return Err(e);
                },
            },
            None => {
                return Ok(HttpResponse::new(status.code(), reason, version, table, wire_body));
            },
        };
        table.remove("content-encoding");
        let size = string_of(to_decimal(body.len() as u64).as_slice());
        table.insert("content-length".to_owned(), size);
        Ok(HttpResponse::new(status.code(), reason, version, table, body))
    }

    /// See `decode_secure_http_response`.
    pub fn response_from_secure_blob(data: &[u8], plain: Option<&[u8]>, inner: Option<&[u8]>) -> (r: Result<
        (SecureParsedHttpResponseBlobMeta, HttpResponse),
        EnvelopeError,
    >)
        ensures
            match r {
                Ok((meta, q)) => q.inv() && response_unsealed(data@, opt_bytes(plain), opt_bytes(inner))
                    == Ok::<(MetaView, ResponseView), EnvelopeError>((meta@, q@)),
                Err(e) => response_unsealed(data@, opt_bytes(plain), opt_bytes(inner)) == Err::<
                    (MetaView, ResponseView),
                    EnvelopeError,
                >(e),
            },
    {
        decode_secure_http_response(data, plain, inner)
    }
}

/// The header of a blob with a response that was read.
pub type SecureParsedHttpResponseBlobMeta = EnvelopeMeta;

/// What a blob with a response that was read holds; `inner` is what the codec of the response's own content
/// coding made of its body.
pub open spec fn response_unsealed(data: Seq<u8>, plain: Option<Seq<u8>>, inner: Option<Seq<u8>>) -> Result<
    (MetaView, ResponseView),
    EnvelopeError,
> {
    match unsealed(BlobKind::ParsedResponse, data, plain) {
        Err(e) => Err(e),
        Ok((meta, raw)) => match response_of(raw, inner) {
            Ok(r) => Ok((meta, r)),
            Err(e) => Err(EnvelopeError::BadResponse(e)),
        },
    }
}

/// Chooses the coding for a blob with a response that was read from an `Accept-Encoding` value.
pub fn select_secure_http_parser_algorithm(accept_encoding: &str) -> (r: CompressionAlgorithm)
    ensures
        r == selected(accept_encoding@, true),
{
    select_any(accept_encoding)
}

/// Seals a response in a blob. `coded` is what the codec of `algorithm` made of the response on the
/// wire, `None` where the codec failed; it is not looked at under the identity.
pub fn encode_secure_http_response(
    response: &HttpResponse,
    algorithm: CompressionAlgorithm,
    coded: Option<&[u8]>,
    nonce: &[u8],
    issued_at_unix: u64,
) -> (r: Result<(SecureParsedHttpResponseBlobMeta, Vec<u8>), EnvelopeError>)
    ensures
        contents(r) == sealed(
            BlobKind::ParsedResponse,
            response_wire(response@),
            algorithm,
            opt_bytes(coded),
            nonce@,
            issued_at_unix as nat,
        ),
{
    let raw = response.to_bytes();
    seal(BlobKind::ParsedResponse, raw.as_slice(), algorithm, coded, nonce, issued_at_unix)
}

/// Seals a response in the coding chosen from an `Accept-Encoding` value.
pub fn encode_secure_http_response_auto(
    response: &HttpResponse,
    accept_encoding: &str,
    coded: Option<&[u8]>,
    nonce: &[u8],
    issued_at_unix: u64,
) -> (r: Result<(SecureParsedHttpResponseBlobMeta, Vec<u8>), EnvelopeError>)
    ensures
        contents(r) == sealed(
            BlobKind::ParsedResponse,
            response_wire(response@),
            selected(accept_encoding@, true),
            opt_bytes(coded),
            nonce@,
            issued_at_unix as nat,
        ),
{
    let algorithm = select_secure_http_parser_algorithm(accept_encoding);
    encode_secure_http_response(response, algorithm, coded, nonce, issued_at_unix)
}

/// Opens a blob. `plain` is what the codec made of the payload as sent, `inner` what the codec of the
/// response's own content coding made of its body; each is `None` where the codec failed, and not looked
/// at under the identity.
pub fn decode_secure_http_response(data: &[u8], plain: Option<&[u8]>, inner: Option<&[u8]>) -> (r: Result<
    (SecureParsedHttpResponseBlobMeta, HttpResponse),
    EnvelopeError,
>)
    ensures
        match r {
            Ok((meta, q)) => q.inv() && response_unsealed(data@, opt_bytes(plain), opt_bytes(inner)) == Ok::<
                (MetaView, ResponseView),
                EnvelopeError,
            >((meta@, q@)),
            Err(e) => response_unsealed(data@, opt_bytes(plain), opt_bytes(inner)) == Err::<
                (MetaView, ResponseView),
                EnvelopeError,
            >(e),
        },
{
    match unseal(BlobKind::ParsedResponse, data, plain) {
        Ok((meta, raw)) => match HttpResponse::from_bytes(raw.as_slice(), inner) {
            Ok(q) => Ok((meta, q)),
            Err(e) => Err(EnvelopeError::BadResponse(e)),
        },
        Err(e) => Err(e),
    }
}

proof fn lemma_merged(h: Fields, n: int, i: int)
    requires
        in_name_order(h),
        0 <= n <= h.len(),
    ensures
        in_name_order(merged(h, n)),
        0 <= i < n ==> value(merged(h, n), h[i].0) == Some(joined(h[i].1, ", "@)),
    decreases n,
{
    if n > 0 {
        lemma_merged(h, n - 1, i);
        let v = joined(h[n - 1].1, ", "@);
        law_put_in_order(merged(h, n - 1), h[n - 1].0, v);
        if 0 <= i < h.len() {
            law_put_value(merged(h, n - 1), h[n - 1].0, v, h[i].0);
        }
        if 0 <= i < n - 1 {
            law_value_found(h, i);
            law_value_found(h, n - 1);
            if h[i].0 == h[n - 1].0 {
                lemma_one_name(h, i, n - 1);
            }
        }
    }
}

proof fn lemma_one_name(h: Fields, i: int, j: int)
    requires
        in_name_order(h),
        0 <= i < j < h.len(),
    ensures
        h[i].0 != h[j].0,
{
    law_before_irreflexive(h[i].0);
    assert(before(h[i].0, h[j].0));
}

proof fn lemma_field_names()
    ensures
        lowered("content-encoding"@) == "content-encoding"@,
        lowered("digest"@) == "digest"@,
        "content-length"@ != "content-encoding"@,
{
    reveal_strlit("content-encoding");
    reveal_strlit("content-length");
    reveal_strlit("digest");
    assert(lowered("content-encoding"@) =~= "content-encoding"@);
    assert(lowered("digest"@) =~= "digest"@);
    assert("content-encoding"@.len() == 16 && "content-length"@.len() == 14);
}

/// A response keeps the version, the status and the phrase of its status line. Without a content coding its body is
/// the one that was sent and each field has its values, with commas between them. Under a coding its body is what the
/// codec made of the one that was sent, as it came under the identity; the field that named the coding is gone, the
/// length is that of the response's own body, and the other fields stay. It fails only on a digest, a coding that is
/// not known, or a codec that gives nothing.
pub proof fn law_assembled_response(
    version: HttpVersion,
    status: u16,
    reason: Seq<char>,
    h: Fields,
    body: Seq<u8>,
    plain: Option<Seq<u8>>,
    a: CompressionAlgorithm,
    c: int,
    i: int,
)
    requires
        in_name_order(h),
        0 <= i < h.len(),
    ensures
        ({
            let coded = 0 <= c < h.len() && h[c].0 == "content-encoding"@ && lowered(trimmed(h[c].1[0])) == coding_name(a);
            let bare = forall|j: int| 0 <= j < h.len() ==> (#[trigger] h[j]).0 != "content-encoding"@;
            let unsigned = forall|j: int| 0 <= j < h.len() ==> (#[trigger] h[j]).0 != "digest"@;
            match assembled(version, status, reason, h, body, plain) {
                Ok(q) => {
                    &&& q.version == version && q.status == status && q.reason == reason
                    &&& in_name_order(q.headers)
                    &&& bare ==> q.body == body && value(q.headers, h[i].0) == Some(joined(h[i].1, ", "@))
                    &&& coded && a == CompressionAlgorithm::Identity ==> q.body == body
                    &&& coded && a != CompressionAlgorithm::Identity ==> plain == Some(q.body)
                    &&& coded ==> value(q.headers, "content-length"@) == Some(decimal(q.body.len())) && value(
                        q.headers,
                        "content-encoding"@,
                    ) is None
                    &&& coded && h[i].0 != "content-encoding"@ && h[i].0 != "content-length"@ ==> value(
                        q.headers,
                        h[i].0,
                    ) == Some(joined(h[i].1, ", "@))
                },
                Err(e) => {
                    &&& !(unsigned && bare)
                    &&& unsigned && coded ==> a != CompressionAlgorithm::Identity && plain is None
                },
            }
        }),
{
    lemma_field_names();
    law_value_stands(h, "content-encoding"@);
    law_value_stands(h, "digest"@);
    let n = h.len() as int;
    let headers = merged(h, n);
    lemma_merged(h, n, i);
    if 0 <= c < h.len() && h[c].0 == "content-encoding"@ {
        law_value_found(h, c);
    }
    if let Some(enc) = field(h, "content-encoding"@) {
        law_decoded_body(enc, body, plain, a);
        let left = without(headers, "content-encoding"@);
        law_without_in_order(headers, "content-encoding"@);
        law_without_value(headers, "content-encoding"@, h[i].0);
        if let Ok(b) = body_decoded(enc, body, plain) {
            let d = decimal(b.len());
            law_put_in_order(left, "content-length"@, d);
            law_put_value(left, "content-length"@, d, h[i].0);
            law_put_value(left, "content-length"@, d, "content-encoding"@);
        }
    }
}

/// A status line gives its version, its status and its phrase; a phrase that is left out is empty.
pub proof fn law_status_line_is_read(v: HttpVersion, status: u16, phrase: Seq<char>)
    requires
        clean(phrase),
    ensures
        status_line(version_name(v) + " "@ + decimal(status as nat) + " "@ + phrase) == Ok::<
            (HttpVersion, u16, Seq<char>),
            MessageError,
        >((v, status, phrase)),
        status_line(version_name(v) + " "@ + decimal(status as nat)) == Ok::<
            (HttpVersion, u16, Seq<char>),
            MessageError,
        >((v, status, seq![])),
{
    let r = ResponseView { status, reason: phrase, version: v, headers: seq![], body: seq![] };
    lemma_start_line(r);
    assert(start_line(r) == version_name(v) + " "@ + decimal(status as nat) + " "@ + phrase);
    law_version_names(v);
    law_decimal_roundtrip(status as nat, u16::MAX as nat);
    lemma_decimal_digits(status as nat);
    let d = decimal(status as nat);
    let short = version_name(v) + " "@ + d;
    reveal_strlit(" ");
    let long = start_line(r);
    let n = version_name(v).len() as int;
    assert(find(long, ' ') == Some(n)) by {
        lemma_find_from(long, ' ', 0);
        lemma_version_solid(v);
        assert forall|j: int| 0 <= j < n implies long[j] != ' ' by {
            assert(long[j] == version_name(v)[j]);
        }
        lemma_find_is(long, ' ', n);
    }
    lemma_version_solid(v);
    assert forall|j: int| 0 <= j < n implies short[j] != ' ' by {
        assert(short[j] == version_name(v)[j]);
    }
    lemma_find_is(short, ' ', n);
    assert(short.take(n) =~= version_name(v));
    assert(short.skip(n + 1) =~= d);
    assert forall|j: int| 0 <= j < d.len() implies #[trigger] d[j] != ' ' by {
        assert(is_digit(d[j]));
    }
    lemma_find_none(d, ' ');
}

proof fn lemma_version_solid(v: HttpVersion)
    ensures
        lacks(version_name(v), ' '),
{
    reveal_strlit("HTTP/1.0");
    reveal_strlit("HTTP/1.1");
    reveal_strlit("HTTP/2.0");
    reveal_strlit("HTTP/3.0");
}

/// A line is read without its line end, be that a line feed or a carriage return with a line feed.
pub proof fn law_line_content(s: Seq<char>)
    requires
        s.len() > 0 ==> s.last() != '\r' && s.last() != '\n',
    ensures
        line_content(s) == s,
        line_content(s + seq!['\n']) == s,
        line_content(s + seq!['\r', '\n']) == s,
{
    assert((s + seq!['\n']).take(s.len() as int) =~= s);
    assert((s + seq!['\r', '\n']).take(s.len() as int) =~= s);
}

/// A header line with a colon adds its value behind those that stand under its name; one without a colon adds nothing.
pub proof fn law_header_line_adds(lines: Seq<String>, n: int, name: Seq<char>, v: Seq<char>, other: Seq<char>)
    requires
        0 < n <= lines.len(),
        lacks(name, ':'),
        lines[n - 1]@ == name + seq![':'] + v,
    ensures
        values_of(fields_from(lines, n), trimmed(name)) == values_of(fields_from(lines, n - 1), trimmed(name)).push(
            trimmed(v),
        ),
        lowered(other) != lowered(trimmed(name)) ==> values_of(fields_from(lines, n), other) == values_of(
            fields_from(lines, n - 1),
            other,
        ),
{
    law_field_line(name, v);
    lemma_fields_in_order(lines, n - 1);
    law_value_added(fields_from(lines, n - 1), trimmed(name), trimmed(v), trimmed(name));
    law_value_added(fields_from(lines, n - 1), trimmed(name), trimmed(v), other);
}

proof fn lemma_fields_in_order(lines: Seq<String>, n: int)
    ensures
        in_name_order(fields_from(lines, n)),
    decreases n,
{
    if n > 0 {
        lemma_fields_in_order(lines, n - 1);
        if let Some((name, v)) = field_in(lines[n - 1]@) {
            law_value_added(fields_from(lines, n - 1), name, v, name);
        }
    }
}

/// A body is chunked where the fields say so, whatever else they say; else it has as many octets as they tell, and
/// reaches to the end of the connection where they tell no number.
pub proof fn law_body_plan(h: Fields, n: usize)
    ensures
        field(h, "transfer-encoding"@) == Some("chunked"@) ==> plan_of(h) == BodyPlan::Chunked,
        field(h, "transfer-encoding"@) is None && field(h, "content-length"@) == Some(decimal(n as nat)) ==> plan_of(h)
            == BodyPlan::Sized(n),
        field(h, "transfer-encoding"@) is None && field(h, "content-length"@) is None ==> plan_of(h)
            == BodyPlan::UntilClose,
        plan_of(h) == BodyPlan::Chunked ==> field(h, "transfer-encoding"@) is Some,
        plan_of(h) matches BodyPlan::Sized(m) ==> field(h, "content-length"@) is Some && parsed(
            field(h, "content-length"@).unwrap(),
            usize::MAX as nat,
        ) == Some(m as nat),
{
    law_decimal_roundtrip(n as nat, usize::MAX as nat);
    let c = "chunked"@;
    reveal_strlit("chunked");
    assert(lowered(c) =~= c);
    assert(c.subrange(0, c.len() as int) =~= c);
    assert(occurs_at(lowered(c), c, 0));
}

}
