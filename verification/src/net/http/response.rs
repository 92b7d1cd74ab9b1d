//! Responses: how they are written to the wire, read from it, and sealed.
use vstd::prelude::*;
use vstd::slice::slice_subrange;
use vstd::string::StringSliceAdditionalSpecFns;
use vstd::utf8::{
    decode_utf8, encode_utf8, encode_utf8_decode_utf8, encode_utf8_valid_utf8, valid_utf8,
};

use crate::bytes::{find_bytes, push_bytes};
use crate::decimal::{
    decimal, hex_parsed, is_digit, law_decimal_roundtrip, lemma_decimal_digits, parse_hex, parse_u16,
    parse_usize, parsed, to_decimal,
};
use crate::net::blob::{law_blob_roundtrip, opt_bytes, seal, sealed, unseal, unsealed, BlobKind};
use crate::net::envelope::{
    contents, lemma_decimal_tidy, EnvelopeError, EnvelopeMeta, MetaView,
};
use crate::net::http::compression::{coding_name, select_any, selected, CompressionAlgorithm};
use crate::net::http::headers::{field_in, read_field};
use crate::net::http::message::{
    body_decoded, decode_body, digest_fault, law_decoded_body, verify_digest, MessageError,
};
use crate::net::http::version::{law_version_names, version_name, version_named, HttpVersion};
use crate::net::http::wire::{
    clean, crlf, crlf_ended, is_header_line, lemma_crlf_ended, lemma_crlf_octets, lemma_header_end_octets,
    lemma_header_lines, lemma_octets_lack, lemma_pass_lacking, lemma_trimmed_blank, lemma_utf8_concat,
};
use crate::table::{
    before, in_name_order, law_put_nocase, law_put_value, law_value_nocase_stands, law_without_in_order,
    law_without_value, lemma_put_last, put, value, value_nocase, without, Table,
};
use crate::text::{
    chars_of, contains_text, find, find_char, first_occurrence, has_text, head, is_text_nocase, joined,
    lacks, lemma_find_is, lemma_first_occurrence, lemma_trimmed_solid, lines, lines_of, lowercase, lowered,
    occurs_at, push_text, same_nocase, string_of, texts, trim, trimmed, unicode_lower, up_to,
    utf8_text,
};

verus! {

/// Fields of a response, by their names as they were given.
pub type FieldTable = Seq<(Seq<char>, Seq<char>)>;

/// A response.
#[derive(Debug, Clone)]
pub struct HttpResponse {
    status_code: u16,
    reason_phrase: String,
    version: HttpVersion,
    headers: Table<String>,
    body: Vec<u8>,
}

/// The contents of a response.
pub struct ResponseView {
    pub status: u16,
    pub reason: Seq<char>,
    pub version: HttpVersion,
    pub headers: FieldTable,
    pub body: Seq<u8>,
}

impl View for HttpResponse {
    type V = ResponseView;

    closed spec fn view(&self) -> ResponseView {
        ResponseView {
            status: self.status_code,
            reason: self.reason_phrase@,
            version: self.version,
            headers: self.headers@,
            body: self.body@,
        }
    }
}

/// The phrase that goes with a status code.
pub open spec fn reason_of(status: u16) -> Seq<char> {
    match status {
        100 => "Continue"@,
        101 => "Switching Protocols"@,
        200 => "OK"@,
        201 => "Created"@,
        202 => "Accepted"@,
        204 => "No Content"@,
        301 => "Moved Permanently"@,
        302 => "Found"@,
        303 => "See Other"@,
        304 => "Not Modified"@,
        307 => "Temporary Redirect"@,
        308 => "Permanent Redirect"@,
        400 => "Bad Request"@,
        401 => "Unauthorized"@,
        403 => "Forbidden"@,
        404 => "Not Found"@,
        405 => "Method Not Allowed"@,
        408 => "Request Timeout"@,
        500 => "Internal Server Error"@,
        501 => "Not Implemented"@,
        502 => "Bad Gateway"@,
        503 => "Service Unavailable"@,
        _ => "Unknown"@,
    }
}

/// A header line with its line end.
pub open spec fn wire_line(name: Seq<char>, v: Seq<char>) -> Seq<char> {
    name + ": "@ + v + "\r\n"@
}

/// The first `n` fields on the wire.
pub open spec fn table_wire(h: FieldTable, n: int) -> Seq<char>
    decreases n,
{
    if n <= 0 {
        seq![]
    } else {
        table_wire(h, n - 1) + wire_line(h[n - 1].0, h[n - 1].1)
    }
}

/// Whether a response has a body and does not tell its length.
pub open spec fn wants_length(r: ResponseView) -> bool {
    r.body.len() > 0 && value_nocase(r.headers, "content-length"@) is None
}

/// The line with the length of the body, where there is a body and its length is not given.
pub open spec fn length_line(r: ResponseView) -> Seq<char> {
    if wants_length(r) {
        wire_line("Content-Length"@, decimal(r.body.len()))
    } else {
        seq![]
    }
}

/// The header of a response on the wire.
pub open spec fn response_header(r: ResponseView) -> Seq<char> {
    version_name(r.version) + " "@ + decimal(r.status as nat) + " "@ + r.reason + "\r\n"@ + table_wire(
        r.headers,
        r.headers.len() as int,
    ) + length_line(r) + "\r\n"@
}

/// A response on the wire.
pub open spec fn response_wire(r: ResponseView) -> Seq<u8> {
    encode_utf8(response_header(r)) + r.body
}

/// The parts of a status line: what stands before the first blank, between it and the second, and
/// behind the second.
pub open spec fn status_parts(line: Seq<char>) -> Option<
    (Seq<char>, Seq<char>, Option<Seq<char>>),
> {
    match find(line, ' ') {
        None => None,
        Some(i) => {
            let rest = line.skip(i + 1);
            match find(rest, ' ') {
                None => Some((line.take(i), rest, None)),
                Some(j) => Some((line.take(i), rest.take(j), Some(rest.skip(j + 1)))),
            }
        },
    }
}

/// Reads the parts of a status line.
pub fn read_status_parts<'a>(line: &'a [char]) -> (r: Option<
    (&'a [char], &'a [char], Option<&'a [char]>),
>)
    ensures
        match r {
            Some((a, b, Some(c))) => status_parts(line@) == Some((a@, b@, Some(c@))),
            Some((a, b, None)) => status_parts(line@) == Some((a@, b@, None::<Seq<char>>)),
            None => status_parts(line@) is None,
        },
{
    let end: usize = line.len();
    match find_char(line, ' ') {
        None => None,
        Some(i) => {
            let first = slice_subrange(line, 0, i);
            let rest = slice_subrange(line, i + 1, end);
            assert(first@ =~= line@.take(i as int));
            assert(rest@ =~= line@.skip(i + 1));
            let stop: usize = rest.len();
            match find_char(rest, ' ') {
                None => Some((first, rest, None)),
                Some(j) => {
                    let second = slice_subrange(rest, 0, j);
                    let third = slice_subrange(rest, j + 1, stop);
                    assert(second@ =~= rest@.take(j as int));
                    assert(third@ =~= rest@.skip(j + 1));
                    Some((first, second, Some(third)))
                },
            }
        },
    }
}

/// The fields that header lines from `i` on give, up to an empty line.
pub open spec fn table_set(lines: Seq<Seq<char>>, h: FieldTable, i: int) -> Result<
    FieldTable,
    MessageError,
>
    decreases lines.len() - i,
{
    if i < 0 || i >= lines.len() || lines[i].len() == 0 {
        Ok(h)
    } else {
        match field_in(lines[i]) {
            Some((name, v)) => table_set(lines, put(h, name, v), i + 1),
            None => Err(MessageError::BadHeaderLine),
        }
    }
}

/// Reads header lines.
pub fn read_table(rows: &Vec<&[char]>, from: usize) -> (r: Result<Table<String>, MessageError>)
    ensures
        match r {
            Ok(h) => h.inv() && table_set(texts(rows@), seq![], from as int) == Ok::<
                FieldTable,
                MessageError,
            >(h@),
            Err(e) => table_set(texts(rows@), seq![], from as int) == Err::<FieldTable, MessageError>(
                e,
            ),
        },
{
    let ghost all = texts(rows@);
    let mut headers: Table<String> = Table::new();
    let mut i: usize = from;
    while i < rows.len()
        invariant
            all == texts(rows@),
            headers.inv(),
            table_set(all, headers@, i as int) == table_set(all, seq![], from as int),
        decreases rows@.len() - i,
    {
        let line = rows[i];
        assert(all[i as int] == line@);
        if line.len() == 0 {
            return Ok(headers);
        }
        match read_field(line) {
            Some((name, v)) => {
                headers.insert(string_of(name), string_of(v));
            },
            None => {
                return Err(MessageError::BadHeaderLine);
            },
        }
        i = i + 1;
    }
    Ok(headers)
}

/// The size that the line before a chunk gives; the line stands without its end.
pub open spec fn chunk_size(line: Seq<u8>) -> Result<nat, MessageError> {
    if !valid_utf8(line) {
        Err(MessageError::ChunkSizeNotUtf8)
    } else {
        match hex_parsed(trimmed(head(decode_utf8(line), ';')), usize::MAX as nat) {
            None => Err(MessageError::BadChunkSize),
            Some(n) => Ok(n),
        }
    }
}

/// Reads the size that the line before a chunk gives.
pub fn read_chunk_size(line: &[u8]) -> (r: Result<usize, MessageError>)
    ensures
        match r {
            Ok(n) => chunk_size(line@) == Ok::<nat, MessageError>(n as nat),
            Err(e) => chunk_size(line@) == Err::<nat, MessageError>(e),
        },
{
    let text = match utf8_text(line) {
        Some(t) => t,
        None => {
            return Err(MessageError::ChunkSizeNotUtf8);
        },
    };
    let chars = chars_of(text.as_str());
    match parse_hex(trim(up_to(chars.as_slice(), ';'))) {
        Some(n) => Ok(n),
        None => Err(MessageError::BadChunkSize),
    }
}

/// The octets that a chunked body holds.
pub open spec fn dechunked(data: Seq<u8>) -> Result<Seq<u8>, MessageError>
    decreases data.len(),
{
    proof {
        lemma_first_occurrence(data, seq![13u8, 10u8], 0);
    }
    match first_occurrence(data, seq![13u8, 10u8], 0) {
        None => Err(MessageError::ChunkSizeUnended),
        Some(i) => match chunk_size(data.take(i)) {
            Err(e) => Err(e),
            Ok(n) => {
                let rest = data.skip(i + 2);
                if n == 0 {
                    Ok(seq![])
                } else if n > rest.len() {
                    Err(MessageError::ChunkTooLong)
                } else {
                    let after = rest.skip(n as int);
                    if after.len() < 2 || after.take(2) != seq![13u8, 10u8] {
                        Err(MessageError::ChunkUnended)
                    } else {
                        match dechunked(after.skip(2)) {
                            Ok(tail) => Ok(rest.take(n as int) + tail),
                            Err(e) => Err(e),
                        }
                    }
                }
            },
        },
    }
}

/// Reads a chunked body.
pub fn decode_chunked(data: &[u8]) -> (r: Result<Vec<u8>, MessageError>)
    ensures
        match r {
            Ok(b) => dechunked(data@) == Ok::<Seq<u8>, MessageError>(b@),
            Err(e) => dechunked(data@) == Err::<Seq<u8>, MessageError>(e),
        },
{
    let mark: [u8; 2] = [13, 10];
    assert(mark@ =~= seq![13u8, 10u8]);
    let end: usize = data.len();
    let mut out: Vec<u8> = Vec::new();
    let mut pos: usize = 0;
    assert(data@.skip(0) =~= data@);
    proof {
        match dechunked(data@) {
            Ok(t) => {
                assert(out@ + t =~= t);
            },
            Err(e) => {},
        }
    }
    loop
        invariant
            pos <= end == data@.len(),
            mark@ == seq![13u8, 10u8],
            match dechunked(data@.skip(pos as int)) {
                Ok(t) => dechunked(data@) == Ok::<Seq<u8>, MessageError>(out@ + t),
                Err(e) => dechunked(data@) == Err::<Seq<u8>, MessageError>(e),
            },
        decreases end - pos,
    {
        let now = slice_subrange(data, pos, end);
        assert(now@ =~= data@.skip(pos as int));
        let i = match find_bytes(now, mark.as_slice()) {
            Some(i) => i,
            None => {
                return Err(MessageError::ChunkSizeUnended);
            },
        };
        let size_octets = slice_subrange(now, 0, i);
        assert(size_octets@ =~= now@.take(i as int));
        let n = match read_chunk_size(size_octets) {
            Ok(n) => n,
            Err(e) => {
                return Err(e);
            },
        };
        let stop: usize = now.len();
        let rest = slice_subrange(now, i + 2, stop);
        assert(rest@ =~= now@.skip(i + 2));
        if n == 0 {
            assert(out@ + seq![] =~= out@);
            return Ok(out);
        }
        if n > rest.len() {
            return Err(MessageError::ChunkTooLong);
        }
        let left: usize = rest.len();
        let after = slice_subrange(rest, n, left);
        assert(after@ =~= rest@.skip(n as int));
        if after.len() < 2 {
            return Err(MessageError::ChunkUnended);
        }
        assert(after@.take(2) =~= seq![after@[0], after@[1]]);
        if after[0] != 13 || after[1] != 10 {
            assert(after@.take(2)[0] == after@[0] && after@.take(2)[1] == after@[1]);
            return Err(MessageError::ChunkUnended);
        }
        let chunk = slice_subrange(rest, 0, n);
        assert(chunk@ =~= rest@.take(n as int));
        let ghost was = out@;
        push_bytes(&mut out, chunk);
        let ghost next = pos + i + 2 + n + 2;
        assert(data@.skip(next) =~= after@.skip(2));
        proof {
            match dechunked(after@.skip(2)) {
                Ok(t) => {
                    assert(was + (chunk@ + t) =~= out@ + t);
                },
                Err(e) => {},
            }
        }
        pos = pos + i + 2 + n + 2;
    }
}

/// The body as sent, which the fields part from what follows it.
pub open spec fn body_sent(h: FieldTable, rest: Seq<u8>) -> Result<Seq<u8>, MessageError> {
    if rest.len() == 0 {
        Ok(seq![])
    } else {
        match value_nocase(h, "content-length"@) {
            Some(t) => match parsed(t, usize::MAX as nat) {
                None => Err(MessageError::BadContentLength),
                Some(n) => if n > rest.len() {
                    Err(MessageError::BodyTooShort)
                } else {
                    Ok(rest.take(n as int))
                },
            },
            None => match value_nocase(h, "transfer-encoding"@) {
                Some(t) => if same_nocase(t, "chunked"@) {
                    dechunked(rest)
                } else {
                    Ok(rest)
                },
                None => Ok(rest),
            },
        }
    }
}

/// Reads the body as sent.
pub fn read_body(headers: &Table<String>, rest: &[u8]) -> (r: Result<Vec<u8>, MessageError>)
    ensures
        match r {
            Ok(b) => body_sent(headers@, rest@) == Ok::<Seq<u8>, MessageError>(b@),
            Err(e) => body_sent(headers@, rest@) == Err::<Seq<u8>, MessageError>(e),
        },
{
    if rest.len() == 0 {
        let none: Vec<u8> = Vec::new();
        assert(none@ =~= seq![]);
        return Ok(none);
    }
    match headers.get_nocase("content-length") {
        Some(t) => match parse_usize(chars_of(t.as_str()).as_slice()) {
            None => Err(MessageError::BadContentLength),
            Some(n) => {
                if n > rest.len() {
                    Err(MessageError::BodyTooShort)
                } else {
                    let b = slice_subrange(rest, 0, n);
                    assert(b@ =~= rest@.take(n as int));
                    Ok(vstd::slice::slice_to_vec(b))
                }
            },
        },
        None => match headers.get_nocase("transfer-encoding") {
            Some(t) => {
                if is_text_nocase(chars_of(t.as_str()).as_slice(), "chunked") {
                    decode_chunked(rest)
                } else {
                    Ok(vstd::slice::slice_to_vec(rest))
                }
            },
            None => Ok(vstd::slice::slice_to_vec(rest)),
        },
    }
}

/// The response whose header is `header`, before what follows it; its body is empty.
pub open spec fn response_head(header: Seq<char>) -> Result<ResponseView, MessageError> {
    let rows = lines_of(header);
    if rows.len() == 0 {
        Err(MessageError::Empty)
    } else {
        match status_parts(rows[0]) {
            None => Err(MessageError::BadStartLine),
            Some((first, second, third)) => match version_named(first) {
                None => Err(MessageError::BadVersion),
                Some(version) => match parsed(second, u16::MAX as nat) {
                    None => Err(MessageError::BadStatus),
                    Some(status) => match table_set(rows, seq![], 1) {
                        Err(e) => Err(e),
                        Ok(headers) => Ok(
                            ResponseView {
                                status: status as u16,
                                reason: match third {
                                    Some(t) => t,
                                    None => reason_of(status as u16),
                                },
                                version,
                                headers,
                                body: seq![],
                            },
                        ),
                    },
                },
            },
        }
    }
}

/// The response that octets hold, its body as sent: header and body parted by the first empty line, the
/// digest, where one is given, that of the body.
pub open spec fn response_received(bytes: Seq<u8>) -> Result<ResponseView, MessageError> {
    match first_occurrence(bytes, seq![13u8, 10u8, 13u8, 10u8], 0) {
        None => Err(MessageError::NoHeaderEnd),
        Some(i) => if !valid_utf8(bytes.take(i)) {
            Err(MessageError::NotUtf8)
        } else {
            match response_head(decode_utf8(bytes.take(i))) {
                Err(e) => Err(e),
                Ok(r) => match body_sent(r.headers, bytes.skip(i + 4)) {
                    Err(e) => Err(e),
                    Ok(body) => match value_nocase(r.headers, "digest"@) {
                        Some(d) => match digest_fault(d, body) {
                            Some(e) => Err(e),
                            None => Ok(ResponseView { body, ..r }),
                        },
                        None => Ok(ResponseView { body, ..r }),
                    },
                },
            }
        },
    }
}

/// The response that octets hold; `plain` is what the codec made of its body.
pub open spec fn response_of(bytes: Seq<u8>, plain: Option<Seq<u8>>) -> Result<
    ResponseView,
    MessageError,
> {
    match response_received(bytes) {
        Err(e) => Err(e),
        Ok(r) => match value_nocase(r.headers, "content-encoding"@) {
            None => Ok(r),
            Some(enc) => match body_decoded(enc, r.body, plain) {
                Err(e) => Err(e),
                Ok(body) => Ok(
                    ResponseView {
                        headers: put(
                            without(r.headers, "content-encoding"@),
                            "Content-Length"@,
                            decimal(body.len()),
                        ),
                        body,
                        ..r
                    },
                ),
            },
        },
    }
}

/// Whether a response says that the connection is to be closed.
pub open spec fn says_close(h: FieldTable) -> bool {
    value_nocase(h, "Connection"@) matches Some(v) && has_text(lowercase(v), "close"@)
}

impl HttpResponse {
    /// What holds of every response: its fields stand once, in order.
    pub open spec fn inv(&self) -> bool {
        in_name_order(self@.headers)
    }

    pub fn new(
        status_code: u16,
        reason_phrase: String,
        version: HttpVersion,
        headers: Table<String>,
        body: Vec<u8>,
    ) -> (r: Self)
        requires
            headers.inv(),
        ensures
            r.inv(),
            r@ == (ResponseView {
                status: status_code,
                reason: reason_phrase@,
                version,
                headers: headers@,
                body: body@,
            }),
    {
        HttpResponse { status_code, reason_phrase, version, headers, body }
    }

    pub fn status_code(&self) -> (r: u16)
        ensures
            r == self@.status,
    {
        self.status_code
    }

    pub fn reason_phrase(&self) -> (r: &str)
        ensures
            r@ == self@.reason,
    {
        self.reason_phrase.as_str()
    }

    pub fn version(&self) -> (r: HttpVersion)
        ensures
            r == self@.version,
    {
        self.version
    }

    pub fn headers(&self) -> (r: &Table<String>)
        ensures
            r@ == self@.headers,
    {
        &self.headers
    }

    pub fn body(&self) -> (r: &[u8])
        ensures
            r@ == self@.body,
    {
        self.body.as_slice()
    }

    /// The body as text, where it is valid UTF-8.
    pub fn body_as_string(&self) -> (r: Option<String>)
        ensures
            match r {
                Some(s) => valid_utf8(self@.body) && s@ == decode_utf8(self@.body),
                None => !valid_utf8(self@.body),
            },
    {
        utf8_text(self.body.as_slice())
    }

    pub fn is_success(&self) -> (r: bool)
        ensures
            r == (200 <= self@.status < 300),
    {
        200 <= self.status_code && self.status_code < 300
    }

    pub fn is_redirect(&self) -> (r: bool)
        ensures
            r == (self@.status == 301 || self@.status == 302 || self@.status == 303 || self@.status == 307
                || self@.status == 308),
    {
        self.status_code == 301 || self.status_code == 302 || self.status_code == 303
            || self.status_code == 307 || self.status_code == 308
    }

    pub fn is_client_error(&self) -> (r: bool)
        ensures
            r == (400 <= self@.status < 500),
    {
        400 <= self.status_code && self.status_code < 500
    }

    pub fn is_server_error(&self) -> (r: bool)
        ensures
            r == (500 <= self@.status < 600),
    {
        500 <= self.status_code && self.status_code < 600
    }

    /// The value of a field, whatever the case of its name.
    pub fn header(&self, key: &str) -> (r: Option<&String>)
        ensures
            match r {
                Some(v) => value_nocase(self@.headers, key@) == Some(v@),
                None => value_nocase(self@.headers, key@) is None,
            },
    {
        self.headers.get_nocase(key)
    }

    /// The response on the wire.
    pub fn to_bytes(&self) -> (r: Vec<u8>)
        ensures
            r@ == response_wire(self@),
    {
        let mut head = chars_of(self.version.as_str());
        push_text(&mut head, " ");
        crate::text::push_chars(&mut head, to_decimal(self.status_code as u64).as_slice());
        push_text(&mut head, " ");
        push_text(&mut head, self.reason_phrase.as_str());
        push_text(&mut head, "\r\n");
        let ghost start = head@;
        let mut i: usize = 0;
        assert(head@ =~= start + table_wire(self@.headers, 0));
        while i < self.headers.len()
            invariant
                i <= self@.headers.len(),
                head@ == start + table_wire(self@.headers, i as int),
            decreases self@.headers.len() - i,
        {
            push_wire_line(&mut head, self.headers.name_at(i), self.headers.value_at(i).as_str());
            i = i + 1;
            assert(head@ =~= start + table_wire(self@.headers, i as int));
        }
        if self.body.len() > 0 && self.headers.get_nocase("content-length").is_none() {
            let size = string_of(to_decimal(self.body.len() as u64).as_slice());
            push_wire_line(&mut head, "Content-Length", size.as_str());
        }
        push_text(&mut head, "\r\n");
        assert(head@ =~= response_header(self@));
        let text = string_of(head.as_slice());
        let mut bytes = vstd::slice::slice_to_vec(text.as_str().as_bytes());
        push_bytes(&mut bytes, self.body.as_slice());
        bytes
    }

    fn read_head(header: &[char]) -> (r: Result<Self, MessageError>)
        ensures
            match r {
                Ok(q) => q.inv() && response_head(header@) == Ok::<ResponseView, MessageError>(q@),
                Err(e) => response_head(header@) == Err::<ResponseView, MessageError>(e),
            },
    {
        let rows = lines(header);
        let ghost all = lines_of(header@);
        if rows.len() == 0 {
            return Err(MessageError::Empty);
        }
        assert(all[0] == rows@[0]@);
        let (first, second, third) = match read_status_parts(rows[0]) {
            Some(parts) => parts,
            None => {
                return Err(MessageError::BadStartLine);
            },
        };
        let version = match HttpVersion::from_chars(first) {
            Some(v) => v,
            None => {
                return Err(MessageError::BadVersion);
            },
        };
        let status_code = match parse_u16(second) {
            Some(n) => n,
            None => {
                return Err(MessageError::BadStatus);
            },
        };
        let reason_phrase = match third {
            Some(t) => string_of(t),
            None => HttpResponse::default_reason_phrase(status_code),
        };
        match read_table(&rows, 1) {
            Ok(headers) => Ok(
                HttpResponse { status_code, reason_phrase, version, headers, body: Vec::new() },
            ),
            Err(e) => Err(e),
        }
    }

    /// Reads a response from octets, its body as sent.
    pub fn receive(bytes: &[u8]) -> (r: Result<Self, MessageError>)
        ensures
            match r {
                Ok(q) => q.inv() && response_received(bytes@) == Ok::<ResponseView, MessageError>(q@),
                Err(e) => response_received(bytes@) == Err::<ResponseView, MessageError>(e),
            },
    {
        let mark: [u8; 4] = [13, 10, 13, 10];
        assert(mark@ =~= seq![13u8, 10u8, 13u8, 10u8]);
        let end: usize = bytes.len();
        let i = match find_bytes(bytes, mark.as_slice()) {
            Some(i) => i,
            None => {
                return Err(MessageError::NoHeaderEnd);
            },
        };
        let header_octets = slice_subrange(bytes, 0, i);
        let rest = slice_subrange(bytes, i + 4, end);
        assert(header_octets@ =~= bytes@.take(i as int));
        assert(rest@ =~= bytes@.skip(i + 4));
        let text = match utf8_text(header_octets) {
            Some(t) => t,
            None => {
                return Err(MessageError::NotUtf8);
            },
        };
        let header = chars_of(text.as_str());
        let r = match HttpResponse::read_head(header.as_slice()) {
            Ok(r) => r,
            Err(e) => {
                return Err(e);
            },
        };
        let body = match read_body(&r.headers, rest) {
            Ok(b) => b,
            Err(e) => {
                return Err(e);
            },
        };
        match r.headers.get_nocase("digest") {
            Some(d) => match verify_digest(d.as_str(), body.as_slice()) {
                Ok(()) => {},
                Err(e) => {
                    return Err(e);
                },
            },
            None => {},
        }
        Ok(HttpResponse { body, ..r })
    }

    /// Reads a response from octets. `plain` is what the codec of its content coding made of its body
    /// as sent, `None` where the codec failed; it is not looked at under the identity.
    pub fn from_bytes(bytes: &[u8], plain: Option<&[u8]>) -> (r: Result<Self, MessageError>)
        ensures
            match r {
                Ok(q) => q.inv() && response_of(bytes@, opt_bytes(plain)) == Ok::<
                    ResponseView,
                    MessageError,
                >(q@),
                Err(e) => response_of(bytes@, opt_bytes(plain)) == Err::<ResponseView, MessageError>(
                    e,
                ),
            },
    {
        let r = match HttpResponse::receive(bytes) {
            Ok(r) => r,
            Err(e) => {
                return Err(e);
            },
        };
        let body = match r.headers.get_nocase("content-encoding") {
            Some(enc) => match decode_body(enc.as_str(), r.body.as_slice(), plain) {
                Ok(b) => vstd::slice::slice_to_vec(b),
                Err(e) => {
                    return Err(e);
                },
            },
            None => {
                return Ok(r);
            },
        };
        let size = string_of(to_decimal(body.len() as u64).as_slice());
        let mut headers = r.headers;
        headers.remove("content-encoding");
        headers.insert("Content-Length".to_owned(), size);
        Ok(
            HttpResponse {
                status_code: r.status_code,
                reason_phrase: r.reason_phrase,
                version: r.version,
                headers,
                body,
            },
        )
    }

    /// The phrase that goes with a status code.
    pub fn default_reason_phrase(status_code: u16) -> (r: String)
        ensures
            r@ == reason_of(status_code),
    {
        (match status_code {
            100 => "Continue",
            101 => "Switching Protocols",
            200 => "OK",
            201 => "Created",
            202 => "Accepted",
            204 => "No Content",
            301 => "Moved Permanently",
            302 => "Found",
            303 => "See Other",
            304 => "Not Modified",
            307 => "Temporary Redirect",
            308 => "Permanent Redirect",
            400 => "Bad Request",
            401 => "Unauthorized",
            403 => "Forbidden",
            404 => "Not Found",
            405 => "Method Not Allowed",
            408 => "Request Timeout",
            500 => "Internal Server Error",
            501 => "Not Implemented",
            502 => "Bad Gateway",
            503 => "Service Unavailable",
            _ => "Unknown",
        }).to_owned()
    }

    /// Whether the connection may stay open: as the response says, else from HTTP/1.1 on.
    pub fn wants_keep_alive(&self) -> (r: bool)
        ensures
            r == (if value_nocase(self@.headers, "Connection"@) is Some {
                !says_close(self@.headers)
            } else {
                self@.version != HttpVersion::Http10
            }),
    {
        match self.header("Connection") {
            Some(v) => {
                let lower = chars_of(unicode_lower(v.as_str()).as_str());
                !contains_text(lower.as_slice(), "close")
            },
            None => self.version != HttpVersion::Http10,
        }
    }

    pub fn connection_type(&self) -> (r: String)
        ensures
            r@ == (match value_nocase(self@.headers, "Connection"@) {
                Some(v) => v,
                None => "keep-alive"@,
            }),
    {
        match self.header("Connection") {
            Some(v) => v.as_str().to_owned(),
            None => "keep-alive".to_owned(),
        }
    }

    pub fn should_close_connection(&self) -> (r: bool)
        ensures
            r == says_close(self@.headers),
    {
        match self.header("Connection") {
            Some(v) => {
                let lower = chars_of(unicode_lower(v.as_str()).as_str());
                contains_text(lower.as_slice(), "close")
            },
            None => false,
        }
    }
}

pub fn push_wire_line(out: &mut Vec<char>, name: &str, v: &str)
    ensures
        final(out)@ == old(out)@ + wire_line(name@, v@),
{
    push_text(out, name);
    push_text(out, ": ");
    push_text(out, v);
    push_text(out, "\r\n");
    assert(out@ =~= old(out)@ + wire_line(name@, v@));
}


/// The header of a response blob.
pub type SecureHttpResponseBlobMeta = EnvelopeMeta;

/// What a response blob holds; `inner` is what the codec of the response's own content coding made of its body.
pub open spec fn response_unsealed(data: Seq<u8>, plain: Option<Seq<u8>>, inner: Option<Seq<u8>>) -> Result<
    (MetaView, ResponseView),
    EnvelopeError,
> {
    match unsealed(BlobKind::Response, data, plain) {
        Err(e) => Err(e),
        Ok((meta, raw)) => match response_of(raw, inner) {
            Ok(r) => Ok((meta, r)),
            Err(e) => Err(EnvelopeError::BadResponse(e)),
        },
    }
}

/// Chooses the coding for a response blob from an `Accept-Encoding` value.
pub fn select_secure_http_response_algorithm(accept_encoding: &str) -> (r: CompressionAlgorithm)
    ensures
        r == selected(accept_encoding@, true),
{
    select_any(accept_encoding)
}

/// Seals a response in a blob. `coded` is what the codec of `algorithm` made of the response on the
/// wire, `None` where the codec failed; it is not looked at under the identity.
pub fn encode_secure_http_response(
    response: &HttpResponse,
    algorithm: CompressionAlgorithm,
    coded: Option<&[u8]>,
    nonce: &[u8],
    issued_at_unix: u64,
) -> (r: Result<(SecureHttpResponseBlobMeta, Vec<u8>), EnvelopeError>)
    ensures
        contents(r) == sealed(
            BlobKind::Response,
            response_wire(response@),
            algorithm,
            opt_bytes(coded),
            nonce@,
            issued_at_unix as nat,
        ),
{
    let raw = response.to_bytes();
    seal(BlobKind::Response, raw.as_slice(), algorithm, coded, nonce, issued_at_unix)
}

/// Seals a response in the coding chosen from an `Accept-Encoding` value.
pub fn encode_secure_http_response_auto(
    response: &HttpResponse,
    accept_encoding: &str,
    coded: Option<&[u8]>,
    nonce: &[u8],
    issued_at_unix: u64,
) -> (r: Result<(SecureHttpResponseBlobMeta, Vec<u8>), EnvelopeError>)
    ensures
        contents(r) == sealed(
            BlobKind::Response,
            response_wire(response@),
            selected(accept_encoding@, true),
            opt_bytes(coded),
            nonce@,
            issued_at_unix as nat,
        ),
{
    let algorithm = select_secure_http_response_algorithm(accept_encoding);
    encode_secure_http_response(response, algorithm, coded, nonce, issued_at_unix)
}

/// Opens a blob. `plain` is what the codec made of the payload as sent, `inner` what the codec of the
/// response's own content coding made of its body; each is `None` where the codec failed, and not looked
/// at under the identity.
pub fn decode_secure_http_response(data: &[u8], plain: Option<&[u8]>, inner: Option<&[u8]>) -> (r: Result<
    (SecureHttpResponseBlobMeta, HttpResponse),
    EnvelopeError,
>)
    ensures
        match r {
            Ok((meta, q)) => q.inv() && response_unsealed(data@, opt_bytes(plain), opt_bytes(inner)) == Ok::<
                (MetaView, ResponseView),
                EnvelopeError,
            >((meta@, q@)),
            Err(e) => response_unsealed(data@, opt_bytes(plain), opt_bytes(inner)) == Err::<
                (MetaView, ResponseView),
                EnvelopeError,
            >(e),
        },
{
    match unseal(BlobKind::Response, data, plain) {
        Ok((meta, raw)) => match HttpResponse::from_bytes(raw.as_slice(), inner) {
            Ok(q) => Ok((meta, q)),
            Err(e) => Err(EnvelopeError::BadResponse(e)),
        },
        Err(e) => Err(e),
    }
}

impl HttpResponse {
    /// See `encode_secure_http_response`.
    pub fn to_secure_blob(
        &self,
        algorithm: CompressionAlgorithm,
        coded: Option<&[u8]>,
        nonce: &[u8],
        issued_at_unix: u64,
    ) -> (r: Result<(SecureHttpResponseBlobMeta, Vec<u8>), EnvelopeError>)
        ensures
            contents(r) == sealed(
                BlobKind::Response,
                response_wire(self@),
                algorithm,
                opt_bytes(coded),
                nonce@,
                issued_at_unix as nat,
            ),
    {
        encode_secure_http_response(self, algorithm, coded, nonce, issued_at_unix)
    }

    /// See `encode_secure_http_response_auto`.
    pub fn to_secure_blob_auto(
        &self,
        accept_encoding: &str,
        coded: Option<&[u8]>,
        nonce: &[u8],
        issued_at_unix: u64,
    ) -> (r: Result<(SecureHttpResponseBlobMeta, Vec<u8>), EnvelopeError>)
        ensures
            contents(r) == sealed(
                BlobKind::Response,
                response_wire(self@),
                selected(accept_encoding@, true),
                opt_bytes(coded),
                nonce@,
                issued_at_unix as nat,
            ),
    {
        encode_secure_http_response_auto(self, accept_encoding, coded, nonce, issued_at_unix)
    }

    /// See `decode_secure_http_response`.
    pub fn from_secure_blob(data: &[u8], plain: Option<&[u8]>, inner: Option<&[u8]>) -> (r: Result<
        (SecureHttpResponseBlobMeta, Self),
        EnvelopeError,
    >)
        ensures
            match r {
                Ok((meta, q)) => q.inv() && response_unsealed(data@, opt_bytes(plain), opt_bytes(inner))
                    == Ok::<(MetaView, ResponseView), EnvelopeError>((meta@, q@)),
                Err(e) => response_unsealed(data@, opt_bytes(plain), opt_bytes(inner)) == Err::<
                    (MetaView, ResponseView),
                    EnvelopeError,
                >(e),
            },
    {
        decode_secure_http_response(data, plain, inner)
    }
}


/// Whether a field can be sent: no line ends in it, no colon in its name, no white space around either.
pub open spec fn is_sendable_field(name: Seq<char>, v: Seq<char>) -> bool {
    clean(name) && clean(v) && lacks(name, ':') && trimmed(name) == name && trimmed(v) == v
}

/// Whether a response can be sent and read as it was sent: its phrase and fields have no line ends, and a length
/// or digest that is given is that of the body.
pub open spec fn is_transmissible(r: ResponseView) -> bool {
    &&& clean(r.reason)
    &&& in_name_order(r.headers)
    &&& forall|i: int|
        0 <= i < r.headers.len() ==> is_sendable_field(
            (#[trigger] r.headers[i]).0,
            r.headers[i].1,
        )
    &&& value_nocase(r.headers, "digest"@) matches Some(d) ==> digest_fault(d, r.body) is None
    &&& r.body.len() > 0 ==> (value_nocase(r.headers, "content-length"@) matches Some(t) ==> parsed(
        t,
        usize::MAX as nat,
    ) == Some(r.body.len()))
    &&& r.body.len() <= usize::MAX
}

/// Whether a response can be sent and read back: it can be sent, and no content coding is named.
pub open spec fn is_sendable(r: ResponseView) -> bool {
    is_transmissible(r) && value_nocase(r.headers, "content-encoding"@) is None
}

/// The fields with which a response arrives, where the length of its body was added or not.
pub open spec fn arrived(r: ResponseView, told: bool) -> FieldTable {
    if told {
        put(r.headers, "Content-Length"@, decimal(r.body.len()))
    } else {
        r.headers
    }
}

/// The fields with which a response arrives: its length was added where it has a body.
pub open spec fn arriving(r: ResponseView) -> FieldTable {
    arrived(r, wants_length(r))
}

/// A header line without its line end.
pub open spec fn bare_line(field: (Seq<char>, Seq<char>)) -> Seq<char> {
    field.0 + ": "@ + field.1
}

/// The fields as they are sent, in their order.
pub open spec fn sent_list(r: ResponseView, told: bool) -> Seq<(Seq<char>, Seq<char>)> {
    if told {
        r.headers.push(("Content-Length"@, decimal(r.body.len())))
    } else {
        r.headers
    }
}

pub open spec fn start_line(r: ResponseView) -> Seq<char> {
    version_name(r.version) + " "@ + decimal(r.status as nat) + " "@ + r.reason
}

pub open spec fn header_lines(r: ResponseView, told: bool) -> Seq<Seq<char>> {
    seq![start_line(r)] + sent_list(r, told).map_values(|f: (Seq<char>, Seq<char>)| bare_line(f))
}

/// The header of a response on the wire, where the length of its body is added or not.
pub open spec fn told_header(r: ResponseView, told: bool) -> Seq<char> {
    version_name(r.version) + " "@ + decimal(r.status as nat) + " "@ + r.reason + "\r\n"@ + table_wire(
        r.headers,
        r.headers.len() as int,
    ) + (if told {
        wire_line("Content-Length"@, decimal(r.body.len()))
    } else {
        seq![]
    }) + "\r\n"@
}

/// A header line of a sendable field is read as that field.
pub proof fn lemma_bare_line(field: (Seq<char>, Seq<char>))
    requires
        is_sendable_field(field.0, field.1),
    ensures
        field_in(bare_line(field)) == Some(field),
        is_header_line(bare_line(field)),
        wire_line(field.0, field.1) == bare_line(field) + crlf(),
{
    reveal_strlit(": ");
    reveal_strlit("\r\n");
    let s = bare_line(field);
    let n = field.0.len() as int;
    assert("\r\n"@ =~= crlf());
    assert(s[n] == ':');
    assert forall|j: int| 0 <= j < n implies s[j] != ':' by {
        assert(s[j] == field.0[j]);
    }
    lemma_find_is(s, ':', n);
    assert(s.take(n) =~= field.0);
    assert(s.skip(n + 1) =~= seq![' '] + field.1);
    lemma_trimmed_blank(field.1);
    assert forall|j: int| 0 <= j < s.len() implies #[trigger] s[j] != '\r' && s[j] != '\n' by {
        if j < n {
            assert(s[j] == field.0[j]);
        } else if j >= n + 2 {
            assert(s[j] == field.1[j - n - 2]);
        }
    }
}

pub proof fn lemma_start_line(r: ResponseView)
    requires
        clean(r.reason),
    ensures
        is_header_line(start_line(r)),
        status_parts(start_line(r)) == Some(
            (version_name(r.version), decimal(r.status as nat), Some(r.reason)),
        ),
{
    reveal_strlit(" ");
    reveal_strlit("HTTP/1.0");
    reveal_strlit("HTTP/1.1");
    reveal_strlit("HTTP/2.0");
    reveal_strlit("HTTP/3.0");
    let s = start_line(r);
    let v = version_name(r.version);
    let d = decimal(r.status as nat);
    lemma_decimal_digits(r.status as nat);
    let n = v.len() as int;
    assert(n == 8);
    assert(s[n] == ' ');
    assert forall|j: int| 0 <= j < n implies s[j] != ' ' && s[j] != '\r' && s[j] != '\n' by {
        assert(s[j] == v[j]);
    }
    lemma_find_is(s, ' ', n);
    assert(s.take(n) =~= v);
    let rest = s.skip(n + 1);
    assert(rest =~= d + " "@ + r.reason);
    let m = d.len() as int;
    assert(rest[m] == ' ');
    assert forall|j: int| 0 <= j < m implies rest[j] != ' ' by {
        assert(rest[j] == d[j]);
        assert(is_digit(d[j]));
    }
    lemma_find_is(rest, ' ', m);
    assert(rest.take(m) =~= d);
    assert(rest.skip(m + 1) =~= r.reason);
    assert forall|j: int| 0 <= j < s.len() implies #[trigger] s[j] != '\r' && s[j] != '\n' by {
        if j < n {
            assert(s[j] == v[j]);
        } else if j > n && j < n + 1 + m {
            assert(s[j] == d[j - n - 1]);
            assert(is_digit(d[j - n - 1]));
        } else if j > n + 1 + m {
            assert(s[j] == r.reason[j - n - m - 2]);
        }
    }
}

proof fn lemma_table_wire(h: FieldTable, n: int)
    requires
        0 <= n <= h.len(),
        forall|i: int| 0 <= i < h.len() ==> is_sendable_field((#[trigger] h[i]).0, h[i].1),
    ensures
        table_wire(h, n) == crlf_ended(
            h.take(n).map_values(|f: (Seq<char>, Seq<char>)| bare_line(f)),
        ),
    decreases n,
{
    let l = h.take(n).map_values(|f: (Seq<char>, Seq<char>)| bare_line(f));
    if n == 0 {
        assert(l =~= seq![]);
    } else {
        lemma_table_wire(h, n - 1);
        assert(is_sendable_field(h[n - 1].0, h[n - 1].1));
        lemma_bare_line(h[n - 1]);
        assert(l.drop_last() =~= h.take(n - 1).map_values(
            |f: (Seq<char>, Seq<char>)| bare_line(f),
        ));
        assert(l.last() == bare_line(h[n - 1]));
        assert(table_wire(h, n) =~= crlf_ended(l));
    }
}

/// Ended lines after a first one.
pub proof fn lemma_crlf_front(first: Seq<char>, more: Seq<Seq<char>>)
    ensures
        crlf_ended(seq![first] + more) == first + crlf() + crlf_ended(more),
    decreases more.len(),
{
    let l = seq![first] + more;
    if more.len() == 0 {
        assert(l.drop_last() =~= seq![]);
        assert(crlf_ended(l.drop_last()) =~= seq![]);
        assert(crlf_ended(l) =~= first + crlf() + crlf_ended(more));
    } else {
        assert(l.drop_last() =~= seq![first] + more.drop_last());
        lemma_crlf_front(first, more.drop_last());
        assert(crlf_ended(l) =~= first + crlf() + crlf_ended(more));
    }
}

proof fn lemma_length_sendable(n: nat)
    ensures
        is_sendable_field("Content-Length"@, decimal(n)),
{
    reveal_strlit("Content-Length");
    lemma_decimal_tidy(n);
    let d = decimal(n);
    lemma_decimal_digits(n);
    lemma_trimmed_solid(d);
    lemma_trimmed_solid("Content-Length"@);
    assert forall|j: int| 0 <= j < d.len() implies #[trigger] d[j] != '\r' && d[j] != '\n' by {
        assert(is_digit(d[j]));
    }
}

/// The header of a sendable response is its lines, joined, and two line ends.
proof fn lemma_response_header(r: ResponseView, told: bool)
    requires
        is_transmissible(r),
    ensures
        told_header(r, told) == joined(header_lines(r, told), crlf()) + (crlf() + crlf()),
        forall|i: int| 0 <= i < header_lines(r, told).len() ==> is_header_line(#[trigger] header_lines(r, told)[i]),
        forall|i: int|
            0 <= i < sent_list(r, told).len() ==> is_sendable_field(
                (#[trigger] sent_list(r, told)[i]).0,
                sent_list(r, told)[i].1,
            ),
{
    let h = sent_list(r, told);
    let n = r.headers.len() as int;
    let l = header_lines(r, told);
    let more = h.map_values(|f: (Seq<char>, Seq<char>)| bare_line(f));
    let line = if told {
        wire_line("Content-Length"@, decimal(r.body.len()))
    } else {
        seq![]
    };
    lemma_start_line(r);
    lemma_length_sendable(r.body.len());
    assert forall|i: int| 0 <= i < h.len() implies is_sendable_field((#[trigger] h[i]).0, h[i].1) by {
        if i < n {
            assert(h[i] == r.headers[i]);
        }
    }
    assert forall|i: int| 0 <= i < l.len() implies is_header_line(#[trigger] l[i]) by {
        if i > 0 {
            assert(l[i] == bare_line(h[i - 1]));
            lemma_bare_line(h[i - 1]);
        }
    }
    reveal_strlit("\r\n");
    assert("\r\n"@ =~= crlf());
    lemma_table_wire(h, h.len() as int);
    assert(h.take(h.len() as int) =~= h);
    lemma_table_wire(r.headers, n);
    assert(r.headers.take(n) =~= r.headers);
    let base = r.headers.map_values(|f: (Seq<char>, Seq<char>)| bare_line(f));
    if h.len() > n {
        assert(more.drop_last() =~= base);
        lemma_bare_line(h[n]);
        assert(crlf_ended(more) =~= table_wire(r.headers, n) + line);
    } else {
        assert(more =~= base);
        assert(crlf_ended(more) =~= table_wire(r.headers, n) + line);
    }
    lemma_crlf_front(start_line(r), more);
    lemma_crlf_ended(l);
    assert(told_header(r, told) =~= crlf_ended(l) + crlf());
    assert(told_header(r, told) =~= joined(l, crlf()) + (crlf() + crlf()));
}

/// Reading header lines gives their fields back.
proof fn lemma_fields_back(r: ResponseView, told: bool, i: int)
    requires
        is_transmissible(r),
        0 <= i <= sent_list(r, told).len(),
    ensures
        table_set(
            header_lines(r, told),
            if i <= r.headers.len() {
                r.headers.take(i)
            } else {
                arrived(r, told)
            },
            i + 1,
        ) == Ok::<FieldTable, MessageError>(arrived(r, told)),
    decreases sent_list(r, told).len() - i,
{
    let h = sent_list(r, told);
    let l = header_lines(r, told);
    let n = r.headers.len() as int;
    lemma_response_header(r, told);
    if i == h.len() {
        if h.len() == n {
            assert(r.headers.take(i) =~= r.headers);
        }
    } else {
        assert(l[i + 1] == bare_line(h[i]));
        assert(is_sendable_field(h[i].0, h[i].1));
        lemma_bare_line(h[i]);
        if i < n {
            assert(h[i] == r.headers[i]);
            let was = r.headers.take(i);
            assert forall|j: int| 0 <= j < was.len() implies before((#[trigger] was[j]).0, h[i].0) by {
                assert(before(r.headers[j].0, r.headers[i].0));
            }
            lemma_put_last(was, h[i].0, h[i].1);
            assert(was.push(h[i]) =~= r.headers.take(i + 1));
        } else {
            assert(r.headers.take(i) =~= r.headers);
        }
        lemma_fields_back(r, told, i + 1);
    }
}

/// A response that was written with or without the length of its body arrives as it was sent.
pub proof fn lemma_told_received(r: ResponseView, told: bool)
    requires
        is_transmissible(r),
        told ==> value_nocase(r.headers, "content-length"@) is None,
        !told ==> !wants_length(r),
    ensures
        response_received(encode_utf8(told_header(r, told)) + r.body) == Ok::<ResponseView, MessageError>(
            ResponseView { headers: arrived(r, told), ..r },
        ),
        value_nocase(arrived(r, told), "content-encoding"@) == value_nocase(r.headers, "content-encoding"@),
{
    let l = header_lines(r, told);
    let text = joined(l, crlf());
    let octets = encode_utf8(text);
    let p = seq![13u8, 10u8, 13u8, 10u8];
    let bytes = encode_utf8(told_header(r, told)) + r.body;
    lemma_response_header(r, told);
    lemma_utf8_concat(text, crlf() + crlf());
    lemma_utf8_concat(crlf(), crlf());
    lemma_crlf_octets();
    assert(encode_utf8(crlf() + crlf()) =~= p);
    assert(bytes =~= octets + p + r.body);
    lemma_header_end_octets(l, r.body);
    let i = octets.len() as int;
    assert(bytes.take(i) =~= octets);
    assert(bytes.skip(i + 4) =~= r.body);
    encode_utf8_valid_utf8(text);
    encode_utf8_decode_utf8(text);
    lemma_header_lines(l);
    assert(l[0] == start_line(r));
    lemma_start_line(r);
    law_version_names(r.version);
    law_decimal_roundtrip(r.status as nat, u16::MAX as nat);
    lemma_fields_back(r, told, 0);
    assert(r.headers.take(0) =~= seq![]);
    let h = arrived(r, told);
    reveal_strlit("Content-Length");
    reveal_strlit("content-length");
    reveal_strlit("content-encoding");
    reveal_strlit("digest");
    assert(lowered("Content-Length"@) =~= lowered("content-length"@));
    assert(lowered("Content-Length"@).len() == 14);
    assert(lowered("content-encoding"@).len() == 16);
    assert(lowered("digest"@).len() == 6);
    if told {
        lemma_like(r.headers, "Content-Length"@, "content-length"@);
        law_put_nocase(r.headers, "Content-Length"@, decimal(r.body.len()), "content-length"@);
        law_put_nocase(r.headers, "Content-Length"@, decimal(r.body.len()), "content-encoding"@);
        law_put_nocase(r.headers, "Content-Length"@, decimal(r.body.len()), "digest"@);
        law_decimal_roundtrip(r.body.len(), usize::MAX as nat);
    }
    assert(r.body.take(r.body.len() as int) =~= r.body);
    assert(r.body.len() == 0 ==> r.body =~= seq![]);
}

/// A response that was written to the wire arrives as it was sent: the same status, phrase, version and body, and
/// the same fields with the length of the body.
pub proof fn lemma_response_received(r: ResponseView)
    requires
        is_transmissible(r),
    ensures
        response_received(response_wire(r)) == Ok::<ResponseView, MessageError>(
            ResponseView { headers: arriving(r), ..r },
        ),
        value_nocase(arriving(r), "content-encoding"@) == value_nocase(r.headers, "content-encoding"@),
{
    lemma_told_received(r, wants_length(r));
    assert(told_header(r, wants_length(r)) =~= response_header(r));
}

/// A response that was written to the wire is read back: the same status, phrase, version and body, and
/// the same fields with the length of the body.
pub proof fn law_response_wire(r: ResponseView, plain: Option<Seq<u8>>)
    requires
        is_sendable(r),
    ensures
        response_of(response_wire(r), plain) == Ok::<ResponseView, MessageError>(
            ResponseView { headers: arriving(r), ..r },
        ),
{
    lemma_response_received(r);
}

/// Names that differ in case only find the same value.
proof fn lemma_like(h: FieldTable, a: Seq<char>, b: Seq<char>)
    requires
        same_nocase(a, b),
    ensures
        value_nocase(h, a) == value_nocase(h, b),
    decreases h.len(),
{
    if h.len() > 0 {
        lemma_like(h.skip(1), a, b);
    }
}

/// A response comes out of a blob as it went in, with the length of its body, given that the codec undoes
/// what it did.
pub proof fn law_response_blob_roundtrip(
    r: ResponseView,
    algorithm: CompressionAlgorithm,
    coded: Option<Seq<u8>>,
    nonce: Seq<u8>,
    issued_at: nat,
    inner: Option<Seq<u8>>,
)
    requires
        is_sendable(r),
        response_wire(r).len() <= usize::MAX,
        coded matches Some(c) ==> c.len() <= usize::MAX,
        issued_at <= u64::MAX,
    ensures
        sealed(BlobKind::Response, response_wire(r), algorithm, coded, nonce, issued_at) matches Ok(
            (meta, data),
        ) ==> response_unsealed(data, Some(response_wire(r)), inner) == Ok::<
            (MetaView, ResponseView),
            EnvelopeError,
        >((meta, ResponseView { headers: arriving(r), ..r })),
{
    law_blob_roundtrip(BlobKind::Response, response_wire(r), algorithm, coded, nonce, issued_at);
    law_response_wire(r, inner);
}

/// A chunk adds its octets to those of the chunks behind it, and the chunk of size zero ends a body. The size is what
/// its line gives in hexadecimal notation before a semicolon, whatever follows that.
pub proof fn law_chunks_are_put_together(size: Seq<char>, extension: Seq<char>, piece: Seq<u8>, rest: Seq<u8>)
    requires
        clean(size) && lacks(size, ';'),
        clean(extension),
        hex_parsed(trimmed(size), usize::MAX as nat) == Some(piece.len()),
    ensures
        ({
            let line = encode_utf8(size + seq![';'] + extension);
            let end = seq![13u8, 10u8];
            &&& piece.len() > 0 ==> (dechunked(line + end + piece + end + rest) == match dechunked(rest) {
                Ok(more) => Ok::<Seq<u8>, MessageError>(piece + more),
                Err(e) => Err(e),
            })
            &&& piece.len() == 0 ==> dechunked(line + end + rest) == Ok::<Seq<u8>, MessageError>(seq![])
            &&& piece.len() > 0 && rest.len() >= 2 && rest.take(2) != end ==> dechunked(line + end + piece + rest)
                == Err::<Seq<u8>, MessageError>(MessageError::ChunkUnended)
            &&& rest.len() < piece.len() ==> dechunked(line + end + rest) == Err::<Seq<u8>, MessageError>(
                MessageError::ChunkTooLong,
            )
        }),
{
    let end = seq![13u8, 10u8];
    let line = encode_utf8(size + seq![';'] + extension);
    lemma_chunk_line(size, extension, end + piece + end + rest);
    lemma_chunk_line(size, extension, end + rest);
    lemma_chunk_line(size, extension, end + piece + rest);
    let n = line.len() as int;
    let whole = line + end + piece + end + rest;
    assert(whole =~= line + (end + piece + end + rest));
    assert(whole.skip(n + 2) =~= piece + end + rest);
    let behind = whole.skip(n + 2);
    assert(behind.take(piece.len() as int) =~= piece);
    assert(behind.skip(piece.len() as int) =~= end + rest);
    assert((end + rest).take(2) =~= end);
    assert((end + rest).skip(2) =~= rest);
    let bare = line + end + rest;
    assert(bare =~= line + (end + rest));
    assert(bare.skip(n + 2) =~= rest);
    let torn = line + end + piece + rest;
    assert(torn =~= line + (end + piece + rest));
    assert(torn.skip(n + 2) =~= piece + rest);
    assert((piece + rest).skip(piece.len() as int) =~= rest);
}

proof fn lemma_chunk_line(size: Seq<char>, extension: Seq<char>, behind: Seq<u8>)
    requires
        clean(size) && lacks(size, ';'),
        clean(extension),
        behind.len() >= 2,
        behind[0] == 13 && behind[1] == 10,
    ensures
        ({
            let text = size + seq![';'] + extension;
            let data = encode_utf8(text) + behind;
            &&& first_occurrence(data, seq![13u8, 10u8], 0) == Some(encode_utf8(text).len() as int)
            &&& data.take(encode_utf8(text).len() as int) == encode_utf8(text)
            &&& valid_utf8(encode_utf8(text))
            &&& head(decode_utf8(encode_utf8(text)), ';') == size
        }),
{
    let text = size + seq![';'] + extension;
    let p = seq![13u8, 10u8];
    assert forall|j: int| 0 <= j < text.len() implies text[j] != '\r' by {
        if j < size.len() {
            assert(text[j] == size[j]);
        } else if j > size.len() {
            assert(text[j] == extension[j - size.len() - 1]);
        }
    }
    lemma_octets_lack(text, '\r');
    let octets = encode_utf8(text);
    assert forall|j: int| 0 <= j < octets.len() implies #[trigger] octets[j] != p[0] by {
        assert(octets[j] != '\r' as u8);
    }
    lemma_pass_lacking(octets, behind, p);
    assert(behind.subrange(0, 2) =~= p);
    assert(occurs_at(behind, p, 0));
    assert(first_occurrence(behind, p, 0) == Some(0int));
    encode_utf8_valid_utf8(text);
    encode_utf8_decode_utf8(text);
    assert forall|j: int| 0 <= j < size.len() implies text[j] != ';' by {
        assert(text[j] == size[j]);
    }
    lemma_find_is(text, ';', size.len() as int);
    assert(text.take(size.len() as int) =~= size);
    assert((octets + behind).take(octets.len() as int) =~= octets);
}

/// The body that follows a header is a part from the front of what comes: as long as the fields say, or all of it
/// where they do not say. A length that is more than there is, or no number, is refused.
pub proof fn law_body_extent(h: FieldTable, rest: Seq<u8>, c: int)
    requires
        rest.len() > 0,
    ensures
        ({
            let sized = 0 <= c < h.len() && same_nocase(h[c].0, "content-length"@) && forall|j: int|
                0 <= j < c ==> !same_nocase((#[trigger] h[j]).0, "content-length"@);
            let unsized_ = forall|j: int| 0 <= j < h.len() ==> !same_nocase((#[trigger] h[j]).0, "content-length"@);
            let plain = forall|j: int|
                0 <= j < h.len() ==> !same_nocase((#[trigger] h[j]).0, "transfer-encoding"@) || !same_nocase(
                    h[j].1,
                    "chunked"@,
                );
            match body_sent(h, rest) {
                Ok(b) => {
                    &&& sized ==> b == rest.take(b.len() as int) && b.len() <= rest.len() && parsed(
                        h[c].1,
                        usize::MAX as nat,
                    ) == Some(b.len())
                    &&& unsized_ && plain ==> b == rest
                },
                Err(e) => {
                    &&& sized ==> (e == MessageError::BadContentLength) == (parsed(h[c].1, usize::MAX as nat) is None)
                    &&& sized ==> (parsed(h[c].1, usize::MAX as nat) matches Some(n) ==> e
                        == MessageError::BodyTooShort && n > rest.len())
                    &&& !(unsized_ && plain)
                },
            }
        }),
{
    law_value_nocase_stands(h, "content-length"@);
    law_value_nocase_stands(h, "transfer-encoding"@);
}

/// A response that was received keeps its version, status and phrase. Without a content coding it has the body that was
/// sent; under one its body is what the codec made of that, as it came under the identity, and its length is that of
/// its own body. The fields that say nothing of these stay.
pub proof fn law_received_response(bytes: Seq<u8>, plain: Option<Seq<u8>>, a: CompressionAlgorithm, c: int, name: Seq<char>)
    requires
        response_received(bytes) matches Ok(r) ==> in_name_order(r.headers),
    ensures
        response_received(bytes) matches Ok(r) ==> ({
            let h = r.headers;
            let coded = 0 <= c < h.len() && same_nocase(h[c].0, "content-encoding"@) && (forall|j: int|
                0 <= j < c ==> !same_nocase((#[trigger] h[j]).0, "content-encoding"@)) && lowered(trimmed(h[c].1))
                == coding_name(a);
            let bare = forall|j: int| 0 <= j < h.len() ==> !same_nocase((#[trigger] h[j]).0, "content-encoding"@);
            match response_of(bytes, plain) {
                Ok(q) => {
                    &&& q.version == r.version && q.status == r.status && q.reason == r.reason
                    &&& bare ==> q.body == r.body && q.headers == r.headers
                    &&& coded && a == CompressionAlgorithm::Identity ==> q.body == r.body
                    &&& coded && a != CompressionAlgorithm::Identity ==> plain == Some(q.body)
                    &&& coded ==> value(q.headers, "Content-Length"@) == Some(decimal(q.body.len()))
                    &&& coded ==> value(q.headers, "content-encoding"@) is None
                    &&& name != "content-encoding"@ && name != "Content-Length"@ ==> value(q.headers, name) == value(
                        h,
                        name,
                    )
                },
                Err(e) => !bare && (coded ==> a != CompressionAlgorithm::Identity && plain is None),
            }
        }),
        response_received(bytes) matches Err(e) ==> response_of(bytes, plain) == Err::<ResponseView, MessageError>(e),
{
    if let Ok(r) = response_received(bytes) {
        let h = r.headers;
        reveal_strlit("content-encoding");
        reveal_strlit("Content-Length");
        assert("content-encoding"@.len() == 16 && "Content-Length"@.len() == 14);
        law_value_nocase_stands(h, "content-encoding"@);
        if let Some(enc) = value_nocase(h, "content-encoding"@) {
            law_decoded_body(enc, r.body, plain, a);
            let left = without(h, "content-encoding"@);
            law_without_in_order(h, "content-encoding"@);
            law_without_value(h, "content-encoding"@, name);
            if let Ok(b) = body_decoded(enc, r.body, plain) {
                law_put_value(left, "Content-Length"@, decimal(b.len()), name);
                law_put_value(left, "Content-Length"@, decimal(b.len()), "content-encoding"@);
            }
        }
    }
}

}
