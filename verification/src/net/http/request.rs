//! Requests: how they are made, written to the wire, read from it, and sealed.
use vstd::prelude::*;
use vstd::slice::slice_subrange;
use vstd::string::StringSliceAdditionalSpecFns;
use vstd::utf8::{
    decode_utf8, decode_utf8_encode_utf8, encode_utf8, encode_utf8_decode_utf8, encode_utf8_valid_utf8,
    valid_utf8,
};

use crate::bytes::{hex, push_bytes, to_hex};
use crate::crypto::base64::{
    decode_chars, decoded, encode, encoded, law_base64_roundtrip, lemma_encoded_symbols,
};
use crate::crypto::sha256::{sha256, sha256_of};
use crate::decimal::{decimal, to_decimal};
use crate::net::blob::{law_blob_roundtrip, opt_bytes, seal, sealed, unseal, unsealed, BlobKind};
use crate::net::envelope::{
    carried, contents, lemma_armoured_tidy, lemma_decimal_tidy, EnvelopeError, EnvelopeMeta, MetaView,
};
use crate::net::http::compression::{coding_name, select_any, selected, CompressionAlgorithm};
use crate::net::http::fields::{
    armour, armour_text, armoured_pair, header_line, law_armour_roundtrip, law_pair_roundtrip, pair_in,
    read_armour, read_pair, unarmoured,
};
use crate::net::http::headers::{
    field, field_in, field_wire, fields_wire, flat, gathered, is_kept, law_field_set, law_gather_flat,
    read_field, with_field,
    with_more, Fields, Headers,
};
use crate::net::http::message::{
    body_coding, body_decoded, decode_body, digest_fault, digest_value, law_decoded_body, law_own_digest,
    read_body_coding, verify_digest, MessageError,
};
use crate::net::http::method::{law_method_names, method_name, method_named, HttpMethod};
use crate::net::http::response::{
    bare_line, is_sendable_field, lemma_bare_line, lemma_crlf_front, wire_line,
};
use crate::net::http::version::{law_version_names, version_name, version_named, HttpVersion};
use crate::net::http::wire::{
    clean, crlf, crlf_ended, is_header_line, lemma_crlf_ended, lemma_header_end, lemma_header_lines,
    lemma_utf8_concat,
};
use crate::table::{
    before, in_name_order, law_put_in_order, lemma_put_entries, lemma_put_last,
};
use crate::text::{
    begins_with, char_texts, chars_of, contains_text, find_text, first_occurrence, has_text, is_line,
    is_white, join, joined, lacks, lemma_lines_joined, lemma_three_words, lemma_tidy_concat,
    lemma_tidy_line, lemma_trimmed_solid, lines, lines_of, lower, lowercase, lowered, push_chars,
    push_text, solid, string_of, strip_prefix, texts, tidy, trim, trimmed, unicode_lower, utf8_text,
    without_prefix, words, words_of,
};

verus! {

/// A request.
#[derive(Debug, Clone)]
pub struct HttpRequest {
    method: HttpMethod,
    path: String,
    version: HttpVersion,
    headers: Headers,
    body: Vec<u8>,
}

/// The contents of a request.
pub struct RequestView {
    pub method: HttpMethod,
    pub path: Seq<char>,
    pub version: HttpVersion,
    pub headers: Fields,
    pub body: Seq<u8>,
}

impl View for HttpRequest {
    type V = RequestView;

    closed spec fn view(&self) -> RequestView {
        RequestView {
            method: self.method,
            path: self.path@,
            version: self.version,
            headers: self.headers@,
            body: self.body@,
        }
    }
}

/// A request with a field set.
pub open spec fn with_header(q: RequestView, name: Seq<char>, v: Seq<char>) -> RequestView {
    RequestView { headers: with_field(q.headers, name, v), ..q }
}

/// The fields with a value under a name that has none.
pub open spec fn defaulted(h: Fields, name: Seq<char>, v: Seq<char>) -> Fields {
    if field(h, name) is Some {
        h
    } else {
        with_field(h, name, v)
    }
}

/// The fields with those that every request has.
pub open spec fn with_defaults(h: Fields, host: Seq<char>) -> Fields {
    let a = defaulted(h, "Host"@, host);
    let b = defaulted(a, "User-Agent"@, "Singularity/0.0.1"@);
    let c = defaulted(b, "Accept"@, "*/*"@);
    let d = defaulted(c, "Accept-Encoding"@, "br, zstd, gzip, deflate, identity"@);
    defaulted(d, "Connection"@, "keep-alive"@)
}

/// The body in the coding that the fields name; as it is where they name none, one that is not known,
/// or one whose codec failed.
pub open spec fn wire_body(h: Fields, body: Seq<u8>, coded: Option<Seq<u8>>) -> Seq<u8> {
    match field(h, "content-encoding"@) {
        None => body,
        Some(e) => match (body_coding(e), coded) {
            (None, _) => body,
            (Some(CompressionAlgorithm::Identity), _) => body,
            (Some(_), Some(c)) => c,
            (Some(_), None) => body,
        },
    }
}

/// The fields with length and digest of the body as sent; a digest that is given stays.
pub open spec fn with_integrity(h: Fields, wire: Seq<u8>) -> Fields {
    if wire.len() == 0 {
        h
    } else {
        let sized = with_field(h, "Content-Length"@, decimal(wire.len()));
        if field(sized, "Digest"@) is Some {
            sized
        } else {
            with_field(
                with_field(sized, "Digest"@, digest_value(wire)),
                "X-Content-SHA256"@,
                hex(sha256_of(wire)),
            )
        }
    }
}

/// The fields with which a request is sent.
pub open spec fn sent_fields(
    q: RequestView,
    host: Seq<char>,
    defaults: bool,
    coded: Option<Seq<u8>>,
) -> Fields {
    let h = if defaults {
        with_defaults(q.headers, host)
    } else {
        q.headers
    };
    with_integrity(h, wire_body(h, q.body, coded))
}

/// A request on the wire; `coded` is what the codec of its content coding made of its body.
pub open spec fn built(q: RequestView, host: Seq<char>, defaults: bool, coded: Option<Seq<u8>>) -> Seq<
    u8,
> {
    let h = sent_fields(q, host, defaults, coded);
    encode_utf8(
        method_name(q.method) + " "@ + q.path + " "@ + version_name(q.version) + "\r\n"@ + fields_wire(
            h,
            h.len() as int,
        ) + "\r\n"@,
    ) + wire_body(
        if defaults {
            with_defaults(q.headers, host)
        } else {
            q.headers
        },
        q.body,
        coded,
    )
}

/// The fields that header lines from `i` on set, up to an empty line.
pub open spec fn fields_set(lines: Seq<Seq<char>>, h: Fields, i: int) -> Result<Fields, MessageError>
    decreases lines.len() - i,
{
    if i < 0 || i >= lines.len() || lines[i].len() == 0 {
        Ok(h)
    } else {
        match field_in(lines[i]) {
            Some((name, v)) => fields_set(lines, with_field(h, name, v), i + 1),
            None => Err(MessageError::BadHeaderLine),
        }
    }
}

/// The request whose header is `header`, its body as sent.
pub open spec fn request_head(header: Seq<char>, body: Seq<u8>) -> Result<RequestView, MessageError> {
    let rows = lines_of(header);
    if rows.len() == 0 {
        Err(MessageError::Empty)
    } else {
        let parts = words_of(rows[0]);
        if parts.len() != 3 {
            Err(MessageError::BadStartLine)
        } else {
            match method_named(parts[0]) {
                None => Err(MessageError::BadMethod),
                Some(method) => match version_named(parts[2]) {
                    None => Err(MessageError::BadVersion),
                    Some(version) => match fields_set(rows, seq![], 1) {
                        Err(e) => Err(e),
                        Ok(headers) => Ok(
                            RequestView { method, path: parts[1], version, headers, body },
                        ),
                    },
                },
            }
        }
    }
}

/// The request that octets hold, its body as sent: header and body parted by the first empty line, the
/// digest, where one is given, that of the body.
pub open spec fn request_received(bytes: Seq<u8>) -> Result<RequestView, MessageError> {
    if !valid_utf8(bytes) {
        Err(MessageError::NotUtf8)
    } else {
        let text = decode_utf8(bytes);
        match first_occurrence(text, "\r\n\r\n"@, 0) {
            None => Err(MessageError::NoHeaderEnd),
            Some(i) => match request_head(text.take(i), encode_utf8(text.skip(i + 4))) {
                Err(e) => Err(e),
                Ok(q) => match field(q.headers, "digest"@) {
                    Some(d) => match digest_fault(d, q.body) {
                        Some(e) => Err(e),
                        None => Ok(q),
                    },
                    None => Ok(q),
                },
            },
        }
    }
}

/// The request that octets hold; `plain` is what the codec made of its body.
pub open spec fn request_of(bytes: Seq<u8>, plain: Option<Seq<u8>>) -> Result<
    RequestView,
    MessageError,
> {
    match request_received(bytes) {
        Err(e) => Err(e),
        Ok(q) => match field(q.headers, "content-encoding"@) {
            None => Ok(q),
            Some(enc) => match body_decoded(enc, q.body, plain) {
                Ok(body) => Ok(RequestView { body, ..q }),
                Err(e) => Err(e),
            },
        },
    }
}

/// Reads header lines.
pub fn read_fields(rows: &Vec<&[char]>, from: usize) -> (r: Result<Headers, MessageError>)
    ensures
        match r {
            Ok(h) => h.inv() && fields_set(texts(rows@), seq![], from as int) == Ok::<
                Fields,
                MessageError,
            >(h@),
            Err(e) => fields_set(texts(rows@), seq![], from as int) == Err::<Fields, MessageError>(
                e,
            ),
        },
{
    let ghost all = texts(rows@);
    let mut headers = Headers::new();
    let mut i: usize = from;
    while i < rows.len()
        invariant
            all == texts(rows@),
            headers.inv(),
            fields_set(all, headers@, i as int) == fields_set(all, seq![], from as int),
        decreases rows@.len() - i,
    {
        let line = rows[i];
        assert(all[i as int] == line@);
        if line.len() == 0 {
            return Ok(headers);
        }
        match read_field(line) {
            Some((name, v)) => {
                headers.insert(string_of(name).as_str(), string_of(v).as_str());
            },
            None => {
                return Err(MessageError::BadHeaderLine);
            },
        }
        i = i + 1;
    }
    Ok(headers)
}

fn set_default(headers: &mut Headers, name: &str, v: &str)
    requires
        old(headers).inv(),
    ensures
        final(headers).inv(),
        final(headers)@ == defaulted(old(headers)@, name@, v@),
{
    if !headers.contains(name) {
        headers.insert(name, v);
    }
}

impl HttpRequest {
    /// What holds of every request: its fields stand once, in lower case, each with a value.
    pub open spec fn inv(&self) -> bool {
        in_name_order(self@.headers) && is_kept(self@.headers)
    }

    pub fn new(method: HttpMethod, path: &str) -> (r: Self)
        ensures
            r.inv(),
            r@ == (RequestView {
                method,
                path: path@,
                version: HttpVersion::Http11,
                headers: seq![],
                body: seq![],
            }),
    {
        HttpRequest {
            method,
            path: path.to_owned(),
            version: HttpVersion::Http11,
            headers: Headers::new(),
            body: Vec::new(),
        }
    }

    pub fn version(self, version: HttpVersion) -> (r: Self)
        requires
            self.inv(),
        ensures
            r.inv(),
            r@ == (RequestView { version, ..self@ }),
    {
        HttpRequest { version, ..self }
    }

    pub fn header(self, name: &str, value: &str) -> (r: Self)
        requires
            self.inv(),
        ensures
            r.inv(),
            r@ == with_header(self@, name@, value@),
    {
        let mut headers = self.headers;
        headers.insert(name, value);
        HttpRequest {
            method: self.method,
            path: self.path,
            version: self.version,
            headers,
            body: self.body,
        }
    }

    pub fn body(self, body: Vec<u8>) -> (r: Self)
        requires
            self.inv(),
        ensures
            r.inv(),
            r@ == (RequestView { body: body@, ..self@ }),
    {
        HttpRequest { body, ..self }
    }

    pub fn method(&self) -> (r: HttpMethod)
        ensures
            r == self@.method,
    {
        self.method
    }

    pub fn version_ref(&self) -> (r: &HttpVersion)
        ensures
            *r == self@.version,
    {
        &self.version
    }

    pub fn path(&self) -> (r: &str)
        ensures
            r@ == self@.path,
    {
        self.path.as_str()
    }

    pub fn headers(&self) -> (r: &Headers)
        ensures
            r@ == self@.headers,
    {
        &self.headers
    }

    pub fn headers_mut(&mut self) -> (r: &mut Headers)
        ensures
            r@ == old(self)@.headers,
            final(self)@ == (RequestView { headers: final(r)@, ..old(self)@ }),
    {
        &mut self.headers
    }

    pub fn body_bytes(&self) -> (r: &[u8])
        ensures
            r@ == self@.body,
    {
        self.body.as_slice()
    }

    /// The request on the wire. `coded` is what the codec of its content coding made of its body,
    /// `None` where the codec failed; it is not looked at where the fields name no such coding.
    pub fn build(&self, host: &str, coded: Option<&[u8]>) -> (r: Vec<u8>)
        requires
            self.inv(),
        ensures
            r@ == built(self@, host@, true, opt_bytes(coded)),
    {
        self.build_impl(host, true, coded)
    }

    /// See `build`.
    pub fn to_bytes(&self, host: &str, coded: Option<&[u8]>) -> (r: Vec<u8>)
        requires
            self.inv(),
        ensures
            r@ == built(self@, host@, true, opt_bytes(coded)),
    {
        self.build(host, coded)
    }

    /// See `build`.
    pub fn build_with_defaults(&self, host: &str, coded: Option<&[u8]>) -> (r: Vec<u8>)
        requires
            self.inv(),
        ensures
            r@ == built(self@, host@, true, opt_bytes(coded)),
    {
        self.build_impl(host, true, coded)
    }

    fn wire<'a>(&'a self, headers: &Headers, coded: Option<&'a [u8]>) -> (r: &'a [u8])
        requires
            headers.inv(),
        ensures
            r@ == wire_body(headers@, self@.body, opt_bytes(coded)),
    {
        match headers.get("content-encoding") {
            None => self.body.as_slice(),
            Some(e) => match (read_body_coding(e), coded) {
                (None, _) => self.body.as_slice(),
                (Some(CompressionAlgorithm::Identity), _) => self.body.as_slice(),
                (Some(_), Some(c)) => c,
                (Some(_), None) => self.body.as_slice(),
            },
        }
    }

    fn build_impl(&self, host: &str, include_defaults: bool, coded: Option<&[u8]>) -> (r: Vec<u8>)
        requires
            self.inv(),
        ensures
            r@ == built(self@, host@, include_defaults, opt_bytes(coded)),
    {
        let mut headers = self.headers.copy();
        if include_defaults {
            set_default(&mut headers, "Host", host);
            set_default(&mut headers, "User-Agent", "Singularity/0.0.1");
            set_default(&mut headers, "Accept", "*/*");
            set_default(&mut headers, "Accept-Encoding", "br, zstd, gzip, deflate, identity");
            set_default(&mut headers, "Connection", "keep-alive");
        }
        let wire = self.wire(&headers, coded);
        if wire.len() > 0 {
            let size = string_of(to_decimal(wire.len() as u64).as_slice());
            headers.insert("Content-Length", size.as_str());
            if !headers.contains("Digest") {
                let digest = sha256(wire);
                let mut text = chars_of("SHA-256=");
                push_text(&mut text, encode(digest.as_slice()).as_str());
                headers.insert("Digest", string_of(text.as_slice()).as_str());
                headers.insert("X-Content-SHA256", to_hex(digest.as_slice()).as_str());
            }
        }
        let mut head = chars_of(self.method.as_str());
        push_text(&mut head, " ");
        push_text(&mut head, self.path.as_str());
        push_text(&mut head, " ");
        push_text(&mut head, self.version.as_str());
        push_text(&mut head, "\r\n");
        push_chars(&mut head, headers.format().as_slice());
        push_text(&mut head, "\r\n");
        let text = string_of(head.as_slice());
        let mut bytes = vstd::slice::slice_to_vec(text.as_str().as_bytes());
        push_bytes(&mut bytes, wire);
        bytes
    }

    fn read_head(header: &[char], body: Vec<u8>) -> (r: Result<Self, MessageError>)
        ensures
            match r {
                Ok(q) => q.inv() && request_head(header@, body@) == Ok::<RequestView, MessageError>(
                    q@,
                ),
                Err(e) => request_head(header@, body@) == Err::<RequestView, MessageError>(e),
            },
    {
        let rows = lines(header);
        let ghost all = lines_of(header@);
        if rows.len() == 0 {
            return Err(MessageError::Empty);
        }
        assert(all[0] == rows@[0]@);
        let parts = words(rows[0]);
        let ghost w = words_of(all[0]);
        assert(texts(parts@) == w);
        if parts.len() != 3 {
            return Err(MessageError::BadStartLine);
        }
        assert(w[0] == parts@[0]@ && w[1] == parts@[1]@ && w[2] == parts@[2]@);
        let method = match HttpMethod::from_chars(parts[0]) {
            Some(m) => m,
            None => {
                return Err(MessageError::BadMethod);
            },
        };
        let version = match HttpVersion::from_chars(parts[2]) {
            Some(v) => v,
            None => {
                return Err(MessageError::BadVersion);
            },
        };
        match read_fields(&rows, 1) {
            Ok(headers) => Ok(
                HttpRequest { method, path: string_of(parts[1]), version, headers, body },
            ),
            Err(e) => Err(e),
        }
    }

    /// Reads a request from octets, its body as sent.
    pub fn receive(bytes: &[u8]) -> (r: Result<Self, MessageError>)
        ensures
            match r {
                Ok(q) => q.inv() && request_received(bytes@) == Ok::<RequestView, MessageError>(q@),
                Err(e) => request_received(bytes@) == Err::<RequestView, MessageError>(e),
            },
    {
        let text = match utf8_text(bytes) {
            Some(t) => t,
            None => {
                return Err(MessageError::NotUtf8);
            },
        };
        let chars = chars_of(text.as_str());
        let end: usize = chars.len();
        proof {
            reveal_strlit("\r\n\r\n");
        }
        let i = match find_text(chars.as_slice(), "\r\n\r\n") {
            Some(i) => i,
            None => {
                return Err(MessageError::NoHeaderEnd);
            },
        };
        let header = slice_subrange(chars.as_slice(), 0, i);
        let rest = slice_subrange(chars.as_slice(), i + 4, end);
        assert(header@ =~= chars@.take(i as int));
        assert(rest@ =~= chars@.skip(i + 4));
        let tail = string_of(rest);
        let body = vstd::slice::slice_to_vec(tail.as_str().as_bytes());
        match HttpRequest::read_head(header, body) {
            Err(e) => Err(e),
            Ok(q) => {
                match q.headers.get("digest") {
                    Some(d) => match verify_digest(d, q.body.as_slice()) {
                        Ok(()) => {},
                        Err(e) => {
                            return Err(e);
                        },
                    },
                    None => {},
                }
                Ok(q)
            },
        }
    }

    /// Reads a request from octets. `plain` is what the codec of its content coding made of its body
    /// as sent, `None` where the codec failed; it is not looked at under the identity.
    pub fn from_bytes(bytes: &[u8], plain: Option<&[u8]>) -> (r: Result<Self, MessageError>)
        ensures
            match r {
                Ok(q) => q.inv() && request_of(bytes@, opt_bytes(plain)) == Ok::<
                    RequestView,
                    MessageError,
                >(q@),
                Err(e) => request_of(bytes@, opt_bytes(plain)) == Err::<RequestView, MessageError>(e),
            },
    {
        let q = match HttpRequest::receive(bytes) {
            Ok(q) => q,
            Err(e) => {
                return Err(e);
            },
        };
        let body = match q.headers.get("content-encoding") {
            Some(enc) => match decode_body(enc, q.body.as_slice(), plain) {
                Ok(b) => vstd::slice::slice_to_vec(b),
                Err(e) => {
                    return Err(e);
                },
            },
            None => {
                return Ok(q);
            },
        };
        Ok(HttpRequest { body, ..q })
    }

    pub fn accept(&self) -> (r: Option<&str>)
        requires
            self.inv(),
        ensures
            match r {
                Some(v) => field(self@.headers, "Accept"@) == Some(v@),
                None => field(self@.headers, "Accept"@) is None,
            },
    {
        self.headers.get("Accept")
    }

    pub fn accept_language(&self) -> (r: Option<&str>)
        requires
            self.inv(),
        ensures
            match r {
                Some(v) => field(self@.headers, "Accept-Language"@) == Some(v@),
                None => field(self@.headers, "Accept-Language"@) is None,
            },
    {
        self.headers.get("Accept-Language")
    }

    pub fn accept_encoding(&self) -> (r: Option<&str>)
        requires
            self.inv(),
        ensures
            match r {
                Some(v) => field(self@.headers, "Accept-Encoding"@) == Some(v@),
                None => field(self@.headers, "Accept-Encoding"@) is None,
            },
    {
        self.headers.get("Accept-Encoding")
    }

    pub fn accept_charset(&self) -> (r: Option<&str>)
        requires
            self.inv(),
        ensures
            match r {
                Some(v) => field(self@.headers, "Accept-Charset"@) == Some(v@),
                None => field(self@.headers, "Accept-Charset"@) is None,
            },
    {
        self.headers.get("Accept-Charset")
    }
}


/// Several values as one, with commas between them.
pub open spec fn listed(values: Seq<String>) -> Seq<char> {
    joined(values.map_values(|v: String| v@), ", "@)
}

fn join_list(values: &Vec<String>) -> (r: String)
    ensures
        r@ == listed(values@),
{
    let mut rows: Vec<Vec<char>> = Vec::new();
    let ghost all = values@.map_values(|v: String| v@);
    let mut i: usize = 0;
    assert(char_texts(rows@) =~= all.take(0));
    while i < values.len()
        invariant
            i <= values@.len(),
            all == values@.map_values(|v: String| v@),
            char_texts(rows@) == all.take(i as int),
        decreases values@.len() - i,
    {
        let ghost was = rows@;
        let row = chars_of(values[i].as_str());
        rows.push(row);
        assert(char_texts(rows@) =~= char_texts(was).push(row@));
        assert(all.take(i as int).push(all[i as int]) =~= all.take(i + 1));
        i = i + 1;
    }
    assert(all.take(all.len() as int) =~= all);
    string_of(join(&rows, ", ").as_slice())
}

impl HttpRequest {
    pub fn set_accept(&mut self, media_types: Vec<String>)
        requires
            old(self).inv(),
        ensures
            final(self).inv(),
            final(self)@ == with_header(old(self)@, "Accept"@, listed(media_types@)),
    {
        self.headers.insert("Accept", join_list(&media_types).as_str());
    }

    pub fn set_accept_language(&mut self, languages: Vec<String>)
        requires
            old(self).inv(),
        ensures
            final(self).inv(),
            final(self)@ == with_header(old(self)@, "Accept-Language"@, listed(languages@)),
    {
        self.headers.insert("Accept-Language", join_list(&languages).as_str());
    }

    pub fn set_accept_encoding(&mut self, encodings: Vec<String>)
        requires
            old(self).inv(),
        ensures
            final(self).inv(),
            final(self)@ == with_header(old(self)@, "Accept-Encoding"@, listed(encodings@)),
    {
        self.headers.insert("Accept-Encoding", join_list(&encodings).as_str());
    }

    pub fn set_accept_charset(&mut self, charsets: Vec<String>)
        requires
            old(self).inv(),
        ensures
            final(self).inv(),
            final(self)@ == with_header(old(self)@, "Accept-Charset"@, listed(charsets@)),
    {
        self.headers.insert("Accept-Charset", join_list(&charsets).as_str());
    }

    pub fn with_keep_alive(self) -> (r: Self)
        requires
            self.inv(),
        ensures
            r.inv(),
            r@ == with_header(self@, "Connection"@, "keep-alive"@),
    {
        self.header("Connection", "keep-alive")
    }

    pub fn without_keep_alive(self) -> (r: Self)
        requires
            self.inv(),
        ensures
            r.inv(),
            r@ == with_header(self@, "Connection"@, "close"@),
    {
        self.header("Connection", "close")
    }

    /// Whether the connection may stay open: unless the request says otherwise.
    pub fn wants_keep_alive(&self) -> (r: bool)
        requires
            self.inv(),
        ensures
            r == (match field(self@.headers, "connection"@) {
                Some(v) => !has_text(lowercase(v), "close"@),
                None => true,
            }),
    {
        match self.headers.get("connection") {
            Some(v) => {
                let lower = chars_of(unicode_lower(v).as_str());
                !contains_text(lower.as_slice(), "close")
            },
            None => true,
        }
    }

    pub fn set_connection(&mut self, keep_alive: bool)
        requires
            old(self).inv(),
        ensures
            final(self).inv(),
            final(self)@ == with_header(
                old(self)@,
                "Connection"@,
                if keep_alive {
                    "keep-alive"@
                } else {
                    "close"@
                },
            ),
    {
        if keep_alive {
            self.headers.insert("Connection", "keep-alive");
        } else {
            self.headers.insert("Connection", "close");
        }
    }

    pub fn set_header(&mut self, key: String, value: String)
        requires
            old(self).inv(),
        ensures
            final(self).inv(),
            final(self)@ == with_header(old(self)@, key@, value@),
    {
        self.headers.insert(key.as_str(), value.as_str());
    }

    /// Sets the body, and its length where there is one.
    pub fn set_body(&mut self, body: Vec<u8>)
        requires
            old(self).inv(),
        ensures
            final(self).inv(),
            final(self)@ == (if body@.len() == 0 {
                RequestView { body: body@, ..old(self)@ }
            } else {
                with_header(
                    RequestView { body: body@, ..old(self)@ },
                    "Content-Length"@,
                    decimal(body@.len()),
                )
            }),
    {
        let n: usize = body.len();
        self.body = body;
        if n > 0 {
            let size = string_of(to_decimal(n as u64).as_slice());
            self.headers.insert("Content-Length", size.as_str());
        }
    }
}

/// Puts a request together step by step.
pub struct RequestBuilder {
    request: HttpRequest,
}

impl View for RequestBuilder {
    type V = RequestView;

    closed spec fn view(&self) -> RequestView {
        self.request@
    }
}

impl RequestBuilder {
    pub open spec fn inv(&self) -> bool {
        in_name_order(self@.headers) && is_kept(self@.headers)
    }

    pub fn new(method: HttpMethod, path: &str) -> (r: Self)
        ensures
            r.inv(),
            r@ == (RequestView {
                method,
                path: path@,
                version: HttpVersion::Http11,
                headers: seq![],
                body: seq![],
            }),
    {
        RequestBuilder { request: HttpRequest::new(method, path) }
    }

    pub fn header(self, name: &str, value: &str) -> (r: Self)
        requires
            self.inv(),
        ensures
            r.inv(),
            r@ == with_header(self@, name@, value@),
    {
        RequestBuilder { request: self.request.header(name, value) }
    }

    pub fn body(self, body: Vec<u8>) -> (r: Self)
        requires
            self.inv(),
        ensures
            r.inv(),
            r@ == (RequestView { body: body@, ..self@ }),
    {
        RequestBuilder { request: self.request.body(body) }
    }

    pub fn build(self) -> (r: HttpRequest)
        requires
            self.inv(),
        ensures
            r.inv(),
            r@ == self@,
    {
        self.request
    }

    pub fn keep_alive(self, enable: bool) -> (r: Self)
        requires
            self.inv(),
        ensures
            r.inv(),
            r@ == with_header(
                self@,
                "Connection"@,
                if enable {
                    "keep-alive"@
                } else {
                    "close"@
                },
            ),
    {
        if enable {
            self.header("Connection", "keep-alive")
        } else {
            self.header("Connection", "close")
        }
    }

    pub fn connection(self, connection_type: &str) -> (r: Self)
        requires
            self.inv(),
        ensures
            r.inv(),
            r@ == with_header(self@, "Connection"@, connection_type@),
    {
        self.header("Connection", connection_type)
    }
}

/// The header of a request blob.
pub type SecureHttpRequestBlobMeta = EnvelopeMeta;

/// The line that serializes one value of a field.
pub open spec fn value_line(pair: (Seq<char>, Seq<char>)) -> Seq<char> {
    "h="@ + armoured_pair(pair.0, pair.1)
}

pub open spec fn start_lines(q: RequestView) -> Seq<Seq<char>> {
    seq![
        "method="@ + method_name(q.method),
        "path="@ + armour(q.path),
        "version="@ + version_name(q.version),
    ]
}

pub open spec fn field_lines_of(q: RequestView) -> Seq<Seq<char>> {
    flat(q.headers, q.headers.len() as int).map_values(
        |p: (Seq<char>, Seq<char>)| value_line(p),
    )
}

/// The lines that serialize a request.
pub open spec fn request_lines(q: RequestView) -> Seq<Seq<char>> {
    start_lines(q) + field_lines_of(q) + seq!["body="@ + encoded(q.body)]
}

pub open spec fn request_serialized(q: RequestView) -> Seq<u8> {
    encode_utf8(joined(request_lines(q), "\n"@))
}

/// What lines have said of a request so far.
pub struct PartialRequest {
    pub method: Option<HttpMethod>,
    pub path: Option<Seq<char>>,
    pub version: Option<HttpVersion>,
    pub headers: Fields,
    pub body: Seq<u8>,
}

pub open spec fn nothing_said() -> PartialRequest {
    PartialRequest { method: None, path: None, version: None, headers: seq![], body: seq![] }
}

/// What one line more says of a request; `None` where it cannot be read.
#[verifier::opaque]
pub open spec fn said(p: PartialRequest, line: Seq<char>) -> Option<PartialRequest> {
    let s = trimmed(line);
    if begins_with(s, "method="@) {
        Some(
            PartialRequest {
                method: method_named(trimmed(without_prefix(s, "method="@).unwrap())),
                ..p
            },
        )
    } else if begins_with(s, "path="@) {
        match unarmoured(trimmed(without_prefix(s, "path="@).unwrap())) {
            Some(path) => Some(PartialRequest { path: Some(path), ..p }),
            None => None,
        }
    } else if begins_with(s, "version="@) {
        Some(
            PartialRequest {
                version: version_named(trimmed(without_prefix(s, "version="@).unwrap())),
                ..p
            },
        )
    } else if begins_with(s, "h="@) {
        match pair_in(without_prefix(s, "h="@).unwrap()) {
            Some((name, v)) => Some(
                PartialRequest { headers: with_more(p.headers, name, v), ..p },
            ),
            None => None,
        }
    } else if begins_with(s, "body="@) {
        match decoded(trimmed(without_prefix(s, "body="@).unwrap())) {
            Some(body) => Some(PartialRequest { body, ..p }),
            None => None,
        }
    } else {
        Some(p)
    }
}

/// What the first `n` lines say of a request.
pub open spec fn all_said(lines: Seq<Seq<char>>, n: int) -> Option<PartialRequest>
    decreases n,
{
    if n <= 0 {
        Some(nothing_said())
    } else {
        match all_said(lines, n - 1) {
            Some(p) => said(p, lines[n - 1]),
            None => None,
        }
    }
}

/// The request, where all of it was said.
pub open spec fn complete(p: PartialRequest) -> Option<RequestView> {
    match (p.method, p.path, p.version) {
        (Some(method), Some(path), Some(version)) => Some(
            RequestView { method, path, version, headers: p.headers, body: p.body },
        ),
        _ => None,
    }
}

/// The request that was serialized.
pub open spec fn request_deserialized(raw: Seq<u8>) -> Option<RequestView> {
    if valid_utf8(raw) {
        let rows = lines_of(decode_utf8(raw));
        match all_said(rows, rows.len() as int) {
            Some(p) => complete(p),
            None => None,
        }
    } else {
        None
    }
}

proof fn lemma_unreadable_stays(lines: Seq<Seq<char>>, n: int, m: int)
    requires
        n <= m,
        all_said(lines, n) is None,
    ensures
        all_said(lines, m) is None,
    decreases m - n,
{
    if n < m {
        lemma_unreadable_stays(lines, n, m - 1);
    }
}

fn prefixed_line(mark: &str, rest: &[char]) -> (r: Vec<char>)
    ensures
        r@ == mark@ + rest@,
{
    let mut line = chars_of(mark);
    push_chars(&mut line, rest);
    line
}

/// Writes a request as lines.
pub fn serialize_http_request(request: &HttpRequest) -> (r: Vec<u8>)
    ensures
        r@ == request_serialized(request@),
{
    let ghost q = request@;
    let ghost pairs = flat(q.headers, q.headers.len() as int);
    let mut rows: Vec<Vec<char>> = Vec::new();
    rows.push(prefixed_line("method=", chars_of(request.method.as_str()).as_slice()));
    rows.push(prefixed_line("path=", armour_text(request.path.as_str()).as_slice()));
    rows.push(prefixed_line("version=", chars_of(request.version.as_str()).as_slice()));
    assert(char_texts(rows@) =~= start_lines(q));
    let mut i: usize = 0;
    assert(start_lines(q) + flat(q.headers, 0).map_values(
        |p: (Seq<char>, Seq<char>)| value_line(p),
    ) =~= start_lines(q));
    while i < request.headers.len()
        invariant
            q == request@,
            i <= q.headers.len(),
            char_texts(rows@) == start_lines(q) + flat(q.headers, i as int).map_values(
                |p: (Seq<char>, Seq<char>)| value_line(p),
            ),
        decreases q.headers.len() - i,
    {
        let name = request.headers.name_at(i);
        let values = request.headers.values_at(i);
        let ghost base = start_lines(q) + flat(q.headers, i as int).map_values(
            |p: (Seq<char>, Seq<char>)| value_line(p),
        );
        let ghost lines_here = values@.map_values(|v: Seq<char>| value_line((name@, v)));
        let mut k: usize = 0;
        assert(base + lines_here.take(0) =~= base);
        while k < values.len()
            invariant
                k <= values@.len(),
                lines_here == values@.map_values(|v: Seq<char>| value_line((name@, v))),
                char_texts(rows@) == base + lines_here.take(k as int),
            decreases values@.len() - k,
        {
            let line = header_line(name, values.at(k));
            let ghost was = rows@;
            rows.push(line);
            assert(char_texts(rows@) =~= char_texts(was).push(line@));
            assert(lines_here[k as int] == line@);
            assert(base + lines_here.take(k + 1) =~= (base + lines_here.take(k as int)).push(line@));
            k = k + 1;
        }
        proof {
            assert(lines_here.take(values@.len() as int) =~= lines_here);
            let next = flat(q.headers, i + 1).map_values(
                |p: (Seq<char>, Seq<char>)| value_line(p),
            );
            assert(base + lines_here =~= start_lines(q) + next);
        }
        i = i + 1;
    }
    let ghost was = rows@;
    let last = prefixed_line("body=", chars_of(encode(request.body.as_slice()).as_str()).as_slice());
    rows.push(last);
    assert(char_texts(rows@) =~= char_texts(was).push(last@));
    assert(char_texts(rows@) =~= request_lines(q));
    let joint = join(&rows, "\n");
    let text = string_of(joint.as_slice());
    vstd::slice::slice_to_vec(text.as_str().as_bytes())
}

struct RequestParts {
    method: Option<HttpMethod>,
    path: Option<String>,
    version: Option<HttpVersion>,
    headers: Headers,
    body: Vec<u8>,
}

impl RequestParts {
    spec fn view(&self) -> PartialRequest {
        PartialRequest {
            method: self.method,
            path: match self.path {
                Some(p) => Some(p@),
                None => None,
            },
            version: self.version,
            headers: self.headers@,
            body: self.body@,
        }
    }

    /// Takes in one line; fails where it cannot be read.
    fn hear(&mut self, line: &[char]) -> (r: bool)
        requires
            old(self).headers.inv(),
        ensures
            final(self).headers.inv(),
            match said(old(self)@, line@) {
                Some(p) => r && final(self)@ == p,
                None => !r,
            },
    {
        proof {
            reveal(said);
        }
        let s = trim(line);
        match strip_prefix(s, "method=") {
            Some(v) => {
                self.method = HttpMethod::from_chars(trim(v));
                return true;
            },
            None => {},
        }
        match strip_prefix(s, "path=") {
            Some(v) => {
                match read_armour(trim(v)) {
                    Some(p) => {
                        self.path = Some(p);
                        return true;
                    },
                    None => {
                        return false;
                    },
                }
            },
            None => {},
        }
        match strip_prefix(s, "version=") {
            Some(v) => {
                self.version = HttpVersion::from_chars(trim(v));
                return true;
            },
            None => {},
        }
        match strip_prefix(s, "h=") {
            Some(v) => {
                match read_pair(v) {
                    Some((name, value)) => {
                        self.headers.append(name.as_str(), value.as_str());
                        return true;
                    },
                    None => {
                        return false;
                    },
                }
            },
            None => {},
        }
        match strip_prefix(s, "body=") {
            Some(v) => {
                match decode_chars(trim(v)) {
                    Some(b) => {
                        self.body = b;
                        true
                    },
                    None => false,
                }
            },
            None => true,
        }
    }
}

/// Reads a request from the lines that `serialize_http_request` writes.
pub fn deserialize_http_request(raw_payload: &[u8]) -> (r: Option<HttpRequest>)
    ensures
        match r {
            Some(q) => q.inv() && request_deserialized(raw_payload@) == Some(q@),
            None => request_deserialized(raw_payload@) is None,
        },
{
    let text = utf8_text(raw_payload)?;
    let chars = chars_of(text.as_str());
    let rows = lines(chars.as_slice());
    let ghost all = lines_of(text@);
    let mut parts = RequestParts {
        method: None,
        path: None,
        version: None,
        headers: Headers::new(),
        body: Vec::new(),
    };
    let mut i: usize = 0;
    while i < rows.len()
        invariant
            i <= rows@.len(),
            texts(rows@) == all,
            all == lines_of(decode_utf8(raw_payload@)),
            valid_utf8(raw_payload@),
            parts.headers.inv(),
            all_said(all, i as int) == Some(parts@),
        decreases rows@.len() - i,
    {
        assert(all[i as int] == rows@[i as int]@);
        if !parts.hear(rows[i]) {
            proof {
                lemma_unreadable_stays(all, i + 1, all.len() as int);
            }
            return None;
        }
        i = i + 1;
    }
    match (parts.method, parts.path, parts.version) {
        (Some(method), Some(path), Some(version)) => Some(
            HttpRequest { method, path, version, headers: parts.headers, body: parts.body },
        ),
        _ => None,
    }
}


/// What a request blob holds.
pub open spec fn request_unsealed(data: Seq<u8>, plain: Option<Seq<u8>>) -> Result<
    (MetaView, RequestView),
    EnvelopeError,
> {
    carried(unsealed(BlobKind::Request, data, plain), |raw: Seq<u8>| request_deserialized(raw))
}

/// Chooses the coding for a request blob from an `Accept-Encoding` value.
pub fn select_secure_http_request_algorithm(accept_encoding: &str) -> (r: CompressionAlgorithm)
    ensures
        r == selected(accept_encoding@, true),
{
    select_any(accept_encoding)
}

/// Seals a request in a blob. `coded` is what the codec of `algorithm` made of the serialized request,
/// `None` where the codec failed; it is not looked at under the identity.
pub fn encode_secure_http_request(
    request: &HttpRequest,
    algorithm: CompressionAlgorithm,
    coded: Option<&[u8]>,
    nonce: &[u8],
    issued_at_unix: u64,
) -> (r: Result<(SecureHttpRequestBlobMeta, Vec<u8>), EnvelopeError>)
    ensures
        contents(r) == sealed(
            BlobKind::Request,
            request_serialized(request@),
            algorithm,
            opt_bytes(coded),
            nonce@,
            issued_at_unix as nat,
        ),
{
    let raw = serialize_http_request(request);
    seal(BlobKind::Request, raw.as_slice(), algorithm, coded, nonce, issued_at_unix)
}

/// Seals a request in the coding chosen from an `Accept-Encoding` value.
pub fn encode_secure_http_request_auto(
    request: &HttpRequest,
    accept_encoding: &str,
    coded: Option<&[u8]>,
    nonce: &[u8],
    issued_at_unix: u64,
) -> (r: Result<(SecureHttpRequestBlobMeta, Vec<u8>), EnvelopeError>)
    ensures
        contents(r) == sealed(
            BlobKind::Request,
            request_serialized(request@),
            selected(accept_encoding@, true),
            opt_bytes(coded),
            nonce@,
            issued_at_unix as nat,
        ),
{
    let algorithm = select_secure_http_request_algorithm(accept_encoding);
    encode_secure_http_request(request, algorithm, coded, nonce, issued_at_unix)
}

/// Opens a request blob. `plain` is what the codec made of the payload as sent, `None` where the codec
/// failed; it is not looked at under the identity.
pub fn decode_secure_http_request(data: &[u8], plain: Option<&[u8]>) -> (r: Result<
    (SecureHttpRequestBlobMeta, HttpRequest),
    EnvelopeError,
>)
    ensures
        match r {
            Ok((meta, q)) => q.inv() && request_unsealed(data@, opt_bytes(plain)) == Ok::<
                (MetaView, RequestView),
                EnvelopeError,
            >((meta@, q@)),
            Err(e) => request_unsealed(data@, opt_bytes(plain)) == Err::<
                (MetaView, RequestView),
                EnvelopeError,
            >(e),
        },
{
    match unseal(BlobKind::Request, data, plain) {
        Ok((meta, raw)) => match deserialize_http_request(raw.as_slice()) {
            Some(q) => Ok((meta, q)),
            None => Err(EnvelopeError::BadPayload),
        },
        Err(e) => Err(e),
    }
}

impl HttpRequest {
    /// See `encode_secure_http_request`.
    pub fn to_secure_blob(
        &self,
        algorithm: CompressionAlgorithm,
        coded: Option<&[u8]>,
        nonce: &[u8],
        issued_at_unix: u64,
    ) -> (r: Result<(SecureHttpRequestBlobMeta, Vec<u8>), EnvelopeError>)
        ensures
            contents(r) == sealed(
                BlobKind::Request,
                request_serialized(self@),
                algorithm,
                opt_bytes(coded),
                nonce@,
                issued_at_unix as nat,
            ),
    {
        encode_secure_http_request(self, algorithm, coded, nonce, issued_at_unix)
    }

    /// See `encode_secure_http_request_auto`.
    pub fn to_secure_blob_auto(
        &self,
        accept_encoding: &str,
        coded: Option<&[u8]>,
        nonce: &[u8],
        issued_at_unix: u64,
    ) -> (r: Result<(SecureHttpRequestBlobMeta, Vec<u8>), EnvelopeError>)
        ensures
            contents(r) == sealed(
                BlobKind::Request,
                request_serialized(self@),
                selected(accept_encoding@, true),
                opt_bytes(coded),
                nonce@,
                issued_at_unix as nat,
            ),
    {
        encode_secure_http_request_auto(self, accept_encoding, coded, nonce, issued_at_unix)
    }

    /// See `decode_secure_http_request`.
    pub fn from_secure_blob(data: &[u8], plain: Option<&[u8]>) -> (r: Result<
        (SecureHttpRequestBlobMeta, Self),
        EnvelopeError,
    >)
        ensures
            match r {
                Ok((meta, q)) => q.inv() && request_unsealed(data@, opt_bytes(plain)) == Ok::<
                    (MetaView, RequestView),
                    EnvelopeError,
                >((meta@, q@)),
                Err(e) => request_unsealed(data@, opt_bytes(plain)) == Err::<
                    (MetaView, RequestView),
                    EnvelopeError,
                >(e),
            },
    {
        decode_secure_http_request(data, plain)
    }
}

/// A line made of a mark and a tidy rest is read as such.
proof fn lemma_marked(mark: Seq<char>, rest: Seq<char>)
    requires
        tidy(mark),
        tidy(rest),
        mark.len() > 0,
    ensures
        trimmed(mark + rest) == mark + rest,
        begins_with(mark + rest, mark),
        without_prefix(mark + rest, mark) == Some(rest),
        trimmed(rest) == rest,
        is_line(mark + rest),
        (mark + rest)[0] == mark[0],
{
    let s = mark + rest;
    lemma_tidy_concat(mark, rest);
    lemma_tidy_line(s);
    lemma_trimmed_solid(s);
    lemma_trimmed_solid(rest);
    assert(s.take(mark.len() as int) =~= mark);
    assert(s.skip(mark.len() as int) =~= rest);
}

/// A text does not begin with a mark whose first character is another.
proof fn lemma_other_mark(s: Seq<char>, mark: Seq<char>)
    requires
        mark.len() > 0,
        s.len() > 0,
        s[0] != mark[0],
    ensures
        !begins_with(s, mark),
{
    if begins_with(s, mark) {
        assert(s.take(mark.len() as int)[0] == s[0]);
    }
}

proof fn lemma_marks()
    ensures
        tidy("method="@) && "method="@.len() > 0 && "method="@[0] == 'm',
        tidy("path="@) && "path="@.len() > 0 && "path="@[0] == 'p',
        tidy("version="@) && "version="@.len() > 0 && "version="@[0] == 'v',
        tidy("h="@) && "h="@.len() > 0 && "h="@[0] == 'h',
        tidy("body="@) && "body="@.len() > 0 && "body="@[0] == 'b',
{
    reveal_strlit("method=");
    reveal_strlit("path=");
    reveal_strlit("version=");
    reveal_strlit("h=");
    reveal_strlit("body=");
}

proof fn lemma_names_tidy(m: HttpMethod, v: HttpVersion)
    ensures
        tidy(method_name(m)),
        tidy(version_name(v)),
{
    reveal_strlit("GET");
    reveal_strlit("POST");
    reveal_strlit("PUT");
    reveal_strlit("DELETE");
    reveal_strlit("HEAD");
    reveal_strlit("OPTIONS");
    reveal_strlit("PATCH");
    reveal_strlit("TRACE");
    reveal_strlit("CONNECT");
    reveal_strlit("HTTP/1.0");
    reveal_strlit("HTTP/1.1");
    reveal_strlit("HTTP/2.0");
    reveal_strlit("HTTP/3.0");
}

/// What each line of a serialized request says.
proof fn lemma_said(q: RequestView, p: PartialRequest, pair: (Seq<char>, Seq<char>))
    ensures
        said(p, "method="@ + method_name(q.method)) == Some(
            PartialRequest { method: Some(q.method), ..p },
        ),
        said(p, "path="@ + armour(q.path)) == Some(PartialRequest { path: Some(q.path), ..p }),
        said(p, "version="@ + version_name(q.version)) == Some(
            PartialRequest { version: Some(q.version), ..p },
        ),
        said(p, value_line(pair)) == Some(
            PartialRequest { headers: with_more(p.headers, pair.0, pair.1), ..p },
        ),
        said(p, "body="@ + encoded(q.body)) == Some(PartialRequest { body: q.body, ..p }),
        is_line("method="@ + method_name(q.method)),
        is_line("path="@ + armour(q.path)),
        is_line("version="@ + version_name(q.version)),
        is_line(value_line(pair)),
        is_line("body="@ + encoded(q.body)),
{
    reveal(said);
    lemma_marks();
    lemma_names_tidy(q.method, q.version);
    law_method_names(q.method);
    law_version_names(q.version);
    law_armour_roundtrip(q.path);
    law_pair_roundtrip(pair.0, pair.1);
    law_base64_roundtrip(q.body);
    lemma_encoded_symbols(q.body);
    lemma_armoured_tidy(encoded(q.body));
    lemma_marked("method="@, method_name(q.method));
    lemma_marked("path="@, armour(q.path));
    lemma_marked("version="@, version_name(q.version));
    lemma_marked("h="@, armoured_pair(pair.0, pair.1));
    lemma_marked("body="@, encoded(q.body));
    lemma_other_mark("path="@ + armour(q.path), "method="@);
    lemma_other_mark("version="@ + version_name(q.version), "method="@);
    lemma_other_mark("version="@ + version_name(q.version), "path="@);
    lemma_other_mark(value_line(pair), "method="@);
    lemma_other_mark(value_line(pair), "path="@);
    lemma_other_mark(value_line(pair), "version="@);
    lemma_other_mark("body="@ + encoded(q.body), "method="@);
    lemma_other_mark("body="@ + encoded(q.body), "path="@);
    lemma_other_mark("body="@ + encoded(q.body), "version="@);
    lemma_other_mark("body="@ + encoded(q.body), "h="@);
}

/// What the start lines and the first `k` field lines say.
proof fn lemma_fields_said(q: RequestView, k: int)
    requires
        0 <= k <= flat(q.headers, q.headers.len() as int).len(),
    ensures
        all_said(request_lines(q), 3 + k) == Some(
            PartialRequest {
                method: Some(q.method),
                path: Some(q.path),
                version: Some(q.version),
                headers: gathered(flat(q.headers, q.headers.len() as int).take(k)),
                body: seq![],
            },
        ),
    decreases k,
{
    let l = request_lines(q);
    let pairs = flat(q.headers, q.headers.len() as int);
    if k == 0 {
        let p = nothing_said();
        lemma_said(q, p, (seq![], seq![]));
        let p1 = PartialRequest { method: Some(q.method), ..p };
        lemma_said(q, p1, (seq![], seq![]));
        let p2 = PartialRequest { path: Some(q.path), ..p1 };
        lemma_said(q, p2, (seq![], seq![]));
        assert(l[0] == start_lines(q)[0] && l[1] == start_lines(q)[1] && l[2] == start_lines(q)[2]);
        assert(all_said(l, 0) == Some(p));
        assert(all_said(l, 1) == Some(p1));
        assert(all_said(l, 2) == Some(p2));
        assert(pairs.take(0) =~= seq![]);
    } else {
        lemma_fields_said(q, k - 1);
        let p = all_said(l, 3 + k - 1).unwrap();
        lemma_said(q, p, pairs[k - 1]);
        assert(l[3 + k - 1] == value_line(pairs[k - 1]));
        assert(pairs.take(k).drop_last() =~= pairs.take(k - 1));
        assert(pairs.take(k).last() == pairs[k - 1]);
    }
}

/// A request that was serialized is read back as it was.
pub proof fn law_request_roundtrip(q: RequestView)
    requires
        in_name_order(q.headers),
        is_kept(q.headers),
    ensures
        request_deserialized(request_serialized(q)) == Some(q),
{
    let l = request_lines(q);
    let n = q.headers.len() as int;
    let pairs = flat(q.headers, n);
    let text = joined(l, "\n"@);
    reveal_strlit("\n");
    assert("\n"@ =~= seq!['\n']);
    assert(l.len() == 4 + pairs.len());
    assert forall|i: int| 0 <= i < l.len() implies is_line(#[trigger] l[i]) by {
        if i < 3 {
            lemma_said(q, nothing_said(), (seq![], seq![]));
            assert(l[i] == start_lines(q)[i]);
        } else if i < 3 + pairs.len() {
            lemma_said(q, nothing_said(), pairs[i - 3]);
            assert(l[i] == value_line(pairs[i - 3]));
        } else {
            lemma_said(q, nothing_said(), (seq![], seq![]));
            assert(l[i] == "body="@ + encoded(q.body));
        }
    }
    lemma_lines_joined(l);
    encode_utf8_valid_utf8(text);
    encode_utf8_decode_utf8(text);
    lemma_fields_said(q, pairs.len() as int);
    assert(pairs.take(pairs.len() as int) =~= pairs);
    law_gather_flat(q.headers, n);
    assert(q.headers.take(n) =~= q.headers);
    let p = all_said(l, 3 + pairs.len() as int).unwrap();
    lemma_said(q, p, (seq![], seq![]));
    assert(l[3 + pairs.len() as int] == "body="@ + encoded(q.body));
}

/// A request comes out of a blob as it went in, given that the codec undoes what it did.
pub proof fn law_request_blob_roundtrip(
    q: RequestView,
    algorithm: CompressionAlgorithm,
    coded: Option<Seq<u8>>,
    nonce: Seq<u8>,
    issued_at: nat,
)
    requires
        in_name_order(q.headers),
        is_kept(q.headers),
        request_serialized(q).len() <= usize::MAX,
        coded matches Some(c) ==> c.len() <= usize::MAX,
        issued_at <= u64::MAX,
    ensures
        sealed(BlobKind::Request, request_serialized(q), algorithm, coded, nonce, issued_at) matches Ok(
            (meta, data),
        ) ==> request_unsealed(data, Some(request_serialized(q))) == Ok::<
            (MetaView, RequestView),
            EnvelopeError,
        >((meta, q)),
{
    law_blob_roundtrip(BlobKind::Request, request_serialized(q), algorithm, coded, nonce, issued_at);
    law_request_roundtrip(q);
}


/// Whether fields can be sent and read back: each has one value, and neither name nor value has line ends
/// or white space around it.
pub open spec fn all_sendable(h: Fields) -> bool {
    &&& in_name_order(h)
    &&& is_kept(h)
    &&& forall|i: int|
        0 <= i < h.len() ==> (#[trigger] h[i]).1.len() == 1 && is_sendable_field(h[i].0, h[i].1[0])
}

/// Whether a request can be sent and read back: its path is a word, its fields can be sent, its body is
/// text, no content coding is named, and a digest that is given is that of the body.
pub open spec fn is_sendable_request(q: RequestView, host: Seq<char>) -> bool {
    &&& solid(q.path) && q.path.len() > 0
    &&& all_sendable(q.headers)
    &&& clean(host) && trimmed(host) == host
    &&& valid_utf8(q.body)
    &&& field(q.headers, "content-encoding"@) is None
    &&& field(q.headers, "digest"@) matches Some(d) ==> digest_fault(d, q.body) is None
}

pub proof fn lemma_set_sendable(h: Fields, name: Seq<char>, v: Seq<char>)
    requires
        all_sendable(h),
        is_sendable_field(lowered(name), v),
    ensures
        all_sendable(with_field(h, name, v)),
{
    let out = with_field(h, name, v);
    let key = lowered(name);
    law_put_in_order(h, key, seq![v]);
    lemma_put_entries(h, key, seq![v]);
    assert(lowered(key) =~= key);
    assert forall|i: int| 0 <= i < out.len() implies lowered((#[trigger] out[i]).0) == out[i].0
        && out[i].1.len() == 1 && is_sendable_field(out[i].0, out[i].1[0]) by {
        if h.contains(out[i]) {
            let k = choose|k: int| 0 <= k < h.len() && h[k] == out[i];
            assert(lowered(h[k].0) == h[k].0 && h[k].1.len() == 1);
        }
    }
}

/// A plain name: its letters, digits and hyphens need no care on the wire.
pub open spec fn is_plain(s: Seq<char>) -> bool {
    tidy(s) && lacks(s, ':')
}

pub proof fn lemma_plain_field(name: Seq<char>, v: Seq<char>)
    requires
        is_plain(name),
        clean(v),
        trimmed(v) == v,
    ensures
        is_sendable_field(lowered(name), v),
{
    let key = lowered(name);
    assert forall|i: int| 0 <= i < key.len() implies #[trigger] key[i] != '\r' && key[i] != '\n'
        && key[i] != ':' && !is_white(key[i]) by {
        assert(key[i] == lower(name[i]));
        assert(!is_white(name[i]));
    }
    lemma_trimmed_solid(key);
}

pub proof fn lemma_tidy_clean(v: Seq<char>)
    requires
        tidy(v),
    ensures
        clean(v),
        trimmed(v) == v,
{
    lemma_trimmed_solid(v);
    assert forall|i: int| 0 <= i < v.len() implies #[trigger] v[i] != '\r' && v[i] != '\n' by {
        assert(!is_white(v[i]));
    }
}

/// Setting a field where it is missing keeps fields sendable and other fields as they are.
proof fn lemma_defaulted(h: Fields, name: Seq<char>, v: Seq<char>)
    requires
        all_sendable(h),
        is_sendable_field(lowered(name), v),
    ensures
        all_sendable(defaulted(h, name, v)),
        forall|other: Seq<char>|
            lowered(other) != lowered(name) ==> #[trigger] field(defaulted(h, name, v), other) == field(
                h,
                other,
            ),
{
    lemma_set_sendable(h, name, v);
    assert forall|other: Seq<char>| lowered(other) != lowered(name) implies #[trigger] field(
        defaulted(h, name, v),
        other,
    ) == field(h, other) by {
        law_field_set(h, name, v, other);
    }
}

/// What the names of the fields that are added look like.
proof fn lemma_added_names()
    ensures
        is_plain("Host"@) && lowered("Host"@).len() == 4,
        is_plain("User-Agent"@) && lowered("User-Agent"@).len() == 10 && lowered("User-Agent"@)[0] == 'u',
        is_plain("Accept"@) && lowered("Accept"@).len() == 6 && lowered("Accept"@)[0] == 'a',
        is_plain("Accept-Encoding"@) && lowered("Accept-Encoding"@).len() == 15,
        is_plain("Connection"@) && lowered("Connection"@).len() == 10 && lowered("Connection"@)[0] == 'c',
        is_plain("Content-Length"@) && lowered("Content-Length"@).len() == 14,
        is_plain("Digest"@) && lowered("Digest"@) == lowered("digest"@),
        is_plain("X-Content-SHA256"@) && lowered("X-Content-SHA256"@).len() == 16
            && lowered("X-Content-SHA256"@)[0] == 'x',
        lowered("content-encoding"@).len() == 16 && lowered("content-encoding"@)[0] == 'c',
        lowered("digest"@).len() == 6 && lowered("digest"@)[0] == 'd',
        lowered("content-length"@) == lowered("Content-Length"@),
        clean("Singularity/0.0.1"@) && trimmed("Singularity/0.0.1"@) == "Singularity/0.0.1"@,
        clean("*/*"@) && trimmed("*/*"@) == "*/*"@,
        clean("br, zstd, gzip, deflate, identity"@),
        trimmed("br, zstd, gzip, deflate, identity"@) == "br, zstd, gzip, deflate, identity"@,
        clean("keep-alive"@) && trimmed("keep-alive"@) == "keep-alive"@,
{
    reveal_strlit("Host");
    reveal_strlit("User-Agent");
    reveal_strlit("Accept");
    reveal_strlit("Accept-Encoding");
    reveal_strlit("Connection");
    reveal_strlit("Content-Length");
    reveal_strlit("Digest");
    reveal_strlit("X-Content-SHA256");
    reveal_strlit("content-encoding");
    reveal_strlit("digest");
    reveal_strlit("Singularity/0.0.1");
    reveal_strlit("*/*");
    reveal_strlit("br, zstd, gzip, deflate, identity");
    reveal_strlit("keep-alive");
    reveal_strlit("content-length");
    assert(lowered("Digest"@) =~= lowered("digest"@));
    assert(lowered("content-length"@) =~= lowered("Content-Length"@));
    lemma_trimmed_solid("Singularity/0.0.1"@);
    lemma_trimmed_solid("*/*"@);
    lemma_trimmed_solid("br, zstd, gzip, deflate, identity"@);
    lemma_trimmed_solid("keep-alive"@);
}

pub proof fn lemma_with_defaults(h: Fields, host: Seq<char>)
    requires
        all_sendable(h),
        clean(host) && trimmed(host) == host,
    ensures
        all_sendable(with_defaults(h, host)),
        field(with_defaults(h, host), "content-encoding"@) == field(h, "content-encoding"@),
        field(with_defaults(h, host), "digest"@) == field(h, "digest"@),
        field(with_defaults(h, host), "content-length"@) == field(h, "content-length"@),
{
    lemma_added_names();
    lemma_plain_field("Host"@, host);
    lemma_plain_field("User-Agent"@, "Singularity/0.0.1"@);
    lemma_plain_field("Accept"@, "*/*"@);
    lemma_plain_field("Accept-Encoding"@, "br, zstd, gzip, deflate, identity"@);
    lemma_plain_field("Connection"@, "keep-alive"@);
    let a = defaulted(h, "Host"@, host);
    lemma_defaulted(h, "Host"@, host);
    let b = defaulted(a, "User-Agent"@, "Singularity/0.0.1"@);
    lemma_defaulted(a, "User-Agent"@, "Singularity/0.0.1"@);
    let c = defaulted(b, "Accept"@, "*/*"@);
    lemma_defaulted(b, "Accept"@, "*/*"@);
    let d = defaulted(c, "Accept-Encoding"@, "br, zstd, gzip, deflate, identity"@);
    lemma_defaulted(c, "Accept-Encoding"@, "br, zstd, gzip, deflate, identity"@);
    lemma_defaulted(d, "Connection"@, "keep-alive"@);
    assert(field(a, "content-encoding"@) == field(h, "content-encoding"@));
    assert(field(b, "content-encoding"@) == field(a, "content-encoding"@));
    assert(field(c, "content-encoding"@) == field(b, "content-encoding"@));
    assert(field(d, "content-encoding"@) == field(c, "content-encoding"@));
    assert(field(a, "digest"@) == field(h, "digest"@));
    assert(field(b, "digest"@) == field(a, "digest"@));
    assert(field(c, "digest"@) == field(b, "digest"@));
    assert(field(d, "digest"@) == field(c, "digest"@));
    assert(field(a, "content-length"@) == field(h, "content-length"@));
    assert(field(b, "content-length"@) == field(a, "content-length"@));
    assert(field(c, "content-length"@) == field(b, "content-length"@));
    assert(field(d, "content-length"@) == field(c, "content-length"@));
}

proof fn lemma_hex_clean(s: Seq<u8>)
    ensures
        clean(hex(s)),
        trimmed(hex(s)) == hex(s),
{
    let h = hex(s);
    assert forall|i: int| 0 <= i < h.len() implies #[trigger] h[i] != '\r' && h[i] != '\n'
        && !is_white(h[i]) by {
        let b = s[i / 2] as int;
        assert(0 <= b / 16 < 16 && 0 <= b % 16 < 16);
    }
    lemma_trimmed_solid(h);
}

pub proof fn lemma_with_integrity(h: Fields, wire: Seq<u8>)
    requires
        all_sendable(h),
        field(h, "content-encoding"@) is None,
        field(h, "digest"@) matches Some(d) ==> digest_fault(d, wire) is None,
    ensures
        all_sendable(with_integrity(h, wire)),
        field(with_integrity(h, wire), "content-encoding"@) is None,
        field(with_integrity(h, wire), "digest"@) matches Some(d) ==> digest_fault(d, wire) is None,
        field(with_integrity(h, wire), "digest"@) == (if wire.len() > 0 && field(h, "digest"@) is None {
            Some(digest_value(wire))
        } else {
            field(h, "digest"@)
        }),
        field(with_integrity(h, wire), "content-length"@) == (if wire.len() > 0 {
            Some(decimal(wire.len()))
        } else {
            field(h, "content-length"@)
        }),
{
    if wire.len() > 0 {
        lemma_added_names();
        lemma_decimal_tidy(wire.len());
        lemma_tidy_clean(decimal(wire.len()));
        law_own_digest(wire);
        lemma_tidy_clean(digest_value(wire));
        lemma_hex_clean(sha256_of(wire));
        lemma_plain_field("Content-Length"@, decimal(wire.len()));
        lemma_plain_field("Digest"@, digest_value(wire));
        lemma_plain_field("X-Content-SHA256"@, hex(sha256_of(wire)));
        let sized = with_field(h, "Content-Length"@, decimal(wire.len()));
        lemma_set_sendable(h, "Content-Length"@, decimal(wire.len()));
        law_field_set(h, "Content-Length"@, decimal(wire.len()), "content-encoding"@);
        law_field_set(h, "Content-Length"@, decimal(wire.len()), "digest"@);
        let signed = with_field(sized, "Digest"@, digest_value(wire));
        lemma_set_sendable(sized, "Digest"@, digest_value(wire));
        law_field_set(sized, "Digest"@, digest_value(wire), "content-encoding"@);
        law_field_set(sized, "Digest"@, digest_value(wire), "digest"@);
        lemma_set_sendable(signed, "X-Content-SHA256"@, hex(sha256_of(wire)));
        law_field_set(signed, "X-Content-SHA256"@, hex(sha256_of(wire)), "content-encoding"@);
        law_field_set(signed, "X-Content-SHA256"@, hex(sha256_of(wire)), "digest"@);
        assert(field(sized, "Digest"@) == field(sized, "digest"@));
        law_field_set(h, "Content-Length"@, decimal(wire.len()), "content-length"@);
        law_field_set(sized, "Digest"@, digest_value(wire), "content-length"@);
        law_field_set(signed, "X-Content-SHA256"@, hex(sha256_of(wire)), "content-length"@);
    }
}

/// The header lines of fields.
pub open spec fn lines_for(h: Fields) -> Seq<Seq<char>> {
    h.map_values(|f: (Seq<char>, Seq<Seq<char>>)| bare_line((f.0, f.1[0])))
}

pub proof fn lemma_fields_wire(h: Fields, n: int)
    requires
        all_sendable(h),
        0 <= n <= h.len(),
    ensures
        fields_wire(h, n) == crlf_ended(lines_for(h).take(n)),
    decreases n,
{
    let l = lines_for(h);
    if n == 0 {
        assert(l.take(0) =~= seq![]);
    } else {
        lemma_fields_wire(h, n - 1);
        let name = h[n - 1].0;
        let values = h[n - 1].1;
        assert(values.len() == 1);
        lemma_bare_line((name, values[0]));
        assert(l.take(n).drop_last() =~= l.take(n - 1));
        assert(l.take(n).last() == bare_line((name, values[0])));
        assert(field_wire(name, values, 0) =~= seq![]);
        assert(field_wire(name, values, 1) =~= wire_line(name, values[0]));
        assert(fields_wire(h, n) =~= crlf_ended(l.take(n)));
    }
}

proof fn lemma_lines_back(start: Seq<char>, h: Fields, i: int)
    requires
        all_sendable(h),
        0 <= i <= h.len(),
    ensures
        fields_set(seq![start] + lines_for(h), h.take(i), i + 1) == Ok::<Fields, MessageError>(h),
    decreases h.len() - i,
{
    let l = seq![start] + lines_for(h);
    if i == h.len() {
        assert(h.take(i) =~= h);
    } else {
        let name = h[i].0;
        assert(h[i].1.len() == 1 && lowered(name) == name);
        let v = h[i].1[0];
        assert(l[i + 1] == bare_line((name, v)));
        lemma_bare_line((name, v));
        let was = h.take(i);
        assert forall|j: int| 0 <= j < was.len() implies before((#[trigger] was[j]).0, name) by {
            assert(before(h[j].0, h[i].0));
        }
        lemma_put_last(was, name, seq![v]);
        assert(h[i].1 =~= seq![v]);
        assert(was.push(h[i]) =~= h.take(i + 1));
        lemma_lines_back(start, h, i + 1);
    }
}

/// A request that was written to the wire is read back: the same method, path, version and body, and the
/// fields with which it was sent.
pub proof fn law_request_wire(
    q: RequestView,
    host: Seq<char>,
    coded: Option<Seq<u8>>,
    plain: Option<Seq<u8>>,
)
    requires
        is_sendable_request(q, host),
    ensures
        request_of(built(q, host, true, coded), plain) == Ok::<RequestView, MessageError>(
            RequestView { headers: sent_fields(q, host, true, coded), ..q },
        ),
{
    let full = with_defaults(q.headers, host);
    lemma_with_defaults(q.headers, host);
    assert(wire_body(full, q.body, coded) == q.body);
    let h = sent_fields(q, host, true, coded);
    lemma_with_integrity(full, q.body);
    let start = method_name(q.method) + " "@ + q.path + " "@ + version_name(q.version);
    let lines = seq![start] + lines_for(h);
    let text = joined(lines, crlf());
    let ghost tail = decode_utf8(q.body);
    decode_utf8_encode_utf8(q.body);
    reveal_strlit(" ");
    reveal_strlit("\r\n");
    reveal_strlit("\r\n\r\n");
    assert(" "@ =~= seq![' ']);
    assert("\r\n"@ =~= crlf());
    assert("\r\n\r\n"@ =~= seq!['\r', '\n', '\r', '\n']);
    lemma_names_tidy(q.method, q.version);
    lemma_names_long(q.method, q.version);
    lemma_three_words(method_name(q.method), q.path, version_name(q.version));
    assert(is_header_line(start)) by {
        assert forall|j: int| 0 <= j < start.len() implies #[trigger] start[j] != '\r' && start[j]
            != '\n' by {
            let m = method_name(q.method);
            let p = q.path;
            if j < m.len() {
                assert(start[j] == m[j]);
                assert(!is_white(m[j]));
            } else if j > m.len() && j < m.len() + 1 + p.len() {
                assert(start[j] == p[j - m.len() - 1]);
                assert(!is_white(p[j - m.len() - 1]));
            } else if j > m.len() + 1 + p.len() {
                assert(start[j] == version_name(q.version)[j - m.len() - p.len() - 2]);
                assert(!is_white(version_name(q.version)[j - m.len() - p.len() - 2]));
            }
        }
    }
    assert forall|i: int| 0 <= i < lines.len() implies is_header_line(#[trigger] lines[i]) by {
        if i > 0 {
            assert(h[i - 1].1.len() == 1);
            assert(lines[i] == bare_line((h[i - 1].0, h[i - 1].1[0])));
            lemma_bare_line((h[i - 1].0, h[i - 1].1[0]));
        }
    }
    lemma_fields_wire(h, h.len() as int);
    assert(lines_for(h).take(h.len() as int) =~= lines_for(h));
    lemma_crlf_front(start, lines_for(h));
    lemma_crlf_ended(lines);
    let head = start + crlf() + fields_wire(h, h.len() as int) + crlf();
    assert(head =~= text + (crlf() + crlf()));
    let bytes = built(q, host, true, coded);
    lemma_utf8_concat(head, tail);
    assert(bytes =~= encode_utf8(head + tail));
    encode_utf8_valid_utf8(head + tail);
    encode_utf8_decode_utf8(head + tail);
    let whole = head + tail;
    lemma_header_end(lines, tail);
    assert(whole =~= text + (crlf() + crlf()) + tail);
    let i = text.len() as int;
    assert(whole.take(i) =~= text);
    assert(whole.skip(i + 4) =~= tail);
    lemma_header_lines(lines);
    assert(lines[0] == start);
    law_method_names(q.method);
    law_version_names(q.version);
    lemma_lines_back(start, h, 0);
    assert(h.take(0) =~= seq![]);
}

pub proof fn lemma_names_long(m: HttpMethod, v: HttpVersion)
    ensures
        method_name(m).len() > 0,
        version_name(v).len() > 0,
{
    reveal_strlit("GET");
    reveal_strlit("POST");
    reveal_strlit("PUT");
    reveal_strlit("DELETE");
    reveal_strlit("HEAD");
    reveal_strlit("OPTIONS");
    reveal_strlit("PATCH");
    reveal_strlit("TRACE");
    reveal_strlit("CONNECT");
    reveal_strlit("HTTP/1.0");
    reveal_strlit("HTTP/1.1");
    reveal_strlit("HTTP/2.0");
    reveal_strlit("HTTP/3.0");
}

/// A request that was received keeps all but its body. Without a content coding that is the one that was sent; under
/// one it is what the codec made of it, as it came under the identity.
pub proof fn law_received_request(bytes: Seq<u8>, plain: Option<Seq<u8>>, a: CompressionAlgorithm)
    ensures
        request_received(bytes) matches Ok(r) ==> match request_of(bytes, plain) {
            Ok(q) => {
                &&& q.method == r.method && q.path == r.path && q.version == r.version && q.headers == r.headers
                &&& field(r.headers, "content-encoding"@) is None ==> q.body == r.body
                &&& field(r.headers, "content-encoding"@) matches Some(e) ==> lowered(trimmed(e)) == coding_name(a)
                    ==> if a == CompressionAlgorithm::Identity {
                    q.body == r.body
                } else {
                    plain == Some(q.body)
                }
            },
            Err(_) => field(r.headers, "content-encoding"@) matches Some(e) && (lowered(trimmed(e)) == coding_name(a)
                ==> a != CompressionAlgorithm::Identity && plain is None),
        },
        request_received(bytes) matches Err(e) ==> request_of(bytes, plain) == Err::<RequestView, MessageError>(e),
{
    if let Ok(r) = request_received(bytes) {
        if let Some(e) = field(r.headers, "content-encoding"@) {
            law_decoded_body(e, r.body, plain, a);
        }
    }
}

/// A request is sent with the body that the codec made where its fields name a coding, and with its own body where they
/// name none or the identity, or where the codec made nothing. What is sent has its length told, and its digest, unless
/// one was given.
pub proof fn law_sent_body(h: Fields, body: Seq<u8>, coded: Option<Seq<u8>>, a: CompressionAlgorithm, other: Seq<char>)
    requires
        in_name_order(h),
    ensures
        ({
            let wire = wire_body(h, body, coded);
            let out = with_integrity(h, wire);
            let named = field(h, "content-encoding"@) matches Some(e) && lowered(trimmed(e)) == coding_name(a);
            &&& field(h, "content-encoding"@) is None ==> wire == body
            &&& named && (a == CompressionAlgorithm::Identity || coded is None) ==> wire == body
            &&& named && a != CompressionAlgorithm::Identity && coded is Some ==> coded == Some(wire)
            &&& wire.len() == 0 ==> out == h
            &&& wire.len() > 0 ==> field(out, "content-length"@) == Some(decimal(wire.len()))
            &&& wire.len() > 0 && field(h, "digest"@) is None ==> field(out, "digest"@) == Some(digest_value(wire))
                && field(out, "x-content-sha256"@) == Some(hex(sha256_of(wire)))
            &&& field(h, "digest"@) is Some ==> field(out, "digest"@) == field(h, "digest"@)
            &&& lowered(other) != lowered("content-length"@) && lowered(other) != lowered("digest"@) && lowered(other)
                != lowered("x-content-sha256"@) ==> field(out, other) == field(h, other)
        }),
{
    if let Some(e) = field(h, "content-encoding"@) {
        law_decoded_body(e, body, coded, a);
    }
    let wire = wire_body(h, body, coded);
    let n = decimal(wire.len());
    let d = digest_value(wire);
    let x = hex(sha256_of(wire));
    lemma_added_names();
    reveal_strlit("X-Content-SHA256");
    reveal_strlit("x-content-sha256");
    assert(lowered("X-Content-SHA256"@) =~= lowered("x-content-sha256"@));
    let sized = with_field(h, "Content-Length"@, n);
    law_put_in_order(h, lowered("Content-Length"@), seq![n]);
    let signed = with_field(sized, "Digest"@, d);
    law_put_in_order(sized, lowered("Digest"@), seq![d]);
    law_field_set(h, "Content-Length"@, n, "content-length"@);
    law_field_set(h, "Content-Length"@, n, "digest"@);
    law_field_set(h, "Content-Length"@, n, other);
    law_field_set(sized, "Digest"@, d, "content-length"@);
    law_field_set(sized, "Digest"@, d, "digest"@);
    law_field_set(sized, "Digest"@, d, other);
    law_field_set(signed, "X-Content-SHA256"@, x, "content-length"@);
    law_field_set(signed, "X-Content-SHA256"@, x, "digest"@);
    law_field_set(signed, "X-Content-SHA256"@, x, "x-content-sha256"@);
    law_field_set(signed, "X-Content-SHA256"@, x, other);
    assert(field(sized, "Digest"@) == field(sized, "digest"@));
}

proof fn lemma_default_set(h: Fields, name: Seq<char>, v: Seq<char>, other: Seq<char>)
    requires
        in_name_order(h),
    ensures
        in_name_order(defaulted(h, name, v)),
        field(defaulted(h, name, v), other) == (if field(h, other) is None && lowered(other) == lowered(name) {
            Some(v)
        } else {
            field(h, other)
        }),
{
    law_put_in_order(h, lowered(name), seq![v]);
    law_field_set(h, name, v, other);
}

/// The fields that every request has are set where they are missing, and only there.
pub proof fn law_defaults_fill_gaps(h: Fields, host: Seq<char>, name: Seq<char>)
    requires
        in_name_order(h),
    ensures
        field(h, name) is Some ==> field(with_defaults(h, host), name) == field(h, name),
        field(h, "host"@) is None ==> field(with_defaults(h, host), "host"@) == Some(host),
        field(h, "user-agent"@) is None ==> field(with_defaults(h, host), "user-agent"@) == Some("Singularity/0.0.1"@),
        field(h, "accept"@) is None ==> field(with_defaults(h, host), "accept"@) == Some("*/*"@),
        field(h, "accept-encoding"@) is None ==> field(with_defaults(h, host), "accept-encoding"@) == Some(
            "br, zstd, gzip, deflate, identity"@,
        ),
        field(h, "connection"@) is None ==> field(with_defaults(h, host), "connection"@) == Some("keep-alive"@),
        field(h, name) is None && lowered(name) != "host"@ && lowered(name) != "user-agent"@ && lowered(name)
            != "accept"@ && lowered(name) != "accept-encoding"@ && lowered(name) != "connection"@ ==> field(
            with_defaults(h, host),
            name,
        ) is None,
{
    lemma_defaults_of(h, host, name);
    lemma_defaults_of(h, host, "host"@);
    lemma_defaults_of(h, host, "user-agent"@);
    lemma_defaults_of(h, host, "accept"@);
    lemma_defaults_of(h, host, "accept-encoding"@);
    lemma_defaults_of(h, host, "connection"@);
    lemma_default_names();
}

proof fn lemma_default_names()
    ensures
        lowered("Host"@) == "host"@ && lowered("host"@) == "host"@,
        lowered("User-Agent"@) == "user-agent"@ && lowered("user-agent"@) == "user-agent"@,
        lowered("Accept"@) == "accept"@ && lowered("accept"@) == "accept"@,
        lowered("Accept-Encoding"@) == "accept-encoding"@ && lowered("accept-encoding"@) == "accept-encoding"@,
        lowered("Connection"@) == "connection"@ && lowered("connection"@) == "connection"@,
        "host"@.len() == 4 && "user-agent"@.len() == 10 && "accept"@.len() == 6 && "accept-encoding"@.len() == 15,
        "connection"@.len() == 10 && "connection"@[0] == 'c' && "user-agent"@[0] == 'u',
{
    reveal_strlit("Host");
    reveal_strlit("host");
    reveal_strlit("User-Agent");
    reveal_strlit("user-agent");
    reveal_strlit("Accept");
    reveal_strlit("accept");
    reveal_strlit("Accept-Encoding");
    reveal_strlit("accept-encoding");
    reveal_strlit("Connection");
    reveal_strlit("connection");
    assert(lowered("Host"@) =~= "host"@ && lowered("host"@) =~= "host"@);
    assert(lowered("User-Agent"@) =~= "user-agent"@ && lowered("user-agent"@) =~= "user-agent"@);
    assert(lowered("Accept"@) =~= "accept"@ && lowered("accept"@) =~= "accept"@);
    assert(lowered("Accept-Encoding"@) =~= "accept-encoding"@ && lowered("accept-encoding"@) =~= "accept-encoding"@);
    assert(lowered("Connection"@) =~= "connection"@ && lowered("connection"@) =~= "connection"@);
}

proof fn lemma_defaults_of(h: Fields, host: Seq<char>, name: Seq<char>)
    requires
        in_name_order(h),
    ensures
        field(with_defaults(h, host), name) == (if field(h, name) is Some {
            field(h, name)
        } else if lowered(name) == lowered("Host"@) {
            Some(host)
        } else if lowered(name) == lowered("User-Agent"@) {
            Some("Singularity/0.0.1"@)
        } else if lowered(name) == lowered("Accept"@) {
            Some("*/*"@)
        } else if lowered(name) == lowered("Accept-Encoding"@) {
            Some("br, zstd, gzip, deflate, identity"@)
        } else if lowered(name) == lowered("Connection"@) {
            Some("keep-alive"@)
        } else {
            None
        }),
{
    let a = defaulted(h, "Host"@, host);
    lemma_default_set(h, "Host"@, host, name);
    let b = defaulted(a, "User-Agent"@, "Singularity/0.0.1"@);
    lemma_default_set(a, "User-Agent"@, "Singularity/0.0.1"@, name);
    let c = defaulted(b, "Accept"@, "*/*"@);
    lemma_default_set(b, "Accept"@, "*/*"@, name);
    let d = defaulted(c, "Accept-Encoding"@, "br, zstd, gzip, deflate, identity"@);
    lemma_default_set(c, "Accept-Encoding"@, "br, zstd, gzip, deflate, identity"@, name);
    lemma_default_set(d, "Connection"@, "keep-alive"@, name);
}

}
