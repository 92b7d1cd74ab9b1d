//! An HTTP server apart from its sockets: its settings, how it reads a request, how it completes and
//! writes a response, and its sealed profile.
use vstd::prelude::*;
use vstd::slice::slice_subrange;
use vstd::string::StringSliceAdditionalSpecFns;
use vstd::utf8::{
    decode_utf8, encode_utf8, encode_utf8_decode_utf8, encode_utf8_valid_utf8, valid_utf8,
};

use crate::bytes::{hex, push_bytes, to_hex};
use crate::crypto::base64::encode;
use crate::crypto::sha256::{sha256, sha256_of};
use crate::decimal::{decimal, law_decimal_roundtrip, parse_u64, parse_usize, parsed, to_decimal};
use crate::net::address::{address_words, canonical_address, is_address, lemma_address_some, NoAddress};
use crate::net::blob::{law_blob_roundtrip, opt_bytes, seal, sealed, unseal, unsealed, BlobKind};
use crate::net::envelope::{carried, contents, lemma_decimal_tidy, EnvelopeError, EnvelopeMeta, MetaView};
use crate::net::http::compression::{
    coding_name, coding_named, law_coding_names, select_any, selected, CompressionAlgorithm,
};
use crate::net::http::fields::{armour, armour_text, law_armour_roundtrip, read_armour, unarmoured};
use crate::net::http::headers::{field, law_field_set, with_field, Fields};
use crate::net::http::message::{
    digest_value, law_own_digest, strict_digest_fault, verify_digest_strictly, MessageError,
};
use crate::net::http::method::HttpMethod;
use crate::net::http::negotiation::{
    negotiated_encoding, negotiated_language, negotiated_media, opt_text, strs, ContentNegotiator,
};
use crate::net::http::request::{with_header, HttpRequest, RequestView};
use crate::net::http::response::{
    push_wire_line, table_wire, wire_line, FieldTable, HttpResponse, ResponseView,
};
use crate::net::http::trailer::{first_line_len, lemma_line_len, line_len};
use crate::net::http::version::{law_version_names, version_name, version_named, HttpVersion};
use crate::table::{
    in_name_order, law_put_in_order, law_put_value, law_value_nocase_stands, put, value, value_nocase, Table,
};
use crate::text::{
    char_texts, chars_of, contains_text, find, find_char, has_text, is_line, is_text, is_text_nocase, join, joined,
    lacks, law_lowercase_settles, lemma_find_is, lemma_first_occurrence, lemma_lines_joined, lemma_tidy_concat,
    lemma_tidy_line, lemma_trimmed_solid, lines, lines_of, lowercase, lowered, occurs_at, push_chars, push_text,
    same_nocase, string_of, texts, tidy, to_lower, trim, trimmed, unicode_lower, utf8_text, words, words_of,
};

verus! {

/// What a server is set to. Times are in milliseconds.
#[derive(Debug, Clone, Copy, PartialEq, Eq, Structural)]
pub struct HttpServerCfg {
    pub max_connections: usize,
    pub request_timeout_ms: u64,
    pub max_body_size: usize,
    pub keep_alive_timeout_ms: u64,
    pub keep_alive: bool,
    pub default_version: HttpVersion,
}

pub open spec fn default_cfg() -> HttpServerCfg {
    HttpServerCfg {
        max_connections: 100,
        request_timeout_ms: 30000,
        max_body_size: 10485760,
        keep_alive_timeout_ms: 5000,
        keep_alive: true,
        default_version: HttpVersion::Http11,
    }
}

impl Default for HttpServerCfg {
    fn default() -> (r: Self)
        ensures
            r == default_cfg(),
    {
        HttpServerCfg {
            max_connections: 100,
            request_timeout_ms: 30000,
            max_body_size: 10485760,
            keep_alive_timeout_ms: 5000,
            keep_alive: true,
            default_version: HttpVersion::Http11,
        }
    }
}

/// A server was started that is not bound to an address.
#[derive(Debug, Clone, Copy, PartialEq, Eq, Structural)]
pub struct NotBound;

/// The state of a server. The address is in the words in which socket addresses are written.
#[derive(Debug, Clone)]
pub struct HttpServer {
    pub cfg: HttpServerCfg,
    pub address: Option<String>,
    pub handler_installed: bool,
    pub listener_installed: bool,
    pub running: bool,
}

#[verifier::ext_equal]
pub struct ServerView {
    pub cfg: HttpServerCfg,
    pub address: Option<Seq<char>>,
    pub handler_installed: bool,
    pub listener_installed: bool,
    pub running: bool,
}

impl View for HttpServer {
    type V = ServerView;

    open spec fn view(&self) -> ServerView {
        ServerView {
            cfg: self.cfg,
            address: opt_text(self.address),
            handler_installed: self.handler_installed,
            listener_installed: self.listener_installed,
            running: self.running,
        }
    }
}

/// A server that was only set up.
pub open spec fn idle(cfg: HttpServerCfg) -> ServerView {
    ServerView {
        cfg,
        address: None,
        handler_installed: false,
        listener_installed: false,
        running: false,
    }
}

impl Default for HttpServer {
    fn default() -> (r: Self)
        ensures
            r@ == idle(default_cfg()),
    {
        HttpServer::new()
    }
}

impl HttpServer {
    pub fn new() -> (r: Self)
        ensures
            r@ == idle(default_cfg()),
    {
        HttpServer::with_cfg(HttpServerCfg::default())
    }

    pub fn with_cfg(config: HttpServerCfg) -> (r: Self)
        ensures
            r@ == idle(config),
    {
        HttpServer {
            cfg: config,
            address: None,
            handler_installed: false,
            listener_installed: false,
            running: false,
        }
    }

    /// Notes that a handler was installed.
    pub fn set_handler(&mut self)
        ensures
            final(self)@ == (ServerView { handler_installed: true, ..old(self)@ }),
    {
        self.handler_installed = true;
    }

    /// Notes that a listener was bound to an address; fails where the text denotes none.
    pub fn bind(&mut self, addr: &str) -> (r: Result<(), NoAddress>)
        ensures
            match address_words(addr@) {
                Some(w) => r is Ok && final(self)@ == (ServerView {
                    address: Some(w),
                    listener_installed: true,
                    ..old(self)@
                }),
                None => r is Err && final(self)@ == old(self)@,
            },
    {
        match canonical_address(addr) {
            Some(w) => {
                self.address = Some(w);
                self.listener_installed = true;
                Ok(())
            },
            None => Err(NoAddress),
        }
    }

    /// Starts the server, which takes listener and handler for itself. Fails where it is not bound.
    pub fn start(&mut self) -> (r: Result<(), NotBound>)
        ensures
            match r {
                Ok(()) => old(self)@.listener_installed && final(self)@ == (ServerView {
                    listener_installed: false,
                    handler_installed: false,
                    running: true,
                    ..old(self)@
                }),
                Err(_) => !old(self)@.listener_installed && final(self)@ == old(self)@,
            },
    {
        if !self.listener_installed {
            return Err(NotBound);
        }
        self.listener_installed = false;
        self.handler_installed = false;
        self.running = true;
        Ok(())
    }

    pub fn stop(&mut self)
        ensures
            final(self)@ == (ServerView { running: false, ..old(self)@ }),
    {
        self.running = false;
    }
}

/// The methods that the server serves.
pub open spec fn served_method(s: Seq<char>) -> Option<HttpMethod> {
    if s == "GET"@ {
        Some(HttpMethod::GET)
    } else if s == "POST"@ {
        Some(HttpMethod::POST)
    } else if s == "PUT"@ {
        Some(HttpMethod::PUT)
    } else if s == "DELETE"@ {
        Some(HttpMethod::DELETE)
    } else if s == "HEAD"@ {
        Some(HttpMethod::HEAD)
    } else if s == "OPTIONS"@ {
        Some(HttpMethod::OPTIONS)
    } else if s == "PATCH"@ {
        Some(HttpMethod::PATCH)
    } else {
        None
    }
}

fn read_served_method(s: &[char]) -> (r: Option<HttpMethod>)
    ensures
        r == served_method(s@),
{
    if is_text(s, "GET") {
        Some(HttpMethod::GET)
    } else if is_text(s, "POST") {
        Some(HttpMethod::POST)
    } else if is_text(s, "PUT") {
        Some(HttpMethod::PUT)
    } else if is_text(s, "DELETE") {
        Some(HttpMethod::DELETE)
    } else if is_text(s, "HEAD") {
        Some(HttpMethod::HEAD)
    } else if is_text(s, "OPTIONS") {
        Some(HttpMethod::OPTIONS)
    } else if is_text(s, "PATCH") {
        Some(HttpMethod::PATCH)
    } else {
        None
    }
}

/// Method and path that a request line gives; the version that it names is not kept.
pub open spec fn request_line(line: Seq<char>) -> Result<(HttpMethod, Seq<char>), MessageError> {
    let w = words_of(trimmed(line));
    if w.len() < 3 {
        Err(MessageError::BadStartLine)
    } else {
        match served_method(w[0]) {
            Some(m) => Ok((m, w[1])),
            None => Err(MessageError::BadMethod),
        }
    }
}

/// The head of a request: its fields, the length of its body and how much of the octets it takes.
#[verifier::ext_equal]
pub struct HeadView {
    pub headers: FieldTable,
    pub length: nat,
    pub size: nat,
}

/// The length that a field gives to the body; as before where the field is another one.
pub open spec fn length_after(name: Seq<char>, v: Seq<char>, length: nat) -> nat {
    if same_nocase(name, "content-length"@) {
        match parsed(v, usize::MAX as nat) {
            Some(n) => n,
            None => 0,
        }
    } else {
        length
    }
}

/// The head that lines of octets make, up to a blank line or the end, added to what came before.
/// Lines without a colon are passed over.
pub open spec fn head_in(data: Seq<u8>, sofar: HeadView) -> Result<HeadView, MessageError>
    decreases data.len(),
{
    let n = line_len(data);
    if n <= 0 || n > data.len() {
        Ok(sofar)
    } else if !valid_utf8(data.take(n)) {
        Err(MessageError::NotUtf8)
    } else {
        let line = decode_utf8(data.take(n));
        if trimmed(line).len() == 0 {
            Ok(HeadView { size: (sofar.size + n) as nat, ..sofar })
        } else {
            match find(line, ':') {
                None => head_in(data.skip(n), HeadView { size: (sofar.size + n) as nat, ..sofar }),
                Some(i) => {
                    let name = trimmed(line.take(i));
                    let v = trimmed(line.skip(i + 1));
                    head_in(
                        data.skip(n),
                        HeadView {
                            headers: put(sofar.headers, name, v),
                            length: length_after(name, v, sofar.length),
                            size: (sofar.size + n) as nat,
                        },
                    )
                },
            }
        }
    }
}

/// The head of a request, its request line included, with method and path.
pub open spec fn request_head(data: Seq<u8>) -> Result<
    (HttpMethod, Seq<char>, HeadView),
    MessageError,
> {
    let n = line_len(data);
    if !valid_utf8(data.take(n)) {
        Err(MessageError::NotUtf8)
    } else {
        match request_line(decode_utf8(data.take(n))) {
            Err(e) => Err(e),
            Ok((method, path)) => match head_in(
                data.skip(n),
                HeadView { headers: seq![], length: 0, size: n as nat },
            ) {
                Err(e) => Err(e),
                Ok(head) => Ok((method, path, head)),
            },
        }
    }
}

/// The coding in which a body came; the identity where no field names one or the body is empty.
pub open spec fn request_coding(headers: FieldTable, length: nat) -> Option<CompressionAlgorithm> {
    match value_nocase(headers, "content-encoding"@) {
        Some(e) => if same_nocase(e, "identity"@) || length == 0 {
            Some(CompressionAlgorithm::Identity)
        } else {
            coding_named(lowered(e))
        },
        None => Some(CompressionAlgorithm::Identity),
    }
}

/// The fields of a request that the first `n` entries of a table set.
pub open spec fn fields_of(h: FieldTable, n: int) -> Fields
    decreases n,
{
    if n <= 0 {
        seq![]
    } else {
        with_field(fields_of(h, n - 1), h[n - 1].0, h[n - 1].1)
    }
}

/// A request with a body and, where that is not empty, its length.
pub open spec fn with_body(q: RequestView, body: Seq<u8>) -> RequestView {
    if body.len() == 0 {
        RequestView { body, ..q }
    } else {
        with_header(RequestView { body, ..q }, "Content-Length"@, decimal(body.len()))
    }
}

/// The body that a request holds once its coding is undone.
pub open spec fn plain_body(headers: FieldTable, body: Seq<u8>, plain: Option<Seq<u8>>) -> Result<
    Seq<u8>,
    MessageError,
> {
    match request_coding(headers, body.len()) {
        None => Err(MessageError::UnsupportedCoding),
        Some(CompressionAlgorithm::Identity) => Ok(body),
        Some(_) => match plain {
            Some(p) => Ok(p),
            None => Err(MessageError::Codec),
        },
    }
}

/// The request with these parts, if its body can be decoded and goes with its digest.
pub open spec fn completed(
    method: HttpMethod,
    path: Seq<char>,
    headers: FieldTable,
    body: Seq<u8>,
    plain: Option<Seq<u8>>,
) -> Result<RequestView, MessageError> {
    match plain_body(headers, body, plain) {
        Err(e) => Err(e),
        Ok(b) => match (match value_nocase(headers, "digest"@) {
            Some(d) => strict_digest_fault(d, b),
            None => None,
        }) {
            Some(e) => Err(e),
            None => Ok(
                with_body(
                    RequestView {
                        method,
                        path,
                        version: HttpVersion::Http11,
                        headers: fields_of(headers, headers.len() as int),
                        body: seq![],
                    },
                    b,
                ),
            ),
        },
    }
}

/// How long the body is that follows a head.
pub open spec fn body_size(data: Seq<u8>, max_body_size: nat) -> Result<nat, MessageError> {
    match request_head(data) {
        Err(e) => Err(e),
        Ok((_, _, head)) => if head.length > max_body_size {
            Err(MessageError::BodyTooLarge)
        } else {
            Ok(head.length)
        },
    }
}

/// The request that octets hold; `plain` is what the codec made of the body as sent.
pub open spec fn served_request(data: Seq<u8>, max_body_size: nat, plain: Option<Seq<u8>>) -> Result<
    RequestView,
    MessageError,
> {
    match request_head(data) {
        Err(e) => Err(e),
        Ok((method, path, head)) => if head.length > max_body_size {
            Err(MessageError::BodyTooLarge)
        } else if head.size + head.length > data.len() {
            Err(MessageError::BodyTooShort)
        } else {
            completed(
                method,
                path,
                head.headers,
                data.subrange(head.size as int, (head.size + head.length) as int),
                plain,
            )
        },
    }
}

struct Head {
    method: HttpMethod,
    path: String,
    headers: Table<String>,
    length: usize,
    size: usize,
}

fn read_request_line(line: &[char]) -> (r: Result<(HttpMethod, String), MessageError>)
    ensures
        match r {
            Ok((m, p)) => request_line(line@) == Ok::<_, MessageError>((m, p@)),
            Err(e) => request_line(line@) == Err::<(HttpMethod, Seq<char>), _>(e),
        },
{
    let parts = words(trim(line));
    assert(texts(parts@).len() == parts@.len());
    if parts.len() < 3 {
        return Err(MessageError::BadStartLine);
    }
    assert(texts(parts@)[0] == parts@[0]@ && texts(parts@)[1] == parts@[1]@);
    match read_served_method(parts[0]) {
        Some(m) => Ok((m, string_of(parts[1]))),
        None => Err(MessageError::BadMethod),
    }
}

fn read_head(data: &[u8]) -> (r: Result<Head, MessageError>)
    ensures
        match r {
            Ok(h) => {
                &&& h.headers.inv()
                &&& h.size <= data@.len()
                &&& request_head(data@) == Ok::<_, MessageError>(
                    (
                        h.method,
                        h.path@,
                        HeadView {
                            headers: h.headers@,
                            length: h.length as nat,
                            size: h.size as nat,
                        },
                    ),
                )
            },
            Err(e) => request_head(data@) == Err::<(HttpMethod, Seq<char>, HeadView), _>(e),
        },
{
    let first = first_line_len(data);
    proof {
        lemma_line_len(data@);
    }
    let piece = slice_subrange(data, 0, first);
    assert(piece@ =~= data@.take(first as int));
    let text = match utf8_text(piece) {
        Some(t) => t,
        None => {
            return Err(MessageError::NotUtf8);
        },
    };
    let (method, path) = match read_request_line(chars_of(text.as_str()).as_slice()) {
        Ok(parts) => parts,
        Err(e) => {
            return Err(e);
        },
    };
    match read_head_fields(data, first) {
        Ok(h) => Ok(Head { method, path, headers: h.headers, length: h.length, size: h.size }),
        Err(e) => Err(e),
    }
}

/// The fields of a head that were read, the length that they give to the body, and where the head ends.
#[derive(Debug, Clone)]
pub struct HeadFields {
    pub headers: Table<String>,
    pub length: usize,
    pub size: usize,
}

impl View for HeadFields {
    type V = HeadView;

    open spec fn view(&self) -> HeadView {
        HeadView { headers: self.headers@, length: self.length as nat, size: self.size as nat }
    }
}

/// Reads the fields of a head, which begin at `first`.
pub fn read_head_fields(data: &[u8], first: usize) -> (r: Result<HeadFields, MessageError>)
    requires
        first <= data@.len(),
    ensures
        ({
            let due = head_in(
                data@.skip(first as int),
                HeadView { headers: seq![], length: 0, size: first as nat },
            );
            match r {
                Ok(h) => h.headers.inv() && h.size <= data@.len() && due == Ok::<HeadView, MessageError>(
                    h@,
                ),
                Err(e) => due == Err::<HeadView, MessageError>(e),
            }
        }),
{
    let end: usize = data.len();
    let ghost start = HeadView { headers: seq![], length: 0, size: first as nat };
    let ghost whole = head_in(data@.skip(first as int), start);
    let mut headers: Table<String> = Table::new();
    let mut length: usize = 0;
    let mut from: usize = first;
    loop
        invariant_except_break
            head_in(
                data@.skip(from as int),
                HeadView { headers: headers@, length: length as nat, size: from as nat },
            ) == whole,
        invariant
            from <= end == data@.len(),
            headers.inv(),
            whole == head_in(data@.skip(first as int), start),
            start == (HeadView { headers: seq![], length: 0, size: first as nat }),
        ensures
            from <= data@.len(),
            headers.inv(),
            whole == Ok::<_, MessageError>(
                (HeadView { headers: headers@, length: length as nat, size: from as nat }),
            ),
        decreases end - from,
    {
        let ghost rest = data@.skip(from as int);
        proof {
            lemma_line_len(rest);
        }
        let n = first_line_len(slice_subrange(data, from, end));
        assert(data@.subrange(from as int, end as int) =~= rest);
        if n == 0 {
            break ;
        }
        let piece = slice_subrange(data, from, from + n);
        assert(piece@ =~= rest.take(n as int));
        assert(data@.skip(from + n) =~= rest.skip(n as int));
        let text = match utf8_text(piece) {
            Some(t) => t,
            None => {
                return Err(MessageError::NotUtf8);
            },
        };
        let line = chars_of(text.as_str());
        if trim(line.as_slice()).len() == 0 {
            from = from + n;
            break ;
        }
        let stop: usize = line.len();
        match find_char(line.as_slice(), ':') {
            Some(i) => {
                let left = slice_subrange(line.as_slice(), 0, i);
                let right = slice_subrange(line.as_slice(), i + 1, stop);
                assert(left@ =~= line@.take(i as int));
                assert(right@ =~= line@.skip(i + 1));
                let name = trim(left);
                let v = trim(right);
                if is_text_nocase(name, "content-length") {
                    length = match parse_usize(v) {
                        Some(k) => k,
                        None => 0,
                    };
                }
                headers.insert(string_of(name), string_of(v));
            },
            None => {},
        }
        from = from + n;
    }
    Ok(HeadFields { headers, length, size: from })
}

/// Reads the coding in which a body came.
fn read_request_coding(headers: &Table<String>, length: usize) -> (r: Option<CompressionAlgorithm>)
    ensures
        r == request_coding(headers@, length as nat),
{
    match headers.get_nocase("content-encoding") {
        Some(e) => {
            let name = chars_of(e.as_str());
            if is_text_nocase(name.as_slice(), "identity") || length == 0 {
                Some(CompressionAlgorithm::Identity)
            } else {
                CompressionAlgorithm::from_chars(to_lower(name.as_slice()).as_slice())
            }
        },
        None => Some(CompressionAlgorithm::Identity),
    }
}

impl HttpServer {
    /// Tells how long the body is that follows a request's head. `data` holds the head at least.
    pub fn body_length(data: &[u8], config: &HttpServerCfg) -> (r: Result<usize, MessageError>)
        ensures
            match r {
                Ok(n) => body_size(data@, config.max_body_size as nat) == Ok::<nat, MessageError>(
                    n as nat,
                ),
                Err(e) => body_size(data@, config.max_body_size as nat) == Err::<nat, MessageError>(e),
            },
    {
        match read_head(data) {
            Ok(head) => {
                if head.length > config.max_body_size {
                    Err(MessageError::BodyTooLarge)
                } else {
                    Ok(head.length)
                }
            },
            Err(e) => Err(e),
        }
    }

    /// Tells the coding in which the body of a request came; `None` where it is not known.
    pub fn body_coding(data: &[u8]) -> (r: Result<Option<CompressionAlgorithm>, MessageError>)
        ensures
            match r {
                Ok(c) => request_head(data@) matches Ok((_, _, head)) && c == request_coding(
                    head.headers,
                    head.length,
                ),
                Err(e) => request_head(data@) == Err::<(HttpMethod, Seq<char>, HeadView), _>(e),
            },
    {
        match read_head(data) {
            Ok(head) => Ok(read_request_coding(&head.headers, head.length)),
            Err(e) => Err(e),
        }
    }

    /// Reads a request from octets. `plain` is what the codec made of the body as sent, `None` where
    /// the codec failed; it is not looked at under the identity.
    pub fn parse_request(data: &[u8], config: &HttpServerCfg, plain: Option<&[u8]>) -> (r: Result<
        HttpRequest,
        MessageError,
    >)
        ensures
            match r {
                Ok(q) => q.inv() && served_request(
                    data@,
                    config.max_body_size as nat,
                    opt_bytes(plain),
                ) == Ok::<RequestView, MessageError>(q@),
                Err(e) => served_request(data@, config.max_body_size as nat, opt_bytes(plain)) == Err::<
                    RequestView,
                    MessageError,
                >(e),
            },
    {
        let head = match read_head(data) {
            Ok(h) => h,
            Err(e) => {
                return Err(e);
            },
        };
        if head.length > config.max_body_size {
            return Err(MessageError::BodyTooLarge);
        }
        if head.length > data.len() - head.size {
            return Err(MessageError::BodyTooShort);
        }
        let sent = slice_subrange(data, head.size, head.size + head.length);
        Self::complete(head.method, head.path.as_str(), &head.headers, sent, plain)
    }

    fn complete(
        method: HttpMethod,
        path: &str,
        headers: &Table<String>,
        sent: &[u8],
        plain: Option<&[u8]>,
    ) -> (r: Result<HttpRequest, MessageError>)
        requires
            headers.inv(),
        ensures
            match r {
                Ok(q) => q.inv() && completed(method, path@, headers@, sent@, opt_bytes(plain)) == Ok::<
                    RequestView,
                    MessageError,
                >(q@),
                Err(e) => completed(method, path@, headers@, sent@, opt_bytes(plain)) == Err::<
                    RequestView,
                    MessageError,
                >(e),
            },
    {
        let body = match read_request_coding(headers, sent.len()) {
            None => {
                return Err(MessageError::UnsupportedCoding);
            },
            Some(CompressionAlgorithm::Identity) => sent,
            Some(_) => match plain {
                Some(p) => p,
                None => {
                    return Err(MessageError::Codec);
                },
            },
        };
        match headers.get_nocase("digest") {
            Some(d) => match verify_digest_strictly(d.as_str(), body) {
                Ok(()) => {},
                Err(e) => {
                    return Err(e);
                },
            },
            None => {},
        }
        let mut request = HttpRequest::new(method, path);
        let mut i: usize = 0;
        while i < headers.len()
            invariant
                i <= headers@.len(),
                request.inv(),
                request@ == (RequestView {
                    method,
                    path: path@,
                    version: HttpVersion::Http11,
                    headers: fields_of(headers@, i as int),
                    body: seq![],
                }),
            decreases headers@.len() - i,
        {
            request.set_header(headers.name_at(i).to_owned(), headers.value_at(i).as_str().to_owned());
            i = i + 1;
        }
        request.set_body(vstd::slice::slice_to_vec(body));
        Ok(request)
    }
}

/// The coding that a response gets: the chosen one, where there is a body and no coding is set.
pub open spec fn response_coding(r: ResponseView, chosen: Option<CompressionAlgorithm>) ->
    CompressionAlgorithm {
    if r.body.len() == 0 || value(r.headers, "Content-Encoding"@) is Some {
        CompressionAlgorithm::Identity
    } else {
        match chosen {
            Some(a) => a,
            None => CompressionAlgorithm::Identity,
        }
    }
}

/// The fields of a response with a content type.
pub open spec fn typed(h: FieldTable) -> FieldTable {
    if value(h, "Content-Type"@) is Some {
        h
    } else {
        put(h, "Content-Type"@, "application/octet-stream"@)
    }
}

/// The fields of a response with length and digests of its body as sent.
pub open spec fn measured(h: FieldTable, wire: Seq<u8>) -> FieldTable {
    put(
        put(
            put(h, "Content-Length"@, decimal(wire.len())),
            "Digest"@,
            digest_value(wire),
        ),
        "X-Content-SHA256"@,
        hex(sha256_of(wire)),
    )
}

/// The response as it is sent; `None` where the codec failed.
pub open spec fn finalized(
    r: ResponseView,
    chosen: Option<CompressionAlgorithm>,
    coded: Option<Seq<u8>>,
) -> Option<ResponseView> {
    let h = typed(r.headers);
    match response_coding(r, chosen) {
        CompressionAlgorithm::Identity => Some(
            ResponseView { headers: measured(h, r.body), ..r },
        ),
        a => match coded {
            Some(c) => Some(
                ResponseView {
                    headers: measured(put(h, "Content-Encoding"@, coding_name(a)), c),
                    body: c,
                    ..r
                },
            ),
            None => None,
        },
    }
}

/// The head of a response on the wire.
pub open spec fn sent_head(r: ResponseView) -> Seq<char> {
    version_name(r.version) + " "@ + decimal(r.status as nat) + " "@ + r.reason + "\r\n"@ + table_wire(
        r.headers,
        r.headers.len() as int,
    ) + (if value(r.headers, "Content-Length"@) is None && r.body.len() > 0 {
        wire_line("Content-Length"@, decimal(r.body.len()))
    } else {
        seq![]
    }) + "\r\n"@
}

pub open spec fn sent_response(r: ResponseView) -> Seq<u8> {
    encode_utf8(sent_head(r)) + r.body
}

/// A page of HTML with a status.
pub open spec fn page(status: u16, reason: Seq<char>, body: Seq<char>) -> ResponseView {
    ResponseView {
        status,
        reason,
        version: HttpVersion::Http11,
        headers: put(seq![], "Content-Type"@, "text/html"@),
        body: encode_utf8(body),
    }
}

/// The answer where no handler is installed.
pub open spec fn not_found_page(path: Seq<char>) -> ResponseView {
    page(
        404,
        "Not Found"@,
        "<!DOCTYPE html><html><body><h1>404 Not Found</h1><p>The requested URL was not found on this path: "@
            + path + "</p></body></html>"@,
    )
}

/// The answer that tells of an error.
pub open spec fn error_page(status: u16, reason: Seq<char>) -> ResponseView {
    page(
        status,
        reason,
        "<!DOCTYPE html><html><body><h1>"@ + decimal(status as nat) + " "@ + reason
            + "</h1></body></html>"@,
    )
}

/// Whether a field value asks to close the connection.
pub open spec fn asks_close(v: Option<Seq<char>>) -> bool {
    v matches Some(t) && has_text(lowercase(t), "close"@)
}

/// Whether the connection ends after a request and its response.
pub open spec fn ends(keep_alive: bool, request: Fields, response: FieldTable) -> bool {
    !keep_alive || asks_close(field(request, "Connection"@)) || asks_close(
        value(response, "Connection"@),
    )
}

fn wants_close(v: &str) -> (r: bool)
    ensures
        r == asks_close(Some(v@)),
{
    let lower = chars_of(unicode_lower(v).as_str());
    contains_text(lower.as_slice(), "close")
}

fn make_page(status: u16, reason: &str, body: &[char]) -> (r: HttpResponse)
    ensures
        r.inv(),
        r@ == page(status, reason@, body@),
{
    let mut headers: Table<String> = Table::new();
    headers.insert("Content-Type".to_owned(), "text/html".to_owned());
    let text = string_of(body);
    HttpResponse::new(
        status,
        reason.to_owned(),
        HttpVersion::Http11,
        headers,
        vstd::slice::slice_to_vec(text.as_str().as_bytes()),
    )
}

impl HttpServer {
    /// Completes a response: gives it a content type, the chosen coding, its length and its digests.
    /// `chosen` is the coding that suits the request, `None` where none does; `coded` is what its
    /// codec made of the body, `None` where the codec failed. Fails only where it did and is needed.
    pub fn finalize_response_for_request(
        response: &HttpResponse,
        chosen: Option<CompressionAlgorithm>,
        coded: Option<&[u8]>,
    ) -> (r: Option<HttpResponse>)
        requires
            response.inv(),
        ensures
            match r {
                Some(q) => q.inv() && finalized(response@, chosen, opt_bytes(coded)) == Some(q@),
                None => finalized(response@, chosen, opt_bytes(coded)) is None,
            },
    {
        let mut headers = response.headers().copy();
        if !headers.contains("Content-Type") {
            headers.insert("Content-Type".to_owned(), "application/octet-stream".to_owned());
        }
        let used = if response.body().len() == 0 || response.headers().contains("Content-Encoding") {
            CompressionAlgorithm::Identity
        } else {
            match chosen {
                Some(a) => a,
                None => CompressionAlgorithm::Identity,
            }
        };
        let wire = match used {
            CompressionAlgorithm::Identity => response.body(),
            _ => match coded {
                Some(c) => {
                    headers.insert("Content-Encoding".to_owned(), used.content_encoding().to_owned());
                    c
                },
                None => {
                    return None;
                },
            },
        };
        let digest = sha256(wire);
        headers.insert(
            "Content-Length".to_owned(),
            string_of(to_decimal(wire.len() as u64).as_slice()),
        );
        headers.insert(
            "Digest".to_owned(),
            "SHA-256=".to_owned().concat(encode(digest.as_slice()).as_str()),
        );
        headers.insert("X-Content-SHA256".to_owned(), to_hex(digest.as_slice()));
        Some(
            HttpResponse::new(
                response.status_code(),
                response.reason_phrase().to_owned(),
                response.version(),
                headers,
                vstd::slice::slice_to_vec(wire),
            ),
        )
    }

    /// Writes a response.
    pub fn serialize_response(response: &HttpResponse) -> (r: Vec<u8>)
        ensures
            r@ == sent_response(response@),
    {
        let headers = response.headers();
        let mut head = chars_of(response.version().as_str());
        push_text(&mut head, " ");
        push_chars(&mut head, to_decimal(response.status_code() as u64).as_slice());
        push_text(&mut head, " ");
        push_text(&mut head, response.reason_phrase());
        push_text(&mut head, "\r\n");
        let ghost start = head@;
        let mut i: usize = 0;
        assert(head@ =~= start + table_wire(headers@, 0));
        while i < headers.len()
            invariant
                i <= headers@.len(),
                head@ == start + table_wire(headers@, i as int),
            decreases headers@.len() - i,
        {
            push_wire_line(&mut head, headers.name_at(i), headers.value_at(i).as_str());
            i = i + 1;
            assert(head@ =~= start + table_wire(headers@, i as int));
        }
        if !headers.contains("Content-Length") && response.body().len() > 0 {
            let size = string_of(to_decimal(response.body().len() as u64).as_slice());
            push_wire_line(&mut head, "Content-Length", size.as_str());
        }
        push_text(&mut head, "\r\n");
        assert(head@ =~= sent_head(response@));
        let text = string_of(head.as_slice());
        let mut bytes = vstd::slice::slice_to_vec(text.as_str().as_bytes());
        push_bytes(&mut bytes, response.body());
        bytes
    }

    /// Answers a request where no handler is installed.
    pub fn default_handler(request: &HttpRequest) -> (r: HttpResponse)
        ensures
            r.inv(),
            r@ == not_found_page(request@.path),
    {
        let mut body = chars_of(
            "<!DOCTYPE html><html><body><h1>404 Not Found</h1><p>The requested URL was not found on this path: ",
        );
        push_text(&mut body, request.path());
        push_text(&mut body, "</p></body></html>");
        make_page(404, "Not Found", body.as_slice())
    }

    /// Answers a request that went wrong.
    pub fn error_response(status_code: u16, reason: &str) -> (r: HttpResponse)
        ensures
            r.inv(),
            r@ == error_page(status_code, reason@),
    {
        let mut body = chars_of("<!DOCTYPE html><html><body><h1>");
        push_chars(&mut body, to_decimal(status_code as u64).as_slice());
        push_text(&mut body, " ");
        push_text(&mut body, reason);
        push_text(&mut body, "</h1></body></html>");
        make_page(status_code, reason, body.as_slice())
    }

    /// Whether the connection ends after a request and its response.
    pub fn closes_after(config: &HttpServerCfg, request: &HttpRequest, response: &HttpResponse) -> (r:
        bool)
        requires
            request.inv(),
        ensures
            r == ends(config.keep_alive, request@.headers, response@.headers),
    {
        if !config.keep_alive {
            return true;
        }
        match request.headers().get("Connection") {
            Some(v) => {
                if wants_close(v) {
                    return true;
                }
            },
            None => {},
        }
        match response.headers().get("Connection") {
            Some(v) => wants_close(v.as_str()),
            None => false,
        }
    }

    /// Chooses a content type for a request; the first offer where it says nothing.
    pub fn negotiate_content_type(request: &HttpRequest, available: &[&str]) -> (r: Option<String>)
        requires
            request.inv(),
        ensures
            opt_text(r) == (match field(request@.headers, "Accept"@) {
                Some(a) => negotiated_media(a, strs(available@)),
                None => first_offer(strs(available@)),
            }),
    {
        match request.accept() {
            Some(accept) => ContentNegotiator::negotiate_media_type(accept, available),
            None => take_first(available),
        }
    }

    /// Chooses a language for a request; the first offer where it says nothing.
    pub fn negotiate_language(request: &HttpRequest, available: &[&str]) -> (r: Option<String>)
        requires
            request.inv(),
        ensures
            opt_text(r) == (match field(request@.headers, "Accept-Language"@) {
                Some(a) => negotiated_language(a, strs(available@)),
                None => first_offer(strs(available@)),
            }),
    {
        match request.accept_language() {
            Some(accept) => ContentNegotiator::negotiate_language(accept, available),
            None => take_first(available),
        }
    }

    /// Chooses a content coding for a request; the identity where it says nothing.
    pub fn negotiate_encoding(request: &HttpRequest, available: &[&str]) -> (r: Option<String>)
        requires
            request.inv(),
        ensures
            opt_text(r) == (match field(request@.headers, "Accept-Encoding"@) {
                Some(a) => negotiated_encoding(a, strs(available@)),
                None => Some("identity"@),
            }),
    {
        match request.accept_encoding() {
            Some(accept) => ContentNegotiator::negotiate_encoding(accept, available),
            None => Some("identity".to_owned()),
        }
    }
}

/// The first of a server's offers.
pub open spec fn first_offer(available: Seq<Seq<char>>) -> Option<Seq<char>> {
    if available.len() > 0 {
        Some(available[0])
    } else {
        None
    }
}

fn take_first(available: &[&str]) -> (r: Option<String>)
    ensures
        opt_text(r) == first_offer(strs(available@)),
{
    if available.len() > 0 {
        assert(strs(available@)[0] == available@[0]@);
        Some(available[0].to_owned())
    } else {
        None
    }
}

/// The header of a server profile blob.
pub type SecureHttpServerProfileMeta = EnvelopeMeta;

pub open spec fn bool_text(b: bool) -> Seq<char> {
    if b {
        "true"@
    } else {
        "false"@
    }
}

pub open spec fn bool_of(s: Seq<char>) -> Option<bool> {
    if s == "true"@ || s == "1"@ || s == "yes"@ || s == "on"@ {
        Some(true)
    } else if s == "false"@ || s == "0"@ || s == "no"@ || s == "off"@ {
        Some(false)
    } else {
        None
    }
}

/// The lines of a server's profile.
pub open spec fn server_lines(s: ServerView) -> Seq<Seq<char>> {
    seq![
        "max-connections="@ + decimal(s.cfg.max_connections as nat),
        "request-timeout-ms="@ + decimal(s.cfg.request_timeout_ms as nat),
        "max-body-size="@ + decimal(s.cfg.max_body_size as nat),
        "keep-alive-timeout-ms="@ + decimal(s.cfg.keep_alive_timeout_ms as nat),
        "keep-alive="@ + bool_text(s.cfg.keep_alive),
        "default-version="@ + version_name(s.cfg.default_version),
        "handler-installed="@ + bool_text(s.handler_installed),
        "running="@ + bool_text(s.running),
        "address="@ + (match s.address {
            Some(a) => armour(a),
            None => seq![],
        }),
    ]
}

/// A server's profile in serialized form.
pub open spec fn server_serialized(s: ServerView) -> Seq<u8> {
    encode_utf8(joined(server_lines(s), "\n"@))
}

fn push_row(rows: &mut Vec<Vec<char>>, key: &str, value: &[char])
    ensures
        char_texts(final(rows)@) == char_texts(old(rows)@).push(key@ + value@),
{
    let mut line = chars_of(key);
    push_chars(&mut line, value);
    let ghost was = rows@;
    rows.push(line);
    assert(char_texts(rows@) =~= char_texts(was).push(line@));
}

fn bool_chars(b: bool) -> (r: Vec<char>)
    ensures
        r@ == bool_text(b),
{
    if b {
        chars_of("true")
    } else {
        chars_of("false")
    }
}

/// Reads a truth value.
fn parse_bool(s: &[char]) -> (r: Option<bool>)
    ensures
        r == bool_of(s@),
{
    if is_text(s, "true") || is_text(s, "1") || is_text(s, "yes") || is_text(s, "on") {
        Some(true)
    } else if is_text(s, "false") || is_text(s, "0") || is_text(s, "no") || is_text(s, "off") {
        Some(false)
    } else {
        None
    }
}

/// Writes a server's profile as lines `key=value`.
pub fn serialize_http_server_profile(server: &HttpServer) -> (r: Vec<u8>)
    ensures
        r@ == server_serialized(server@),
{
    let mut rows: Vec<Vec<char>> = Vec::new();
    assert(char_texts(rows@) =~= seq![]);
    push_row(
        &mut rows,
        "max-connections=",
        to_decimal(server.cfg.max_connections as u64).as_slice(),
    );
    push_row(
        &mut rows,
        "request-timeout-ms=",
        to_decimal(server.cfg.request_timeout_ms).as_slice(),
    );
    push_row(&mut rows, "max-body-size=", to_decimal(server.cfg.max_body_size as u64).as_slice());
    push_row(
        &mut rows,
        "keep-alive-timeout-ms=",
        to_decimal(server.cfg.keep_alive_timeout_ms).as_slice(),
    );
    push_row(&mut rows, "keep-alive=", bool_chars(server.cfg.keep_alive).as_slice());
    push_row(
        &mut rows,
        "default-version=",
        chars_of(server.cfg.default_version.as_str()).as_slice(),
    );
    push_row(&mut rows, "handler-installed=", bool_chars(server.handler_installed).as_slice());
    push_row(&mut rows, "running=", bool_chars(server.running).as_slice());
    let address = match &server.address {
        Some(a) => armour_text(a.as_str()),
        None => Vec::new(),
    };
    push_row(&mut rows, "address=", address.as_slice());
    assert(char_texts(rows@) =~= server_lines(server@));
    let text = string_of(join(&rows, "\n").as_slice());
    vstd::slice::slice_to_vec(text.as_str().as_bytes())
}

/// A server after a setting was read; `None` where its value cannot be read.
pub open spec fn with_setting(s: ServerView, key: Seq<char>, v: Seq<char>) -> Option<ServerView> {
    if key == "max-connections"@ {
        match parsed(v, usize::MAX as nat) {
            Some(n) => Some(
                ServerView {
                    cfg: HttpServerCfg { max_connections: n as usize, ..s.cfg },
                    ..s
                },
            ),
            None => None,
        }
    } else if key == "request-timeout-ms"@ {
        match parsed(v, u64::MAX as nat) {
            Some(n) => Some(
                ServerView {
                    cfg: HttpServerCfg { request_timeout_ms: n as u64, ..s.cfg },
                    ..s
                },
            ),
            None => None,
        }
    } else if key == "max-body-size"@ {
        match parsed(v, usize::MAX as nat) {
            Some(n) => Some(
                ServerView { cfg: HttpServerCfg { max_body_size: n as usize, ..s.cfg }, ..s },
            ),
            None => None,
        }
    } else if key == "keep-alive-timeout-ms"@ {
        match parsed(v, u64::MAX as nat) {
            Some(n) => Some(
                ServerView {
                    cfg: HttpServerCfg { keep_alive_timeout_ms: n as u64, ..s.cfg },
                    ..s
                },
            ),
            None => None,
        }
    } else if key == "keep-alive"@ {
        match bool_of(v) {
            Some(b) => Some(ServerView { cfg: HttpServerCfg { keep_alive: b, ..s.cfg }, ..s }),
            None => None,
        }
    } else if key == "default-version"@ {
        match version_named(v) {
            Some(x) => Some(
                ServerView { cfg: HttpServerCfg { default_version: x, ..s.cfg }, ..s },
            ),
            None => None,
        }
    } else if key == "address"@ {
        if v.len() == 0 {
            Some(s)
        } else {
            match unarmoured(v) {
                Some(a) => match address_words(a) {
                    Some(w) => Some(ServerView { address: Some(w), ..s }),
                    None => None,
                },
                None => None,
            }
        }
    } else if key == "handler-installed"@ || key == "running"@ {
        if bool_of(v) is Some {
            Some(s)
        } else {
            None
        }
    } else {
        Some(s)
    }
}

/// A server after a line was read; `None` where it cannot be.
pub open spec fn with_row(s: ServerView, line: Seq<char>) -> Option<ServerView> {
    let t = trimmed(line);
    if t.len() == 0 {
        Some(s)
    } else {
        match find(t, '=') {
            Some(i) => with_setting(s, t.take(i), trimmed(t.skip(i + 1))),
            None => None,
        }
    }
}

/// The server that the first `n` lines describe.
pub open spec fn server_among(lines: Seq<Seq<char>>, n: int) -> Option<ServerView>
    decreases n,
{
    if n <= 0 {
        Some(idle(default_cfg()))
    } else {
        match server_among(lines, n - 1) {
            Some(s) => with_row(s, lines[n - 1]),
            None => None,
        }
    }
}

/// The server that a payload describes. It has no handler, no listener and does not run.
pub open spec fn server_deserialized(raw: Seq<u8>) -> Option<ServerView> {
    if valid_utf8(raw) {
        let l = lines_of(decode_utf8(raw));
        server_among(l, l.len() as int)
    } else {
        None
    }
}

proof fn lemma_none_stays(lines: Seq<Seq<char>>, i: int, n: int)
    requires
        0 <= i <= n,
        server_among(lines, i) is None,
    ensures
        server_among(lines, n) is None,
    decreases n,
{
    if i < n {
        lemma_none_stays(lines, i, n - 1);
    }
}

fn read_setting(server: HttpServer, key: &[char], v: &[char]) -> (r: Option<HttpServer>)
    ensures
        match r {
            Some(s) => with_setting(server@, key@, v@) == Some(s@),
            None => with_setting(server@, key@, v@) is None,
        },
{
    let mut out = server;
    if is_text(key, "max-connections") {
        out.cfg.max_connections = parse_usize(v)?;
    } else if is_text(key, "request-timeout-ms") {
        out.cfg.request_timeout_ms = parse_u64(v)?;
    } else if is_text(key, "max-body-size") {
        out.cfg.max_body_size = parse_usize(v)?;
    } else if is_text(key, "keep-alive-timeout-ms") {
        out.cfg.keep_alive_timeout_ms = parse_u64(v)?;
    } else if is_text(key, "keep-alive") {
        out.cfg.keep_alive = parse_bool(v)?;
    } else if is_text(key, "default-version") {
        out.cfg.default_version = HttpVersion::from_chars(v)?;
    } else if is_text(key, "address") {
        if v.len() > 0 {
            let a = read_armour(v)?;
            out.address = Some(canonical_address(a.as_str())?);
        }
    } else if is_text(key, "handler-installed") || is_text(key, "running") {
        parse_bool(v)?;
    }
    Some(out)
}

/// Reads a server from the profile that `serialize_http_server_profile` writes.
pub fn deserialize_http_server_profile(raw_payload: &[u8]) -> (r: Option<HttpServer>)
    ensures
        match r {
            Some(s) => server_deserialized(raw_payload@) == Some(s@),
            None => server_deserialized(raw_payload@) is None,
        },
{
    let text = utf8_text(raw_payload)?;
    let chars = chars_of(text.as_str());
    let rows = lines(chars.as_slice());
    let ghost all = texts(rows@);
    let mut server = HttpServer::new();
    let mut i: usize = 0;
    while i < rows.len()
        invariant
            i <= rows@.len(),
            all == texts(rows@),
            all == lines_of(decode_utf8(raw_payload@)),
            valid_utf8(raw_payload@),
            server_among(all, i as int) == Some(server@),
        decreases rows@.len() - i,
    {
        let line = trim(rows[i]);
        assert(line@ == trimmed(all[i as int]));
        if line.len() > 0 {
            let end: usize = line.len();
            let next = match find_char(line, '=') {
                Some(k) => {
                    let key = slice_subrange(line, 0, k);
                    let v = trim(slice_subrange(line, k + 1, end));
                    assert(key@ =~= line@.take(k as int));
                    assert(line@.subrange(k + 1, line@.len() as int) =~= line@.skip(k + 1));
                    read_setting(server, key, v)
                },
                None => None,
            };
            match next {
                Some(s) => {
                    server = s;
                },
                None => {
                    proof {
                        lemma_none_stays(all, i + 1, all.len() as int);
                    }
                    return None;
                },
            }
        }
        i = i + 1;
    }
    Some(server)
}

/// Chooses the coding for a profile blob from an `Accept-Encoding` value.
pub fn select_secure_http_server_profile_algorithm(accept_encoding: &str) -> (r: CompressionAlgorithm)
    ensures
        r == selected(accept_encoding@, true),
{
    select_any(accept_encoding)
}

/// Seals a server's profile. `coded` is what the codec of `algorithm` made of the serialized profile,
/// `None` where the codec failed; it is not looked at under the identity.
pub fn encode_secure_http_server_profile(
    server: &HttpServer,
    algorithm: CompressionAlgorithm,
    coded: Option<&[u8]>,
    nonce: &[u8],
    issued_at_unix: u64,
) -> (r: Result<(SecureHttpServerProfileMeta, Vec<u8>), EnvelopeError>)
    ensures
        contents(r) == sealed(
            BlobKind::ServerProfile,
            server_serialized(server@),
            algorithm,
            opt_bytes(coded),
            nonce@,
            issued_at_unix as nat,
        ),
{
    let raw = serialize_http_server_profile(server);
    seal(BlobKind::ServerProfile, raw.as_slice(), algorithm, coded, nonce, issued_at_unix)
}

/// Seals a server's profile in the coding chosen from an `Accept-Encoding` value.
pub fn encode_secure_http_server_profile_auto(
    server: &HttpServer,
    accept_encoding: &str,
    coded: Option<&[u8]>,
    nonce: &[u8],
    issued_at_unix: u64,
) -> (r: Result<(SecureHttpServerProfileMeta, Vec<u8>), EnvelopeError>)
    ensures
        contents(r) == sealed(
            BlobKind::ServerProfile,
            server_serialized(server@),
            selected(accept_encoding@, true),
            opt_bytes(coded),
            nonce@,
            issued_at_unix as nat,
        ),
{
    let algorithm = select_secure_http_server_profile_algorithm(accept_encoding);
    encode_secure_http_server_profile(server, algorithm, coded, nonce, issued_at_unix)
}

/// What a server profile blob holds.
pub open spec fn server_unsealed(data: Seq<u8>, plain: Option<Seq<u8>>) -> Result<
    (MetaView, ServerView),
    EnvelopeError,
> {
    carried(
        unsealed(BlobKind::ServerProfile, data, plain),
        |raw: Seq<u8>| server_deserialized(raw),
    )
}

pub open spec fn opened_server(
    r: Result<(SecureHttpServerProfileMeta, HttpServer), EnvelopeError>,
) -> Result<(MetaView, ServerView), EnvelopeError> {
    match r {
        Ok((meta, s)) => Ok((meta@, s@)),
        Err(e) => Err(e),
    }
}

/// Opens a server profile blob. `plain` is what the codec made of the payload as sent, `None` where
/// the codec failed; it is not looked at under the identity.
pub fn decode_secure_http_server_profile(data: &[u8], plain: Option<&[u8]>) -> (r: Result<
    (SecureHttpServerProfileMeta, HttpServer),
    EnvelopeError,
>)
    ensures
        opened_server(r) == server_unsealed(data@, opt_bytes(plain)),
{
    match unseal(BlobKind::ServerProfile, data, plain) {
        Ok((meta, raw)) => match deserialize_http_server_profile(raw.as_slice()) {
            Some(s) => Ok((meta, s)),
            None => Err(EnvelopeError::BadPayload),
        },
        Err(e) => Err(e),
    }
}

impl HttpServer {
    /// Seals the profile.
    pub fn to_secure_profile_blob(
        &self,
        algorithm: CompressionAlgorithm,
        coded: Option<&[u8]>,
        nonce: &[u8],
        issued_at_unix: u64,
    ) -> (r: Result<(SecureHttpServerProfileMeta, Vec<u8>), EnvelopeError>)
        ensures
            contents(r) == sealed(
                BlobKind::ServerProfile,
                server_serialized(self@),
                algorithm,
                opt_bytes(coded),
                nonce@,
                issued_at_unix as nat,
            ),
    {
        encode_secure_http_server_profile(self, algorithm, coded, nonce, issued_at_unix)
    }

    /// Seals the profile in the coding chosen from an `Accept-Encoding` value.
    pub fn to_secure_profile_blob_auto(
        &self,
        accept_encoding: &str,
        coded: Option<&[u8]>,
        nonce: &[u8],
        issued_at_unix: u64,
    ) -> (r: Result<(SecureHttpServerProfileMeta, Vec<u8>), EnvelopeError>)
        ensures
            contents(r) == sealed(
                BlobKind::ServerProfile,
                server_serialized(self@),
                selected(accept_encoding@, true),
                opt_bytes(coded),
                nonce@,
                issued_at_unix as nat,
            ),
    {
        encode_secure_http_server_profile_auto(self, accept_encoding, coded, nonce, issued_at_unix)
    }

    /// Opens a server profile blob.
    pub fn from_secure_profile_blob(data: &[u8], plain: Option<&[u8]>) -> (r: Result<
        (SecureHttpServerProfileMeta, HttpServer),
        EnvelopeError,
    >)
        ensures
            opened_server(r) == server_unsealed(data@, opt_bytes(plain)),
    {
        decode_secure_http_server_profile(data, plain)
    }
}

proof fn lemma_row(line: Seq<char>, key: Seq<char>, v: Seq<char>)
    requires
        line == key + seq!['='] + v,
        tidy(key),
        lacks(key, '='),
        tidy(v),
    ensures
        is_line(line),
        trimmed(line) == line,
        line.len() > 0,
        find(line, '=') == Some(key.len() as int),
        line.take(key.len() as int) == key,
        trimmed(line.skip(key.len() as int + 1)) == v,
{
    let n = key.len() as int;
    assert(tidy(seq!['=']));
    lemma_tidy_concat(key, seq!['=']);
    lemma_tidy_concat(key + seq!['='], v);
    lemma_tidy_line(line);
    lemma_trimmed_solid(line);
    lemma_trimmed_solid(v);
    assert forall|j: int| 0 <= j < n implies line[j] != '=' by {
        assert(line[j] == key[j]);
    }
    assert(line[n] == '=');
    lemma_find_is(line, '=', n);
    assert(line.take(n) =~= key);
    assert(line.skip(n + 1) =~= v);
}

proof fn lemma_bool(b: bool)
    ensures
        bool_of(bool_text(b)) == Some(b),
        tidy(bool_text(b)),
{
    reveal_strlit("true");
    reveal_strlit("false");
    reveal_strlit("1");
    reveal_strlit("0");
    reveal_strlit("yes");
    reveal_strlit("no");
    reveal_strlit("on");
    reveal_strlit("off");
    assert("true"@.len() == 4 && "false"@.len() == 5 && "1"@.len() == 1 && "yes"@.len() == 3
        && "on"@.len() == 2);
}

proof fn lemma_version_tidy(v: HttpVersion)
    ensures
        tidy(version_name(v)),
{
    reveal_strlit("HTTP/1.0");
    reveal_strlit("HTTP/1.1");
    reveal_strlit("HTTP/2.0");
    reveal_strlit("HTTP/3.0");
}

/// The keys of a profile are tidy, and each line begins with its key.
proof fn lemma_keys()
    ensures
        tidy("max-connections"@) && lacks("max-connections"@, '=') && "max-connections="@
            == "max-connections"@ + seq!['='],
        tidy("request-timeout-ms"@) && lacks("request-timeout-ms"@, '=') && "request-timeout-ms="@
            == "request-timeout-ms"@ + seq!['='],
        tidy("max-body-size"@) && lacks("max-body-size"@, '=') && "max-body-size="@
            == "max-body-size"@ + seq!['='],
        tidy("keep-alive-timeout-ms"@) && lacks("keep-alive-timeout-ms"@, '=')
            && "keep-alive-timeout-ms="@ == "keep-alive-timeout-ms"@ + seq!['='],
        tidy("keep-alive"@) && lacks("keep-alive"@, '=') && "keep-alive="@ == "keep-alive"@
            + seq!['='],
        tidy("default-version"@) && lacks("default-version"@, '=') && "default-version="@
            == "default-version"@ + seq!['='],
        tidy("handler-installed"@) && lacks("handler-installed"@, '=') && "handler-installed="@
            == "handler-installed"@ + seq!['='],
        tidy("running"@) && lacks("running"@, '=') && "running="@ == "running"@ + seq!['='],
        tidy("address"@) && lacks("address"@, '=') && "address="@ == "address"@ + seq!['='],
        "max-connections"@.len() == 15 && "request-timeout-ms"@.len() == 18 && "max-body-size"@.len()
            == 13 && "keep-alive-timeout-ms"@.len() == 21 && "keep-alive"@.len() == 10
            && "default-version"@.len() == 15 && "handler-installed"@.len() == 17 && "running"@.len()
            == 7 && "address"@.len() == 7,
        "max-connections"@ != "default-version"@,
        "running"@ != "address"@,
{
    reveal_strlit("max-connections");
    reveal_strlit("request-timeout-ms");
    reveal_strlit("max-body-size");
    reveal_strlit("keep-alive-timeout-ms");
    reveal_strlit("keep-alive");
    reveal_strlit("default-version");
    reveal_strlit("handler-installed");
    reveal_strlit("running");
    reveal_strlit("address");
    reveal_strlit("max-connections=");
    reveal_strlit("request-timeout-ms=");
    reveal_strlit("max-body-size=");
    reveal_strlit("keep-alive-timeout-ms=");
    reveal_strlit("keep-alive=");
    reveal_strlit("default-version=");
    reveal_strlit("handler-installed=");
    reveal_strlit("running=");
    reveal_strlit("address=");
    assert("max-connections="@ =~= "max-connections"@ + seq!['=']);
    assert("request-timeout-ms="@ =~= "request-timeout-ms"@ + seq!['=']);
    assert("max-body-size="@ =~= "max-body-size"@ + seq!['=']);
    assert("keep-alive-timeout-ms="@ =~= "keep-alive-timeout-ms"@ + seq!['=']);
    assert("keep-alive="@ =~= "keep-alive"@ + seq!['=']);
    assert("default-version="@ =~= "default-version"@ + seq!['=']);
    assert("handler-installed="@ =~= "handler-installed"@ + seq!['=']);
    assert("running="@ =~= "running"@ + seq!['=']);
    assert("address="@ =~= "address"@ + seq!['=']);
    assert("max-connections"@[0] == 'm' && "default-version"@[0] == 'd');
    assert("running"@[0] == 'r' && "address"@[0] == 'a');
}

/// What is left of a server in its profile: its settings and its address.
pub open spec fn at_rest(s: ServerView) -> ServerView {
    ServerView { address: s.address, ..idle(s.cfg) }
}

proof fn lemma_server_rows(s: ServerView)
    requires
        s.address matches Some(a) ==> is_address(a),
    ensures
        server_among(server_lines(s), 9) == Some(at_rest(s)),
        forall|i: int| 0 <= i < 9 ==> is_line(#[trigger] server_lines(s)[i]),
{
    let l = server_lines(s);
    lemma_keys();
    lemma_decimal_tidy(s.cfg.max_connections as nat);
    lemma_decimal_tidy(s.cfg.request_timeout_ms as nat);
    lemma_decimal_tidy(s.cfg.max_body_size as nat);
    lemma_decimal_tidy(s.cfg.keep_alive_timeout_ms as nat);
    law_decimal_roundtrip(s.cfg.max_connections as nat, usize::MAX as nat);
    law_decimal_roundtrip(s.cfg.request_timeout_ms as nat, u64::MAX as nat);
    law_decimal_roundtrip(s.cfg.max_body_size as nat, usize::MAX as nat);
    law_decimal_roundtrip(s.cfg.keep_alive_timeout_ms as nat, u64::MAX as nat);
    lemma_bool(s.cfg.keep_alive);
    lemma_bool(s.handler_installed);
    lemma_bool(s.running);
    lemma_version_tidy(s.cfg.default_version);
    law_version_names(s.cfg.default_version);
    let a = match s.address {
        Some(a) => armour(a),
        None => seq![],
    };
    assert(tidy(a)) by {
        if s.address is Some {
            law_armour_roundtrip(s.address->0);
        }
    }
    lemma_row(l[0], "max-connections"@, decimal(s.cfg.max_connections as nat));
    lemma_row(l[1], "request-timeout-ms"@, decimal(s.cfg.request_timeout_ms as nat));
    lemma_row(l[2], "max-body-size"@, decimal(s.cfg.max_body_size as nat));
    lemma_row(l[3], "keep-alive-timeout-ms"@, decimal(s.cfg.keep_alive_timeout_ms as nat));
    lemma_row(l[4], "keep-alive"@, bool_text(s.cfg.keep_alive));
    lemma_row(l[5], "default-version"@, version_name(s.cfg.default_version));
    lemma_row(l[6], "handler-installed"@, bool_text(s.handler_installed));
    lemma_row(l[7], "running"@, bool_text(s.running));
    lemma_row(l[8], "address"@, a);
    let c = default_cfg();
    let s1 = idle(HttpServerCfg { max_connections: s.cfg.max_connections, ..c });
    assert(server_among(l, 0) == Some(idle(c)));
    assert(server_among(l, 1) == Some(s1));
    let s2 = idle(HttpServerCfg { request_timeout_ms: s.cfg.request_timeout_ms, ..s1.cfg });
    assert(server_among(l, 2) == Some(s2));
    let s3 = idle(HttpServerCfg { max_body_size: s.cfg.max_body_size, ..s2.cfg });
    assert(server_among(l, 3) == Some(s3));
    let s4 = idle(HttpServerCfg { keep_alive_timeout_ms: s.cfg.keep_alive_timeout_ms, ..s3.cfg });
    assert(server_among(l, 4) == Some(s4));
    let s5 = idle(HttpServerCfg { keep_alive: s.cfg.keep_alive, ..s4.cfg });
    assert(server_among(l, 5) == Some(s5));
    assert(server_among(l, 6) == Some(idle(s.cfg)));
    assert(server_among(l, 7) == Some(idle(s.cfg)));
    assert(server_among(l, 8) == Some(idle(s.cfg)));
    assert(server_among(l, 9) == Some(at_rest(s))) by {
        if s.address is Some {
            let t = s.address->0;
            law_armour_roundtrip(t);
            lemma_address_some(t);
            lemma_armour_some(t);
        }
    }
}

proof fn lemma_armour_some(t: Seq<char>)
    requires
        t.len() > 0,
    ensures
        armour(t).len() > 0,
{
    law_armour_roundtrip(t);
    law_armour_roundtrip(seq![]);
    if armour(t).len() == 0 {
        encode_utf8_decode_utf8(seq![]);
        assert(encode_utf8(seq![]) =~= seq![]);
        assert(armour(seq![]) =~= seq![]);
        assert(armour(t) =~= armour(seq![]));
    }
}

/// A server whose profile was serialized is read back, at rest.
pub proof fn law_server_roundtrip(s: ServerView)
    requires
        s.address matches Some(a) ==> is_address(a),
    ensures
        server_deserialized(server_serialized(s)) == Some(at_rest(s)),
{
    let l = server_lines(s);
    lemma_server_rows(s);
    reveal_strlit("\n");
    assert("\n"@ =~= seq!['\n']);
    lemma_lines_joined(l);
    encode_utf8_valid_utf8(joined(l, "\n"@));
    encode_utf8_decode_utf8(joined(l, "\n"@));
}

/// A server whose profile was sealed comes out of the blob at rest, given that the codec undoes what it
/// did.
pub proof fn law_server_blob_roundtrip(
    s: ServerView,
    algorithm: CompressionAlgorithm,
    coded: Option<Seq<u8>>,
    nonce: Seq<u8>,
    issued_at: nat,
)
    requires
        s.address matches Some(a) ==> is_address(a),
        server_serialized(s).len() <= usize::MAX,
        coded matches Some(c) ==> c.len() <= usize::MAX,
        issued_at <= u64::MAX,
    ensures
        sealed(
            BlobKind::ServerProfile,
            server_serialized(s),
            algorithm,
            coded,
            nonce,
            issued_at,
        ) matches Ok((meta, data)) ==> server_unsealed(data, Some(server_serialized(s))) == Ok::<
            (MetaView, ServerView),
            EnvelopeError,
        >((meta, at_rest(s))),
{
    law_server_roundtrip(s);
    law_blob_roundtrip(
        BlobKind::ServerProfile,
        server_serialized(s),
        algorithm,
        coded,
        nonce,
        issued_at,
    );
}

/// The fields of a measured response are in order, and hold what was measured.
pub proof fn lemma_measured(h: FieldTable, wire: Seq<u8>)
    requires
        in_name_order(h),
    ensures
        value(measured(h, wire), "Content-Length"@) == Some(decimal(wire.len())),
        value(measured(h, wire), "Digest"@) == Some(digest_value(wire)),
        value(measured(h, wire), "X-Content-SHA256"@) == Some(hex(sha256_of(wire))),
        in_name_order(measured(h, wire)),
{
    reveal_strlit("Content-Length");
    reveal_strlit("Digest");
    reveal_strlit("X-Content-SHA256");
    assert("Content-Length"@.len() == 14 && "Digest"@.len() == 6 && "X-Content-SHA256"@.len() == 16);
    let a = put(h, "Content-Length"@, decimal(wire.len()));
    let b = put(a, "Digest"@, digest_value(wire));
    law_put_in_order(h, "Content-Length"@, decimal(wire.len()));
    law_put_in_order(a, "Digest"@, digest_value(wire));
    law_put_in_order(b, "X-Content-SHA256"@, hex(sha256_of(wire)));
    law_put_value(h, "Content-Length"@, decimal(wire.len()), "Content-Length"@);
    law_put_value(a, "Digest"@, digest_value(wire), "Content-Length"@);
    law_put_value(b, "X-Content-SHA256"@, hex(sha256_of(wire)), "Content-Length"@);
    law_put_value(b, "X-Content-SHA256"@, hex(sha256_of(wire)), "Digest"@);
}

/// Every response that the server completes carries the length and the digests of its body as sent, and
/// the body goes with the digest.
pub proof fn law_finalized_vouches_for_body(
    r: ResponseView,
    chosen: Option<CompressionAlgorithm>,
    coded: Option<Seq<u8>>,
)
    requires
        in_name_order(r.headers),
    ensures
        finalized(r, chosen, coded) matches Some(f) ==> {
            &&& value(f.headers, "Content-Length"@) == Some(decimal(f.body.len()))
            &&& value(f.headers, "Digest"@) == Some(digest_value(f.body))
            &&& value(f.headers, "X-Content-SHA256"@) == Some(hex(sha256_of(f.body)))
            &&& strict_digest_fault(digest_value(f.body), f.body) is None
            &&& f.status == r.status
        },
{
    if let Some(f) = finalized(r, chosen, coded) {
        law_own_digest(f.body);
        law_put_in_order(r.headers, "Content-Type"@, "application/octet-stream"@);
        let h = typed(r.headers);
        let a = response_coding(r, chosen);
        law_put_in_order(h, "Content-Encoding"@, coding_name(a));
        if a == CompressionAlgorithm::Identity {
            lemma_measured(h, r.body);
        } else {
            lemma_measured(put(h, "Content-Encoding"@, coding_name(a)), f.body);
        }
    }
}

/// A request is only accepted with a body within the limit, and only with one that goes with the digest
/// it names.
pub proof fn law_accepted_request_is_checked(
    data: Seq<u8>,
    max_body_size: nat,
    plain: Option<Seq<u8>>,
)
    ensures
        served_request(data, max_body_size, plain) matches Ok(q) ==> (request_head(data) matches Ok(
            (method, path, head),
        ) && {
            &&& q.method == method
            &&& q.path == path
            &&& head.length <= max_body_size
            &&& value_nocase(head.headers, "digest"@) matches Some(d) ==> strict_digest_fault(d, q.body)
                is None
        }),
{
}

pub proof fn lemma_fields_of_order(t: FieldTable, n: int)
    ensures
        in_name_order(fields_of(t, n)),
    decreases n,
{
    if n > 0 {
        lemma_fields_of_order(t, n - 1);
        law_put_in_order(fields_of(t, n - 1), lowered(t[n - 1].0), seq![t[n - 1].1]);
    }
}

/// An entry whose name no other is like is found among the fields that entries set.
pub proof fn lemma_fields_of_hold(t: FieldTable, n: int, k: int)
    requires
        0 <= k < n <= t.len(),
        forall|j: int| 0 <= j < n && j != k ==> lowered((#[trigger] t[j]).0) != lowered(t[k].0),
    ensures
        field(fields_of(t, n), t[k].0) == Some(t[k].1),
    decreases n,
{
    lemma_fields_of_order(t, n - 1);
    law_field_set(fields_of(t, n - 1), t[n - 1].0, t[n - 1].1, t[k].0);
    if k < n - 1 {
        lemma_fields_of_hold(t, n - 1, k);
    }
}

/// A request that is accepted has the method and path that were read, every field that was read under a name that no
/// other field has, and the body as it was sent or, where it was sent in a coding, as the codec gives it back. A body
/// that is not empty has its length told.
pub proof fn law_completed_request(
    method: HttpMethod,
    path: Seq<char>,
    t: FieldTable,
    body: Seq<u8>,
    plain: Option<Seq<u8>>,
    k: int,
    a: CompressionAlgorithm,
)
    ensures
        ({
            let coded = 0 <= k < t.len() && same_nocase(t[k].0, "content-encoding"@) && (forall|j: int|
                0 <= j < k ==> !same_nocase((#[trigger] t[j]).0, "content-encoding"@)) && lowered(t[k].1)
                == coding_name(a);
            match completed(method, path, t, body, plain) {
                Ok(q) => {
                    &&& q.method == method
                    &&& q.path == path
                    &&& 0 <= k < t.len() && lowered(t[k].0) != lowered("Content-Length"@) && (forall|j: int|
                        0 <= j < t.len() && j != k ==> lowered((#[trigger] t[j]).0) != lowered(t[k].0)) ==> field(
                        q.headers,
                        t[k].0,
                    ) == Some(t[k].1)
                    &&& q.body.len() > 0 ==> field(q.headers, "Content-Length"@) == Some(decimal(q.body.len()))
                    &&& (forall|j: int|
                        0 <= j < t.len() ==> !same_nocase((#[trigger] t[j]).0, "content-encoding"@)) ==> q.body == body
                    &&& coded && (a == CompressionAlgorithm::Identity || body.len() == 0) ==> q.body == body
                    &&& coded && a != CompressionAlgorithm::Identity && body.len() > 0 ==> plain == Some(q.body)
                    &&& 0 <= k < t.len() && same_nocase(t[k].0, "digest"@) && (forall|j: int|
                        0 <= j < k ==> !same_nocase((#[trigger] t[j]).0, "digest"@)) ==> strict_digest_fault(
                        t[k].1,
                        q.body,
                    ) is None
                },
                Err(e) => coded && e == MessageError::Codec ==> a != CompressionAlgorithm::Identity && plain is None,
            }
        }),
{
    let f = fields_of(t, t.len() as int);
    lemma_fields_of_order(t, t.len() as int);
    if 0 <= k < t.len() && forall|j: int| 0 <= j < t.len() && j != k ==> lowered((#[trigger] t[j]).0) != lowered(t[k].0) {
        lemma_fields_of_hold(t, t.len() as int, k);
    }
    law_value_nocase_stands(t, "content-encoding"@);
    law_value_nocase_stands(t, "digest"@);
    law_coding_names(a);
    reveal_strlit("identity");
    assert(lowered("identity"@) =~= "identity"@);
    if let Ok(q) = completed(method, path, t, body, plain) {
        let b = plain_body(t, body, plain).unwrap();
        law_field_set(f, "Content-Length"@, decimal(b.len()), "Content-Length"@);
        if 0 <= k < t.len() {
            law_field_set(f, "Content-Length"@, decimal(b.len()), t[k].0);
        }
    }
}

/// A response that is completed keeps its version, status and phrase, its body as it is unless a coding was chosen, and
/// its fields but for those that speak of the body. A body in a coding is what the codec made, and the coding is named.
/// Only a codec that makes nothing keeps a response from being completed.
pub proof fn law_finalized_response(
    r: ResponseView,
    chosen: Option<CompressionAlgorithm>,
    coded: Option<Seq<u8>>,
    name: Seq<char>,
)
    requires
        in_name_order(r.headers),
    ensures
        ({
            let plain = r.body.len() == 0 || value(r.headers, "Content-Encoding"@) is Some || chosen is None || chosen
                == Some(CompressionAlgorithm::Identity);
            match finalized(r, chosen, coded) {
                Some(f) => {
                    &&& f.version == r.version && f.status == r.status && f.reason == r.reason
                    &&& plain ==> f.body == r.body && value(f.headers, "Content-Encoding"@) == value(
                        r.headers,
                        "Content-Encoding"@,
                    )
                    &&& !plain ==> coded == Some(f.body) && value(f.headers, "Content-Encoding"@) == Some(
                        coding_name(chosen.unwrap()),
                    )
                    &&& value(f.headers, "Content-Type"@) == (match value(r.headers, "Content-Type"@) {
                        Some(t) => Some(t),
                        None => Some("application/octet-stream"@),
                    })
                    &&& name != "Content-Type"@ && name != "Content-Encoding"@ && name != "Content-Length"@ && name
                        != "Digest"@ && name != "X-Content-SHA256"@ ==> value(f.headers, name) == value(r.headers, name)
                },
                None => !plain && coded is None,
            }
        }),
{
    reveal_strlit("Content-Type");
    reveal_strlit("Content-Encoding");
    reveal_strlit("Content-Length");
    reveal_strlit("Digest");
    reveal_strlit("X-Content-SHA256");
    assert("Content-Type"@.len() == 12 && "Content-Encoding"@.len() == 16 && "Content-Length"@.len() == 14
        && "Digest"@.len() == 6 && "X-Content-SHA256"@.len() == 16 && "X-Content-SHA256"@[0] == 'X'
        && "Content-Encoding"@[0] == 'C');
    let h = typed(r.headers);
    let octets = "application/octet-stream"@;
    law_put_in_order(r.headers, "Content-Type"@, octets);
    law_put_value(r.headers, "Content-Type"@, octets, name);
    law_put_value(r.headers, "Content-Type"@, octets, "Content-Encoding"@);
    if let Some(f) = finalized(r, chosen, coded) {
        let a = response_coding(r, chosen);
        let g = if a == CompressionAlgorithm::Identity {
            h
        } else {
            put(h, "Content-Encoding"@, coding_name(a))
        };
        law_put_in_order(h, "Content-Encoding"@, coding_name(a));
        law_put_value(h, "Content-Encoding"@, coding_name(a), name);
        law_put_value(h, "Content-Encoding"@, coding_name(a), "Content-Type"@);
        if name != "Content-Length"@ && name != "Digest"@ && name != "X-Content-SHA256"@ {
            lemma_measured_others(g, f.body, name);
        }
        lemma_measured_others(g, f.body, "Content-Type"@);
        lemma_measured_others(g, f.body, "Content-Encoding"@);
    }
}

proof fn lemma_measured_others(h: FieldTable, wire: Seq<u8>, name: Seq<char>)
    requires
        in_name_order(h),
        name != "Content-Length"@ && name != "Digest"@ && name != "X-Content-SHA256"@,
    ensures
        value(measured(h, wire), name) == value(h, name),
{
    let a = put(h, "Content-Length"@, decimal(wire.len()));
    let b = put(a, "Digest"@, digest_value(wire));
    law_put_in_order(h, "Content-Length"@, decimal(wire.len()));
    law_put_in_order(a, "Digest"@, digest_value(wire));
    law_put_value(h, "Content-Length"@, decimal(wire.len()), name);
    law_put_value(a, "Digest"@, digest_value(wire), name);
    law_put_value(b, "X-Content-SHA256"@, hex(sha256_of(wire)), name);
}

/// A connection goes on where the server keeps connections alive and neither side says anything of it, and ends where
/// the server does not, or where one side says close.
pub proof fn law_connection_ends(keep_alive: bool, request: Fields, response: FieldTable)
    ensures
        !keep_alive ==> ends(keep_alive, request, response),
        field(request, "Connection"@) == Some("close"@) ==> ends(keep_alive, request, response),
        value(response, "Connection"@) == Some("close"@) ==> ends(keep_alive, request, response),
        keep_alive && field(request, "Connection"@) is None && value(response, "Connection"@) is None ==> !ends(
            keep_alive,
            request,
            response,
        ),
        keep_alive && field(request, "Connection"@) == Some("keep-alive"@) && value(response, "Connection"@) is None
            ==> !ends(keep_alive, request, response),
{
    reveal_strlit("close");
    reveal_strlit("keep-alive");
    let c = "close"@;
    assert(lowered(c) =~= c);
    law_lowercase_settles(c);
    assert(c.subrange(0, c.len() as int) =~= c);
    assert(occurs_at(c, c, 0));
    let k = "keep-alive"@;
    assert(lowered(k) =~= k);
    law_lowercase_settles(k);
    assert forall|i: int| !occurs_at(k, c, i) by {
        if occurs_at(k, c, i) {
            assert(k.subrange(i, i + c.len())[0] == k[i]);
            assert(k[i] == 'c');
        }
    }
    lemma_first_occurrence(k, c, 0);
}

/// Pages that the server makes itself have their status and phrase, and say so in HTML.
pub proof fn law_own_pages(status: u16, reason: Seq<char>, path: Seq<char>)
    ensures
        error_page(status, reason).status == status && error_page(status, reason).reason == reason,
        not_found_page(path).status == 404,
        value(error_page(status, reason).headers, "Content-Type"@) == Some("text/html"@),
        value(not_found_page(path).headers, "Content-Type"@) == Some("text/html"@),
        exists|a: Seq<char>, b: Seq<char>| not_found_page(path).body == #[trigger] encode_utf8(a + path + b),
        exists|a: Seq<char>, b: Seq<char>|
            error_page(status, reason).body == #[trigger] encode_utf8(
                a + (decimal(status as nat) + " "@ + reason) + b,
            ),
{
    let none: FieldTable = seq![];
    law_put_value(none, "Content-Type"@, "text/html"@, "Content-Type"@);
    let a = "<!DOCTYPE html><html><body><h1>404 Not Found</h1><p>The requested URL was not found on this path: "@;
    let b = "</p></body></html>"@;
    assert(not_found_page(path).body == encode_utf8(a + path + b));
    let c = "<!DOCTYPE html><html><body><h1>"@;
    let d = "</h1></body></html>"@;
    assert(c + decimal(status as nat) + " "@ + reason + d =~= c + (decimal(status as nat) + " "@ + reason) + d);
    assert(error_page(status, reason).body == encode_utf8(c + (decimal(status as nat) + " "@ + reason) + d));
}

}
