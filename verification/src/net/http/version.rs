//! Versions of HTTP: their names and abilities, and which of them a peer offers.
use vstd::prelude::*;
use vstd::slice::slice_subrange;
use vstd::string::StringSliceAdditionalSpecFns;
use vstd::utf8::{decode_utf8, encode_utf8, valid_utf8};

use crate::decimal::{
    decimal, is_digit, law_decimal_roundtrip, lemma_decimal_digits, parse_u16, parse_u8, parsed, to_decimal,
};
use crate::net::blob::opt_bytes;
use crate::net::envelope::{carried, contents, lemma_decimal_tidy, EnvelopeError, EnvelopeMeta, MetaView};
use crate::net::http::compression::{select_compressing, selected, CompressionAlgorithm};
use crate::net::record::{
    lemma_pair, lemma_record_octets, push_field, record_lines, record_octets, recordable,
};
use crate::net::ticket::{
    law_ticket_roundtrip, loose_get, loose_key, loose_last, loose_value, seal_ticket, ticket_sealed,
    ticket_unsealed, unseal_ticket, TicketKind,
};
use crate::text::{
    chars_of, ended, find, find_char, head, is_text, is_white, lacks, lemma_find_is, lemma_find_none, lemma_rfind_is,
    lemma_trimmed_solid, lines, lines_of, rfind, rfind_char, solid, split, split_on, string_of, strip_char, stripped,
    stripped_end, stripped_start, texts, trim, trimmed, up_to, utf8_text,
};

verus! {

/// A version of HTTP.
#[derive(Debug, Clone, Copy, PartialEq, Eq, PartialOrd, Ord, Hash, Structural)]
pub enum HttpVersion {
    Http10,
    Http11,
    Http2,
    Http3,
}

impl Default for HttpVersion {
    fn default() -> (r: Self)
        ensures
            r == HttpVersion::Http11,
    {
        HttpVersion::Http11
    }
}

/// The header of a version blob.
pub type SecureHttpVersionBlobMeta = EnvelopeMeta;

pub open spec fn version_name(v: HttpVersion) -> Seq<char> {
    match v {
        HttpVersion::Http10 => "HTTP/1.0"@,
        HttpVersion::Http11 => "HTTP/1.1"@,
        HttpVersion::Http2 => "HTTP/2.0"@,
        HttpVersion::Http3 => "HTTP/3.0"@,
    }
}

/// The version with a given name; the later versions have several.
pub open spec fn version_named(s: Seq<char>) -> Option<HttpVersion> {
    if s == "HTTP/1.0"@ {
        Some(HttpVersion::Http10)
    } else if s == "HTTP/1.1"@ {
        Some(HttpVersion::Http11)
    } else if s == "HTTP/2.0"@ || s == "HTTP/2"@ || s == "h2"@ {
        Some(HttpVersion::Http2)
    } else if s == "HTTP/3.0"@ || s == "HTTP/3"@ || s == "h3"@ {
        Some(HttpVersion::Http3)
    } else {
        None
    }
}

pub open spec fn priority_of(v: HttpVersion) -> u8 {
    match v {
        HttpVersion::Http3 => 4,
        HttpVersion::Http2 => 3,
        HttpVersion::Http11 => 2,
        HttpVersion::Http10 => 1,
    }
}

/// Whether messages are binary frames.
pub open spec fn is_framed(v: HttpVersion) -> bool {
    v == HttpVersion::Http2 || v == HttpVersion::Http3
}

/// The protocol's name in ALPN; the empty text where it has none.
pub open spec fn alpn_name(v: HttpVersion) -> Seq<char> {
    match v {
        HttpVersion::Http2 => "h2"@,
        HttpVersion::Http3 => "h3"@,
        HttpVersion::Http11 => "http/1.1"@,
        HttpVersion::Http10 => ""@,
    }
}

/// The version that a service announces under a protocol name.
pub open spec fn service_version(proto: Seq<char>) -> Option<HttpVersion> {
    if proto == "h3"@ || proto == "h3-29"@ {
        Some(HttpVersion::Http3)
    } else if proto == "h2"@ {
        Some(HttpVersion::Http2)
    } else if proto == "http/1.1"@ {
        Some(HttpVersion::Http11)
    } else {
        None
    }
}

/// Where the other end of an alternative service listens.
pub open spec fn authority_of(s: Seq<char>) -> Option<(Seq<char>, u16)> {
    match rfind(s, ':') {
        Some(i) => match parsed(s.skip(i + 1), u16::MAX as nat) {
            Some(port) => Some((s.take(i), port as u16)),
            None => None,
        },
        None => None,
    }
}

/// The service that one element of an `Alt-Svc` value announces.
pub open spec fn service_of(element: Seq<char>) -> Option<(HttpVersion, Seq<char>, u16)> {
    let e = trimmed(element);
    match find(e, '=') {
        None => None,
        Some(i) => match (
            service_version(stripped(trimmed(e.take(i)), '"')),
            authority_of(stripped(trimmed(head(e.skip(i + 1), ';')), '"')),
        ) {
            (Some(version), Some((host, port))) => Some((version, host, port)),
            _ => None,
        },
    }
}

/// The services that the first `n` elements announce.
pub open spec fn services(elements: Seq<Seq<char>>, n: int) -> Seq<(HttpVersion, Seq<char>, u16)>
    decreases n,
{
    if n <= 0 {
        seq![]
    } else {
        match service_of(elements[n - 1]) {
            Some(s) => services(elements, n - 1).push(s),
            None => services(elements, n - 1),
        }
    }
}

pub open spec fn services_view(v: Seq<(HttpVersion, String, u16)>) -> Seq<(HttpVersion, Seq<char>, u16)> {
    v.map_values(|s: (HttpVersion, String, u16)| (s.0, s.1@, s.2))
}

fn read_authority(s: &[char]) -> (r: Option<(&[char], u16)>)
    ensures
        match r {
            Some((host, port)) => authority_of(s@) == Some((host@, port)),
            None => authority_of(s@) is None,
        },
{
    let end: usize = s.len();
    match rfind_char(s, ':') {
        Some(i) => {
            let host = slice_subrange(s, 0, i);
            let tail = slice_subrange(s, i + 1, end);
            assert(host@ =~= s@.take(i as int));
            assert(tail@ =~= s@.skip(i + 1));
            match parse_u16(tail) {
                Some(port) => Some((host, port)),
                None => None,
            }
        },
        None => None,
    }
}

fn read_service(element: &[char]) -> (r: Option<(HttpVersion, String, u16)>)
    ensures
        match r {
            Some((version, host, port)) => service_of(element@) == Some((version, host@, port)),
            None => service_of(element@) is None,
        },
{
    let e = trim(element);
    let end: usize = e.len();
    let i = find_char(e, '=')?;
    let before = slice_subrange(e, 0, i);
    let rest = slice_subrange(e, i + 1, end);
    assert(before@ =~= e@.take(i as int));
    assert(rest@ =~= e@.skip(i + 1));
    let proto = strip_char(trim(before), '"');
    let version = if is_text(proto, "h3") || is_text(proto, "h3-29") {
        HttpVersion::Http3
    } else if is_text(proto, "h2") {
        HttpVersion::Http2
    } else if is_text(proto, "http/1.1") {
        HttpVersion::Http11
    } else {
        return None;
    };
    let first = up_to(rest, ';');
    let (host, port) = read_authority(strip_char(trim(first), '"'))?;
    Some((version, string_of(host), port))
}

impl HttpVersion {
    pub fn from_str(s: &str) -> (r: Option<Self>)
        ensures
            r == version_named(s@),
    {
        let c = chars_of(s);
        Self::from_chars(c.as_slice())
    }

    pub fn from_chars(s: &[char]) -> (r: Option<Self>)
        ensures
            r == version_named(s@),
    {
        if is_text(s, "HTTP/1.0") {
            Some(HttpVersion::Http10)
        } else if is_text(s, "HTTP/1.1") {
            Some(HttpVersion::Http11)
        } else if is_text(s, "HTTP/2.0") || is_text(s, "HTTP/2") || is_text(s, "h2") {
            Some(HttpVersion::Http2)
        } else if is_text(s, "HTTP/3.0") || is_text(s, "HTTP/3") || is_text(s, "h3") {
            Some(HttpVersion::Http3)
        } else {
            None
        }
    }

    pub fn as_str(&self) -> (r: &'static str)
        ensures
            r@ == version_name(*self),
    {
        match self {
            HttpVersion::Http10 => "HTTP/1.0",
            HttpVersion::Http11 => "HTTP/1.1",
            HttpVersion::Http2 => "HTTP/2.0",
            HttpVersion::Http3 => "HTTP/3.0",
        }
    }

    pub fn priority(&self) -> (r: u8)
        ensures
            r == priority_of(*self),
    {
        match self {
            HttpVersion::Http3 => 4,
            HttpVersion::Http2 => 3,
            HttpVersion::Http11 => 2,
            HttpVersion::Http10 => 1,
        }
    }

    fn alpn_text(&self) -> (r: &'static str)
        ensures
            r@ == alpn_name(*self),
    {
        match self {
            HttpVersion::Http2 => "h2",
            HttpVersion::Http3 => "h3",
            HttpVersion::Http11 => "http/1.1",
            HttpVersion::Http10 => "",
        }
    }

    /// The protocol's name in ALPN, if it has one.
    pub fn alpn_protocol(&self) -> (r: Option<&'static [u8]>)
        ensures
            match r {
                Some(name) => *self != HttpVersion::Http10 && name@ == encode_utf8(alpn_name(*self)),
                None => *self == HttpVersion::Http10,
            },
    {
        match self {
            HttpVersion::Http10 => None,
            _ => Some(self.alpn_text().as_bytes()),
        }
    }

    /// The preferred version where it is supported, else the latest one that is, else HTTP/1.1.
    pub fn negotiate(supported: &[HttpVersion], preferred: HttpVersion) -> (r: HttpVersion)
        ensures
            supported@.contains(preferred) ==> r == preferred,
            !supported@.contains(preferred) && supported@.len() > 0 ==> supported@.contains(r)
                && forall|i: int|
                0 <= i < supported@.len() ==> priority_of(#[trigger] supported@[i]) <= priority_of(r),
            supported@.len() == 0 ==> r == HttpVersion::Http11,
    {
        let mut best: Option<HttpVersion> = None;
        let mut i: usize = 0;
        while i < supported.len()
            invariant
                i <= supported@.len(),
                forall|j: int| 0 <= j < i ==> #[trigger] supported@[j] != preferred,
                match best {
                    Some(b) => supported@.contains(b) && forall|j: int|
                        0 <= j < i ==> priority_of(#[trigger] supported@[j]) <= priority_of(b),
                    None => i == 0,
                },
            decreases supported@.len() - i,
        {
            let v = supported[i];
            assert(supported@[i as int] == v);
            if v == preferred {
                return preferred;
            }
            match best {
                Some(b) => {
                    if v.priority() >= b.priority() {
                        best = Some(v);
                    }
                },
                None => {
                    best = Some(v);
                },
            }
            i = i + 1;
        }
        match best {
            Some(b) => b,
            None => HttpVersion::Http11,
        }
    }

    pub fn is_binary(&self) -> (r: bool)
        ensures
            r == is_framed(*self),
    {
        matches!(self, HttpVersion::Http2 | HttpVersion::Http3)
    }

    pub fn uses_quic(&self) -> (r: bool)
        ensures
            r == (*self == HttpVersion::Http3),
    {
        matches!(self, HttpVersion::Http3)
    }

    pub fn requires_tls(&self) -> (r: bool)
        ensures
            r == is_framed(*self),
    {
        matches!(self, HttpVersion::Http2 | HttpVersion::Http3)
    }

    pub fn supports_server_push(&self) -> (r: bool)
        ensures
            r == is_framed(*self),
    {
        matches!(self, HttpVersion::Http2 | HttpVersion::Http3)
    }

    pub fn supports_keep_alive(&self) -> (r: bool)
        ensures
            r == (*self != HttpVersion::Http10),
    {
        matches!(self, HttpVersion::Http11 | HttpVersion::Http2 | HttpVersion::Http3)
    }

    pub fn supports_multiplexing(&self) -> (r: bool)
        ensures
            r == is_framed(*self),
    {
        matches!(self, HttpVersion::Http2 | HttpVersion::Http3)
    }

    pub fn supports_content_encoding(&self) -> (r: bool)
        ensures
            r == (*self != HttpVersion::Http10),
    {
        matches!(self, HttpVersion::Http11 | HttpVersion::Http2 | HttpVersion::Http3)
    }

    pub fn supports_accept_encoding(&self) -> (r: bool)
        ensures
            r == (*self != HttpVersion::Http10),
    {
        self.supports_content_encoding()
    }

    pub fn supports_digest_header(&self) -> (r: bool)
        ensures
            r == (*self != HttpVersion::Http10),
    {
        matches!(self, HttpVersion::Http11 | HttpVersion::Http2 | HttpVersion::Http3)
    }

    pub fn default_accept_encoding(&self) -> (r: &'static str)
        ensures
            r@ == (if *self != HttpVersion::Http10 {
                "br, zstd, gzip, deflate, identity"@
            } else {
                "identity"@
            }),
    {
        if self.supports_accept_encoding() {
            "br, zstd, gzip, deflate, identity"
        } else {
            "identity"
        }
    }

    /// The services that an `Alt-Svc` value announces: version, host and port.
    pub fn parse_alt_svc(alt_svc: &str) -> (r: Vec<(HttpVersion, String, u16)>)
        ensures
            services_view(r@) == services(
                split_on(alt_svc@, ','),
                split_on(alt_svc@, ',').len() as int,
            ),
    {
        let text = chars_of(alt_svc);
        let elements = split(text.as_slice(), ',');
        let ghost all = split_on(alt_svc@, ',');
        let mut out: Vec<(HttpVersion, String, u16)> = Vec::new();
        assert(services_view(out@) =~= seq![]);
        let mut i: usize = 0;
        while i < elements.len()
            invariant
                i <= elements@.len(),
                texts(elements@) == all,
                services_view(out@) == services(all, i as int),
            decreases elements@.len() - i,
        {
            assert(all[i as int] == elements@[i as int]@);
            match read_service(elements[i]) {
                Some(s) => {
                    let ghost before = out@;
                    out.push(s);
                    assert(services_view(out@) =~= services_view(before).push((s.0, s.1@, s.2)));
                },
                None => {},
            }
            i = i + 1;
        }
        out
    }

    /// Chooses the coding for a version blob from an `Accept-Encoding` value.
    pub fn select_secure_algorithm(accept_encoding: &str) -> (r: CompressionAlgorithm)
        ensures
            r == selected(accept_encoding@, false),
    {
        select_compressing(accept_encoding)
    }
}


pub open spec fn flag_text(b: bool) -> Seq<char> {
    if b {
        "1"@
    } else {
        "0"@
    }
}

pub open spec fn flag_of(s: Seq<char>) -> Option<bool> {
    if s == "1"@ || s == "true"@ || s == "TRUE"@ || s == "True"@ {
        Some(true)
    } else if s == "0"@ || s == "false"@ || s == "FALSE"@ || s == "False"@ {
        Some(false)
    } else {
        None
    }
}

/// Reads a truth value.
pub fn parse_flag(s: &[char]) -> (r: Option<bool>)
    ensures
        r == flag_of(s@),
{
    if is_text(s, "1") || is_text(s, "true") || is_text(s, "TRUE") || is_text(s, "True") {
        Some(true)
    } else if is_text(s, "0") || is_text(s, "false") || is_text(s, "FALSE") || is_text(s, "False") {
        Some(false)
    } else {
        None
    }
}

fn flag_chars(b: bool) -> (r: Vec<char>)
    ensures
        r@ == flag_text(b),
{
    if b {
        chars_of("1")
    } else {
        chars_of("0")
    }
}

pub open spec fn version_keys() -> Seq<Seq<char>> {
    seq!["version"@, "priority"@, "is-binary"@, "uses-quic"@, "requires-tls"@, "alpn"@]
}

pub open spec fn version_values(v: HttpVersion) -> Seq<Seq<char>> {
    seq![
        version_name(v),
        decimal(priority_of(v) as nat),
        flag_text(is_framed(v)),
        flag_text(v == HttpVersion::Http3),
        flag_text(is_framed(v)),
        alpn_name(v),
    ]
}

/// A version, with what it is able to do, as a record.
pub open spec fn version_serialized(v: HttpVersion) -> Seq<u8> {
    record_octets(version_keys(), version_values(v))
}

/// Writes a version, with what it is able to do, as a record.
pub fn serialize_http_version(version: &HttpVersion) -> (r: Vec<u8>)
    ensures
        r@ == version_serialized(*version),
{
    let mut out: Vec<char> = Vec::new();
    let ghost l = record_lines(version_keys(), version_values(*version));
    push_field(&mut out, "version", chars_of(version.as_str()).as_slice());
    push_field(&mut out, "priority", to_decimal(version.priority() as u64).as_slice());
    push_field(&mut out, "is-binary", flag_chars(version.is_binary()).as_slice());
    push_field(&mut out, "uses-quic", flag_chars(version.uses_quic()).as_slice());
    push_field(&mut out, "requires-tls", flag_chars(version.requires_tls()).as_slice());
    push_field(&mut out, "alpn", chars_of(version.alpn_text()).as_slice());
    proof {
        reveal_with_fuel(ended, 7);
        assert(l.drop_last() =~= l.take(5));
        assert(l.take(5).drop_last() =~= l.take(4));
        assert(l.take(4).drop_last() =~= l.take(3));
        assert(l.take(3).drop_last() =~= l.take(2));
        assert(l.take(2).drop_last() =~= l.take(1));
        assert(l.take(1).drop_last() =~= l.take(0));
        assert(out@ =~= ended(l));
    }
    let text = string_of(out.as_slice());
    vstd::slice::slice_to_vec(text.as_str().as_bytes())
}

/// The value that a serialized version gives for a key.
pub open spec fn version_field(lines: Seq<Seq<char>>, key: Seq<char>) -> Option<Seq<char>> {
    loose_last(lines, '=', key, 0, lines.len() as int)
}

pub open spec fn flag_agrees(given: Option<Seq<char>>, expected: bool) -> bool {
    given matches Some(t) ==> flag_of(t) == Some(expected)
}

/// The version that lines name, if what else they say of it is true.
pub open spec fn version_in(lines: Seq<Seq<char>>) -> Option<HttpVersion> {
    match version_field(lines, "version"@) {
        None => None,
        Some(name) => match version_named(name) {
            None => None,
            Some(v) => if (version_field(lines, "priority"@) matches Some(t) ==> parsed(
                t,
                u8::MAX as nat,
            ) == Some(priority_of(v) as nat)) && flag_agrees(
                version_field(lines, "is-binary"@),
                is_framed(v),
            ) && flag_agrees(version_field(lines, "uses-quic"@), v == HttpVersion::Http3)
                && flag_agrees(version_field(lines, "requires-tls"@), is_framed(v)) && (version_field(
                lines,
                "alpn"@,
            ) matches Some(t) ==> t == alpn_name(v)) {
                Some(v)
            } else {
                None
            },
        },
    }
}

/// The version that was serialized.
pub open spec fn version_deserialized(raw: Seq<u8>) -> Option<HttpVersion> {
    if valid_utf8(raw) {
        version_in(lines_of(decode_utf8(raw)))
    } else {
        None
    }
}

/// Reads a version from the record that `serialize_http_version` writes.
pub fn deserialize_http_version(raw_payload: &[u8]) -> (r: Option<HttpVersion>)
    ensures
        r == version_deserialized(raw_payload@),
{
    let text = utf8_text(raw_payload)?;
    let chars = chars_of(text.as_str());
    let rows = lines(chars.as_slice());
    let name = loose_get(&rows, '=', "version", 0)?;
    let version = HttpVersion::from_chars(name)?;
    match loose_get(&rows, '=', "priority", 0) {
        Some(t) => {
            if parse_u8(t)? != version.priority() {
                return None;
            }
        },
        None => {},
    }
    match loose_get(&rows, '=', "is-binary", 0) {
        Some(t) => {
            if parse_flag(t)? != version.is_binary() {
                return None;
            }
        },
        None => {},
    }
    match loose_get(&rows, '=', "uses-quic", 0) {
        Some(t) => {
            if parse_flag(t)? != version.uses_quic() {
                return None;
            }
        },
        None => {},
    }
    match loose_get(&rows, '=', "requires-tls", 0) {
        Some(t) => {
            if parse_flag(t)? != version.requires_tls() {
                return None;
            }
        },
        None => {},
    }
    match loose_get(&rows, '=', "alpn", 0) {
        Some(t) => {
            if !is_text(t, version.alpn_text()) {
                return None;
            }
        },
        None => {},
    }
    Some(version)
}

/// What a version blob holds.
pub open spec fn version_unsealed(data: Seq<u8>, plain: Option<Seq<u8>>) -> Result<
    (MetaView, HttpVersion),
    EnvelopeError,
> {
    carried(
        ticket_unsealed(TicketKind::Version, data, plain),
        |raw: Seq<u8>| version_deserialized(raw),
    )
}

impl HttpVersion {
    /// Seals the version in a blob. `coded` is what the codec of `algorithm` made of the serialized
    /// version, `None` where the codec failed; it is not looked at under the identity.
    pub fn to_secure_blob(
        &self,
        algorithm: CompressionAlgorithm,
        coded: Option<&[u8]>,
        nonce: &[u8],
        issued_at_unix: u64,
    ) -> (r: Result<(SecureHttpVersionBlobMeta, Vec<u8>), EnvelopeError>)
        ensures
            contents(r) == ticket_sealed(
                TicketKind::Version,
                version_serialized(*self),
                algorithm,
                opt_bytes(coded),
                nonce@,
                issued_at_unix as nat,
            ),
    {
        let raw = serialize_http_version(self);
        seal_ticket(TicketKind::Version, raw.as_slice(), algorithm, coded, nonce, issued_at_unix)
    }

    /// Seals the version in the coding chosen from an `Accept-Encoding` value.
    pub fn to_secure_blob_auto(
        &self,
        accept_encoding: &str,
        coded: Option<&[u8]>,
        nonce: &[u8],
        issued_at_unix: u64,
    ) -> (r: Result<(SecureHttpVersionBlobMeta, Vec<u8>), EnvelopeError>)
        ensures
            contents(r) == ticket_sealed(
                TicketKind::Version,
                version_serialized(*self),
                selected(accept_encoding@, false),
                opt_bytes(coded),
                nonce@,
                issued_at_unix as nat,
            ),
    {
        let algorithm = Self::select_secure_algorithm(accept_encoding);
        self.to_secure_blob(algorithm, coded, nonce, issued_at_unix)
    }

    /// Opens a version blob. `plain` is what the codec made of the payload as sent, `None` where the
    /// codec failed; it is not looked at under the identity.
    pub fn from_secure_blob(data: &[u8], plain: Option<&[u8]>) -> (r: Result<
        (SecureHttpVersionBlobMeta, Self),
        EnvelopeError,
    >)
        ensures
            match r {
                Ok((meta, v)) => version_unsealed(data@, opt_bytes(plain)) == Ok::<
                    (MetaView, HttpVersion),
                    EnvelopeError,
                >((meta@, v)),
                Err(e) => version_unsealed(data@, opt_bytes(plain)) == Err::<
                    (MetaView, HttpVersion),
                    EnvelopeError,
                >(e),
            },
    {
        match unseal_ticket(TicketKind::Version, data, plain) {
            Ok((meta, raw)) => match deserialize_http_version(raw.as_slice()) {
                Some(v) => Ok((meta, v)),
                None => Err(EnvelopeError::BadPayload),
            },
            Err(e) => Err(e),
        }
    }
}

/// Every version is found by its name.
pub proof fn law_version_names(v: HttpVersion)
    ensures
        version_named(version_name(v)) == Some(v),
{
    reveal_strlit("HTTP/1.0");
    reveal_strlit("HTTP/1.1");
    reveal_strlit("HTTP/2.0");
    reveal_strlit("HTTP/3.0");
    reveal_strlit("HTTP/2");
    reveal_strlit("HTTP/3");
    reveal_strlit("h2");
    reveal_strlit("h3");
    assert("HTTP/1.0"@[7] == '0' && "HTTP/1.1"@[7] == '1');
    assert("HTTP/1.0"@[5] == '1' && "HTTP/1.1"@[5] == '1');
    assert("HTTP/2.0"@[5] == '2' && "HTTP/3.0"@[5] == '3');
    assert("HTTP/2"@.len() == 6 && "h2"@.len() == 2 && "HTTP/3.0"@.len() == 8);
}

/// A version that was serialized is read back.
pub proof fn law_version_roundtrip(v: HttpVersion)
    ensures
        version_deserialized(version_serialized(v)) == Some(v),
{
    let keys = version_keys();
    let values = version_values(v);
    let l = record_lines(keys, values);
    reveal_strlit("version");
    reveal_strlit("priority");
    reveal_strlit("is-binary");
    reveal_strlit("uses-quic");
    reveal_strlit("requires-tls");
    reveal_strlit("alpn");
    reveal_strlit("HTTP/1.0");
    reveal_strlit("HTTP/1.1");
    reveal_strlit("HTTP/2.0");
    reveal_strlit("HTTP/3.0");
    reveal_strlit("h2");
    reveal_strlit("h3");
    reveal_strlit("http/1.1");
    reveal_strlit("");
    reveal_strlit("1");
    reveal_strlit("0");
    lemma_decimal_tidy(priority_of(v) as nat);
    assert("is-binary"@[0] == 'i' && "uses-quic"@[0] == 'u');
    assert(keys[0].len() == 7 && keys[1].len() == 8 && keys[2].len() == 9 && keys[3].len() == 9
        && keys[4].len() == 12 && keys[5].len() == 4);
    assert(recordable(keys, values));
    lemma_record_octets(keys, values);
    assert forall|i: int| 0 <= i < 6 implies loose_key(#[trigger] l[i], '=') == keys[i] && loose_value(
        l[i],
        '=',
    ) == values[i] by {
        assert(lacks(keys[i], '=') && solid(keys[i]));
        assert(solid(values[i]));
        lemma_pair(l[i], keys[i], values[i]);
    }
    assert(loose_key(l[0], '=') == keys[0] && loose_key(l[1], '=') == keys[1]);
    assert(loose_key(l[2], '=') == keys[2] && loose_key(l[3], '=') == keys[3]);
    assert(loose_key(l[4], '=') == keys[4] && loose_key(l[5], '=') == keys[5]);
    law_version_names(v);
    law_decimal_roundtrip(priority_of(v) as nat, u8::MAX as nat);
    reveal_strlit("true");
    reveal_strlit("TRUE");
    reveal_strlit("True");
    assert("0"@[0] == '0' && "1"@[0] == '1');
    assert("true"@.len() == 4 && "TRUE"@.len() == 4 && "True"@.len() == 4);
    reveal_with_fuel(loose_last, 8);
}

/// A version comes out of a blob as it went in, given that the codec undoes what it did.
pub proof fn law_version_blob_roundtrip(
    v: HttpVersion,
    algorithm: CompressionAlgorithm,
    coded: Option<Seq<u8>>,
    nonce: Seq<u8>,
    issued_at: nat,
)
    requires
        version_serialized(v).len() <= usize::MAX,
        coded matches Some(c) ==> c.len() <= usize::MAX,
        nonce.len() > 0,
        issued_at <= u64::MAX,
    ensures
        ticket_sealed(
            TicketKind::Version,
            version_serialized(v),
            algorithm,
            coded,
            nonce,
            issued_at,
        ) matches Ok((meta, data)) ==> version_unsealed(data, Some(version_serialized(v))) == Ok::<
            (MetaView, HttpVersion),
            EnvelopeError,
        >((meta, v)),
{
    law_ticket_roundtrip(
        TicketKind::Version,
        version_serialized(v),
        algorithm,
        coded,
        nonce,
        issued_at,
    );
    law_version_roundtrip(v);
}

/// Later versions come first; the versions with binary frames are the two last ones.
pub proof fn law_version_priorities(a: HttpVersion, b: HttpVersion)
    ensures
        priority_of(HttpVersion::Http10) < priority_of(HttpVersion::Http11),
        priority_of(HttpVersion::Http11) < priority_of(HttpVersion::Http2),
        priority_of(HttpVersion::Http2) < priority_of(HttpVersion::Http3),
        priority_of(a) == priority_of(b) ==> a == b,
        is_framed(a) && !is_framed(b) ==> priority_of(a) > priority_of(b),
{
}

/// An element of an `Alt-Svc` value announces the version that its protocol stands for at the host and the port in its
/// quotes, whatever parameters follow; an unknown protocol or a port that is none announces nothing.
pub proof fn law_alternative_service(proto: Seq<char>, host: Seq<char>, port: u16, params: Seq<char>)
    requires
        proto.len() > 0 && solid(proto) && lacks(proto, '=') && lacks(proto, '"'),
        solid(host) && lacks(host, '"') && lacks(host, ';'),
        params.len() > 0 ==> params[0] == ';' && !is_white(params.last()),
    ensures
        service_of(proto + seq!['=', '"'] + host + seq![':'] + decimal(port as nat) + seq!['"'] + params) == (
        match service_version(proto) {
            Some(v) => Some((v, host, port)),
            None => None,
        }),
        service_version("h3"@) == Some(HttpVersion::Http3) && service_version("h2"@) == Some(HttpVersion::Http2)
            && service_version("http/1.1"@) == Some(HttpVersion::Http11),
{
    reveal_strlit("h3");
    reveal_strlit("h3-29");
    reveal_strlit("h2");
    reveal_strlit("http/1.1");
    assert("h3"@[1] == '3' && "h2"@[1] == '2' && "h3"@.len() == 2 && "h2"@.len() == 2 && "h3-29"@.len() == 5
        && "http/1.1"@.len() == 8);
    let d = decimal(port as nat);
    lemma_decimal_digits(port as nat);
    law_decimal_roundtrip(port as nat, u16::MAX as nat);
    let place = host + seq![':'] + d;
    let quoted = seq!['"'] + place + seq!['"'];
    let e = proto + seq!['=', '"'] + host + seq![':'] + d + seq!['"'] + params;
    assert(e =~= proto + seq!['='] + (quoted + params));
    let n = proto.len() as int;
    assert(!is_white(proto[0]));
    assert(e[0] == proto[0]);
    assert(e.last() == (if params.len() > 0 {
        params.last()
    } else {
        '"'
    }));
    lemma_trimmed_solid(e);
    assert forall|j: int| 0 <= j < n implies e[j] != '=' by {
        assert(e[j] == proto[j]);
    }
    lemma_find_is(e, '=', n);
    assert(e.take(n) =~= proto);
    let behind = e.skip(n + 1);
    assert(behind =~= quoted + params);
    lemma_trimmed_solid(proto);
    lemma_strip_none(proto);
    assert forall|j: int| 0 <= j < place.len() implies #[trigger] place[j] != '"' && place[j] != ';' && !is_white(
        place[j],
    ) by {
        if j < host.len() {
            assert(place[j] == host[j]);
        } else if j > host.len() {
            assert(place[j] == d[j - host.len() - 1]);
            assert(is_digit(d[j - host.len() - 1]));
        }
    }
    assert forall|j: int| 0 <= j < quoted.len() implies #[trigger] quoted[j] != ';' by {
        if 0 < j < quoted.len() - 1 {
            assert(quoted[j] == place[j - 1]);
        }
    }
    if params.len() > 0 {
        assert forall|j: int| 0 <= j < quoted.len() implies behind[j] != ';' by {
            assert(behind[j] == quoted[j]);
        }
        assert(behind[quoted.len() as int] == ';');
        lemma_find_is(behind, ';', quoted.len() as int);
        assert(behind.take(quoted.len() as int) =~= quoted);
    } else {
        assert(behind =~= quoted);
        lemma_find_none(behind, ';');
    }
    assert(head(behind, ';') == quoted);
    lemma_trimmed_solid(quoted);
    assert(quoted.skip(1) =~= place + seq!['"']);
    assert(place.len() > 0);
    assert((place + seq!['"'])[0] == place[0]);
    assert(stripped_start(place + seq!['"'], '"') == place + seq!['"']);
    assert(stripped_start(quoted, '"') == place + seq!['"']);
    assert((place + seq!['"']).drop_last() =~= place);
    assert(place.last() != '"');
    assert(stripped_end(place, '"') == place);
    assert(stripped_end(place + seq!['"'], '"') == place);
    assert forall|j: int| host.len() < j < place.len() implies place[j] != ':' by {
        assert(place[j] == d[j - host.len() - 1]);
        assert(is_digit(d[j - host.len() - 1]));
    }
    lemma_rfind_is(place, ':', host.len() as int);
    assert(place.take(host.len() as int) =~= host);
    assert(place.skip(host.len() as int + 1) =~= d);
}

proof fn lemma_strip_none(s: Seq<char>)
    requires
        lacks(s, '"'),
    ensures
        stripped(s, '"') == s,
{
}

}
