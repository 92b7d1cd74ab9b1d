//! An HTTP/3 client apart from its transport: addresses, header lists, responses, and its sealed
//! profile. Socket addresses are held in the words in which they are written.
use vstd::prelude::*;
use vstd::slice::slice_subrange;
use vstd::string::StringSliceAdditionalSpecFns;

use crate::bytes::copy_range;
use crate::decimal::{
    decimal, is_digit, law_decimal_roundtrip, lemma_decimal_digits, lemma_decimal_value, parse_u16,
    parsed, to_decimal,
};
use crate::net::address::{address_words, canonical_address, is_address, law_address_words_settle};
use crate::net::blob::{law_blob_roundtrip, opt_bytes, seal, sealed, unseal, unsealed, BlobKind};
use crate::net::envelope::{carried, contents, lemma_decimal_tidy, EnvelopeError, EnvelopeMeta, MetaView};
use crate::net::http::compression::{select_compressing, selected, CompressionAlgorithm};
use crate::net::http::fields::{armour, armour_text, law_armour_roundtrip, read_armour, unarmoured};
use crate::net::http::headers::flat;
use crate::net::http::method::method_name;
use crate::net::http::negotiation::pair_views;
use crate::net::http::request::HttpRequest;
use crate::net::http::response::{FieldTable, HttpResponse, ResponseView};
use crate::net::http::version::HttpVersion;
use crate::net::record::{
    lemma_record, lemma_record_octets, number_of, push_pair, record_in, record_lines, record_octets,
    recordable, value_of, Record,
};
use crate::table::{
    before, in_name_order, law_put_in_order, law_put_value, lemma_put_entries, lemma_put_last, put, value, Table,
};
use crate::text::{
    begins_with, chars_of, ended, find, find_char, is_white, lacks, lemma_find_is, lemma_find_none, lemma_rfind_is,
    lemma_two_words, lines, lines_of, lossy, lossy_text, push_chars, push_text, rfind, rfind_char, solid, starts_with,
    string_of, strip_prefixes, texts, trim, trimmed, utf8_text, without_prefixes, words, words_of,
};

verus! {

/// Where a request goes.
#[derive(Debug, Clone)]
pub struct Http3Target {
    pub address: String,
    pub host: String,
    pub port: u16,
    pub path: String,
}

#[verifier::ext_equal]
pub struct TargetView {
    pub address: Seq<char>,
    pub host: Seq<char>,
    pub port: u16,
    pub path: Seq<char>,
}

impl View for Http3Target {
    type V = TargetView;

    open spec fn view(&self) -> TargetView {
        TargetView { address: self.address@, host: self.host@, port: self.port, path: self.path@ }
    }
}

/// A URL without its scheme.
pub open spec fn bare_url(url: Seq<char>) -> Seq<char> {
    without_prefixes(without_prefixes(url, "https://"@), "http://"@)
}

/// Authority and path of a URL without scheme.
pub open spec fn authority_and_path(s: Seq<char>) -> (Seq<char>, Seq<char>) {
    match find(s, '/') {
        Some(i) => (s.take(i), s.skip(i)),
        None => (s, "/"@),
    }
}

/// Why a URL leads nowhere: what stands for its port is none, or host and port make no address.
#[derive(Debug, Clone, PartialEq, Eq)]
pub enum TargetFault {
    Port(String),
    Address(String),
}

/// What a fault says.
pub enum TargetFaultView {
    Port(Seq<char>),
    Address(Seq<char>),
}

impl View for TargetFault {
    type V = TargetFaultView;

    open spec fn view(&self) -> TargetFaultView {
        match self {
            TargetFault::Port(t) => TargetFaultView::Port(t@),
            TargetFault::Address(t) => TargetFaultView::Address(t@),
        }
    }
}

/// A host and a port in words.
pub open spec fn host_and_port(host: Seq<char>, port: u16) -> Seq<char> {
    host + ":"@ + decimal(port as nat)
}

/// Where a host and a port lead; the host has to be an address of the network.
pub open spec fn target_at(host: Seq<char>, port: u16, path: Seq<char>) -> Result<TargetView, TargetFaultView> {
    match address_words(host_and_port(host, port)) {
        Some(address) => Ok(TargetView { address, host, port, path }),
        None => Err(TargetFaultView::Address(host_and_port(host, port))),
    }
}

/// Where a URL leads: the port is 443 where none is given.
pub open spec fn target_of(url: Seq<char>) -> Result<TargetView, TargetFaultView> {
    let (authority, path) = authority_and_path(bare_url(url));
    match rfind(authority, ':') {
        Some(i) => match parsed(authority.skip(i + 1), u16::MAX as nat) {
            Some(p) => target_at(authority.take(i), p as u16, path),
            None => Err(TargetFaultView::Port(authority.skip(i + 1))),
        },
        None => target_at(authority, 443, path),
    }
}

/// The fields that begin the header list of every request.
pub open spec fn pseudo_fields(method: Seq<char>, t: TargetView) -> Seq<(Seq<char>, Seq<char>)> {
    seq![
        (":method"@, method),
        (":path"@, t.path),
        (":scheme"@, "https"@),
        (":authority"@, t.host),
    ]
}

/// Status and fields that lines from `i` on give, up to an empty line.
pub open spec fn response_fields(
    lines: Seq<Seq<char>>,
    i: int,
    status: u16,
    headers: FieldTable,
) -> (u16, FieldTable)
    decreases lines.len() - i,
{
    if i < 0 || i >= lines.len() || lines[i].len() == 0 {
        (status, headers)
    } else if lines[i][0] == ':' {
        let w = words_of(lines[i]);
        if begins_with(lines[i], ":status"@) && w.len() > 1 {
            let s = match parsed(w[1], u16::MAX as nat) {
                Some(n) => n as u16,
                None => 200,
            };
            response_fields(lines, i + 1, s, headers)
        } else {
            response_fields(lines, i + 1, status, headers)
        }
    } else {
        match find(lines[i], ':') {
            Some(k) => response_fields(
                lines,
                i + 1,
                status,
                put(headers, trimmed(lines[i].take(k)), trimmed(lines[i].skip(k + 1))),
            ),
            None => response_fields(lines, i + 1, status, headers),
        }
    }
}

/// The position behind the first line feed from `from` on; the end where there is none.
pub open spec fn past_line(data: Seq<u8>, from: int) -> int
    decreases data.len() - from,
{
    if from < 0 || from >= data.len() {
        data.len() as int
    } else if data[from] == 10 {
        from + 1
    } else {
        past_line(data, from + 1)
    }
}

/// The octets behind the second line.
pub open spec fn past_two_lines(data: Seq<u8>) -> Seq<u8> {
    data.skip(past_line(data, past_line(data, 0)))
}

/// The response that octets hold. Octets that are not text are read with replacement characters.
pub open spec fn h3_response(data: Seq<u8>) -> ResponseView {
    let (status, headers) = response_fields(lines_of(lossy(data)), 0, 200, seq![]);
    ResponseView {
        status,
        reason: "OK"@,
        version: HttpVersion::Http3,
        headers,
        body: past_two_lines(data),
    }
}

/// A client: how long it waits, in milliseconds, the names of the servers it knows by address, and how
/// many connections it has.
#[derive(Debug, Clone)]
pub struct Http3Client {
    pub default_timeout_ms: u64,
    pub server_names: Table<String>,
    pub connections: usize,
}

#[verifier::ext_equal]
pub struct ClientView {
    pub default_timeout_ms: u64,
    pub server_names: FieldTable,
    pub connections: usize,
}

impl View for Http3Client {
    type V = ClientView;

    open spec fn view(&self) -> ClientView {
        ClientView {
            default_timeout_ms: self.default_timeout_ms,
            server_names: self.server_names@,
            connections: self.connections,
        }
    }
}

pub open spec fn new_client() -> ClientView {
    ClientView { default_timeout_ms: 30000, server_names: seq![], connections: 0 }
}

impl Default for Http3Client {
    fn default() -> (r: Self)
        ensures
            r.inv(),
            r@ == new_client(),
    {
        Http3Client::new()
    }
}

/// A text that may be missing.
pub open spec fn opt_string(o: Option<&String>) -> Option<Seq<char>> {
    match o {
        Some(t) => Some(t@),
        None => None,
    }
}

/// Whether all servers are known by addresses as they are written.
pub open spec fn all_addresses(names: FieldTable) -> bool {
    forall|i: int| 0 <= i < names.len() ==> is_address((#[trigger] names[i]).0)
}

/// One address more leaves all of them addresses.
proof fn lemma_known_address(names: FieldTable, addr: Seq<char>, name: Seq<char>)
    requires
        all_addresses(names),
        is_address(addr),
    ensures
        all_addresses(put(names, addr, name)),
{
    lemma_put_entries(names, addr, name);
    let out = put(names, addr, name);
    assert forall|i: int| 0 <= i < out.len() implies is_address((#[trigger] out[i]).0) by {
        if out[i] != (addr, name) {
            let k = choose|k: int| 0 <= k < names.len() && names[k] == out[i];
            assert(is_address(names[k].0));
        }
    }
}

fn pair(name: &str, v: &str) -> (r: (String, String))
    ensures
        r.0@ == name@ && r.1@ == v@,
{
    (name.to_owned(), v.to_owned())
}

fn start_fields(method: &str, target: &Http3Target) -> (r: Vec<(String, String)>)
    ensures
        pair_views(r@) == pseudo_fields(method@, target@),
{
    let mut out: Vec<(String, String)> = Vec::new();
    out.push(pair(":method", method));
    out.push(pair(":path", target.path.as_str()));
    out.push(pair(":scheme", "https"));
    out.push(pair(":authority", target.host.as_str()));
    assert(pair_views(out@) =~= pseudo_fields(method@, target@));
    out
}

impl Http3Client {
    /// What holds of every client: an address is known once, and as it is written.
    pub open spec fn inv(&self) -> bool {
        in_name_order(self@.server_names) && all_addresses(self@.server_names)
    }

    pub fn new() -> (r: Self)
        ensures
            r.inv(),
            r@ == new_client(),
    {
        Http3Client { default_timeout_ms: 30000, server_names: Table::new(), connections: 0 }
    }

    pub fn with_timeout(self, timeout_ms: u64) -> (r: Self)
        requires
            self.inv(),
        ensures
            r.inv(),
            r@ == (ClientView { default_timeout_ms: timeout_ms, ..self@ }),
    {
        Http3Client { default_timeout_ms: timeout_ms, ..self }
    }

    /// Remembers the name of the server at an address. Tells whether the text denotes an address; where it does not,
    /// nothing is remembered.
    pub fn remember(&mut self, addr: &str, server_name: &str) -> (r: bool)
        requires
            old(self).inv(),
        ensures
            final(self).inv(),
            match address_words(addr@) {
                Some(w) => r && final(self)@ == (ClientView {
                    server_names: put(old(self)@.server_names, w, server_name@),
                    ..old(self)@
                }),
                None => !r && final(self)@ == old(self)@,
            },
    {
        match canonical_address(addr) {
            Some(w) => {
                proof {
                    law_address_words_settle(addr@);
                    lemma_known_address(self@.server_names, w@, server_name@);
                }
                self.server_names.insert(w, server_name.to_owned());
                true
            },
            None => false,
        }
    }

    /// The name of the server at an address.
    pub fn server_name(&self, addr: &str) -> (r: Option<&String>)
        ensures
            opt_string(r) == (match address_words(addr@) {
                Some(w) => value(self@.server_names, w),
                None => None,
            }),
    {
        match canonical_address(addr) {
            Some(w) => self.server_names.get(w.as_str()),
            None => None,
        }
    }

    pub fn connection_count(&self) -> (r: usize)
        ensures
            r == self@.connections,
    {
        self.connections
    }

    fn target(host: &[char], port: u16, path: String) -> (r: Result<Http3Target, TargetFault>)
        ensures
            match r {
                Ok(t) => target_at(host@, port, path@) == Ok::<TargetView, TargetFaultView>(t@),
                Err(e) => target_at(host@, port, path@) == Err::<TargetView, TargetFaultView>(e@),
            },
    {
        let mut text: Vec<char> = Vec::new();
        push_chars(&mut text, host);
        push_text(&mut text, ":");
        push_chars(&mut text, to_decimal(port as u64).as_slice());
        assert(text@ =~= host_and_port(host@, port));
        let words = string_of(text.as_slice());
        match canonical_address(words.as_str()) {
            Some(address) => Ok(Http3Target { address, host: string_of(host), port, path }),
            None => Err(TargetFault::Address(words)),
        }
    }

    /// Reads where a URL leads.
    pub fn parse_url(url: &str) -> (r: Result<Http3Target, TargetFault>)
        ensures
            match r {
                Ok(t) => target_of(url@) == Ok::<TargetView, TargetFaultView>(t@),
                Err(e) => target_of(url@) == Err::<TargetView, TargetFaultView>(e@),
            },
    {
        let whole = chars_of(url);
        proof {
            reveal_strlit("https://");
            reveal_strlit("http://");
        }
        let rest = strip_prefixes(strip_prefixes(whole.as_slice(), "https://"), "http://");
        let end: usize = rest.len();
        let (authority, path) = match find_char(rest, '/') {
            Some(i) => {
                let left = slice_subrange(rest, 0, i);
                let right = slice_subrange(rest, i, end);
                assert(left@ =~= rest@.take(i as int));
                assert(right@ =~= rest@.skip(i as int));
                (left, string_of(right))
            },
            None => (rest, "/".to_owned()),
        };
        let stop: usize = authority.len();
        match rfind_char(authority, ':') {
            Some(i) => {
                let host = slice_subrange(authority, 0, i);
                let port = slice_subrange(authority, i + 1, stop);
                assert(host@ =~= authority@.take(i as int));
                assert(port@ =~= authority@.skip(i + 1));
                match parse_u16(port) {
                    Some(p) => Self::target(host, p, path),
                    None => Err(TargetFault::Port(string_of(port))),
                }
            },
            None => Self::target(authority, 443, path),
        }
    }

    /// The header list of a request for a page.
    pub fn get(target: &Http3Target) -> (r: Vec<(String, String)>)
        ensures
            pair_views(r@) == pseudo_fields("GET"@, target@),
    {
        start_fields("GET", target)
    }

    /// The header list of a request that posts a body.
    pub fn post(target: &Http3Target, body: &[u8]) -> (r: Vec<(String, String)>)
        ensures
            pair_views(r@) == pseudo_fields("POST"@, target@).push(
                ("content-length"@, decimal(body@.len())),
            ),
    {
        let mut out = start_fields("POST", target);
        let ghost was = out@;
        let size = string_of(to_decimal(body.len() as u64).as_slice());
        out.push(pair("content-length", size.as_str()));
        assert(pair_views(out@) =~= pair_views(was).push(("content-length"@, decimal(body@.len()))));
        out
    }

    /// The header list of a request, its own fields behind those that every request has.
    pub fn request(target: &Http3Target, request: &HttpRequest) -> (r: Vec<(String, String)>)
        ensures
            pair_views(r@) == pseudo_fields(method_name(request@.method), target@) + flat(
                request@.headers,
                request@.headers.len() as int,
            ),
    {
        let headers = request.headers();
        let mut out = start_fields(request.method().as_str(), target);
        let ghost lead = pair_views(out@);
        let mut i: usize = 0;
        assert(pair_views(out@) =~= lead + flat(headers@, 0));
        while i < headers.len()
            invariant
                i <= headers@.len(),
                pair_views(out@) == lead + flat(headers@, i as int),
            decreases headers@.len() - i,
        {
            let name = headers.name_at(i);
            let values = headers.values_at(i);
            let ghost so_far = pair_views(out@);
            let ghost own = values@.map_values(|v: Seq<char>| (name@, v));
            let mut j: usize = 0;
            assert(pair_views(out@) =~= so_far + own.take(0));
            while j < values.len()
                invariant
                    j <= values@.len(),
                    own == values@.map_values(|v: Seq<char>| (name@, v)),
                    pair_views(out@) == so_far + own.take(j as int),
                decreases values@.len() - j,
            {
                let ghost was = out@;
                out.push(pair(name, values.at(j)));
                assert(pair_views(out@) =~= pair_views(was).push((name@, values@[j as int])));
                assert(own.take(j + 1) =~= own.take(j as int).push(own[j as int]));
                j = j + 1;
            }
            assert(own.take(own.len() as int) =~= own);
            assert(lead + flat(headers@, i + 1) =~= so_far + own);
            i = i + 1;
        }
        out
    }

    /// Reads a response.
    pub fn parse_response(data: &[u8]) -> (r: HttpResponse)
        ensures
            r.inv(),
            r@ == h3_response(data@),
    {
        let text = lossy_text(data);
        let chars = chars_of(text.as_str());
        let rows = lines(chars.as_slice());
        let ghost all = texts(rows@);
        let mut headers: Table<String> = Table::new();
        let mut status: u16 = 200;
        let mut i: usize = 0;
        while i < rows.len() && rows[i].len() > 0
            invariant
                i <= rows@.len(),
                all == texts(rows@),
                headers.inv(),
                response_fields(all, i as int, status, headers@) == response_fields(
                    all,
                    0,
                    200,
                    seq![],
                ),
            decreases rows@.len() - i,
        {
            let line = rows[i];
            assert(all[i as int] == line@);
            if line[0] == ':' {
                if starts_with(line, ":status") {
                    let w = words(line);
                    assert(texts(w@).len() == w@.len());
                    if w.len() > 1 {
                        assert(texts(w@)[1] == w@[1]@);
                        status = match parse_u16(w[1]) {
                            Some(n) => n,
                            None => 200,
                        };
                    }
                }
            } else {
                let end: usize = line.len();
                match find_char(line, ':') {
                    Some(k) => {
                        let left = slice_subrange(line, 0, k);
                        let right = slice_subrange(line, k + 1, end);
                        assert(left@ =~= line@.take(k as int));
                        assert(right@ =~= line@.skip(k + 1));
                        headers.insert(string_of(trim(left)), string_of(trim(right)));
                    },
                    None => {},
                }
            }
            i = i + 1;
        }
        assert(i < rows@.len() ==> all[i as int] == rows@[i as int]@);
        let start = skip_line(data, skip_line(data, 0));
        let body = copy_range(data, start, data.len());
        assert(body@ =~= past_two_lines(data@));
        HttpResponse::new(status, "OK".to_owned(), HttpVersion::Http3, headers, body)
    }
}

fn skip_line(data: &[u8], from: usize) -> (r: usize)
    requires
        from <= data@.len(),
    ensures
        r == past_line(data@, from as int),
        r <= data@.len(),
{
    let mut i: usize = from;
    while i < data.len()
        invariant
            i <= data@.len(),
            past_line(data@, i as int) == past_line(data@, from as int),
        decreases data@.len() - i,
    {
        if data[i] == 10 {
            return i + 1;
        }
        i = i + 1;
    }
    i
}

/// The header of a client profile blob.
pub type SecureHttp3ClientProfileMeta = EnvelopeMeta;

pub open spec fn client_keys() -> Seq<Seq<char>> {
    seq!["default-timeout-ms"@, "known-server-count"@, "active-connections"@]
}

pub open spec fn client_values(c: ClientView) -> Seq<Seq<char>> {
    seq![
        decimal(c.default_timeout_ms as nat),
        decimal(c.server_names.len()),
        decimal(c.connections as nat),
    ]
}

pub open spec fn addr_key(i: nat) -> Seq<char> {
    "server-name-"@ + decimal(i) + "-addr"@
}

pub open spec fn name_key(i: nat) -> Seq<char> {
    "server-name-"@ + decimal(i) + "-name"@
}

/// The keys of the first `n` servers.
pub open spec fn server_keys(n: nat) -> Seq<Seq<char>> {
    Seq::new(
        2 * n,
        |i: int|
            if i % 2 == 0 {
                addr_key((i / 2) as nat)
            } else {
                name_key((i / 2) as nat)
            },
    )
}

/// The values that go with `server_keys`.
pub open spec fn server_values(names: FieldTable) -> Seq<Seq<char>> {
    Seq::new(
        2 * names.len(),
        |i: int|
            if i % 2 == 0 {
                armour(names[i / 2].0)
            } else {
                armour(names[i / 2].1)
            },
    )
}

pub open spec fn profile_keys(c: ClientView) -> Seq<Seq<char>> {
    client_keys() + server_keys(c.server_names.len())
}

pub open spec fn profile_values(c: ClientView) -> Seq<Seq<char>> {
    client_values(c) + server_values(c.server_names)
}

/// A client's profile as a record.
pub open spec fn client_serialized(c: ClientView) -> Seq<u8> {
    record_octets(profile_keys(c), profile_values(c))
}

/// The text that a record gives in Base64 under a key.
pub open spec fn text_of(lines: Seq<Seq<char>>, key: Seq<char>) -> Option<Seq<char>> {
    match value_of(lines, key) {
        Some(v) => unarmoured(v),
        None => None,
    }
}

/// The servers from `i` on that a record gives, put to those before.
pub open spec fn servers_read(lines: Seq<Seq<char>>, sofar: FieldTable, i: nat, count: nat) -> Option<
    FieldTable,
>
    decreases count - i,
{
    if i >= count {
        Some(sofar)
    } else {
        match (text_of(lines, addr_key(i)), text_of(lines, name_key(i))) {
            (Some(addr), Some(name)) => match address_words(addr) {
                Some(w) => servers_read(lines, put(sofar, w, name), i + 1, count),
                None => None,
            },
            _ => None,
        }
    }
}

/// The client that a record describes. It has no connections; what the record says of them has to be a
/// number all the same.
pub open spec fn client_in(lines: Seq<Seq<char>>) -> Option<ClientView> {
    match (
        number_of(lines, "default-timeout-ms"@, u64::MAX as nat),
        number_of(lines, "known-server-count"@, usize::MAX as nat),
    ) {
        (Some(timeout), Some(count)) => if value_of(lines, "active-connections"@) is Some && number_of(
            lines,
            "active-connections"@,
            usize::MAX as nat,
        ) is None {
            None
        } else {
            match servers_read(lines, seq![], 0, count) {
                Some(server_names) => Some(
                    ClientView {
                        default_timeout_ms: timeout as u64,
                        server_names,
                        connections: 0,
                    },
                ),
                None => None,
            }
        },
        _ => None,
    }
}

pub open spec fn client_deserialized(raw: Seq<u8>) -> Option<ClientView> {
    match record_in(raw) {
        Some(lines) => client_in(lines),
        None => None,
    }
}

fn server_key(i: usize, suffix: &str) -> (r: Vec<char>)
    ensures
        r@ == "server-name-"@ + decimal(i as nat) + suffix@,
{
    let mut key = chars_of("server-name-");
    push_chars(&mut key, to_decimal(i as u64).as_slice());
    push_text(&mut key, suffix);
    key
}

/// Writes a client's profile as a record.
pub fn serialize_http3_client_profile(client: &Http3Client) -> (r: Vec<u8>)
    ensures
        r@ == client_serialized(client@),
{
    let mut out: Vec<char> = Vec::new();
    let ghost keys = profile_keys(client@);
    let ghost values = profile_values(client@);
    let ghost full = record_lines(keys, values);
    let n: usize = client.server_names.len();
    push_pair(
        &mut out,
        chars_of("default-timeout-ms").as_slice(),
        to_decimal(client.default_timeout_ms).as_slice(),
    );
    push_pair(&mut out, chars_of("known-server-count").as_slice(), to_decimal(n as u64).as_slice());
    push_pair(
        &mut out,
        chars_of("active-connections").as_slice(),
        to_decimal(client.connections as u64).as_slice(),
    );
    proof {
        reveal_with_fuel(ended, 4);
        assert(full.take(3).drop_last() =~= full.take(2));
        assert(full.take(2).drop_last() =~= full.take(1));
        assert(full.take(1).drop_last() =~= full.take(0));
        assert(out@ =~= ended(full.take(3)));
    }
    let mut i: usize = 0;
    while i < n
        invariant
            i <= n,
            n == client@.server_names.len(),
            keys == profile_keys(client@),
            values == profile_values(client@),
            full == record_lines(keys, values),
            out@ == ended(full.take(3 + 2 * i)),
        decreases n - i,
    {
        let key = server_key(i, "-addr");
        let v = armour_text(client.server_names.name_at(i));
        let ghost at = 3 + 2 * i;
        proof {
            let names = client@.server_names;
            assert(keys[at] == server_keys(names.len())[2 * i as int]);
            assert(values[at] == server_values(names)[2 * i as int]);
            assert(keys[at + 1] == server_keys(names.len())[2 * i as int + 1]);
            assert(values[at + 1] == server_values(names)[2 * i as int + 1]);
            assert((2 * i as int) / 2 == i && (2 * i as int + 1) / 2 == i);
            assert(full.take(at + 1) =~= full.take(at).push(full[at]));
            assert(full.take(at + 1).drop_last() =~= full.take(at));
        }
        push_pair(&mut out, key.as_slice(), v.as_slice());
        assert(out@ == ended(full.take(at + 1)));
        let key = server_key(i, "-name");
        let v = armour_text(client.server_names.value_at(i).as_str());
        proof {
            assert(full.take(at + 2) =~= full.take(at + 1).push(full[at + 1]));
            assert(full.take(at + 2).drop_last() =~= full.take(at + 1));
        }
        push_pair(&mut out, key.as_slice(), v.as_slice());
        i = i + 1;
    }
    assert(full.take(full.len() as int) =~= full);
    let text = string_of(out.as_slice());
    vstd::slice::slice_to_vec(text.as_str().as_bytes())
}

fn text_at(record: &Record, key: &[char]) -> (r: Option<String>)
    requires
        record.inv(),
    ensures
        match r {
            Some(t) => text_of(record@, key@) == Some(t@),
            None => text_of(record@, key@) is None,
        },
{
    match record.get(key) {
        Some(v) => read_armour(v),
        None => None,
    }
}

fn read_client(record: &Record) -> (r: Option<Http3Client>)
    requires
        record.inv(),
    ensures
        match r {
            Some(c) => c.inv() && client_in(record@) == Some(c@),
            None => client_in(record@) is None,
        },
{
    let timeout = record.u64_field("default-timeout-ms")?;
    let count = record.usize_field("known-server-count")?;
    if record.field("active-connections").is_some() {
        record.usize_field("active-connections")?;
    }
    let ghost lines = record@;
    let mut names: Table<String> = Table::new();
    let mut i: usize = 0;
    while i < count
        invariant
            i <= count,
            record.inv(),
            lines == record@,
            names.inv(),
            all_addresses(names@),
            number_of(lines, "default-timeout-ms"@, u64::MAX as nat) == Some(timeout as nat),
            number_of(lines, "known-server-count"@, usize::MAX as nat) == Some(count as nat),
            servers_read(lines, names@, i as nat, count as nat) == servers_read(
                lines,
                seq![],
                0,
                count as nat,
            ),
        decreases count - i,
    {
        let addr = text_at(record, server_key(i, "-addr").as_slice());
        let name = text_at(record, server_key(i, "-name").as_slice());
        match (addr, name) {
            (Some(a), Some(n)) => match canonical_address(a.as_str()) {
                Some(w) => {
                    proof {
                        law_address_words_settle(a@);
                        lemma_known_address(names@, w@, n@);
                    }
                    names.insert(w, n);
                },
                None => {
                    return None;
                },
            },
            _ => {
                return None;
            },
        }
        i = i + 1;
    }
    Some(Http3Client { default_timeout_ms: timeout, server_names: names, connections: 0 })
}

/// Reads a client from the record that `serialize_http3_client_profile` writes.
pub fn deserialize_http3_client_profile(raw_payload: &[u8]) -> (r: Option<Http3Client>)
    ensures
        match r {
            Some(c) => c.inv() && client_deserialized(raw_payload@) == Some(c@),
            None => client_deserialized(raw_payload@) is None,
        },
{
    let text = utf8_text(raw_payload)?;
    let chars = chars_of(text.as_str());
    let rows = lines(chars.as_slice());
    let record = Record::read(&rows)?;
    read_client(&record)
}

/// Chooses the coding for a profile blob from an `Accept-Encoding` value.
pub fn select_secure_http3_client_profile_algorithm(accept_encoding: &str) -> (r:
    CompressionAlgorithm)
    ensures
        r == selected(accept_encoding@, false),
{
    select_compressing(accept_encoding)
}

/// What a client profile blob holds.
pub open spec fn client_unsealed(data: Seq<u8>, plain: Option<Seq<u8>>) -> Result<
    (MetaView, ClientView),
    EnvelopeError,
> {
    carried(
        unsealed(BlobKind::Http3ClientProfile, data, plain),
        |raw: Seq<u8>| client_deserialized(raw),
    )
}

impl Http3Client {
    /// Seals the profile. `coded` is what the codec of `algorithm` made of the serialized profile,
    /// `None` where the codec failed; it is not looked at under the identity.
    pub fn to_secure_profile_blob(
        &self,
        algorithm: CompressionAlgorithm,
        coded: Option<&[u8]>,
        nonce: &[u8],
        issued_at_unix: u64,
    ) -> (r: Result<(SecureHttp3ClientProfileMeta, Vec<u8>), EnvelopeError>)
        ensures
            contents(r) == sealed(
                BlobKind::Http3ClientProfile,
                client_serialized(self@),
                algorithm,
                opt_bytes(coded),
                nonce@,
                issued_at_unix as nat,
            ),
    {
        let raw = serialize_http3_client_profile(self);
        seal(BlobKind::Http3ClientProfile, raw.as_slice(), algorithm, coded, nonce, issued_at_unix)
    }

    /// Seals the profile in the coding chosen from an `Accept-Encoding` value.
    pub fn to_secure_profile_blob_auto(
        &self,
        accept_encoding: &str,
        coded: Option<&[u8]>,
        nonce: &[u8],
        issued_at_unix: u64,
    ) -> (r: Result<(SecureHttp3ClientProfileMeta, Vec<u8>), EnvelopeError>)
        ensures
            contents(r) == sealed(
                BlobKind::Http3ClientProfile,
                client_serialized(self@),
                selected(accept_encoding@, false),
                opt_bytes(coded),
                nonce@,
                issued_at_unix as nat,
            ),
    {
        let algorithm = select_secure_http3_client_profile_algorithm(accept_encoding);
        self.to_secure_profile_blob(algorithm, coded, nonce, issued_at_unix)
    }

    /// Opens a client profile blob. `plain` is what the codec made of the payload as sent, `None` where
    /// the codec failed; it is not looked at under the identity.
    pub fn from_secure_profile_blob(data: &[u8], plain: Option<&[u8]>) -> (r: Result<
        (SecureHttp3ClientProfileMeta, Http3Client),
        EnvelopeError,
    >)
        ensures
            match r {
                Ok((meta, c)) => c.inv() && client_unsealed(data@, opt_bytes(plain)) == Ok::<
                    (MetaView, ClientView),
                    EnvelopeError,
                >((meta@, c@)),
                Err(e) => client_unsealed(data@, opt_bytes(plain)) == Err::<
                    (MetaView, ClientView),
                    EnvelopeError,
                >(e),
            },
    {
        match unseal(BlobKind::Http3ClientProfile, data, plain) {
            Ok((meta, raw)) => match deserialize_http3_client_profile(raw.as_slice()) {
                Some(c) => Ok((meta, c)),
                None => Err(EnvelopeError::BadPayload),
            },
            Err(e) => Err(e),
        }
    }
}

/// Seals a client's profile.
pub fn encode_secure_http3_client_profile(
    client: &Http3Client,
    algorithm: CompressionAlgorithm,
    coded: Option<&[u8]>,
    nonce: &[u8],
    issued_at_unix: u64,
) -> (r: Result<(SecureHttp3ClientProfileMeta, Vec<u8>), EnvelopeError>)
    ensures
        contents(r) == sealed(
            BlobKind::Http3ClientProfile,
            client_serialized(client@),
            algorithm,
            opt_bytes(coded),
            nonce@,
            issued_at_unix as nat,
        ),
{
    client.to_secure_profile_blob(algorithm, coded, nonce, issued_at_unix)
}

/// Seals a client's profile in the coding chosen from an `Accept-Encoding` value.
pub fn encode_secure_http3_client_profile_auto(
    client: &Http3Client,
    accept_encoding: &str,
    coded: Option<&[u8]>,
    nonce: &[u8],
    issued_at_unix: u64,
) -> (r: Result<(SecureHttp3ClientProfileMeta, Vec<u8>), EnvelopeError>)
    ensures
        contents(r) == sealed(
            BlobKind::Http3ClientProfile,
            client_serialized(client@),
            selected(accept_encoding@, false),
            opt_bytes(coded),
            nonce@,
            issued_at_unix as nat,
        ),
{
    client.to_secure_profile_blob_auto(accept_encoding, coded, nonce, issued_at_unix)
}

/// Opens a client profile blob.
pub fn decode_secure_http3_client_profile(data: &[u8], plain: Option<&[u8]>) -> (r: Result<
    (SecureHttp3ClientProfileMeta, Http3Client),
    EnvelopeError,
>)
    ensures
        match r {
            Ok((meta, c)) => c.inv() && client_unsealed(data@, opt_bytes(plain)) == Ok::<
                (MetaView, ClientView),
                EnvelopeError,
            >((meta@, c@)),
            Err(e) => client_unsealed(data@, opt_bytes(plain)) == Err::<
                (MetaView, ClientView),
                EnvelopeError,
            >(e),
        },
{
    Http3Client::from_secure_profile_blob(data, plain)
}

proof fn lemma_server_key(i: nat, suffix: Seq<char>)
    requires
        suffix == "-addr"@ || suffix == "-name"@,
    ensures
        ({
            let k = "server-name-"@ + decimal(i) + suffix;
            &&& lacks(k, '=') && solid(k)
            &&& k.len() == 17 + decimal(i).len()
            &&& k[0] == 's'
            &&& k.last() == suffix.last()
            &&& k.subrange(12, 12 + decimal(i).len() as int) == decimal(i)
        }),
{
    reveal_strlit("server-name-");
    reveal_strlit("-addr");
    reveal_strlit("-name");
    lemma_decimal_digits(i);
    let d = decimal(i);
    let a = "server-name-"@;
    let k = a + d + suffix;
    assert forall|j: int| 0 <= j < k.len() implies #[trigger] k[j] != '=' && !is_white(k[j]) by {
        if j < 12 {
            assert(k[j] == a[j]);
        } else if j < 12 + d.len() {
            assert(k[j] == d[j - 12]);
            assert(is_digit(d[j - 12]));
        } else {
            assert(k[j] == suffix[j - 12 - d.len()]);
        }
    }
    assert(k.subrange(12, 12 + d.len() as int) =~= d);
}

proof fn lemma_server_keys_apart(n: nat, i: int, j: int)
    requires
        0 <= i < 2 * n,
        0 <= j < 2 * n,
        i != j,
    ensures
        server_keys(n)[i] != server_keys(n)[j],
{
    let a = (i / 2) as nat;
    let b = (j / 2) as nat;
    lemma_server_key(a, "-addr"@);
    lemma_server_key(a, "-name"@);
    lemma_server_key(b, "-addr"@);
    lemma_server_key(b, "-name"@);
    reveal_strlit("-addr");
    reveal_strlit("-name");
    if i % 2 == j % 2 {
        if server_keys(n)[i] == server_keys(n)[j] {
            assert(decimal(a) == decimal(b));
            lemma_decimal_value(a);
            lemma_decimal_value(b);
            assert(a == b);
        }
    }
}

proof fn lemma_client_keys()
    ensures
        forall|i: int| 0 <= i < 3 ==> lacks(#[trigger] client_keys()[i], '=') && solid(client_keys()[i]),
        forall|i: int| 0 <= i < 3 ==> (#[trigger] client_keys()[i]).len() > 0 && client_keys()[i][0]
            != 's',
        client_keys()[0] != client_keys()[1],
        client_keys()[0] != client_keys()[2],
        client_keys()[1] != client_keys()[2],
{
    reveal_strlit("default-timeout-ms");
    reveal_strlit("known-server-count");
    reveal_strlit("active-connections");
    assert("default-timeout-ms"@[0] == 'd' && "known-server-count"@[0] == 'k'
        && "active-connections"@[0] == 'a');
}

proof fn lemma_client_recordable(c: ClientView)
    ensures
        recordable(profile_keys(c), profile_values(c)),
{
    let keys = profile_keys(c);
    let values = profile_values(c);
    let n = c.server_names.len();
    lemma_client_keys();
    assert(client_values(c).len() == 3 && client_keys().len() == 3);
    assert forall|i: int| 0 <= i < keys.len() implies lacks(#[trigger] keys[i], '=') && solid(keys[i]) by {
        if i < 3 {
            assert(keys[i] == client_keys()[i]);
        } else {
            assert(keys[i] == server_keys(n)[i - 3]);
            lemma_server_key(((i - 3) / 2) as nat, "-addr"@);
            lemma_server_key(((i - 3) / 2) as nat, "-name"@);
        }
    }
    assert forall|i: int| 0 <= i < values.len() implies solid(#[trigger] values[i]) by {
        if i < 3 {
            assert(values[i] == client_values(c)[i]);
            lemma_decimal_tidy(c.default_timeout_ms as nat);
            lemma_decimal_tidy(c.server_names.len());
            lemma_decimal_tidy(c.connections as nat);
        } else {
            assert(values[i] == server_values(c.server_names)[i - 3]);
            let e = c.server_names[(i - 3) / 2];
            law_armour_roundtrip(e.0);
            law_armour_roundtrip(e.1);
        }
    }
    assert forall|i: int, j: int|
        0 <= i < keys.len() && 0 <= j < keys.len() && i != j implies #[trigger] keys[i]
        != #[trigger] keys[j] by {
        if i < 3 && j < 3 {
            assert(keys[i] == client_keys()[i] && keys[j] == client_keys()[j]);
        } else if i >= 3 && j >= 3 {
            assert(keys[i] == server_keys(n)[i - 3] && keys[j] == server_keys(n)[j - 3]);
            lemma_server_keys_apart(n, i - 3, j - 3);
        } else if i < 3 {
            assert(keys[i] == client_keys()[i] && keys[j] == server_keys(n)[j - 3]);
            lemma_server_key(((j - 3) / 2) as nat, "-addr"@);
            lemma_server_key(((j - 3) / 2) as nat, "-name"@);
        } else {
            assert(keys[i] == server_keys(n)[i - 3] && keys[j] == client_keys()[j]);
            lemma_server_key(((i - 3) / 2) as nat, "-addr"@);
            lemma_server_key(((i - 3) / 2) as nat, "-name"@);
        }
    }
}

proof fn lemma_servers_read(c: ClientView, i: nat)
    requires
        all_addresses(c.server_names),
        in_name_order(c.server_names),
        i <= c.server_names.len(),
    ensures
        servers_read(
            record_lines(profile_keys(c), profile_values(c)),
            c.server_names.take(i as int),
            i,
            c.server_names.len(),
        ) == Some(c.server_names),
    decreases c.server_names.len() - i,
{
    let l = record_lines(profile_keys(c), profile_values(c));
    let names = c.server_names;
    let n = names.len();
    let was = names.take(i as int);
    if i == n {
        assert(was =~= names);
    } else {
        let e = names[i as int];
        let k = 3 + 2 * i as int;
        lemma_client_recordable(c);
        lemma_record(profile_keys(c), profile_values(c));
        assert((2 * i as int) / 2 == i && (2 * i as int + 1) / 2 == i);
        assert(profile_keys(c)[k] == server_keys(n)[2 * i as int]);
        assert(profile_keys(c)[k + 1] == server_keys(n)[2 * i as int + 1]);
        assert(profile_values(c)[k] == server_values(names)[2 * i as int]);
        assert(profile_values(c)[k + 1] == server_values(names)[2 * i as int + 1]);
        assert(profile_keys(c)[k] == addr_key(i));
        assert(profile_keys(c)[k + 1] == name_key(i));
        law_armour_roundtrip(e.0);
        law_armour_roundtrip(e.1);
        assert(is_address(names[i as int].0));
        assert(text_of(l, addr_key(i)) == Some(e.0));
        assert(text_of(l, name_key(i)) == Some(e.1));
        assert forall|j: int| 0 <= j < was.len() implies before((#[trigger] was[j]).0, e.0) by {
            assert(was[j] == names[j]);
        }
        lemma_put_last(was, e.0, e.1);
        assert(was.push(e) =~= names.take(i as int + 1));
        lemma_servers_read(c, i + 1);
    }
}

/// A client whose profile was serialized is read back, but for its connections.
pub proof fn law_client_roundtrip(c: ClientView)
    requires
        in_name_order(c.server_names),
        all_addresses(c.server_names),
        c.server_names.len() <= usize::MAX,
    ensures
        client_deserialized(client_serialized(c)) == Some(ClientView { connections: 0, ..c }),
{
    let keys = profile_keys(c);
    let values = profile_values(c);
    let l = record_lines(keys, values);
    lemma_client_recordable(c);
    lemma_record_octets(keys, values);
    lemma_record(keys, values);
    assert(keys[0] == "default-timeout-ms"@ && values[0] == decimal(c.default_timeout_ms as nat));
    assert(keys[1] == "known-server-count"@ && values[1] == decimal(c.server_names.len()));
    assert(keys[2] == "active-connections"@ && values[2] == decimal(c.connections as nat));
    law_decimal_roundtrip(c.default_timeout_ms as nat, u64::MAX as nat);
    law_decimal_roundtrip(c.server_names.len(), usize::MAX as nat);
    law_decimal_roundtrip(c.connections as nat, usize::MAX as nat);
    lemma_servers_read(c, 0);
    assert(c.server_names.take(0) =~= seq![]);
}

/// A client whose profile was sealed comes out of the blob, but for its connections, given that the codec
/// undoes what it did.
pub proof fn law_client_blob_roundtrip(
    c: ClientView,
    algorithm: CompressionAlgorithm,
    coded: Option<Seq<u8>>,
    nonce: Seq<u8>,
    issued_at: nat,
)
    requires
        in_name_order(c.server_names),
        all_addresses(c.server_names),
        c.server_names.len() <= usize::MAX,
        client_serialized(c).len() <= usize::MAX,
        coded matches Some(x) ==> x.len() <= usize::MAX,
        issued_at <= u64::MAX,
    ensures
        sealed(
            BlobKind::Http3ClientProfile,
            client_serialized(c),
            algorithm,
            coded,
            nonce,
            issued_at,
        ) matches Ok((meta, data)) ==> client_unsealed(data, Some(client_serialized(c))) == Ok::<
            (MetaView, ClientView),
            EnvelopeError,
        >((meta, ClientView { connections: 0, ..c })),
{
    law_client_roundtrip(c);
    law_blob_roundtrip(
        BlobKind::Http3ClientProfile,
        client_serialized(c),
        algorithm,
        coded,
        nonce,
        issued_at,
    );
}

proof fn lemma_status_stays(rows: Seq<Seq<char>>, i: int, end: int, status: u16, headers: FieldTable)
    requires
        0 <= i <= end <= rows.len(),
        end == rows.len() || rows[end].len() == 0,
        forall|j: int| i <= j < end ==> (#[trigger] rows[j]).len() > 0 && rows[j][0] != ':',
    ensures
        response_fields(rows, i, status, headers).0 == status,
    decreases end - i,
{
    if i < end {
        assert(rows[i].len() > 0 && rows[i][0] != ':');
        match find(rows[i], ':') {
            Some(k) => lemma_status_stays(
                rows,
                i + 1,
                end,
                status,
                put(headers, trimmed(rows[i].take(k)), trimmed(rows[i].skip(k + 1))),
            ),
            None => lemma_status_stays(rows, i + 1, end, status, headers),
        }
    }
}

proof fn lemma_fields_stay(rows: Seq<Seq<char>>, i: int, end: int, status: u16, headers: FieldTable, name: Seq<char>)
    requires
        0 <= i <= end <= rows.len(),
        end == rows.len() || rows[end].len() == 0,
        in_name_order(headers),
        forall|j: int| i <= j < end ==> (#[trigger] rows[j]).len() > 0 && rows[j][0] != ':',
        forall|j: int, k: int|
            i <= j < end && 0 <= k < (#[trigger] rows[j]).len() && #[trigger] rows[j][k] == ':' && lacks(
                rows[j].take(k),
                ':',
            ) ==> trimmed(rows[j].take(k)) != name,
    ensures
        value(response_fields(rows, i, status, headers).1, name) == value(headers, name),
    decreases end - i,
{
    if i < end {
        assert(rows[i].len() > 0 && rows[i][0] != ':');
        lemma_find_of(rows[i]);
        match find(rows[i], ':') {
            Some(k) => {
                let (n, v) = (trimmed(rows[i].take(k)), trimmed(rows[i].skip(k + 1)));
                assert(rows[i][k] == ':');
                law_put_in_order(headers, n, v);
                law_put_value(headers, n, v, name);
                lemma_fields_stay(rows, i + 1, end, status, put(headers, n, v), name);
            },
            None => lemma_fields_stay(rows, i + 1, end, status, headers, name),
        }
    }
}

/// The first colon of a line, if it has one.
proof fn lemma_find_of(line: Seq<char>)
    ensures
        match find(line, ':') {
            Some(k) => 0 <= k < line.len() && line[k] == ':' && lacks(line.take(k), ':'),
            None => lacks(line, ':'),
        },
{
    if exists|k: int| 0 <= k < line.len() && line[k] == ':' {
        let w = choose|k: int| 0 <= k < line.len() && line[k] == ':';
        let k = lemma_first_colon(line, w);
        lemma_find_is(line, ':', k);
    } else {
        lemma_find_none(line, ':');
    }
}

proof fn lemma_first_colon(line: Seq<char>, w: int) -> (k: int)
    requires
        0 <= w < line.len(),
        line[w] == ':',
    ensures
        0 <= k <= w,
        line[k] == ':',
        forall|j: int| 0 <= j < k ==> line[j] != ':',
    decreases w,
{
    if exists|j: int| 0 <= j < w && line[j] == ':' {
        lemma_first_colon(line, choose|j: int| 0 <= j < w && line[j] == ':')
    } else {
        w
    }
}

proof fn lemma_status_row(n: u16)
    ensures
        ({
            let row = ":status "@ + decimal(n as nat);
            &&& row.len() > 0 && row[0] == ':'
            &&& begins_with(row, ":status"@)
            &&& words_of(row) == seq![":status"@, decimal(n as nat)]
            &&& parsed(decimal(n as nat), u16::MAX as nat) == Some(n as nat)
        }),
{
    reveal_strlit(":status ");
    reveal_strlit(":status");
    let d = decimal(n as nat);
    let row = ":status "@ + d;
    lemma_decimal_digits(n as nat);
    law_decimal_roundtrip(n as nat, u16::MAX as nat);
    assert(row =~= ":status"@ + seq![' '] + d);
    assert forall|i: int| 0 <= i < d.len() implies !is_white(#[trigger] d[i]) by {
        assert(is_digit(d[i]));
    }
    assert(solid(":status"@));
    lemma_two_words(":status"@, d);
    assert(row.take(":status"@.len() as int) =~= ":status"@);
}

/// Octets whose first line gives a status and that have no other line with a colon in front before the first empty
/// line are read as a response with that status. Each other line up to there with a colon in it gives a field, unless
/// a later one gives it anew; nothing else does.
pub proof fn law_status_is_read(data: Seq<u8>, n: u16, end: int, j: int, k: int, name: Seq<char>)
    requires
        0 < end <= lines_of(lossy(data)).len(),
        end == lines_of(lossy(data)).len() || lines_of(lossy(data))[end].len() == 0,
        lines_of(lossy(data))[0] == ":status "@ + decimal(n as nat),
        forall|x: int|
            0 < x < end ==> (#[trigger] lines_of(lossy(data))[x]).len() > 0 && lines_of(lossy(data))[x][0] != ':',
    ensures
        h3_response(data).status == n,
        h3_response(data).version == HttpVersion::Http3,
        ({
            let rows = lines_of(lossy(data));
            let later = forall|x: int, y: int|
                j < x < end && 0 <= y < (#[trigger] rows[x]).len() && #[trigger] rows[x][y] == ':' && lacks(
                    rows[x].take(y),
                    ':',
                ) ==> trimmed(rows[x].take(y)) != name;
            &&& 0 < j < end && 0 <= k < rows[j].len() && rows[j][k] == ':' && lacks(rows[j].take(k), ':') && trimmed(
                rows[j].take(k),
            ) == name && later ==> value(h3_response(data).headers, name) == Some(trimmed(rows[j].skip(k + 1)))
            &&& j == 0 && later ==> value(h3_response(data).headers, name) is None
        }),
{
    let rows = lines_of(lossy(data));
    let none: FieldTable = seq![];
    lemma_status_row(n);
    let w = words_of(rows[0]);
    assert(w[1] == decimal(n as nat));
    assert(response_fields(rows, 0, 200, none) == response_fields(rows, 1, n, none));
    lemma_status_stays(rows, 1, end, n, none);
    if 0 <= j < end && forall|x: int, y: int|
        j < x < end && 0 <= y < (#[trigger] rows[x]).len() && #[trigger] rows[x][y] == ':' && lacks(
            rows[x].take(y),
            ':',
        ) ==> trimmed(rows[x].take(y)) != name {
        if j == 0 {
            lemma_fields_stay(rows, 1, end, n, none, name);
        } else if 0 <= k < rows[j].len() && rows[j][k] == ':' && lacks(rows[j].take(k), ':') && trimmed(rows[j].take(k))
            == name {
            lemma_field_given(rows, 1, end, n, none, j, k);
        }
    }
}

proof fn lemma_field_given(
    rows: Seq<Seq<char>>,
    i: int,
    end: int,
    status: u16,
    headers: FieldTable,
    j: int,
    k: int,
)
    requires
        0 <= i <= j < end <= rows.len(),
        end == rows.len() || rows[end].len() == 0,
        in_name_order(headers),
        forall|x: int| i <= x < end ==> (#[trigger] rows[x]).len() > 0 && rows[x][0] != ':',
        0 <= k < rows[j].len(),
        rows[j][k] == ':',
        lacks(rows[j].take(k), ':'),
        forall|x: int, y: int|
            j < x < end && 0 <= y < (#[trigger] rows[x]).len() && #[trigger] rows[x][y] == ':' && lacks(
                rows[x].take(y),
                ':',
            ) ==> trimmed(rows[x].take(y)) != trimmed(rows[j].take(k)),
    ensures
        value(response_fields(rows, i, status, headers).1, trimmed(rows[j].take(k))) == Some(
            trimmed(rows[j].skip(k + 1)),
        ),
    decreases j - i,
{
    assert(rows[i].len() > 0 && rows[i][0] != ':');
    lemma_find_of(rows[i]);
    if i == j {
        assert forall|x: int| 0 <= x < k implies rows[j][x] != ':' by {
            assert(rows[j].take(k)[x] == rows[j][x]);
        }
        lemma_find_is(rows[i], ':', k);
        let (n, v) = (trimmed(rows[i].take(k)), trimmed(rows[i].skip(k + 1)));
        law_put_in_order(headers, n, v);
        law_put_value(headers, n, v, n);
        lemma_fields_stay(rows, i + 1, end, status, put(headers, n, v), n);
    } else {
        match find(rows[i], ':') {
            Some(m) => {
                let (n, v) = (trimmed(rows[i].take(m)), trimmed(rows[i].skip(m + 1)));
                law_put_in_order(headers, n, v);
                lemma_field_given(rows, i + 1, end, status, put(headers, n, v), j, k);
            },
            None => lemma_field_given(rows, i + 1, end, status, headers, j, k),
        }
    }
}

/// An address leads to its host, its port and its path, with or without a scheme; the port is 443 and the path `/` where
/// it does not tell them.
pub proof fn law_h3_target(host: Seq<char>, port: u16, path: Seq<char>)
    requires
        host.len() > 0 && lacks(host, '/') && lacks(host, ':'),
        path.len() > 0 && path[0] == '/',
    ensures
        ({
            let leads = |h: Seq<char>, p: u16, t: Seq<char>| match address_words(h + ":"@ + decimal(p as nat)) {
                Some(address) => Ok::<TargetView, TargetFaultView>(TargetView { address, host: h, port: p, path: t }),
                None => Err(TargetFaultView::Address(h + ":"@ + decimal(p as nat))),
            };
            let whole = host + ":"@ + decimal(port as nat);
            &&& target_of("https://"@ + whole + path) == leads(host, port, path)
            &&& target_of("http://"@ + whole + path) == leads(host, port, path)
            &&& target_of(whole + path) == leads(host, port, path)
            &&& target_of("https://"@ + whole) == leads(host, port, "/"@)
            &&& target_of("https://"@ + host + path) == leads(host, 443, path)
        }),
{
    reveal_strlit(":");
    reveal_strlit("https://");
    reveal_strlit("http://");
    reveal_strlit("/");
    let d = decimal(port as nat);
    lemma_decimal_digits(port as nat);
    law_decimal_roundtrip(port as nat, u16::MAX as nat);
    let whole = host + ":"@ + d;
    assert forall|j: int| 0 <= j < whole.len() implies #[trigger] whole[j] != '/' by {
        if j < host.len() {
            assert(whole[j] == host[j]);
        } else if j > host.len() {
            assert(whole[j] == d[j - host.len() - 1]);
            assert(is_digit(d[j - host.len() - 1]));
        }
    }
    assert forall|j: int| host.len() < j < whole.len() implies whole[j] != ':' by {
        assert(whole[j] == d[j - host.len() - 1]);
        assert(is_digit(d[j - host.len() - 1]));
    }
    lemma_rfind_is(whole, ':', host.len() as int);
    assert(whole.take(host.len() as int) =~= host);
    assert(whole.skip(host.len() as int + 1) =~= d);
    lemma_no_colon(host);
    lemma_bare_front(whole, path);
    lemma_bare_front(host, path);
    assert("https://"@ + whole + path =~= "https://"@ + (whole + path));
    assert("http://"@ + whole + path =~= "http://"@ + (whole + path));
    assert("https://"@ + host + path =~= "https://"@ + (host + path));
    lemma_bare_front(whole, Seq::<char>::empty());
    assert(whole + Seq::<char>::empty() =~= whole);
    lemma_find_none(whole, '/');
    let a = whole + path;
    lemma_find_is(a, '/', whole.len() as int);
    assert(a.take(whole.len() as int) =~= whole);
    assert(a.skip(whole.len() as int) =~= path);
    let b = host + path;
    lemma_find_is(b, '/', host.len() as int);
    assert(b.take(host.len() as int) =~= host);
    assert(b.skip(host.len() as int) =~= path);
}

proof fn lemma_no_colon(s: Seq<char>)
    requires
        lacks(s, ':'),
    ensures
        rfind(s, ':') is None,
    decreases s.len(),
{
    if s.len() > 0 {
        assert(lacks(s.drop_last(), ':'));
        lemma_no_colon(s.drop_last());
    }
}

/// What is left of an address when its scheme is taken away.
proof fn lemma_bare_front(front: Seq<char>, path: Seq<char>)
    requires
        front.len() > 0 && lacks(front, '/'),
        path.len() > 0 ==> path[0] == '/',
        front.last() != ':',
    ensures
        bare_url("https://"@ + (front + path)) == front + path,
        bare_url("http://"@ + (front + path)) == front + path,
        bare_url(front + path) == front + path,
{
    reveal_strlit("https://");
    reveal_strlit("http://");
    let s = front + path;
    let n = front.len() as int;
    assert(!begins_with(s, "https://"@)) by {
        if begins_with(s, "https://"@) {
            let t = s.take(8);
            assert(t[5] == s[5] && t[6] == s[6] && t[4] == s[4]);
            lemma_scheme_place(front, path, 5);
            let j = choose|j: int| 0 <= j < 5 && #[trigger] s[j] == '/';
            assert(t[j] == s[j]);
        }
    }
    assert(!begins_with(s, "http://"@)) by {
        if begins_with(s, "http://"@) {
            let t = s.take(7);
            assert(t[4] == s[4] && t[5] == s[5]);
            lemma_scheme_place(front, path, 4);
            let j = choose|j: int| 0 <= j < 4 && #[trigger] s[j] == '/';
            assert(t[j] == s[j]);
        }
    }
    let a = "https://"@ + s;
    assert(a.take(8) =~= "https://"@);
    assert(a.skip(8) =~= s);
    let b = "http://"@ + s;
    assert(b.take(7) =~= "http://"@);
    assert(b.skip(7) =~= s);
    assert(!begins_with(b, "https://"@)) by {
        if begins_with(b, "https://"@) {
            assert(b.take(8)[4] == b[4]);
        }
    }
    assert(without_prefixes(a, "https://"@) == without_prefixes(s, "https://"@));
    assert(without_prefixes(s, "https://"@) == s);
    assert(without_prefixes(s, "http://"@) == s);
    assert(without_prefixes(b, "https://"@) == b);
    assert(without_prefixes(b, "http://"@) == without_prefixes(s, "http://"@));
}

/// A colon that a slash follows cannot stand before a path.
proof fn lemma_scheme_place(front: Seq<char>, path: Seq<char>, i: int)
    requires
        lacks(front, '/'),
        front.len() > 0 && front.last() != ':',
        path.len() > 0 ==> path[0] == '/',
        0 <= i && i + 1 < (front + path).len(),
        (front + path)[i] == ':' && (front + path)[i + 1] == '/',
    ensures
        exists|j: int| 0 <= j < i && #[trigger] (front + path)[j] == '/',
{
    let s = front + path;
    if i < front.len() {
        assert(s[i] == front[i]);
        if i + 1 < front.len() {
            assert(s[i + 1] == front[i + 1]);
        }
    } else {
        assert(s[front.len() as int] == '/');
    }
}

/// The header list of a request begins with its method, path, scheme and host, and has no other names with a colon in
/// front among these.
pub proof fn law_h3_request_line(method: Seq<char>, t: TargetView)
    ensures
        pseudo_fields(method, t).len() == 4,
        pseudo_fields(method, t).contains((":method"@, method)),
        pseudo_fields(method, t).contains((":path"@, t.path)),
        pseudo_fields(method, t).contains((":scheme"@, "https"@)),
        pseudo_fields(method, t).contains((":authority"@, t.host)),
{
    let p = pseudo_fields(method, t);
    assert(p[0] == (":method"@, method));
    assert(p[1] == (":path"@, t.path));
    assert(p[2] == (":scheme"@, "https"@));
    assert(p[3] == (":authority"@, t.host));
}

}
