//! A client over TLS apart from its sockets: its settings, the connections and protocols that it keeps, and what
//! it remembers between runs. Random octets, the time and the work of the codec come in as arguments.
use vstd::prelude::*;

use crate::net::blob::opt_bytes;
use crate::net::envelope::{contents, EnvelopeError, MetaView};
use crate::net::http::compression::{
    select_compressing, selected, CompressionAlgorithm, CompressionLevel,
};
use crate::net::http::headers::{with_field, Fields, Headers};
use crate::net::http::message::MessageError;
use crate::net::http::method::HttpMethod;
use crate::net::https::alpn::AlpnProtocol;
use crate::net::https::state::{
    seal_state, state_sealed, state_unsealed, unseal_state, HttpsClientStateSnapshot,
    SecureHttpsClientStateMeta, SnapshotView,
};
use crate::net::https::tls::config::{version_code, TlsCfg, TlsError, TLS_VERSION_1_2};
use crate::net::https::url::{connection_key, key_text, UrlFault};
use crate::table::{in_name_order, put, value, Table};

verus! {

/// What is wrong with a response or with preparing a request.
#[derive(Debug, Clone, Copy, PartialEq, Eq, Structural)]
pub enum ResponseFault {
    Empty,
    Unreadable(MessageError),
    /// What was made of a stream of HTTP/2 is no response.
    UnreadableStream(MessageError),
    BadStatus,
    MissingHeaders,
    NonceEncoding,
    TagEncoding,
    Integrity,
    /// The envelope of a response cannot be opened.
    Envelope(EnvelopeError),
    /// A body cannot be put into an envelope.
    Sealing(EnvelopeError),
    State(EnvelopeError),
}

/// What is wrong with a stream of HTTP/2.
#[derive(Debug, Clone, Copy, PartialEq, Eq, Structural)]
pub enum Http2Fault {
    Reset,
    HeaderBlock,
}

/// What can go wrong for a client.
#[derive(Debug, Clone, Copy, PartialEq, Eq, Structural)]
pub enum HttpsError {
    Tls(TlsError),
    Codec,
    InvalidUrl(UrlFault),
    InvalidResponse(ResponseFault),
    Timeout,
    ConnectionFailed,
    TooManyRedirects,
    ProtocolNegotiationFailed,
    Http2Error(Http2Fault),
}

impl ResponseFault {
    pub open spec fn text(&self) -> Seq<char> {
        match self {
            ResponseFault::Empty => "empty response"@,
            ResponseFault::Unreadable(e) | ResponseFault::UnreadableStream(e) => e.text(),
            ResponseFault::BadStatus => "invalid HTTP/2 status code"@,
            ResponseFault::MissingHeaders => "HTTP/2 response missing headers block"@,
            ResponseFault::NonceEncoding => "invalid response nonce encoding"@,
            ResponseFault::TagEncoding => "invalid HMAC header encoding"@,
            ResponseFault::Integrity => "response integrity verification failed"@,
            ResponseFault::Envelope(e) | ResponseFault::Sealing(e) => e.text(),
            ResponseFault::State(e) => e.text(),
        }
    }

    /// The fault in words.
    pub fn message(&self) -> (r: &'static str)
        ensures
            r@ == self.text(),
    {
        match self {
            ResponseFault::Empty => "empty response",
            ResponseFault::Unreadable(e) | ResponseFault::UnreadableStream(e) => e.message(),
            ResponseFault::BadStatus => "invalid HTTP/2 status code",
            ResponseFault::MissingHeaders => "HTTP/2 response missing headers block",
            ResponseFault::NonceEncoding => "invalid response nonce encoding",
            ResponseFault::TagEncoding => "invalid HMAC header encoding",
            ResponseFault::Integrity => "response integrity verification failed",
            ResponseFault::Envelope(e) | ResponseFault::Sealing(e) => e.message(),
            ResponseFault::State(e) => e.message(),
        }
    }
}

impl HttpsError {
    pub open spec fn text(&self) -> Seq<char> {
        match self {
            HttpsError::Tls(e) => e.text(),
            HttpsError::Codec => "content coding failed"@,
            HttpsError::InvalidUrl(e) => e.text(),
            HttpsError::InvalidResponse(e) => e.text(),
            HttpsError::Timeout => "request timeout"@,
            HttpsError::ConnectionFailed => "connection failed"@,
            HttpsError::TooManyRedirects => "too many redirects"@,
            HttpsError::ProtocolNegotiationFailed => "protocol negotiation failed"@,
            HttpsError::Http2Error(Http2Fault::Reset) => "received RST_STREAM for request stream"@,
            HttpsError::Http2Error(Http2Fault::HeaderBlock) => "HPACK decode failed"@,
        }
    }

    /// The core of the error in words; `to_string` tells the whole of it.
    pub fn message(&self) -> (r: &'static str)
        ensures
            r@ == self.text(),
    {
        match self {
            HttpsError::Tls(e) => e.message(),
            HttpsError::Codec => "content coding failed",
            HttpsError::InvalidUrl(e) => e.message(),
            HttpsError::InvalidResponse(e) => e.message(),
            HttpsError::Timeout => "request timeout",
            HttpsError::ConnectionFailed => "connection failed",
            HttpsError::TooManyRedirects => "too many redirects",
            HttpsError::ProtocolNegotiationFailed => "protocol negotiation failed",
            HttpsError::Http2Error(Http2Fault::Reset) => "received RST_STREAM for request stream",
            HttpsError::Http2Error(Http2Fault::HeaderBlock) => "HPACK decode failed",
        }
    }
}

/// Settings of a client. The time that a request may take is in milliseconds.
#[derive(Debug, Clone)]
pub struct HttpsClientCfg {
    pub tls_cfg: TlsCfg,
    pub timeout_ms: u64,
    pub follow_redirect: bool,
    pub max_redirects: usize,
    pub user_agent: String,
    pub default_headers: Headers,
    pub enable_secure_envelopes: bool,
    pub enforce_response_integrity: bool,
    pub request_compression_min_size: usize,
    pub request_compression_level: CompressionLevel,
    pub preferred_request_compression: CompressionAlgorithm,
}

/// The fields that a request has where no others are set.
pub open spec fn usual_fields() -> Fields {
    with_field(
        with_field(
            with_field(
                with_field(seq![], "User-Agent"@, "singularity-https-client/0.1.0"@),
                "Accept"@,
                "*/*"@,
            ),
            "Accept-Encoding"@,
            "br, zstd, gzip, deflate, identity"@,
        ),
        "Connection"@,
        "keep-alive"@,
    )
}

impl HttpsClientCfg {
    /// The settings that hold where none are made, with the given ones for TLS.
    pub fn with_tls_cfg(tls_cfg: TlsCfg) -> (r: Self)
        ensures
            r.tls_cfg == tls_cfg,
            r.timeout_ms == 30000,
            r.follow_redirect,
            r.max_redirects == 10,
            r.user_agent@ == "singularity-https-client/0.1.0"@,
            r.default_headers.inv(),
            r.default_headers@ == usual_fields(),
            r.enable_secure_envelopes,
            !r.enforce_response_integrity,
            r.request_compression_min_size == 1024,
            r.request_compression_level == CompressionLevel::Default,
            r.preferred_request_compression == CompressionAlgorithm::Identity,
    {
        let mut default_headers = Headers::new();
        default_headers.insert("User-Agent", "singularity-https-client/0.1.0");
        default_headers.insert("Accept", "*/*");
        default_headers.insert("Accept-Encoding", "br, zstd, gzip, deflate, identity");
        default_headers.insert("Connection", "keep-alive");
        HttpsClientCfg {
            tls_cfg,
            timeout_ms: 30000,
            follow_redirect: true,
            max_redirects: 10,
            user_agent: "singularity-https-client/0.1.0".to_owned(),
            default_headers,
            enable_secure_envelopes: true,
            enforce_response_integrity: false,
            request_compression_min_size: 1024,
            request_compression_level: CompressionLevel::Default,
            preferred_request_compression: CompressionAlgorithm::Identity,
        }
    }
}

/// A connection of HTTP/2: the number of the next stream, and whether it has begun.
#[derive(Debug, Clone, Copy, PartialEq, Eq, Structural)]
pub struct Http2State {
    pub next_stream_id: u32,
    pub initialized: bool,
}

/// A connection that is kept.
#[derive(Debug, Clone)]
pub struct Connection {
    pub protocol: Option<AlpnProtocol>,
    pub host: String,
    pub port: u16,
    pub http2: Option<Http2State>,
}

#[verifier::ext_equal]
pub struct ConnectionView {
    pub protocol: Option<AlpnProtocol>,
    pub host: Seq<char>,
    pub port: u16,
    pub http2: Option<Http2State>,
}

impl View for Connection {
    type V = ConnectionView;

    open spec fn view(&self) -> ConnectionView {
        ConnectionView {
            protocol: self.protocol,
            host: self.host@,
            port: self.port,
            http2: self.http2,
        }
    }
}

/// Connections by key.
pub type Connections = Seq<(Seq<char>, ConnectionView)>;

/// A client.
#[derive(Debug, Clone)]
pub struct HttpsClient {
    pub cfg: HttpsClientCfg,
    pub alpn_protocols: Vec<AlpnProtocol>,
    pub tls_connections: Table<Connection>,
    pub negotiated_protocols: Table<AlpnProtocol>,
}

/// The protocol that is spoken where none was agreed on: the newer one, which every version of TLS that is
/// known carries.
pub open spec fn protocol_or_default(cfg: HttpsClientCfg, negotiated: Option<AlpnProtocol>) -> AlpnProtocol {
    match negotiated {
        Some(p) => p,
        None => if version_code(cfg.tls_cfg.max_version) >= TLS_VERSION_1_2 {
            AlpnProtocol::Http2
        } else {
            AlpnProtocol::Http11
        },
    }
}

/// The connection that is kept after the protocol is settled.
pub open spec fn opened_connection(p: AlpnProtocol, host: Seq<char>, port: u16) -> ConnectionView {
    ConnectionView {
        protocol: Some(p),
        host,
        port,
        http2: if p == AlpnProtocol::Http2 {
            Some(Http2State { next_stream_id: 1, initialized: false })
        } else {
            None
        },
    }
}

/// The protocols of the first `n` connections.
pub open spec fn stats_among(c: Connections, n: int) -> Seq<(Seq<char>, Option<AlpnProtocol>)> {
    Seq::new(n as nat, |i: int| (c[i].0, c[i].1.protocol))
}

/// A request that is under way, and how many redirections led to it.
#[derive(Debug, Clone)]
pub struct PendingRequest {
    pub method: HttpMethod,
    pub url: String,
    pub body: Option<Vec<u8>>,
    pub headers: Option<Headers>,
    pub redirect_count: usize,
}

pub open spec fn opt_body(b: Option<Vec<u8>>) -> Option<Seq<u8>> {
    match b {
        Some(b) => Some(b@),
        None => None,
    }
}

pub open spec fn opt_fields(h: Option<Headers>) -> Option<Fields> {
    match h {
        Some(h) => Some(h@),
        None => None,
    }
}

#[verifier::ext_equal]
pub struct PendingView {
    pub method: HttpMethod,
    pub url: Seq<char>,
    pub body: Option<Seq<u8>>,
    pub headers: Option<Fields>,
    pub redirect_count: usize,
}

impl View for PendingRequest {
    type V = PendingView;

    open spec fn view(&self) -> PendingView {
        PendingView {
            method: self.method,
            url: self.url@,
            body: opt_body(self.body),
            headers: opt_fields(self.headers),
            redirect_count: self.redirect_count,
        }
    }
}

/// A request that nothing led to.
pub open spec fn first_request(method: HttpMethod, url: Seq<char>, body: Option<Seq<u8>>) -> PendingView {
    PendingView { method, url, body, headers: None, redirect_count: 0 }
}

fn pending(method: HttpMethod, url: &str, body: Option<Vec<u8>>) -> (r: PendingRequest)
    ensures
        r@ == first_request(method, url@, opt_body(body)),
{
    PendingRequest { method, url: url.to_owned(), body, headers: None, redirect_count: 0 }
}

impl HttpsClient {
    /// What holds of every client: a connection and a protocol stand there once, and fields are in order.
    pub open spec fn inv(&self) -> bool {
        &&& self.cfg.default_headers.inv()
        &&& self.tls_connections.inv()
        &&& self.negotiated_protocols.inv()
    }

    /// A client without connections; `protocols` are those it offers.
    pub fn new(cfg: HttpsClientCfg, protocols: Vec<AlpnProtocol>) -> (r: Self)
        requires
            cfg.default_headers.inv(),
        ensures
            r.inv(),
            r.cfg == cfg,
            r.alpn_protocols == protocols,
            r.tls_connections@ == Seq::<(Seq<char>, ConnectionView)>::empty(),
            r.negotiated_protocols@ == Seq::<(Seq<char>, AlpnProtocol)>::empty(),
    {
        HttpsClient {
            cfg,
            alpn_protocols: protocols,
            tls_connections: Table::new(),
            negotiated_protocols: Table::new(),
        }
    }

    /// A client without connections; `protocols` are those it offers.
    pub fn with_config(cfg: HttpsClientCfg, protocols: Vec<AlpnProtocol>) -> (r: Self)
        requires
            cfg.default_headers.inv(),
        ensures
            r.inv(),
            r.cfg == cfg,
            r.alpn_protocols == protocols,
            r.tls_connections@ == Seq::<(Seq<char>, ConnectionView)>::empty(),
            r.negotiated_protocols@ == Seq::<(Seq<char>, AlpnProtocol)>::empty(),
    {
        HttpsClient::new(cfg, protocols)
    }

    /// Sets the protocols that are offered.
    pub fn set_alpn_protocols(&mut self, protocols: Vec<AlpnProtocol>)
        requires
            old(self).inv(),
        ensures
            *final(self) == (HttpsClient { alpn_protocols: protocols, ..*old(self) }),
            final(self).inv(),
    {
        self.alpn_protocols = protocols;
    }

    /// The protocol that was agreed on with a server.
    pub fn get_negotiated_protocol(&self, host: &str, port: u16) -> (r: Option<AlpnProtocol>)
        ensures
            r == value(self.negotiated_protocols@, key_text(host@, port)),
    {
        let key = connection_key(host, port);
        match self.negotiated_protocols.get(key.as_str()) {
            Some(p) => Some(*p),
            None => None,
        }
    }

    /// A request for what stands at an address.
    pub fn get(&self, url: &str) -> (r: PendingRequest)
        ensures
            r@ == first_request(HttpMethod::GET, url@, None),
    {
        pending(HttpMethod::GET, url, None)
    }

    /// A request that hands over a body.
    pub fn post(&self, url: &str, body: Vec<u8>) -> (r: PendingRequest)
        ensures
            r@ == first_request(HttpMethod::POST, url@, Some(body@)),
    {
        pending(HttpMethod::POST, url, Some(body))
    }

    /// A request that stores a body.
    pub fn put(&self, url: &str, body: Vec<u8>) -> (r: PendingRequest)
        ensures
            r@ == first_request(HttpMethod::PUT, url@, Some(body@)),
    {
        pending(HttpMethod::PUT, url, Some(body))
    }

    /// A request that takes away what stands at an address.
    pub fn delete(&self, url: &str) -> (r: PendingRequest)
        ensures
            r@ == first_request(HttpMethod::DELETE, url@, None),
    {
        pending(HttpMethod::DELETE, url, None)
    }

    /// A request for the header alone.
    pub fn head(&self, url: &str) -> (r: PendingRequest)
        ensures
            r@ == first_request(HttpMethod::HEAD, url@, None),
    {
        pending(HttpMethod::HEAD, url, None)
    }

    /// A request that changes what stands at an address.
    pub fn patch(&self, url: &str, body: Vec<u8>) -> (r: PendingRequest)
        ensures
            r@ == first_request(HttpMethod::PATCH, url@, Some(body@)),
    {
        pending(HttpMethod::PATCH, url, Some(body))
    }

    /// Forgets all connections and protocols.
    pub fn clear_connections(&mut self)
        requires
            old(self).inv(),
        ensures
            final(self).inv(),
            final(self).cfg == old(self).cfg,
            final(self).alpn_protocols == old(self).alpn_protocols,
            final(self).tls_connections@ == Seq::<(Seq<char>, ConnectionView)>::empty(),
            final(self).negotiated_protocols@ == Seq::<(Seq<char>, AlpnProtocol)>::empty(),
    {
        self.tls_connections = Table::new();
        self.negotiated_protocols = Table::new();
    }

    /// The protocol of each connection.
    pub fn get_connection_stats(&self) -> (r: Table<Option<AlpnProtocol>>)
        requires
            self.inv(),
        ensures
            r.inv(),
            r@ == stats_among(self.tls_connections@, self.tls_connections@.len() as int),
    {
        let ghost c = self.tls_connections@;
        let mut out: Table<Option<AlpnProtocol>> = Table::new();
        let n: usize = self.tls_connections.len();
        let mut i: usize = 0;
        assert(out@ =~= stats_among(c, 0));
        while i < n
            invariant
                i <= n,
                n == c.len(),
                c == self.tls_connections@,
                in_name_order(c),
                out.inv(),
                out@ == stats_among(c, i as int),
            decreases n - i,
        {
            let p = self.tls_connections.value_at(i).protocol;
            let name = self.tls_connections.name_at(i).to_owned();
            proof {
                assert forall|j: int| 0 <= j < out@.len() implies crate::table::before(
                    (#[trigger] out@[j]).0,
                    name@,
                ) by {
                    assert(out@[j].0 == c[j].0);
                }
                crate::table::lemma_put_last(out@, name@, p);
            }
            out.insert(name, p);
            assert(out@ =~= stats_among(c, i + 1));
            i = i + 1;
        }
        out
    }

    /// The protocol that is spoken, given the one that was agreed on, if any.
    pub fn selected_protocol_with_fallback(&self, negotiated: Option<AlpnProtocol>) -> (r: AlpnProtocol)
        ensures
            r == protocol_or_default(self.cfg, negotiated),
    {
        match negotiated {
            Some(p) => p,
            None => {
                if self.cfg.tls_cfg.max_version.code() >= TLS_VERSION_1_2 {
                    AlpnProtocol::Http2
                } else {
                    AlpnProtocol::Http11
                }
            },
        }
    }

    /// Whether a connection to a server is kept.
    pub fn is_connected(&self, host: &str, port: u16) -> (r: bool)
        ensures
            r == (value(self.tls_connections@, key_text(host@, port)) is Some),
    {
        let key = connection_key(host, port);
        self.tls_connections.contains(key.as_str())
    }

    /// Keeps a connection that was made; `negotiated` is the protocol that was agreed on, if any.
    pub fn on_connected(&mut self, host: &str, port: u16, negotiated: Option<AlpnProtocol>) -> (r:
        AlpnProtocol)
        requires
            old(self).inv(),
        ensures
            final(self).inv(),
            final(self).cfg == old(self).cfg,
            final(self).alpn_protocols == old(self).alpn_protocols,
            r == protocol_or_default(old(self).cfg, negotiated),
            final(self).negotiated_protocols@ == put(
                old(self).negotiated_protocols@,
                key_text(host@, port),
                r,
            ),
            final(self).tls_connections@ == put(
                old(self).tls_connections@,
                key_text(host@, port),
                opened_connection(r, host@, port),
            ),
    {
        let selected = self.selected_protocol_with_fallback(negotiated);
        self.negotiated_protocols.insert(connection_key(host, port), selected);
        let http2 = if selected == AlpnProtocol::Http2 {
            Some(Http2State { next_stream_id: 1, initialized: false })
        } else {
            None
        };
        let c = Connection { protocol: Some(selected), host: host.to_owned(), port, http2 };
        assert(c@ =~= opened_connection(selected, host@, port));
        self.tls_connections.insert(connection_key(host, port), c);
        selected
    }

    /// The protocol that is spoken on a connection.
    pub fn protocol_for(&self, host: &str, port: u16) -> (r: AlpnProtocol)
        ensures
            r == protocol_or_default(
                self.cfg,
                match value(self.tls_connections@, key_text(host@, port)) {
                    Some(c) => c.protocol,
                    None => None,
                },
            ),
    {
        let key = connection_key(host, port);
        let known = match self.tls_connections.get(key.as_str()) {
            Some(c) => c.protocol,
            None => None,
        };
        self.selected_protocol_with_fallback(known)
    }

    /// What the client remembers.
    pub fn snapshot(&self, now: u64) -> (r: HttpsClientStateSnapshot)
        requires
            self.inv(),
        ensures
            r.negotiated_protocols.inv(),
            r@ == (SnapshotView {
                exported_at: now,
                secure_envelopes: self.cfg.enable_secure_envelopes,
                protocols: self.negotiated_protocols@,
            }),
    {
        HttpsClientStateSnapshot {
            exported_at_unix: now,
            secure_envelopes_enabled: self.cfg.enable_secure_envelopes,
            negotiated_protocols: copy_protocols(&self.negotiated_protocols),
        }
    }

    /// Seals what the client remembers. `coded` is what the codec of `algorithm` made of it, `None` where the
    /// codec failed; it is not looked at under the identity.
    pub fn export_secure_state(
        &self,
        algorithm: CompressionAlgorithm,
        coded: Option<&[u8]>,
        nonce: &[u8],
        now: u64,
    ) -> (r: Result<(SecureHttpsClientStateMeta, Vec<u8>), EnvelopeError>)
        requires
            self.inv(),
        ensures
            contents(r) == state_sealed(
                SnapshotView {
                    exported_at: now,
                    secure_envelopes: self.cfg.enable_secure_envelopes,
                    protocols: self.negotiated_protocols@,
                },
                algorithm,
                opt_bytes(coded),
                nonce@,
                now as nat,
            ),
    {
        let s = self.snapshot(now);
        seal_state(&s, algorithm, coded, nonce, now)
    }

    /// Seals what the client remembers, in the coding chosen from an `Accept-Encoding` value.
    pub fn export_secure_state_auto(
        &self,
        accept_encoding: &str,
        coded: Option<&[u8]>,
        nonce: &[u8],
        now: u64,
    ) -> (r: Result<(SecureHttpsClientStateMeta, Vec<u8>), EnvelopeError>)
        requires
            self.inv(),
        ensures
            contents(r) == state_sealed(
                SnapshotView {
                    exported_at: now,
                    secure_envelopes: self.cfg.enable_secure_envelopes,
                    protocols: self.negotiated_protocols@,
                },
                selected(accept_encoding@, false),
                opt_bytes(coded),
                nonce@,
                now as nat,
            ),
    {
        self.export_secure_state(select_compressing(accept_encoding), coded, nonce, now)
    }

    /// Opens what a client remembered. `plain` is what the codec made of the payload as sent, `None` where the
    /// codec failed; it is not looked at under the identity.
    pub fn import_secure_state(blob: &[u8], plain: Option<&[u8]>) -> (r: Result<
        (SecureHttpsClientStateMeta, HttpsClientStateSnapshot),
        HttpsError,
    >)
        ensures
            match r {
                Ok((m, s)) => state_unsealed(blob@, opt_bytes(plain)) == Ok::<
                    (MetaView, SnapshotView),
                    EnvelopeError,
                >((m@, s@)) && s.negotiated_protocols.inv(),
                Err(e) => state_unsealed(blob@, opt_bytes(plain)) matches Err(x) && e
                    == HttpsError::InvalidResponse(ResponseFault::State(x)),
            },
    {
        match unseal_state(blob, plain) {
            Ok(x) => Ok(x),
            Err(e) => Err(HttpsError::InvalidResponse(ResponseFault::State(e))),
        }
    }

    /// Takes over the protocols of a snapshot.
    pub fn apply_state_snapshot(&mut self, snapshot: &HttpsClientStateSnapshot)
        requires
            old(self).inv(),
            snapshot.negotiated_protocols.inv(),
        ensures
            final(self).inv(),
            final(self).cfg == old(self).cfg,
            final(self).alpn_protocols == old(self).alpn_protocols,
            final(self).tls_connections == old(self).tls_connections,
            final(self).negotiated_protocols@ == snapshot@.protocols,
    {
        self.negotiated_protocols = copy_protocols(&snapshot.negotiated_protocols);
    }
}

fn copy_protocols(t: &Table<AlpnProtocol>) -> (r: Table<AlpnProtocol>)
    requires
        t.inv(),
    ensures
        r.inv(),
        r@ == t@,
{
    let mut out: Table<AlpnProtocol> = Table::new();
    let n: usize = t.len();
    let mut i: usize = 0;
    assert(out@ =~= t@.take(0));
    while i < n
        invariant
            i <= n,
            n == t@.len(),
            t.inv(),
            out.inv(),
            out@ == t@.take(i as int),
        decreases n - i,
    {
        let p = *t.value_at(i);
        let name = t.name_at(i).to_owned();
        proof {
            assert forall|j: int| 0 <= j < out@.len() implies crate::table::before(
                (#[trigger] out@[j]).0,
                name@,
            ) by {
                assert(out@[j] == t@[j]);
            }
            crate::table::lemma_put_last(out@, name@, p);
        }
        out.insert(name, p);
        assert(out@ =~= t@.take(i + 1));
        i = i + 1;
    }
    assert(t@.take(t@.len() as int) =~= t@);
    out
}

/// The protocol that was agreed on is spoken; streams are counted on a connection of HTTP/2, and only there.
pub proof fn law_agreed_protocol_is_spoken(cfg: HttpsClientCfg, p: AlpnProtocol, host: Seq<char>, port: u16)
    ensures
        protocol_or_default(cfg, Some(p)) == p,
        opened_connection(p, host, port).protocol == Some(p),
        opened_connection(p, host, port).host == host && opened_connection(p, host, port).port == port,
        opened_connection(p, host, port).http2 is Some <==> p == AlpnProtocol::Http2,
        opened_connection(p, host, port).http2 matches Some(h) ==> h.next_stream_id == 1 && !h.initialized,
{
}

}
