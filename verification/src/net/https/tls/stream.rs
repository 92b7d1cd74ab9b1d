//! A TLS connection apart from its socket: what it keeps, how a handshake goes step by step, and how records
//! leave and arrive. Random octets, the time, the work of the cipher and of the codec come in as arguments.
use vstd::prelude::*;
use vstd::slice::{slice_subrange, slice_to_vec};

use crate::net::blob::opt_bytes;
use crate::net::http::compression::CompressionAlgorithm;
use crate::net::https::alpn::AlpnProtocol;
use crate::net::https::tls::config::{
    CipherFault, CodecFault, TlsCfg, TlsError, TlsVersion, ALERT_CLOSE_NOTIFY, ALERT_LEVEL_WARNING,
    CONTENT_TYPE_ALERT, CONTENT_TYPE_APPLICATION_DATA, CONTENT_TYPE_HANDSHAKE,
};
use crate::net::https::tls::hello;
use crate::net::https::tls::hello::{alpn_extension, alpn_in, chosen_in, is_expected, opt_name};
use crate::net::https::tls::keys::{opt_keys, KeysView, TlsKeys};
use crate::net::https::tls::records::{
    alert_in, build_record, build_secure_record_payload, finish_decryption, law_record_is_opened,
    law_secure_record_roundtrip, open_input, opened_record, parse_secure_record_payload,
    prepare_decryption, prepare_encryption, read_alert, record, record_content, record_form, record_key,
    record_nonce_len, seal_input, secured, usable_keys, CipherInput, CipherView,
};
use crate::net::https::tls::session::{opt_octets, SessionView, TlsSession};

verus! {

/// How far a connection is.
#[derive(Debug, Clone, Copy, PartialEq, Eq, Structural)]
pub enum ConnectionState {
    Initial,
    Handshaking,
    Connected,
    Closed,
}

/// A connection.
#[derive(Debug, Clone)]
pub struct TlsStream {
    pub config: TlsCfg,
    pub state: ConnectionState,
    pub version: TlsVersion,
    pub cipher_suite: u16,
    pub keys: Option<TlsKeys>,
    pub handshake_msg: Vec<u8>,
    pub client_seq: u64,
    pub server_seq: u64,
    pub is_client: bool,
    pub buffer: Vec<u8>,
    pub server_name: Option<String>,
    pub session_id: Vec<u8>,
    pub resuming_session: bool,
    pub alpn_protocols: Vec<AlpnProtocol>,
    pub negotiated_protocol: Option<AlpnProtocol>,
    pub negotiated_record_compression: CompressionAlgorithm,
}

/// What a connection keeps beside its settings.
#[verifier::ext_equal]
pub struct StreamView {
    pub state: ConnectionState,
    pub version: TlsVersion,
    pub cipher_suite: u16,
    pub keys: Option<KeysView>,
    pub said: Seq<u8>,
    pub client_seq: u64,
    pub server_seq: u64,
    pub is_client: bool,
    pub buffer: Seq<u8>,
    pub server_name: Option<Seq<char>>,
    pub session_id: Seq<u8>,
    pub resuming: bool,
    pub offered: Seq<AlpnProtocol>,
    pub negotiated: Option<AlpnProtocol>,
    pub coding: CompressionAlgorithm,
}

pub open spec fn opt_session(s: Option<TlsSession>) -> Option<SessionView> {
    match s {
        Some(s) => Some(s@),
        None => None,
    }
}

impl View for TlsStream {
    type V = StreamView;

    open spec fn view(&self) -> StreamView {
        StreamView {
            state: self.state,
            version: self.version,
            cipher_suite: self.cipher_suite,
            keys: opt_keys(self.keys),
            said: self.handshake_msg@,
            client_seq: self.client_seq,
            server_seq: self.server_seq,
            is_client: self.is_client,
            buffer: self.buffer@,
            server_name: opt_name(self.server_name),
            session_id: self.session_id@,
            resuming: self.resuming_session,
            offered: self.alpn_protocols@,
            negotiated: self.negotiated_protocol,
            coding: self.negotiated_record_compression,
        }
    }
}

/// A connection before its handshake.
pub open spec fn fresh_stream(
    is_client: bool,
    server_name: Option<Seq<char>>,
    offered: Seq<AlpnProtocol>,
) -> StreamView {
    StreamView {
        state: ConnectionState::Initial,
        version: TlsVersion::Tls1_3,
        cipher_suite: 0,
        keys: None,
        said: seq![],
        client_seq: 0,
        server_seq: 0,
        is_client,
        buffer: seq![],
        server_name,
        session_id: seq![],
        resuming: false,
        offered,
        negotiated: None,
        coding: CompressionAlgorithm::Identity,
    }
}

/// A number of a record and the one after it.
pub open spec fn next_number(n: u64) -> u64 {
    if n == u64::MAX {
        n
    } else {
        (n + 1) as u64
    }
}

fn successor(n: u64) -> (r: u64)
    ensures
        r == next_number(n),
{
    if n == u64::MAX {
        n
    } else {
        n + 1
    }
}

/// The number of the next record that this side sends.
pub open spec fn send_number(s: StreamView) -> u64 {
    if s.is_client {
        s.client_seq
    } else {
        s.server_seq
    }
}

/// The number of the next record that this side receives.
pub open spec fn receive_number(s: StreamView) -> u64 {
    if s.is_client {
        s.server_seq
    } else {
        s.client_seq
    }
}

/// The connection after one more record has been sent under a key.
pub open spec fn counted_send(s: StreamView) -> StreamView {
    if s.is_client {
        StreamView { client_seq: next_number(s.client_seq), ..s }
    } else {
        StreamView { server_seq: next_number(s.server_seq), ..s }
    }
}

/// The connection after one more record has been received under a key.
pub open spec fn counted_receive(s: StreamView) -> StreamView {
    if s.is_client {
        StreamView { server_seq: next_number(s.server_seq), ..s }
    } else {
        StreamView { client_seq: next_number(s.client_seq), ..s }
    }
}

/// Whether a payload of this type is protected beyond the cipher.
pub open spec fn secures(s: StreamView, content_type: u8) -> bool {
    s.state == ConnectionState::Connected && content_type == CONTENT_TYPE_APPLICATION_DATA
}

/// Whether a payload of this type is enciphered without more.
pub open spec fn enciphers(s: StreamView, content_type: u8) -> bool {
    s.state == ConnectionState::Handshaking && (content_type == CONTENT_TYPE_HANDSHAKE || content_type
        == CONTENT_TYPE_APPLICATION_DATA)
}

/// What is to be done to send a record.
#[derive(Debug, Clone)]
pub enum OutgoingRecord {
    /// The record is ready.
    Ready(Vec<u8>),
    /// The cipher is to be run; what it makes of this is the payload of a record of application data.
    Seal(CipherInput),
}

pub enum OutgoingView {
    Ready(Seq<u8>),
    Seal(CipherView),
}

impl View for OutgoingRecord {
    type V = OutgoingView;

    open spec fn view(&self) -> OutgoingView {
        match self {
            OutgoingRecord::Ready(r) => OutgoingView::Ready(r@),
            OutgoingRecord::Seal(c) => OutgoingView::Seal(c@),
        }
    }
}

/// What is to be done to send `data`; `coded` is what the codec made of it, `nonce` was drawn for it.
pub open spec fn outgoing(
    cfg: TlsCfg,
    s: StreamView,
    content_type: u8,
    data: Seq<u8>,
    coded: Option<Seq<u8>>,
    nonce: Seq<u8>,
) -> Result<OutgoingView, TlsError> {
    if secures(s, content_type) && s.keys is Some {
        match record_form(cfg.record_compression, s.coding, data, coded) {
            None => Err(TlsError::CompressionError(CodecFault::Compress)),
            Some((a, wire)) => {
                let key = record_key(cfg.record_security, s.keys, s.is_client, send_number(s), true)->0;
                Ok(
                    OutgoingView::Seal(
                        seal_input(
                            s.keys->0,
                            s.is_client,
                            secured(key, content_type, a, nonce, data.len(), wire),
                            CONTENT_TYPE_APPLICATION_DATA,
                            send_number(s),
                        ),
                    ),
                )
            },
        }
    } else if enciphers(s, content_type) && s.keys is Some {
        Ok(
            OutgoingView::Seal(
                seal_input(s.keys->0, s.is_client, data, content_type, send_number(s)),
            ),
        )
    } else {
        Ok(OutgoingView::Ready(record(content_type, data)))
    }
}

/// The connection after a record of this type has been sent.
pub open spec fn after_sending(s: StreamView, content_type: u8) -> StreamView {
    if (secures(s, content_type) || enciphers(s, content_type)) && s.keys is Some {
        counted_send(s)
    } else {
        s
    }
}

/// What is to be done with a record that arrived.
#[derive(Debug, Clone)]
pub enum IncomingRecord {
    /// The payload is as it stands.
    Ready(Vec<u8>),
    /// The cipher is to be run on this, for the record of this number.
    Open(CipherInput, u64),
}

pub enum IncomingView {
    Ready(Seq<u8>),
    Open(CipherView, u64),
}

impl View for IncomingRecord {
    type V = IncomingView;

    open spec fn view(&self) -> IncomingView {
        match self {
            IncomingRecord::Ready(r) => IncomingView::Ready(r@),
            IncomingRecord::Open(c, n) => IncomingView::Open(c@, *n),
        }
    }
}

/// What is to be done with a record that arrived.
pub open spec fn incoming(s: StreamView, content_type: u8, payload: Seq<u8>) -> Result<
    IncomingView,
    TlsError,
> {
    if content_type == CONTENT_TYPE_ALERT {
        Err(alert_in(content_type, payload)->0)
    } else if content_type == CONTENT_TYPE_APPLICATION_DATA && s.keys is Some {
        if payload.len() < 16 {
            Err(TlsError::CipherError(CipherFault::CiphertextTooShort))
        } else {
            Ok(
                IncomingView::Open(
                    open_input(s.keys->0, s.is_client, payload, receive_number(s)),
                    receive_number(s),
                ),
            )
        }
    } else {
        Ok(IncomingView::Ready(payload))
    }
}

/// The connection after a record of this type has arrived.
pub open spec fn after_receiving(s: StreamView, content_type: u8) -> StreamView {
    if content_type == CONTENT_TYPE_APPLICATION_DATA && s.keys is Some {
        counted_receive(s)
    } else {
        s
    }
}

/// What a record holds that the cipher opened; `opened` is what it made of it, `plain` what the codec made of
/// a compressed form.
pub open spec fn received(
    cfg: TlsCfg,
    s: StreamView,
    opened: Option<Seq<u8>>,
    seq: u64,
    plain: Option<Seq<u8>>,
) -> Result<Seq<u8>, TlsError> {
    match opened_record(opened) {
        Err(e) => Err(e),
        Ok((text, t)) => if s.state == ConnectionState::Connected && t == CONTENT_TYPE_APPLICATION_DATA {
            match record_content(
                text,
                record_key(cfg.record_security, s.keys, s.is_client, seq, false),
                cfg.record_security.enable_integrity,
                t,
                plain,
            ) {
                Err(e) => Err(e),
                Ok((d, _)) => Ok(d),
            }
        } else {
            Ok(text)
        },
    }
}

impl TlsStream {
    /// What holds of every connection: its keys can be used.
    pub open spec fn inv(&self) -> bool {
        self.keys matches Some(k) ==> usable_keys(k@)
    }

    /// A client's connection to a server without a name; `protocols` are those it offers.
    pub fn new_client(config: TlsCfg, protocols: Vec<AlpnProtocol>) -> (r: Self)
        ensures
            r.inv(),
            r.config == config,
            r@ == fresh_stream(true, Some(""@), protocols@),
    {
        TlsStream::new_client_with_sni(config, "".to_owned(), protocols)
    }

    /// A client's connection to the server with a name; `protocols` are those it offers.
    pub fn new_client_with_sni(config: TlsCfg, server_name: String, protocols: Vec<AlpnProtocol>) -> (r: Self)
        ensures
            r.inv(),
            r.config == config,
            r@ == fresh_stream(true, Some(server_name@), protocols@),
    {
        let r = TlsStream {
            config,
            state: ConnectionState::Initial,
            version: TlsVersion::Tls1_3,
            cipher_suite: 0,
            keys: None,
            handshake_msg: Vec::new(),
            client_seq: 0,
            server_seq: 0,
            is_client: true,
            buffer: Vec::new(),
            server_name: Some(server_name),
            session_id: Vec::new(),
            resuming_session: false,
            alpn_protocols: protocols,
            negotiated_protocol: None,
            negotiated_record_compression: CompressionAlgorithm::Identity,
        };
        assert(r@ =~= fresh_stream(true, Some(server_name@), protocols@));
        r
    }

    /// A server's connection.
    pub fn new_server(config: TlsCfg, protocols: Vec<AlpnProtocol>) -> (r: Self)
        ensures
            r.inv(),
            r.config == config,
            r@ == fresh_stream(false, None, protocols@),
    {
        let r = TlsStream {
            config,
            state: ConnectionState::Initial,
            version: TlsVersion::Tls1_3,
            cipher_suite: 0,
            keys: None,
            handshake_msg: Vec::new(),
            client_seq: 0,
            server_seq: 0,
            is_client: false,
            buffer: Vec::new(),
            server_name: None,
            session_id: Vec::new(),
            resuming_session: false,
            alpn_protocols: protocols,
            negotiated_protocol: None,
            negotiated_record_compression: CompressionAlgorithm::Identity,
        };
        assert(r@ =~= fresh_stream(false, None, protocols@));
        r
    }

    /// Takes the number of the next record that is sent.
    pub fn next_send_sequence(&mut self) -> (r: u64)
        requires
            old(self).inv(),
        ensures
            final(self).inv(),
            final(self).config == old(self).config,
            final(self)@ == counted_send(old(self)@),
            r == send_number(old(self)@),
    {
        if self.is_client {
            let current = self.client_seq;
            self.client_seq = successor(current);
            current
        } else {
            let current = self.server_seq;
            self.server_seq = successor(current);
            current
        }
    }

    /// Takes the number of the next record that is received.
    pub fn next_receive_sequence(&mut self) -> (r: u64)
        requires
            old(self).inv(),
        ensures
            final(self).inv(),
            final(self).config == old(self).config,
            final(self)@ == counted_receive(old(self)@),
            r == receive_number(old(self)@),
    {
        if self.is_client {
            let current = self.server_seq;
            self.server_seq = successor(current);
            current
        } else {
            let current = self.client_seq;
            self.client_seq = successor(current);
            current
        }
    }

    /// Whether a payload of this type is protected beyond the cipher.
    pub fn should_secure_record_payload(&self, content_type: u8) -> (r: bool)
        ensures
            r == secures(self@, content_type),
    {
        self.state == ConnectionState::Connected && content_type == CONTENT_TYPE_APPLICATION_DATA
    }

    /// Prepares a record. `coded` is what the codec made of the data, `None` where the codec failed; it is not
    /// looked at under the identity. `nonce` is as long as the settings ask for.
    pub fn prepare_record(&mut self, content_type: u8, data: &[u8], coded: Option<&[u8]>, nonce: &[u8]) -> (r:
        Result<OutgoingRecord, TlsError>)
        requires
            old(self).inv(),
            nonce@.len() == record_nonce_len(old(self).config.record_security.nonce_len),
        ensures
            final(self).inv(),
            final(self).config == old(self).config,
            final(self)@ == after_sending(old(self)@, content_type),
            ({
                let due = outgoing(
                    old(self).config,
                    old(self)@,
                    content_type,
                    data@,
                    opt_bytes(coded),
                    nonce@,
                );
                match r {
                    Ok(o) => due == Ok::<OutgoingView, TlsError>(o@),
                    Err(e) => due == Err::<OutgoingView, TlsError>(e),
                }
            }),
    {
        if self.keys.is_some() && self.should_secure_record_payload(content_type) {
            let seq = self.next_send_sequence();
            let payload = match build_secure_record_payload(
                &self.config.record_security,
                &self.config.record_compression,
                self.negotiated_record_compression,
                &self.keys,
                self.is_client,
                data,
                content_type,
                seq,
                true,
                coded,
                nonce,
            ) {
                Ok(p) => p,
                Err(e) => {
                    return Err(e);
                },
            };
            match prepare_encryption(
                &self.keys,
                self.is_client,
                payload.as_slice(),
                CONTENT_TYPE_APPLICATION_DATA,
                seq,
            ) {
                Ok(c) => Ok(OutgoingRecord::Seal(c)),
                Err(e) => Err(e),
            }
        } else if self.keys.is_some() && self.state == ConnectionState::Handshaking && (content_type
            == CONTENT_TYPE_HANDSHAKE || content_type == CONTENT_TYPE_APPLICATION_DATA) {
            let seq = self.next_send_sequence();
            match prepare_encryption(&self.keys, self.is_client, data, content_type, seq) {
                Ok(c) => Ok(OutgoingRecord::Seal(c)),
                Err(e) => Err(e),
            }
        } else {
            Ok(OutgoingRecord::Ready(build_record(content_type, data)))
        }
    }

    /// The record that carries what the cipher made; fails where the cipher failed.
    pub fn sealed_record(sealed: Option<&[u8]>) -> (r: Result<Vec<u8>, TlsError>)
        ensures
            match sealed {
                Some(c) => r matches Ok(p) && p@ == record(CONTENT_TYPE_APPLICATION_DATA, c@),
                None => r == Err::<Vec<u8>, TlsError>(TlsError::CipherError(CipherFault::Seal)),
            },
    {
        match sealed {
            Some(c) => Ok(build_record(CONTENT_TYPE_APPLICATION_DATA, c)),
            None => Err(TlsError::CipherError(CipherFault::Seal)),
        }
    }

    /// Takes in a record.
    pub fn accept_record(&mut self, content_type: u8, payload: &[u8]) -> (r: Result<IncomingRecord, TlsError>)
        requires
            old(self).inv(),
        ensures
            final(self).inv(),
            final(self).config == old(self).config,
            final(self)@ == after_receiving(old(self)@, content_type),
            ({
                let due = incoming(old(self)@, content_type, payload@);
                match r {
                    Ok(o) => due == Ok::<IncomingView, TlsError>(o@),
                    Err(e) => due == Err::<IncomingView, TlsError>(e),
                }
            }),
    {
        match read_alert(content_type, payload) {
            Some(e) => {
                return Err(e);
            },
            None => {},
        }
        if content_type == CONTENT_TYPE_APPLICATION_DATA && self.keys.is_some() {
            let seq = self.next_receive_sequence();
            match prepare_decryption(&self.keys, self.is_client, payload, seq) {
                Ok(c) => Ok(IncomingRecord::Open(c, seq)),
                Err(e) => Err(e),
            }
        } else {
            Ok(IncomingRecord::Ready(slice_to_vec(payload)))
        }
    }

    /// Takes the payload out of what the cipher made of a record, `None` where the cipher refused it. `plain`
    /// is what the codec made of a compressed form, `None` where the codec failed.
    pub fn receive_opened(&self, opened: Option<Vec<u8>>, seq: u64, plain: Option<&[u8]>) -> (r: Result<
        Vec<u8>,
        TlsError,
    >)
        ensures
            ({
                let due = received(
                    self.config,
                    self@,
                    opt_octets(opened),
                    seq,
                    opt_bytes(plain),
                );
                match r {
                    Ok(d) => due == Ok::<Seq<u8>, TlsError>(d@),
                    Err(e) => due == Err::<Seq<u8>, TlsError>(e),
                }
            }),
    {
        let (text, t) = match finish_decryption(opened) {
            Ok(x) => x,
            Err(e) => {
                return Err(e);
            },
        };
        if self.state == ConnectionState::Connected && t == CONTENT_TYPE_APPLICATION_DATA {
            match parse_secure_record_payload(
                &self.config.record_security,
                &self.keys,
                self.is_client,
                text.as_slice(),
                seq,
                false,
                t,
                plain,
            ) {
                Ok((d, _)) => Ok(d),
                Err(e) => Err(e),
            }
        } else {
            Ok(text)
        }
    }
}

/// The first octets of `data`, as many as there is room for.
pub open spec fn first_octets(data: Seq<u8>, room: nat) -> Seq<u8> {
    if data.len() <= room {
        data
    } else {
        data.take(room as int)
    }
}

/// The octets of `data` that there is no room for.
pub open spec fn later_octets(data: Seq<u8>, room: nat) -> Seq<u8> {
    if data.len() <= room {
        seq![]
    } else {
        data.skip(room as int)
    }
}

/// The record of an alert.
pub open spec fn alert_record(level: u8, description: u8) -> Seq<u8> {
    record(CONTENT_TYPE_ALERT, seq![level, description])
}

impl TlsStream {
    /// Hands out what an earlier record left over, as much as there is room for; `None` where nothing is
    /// left over and a record is to be read. Fails where there is no connection.
    pub fn read_buffered(&mut self, room: usize) -> (r: Result<Option<Vec<u8>>, TlsError>)
        requires
            old(self).inv(),
        ensures
            final(self).inv(),
            final(self).config == old(self).config,
            ({
                let s = old(self)@;
                if s.state != ConnectionState::Connected {
                    r == Err::<Option<Vec<u8>>, TlsError>(TlsError::NotConnected) && final(self)@ == s
                } else if s.buffer.len() == 0 {
                    r == Ok::<Option<Vec<u8>>, TlsError>(None) && final(self)@ == s
                } else {
                    r matches Ok(Some(d)) && d@ == first_octets(s.buffer, room as nat) && final(self)@ == (
                    StreamView { buffer: later_octets(s.buffer, room as nat), ..s })
                }
            }),
    {
        if self.state != ConnectionState::Connected {
            return Err(TlsError::NotConnected);
        }
        if self.buffer.len() == 0 {
            return Ok(None);
        }
        let n = if self.buffer.len() <= room {
            self.buffer.len()
        } else {
            room
        };
        let out = slice_to_vec(slice_subrange(self.buffer.as_slice(), 0, n));
        let rest = slice_to_vec(slice_subrange(self.buffer.as_slice(), n, self.buffer.len()));
        assert(out@ =~= first_octets(self.buffer@, room as nat));
        assert(rest@ =~= later_octets(self.buffer@, room as nat));
        self.buffer = rest;
        Ok(Some(out))
    }

    /// Hands out what a record holds, as much as there is room for, and keeps the rest.
    pub fn read_arrived(&mut self, data: &[u8], room: usize) -> (r: Vec<u8>)
        requires
            old(self).inv(),
        ensures
            final(self).inv(),
            final(self).config == old(self).config,
            r@ == first_octets(data@, room as nat),
            final(self)@ == (StreamView {
                buffer: old(self)@.buffer + later_octets(data@, room as nat),
                ..old(self)@
            }),
    {
        let n = if data.len() <= room {
            data.len()
        } else {
            room
        };
        let out = slice_to_vec(slice_subrange(data, 0, n));
        let rest = slice_subrange(data, n, data.len());
        assert(out@ =~= first_octets(data@, room as nat));
        assert(rest@ =~= later_octets(data@, room as nat));
        crate::bytes::push_bytes(&mut self.buffer, rest);
        out
    }

    /// The record of an alert. Alerts go out as they are.
    pub fn send_alert(&self, level: u8, description: u8) -> (r: Vec<u8>)
        ensures
            r@ == alert_record(level, description),
    {
        let mut alert: Vec<u8> = Vec::new();
        alert.push(level);
        alert.push(description);
        assert(alert@ =~= seq![level, description]);
        build_record(CONTENT_TYPE_ALERT, alert.as_slice())
    }

    /// Closes the connection, and gives the record that tells the other side; `None` where it is closed
    /// already.
    pub fn close(&mut self) -> (r: Option<Vec<u8>>)
        requires
            old(self).inv(),
        ensures
            final(self).inv(),
            final(self).config == old(self).config,
            final(self)@ == (StreamView { state: ConnectionState::Closed, ..old(self)@ }),
            match r {
                Some(a) => old(self)@.state != ConnectionState::Closed && a@ == alert_record(
                    ALERT_LEVEL_WARNING,
                    ALERT_CLOSE_NOTIFY,
                ),
                None => old(self)@.state == ConnectionState::Closed,
            },
    {
        if self.state == ConnectionState::Closed {
            None
        } else {
            let a = self.send_alert(ALERT_LEVEL_WARNING, ALERT_CLOSE_NOTIFY);
            self.state = ConnectionState::Closed;
            Some(a)
        }
    }

    /// Sets the protocols that are offered.
    pub fn set_alpn_protocols(&mut self, protocols: Vec<AlpnProtocol>)
        requires
            old(self).inv(),
        ensures
            final(self).inv(),
            final(self).config == old(self).config,
            final(self)@ == (StreamView { offered: protocols@, ..old(self)@ }),
    {
        self.alpn_protocols = protocols;
    }

    /// Sets the protocols that a client offers.
    pub fn init_alpn_client(&mut self, preferred: Vec<AlpnProtocol>)
        requires
            old(self).inv(),
        ensures
            final(self).inv(),
            final(self).config == old(self).config,
            final(self)@ == (StreamView { offered: preferred@, ..old(self)@ }),
    {
        self.alpn_protocols = preferred;
    }

    pub fn get_negotiated_protocol(&self) -> (r: Option<AlpnProtocol>)
        ensures
            r == self@.negotiated,
    {
        self.negotiated_protocol
    }

    /// Takes over the protocol that was agreed on; nothing changes where none was.
    pub fn complete_alpn_negotiation(&mut self, selected: Option<AlpnProtocol>) -> (r: Option<AlpnProtocol>)
        requires
            old(self).inv(),
        ensures
            final(self).inv(),
            final(self).config == old(self).config,
            r == selected,
            final(self)@ == (match selected {
                Some(_) => StreamView { negotiated: selected, ..old(self)@ },
                None => old(self)@,
            }),
    {
        match selected {
            Some(_) => {
                self.negotiated_protocol = selected;
                selected
            },
            None => None,
        }
    }

    /// Takes over the protocol that an extension of the server chooses, where it was offered.
    pub fn parse_alpn_extension(&mut self, extension_data: &[u8]) -> (r: Result<(), TlsError>)
        requires
            old(self).inv(),
        ensures
            final(self).inv(),
            final(self).config == old(self).config,
            match chosen_in(extension_data@, old(self)@.offered) {
                Ok(p) => r is Ok && final(self)@ == (StreamView { negotiated: Some(p), ..old(self)@ }),
                Err(e) => r == Err::<(), TlsError>(e) && final(self)@ == old(self)@,
            },
    {
        match hello::parse_alpn_extension(extension_data, &self.alpn_protocols) {
            Ok(p) => {
                self.negotiated_protocol = Some(p);
                Ok(())
            },
            Err(e) => Err(e),
        }
    }
}

impl TlsStream {
    /// The extension that offers the protocols.
    pub fn build_alpn_extension(&self) -> (r: Vec<u8>)
        ensures
            r@ == alpn_extension(self@.offered),
    {
        hello::build_alpn_extension(&self.alpn_protocols)
    }

    /// Reads the data of the extension for protocols out of a server's hello.
    pub fn extract_alpn_from_handshake(&self, server_hello_data: &[u8]) -> (r: Result<Vec<u8>, TlsError>)
        ensures
            match r {
                Ok(d) => alpn_in(server_hello_data@) == Ok::<Seq<u8>, TlsError>(d@),
                Err(e) => alpn_in(server_hello_data@) == Err::<Seq<u8>, TlsError>(e),
            },
    {
        hello::extract_alpn_from_handshake(server_hello_data)
    }

    /// Accepts the protocol that was agreed on where it is one of those expected, or nothing is expected.
    pub fn validate_negotiated_protocol(&self, expected: &Vec<AlpnProtocol>) -> (r: Result<(), TlsError>)
        ensures
            r == (if is_expected(self@.negotiated, expected@) {
                Ok::<(), TlsError>(())
            } else {
                Err(TlsError::ProtocolNegotiationFailed(self@.negotiated))
            }),
    {
        hello::validate_negotiated_protocol(self.negotiated_protocol, expected)
    }
}

/// What a record holds is handed out whole and in order: first what there is room for, then the rest.
pub proof fn law_nothing_read_is_lost(data: Seq<u8>, room: nat)
    ensures
        first_octets(data, room) + later_octets(data, room) == data,
        first_octets(data, room).len() <= room,
{
    assert(first_octets(data, room) + later_octets(data, room) =~= data);
}

/// Data that one side sends over a connection arrives at the other, where both have the same keys and
/// settings and count records alike, the cipher opens what it sealed, and the codec gives back what it was
/// given; and they count alike afterwards.
pub proof fn law_data_arrives(
    cfg: TlsCfg,
    from: StreamView,
    to: StreamView,
    data: Seq<u8>,
    coded: Option<Seq<u8>>,
    nonce: Seq<u8>,
    sealed: Seq<u8>,
)
    requires
        from.state == ConnectionState::Connected,
        to.state == ConnectionState::Connected,
        from.keys is Some,
        from.keys == to.keys,
        from.is_client != to.is_client,
        from.client_seq == to.client_seq,
        from.server_seq == to.server_seq,
        nonce.len() < 0x100,
        data.len() < 0x1_0000_0000,
        coded matches Some(c) ==> c.len() < 0x1_0000_0000,
        outgoing(cfg, from, CONTENT_TYPE_APPLICATION_DATA, data, coded, nonce) matches Ok(
            OutgoingView::Seal(c),
        ) && sealed.len() == c.text.len() + 16,
    ensures
        outgoing(cfg, from, CONTENT_TYPE_APPLICATION_DATA, data, coded, nonce) matches Ok(
            OutgoingView::Seal(c),
        ) && incoming(to, CONTENT_TYPE_APPLICATION_DATA, sealed) == Ok::<IncomingView, TlsError>(
            IncomingView::Open(
                CipherView { key: c.key, nonce: c.nonce, aad: c.aad, text: sealed },
                send_number(from),
            ),
        ) && received(cfg, to, Some(c.text), send_number(from), Some(data)) == Ok::<Seq<u8>, TlsError>(
            data,
        ),
        after_sending(from, CONTENT_TYPE_APPLICATION_DATA).client_seq == after_receiving(
            to,
            CONTENT_TYPE_APPLICATION_DATA,
        ).client_seq,
        after_sending(from, CONTENT_TYPE_APPLICATION_DATA).server_seq == after_receiving(
            to,
            CONTENT_TYPE_APPLICATION_DATA,
        ).server_seq,
{
    let keys = from.keys->0;
    let seq = send_number(from);
    let (a, wire) = record_form(cfg.record_compression, from.coding, data, coded)->0;
    let key = record_key(cfg.record_security, from.keys, from.is_client, seq, true)->0;
    let p = secured(key, CONTENT_TYPE_APPLICATION_DATA, a, nonce, data.len(), wire);
    law_record_is_opened(keys, from.is_client, p, CONTENT_TYPE_APPLICATION_DATA, seq, sealed);
    law_secure_record_roundtrip(
        cfg.record_security,
        keys,
        from.is_client,
        seq,
        CONTENT_TYPE_APPLICATION_DATA,
        a,
        nonce,
        data,
        wire,
        cfg.record_security.enable_integrity,
        CONTENT_TYPE_APPLICATION_DATA,
    );
}

/// As much is read as there is room for, and all where there is room for all.
pub proof fn law_reading_fills_room(data: Seq<u8>, room: nat)
    ensures
        data.len() <= room ==> first_octets(data, room) == data,
        data.len() > room ==> first_octets(data, room).len() == room,
{
}

/// Each side counts the records that it sends and those that it receives apart from each other.
pub proof fn law_records_are_counted(s: StreamView)
    requires
        s.client_seq < u64::MAX && s.server_seq < u64::MAX,
    ensures
        send_number(counted_send(s)) == send_number(s) + 1,
        receive_number(counted_send(s)) == receive_number(s),
        receive_number(counted_receive(s)) == receive_number(s) + 1,
        send_number(counted_receive(s)) == send_number(s),
        s.is_client ==> send_number(s) == s.client_seq && receive_number(s) == s.server_seq,
        !s.is_client ==> send_number(s) == s.server_seq && receive_number(s) == s.client_seq,
{
}

}
