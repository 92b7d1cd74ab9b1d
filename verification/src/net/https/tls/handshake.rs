//! The handshake, step by step: what each message does to a connection, and what is to be sent next.
use vstd::prelude::*;
use vstd::slice::slice_to_vec;

use crate::bytes::push_bytes;
use crate::crypto::sha256::{sha256, sha256_of};
use crate::net::https::alpn::AlpnProtocol;
use crate::net::https::tls::certificate::{
    all_read, build_certificate, build_certificate_verify, certificate_message,
    certificate_verify_content, chain_in, entries_in, octet_views, parse_certificate_chain, read_views,
    server_fault, split_certificate_chain, verify_certificate, verify_content, verify_message, AnchorFindings,
};
use crate::net::https::tls::config::{
    law_chosen_suite_is_shared, name_texts, offered_suites, shared_suite, shared_version, suite_named,
    CertificateFault, CipherFault, HandshakeFault, TLS_VERSION_1_2, TLS_VERSION_1_3, TlsCfg, TlsError,
};
use crate::net::https::tls::hello::{
    alpn_in, build_client_hello, build_encrypted_extensions, build_resumption_client_hello, build_server_hello,
    client_hello, client_hello_in, encrypted_extensions, extract_alpn_from_handshake, first_extensions,
    law_client_hello_is_read, parse_client_hello, parse_new_session_ticket, parse_server_hello, resuming_extensions,
    server_hello, server_hello_in, ticket_in,
};
use crate::net::https::tls::keys::{
    application_keys, compute_finished, derive_application_keys, derive_handshake_keys, finished_data,
    finished_fault, handshake_keys, verify_finished,
};
use crate::net::https::tls::records::{build_handshake_message, handshake_message};
use crate::net::https::tls::session::{age_of, is_fresh, SessionCache, SessionView, Sessions, TlsSession};
use crate::net::https::tls::stream::{opt_session, ConnectionState, StreamView, TlsStream};
use crate::net::https::trust_store::{certificate_views, Certificate};
use crate::table::{put, value};
use crate::net::https::tls::TlsVersion;

verus! {

pub const HANDSHAKE_CLIENT_HELLO: u8 = 1;

pub const HANDSHAKE_SERVER_HELLO: u8 = 2;

pub const HANDSHAKE_NEW_SESSION_TICKET: u8 = 4;

pub const HANDSHAKE_ENCRYPTED_EXTENSIONS: u8 = 8;

pub const HANDSHAKE_CERTIFICATE: u8 = 11;

pub const HANDSHAKE_CERTIFICATE_VERIFY: u8 = 15;

pub const HANDSHAKE_FINISHED: u8 = 20;

/// The session of a store that a client offers to resume.
pub open spec fn resumable(cfg: TlsCfg, store: Sessions, s: StreamView, now: u128) -> Option<SessionView> {
    if !cfg.enable_session_resumption || !cfg.session_cache || s.server_name is None {
        None
    } else {
        match value(store, s.server_name->0) {
            Some(v) => if is_fresh(v, now) {
                Some(v)
            } else {
                None
            },
            None => None,
        }
    }
}

/// The hello with which a client begins.
pub open spec fn opening_hello(
    cfg: TlsCfg,
    store: Sessions,
    s: StreamView,
    random: Seq<u8>,
    key: Seq<u8>,
    now: u128,
) -> Seq<u8> {
    let suites = offered_suites(name_texts(cfg.supported_ciphers@));
    match resumable(cfg, store, s, now) {
        Some(v) => client_hello(
            random,
            v.session_id,
            suites,
            resuming_extensions(s.server_name, v.ticket, age_of(v.created_at, now), key),
        ),
        None => client_hello(random, seq![], suites, first_extensions(s.server_name, s.offered, key)),
    }
}

/// A client's connection after it has begun.
pub open spec fn begun(
    cfg: TlsCfg,
    store: Sessions,
    s: StreamView,
    random: Seq<u8>,
    key: Seq<u8>,
    now: u128,
) -> StreamView {
    StreamView {
        state: ConnectionState::Handshaking,
        said: s.said + opening_hello(cfg, store, s, random, key, now),
        resuming: s.resuming || resumable(cfg, store, s, now) is Some,
        session_id: match resumable(cfg, store, s, now) {
            Some(v) => v.session_id,
            None => s.session_id,
        },
        ..s
    }
}

/// What a client does after the server's hello.
#[derive(Debug, Clone)]
pub enum HelloStep {
    /// The session goes on; there is nothing more to say.
    Resumed,
    /// A secret is to be made with this key of the server.
    Exchange(Vec<u8>),
}

pub enum HelloStepView {
    Resumed,
    Exchange(Seq<u8>),
}

impl View for HelloStep {
    type V = HelloStepView;

    open spec fn view(&self) -> HelloStepView {
        match self {
            HelloStep::Resumed => HelloStepView::Resumed,
            HelloStep::Exchange(k) => HelloStepView::Exchange(k@),
        }
    }
}

/// What the server's hello does; `agreed` is the protocol that its extension was taken for, `session` the one
/// that the client offered to resume.
pub open spec fn hello_step(
    s: StreamView,
    msg_type: u8,
    msg: Seq<u8>,
    agreed: Option<AlpnProtocol>,
    session: Option<SessionView>,
) -> (StreamView, Result<HelloStepView, TlsError>) {
    if msg_type != HANDSHAKE_SERVER_HELLO {
        (s, Err(TlsError::HandshakeFailed(HandshakeFault::ExpectedServerHello)))
    } else if alpn_in(msg) is Err {
        (s, Err(alpn_in(msg)->Err_0))
    } else {
        let heard = StreamView { negotiated: agreed, said: s.said + msg, ..s };
        match server_hello_in(msg, s.session_id) {
            Err(e) => (heard, Err(e)),
            Ok(h) => {
                let set = StreamView { version: h.version, cipher_suite: h.cipher, ..heard };
                if h.session_resumed && s.resuming && session is Some {
                    let keys = application_keys(
                        session->0.master_secret,
                        sha256_of(set.said),
                        h.cipher,
                    );
                    (
                        StreamView { keys: Some(keys), state: ConnectionState::Connected, ..set },
                        Ok(HelloStepView::Resumed),
                    )
                } else {
                    let full = StreamView { resuming: false, ..set };
                    if h.public_key.len() == 0 {
                        (full, Err(TlsError::HandshakeFailed(HandshakeFault::NoPeerKey)))
                    } else {
                        (full, Ok(HelloStepView::Exchange(h.public_key)))
                    }
                }
            },
        }
    }
}

/// What came of making a secret with the other side's key.
#[derive(Debug, Clone)]
pub enum KeyExchange {
    /// The key is none.
    PeerKeyRefused,
    /// No secret could be made with it.
    Failed,
    /// The secret.
    Secret(Vec<u8>),
}

/// What was found out about the certificates of a message: what a reader made of each encoding, whether the
/// first is for the server's name, which of them the next one signed, and how the anchor is under which the last
/// one hangs.
#[derive(Debug, Clone)]
pub struct ChainFindings {
    pub certs: Vec<Option<Certificate>>,
    pub name_matches: bool,
    pub signed: Vec<bool>,
    pub anchor: AnchorFindings,
}

/// What is wrong with a server's certificate message.
pub open spec fn certificate_fault(cfg: TlsCfg, s: StreamView, msg: Seq<u8>, found: ChainFindings) -> Option<
    TlsError,
> {
    if !all_read(found.certs@) {
        Some(TlsError::InvalidCertificate(CertificateFault::Unreadable))
    } else if chain_in(msg).1 is Some {
        Some(TlsError::InvalidCertificate(chain_in(msg).1->0))
    } else {
        server_fault(
            cfg.trust_store@,
            cfg.verify_peer,
            s.server_name,
            found.name_matches,
            read_views(found.certs@),
            found.signed@,
            found.anchor,
        )
    }
}

/// What a ticket does: the store after it, and what is wrong with it.
pub open spec fn ticket_step(cfg: TlsCfg, store: Sessions, s: StreamView, msg: Seq<u8>, now: u128) -> (
    Sessions,
    Option<TlsError>,
) {
    match ticket_in(msg) {
        Err(e) => (store, Some(e)),
        Ok(None) => (store, None),
        Ok(Some(t)) => if cfg.session_cache && s.server_name is Some && s.keys is Some {
            let kept = SessionView {
                session_id: s.session_id,
                master_secret: s.keys->0.client_write_key,
                cipher_suite: s.cipher_suite,
                created_at: now,
                server_name: s.server_name->0,
                protocol_version: s.version,
                ticket: Some(t),
            };
            (put(store, s.server_name->0, kept), None)
        } else {
            (store, None)
        },
    }
}

/// What a message of the server does after the secret is made: the connection and the store after it, and
/// whether the server is done.
pub open spec fn server_message_step(
    cfg: TlsCfg,
    store: Sessions,
    s: StreamView,
    msg_type: u8,
    msg: Seq<u8>,
    found: ChainFindings,
    now: u128,
) -> (StreamView, Sessions, Result<bool, TlsError>) {
    let heard = StreamView { said: s.said + msg, ..s };
    if msg_type == HANDSHAKE_ENCRYPTED_EXTENSIONS || msg_type == HANDSHAKE_CERTIFICATE_VERIFY {
        (heard, store, Ok(false))
    } else if msg_type == HANDSHAKE_CERTIFICATE {
        match certificate_fault(cfg, s, msg, found) {
            Some(e) => (heard, store, Err(e)),
            None => (heard, store, Ok(false)),
        }
    } else if msg_type == HANDSHAKE_FINISHED {
        match finished_fault(s.keys, sha256_of(s.said), msg, false) {
            Some(e) => (s, store, Err(e)),
            None => (s, store, Ok(true)),
        }
    } else if msg_type == HANDSHAKE_NEW_SESSION_TICKET {
        let (t, fault) = ticket_step(cfg, store, s, msg, now);
        match fault {
            Some(e) => (s, t, Err(e)),
            None => (s, t, Ok(false)),
        }
    } else {
        (s, store, Err(TlsError::HandshakeFailed(HandshakeFault::UnexpectedMessage(msg_type))))
    }
}

/// A client's connection after its own last message, and the store with its session kept for resumption;
/// `fresh_id` was drawn for a session that has no number yet.
pub open spec fn settled(
    cfg: TlsCfg,
    store: Sessions,
    s: StreamView,
    secret: Seq<u8>,
    fresh_id: Seq<u8>,
    now: u128,
) -> (StreamView, Sessions) {
    let open = StreamView { state: ConnectionState::Connected, ..s };
    if !cfg.enable_session_resumption || !cfg.session_cache || s.server_name is None {
        (open, store)
    } else {
        let id = if s.session_id.len() == 0 {
            fresh_id
        } else {
            s.session_id
        };
        let kept = SessionView {
            session_id: id,
            master_secret: secret,
            cipher_suite: s.cipher_suite,
            created_at: now,
            server_name: s.server_name->0,
            protocol_version: s.version,
            ticket: None,
        };
        (StreamView { session_id: id, ..open }, put(store, s.server_name->0, kept))
    }
}

proof fn lemma_entries_nonempty(list: Seq<u8>, sofar: Seq<Seq<u8>>)
    ensures
        entries_in(list, sofar).1 is None ==> entries_in(list, sofar).0.len() > 0,
    decreases list.len(),
{
    if list.len() >= 3 {
        let n = crate::bytes::from_be24(list[0], list[1], list[2]) as int;
        if 5 + n <= list.len() {
            let e = crate::bytes::from_be16(list[3 + n], list[4 + n]) as int;
            if 5 + n + e <= list.len() {
                lemma_entries_nonempty(list.skip(5 + n + e), sofar.push(list.subrange(3, 3 + n)));
            }
        }
    }
}

proof fn lemma_chain_nonempty(msg: Seq<u8>)
    ensures
        chain_in(msg).1 is None ==> chain_in(msg).0.len() > 0,
{
    if msg.len() >= 10 {
        let n = crate::bytes::from_be24(msg[1], msg[2], msg[3]) as int;
        if n != 0 && 4 + n <= msg.len() {
            lemma_entries_nonempty(msg.subrange(4, 4 + n), seq![]);
        }
    }
}

impl TlsStream {
    /// The digest of what has been said.
    pub fn compute_transcript_hash(&self) -> (r: Vec<u8>)
        ensures
            r@ == sha256_of(self@.said),
    {
        sha256(self.handshake_msg.as_slice())
    }

    /// Begins a client's handshake. Gives the message to send, and the session of the store that it offers to
    /// resume.
    pub fn begin_client(
        &mut self,
        sessions: &SessionCache,
        client_random: &[u8],
        public_key: &[u8],
        now: u128,
    ) -> (r: (Vec<u8>, Option<TlsSession>))
        requires
            old(self).inv(),
        ensures
            final(self).inv(),
            final(self).config == old(self).config,
            final(self)@ == begun(
                old(self).config,
                sessions@,
                old(self)@,
                client_random@,
                public_key@,
                now,
            ),
            r.0@ == handshake_message(
                HANDSHAKE_CLIENT_HELLO,
                opening_hello(
                    old(self).config,
                    sessions@,
                    old(self)@,
                    client_random@,
                    public_key@,
                    now,
                ),
            ),
            opt_session(r.1) == resumable(old(self).config, sessions@, old(self)@, now),
    {
        self.state = ConnectionState::Handshaking;
        let session = if !self.config.enable_session_resumption || !self.config.session_cache {
            None
        } else {
            match &self.server_name {
                Some(name) => sessions.get_valid(name.as_str(), now),
                None => None,
            }
        };
        let suites = self.config.configured_cipher_suites();
        let hello = match &session {
            Some(s) => {
                self.resuming_session = true;
                self.session_id = slice_to_vec(s.session_id.as_slice());
                build_resumption_client_hello(
                    client_random,
                    &suites,
                    &self.server_name,
                    public_key,
                    s,
                    now,
                )
            },
            None => build_client_hello(
                client_random,
                &suites,
                &self.server_name,
                &self.alpn_protocols,
                public_key,
            ),
        };
        push_bytes(&mut self.handshake_msg, hello.as_slice());
        assert(self@ =~= begun(
                old(self).config,
                sessions@,
                old(self)@,
                client_random@,
                public_key@,
                now,
            ));
        (build_handshake_message(HANDSHAKE_CLIENT_HELLO, hello.as_slice()), session)
    }

    /// Takes in the server's hello. `agreed` is the protocol that the data of its extension were taken for,
    /// `session` the one that the client offered to resume.
    pub fn on_server_hello(
        &mut self,
        msg_type: u8,
        msg: &[u8],
        agreed: Option<AlpnProtocol>,
        session: &Option<TlsSession>,
    ) -> (r: Result<HelloStep, TlsError>)
        requires
            old(self).inv(),
        ensures
            final(self).inv(),
            final(self).config == old(self).config,
            ({
                let due = hello_step(old(self)@, msg_type, msg@, agreed, opt_session(*session));
                &&& final(self)@ == due.0
                &&& match r {
                    Ok(x) => due.1 == Ok::<HelloStepView, TlsError>(x@),
                    Err(e) => due.1 == Err::<HelloStepView, TlsError>(e),
                }
            }),
    {
        if msg_type != HANDSHAKE_SERVER_HELLO {
            return Err(TlsError::HandshakeFailed(HandshakeFault::ExpectedServerHello));
        }
        match extract_alpn_from_handshake(msg) {
            Ok(_) => {},
            Err(e) => {
                return Err(e);
            },
        }
        self.negotiated_protocol = agreed;
        push_bytes(&mut self.handshake_msg, msg);
        let hello = match parse_server_hello(msg, self.session_id.as_slice()) {
            Ok(h) => h,
            Err(e) => {
                return Err(e);
            },
        };
        self.version = hello.version;
        self.cipher_suite = hello.cipher;
        if hello.session_resumed && self.resuming_session {
            match session {
                Some(s) => {
                    let hash = self.compute_transcript_hash();
                    self.keys =
                    Some(
                        derive_application_keys(
                            s.master_secret.as_slice(),
                            hash.as_slice(),
                            self.cipher_suite,
                        ),
                    );
                    self.state = ConnectionState::Connected;
                    return Ok(HelloStep::Resumed);
                },
                None => {},
            }
        }
        self.resuming_session = false;
        if hello.public_key.len() == 0 {
            return Err(TlsError::HandshakeFailed(HandshakeFault::NoPeerKey));
        }
        Ok(HelloStep::Exchange(hello.public_key))
    }

    /// Takes in the secret that a client made with the server's key, and derives keys from it.
    pub fn on_client_secret(&mut self, exchange: &KeyExchange) -> (r: Result<(), TlsError>)
        requires
            old(self).inv(),
        ensures
            final(self).inv(),
            final(self).config == old(self).config,
            match exchange {
                KeyExchange::PeerKeyRefused => r == Err::<(), TlsError>(
                    TlsError::CipherError(CipherFault::PeerKey),
                ) && final(self)@ == old(self)@,
                KeyExchange::Failed => r == Err::<(), TlsError>(
                    TlsError::HandshakeFailed(HandshakeFault::KeyExchange),
                ) && final(self)@ == old(self)@,
                KeyExchange::Secret(k) => r is Ok && final(self)@ == (StreamView {
                    keys: Some(
                        application_keys(
                            k@,
                            sha256_of(old(self)@.said),
                            old(self)@.cipher_suite,
                        ),
                    ),
                    ..old(self)@
                }),
            },
    {
        match exchange {
            KeyExchange::PeerKeyRefused => Err(TlsError::CipherError(CipherFault::PeerKey)),
            KeyExchange::Failed => Err(TlsError::HandshakeFailed(HandshakeFault::KeyExchange)),
            KeyExchange::Secret(k) => {
                self.derive_keys(k.as_slice());
                Ok(())
            },
        }
    }

    /// Derives the keys for application data from a secret.
    pub fn derive_keys(&mut self, shared_secret: &[u8])
        requires
            old(self).inv(),
        ensures
            final(self).inv(),
            final(self).config == old(self).config,
            final(self)@ == (StreamView {
                keys: Some(
                    application_keys(
                        shared_secret@,
                        sha256_of(old(self)@.said),
                        old(self)@.cipher_suite,
                    ),
                ),
                ..old(self)@
            }),
    {
        let hash = self.compute_transcript_hash();
        self.keys =
        Some(derive_application_keys(shared_secret, hash.as_slice(), self.cipher_suite));
    }

    /// Takes in a ticket, and keeps a session under it.
    pub fn handle_new_session_ticket(&self, sessions: &mut SessionCache, data: &[u8], now: u128) -> (r: Result<
        (),
        TlsError,
    >)
        requires
            old(sessions).inv(),
        ensures
            final(sessions).inv(),
            final(sessions)@ == ticket_step(self.config, old(sessions)@, self@, data@, now).0,
            r == (match ticket_step(self.config, old(sessions)@, self@, data@, now).1 {
                Some(e) => Err::<(), TlsError>(e),
                None => Ok(()),
            }),
    {
        let ticket = match parse_new_session_ticket(data) {
            Err(e) => {
                return Err(e);
            },
            Ok(None) => {
                return Ok(());
            },
            Ok(Some(t)) => t,
        };
        let name = match &self.server_name {
            Some(n) => n.as_str().to_owned(),
            None => {
                return Ok(());
            },
        };
        let secret = match &self.keys {
            Some(k) => slice_to_vec(k.client_write_key.as_slice()),
            None => {
                return Ok(());
            },
        };
        let id = slice_to_vec(self.session_id.as_slice());
        let mut session = TlsSession::new(
            id,
            secret,
            self.cipher_suite,
            name.as_str().to_owned(),
            self.version,
            now,
        );
        session.ticket = Some(ticket);
        if self.config.session_cache {
            sessions.insert(name, session);
        }
        Ok(())
    }

    /// Takes in a message of the server after the secret is made; tells whether the server is done. `found` is
    /// what was found out about the certificates, and is looked at for the message that carries them.
    pub fn on_server_message(
        &mut self,
        sessions: &mut SessionCache,
        msg_type: u8,
        msg: &[u8],
        found: ChainFindings,
        now: u128,
    ) -> (r: Result<bool, TlsError>)
        requires
            old(self).inv(),
            old(sessions).inv(),
            msg_type == HANDSHAKE_CERTIFICATE ==> found.certs@.len() == chain_in(msg@).0.len(),
        ensures
            final(self).inv(),
            final(sessions).inv(),
            final(self).config == old(self).config,
            ({
                let due = server_message_step(
                    old(self).config,
                    old(sessions)@,
                    old(self)@,
                    msg_type,
                    msg@,
                    found,
                    now,
                );
                final(self)@ == due.0 && final(sessions)@ == due.1 && r == due.2
            }),
    {
        if msg_type == HANDSHAKE_ENCRYPTED_EXTENSIONS || msg_type == HANDSHAKE_CERTIFICATE_VERIFY {
            push_bytes(&mut self.handshake_msg, msg);
            Ok(false)
        } else if msg_type == HANDSHAKE_CERTIFICATE {
            push_bytes(&mut self.handshake_msg, msg);
            match self.verify_certificate_message(msg, found) {
                Ok(()) => Ok(false),
                Err(e) => Err(e),
            }
        } else if msg_type == HANDSHAKE_FINISHED {
            let hash = self.compute_transcript_hash();
            match verify_finished(&self.keys, hash.as_slice(), msg, false) {
                Ok(()) => Ok(true),
                Err(e) => Err(e),
            }
        } else if msg_type == HANDSHAKE_NEW_SESSION_TICKET {
            match self.handle_new_session_ticket(sessions, msg, now) {
                Ok(()) => Ok(false),
                Err(e) => Err(e),
            }
        } else {
            Err(TlsError::HandshakeFailed(HandshakeFault::UnexpectedMessage(msg_type)))
        }
    }

    /// Decides whether a server's certificate message is accepted.
    pub fn verify_certificate_message(&self, cert_msg: &[u8], found: ChainFindings) -> (r: Result<(), TlsError>)
        requires
            found.certs@.len() == chain_in(cert_msg@).0.len(),
        ensures
            match r {
                Ok(()) => certificate_fault(self.config, self@, cert_msg@, found) is None,
                Err(e) => certificate_fault(self.config, self@, cert_msg@, found) == Some(e),
            },
    {
        let (_, fault) = split_certificate_chain(cert_msg);
        proof {
            lemma_chain_nonempty(cert_msg@);
        }
        let chain = match parse_certificate_chain(found.certs, fault) {
            Ok(c) => c,
            Err(e) => {
                return Err(e);
            },
        };
        assert(certificate_views(chain@).len() == chain@.len());
        let name = match &self.server_name {
            Some(n) => Some(n.as_str()),
            None => None,
        };
        verify_certificate(
            &self.config.trust_store,
            self.config.verify_peer,
            name,
            found.name_matches,
            &chain,
            &found.signed,
            found.anchor,
        )
    }

    /// A client's last message.
    pub fn client_finished(&self) -> (r: Result<Vec<u8>, TlsError>)
        ensures
            match self@.keys {
                Some(k) => r matches Ok(m) && m@ == handshake_message(
                    HANDSHAKE_FINISHED,
                    finished_data(k, sha256_of(self@.said), true),
                ),
                None => r == Err::<Vec<u8>, TlsError>(
                    TlsError::HandshakeFailed(HandshakeFault::KeysNotDerived),
                ),
            },
    {
        let hash = self.compute_transcript_hash();
        match compute_finished(&self.keys, hash.as_slice(), true) {
            Ok(f) => Ok(build_handshake_message(HANDSHAKE_FINISHED, f.as_slice())),
            Err(e) => Err(e),
        }
    }

    /// Ends a client's handshake once its last message is sent, and keeps the session for resumption.
    /// `fresh_id` was drawn for a session that has no number yet.
    pub fn save_session(
        &mut self,
        sessions: &mut SessionCache,
        shared_secret: &[u8],
        fresh_id: &[u8],
        now: u128,
    )
        requires
            old(self).inv(),
            old(sessions).inv(),
        ensures
            final(self).inv(),
            final(sessions).inv(),
            final(self).config == old(self).config,
            (final(self)@, final(sessions)@) == settled(
                old(self).config,
                old(sessions)@,
                old(self)@,
                shared_secret@,
                fresh_id@,
                now,
            ),
    {
        self.state = ConnectionState::Connected;
        if !self.config.enable_session_resumption || !self.config.session_cache {
            return;
        }
        let name = match &self.server_name {
            Some(n) => n.as_str().to_owned(),
            None => {
                return;
            },
        };
        if self.session_id.len() == 0 {
            self.session_id = slice_to_vec(fresh_id);
        }
        let id = slice_to_vec(self.session_id.as_slice());
        let session = TlsSession::new(
            id,
            slice_to_vec(shared_secret),
            self.cipher_suite,
            name.as_str().to_owned(),
            self.version,
            now,
        );
        sessions.insert(name, session);
    }
}

/// What a client's hello does to a server's connection: the connection after it, and the key that the client
/// offers. `random` and `key` are the server's own.
pub open spec fn client_hello_step(
    cfg: TlsCfg,
    s: StreamView,
    msg_type: u8,
    msg: Seq<u8>,
    random: Seq<u8>,
    key: Seq<u8>,
) -> (StreamView, Result<Seq<u8>, TlsError>) {
    let woken = StreamView { state: ConnectionState::Handshaking, ..s };
    if msg_type != HANDSHAKE_CLIENT_HELLO {
        (woken, Err(TlsError::HandshakeFailed(HandshakeFault::ExpectedClientHello)))
    } else {
        let heard = StreamView { said: s.said + msg, ..woken };
        match client_hello_in(msg) {
            Err(e) => (heard, Err(e)),
            Ok(h) => match shared_version(h.versions, cfg.min_version, cfg.max_version) {
                None => (heard, Err(TlsError::UnsupportedVersion)),
                Some(v) => {
                    let spoken = StreamView { version: v, ..heard };
                    match shared_suite(name_texts(cfg.supported_ciphers@), h.ciphers, 0) {
                        None => (spoken, Err(TlsError::NoSharedCipher)),
                        Some(c) => (
                            StreamView {
                                cipher_suite: c,
                                said: s.said + msg + server_hello(random, c, key, s.negotiated),
                                ..spoken
                            },
                            Ok(h.public_key),
                        ),
                    }
                },
            },
        }
    }
}

impl TlsStream {
    /// Takes in a client's hello. Gives the message to send, and the key that the client offers.
    pub fn on_client_hello(&mut self, msg_type: u8, msg: &[u8], server_random: &[u8], public_key: &[u8]) -> (r:
        Result<(Vec<u8>, Vec<u8>), TlsError>)
        requires
            old(self).inv(),
        ensures
            final(self).inv(),
            final(self).config == old(self).config,
            ({
                let due = client_hello_step(
                    old(self).config,
                    old(self)@,
                    msg_type,
                    msg@,
                    server_random@,
                    public_key@,
                );
                &&& final(self)@ == due.0
                &&& match r {
                    Ok((m, k)) => due.1 == Ok::<Seq<u8>, TlsError>(k@) && m@ == handshake_message(
                        HANDSHAKE_SERVER_HELLO,
                        server_hello(
                            server_random@,
                            final(self)@.cipher_suite,
                            public_key@,
                            old(self)@.negotiated,
                        ),
                    ),
                    Err(e) => due.1 == Err::<Seq<u8>, TlsError>(e),
                }
            }),
    {
        self.state = ConnectionState::Handshaking;
        if msg_type != HANDSHAKE_CLIENT_HELLO {
            return Err(TlsError::HandshakeFailed(HandshakeFault::ExpectedClientHello));
        }
        push_bytes(&mut self.handshake_msg, msg);
        let hello = match parse_client_hello(msg) {
            Ok(h) => h,
            Err(e) => {
                return Err(e);
            },
        };
        match self.config.negotiate_version(&hello.versions) {
            Ok(v) => {
                self.version = v;
            },
            Err(e) => {
                return Err(e);
            },
        }
        match self.config.select_cipher_suite(&hello.ciphers) {
            Ok(c) => {
                self.cipher_suite = c;
            },
            Err(e) => {
                return Err(e);
            },
        }
        let reply = build_server_hello(
            server_random,
            self.cipher_suite,
            public_key,
            self.negotiated_protocol,
        );
        push_bytes(&mut self.handshake_msg, reply.as_slice());
        let m = build_handshake_message(HANDSHAKE_SERVER_HELLO, reply.as_slice());
        Ok((m, hello.public_key))
    }

    /// Takes in the secret that a server made with the client's key, and derives the keys for the rest of the
    /// handshake from it.
    pub fn on_server_secret(&mut self, exchange: &KeyExchange) -> (r: Result<(), TlsError>)
        requires
            old(self).inv(),
        ensures
            final(self).inv(),
            final(self).config == old(self).config,
            match exchange {
                KeyExchange::PeerKeyRefused => r == Err::<(), TlsError>(
                    TlsError::HandshakeFailed(HandshakeFault::PeerKeyRefused),
                ) && final(self)@ == old(self)@,
                KeyExchange::Failed => r == Err::<(), TlsError>(
                    TlsError::HandshakeFailed(HandshakeFault::KeyExchange),
                ) && final(self)@ == old(self)@,
                KeyExchange::Secret(k) => r is Ok && final(self)@ == (StreamView {
                    keys: Some(
                        handshake_keys(k@, sha256_of(old(self)@.said), old(self)@.cipher_suite),
                    ),
                    ..old(self)@
                }),
            },
    {
        match exchange {
            KeyExchange::PeerKeyRefused => Err(
                TlsError::HandshakeFailed(HandshakeFault::PeerKeyRefused),
            ),
            KeyExchange::Failed => Err(TlsError::HandshakeFailed(HandshakeFault::KeyExchange)),
            KeyExchange::Secret(k) => {
                let hash = self.compute_transcript_hash();
                self.keys =
                Some(derive_handshake_keys(k.as_slice(), hash.as_slice(), self.cipher_suite));
                Ok(())
            },
        }
    }

    fn say(&mut self, msg_type: u8, msg: &[u8]) -> (r: Vec<u8>)
        requires
            old(self).inv(),
        ensures
            final(self).inv(),
            final(self).config == old(self).config,
            final(self)@ == (StreamView { said: old(self)@.said + msg@, ..old(self)@ }),
            r@ == handshake_message(msg_type, msg@),
    {
        push_bytes(&mut self.handshake_msg, msg);
        build_handshake_message(msg_type, msg)
    }

    /// A server's message of extensions.
    pub fn say_encrypted_extensions(&mut self) -> (r: Vec<u8>)
        requires
            old(self).inv(),
        ensures
            final(self).inv(),
            final(self).config == old(self).config,
            ({
                let s = old(self)@;
                let m = encrypted_extensions(s.is_client, s.negotiated, s.server_name is Some);
                r@ == handshake_message(HANDSHAKE_ENCRYPTED_EXTENSIONS, m) && final(self)@ == (StreamView {
                    said: s.said + m,
                    ..s
                })
            }),
    {
        let m = build_encrypted_extensions(
            self.is_client,
            self.negotiated_protocol,
            self.server_name.is_some(),
        );
        self.say(HANDSHAKE_ENCRYPTED_EXTENSIONS, m.as_slice())
    }

    /// A server's certificates; `None` where it has none.
    pub fn say_certificate(&mut self) -> (r: Option<Vec<u8>>)
        requires
            old(self).inv(),
        ensures
            final(self).inv(),
            final(self).config == old(self).config,
            ({
                let s = old(self)@;
                let chain = octet_views(old(self).config.cert_chain@);
                if chain.len() == 0 {
                    r is None && final(self)@ == s
                } else {
                    r matches Some(m) && m@ == handshake_message(
                        HANDSHAKE_CERTIFICATE,
                        certificate_message(chain),
                    ) && final(self)@ == (StreamView {
                        said: s.said + certificate_message(chain),
                        ..s
                    })
                }
            }),
    {
        if self.config.cert_chain.len() == 0 {
            None
        } else {
            let m = build_certificate(&self.config.cert_chain);
            Some(self.say(HANDSHAKE_CERTIFICATE, m.as_slice()))
        }
    }

    /// What the holder of the certificates signs.
    pub fn content_to_sign(&self) -> (r: Vec<u8>)
        ensures
            r@ == verify_content(self@.is_client, sha256_of(self@.said)),
    {
        let hash = self.compute_transcript_hash();
        certificate_verify_content(self.is_client, hash.as_slice())
    }

    /// A server's message of its signature; `signature` is `None` where signing failed.
    pub fn say_certificate_verify(&mut self, signature: Option<&[u8]>) -> (r: Result<Vec<u8>, TlsError>)
        requires
            old(self).inv(),
        ensures
            final(self).inv(),
            final(self).config == old(self).config,
            match signature {
                Some(g) => r matches Ok(m) && m@ == handshake_message(
                    HANDSHAKE_CERTIFICATE_VERIFY,
                    verify_message(g@),
                ) && final(self)@ == (StreamView {
                    said: old(self)@.said + verify_message(g@),
                    ..old(self)@
                }),
                None => r == Err::<Vec<u8>, TlsError>(TlsError::CipherError(CipherFault::Sign))
                    && final(self)@ == old(self)@,
            },
    {
        match build_certificate_verify(signature) {
            Ok(m) => Ok(self.say(HANDSHAKE_CERTIFICATE_VERIFY, m.as_slice())),
            Err(e) => Err(e),
        }
    }

    /// A server's last message.
    pub fn say_finished(&mut self) -> (r: Result<Vec<u8>, TlsError>)
        requires
            old(self).inv(),
        ensures
            final(self).inv(),
            final(self).config == old(self).config,
            match old(self)@.keys {
                Some(k) => {
                    let f = finished_data(k, sha256_of(old(self)@.said), false);
                    r matches Ok(m) && m@ == handshake_message(HANDSHAKE_FINISHED, f) && final(self)@ == (
                    StreamView { said: old(self)@.said + f, ..old(self)@ })
                },
                None => r == Err::<Vec<u8>, TlsError>(
                    TlsError::HandshakeFailed(HandshakeFault::KeysNotDerived),
                ) && final(self)@ == old(self)@,
            },
    {
        let hash = self.compute_transcript_hash();
        match compute_finished(&self.keys, hash.as_slice(), false) {
            Ok(f) => Ok(self.say(HANDSHAKE_FINISHED, f.as_slice())),
            Err(e) => Err(e),
        }
    }

    /// Takes in a client's last message, which ends a server's handshake.
    pub fn on_client_finished(&mut self, msg_type: u8, msg: &[u8]) -> (r: Result<(), TlsError>)
        requires
            old(self).inv(),
        ensures
            final(self).inv(),
            final(self).config == old(self).config,
            ({
                let s = old(self)@;
                let fault = if msg_type != HANDSHAKE_FINISHED {
                    Some(TlsError::HandshakeFailed(HandshakeFault::ExpectedFinished))
                } else {
                    finished_fault(s.keys, sha256_of(s.said), msg@, true)
                };
                match fault {
                    Some(e) => r == Err::<(), TlsError>(e) && final(self)@ == s,
                    None => r is Ok && final(self)@ == (StreamView {
                        state: ConnectionState::Connected,
                        ..s
                    }),
                }
            }),
    {
        if msg_type != HANDSHAKE_FINISHED {
            return Err(TlsError::HandshakeFailed(HandshakeFault::ExpectedFinished));
        }
        let hash = self.compute_transcript_hash();
        match verify_finished(&self.keys, hash.as_slice(), msg, true) {
            Ok(()) => {
                self.state = ConnectionState::Connected;
                Ok(())
            },
            Err(e) => Err(e),
        }
    }
}

/// Where one connection has just kept its session in a store, the next one that is handed the store offers to
/// resume it, as long as it is fresh.
pub proof fn law_kept_session_is_offered(
    cfg: TlsCfg,
    store: Sessions,
    s: StreamView,
    secret: Seq<u8>,
    fresh_id: Seq<u8>,
    then: u128,
    next_cfg: TlsCfg,
    next: StreamView,
    now: u128,
)
    requires
        cfg.enable_session_resumption,
        cfg.session_cache,
        next_cfg.enable_session_resumption,
        next_cfg.session_cache,
        s.server_name is Some,
        crate::table::in_name_order(store),
        next.server_name == s.server_name,
        then <= now,
        now - then < crate::net::https::tls::session::MAX_SESSION_LIFETIME,
    ensures
        ({
            let (kept, after) = settled(cfg, store, s, secret, fresh_id, then);
            resumable(next_cfg, after, next, now) matches Some(v) && v.master_secret == secret && v.session_id
                == kept.session_id && v.server_name == s.server_name->0
        }),
{
    let kept = SessionView {
        session_id: settled(cfg, store, s, secret, fresh_id, then).0.session_id,
        master_secret: secret,
        cipher_suite: s.cipher_suite,
        created_at: then,
        server_name: s.server_name->0,
        protocol_version: s.version,
        ticket: None,
    };
    crate::table::law_put_value(store, s.server_name->0, kept, s.server_name->0);
}

/// No message of the server but an accepted last one lets a client go on to its own, and none of them opens the
/// connection.
pub proof fn law_client_waits_for_finished(
    cfg: TlsCfg,
    store: Sessions,
    s: StreamView,
    msg_type: u8,
    msg: Seq<u8>,
    found: ChainFindings,
    now: u128,
)
    ensures
        ({
            let due = server_message_step(cfg, store, s, msg_type, msg, found, now);
            &&& due.0.state == s.state
            &&& due.0.keys == s.keys
            &&& due.2 == Ok::<bool, TlsError>(true) ==> msg_type == HANDSHAKE_FINISHED && s.keys is Some
                && msg == finished_data(s.keys->0, sha256_of(s.said), false)
        }),
{
}

/// Certificates that are not accepted end the handshake.
pub proof fn law_bad_certificates_end_handshake(
    cfg: TlsCfg,
    store: Sessions,
    s: StreamView,
    msg: Seq<u8>,
    found: ChainFindings,
    now: u128,
)
    requires
        certificate_fault(cfg, s, msg, found) is Some,
    ensures
        server_message_step(cfg, store, s, HANDSHAKE_CERTIFICATE, msg, found, now).2 == Err::<bool, TlsError>(
            certificate_fault(cfg, s, msg, found)->0,
        ),
{
}

/// A server that hears the hello of a client that begins takes its key, speaks the version that it asks for where the
/// settings allow it, and chooses a suite that it offered; what was said then ends in the server's own hello.
pub proof fn law_hello_is_answered(
    cfg: TlsCfg,
    s: StreamView,
    random: Seq<u8>,
    suites: Seq<u16>,
    server_name: Option<Seq<char>>,
    protocols: Seq<AlpnProtocol>,
    key: Seq<u8>,
    own_random: Seq<u8>,
    own_key: Seq<u8>,
)
    requires
        random.len() == 32,
        suites.len() < 0x8000,
        first_extensions(server_name, protocols, key).len() < 0x1_0000,
    ensures
        ({
            let msg = client_hello(random, seq![], suites, first_extensions(server_name, protocols, key));
            let (next, r) = client_hello_step(cfg, s, 1, msg, own_random, own_key);
            let spoken = cfg.max_version == TlsVersion::Tls1_3;
            &&& r matches Ok(k) ==> {
                &&& k == key
                &&& suites.contains(next.cipher_suite)
                &&& next.version == TlsVersion::Tls1_3
                &&& next.said == s.said + msg + server_hello(own_random, next.cipher_suite, own_key, s.negotiated)
            }
            &&& !spoken ==> r == Err::<Seq<u8>, TlsError>(TlsError::UnsupportedVersion)
            &&& spoken ==> r == Ok::<Seq<u8>, TlsError>(key) || r == Err::<Seq<u8>, TlsError>(TlsError::NoSharedCipher)
            &&& spoken && (exists|k: int|
                0 <= k < cfg.supported_ciphers@.len() && (suite_named(
                    (#[trigger] name_texts(cfg.supported_ciphers@)[k]),
                ) matches Some(c) && suites.contains(c))) ==> r is Ok
            &&& next.state == ConnectionState::Handshaking
        }),
{
    law_client_hello_is_read(random, suites, server_name, protocols, key);
    law_chosen_suite_is_shared(name_texts(cfg.supported_ciphers@), suites);
    let v = seq![TLS_VERSION_1_3];
    assert(v[0] == TLS_VERSION_1_3);
    assert(v.contains(TLS_VERSION_1_3));
    assert(!v.contains(TLS_VERSION_1_2));
}

/// A message other than a client's hello is refused by a server that waits for one, and one other than a server's hello
/// by a client that waits for that.
pub proof fn law_hello_is_expected(
    cfg: TlsCfg,
    s: StreamView,
    msg_type: u8,
    msg: Seq<u8>,
    random: Seq<u8>,
    key: Seq<u8>,
    agreed: Option<AlpnProtocol>,
    session: Option<SessionView>,
)
    ensures
        msg_type != 1 ==> client_hello_step(cfg, s, msg_type, msg, random, key).1 == Err::<Seq<u8>, TlsError>(
            TlsError::HandshakeFailed(HandshakeFault::ExpectedClientHello),
        ),
        msg_type != 2 ==> hello_step(s, msg_type, msg, agreed, session) == (
            s,
            Err::<HelloStepView, TlsError>(TlsError::HandshakeFailed(HandshakeFault::ExpectedServerHello)),
        ),
        hello_step(s, msg_type, msg, agreed, session).1 == Ok::<HelloStepView, TlsError>(HelloStepView::Resumed)
            ==> s.resuming && session is Some && hello_step(s, msg_type, msg, agreed, session).0.state
            == ConnectionState::Connected,
        hello_step(s, msg_type, msg, agreed, session).1 matches Ok(HelloStepView::Exchange(k)) ==> k.len() > 0
            && hello_step(s, msg_type, msg, agreed, session).0.state == s.state && !hello_step(
            s,
            msg_type,
            msg,
            agreed,
            session,
        ).0.resuming,
{
}

}
