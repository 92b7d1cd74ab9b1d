//! Keys: how they are derived from a shared secret and what has been said in the handshake.
use vstd::prelude::*;
use vstd::string::StringSliceAdditionalSpecFns;
use vstd::utf8::encode_utf8;

use crate::bytes::{be16, constant_time_eq, law_be16_roundtrip, lemma_same_parts, push_be16, push_bytes};
use crate::crypto::hmac::{
    hkdf_expand, hkdf_expanded, hkdf_extract, hkdf_extracted, lemma_hkdf_expanded_len,
};
use crate::crypto::sha256::{sha256, sha256_of};
use crate::net::https::tls::config::{
    CipherFault, HandshakeFault, TlsError, TLS_AES_256_GCM_SHA384, TLS_CHACHA20_POLY1305_SHA256,
};

verus! {

/// The keys of a connection.
#[derive(Debug, Clone)]
pub struct TlsKeys {
    pub client_write_key: Vec<u8>,
    pub server_write_key: Vec<u8>,
    pub client_write_iv: Vec<u8>,
    pub server_write_iv: Vec<u8>,
}

#[verifier::ext_equal]
pub struct KeysView {
    pub client_write_key: Seq<u8>,
    pub server_write_key: Seq<u8>,
    pub client_write_iv: Seq<u8>,
    pub server_write_iv: Seq<u8>,
}

impl View for TlsKeys {
    type V = KeysView;

    open spec fn view(&self) -> KeysView {
        KeysView {
            client_write_key: self.client_write_key@,
            server_write_key: self.server_write_key@,
            client_write_iv: self.client_write_iv@,
            server_write_iv: self.server_write_iv@,
        }
    }
}

pub open spec fn opt_keys(k: Option<TlsKeys>) -> Option<KeysView> {
    match k {
        Some(k) => Some(k@),
        None => None,
    }
}

/// How long the keys of a suite are.
pub open spec fn key_len(suite: u16) -> nat {
    if suite == TLS_AES_256_GCM_SHA384 || suite == TLS_CHACHA20_POLY1305_SHA256 {
        32
    } else {
        16
    }
}

/// Tells how long the keys of a suite are.
pub fn aead_key_len(cipher_suite: u16) -> (r: usize)
    ensures
        r == key_len(cipher_suite),
{
    if cipher_suite == TLS_AES_256_GCM_SHA384 || cipher_suite == TLS_CHACHA20_POLY1305_SHA256 {
        32
    } else {
        16
    }
}

/// What keys are expanded with under a label and a context.
pub open spec fn label_info(label: Seq<u8>, context: Seq<u8>, length: nat) -> Seq<u8> {
    be16((length % 0x1_0000) as u16) + seq![((6 + label.len()) % 0x100) as u8] + encode_utf8("tls13 "@)
        + label + seq![(context.len() % 0x100) as u8] + context
}

/// What a secret is expanded to under a label and a context.
pub open spec fn expanded_label(secret: Seq<u8>, label: Seq<u8>, context: Seq<u8>, length: nat) -> Seq<u8> {
    hkdf_expanded(secret, label_info(label, context, length), length)
}

/// Expands a secret under a label and a context; fails where too much is asked for.
pub fn hkdf_expand_label(secret: &[u8], label: &[u8], context: &[u8], length: usize) -> (r: Result<
    Vec<u8>,
    TlsError,
>)
    ensures
        match r {
            Ok(k) => length <= 8160 && k@ == expanded_label(secret@, label@, context@, length as nat)
                && k@.len() == length,
            Err(e) => length > 8160 && e == TlsError::CipherError(CipherFault::Expand),
        },
{
    let mut info: Vec<u8> = Vec::new();
    push_be16(&mut info, (length % 0x1_0000) as u16);
    info.push(((6 + label.len() % 0x100) % 0x100) as u8);
    push_bytes(&mut info, "tls13 ".as_bytes());
    push_bytes(&mut info, label);
    info.push((context.len() % 0x100) as u8);
    push_bytes(&mut info, context);
    assert((6 + label@.len() % 0x100) % 0x100 == (6 + label@.len()) % 0x100);
    assert(info@ =~= label_info(label@, context@, length as nat));
    proof {
        lemma_hkdf_expanded_len(secret@, info@, length as nat);
    }
    match hkdf_expand(secret, info.as_slice(), length) {
        Some(k) => Ok(k),
        None => Err(TlsError::CipherError(CipherFault::Expand)),
    }
}

/// A secret expanded under a label in words.
pub open spec fn derived(secret: Seq<u8>, label: Seq<char>, context: Seq<u8>, length: nat) -> Seq<u8> {
    expanded_label(secret, encode_utf8(label), context, length)
}

fn derive(secret: &[u8], label: &str, context: &[u8], length: usize) -> (r: Vec<u8>)
    requires
        length <= 32,
    ensures
        r@ == derived(secret@, label@, context@, length as nat),
        r@.len() == length,
{
    match hkdf_expand_label(secret, label.as_bytes(), context, length) {
        Ok(k) => k,
        Err(_) => Vec::new(),
    }
}

/// The keys that two secrets give, that of the client and that of the server.
pub open spec fn traffic_keys(client: Seq<u8>, server: Seq<u8>, suite: u16) -> KeysView {
    KeysView {
        client_write_key: derived(client, "key"@, seq![], key_len(suite)),
        client_write_iv: derived(client, "iv"@, seq![], 12),
        server_write_key: derived(server, "key"@, seq![], key_len(suite)),
        server_write_iv: derived(server, "iv"@, seq![], 12),
    }
}

fn make_traffic_keys(client: &[u8], server: &[u8], suite: u16) -> (r: TlsKeys)
    ensures
        r@ == traffic_keys(client@, server@, suite),
        r@.client_write_iv.len() == 12,
        r@.server_write_iv.len() == 12,
{
    let none: Vec<u8> = Vec::new();
    assert(none@ =~= seq![]);
    let n = aead_key_len(suite);
    TlsKeys {
        client_write_key: derive(client, "key", none.as_slice(), n),
        client_write_iv: derive(client, "iv", none.as_slice(), 12),
        server_write_key: derive(server, "key", none.as_slice(), n),
        server_write_iv: derive(server, "iv", none.as_slice(), 12),
    }
}

/// The keys for application data.
pub open spec fn application_keys(secret: Seq<u8>, transcript_hash: Seq<u8>, suite: u16) -> KeysView {
    traffic_keys(
        derived(secret, "c ap traffic"@, transcript_hash, 32),
        derived(secret, "s ap traffic"@, transcript_hash, 32),
        suite,
    )
}

/// The secret of a handshake.
pub open spec fn handshake_secret(secret: Seq<u8>) -> Seq<u8> {
    let zeros = Seq::new(32, |i: int| 0u8);
    let early = hkdf_extracted(zeros, zeros);
    hkdf_extracted(derived(early, "derived"@, sha256_of(seq![]), 32), secret)
}

/// The keys for the rest of a handshake.
pub open spec fn handshake_keys(secret: Seq<u8>, transcript_hash: Seq<u8>, suite: u16) -> KeysView {
    traffic_keys(
        derived(handshake_secret(secret), "c hs traffic"@, transcript_hash, 32),
        derived(handshake_secret(secret), "s hs traffic"@, transcript_hash, 32),
        suite,
    )
}

/// Derives the keys for application data.
pub fn derive_application_keys(shared_secret: &[u8], transcript_hash: &[u8], cipher_suite: u16) -> (r:
    TlsKeys)
    ensures
        r@ == application_keys(shared_secret@, transcript_hash@, cipher_suite),
        r@.client_write_iv.len() == 12,
        r@.server_write_iv.len() == 12,
{
    let client = derive(shared_secret, "c ap traffic", transcript_hash, 32);
    let server = derive(shared_secret, "s ap traffic", transcript_hash, 32);
    make_traffic_keys(client.as_slice(), server.as_slice(), cipher_suite)
}

/// Derives the keys for the rest of a handshake.
pub fn derive_handshake_keys(shared_secret: &[u8], transcript_hash: &[u8], cipher_suite: u16) -> (r:
    TlsKeys)
    ensures
        r@ == handshake_keys(shared_secret@, transcript_hash@, cipher_suite),
        r@.client_write_iv.len() == 12,
        r@.server_write_iv.len() == 12,
{
    let mut zeros: Vec<u8> = Vec::new();
    let mut i: usize = 0;
    while i < 32
        invariant
            i <= 32,
            zeros@ =~= Seq::new(i as nat, |k: int| 0u8),
        decreases 32 - i,
    {
        zeros.push(0);
        i = i + 1;
    }
    let none: Vec<u8> = Vec::new();
    assert(none@ =~= seq![]);
    assert(zeros@ =~= Seq::new(32, |k: int| 0u8));
    let empty_hash = sha256(none.as_slice());
    let early = hkdf_extract(zeros.as_slice(), zeros.as_slice());
    let step = derive(early.as_slice(), "derived", empty_hash.as_slice(), 32);
    let secret = hkdf_extract(step.as_slice(), shared_secret);
    let client = derive(secret.as_slice(), "c hs traffic", transcript_hash, 32);
    let server = derive(secret.as_slice(), "s hs traffic", transcript_hash, 32);
    make_traffic_keys(client.as_slice(), server.as_slice(), cipher_suite)
}

/// What closes a handshake: a digest of what was said under a key of the side that says it.
pub open spec fn finished_data(keys: KeysView, transcript_hash: Seq<u8>, is_client: bool) -> Seq<u8> {
    let base = if is_client {
        keys.client_write_key
    } else {
        keys.server_write_key
    };
    sha256_of(derived(base, "finished"@, seq![], 32) + transcript_hash)
}

/// Computes what closes a handshake; fails where there are no keys.
pub fn compute_finished(keys: &Option<TlsKeys>, transcript_hash: &[u8], is_client: bool) -> (r: Result<
    Vec<u8>,
    TlsError,
>)
    ensures
        match r {
            Ok(f) => keys matches Some(k) && f@ == finished_data(k@, transcript_hash@, is_client),
            Err(e) => keys is None && e == TlsError::HandshakeFailed(HandshakeFault::KeysNotDerived),
        },
{
    match keys {
        None => Err(TlsError::HandshakeFailed(HandshakeFault::KeysNotDerived)),
        Some(k) => {
            let base = if is_client {
                k.client_write_key.as_slice()
            } else {
                k.server_write_key.as_slice()
            };
            let none: Vec<u8> = Vec::new();
            assert(none@ =~= seq![]);
            let mut material = derive(base, "finished", none.as_slice(), 32);
            push_bytes(&mut material, transcript_hash);
            Ok(sha256(material.as_slice()))
        },
    }
}

/// What is wrong with what closes a handshake.
pub open spec fn finished_fault(
    keys: Option<KeysView>,
    transcript_hash: Seq<u8>,
    msg: Seq<u8>,
    is_client: bool,
) -> Option<TlsError> {
    match keys {
        None => Some(TlsError::HandshakeFailed(HandshakeFault::KeysNotDerived)),
        Some(k) => if msg == finished_data(k, transcript_hash, is_client) {
            None
        } else {
            Some(TlsError::HandshakeFailed(HandshakeFault::FinishedMismatch))
        },
    }
}

/// Holds what closes a handshake against what should.
pub fn verify_finished(
    keys: &Option<TlsKeys>,
    transcript_hash: &[u8],
    finished_msg: &[u8],
    is_client: bool,
) -> (r: Result<(), TlsError>)
    ensures
        match r {
            Ok(()) => finished_fault(opt_keys(*keys), transcript_hash@, finished_msg@, is_client) is None,
            Err(e) => finished_fault(opt_keys(*keys), transcript_hash@, finished_msg@, is_client)
                == Some(e),
        },
{
    match compute_finished(keys, transcript_hash, is_client) {
        Err(e) => Err(e),
        Ok(expected) => {
            if constant_time_eq(expected.as_slice(), finished_msg) {
                Ok(())
            } else {
                Err(TlsError::HandshakeFailed(HandshakeFault::FinishedMismatch))
            }
        },
    }
}

/// Both sides derive the same keys from the same secret and the same words, and each accepts what the other
/// closes the handshake with.
pub proof fn law_finished_is_accepted(secret: Seq<u8>, transcript_hash: Seq<u8>, suite: u16, is_client: bool)
    ensures
        finished_fault(
            Some(application_keys(secret, transcript_hash, suite)),
            transcript_hash,
            finished_data(application_keys(secret, transcript_hash, suite), transcript_hash, is_client),
            is_client,
        ) is None,
        finished_fault(
            Some(handshake_keys(secret, transcript_hash, suite)),
            transcript_hash,
            finished_data(handshake_keys(secret, transcript_hash, suite), transcript_hash, is_client),
            is_client,
        ) is None,
{
}

/// Keys are as long as their suite asks for, and what they are combined with has twelve octets.
pub proof fn law_key_lengths(client: Seq<u8>, server: Seq<u8>, suite: u16)
    ensures
        traffic_keys(client, server, suite).client_write_key.len() == key_len(suite),
        traffic_keys(client, server, suite).server_write_key.len() == key_len(suite),
        traffic_keys(client, server, suite).client_write_iv.len() == 12,
        traffic_keys(client, server, suite).server_write_iv.len() == 12,
{
    let key = encode_utf8("key"@);
    let iv = encode_utf8("iv"@);
    let n = key_len(suite);
    lemma_hkdf_expanded_len(client, label_info(key, seq![], n), n);
    lemma_hkdf_expanded_len(server, label_info(key, seq![], n), n);
    lemma_hkdf_expanded_len(client, label_info(iv, seq![], 12), 12);
    lemma_hkdf_expanded_len(server, label_info(iv, seq![], 12), 12);
}

/// What closes a handshake is made with the key of the side that says it, and with no other.
pub proof fn law_finished_by_side(a: KeysView, b: KeysView, transcript_hash: Seq<u8>)
    ensures
        a.client_write_key == b.client_write_key ==> finished_data(a, transcript_hash, true) == finished_data(
            b,
            transcript_hash,
            true,
        ),
        a.server_write_key == b.server_write_key ==> finished_data(a, transcript_hash, false) == finished_data(
            b,
            transcript_hash,
            false,
        ),
        a.client_write_key == b.server_write_key ==> finished_data(a, transcript_hash, true) == finished_data(
            b,
            transcript_hash,
            false,
        ),
{
}

proof fn lemma_label_parts(a: Seq<u8>, p: Seq<u8>, w: Seq<u8>, l: Seq<u8>, n: Seq<u8>, c: Seq<u8>)
    ensures
        a + p + w + l + n + c == a + (p + (w + (l + (n + c)))),
{
    assert(a + p + w + l + n + c =~= a + p + w + (l + (n + c)));
    assert(a + p + w + (l + (n + c)) =~= a + p + (w + (l + (n + c))));
    assert(a + p + (w + (l + (n + c))) =~= a + (p + (w + (l + (n + c)))));
}

proof fn lemma_same_label(
    a: (Seq<u8>, Seq<u8>, Seq<u8>, Seq<u8>, Seq<u8>),
    b: (Seq<u8>, Seq<u8>, Seq<u8>, Seq<u8>, Seq<u8>),
    w: Seq<u8>,
)
    requires
        a.0.len() == b.0.len() && a.1.len() == b.1.len() && a.3.len() == b.3.len(),
        a.1 == b.1 ==> a.2.len() == b.2.len(),
        a.0 + a.1 + w + a.2 + a.3 + a.4 == b.0 + b.1 + w + b.2 + b.3 + b.4,
    ensures
        a.0 == b.0,
        a.2 == b.2,
        a.4 == b.4,
{
    lemma_label_parts(a.0, a.1, w, a.2, a.3, a.4);
    lemma_label_parts(b.0, b.1, w, b.2, b.3, b.4);
    let (x, y) = (a.2 + (a.3 + a.4), b.2 + (b.3 + b.4));
    lemma_same_parts(a.0, b.0, a.1 + (w + x), b.1 + (w + y));
    lemma_same_parts(a.1, b.1, w + x, w + y);
    lemma_same_parts(w, w, x, y);
    lemma_same_parts(a.2, b.2, a.3 + a.4, b.3 + b.4);
    lemma_same_parts(a.3, b.3, a.4, b.4);
}

/// What keys are expanded with differs wherever the label, the context or the length does, as far as their lengths can be
/// told.
pub proof fn law_labels_differ(l: Seq<u8>, m: Seq<u8>, c: Seq<u8>, d: Seq<u8>, i: u16, j: u16)
    requires
        l.len() < 250 && m.len() < 250,
        c.len() < 256 && d.len() < 256,
    ensures
        label_info(l, c, i as nat) == label_info(m, d, j as nat) ==> l == m && c == d && i == j,
{
    let (p, q) = (seq![((6 + l.len()) % 0x100) as u8], seq![((6 + m.len()) % 0x100) as u8]);
    let (n, o) = (seq![(c.len() % 0x100) as u8], seq![(d.len() % 0x100) as u8]);
    if label_info(l, c, i as nat) == label_info(m, d, j as nat) {
        law_be16_roundtrip(i);
        law_be16_roundtrip(j);
        assert((i as nat) % 0x1_0000 == i && (j as nat) % 0x1_0000 == j);
        if p == q {
            assert(p[0] == q[0]);
        }
        lemma_same_label((be16(i), p, l, n, c), (be16(j), q, m, o, d), encode_utf8("tls13 "@));
    }
}

/// The two sides of a connection have their keys from their own secrets, each of the length that the suite asks for.
pub proof fn law_traffic_keys(a: Seq<u8>, b: Seq<u8>, c: Seq<u8>, suite: u16)
    ensures
        traffic_keys(a, b, suite).client_write_key == traffic_keys(a, c, suite).client_write_key,
        traffic_keys(a, b, suite).client_write_iv == traffic_keys(a, c, suite).client_write_iv,
        traffic_keys(a, b, suite).server_write_key == traffic_keys(c, b, suite).server_write_key,
        traffic_keys(a, b, suite).server_write_iv == traffic_keys(c, b, suite).server_write_iv,
        traffic_keys(a, b, suite).client_write_key == traffic_keys(b, a, suite).server_write_key,
{
}

}
