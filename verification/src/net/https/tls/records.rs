//! Records: how a payload is framed, made fit for the cipher, and protected beyond it.
use vstd::prelude::*;
use vstd::slice::slice_subrange;
use vstd::string::StringSliceAdditionalSpecFns;
use vstd::utf8::encode_utf8;

use crate::bytes::{
    be16, be32, be64, constant_time_eq, copy_range, from_be16, from_be32, law_be32_roundtrip, law_be64_roundtrip,
    lemma_be64_differ, lemma_same_parts, push_be16, push_be32, push_be64, push_bytes, read_be16, read_be24, read_be32,
};
use crate::crypto::sha256::{lemma_sha256_len, sha256, sha256_of};
use crate::net::blob::opt_bytes;
use crate::net::http::compression::{usable, CompressionAlgorithm};
use crate::net::https::tls::certificate::{cut16, cut24, push_cut16, push_cut24};
use crate::net::https::tls::config::{
    CipherFault, CodecFault, DecodeFault, TlsError, TlsRecordCompressionCfg, TlsRecordSecurityCfg,
    ALERT_HANDSHAKE_FAILURE, ALERT_LEVEL_FATAL, CONTENT_TYPE_ALERT, CONTENT_TYPE_APPLICATION_DATA,
    TLS_VERSION_1_2,
};
use crate::net::https::tls::keys::{opt_keys, KeysView, TlsKeys};

verus! {

/// A record.
pub open spec fn record(content_type: u8, payload: Seq<u8>) -> Seq<u8> {
    seq![content_type] + be16(TLS_VERSION_1_2) + be16(cut16(payload.len())) + payload
}

/// Writes a record.
pub fn build_record(content_type: u8, payload: &[u8]) -> (r: Vec<u8>)
    ensures
        r@ == record(content_type, payload@),
{
    let mut out: Vec<u8> = Vec::new();
    out.push(content_type);
    push_be16(&mut out, TLS_VERSION_1_2);
    push_cut16(&mut out, payload.len());
    push_bytes(&mut out, payload);
    assert(out@ =~= record(content_type, payload@));
    out
}

/// Reads the type of a record and the length of its payload from its first five octets.
pub fn read_record_header(header: &[u8]) -> (r: (u8, usize))
    requires
        header@.len() == 5,
    ensures
        r.0 == header@[0],
        r.1 == from_be16(header@[3], header@[4]),
{
    (header[0], read_be16(header, 3) as usize)
}

/// A message of the handshake.
pub open spec fn handshake_message(msg_type: u8, msg: Seq<u8>) -> Seq<u8> {
    seq![msg_type] + crate::bytes::be24(cut24(msg.len())) + msg
}

/// Writes a message of the handshake.
pub fn build_handshake_message(msg_type: u8, msg: &[u8]) -> (r: Vec<u8>)
    ensures
        r@ == handshake_message(msg_type, msg@),
{
    let mut out: Vec<u8> = Vec::new();
    out.push(msg_type);
    push_cut24(&mut out, msg.len());
    push_bytes(&mut out, msg);
    assert(out@ =~= handshake_message(msg_type, msg@));
    out
}

/// The message of the handshake that a payload begins with.
pub open spec fn message_in(payload: Seq<u8>) -> Result<(u8, Seq<u8>), TlsError> {
    if payload.len() < 4 {
        Err(TlsError::DecodeError(DecodeFault::MessageTooShort))
    } else {
        let n = crate::bytes::from_be24(payload[1], payload[2], payload[3]) as int;
        if payload.len() < 4 + n {
            Err(TlsError::DecodeError(DecodeFault::MessageIncomplete))
        } else {
            Ok((payload[0], payload.subrange(4, 4 + n)))
        }
    }
}

/// Reads the message of the handshake that a payload begins with.
pub fn parse_handshake_message(payload: &[u8]) -> (r: Result<(u8, Vec<u8>), TlsError>)
    ensures
        match r {
            Ok((t, m)) => message_in(payload@) == Ok::<(u8, Seq<u8>), TlsError>((t, m@)),
            Err(e) => message_in(payload@) == Err::<(u8, Seq<u8>), TlsError>(e),
        },
{
    if payload.len() < 4 {
        return Err(TlsError::DecodeError(DecodeFault::MessageTooShort));
    }
    let n = read_be24(payload, 1);
    if payload.len() - 4 < n {
        return Err(TlsError::DecodeError(DecodeFault::MessageIncomplete));
    }
    let m = copy_range(payload, 4, 4 + n);
    assert(m@ =~= payload@.subrange(4, 4 + n as int));
    Ok((payload[0], m))
}

/// A message of the handshake is read back, as far as three octets can tell its length.
pub proof fn law_handshake_message_roundtrip(msg_type: u8, msg: Seq<u8>)
    requires
        msg.len() < 0x100_0000,
    ensures
        message_in(handshake_message(msg_type, msg)) == Ok::<(u8, Seq<u8>), TlsError>((msg_type, msg)),
{
    let p = handshake_message(msg_type, msg);
    let b = crate::bytes::be24(msg.len());
    crate::bytes::law_be24_roundtrip(msg.len());
    assert(cut24(msg.len()) == msg.len());
    assert(p[1] == b[0] && p[2] == b[1] && p[3] == b[2]);
    assert(p.subrange(4, 4 + msg.len() as int) =~= msg);
}

/// What the cipher is given beside the payload of the `seq`th record.
pub open spec fn record_nonce(iv: Seq<u8>, seq: u64) -> Seq<u8> {
    Seq::new(12, |i: int| if i < 4 { iv[i] } else { iv[i] ^ be64(seq)[i - 4] })
}

/// Computes what the cipher is given beside the payload of the `seq`th record.
pub fn compute_record_nonce(iv: &[u8], seq: u64) -> (r: Vec<u8>)
    requires
        iv@.len() >= 12,
    ensures
        r@ == record_nonce(iv@, seq),
{
    let mut number: Vec<u8> = Vec::new();
    push_be64(&mut number, seq);
    assert(number@ =~= be64(seq));
    proof {
        law_be64_roundtrip(seq);
    }
    let mut out: Vec<u8> = Vec::new();
    let mut i: usize = 0;
    while i < 12
        invariant
            i <= 12,
            iv@.len() >= 12,
            number@ == be64(seq),
            number@.len() == 8,
            out@.len() == i,
            forall|k: int| 0 <= k < i ==> out@[k] == record_nonce(iv@, seq)[k],
        decreases 12 - i,
    {
        if i < 4 {
            out.push(iv[i]);
        } else {
            out.push(iv[i] ^ number[i - 4]);
        }
        i = i + 1;
    }
    assert(out@ =~= record_nonce(iv@, seq));
    out
}

proof fn lemma_xor(x: u8, p: u8, q: u8)
    requires
        x ^ p == x ^ q,
    ensures
        p == q,
{
    assert(x ^ p == x ^ q ==> p == q) by (bit_vector);
}

/// No two records of one direction are given the same octets beside their payload.
pub proof fn law_record_nonces_differ(iv: Seq<u8>, a: u64, b: u64)
    requires
        iv.len() >= 12,
        a != b,
    ensures
        record_nonce(iv, a) != record_nonce(iv, b),
{
    if record_nonce(iv, a) == record_nonce(iv, b) {
        law_be64_roundtrip(a);
        law_be64_roundtrip(b);
        assert forall|i: int| 0 <= i < 8 implies be64(a)[i] == be64(b)[i] by {
            assert(record_nonce(iv, a)[i + 4] == record_nonce(iv, b)[i + 4]);
            lemma_xor(iv[i + 4], be64(a)[i], be64(b)[i]);
        }
        assert(be64(a) =~= be64(b));
    }
}

/// What the cipher vouches for beside the payload.
pub open spec fn record_aad_of(record_len: nat) -> Seq<u8> {
    seq![CONTENT_TYPE_APPLICATION_DATA] + be16(TLS_VERSION_1_2) + be16(cut16(record_len))
}

/// Tells what the cipher vouches for beside the payload.
pub fn record_aad(record_len: usize) -> (r: Vec<u8>)
    ensures
        r@ == record_aad_of(record_len as nat),
{
    let mut out: Vec<u8> = Vec::new();
    out.push(CONTENT_TYPE_APPLICATION_DATA);
    push_be16(&mut out, TLS_VERSION_1_2);
    push_cut16(&mut out, record_len);
    assert(out@ =~= record_aad_of(record_len as nat));
    out
}

proof fn lemma_cut_sum(n: nat)
    ensures
        cut16(n % 0x1_0000 + 17) == cut16(n + 17),
{
    assert((n % 0x1_0000 + 17) % 0x1_0000 == (n + 17) % 0x1_0000);
}

/// What goes into the cipher for one record, and what comes in from the other side.
#[derive(Debug, Clone)]
pub struct CipherInput {
    pub key: Vec<u8>,
    pub nonce: Vec<u8>,
    pub text: Vec<u8>,
    pub aad: Vec<u8>,
}

#[verifier::ext_equal]
pub struct CipherView {
    pub key: Seq<u8>,
    pub nonce: Seq<u8>,
    pub text: Seq<u8>,
    pub aad: Seq<u8>,
}

impl View for CipherInput {
    type V = CipherView;

    open spec fn view(&self) -> CipherView {
        CipherView { key: self.key@, nonce: self.nonce@, text: self.text@, aad: self.aad@ }
    }
}

/// What a side enciphers for a payload.
pub open spec fn seal_input(keys: KeysView, is_client: bool, plaintext: Seq<u8>, content_type: u8, seq: u64) ->
    CipherView {
    CipherView {
        key: if is_client {
            keys.client_write_key
        } else {
            keys.server_write_key
        },
        nonce: record_nonce(
            if is_client {
                keys.client_write_iv
            } else {
                keys.server_write_iv
            },
            seq,
        ),
        text: plaintext.push(content_type),
        aad: record_aad_of(plaintext.len() + 17),
    }
}

/// What a side deciphers for a payload that came in.
pub open spec fn open_input(keys: KeysView, is_client: bool, ciphertext: Seq<u8>, seq: u64) -> CipherView {
    CipherView {
        key: if is_client {
            keys.server_write_key
        } else {
            keys.client_write_key
        },
        nonce: record_nonce(
            if is_client {
                keys.server_write_iv
            } else {
                keys.client_write_iv
            },
            seq,
        ),
        text: ciphertext,
        aad: record_aad_of(ciphertext.len()),
    }
}

/// Whether keys can be used: what they are combined with is long enough.
pub open spec fn usable_keys(k: KeysView) -> bool {
    k.client_write_iv.len() >= 12 && k.server_write_iv.len() >= 12
}

/// Prepares a payload for the cipher; fails where there are no keys.
pub fn prepare_encryption(
    keys: &Option<TlsKeys>,
    is_client: bool,
    plaintext: &[u8],
    content_type: u8,
    seq: u64,
) -> (r: Result<CipherInput, TlsError>)
    requires
        keys matches Some(k) ==> usable_keys(k@),
    ensures
        match r {
            Ok(c) => keys matches Some(k) && c@ == seal_input(
                k@,
                is_client,
                plaintext@,
                content_type,
                seq,
            ),
            Err(e) => keys is None && e == TlsError::CipherError(CipherFault::NoKeys),
        },
{
    match keys {
        None => Err(TlsError::CipherError(CipherFault::NoKeys)),
        Some(k) => {
            let (key, iv) = if is_client {
                (k.client_write_key.as_slice(), k.client_write_iv.as_slice())
            } else {
                (k.server_write_key.as_slice(), k.server_write_iv.as_slice())
            };
            let mut text = vstd::slice::slice_to_vec(plaintext);
            text.push(content_type);
            proof {
                lemma_cut_sum(plaintext@.len());
            }
            let aad = record_aad(plaintext.len() % 0x1_0000 + 17);
            Ok(
                CipherInput {
                    key: vstd::slice::slice_to_vec(key),
                    nonce: compute_record_nonce(iv, seq),
                    text,
                    aad,
                },
            )
        },
    }
}

/// Prepares a payload that came in for the cipher; fails where it is too short or there are no keys.
pub fn prepare_decryption(keys: &Option<TlsKeys>, is_client: bool, ciphertext: &[u8], seq: u64) -> (r: Result<
    CipherInput,
    TlsError,
>)
    requires
        keys matches Some(k) ==> usable_keys(k@),
    ensures
        match r {
            Ok(c) => ciphertext@.len() >= 16 && (keys matches Some(k) && c@ == open_input(
                k@,
                is_client,
                ciphertext@,
                seq,
            )),
            Err(e) => e == TlsError::CipherError(
                if ciphertext@.len() < 16 {
                    CipherFault::CiphertextTooShort
                } else {
                    CipherFault::NoKeys
                },
            ) && (ciphertext@.len() < 16 || keys is None),
        },
{
    if ciphertext.len() < 16 {
        return Err(TlsError::CipherError(CipherFault::CiphertextTooShort));
    }
    match keys {
        None => Err(TlsError::CipherError(CipherFault::NoKeys)),
        Some(k) => {
            let (key, iv) = if is_client {
                (k.server_write_key.as_slice(), k.server_write_iv.as_slice())
            } else {
                (k.client_write_key.as_slice(), k.client_write_iv.as_slice())
            };
            Ok(
                CipherInput {
                    key: vstd::slice::slice_to_vec(key),
                    nonce: compute_record_nonce(iv, seq),
                    text: vstd::slice::slice_to_vec(ciphertext),
                    aad: record_aad(ciphertext.len()),
                },
            )
        },
    }
}

/// Payload and type of a record that was deciphered; `opened` is what the cipher made of it.
pub open spec fn opened_record(opened: Option<Seq<u8>>) -> Result<(Seq<u8>, u8), TlsError> {
    match opened {
        None => Err(TlsError::CipherError(CipherFault::Open)),
        Some(text) => if text.len() == 0 {
            Err(TlsError::CipherError(CipherFault::PlaintextEmpty))
        } else {
            Ok((text.drop_last(), text.last()))
        },
    }
}

/// Parts what the cipher made of a record into payload and type; `opened` is `None` where the cipher refused
/// it.
pub fn finish_decryption(opened: Option<Vec<u8>>) -> (r: Result<(Vec<u8>, u8), TlsError>)
    ensures
        ({
            let given = match opened {
                Some(o) => Some(o@),
                None => None,
            };
            match r {
                Ok((p, t)) => opened_record(given) == Ok::<(Seq<u8>, u8), TlsError>((p@, t)),
                Err(e) => opened_record(given) == Err::<(Seq<u8>, u8), TlsError>(e),
            }
        }),
{
    match opened {
        None => Err(TlsError::CipherError(CipherFault::Open)),
        Some(o) => {
            let mut text = o;
            match text.pop() {
                Some(t) => {
                    assert(text@ =~= o@.drop_last());
                    Ok((text, t))
                },
                None => Err(TlsError::CipherError(CipherFault::PlaintextEmpty)),
            }
        },
    }
}

/// What one side enciphers, the other deciphers under the same key, with the same octets beside it: where the
/// cipher gives back what it was given and adds sixteen octets, the payload and its type come out.
pub proof fn law_record_is_opened(
    keys: KeysView,
    is_client: bool,
    plaintext: Seq<u8>,
    content_type: u8,
    seq: u64,
    ciphertext: Seq<u8>,
)
    requires
        ciphertext.len() == plaintext.len() + 17,
    ensures
        ({
            let sent = seal_input(keys, is_client, plaintext, content_type, seq);
            let got = open_input(keys, !is_client, ciphertext, seq);
            &&& got.key == sent.key
            &&& got.nonce == sent.nonce
            &&& got.aad == sent.aad
            &&& opened_record(Some(sent.text)) == Ok::<(Seq<u8>, u8), TlsError>((plaintext, content_type))
        }),
{
    assert(plaintext.push(content_type).drop_last() =~= plaintext);
}

/// The first octets of a protected payload.
pub open spec fn magic() -> Seq<u8> {
    seq![83u8, 84, 76, 83, 82, 69, 67, 49]
}

pub const SECURE_RECORD_VERSION: u8 = 1;

pub const SECURE_RECORD_FLAG_COMPRESSED: u8 = 1;

/// The number of a coding.
pub open spec fn coding_id(a: CompressionAlgorithm) -> u8 {
    match a {
        CompressionAlgorithm::Identity => 0,
        CompressionAlgorithm::Gzip => 1,
        CompressionAlgorithm::Deflate => 2,
        CompressionAlgorithm::Brotli => 3,
        CompressionAlgorithm::Zstd => 4,
    }
}

pub open spec fn coding_of_id(id: u8) -> Option<CompressionAlgorithm> {
    if id == 0 {
        Some(CompressionAlgorithm::Identity)
    } else if id == 1 {
        Some(CompressionAlgorithm::Gzip)
    } else if id == 2 {
        Some(CompressionAlgorithm::Deflate)
    } else if id == 3 {
        Some(CompressionAlgorithm::Brotli)
    } else if id == 4 {
        Some(CompressionAlgorithm::Zstd)
    } else {
        None
    }
}

pub fn compression_algorithm_to_id(algorithm: CompressionAlgorithm) -> (r: u8)
    ensures
        r == coding_id(algorithm),
{
    match algorithm {
        CompressionAlgorithm::Identity => 0,
        CompressionAlgorithm::Gzip => 1,
        CompressionAlgorithm::Deflate => 2,
        CompressionAlgorithm::Brotli => 3,
        CompressionAlgorithm::Zstd => 4,
    }
}

pub fn compression_algorithm_from_id(id: u8) -> (r: Result<CompressionAlgorithm, TlsError>)
    ensures
        r == (match coding_of_id(id) {
            Some(a) => Ok::<CompressionAlgorithm, TlsError>(a),
            None => Err(TlsError::DecodeError(DecodeFault::UnknownCompression(id))),
        }),
{
    if id == 0 {
        Ok(CompressionAlgorithm::Identity)
    } else if id == 1 {
        Ok(CompressionAlgorithm::Gzip)
    } else if id == 2 {
        Ok(CompressionAlgorithm::Deflate)
    } else if id == 3 {
        Ok(CompressionAlgorithm::Brotli)
    } else if id == 4 {
        Ok(CompressionAlgorithm::Zstd)
    } else {
        Err(TlsError::DecodeError(DecodeFault::UnknownCompression(id)))
    }
}

/// The coding for a payload of this length.
pub open spec fn preferred_coding(cfg: TlsRecordCompressionCfg, len: nat) -> CompressionAlgorithm {
    if !cfg.enabled || len < cfg.min_size {
        CompressionAlgorithm::Identity
    } else {
        usable(cfg.preferred_algorithm)
    }
}

/// The coding in which a payload is sent: that of the settings, else the one agreed on.
pub open spec fn record_coding(cfg: TlsRecordCompressionCfg, agreed: CompressionAlgorithm, len: nat) ->
    CompressionAlgorithm {
    let p = preferred_coding(cfg, len);
    if p == CompressionAlgorithm::Identity {
        usable(agreed)
    } else {
        p
    }
}

/// Chooses the coding for a payload of this length after the settings.
pub fn choose_record_algorithm(cfg: &TlsRecordCompressionCfg, payload_len: usize) -> (r:
    CompressionAlgorithm)
    ensures
        r == preferred_coding(*cfg, payload_len as nat),
{
    if !cfg.enabled || payload_len < cfg.min_size {
        return CompressionAlgorithm::Identity;
    }
    if cfg.preferred_algorithm.is_implemented() {
        cfg.preferred_algorithm
    } else {
        CompressionAlgorithm::Identity
    }
}

/// Tells the coding in which a payload of this length is sent.
pub fn record_algorithm(cfg: &TlsRecordCompressionCfg, agreed: CompressionAlgorithm, payload_len: usize) -> (r:
    CompressionAlgorithm)
    ensures
        r == record_coding(*cfg, agreed, payload_len as nat),
{
    let preferred = choose_record_algorithm(cfg, payload_len);
    if preferred != CompressionAlgorithm::Identity {
        preferred
    } else if agreed.is_implemented() {
        agreed
    } else {
        CompressionAlgorithm::Identity
    }
}

/// How many octets are drawn for a record.
pub open spec fn record_nonce_len(wished: usize) -> nat {
    if wished < 8 {
        8
    } else if wished > 64 {
        64
    } else {
        wished as nat
    }
}

/// Tells how many octets are to be drawn for a record.
pub fn secure_nonce_len(cfg: &TlsRecordSecurityCfg) -> (r: usize)
    ensures
        r == record_nonce_len(cfg.nonce_len),
{
    if cfg.nonce_len < 8 {
        8
    } else if cfg.nonce_len > 64 {
        64
    } else {
        cfg.nonce_len
    }
}

/// The key under which the records of one direction are vouched for.
pub open spec fn base_key(keys: KeysView, is_client: bool, outbound: bool) -> Seq<u8> {
    if outbound == is_client {
        keys.client_write_key
    } else {
        keys.server_write_key
    }
}

/// What one side sends is vouched for under the key with which the other receives.
pub proof fn law_record_keys_agree(keys: KeysView, is_client: bool)
    ensures
        base_key(keys, is_client, true) == base_key(keys, !is_client, false),
{
}

/// The key of the `seq`th record.
pub open spec fn integrity_key(context: Seq<char>, seq: u64, base: Seq<u8>) -> Seq<u8> {
    sha256_of(encode_utf8(context) + be64(seq) + base)
}

/// The length that four octets can tell.
pub open spec fn cut32(n: nat) -> u32 {
    (n % 0x1_0000_0000) as u32
}

/// What vouches for a payload.
#[verifier::opaque]
pub open spec fn record_digest(
    key: Seq<u8>,
    content_type: u8,
    algorithm: CompressionAlgorithm,
    flags: u8,
    nonce: Seq<u8>,
    raw_len: nat,
    wire: Seq<u8>,
) -> Seq<u8> {
    sha256_of(record_material(key, content_type, algorithm, flags, nonce, raw_len, wire))
}

/// What vouches for a payload is made over this.
pub open spec fn record_material(
    key: Seq<u8>,
    content_type: u8,
    algorithm: CompressionAlgorithm,
    flags: u8,
    nonce: Seq<u8>,
    raw_len: nat,
    wire: Seq<u8>,
) -> Seq<u8> {
    key + magic() + seq![SECURE_RECORD_VERSION, content_type, coding_id(algorithm), flags] + be32(cut32(raw_len)) + be32(
        cut32(wire.len()),
    ) + nonce + wire
}

pub fn derive_record_integrity_key(
    cfg: &TlsRecordSecurityCfg,
    keys: &Option<TlsKeys>,
    is_client: bool,
    seq: u64,
    outbound: bool,
) -> (r: Result<Vec<u8>, TlsError>)
    ensures
        match r {
            Ok(k) => keys matches Some(x) && k@ == integrity_key(
                cfg.context@,
                seq,
                base_key(x@, is_client, outbound),
            ),
            Err(e) => keys is None && e == TlsError::NoIntegrityKeys,
        },
{
    match keys {
        None => Err(TlsError::NoIntegrityKeys),
        Some(k) => {
            let base = if outbound == is_client {
                k.client_write_key.as_slice()
            } else {
                k.server_write_key.as_slice()
            };
            let mut material = vstd::slice::slice_to_vec(cfg.context.as_str().as_bytes());
            push_be64(&mut material, seq);
            push_bytes(&mut material, base);
            Ok(sha256(material.as_slice()))
        },
    }
}

fn push_magic(out: &mut Vec<u8>)
    ensures
        final(out)@ == old(out)@ + magic(),
{
    out.push(83);
    out.push(84);
    out.push(76);
    out.push(83);
    out.push(82);
    out.push(69);
    out.push(67);
    out.push(49);
    assert(out@ =~= old(out)@ + magic());
}

pub fn compute_secure_record_digest(
    key: &[u8],
    content_type: u8,
    algorithm: CompressionAlgorithm,
    flags: u8,
    nonce: &[u8],
    raw_len: usize,
    wire: &[u8],
) -> (r: Vec<u8>)
    ensures
        r@ == record_digest(key@, content_type, algorithm, flags, nonce@, raw_len as nat, wire@),
        r@.len() == 32,
{
    proof {
        reveal(record_digest);
    }
    let mut material = vstd::slice::slice_to_vec(key);
    push_magic(&mut material);
    material.push(SECURE_RECORD_VERSION);
    material.push(content_type);
    material.push(compression_algorithm_to_id(algorithm));
    material.push(flags);
    push_be32(&mut material, (raw_len as u64 % 0x1_0000_0000) as u32);
    push_be32(&mut material, (wire.len() as u64 % 0x1_0000_0000) as u32);
    push_bytes(&mut material, nonce);
    push_bytes(&mut material, wire);
    assert(material@ =~= key@ + magic() + seq![
        SECURE_RECORD_VERSION,
        content_type,
        coding_id(algorithm),
        flags,
    ] + be32(cut32(raw_len as nat)) + be32(cut32(wire@.len())) + nonce@ + wire@);
    sha256(material.as_slice())
}

/// The coding and the form in which a payload is sent; `coded` is what the codec made of it.
pub open spec fn record_form(
    cfg: TlsRecordCompressionCfg,
    agreed: CompressionAlgorithm,
    plaintext: Seq<u8>,
    coded: Option<Seq<u8>>,
) -> Option<(CompressionAlgorithm, Seq<u8>)> {
    let a = record_coding(cfg, agreed, plaintext.len());
    if a == CompressionAlgorithm::Identity {
        Some((a, plaintext))
    } else {
        match coded {
            Some(c) => Some((a, c)),
            None => if cfg.fallback_to_identity_on_error {
                Some((CompressionAlgorithm::Identity, plaintext))
            } else {
                None
            },
        }
    }
}

/// The flags of a coding.
pub open spec fn coding_flags(a: CompressionAlgorithm) -> u8 {
    if a == CompressionAlgorithm::Identity {
        0
    } else {
        SECURE_RECORD_FLAG_COMPRESSED
    }
}

/// A protected payload, in the given coding and form.
pub open spec fn secured(
    key: Seq<u8>,
    content_type: u8,
    a: CompressionAlgorithm,
    nonce: Seq<u8>,
    raw_len: nat,
    wire: Seq<u8>,
) -> Seq<u8> {
    magic() + seq![
        SECURE_RECORD_VERSION,
        content_type,
        coding_id(a),
        coding_flags(a),
        (nonce.len() % 0x100) as u8,
    ] + be32(cut32(raw_len)) + be32(cut32(wire.len())) + nonce + record_digest(
        key,
        content_type,
        a,
        coding_flags(a),
        nonce,
        raw_len,
        wire,
    ) + wire
}

/// Protects a payload. `coded` is what the codec made of it, `None` where the codec failed; it is not looked
/// at under the identity. `nonce` is as long as the settings ask for.
pub fn build_secure_record_payload(
    security: &TlsRecordSecurityCfg,
    compression: &TlsRecordCompressionCfg,
    agreed: CompressionAlgorithm,
    keys: &Option<TlsKeys>,
    is_client: bool,
    plaintext: &[u8],
    content_type: u8,
    seq: u64,
    outbound: bool,
    coded: Option<&[u8]>,
    nonce: &[u8],
) -> (r: Result<Vec<u8>, TlsError>)
    requires
        nonce@.len() == record_nonce_len(security.nonce_len),
    ensures
        match record_form(*compression, agreed, plaintext@, opt_bytes(coded)) {
            None => r == Err::<Vec<u8>, TlsError>(TlsError::CompressionError(CodecFault::Compress)),
            Some((a, wire)) => match keys {
                None => r == Err::<Vec<u8>, TlsError>(TlsError::NoIntegrityKeys),
                Some(k) => r matches Ok(p) && p@ == secured(
                    integrity_key(security.context@, seq, base_key(k@, is_client, outbound)),
                    content_type,
                    a,
                    nonce@,
                    plaintext@.len(),
                    wire,
                ),
            },
        },
{
    let chosen = record_algorithm(compression, agreed, plaintext.len());
    let (algorithm, wire) = if chosen == CompressionAlgorithm::Identity {
        (chosen, plaintext)
    } else {
        match coded {
            Some(c) => (chosen, c),
            None => {
                if compression.fallback_to_identity_on_error {
                    (CompressionAlgorithm::Identity, plaintext)
                } else {
                    return Err(TlsError::CompressionError(CodecFault::Compress));
                }
            },
        }
    };
    let flags: u8 = if algorithm == CompressionAlgorithm::Identity {
        0
    } else {
        SECURE_RECORD_FLAG_COMPRESSED
    };
    let key = match derive_record_integrity_key(security, keys, is_client, seq, outbound) {
        Ok(k) => k,
        Err(e) => {
            return Err(e);
        },
    };
    let digest = compute_secure_record_digest(
        key.as_slice(),
        content_type,
        algorithm,
        flags,
        nonce,
        plaintext.len(),
        wire,
    );
    let mut out: Vec<u8> = Vec::new();
    push_magic(&mut out);
    out.push(SECURE_RECORD_VERSION);
    out.push(content_type);
    out.push(compression_algorithm_to_id(algorithm));
    out.push(flags);
    out.push((nonce.len() % 0x100) as u8);
    push_be32(&mut out, (plaintext.len() as u64 % 0x1_0000_0000) as u32);
    push_be32(&mut out, (wire.len() as u64 % 0x1_0000_0000) as u32);
    push_bytes(&mut out, nonce);
    push_bytes(&mut out, digest.as_slice());
    push_bytes(&mut out, wire);
    assert(out@ =~= secured(key@, content_type, algorithm, nonce@, plaintext@.len(), wire@));
    Ok(out)
}

/// A protected payload that was read: its type, its coding, how long it is in full, and its form.
#[derive(Debug, Clone)]
pub struct SecureRecord {
    pub content_type: u8,
    pub algorithm: CompressionAlgorithm,
    pub compressed: bool,
    pub raw_len: u32,
    pub wire: Vec<u8>,
}

#[verifier::ext_equal]
pub struct SecureRecordView {
    pub content_type: u8,
    pub algorithm: CompressionAlgorithm,
    pub compressed: bool,
    pub raw_len: u32,
    pub wire: Seq<u8>,
}

impl View for SecureRecord {
    type V = SecureRecordView;

    open spec fn view(&self) -> SecureRecordView {
        SecureRecordView {
            content_type: self.content_type,
            algorithm: self.algorithm,
            compressed: self.compressed,
            raw_len: self.raw_len,
            wire: self.wire@,
        }
    }
}

/// Whether a payload is protected: it is long enough and begins as one does.
pub open spec fn is_secured(payload: Seq<u8>) -> bool {
    payload.len() >= 20 && payload.subrange(0, 8) == magic()
}

/// The length of a protected payload in full, as it says.
pub open spec fn said_raw_len(payload: Seq<u8>) -> nat {
    from_be32(payload[13], payload[14], payload[15], payload[16])
}

/// The length of the form of a protected payload, as it says.
pub open spec fn said_wire_len(payload: Seq<u8>) -> nat {
    from_be32(payload[17], payload[18], payload[19], payload[20])
}

/// What is wrong with the layout of a protected payload.
pub open spec fn layout_fault(payload: Seq<u8>) -> Option<TlsError> {
    let n = payload[12] as int;
    if payload[8] != SECURE_RECORD_VERSION {
        Some(TlsError::DecodeError(DecodeFault::RecordVersion(payload[8])))
    } else if coding_of_id(payload[10]) is None {
        Some(TlsError::DecodeError(DecodeFault::UnknownCompression(payload[10])))
    } else if payload.len() < 20 + n + 32 {
        Some(TlsError::DecodeError(DecodeFault::RecordTooShort))
    } else if 21 + n + 32 + said_wire_len(payload) != payload.len() {
        Some(TlsError::DecodeError(DecodeFault::RecordSize))
    } else {
        None
    }
}

/// The octets that were drawn for a protected payload.
pub open spec fn said_nonce(payload: Seq<u8>) -> Seq<u8> {
    payload.subrange(21, 21 + payload[12] as int)
}

/// What a protected payload says vouches for it.
pub open spec fn said_digest(payload: Seq<u8>) -> Seq<u8> {
    payload.subrange(21 + payload[12] as int, 53 + payload[12] as int)
}

/// The form of a protected payload.
pub open spec fn said_wire(payload: Seq<u8>) -> Seq<u8> {
    payload.subrange(53 + payload[12] as int, payload.len() as int)
}

/// What should vouch for a protected payload.
pub open spec fn due_digest(payload: Seq<u8>, key: Seq<u8>) -> Seq<u8> {
    record_digest(
        key,
        payload[9],
        coding_of_id(payload[10])->0,
        payload[11],
        said_nonce(payload),
        said_raw_len(payload),
        said_wire(payload),
    )
}

/// The protected payload in a payload; `None` where it is not protected.
pub open spec fn secure_record_in(payload: Seq<u8>, key: Option<Seq<u8>>, strict: bool) -> Result<
    Option<SecureRecordView>,
    TlsError,
> {
    if !is_secured(payload) {
        Ok(None)
    } else if layout_fault(payload) is Some {
        Err(layout_fault(payload)->0)
    } else if key is None {
        Err(TlsError::NoIntegrityKeys)
    } else if strict && said_digest(payload) != due_digest(payload, key->0) {
        Err(TlsError::IntegrityError)
    } else {
        Ok(
            Some(
                SecureRecordView {
                    content_type: payload[9],
                    algorithm: coding_of_id(payload[10])->0,
                    compressed: payload[11] & SECURE_RECORD_FLAG_COMPRESSED != 0,
                    raw_len: said_raw_len(payload) as u32,
                    wire: said_wire(payload),
                },
            ),
        )
    }
}

/// The key of the `seq`th record of a direction, where there are keys.
pub open spec fn record_key(
    security: TlsRecordSecurityCfg,
    keys: Option<KeysView>,
    is_client: bool,
    seq: u64,
    outbound: bool,
) -> Option<Seq<u8>> {
    match keys {
        Some(k) => Some(integrity_key(security.context@, seq, base_key(k, is_client, outbound))),
        None => None,
    }
}

fn begins_secured(payload: &[u8]) -> (r: bool)
    ensures
        r == is_secured(payload@),
{
    if payload.len() < 20 {
        return false;
    }
    let mut m: Vec<u8> = Vec::new();
    push_magic(&mut m);
    assert(m@ =~= magic());
    constant_time_eq(slice_subrange(payload, 0, 8), m.as_slice())
}

/// Finds what is wrong with the layout of a protected payload; its coding where nothing is.
fn read_layout(payload: &[u8]) -> (r: Result<CompressionAlgorithm, TlsError>)
    requires
        is_secured(payload@),
    ensures
        match r {
            Ok(a) => layout_fault(payload@) is None && coding_of_id(payload@[10]) == Some(a),
            Err(e) => layout_fault(payload@) == Some(e),
        },
{
    if payload[8] != SECURE_RECORD_VERSION {
        return Err(TlsError::DecodeError(DecodeFault::RecordVersion(payload[8])));
    }
    let algorithm = match compression_algorithm_from_id(payload[10]) {
        Ok(a) => a,
        Err(e) => {
            return Err(e);
        },
    };
    let n = payload[12] as usize;
    if payload.len() < 20 + n + 32 {
        return Err(TlsError::DecodeError(DecodeFault::RecordTooShort));
    }
    let wire_len = read_be32(payload, 17);
    if payload.len() < 21 + n + 32 || (payload.len() - (21 + n + 32)) as u64 != wire_len as u64 {
        return Err(TlsError::DecodeError(DecodeFault::RecordSize));
    }
    Ok(algorithm)
}

/// Reads a protected payload up to its form; `None` where it is not protected.
pub fn open_secure_record(
    security: &TlsRecordSecurityCfg,
    keys: &Option<TlsKeys>,
    is_client: bool,
    payload: &[u8],
    seq: u64,
    outbound: bool,
) -> (r: Result<Option<SecureRecord>, TlsError>)
    ensures
        ({
            let found = secure_record_in(
                payload@,
                record_key(*security, opt_keys(*keys), is_client, seq, outbound),
                security.enable_integrity,
            );
            match r {
                Ok(Some(o)) => found == Ok::<Option<SecureRecordView>, TlsError>(Some(o@)),
                Ok(None) => found == Ok::<Option<SecureRecordView>, TlsError>(None),
                Err(e) => found == Err::<Option<SecureRecordView>, TlsError>(e),
            }
        }),
{
    if !begins_secured(payload) {
        return Ok(None);
    }
    let algorithm = match read_layout(payload) {
        Ok(a) => a,
        Err(e) => {
            return Err(e);
        },
    };
    let flags = payload[11];
    let n = payload[12] as usize;
    let raw_len = read_be32(payload, 13);
    let nonce = slice_subrange(payload, 21, 21 + n);
    let said = slice_subrange(payload, 21 + n, 53 + n);
    let wire = slice_subrange(payload, 53 + n, payload.len());
    let key = match derive_record_integrity_key(security, keys, is_client, seq, outbound) {
        Ok(k) => k,
        Err(e) => {
            return Err(e);
        },
    };
    let due = compute_secure_record_digest(
        key.as_slice(),
        payload[9],
        algorithm,
        flags,
        nonce,
        raw_len as usize,
        wire,
    );
    if security.enable_integrity && !constant_time_eq(said, due.as_slice()) {
        return Err(TlsError::IntegrityError);
    }
    Ok(
        Some(
            SecureRecord {
                content_type: payload[9],
                algorithm,
                compressed: flags & SECURE_RECORD_FLAG_COMPRESSED != 0,
                raw_len,
                wire: vstd::slice::slice_to_vec(wire),
            },
        ),
    )
}

/// Payload and type of a protected payload; `plain` is what the codec made of a form that is compressed.
pub open spec fn uncovered(r: SecureRecordView, plain: Option<Seq<u8>>) -> Result<(Seq<u8>, u8), TlsError> {
    let decoded = if r.compressed {
        plain
    } else {
        Some(r.wire)
    };
    match decoded {
        None => Err(TlsError::CompressionError(CodecFault::Decompress)),
        Some(d) => if d.len() != r.raw_len {
            Err(TlsError::DecodeError(DecodeFault::RecordRawSize(r.raw_len, d.len() as usize)))
        } else {
            Ok((d, r.content_type))
        },
    }
}

/// Payload and type in what came in, protected or not.
pub open spec fn record_content(
    payload: Seq<u8>,
    key: Option<Seq<u8>>,
    strict: bool,
    fallback: u8,
    plain: Option<Seq<u8>>,
) -> Result<(Seq<u8>, u8), TlsError> {
    match secure_record_in(payload, key, strict) {
        Err(e) => Err(e),
        Ok(None) => Ok((payload, fallback)),
        Ok(Some(r)) => uncovered(r, plain),
    }
}

/// Reads payload and type of what came in, protected or not. `plain` is what the codec made of a compressed
/// form, `None` where the codec failed; it is not looked at otherwise.
pub fn parse_secure_record_payload(
    security: &TlsRecordSecurityCfg,
    keys: &Option<TlsKeys>,
    is_client: bool,
    payload: &[u8],
    seq: u64,
    outbound: bool,
    fallback_content_type: u8,
    plain: Option<&[u8]>,
) -> (r: Result<(Vec<u8>, u8), TlsError>)
    ensures
        ({
            let found = record_content(
                payload@,
                record_key(*security, opt_keys(*keys), is_client, seq, outbound),
                security.enable_integrity,
                fallback_content_type,
                opt_bytes(plain),
            );
            match r {
                Ok((p, t)) => found == Ok::<(Seq<u8>, u8), TlsError>((p@, t)),
                Err(e) => found == Err::<(Seq<u8>, u8), TlsError>(e),
            }
        }),
{
    match open_secure_record(security, keys, is_client, payload, seq, outbound) {
        Err(e) => Err(e),
        Ok(None) => Ok((vstd::slice::slice_to_vec(payload), fallback_content_type)),
        Ok(Some(o)) => {
            let decoded = if o.compressed {
                match plain {
                    Some(p) => p,
                    None => {
                        return Err(TlsError::CompressionError(CodecFault::Decompress));
                    },
                }
            } else {
                o.wire.as_slice()
            };
            if decoded.len() as u64 != o.raw_len as u64 {
                return Err(TlsError::DecodeError(DecodeFault::RecordRawSize(o.raw_len, decoded.len())));
            }
            Ok((vstd::slice::slice_to_vec(decoded), o.content_type))
        },
    }
}

proof fn lemma_secured_parts(
    key: Seq<u8>,
    content_type: u8,
    a: CompressionAlgorithm,
    nonce: Seq<u8>,
    raw_len: nat,
    wire: Seq<u8>,
)
    requires
        nonce.len() < 0x100,
        raw_len < 0x1_0000_0000,
        wire.len() < 0x1_0000_0000,
    ensures
        ({
            let p = secured(key, content_type, a, nonce, raw_len, wire);
            &&& p.len() == 53 + nonce.len() + wire.len()
            &&& is_secured(p)
            &&& p[8] == SECURE_RECORD_VERSION
            &&& p[9] == content_type
            &&& p[10] == coding_id(a)
            &&& p[11] == coding_flags(a)
            &&& p[12] == nonce.len()
            &&& said_raw_len(p) == raw_len
            &&& said_wire_len(p) == wire.len()
            &&& said_nonce(p) == nonce
            &&& said_wire(p) == wire
            &&& said_digest(p) == record_digest(
                key,
                content_type,
                a,
                coding_flags(a),
                nonce,
                raw_len,
                wire,
            )
        }),
{
    let p = secured(key, content_type, a, nonce, raw_len, wire);
    let head = seq![
        SECURE_RECORD_VERSION,
        content_type,
        coding_id(a),
        coding_flags(a),
        (nonce.len() % 0x100) as u8,
    ];
    let b = be32(cut32(raw_len));
    let c = be32(cut32(wire.len()));
    let d = record_digest(key, content_type, a, coding_flags(a), nonce, raw_len, wire);
    reveal(record_digest);
    lemma_sha256_len(
        key + magic() + seq![SECURE_RECORD_VERSION, content_type, coding_id(a), coding_flags(a)] + b + c
            + nonce + wire,
    );
    law_be32_roundtrip(cut32(raw_len));
    law_be32_roundtrip(cut32(wire.len()));
    assert(p == magic() + head + b + c + nonce + d + wire);
    assert(d.len() == 32 && b.len() == 4 && c.len() == 4 && magic().len() == 8);
    assert(p.subrange(0, 8) =~= magic());
    assert(p[8] == head[0] && p[9] == head[1] && p[10] == head[2] && p[11] == head[3] && p[12] == head[4]);
    assert(p[13] == b[0] && p[14] == b[1] && p[15] == b[2] && p[16] == b[3]);
    assert(p[17] == c[0] && p[18] == c[1] && p[19] == c[2] && p[20] == c[3]);
    assert(p.subrange(21, 21 + nonce.len() as int) =~= nonce);
    assert(p.subrange(21 + nonce.len() as int, 53 + nonce.len() as int) =~= d);
    assert(p.subrange(53 + nonce.len() as int, p.len() as int) =~= wire);
}

/// What is protected on one side comes out on the other, where both have the same keys and count records
/// alike, and the codec gives back what it was given. Lengths are told in four octets.
pub proof fn law_secure_record_roundtrip(
    security: TlsRecordSecurityCfg,
    keys: KeysView,
    is_client: bool,
    seq: u64,
    content_type: u8,
    a: CompressionAlgorithm,
    nonce: Seq<u8>,
    plaintext: Seq<u8>,
    wire: Seq<u8>,
    strict: bool,
    fallback: u8,
)
    requires
        nonce.len() < 0x100,
        plaintext.len() < 0x1_0000_0000,
        wire.len() < 0x1_0000_0000,
        a == CompressionAlgorithm::Identity ==> wire == plaintext,
    ensures
        record_content(
            secured(
                record_key(security, Some(keys), is_client, seq, true)->0,
                content_type,
                a,
                nonce,
                plaintext.len(),
                wire,
            ),
            record_key(security, Some(keys), !is_client, seq, false),
            strict,
            fallback,
            Some(plaintext),
        ) == Ok::<(Seq<u8>, u8), TlsError>((plaintext, content_type)),
{
    let key = record_key(security, Some(keys), is_client, seq, true)->0;
    lemma_secured_parts(key, content_type, a, nonce, plaintext.len(), wire);
    law_record_keys_agree(keys, is_client);
    assert(coding_of_id(coding_id(a)) == Some(a));
    assert(0u8 & SECURE_RECORD_FLAG_COMPRESSED == 0) by (bit_vector);
    assert(SECURE_RECORD_FLAG_COMPRESSED & SECURE_RECORD_FLAG_COMPRESSED != 0) by (bit_vector);
}

/// A protected payload that is not vouched for under the key at hand is refused, whatever it holds, unless
/// nobody asks.
pub proof fn law_unvouched_record_refused(payload: Seq<u8>, key: Seq<u8>, fallback: u8, plain: Option<Seq<u8>>)
    requires
        is_secured(payload),
        layout_fault(payload) is None,
        said_digest(payload) != due_digest(payload, key),
    ensures
        record_content(payload, Some(key), true, fallback, plain) == Err::<(Seq<u8>, u8), TlsError>(
            TlsError::IntegrityError,
        ),
{
}

/// A protected payload whose form was changed on the way is refused, where the change shows in the digest.
pub proof fn law_tampered_record_refused(
    key: Seq<u8>,
    content_type: u8,
    a: CompressionAlgorithm,
    nonce: Seq<u8>,
    raw_len: nat,
    wire: Seq<u8>,
    changed: Seq<u8>,
    fallback: u8,
    plain: Option<Seq<u8>>,
)
    requires
        nonce.len() < 0x100,
        raw_len < 0x1_0000_0000,
        wire.len() < 0x1_0000_0000,
        changed.len() == wire.len(),
        record_digest(key, content_type, a, coding_flags(a), nonce, raw_len, changed) != record_digest(
            key,
            content_type,
            a,
            coding_flags(a),
            nonce,
            raw_len,
            wire,
        ),
    ensures
        ({
            let sent = secured(key, content_type, a, nonce, raw_len, wire);
            let got = sent.take(53 + nonce.len() as int) + changed;
            record_content(got, Some(key), true, fallback, plain) == Err::<(Seq<u8>, u8), TlsError>(
                TlsError::IntegrityError,
            )
        }),
{
    let sent = secured(key, content_type, a, nonce, raw_len, wire);
    let n = nonce.len() as int;
    let got = sent.take(53 + n) + changed;
    lemma_secured_parts(key, content_type, a, nonce, raw_len, wire);
    assert(got.len() == sent.len());
    assert(got.subrange(0, 8) =~= sent.subrange(0, 8));
    assert(got.subrange(21, 21 + n) =~= sent.subrange(21, 21 + n));
    assert(got.subrange(21 + n, 53 + n) =~= sent.subrange(21 + n, 53 + n));
    assert(got.subrange(53 + n, got.len() as int) =~= changed);
    assert(coding_of_id(coding_id(a)) == Some(a));
}

/// What came in a record that may be an alert: the alert it is, else nothing.
pub open spec fn alert_in(content_type: u8, payload: Seq<u8>) -> Option<TlsError> {
    if content_type != CONTENT_TYPE_ALERT {
        None
    } else if payload.len() >= 2 {
        Some(TlsError::AlertReceived(payload[0], payload[1]))
    } else {
        Some(TlsError::AlertReceived(ALERT_LEVEL_FATAL, ALERT_HANDSHAKE_FAILURE))
    }
}

/// Tells an alert from other records.
pub fn read_alert(content_type: u8, payload: &[u8]) -> (r: Option<TlsError>)
    ensures
        r == alert_in(content_type, payload@),
{
    if content_type != CONTENT_TYPE_ALERT {
        None
    } else if payload.len() >= 2 {
        Some(TlsError::AlertReceived(payload[0], payload[1]))
    } else {
        Some(TlsError::AlertReceived(ALERT_LEVEL_FATAL, ALERT_HANDSHAKE_FAILURE))
    }
}

/// A payload is sent as it is, or in a coding as the codec made it. The coding is that of the settings where they have
/// one for a payload of this length, and else the one agreed on. Where the codec makes nothing, the payload is sent as
/// it is or not at all, as the settings say.
pub proof fn law_record_form(
    cfg: TlsRecordCompressionCfg,
    agreed: CompressionAlgorithm,
    plaintext: Seq<u8>,
    coded: Option<Seq<u8>>,
)
    ensures
        ({
            let set = cfg.enabled && plaintext.len() >= cfg.min_size && cfg.preferred_algorithm
                != CompressionAlgorithm::Identity;
            match record_form(cfg, agreed, plaintext, coded) {
                Some((a, wire)) => {
                    &&& a == CompressionAlgorithm::Identity ==> wire == plaintext
                    &&& a != CompressionAlgorithm::Identity ==> coded == Some(wire)
                    &&& set && coded is Some ==> a == cfg.preferred_algorithm
                    &&& !set && (coded is Some || agreed == CompressionAlgorithm::Identity) ==> a == agreed
                },
                None => coded is None && !cfg.fallback_to_identity_on_error && (set || agreed
                    != CompressionAlgorithm::Identity),
            }
        }),
{
}

/// A record of type 21 is an alert and tells its level and its reason; where it is too short to do so, it counts as the
/// end of the handshake. No other record is an alert.
pub proof fn law_alert_is_told(content_type: u8, payload: Seq<u8>)
    ensures
        content_type != 21 ==> alert_in(content_type, payload) is None,
        content_type == 21 && payload.len() >= 2 ==> alert_in(content_type, payload) == Some(
            TlsError::AlertReceived(payload[0], payload[1]),
        ),
        content_type == 21 && payload.len() < 2 ==> alert_in(content_type, payload) == Some(
            TlsError::AlertReceived(2, 40),
        ),
{
}

/// From 8 to 64 octets are drawn for a record, as many as is wished between these.
pub proof fn law_record_nonce_len(wished: usize)
    ensures
        8 <= record_nonce_len(wished) <= 64,
        8 <= wished <= 64 ==> record_nonce_len(wished) == wished,
        wished < 8 ==> record_nonce_len(wished) == 8,
        wished > 64 ==> record_nonce_len(wished) == 64,
{
}

/// What a protected payload carries comes out where it has the length that was told, through the codec where it is
/// compressed.
pub proof fn law_uncovered_payload(r: SecureRecordView, plain: Option<Seq<u8>>)
    ensures
        uncovered(r, plain) matches Ok((d, t)) ==> {
            &&& t == r.content_type
            &&& d.len() == r.raw_len
            &&& r.compressed ==> plain == Some(d)
            &&& !r.compressed ==> d == r.wire
        },
        uncovered(r, plain) is Err ==> (r.compressed && plain is None) || (r.compressed && plain is Some
            && plain->0.len() != r.raw_len) || (!r.compressed && r.wire.len() != r.raw_len),
{
}

/// What vouches for a payload binds it to its key, its type, its coding, its flags, its nonce and its length: what it is
/// made over differs wherever one of them does, for keys and nonces of one length.
pub proof fn law_record_digest_binds(
    k: Seq<u8>,
    l: Seq<u8>,
    heads: (u8, u8, u8, u8),
    a: CompressionAlgorithm,
    b: CompressionAlgorithm,
    n: Seq<u8>,
    m: Seq<u8>,
    r: u32,
    s: u32,
    p: Seq<u8>,
    q: Seq<u8>,
)
    requires
        k.len() == l.len(),
        n.len() == m.len(),
    ensures
        record_material(k, heads.0, a, heads.1, n, r as nat, p) == record_material(l, heads.2, b, heads.3, m, s as nat, q)
            ==> k == l && heads.0 == heads.2 && heads.1 == heads.3 && a == b && n == m && r == s && p == q,
        record_digest(k, heads.0, a, heads.1, n, r as nat, p) == sha256_of(
            record_material(k, heads.0, a, heads.1, n, r as nat, p),
        ),
{
    reveal(record_digest);
    if record_material(k, heads.0, a, heads.1, n, r as nat, p) == record_material(
        l,
        heads.2,
        b,
        heads.3,
        m,
        s as nat,
        q,
    ) {
        let g = magic();
        let x = seq![SECURE_RECORD_VERSION, heads.0, coding_id(a), heads.1];
        let y = seq![SECURE_RECORD_VERSION, heads.2, coding_id(b), heads.3];
        let (t, u) = (be32(r), be32(s));
        let (v, w) = (be32(cut32(p.len())), be32(cut32(q.len())));
        lemma_record_parts(k, g, x, t, v, n, p);
        lemma_record_parts(l, g, y, u, w, m, q);
        law_be32_roundtrip(r);
        law_be32_roundtrip(s);
        assert(t.len() == 4 && u.len() == 4 && v.len() == 4 && w.len() == 4);
        lemma_same_parts(k, l, g + (x + (t + (v + (n + p)))), g + (y + (u + (w + (m + q)))));
        lemma_same_parts(g, g, x + (t + (v + (n + p))), y + (u + (w + (m + q))));
        lemma_same_parts(x, y, t + (v + (n + p)), u + (w + (m + q)));
        assert(x[1] == y[1] && x[2] == y[2] && x[3] == y[3]);
        lemma_same_parts(t, u, v + (n + p), w + (m + q));
        lemma_same_parts(v, w, n + p, m + q);
        lemma_same_parts(n, m, p, q);
    }
}

proof fn lemma_record_parts(
    k: Seq<u8>,
    g: Seq<u8>,
    x: Seq<u8>,
    t: Seq<u8>,
    v: Seq<u8>,
    n: Seq<u8>,
    p: Seq<u8>,
)
    ensures
        k + g + x + t + v + n + p == k + (g + (x + (t + (v + (n + p))))),
{
    assert(k + g + x + t + v + n + p =~= k + g + x + t + (v + (n + p)));
    assert(k + g + x + t + (v + (n + p)) =~= k + g + (x + (t + (v + (n + p)))));
    assert(k + g + (x + (t + (v + (n + p)))) =~= k + (g + (x + (t + (v + (n + p))))));
}

/// The keys of records bind the number of the record and the key of the direction, under one context.
pub proof fn law_integrity_key_binds(context: Seq<char>, i: u64, j: u64, k: Seq<u8>, l: Seq<u8>)
    ensures
        integrity_key(context, i, k) == sha256_of(encode_utf8(context) + be64(i) + k),
        encode_utf8(context) + be64(i) + k == encode_utf8(context) + be64(j) + l ==> i == j && k == l,
{
    let c = encode_utf8(context);
    lemma_be64_differ(i, j);
    lemma_be64_differ(j, i);
    if c + be64(i) + k == c + be64(j) + l {
        assert(c + be64(i) + k =~= c + (be64(i) + k));
        assert(c + be64(j) + l =~= c + (be64(j) + l));
        lemma_same_parts(c, c, be64(i) + k, be64(j) + l);
        lemma_same_parts(be64(i), be64(j), k, l);
    }
}

/// Each side enciphers with its own key and deciphers with that of the other side, and vouches for its records with its
/// own key too.
pub proof fn law_each_side_has_its_key(k: KeysView, text: Seq<u8>, content_type: u8, seq: u64)
    ensures
        seal_input(k, true, text, content_type, seq).key == k.client_write_key,
        seal_input(k, false, text, content_type, seq).key == k.server_write_key,
        open_input(k, true, text, seq).key == k.server_write_key,
        open_input(k, false, text, seq).key == k.client_write_key,
        base_key(k, true, true) == k.client_write_key && base_key(k, false, false) == k.client_write_key,
        base_key(k, false, true) == k.server_write_key && base_key(k, true, false) == k.server_write_key,
        seal_input(k, true, text, content_type, seq).text == text.push(content_type),
        open_input(k, true, text, seq).text == text,
{
}

}
