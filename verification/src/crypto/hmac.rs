//! HMAC-SHA-256 and the key derivation built on it.
use vstd::prelude::*;

use crate::bytes::push_bytes;
use crate::crypto::sha256::{lemma_sha256_len, sha256, sha256_of};

verus! {

/// The key as a block of 64 octets: a longer key is replaced by its digest, a shorter one is
/// followed by zeros.
pub open spec fn key_block(key: Seq<u8>) -> Seq<u8> {
    let k = if key.len() > 64 {
        sha256_of(key)
    } else {
        key
    };
    Seq::new(
        64,
        |i: int|
            if i < k.len() {
                k[i]
            } else {
                0u8
            },
    )
}

/// Every octet of `s` combined with `pad` by exclusive or.
pub open spec fn masked(s: Seq<u8>, pad: u8) -> Seq<u8> {
    Seq::new(s.len(), |i: int| s[i] ^ pad)
}

/// The HMAC-SHA-256 code of `m` under `key`.
#[verifier::opaque]
pub open spec fn hmac_of(key: Seq<u8>, m: Seq<u8>) -> Seq<u8> {
    let k = key_block(key);
    sha256_of(masked(k, 0x5c) + sha256_of(masked(k, 0x36) + m))
}

fn make_key_block(key: &[u8]) -> (r: Vec<u8>)
    ensures
        r@ == key_block(key@),
{
    let mut block: Vec<u8> = if key.len() > 64 {
        sha256(key)
    } else {
        vstd::slice::slice_to_vec(key)
    };
    let ghost k = block@;
    while block.len() < 64
        invariant
            k.len() <= block@.len() <= 64,
            forall|i: int|
                0 <= i < block@.len() ==> block@[i] == (if i < k.len() {
                    k[i]
                } else {
                    0u8
                }),
        decreases 64 - block@.len(),
    {
        block.push(0);
    }
    assert(block@ =~= key_block(key@));
    block
}

fn mask(s: &[u8], pad: u8) -> (r: Vec<u8>)
    ensures
        r@ == masked(s@, pad),
{
    let mut out: Vec<u8> = Vec::new();
    let mut i: usize = 0;
    while i < s.len()
        invariant
            i <= s@.len(),
            out@.len() == i,
            forall|j: int| 0 <= j < i ==> out@[j] == s@[j] ^ pad,
        decreases s@.len() - i,
    {
        out.push(s[i] ^ pad);
        i = i + 1;
    }
    assert(out@ =~= masked(s@, pad));
    out
}

/// Computes the HMAC-SHA-256 code of `message` under `key`.
pub fn hmac_sha256(key: &[u8], message: &[u8]) -> (r: Vec<u8>)
    ensures
        r@ == hmac_of(key@, message@),
        r@.len() == 32,
{
    reveal(hmac_of);
    let block = make_key_block(key);
    let mut inner = mask(block.as_slice(), 0x36);
    push_bytes(&mut inner, message);
    let inner_digest = sha256(inner.as_slice());
    let mut outer = mask(block.as_slice(), 0x5c);
    push_bytes(&mut outer, inner_digest.as_slice());
    sha256(outer.as_slice())
}

/// A code is 32 octets long.
pub proof fn lemma_hmac_len(key: Seq<u8>, m: Seq<u8>)
    ensures
        hmac_of(key, m).len() == 32,
{
    reveal(hmac_of);
    let k = key_block(key);
    lemma_sha256_len(masked(k, 0x5c) + sha256_of(masked(k, 0x36) + m));
}

/// The pseudorandom key that HKDF extracts from `ikm` with `salt`.
pub open spec fn hkdf_extracted(salt: Seq<u8>, ikm: Seq<u8>) -> Seq<u8> {
    hmac_of(salt, ikm)
}

/// The block `n` of the HKDF output stream, counted from one; block zero is empty.
pub open spec fn hkdf_block(prk: Seq<u8>, info: Seq<u8>, n: int) -> Seq<u8>
    decreases n,
{
    if n <= 0 {
        seq![]
    } else {
        hmac_of(prk, hkdf_block(prk, info, n - 1) + info + seq![n as u8])
    }
}

/// The first `n` blocks of the HKDF output stream.
pub open spec fn hkdf_stream(prk: Seq<u8>, info: Seq<u8>, n: int) -> Seq<u8>
    decreases n,
{
    if n <= 0 {
        seq![]
    } else {
        hkdf_stream(prk, info, n - 1) + hkdf_block(prk, info, n)
    }
}

/// The `length` octets that HKDF expands from `prk` and `info`.
pub open spec fn hkdf_expanded(prk: Seq<u8>, info: Seq<u8>, length: nat) -> Seq<u8> {
    hkdf_stream(prk, info, ((length + 31) / 32) as int).take(length as int)
}

proof fn lemma_stream_len(prk: Seq<u8>, info: Seq<u8>, n: int)
    requires
        n >= 0,
    ensures
        hkdf_stream(prk, info, n).len() == 32 * n,
    decreases n,
{
    if n > 0 {
        lemma_stream_len(prk, info, n - 1);
        lemma_hmac_len(prk, hkdf_block(prk, info, n - 1) + info + seq![n as u8]);
    }
}

/// What is expanded has the length asked for.
pub proof fn lemma_hkdf_expanded_len(prk: Seq<u8>, info: Seq<u8>, length: nat)
    ensures
        hkdf_expanded(prk, info, length).len() == length,
{
    lemma_stream_len(prk, info, ((length + 31) / 32) as int);
}

/// Extracts a pseudorandom key.
pub fn hkdf_extract(salt: &[u8], ikm: &[u8]) -> (r: Vec<u8>)
    ensures
        r@ == hkdf_extracted(salt@, ikm@),
        r@.len() == 32,
{
    hmac_sha256(salt, ikm)
}

/// Expands a pseudorandom key; fails where more than 255 blocks are asked for.
pub fn hkdf_expand(prk: &[u8], info: &[u8], length: usize) -> (r: Option<Vec<u8>>)
    ensures
        match r {
            Some(okm) => length <= 8160 && okm@ == hkdf_expanded(prk@, info@, length as nat),
            None => length > 8160,
        },
{
    if length > 8160 {
        return None;
    }
    let mut out: Vec<u8> = Vec::new();
    let mut block: Vec<u8> = Vec::new();
    let mut n: u8 = 0;
    assert(hkdf_block(prk@, info@, 0) =~= seq![]);
    assert(hkdf_stream(prk@, info@, 0) =~= seq![]);
    while out.len() < length
        invariant
            length <= 8160,
            n <= 255,
            block@ == hkdf_block(prk@, info@, n as int),
            out@ == hkdf_stream(prk@, info@, n as int),
            out@.len() == 32 * n,
            n > 0 ==> 32 * (n - 1) < length,
        decreases length + 32 - out@.len(),
    {
        n = n + 1;
        push_bytes(&mut block, info);
        block.push(n);
        assert(block@ =~= hkdf_block(prk@, info@, n - 1) + info@ + seq![n]);
        block = hmac_sha256(prk, block.as_slice());
        push_bytes(&mut out, block.as_slice());
    }
    assert(n as int == (length + 31) / 32);
    out.truncate(length);
    assert(out@ =~= hkdf_expanded(prk@, info@, length as nat));
    Some(out)
}

}
