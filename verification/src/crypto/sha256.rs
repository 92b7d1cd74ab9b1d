//! SHA-256.
use vstd::prelude::*;

use crate::bytes::{be32, be64, from_be32, push_be32, push_be64, read_be32};

verus! {

pub const ROUND_CONSTANTS: [u32; 64] = [
    0x428a2f98, 0x71374491, 0xb5c0fbcf, 0xe9b5dba5, 0x3956c25b, 0x59f111f1, 0x923f82a4, 0xab1c5ed5,
    0xd807aa98, 0x12835b01, 0x243185be, 0x550c7dc3, 0x72be5d74, 0x80deb1fe, 0x9bdc06a7, 0xc19bf174,
    0xe49b69c1, 0xefbe4786, 0x0fc19dc6, 0x240ca1cc, 0x2de92c6f, 0x4a7484aa, 0x5cb0a9dc, 0x76f988da,
    0x983e5152, 0xa831c66d, 0xb00327c8, 0xbf597fc7, 0xc6e00bf3, 0xd5a79147, 0x06ca6351, 0x14292967,
    0x27b70a85, 0x2e1b2138, 0x4d2c6dfc, 0x53380d13, 0x650a7354, 0x766a0abb, 0x81c2c92e, 0x92722c85,
    0xa2bfe8a1, 0xa81a664b, 0xc24b8b70, 0xc76c51a3, 0xd192e819, 0xd6990624, 0xf40e3585, 0x106aa070,
    0x19a4c116, 0x1e376c08, 0x2748774c, 0x34b0bcb5, 0x391c0cb3, 0x4ed8aa4a, 0x5b9cca4f, 0x682e6ff3,
    0x748f82ee, 0x78a5636f, 0x84c87814, 0x8cc70208, 0x90befffa, 0xa4506ceb, 0xbef9a3f7, 0xc67178f2,
];

/// The eight working words.
#[derive(Clone, Copy)]
pub struct Words {
    pub a: u32,
    pub b: u32,
    pub c: u32,
    pub d: u32,
    pub e: u32,
    pub f: u32,
    pub g: u32,
    pub h: u32,
}

pub open spec fn initial_words() -> Words {
    Words {
        a: 0x6a09e667,
        b: 0xbb67ae85,
        c: 0x3c6ef372,
        d: 0xa54ff53a,
        e: 0x510e527f,
        f: 0x9b05688c,
        g: 0x1f83d9ab,
        h: 0x5be0cd19,
    }
}

/// Rotation to the right by `n` bits.
pub open spec fn rotated(x: u32, n: u32) -> u32 {
    (x >> n) | (x << ((32 - n) as u32))
}

fn rotate(x: u32, n: u32) -> (r: u32)
    requires
        0 < n < 32,
    ensures
        r == rotated(x, n),
{
    (x >> n) | (x << (32 - n))
}

pub open spec fn small_sigma0(x: u32) -> u32 {
    rotated(x, 7) ^ rotated(x, 18) ^ (x >> 3u32)
}

pub open spec fn small_sigma1(x: u32) -> u32 {
    rotated(x, 17) ^ rotated(x, 19) ^ (x >> 10u32)
}

pub open spec fn big_sigma0(x: u32) -> u32 {
    rotated(x, 2) ^ rotated(x, 13) ^ rotated(x, 22)
}

pub open spec fn big_sigma1(x: u32) -> u32 {
    rotated(x, 6) ^ rotated(x, 11) ^ rotated(x, 25)
}

pub open spec fn choice(x: u32, y: u32, z: u32) -> u32 {
    (x & y) ^ (!x & z)
}

pub open spec fn majority(x: u32, y: u32, z: u32) -> u32 {
    (x & y) ^ (x & z) ^ (y & z)
}

/// The word `t` of the message schedule of a block of 64 octets.
pub open spec fn scheduled(block: Seq<u8>, t: int) -> u32
    decreases t,
{
    if t < 16 {
        from_be32(block[4 * t], block[4 * t + 1], block[4 * t + 2], block[4 * t + 3]) as u32
    } else {
        small_sigma1(scheduled(block, t - 2)).wrapping_add(scheduled(block, t - 7)).wrapping_add(
            small_sigma0(scheduled(block, t - 15)),
        ).wrapping_add(scheduled(block, t - 16))
    }
}

/// One round, with schedule word `w` and round constant `k`.
pub open spec fn round(s: Words, k: u32, w: u32) -> Words {
    let t1 = s.h.wrapping_add(big_sigma1(s.e)).wrapping_add(choice(s.e, s.f, s.g)).wrapping_add(
        k,
    ).wrapping_add(w);
    let t2 = big_sigma0(s.a).wrapping_add(majority(s.a, s.b, s.c));
    Words {
        a: t1.wrapping_add(t2),
        b: s.a,
        c: s.b,
        d: s.c,
        e: s.d.wrapping_add(t1),
        f: s.e,
        g: s.f,
        h: s.g,
    }
}

/// The words after the first `t` rounds on a block.
pub open spec fn rounds(s: Words, block: Seq<u8>, t: int) -> Words
    decreases t,
{
    if t <= 0 {
        s
    } else {
        round(rounds(s, block, t - 1), ROUND_CONSTANTS@[t - 1], scheduled(block, t - 1))
    }
}

/// The words after a whole block.
pub open spec fn compressed(s: Words, block: Seq<u8>) -> Words {
    let r = rounds(s, block, 64);
    Words {
        a: s.a.wrapping_add(r.a),
        b: s.b.wrapping_add(r.b),
        c: s.c.wrapping_add(r.c),
        d: s.d.wrapping_add(r.d),
        e: s.e.wrapping_add(r.e),
        f: s.f.wrapping_add(r.f),
        g: s.g.wrapping_add(r.g),
        h: s.h.wrapping_add(r.h),
    }
}

/// The words after all blocks of a padded message.
pub open spec fn absorbed(s: Words, padded: Seq<u8>) -> Words
    decreases padded.len(),
{
    if padded.len() < 64 {
        s
    } else {
        absorbed(compressed(s, padded.take(64)), padded.skip(64))
    }
}

/// How many zero octets fill the last block.
pub open spec fn fill_len(len: nat) -> nat {
    (119 - len % 64) as nat % 64
}

/// The message, a one bit, zeros up to the end of a block, and the length in bits.
pub open spec fn padded(m: Seq<u8>) -> Seq<u8> {
    m + seq![0x80u8] + Seq::new(fill_len(m.len()), |i: int| 0u8) + be64(
        (m.len() as u64).wrapping_mul(8),
    )
}

/// The words as 32 octets.
pub open spec fn word_bytes(s: Words) -> Seq<u8> {
    be32(s.a) + be32(s.b) + be32(s.c) + be32(s.d) + be32(s.e) + be32(s.f) + be32(s.g) + be32(s.h)
}

/// The SHA-256 digest of `m`.
#[verifier::opaque]
pub open spec fn sha256_of(m: Seq<u8>) -> Seq<u8> {
    word_bytes(absorbed(initial_words(), padded(m)))
}

fn schedule(block: &[u8]) -> (w: Vec<u32>)
    requires
        block@.len() == 64,
    ensures
        w@.len() == 64,
        forall|t: int| 0 <= t < 64 ==> #[trigger] w@[t] == scheduled(block@, t),
{
    let mut w: Vec<u32> = Vec::new();
    let mut t: usize = 0;
    while t < 16
        invariant
            block@.len() == 64,
            t <= 16,
            w@.len() == t,
            forall|i: int| 0 <= i < t ==> #[trigger] w@[i] == scheduled(block@, i),
        decreases 16 - t,
    {
        w.push(read_be32(block, 4 * t));
        t = t + 1;
    }
    while t < 64
        invariant
            16 <= t <= 64,
            w@.len() == t,
            forall|i: int| 0 <= i < t ==> #[trigger] w@[i] == scheduled(block@, i),
        decreases 64 - t,
    {
        let x = w[t - 2];
        let y = w[t - 15];
        let s1 = rotate(x, 17) ^ rotate(x, 19) ^ (x >> 10u32);
        let s0 = rotate(y, 7) ^ rotate(y, 18) ^ (y >> 3u32);
        let next = s1.wrapping_add(w[t - 7]).wrapping_add(s0).wrapping_add(w[t - 16]);
        w.push(next);
        t = t + 1;
    }
    w
}

fn compress(s: Words, block: &[u8]) -> (r: Words)
    requires
        block@.len() == 64,
    ensures
        r == compressed(s, block@),
{
    let w = schedule(block);
    let mut v = s;
    let mut t: usize = 0;
    while t < 64
        invariant
            t <= 64,
            w@.len() == 64,
            forall|i: int| 0 <= i < 64 ==> #[trigger] w@[i] == scheduled(block@, i),
            v == rounds(s, block@, t as int),
        decreases 64 - t,
    {
        let k = ROUND_CONSTANTS[t];
        let sum1 = rotate(v.e, 6) ^ rotate(v.e, 11) ^ rotate(v.e, 25);
        let ch = (v.e & v.f) ^ (!v.e & v.g);
        let t1 = v.h.wrapping_add(sum1).wrapping_add(ch).wrapping_add(k).wrapping_add(w[t]);
        let sum0 = rotate(v.a, 2) ^ rotate(v.a, 13) ^ rotate(v.a, 22);
        let maj = (v.a & v.b) ^ (v.a & v.c) ^ (v.b & v.c);
        let t2 = sum0.wrapping_add(maj);
        v = Words {
            a: t1.wrapping_add(t2),
            b: v.a,
            c: v.b,
            d: v.c,
            e: v.d.wrapping_add(t1),
            f: v.e,
            g: v.f,
            h: v.g,
        };
        t = t + 1;
    }
    Words {
        a: s.a.wrapping_add(v.a),
        b: s.b.wrapping_add(v.b),
        c: s.c.wrapping_add(v.c),
        d: s.d.wrapping_add(v.d),
        e: s.e.wrapping_add(v.e),
        f: s.f.wrapping_add(v.f),
        g: s.g.wrapping_add(v.g),
        h: s.h.wrapping_add(v.h),
    }
}

fn pad(m: &[u8]) -> (r: Vec<u8>)
    ensures
        r@ == padded(m@),
{
    let mut out = vstd::slice::slice_to_vec(m);
    out.push(0x80);
    let fill: usize = (119 - m.len() % 64) % 64;
    let mut i: usize = 0;
    let ghost head = out@;
    while i < fill
        invariant
            i <= fill,
            out@ == head + Seq::new(i as nat, |j: int| 0u8),
        decreases fill - i,
    {
        out.push(0);
        i = i + 1;
        assert(out@ =~= head + Seq::new(i as nat, |j: int| 0u8));
    }
    push_be64(&mut out, (m.len() as u64).wrapping_mul(8));
    assert(out@ =~= padded(m@));
    out
}

/// Computes the SHA-256 digest of `data`.
pub fn sha256(data: &[u8]) -> (r: Vec<u8>)
    ensures
        r@ == sha256_of(data@),
        r@.len() == 32,
{
    reveal(sha256_of);
    let message = pad(data);
    let mut s = Words {
        a: 0x6a09e667,
        b: 0xbb67ae85,
        c: 0x3c6ef372,
        d: 0xa54ff53a,
        e: 0x510e527f,
        f: 0x9b05688c,
        g: 0x1f83d9ab,
        h: 0x5be0cd19,
    };
    let mut pos: usize = 0;
    assert(message@.skip(0) =~= message@);
    while message.len() - pos >= 64
        invariant
            pos <= message@.len(),
            absorbed(s, message@.skip(pos as int)) == absorbed(initial_words(), padded(data@)),
        decreases message@.len() - pos,
    {
        let block = vstd::slice::slice_subrange(message.as_slice(), pos, pos + 64);
        assert(block@ =~= message@.skip(pos as int).take(64));
        assert(message@.skip(pos as int).skip(64) =~= message@.skip(pos + 64));
        s = compress(s, block);
        pos = pos + 64;
    }
    let mut out: Vec<u8> = Vec::new();
    push_be32(&mut out, s.a);
    push_be32(&mut out, s.b);
    push_be32(&mut out, s.c);
    push_be32(&mut out, s.d);
    push_be32(&mut out, s.e);
    push_be32(&mut out, s.f);
    push_be32(&mut out, s.g);
    push_be32(&mut out, s.h);
    assert(out@ =~= word_bytes(s));
    out
}

/// A digest is 32 octets long.
pub proof fn lemma_sha256_len(m: Seq<u8>)
    ensures
        sha256_of(m).len() == 32,
{
    reveal(sha256_of);
}

}
