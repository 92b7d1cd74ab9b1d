//! Octets: big-endian numbers, comparison, search and hexadecimal notation.
use vstd::prelude::*;
use vstd::slice::slice_subrange;

use crate::text::{first_occurrence, occurs_at};
use crate::decimal::hex_digit_value;

verus! {

/// Two octets, most significant first.
pub open spec fn be16(n: u16) -> Seq<u8> {
    seq![(n / 0x100) as u8, (n % 0x100) as u8]
}

/// The number in two octets, most significant first.
pub open spec fn from_be16(a: u8, b: u8) -> nat {
    (a * 0x100 + b) as nat
}

/// The number in three octets, most significant first.
pub open spec fn from_be24(a: u8, b: u8, c: u8) -> nat {
    (a * 0x1_0000 + b * 0x100 + c) as nat
}

/// Three octets, most significant first, of the low 24 bits.
pub open spec fn be24(n: nat) -> Seq<u8> {
    seq![((n / 0x1_0000) % 0x100) as u8, ((n / 0x100) % 0x100) as u8, (n % 0x100) as u8]
}

/// Four octets, most significant first.
pub open spec fn be32(n: u32) -> Seq<u8> {
    seq![
        (n / 0x100_0000) as u8,
        ((n / 0x1_0000) % 0x100) as u8,
        ((n / 0x100) % 0x100) as u8,
        (n % 0x100) as u8,
    ]
}

/// The number in four octets, most significant first.
pub open spec fn from_be32(a: u8, b: u8, c: u8, d: u8) -> nat {
    (a * 0x100_0000 + b * 0x1_0000 + c * 0x100 + d) as nat
}

/// Eight octets, most significant first.
pub open spec fn be64(n: u64) -> Seq<u8> {
    be32((n / 0x1_0000_0000) as u32) + be32((n % 0x1_0000_0000) as u32)
}

/// The number in eight octets, most significant first.
pub open spec fn from_be64(s: Seq<u8>) -> nat {
    from_be32(s[0], s[1], s[2], s[3]) * 0x1_0000_0000 + from_be32(s[4], s[5], s[6], s[7])
}

/// Appends a slice of octets.
pub fn push_bytes(out: &mut Vec<u8>, tail: &[u8])
    ensures
        final(out)@ == old(out)@ + tail@,
{
    out.extend_from_slice(tail);
    assert(out@ =~= old(out)@ + tail@);
}

pub fn push_be16(out: &mut Vec<u8>, n: u16)
    ensures
        final(out)@ == old(out)@ + be16(n),
{
    out.push((n / 0x100) as u8);
    out.push((n % 0x100) as u8);
    assert(out@ =~= old(out)@ + be16(n));
}

pub fn push_be24(out: &mut Vec<u8>, n: u32)
    ensures
        final(out)@ == old(out)@ + be24(n as nat),
{
    out.push(((n / 0x1_0000) % 0x100) as u8);
    out.push(((n / 0x100) % 0x100) as u8);
    out.push((n % 0x100) as u8);
    assert(out@ =~= old(out)@ + be24(n as nat));
}

pub fn push_be32(out: &mut Vec<u8>, n: u32)
    ensures
        final(out)@ == old(out)@ + be32(n),
{
    out.push((n / 0x100_0000) as u8);
    out.push(((n / 0x1_0000) % 0x100) as u8);
    out.push(((n / 0x100) % 0x100) as u8);
    out.push((n % 0x100) as u8);
    assert(out@ =~= old(out)@ + be32(n));
}

pub fn push_be64(out: &mut Vec<u8>, n: u64)
    ensures
        final(out)@ == old(out)@ + be64(n),
{
    push_be32(out, (n / 0x1_0000_0000) as u32);
    push_be32(out, (n % 0x1_0000_0000) as u32);
    assert(out@ =~= old(out)@ + be64(n));
}

pub fn read_be16(data: &[u8], pos: usize) -> (r: u16)
    requires
        pos + 2 <= data@.len(),
    ensures
        r == from_be16(data@[pos as int], data@[pos + 1]),
{
    (data[pos] as u16) * 0x100 + (data[pos + 1] as u16)
}

pub fn read_be24(data: &[u8], pos: usize) -> (r: usize)
    requires
        pos + 3 <= data@.len(),
    ensures
        r == from_be24(data@[pos as int], data@[pos + 1], data@[pos + 2]),
        r < 0x100_0000,
{
    (data[pos] as usize) * 0x1_0000 + (data[pos + 1] as usize) * 0x100 + (data[pos + 2] as usize)
}

pub fn read_be32(data: &[u8], pos: usize) -> (r: u32)
    requires
        pos + 4 <= data@.len(),
    ensures
        r == from_be32(data@[pos as int], data@[pos + 1], data@[pos + 2], data@[pos + 3]),
{
    (data[pos] as u32) * 0x100_0000 + (data[pos + 1] as u32) * 0x1_0000 + (data[pos + 2] as u32)
        * 0x100 + (data[pos + 3] as u32)
}

pub fn read_be64(data: &[u8], pos: usize) -> (r: u64)
    requires
        pos + 8 <= data@.len(),
    ensures
        r == from_be64(data@.subrange(pos as int, pos + 8)),
{
    assert(data.len() <= usize::MAX);
    let hi: u64 = read_be32(data, pos) as u64;
    let lo: u64 = read_be32(data, pos + 4) as u64;
    hi * 0x1_0000_0000 + lo
}

/// What two octets hold is read back.
pub proof fn law_be16_roundtrip(n: u16)
    ensures
        be16(n).len() == 2,
        from_be16(be16(n)[0], be16(n)[1]) == n,
{
}

/// What three octets hold is read back, where it fits.
pub proof fn law_be24_roundtrip(n: nat)
    requires
        n < 0x100_0000,
    ensures
        be24(n).len() == 3,
        from_be24(be24(n)[0], be24(n)[1], be24(n)[2]) == n,
{
}

/// What four octets hold is read back.
pub proof fn law_be32_roundtrip(n: u32)
    ensures
        be32(n).len() == 4,
        from_be32(be32(n)[0], be32(n)[1], be32(n)[2], be32(n)[3]) == n,
{
}

/// What eight octets hold is read back.
pub proof fn law_be64_roundtrip(n: u64)
    ensures
        be64(n).len() == 8,
        from_be64(be64(n)) == n,
{
    law_be32_roundtrip((n / 0x1_0000_0000) as u32);
    law_be32_roundtrip((n % 0x1_0000_0000) as u32);
}

/// Whether two rows of octets are the same, deciding only after looking at all of them.
pub fn constant_time_eq(a: &[u8], b: &[u8]) -> (r: bool)
    ensures
        r == (a@ == b@),
{
    if a.len() != b.len() {
        return false;
    }
    let mut acc: u8 = 0;
    let mut i: usize = 0;
    while i < a.len()
        invariant
            i <= a@.len(),
            a@.len() == b@.len(),
            acc == 0 <==> forall|j: int| 0 <= j < i ==> a@[j] == b@[j],
        decreases a@.len() - i,
    {
        let x = a[i];
        let y = b[i];
        let ghost before = acc;
        acc = acc | (x ^ y);
        assert((before | (x ^ y)) == 0 <==> (before == 0 && x == y)) by (bit_vector);
        i = i + 1;
    }
    if acc == 0 {
        assert(a@ =~= b@);
        true
    } else {
        false
    }
}

/// The first position of `p` in `s`.
pub fn find_bytes(s: &[u8], p: &[u8]) -> (r: Option<usize>)
    ensures
        match r {
            Some(i) => first_occurrence(s@, p@, 0) == Some(i as int) && i + p@.len() <= s@.len(),
            None => first_occurrence(s@, p@, 0) is None,
        },
{
    if p.len() > s.len() {
        return None;
    }
    let last: usize = s.len() - p.len();
    let mut i: usize = 0;
    loop
        invariant
            last == s@.len() - p@.len(),
            i <= last,
            first_occurrence(s@, p@, i as int) == first_occurrence(s@, p@, 0),
        decreases last - i,
    {
        let mut j: usize = 0;
        assert(s.len() <= usize::MAX);
        while j < p.len() && s[i + j] == p[j]
            invariant
                last == s@.len() - p@.len(),
                i <= last,
                j <= p@.len(),
                s@.len() <= usize::MAX,
                forall|k: int| 0 <= k < j ==> s@[i + k] == p@[k],
            decreases p@.len() - j,
        {
            j = j + 1;
        }
        if j == p.len() {
            assert(s@.subrange(i as int, i + p@.len()) =~= p@);
            return Some(i);
        }
        assert(!occurs_at(s@, p@, i as int)) by {
            assert(s@.subrange(i as int, i + p@.len())[j as int] == s@[i + j]);
        }
        if i == last {
            assert(first_occurrence(s@, p@, last + 1) is None);
            return None;
        }
        i = i + 1;
    }
}

/// Copies a part of a slice.
pub fn copy_range(s: &[u8], from: usize, to: usize) -> (r: Vec<u8>)
    requires
        from <= to <= s@.len(),
    ensures
        r@ == s@.subrange(from as int, to as int),
{
    vstd::slice::slice_to_vec(slice_subrange(s, from, to))
}

/// The hexadecimal digit for a number below sixteen.
pub open spec fn hex_digit(n: int) -> char {
    if n < 10 {
        (('0' as u32) + n) as u32 as char
    } else {
        (('a' as u32) + n - 10) as u32 as char
    }
}

/// Two hexadecimal digits for each octet.
pub open spec fn hex(s: Seq<u8>) -> Seq<char> {
    Seq::new(
        2 * s.len(),
        |i: int|
            if i % 2 == 0 {
                hex_digit(s[i / 2] as int / 16)
            } else {
                hex_digit(s[i / 2] as int % 16)
            },
    )
}

fn hex_char(n: u8) -> (c: char)
    requires
        n < 16,
    ensures
        c == hex_digit(n as int),
{
    if n < 10 {
        (48 + n) as char
    } else {
        (87 + n) as char
    }
}

/// Octets in lower-case hexadecimal notation.
pub fn to_hex(bytes: &[u8]) -> (r: String)
    ensures
        r@ == hex(bytes@),
{
    let mut out = String::new();
    let mut i: usize = 0;
    while i < bytes.len()
        invariant
            i <= bytes@.len(),
            out@ == hex(bytes@).take(2 * i),
        decreases bytes@.len() - i,
    {
        let b = bytes[i];
        out.push(hex_char(b / 16));
        out.push(hex_char(b % 16));
        i = i + 1;
        assert(out@ =~= hex(bytes@).take(2 * i));
    }
    assert(out@ =~= hex(bytes@));
    out
}

proof fn lemma_hex_digit(x: int, y: int)
    requires
        0 <= x < 16,
        0 <= y < 16,
        hex_digit(x) == hex_digit(y),
    ensures
        x == y,
{
    assert(hex_digit(x) as int == (if x < 10 {
        48 + x
    } else {
        87 + x
    }));
    assert(hex_digit(y) as int == (if y < 10 {
        48 + y
    } else {
        87 + y
    }));
}

/// Different octets are written differently.
pub proof fn law_hex_injective(a: Seq<u8>, b: Seq<u8>)
    requires
        hex(a) == hex(b),
    ensures
        a == b,
{
    assert(hex(a).len() == 2 * a.len() && hex(b).len() == 2 * b.len());
    assert forall|i: int| 0 <= i < a.len() implies a[i] == b[i] by {
        assert(hex(a)[2 * i] == hex(b)[2 * i]);
        assert(hex(a)[2 * i + 1] == hex(b)[2 * i + 1]);
        assert((2 * i) % 2 == 0 && (2 * i) / 2 == i);
        assert((2 * i + 1) % 2 == 1 && (2 * i + 1) / 2 == i);
        assert(hex(a)[2 * i] == hex_digit(a[i] as int / 16) && hex(b)[2 * i] == hex_digit(b[i] as int / 16));
        assert(hex(a)[2 * i + 1] == hex_digit(a[i] as int % 16) && hex(b)[2 * i + 1] == hex_digit(
            b[i] as int % 16,
        ));
        lemma_hex_digit(a[i] as int / 16, b[i] as int / 16);
        lemma_hex_digit(a[i] as int % 16, b[i] as int % 16);
    }
    assert(a =~= b);
}

/// Parts of one length that make the same whole with what follows them are the same, and so is what follows.
pub proof fn lemma_same_parts(a: Seq<u8>, b: Seq<u8>, x: Seq<u8>, y: Seq<u8>)
    requires
        a.len() == b.len(),
        a + x == b + y,
    ensures
        a == b,
        x == y,
{
    assert(a =~= (a + x).take(a.len() as int));
    assert(b =~= (b + y).take(a.len() as int));
    assert(x =~= (a + x).skip(a.len() as int));
    assert(y =~= (b + y).skip(a.len() as int));
}

/// Numbers in eight octets differ where their octets do.
pub proof fn lemma_be64_differ(a: u64, b: u64)
    ensures
        be64(a) == be64(b) ==> a == b,
        be64(a).len() == 8,
{
    law_be64_roundtrip(a);
    law_be64_roundtrip(b);
}

/// What stands before the first of an octet is found again.
pub proof fn lemma_same_front(a: Seq<u8>, b: Seq<u8>, c: u8, x: Seq<u8>, y: Seq<u8>)
    requires
        forall|i: int| 0 <= i < a.len() ==> #[trigger] a[i] != c,
        forall|i: int| 0 <= i < b.len() ==> #[trigger] b[i] != c,
        a + seq![c] + x == b + seq![c] + y,
    ensures
        a == b,
        x == y,
{
    let s = a + seq![c] + x;
    let t = b + seq![c] + y;
    assert(s[a.len() as int] == c);
    assert(t[b.len() as int] == c);
    if a.len() < b.len() {
        assert(t[a.len() as int] == b[a.len() as int]);
    }
    if b.len() < a.len() {
        assert(s[b.len() as int] == a[b.len() as int]);
    }
    assert(s =~= a + (seq![c] + x));
    assert(t =~= b + (seq![c] + y));
    lemma_same_parts(a, b, seq![c] + x, seq![c] + y);
    lemma_same_parts(seq![c], seq![c], x, y);
}

/// Numbers are written with the octet of most weight first.
pub proof fn law_big_endian(n: u16, m: u32)
    ensures
        be16(n)[0] * 256 + be16(n)[1] == n,
        be16(n).len() == 2,
        be32(m).len() == 4,
        be32(m)[0] * 16777216 + be32(m)[1] * 65536 + be32(m)[2] * 256 + be32(m)[3] == m,
        be64(m as u64) == be32(0) + be32(m),
        be24(n as nat) == seq![0u8] + be16(n),
{
    law_be32_roundtrip(m);
    let w = n as nat;
    assert(w / 0x1_0000 == 0);
    assert((w / 0x100) % 0x100 == w / 0x100);
    assert(be24(n as nat) =~= seq![0u8] + be16(n));
    assert(m as u64 / 0x1_0000_0000 == 0);
    assert(m as u64 % 0x1_0000_0000 == m);
}

/// An octet is written as two of the digits `0` to `9` and `a` to `f`, that of more weight first.
pub proof fn law_hex_digits(s: Seq<u8>, i: int)
    requires
        0 <= i < s.len(),
    ensures
        hex(s).len() == 2 * s.len(),
        hex_digit_value(hex(s)[2 * i]) == Some((s[i] / 16) as nat),
        hex_digit_value(hex(s)[2 * i + 1]) == Some((s[i] % 16) as nat),
        !('A' <= hex(s)[2 * i] <= 'F') && !('A' <= hex(s)[2 * i + 1] <= 'F'),
{
    let h = hex(s);
    assert((2 * i) % 2 == 0 && (2 * i) / 2 == i);
    assert((2 * i + 1) % 2 == 1 && (2 * i + 1) / 2 == i);
    let (x, y) = (s[i] as int / 16, s[i] as int % 16);
    assert(h[2 * i] == hex_digit(x));
    assert(h[2 * i + 1] == hex_digit(y));
    lemma_hex_back(x);
    lemma_hex_back(y);
}

proof fn lemma_hex_back(n: int)
    requires
        0 <= n < 16,
    ensures
        hex_digit_value(hex_digit(n)) == Some(n as nat),
        !('A' <= hex_digit(n) <= 'F'),
{
}

}
