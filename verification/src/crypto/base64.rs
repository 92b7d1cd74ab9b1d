//! Base64 with the standard alphabet and padding.
//!
//! Only the canonical notation is read: `decoded` undoes `encoded` and accepts nothing else.
use vstd::prelude::*;

use crate::text::{chars_of, string_of};

verus! {

/// The character for a number below 64.
pub open spec fn symbol(n: int) -> char {
    if n < 26 {
        (('A' as u32) + n) as u32 as char
    } else if n < 52 {
        (('a' as u32) + n - 26) as u32 as char
    } else if n < 62 {
        (('0' as u32) + n - 52) as u32 as char
    } else if n == 62 {
        '+'
    } else {
        '/'
    }
}

/// The number that a character stands for, or -1.
pub open spec fn symbol_value(c: char) -> int {
    if 'A' <= c <= 'Z' {
        c as int - 'A' as int
    } else if 'a' <= c <= 'z' {
        c as int - 'a' as int + 26
    } else if '0' <= c <= '9' {
        c as int - '0' as int + 52
    } else if c == '+' {
        62
    } else if c == '/' {
        63
    } else {
        -1
    }
}

/// `s` in Base64.
pub open spec fn encoded(s: Seq<u8>) -> Seq<char>
    decreases s.len(),
{
    let x = s[0] as int;
    let y = s[1] as int;
    let z = s[2] as int;
    if s.len() == 0 {
        seq![]
    } else if s.len() == 1 {
        seq![symbol(x / 4), symbol((x % 4) * 16), '=', '=']
    } else if s.len() == 2 {
        seq![symbol(x / 4), symbol((x % 4) * 16 + y / 16), symbol((y % 16) * 4), '=']
    } else {
        seq![
            symbol(x / 4),
            symbol((x % 4) * 16 + y / 16),
            symbol((y % 16) * 4 + z / 64),
            symbol(z % 64),
        ] + encoded(s.skip(3))
    }
}

/// What `t` is the Base64 notation of.
pub open spec fn decoded(t: Seq<char>) -> Option<Seq<u8>>
    decreases t.len(),
{
    if t.len() == 0 {
        Some(seq![])
    } else if t.len() < 4 {
        None
    } else {
        let a = symbol_value(t[0]);
        let b = symbol_value(t[1]);
        let c = symbol_value(t[2]);
        let d = symbol_value(t[3]);
        if a < 0 || b < 0 {
            None
        } else if t.len() == 4 && t[2] == '=' && t[3] == '=' {
            if b % 16 == 0 {
                Some(seq![(a * 4 + b / 16) as u8])
            } else {
                None
            }
        } else if t.len() == 4 && t[3] == '=' {
            if c >= 0 && c % 4 == 0 {
                Some(seq![(a * 4 + b / 16) as u8, ((b % 16) * 16 + c / 4) as u8])
            } else {
                None
            }
        } else if c < 0 || d < 0 {
            None
        } else {
            match decoded(t.skip(4)) {
                Some(rest) => Some(
                    seq![
                        (a * 4 + b / 16) as u8,
                        ((b % 16) * 16 + c / 4) as u8,
                        ((c % 4) * 64 + d) as u8,
                    ] + rest,
                ),
                None => None,
            }
        }
    }
}

fn symbol_char(n: u8) -> (c: char)
    requires
        n < 64,
    ensures
        c == symbol(n as int),
{
    if n < 26 {
        (65 + n) as char
    } else if n < 52 {
        (71 + n) as char
    } else if n < 62 {
        (n - 4) as char
    } else if n == 62 {
        '+'
    } else {
        '/'
    }
}

fn char_symbol(c: char) -> (r: Option<u8>)
    ensures
        match r {
            Some(v) => v < 64 && symbol_value(c) == v,
            None => symbol_value(c) < 0,
        },
{
    if 'A' <= c && c <= 'Z' {
        Some((c as u8) - 65)
    } else if 'a' <= c && c <= 'z' {
        Some((c as u8) - 71)
    } else if '0' <= c && c <= '9' {
        Some((c as u8) + 4)
    } else if c == '+' {
        Some(62)
    } else if c == '/' {
        Some(63)
    } else {
        None
    }
}

/// Writes octets in Base64.
pub fn encode(data: &[u8]) -> (r: String)
    ensures
        r@ == encoded(data@),
{
    let mut out: Vec<char> = Vec::new();
    let mut i: usize = 0;
    assert(data@.skip(0) =~= data@);
    assert(out@ + encoded(data@) =~= encoded(data@));
    while data.len() - i >= 3
        invariant
            i <= data@.len(),
            out@ + encoded(data@.skip(i as int)) == encoded(data@),
        decreases data@.len() - i,
    {
        let x = data[i];
        let y = data[i + 1];
        let z = data[i + 2];
        let ghost before = out@;
        out.push(symbol_char(x / 4));
        out.push(symbol_char((x % 4) * 16 + y / 16));
        out.push(symbol_char((y % 16) * 4 + z / 64));
        out.push(symbol_char(z % 64));
        assert(data@.skip(i as int).skip(3) =~= data@.skip(i + 3));
        assert(out@ + encoded(data@.skip(i + 3)) =~= before + encoded(data@.skip(i as int)));
        i = i + 3;
    }
    let ghost before = out@;
    if data.len() - i == 1 {
        let x = data[i];
        out.push(symbol_char(x / 4));
        out.push(symbol_char((x % 4) * 16));
        out.push('=');
        out.push('=');
    } else if data.len() - i == 2 {
        let x = data[i];
        let y = data[i + 1];
        out.push(symbol_char(x / 4));
        out.push(symbol_char((x % 4) * 16 + y / 16));
        out.push(symbol_char((y % 16) * 4));
        out.push('=');
    }
    assert(out@ =~= before + encoded(data@.skip(i as int)));
    string_of(out.as_slice())
}

/// Reads Base64.
pub fn decode(text: &str) -> (r: Option<Vec<u8>>)
    ensures
        match r {
            Some(bytes) => decoded(text@) == Some(bytes@),
            None => decoded(text@) is None,
        },
{
    let t = chars_of(text);
    decode_chars(t.as_slice())
}

/// What remains to be read decides together with what was read.
spec fn resumed(done: Seq<u8>, rest: Option<Seq<u8>>) -> Option<Seq<u8>> {
    match rest {
        Some(r) => Some(done + r),
        None => None,
    }
}

pub fn decode_chars(t: &[char]) -> (r: Option<Vec<u8>>)
    ensures
        match r {
            Some(bytes) => decoded(t@) == Some(bytes@),
            None => decoded(t@) is None,
        },
{
    let mut out: Vec<u8> = Vec::new();
    let mut i: usize = 0;
    assert(t@.skip(0) =~= t@);
    proof {
        if let Some(all) = decoded(t@) {
            assert(out@ + all =~= all);
        }
    }
    while i < t.len()
        invariant
            i <= t@.len(),
            resumed(out@, decoded(t@.skip(i as int))) == decoded(t@),
        decreases t@.len() - i,
    {
        if t.len() - i < 4 {
            return None;
        }
        let ghost rest = t@.skip(i as int);
        let ghost before = out@;
        let (a, b) = match (char_symbol(t[i]), char_symbol(t[i + 1])) {
            (Some(a), Some(b)) => (a, b),
            _ => {
                return None;
            },
        };
        let last = t.len() - i == 4;
        let first = a * 4 + b / 16;
        if last && t[i + 2] == '=' && t[i + 3] == '=' {
            if b % 16 != 0 {
                return None;
            }
            out.push(first);
            assert(out@ =~= before + seq![first]);
            return Some(out);
        }
        if last && t[i + 3] == '=' {
            match char_symbol(t[i + 2]) {
                Some(c) => {
                    if c % 4 != 0 {
                        return None;
                    }
                    let second = (b % 16) * 16 + c / 4;
                    out.push(first);
                    out.push(second);
                    assert(out@ =~= before + seq![first, second]);
                    return Some(out);
                },
                None => {
                    return None;
                },
            }
        }
        match (char_symbol(t[i + 2]), char_symbol(t[i + 3])) {
            (Some(c), Some(d)) => {
                let second = (b % 16) * 16 + c / 4;
                let third = (c % 4) * 64 + d;
                out.push(first);
                out.push(second);
                out.push(third);
                proof {
                    assert(rest.skip(4) =~= t@.skip(i + 4));
                    if let Some(more) = decoded(rest.skip(4)) {
                        assert(out@ + more =~= before + (seq![first, second, third] + more));
                    }
                }
            },
            _ => {
                return None;
            },
        }
        i = i + 4;
    }
    assert(decoded(t@.skip(i as int)) == Some(Seq::<u8>::empty()));
    assert(out@ + Seq::<u8>::empty() =~= out@);
    Some(out)
}

/// The number of a symbol is the number it was made from.
proof fn lemma_symbol(n: int)
    requires
        0 <= n < 64,
    ensures
        symbol_value(symbol(n)) == n,
        symbol(n) != '=',
{
}

proof fn lemma_symbol_back(c: char)
    requires
        symbol_value(c) >= 0,
    ensures
        symbol(symbol_value(c)) == c,
        symbol_value(c) < 64,
        c != '=',
{
}

/// Base64 keeps the octets: reading what was written gives them back.
pub proof fn law_base64_roundtrip(s: Seq<u8>)
    ensures
        decoded(encoded(s)) == Some(s),
    decreases s.len(),
{
    if s.len() == 1 {
        lemma_symbol(s[0] as int / 4);
        lemma_symbol((s[0] as int % 4) * 16);
        assert(seq![s[0]] =~= s);
    } else if s.len() == 2 {
        lemma_symbol(s[0] as int / 4);
        lemma_symbol((s[0] as int % 4) * 16 + s[1] as int / 16);
        lemma_symbol((s[1] as int % 16) * 4);
        assert(seq![s[0], s[1]] =~= s);
    } else if s.len() >= 3 {
        law_base64_roundtrip(s.skip(3));
        lemma_symbol(s[0] as int / 4);
        lemma_symbol((s[0] as int % 4) * 16 + s[1] as int / 16);
        lemma_symbol((s[1] as int % 16) * 4 + s[2] as int / 64);
        lemma_symbol(s[2] as int % 64);
        assert(encoded(s).skip(4) =~= encoded(s.skip(3)));
        assert(seq![s[0], s[1], s[2]] + s.skip(3) =~= s);
    } else {
        assert(s =~= seq![]);
    }
}

/// Four symbols hold three octets, and the octets hold the symbols.
proof fn lemma_group(a: int, b: int, c: int, d: int)
    requires
        0 <= a < 64,
        0 <= b < 64,
        0 <= c < 64,
        0 <= d < 64,
    ensures
        ({
            let x = (a * 4 + b / 16) as u8 as int;
            let y = ((b % 16) * 16 + c / 4) as u8 as int;
            let z = ((c % 4) * 64 + d) as u8 as int;
            &&& x / 4 == a
            &&& (x % 4) * 16 + y / 16 == b
            &&& (y % 16) * 4 + z / 64 == c
            &&& z % 64 == d
            &&& (b % 16 == 0 ==> (x % 4) * 16 == b)
            &&& (c % 4 == 0 ==> (y % 16) * 4 == c)
        }),
{
}

/// Only what is written for some octets is read: a text that is read is their notation.
pub proof fn law_base64_canonical(t: Seq<char>)
    ensures
        decoded(t) matches Some(s) ==> encoded(s) == t,
    decreases t.len(),
{
    if t.len() >= 4 && decoded(t) is Some {
        let s = decoded(t).unwrap();
        lemma_symbol_back(t[0]);
        lemma_symbol_back(t[1]);
        let a = symbol_value(t[0]);
        let b = symbol_value(t[1]);
        let c = symbol_value(t[2]);
        if t.len() == 4 && t[2] == '=' && t[3] == '=' {
            lemma_group(a, b, 0, 0);
            assert(s.len() == 1);
            assert(encoded(s) =~= t);
        } else if t.len() == 4 && t[3] == '=' {
            lemma_symbol_back(t[2]);
            lemma_group(a, b, c, 0);
            assert(s.len() == 2);
            assert(encoded(s) =~= t);
        } else {
            lemma_symbol_back(t[2]);
            lemma_symbol_back(t[3]);
            lemma_group(a, b, c, symbol_value(t[3]));
            law_base64_canonical(t.skip(4));
            let rest = decoded(t.skip(4)).unwrap();
            assert(s.skip(3) =~= rest);
            assert(encoded(s) =~= t);
        }
    } else if t.len() == 0 {
        assert(t =~= seq![]);
    }
}

/// The characters of Base64: letters, digits, `+`, `/` and `=`.
pub open spec fn is_symbol(c: char) -> bool {
    symbol_value(c) >= 0 || c == '='
}

/// Base64 is made of its own characters only, and is empty only for no octets.
pub proof fn lemma_encoded_symbols(s: Seq<u8>)
    ensures
        forall|i: int| 0 <= i < encoded(s).len() ==> is_symbol(#[trigger] encoded(s)[i]),
        encoded(s).len() == 0 <==> s.len() == 0,
    decreases s.len(),
{
    if s.len() == 1 {
        lemma_symbol(s[0] as int / 4);
        lemma_symbol((s[0] as int % 4) * 16);
    } else if s.len() == 2 {
        lemma_symbol(s[0] as int / 4);
        lemma_symbol((s[0] as int % 4) * 16 + s[1] as int / 16);
        lemma_symbol((s[1] as int % 16) * 4);
    } else if s.len() >= 3 {
        lemma_encoded_symbols(s.skip(3));
        lemma_symbol(s[0] as int / 4);
        lemma_symbol((s[0] as int % 4) * 16 + s[1] as int / 16);
        lemma_symbol((s[1] as int % 16) * 4 + s[2] as int / 64);
        lemma_symbol(s[2] as int % 64);
        assert forall|i: int| 0 <= i < encoded(s).len() implies is_symbol(
            #[trigger] encoded(s)[i],
        ) by {
            if i >= 4 {
                assert(encoded(s)[i] == encoded(s.skip(3))[i - 4]);
            }
        }
    }
}

}
