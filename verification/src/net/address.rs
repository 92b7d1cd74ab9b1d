//! Socket addresses in words: the ones that denote an address of the network, and the words in which one is written.
use vstd::prelude::*;

use crate::decimal::{decimal, lemma_decimal_digits, to_decimal};
use crate::text::{chars_of, push_chars, push_text, string_of};

verus! {

/// An address of a socket.
pub enum AddressView {
    V4 { octets: Seq<u8>, port: u16 },
    V6 { segments: Seq<u16>, scope: u32, port: u16 },
}

/// The value of a digit, in base sixteen where `hex`, else in base ten.
pub open spec fn digit(c: char, hex: bool) -> Option<nat> {
    if '0' <= c <= '9' {
        Some((c as u32 - '0' as u32) as nat)
    } else if hex && 'a' <= c <= 'f' {
        Some((c as u32 - 'a' as u32 + 10) as nat)
    } else if hex && 'A' <= c <= 'F' {
        Some((c as u32 - 'A' as u32 + 10) as nat)
    } else {
        None
    }
}

/// How many digits a text begins with.
pub open spec fn lead(s: Seq<char>, hex: bool) -> nat
    decreases s.len(),
{
    if s.len() == 0 || digit(s[0], hex) is None {
        0
    } else {
        1 + lead(s.skip(1), hex)
    }
}

/// The number that digits denote.
pub open spec fn digits_number(s: Seq<char>, hex: bool) -> nat
    decreases s.len(),
{
    if s.len() == 0 {
        0
    } else {
        digits_number(s.drop_last(), hex) * (if hex {
            16nat
        } else {
            10nat
        }) + digit(s.last(), hex).unwrap()
    }
}

/// The number that a text begins with, up to `max` and of `most` digits at most, and the rest. Zeros may stand in front
/// of it where `padded`.
#[verifier::opaque]
pub open spec fn number(s: Seq<char>, hex: bool, most: nat, padded: bool, max: nat) -> Option<(nat, Seq<char>)> {
    let n = lead(s, hex);
    let v = digits_number(s.take(n as int), hex);
    if n == 0 || n > most || (!padded && n > 1 && s[0] == '0') || v > max {
        None
    } else {
        Some((v, s.skip(n as int)))
    }
}

/// What follows a mark.
pub open spec fn behind(s: Seq<char>, mark: char) -> Option<Seq<char>> {
    if s.len() > 0 && s[0] == mark {
        Some(s.skip(1))
    } else {
        None
    }
}

/// The octets of an address of version 4 from the `i`th on, with dots between them.
pub open spec fn octets_in(s: Seq<char>, sofar: Seq<u8>, i: nat) -> Option<(Seq<u8>, Seq<char>)>
    decreases 4 - i,
{
    if i >= 4 {
        Some((sofar, s))
    } else {
        match if i == 0 {
            Some(s)
        } else {
            behind(s, '.')
        } {
            None => None,
            Some(t) => match number(t, false, 3, false, 255) {
                None => None,
                Some((n, rest)) => octets_in(rest, sofar.push(n as u8), i + 1),
            },
        }
    }
}

/// The address of version 4 that a text begins with.
#[verifier::opaque]
pub open spec fn v4_in(s: Seq<char>) -> Option<(Seq<u8>, Seq<char>)> {
    octets_in(s, seq![], 0)
}

pub open spec fn pair(high: u8, low: u8) -> u16 {
    (high * 256 + low) as u16
}

/// The segments of an address of version 6 from the `i`th of `limit` on, with colons between them, whether the last
/// two were given as an address of version 4, and the rest.
pub open spec fn segments_in(s: Seq<char>, sofar: Seq<u16>, i: nat, limit: nat) -> (Seq<u16>, bool, Seq<char>)
    decreases limit - i,
{
    if i >= limit {
        (sofar, false, s)
    } else {
        match if i == 0 {
            Some(s)
        } else {
            behind(s, ':')
        } {
            None => (sofar, false, s),
            Some(t) => match if i + 1 < limit {
                v4_in(t)
            } else {
                None
            } {
                Some((o, rest)) => (sofar.push(pair(o[0], o[1])).push(pair(o[2], o[3])), true, rest),
                None => match number(t, true, 4, true, 0xffff) {
                    Some((n, rest)) => segments_in(rest, sofar.push(n as u16), i + 1, limit),
                    None => (sofar, false, s),
                },
            },
        }
    }
}

pub open spec fn blanks(n: int) -> Seq<u16> {
    Seq::new(n as nat, |i: int| 0u16)
}

/// The address of version 6 that a text begins with: eight segments, of which one or more that are zero may be left
/// out between two colons.
#[verifier::opaque]
pub open spec fn v6_in(s: Seq<char>) -> Option<(Seq<u16>, Seq<char>)> {
    let (front, with_v4, rest) = segments_in(s, seq![], 0, 8);
    if front.len() == 8 {
        Some((front, rest))
    } else if with_v4 {
        None
    } else {
        match behind(rest, ':') {
            None => None,
            Some(t) => match behind(t, ':') {
                None => None,
                Some(u) => {
                    let (back, _, left) = segments_in(u, seq![], 0, (7 - front.len()) as nat);
                    Some((front + blanks(8 - front.len() - back.len()) + back, left))
                },
            },
        }
    }
}

/// The port behind a colon, with nothing behind it.
#[verifier::opaque]
pub open spec fn port_in(s: Seq<char>) -> Option<u16> {
    match behind(s, ':') {
        None => None,
        Some(t) => match number(t, false, t.len(), true, u16::MAX as nat) {
            Some((n, rest)) => if rest.len() == 0 {
                Some(n as u16)
            } else {
                None
            },
            None => None,
        },
    }
}

/// The scope behind a percent sign; zero where there is none.
#[verifier::opaque]
pub open spec fn scope_in(s: Seq<char>) -> Option<(u32, Seq<char>)> {
    match behind(s, '%') {
        None => Some((0, s)),
        Some(t) => match number(t, false, t.len(), true, u32::MAX as nat) {
            Some((n, rest)) => Some((n as u32, rest)),
            None => None,
        },
    }
}

/// The address of version 6 in brackets that a text denotes.
pub open spec fn bracketed(s: Seq<char>) -> Option<AddressView> {
    match behind(s, '[') {
        None => None,
        Some(t) => match v6_in(t) {
            None => None,
            Some((segments, rest)) => match scope_in(rest) {
                None => None,
                Some((scope, u)) => match behind(u, ']') {
                    None => None,
                    Some(w) => match port_in(w) {
                        Some(port) => Some(AddressView::V6 { segments, scope, port }),
                        None => None,
                    },
                },
            },
        },
    }
}

/// The address that a text denotes: one of version 4 and a port, or one of version 6 in brackets, with or without a
/// scope, and a port.
#[verifier::opaque]
pub open spec fn address_of(s: Seq<char>) -> Option<AddressView> {
    match v4_in(s) {
        Some((octets, rest)) => match port_in(rest) {
            Some(port) => Some(AddressView::V4 { octets, port }),
            None => None,
        },
        None => bracketed(s),
    }
}

pub open spec fn hex_char(n: nat) -> char {
    if n < 10 {
        (('0' as u32) + n) as u32 as char
    } else {
        (('a' as u32) + n - 10) as u32 as char
    }
}

/// A number in base sixteen.
pub open spec fn hex_text(n: nat) -> Seq<char>
    decreases n,
{
    if n < 16 {
        seq![hex_char(n)]
    } else {
        hex_text(n / 16).push(hex_char(n % 16))
    }
}

/// An address of version 4 in words.
#[verifier::opaque]
pub open spec fn v4_text(a: nat, b: nat, c: nat, d: nat) -> Seq<char> {
    decimal(a) + "."@ + decimal(b) + "."@ + decimal(c) + "."@ + decimal(d)
}

/// Segments from one place to another, with colons between them.
pub open spec fn segments_text(v: Seq<u16>, from: int, to: int) -> Seq<char>
    decreases to - from,
{
    if from >= to {
        seq![]
    } else if from + 1 == to {
        hex_text(v[from] as nat)
    } else {
        segments_text(v, from, to - 1) + ":"@ + hex_text(v[to - 1] as nat)
    }
}

/// The first of the longest rows of zeros among the first `n` segments, and the row that ends there: where each starts
/// and how long it is.
pub open spec fn zeros_among(v: Seq<u16>, n: int) -> ((int, int), (int, int))
    decreases n,
{
    if n <= 0 {
        ((0, 0), (0, 0))
    } else {
        let (longest, here) = zeros_among(v, n - 1);
        if v[n - 1] != 0 {
            (longest, (0, 0))
        } else {
            let row = if here.1 == 0 {
                (n - 1, 1)
            } else {
                (here.0, here.1 + 1)
            };
            (if row.1 > longest.1 {
                row
            } else {
                longest
            }, row)
        }
    }
}

/// Whether an address of version 6 stands for one of version 4.
pub open spec fn maps_v4(v: Seq<u16>) -> bool {
    v[0] == 0 && v[1] == 0 && v[2] == 0 && v[3] == 0 && v[4] == 0 && v[5] == 0xffff
}

/// An address of version 6 in words: the longest row of zeros is left out, where it has two or more.
#[verifier::opaque]
pub open spec fn v6_text(v: Seq<u16>) -> Seq<char> {
    if maps_v4(v) {
        "::ffff:"@ + v4_text(v[6] as nat / 256, v[6] as nat % 256, v[7] as nat / 256, v[7] as nat % 256)
    } else {
        let (start, len) = zeros_among(v, 8).0;
        if len > 1 {
            segments_text(v, 0, start) + "::"@ + segments_text(v, start + len, 8)
        } else {
            segments_text(v, 0, 8)
        }
    }
}

/// An address in words.
#[verifier::opaque]
pub open spec fn address_text(a: AddressView) -> Seq<char> {
    match a {
        AddressView::V4 { octets, port } => v4_text(
            octets[0] as nat,
            octets[1] as nat,
            octets[2] as nat,
            octets[3] as nat,
        ) + ":"@ + decimal(port as nat),
        AddressView::V6 { segments, scope, port } => "["@ + v6_text(segments) + (if scope == 0 {
            seq![]
        } else {
            "%"@ + decimal(scope as nat)
        }) + "]:"@ + decimal(port as nat),
    }
}

/// The words in which the address is written that a text denotes; `None` where it denotes none.
pub open spec fn address_words(s: Seq<char>) -> Option<Seq<char>> {
    match address_of(s) {
        Some(a) => Some(address_text(a)),
        None => None,
    }
}

/// Whether a text is an address as it is written.
pub open spec fn is_address(s: Seq<char>) -> bool {
    address_words(s) == Some(s)
}

fn digit_at(s: &[char], i: usize, hex: bool) -> (r: Option<u32>)
    requires
        i < s@.len(),
    ensures
        match r {
            Some(d) => digit(s@[i as int], hex) == Some(d as nat) && d < 16 && (!hex ==> d < 10),
            None => digit(s@[i as int], hex) is None,
        },
{
    let c = s[i];
    if '0' <= c && c <= '9' {
        Some(c as u32 - 48)
    } else if hex && 'a' <= c && c <= 'f' {
        Some(c as u32 - 97 + 10)
    } else if hex && 'A' <= c && c <= 'F' {
        Some(c as u32 - 65 + 10)
    } else {
        None
    }
}

/// All that a text begins with and that are digits.
proof fn lemma_lead(s: Seq<char>, hex: bool, n: nat)
    requires
        n <= s.len(),
        forall|i: int| 0 <= i < n ==> digit(#[trigger] s[i], hex) is Some,
        n < s.len() ==> digit(s[n as int], hex) is None,
    ensures
        lead(s, hex) == n,
    decreases s.len(),
{
    if n > 0 {
        let rest = s.skip(1);
        assert(digit(s[0], hex) is Some);
        assert forall|i: int| 0 <= i < n - 1 implies digit(#[trigger] rest[i], hex) is Some by {
            assert(rest[i] == s[i + 1]);
        }
        lemma_lead(rest, hex, (n - 1) as nat);
    }
}

/// Reads a number from a place on.
fn read_number(s: &[char], from: usize, hex: bool, most: usize, padded: bool, max: u32) -> (r: Option<(u32, usize)>)
    requires
        from <= s@.len(),
    ensures
        match number(s@.skip(from as int), hex, most as nat, padded, max as nat) {
            Some((v, rest)) => r matches Some((x, to)) && x == v && from < to <= s@.len() && rest == s@.skip(
                to as int,
            ),
            None => r is None,
        },
{
    proof {
        reveal(number);
    }
    let ghost t = s@.skip(from as int);
    let base: u64 = if hex {
        16
    } else {
        10
    };
    let mut value: u64 = 0;
    let mut large = false;
    let mut at: usize = from;
    assert(t.take(0) =~= seq![]);
    while at < s.len() && digit_at(s, at, hex).is_some()
        invariant
            from <= at <= s@.len(),
            t == s@.skip(from as int),
            base == (if hex {
                16u64
            } else {
                10u64
            }),
            forall|i: int| 0 <= i < at - from ==> digit(#[trigger] t[i], hex) is Some,
            value <= max,
            !large ==> value == digits_number(t.take(at - from), hex),
            large ==> digits_number(t.take(at - from), hex) > max,
        decreases s@.len() - at,
    {
        let d: u64 = match digit_at(s, at, hex) {
            Some(d) => d as u64,
            None => 0,
        };
        proof {
            let n = at - from;
            assert(t[n] == s@[at as int]);
            assert(t.take(n + 1).drop_last() =~= t.take(n));
            assert(t.take(n + 1).last() == t[n]);
        }
        if !large {
            let next: u64 = value * base + d;
            if next > max as u64 {
                large = true;
            } else {
                value = next;
            }
        }
        at = at + 1;
    }
    let n: usize = at - from;
    proof {
        if at < s@.len() {
            assert(t[n as int] == s@[at as int]);
        }
        lemma_lead(t, hex, n as nat);
        assert(t.skip(n as int) =~= s@.skip(at as int));
    }
    if n == 0 || n > most || large {
        return None;
    }
    if !padded && n > 1 && s[from] == '0' {
        assert(t[0] == s@[from as int]);
        return None;
    }
    assert(t[0] == s@[from as int]);
    Some((value as u32, at))
}

fn read_mark(s: &[char], from: usize, mark: char) -> (r: Option<usize>)
    requires
        from <= s@.len(),
    ensures
        match behind(s@.skip(from as int), mark) {
            Some(rest) => r matches Some(p) && p == from + 1 && p <= s@.len() && rest == s@.skip(p as int),
            None => r is None,
        },
{
    if from < s.len() && s[from] == mark {
        assert(s@.skip(from as int).skip(1) =~= s@.skip(from + 1));
        Some(from + 1)
    } else {
        None
    }
}

/// Reads an address of version 4 from a place on.
fn read_v4(s: &[char], from: usize) -> (r: Option<(Vec<u8>, usize)>)
    requires
        from <= s@.len(),
    ensures
        match v4_in(s@.skip(from as int)) {
            Some((o, rest)) => r matches Some((v, to)) && v@ == o && o.len() == 4 && from <= to <= s@.len() && rest
                == s@.skip(to as int),
            None => r is None,
        },
{
    proof {
        reveal(v4_in);
    }
    let mut out: Vec<u8> = Vec::new();
    let mut at: usize = from;
    let mut i: usize = 0;
    while i < 4
        invariant
            i <= 4,
            from <= at <= s@.len(),
            out@.len() == i,
            octets_in(s@.skip(at as int), out@, i as nat) == v4_in(s@.skip(from as int)),
        decreases 4 - i,
    {
        let start: usize = if i == 0 {
            at
        } else {
            match read_mark(s, at, '.') {
                Some(p) => p,
                None => {
                    return None;
                },
            }
        };
        match read_number(s, start, false, 3, false, 255) {
            Some((n, to)) => {
                out.push(n as u8);
                at = to;
            },
            None => {
                return None;
            },
        }
        i = i + 1;
    }
    Some((out, at))
}

fn pair_up(high: u8, low: u8) -> (r: u16)
    ensures
        r == pair(high, low),
{
    high as u16 * 256 + low as u16
}

/// Reads segments from a place on.
fn read_segments(s: &[char], from: usize, limit: usize) -> (r: (Vec<u16>, bool, usize))
    requires
        from <= s@.len(),
        limit <= 8,
    ensures
        ({
            let (v, with_v4, rest) = segments_in(s@.skip(from as int), seq![], 0, limit as nat);
            r.0@ == v && r.1 == with_v4 && from <= r.2 <= s@.len() && rest == s@.skip(r.2 as int) && v.len() <= limit
        }),
{
    let mut out: Vec<u16> = Vec::new();
    let mut at: usize = from;
    let mut i: usize = 0;
    while i < limit
        invariant
            i <= limit <= 8,
            from <= at <= s@.len(),
            out@.len() == i,
            segments_in(s@.skip(at as int), out@, i as nat, limit as nat) == segments_in(
                s@.skip(from as int),
                seq![],
                0,
                limit as nat,
            ),
        decreases limit - i,
    {
        let start: usize = if i == 0 {
            at
        } else {
            match read_mark(s, at, ':') {
                Some(p) => p,
                None => {
                    return (out, false, at);
                },
            }
        };
        if i + 1 < limit {
            match read_v4(s, start) {
                Some((o, to)) => {
                    out.push(pair_up(o[0], o[1]));
                    out.push(pair_up(o[2], o[3]));
                    return (out, true, to);
                },
                None => {},
            }
        }
        match read_number(s, start, true, 4, true, 0xffff) {
            Some((n, to)) => {
                out.push(n as u16);
                at = to;
            },
            None => {
                return (out, false, at);
            },
        }
        i = i + 1;
    }
    (out, false, at)
}

/// Reads an address of version 6 from a place on.
fn read_v6(s: &[char], from: usize) -> (r: Option<(Vec<u16>, usize)>)
    requires
        from <= s@.len(),
    ensures
        match v6_in(s@.skip(from as int)) {
            Some((v, rest)) => r matches Some((x, to)) && x@ == v && v.len() == 8 && from <= to <= s@.len() && rest
                == s@.skip(to as int),
            None => r is None,
        },
{
    proof {
        reveal(v6_in);
    }
    let (front, with_v4, at) = read_segments(s, from, 8);
    if front.len() == 8 {
        return Some((front, at));
    }
    if with_v4 {
        return None;
    }
    let at = match read_mark(s, at, ':') {
        Some(p) => p,
        None => {
            return None;
        },
    };
    let at = match read_mark(s, at, ':') {
        Some(p) => p,
        None => {
            return None;
        },
    };
    let (back, _, to) = read_segments(s, at, 7 - front.len());
    let mut out = front;
    let gap: usize = 8 - out.len() - back.len();
    let ghost start = out@;
    let mut k: usize = 0;
    assert(start + blanks(0) =~= start);
    while k < gap
        invariant
            k <= gap,
            out@ == start + blanks(k as int),
        decreases gap - k,
    {
        out.push(0);
        k = k + 1;
        assert(out@ =~= start + blanks(k as int));
    }
    let mut k: usize = 0;
    assert(out@ =~= start + blanks(gap as int) + back@.take(0));
    while k < back.len()
        invariant
            k <= back@.len(),
            out@ == start + blanks(gap as int) + back@.take(k as int),
        decreases back@.len() - k,
    {
        out.push(back[k]);
        k = k + 1;
        assert(out@ =~= start + blanks(gap as int) + back@.take(k as int));
    }
    assert(out@ =~= start + blanks(gap as int) + back@);
    Some((out, to))
}

fn read_port(s: &[char], from: usize) -> (r: Option<u16>)
    requires
        from <= s@.len(),
    ensures
        r == port_in(s@.skip(from as int)),
{
    proof {
        reveal(port_in);
    }
    let at = match read_mark(s, from, ':') {
        Some(p) => p,
        None => {
            return None;
        },
    };
    let most: usize = s.len() - at;
    match read_number(s, at, false, most, true, 0xffff) {
        Some((n, to)) => if to == s.len() {
            Some(n as u16)
        } else {
            None
        },
        None => None,
    }
}

fn read_scope(s: &[char], from: usize) -> (r: Option<(u32, usize)>)
    requires
        from <= s@.len(),
    ensures
        match scope_in(s@.skip(from as int)) {
            Some((v, rest)) => r matches Some((x, to)) && x == v && from <= to <= s@.len() && rest == s@.skip(
                to as int,
            ),
            None => r is None,
        },
{
    proof {
        reveal(scope_in);
    }
    match read_mark(s, from, '%') {
        Some(at) => {
            let most: usize = s.len() - at;
            read_number(s, at, false, most, true, u32::MAX)
        },
        None => Some((0, from)),
    }
}

fn push_hex(out: &mut Vec<char>, n: u16)
    ensures
        final(out)@ == old(out)@ + hex_text(n as nat),
    decreases n,
{
    if n >= 16 {
        push_hex(out, n / 16);
    }
    let ghost before = out@;
    let d: u32 = (n % 16) as u32;
    let c = if d < 10 {
        (48 + d as u8) as char
    } else {
        (97 + d as u8 - 10) as char
    };
    out.push(c);
    proof {
        assert(c == hex_char(d as nat));
        assert(out@ =~= old(out)@ + hex_text(n as nat));
    }
}

fn push_number(out: &mut Vec<char>, n: u64)
    ensures
        final(out)@ == old(out)@ + decimal(n as nat),
{
    push_chars(out, to_decimal(n).as_slice());
}

fn push_v4(out: &mut Vec<char>, a: u8, b: u8, c: u8, d: u8)
    ensures
        final(out)@ == old(out)@ + v4_text(a as nat, b as nat, c as nat, d as nat),
{
    proof {
        reveal(v4_text);
    }
    push_number(out, a as u64);
    push_text(out, ".");
    push_number(out, b as u64);
    push_text(out, ".");
    push_number(out, c as u64);
    push_text(out, ".");
    push_number(out, d as u64);
    assert(out@ =~= old(out)@ + v4_text(a as nat, b as nat, c as nat, d as nat));
}

fn push_segments(out: &mut Vec<char>, v: &Vec<u16>, from: usize, to: usize)
    requires
        from <= to <= v@.len(),
    ensures
        final(out)@ == old(out)@ + segments_text(v@, from as int, to as int),
{
    let ghost start = out@;
    let mut i: usize = from;
    assert(out@ =~= start + segments_text(v@, from as int, from as int));
    while i < to
        invariant
            from <= i <= to <= v@.len(),
            out@ == start + segments_text(v@, from as int, i as int),
        decreases to - i,
    {
        if i > from {
            push_text(out, ":");
        }
        push_hex(out, v[i]);
        i = i + 1;
        assert(out@ =~= start + segments_text(v@, from as int, i as int));
    }
}

/// Finds the first of the longest rows of zeros.
fn longest_zeros(v: &Vec<u16>) -> (r: (usize, usize))
    requires
        v@.len() == 8,
    ensures
        (r.0 as int, r.1 as int) == zeros_among(v@, 8).0,
        r.0 + r.1 <= 8,
{
    let mut start: usize = 0;
    let mut len: usize = 0;
    let mut here: usize = 0;
    let mut run: usize = 0;
    let mut i: usize = 0;
    while i < 8
        invariant
            i <= 8,
            v@.len() == 8,
            zeros_among(v@, i as int) == ((start as int, len as int), (here as int, run as int)),
            start + len <= i,
            run > 0 ==> here + run == i,
            run <= i,
        decreases 8 - i,
    {
        if v[i] != 0 {
            here = 0;
            run = 0;
        } else {
            if run == 0 {
                here = i;
            }
            run = run + 1;
            if run > len {
                start = here;
                len = run;
            }
        }
        i = i + 1;
    }
    (start, len)
}

fn push_v6(out: &mut Vec<char>, v: &Vec<u16>)
    requires
        v@.len() == 8,
    ensures
        final(out)@ == old(out)@ + v6_text(v@),
{
    proof {
        reveal(v6_text);
    }
    if v[0] == 0 && v[1] == 0 && v[2] == 0 && v[3] == 0 && v[4] == 0 && v[5] == 0xffff {
        push_text(out, "::ffff:");
        push_v4(out, (v[6] / 256) as u8, (v[6] % 256) as u8, (v[7] / 256) as u8, (v[7] % 256) as u8);
        assert(out@ =~= old(out)@ + v6_text(v@));
        return ;
    }
    let (start, len) = longest_zeros(v);
    if len > 1 {
        push_segments(out, v, 0, start);
        push_text(out, "::");
        push_segments(out, v, start + len, 8);
    } else {
        push_segments(out, v, 0, 8);
    }
    assert(out@ =~= old(out)@ + v6_text(v@));
}

/// An address, as it was read.
enum Address {
    V4(Vec<u8>, u16),
    V6(Vec<u16>, u32, u16),
}

impl Address {
    spec fn view(&self) -> AddressView {
        match self {
            Address::V4(o, port) => AddressView::V4 { octets: o@, port: *port },
            Address::V6(v, scope, port) => AddressView::V6 { segments: v@, scope: *scope, port: *port },
        }
    }

    spec fn inv(&self) -> bool {
        match self {
            Address::V4(o, _) => o@.len() == 4,
            Address::V6(v, _, _) => v@.len() == 8,
        }
    }
}

fn read_bracketed(s: &[char]) -> (r: Option<Address>)
    ensures
        match r {
            Some(a) => a.inv() && bracketed(s@) == Some(a@),
            None => bracketed(s@) is None,
        },
{
    assert(s@.skip(0) =~= s@);
    let at = match read_mark(s, 0, '[') {
        Some(p) => p,
        None => {
            return None;
        },
    };
    let (v, at) = match read_v6(s, at) {
        Some(p) => p,
        None => {
            return None;
        },
    };
    let (scope, at) = match read_scope(s, at) {
        Some(p) => p,
        None => {
            return None;
        },
    };
    let at = match read_mark(s, at, ']') {
        Some(p) => p,
        None => {
            return None;
        },
    };
    match read_port(s, at) {
        Some(port) => Some(Address::V6(v, scope, port)),
        None => None,
    }
}

fn read_address(s: &[char]) -> (r: Option<Address>)
    ensures
        match r {
            Some(a) => a.inv() && address_of(s@) == Some(a@),
            None => address_of(s@) is None,
        },
{
    reveal(address_of);
    assert(s@.skip(0) =~= s@);
    match read_v4(s, 0) {
        Some((o, at)) => match read_port(s, at) {
            Some(port) => Some(Address::V4(o, port)),
            None => None,
        },
        None => read_bracketed(s),
    }
}

fn write_address(a: &Address) -> (r: Vec<char>)
    requires
        a.inv(),
    ensures
        r@ == address_text(a@),
{
    let mut out: Vec<char> = Vec::new();
    match a {
        Address::V4(o, port) => {
            push_v4(&mut out, o[0], o[1], o[2], o[3]);
            push_text(&mut out, ":");
            push_number(&mut out, *port as u64);
        },
        Address::V6(v, scope, port) => {
            push_text(&mut out, "[");
            push_v6(&mut out, v);
            if *scope != 0 {
                push_text(&mut out, "%");
                push_number(&mut out, *scope as u64);
            }
            push_text(&mut out, "]:");
            push_number(&mut out, *port as u64);
        },
    }
    reveal(address_text);
    assert(out@ =~= address_text(a@));
    out
}

/// Reads an address, and gives the words in which it is written; `None` where a text denotes none.
pub fn canonical_address(text: &str) -> (r: Option<String>)
    ensures
        match r {
            Some(w) => address_words(text@) == Some(w@),
            None => address_words(text@) is None,
        },
{
    let chars = chars_of(text);
    match read_address(chars.as_slice()) {
        Some(a) => Some(string_of(write_address(&a).as_slice())),
        None => None,
    }
}

/// A text that denotes no address of a socket.
#[derive(Debug, Clone, Copy, PartialEq, Eq, Structural)]
pub struct NoAddress;

/// An address has words.
pub proof fn lemma_address_some(s: Seq<char>)
    requires
        is_address(s),
    ensures
        s.len() > 0,
{
    reveal(address_text);
    reveal_strlit(":");
    reveal_strlit("[");
}

/// A number that begins a text is read back, where no digit follows it.
proof fn lemma_number(t: Seq<char>, rest: Seq<char>, hex: bool, most: nat, padded: bool, max: nat)
    requires
        0 < t.len() <= most,
        forall|i: int| 0 <= i < t.len() ==> digit(#[trigger] t[i], hex) is Some,
        rest.len() > 0 ==> digit(rest[0], hex) is None,
        padded || t.len() == 1 || t[0] != '0',
        digits_number(t, hex) <= max,
    ensures
        number(t + rest, hex, most, padded, max) == Some((digits_number(t, hex), rest)),
{
    reveal(number);
    let s = t + rest;
    let n = t.len();
    assert forall|i: int| 0 <= i < n implies digit(#[trigger] s[i], hex) is Some by {
        assert(s[i] == t[i]);
    }
    if rest.len() > 0 {
        assert(s[n as int] == rest[0]);
    }
    lemma_lead(s, hex, n);
    assert(s.take(n as int) =~= t);
    assert(s.skip(n as int) =~= rest);
    assert(s[0] == t[0]);
}

/// A number in base ten: its digits denote it, and none of them is a zero in front.
proof fn lemma_decimal_text(n: nat)
    ensures
        decimal(n).len() > 0,
        forall|i: int| 0 <= i < decimal(n).len() ==> digit(#[trigger] decimal(n)[i], false) is Some,
        digits_number(decimal(n), false) == n,
        n > 0 ==> decimal(n)[0] != '0',
        n == 0 ==> decimal(n).len() == 1,
        n < 1000 ==> decimal(n).len() <= 3,
    decreases n,
{
    let d = decimal(n);
    lemma_decimal_digits(n);
    if n < 10 {
        assert(digits_number(d.drop_last(), false) == 0);
    } else {
        lemma_decimal_text(n / 10);
        assert(d.drop_last() =~= decimal(n / 10));
        assert(d[0] == decimal(n / 10)[0]);
        if n < 1000 {
            if n / 10 >= 10 {
                assert(decimal(n / 10).len() == decimal(n / 100).len() + 1);
                assert(n / 10 / 10 < 10);
                assert(decimal(n / 10 / 10).len() == 1);
            }
        }
    }
}

/// A number in base sixteen.
proof fn lemma_hex_text(n: nat)
    ensures
        hex_text(n).len() > 0,
        forall|i: int| 0 <= i < hex_text(n).len() ==> digit(#[trigger] hex_text(n)[i], true) is Some,
        digits_number(hex_text(n), true) == n,
        n < 0x10 ==> hex_text(n).len() == 1,
        n < 0x100 ==> hex_text(n).len() <= 2,
        n < 0x1000 ==> hex_text(n).len() <= 3,
        n < 0x10000 ==> hex_text(n).len() <= 4,
    decreases n,
{
    let d = hex_text(n);
    if n < 16 {
        assert(digits_number(d.drop_last(), true) == 0);
        assert(digit(hex_char(n), true) == Some(n));
    } else {
        lemma_hex_text(n / 16);
        assert(d.drop_last() =~= hex_text(n / 16));
        assert(digit(hex_char(n % 16), true) == Some(n % 16));
    }
}

/// An octet behind others is read back.
proof fn lemma_octet(n: u8, rest: Seq<char>)
    requires
        rest.len() > 0 ==> digit(rest[0], false) is None,
    ensures
        number(decimal(n as nat) + rest, false, 3, false, 255) == Some((n as nat, rest)),
{
    lemma_decimal_text(n as nat);
    lemma_number(decimal(n as nat), rest, false, 3, false, 255);
}

/// One octet more, behind a dot where it is not the first.
proof fn lemma_octet_step(n: u8, rest: Seq<char>, sofar: Seq<u8>, i: nat)
    requires
        i < 4,
        rest.len() > 0 ==> digit(rest[0], false) is None,
    ensures
        octets_in(
            if i == 0 {
                decimal(n as nat) + rest
            } else {
                "."@ + (decimal(n as nat) + rest)
            },
            sofar,
            i,
        ) == octets_in(rest, sofar.push(n), i + 1),
{
    reveal_strlit(".");
    let t = decimal(n as nat) + rest;
    lemma_octet(n, rest);
    assert(("."@ + t).skip(1) =~= t);
    assert(("."@ + t)[0] == '.');
}

/// An address of version 4 in words is read back.
proof fn lemma_v4_read(a: u8, b: u8, c: u8, d: u8, rest: Seq<char>)
    requires
        rest.len() > 0 ==> digit(rest[0], false) is None,
    ensures
        v4_in(v4_text(a as nat, b as nat, c as nat, d as nat) + rest) == Some((seq![a, b, c, d], rest)),
{
    reveal(v4_in);
    reveal(v4_text);
    reveal_strlit(".");
    let dot = "."@;
    let r3 = decimal(d as nat) + rest;
    let r2 = decimal(c as nat) + (dot + r3);
    let r1 = decimal(b as nat) + (dot + r2);
    let s = v4_text(a as nat, b as nat, c as nat, d as nat) + rest;
    assert(s =~= decimal(a as nat) + (dot + r1));
    let none = Seq::<u8>::empty();
    assert(dot[0] == '.');
    lemma_octet_step(a, dot + r1, none, 0);
    lemma_octet_step(b, dot + r2, none.push(a), 1);
    lemma_octet_step(c, dot + r3, none.push(a).push(b), 2);
    lemma_octet_step(d, rest, none.push(a).push(b).push(c), 3);
    assert(none.push(a).push(b).push(c).push(d) =~= seq![a, b, c, d]);
}

/// Digits end where there is none.
proof fn lemma_lead_end(s: Seq<char>, hex: bool)
    ensures
        lead(s, hex) <= s.len(),
        lead(s, hex) < s.len() ==> digit(s[lead(s, hex) as int], hex) is None,
    decreases s.len(),
{
    if s.len() > 0 && digit(s[0], hex) is Some {
        lemma_lead_end(s.skip(1), hex);
    }
}

/// What has no dot behind its first digits is no address of version 4.
proof fn lemma_no_v4(s: Seq<char>)
    requires
        forall|i: int| 0 <= i < s.len() && s[i] == '.' ==> exists|j: int|
            0 <= j < i && digit(#[trigger] s[j], false) is None,
    ensures
        v4_in(s) is None,
{
    reveal(number);
    reveal(v4_in);
    let n = lead(s, false) as int;
    lemma_lead_end(s, false);
    lemma_lead_digits(s, false);
    if let Some((v, rest)) = number(s, false, 3, false, 255) {
        if n < s.len() {
            assert(rest[0] == s[n]);
            if s[n] == '.' {
                let j = choose|j: int| 0 <= j < n && digit(#[trigger] s[j], false) is None;
                assert(digit(s[j], false) is Some);
            }
        }
        assert(behind(rest, '.') is None);
        assert(octets_in(rest, seq![].push(v as u8), 1) is None);
    }
}

proof fn lemma_lead_digits(s: Seq<char>, hex: bool)
    ensures
        forall|i: int| 0 <= i < lead(s, hex) ==> digit(#[trigger] s[i], hex) is Some,
    decreases s.len(),
{
    if s.len() > 0 && digit(s[0], hex) is Some {
        lemma_lead_digits(s.skip(1), hex);
        lemma_lead_end(s, hex);
        assert forall|i: int| 0 <= i < lead(s, hex) implies digit(#[trigger] s[i], hex) is Some by {
            if i > 0 {
                assert(s.skip(1)[i - 1] == s[i]);
            }
        }
    }
}

/// Whether segments end before a text: the scope, the bracket or the gap follows.
spec fn stops(rest: Seq<char>) -> bool {
    rest.len() > 0 && (rest[0] == '%' || rest[0] == ']' || (rest[0] == ':' && rest.len() > 1 && rest[1] == ':'))
}

/// The first of several segments stands by itself.
proof fn lemma_segments_front(v: Seq<u16>, from: int, to: int)
    requires
        from + 1 < to,
    ensures
        segments_text(v, from, to) == hex_text(v[from] as nat) + ":"@ + segments_text(v, from + 1, to),
    decreases to - from,
{
    if from + 2 < to {
        lemma_segments_front(v, from, to - 1);
        assert(segments_text(v, from, to) =~= hex_text(v[from] as nat) + ":"@ + segments_text(v, from + 1, to));
    } else {
        assert(segments_text(v, from, to - 1) == hex_text(v[from] as nat));
    }
}

/// A segment is read back, where neither a digit nor a dot follows it.
proof fn lemma_segment(n: u16, rest: Seq<char>)
    requires
        rest.len() > 0,
        rest[0] == ':' || rest[0] == '%' || rest[0] == ']',
    ensures
        v4_in(hex_text(n as nat) + rest) is None,
        number(hex_text(n as nat) + rest, true, 4, true, 0xffff) == Some((n as nat, rest)),
{
    let t = hex_text(n as nat);
    let s = t + rest;
    lemma_hex_text(n as nat);
    lemma_number(t, rest, true, 4, true, 0xffff);
    assert(digit(rest[0], false) is None);
    assert forall|i: int| 0 <= i < s.len() && s[i] == '.' implies exists|j: int|
        0 <= j < i && digit(#[trigger] s[j], false) is None by {
        if i < t.len() {
            assert(digit(t[i], true) is Some);
        } else if i == t.len() {
            assert(s[i] == rest[0]);
        } else {
            assert(s[t.len() as int] == rest[0]);
            assert(digit(s[t.len() as int], false) is None);
        }
    }
    lemma_no_v4(s);
}

/// What begins with a mark begins with no number.
proof fn lemma_no_number(s: Seq<char>)
    requires
        s.len() > 0,
        s[0] == ':' || s[0] == '%' || s[0] == ']',
    ensures
        v4_in(s) is None,
        number(s, true, 4, true, 0xffff) is None,
{
    reveal(number);
    reveal(v4_in);
    assert(digit(s[0], true) is None && digit(s[0], false) is None);
    assert(lead(s, true) == 0 && lead(s, false) == 0);
}

/// What is left of a text of segments.
spec fn left(v: Seq<u16>, from: int, to: int, rest: Seq<char>, i: nat) -> Seq<char> {
    if from >= to {
        rest
    } else if i == 0 {
        segments_text(v, from, to) + rest
    } else {
        ":"@ + segments_text(v, from, to) + rest
    }
}

/// Segments in words are read back.
proof fn lemma_segments_read(v: Seq<u16>, from: int, to: int, rest: Seq<char>, sofar: Seq<u16>, i: nat, limit: nat)
    requires
        0 <= from <= to <= v.len(),
        i + (to - from) <= limit,
        stops(rest),
    ensures
        segments_in(left(v, from, to, rest, i), sofar, i, limit) == (sofar + v.subrange(from, to), false, rest),
    decreases to - from,
{
    reveal_strlit(":");
    let s = left(v, from, to, rest, i);
    if from == to {
        assert(sofar + v.subrange(from, to) =~= sofar);
        if i < limit {
            if i == 0 {
                lemma_no_number(rest);
            } else if rest[0] == ':' {
                let t = rest.skip(1);
                assert(t[0] == rest[1]);
                lemma_no_number(t);
            }
        }
    } else {
        let more = left(v, from + 1, to, rest, i + 1);
        let t = hex_text(v[from] as nat) + more;
        if from + 1 < to {
            lemma_segments_front(v, from, to);
            assert(segments_text(v, from, to) + rest =~= t);
            assert(more[0] == ':');
        } else {
            assert(segments_text(v, from, to) + rest =~= t);
        }
        if i > 0 {
            assert(s =~= ":"@ + t);
            assert(s.skip(1) =~= t);
        }
        lemma_segment(v[from], more);
        lemma_segments_read(v, from + 1, to, rest, sofar.push(v[from]), i + 1, limit);
        assert(sofar.push(v[from]) + v.subrange(from + 1, to) =~= sofar + v.subrange(from, to));
    }
}

/// A row of zeros is one.
proof fn lemma_zeros(v: Seq<u16>, n: int)
    requires
        0 <= n <= v.len(),
    ensures
        ({
            let (longest, here) = zeros_among(v, n);
            &&& 0 <= longest.0 && 0 <= longest.1 && longest.0 + longest.1 <= n
            &&& forall|i: int| longest.0 <= i < longest.0 + longest.1 ==> #[trigger] v[i] == 0
            &&& 0 <= here.0 && 0 <= here.1 && here.0 + here.1 <= n
            &&& here.1 > 0 ==> here.0 + here.1 == n
            &&& forall|i: int| here.0 <= i < here.0 + here.1 ==> #[trigger] v[i] == 0
        }),
    decreases n,
{
    if n > 0 {
        lemma_zeros(v, n - 1);
    }
}

/// An address of version 6 in words is read back.
proof fn lemma_v6_read(v: Seq<u16>, rest: Seq<char>)
    requires
        v.len() == 8,
        stops(rest),
        rest[0] != ':',
    ensures
        v6_in(v6_text(v) + rest) == Some((v, rest)),
{
    reveal(v6_in);
    reveal(v6_text);
    reveal_strlit(":");
    reveal_strlit("::");
    let none = Seq::<u16>::empty();
    if maps_v4(v) {
        lemma_mapped_read(v, rest);
    } else {
        let (start, len) = zeros_among(v, 8).0;
        lemma_zeros(v, 8);
        if len > 1 {
            let back = left(v, start + len, 8, rest, 0);
            let gap = "::"@ + back;
            let s = v6_text(v) + rest;
            assert(s =~= left(v, 0, start, gap, 0)) by {
                if start + len >= 8 {
                    assert(segments_text(v, start + len, 8) =~= seq![]);
                }
                if start == 0 {
                    assert(segments_text(v, 0, 0) =~= seq![]);
                }
            }
            lemma_segments_read(v, 0, start, gap, none, 0, 8);
            let front = v.subrange(0, start);
            assert(none + front =~= front);
            assert(gap.skip(1).skip(1) =~= back);
            assert(gap.skip(1)[0] == ':');
            lemma_segments_read(v, start + len, 8, rest, none, 0, (7 - start) as nat);
            let tail = v.subrange(start + len, 8);
            assert(none + tail =~= tail);
            assert(front + blanks(8 - front.len() - tail.len()) + tail =~= v);
        } else {
            lemma_segments_read(v, 0, 8, rest, none, 0, 8);
            assert(none + v.subrange(0, 8) =~= v);
        }
    }
}

proof fn lemma_mapped_read(v: Seq<u16>, rest: Seq<char>)
    requires
        v.len() == 8,
        maps_v4(v),
        stops(rest),
        rest[0] != ':',
    ensures
        v6_in(v6_text(v) + rest) == Some((v, rest)),
{
    reveal(v6_in);
    reveal(v6_text);
    reveal(v4_in);
    reveal(number);
    reveal_strlit("::ffff:");
    reveal_strlit("ffff");
    let a = (v[6] / 256) as u8;
    let b = (v[6] % 256) as u8;
    let c = (v[7] / 256) as u8;
    let d = (v[7] % 256) as u8;
    let inner = v4_text(a as nat, b as nat, c as nat, d as nat) + rest;
    let s = v6_text(v) + rest;
    assert(s =~= "::ffff:"@ + inner);
    lemma_no_number(s);
    assert(segments_in(s, seq![], 0, 8) == (Seq::<u16>::empty(), false, s));
    let u = s.skip(1).skip(1);
    let t = "ffff"@;
    let more = seq![':'] + inner;
    assert(u =~= t + more);
    assert(s[0] == ':' && s.skip(1)[0] == ':');
    assert(digits_number(t, true) == 0xffff) by {
        let t3 = t.drop_last();
        let t2 = t3.drop_last();
        let t1 = t2.drop_last();
        assert(digits_number(t1.drop_last(), true) == 0);
        assert(t1.last() == 'f' && t2.last() == 'f' && t3.last() == 'f' && t.last() == 'f');
        assert(digits_number(t1, true) == 15);
        assert(digits_number(t2, true) == 255);
        assert(digits_number(t3, true) == 4095);
    }
    lemma_number(t, more, true, 4, true, 0xffff);
    assert(u[0] == 'f');
    assert(lead(u, false) == 0);
    assert(v4_in(u) is None);
    assert(more.skip(1) =~= inner);
    assert(digit(rest[0], false) is None);
    lemma_v4_read(a, b, c, d, rest);
    let one = seq![0xffffu16];
    assert(Seq::<u16>::empty().push(0xffff) =~= one);
    let back = one.push(pair(a, b)).push(pair(c, d));
    assert(segments_in(more, one, 1, 7) == (back, true, rest));
    assert(segments_in(u, seq![], 0, 7) == (back, true, rest));
    assert(Seq::<u16>::empty() + blanks(5) + back =~= v);
}

/// A port is read back.
proof fn lemma_port_read(port: u16)
    ensures
        port_in(":"@ + decimal(port as nat)) == Some(port),
{
    reveal(port_in);
    reveal_strlit(":");
    let t = decimal(port as nat);
    let s = ":"@ + t;
    assert(s.skip(1) =~= t);
    lemma_decimal_text(port as nat);
    lemma_number(t, seq![], false, t.len(), true, u16::MAX as nat);
    assert(t + seq![] =~= t);
}

/// Whether octets and segments are as many as an address has.
pub open spec fn is_whole(a: AddressView) -> bool {
    match a {
        AddressView::V4 { octets, .. } => octets.len() == 4,
        AddressView::V6 { segments, .. } => segments.len() == 8,
    }
}

/// An address in words denotes that address.
pub proof fn law_address_reads_back(a: AddressView)
    requires
        is_whole(a),
    ensures
        address_of(address_text(a)) == Some(a),
        is_address(address_text(a)),
{
    reveal(scope_in);
    reveal(v4_in);
    reveal(number);
    reveal(address_of);
    reveal(address_text);
    reveal_strlit(":");
    reveal_strlit("[");
    reveal_strlit("]:");
    reveal_strlit("%");
    let s = address_text(a);
    match a {
        AddressView::V4 { octets, port } => {
            let rest = ":"@ + decimal(port as nat);
            lemma_port_read(port);
            lemma_v4_read(octets[0], octets[1], octets[2], octets[3], rest);
            assert(s =~= v4_text(octets[0] as nat, octets[1] as nat, octets[2] as nat, octets[3] as nat) + rest);
            assert(seq![octets[0], octets[1], octets[2], octets[3]] =~= octets);
        },
        AddressView::V6 { segments, scope, port } => {
            let end = ":"@ + decimal(port as nat);
            let close = seq![']'] + end;
            let digits = decimal(scope as nat);
            let rest = if scope == 0 {
                close
            } else {
                "%"@ + (digits + close)
            };
            lemma_port_read(port);
            assert(s =~= "["@ + (v6_text(segments) + rest));
            assert(s.skip(1) =~= v6_text(segments) + rest);
            lemma_v6_read(segments, rest);
            assert(close.skip(1) =~= end);
            if scope != 0 {
                assert(rest.skip(1) =~= digits + close);
                lemma_decimal_text(scope as nat);
                lemma_number(digits, close, false, (digits + close).len(), true, u32::MAX as nat);
            }
            assert(s[0] == '[');
            assert(lead(s, false) == 0);
            assert(v4_in(s) is None);
        },
    }
}

proof fn lemma_octets_whole(s: Seq<char>, sofar: Seq<u8>, i: nat)
    requires
        sofar.len() == i <= 4,
    ensures
        octets_in(s, sofar, i) matches Some((o, _)) ==> o.len() == 4,
    decreases 4 - i,
{
    if i < 4 {
        let t = if i == 0 {
            Some(s)
        } else {
            behind(s, '.')
        };
        if let Some(t) = t {
            if let Some((n, rest)) = number(t, false, 3, false, 255) {
                lemma_octets_whole(rest, sofar.push(n as u8), i + 1);
            }
        }
    }
}

proof fn lemma_segments_within(s: Seq<char>, sofar: Seq<u16>, i: nat, limit: nat)
    requires
        sofar.len() == i <= limit,
    ensures
        segments_in(s, sofar, i, limit).0.len() <= limit,
    decreases limit - i,
{
    if i < limit {
        let t = if i == 0 {
            Some(s)
        } else {
            behind(s, ':')
        };
        if let Some(t) = t {
            if let Some((n, rest)) = number(t, true, 4, true, 0xffff) {
                lemma_segments_within(rest, sofar.push(n as u16), i + 1, limit);
            }
        }
    }
}

/// The words of an address are an address as it is written.
pub proof fn law_address_words_settle(s: Seq<char>)
    ensures
        address_words(s) matches Some(w) ==> is_address(w),
{
    if let Some(a) = address_of(s) {
        assert(is_whole(a)) by {
            reveal(address_of);
            reveal(v4_in);
            reveal(v6_in);
            lemma_octets_whole(s, seq![], 0);
            if v4_in(s) is None {
                let t = behind(s, '[')->0;
                lemma_segments_within(t, seq![], 0, 8);
                let (front, _, rest) = segments_in(t, seq![], 0, 8);
                if front.len() < 8 {
                    let u = behind(behind(rest, ':')->0, ':')->0;
                    lemma_segments_within(u, seq![], 0, (7 - front.len()) as nat);
                }
            }
        }
        law_address_reads_back(a);
    }
}

}
