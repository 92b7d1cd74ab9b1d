//! Unsigned numbers in decimal and in hexadecimal notation.
use vstd::prelude::*;

verus! {

pub open spec fn is_digit(c: char) -> bool {
    '0' <= c <= '9'
}

pub open spec fn digit_value(c: char) -> nat {
    (c as u32 - '0' as u32) as nat
}

/// The digit for a number below ten.
pub open spec fn digit_char(d: nat) -> char {
    (('0' as u32) + d) as u32 as char
}

/// `n` in decimal notation, without leading zeros.
pub open spec fn decimal(n: nat) -> Seq<char>
    decreases n,
{
    if n < 10 {
        seq![digit_char(n)]
    } else {
        decimal(n / 10).push(digit_char(n % 10))
    }
}

/// The number that a row of digits denotes.
pub open spec fn digits_value(s: Seq<char>) -> nat
    decreases s.len(),
{
    if s.len() == 0 {
        0
    } else {
        digits_value(s.drop_last()) * 10 + digit_value(s.last())
    }
}

pub open spec fn all_digits(s: Seq<char>) -> bool {
    forall|i: int| 0 <= i < s.len() ==> is_digit(#[trigger] s[i])
}

/// `s` without one leading plus sign.
pub open spec fn without_plus(s: Seq<char>) -> Seq<char> {
    if s.len() > 0 && s[0] == '+' {
        s.skip(1)
    } else {
        s
    }
}

/// The number up to `max` that `s` denotes: at least one digit, with a plus sign before it or not.
pub open spec fn parsed(s: Seq<char>, max: nat) -> Option<nat> {
    let d = without_plus(s);
    if d.len() > 0 && all_digits(d) && digits_value(d) <= max {
        Some(digits_value(d))
    } else {
        None
    }
}

/// Digits appended make the number no smaller.
proof fn lemma_prefix_value(s: Seq<char>, i: int)
    requires
        0 <= i <= s.len(),
    ensures
        digits_value(s.take(i)) <= digits_value(s),
    decreases s.len() - i,
{
    if i < s.len() {
        lemma_prefix_value(s, i + 1);
        assert(s.take(i + 1).drop_last() =~= s.take(i));
    } else {
        assert(s.take(i) =~= s);
    }
}

pub fn digit_of(c: char) -> (r: Option<u8>)
    ensures
        match r {
            Some(d) => is_digit(c) && d == digit_value(c) && d < 10,
            None => !is_digit(c),
        },
{
    if '0' <= c && c <= '9' {
        Some((c as u8) - 48)
    } else {
        None
    }
}

/// Reads an unsigned number no greater than `max`.
pub fn parse_up_to(s: &[char], max: u128) -> (r: Option<u128>)
    ensures
        match r {
            Some(n) => parsed(s@, max as nat) == Some(n as nat),
            None => parsed(s@, max as nat) is None,
        },
{
    let start: usize = if s.len() > 0 && s[0] == '+' {
        1
    } else {
        0
    };
    let ghost d = without_plus(s@);
    assert(d =~= s@.skip(start as int));
    if start == s.len() {
        return None;
    }
    let mut acc: u128 = 0;
    let mut i: usize = start;
    assert(d.take(0) =~= seq![]);
    while i < s.len()
        invariant
            start <= i <= s@.len(),
            d == s@.skip(start as int),
            d == without_plus(s@),
            acc <= max,
            acc == digits_value(d.take(i - start)),
            forall|j: int| 0 <= j < i - start ==> is_digit(#[trigger] d[j]),
        decreases s@.len() - i,
    {
        assert(d[i - start] == s@[i as int]);
        let c = s[i];
        match digit_of(c) {
            None => {
                assert(!is_digit(d[i - start]));
                return None;
            },
            Some(v) => {
                assert(d.take(i - start + 1).drop_last() =~= d.take(i - start));
                proof {
                    lemma_prefix_value(d, i - start + 1);
                }
                let v128: u128 = v as u128;
                if v128 > max || acc > (max - v128) / 10 {
                    return None;
                }
                acc = acc * 10 + v128;
            },
        }
        i = i + 1;
    }
    assert(d.take(i - start) =~= d);
    Some(acc)
}

pub fn parse_u64(s: &[char]) -> (r: Option<u64>)
    ensures
        match r {
            Some(n) => parsed(s@, u64::MAX as nat) == Some(n as nat),
            None => parsed(s@, u64::MAX as nat) is None,
        },
{
    match parse_up_to(s, u64::MAX as u128) {
        Some(n) => Some(n as u64),
        None => None,
    }
}

pub fn parse_usize(s: &[char]) -> (r: Option<usize>)
    ensures
        match r {
            Some(n) => parsed(s@, usize::MAX as nat) == Some(n as nat),
            None => parsed(s@, usize::MAX as nat) is None,
        },
{
    match parse_up_to(s, usize::MAX as u128) {
        Some(n) => Some(n as usize),
        None => None,
    }
}

pub fn parse_u16(s: &[char]) -> (r: Option<u16>)
    ensures
        match r {
            Some(n) => parsed(s@, u16::MAX as nat) == Some(n as nat),
            None => parsed(s@, u16::MAX as nat) is None,
        },
{
    match parse_up_to(s, u16::MAX as u128) {
        Some(n) => Some(n as u16),
        None => None,
    }
}

pub fn parse_u8(s: &[char]) -> (r: Option<u8>)
    ensures
        match r {
            Some(n) => parsed(s@, u8::MAX as nat) == Some(n as nat),
            None => parsed(s@, u8::MAX as nat) is None,
        },
{
    match parse_up_to(s, u8::MAX as u128) {
        Some(n) => Some(n as u8),
        None => None,
    }
}

fn digit_to_char(d: u8) -> (c: char)
    requires
        d < 10,
    ensures
        c == digit_char(d as nat),
{
    (48 + d) as char
}

/// Writes a number in decimal notation.
pub fn to_decimal(n: u64) -> (r: Vec<char>)
    ensures
        r@ == decimal(n as nat),
    decreases n,
{
    if n < 10 {
        let mut out: Vec<char> = Vec::new();
        out.push(digit_to_char(n as u8));
        assert(out@ =~= decimal(n as nat));
        out
    } else {
        let mut out = to_decimal(n / 10);
        out.push(digit_to_char((n % 10) as u8));
        out
    }
}

/// The notation of a number consists of digits and is not empty.
pub proof fn lemma_decimal_digits(n: nat)
    ensures
        decimal(n).len() > 0,
        all_digits(decimal(n)),
    decreases n,
{
    if n >= 10 {
        lemma_decimal_digits(n / 10);
    }
}

/// Reading what was written gives the number back.
pub proof fn lemma_decimal_value(n: nat)
    ensures
        digits_value(decimal(n)) == n,
    decreases n,
{
    if n < 10 {
        assert(decimal(n).drop_last() =~= seq![]);
        assert(digits_value(decimal(n).drop_last()) == 0);
        assert(decimal(n).last() == digit_char(n));
    } else {
        lemma_decimal_value(n / 10);
        assert(decimal(n).drop_last() =~= decimal(n / 10));
    }
}

/// A number written in decimal notation is read back as the same number.
pub proof fn law_decimal_roundtrip(n: nat, max: nat)
    requires
        n <= max,
    ensures
        parsed(decimal(n), max) == Some(n),
{
    lemma_decimal_digits(n);
    lemma_decimal_value(n);
    assert(is_digit(decimal(n)[0]));
}


/// The value of a hexadecimal digit.
pub open spec fn hex_digit_value(c: char) -> Option<nat> {
    if '0' <= c <= '9' {
        Some((c as u32 - '0' as u32) as nat)
    } else if 'a' <= c <= 'f' {
        Some((c as u32 - 'a' as u32 + 10) as nat)
    } else if 'A' <= c <= 'F' {
        Some((c as u32 - 'A' as u32 + 10) as nat)
    } else {
        None
    }
}

pub open spec fn all_hex(s: Seq<char>) -> bool {
    forall|i: int| 0 <= i < s.len() ==> hex_digit_value(#[trigger] s[i]) is Some
}

/// The number that a row of hexadecimal digits denotes.
pub open spec fn hex_value(s: Seq<char>) -> nat
    decreases s.len(),
{
    if s.len() == 0 {
        0
    } else {
        hex_value(s.drop_last()) * 16 + hex_digit_value(s.last()).unwrap()
    }
}

/// The number up to `max` that `s` denotes in hexadecimal notation.
pub open spec fn hex_parsed(s: Seq<char>, max: nat) -> Option<nat> {
    let d = without_plus(s);
    if d.len() > 0 && all_hex(d) && hex_value(d) <= max {
        Some(hex_value(d))
    } else {
        None
    }
}

proof fn lemma_prefix_hex(s: Seq<char>, i: int)
    requires
        0 <= i <= s.len(),
    ensures
        hex_value(s.take(i)) <= hex_value(s),
    decreases s.len() - i,
{
    if i < s.len() {
        lemma_prefix_hex(s, i + 1);
        assert(s.take(i + 1).drop_last() =~= s.take(i));
    } else {
        assert(s.take(i) =~= s);
    }
}

fn hex_digit_of(c: char) -> (r: Option<u8>)
    ensures
        match r {
            Some(d) => hex_digit_value(c) == Some(d as nat) && d < 16,
            None => hex_digit_value(c) is None,
        },
{
    if '0' <= c && c <= '9' {
        Some((c as u8) - 48)
    } else if 'a' <= c && c <= 'f' {
        Some((c as u8) - 87)
    } else if 'A' <= c && c <= 'F' {
        Some((c as u8) - 55)
    } else {
        None
    }
}

/// Reads an unsigned number in hexadecimal notation.
pub fn parse_hex(s: &[char]) -> (r: Option<usize>)
    ensures
        match r {
            Some(n) => hex_parsed(s@, usize::MAX as nat) == Some(n as nat),
            None => hex_parsed(s@, usize::MAX as nat) is None,
        },
{
    let start: usize = if s.len() > 0 && s[0] == '+' {
        1
    } else {
        0
    };
    let ghost d = without_plus(s@);
    assert(d =~= s@.skip(start as int));
    if start == s.len() {
        return None;
    }
    let mut acc: usize = 0;
    let mut i: usize = start;
    assert(d.take(0) =~= seq![]);
    while i < s.len()
        invariant
            start <= i <= s@.len(),
            d == s@.skip(start as int),
            d == without_plus(s@),
            acc == hex_value(d.take(i - start)),
            forall|j: int| 0 <= j < i - start ==> hex_digit_value(#[trigger] d[j]) is Some,
        decreases s@.len() - i,
    {
        assert(d[i - start] == s@[i as int]);
        match hex_digit_of(s[i]) {
            None => {
                assert(hex_digit_value(d[i - start]) is None);
                return None;
            },
            Some(v) => {
                assert(d.take(i - start + 1).drop_last() =~= d.take(i - start));
                proof {
                    lemma_prefix_hex(d, i - start + 1);
                }
                if acc > (usize::MAX - v as usize) / 16 {
                    return None;
                }
                acc = acc * 16 + v as usize;
            },
        }
        i = i + 1;
    }
    assert(d.take(i - start) =~= d);
    Some(acc)
}

/// A digit behind a number gives ten times the number and the digit; what is no digit gives no number.
pub proof fn law_one_digit_more(s: Seq<char>, c: char, max: nat, n: nat)
    requires
        parsed(s, max) == Some(n),
    ensures
        '0' <= c <= '9' ==> parsed(s.push(c), max) == (if n * 10 + (c as u32 - '0' as u32) <= max {
            Some((n * 10 + (c as u32 - '0' as u32)) as nat)
        } else {
            None
        }),
        !('0' <= c <= '9') ==> parsed(s.push(c), max) is None,
        n <= max,
{
    let d = without_plus(s);
    let e = without_plus(s.push(c));
    assert(e =~= d.push(c));
    assert(e.drop_last() =~= d);
    if '0' <= c <= '9' {
        assert forall|i: int| 0 <= i < e.len() implies is_digit(#[trigger] e[i]) by {
            if i < d.len() {
                assert(e[i] == d[i]);
            }
        }
    } else {
        assert(e[d.len() as int] == c);
    }
}

/// The number of one digit, with a plus sign before it or not; an empty text, or a sign alone, is none.
pub proof fn law_one_digit(c: char, max: nat)
    requires
        max >= 9,
    ensures
        '0' <= c <= '9' ==> parsed(seq![c], max) == Some((c as u32 - '0' as u32) as nat),
        '0' <= c <= '9' ==> parsed(seq!['+', c], max) == Some((c as u32 - '0' as u32) as nat),
        !('0' <= c <= '9') ==> parsed(seq![c], max) is None,
        parsed(seq![], max) is None,
{
    let one = seq![c];
    assert(one.drop_last() =~= seq![]);
    assert(digits_value(one.drop_last()) == 0);
    assert(seq!['+', c].skip(1) =~= one);
    assert(one[0] == c);
    assert(seq!['+'].skip(1) =~= seq![]);
    assert(without_plus(one) == one || c == '+');
}

/// A digit behind a hexadecimal number gives sixteen times the number and the digit, in capitals or not.
pub proof fn law_one_hex_digit_more(s: Seq<char>, c: char, max: nat, n: nat)
    requires
        hex_parsed(s, max) == Some(n),
    ensures
        '0' <= c <= '9' && n * 16 + (c as u32 - '0' as u32) <= max ==> hex_parsed(s.push(c), max) == Some(
            (n * 16 + (c as u32 - '0' as u32)) as nat,
        ),
        'a' <= c <= 'f' && n * 16 + 10 + (c as u32 - 'a' as u32) <= max ==> hex_parsed(s.push(c), max) == Some(
            (n * 16 + 10 + (c as u32 - 'a' as u32)) as nat,
        ),
        'A' <= c <= 'F' && n * 16 + 10 + (c as u32 - 'A' as u32) <= max ==> hex_parsed(s.push(c), max) == Some(
            (n * 16 + 10 + (c as u32 - 'A' as u32)) as nat,
        ),
        !('0' <= c <= '9') && !('a' <= c <= 'f') && !('A' <= c <= 'F') ==> hex_parsed(s.push(c), max) is None,
{
    let d = without_plus(s);
    let e = without_plus(s.push(c));
    assert(e =~= d.push(c));
    assert(e.drop_last() =~= d);
    assert(e[d.len() as int] == c);
    if hex_digit_value(c) is Some {
        assert forall|i: int| 0 <= i < e.len() implies hex_digit_value(#[trigger] e[i]) is Some by {
            if i < d.len() {
                assert(e[i] == d[i]);
            }
        }
    }
}

}
