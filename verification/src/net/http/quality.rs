//! Quality values: how much a client wants one of several alternatives.
//!
//! A quality is a number from 0 to 1 of single precision, as binary interchange formats have it: the number in decimal
//! notation, with or without an exponent, is rounded to the nearest one, and of two that are as near to the even one.
//! It is held as its place among those numbers, from 0 for zero to `ONE` for one. That place is also its bit pattern.
use vstd::prelude::*;
use vstd::slice::slice_subrange;

use crate::decimal::{all_digits, digit_of, digits_value, is_digit};
use crate::text::{find, find_char, is_text_nocase, lowered, same_nocase};

verus! {

/// The quality 1.
pub const ONE: u32 = 0x3f80_0000;

/// How many numbers of single precision there are between one power of two and the next.
pub const STEPS: u32 = 0x80_0000;

pub open spec fn twos(n: nat) -> nat
    decreases n,
{
    if n == 0 {
        1
    } else {
        2 * twos((n - 1) as nat)
    }
}

pub open spec fn tens(n: nat) -> nat
    decreases n,
{
    if n == 0 {
        1
    } else {
        10 * tens((n - 1) as nat)
    }
}

/// The number of single precision at a place, in units of 2 to the power of -149, which is the least above zero. Up to
/// the place `2 * STEPS` the numbers are one unit apart; from there on the distance doubles every `STEPS` places.
pub open spec fn single(place: nat) -> nat {
    let e = place / STEPS as nat;
    let f = place % STEPS as nat;
    if e == 0 {
        f
    } else {
        (STEPS as nat + f) * twos((e - 1) as nat)
    }
}

/// The point halfway between the number at a place and the next one, in units of 2 to the power of -150.
pub open spec fn halfway(place: nat) -> nat {
    single(place) + single(place + 1)
}

/// Whether `d` times 10 to the power of `x` is rounded to a number behind a place: it lies past the point halfway to
/// the next one, or on it where the next one is even.
pub open spec fn beyond(d: nat, x: int, place: nat) -> bool {
    let (number, half) = if x >= 0 {
        (d * tens(x as nat) * twos(150), halfway(place))
    } else {
        (d * twos(150), halfway(place) * tens((-x) as nat))
    };
    number > half || (number == half && place % 2 == 1)
}

/// The last place up to `top` to which `d` times 10 to the power of `x` is rounded.
pub open spec fn rounded(d: nat, x: int, top: nat) -> nat
    decreases top,
{
    if top == 0 || beyond(d, x, (top - 1) as nat) {
        top
    } else {
        rounded(d, x, (top - 1) as nat)
    }
}

/// `s` without one leading sign.
pub open spec fn unsigned_part(s: Seq<char>) -> Seq<char> {
    if s.len() > 0 && (s[0] == '+' || s[0] == '-') {
        s.skip(1)
    } else {
        s
    }
}

pub open spec fn has_nonzero(s: Seq<char>) -> bool {
    exists|i: int| 0 <= i < s.len() && #[trigger] s[i] != '0'
}

/// Where the exponent of a number begins, looked for from `i` on.
pub open spec fn exponent_from(s: Seq<char>, i: int) -> Option<int>
    decreases s.len() - i,
{
    if i < 0 || i >= s.len() {
        None
    } else if s[i] == 'e' || s[i] == 'E' {
        Some(i)
    } else {
        exponent_from(s, i + 1)
    }
}

/// The exponent that a text denotes; `None` where it denotes none.
pub open spec fn exponent_of(s: Seq<char>) -> Option<int> {
    let digits = unsigned_part(s);
    if digits.len() == 0 || !all_digits(digits) {
        None
    } else if s[0] == '-' {
        Some(-(digits_value(digits) as int))
    } else {
        Some(digits_value(digits) as int)
    }
}

pub open spec fn is_infinite(s: Seq<char>) -> bool {
    same_nocase(s, "inf"@) || same_nocase(s, "infinity"@)
}

/// The digits before and behind the point of a number without a sign and an exponent.
pub open spec fn mantissa_parts(mantissa: Seq<char>) -> Option<(Seq<char>, Seq<char>)> {
    let (whole, fraction) = match find(mantissa, '.') {
        Some(i) => (mantissa.take(i), mantissa.skip(i + 1)),
        None => (mantissa, seq![]),
    };
    if whole.len() + fraction.len() == 0 || !all_digits(whole) || !all_digits(fraction) {
        None
    } else {
        Some((whole, fraction))
    }
}

/// The digits before and behind the point, and the exponent, of a number without a sign.
pub open spec fn number_parts(body: Seq<char>) -> Option<(Seq<char>, Seq<char>, int)> {
    let (mantissa, exponent) = match exponent_from(body, 0) {
        Some(i) => (body.take(i), exponent_of(body.skip(i + 1))),
        None => (body, Some(0int)),
    };
    match (mantissa_parts(mantissa), exponent) {
        (Some((whole, fraction)), Some(e)) => Some((whole, fraction, e)),
        _ => None,
    }
}

/// The quality that a number denotes; `None` where the text is not a number. What is less than zero counts as zero, and
/// so does what stands for no number; what is more than one counts as one.
pub open spec fn quality_of(s: Seq<char>) -> Option<nat> {
    let body = unsigned_part(s);
    if is_infinite(body) {
        Some(if s[0] == '-' {
            0
        } else {
            ONE as nat
        })
    } else if same_nocase(body, "nan"@) {
        Some(0)
    } else {
        match number_parts(body) {
            None => None,
            Some((whole, fraction, e)) => Some(if s[0] == '-' {
                0
            } else {
                rounded(digits_value(whole + fraction), e - fraction.len(), ONE as nat)
            }),
        }
    }
}

/// The quality that a parameter value asks for: 1 where it is not a number.
pub open spec fn quality_or_one(s: Seq<char>) -> nat {
    match quality_of(s) {
        Some(q) => q,
        None => ONE as nat,
    }
}

/// Whether all are digits, and whether one of them is not zero.
fn scan_digits(s: &[char]) -> (r: Option<bool>)
    ensures
        match r {
            Some(nonzero) => all_digits(s@) && nonzero == has_nonzero(s@),
            None => !all_digits(s@),
        },
{
    let mut nonzero = false;
    let mut i: usize = 0;
    while i < s.len()
        invariant
            i <= s@.len(),
            forall|j: int| 0 <= j < i ==> is_digit(#[trigger] s@[j]),
            nonzero ==> has_nonzero(s@),
            !nonzero ==> forall|j: int| 0 <= j < i ==> s@[j] == '0',
        decreases s@.len() - i,
    {
        let c = s[i];
        match digit_of(c) {
            None => {
                assert(!is_digit(s@[i as int]));
                return None;
            },
            Some(d) => {
                if d != 0 {
                    assert(s@[i as int] != '0');
                    nonzero = true;
                }
            },
        }
        i = i + 1;
    }
    Some(nonzero)
}

fn find_exponent(s: &[char]) -> (r: Option<usize>)
    ensures
        match r {
            Some(i) => exponent_from(s@, 0) == Some(i as int) && i < s@.len(),
            None => exponent_from(s@, 0) is None,
        },
{
    let mut i: usize = 0;
    while i < s.len()
        invariant
            i <= s@.len(),
            exponent_from(s@, i as int) == exponent_from(s@, 0),
        decreases s@.len() - i,
    {
        if s[i] == 'e' || s[i] == 'E' {
            return Some(i);
        }
        i = i + 1;
    }
    None
}

/// A bound that no place of a digit reaches.
const FAR: u128 = 1_000_000_000_000_000_000_000_000_000_000;

fn read_magnitude(s: &[char]) -> (r: u128)
    requires
        all_digits(s@),
    ensures
        r <= FAR,
        r < FAR ==> r == digits_value(s@),
        r == FAR ==> digits_value(s@) >= FAR,
{
    let mut acc: u128 = 0;
    let mut i: usize = 0;
    assert(s@.take(0) =~= seq![]);
    while i < s.len()
        invariant
            i <= s@.len(),
            all_digits(s@),
            acc <= FAR,
            acc < FAR ==> acc == digits_value(s@.take(i as int)),
            acc == FAR ==> digits_value(s@.take(i as int)) >= FAR,
        decreases s@.len() - i,
    {
        let c = s[i];
        assert(is_digit(c));
        assert(s@.take(i + 1).drop_last() =~= s@.take(i as int));
        assert(s@.take(i + 1).last() == c);
        let next = acc * 10 + (c as u128 - 48);
        acc = if next < FAR {
            next
        } else {
            FAR
        };
        i = i + 1;
    }
    assert(s@.take(s@.len() as int) =~= s@);
    acc
}

/// Whether a point that moves by `places`, to the left where `backwards`, has moved as far as by `e`, or as good
/// as that.
spec fn as_far(e: int, backwards: bool, places: u128) -> bool {
    let p = if backwards {
        -(places as int)
    } else {
        places as int
    };
    p == e || (p == FAR && e > FAR) || (p == -(FAR as int) && e < -(FAR as int))
}

fn read_exponent(text: &[char]) -> (r: Option<(bool, u128)>)
    ensures
        match r {
            Some((backwards, places)) => places <= FAR && exponent_of(text@) is Some && as_far(
                exponent_of(text@)->0,
                backwards,
                places,
            ),
            None => exponent_of(text@) is None,
        },
{
    let backwards = text.len() > 0 && text[0] == '-';
    let from: usize = if text.len() > 0 && (text[0] == '+' || text[0] == '-') {
        1
    } else {
        0
    };
    let digits = slice_subrange(text, from, text.len());
    assert(digits@ =~= unsigned_part(text@));
    if digits.len() == 0 || scan_digits(digits).is_none() {
        return None;
    }
    Some((backwards, read_magnitude(digits)))
}

fn read_mantissa<'a>(mantissa: &'a [char]) -> (r: Option<(&'a [char], &'a [char])>)
    ensures
        match r {
            Some((whole, fraction)) => mantissa_parts(mantissa@) == Some((whole@, fraction@)),
            None => mantissa_parts(mantissa@) is None,
        },
{
    let end: usize = mantissa.len();
    let at = find_char(mantissa, '.');
    let whole = match at {
        Some(i) => slice_subrange(mantissa, 0, i),
        None => mantissa,
    };
    let fraction = match at {
        Some(i) => slice_subrange(mantissa, i + 1, end),
        None => slice_subrange(mantissa, end, end),
    };
    proof {
        match find(mantissa@, '.') {
            Some(i) => {
                assert(whole@ =~= mantissa@.take(i));
                assert(fraction@ =~= mantissa@.skip(i + 1));
            },
            None => {
                assert(fraction@ =~= seq![]);
            },
        }
    }
    if whole.len() == 0 && fraction.len() == 0 {
        return None;
    }
    if scan_digits(whole).is_none() || scan_digits(fraction).is_none() {
        return None;
    }
    Some((whole, fraction))
}

/// Whether all are digits.
spec fn in_tens(v: Seq<u8>) -> bool {
    forall|i: int| 0 <= i < v.len() ==> #[trigger] v[i] < 10
}

/// The number with these digits, the lowest first.
spec fn value_of(v: Seq<u8>) -> nat
    decreases v.len(),
{
    if v.len() == 0 {
        0
    } else {
        value_of(v.drop_last()) + v.last() as nat * tens((v.len() - 1) as nat)
    }
}

/// One more digit in front makes the others count ten times as much.
proof fn lemma_front(d: u8, v: Seq<u8>)
    ensures
        value_of(seq![d] + v) == d + 10 * value_of(v),
    decreases v.len(),
{
    let s = seq![d] + v;
    if v.len() == 0 {
        assert(s.drop_last() =~= seq![]);
        assert(value_of(s.drop_last()) == 0);
        assert(s.last() == d);
        let t = tens(0);
        assert(d as nat * t == d) by (nonlinear_arith)
            requires
                t == 1,
        ;
    } else {
        assert(s.drop_last() =~= seq![d] + v.drop_last());
        lemma_front(d, v.drop_last());
        let n = v.len();
        assert(tens(n) == 10 * tens((n - 1) as nat));
        let l = v.last() as nat;
        let t = tens((n - 1) as nat);
        assert(l * (10 * t) == 10 * (l * t)) by (nonlinear_arith);
        assert(s.last() == v.last());
    }
}

/// A number is less than the power of ten that its digits do not reach.
proof fn lemma_value_bound(v: Seq<u8>)
    requires
        in_tens(v),
    ensures
        value_of(v) < tens(v.len()),
    decreases v.len(),
{
    if v.len() > 0 {
        let rest = v.drop_last();
        assert forall|i: int| 0 <= i < rest.len() implies #[trigger] rest[i] < 10 by {
            assert(rest[i] == v[i]);
        }
        lemma_value_bound(rest);
        let t = tens((v.len() - 1) as nat);
        let l = v.last() as nat;
        assert(v[v.len() - 1] < 10);
        assert(l * t <= 9 * t) by (nonlinear_arith)
            requires
                l <= 9,
        ;
    }
}

/// The digits of a text, the lowest first.
spec fn turned(s: Seq<char>) -> Seq<u8> {
    Seq::new(s.len(), |i: int| (s[s.len() - 1 - i] as u8 - 48) as u8)
}

proof fn lemma_turned(s: Seq<char>)
    requires
        all_digits(s),
    ensures
        value_of(turned(s)) == digits_value(s),
        in_tens(turned(s)),
    decreases s.len(),
{
    assert forall|i: int| 0 <= i < turned(s).len() implies #[trigger] turned(s)[i] < 10 by {
        assert(is_digit(s[s.len() - 1 - i]));
    }
    if s.len() > 0 {
        let rest = s.drop_last();
        assert forall|i: int| 0 <= i < rest.len() implies is_digit(#[trigger] rest[i]) by {
            assert(rest[i] == s[i]);
        }
        lemma_turned(rest);
        let d = (s.last() as u8 - 48) as u8;
        assert(is_digit(s[s.len() - 1]));
        assert(turned(s) =~= seq![d] + turned(rest));
        lemma_front(d, turned(rest));
    }
}

/// The digits before and behind the point, the lowest first.
fn turn_digits(whole: &[char], fraction: &[char]) -> (r: Vec<u8>)
    requires
        all_digits(whole@),
        all_digits(fraction@),
    ensures
        r@ == turned(whole@ + fraction@),
{
    let ghost all = whole@ + fraction@;
    let mut r: Vec<u8> = Vec::new();
    let mut i: usize = fraction.len();
    while i > 0
        invariant
            i <= fraction@.len(),
            all_digits(fraction@),
            all == whole@ + fraction@,
            r@ == turned(all).take(fraction@.len() - i),
        decreases i,
    {
        i = i - 1;
        let c = fraction[i];
        assert(is_digit(fraction@[i as int]));
        r.push((c as u32 - 48) as u8);
        assert(turned(all)[fraction@.len() - i - 1] == (c as u8 - 48) as u8);
        assert(r@ =~= turned(all).take(fraction@.len() - i));
    }
    let mut i: usize = whole.len();
    while i > 0
        invariant
            i <= whole@.len(),
            all_digits(whole@),
            all == whole@ + fraction@,
            r@ == turned(all).take(all.len() - i),
        decreases i,
    {
        i = i - 1;
        let c = whole[i];
        assert(is_digit(whole@[i as int]));
        r.push((c as u32 - 48) as u8);
        assert(turned(all)[all.len() - i - 1] == (c as u8 - 48) as u8);
        assert(r@ =~= turned(all).take(all.len() - i));
    }
    assert(r@ =~= turned(all));
    r
}

/// Doubles a number.
fn double(v: &mut Vec<u8>)
    requires
        in_tens(old(v)@),
    ensures
        in_tens(final(v)@),
        value_of(final(v)@) == 2 * value_of(old(v)@),
{
    let ghost was = v@;
    let mut carry: u8 = 0;
    let mut i: usize = 0;
    assert(v@.take(0) =~= seq![] && was.take(0) =~= seq![]);
    while i < v.len()
        invariant
            i <= v@.len(),
            v@.len() == was.len(),
            in_tens(was),
            in_tens(v@),
            carry <= 1,
            forall|j: int| i <= j < v@.len() ==> #[trigger] v@[j] == was[j],
            value_of(v@.take(i as int)) + carry as nat * tens(i as nat) == 2 * value_of(was.take(i as int)),
        decreases v@.len() - i,
    {
        let ghost before = v@;
        let ghost c0 = carry as nat;
        let d = v[i];
        assert(d == was[i as int] && d < 10);
        let t: u8 = 2 * d + carry;
        v[i] = t % 10;
        carry = t / 10;
        proof {
            assert(v@.take(i + 1).drop_last() =~= before.take(i as int));
            assert(was.take(i + 1).drop_last() =~= was.take(i as int));
            let p = tens(i as nat);
            let lo = (t % 10) as nat;
            let c1 = (t / 10) as nat;
            assert(v@.take(i + 1).last() == t % 10);
            assert(was.take(i + 1).last() == d);
            assert(tens((i + 1) as nat) == 10 * p);
            assert(lo + 10 * c1 == 2 * d + c0);
            assert(lo * p + c1 * (10 * p) == 2 * (d as nat * p) + c0 * p) by (nonlinear_arith)
                requires
                    lo + 10 * c1 == 2 * d + c0,
            ;
        }
        i = i + 1;
    }
    assert(v@.take(v@.len() as int) =~= v@ && was.take(was.len() as int) =~= was);
    if carry > 0 {
        let ghost full = v@;
        v.push(carry);
        assert(v@.drop_last() =~= full);
    }
}

/// Doubles a number again and again.
fn double_times(v: &mut Vec<u8>, n: u32)
    requires
        in_tens(old(v)@),
    ensures
        in_tens(final(v)@),
        value_of(final(v)@) == value_of(old(v)@) * twos(n as nat),
{
    let ghost start = value_of(v@);
    let mut i: u32 = 0;
    proof {
        let t = twos(0);
        assert(start * t == start) by (nonlinear_arith)
            requires
                t == 1,
        ;
    }
    while i < n
        invariant
            i <= n,
            in_tens(v@),
            value_of(v@) == start * twos(i as nat),
        decreases n - i,
    {
        double(v);
        assert(2 * (start * twos(i as nat)) == start * (2 * twos(i as nat))) by (nonlinear_arith);
        i = i + 1;
    }
}

/// The digits of a small number behind zeros.
fn digits_behind(zeros: u128, n: u32) -> (r: Vec<u8>)
    ensures
        in_tens(r@),
        value_of(r@) == n * tens(zeros as nat),
{
    let mut r: Vec<u8> = Vec::new();
    let mut k: u128 = 0;
    while k < zeros
        invariant
            k <= zeros,
            r@.len() == k,
            in_tens(r@),
            value_of(r@) == 0,
        decreases zeros - k,
    {
        let ghost was = r@;
        r.push(0);
        assert(r@.drop_last() =~= was);
        assert(0nat * tens(was.len()) == 0) by (nonlinear_arith);
        k = k + 1;
    }
    let mut left: u32 = n;
    assert(left as nat * tens(r@.len()) == n * tens(zeros as nat));
    while left > 0
        invariant
            in_tens(r@),
            value_of(r@) + left as nat * tens(r@.len()) == n * tens(zeros as nat),
        decreases left,
    {
        let ghost was = r@;
        let d = (left % 10) as u8;
        proof {
            let p = tens(was.len());
            let q = (left / 10) as nat;
            let m = left as nat;
            assert(m == 10 * q + d);
            assert(m * p == d as nat * p + q * (10 * p)) by (nonlinear_arith)
                requires
                    m == 10 * q + d,
            ;
            assert(tens((was.len() + 1) as nat) == 10 * p);
        }
        r.push(d);
        assert(r@.drop_last() =~= was);
        left = left / 10;
    }
    assert(0nat * tens(r@.len()) == 0) by (nonlinear_arith);
    r
}

/// What is more than something else.
enum Balance {
    Less,
    Same,
    More,
}

spec fn weighs(b: Balance, x: nat, y: nat) -> bool {
    match b {
        Balance::Less => x < y,
        Balance::Same => x == y,
        Balance::More => x > y,
    }
}

spec fn low(v: Seq<u8>, n: int) -> Seq<u8> {
    Seq::new(n as nat, |i: int| if i < v.len() { v[i] } else { 0u8 })
}

/// Zeros above all digits count nothing.
proof fn lemma_low(v: Seq<u8>, n: int)
    requires
        n >= v.len(),
    ensures
        value_of(low(v, n)) == value_of(v),
    decreases n,
{
    if n == v.len() {
        assert(low(v, n) =~= v);
    } else {
        assert(low(v, n).drop_last() =~= low(v, n - 1));
        lemma_low(v, n - 1);
        assert(0nat * tens((n - 1) as nat) == 0) by (nonlinear_arith);
    }
}

/// Holds one number against another.
fn weigh(a: &Vec<u8>, b: &Vec<u8>) -> (r: Balance)
    requires
        in_tens(a@),
        in_tens(b@),
    ensures
        weighs(r, value_of(a@), value_of(b@)),
{
    let end: usize = if a.len() > b.len() {
        a.len()
    } else {
        b.len()
    };
    let mut r = Balance::Same;
    let mut i: usize = 0;
    assert(low(a@, 0) =~= seq![] && low(b@, 0) =~= seq![]);
    while i < end
        invariant
            i <= end,
            in_tens(a@),
            in_tens(b@),
            weighs(r, value_of(low(a@, i as int)), value_of(low(b@, i as int))),
        decreases end - i,
    {
        let x: u8 = if i < a.len() {
            a[i]
        } else {
            0
        };
        let y: u8 = if i < b.len() {
            b[i]
        } else {
            0
        };
        proof {
            let la = low(a@, i as int);
            let lb = low(b@, i as int);
            assert(low(a@, i + 1).drop_last() =~= la);
            assert(low(b@, i + 1).drop_last() =~= lb);
            assert(in_tens(la) && in_tens(lb));
            lemma_value_bound(la);
            lemma_value_bound(lb);
            let p = tens(i as nat);
            let m = x as nat;
            let n = y as nat;
            assert(low(a@, i + 1).last() == x && low(b@, i + 1).last() == y);
            assert(m < n ==> (m + 1) * p <= n * p) by (nonlinear_arith);
            assert(n < m ==> (n + 1) * p <= m * p) by (nonlinear_arith);
            assert((m + 1) * p == m * p + p) by (nonlinear_arith);
            assert((n + 1) * p == n * p + p) by (nonlinear_arith);
        }
        if x < y {
            r = Balance::Less;
        } else if x > y {
            r = Balance::More;
        }
        i = i + 1;
    }
    proof {
        lemma_low(a@, end as int);
        lemma_low(b@, end as int);
    }
    r
}

/// The distance from one number of single precision to the next.
proof fn lemma_next(place: nat)
    ensures
        single(place + 1) > single(place),
        ({
            let e = place / STEPS as nat;
            let f = place % STEPS as nat;
            halfway(place) == (if e == 0 {
                2 * f + 1
            } else {
                (2 * (STEPS as nat + f) + 1) * twos((e - 1) as nat)
            })
        }),
{
    let s = STEPS as nat;
    let e = place / s;
    let f = place % s;
    if f + 1 < s {
        assert((place + 1) / s == e && (place + 1) % s == f + 1) by {
            assert(place == e * s + f);
        }
        if e > 0 {
            let t = twos((e - 1) as nat);
            lemma_twos_positive((e - 1) as nat);
            assert((s + (f + 1)) * t == (s + f) * t + t) by (nonlinear_arith);
            assert((2 * (s + f) + 1) * t == 2 * ((s + f) * t) + t) by (nonlinear_arith);
        }
    } else {
        assert((place + 1) / s == e + 1 && (place + 1) % s == 0) by {
            assert(place == e * s + f);
        }
        if e > 0 {
            let t = twos((e - 1) as nat);
            lemma_twos_positive((e - 1) as nat);
            assert(twos(e) == 2 * t);
            assert((s + 0) * (2 * t) == (s + f) * t + t) by (nonlinear_arith)
                requires
                    f + 1 == s,
            ;
            assert((2 * (s + f) + 1) * t == 2 * ((s + f) * t) + t) by (nonlinear_arith);
        }
    }
}

proof fn lemma_twos_positive(n: nat)
    ensures
        twos(n) > 0,
        twos(n) <= tens(n),
    decreases n,
{
    if n > 0 {
        lemma_twos_positive((n - 1) as nat);
    }
}

proof fn lemma_halfway_grows(a: nat, b: nat)
    requires
        a < b,
    ensures
        halfway(a) < halfway(b),
    decreases b - a,
{
    lemma_next(a);
    lemma_next(a + 1);
    if a + 1 < b {
        lemma_halfway_grows(a + 1, b);
    }
}

proof fn lemma_tens_positive(n: nat)
    ensures
        tens(n) > 0,
    decreases n,
{
    if n > 0 {
        lemma_tens_positive((n - 1) as nat);
    }
}

/// What is rounded behind a place is rounded behind those before it.
proof fn lemma_beyond(d: nat, x: int, a: nat, b: nat)
    requires
        a < b,
        beyond(d, x, b),
    ensures
        beyond(d, x, a),
{
    lemma_halfway_grows(a, b);
    if x < 0 {
        let t = tens((-x) as nat);
        lemma_tens_positive((-x) as nat);
        let p = halfway(a);
        let q = halfway(b);
        assert(p * t < q * t) by (nonlinear_arith)
            requires
                p < q,
                t > 0,
        ;
    }
}

/// Where the rounding ends.
proof fn lemma_rounded(d: nat, x: int, top: nat, place: nat)
    requires
        place <= top,
        place > 0 ==> beyond(d, x, (place - 1) as nat),
        place < top ==> !beyond(d, x, place),
    ensures
        rounded(d, x, top) == place,
    decreases top,
{
    if place < top {
        if beyond(d, x, (top - 1) as nat) && top - 1 > place {
            lemma_beyond(d, x, place, (top - 1) as nat);
        }
        lemma_rounded(d, x, (top - 1) as nat, place);
    }
}

/// Tells whether a number, of which these are the digits, the lowest first, 150 times doubled, is rounded to a number
/// behind a place.
fn is_beyond(number: &Vec<u8>, zeros: u128, place: u32, Ghost(d): Ghost<nat>) -> (r: bool)
    requires
        in_tens(number@),
        value_of(number@) == d * twos(150),
        place < ONE,
        zeros > 0,
    ensures
        r == beyond(d, -(zeros as int), place as nat),
{
    let e = place / STEPS;
    let f = place % STEPS;
    let (n, lift): (u32, u32) = if e == 0 {
        (2 * f + 1, 0)
    } else {
        (2 * (STEPS + f) + 1, e - 1)
    };
    let mut half = digits_behind(zeros, n);
    double_times(&mut half, lift);
    proof {
        lemma_next(place as nat);
        let t = tens(zeros as nat);
        let w = twos(lift as nat);
        let m = n as nat;
        assert(m * t * w == m * w * t) by (nonlinear_arith);
        if e == 0 {
            assert(m * w == m) by (nonlinear_arith)
                requires
                    w == 1,
            ;
        }
        assert(halfway(place as nat) == m * w);
    }
    match weigh(number, &half) {
        Balance::Less => false,
        Balance::Same => place % 2 == 1,
        Balance::More => true,
    }
}

/// Rounds a number, given by its digits, the lowest first, and by how many of them stand behind the point.
fn round_digits(digits: Vec<u8>, zeros: u128, Ghost(d): Ghost<nat>) -> (r: u32)
    requires
        in_tens(digits@),
        value_of(digits@) == d,
        zeros > 0,
    ensures
        r == rounded(d, -(zeros as int), ONE as nat),
        r <= ONE,
{
    let mut number = digits;
    double_times(&mut number, 150);
    let mut lo: u32 = 0;
    let mut hi: u32 = ONE;
    while lo < hi
        invariant
            lo <= hi <= ONE,
            zeros > 0,
            in_tens(number@),
            value_of(number@) == d * twos(150),
            lo > 0 ==> beyond(d, -(zeros as int), (lo - 1) as nat),
            hi < ONE ==> !beyond(d, -(zeros as int), hi as nat),
        decreases hi - lo,
    {
        let mid: u32 = lo + (hi - lo) / 2;
        if is_beyond(&number, zeros, mid, Ghost(d)) {
            lo = mid + 1;
        } else {
            hi = mid;
        }
    }
    proof {
        lemma_rounded(d, -(zeros as int), ONE as nat, lo as nat);
    }
    lo
}

/// A whole number above zero is one at least.
proof fn lemma_whole(d: nat, x: int)
    requires
        d > 0,
        x >= 0,
    ensures
        rounded(d, x, ONE as nat) == ONE,
{
    let t = tens(x as nat);
    lemma_tens_positive(x as nat);
    lemma_next((ONE - 1) as nat);
    lemma_twos_positive(150);
    lemma_twos_positive(125);
    assert(twos(150) == twos(125) * 0x200_0000) by {
        lemma_twos_sum(125, 25);
        reveal_with_fuel(twos, 26);
    }
    let p = twos(125);
    let s = STEPS as nat;
    assert((ONE - 1) as nat / s == 126 && (ONE - 1) as nat % s == s - 1);
    assert(halfway((ONE - 1) as nat) == (2 * (s + (s - 1)) + 1) * p);
    assert((2 * (s + (s - 1)) + 1) * p < p * 0x200_0000) by (nonlinear_arith)
        requires
            p > 0,
            s == 0x80_0000,
    ;
    assert(d * t * twos(150) >= twos(150)) by (nonlinear_arith)
        requires
            d > 0,
            t > 0,
    ;
}

proof fn lemma_twos_sum(a: nat, b: nat)
    ensures
        twos(a + b) == twos(a) * twos(b),
    decreases b,
{
    if b > 0 {
        lemma_twos_sum(a, (b - 1) as nat);
        let p = twos(a);
        let q = twos((b - 1) as nat);
        assert(2 * (p * q) == p * (2 * q)) by (nonlinear_arith);
        assert(twos(a + b) == 2 * twos((a + b - 1) as nat));
    } else {
        assert(twos(a) * 1 == twos(a));
    }
}

/// Nothing is rounded to zero.
proof fn lemma_nothing(x: int, top: nat)
    ensures
        rounded(0, x, top) == 0,
    decreases top,
{
    if top > 0 {
        lemma_next((top - 1) as nat);
        if x < 0 {
            let t = tens((-x) as nat);
            lemma_tens_positive((-x) as nat);
            let h = halfway((top - 1) as nat);
            assert(h * t > 0) by (nonlinear_arith)
                requires
                    h > 0,
                    t > 0,
            ;
        }
        assert(0nat * twos(150) == 0) by (nonlinear_arith);
        if x >= 0 {
            assert(0nat * tens(x as nat) * twos(150) == 0) by (nonlinear_arith);
        }
        lemma_nothing(x, (top - 1) as nat);
    }
}

proof fn lemma_tens_grow(a: nat, b: nat)
    requires
        a <= b,
    ensures
        tens(a) <= tens(b),
    decreases b - a,
{
    if a < b {
        lemma_tens_grow(a, (b - 1) as nat);
    }
}

proof fn lemma_tens_sum(a: nat, b: nat)
    ensures
        tens(a + b) == tens(a) * tens(b),
    decreases b,
{
    if b > 0 {
        lemma_tens_sum(a, (b - 1) as nat);
        let p = tens(a);
        let q = tens((b - 1) as nat);
        assert(10 * (p * q) == p * (10 * q)) by (nonlinear_arith);
        assert(tens(a + b) == 10 * tens((a + b - 1) as nat));
    } else {
        assert(tens(a) * 1 == tens(a));
    }
}

/// A number far behind the point is rounded to zero.
proof fn lemma_tiny(d: nat, n: nat, x: int)
    requires
        d < tens(n),
        x < 0,
        -x >= n + 150,
    ensures
        rounded(d, x, ONE as nat) == 0,
{
    let k = (-x) as nat;
    lemma_twos_positive(150);
    lemma_tens_sum(n, 150);
    lemma_tens_grow(n + 150, k);
    lemma_next(0);
    let w = twos(150);
    let u = tens(n);
    let v = tens(150);
    assert(d * w < u * v) by (nonlinear_arith)
        requires
            d < u,
            0 < w <= v,
    ;
    assert(halfway(0) == 1);
    assert(!beyond(d, x, 0));
    lemma_rounded(d, x, ONE as nat, 0);
}

/// The digits tell whether a number is zero.
proof fn lemma_nonzero(s: Seq<char>)
    requires
        all_digits(s),
    ensures
        has_nonzero(s) <==> digits_value(s) > 0,
    decreases s.len(),
{
    if s.len() > 0 {
        let rest = s.drop_last();
        assert forall|i: int| 0 <= i < rest.len() implies is_digit(#[trigger] rest[i]) by {
            assert(rest[i] == s[i]);
        }
        lemma_nonzero(rest);
        assert(is_digit(s[s.len() - 1]));
        if has_nonzero(s) {
            let i = choose|i: int| 0 <= i < s.len() && #[trigger] s[i] != '0';
            if i < rest.len() {
                assert(rest[i] != '0');
            }
        }
        if has_nonzero(rest) {
            let i = choose|i: int| 0 <= i < rest.len() && #[trigger] rest[i] != '0';
            assert(s[i] != '0');
        }
        if s.last() != '0' {
            assert(s[s.len() - 1] != '0');
        }
    }
}

/// Rounds the number with these digits before and behind the point, after the point has moved.
fn round_number(whole: &[char], fraction: &[char], backwards: bool, places: u128, Ghost(e): Ghost<int>) -> (r: u32)
    requires
        all_digits(whole@),
        all_digits(fraction@),
        places <= FAR,
        as_far(e, backwards, places),
    ensures
        r == rounded(digits_value(whole@ + fraction@), e - fraction@.len(), ONE as nat),
        r <= ONE,
{
    let ghost all = whole@ + fraction@;
    let ghost d = digits_value(all);
    let ghost x = e - fraction@.len();
    proof {
        assert(all_digits(all)) by {
            assert forall|i: int| 0 <= i < all.len() implies is_digit(#[trigger] all[i]) by {
                if i < whole@.len() {
                    assert(all[i] == whole@[i]);
                } else {
                    assert(all[i] == fraction@[i - whole@.len()]);
                }
            }
        }
        lemma_turned(all);
        lemma_value_bound(turned(all));
        lemma_nonzero(all);
        lemma_nonzero_concat(whole@, fraction@);
    }
    let zero = match (scan_digits(whole), scan_digits(fraction)) {
        (Some(false), Some(false)) => true,
        _ => false,
    };
    if zero {
        proof {
            lemma_nothing(x, ONE as nat);
        }
        return 0;
    }
    let behind: u128 = fraction.len() as u128;
    if !backwards && places >= behind {
        proof {
            lemma_whole(d, x);
        }
        return ONE;
    }
    let zeros: u128 = if backwards {
        behind + places
    } else {
        behind - places
    };
    if zeros == 0 {
        proof {
            lemma_whole(d, x);
        }
        return ONE;
    }
    let count: u128 = whole.len() as u128 + behind;
    if zeros >= count + 150 {
        proof {
            lemma_tiny(d, all.len(), x);
        }
        return 0;
    }
    let digits = turn_digits(whole, fraction);
    round_digits(digits, zeros, Ghost(d))
}

proof fn lemma_nonzero_concat(a: Seq<char>, b: Seq<char>)
    ensures
        has_nonzero(a + b) == (has_nonzero(a) || has_nonzero(b)),
{
    if has_nonzero(a) {
        let i = choose|i: int| 0 <= i < a.len() && #[trigger] a[i] != '0';
        assert((a + b)[i] != '0');
    }
    if has_nonzero(b) {
        let i = choose|i: int| 0 <= i < b.len() && #[trigger] b[i] != '0';
        assert((a + b)[a.len() + i] != '0');
    }
    if has_nonzero(a + b) {
        let i = choose|i: int| 0 <= i < (a + b).len() && #[trigger] (a + b)[i] != '0';
        if i < a.len() {
            assert(a[i] != '0');
        } else {
            assert(b[i - a.len()] != '0');
        }
    }
}

/// Reads a number without a sign.
fn read_number(body: &[char]) -> (r: Option<u32>)
    ensures
        match number_parts(body@) {
            None => r is None,
            Some((whole, fraction, e)) => r matches Some(q) && q == rounded(
                digits_value(whole + fraction),
                e - fraction.len(),
                ONE as nat,
            ) && q <= ONE,
        },
{
    let end: usize = body.len();
    let (mantissa, backwards, places) = match find_exponent(body) {
        None => (body, false, 0u128),
        Some(i) => {
            let text = slice_subrange(body, i + 1, end);
            let front = slice_subrange(body, 0, i);
            assert(text@ =~= body@.skip(i + 1));
            assert(front@ =~= body@.take(i as int));
            match read_exponent(text) {
                None => {
                    return None;
                },
                Some((b, p)) => (front, b, p),
            }
        },
    };
    match read_mantissa(mantissa) {
        None => None,
        Some((whole, fraction)) => {
            let ghost e = (number_parts(body@)->0).2;
            Some(round_number(whole, fraction, backwards, places, Ghost(e)))
        },
    }
}

/// Reads a quality.
pub fn read_quality(s: &[char]) -> (r: u32)
    ensures
        r == quality_or_one(s@),
        r <= ONE,
{
    let negative = s.len() > 0 && s[0] == '-';
    let start: usize = if s.len() > 0 && (s[0] == '+' || s[0] == '-') {
        1
    } else {
        0
    };
    let body = slice_subrange(s, start, s.len());
    assert(body@ =~= unsigned_part(s@));
    let found = if is_text_nocase(body, "inf") || is_text_nocase(body, "infinity") {
        Some(ONE)
    } else if is_text_nocase(body, "nan") {
        return 0;
    } else {
        read_number(body)
    };
    proof {
        if found is Some {
            lemma_number_not_empty(body@);
        }
    }
    match found {
        None => ONE,
        Some(q) => if negative {
            0
        } else {
            q
        },
    }
}

/// A number has a character.
proof fn lemma_number_not_empty(body: Seq<char>)
    requires
        is_infinite(body) || number_parts(body) is Some,
    ensures
        body.len() > 0,
{
    reveal_strlit("inf");
    reveal_strlit("infinity");
    assert(lowered(body).len() == body.len());
    assert(lowered("inf"@).len() == 3);
    assert(lowered("infinity"@).len() == 8);
}

proof fn lemma_beyond_grows(d: nat, e: nat, x: int, place: nat)
    requires
        d <= e,
        beyond(d, x, place),
    ensures
        beyond(e, x, place),
{
    if x >= 0 {
        let t = tens(x as nat);
        let w = twos(150);
        assert(d * t <= e * t) by (nonlinear_arith)
            requires
                d <= e,
        ;
        let (m, n) = (d * t, e * t);
        assert(m * w <= n * w) by (nonlinear_arith)
            requires
                m <= n,
        ;
    } else {
        let w = twos(150);
        assert(d * w <= e * w) by (nonlinear_arith)
            requires
                d <= e,
        ;
    }
}

proof fn lemma_rounded_grows(d: nat, e: nat, x: int, top: nat)
    requires
        d <= e,
    ensures
        rounded(d, x, top) <= rounded(e, x, top) <= top,
    decreases top,
{
    if top > 0 {
        let place = (top - 1) as nat;
        lemma_rounded_grows(d, e, x, place);
        if beyond(d, x, place) {
            lemma_beyond_grows(d, e, x, place);
        }
    }
}

/// A greater number is of no less quality, and no quality is above one: for numbers with as many digits behind the point
/// the quality grows with the number that all their digits make. What is not a number counts as one.
pub proof fn law_quality_grows(a: Seq<char>, b: Seq<char>)
    ensures
        quality_or_one(a) <= ONE,
        quality_of(a) is None ==> quality_or_one(a) == ONE,
        (a.len() > 0 && b.len() > 0 && a[0] != '-' && b[0] != '-' && !is_infinite(unsigned_part(a)) && !is_infinite(
            unsigned_part(b),
        ) && !same_nocase(unsigned_part(a), "nan"@) && !same_nocase(unsigned_part(b), "nan"@)) ==> (match (
            number_parts(unsigned_part(a)),
            number_parts(unsigned_part(b)),
        ) {
            (Some((w, f, e)), Some((v, g, h))) => f.len() == g.len() && e == h && digits_value(w + f) <= digits_value(
                v + g,
            ) ==> quality_or_one(a) <= quality_or_one(b),
            _ => true,
        }),
{
    if let Some((w, f, e)) = number_parts(unsigned_part(a)) {
        lemma_rounded_grows(digits_value(w + f), digits_value(w + f), e - f.len(), ONE as nat);
        if let Some((v, g, h)) = number_parts(unsigned_part(b)) {
            if digits_value(w + f) <= digits_value(v + g) {
                lemma_rounded_grows(digits_value(w + f), digits_value(v + g), e - f.len(), ONE as nat);
            }
        }
    }
}

}
