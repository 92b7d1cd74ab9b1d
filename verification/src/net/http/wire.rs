//! Why a header that was written to the wire is found again: where it ends, and what its lines are.
use vstd::prelude::*;
use vstd::utf8::{encode_scalar, encode_utf8};

use crate::text::{
    first_occurrence, is_white, joined, lacks, lemma_find_is, lemma_find_none, lemma_first_occurrence,
    lines_of, occurs_at, trimmed, trimmed_start,
};

verus! {

/// Text without line ends.
pub open spec fn clean(s: Seq<char>) -> bool {
    lacks(s, '\r') && lacks(s, '\n')
}

/// A line of a header.
pub open spec fn is_header_line(s: Seq<char>) -> bool {
    clean(s) && s.len() > 0
}

pub open spec fn crlf() -> Seq<char> {
    seq!['\r', '\n']
}

/// Lines, each with its line end.
pub open spec fn crlf_ended(lines: Seq<Seq<char>>) -> Seq<char>
    decreases lines.len(),
{
    if lines.len() == 0 {
        seq![]
    } else {
        crlf_ended(lines.drop_last()) + lines.last() + crlf()
    }
}

/// Ended lines are joined lines with one more line end.
pub proof fn lemma_crlf_ended(lines: Seq<Seq<char>>)
    requires
        lines.len() > 0,
    ensures
        crlf_ended(lines) == joined(lines, crlf()) + crlf(),
    decreases lines.len(),
{
    let before = lines.drop_last();
    crate::text::lemma_joined_push(before, crlf(), lines.last());
    assert(before.push(lines.last()) =~= lines);
    if before.len() > 0 {
        lemma_crlf_ended(before);
    } else {
        assert(crlf_ended(before) =~= seq![]);
        assert(crlf_ended(lines) =~= lines.last() + crlf());
    }
}

/// A search passes over what `p` does not occur in.
pub proof fn lemma_pass<T>(a: Seq<T>, b: Seq<T>, p: Seq<T>)
    requires
        forall|j: int| 0 <= j < a.len() ==> !#[trigger] occurs_at(a + b, p, j),
    ensures
        first_occurrence(a + b, p, 0) == (match first_occurrence(b, p, 0) {
            Some(i) => Some(i + a.len()),
            None => None,
        }),
{
    let s = a + b;
    let n = a.len() as int;
    lemma_first_occurrence(s, p, 0);
    lemma_first_occurrence(b, p, 0);
    assert forall|k: int| 0 <= k implies #[trigger] occurs_at(b, p, k) == occurs_at(s, p, n + k) by {
        if k + p.len() <= b.len() {
            assert(b.subrange(k, k + p.len()) =~= s.subrange(n + k, n + k + p.len()));
        }
    }
    match first_occurrence(b, p, 0) {
        Some(k) => {
            assert(occurs_at(s, p, n + k));
            match first_occurrence(s, p, 0) {
                Some(j) => {
                    if j < n {
                        assert(!occurs_at(s, p, j));
                    } else if j < n + k {
                        assert(occurs_at(b, p, j - n));
                    } else if j > n + k {
                        assert(!occurs_at(s, p, n + k));
                    }
                },
                None => {},
            }
        },
        None => {
            match first_occurrence(s, p, 0) {
                Some(j) => {
                    if j < n {
                        assert(!occurs_at(s, p, j));
                    } else {
                        assert(occurs_at(b, p, j - n));
                    }
                },
                None => {},
            }
        },
    }
}

/// A search passes over what lacks the first element of `p`.
pub proof fn lemma_pass_lacking<T>(a: Seq<T>, b: Seq<T>, p: Seq<T>)
    requires
        p.len() > 0,
        forall|j: int| 0 <= j < a.len() ==> #[trigger] a[j] != p[0],
    ensures
        first_occurrence(a + b, p, 0) == (match first_occurrence(b, p, 0) {
            Some(i) => Some(i + a.len()),
            None => None,
        }),
{
    let s = a + b;
    assert forall|j: int| 0 <= j < a.len() implies !#[trigger] occurs_at(s, p, j) by {
        if occurs_at(s, p, j) {
            assert(s.subrange(j, j + p.len())[0] == s[j]);
            assert(s[j] == a[j]);
        }
    }
    lemma_pass(a, b, p);
}

/// A search for two line ends passes over one that something else follows.
pub proof fn lemma_pass_line_end<T>(cr: T, lf: T, b: Seq<T>)
    requires
        cr != lf,
        b.len() > 0,
        b[0] != cr,
    ensures
        first_occurrence(seq![cr, lf] + b, seq![cr, lf, cr, lf], 0) == (match first_occurrence(
            b,
            seq![cr, lf, cr, lf],
            0,
        ) {
            Some(i) => Some(i + 2),
            None => None,
        }),
{
    let a = seq![cr, lf];
    let p = seq![cr, lf, cr, lf];
    let s = a + b;
    assert forall|j: int| 0 <= j < a.len() implies !#[trigger] occurs_at(s, p, j) by {
        if occurs_at(s, p, j) {
            let w = s.subrange(j, j + 4);
            assert(w[0] == s[j] && w[2] == s[j + 2]);
            assert(w[0] == cr && w[2] == cr);
            if j == 0 {
                assert(s[2] == b[0]);
            }
        }
    }
    lemma_pass(a, b, p);
}

/// Joined header lines end where the first empty line is.
pub proof fn lemma_header_end(lines: Seq<Seq<char>>, rest: Seq<char>)
    requires
        lines.len() > 0,
        forall|i: int| 0 <= i < lines.len() ==> is_header_line(#[trigger] lines[i]),
    ensures
        first_occurrence(
            joined(lines, crlf()) + (crlf() + crlf()) + rest,
            seq!['\r', '\n', '\r', '\n'],
            0,
        ) == Some(joined(lines, crlf()).len() as int),
    decreases lines.len(),
{
    let p = seq!['\r', '\n', '\r', '\n'];
    let first = lines[0];
    assert(is_header_line(first));
    if lines.len() == 1 {
        let b = p + rest;
        assert(joined(lines, crlf()) + (crlf() + crlf()) + rest =~= first + b);
        lemma_pass_lacking(first, b, p);
        assert(b.subrange(0, 4) =~= p);
        assert(first_occurrence(b, p, 0) == Some(0int));
    } else {
        let more = lines.skip(1);
        assert forall|i: int| 0 <= i < more.len() implies is_header_line(#[trigger] more[i]) by {
            assert(more[i] == lines[i + 1]);
        }
        let t = joined(more, crlf()) + (crlf() + crlf()) + rest;
        lemma_header_end(more, rest);
        assert(is_header_line(more[0]));
        assert(t[0] == more[0][0]);
        lemma_pass_line_end('\r', '\n', t);
        assert(joined(lines, crlf()) + (crlf() + crlf()) + rest =~= first + (crlf() + t));
        lemma_pass_lacking(first, crlf() + t, p);
    }
}

/// Octets of a text are the octets of its parts.
pub proof fn lemma_utf8_concat(a: Seq<char>, b: Seq<char>)
    ensures
        encode_utf8(a + b) == encode_utf8(a) + encode_utf8(b),
    decreases a.len(),
{
    let s = a + b;
    if a.len() == 0 {
        assert(s =~= b);
        assert(encode_utf8(a) + encode_utf8(b) =~= encode_utf8(b));
    } else {
        assert(s.drop_first() =~= a.drop_first() + b);
        lemma_utf8_concat(a.drop_first(), b);
        assert(encode_utf8(s) =~= encode_utf8(a) + encode_utf8(b));
    }
}

/// The octets of a character beyond ASCII are all beyond ASCII.
proof fn lemma_scalar_octets(c: u32, i: int)
    requires
        0 <= i < encode_scalar(c).len(),
    ensures
        c <= 127 ==> encode_scalar(c) =~= seq![c as u8],
        c > 127 ==> encode_scalar(c)[i] >= 128,
{
    assert(c <= 127 ==> (c & 0x7F) as u8 == c as u8) by (bit_vector);
    assert((0xC0u8 | ((c >> 6) & 0x1F) as u8) >= 128) by (bit_vector);
    assert((0xE0u8 | ((c >> 12) & 0x0F) as u8) >= 128) by (bit_vector);
    assert((0xF0u8 | ((c >> 18) & 0x7) as u8) >= 128) by (bit_vector);
    assert((0x80u8 | (c & 0x3F) as u8) >= 128) by (bit_vector);
    assert((0x80u8 | ((c >> 6) & 0x3F) as u8) >= 128) by (bit_vector);
    assert((0x80u8 | ((c >> 12) & 0x3F) as u8) >= 128) by (bit_vector);
}

/// Where a text lacks an ASCII character, its octets lack that character's octet.
pub proof fn lemma_octets_lack(s: Seq<char>, c: char)
    requires
        lacks(s, c),
        c as u32 <= 127,
    ensures
        forall|i: int| 0 <= i < encode_utf8(s).len() ==> #[trigger] encode_utf8(s)[i] != c as u8,
    decreases s.len(),
{
    if s.len() > 0 {
        let first = encode_scalar(s[0] as u32);
        let rest = s.drop_first();
        assert forall|i: int| 0 <= i < rest.len() implies #[trigger] rest[i] != c by {
            assert(rest[i] == s[i + 1]);
        }
        lemma_octets_lack(rest, c);
        let all = encode_utf8(s);
        assert forall|i: int| 0 <= i < all.len() implies #[trigger] all[i] != c as u8 by {
            if i < first.len() {
                assert(all[i] == first[i]);
                lemma_scalar_octets(s[0] as u32, i);
                lemma_codes_differ(s[0], c);
            } else {
                assert(all[i] == encode_utf8(rest)[i - first.len()]);
            }
        }
    }
}

proof fn lemma_codes_differ(a: char, c: char)
    requires
        a != c,
        c as u32 <= 127,
    ensures
        a as u32 != c as u32,
        a as u32 <= 127 ==> (a as u32) as u8 != c as u8,
{
}

/// The octets of a text that is not empty begin with those of its first character.
proof fn lemma_first_octet(s: Seq<char>)
    requires
        s.len() > 0,
        s[0] != '\r',
    ensures
        encode_utf8(s).len() > 0,
        encode_utf8(s)[0] != 13,
{
    let first = encode_scalar(s[0] as u32);
    assert(first.len() > 0);
    lemma_scalar_octets(s[0] as u32, 0);
    lemma_codes_differ(s[0], '\r');
    assert(encode_utf8(s)[0] == first[0]);
}

pub proof fn lemma_crlf_octets()
    ensures
        encode_utf8(crlf()) == seq![13u8, 10u8],
{
    let s = crlf();
    assert(s.drop_first() =~= seq!['\n']);
    assert(seq!['\n'].drop_first() =~= seq![]);
    lemma_scalar_octets('\r' as u32, 0);
    lemma_scalar_octets('\n' as u32, 0);
    reveal_with_fuel(encode_utf8, 3);
    assert(encode_utf8(s) =~= seq![13u8, 10u8]);
}

/// Octets of joined header lines end where the first empty line is.
pub proof fn lemma_header_end_octets(lines: Seq<Seq<char>>, rest: Seq<u8>)
    requires
        lines.len() > 0,
        forall|i: int| 0 <= i < lines.len() ==> is_header_line(#[trigger] lines[i]),
    ensures
        first_occurrence(
            encode_utf8(joined(lines, crlf())) + seq![13u8, 10u8, 13u8, 10u8] + rest,
            seq![13u8, 10u8, 13u8, 10u8],
            0,
        ) == Some(encode_utf8(joined(lines, crlf())).len() as int),
    decreases lines.len(),
{
    let p = seq![13u8, 10u8, 13u8, 10u8];
    let first = lines[0];
    assert(is_header_line(first));
    lemma_octets_lack(first, '\r');
    let f = encode_utf8(first);
    if lines.len() == 1 {
        let b = p + rest;
        assert(encode_utf8(joined(lines, crlf())) + p + rest =~= f + b);
        lemma_pass_lacking(f, b, p);
        assert(b.subrange(0, 4) =~= p);
        assert(first_occurrence(b, p, 0) == Some(0int));
    } else {
        let more = lines.skip(1);
        assert forall|i: int| 0 <= i < more.len() implies is_header_line(#[trigger] more[i]) by {
            assert(more[i] == lines[i + 1]);
        }
        let j = joined(more, crlf());
        let t = encode_utf8(j) + p + rest;
        lemma_header_end_octets(more, rest);
        assert(is_header_line(more[0]));
        assert(j[0] == more[0][0]);
        lemma_first_octet(j);
        assert(t[0] == encode_utf8(j)[0]);
        lemma_pass_line_end(13u8, 10u8, t);
        lemma_utf8_concat(first + crlf(), j);
        lemma_utf8_concat(first, crlf());
        lemma_crlf_octets();
        assert(encode_utf8(joined(lines, crlf())) + p + rest =~= f + (seq![13u8, 10u8] + t));
        lemma_pass_lacking(f, seq![13u8, 10u8] + t, p);
    }
}

/// Joined header lines are found again.
pub proof fn lemma_header_lines(lines: Seq<Seq<char>>)
    requires
        lines.len() > 0,
        forall|i: int| 0 <= i < lines.len() ==> is_header_line(#[trigger] lines[i]),
    ensures
        lines_of(joined(lines, crlf())) == lines,
        joined(lines, crlf()).len() > 0,
    decreases lines.len(),
{
    let s = joined(lines, crlf());
    let first = lines[0];
    assert(is_header_line(first));
    if lines.len() == 1 {
        lemma_find_none(s, '\n');
        assert(lines_of(s) =~= lines);
    } else {
        let more = lines.skip(1);
        assert forall|i: int| 0 <= i < more.len() implies is_header_line(#[trigger] more[i]) by {
            assert(more[i] == lines[i + 1]);
        }
        lemma_header_lines(more);
        let n = first.len() as int;
        assert(s[n] == '\r' && s[n + 1] == '\n');
        assert forall|j: int| 0 <= j < n + 1 implies s[j] != '\n' by {
            if j < n {
                assert(s[j] == first[j]);
            }
        }
        lemma_find_is(s, '\n', n + 1);
        assert(s.take(n + 1) =~= first.push('\r'));
        assert(first.push('\r').drop_last() =~= first);
        assert(s.skip(n + 2) =~= joined(more, crlf()));
        assert(lines_of(s) =~= seq![first] + more);
        assert(seq![first] + more =~= lines);
    }
}

/// A blank before a text is trimmed away.
pub proof fn lemma_trimmed_blank(s: Seq<char>)
    requires
        trimmed(s) == s,
    ensures
        trimmed(seq![' '] + s) == s,
{
    let t = seq![' '] + s;
    assert(t.skip(1) =~= s);
    assert(is_white(t[0]));
    assert(trimmed_start(t) == trimmed_start(s));
}

/// Joined header lines are found again before the empty line that ends them.
pub proof fn lemma_header_lines_ended(lines: Seq<Seq<char>>)
    requires
        lines.len() > 0,
        forall|i: int| 0 <= i < lines.len() ==> is_header_line(#[trigger] lines[i]),
    ensures
        lines_of(joined(lines, crlf()) + crlf() + crlf()) == lines.push(seq![]),
    decreases lines.len(),
{
    let s = joined(lines, crlf()) + crlf() + crlf();
    let first = lines[0];
    assert(is_header_line(first));
    let n = first.len() as int;
    if lines.len() == 1 {
        assert(s =~= first + crlf() + crlf());
    }
    assert(s[n] == '\r' && s[n + 1] == '\n');
    assert forall|j: int| 0 <= j < n + 1 implies s[j] != '\n' by {
        if j < n {
            assert(s[j] == first[j]);
        }
    }
    lemma_find_is(s, '\n', n + 1);
    assert(s.take(n + 1) =~= first.push('\r'));
    assert(first.push('\r').drop_last() =~= first);
    if lines.len() == 1 {
        let rest = s.skip(n + 2);
        assert(rest =~= crlf());
        lemma_find_is(rest, '\n', 1);
        assert(rest.take(1) =~= seq!['\r']);
        assert(seq!['\r'].drop_last() =~= seq![]);
        assert(rest.skip(2) =~= seq![]);
        assert(lines_of(rest.skip(2)) =~= seq![]);
        assert(lines_of(rest) =~= seq![seq![]]);
        assert(lines_of(s) =~= lines.push(seq![]));
    } else {
        let more = lines.skip(1);
        assert forall|i: int| 0 <= i < more.len() implies is_header_line(#[trigger] more[i]) by {
            assert(more[i] == lines[i + 1]);
        }
        lemma_header_lines_ended(more);
        assert(s.skip(n + 2) =~= joined(more, crlf()) + crlf() + crlf());
        assert(lines_of(s) =~= seq![first] + more.push(seq![]));
        assert(seq![first] + more.push(seq![]) =~= lines.push(seq![]));
    }
}

}
