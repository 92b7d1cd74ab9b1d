//! Text as sequences of characters: the string operations that the header formats are made of.
//!
//! Specifications speak of `Seq<char>`, the view of `str` and `String`. Executable code works on
//! `&[char]`, so that a piece of a text can be borrowed by position.
use vstd::prelude::*;
use vstd::slice::slice_subrange;
use vstd::utf8::{decode_utf8, is_ascii_chars, valid_utf8};

verus! {

/// `String::push` appends one character at the end.
pub assume_specification[ String::push ](s: &mut String, c: char)
    ensures
        final(s)@ == old(s)@.push(c),
;

/// Collects the characters of a string.
pub fn chars_of(s: &str) -> (r: Vec<char>)
    ensures
        r@ == s@,
{
    let mut out: Vec<char> = Vec::new();
    for c in it: s.chars()
        invariant
            out@ == it.seq().take(it.index()),
            it.seq() == s@,
    {
        out.push(c);
        assert(out@ =~= it.seq().take(it.index() + 1));
    }
    assert(out@ =~= s@);
    out
}

/// Builds a string from characters.
pub fn string_of(s: &[char]) -> (r: String)
    ensures
        r@ == s@,
{
    let mut out = String::new();
    let mut i: usize = 0;
    while i < s.len()
        invariant
            i <= s@.len(),
            out@ == s@.take(i as int),
        decreases s@.len() - i,
    {
        out.push(s[i]);
        i = i + 1;
        assert(out@ =~= s@.take(i as int));
    }
    assert(out@ =~= s@);
    out
}

/// Appends all of `tail` to `out`.
pub fn push_text(out: &mut Vec<char>, tail: &str)
    ensures
        final(out)@ == old(out)@ + tail@,
{
    let mut more = chars_of(tail);
    out.append(&mut more);
}

/// Appends a slice of characters to `out`.
pub fn push_chars(out: &mut Vec<char>, tail: &[char])
    ensures
        final(out)@ == old(out)@ + tail@,
{
    let mut i: usize = 0;
    while i < tail.len()
        invariant
            i <= tail@.len(),
            out@ == old(out)@ + tail@.take(i as int),
        decreases tail@.len() - i,
    {
        out.push(tail[i]);
        i = i + 1;
        assert(out@ =~= old(out)@ + tail@.take(i as int));
    }
    assert(out@ =~= old(out)@ + tail@);
}

/// Whether two texts are the same.
pub fn same_text(a: &[char], b: &[char]) -> (r: bool)
    ensures
        r == (a@ == b@),
{
    if a.len() != b.len() {
        return false;
    }
    let mut i: usize = 0;
    while i < a.len()
        invariant
            i <= a@.len(),
            a@.len() == b@.len(),
            forall|j: int| 0 <= j < i ==> a@[j] == b@[j],
        decreases a@.len() - i,
    {
        if a[i] != b[i] {
            return false;
        }
        i = i + 1;
    }
    assert(a@ =~= b@);
    true
}

/// Whether a text is the given string.
pub fn is_text(a: &[char], b: &str) -> (r: bool)
    ensures
        r == (a@ == b@),
{
    let other = chars_of(b);
    same_text(a, other.as_slice())
}

/// The Unicode `White_Space` property.
pub open spec fn is_white(c: char) -> bool {
    ||| '\u{9}' <= c <= '\u{d}'
    ||| c == ' '
    ||| c == '\u{85}'
    ||| c == '\u{a0}'
    ||| c == '\u{1680}'
    ||| '\u{2000}' <= c <= '\u{200a}'
    ||| c == '\u{2028}'
    ||| c == '\u{2029}'
    ||| c == '\u{202f}'
    ||| c == '\u{205f}'
    ||| c == '\u{3000}'
}

pub fn white(c: char) -> (r: bool)
    ensures
        r == is_white(c),
{
    ('\u{9}' <= c && c <= '\u{d}') || c == ' ' || c == '\u{85}' || c == '\u{a0}' || c == '\u{1680}'
        || ('\u{2000}' <= c && c <= '\u{200a}') || c == '\u{2028}' || c == '\u{2029}'
        || c == '\u{202f}' || c == '\u{205f}' || c == '\u{3000}'
}

/// `s` without leading white space.
pub open spec fn trimmed_start(s: Seq<char>) -> Seq<char>
    decreases s.len(),
{
    if s.len() > 0 && is_white(s[0]) {
        trimmed_start(s.skip(1))
    } else {
        s
    }
}

/// `s` without trailing white space.
pub open spec fn trimmed_end(s: Seq<char>) -> Seq<char>
    decreases s.len(),
{
    if s.len() > 0 && is_white(s.last()) {
        trimmed_end(s.drop_last())
    } else {
        s
    }
}

/// `s` without the white space at both ends.
pub open spec fn trimmed(s: Seq<char>) -> Seq<char> {
    trimmed_end(trimmed_start(s))
}

pub fn trim(s: &[char]) -> (r: &[char])
    ensures
        r@ == trimmed(s@),
{
    let mut i: usize = 0;
    assert(s@.skip(0) =~= s@);
    while i < s.len() && white(s[i])
        invariant
            i <= s@.len(),
            trimmed_start(s@.skip(i as int)) == trimmed_start(s@),
        decreases s@.len() - i,
    {
        assert(s@.skip(i as int).skip(1) =~= s@.skip(i + 1));
        i = i + 1;
    }
    assert(trimmed_start(s@) == s@.skip(i as int));
    let mut j: usize = s.len();
    while i < j && white(s[j - 1])
        invariant
            i <= j <= s@.len(),
            trimmed_end(s@.subrange(i as int, j as int)) == trimmed(s@),
        decreases j,
    {
        assert(s@.subrange(i as int, j as int).drop_last() =~= s@.subrange(i as int, j - 1));
        j = j - 1;
    }
    slice_subrange(s, i, j)
}

/// The position of the first `c` at or after `from`.
pub open spec fn find_from(s: Seq<char>, c: char, from: int) -> Option<int>
    decreases s.len() - from,
{
    if from < 0 || from >= s.len() {
        None
    } else if s[from] == c {
        Some(from)
    } else {
        find_from(s, c, from + 1)
    }
}

/// The position of the first `c` in `s`.
pub open spec fn find(s: Seq<char>, c: char) -> Option<int> {
    find_from(s, c, 0)
}

/// What `find_from` means.
pub proof fn lemma_find_from(s: Seq<char>, c: char, from: int)
    requires
        0 <= from <= s.len(),
    ensures
        match find_from(s, c, from) {
            Some(i) => from <= i < s.len() && s[i] == c && (forall|j: int|
                from <= j < i ==> s[j] != c),
            None => forall|j: int| from <= j < s.len() ==> s[j] != c,
        },
    decreases s.len() - from,
{
    if from < s.len() && s[from] != c {
        lemma_find_from(s, c, from + 1);
    }
}

/// A position that holds `c`, with none before it, is the one found.
pub proof fn lemma_find_is(s: Seq<char>, c: char, i: int)
    requires
        0 <= i < s.len(),
        s[i] == c,
        forall|j: int| 0 <= j < i ==> s[j] != c,
    ensures
        find(s, c) == Some(i),
{
    lemma_find_from(s, c, 0);
}

/// Where no character is `c`, nothing is found.
pub proof fn lemma_find_none(s: Seq<char>, c: char)
    requires
        forall|j: int| 0 <= j < s.len() ==> s[j] != c,
    ensures
        find(s, c) is None,
{
    lemma_find_from(s, c, 0);
}

pub fn find_char(s: &[char], c: char) -> (r: Option<usize>)
    ensures
        match r {
            Some(i) => i < s@.len() && find(s@, c) == Some(i as int),
            None => find(s@, c) is None,
        },
{
    let mut i: usize = 0;
    while i < s.len()
        invariant
            i <= s@.len(),
            find_from(s@, c, i as int) == find(s@, c),
        decreases s@.len() - i,
    {
        if s[i] == c {
            return Some(i);
        }
        i = i + 1;
    }
    None
}

/// The position of the last `c` in `s`.
pub open spec fn rfind(s: Seq<char>, c: char) -> Option<int>
    decreases s.len(),
{
    if s.len() == 0 {
        None
    } else if s.last() == c {
        Some(s.len() - 1)
    } else {
        rfind(s.drop_last(), c)
    }
}

pub fn rfind_char(s: &[char], c: char) -> (r: Option<usize>)
    ensures
        match r {
            Some(i) => i < s@.len() && rfind(s@, c) == Some(i as int),
            None => rfind(s@, c) is None,
        },
{
    let mut i: usize = s.len();
    assert(s@.take(i as int) =~= s@);
    while i > 0
        invariant
            i <= s@.len(),
            rfind(s@.take(i as int), c) == rfind(s@, c),
        decreases i,
    {
        assert(s@.take(i as int).drop_last() =~= s@.take(i - 1));
        if s[i - 1] == c {
            return Some(i - 1);
        }
        i = i - 1;
    }
    None
}

/// Whether `p` stands in `s` at position `i`.
pub open spec fn occurs_at<T>(s: Seq<T>, p: Seq<T>, i: int) -> bool {
    0 <= i && i + p.len() <= s.len() && s.subrange(i, i + p.len()) == p
}

/// The first position at or after `from` at which `p` stands in `s`.
pub open spec fn first_occurrence<T>(s: Seq<T>, p: Seq<T>, from: int) -> Option<int>
    decreases s.len() + 1 - from,
{
    if from + p.len() > s.len() {
        None
    } else if occurs_at(s, p, from) {
        Some(from)
    } else {
        first_occurrence(s, p, from + 1)
    }
}

/// What `first_occurrence` means.
pub proof fn lemma_first_occurrence<T>(s: Seq<T>, p: Seq<T>, from: int)
    requires
        0 <= from,
    ensures
        match first_occurrence(s, p, from) {
            Some(i) => from <= i && occurs_at(s, p, i) && (forall|j: int|
                from <= j < i ==> !occurs_at(s, p, j)),
            None => forall|j: int| from <= j ==> !occurs_at(s, p, j),
        },
    decreases s.len() + 1 - from,
{
    if from + p.len() <= s.len() && !occurs_at(s, p, from) {
        lemma_first_occurrence(s, p, from + 1);
    }
}

/// Whether `p` stands somewhere in `s`.
pub open spec fn has_text(s: Seq<char>, p: Seq<char>) -> bool {
    first_occurrence(s, p, 0) is Some
}

/// Where `p` stands first in `s`.
pub fn find_text(s: &[char], p: &str) -> (r: Option<usize>)
    ensures
        match r {
            Some(i) => first_occurrence(s@, p@, 0) == Some(i as int) && i + p@.len() <= s@.len(),
            None => first_occurrence(s@, p@, 0) is None,
        },
{
    let pat = chars_of(p);
    if pat.len() > s.len() {
        return None;
    }
    let mut i: usize = 0;
    let last: usize = s.len() - pat.len();
    while i <= last
        invariant
            pat@ == p@,
            last == s@.len() - pat@.len(),
            i <= last + 1,
            s@.len() <= usize::MAX,
            first_occurrence(s@, p@, i as int) == first_occurrence(s@, p@, 0),
        decreases last + 1 - i,
    {
        if same_text(slice_subrange(s, i, i + pat.len()), pat.as_slice()) {
            return Some(i);
        }
        if i == last {
            assert(first_occurrence(s@, p@, last + 1) is None);
            return None;
        }
        i = i + 1;
    }
    None
}

pub fn contains_text(s: &[char], p: &str) -> (r: bool)
    ensures
        r == has_text(s@, p@),
{
    find_text(s, p).is_some()
}

/// What stands before the first `c`, or everything where there is none.
pub open spec fn head(s: Seq<char>, c: char) -> Seq<char> {
    match find(s, c) {
        Some(i) => s.take(i),
        None => s,
    }
}

/// What stands before the first `c`.
pub fn up_to<'a>(s: &'a [char], c: char) -> (r: &'a [char])
    ensures
        r@ == head(s@, c),
{
    match find_char(s, c) {
        Some(i) => {
            let r = slice_subrange(s, 0, i);
            assert(r@ =~= s@.take(i as int));
            r
        },
        None => s,
    }
}

/// Whether `s` begins with `p`.
pub open spec fn begins_with(s: Seq<char>, p: Seq<char>) -> bool {
    p.len() <= s.len() && s.take(p.len() as int) == p
}

pub fn starts_with(s: &[char], p: &str) -> (r: bool)
    ensures
        r == begins_with(s@, p@),
{
    let pat = chars_of(p);
    if pat.len() > s.len() {
        return false;
    }
    same_text(slice_subrange(s, 0, pat.len()), pat.as_slice())
}

/// `s` without the prefix `p`, where it has it.
pub open spec fn without_prefix(s: Seq<char>, p: Seq<char>) -> Option<Seq<char>> {
    if begins_with(s, p) {
        Some(s.skip(p.len() as int))
    } else {
        None
    }
}

pub fn strip_prefix<'a>(s: &'a [char], p: &str) -> (r: Option<&'a [char]>)
    ensures
        match r {
            Some(rest) => without_prefix(s@, p@) == Some(rest@),
            None => without_prefix(s@, p@) is None,
        },
{
    let pat = chars_of(p);
    if pat.len() > s.len() {
        return None;
    }
    if same_text(slice_subrange(s, 0, pat.len()), pat.as_slice()) {
        let rest = slice_subrange(s, pat.len(), s.len());
        assert(rest@ =~= s@.skip(p@.len() as int));
        Some(rest)
    } else {
        None
    }
}

/// What is left of `s` when `p` is taken off its beginning as often as it stands there.
pub open spec fn without_prefixes(s: Seq<char>, p: Seq<char>) -> Seq<char>
    decreases s.len(),
{
    if p.len() > 0 && begins_with(s, p) {
        without_prefixes(s.skip(p.len() as int), p)
    } else {
        s
    }
}

/// Takes `p` off the beginning as often as it stands there.
pub fn strip_prefixes<'a>(s: &'a [char], p: &str) -> (r: &'a [char])
    requires
        p@.len() > 0,
    ensures
        r@ == without_prefixes(s@, p@),
{
    let mut rest = s;
    loop
        invariant
            p@.len() > 0,
            without_prefixes(rest@, p@) == without_prefixes(s@, p@),
        ensures
            rest@ == without_prefixes(s@, p@),
        decreases rest@.len(),
    {
        match strip_prefix(rest, p) {
            Some(t) => {
                rest = t;
            },
            None => {
                break ;
            },
        }
    }
    rest
}

/// The texts that a vector of pieces stands for.
pub open spec fn texts(v: Seq<&[char]>) -> Seq<Seq<char>> {
    Seq::new(v.len(), |i: int| v[i]@)
}

/// The pieces of `s` between separators `c`.
pub open spec fn split_on(s: Seq<char>, c: char) -> Seq<Seq<char>>
    decreases s.len(),
{
    match find(s, c) {
        Some(i) => if 0 <= i < s.len() {
            seq![s.take(i)] + split_on(s.skip(i + 1), c)
        } else {
            seq![s]
        },
        None => seq![s],
    }
}

pub fn split<'a>(s: &'a [char], c: char) -> (r: Vec<&'a [char]>)
    ensures
        texts(r@) == split_on(s@, c),
{
    let mut out: Vec<&'a [char]> = Vec::new();
    let mut start: usize = 0;
    assert(s@.skip(0) =~= s@);
    loop
        invariant
            start <= s@.len(),
            texts(out@) + split_on(s@.skip(start as int), c) == split_on(s@, c),
        decreases s@.len() - start,
    {
        let rest = slice_subrange(s, start, s.len());
        assert(rest@ =~= s@.skip(start as int));
        let ghost before = out@;
        match find_char(rest, c) {
            Some(i) => {
                let piece = slice_subrange(rest, 0, i);
                out.push(piece);
                proof {
                    assert(piece@ =~= rest@.take(i as int));
                    assert(s@.skip(start as int).skip(i + 1) =~= s@.skip(start + i + 1));
                    assert(texts(out@) =~= texts(before).push(piece@));
                    assert(texts(before) + (seq![piece@] + split_on(s@.skip(start + i + 1), c))
                        =~= texts(out@) + split_on(s@.skip(start + i + 1), c));
                }
                start = start + i + 1;
            },
            None => {
                out.push(rest);
                proof {
                    assert(texts(out@) =~= texts(before) + seq![rest@]);
                }
                return out;
            },
        }
    }
}

/// `s` without one trailing carriage return.
pub open spec fn without_cr(s: Seq<char>) -> Seq<char> {
    if s.len() > 0 && s.last() == '\r' {
        s.drop_last()
    } else {
        s
    }
}

/// The lines of `s`: each ends in a line feed, with a carriage return before it or not; the last
/// may lack the line feed.
pub open spec fn lines_of(s: Seq<char>) -> Seq<Seq<char>>
    decreases s.len(),
{
    if s.len() == 0 {
        seq![]
    } else {
        match find(s, '\n') {
            Some(i) => if 0 <= i < s.len() {
                seq![without_cr(s.take(i))] + lines_of(s.skip(i + 1))
            } else {
                seq![s]
            },
            None => seq![s],
        }
    }
}

pub fn lines<'a>(s: &'a [char]) -> (r: Vec<&'a [char]>)
    ensures
        texts(r@) == lines_of(s@),
{
    let mut out: Vec<&'a [char]> = Vec::new();
    let mut start: usize = 0;
    assert(s@.skip(0) =~= s@);
    assert(texts(out@) + lines_of(s@) =~= lines_of(s@));
    while start < s.len()
        invariant
            start <= s@.len(),
            texts(out@) + lines_of(s@.skip(start as int)) == lines_of(s@),
        decreases s@.len() - start,
    {
        let rest = slice_subrange(s, start, s.len());
        assert(rest@ =~= s@.skip(start as int));
        let ghost before = out@;
        match find_char(rest, '\n') {
            Some(i) => {
                let end: usize = if i > 0 && rest[i - 1] == '\r' {
                    i - 1
                } else {
                    i
                };
                let piece = slice_subrange(rest, 0, end);
                out.push(piece);
                proof {
                    assert(piece@ =~= without_cr(rest@.take(i as int)));
                    assert(s@.skip(start as int).skip(i + 1) =~= s@.skip(start + i + 1));
                    assert(texts(out@) =~= texts(before).push(piece@));
                    assert(texts(before) + (seq![piece@] + lines_of(s@.skip(start + i + 1)))
                        =~= texts(out@) + lines_of(s@.skip(start + i + 1)));
                }
                start = start + i + 1;
            },
            None => {
                out.push(rest);
                proof {
                    assert(texts(out@) =~= texts(before) + seq![rest@]);
                }
                return out;
            },
        }
    }
    assert(lines_of(s@.skip(start as int)) =~= seq![]);
    assert(texts(out@) =~= lines_of(s@));
    out
}

/// The words of `s`: its longest pieces without white space.
pub open spec fn words_of(s: Seq<char>) -> Seq<Seq<char>>
    decreases s.len(),
{
    let t = trimmed_start(s);
    if t.len() == 0 || t.len() > s.len() {
        seq![]
    } else {
        let n = word_len(t);
        if 0 < n <= t.len() {
            seq![t.take(n)] + words_of(t.skip(n))
        } else {
            seq![]
        }
    }
}

/// How many characters stand before the first white space.
pub open spec fn word_len(s: Seq<char>) -> int
    decreases s.len(),
{
    if s.len() == 0 || is_white(s[0]) {
        0
    } else {
        1 + word_len(s.skip(1))
    }
}

proof fn lemma_trimmed_start_len(s: Seq<char>)
    ensures
        trimmed_start(s).len() <= s.len(),
        trimmed_start(s).len() > 0 ==> !is_white(trimmed_start(s)[0]),
    decreases s.len(),
{
    if s.len() > 0 && is_white(s[0]) {
        lemma_trimmed_start_len(s.skip(1));
    }
}

pub fn words<'a>(s: &'a [char]) -> (r: Vec<&'a [char]>)
    ensures
        texts(r@) == words_of(s@),
{
    let mut out: Vec<&'a [char]> = Vec::new();
    let mut start: usize = 0;
    assert(s@.skip(0) =~= s@);
    assert(texts(out@) + words_of(s@) =~= words_of(s@));
    loop
        invariant
            start <= s@.len(),
            texts(out@) + words_of(s@.skip(start as int)) == words_of(s@),
        decreases s@.len() - start,
    {
        let ghost first = start;
        while start < s.len() && white(s[start])
            invariant
                first <= start <= s@.len(),
                trimmed_start(s@.skip(start as int)) == trimmed_start(s@.skip(first as int)),
            decreases s@.len() - start,
        {
            assert(s@.skip(start as int).skip(1) =~= s@.skip(start + 1));
            start = start + 1;
        }
        let ghost t = s@.skip(start as int);
        assert(trimmed_start(s@.skip(first as int)) == t);
        if start == s.len() {
            assert(texts(out@) =~= words_of(s@));
            return out;
        }
        let mut end: usize = start;
        while end < s.len() && !white(s[end])
            invariant
                start <= end <= s@.len(),
                t == s@.skip(start as int),
                word_len(t) == end - start + word_len(s@.skip(end as int)),
            decreases s@.len() - end,
        {
            assert(s@.skip(end as int).skip(1) =~= s@.skip(end + 1));
            end = end + 1;
        }
        assert(word_len(s@.skip(end as int)) == 0);
        let ghost before = out@;
        let piece = slice_subrange(s, start, end);
        out.push(piece);
        proof {
            let n = end - start;
            assert(word_len(t.skip(1)) >= 0) by {
                lemma_word_len(t.skip(1));
            }
            assert(piece@ =~= t.take(n));
            assert(t.skip(n) =~= s@.skip(end as int));
            assert(texts(out@) =~= texts(before).push(piece@));
            assert(texts(before) + (seq![piece@] + words_of(s@.skip(end as int)))
                =~= texts(out@) + words_of(s@.skip(end as int)));
        }
        start = end;
    }
}

proof fn lemma_word_len(s: Seq<char>)
    ensures
        0 <= word_len(s) <= s.len(),
    decreases s.len(),
{
    if s.len() > 0 && !is_white(s[0]) {
        lemma_word_len(s.skip(1));
    }
}

/// An ASCII capital becomes the small letter; any other character stays.
pub open spec fn lower(c: char) -> char {
    if 'A' <= c <= 'Z' {
        ((c as u8) + 32) as u8 as char
    } else {
        c
    }
}

pub fn lower_char(c: char) -> (r: char)
    ensures
        r == lower(c),
{
    if 'A' <= c && c <= 'Z' {
        ((c as u8) + 32) as char
    } else {
        c
    }
}

/// `s` with its ASCII capitals made small.
pub open spec fn lowered(s: Seq<char>) -> Seq<char> {
    Seq::new(s.len(), |i: int| lower(s[i]))
}

pub fn to_lower(s: &[char]) -> (r: Vec<char>)
    ensures
        r@ == lowered(s@),
{
    let mut out: Vec<char> = Vec::new();
    let mut i: usize = 0;
    while i < s.len()
        invariant
            i <= s@.len(),
            out@.len() == i,
            forall|j: int| 0 <= j < i ==> out@[j] == lower(s@[j]),
        decreases s@.len() - i,
    {
        out.push(lower_char(s[i]));
        i = i + 1;
    }
    assert(out@ =~= lowered(s@));
    out
}

/// `c` with an ASCII small letter made a capital.
pub open spec fn upper(c: char) -> char {
    if 'a' <= c <= 'z' {
        ((c as u8) - 32) as u8 as char
    } else {
        c
    }
}

/// `s` with its ASCII small letters made capitals.
pub open spec fn uppered(s: Seq<char>) -> Seq<char> {
    Seq::new(s.len(), |i: int| upper(s[i]))
}

pub fn to_upper(s: &[char]) -> (r: Vec<char>)
    ensures
        r@ == uppered(s@),
{
    let mut out: Vec<char> = Vec::new();
    let mut i: usize = 0;
    while i < s.len()
        invariant
            i <= s@.len(),
            out@.len() == i,
            forall|j: int| 0 <= j < i ==> out@[j] == upper(s@[j]),
        decreases s@.len() - i,
    {
        let c = s[i];
        if 'a' <= c && c <= 'z' {
            out.push(((c as u8) - 32) as char);
        } else {
            out.push(c);
        }
        i = i + 1;
    }
    assert(out@ =~= uppered(s@));
    out
}

/// Whether two texts are the same up to the case of ASCII letters.
pub open spec fn same_nocase(a: Seq<char>, b: Seq<char>) -> bool {
    lowered(a) == lowered(b)
}

pub fn eq_nocase(a: &[char], b: &[char]) -> (r: bool)
    ensures
        r == same_nocase(a@, b@),
{
    let x = to_lower(a);
    let y = to_lower(b);
    same_text(x.as_slice(), y.as_slice())
}

pub fn is_text_nocase(a: &[char], b: &str) -> (r: bool)
    ensures
        r == same_nocase(a@, b@),
{
    let y = chars_of(b);
    eq_nocase(a, y.as_slice())
}

/// The pieces with `sep` between neighbours.
pub open spec fn joined(pieces: Seq<Seq<char>>, sep: Seq<char>) -> Seq<char>
    decreases pieces.len(),
{
    if pieces.len() == 0 {
        seq![]
    } else if pieces.len() == 1 {
        pieces[0]
    } else {
        pieces[0] + sep + joined(pieces.skip(1), sep)
    }
}

/// One more piece at the end of joined pieces.
pub proof fn lemma_joined_push(pieces: Seq<Seq<char>>, sep: Seq<char>, last: Seq<char>)
    ensures
        joined(pieces.push(last), sep) == (if pieces.len() == 0 {
            last
        } else {
            joined(pieces, sep) + sep + last
        }),
    decreases pieces.len(),
{
    let all = pieces.push(last);
    reveal_with_fuel(joined, 2);
    if pieces.len() == 1 {
        assert(all.skip(1) =~= seq![last]);
    } else if pieces.len() > 1 {
        assert(all.skip(1) =~= pieces.skip(1).push(last));
        lemma_joined_push(pieces.skip(1), sep, last);
        assert(joined(all, sep) =~= joined(pieces, sep) + sep + last);
    }
}

/// The characters of several texts.
pub open spec fn char_texts(v: Seq<Vec<char>>) -> Seq<Seq<char>> {
    v.map_values(|s: Vec<char>| s@)
}

/// Joins texts.
pub fn join(pieces: &Vec<Vec<char>>, sep: &str) -> (r: Vec<char>)
    ensures
        r@ == joined(char_texts(pieces@), sep@),
{
    let mut out: Vec<char> = Vec::new();
    let ghost all = char_texts(pieces@);
    let mut i: usize = 0;
    while i < pieces.len()
        invariant
            i <= pieces@.len(),
            all == char_texts(pieces@),
            out@ == joined(all.take(i as int), sep@),
        decreases pieces@.len() - i,
    {
        proof {
            lemma_joined_push(all.take(i as int), sep@, all[i as int]);
            assert(all.take(i as int).push(all[i as int]) =~= all.take(i + 1));
        }
        if i > 0 {
            push_text(&mut out, sep);
        }
        push_chars(&mut out, pieces[i].as_slice());
        i = i + 1;
    }
    assert(all.take(all.len() as int) =~= all);
    out
}

/// Text without the characters `c` at its beginning.
pub open spec fn stripped_start(s: Seq<char>, c: char) -> Seq<char>
    decreases s.len(),
{
    if s.len() > 0 && s[0] == c {
        stripped_start(s.skip(1), c)
    } else {
        s
    }
}

/// Text without the characters `c` at its end.
pub open spec fn stripped_end(s: Seq<char>, c: char) -> Seq<char>
    decreases s.len(),
{
    if s.len() > 0 && s.last() == c {
        stripped_end(s.drop_last(), c)
    } else {
        s
    }
}

/// Text without the characters `c` at either end.
pub open spec fn stripped(s: Seq<char>, c: char) -> Seq<char> {
    stripped_end(stripped_start(s, c), c)
}

/// Takes a character away from both ends of a text, as often as it stands there.
pub fn strip_char(s: &[char], c: char) -> (r: &[char])
    ensures
        r@ == stripped(s@, c),
{
    let mut from: usize = 0;
    let mut to: usize = s.len();
    assert(s@.subrange(0, to as int) =~= s@);
    while from < to && s[from] == c
        invariant
            from <= to == s@.len(),
            stripped_start(s@.subrange(from as int, to as int), c) == stripped_start(s@, c),
        decreases to - from,
    {
        assert(s@.subrange(from as int, to as int).skip(1) =~= s@.subrange(from + 1, to as int));
        from = from + 1;
    }
    assert(stripped_start(s@, c) == s@.subrange(from as int, to as int));
    while from < to && s[to - 1] == c
        invariant
            from <= to <= s@.len(),
            stripped_end(s@.subrange(from as int, to as int), c) == stripped(s@, c),
        decreases to - from,
    {
        assert(s@.subrange(from as int, to as int).drop_last() =~= s@.subrange(from as int, to - 1));
        to = to - 1;
    }
    slice_subrange(s, from, to)
}

/// Whether no character of `s` is white space.
pub open spec fn solid(s: Seq<char>) -> bool {
    forall|i: int| 0 <= i < s.len() ==> !is_white(#[trigger] s[i])
}

/// Whether `c` does not occur in `s`.
pub open spec fn lacks(s: Seq<char>, c: char) -> bool {
    forall|i: int| 0 <= i < s.len() ==> #[trigger] s[i] != c
}

/// Text without white space at its ends stays as it is.
pub proof fn lemma_trimmed_solid(s: Seq<char>)
    requires
        s.len() > 0 ==> !is_white(s[0]) && !is_white(s.last()),
    ensures
        trimmed(s) == s,
        trimmed_start(s) == s,
{
}

/// A line of text: it is not empty, has no line feed and does not end in a carriage return.
pub open spec fn is_line(s: Seq<char>) -> bool {
    s.len() > 0 && lacks(s, '\n') && s.last() != '\r'
}

/// Lines joined by line feeds are found again.
pub proof fn lemma_lines_joined(pieces: Seq<Seq<char>>)
    requires
        pieces.len() > 0,
        forall|i: int| 0 <= i < pieces.len() ==> is_line(#[trigger] pieces[i]),
    ensures
        lines_of(joined(pieces, seq!['\n'])) == pieces,
        joined(pieces, seq!['\n']).len() > 0,
    decreases pieces.len(),
{
    let s = joined(pieces, seq!['\n']);
    let first = pieces[0];
    assert(is_line(first));
    if pieces.len() == 1 {
        lemma_find_none(s, '\n');
        assert(seq![s] =~= pieces);
    } else {
        let rest = pieces.skip(1);
        assert forall|i: int| 0 <= i < rest.len() implies is_line(#[trigger] rest[i]) by {
            assert(rest[i] == pieces[i + 1]);
        }
        lemma_lines_joined(rest);
        let tail = joined(rest, seq!['\n']);
        let n = first.len() as int;
        assert(s[n] == '\n');
        assert forall|j: int| 0 <= j < n implies s[j] != '\n' by {
            assert(s[j] == first[j]);
        }
        lemma_find_is(s, '\n', n);
        assert(s.take(n) =~= first);
        assert(s.skip(n + 1) =~= tail);
        assert(seq![first] + rest =~= pieces);
    }
}

/// Joined lines hold no empty line: no two line feeds follow each other, not even across the end.
pub proof fn lemma_no_blank_line(pieces: Seq<Seq<char>>)
    requires
        pieces.len() > 0,
        forall|i: int| 0 <= i < pieces.len() ==> is_line(#[trigger] pieces[i]),
    ensures
        ({
            let s = joined(pieces, seq!['\n']);
            &&& s.len() > 0
            &&& s[0] != '\n'
            &&& s.last() != '\n'
            &&& forall|i: int|
                0 <= i < s.len() - 1 ==> !(#[trigger] s[i] == '\n' && s[i + 1] == '\n')
        }),
    decreases pieces.len(),
{
    let s = joined(pieces, seq!['\n']);
    let first = pieces[0];
    assert(is_line(first));
    if pieces.len() > 1 {
        let rest = pieces.skip(1);
        assert forall|i: int| 0 <= i < rest.len() implies is_line(#[trigger] rest[i]) by {
            assert(rest[i] == pieces[i + 1]);
        }
        lemma_no_blank_line(rest);
        let tail = joined(rest, seq!['\n']);
        let n = first.len() as int;
        assert(s =~= first + seq!['\n'] + tail);
        assert forall|i: int| 0 <= i < s.len() - 1 implies !(#[trigger] s[i] == '\n' && s[i + 1]
            == '\n') by {
            if i < n {
                assert(s[i] == first[i]);
            } else if i == n {
                assert(s[i + 1] == tail[0]);
            } else {
                assert(s[i] == tail[i - n - 1]);
                assert(s[i + 1] == tail[i - n]);
            }
        }
    }
}

/// Joining texts made only of ASCII gives a text made only of ASCII.
pub proof fn lemma_joined_ascii(pieces: Seq<Seq<char>>, sep: Seq<char>)
    requires
        is_ascii_chars(sep),
        forall|i: int| 0 <= i < pieces.len() ==> is_ascii_chars(#[trigger] pieces[i]),
    ensures
        is_ascii_chars(joined(pieces, sep)),
    decreases pieces.len(),
{
    if pieces.len() == 1 {
        assert(is_ascii_chars(pieces[0]));
    } else if pieces.len() > 1 {
        let rest = pieces.skip(1);
        assert forall|i: int| 0 <= i < rest.len() implies is_ascii_chars(#[trigger] rest[i]) by {
            assert(rest[i] == pieces[i + 1]);
        }
        lemma_joined_ascii(rest, sep);
        assert(is_ascii_chars(pieces[0]));
    }
}

/// Appends a line and the line feed that ends it.
pub fn push_line(out: &mut Vec<char>, name: &str, value: &[char])
    ensures
        final(out)@ == old(out)@ + name@ + value@ + seq!['\n'],
{
    push_text(out, name);
    push_chars(out, value);
    out.push('\n');
    assert(out@ =~= old(out)@ + name@ + value@ + seq!['\n']);
}

/// The text that lines make when each is ended by a line feed.
pub open spec fn ended(lines: Seq<Seq<char>>) -> Seq<char>
    decreases lines.len(),
{
    if lines.len() == 0 {
        seq![]
    } else {
        ended(lines.drop_last()) + lines.last() + seq!['\n']
    }
}

/// The first line can be ended by itself.
pub proof fn lemma_ended_front(lines: Seq<Seq<char>>)
    requires
        lines.len() > 0,
    ensures
        ended(lines) == lines[0] + seq!['\n'] + ended(lines.skip(1)),
    decreases lines.len(),
{
    if lines.len() == 1 {
        assert(lines.drop_last() =~= seq![]);
        assert(lines.skip(1) =~= seq![]);
        assert(ended(lines) =~= lines[0] + seq!['\n'] + ended(lines.skip(1)));
    } else {
        lemma_ended_front(lines.drop_last());
        assert(lines.drop_last().skip(1) =~= lines.skip(1).drop_last());
        assert(ended(lines) =~= lines[0] + seq!['\n'] + ended(lines.skip(1)));
    }
}

/// Ending every line is the same as joining the lines and ending the last.
pub proof fn lemma_ended_joined(lines: Seq<Seq<char>>)
    requires
        lines.len() > 0,
    ensures
        ended(lines) == joined(lines, seq!['\n']) + seq!['\n'],
    decreases lines.len(),
{
    lemma_ended_front(lines);
    if lines.len() == 1 {
        assert(ended(lines.skip(1)) =~= seq![]);
        assert(ended(lines) =~= joined(lines, seq!['\n']) + seq!['\n']);
    } else {
        lemma_ended_joined(lines.skip(1));
        assert(ended(lines) =~= joined(lines, seq!['\n']) + seq!['\n']);
    }
}

/// Text without white space, in ASCII.
pub open spec fn tidy(s: Seq<char>) -> bool {
    solid(s) && is_ascii_chars(s)
}

pub proof fn lemma_tidy_concat(a: Seq<char>, b: Seq<char>)
    requires
        tidy(a),
        tidy(b),
    ensures
        tidy(a + b),
{
    let s = a + b;
    assert forall|i: int| 0 <= i < s.len() implies !is_white(#[trigger] s[i]) && s[i] as u32 <= 127 by {
        if i < a.len() {
            assert(s[i] == a[i]);
        } else {
            assert(s[i] == b[i - a.len()]);
        }
    }
}

pub proof fn lemma_tidy_line(s: Seq<char>)
    requires
        tidy(s),
        s.len() > 0,
    ensures
        is_line(s),
{
    assert(!is_white(s.last()));
    assert forall|i: int| 0 <= i < s.len() implies #[trigger] s[i] != '\n' by {
        assert(!is_white(s[i]));
    }
}

/// Lines that are each ended by a line feed are found again.
pub proof fn lemma_lines_ended(pieces: Seq<Seq<char>>)
    requires
        forall|i: int| 0 <= i < pieces.len() ==> is_line(#[trigger] pieces[i]),
    ensures
        lines_of(ended(pieces)) == pieces,
    decreases pieces.len(),
{
    if pieces.len() == 0 {
        assert(pieces =~= seq![]);
    } else {
        lemma_ended_front(pieces);
        let first = pieces[0];
        let rest = pieces.skip(1);
        assert(is_line(first));
        assert forall|i: int| 0 <= i < rest.len() implies is_line(#[trigger] rest[i]) by {
            assert(rest[i] == pieces[i + 1]);
        }
        lemma_lines_ended(rest);
        let s = ended(pieces);
        let n = first.len() as int;
        assert(s[n] == '\n');
        assert forall|j: int| 0 <= j < n implies s[j] != '\n' by {
            assert(s[j] == first[j]);
        }
        lemma_find_is(s, '\n', n);
        assert(s.take(n) =~= first);
        assert(s.skip(n + 1) =~= ended(rest));
        assert(seq![first] + rest =~= pieces);
    }
}

/// Ending tidy lines gives ASCII text.
pub proof fn lemma_ended_ascii(pieces: Seq<Seq<char>>)
    requires
        forall|i: int| 0 <= i < pieces.len() ==> is_ascii_chars(#[trigger] pieces[i]),
    ensures
        is_ascii_chars(ended(pieces)),
    decreases pieces.len(),
{
    if pieces.len() > 0 {
        let rest = pieces.drop_last();
        assert forall|i: int| 0 <= i < rest.len() implies is_ascii_chars(#[trigger] rest[i]) by {
            assert(rest[i] == pieces[i]);
        }
        lemma_ended_ascii(rest);
        assert(is_ascii_chars(pieces[pieces.len() - 1]));
    }
}

proof fn lemma_first_word(w: Seq<char>, rest: Seq<char>)
    requires
        solid(w),
        rest.len() == 0 || is_white(rest[0]),
    ensures
        word_len(w + rest) == w.len(),
    decreases w.len(),
{
    let s = w + rest;
    if w.len() > 0 {
        assert(!is_white(w[0]));
        assert(s.skip(1) =~= w.skip(1) + rest);
        assert forall|i: int| 0 <= i < w.skip(1).len() implies !is_white(#[trigger] w.skip(1)[i]) by {
            assert(w.skip(1)[i] == w[i + 1]);
        }
        lemma_first_word(w.skip(1), rest);
    }
}

/// Nothing is left of white space.
proof fn lemma_white_trimmed(s: Seq<char>)
    requires
        forall|i: int| 0 <= i < s.len() ==> is_white(#[trigger] s[i]),
    ensures
        trimmed_start(s).len() == 0,
    decreases s.len(),
{
    if s.len() > 0 {
        assert(is_white(s[0]));
        let rest = s.skip(1);
        assert forall|i: int| 0 <= i < rest.len() implies is_white(#[trigger] rest[i]) by {
            assert(rest[i] == s[i + 1]);
        }
        lemma_white_trimmed(rest);
    }
}

/// Words with a blank between them are found again, whatever white space follows.
pub proof fn lemma_three_words_ended(a: Seq<char>, b: Seq<char>, c: Seq<char>, tail: Seq<char>)
    requires
        solid(a) && a.len() > 0,
        solid(b) && b.len() > 0,
        solid(c) && c.len() > 0,
        forall|i: int| 0 <= i < tail.len() ==> is_white(#[trigger] tail[i]),
    ensures
        words_of(a + seq![' '] + b + seq![' '] + c + tail) == seq![a, b, c],
{
    let s = a + seq![' '] + b + seq![' '] + c + tail;
    let s1 = seq![' '] + b + seq![' '] + c + tail;
    let t1 = b + seq![' '] + c + tail;
    let s2 = seq![' '] + c + tail;
    let t2 = c + tail;
    assert(!is_white(a[0]) && !is_white(b[0]) && !is_white(c[0]));
    assert(s =~= a + s1);
    lemma_first_word(a, s1);
    assert(s.take(a.len() as int) =~= a);
    assert(s.skip(a.len() as int) =~= s1);
    assert(s1.skip(1) =~= t1);
    assert(t1[0] == b[0]);
    assert(trimmed_start(t1) == t1);
    assert(trimmed_start(s1) == t1);
    assert(t1 =~= b + s2);
    lemma_first_word(b, s2);
    assert(t1.take(b.len() as int) =~= b);
    assert(t1.skip(b.len() as int) =~= s2);
    assert(s2.skip(1) =~= t2);
    assert(t2[0] == c[0]);
    assert(trimmed_start(t2) == t2);
    assert(trimmed_start(s2) == t2);
    lemma_first_word(c, tail);
    assert(t2.take(c.len() as int) =~= c);
    assert(t2.skip(c.len() as int) =~= tail);
    lemma_white_trimmed(tail);
    assert(words_of(tail) =~= seq![]);
    assert(words_of(s2) =~= seq![c]);
    assert(words_of(s1) =~= seq![b, c]);
    assert(words_of(s) =~= seq![a, b, c]);
}

/// Words with a blank between them are found again.
pub proof fn lemma_three_words(a: Seq<char>, b: Seq<char>, c: Seq<char>)
    requires
        solid(a) && a.len() > 0,
        solid(b) && b.len() > 0,
        solid(c) && c.len() > 0,
    ensures
        words_of(a + seq![' '] + b + seq![' '] + c) == seq![a, b, c],
{
    lemma_three_words_ended(a, b, c, seq![]);
    let s = a + seq![' '] + b + seq![' '] + c;
    assert(s + Seq::<char>::empty() =~= s);
}

/// What `str::to_lowercase` makes of a text that is not all ASCII.
pub uninterp spec fn unicode_lowercase(s: Seq<char>) -> Seq<char>;

/// A text in lower case: of text in ASCII the letters `A` to `Z` are changed, other text goes by the rules of Unicode.
pub open spec fn lowercase(s: Seq<char>) -> Seq<char> {
    if is_ascii_chars(s) {
        lowered(s)
    } else {
        unicode_lowercase(s)
    }
}

/// `str::to_lowercase` gives the lowercase equivalent of a text by the rules of Unicode; of text in
/// ASCII it changes the letters `A` to `Z` only.
#[verifier::external_body]
fn std_lowercase(s: &str) -> (r: String)
    ensures
        is_ascii_chars(s@) ==> r@ == lowered(s@),
        !is_ascii_chars(s@) ==> r@ == unicode_lowercase(s@),
{
    s.to_lowercase()
}

/// Gives a text in lower case.
pub fn unicode_lower(s: &str) -> (r: String)
    ensures
        r@ == lowercase(s@),
{
    std_lowercase(s)
}

/// What is in ASCII and in lower case stays as it is.
pub proof fn law_lowercase_settles(s: Seq<char>)
    requires
        is_ascii_chars(s),
    ensures
        is_ascii_chars(lowercase(s)),
        lowercase(lowercase(s)) == lowercase(s),
{
    let l = lowered(s);
    assert forall|i: int| 0 <= i < l.len() implies '\0' <= #[trigger] l[i] <= '\u{7f}' by {
        assert('\0' <= s[i] <= '\u{7f}');
    }
    assert(lowered(l) =~= l);
}

/// What `String::from_utf8_lossy` makes of octets that are not UTF-8.
pub uninterp spec fn replaced(bytes: Seq<u8>) -> Seq<char>;

/// The text that octets hold, with replacements for what is not UTF-8.
pub open spec fn lossy(bytes: Seq<u8>) -> Seq<char> {
    if valid_utf8(bytes) {
        decode_utf8(bytes)
    } else {
        replaced(bytes)
    }
}

/// `String::from_utf8_lossy` reads octets as UTF-8; where they are valid it gives the characters that
/// they encode, elsewhere it puts replacement characters for what it cannot read.
#[verifier::external_body]
fn std_lossy(bytes: &[u8]) -> (r: String)
    ensures
        valid_utf8(bytes@) ==> r@ == decode_utf8(bytes@),
        !valid_utf8(bytes@) ==> r@ == replaced(bytes@),
{
    String::from_utf8_lossy(bytes).into_owned()
}

/// Reads octets as text, with replacements for what is not UTF-8.
pub fn lossy_text(bytes: &[u8]) -> (r: String)
    ensures
        r@ == lossy(bytes@),
{
    std_lossy(bytes)
}

/// `core::str::from_utf8` reads octets as UTF-8: it succeeds exactly on valid UTF-8, and then gives
/// the characters that the octets encode.
#[verifier::external_body]
pub(crate) fn utf8_text(bytes: &[u8]) -> (r: Option<String>)
    ensures
        match r {
            Some(s) => valid_utf8(bytes@) && s@ == decode_utf8(bytes@),
            None => !valid_utf8(bytes@),
        },
{
    match core::str::from_utf8(bytes) {
        Ok(s) => Some(s.to_string()),
        Err(_) => None,
    }
}

/// Two words with a blank between them are found again.
pub proof fn lemma_two_words(a: Seq<char>, b: Seq<char>)
    requires
        solid(a) && a.len() > 0,
        solid(b) && b.len() > 0,
    ensures
        words_of(a + seq![' '] + b) == seq![a, b],
{
    let s = a + seq![' '] + b;
    let s1 = seq![' '] + b;
    assert(!is_white(a[0]) && !is_white(b[0]));
    assert(s =~= a + s1);
    lemma_first_word(a, s1);
    assert(s.take(a.len() as int) =~= a);
    assert(s.skip(a.len() as int) =~= s1);
    assert(s1.skip(1) =~= b);
    assert(trimmed_start(b) == b);
    assert(trimmed_start(s1) == b);
    let none = Seq::<char>::empty();
    assert(b + none =~= b);
    lemma_first_word(b, none);
    assert(b.take(b.len() as int) =~= b);
    assert(b.skip(b.len() as int) =~= none);
    assert(words_of(none) =~= seq![]);
    assert(words_of(s1) =~= seq![b]);
    assert(words_of(s) =~= seq![a, b]);
}

/// Pieces that lack a separator are found again between separators.
pub proof fn law_split_joined(pieces: Seq<Seq<char>>, c: char)
    requires
        pieces.len() > 0,
        forall|i: int| 0 <= i < pieces.len() ==> lacks(#[trigger] pieces[i], c),
    ensures
        split_on(joined(pieces, seq![c]), c) == pieces,
    decreases pieces.len(),
{
    let s = joined(pieces, seq![c]);
    let first = pieces[0];
    assert(lacks(first, c));
    if pieces.len() == 1 {
        lemma_find_none(first, c);
        assert(seq![first] =~= pieces);
    } else {
        let rest = pieces.skip(1);
        assert forall|i: int| 0 <= i < rest.len() implies lacks(#[trigger] rest[i], c) by {
            assert(rest[i] == pieces[i + 1]);
        }
        law_split_joined(rest, c);
        let n = first.len() as int;
        assert(s[n] == c);
        assert forall|j: int| 0 <= j < n implies s[j] != c by {
            assert(s[j] == first[j]);
        }
        lemma_find_is(s, c, n);
        assert(s.take(n) =~= first);
        assert(s.skip(n + 1) =~= joined(rest, seq![c]));
        assert(seq![first] + rest =~= pieces);
    }
}

/// One or two pieces are found again.
pub proof fn lemma_split_two(a: Seq<char>, b: Seq<char>, c: char)
    requires
        lacks(a, c),
        lacks(b, c),
    ensures
        split_on(a, c) == seq![a],
        split_on(a + seq![c] + b, c) == seq![a, b],
{
    law_split_joined(seq![a], c);
    law_split_joined(seq![a, b], c);
    assert(seq![a, b].skip(1) =~= seq![b]);
    reveal_with_fuel(joined, 3);
    assert(joined(seq![a, b], seq![c]) =~= a + seq![c] + b);
    assert(joined(seq![a], seq![c]) =~= a);
}

/// The last `c` is found where it stands.
pub proof fn lemma_rfind_is(s: Seq<char>, c: char, i: int)
    requires
        0 <= i < s.len(),
        s[i] == c,
        forall|j: int| i < j < s.len() ==> s[j] != c,
    ensures
        rfind(s, c) == Some(i),
    decreases s.len(),
{
    if i < s.len() - 1 {
        lemma_rfind_is(s.drop_last(), c, i);
    }
}

/// White space around a text is trimmed away, and nothing else.
pub proof fn law_trimmed_text(a: Seq<char>, s: Seq<char>, b: Seq<char>)
    requires
        forall|i: int| 0 <= i < a.len() ==> is_white(#[trigger] a[i]),
        forall|i: int| 0 <= i < b.len() ==> is_white(#[trigger] b[i]),
        s.len() > 0,
        !is_white(s[0]) && !is_white(s.last()),
    ensures
        trimmed(a + s + b) == s,
        trimmed(a) == Seq::<char>::empty(),
{
    lemma_front_trimmed(a, s + b);
    assert(a + s + b =~= a + (s + b));
    assert((s + b)[0] == s[0]);
    assert(trimmed_start(s + b) == s + b);
    lemma_back_trimmed(s, b);
    assert(trimmed_end(s) == s);
    let none = Seq::<char>::empty();
    lemma_front_trimmed(a, none);
    assert(a + none =~= a);
}

proof fn lemma_front_trimmed(a: Seq<char>, s: Seq<char>)
    requires
        forall|i: int| 0 <= i < a.len() ==> is_white(#[trigger] a[i]),
    ensures
        trimmed_start(a + s) == trimmed_start(s),
    decreases a.len(),
{
    if a.len() > 0 {
        let rest = a.skip(1);
        assert forall|i: int| 0 <= i < rest.len() implies is_white(#[trigger] rest[i]) by {
            assert(rest[i] == a[i + 1]);
        }
        lemma_front_trimmed(rest, s);
        assert(is_white(a[0]));
        assert((a + s)[0] == a[0]);
        assert((a + s).skip(1) =~= rest + s);
    } else {
        assert(a + s =~= s);
    }
}

proof fn lemma_back_trimmed(s: Seq<char>, b: Seq<char>)
    requires
        forall|i: int| 0 <= i < b.len() ==> is_white(#[trigger] b[i]),
    ensures
        trimmed_end(s + b) == trimmed_end(s),
    decreases b.len(),
{
    if b.len() > 0 {
        let rest = b.drop_last();
        assert forall|i: int| 0 <= i < rest.len() implies is_white(#[trigger] rest[i]) by {
            assert(rest[i] == b[i]);
        }
        lemma_back_trimmed(s, rest);
        assert(is_white(b[b.len() - 1]));
        assert((s + b).last() == b.last());
        assert((s + b).drop_last() =~= s + rest);
    } else {
        assert(s + b =~= s);
    }
}

/// Capital letters are made small, and nothing else is changed; making small letters capitals works the other way.
pub proof fn law_letters(c: char)
    ensures
        'A' <= c <= 'Z' ==> lower(c) as u32 == c as u32 + 32,
        !('A' <= c <= 'Z') ==> lower(c) == c,
        'a' <= c <= 'z' ==> upper(c) as u32 + 32 == c as u32,
        !('a' <= c <= 'z') ==> upper(c) == c,
        lower(lower(c)) == lower(c),
        lower(upper(c)) == lower(c),
{
}

/// A text stands in another just where it is a part of it.
pub proof fn law_part_of_text(a: Seq<char>, p: Seq<char>, b: Seq<char>, s: Seq<char>)
    ensures
        has_text(a + p + b, p),
        (forall|i: int| 0 <= i <= s.len() - p.len() ==> #[trigger] s.subrange(i, i + p.len()) != p) ==> !has_text(s, p),
{
    let t = a + p + b;
    lemma_first_occurrence(t, p, 0);
    let n = a.len() as int;
    assert(t.subrange(n, n + p.len()) =~= p);
    assert(occurs_at(t, p, n));
    lemma_first_occurrence(s, p, 0);
}

/// The first and the last of a character are found where they stand.
pub proof fn law_found_character(a: Seq<char>, b: Seq<char>, c: char)
    ensures
        lacks(a, c) ==> find(a + seq![c] + b, c) == Some(a.len() as int),
        lacks(b, c) ==> rfind(a + seq![c] + b, c) == Some(a.len() as int),
        lacks(a, c) ==> find(a, c) is None && rfind(a, c) is None,
        begins_with(a + b, a),
{
    let s = a + seq![c] + b;
    let n = a.len() as int;
    assert(s[n] == c);
    if lacks(a, c) {
        assert forall|j: int| 0 <= j < n implies s[j] != c by {
            assert(s[j] == a[j]);
        }
        lemma_find_is(s, c, n);
        lemma_find_none(a, c);
        lemma_rfind_lacks(a, c);
    }
    if lacks(b, c) {
        assert forall|j: int| n < j < s.len() implies s[j] != c by {
            assert(s[j] == b[j - n - 1]);
        }
        lemma_rfind_is(s, c, n);
    }
    assert((a + b).take(n) =~= a);
}

proof fn lemma_rfind_lacks(s: Seq<char>, c: char)
    requires
        lacks(s, c),
    ensures
        rfind(s, c) is None,
    decreases s.len(),
{
    if s.len() > 0 {
        assert(lacks(s.drop_last(), c));
        lemma_rfind_lacks(s.drop_last(), c);
    }
}

}
