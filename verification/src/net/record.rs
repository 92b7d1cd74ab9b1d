//! Records: text of lines `key=value`, where the last line of a key counts and blank lines do not.
use vstd::prelude::*;
use vstd::slice::slice_subrange;
use vstd::utf8::{
    decode_utf8, encode_utf8, encode_utf8_decode_utf8, encode_utf8_valid_utf8, valid_utf8,
};

use crate::crypto::base64::{decode_chars, decoded};
use crate::decimal::{parse_u64, parse_usize, parsed};
use crate::text::{
    chars_of, ended, find, find_char, is_line, is_white, lacks, lemma_find_is, lemma_lines_ended,
    lemma_trimmed_solid, lines_of, push_chars, same_text, solid, texts, trim, trimmed, trimmed_end,
    trimmed_start,
};

verus! {

/// Key and value of a line `key=value`, without the white space around them.
pub open spec fn pair_of(line: Seq<char>) -> Option<(Seq<char>, Seq<char>)> {
    match find(line, '=') {
        Some(i) => Some((trimmed(line.take(i)), trimmed(line.skip(i + 1)))),
        None => None,
    }
}

/// Whether a line is neither blank nor a pair.
pub open spec fn is_malformed(line: Seq<char>) -> bool {
    trimmed(line).len() > 0 && pair_of(line) is None
}

/// Whether every line is blank or a pair.
pub open spec fn well_formed(lines: Seq<Seq<char>>) -> bool {
    forall|i: int| 0 <= i < lines.len() ==> !is_malformed(#[trigger] lines[i])
}

/// The value of `key` among the first `n` lines; the last one counts.
pub open spec fn value_among(lines: Seq<Seq<char>>, key: Seq<char>, n: int) -> Option<Seq<char>>
    decreases n,
{
    if n <= 0 {
        None
    } else {
        match pair_of(lines[n - 1]) {
            Some((k, v)) => if k == key {
                Some(v)
            } else {
                value_among(lines, key, n - 1)
            },
            None => value_among(lines, key, n - 1),
        }
    }
}

/// The value of `key` in a record.
pub open spec fn value_of(lines: Seq<Seq<char>>, key: Seq<char>) -> Option<Seq<char>> {
    value_among(lines, key, lines.len() as int)
}

/// A line with an equals sign is not blank.
pub proof fn lemma_equals_not_blank(line: Seq<char>, i: int)
    requires
        0 <= i < line.len(),
        line[i] == '=',
    ensures
        trimmed(line).len() > 0,
{
    lemma_keeps_start(line, i);
    let t = trimmed_start(line);
    let k = i - (line.len() - t.len());
    lemma_keeps_end(t, k);
}

proof fn lemma_keeps_start(s: Seq<char>, i: int)
    requires
        0 <= i < s.len(),
        !is_white(s[i]),
    ensures
        ({
            let t = trimmed_start(s);
            let k = i - (s.len() - t.len());
            0 <= k < t.len() && t[k] == s[i]
        }),
    decreases s.len(),
{
    if is_white(s[0]) {
        lemma_keeps_start(s.skip(1), i - 1);
    }
}

proof fn lemma_keeps_end(s: Seq<char>, i: int)
    requires
        0 <= i < s.len(),
        !is_white(s[i]),
    ensures
        trimmed_end(s).len() > i,
    decreases s.len(),
{
    if is_white(s.last()) {
        lemma_keeps_end(s.drop_last(), i);
    }
}

/// A line made of a key, an equals sign and a value is read as that pair.
pub proof fn lemma_pair(line: Seq<char>, key: Seq<char>, value: Seq<char>)
    requires
        line == key + seq!['='] + value,
        lacks(key, '='),
        solid(key),
        solid(value),
    ensures
        pair_of(line) == Some((key, value)),
        trimmed(line).len() > 0,
{
    let n = key.len() as int;
    assert(line[n] == '=');
    assert forall|j: int| 0 <= j < n implies line[j] != '=' by {
        assert(line[j] == key[j]);
    }
    lemma_find_is(line, '=', n);
    assert(line.take(n) =~= key);
    assert(line.skip(n + 1) =~= value);
    lemma_trimmed_solid(key);
    lemma_trimmed_solid(value);
    lemma_equals_not_blank(line, n);
}

/// The lines that keys and values make.
pub open spec fn record_lines(keys: Seq<Seq<char>>, values: Seq<Seq<char>>) -> Seq<Seq<char>> {
    Seq::new(keys.len(), |i: int| keys[i] + seq!['='] + values[i])
}

/// Whether keys and values can be written as a record: no white space in either, no equals sign in a
/// key, no key twice.
pub open spec fn recordable(keys: Seq<Seq<char>>, values: Seq<Seq<char>>) -> bool {
    &&& keys.len() == values.len()
    &&& forall|i: int| 0 <= i < keys.len() ==> lacks(#[trigger] keys[i], '=') && solid(keys[i])
    &&& forall|i: int| 0 <= i < values.len() ==> solid(#[trigger] values[i])
    &&& forall|i: int, j: int|
        0 <= i < keys.len() && 0 <= j < keys.len() && i != j ==> #[trigger] keys[i]
            != #[trigger] keys[j]
}

proof fn lemma_value_among(keys: Seq<Seq<char>>, values: Seq<Seq<char>>, k: int, n: int)
    requires
        recordable(keys, values),
        0 <= k < n <= keys.len(),
    ensures
        value_among(record_lines(keys, values), keys[k], n) == Some(values[k]),
    decreases n,
{
    let lines = record_lines(keys, values);
    assert(lacks(keys[n - 1], '=') && solid(keys[n - 1]));
    assert(solid(values[n - 1]));
    lemma_pair(lines[n - 1], keys[n - 1], values[n - 1]);
    if k < n - 1 {
        assert(keys[n - 1] != keys[k]);
        lemma_value_among(keys, values, k, n - 1);
    }
}

/// In a record written from keys and values, every key has its value.
pub proof fn lemma_record(keys: Seq<Seq<char>>, values: Seq<Seq<char>>)
    requires
        recordable(keys, values),
    ensures
        well_formed(record_lines(keys, values)),
        forall|k: int|
            0 <= k < keys.len() ==> value_of(record_lines(keys, values), #[trigger] keys[k]) == Some(
                values[k],
            ),
{
    let lines = record_lines(keys, values);
    assert forall|i: int| 0 <= i < lines.len() implies !is_malformed(#[trigger] lines[i]) by {
        assert(lacks(keys[i], '=') && solid(keys[i]));
        assert(solid(values[i]));
        lemma_pair(lines[i], keys[i], values[i]);
    }
    assert forall|k: int| 0 <= k < keys.len() implies value_of(lines, #[trigger] keys[k]) == Some(
        values[k],
    ) by {
        lemma_value_among(keys, values, k, keys.len() as int);
    }
}

/// The octets of a record.
pub open spec fn record_octets(keys: Seq<Seq<char>>, values: Seq<Seq<char>>) -> Seq<u8> {
    encode_utf8(ended(record_lines(keys, values)))
}

/// The lines of the record that octets hold.
pub open spec fn record_in(raw: Seq<u8>) -> Option<Seq<Seq<char>>> {
    if valid_utf8(raw) && well_formed(lines_of(decode_utf8(raw))) {
        Some(lines_of(decode_utf8(raw)))
    } else {
        None
    }
}

/// A record that was written is read again, line by line.
pub proof fn lemma_record_octets(keys: Seq<Seq<char>>, values: Seq<Seq<char>>)
    requires
        recordable(keys, values),
    ensures
        record_in(record_octets(keys, values)) == Some(record_lines(keys, values)),
{
    let l = record_lines(keys, values);
    assert forall|i: int| 0 <= i < l.len() implies is_line(#[trigger] l[i]) by {
        let k = keys[i];
        let v = values[i];
        assert(solid(k));
        assert(solid(v));
        let n = k.len() as int;
        assert forall|j: int| 0 <= j < l[i].len() implies !is_white(#[trigger] l[i][j]) by {
            if j < n {
                assert(l[i][j] == k[j]);
            } else if j > n {
                assert(l[i][j] == v[j - n - 1]);
            }
        }
        assert(!is_white(l[i].last()));
        assert forall|j: int| 0 <= j < l[i].len() implies #[trigger] l[i][j] != '\n' by {
            assert(!is_white(l[i][j]));
        }
    }
    lemma_lines_ended(l);
    encode_utf8_valid_utf8(ended(l));
    encode_utf8_decode_utf8(ended(l));
    lemma_record(keys, values);
}

/// A record that was read.
pub struct Record<'a> {
    pairs: Vec<(&'a [char], &'a [char])>,
    lines: Ghost<Seq<Seq<char>>>,
}

/// The value of `key` among the first `n` pairs.
spec fn pair_value(pairs: Seq<(&[char], &[char])>, key: Seq<char>, n: int) -> Option<Seq<char>>
    decreases n,
{
    if n <= 0 {
        None
    } else if pairs[n - 1].0@ == key {
        Some(pairs[n - 1].1@)
    } else {
        pair_value(pairs, key, n - 1)
    }
}

proof fn lemma_pair_value_same(
    a: Seq<(&[char], &[char])>,
    b: Seq<(&[char], &[char])>,
    key: Seq<char>,
    n: int,
)
    requires
        n <= a.len(),
        n <= b.len(),
        forall|i: int| 0 <= i < n ==> a[i] == b[i],
    ensures
        pair_value(a, key, n) == pair_value(b, key, n),
    decreases n,
{
    if n > 0 {
        lemma_pair_value_same(a, b, key, n - 1);
    }
}

impl<'a> Record<'a> {
    pub closed spec fn view(&self) -> Seq<Seq<char>> {
        self.lines@
    }

    pub closed spec fn inv(&self) -> bool {
        forall|key: Seq<char>| #[trigger]
            pair_value(self.pairs@, key, self.pairs@.len() as int) == value_of(self.lines@, key)
    }

    /// Reads lines as a record; fails where a line is neither blank nor a pair.
    pub fn read(rows: &Vec<&'a [char]>) -> (r: Option<Record<'a>>)
        ensures
            match r {
                Some(rec) => well_formed(texts(rows@)) && rec@ == texts(rows@) && rec.inv(),
                None => !well_formed(texts(rows@)),
            },
    {
        let mut pairs: Vec<(&'a [char], &'a [char])> = Vec::new();
        let ghost all = texts(rows@);
        let mut i: usize = 0;
        while i < rows.len()
            invariant
                i <= rows@.len(),
                all == texts(rows@),
                forall|j: int| 0 <= j < i ==> !is_malformed(#[trigger] all[j]),
                forall|key: Seq<char>| #[trigger]
                    pair_value(pairs@, key, pairs@.len() as int) == value_among(
                        all,
                        key,
                        i as int,
                    ),
            decreases rows@.len() - i,
        {
            let line = rows[i];
            let end: usize = line.len();
            assert(all[i as int] == line@);
            match find_char(line, '=') {
                Some(k) => {
                    let key = trim(slice_subrange(line, 0, k));
                    let value = trim(slice_subrange(line, k + 1, end));
                    assert(line@.subrange(0, k as int) =~= line@.take(k as int));
                    assert(line@.subrange(k + 1, end as int) =~= line@.skip(k + 1));
                    let ghost before = pairs@;
                    pairs.push((key, value));
                    proof {
                        assert forall|q: Seq<char>| #[trigger]
                            pair_value(pairs@, q, pairs@.len() as int) == value_among(
                                all,
                                q,
                                i + 1,
                            ) by {
                            lemma_pair_value_same(before, pairs@, q, before.len() as int);
                            assert(pair_value(before, q, before.len() as int) == value_among(
                                all,
                                q,
                                i as int,
                            ));
                        }
                    }
                },
                None => {
                    if trim(line).len() != 0 {
                        assert(is_malformed(all[i as int]));
                        return None;
                    }
                },
            }
            i = i + 1;
        }
        Some(Record { pairs, lines: Ghost(all) })
    }

    /// The value of a key.
    pub fn get(&self, key: &[char]) -> (r: Option<&'a [char]>)
        requires
            self.inv(),
        ensures
            match r {
                Some(v) => value_of(self@, key@) == Some(v@),
                None => value_of(self@, key@) is None,
            },
    {
        let mut n: usize = self.pairs.len();
        assert(pair_value(self.pairs@, key@, n as int) == value_of(self.lines@, key@));
        while n > 0
            invariant
                n <= self.pairs@.len(),
                pair_value(self.pairs@, key@, n as int) == value_of(self.lines@, key@),
            decreases n,
        {
            if same_text(self.pairs[n - 1].0, key) {
                return Some(self.pairs[n - 1].1);
            }
            n = n - 1;
        }
        None
    }

    /// The value of a key given as a string.
    pub fn field(&self, key: &str) -> (r: Option<&'a [char]>)
        requires
            self.inv(),
        ensures
            match r {
                Some(v) => value_of(self@, key@) == Some(v@),
                None => value_of(self@, key@) is None,
            },
    {
        let k = chars_of(key);
        self.get(k.as_slice())
    }
}


/// The number up to `max` that a record gives for `key`.
pub open spec fn number_of(lines: Seq<Seq<char>>, key: Seq<char>, max: nat) -> Option<nat> {
    match value_of(lines, key) {
        Some(v) => parsed(v, max),
        None => None,
    }
}

/// The octets that a record gives, in Base64, for `key`.
pub open spec fn octets_of(lines: Seq<Seq<char>>, key: Seq<char>) -> Option<Seq<u8>> {
    match value_of(lines, key) {
        Some(v) => decoded(v),
        None => None,
    }
}

impl<'a> Record<'a> {
    pub fn u64_at(&self, key: &[char]) -> (r: Option<u64>)
        requires
            self.inv(),
        ensures
            match r {
                Some(n) => number_of(self@, key@, u64::MAX as nat) == Some(n as nat),
                None => number_of(self@, key@, u64::MAX as nat) is None,
            },
    {
        match self.get(key) {
            Some(v) => parse_u64(v),
            None => None,
        }
    }

    pub fn u64_field(&self, key: &str) -> (r: Option<u64>)
        requires
            self.inv(),
        ensures
            match r {
                Some(n) => number_of(self@, key@, u64::MAX as nat) == Some(n as nat),
                None => number_of(self@, key@, u64::MAX as nat) is None,
            },
    {
        let k = chars_of(key);
        self.u64_at(k.as_slice())
    }

    pub fn usize_field(&self, key: &str) -> (r: Option<usize>)
        requires
            self.inv(),
        ensures
            match r {
                Some(n) => number_of(self@, key@, usize::MAX as nat) == Some(n as nat),
                None => number_of(self@, key@, usize::MAX as nat) is None,
            },
    {
        match self.field(key) {
            Some(v) => parse_usize(v),
            None => None,
        }
    }

    pub fn octets_at(&self, key: &[char]) -> (r: Option<Vec<u8>>)
        requires
            self.inv(),
        ensures
            match r {
                Some(b) => octets_of(self@, key@) == Some(b@),
                None => octets_of(self@, key@) is None,
            },
    {
        match self.get(key) {
            Some(v) => decode_chars(v),
            None => None,
        }
    }

    pub fn octets_field(&self, key: &str) -> (r: Option<Vec<u8>>)
        requires
            self.inv(),
        ensures
            match r {
                Some(b) => octets_of(self@, key@) == Some(b@),
                None => octets_of(self@, key@) is None,
            },
    {
        let k = chars_of(key);
        self.octets_at(k.as_slice())
    }
}

/// Appends one line of a record.
pub fn push_pair(out: &mut Vec<char>, key: &[char], value: &[char])
    ensures
        final(out)@ == old(out)@ + (key@ + seq!['='] + value@) + seq!['\n'],
{
    push_chars(out, key);
    out.push('=');
    push_chars(out, value);
    out.push('\n');
    assert(out@ =~= old(out)@ + (key@ + seq!['='] + value@) + seq!['\n']);
}

/// Appends one line of a record whose key is given as a string.
pub fn push_field(out: &mut Vec<char>, key: &str, value: &[char])
    ensures
        final(out)@ == old(out)@ + (key@ + seq!['='] + value@) + seq!['\n'],
{
    let k = chars_of(key);
    push_pair(out, k.as_slice(), value);
}

}
