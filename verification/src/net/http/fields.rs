//! Header fields in serialized messages: lines `h=name|value`, name and value in Base64.
use vstd::prelude::*;
use vstd::slice::slice_subrange;
use vstd::string::StringSliceAdditionalSpecFns;
use vstd::utf8::{
    decode_utf8, encode_utf8, encode_utf8_decode_utf8, encode_utf8_valid_utf8, valid_utf8,
};

use crate::crypto::base64::{
    decode_chars, decoded, encode, encoded, is_symbol, law_base64_roundtrip, lemma_encoded_symbols,
};
use crate::net::envelope::lemma_armoured_tidy;
use crate::text::{chars_of, find, find_char, lemma_find_is, lemma_tidy_concat, push_chars, tidy, utf8_text};

verus! {

/// A text in Base64.
pub open spec fn armour(s: Seq<char>) -> Seq<char> {
    encoded(encode_utf8(s))
}

/// The text that Base64 holds.
pub open spec fn unarmoured(s: Seq<char>) -> Option<Seq<char>> {
    match decoded(s) {
        Some(b) => if valid_utf8(b) {
            Some(decode_utf8(b))
        } else {
            None
        },
        None => None,
    }
}

/// A name and a value in Base64, with a bar between them.
pub open spec fn armoured_pair(name: Seq<char>, value: Seq<char>) -> Seq<char> {
    armour(name) + seq!['|'] + armour(value)
}

/// The name and the value that stand in Base64 on either side of the first bar.
pub open spec fn pair_in(s: Seq<char>) -> Option<(Seq<char>, Seq<char>)> {
    match find(s, '|') {
        Some(i) => match (unarmoured(s.take(i)), unarmoured(s.skip(i + 1))) {
            (Some(name), Some(value)) => Some((name, value)),
            _ => None,
        },
        None => None,
    }
}

/// Puts a text in Base64.
pub fn armour_text(s: &str) -> (r: Vec<char>)
    ensures
        r@ == armour(s@),
{
    chars_of(encode(s.as_bytes()).as_str())
}

/// Reads the text that Base64 holds.
pub fn read_armour(s: &[char]) -> (r: Option<String>)
    ensures
        match r {
            Some(t) => unarmoured(s@) == Some(t@),
            None => unarmoured(s@) is None,
        },
{
    match decode_chars(s) {
        Some(b) => utf8_text(b.as_slice()),
        None => None,
    }
}

/// Writes a line `h=name|value`.
pub fn header_line(name: &str, value: &str) -> (r: Vec<char>)
    ensures
        r@ == "h="@ + armoured_pair(name@, value@),
{
    let mut line = chars_of("h=");
    push_chars(&mut line, armour_text(name).as_slice());
    line.push('|');
    push_chars(&mut line, armour_text(value).as_slice());
    assert(line@ =~= "h="@ + armoured_pair(name@, value@));
    line
}

/// Reads a name and a value.
pub fn read_pair(s: &[char]) -> (r: Option<(String, String)>)
    ensures
        match r {
            Some((name, value)) => pair_in(s@) == Some((name@, value@)),
            None => pair_in(s@) is None,
        },
{
    let end: usize = s.len();
    match find_char(s, '|') {
        Some(i) => {
            let left = slice_subrange(s, 0, i);
            let right = slice_subrange(s, i + 1, end);
            assert(left@ =~= s@.take(i as int));
            assert(right@ =~= s@.skip(i + 1));
            match (read_armour(left), read_armour(right)) {
                (Some(name), Some(value)) => Some((name, value)),
                _ => None,
            }
        },
        None => None,
    }
}

/// Text that was put in Base64 is read back, and the Base64 is tidy.
pub proof fn law_armour_roundtrip(s: Seq<char>)
    ensures
        unarmoured(armour(s)) == Some(s),
        tidy(armour(s)),
{
    encode_utf8_valid_utf8(s);
    encode_utf8_decode_utf8(s);
    law_base64_roundtrip(encode_utf8(s));
    lemma_encoded_symbols(encode_utf8(s));
    lemma_armoured_tidy(armour(s));
}

/// A name and a value that were written are read back.
pub proof fn law_pair_roundtrip(name: Seq<char>, value: Seq<char>)
    ensures
        pair_in(armoured_pair(name, value)) == Some((name, value)),
        tidy(armoured_pair(name, value)),
{
    let s = armoured_pair(name, value);
    let a = armour(name);
    let n = a.len() as int;
    law_armour_roundtrip(name);
    law_armour_roundtrip(value);
    lemma_encoded_symbols(encode_utf8(name));
    assert forall|j: int| 0 <= j < n implies s[j] != '|' by {
        assert(s[j] == a[j]);
        assert(is_symbol(a[j]));
    }
    assert(s[n] == '|');
    lemma_find_is(s, '|', n);
    assert(s.take(n) =~= a);
    assert(s.skip(n + 1) =~= armour(value));
    assert(tidy(seq!['|']));
    lemma_tidy_concat(a, seq!['|']);
    lemma_tidy_concat(a + seq!['|'], armour(value));
}

}
