//! Trailers: header fields that follow the body of a message.
use vstd::prelude::*;
use vstd::slice::slice_subrange;
use vstd::string::StringSliceAdditionalSpecFns;
use vstd::utf8::{
    decode_utf8, encode_utf8, encode_utf8_decode_utf8, encode_utf8_valid_utf8, is_ascii_chars, valid_utf8,
};

use crate::net::blob::{law_blob_roundtrip, opt_bytes, seal, sealed, unseal, unsealed, BlobKind};
use crate::net::envelope::{carried, contents, EnvelopeError, EnvelopeMeta, MetaView};
use crate::net::http::compression::{select_any, selected, CompressionAlgorithm};
use crate::net::http::fields::{
    armour, armour_text, armoured_pair, header_line, law_armour_roundtrip, law_pair_roundtrip, pair_in,
    read_armour, read_pair, unarmoured,
};
use crate::table::{
    before, in_name_order, law_put_in_order, law_put_value, lemma_put_entries, lemma_put_last, names, put, value,
    Table,
};
use crate::text::{
    begins_with, char_texts, chars_of, find, find_char, is_line, is_text, is_white, join, joined,
    law_lowercase_settles, lemma_lines_joined, lemma_tidy_concat, lemma_tidy_line, lemma_trimmed_solid, lines,
    lines_of, lower, lowercase, lowered, push_chars, split, split_on, string_of, strip_prefix, texts, tidy, to_lower,
    trim, trimmed, trimmed_end, trimmed_start, unicode_lower, utf8_text, without_prefix,
};

pub mod common;

verus! {

/// A set of names.
pub type Names = Table<()>;

/// The fields that may not stand in a trailer.
pub const FORBIDDEN_FIELDS: [&'static str; 33] = [
    "transfer-encoding",
    "content-length",
    "trailer",
    "host",
    "cache-control",
    "expect",
    "max-forwards",
    "pragma",
    "range",
    "te",
    "authorization",
    "proxy-authorization",
    "www-authenticate",
    "proxy-authenticate",
    "cookie",
    "set-cookie",
    "content-encoding",
    "content-type",
    "content-range",
    "connection",
    "keep-alive",
    "upgrade",
    "via",
    "warning",
    "if-match",
    "if-none-match",
    "if-modified-since",
    "if-unmodified-since",
    "if-range",
    "age",
    "expires",
    "date",
    "retry-after",
];

/// Whether a field may not stand in a trailer, whatever the case of its letters.
pub open spec fn is_forbidden(name: Seq<char>) -> bool {
    exists|i: int|
        0 <= i < FORBIDDEN_FIELDS@.len() && (#[trigger] FORBIDDEN_FIELDS@[i])@ == lowered(trimmed(name))
}

/// Whether a field may not stand in a trailer.
pub fn is_forbidden_trailer_field(field_name: &str) -> (r: bool)
    ensures
        r == is_forbidden(field_name@),
{
    let text = chars_of(field_name);
    let normalized = to_lower(trim(text.as_slice()));
    let mut i: usize = 0;
    while i < 33
        invariant
            i <= 33,
            normalized@ == lowered(trimmed(field_name@)),
            forall|j: int| 0 <= j < i ==> (#[trigger] FORBIDDEN_FIELDS@[j])@ != normalized@,
        decreases 33 - i,
    {
        if is_text(normalized.as_slice(), FORBIDDEN_FIELDS[i]) {
            assert(FORBIDDEN_FIELDS@[i as int]@ == normalized@);
            return true;
        }
        i = i + 1;
    }
    false
}


/// Why trailers are refused.
#[derive(Debug, Clone)]
pub enum TrailerError {
    Forbidden(String),
    Malformed(String),
    NotUtf8,
}

/// What an error says.
pub enum TrailerFault {
    Forbidden(Seq<char>),
    Malformed(Seq<char>),
    NotUtf8,
}

impl View for TrailerError {
    type V = TrailerFault;

    open spec fn view(&self) -> TrailerFault {
        match self {
            TrailerError::Forbidden(name) => TrailerFault::Forbidden(name@),
            TrailerError::Malformed(line) => TrailerFault::Malformed(line@),
            TrailerError::NotUtf8 => TrailerFault::NotUtf8,
        }
    }
}

impl TrailerError {
    pub open spec fn text(&self) -> Seq<char> {
        match self@ {
            TrailerFault::Forbidden(name) => "Forbidden trailer field: "@ + name,
            TrailerFault::Malformed(line) => "Malformed trailer line: "@ + line,
            TrailerFault::NotUtf8 => "stream did not contain valid UTF-8"@,
        }
    }

    /// The error in words.
    pub fn message(&self) -> (r: String)
        ensures
            r@ == self.text(),
    {
        match self {
            TrailerError::Forbidden(name) => "Forbidden trailer field: ".to_owned().concat(name.as_str()),
            TrailerError::Malformed(line) => "Malformed trailer line: ".to_owned().concat(line.as_str()),
            TrailerError::NotUtf8 => "stream did not contain valid UTF-8".to_owned(),
        }
    }
}

/// Header fields that follow a body, and which of them were announced.
#[derive(Debug, Clone)]
pub struct TrailerHeaders {
    headers: Table<String>,
    pub expected: Option<Names>,
}

/// The contents of trailers: fields by name, and the names that were announced.
pub struct TrailerView {
    pub headers: Seq<(Seq<char>, Seq<char>)>,
    pub expected: Option<Seq<(Seq<char>, ())>>,
}

/// Whether no field is one that may not stand in a trailer.
pub open spec fn all_allowed(headers: Seq<(Seq<char>, Seq<char>)>) -> bool {
    forall|i: int| 0 <= i < headers.len() ==> !is_forbidden(lowercase((#[trigger] headers[i]).0))
}

pub open spec fn names_view(o: Option<Names>) -> Option<Seq<(Seq<char>, ())>> {
    match o {
        Some(n) => Some(n@),
        None => None,
    }
}

/// The names that the first `n` elements of a `Trailer` value announce.
pub open spec fn announced(elements: Seq<Seq<char>>, n: int) -> Seq<(Seq<char>, ())>
    decreases n,
{
    if n <= 0 {
        seq![]
    } else {
        put(announced(elements, n - 1), lowercase(trimmed(elements[n - 1])), ())
    }
}

/// The names that a `Trailer` value announces.
pub open spec fn announced_in(value: Seq<char>) -> Seq<(Seq<char>, ())> {
    announced(split_on(value, ','), split_on(value, ',').len() as int)
}

/// Whether a field came, whatever the case of its letters.
pub open spec fn came(headers: Seq<(Seq<char>, Seq<char>)>, name: Seq<char>) -> bool {
    exists|i: int| 0 <= i < headers.len() && lowercase((#[trigger] headers[i]).0) == name
}

/// The first `n` announced names without those that came.
pub open spec fn missing(
    expected: Seq<(Seq<char>, ())>,
    headers: Seq<(Seq<char>, Seq<char>)>,
    n: int,
) -> Seq<Seq<char>>
    decreases n,
{
    if n <= 0 {
        seq![]
    } else if came(headers, expected[n - 1].0) {
        missing(expected, headers, n - 1)
    } else {
        missing(expected, headers, n - 1).push(expected[n - 1].0)
    }
}

/// The announced fields that did not come.
pub open spec fn all_missing(t: TrailerView) -> Seq<Seq<char>> {
    match t.expected {
        Some(e) => missing(e, t.headers, e.len() as int),
        None => seq![],
    }
}

pub open spec fn string_views(v: Seq<String>) -> Seq<Seq<char>> {
    v.map_values(|s: String| s@)
}

/// How many octets the first line has, its line feed among them.
pub open spec fn line_len(data: Seq<u8>) -> int
    decreases data.len(),
{
    if data.len() == 0 {
        0
    } else if data[0] == 10 {
        1
    } else {
        1 + line_len(data.skip(1))
    }
}

pub proof fn lemma_line_len(data: Seq<u8>)
    ensures
        data.len() > 0 ==> 0 < line_len(data) <= data.len(),
        data.len() == 0 ==> line_len(data) == 0,
    decreases data.len(),
{
    if data.len() > 0 {
        lemma_line_len(data.skip(1));
    }
}

/// The fields that lines of octets hold, up to a blank line or the end, put to those before.
pub open spec fn trailers_in(data: Seq<u8>, sofar: Seq<(Seq<char>, Seq<char>)>) -> Result<
    Seq<(Seq<char>, Seq<char>)>,
    TrailerFault,
>
    decreases data.len(),
{
    let n = line_len(data);
    if n <= 0 || n > data.len() {
        Ok(sofar)
    } else if !valid_utf8(data.take(n)) {
        Err(TrailerFault::NotUtf8)
    } else {
        let line = decode_utf8(data.take(n));
        if trimmed(line).len() == 0 {
            Ok(sofar)
        } else {
            match find(line, ':') {
                None => Err(TrailerFault::Malformed(trimmed(line))),
                Some(i) => {
                    let name = trimmed(line.take(i));
                    if is_forbidden(lowercase(name)) {
                        Err(TrailerFault::Forbidden(name))
                    } else {
                        trailers_in(
                            data.skip(n),
                            put(sofar, name, trimmed(line.skip(i + 1))),
                        )
                    }
                },
            }
        }
    }
}

impl View for TrailerHeaders {
    type V = TrailerView;

    closed spec fn view(&self) -> TrailerView {
        TrailerView { headers: self.headers@, expected: names_view(self.expected) }
    }
}

impl TrailerHeaders {
    /// What holds of all trailers: names stand once, and none is forbidden.
    pub open spec fn inv(&self) -> bool {
        &&& in_name_order(self@.headers)
        &&& all_allowed(self@.headers)
        &&& self@.expected matches Some(e) ==> in_name_order(e)
    }

    pub fn new() -> (r: Self)
        ensures
            r.inv(),
            r@ == (TrailerView { headers: seq![], expected: None }),
    {
        TrailerHeaders { headers: Table::new(), expected: None }
    }

    /// Trailers of which the `Trailer` field announced the names.
    pub fn with_expected(trailer_value: &str) -> (r: Self)
        ensures
            r.inv(),
            r@ == (TrailerView { headers: seq![], expected: Some(announced_in(trailer_value@)) }),
            is_ascii_chars(trailer_value@) ==> settled(r@.expected),
    {
        proof {
            if is_ascii_chars(trailer_value@) {
                lemma_announced_settled(trailer_value@);
            }
        }
        let text = chars_of(trailer_value);
        let elements = split(text.as_slice(), ',');
        let ghost all = split_on(trailer_value@, ',');
        let mut expected: Names = Table::new();
        let mut i: usize = 0;
        while i < elements.len()
            invariant
                i <= elements@.len(),
                texts(elements@) == all,
                expected.inv(),
                expected@ == announced(all, i as int),
            decreases elements@.len() - i,
        {
            assert(all[i as int] == elements@[i as int]@);
            let name = string_of(trim(elements[i]));
            expected.insert(unicode_lower(name.as_str()), ());
            i = i + 1;
        }
        TrailerHeaders { headers: Table::new(), expected: Some(expected) }
    }

    /// Adds a field, in place of one with the same name; fails where it may not stand in a trailer.
    pub fn add(&mut self, name: String, value: String) -> (r: Result<(), TrailerError>)
        requires
            old(self).inv(),
        ensures
            final(self).inv(),
            match r {
                Ok(()) => !is_forbidden(lowercase(name@)) && final(self)@ == (TrailerView {
                    headers: put(old(self)@.headers, name@, value@),
                    ..old(self)@
                }),
                Err(e) => is_forbidden(lowercase(name@)) && e@ == TrailerFault::Forbidden(name@)
                    && final(self)@ == old(self)@,
            },
    {
        let lower = unicode_lower(name.as_str());
        if is_forbidden_trailer_field(lower.as_str()) {
            return Err(TrailerError::Forbidden(name));
        }
        proof {
            let h = self@.headers;
            lemma_put_entries(h, name@, value@);
            let out = put(h, name@, value@);
            assert forall|i: int| 0 <= i < out.len() implies !is_forbidden(
                lowercase((#[trigger] out[i]).0),
            ) by {
                if h.contains(out[i]) {
                    let k = choose|k: int| 0 <= k < h.len() && h[k] == out[i];
                    assert(!is_forbidden(lowercase(h[k].0)));
                }
            }
        }
        self.headers.insert(name, value);
        Ok(())
    }

    pub fn get(&self, name: &str) -> (r: Option<&String>)
        ensures
            match r {
                Some(v) => value(self@.headers, name@) == Some(v@),
                None => value(self@.headers, name@) is None,
            },
    {
        self.headers.get(name)
    }

    pub fn headers(&self) -> (r: &Table<String>)
        ensures
            r@ == self@.headers,
    {
        &self.headers
    }

    /// Whether a field came, whatever the case of its letters.
    fn received(&self, name: &str) -> (r: bool)
        ensures
            r == came(self@.headers, name@),
    {
        let key = chars_of(name);
        let mut i: usize = 0;
        while i < self.headers.len()
            invariant
                i <= self.headers@.len(),
                key@ == name@,
                forall|j: int| 0 <= j < i ==> lowercase((#[trigger] self@.headers[j]).0) != name@,
            decreases self.headers@.len() - i,
        {
            let lower = unicode_lower(self.headers.name_at(i));
            if is_text(key.as_slice(), lower.as_str()) {
                assert(lowercase(self@.headers[i as int].0) == name@);
                return true;
            }
            i = i + 1;
        }
        false
    }

    /// Fails with the announced fields that did not come, where there are any.
    pub fn validate_expected(&self) -> (r: Result<(), Vec<String>>)
        ensures
            match r {
                Ok(()) => all_missing(self@).len() == 0,
                Err(names) => string_views(names@) == all_missing(self@) && names@.len() > 0,
            },
    {
        let expected = match &self.expected {
            Some(e) => e,
            None => {
                return Ok(());
            },
        };
        let mut out: Vec<String> = Vec::new();
        assert(string_views(out@) =~= seq![]);
        let mut i: usize = 0;
        while i < expected.len()
            invariant
                i <= expected@.len(),
                self@.expected == Some(expected@),
                string_views(out@) == missing(expected@, self@.headers, i as int),
            decreases expected@.len() - i,
        {
            let name = expected.name_at(i);
            if !self.received(name) {
                let ghost was = out@;
                out.push(name.to_owned());
                assert(string_views(out@) =~= string_views(was).push(name@));
            }
            i = i + 1;
        }
        assert(string_views(out@).len() == out@.len());
        if out.len() > 0 {
            Err(out)
        } else {
            Ok(())
        }
    }

    /// Reads trailers from octets, up to a blank line. With `has_trailer_header`, tells which of the
    /// announced fields did not come.
    pub fn parse(data: &[u8], has_trailer_header: bool, trailer_value: Option<&str>) -> (r: Result<
        (Self, Vec<String>),
        TrailerError,
    >)
        ensures
            match r {
                Ok((t, absent)) => {
                    &&& t.inv()
                    &&& trailers_in(data@, seq![]) == Ok::<_, TrailerFault>(t@.headers)
                    &&& t@.expected == (match trailer_value {
                        Some(v) => Some(announced_in(v@)),
                        None => None,
                    })
                    &&& string_views(absent@) == (if has_trailer_header {
                        all_missing(t@)
                    } else {
                        seq![]
                    })
                },
                Err(e) => trailers_in(data@, seq![]) == Err::<Seq<(Seq<char>, Seq<char>)>, _>(e@),
            },
    {
        let mut trailers = match trailer_value {
            Some(v) => TrailerHeaders::with_expected(v),
            None => TrailerHeaders::new(),
        };
        let ghost expected = trailers@.expected;
        let end: usize = data.len();
        let mut from: usize = 0;
        assert(data@.skip(0) =~= data@);
        loop
            invariant
                from <= end == data@.len(),
                trailers.inv(),
                trailers@.expected == expected,
                trailers_in(data@.skip(from as int), trailers@.headers) == trailers_in(data@, seq![]),
            ensures
                trailers.inv(),
                trailers@.expected == expected,
                trailers_in(data@, seq![]) == Ok::<_, TrailerFault>(trailers@.headers),
            decreases end - from,
        {
            let ghost rest = data@.skip(from as int);
            proof {
                lemma_line_len(rest);
            }
            let n = first_line_len(slice_subrange(data, from, end));
            assert(data@.subrange(from as int, end as int) =~= rest);
            if n == 0 {
                break ;
            }
            let piece = slice_subrange(data, from, from + n);
            assert(piece@ =~= rest.take(n as int));
            assert(data@.skip(from + n) =~= rest.skip(n as int));
            let text = match utf8_text(piece) {
                Some(t) => t,
                None => {
                    return Err(TrailerError::NotUtf8);
                },
            };
            let line = chars_of(text.as_str());
            let whole = trim(line.as_slice());
            if whole.len() == 0 {
                break ;
            }
            let stop: usize = line.len();
            match find_char(line.as_slice(), ':') {
                Some(i) => {
                    let left = slice_subrange(line.as_slice(), 0, i);
                    let right = slice_subrange(line.as_slice(), i + 1, stop);
                    assert(left@ =~= line@.take(i as int));
                    assert(right@ =~= line@.skip(i + 1));
                    match trailers.add(string_of(trim(left)), string_of(trim(right))) {
                        Ok(()) => {},
                        Err(e) => {
                            return Err(e);
                        },
                    }
                },
                None => {
                    return Err(TrailerError::Malformed(string_of(whole)));
                },
            }
            from = from + n;
        }
        let mut absent: Vec<String> = Vec::new();
        if has_trailer_header {
            match trailers.validate_expected() {
                Ok(()) => {
                    assert(string_views(absent@) =~= all_missing(trailers@));
                },
                Err(names) => {
                    absent = names;
                },
            }
        } else {
            assert(string_views(absent@) =~= seq![]);
        }
        Ok((trailers, absent))
    }

    pub fn into_map(self) -> (r: Table<String>)
        ensures
            r@ == self@.headers,
    {
        self.headers
    }

    pub fn len(&self) -> (r: usize)
        ensures
            r == self@.headers.len(),
    {
        self.headers.len()
    }

    pub fn is_empty(&self) -> (r: bool)
        ensures
            r == (self@.headers.len() == 0),
    {
        self.headers.is_empty()
    }
}

/// Counts the octets of the first line, its line feed among them.
pub fn first_line_len(data: &[u8]) -> (r: usize)
    ensures
        r == line_len(data@),
{
    let mut i: usize = 0;
    assert(data@.skip(0) =~= data@);
    while i < data.len()
        invariant
            i <= data@.len(),
            i + line_len(data@.skip(i as int)) == line_len(data@),
        decreases data@.len() - i,
    {
        assert(data@.skip(i as int)[0] == data@[i as int]);
        assert(data@.skip(i as int).skip(1) =~= data@.skip(i + 1));
        if data[i] == 10 {
            return i + 1;
        }
        i = i + 1;
    }
    i
}


/// The header of a trailer blob.
pub type SecureTrailerHeadersBlobMeta = EnvelopeMeta;

/// The line that serializes an announced name.
pub open spec fn expected_line(name: Seq<char>) -> Seq<char> {
    "e="@ + armour(name)
}

/// The line that serializes a field.
pub open spec fn field_line(field: (Seq<char>, Seq<char>)) -> Seq<char> {
    "h="@ + armoured_pair(field.0, field.1)
}

pub open spec fn expected_lines(t: TrailerView) -> Seq<Seq<char>> {
    match t.expected {
        Some(e) => e.map_values(|n: (Seq<char>, ())| expected_line(n.0)),
        None => seq![],
    }
}

/// The lines that serialize trailers: the announced names, then the fields, both in order.
pub open spec fn trailer_lines(t: TrailerView) -> Seq<Seq<char>> {
    expected_lines(t) + t.headers.map_values(|f: (Seq<char>, Seq<char>)| field_line(f))
}

pub open spec fn trailers_serialized(t: TrailerView) -> Seq<u8> {
    encode_utf8(joined(trailer_lines(t), "\n"@))
}

/// The trailers after one line more.
pub open spec fn with_line(t: TrailerView, line: Seq<char>) -> Option<TrailerView> {
    let s = trimmed(line);
    if s.len() == 0 {
        Some(t)
    } else if begins_with(s, "e="@) {
        match unarmoured(without_prefix(s, "e="@).unwrap()) {
            Some(name) => Some(
                TrailerView {
                    expected: Some(
                        put(
                            match t.expected {
                                Some(e) => e,
                                None => seq![],
                            },
                            lowercase(name),
                            (),
                        ),
                    ),
                    ..t
                },
            ),
            None => None,
        }
    } else {
        match without_prefix(s, "h="@) {
            Some(p) => match pair_in(p) {
                Some((name, v)) => if is_forbidden(lowercase(name)) {
                    None
                } else {
                    Some(TrailerView { headers: put(t.headers, name, v), ..t })
                },
                None => None,
            },
            None => None,
        }
    }
}

/// The trailers after the lines from `i` on.
pub open spec fn with_lines(t: TrailerView, lines: Seq<Seq<char>>, i: int) -> Option<TrailerView>
    decreases lines.len() - i,
{
    if i < 0 || i >= lines.len() {
        Some(t)
    } else {
        match with_line(t, lines[i]) {
            Some(next) => with_lines(next, lines, i + 1),
            None => None,
        }
    }
}

pub open spec fn no_trailers() -> TrailerView {
    TrailerView { headers: seq![], expected: None }
}

/// The trailers that were serialized.
pub open spec fn trailers_deserialized(raw: Seq<u8>) -> Option<TrailerView> {
    if valid_utf8(raw) {
        with_lines(no_trailers(), lines_of(decode_utf8(raw)), 0)
    } else {
        None
    }
}

/// Writes trailers as lines.
pub fn serialize_trailer_headers(trailers: &TrailerHeaders) -> (r: Vec<u8>)
    ensures
        r@ == trailers_serialized(trailers@),
{
    let ghost t = trailers@;
    let ghost e = expected_lines(t);
    let ghost all = trailer_lines(t);
    let mut rows: Vec<Vec<char>> = Vec::new();
    assert(char_texts(rows@) =~= seq![]);
    match &trailers.expected {
        Some(expected) => {
            let mut i: usize = 0;
            while i < expected.len()
                invariant
                    i <= expected@.len(),
                    t.expected == Some(expected@),
                    e == expected_lines(t),
                    char_texts(rows@) == e.take(i as int),
                decreases expected@.len() - i,
            {
                let mut line = chars_of("e=");
                push_chars(&mut line, armour_text(expected.name_at(i)).as_slice());
                let ghost was = rows@;
                rows.push(line);
                assert(e[i as int] == line@);
                assert(char_texts(rows@) =~= char_texts(was).push(line@));
                assert(char_texts(rows@) =~= e.take(i + 1));
                i = i + 1;
            }
        },
        None => {},
    }
    assert(char_texts(rows@) =~= e);
    let ghost base = e.len() as int;
    let mut i: usize = 0;
    while i < trailers.headers.len()
        invariant
            i <= trailers.headers@.len(),
            t == trailers@,
            e == expected_lines(t),
            base == e.len(),
            all == trailer_lines(t),
            char_texts(rows@) == all.take(base + i),
        decreases trailers.headers@.len() - i,
    {
        let line = header_line(trailers.headers.name_at(i), trailers.headers.value_at(i).as_str());
        let ghost was = rows@;
        rows.push(line);
        assert(all[base + i] == field_line(t.headers[i as int]));
        assert(char_texts(rows@) =~= char_texts(was).push(line@));
        assert(char_texts(rows@) =~= all.take(base + i + 1));
        i = i + 1;
    }
    assert(all.take(all.len() as int) =~= all);
    let joint = join(&rows, "\n");
    let text = string_of(joint.as_slice());
    vstd::slice::slice_to_vec(text.as_str().as_bytes())
}

impl TrailerHeaders {
    /// Takes in one serialized line; fails where it is not one.
    fn read_line(&mut self, line: &[char]) -> (r: bool)
        requires
            old(self).inv(),
        ensures
            final(self).inv(),
            match with_line(old(self)@, line@) {
                Some(t) => r && final(self)@ == t,
                None => !r,
            },
    {
        let s = trim(line);
        if s.len() == 0 {
            return true;
        }
        match strip_prefix(s, "e=") {
            Some(v) => {
                let name = match read_armour(v) {
                    Some(n) => n,
                    None => {
                        return false;
                    },
                };
                let mut expected = match self.expected.take() {
                    Some(e) => e,
                    None => Table::new(),
                };
                expected.insert(unicode_lower(name.as_str()), ());
                self.expected = Some(expected);
                true
            },
            None => match strip_prefix(s, "h=") {
                Some(p) => match read_pair(p) {
                    Some((name, v)) => self.add(name, v).is_ok(),
                    None => false,
                },
                None => false,
            },
        }
    }
}

/// Reads trailers from the lines that `serialize_trailer_headers` writes.
pub fn deserialize_trailer_headers(raw_payload: &[u8]) -> (r: Option<TrailerHeaders>)
    ensures
        match r {
            Some(t) => trailers_deserialized(raw_payload@) == Some(t@) && t.inv(),
            None => trailers_deserialized(raw_payload@) is None,
        },
{
    let text = utf8_text(raw_payload)?;
    let chars = chars_of(text.as_str());
    let rows = lines(chars.as_slice());
    let ghost all = lines_of(text@);
    let mut trailers = TrailerHeaders::new();
    let mut i: usize = 0;
    while i < rows.len()
        invariant
            i <= rows@.len(),
            texts(rows@) == all,
            trailers.inv(),
            with_lines(trailers@, all, i as int) == with_lines(no_trailers(), all, 0),
            valid_utf8(raw_payload@),
            all == lines_of(decode_utf8(raw_payload@)),
        decreases rows@.len() - i,
    {
        assert(all[i as int] == rows@[i as int]@);
        if !trailers.read_line(rows[i]) {
            return None;
        }
        i = i + 1;
    }
    Some(trailers)
}

/// What a trailer blob holds.
pub open spec fn trailers_unsealed(data: Seq<u8>, plain: Option<Seq<u8>>) -> Result<
    (MetaView, TrailerView),
    EnvelopeError,
> {
    carried(unsealed(BlobKind::Trailers, data, plain), |raw: Seq<u8>| trailers_deserialized(raw))
}

/// Chooses the coding for a trailer blob from an `Accept-Encoding` value.
pub fn select_secure_trailer_headers_algorithm(accept_encoding: &str) -> (r: CompressionAlgorithm)
    ensures
        r == selected(accept_encoding@, true),
{
    select_any(accept_encoding)
}

/// Seals trailers in a blob. `coded` is what the codec of `algorithm` made of the serialized
/// trailers, `None` where the codec failed; it is not looked at under the identity.
pub fn encode_secure_trailer_headers(
    trailers: &TrailerHeaders,
    algorithm: CompressionAlgorithm,
    coded: Option<&[u8]>,
    nonce: &[u8],
    issued_at_unix: u64,
) -> (r: Result<(SecureTrailerHeadersBlobMeta, Vec<u8>), EnvelopeError>)
    ensures
        contents(r) == sealed(
            BlobKind::Trailers,
            trailers_serialized(trailers@),
            algorithm,
            opt_bytes(coded),
            nonce@,
            issued_at_unix as nat,
        ),
{
    let raw = serialize_trailer_headers(trailers);
    seal(BlobKind::Trailers, raw.as_slice(), algorithm, coded, nonce, issued_at_unix)
}

/// Seals trailers in the coding chosen from an `Accept-Encoding` value.
pub fn encode_secure_trailer_headers_auto(
    trailers: &TrailerHeaders,
    accept_encoding: &str,
    coded: Option<&[u8]>,
    nonce: &[u8],
    issued_at_unix: u64,
) -> (r: Result<(SecureTrailerHeadersBlobMeta, Vec<u8>), EnvelopeError>)
    ensures
        contents(r) == sealed(
            BlobKind::Trailers,
            trailers_serialized(trailers@),
            selected(accept_encoding@, true),
            opt_bytes(coded),
            nonce@,
            issued_at_unix as nat,
        ),
{
    let algorithm = select_secure_trailer_headers_algorithm(accept_encoding);
    encode_secure_trailer_headers(trailers, algorithm, coded, nonce, issued_at_unix)
}

/// Opens a trailer blob. `plain` is what the codec made of the payload as sent, `None` where the codec
/// failed; it is not looked at under the identity.
pub fn decode_secure_trailer_headers(data: &[u8], plain: Option<&[u8]>) -> (r: Result<
    (SecureTrailerHeadersBlobMeta, TrailerHeaders),
    EnvelopeError,
>)
    ensures
        match r {
            Ok((meta, t)) => trailers_unsealed(data@, opt_bytes(plain)) == Ok::<
                (MetaView, TrailerView),
                EnvelopeError,
            >((meta@, t@)) && t.inv(),
            Err(e) => trailers_unsealed(data@, opt_bytes(plain)) == Err::<
                (MetaView, TrailerView),
                EnvelopeError,
            >(e),
        },
{
    match unseal(BlobKind::Trailers, data, plain) {
        Ok((meta, raw)) => match deserialize_trailer_headers(raw.as_slice()) {
            Some(t) => Ok((meta, t)),
            None => Err(EnvelopeError::BadPayload),
        },
        Err(e) => Err(e),
    }
}

impl TrailerHeaders {
    /// See `encode_secure_trailer_headers`.
    pub fn to_secure_blob(
        &self,
        algorithm: CompressionAlgorithm,
        coded: Option<&[u8]>,
        nonce: &[u8],
        issued_at_unix: u64,
    ) -> (r: Result<(SecureTrailerHeadersBlobMeta, Vec<u8>), EnvelopeError>)
        ensures
            contents(r) == sealed(
                BlobKind::Trailers,
                trailers_serialized(self@),
                algorithm,
                opt_bytes(coded),
                nonce@,
                issued_at_unix as nat,
            ),
    {
        encode_secure_trailer_headers(self, algorithm, coded, nonce, issued_at_unix)
    }

    /// See `encode_secure_trailer_headers_auto`.
    pub fn to_secure_blob_auto(
        &self,
        accept_encoding: &str,
        coded: Option<&[u8]>,
        nonce: &[u8],
        issued_at_unix: u64,
    ) -> (r: Result<(SecureTrailerHeadersBlobMeta, Vec<u8>), EnvelopeError>)
        ensures
            contents(r) == sealed(
                BlobKind::Trailers,
                trailers_serialized(self@),
                selected(accept_encoding@, true),
                opt_bytes(coded),
                nonce@,
                issued_at_unix as nat,
            ),
    {
        encode_secure_trailer_headers_auto(self, accept_encoding, coded, nonce, issued_at_unix)
    }

    /// See `decode_secure_trailer_headers`.
    pub fn from_secure_blob(data: &[u8], plain: Option<&[u8]>) -> (r: Result<
        (SecureTrailerHeadersBlobMeta, Self),
        EnvelopeError,
    >)
        ensures
            match r {
                Ok((meta, t)) => trailers_unsealed(data@, opt_bytes(plain)) == Ok::<
                    (MetaView, TrailerView),
                    EnvelopeError,
                >((meta@, t@)) && t.inv(),
                Err(e) => trailers_unsealed(data@, opt_bytes(plain)) == Err::<
                    (MetaView, TrailerView),
                    EnvelopeError,
                >(e),
            },
    {
        decode_secure_trailer_headers(data, plain)
    }
}

/// Whether announced names are in lower case, and there are some.
pub open spec fn settled(expected: Option<Seq<(Seq<char>, ())>>) -> bool {
    expected matches Some(e) ==> e.len() > 0 && forall|i: int|
        0 <= i < e.len() ==> lowercase((#[trigger] e[i]).0) == e[i].0
}

proof fn lemma_prefixed(mark: Seq<char>, rest: Seq<char>)
    requires
        tidy(mark),
        tidy(rest),
        mark.len() > 0,
    ensures
        trimmed(mark + rest) == mark + rest,
        begins_with(mark + rest, mark),
        without_prefix(mark + rest, mark) == Some(rest),
        is_line(mark + rest),
{
    let s = mark + rest;
    lemma_tidy_concat(mark, rest);
    lemma_tidy_line(s);
    lemma_trimmed_solid(s);
    assert(s.take(mark.len() as int) =~= mark);
    assert(s.skip(mark.len() as int) =~= rest);
}

proof fn lemma_expected_line(t: TrailerView, name: Seq<char>)
    ensures
        is_line(expected_line(name)),
        with_line(t, expected_line(name)) == Some(
            TrailerView {
                expected: Some(
                    put(
                        match t.expected {
                            Some(e) => e,
                            None => seq![],
                        },
                        lowercase(name),
                        (),
                    ),
                ),
                ..t
            },
        ),
{
    reveal_strlit("e=");
    law_armour_roundtrip(name);
    lemma_prefixed("e="@, armour(name));
}

proof fn lemma_field_line(t: TrailerView, field: (Seq<char>, Seq<char>))
    requires
        !is_forbidden(lowercase(field.0)),
    ensures
        is_line(field_line(field)),
        with_line(t, field_line(field)) == Some(
            TrailerView { headers: put(t.headers, field.0, field.1), ..t },
        ),
{
    reveal_strlit("e=");
    reveal_strlit("h=");
    law_pair_roundtrip(field.0, field.1);
    lemma_prefixed("h="@, armoured_pair(field.0, field.1));
    assert("e="@[0] == 'e');
    assert(field_line(field)[0] == 'h');
    assert(!begins_with(field_line(field), "e="@)) by {
        if begins_with(field_line(field), "e="@) {
            assert(field_line(field).take(2)[0] == 'h');
        }
    }
}

proof fn lemma_expected_read(t: TrailerView, i: int)
    requires
        settled(t.expected),
        t.expected is Some,
        in_name_order(t.expected.unwrap()),
        0 <= i <= t.expected.unwrap().len(),
    ensures
        ({
            let e = t.expected.unwrap();
            let sofar = TrailerView {
                headers: seq![],
                expected: if i == 0 {
                    None
                } else {
                    Some(e.take(i))
                },
            };
            with_lines(sofar, trailer_lines(t), i) == with_lines(
                TrailerView { headers: seq![], expected: Some(e) },
                trailer_lines(t),
                e.len() as int,
            )
        }),
    decreases t.expected.unwrap().len() - i,
{
    let e = t.expected.unwrap();
    let all = trailer_lines(t);
    if i == e.len() {
        assert(e.take(i) =~= e);
    } else {
        let sofar = TrailerView {
            headers: seq![],
            expected: if i == 0 {
                None
            } else {
                Some(e.take(i))
            },
        };
        let name = e[i].0;
        assert(all[i] == expected_line(name));
        lemma_expected_line(sofar, name);
        let was = e.take(i);
        assert forall|j: int| 0 <= j < was.len() implies before((#[trigger] was[j]).0, name) by {
            assert(before(e[j].0, e[i].0));
        }
        lemma_put_last(was, name, ());
        assert(e[i].1 == ());
        assert(was.push((name, ())) =~= e.take(i + 1));
        if i == 0 {
            assert(was =~= seq![]);
        }
        lemma_expected_read(t, i + 1);
    }
}

proof fn lemma_fields_read(t: TrailerView, i: int)
    requires
        in_name_order(t.headers),
        all_allowed(t.headers),
        0 <= i <= t.headers.len(),
    ensures
        with_lines(
            TrailerView { headers: t.headers.take(i), ..t },
            trailer_lines(t),
            expected_lines(t).len() + i,
        ) == Some(t),
    decreases t.headers.len() - i,
{
    let all = trailer_lines(t);
    let base = expected_lines(t).len();
    let sofar = TrailerView { headers: t.headers.take(i), ..t };
    if i == t.headers.len() {
        assert(t.headers.take(i) =~= t.headers);
    } else {
        let field = t.headers[i];
        assert(all[base + i] == field_line(field));
        lemma_field_line(sofar, field);
        let was = t.headers.take(i);
        assert forall|j: int| 0 <= j < was.len() implies before((#[trigger] was[j]).0, field.0) by {
            assert(before(t.headers[j].0, t.headers[i].0));
        }
        lemma_put_last(was, field.0, field.1);
        assert(was.push(field) =~= t.headers.take(i + 1));
        lemma_fields_read(t, i + 1);
    }
}

/// Trailers that were serialized are read back: the fields, and the announced names where there are
/// some and they are in lower case, as those are that a `Trailer` value in ASCII announces.
pub proof fn law_trailers_roundtrip(t: TrailerView)
    requires
        in_name_order(t.headers),
        all_allowed(t.headers),
        t.expected matches Some(e) ==> in_name_order(e),
        settled(t.expected),
    ensures
        trailers_deserialized(trailers_serialized(t)) == Some(t),
{
    let all = trailer_lines(t);
    let text = joined(all, "\n"@);
    reveal_strlit("\n");
    assert("\n"@ =~= seq!['\n']);
    assert forall|i: int| 0 <= i < all.len() implies is_line(#[trigger] all[i]) by {
        let base = expected_lines(t).len();
        if i < base {
            assert(all[i] == expected_line(t.expected.unwrap()[i].0));
            lemma_expected_line(t, t.expected.unwrap()[i].0);
        } else {
            assert(all[i] == field_line(t.headers[i - base]));
            lemma_field_line(t, t.headers[i - base]);
        }
    }
    encode_utf8_valid_utf8(text);
    encode_utf8_decode_utf8(text);
    if all.len() > 0 {
        lemma_lines_joined(all);
    } else {
        assert(lines_of(text) =~= all);
    }
    assert(t.headers.take(0) =~= seq![]);
    if t.expected is Some {
        lemma_expected_read(t, 0);
    }
    lemma_fields_read(t, 0);
}

/// Trailers come out of a blob as they went in, given that the codec undoes what it did.
pub proof fn law_trailers_blob_roundtrip(
    t: TrailerView,
    algorithm: CompressionAlgorithm,
    coded: Option<Seq<u8>>,
    nonce: Seq<u8>,
    issued_at: nat,
)
    requires
        in_name_order(t.headers),
        all_allowed(t.headers),
        t.expected matches Some(e) ==> in_name_order(e),
        settled(t.expected),
        trailers_serialized(t).len() <= usize::MAX,
        coded matches Some(c) ==> c.len() <= usize::MAX,
        issued_at <= u64::MAX,
    ensures
        sealed(BlobKind::Trailers, trailers_serialized(t), algorithm, coded, nonce, issued_at) matches Ok(
            (meta, data),
        ) ==> trailers_unsealed(data, Some(trailers_serialized(t))) == Ok::<
            (MetaView, TrailerView),
            EnvelopeError,
        >((meta, t)),
{
    law_blob_roundtrip(
        BlobKind::Trailers,
        trailers_serialized(t),
        algorithm,
        coded,
        nonce,
        issued_at,
    );
    law_trailers_roundtrip(t);
}

/// The elements of a list in ASCII are in ASCII, and there is one at least.
proof fn lemma_split_ascii(s: Seq<char>, c: char)
    requires
        is_ascii_chars(s),
    ensures
        split_on(s, c).len() > 0,
        forall|i: int| 0 <= i < split_on(s, c).len() ==> is_ascii_chars(#[trigger] split_on(s, c)[i]),
    decreases s.len(),
{
    match find(s, c) {
        Some(i) => {
            if 0 <= i < s.len() {
                let rest = s.skip(i + 1);
                assert(is_ascii_chars(rest)) by {
                    assert forall|j: int| 0 <= j < rest.len() implies '\0' <= #[trigger] rest[j] <= '\u{7f}' by {
                        assert(rest[j] == s[i + 1 + j]);
                    }
                }
                lemma_split_ascii(rest, c);
                let all = split_on(s, c);
                assert forall|k: int| 0 <= k < all.len() implies is_ascii_chars(#[trigger] all[k]) by {
                    if k == 0 {
                        assert(all[0] == s.take(i));
                        assert forall|j: int| 0 <= j < all[0].len() implies '\0' <= #[trigger] all[0][j]
                            <= '\u{7f}' by {
                            assert(all[0][j] == s[j]);
                        }
                    } else {
                        assert(all[k] == split_on(rest, c)[k - 1]);
                    }
                }
            }
        },
        None => {},
    }
}

/// Text in ASCII stays so when it is trimmed.
proof fn lemma_trimmed_ascii(s: Seq<char>)
    requires
        is_ascii_chars(s),
    ensures
        is_ascii_chars(trimmed(s)),
    decreases s.len(),
{
    lemma_start_ascii(s);
    lemma_end_ascii(trimmed_start(s));
}

proof fn lemma_start_ascii(s: Seq<char>)
    requires
        is_ascii_chars(s),
    ensures
        is_ascii_chars(trimmed_start(s)),
    decreases s.len(),
{
    if s.len() > 0 && is_white(s[0]) {
        let rest = s.skip(1);
        assert forall|j: int| 0 <= j < rest.len() implies '\0' <= #[trigger] rest[j] <= '\u{7f}' by {
            assert(rest[j] == s[j + 1]);
        }
        lemma_start_ascii(rest);
    }
}

proof fn lemma_end_ascii(s: Seq<char>)
    requires
        is_ascii_chars(s),
    ensures
        is_ascii_chars(trimmed_end(s)),
    decreases s.len(),
{
    if s.len() > 0 && is_white(s.last()) {
        let rest = s.drop_last();
        assert forall|j: int| 0 <= j < rest.len() implies '\0' <= #[trigger] rest[j] <= '\u{7f}' by {
            assert(rest[j] == s[j]);
        }
        lemma_end_ascii(rest);
    }
}

proof fn lemma_announced(elements: Seq<Seq<char>>, n: int)
    requires
        0 <= n <= elements.len(),
        forall|i: int| 0 <= i < elements.len() ==> is_ascii_chars(#[trigger] elements[i]),
    ensures
        in_name_order(announced(elements, n)),
        n > 0 ==> announced(elements, n).len() > 0,
        forall|i: int|
            0 <= i < announced(elements, n).len() ==> lowercase((#[trigger] announced(elements, n)[i]).0)
                == announced(elements, n)[i].0,
    decreases n,
{
    if n > 0 {
        lemma_announced(elements, n - 1);
        let was = announced(elements, n - 1);
        let name = lowercase(trimmed(elements[n - 1]));
        let out = put(was, name, ());
        lemma_trimmed_ascii(elements[n - 1]);
        law_lowercase_settles(trimmed(elements[n - 1]));
        law_put_in_order(was, name, ());
        lemma_put_entries(was, name, ());
        assert forall|i: int| 0 <= i < out.len() implies lowercase((#[trigger] out[i]).0) == out[i].0 by {
            if out[i] != (name, ()) {
                let k = choose|k: int| 0 <= k < was.len() && was[k] == out[i];
                assert(lowercase(was[k].0) == was[k].0);
            }
        }
    }
}

/// The names that a `Trailer` value in ASCII announces are in lower case, and there is one at least.
proof fn lemma_announced_settled(value: Seq<char>)
    requires
        is_ascii_chars(value),
    ensures
        in_name_order(announced_in(value)),
        settled(Some(announced_in(value))),
{
    lemma_split_ascii(value, ',');
    lemma_announced(split_on(value, ','), split_on(value, ',').len() as int);
}

/// Trailers whose names were announced by a `Trailer` value in ASCII are read back as they were serialized, whatever
/// fields were added to them.
pub proof fn law_announced_trailers_roundtrip(value: Seq<char>, headers: Seq<(Seq<char>, Seq<char>)>)
    requires
        is_ascii_chars(value),
        in_name_order(headers),
        all_allowed(headers),
    ensures
        ({
            let t = TrailerView { headers, expected: Some(announced_in(value)) };
            trailers_deserialized(trailers_serialized(t)) == Some(t)
        }),
{
    lemma_announced_settled(value);
    law_trailers_roundtrip(TrailerView { headers, expected: Some(announced_in(value)) });
}

/// A field with a name in ASCII is refused in a trailer where its name in lower case is among the forbidden ones.
pub proof fn law_forbidden_by_name(name: Seq<char>)
    requires
        is_ascii_chars(name),
    ensures
        is_forbidden(lowercase(name)) <==> is_forbidden(name),
{
    lemma_trimmed_lowered(name);
    assert(lowered(lowered(trimmed(name))) =~= lowered(trimmed(name)));
}

/// Trimming and lower case do not get in each other's way.
proof fn lemma_trimmed_lowered(s: Seq<char>)
    ensures
        trimmed(lowered(s)) == lowered(trimmed(s)),
    decreases s.len(),
{
    let l = lowered(s);
    if s.len() > 0 && is_white(s[0]) {
        assert(l[0] == lower(s[0]));
        assert(l.skip(1) =~= lowered(s.skip(1)));
        lemma_trimmed_lowered(s.skip(1));
    } else if s.len() > 0 {
        assert(!is_white(l[0]));
        lemma_end_lowered(s);
    } else {
        assert(l =~= s);
        assert(trimmed(s) =~= s);
        assert(lowered(s) =~= s);
    }
}

proof fn lemma_end_lowered(s: Seq<char>)
    ensures
        trimmed_end(lowered(s)) == lowered(trimmed_end(s)),
    decreases s.len(),
{
    let l = lowered(s);
    if s.len() > 0 {
        assert(l.last() == lower(s.last()));
        if is_white(s.last()) {
            assert(l.drop_last() =~= lowered(s.drop_last()));
            lemma_end_lowered(s.drop_last());
        }
    } else {
        assert(l =~= s);
    }
}

proof fn lemma_missing(expected: Seq<(Seq<char>, ())>, headers: Seq<(Seq<char>, Seq<char>)>, n: int, name: Seq<char>)
    requires
        n <= expected.len(),
    ensures
        missing(expected, headers, n).contains(name) <==> (exists|i: int|
            0 <= i < n && (#[trigger] expected[i]).0 == name) && !came(headers, name),
    decreases n,
{
    if n > 0 {
        lemma_missing(expected, headers, n - 1, name);
        let was = missing(expected, headers, n - 1);
        let last = expected[n - 1].0;
        let all = was.push(last);
        if was.contains(name) {
            let i = choose|i: int| 0 <= i < was.len() && was[i] == name;
            assert(all[i] == name);
        }
        if last == name {
            assert(all[was.len() as int] == name);
        }
        if all.contains(name) {
            let i = choose|i: int| 0 <= i < all.len() && all[i] == name;
            if i < was.len() {
                assert(was[i] == name);
            }
        }
    }
}

/// The fields that are missing are just those that were announced and did not come, whatever the case of the letters
/// in which they came.
pub proof fn law_missing_trailers(t: TrailerView, name: Seq<char>)
    ensures
        all_missing(t).contains(name) <==> (t.expected matches Some(e) && exists|i: int|
            0 <= i < e.len() && (#[trigger] e[i]).0 == name) && forall|i: int|
            0 <= i < t.headers.len() ==> lowercase((#[trigger] t.headers[i]).0) != name,
{
    if let Some(e) = t.expected {
        lemma_missing(e, t.headers, e.len() as int, name);
    }
}

/// The names that are announced are just those of the list, in lower case and without white space around them.
pub proof fn law_announced_names(elements: Seq<Seq<char>>, n: int, name: Seq<char>)
    requires
        0 <= n <= elements.len(),
    ensures
        in_name_order(announced(elements, n)),
        value(announced(elements, n), name) is Some <==> exists|i: int|
            0 <= i < n && lowercase(trimmed(#[trigger] elements[i])) == name,
    decreases n,
{
    if n > 0 {
        law_announced_names(elements, n - 1, name);
        let was = announced(elements, n - 1);
        let last = lowercase(trimmed(elements[n - 1]));
        law_put_in_order(was, last, ());
        law_put_value(was, last, (), name);
        assert(elements[n - 1] == elements[n - 1]);
    }
}

}
