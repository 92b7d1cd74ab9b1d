//! Content negotiation: what a client accepts, and which of the server's offers suits it best.
use vstd::prelude::*;
use vstd::slice::slice_subrange;
use vstd::string::StringSliceAdditionalSpecFns;
use vstd::utf8::{
    decode_utf8, encode_utf8, encode_utf8_decode_utf8, encode_utf8_valid_utf8, valid_utf8,
};

use crate::net::blob::{law_blob_roundtrip, opt_bytes, seal, sealed, unseal, unsealed, BlobKind};
use crate::net::envelope::{carried, contents, EnvelopeError, EnvelopeMeta, MetaView};
use crate::net::http::compression::{
    lemma_q_param, quality_among, read_element_quality, select_any, selected, CompressionAlgorithm,
};
use crate::net::http::fields::{
    armour, armour_text, law_armour_roundtrip, read_armour, unarmoured,
};
use crate::net::record::{lemma_pair, pair_of};
use crate::order::{
    in_order, law_ranked_in_order, law_ranked_same_items, lemma_placed_views, place, ranked, views, HasRank,
    Ranked,
};
use crate::text::{
    char_texts, chars_of, find_char, is_line, is_text, is_text_nocase, is_white, join, joined, lacks,
    lemma_lines_joined, lemma_split_two, lemma_tidy_concat, lemma_tidy_line, lemma_trimmed_solid, lines, lines_of,
    lowered, push_chars, push_text, same_nocase, solid, split, split_on, string_of, texts, tidy, to_lower, to_upper,
    trim, trimmed, uppered, utf8_text,
};
use crate::net::http::quality::{quality_or_one, ONE};

verus! {

pub type SecureContentNegotiationBlobMeta = EnvelopeMeta;

/// A media type or range, with the quality at which it is accepted, as `quality` counts it.
#[derive(Debug, Clone)]
pub struct MediaType {
    pub type_: String,
    pub subtype: String,
    pub quality: u32,
    pub params: Vec<(String, String)>,
}

/// A language, with the quality at which it is accepted, as `quality` counts it.
#[derive(Debug, Clone)]
pub struct LanguageTag {
    pub language: String,
    pub region: Option<String>,
    pub quality: u32,
}

/// A content coding, with the quality at which it is accepted, as `quality` counts it.
#[derive(Debug, Clone)]
pub struct EncodingPreference {
    pub encoding: String,
    pub quality: u32,
}

#[verifier::ext_equal]
pub struct MediaView {
    pub type_: Seq<char>,
    pub subtype: Seq<char>,
    pub quality: nat,
    pub params: Seq<(Seq<char>, Seq<char>)>,
}

#[verifier::ext_equal]
pub struct LanguageView {
    pub language: Seq<char>,
    pub region: Option<Seq<char>>,
    pub quality: nat,
}

#[verifier::ext_equal]
pub struct EncodingView {
    pub encoding: Seq<char>,
    pub quality: nat,
}

pub open spec fn pair_views(v: Seq<(String, String)>) -> Seq<(Seq<char>, Seq<char>)> {
    v.map_values(|p: (String, String)| (p.0@, p.1@))
}

pub open spec fn opt_text(o: Option<String>) -> Option<Seq<char>> {
    match o {
        Some(s) => Some(s@),
        None => None,
    }
}

pub open spec fn opt_str(o: Option<&str>) -> Option<Seq<char>> {
    match o {
        Some(s) => Some(s@),
        None => None,
    }
}

pub open spec fn strs(v: Seq<&str>) -> Seq<Seq<char>> {
    v.map_values(|s: &str| s@)
}

impl View for MediaType {
    type V = MediaView;

    open spec fn view(&self) -> MediaView {
        MediaView {
            type_: self.type_@,
            subtype: self.subtype@,
            quality: self.quality as nat,
            params: pair_views(self.params@),
        }
    }
}

impl View for LanguageTag {
    type V = LanguageView;

    open spec fn view(&self) -> LanguageView {
        LanguageView {
            language: self.language@,
            region: opt_text(self.region),
            quality: self.quality as nat,
        }
    }
}

impl View for EncodingPreference {
    type V = EncodingView;

    open spec fn view(&self) -> EncodingView {
        EncodingView { encoding: self.encoding@, quality: self.quality as nat }
    }
}

/// How narrow a media range is: 0 for any type, 1 for any subtype of a type, 2 for one subtype.
pub open spec fn media_specificity(m: MediaView) -> nat {
    if m.type_ == "*"@ {
        0
    } else if m.subtype == "*"@ {
        1
    } else {
        2
    }
}

/// How narrow a coding preference is: 0 for any coding, 1 for one.
pub open spec fn encoding_specificity(e: EncodingView) -> nat {
    if e.encoding == "*"@ {
        0
    } else {
        1
    }
}

impl HasRank for MediaView {
    /// Quality counts first, then how narrow the range is.
    open spec fn rank(&self) -> nat {
        self.quality * 3 + media_specificity(*self)
    }
}

impl HasRank for MediaType {
    open spec fn rank(&self) -> nat {
        self@.rank()
    }
}

impl Ranked for MediaType {
    fn rank_of(&self) -> (r: u64) {
        self.quality as u64 * 3 + self.specificity() as u64
    }
}

impl HasRank for LanguageView {
    open spec fn rank(&self) -> nat {
        self.quality
    }
}

impl HasRank for LanguageTag {
    open spec fn rank(&self) -> nat {
        self@.rank()
    }
}

impl Ranked for LanguageTag {
    fn rank_of(&self) -> (r: u64) {
        self.quality as u64
    }
}

impl HasRank for EncodingView {
    /// Quality counts first, then a named coding before any coding.
    open spec fn rank(&self) -> nat {
        self.quality * 2 + encoding_specificity(*self)
    }
}

impl HasRank for EncodingPreference {
    open spec fn rank(&self) -> nat {
        self@.rank()
    }
}

impl Ranked for EncodingPreference {
    fn rank_of(&self) -> (r: u64) {
        self.quality as u64 * 2 + self.specificity() as u64
    }
}

/// The parameters other than `q` among the first `n` parts of an element.
pub open spec fn other_params(parts: Seq<Seq<char>>, n: int) -> Seq<(Seq<char>, Seq<char>)>
    decreases n,
{
    if n <= 1 {
        seq![]
    } else {
        match pair_of(trimmed(parts[n - 1])) {
            Some((k, v)) => if same_nocase(k, "q"@) {
                other_params(parts, n - 1)
            } else {
                other_params(parts, n - 1).push((k, v))
            },
            None => other_params(parts, n - 1),
        }
    }
}

/// The media type that a text like `text/html; level=1; q=0.5` denotes.
pub open spec fn media_in(s: Seq<char>) -> Option<MediaView> {
    let parts = split_on(s, ';');
    let names = split_on(trimmed(parts[0]), '/');
    if names.len() != 2 {
        None
    } else {
        Some(
            MediaView {
                type_: lowered(names[0]),
                subtype: lowered(names[1]),
                quality: quality_among(parts, parts.len() as int),
                params: other_params(parts, parts.len() as int),
            },
        )
    }
}

/// The language that a text like `en-US; q=0.5` denotes.
pub open spec fn language_in(s: Seq<char>) -> Option<LanguageView> {
    let parts = split_on(s, ';');
    let names = split_on(trimmed(parts[0]), '-');
    if trimmed(parts[0]).len() == 0 {
        None
    } else {
        Some(
            LanguageView {
                language: lowered(names[0]),
                region: if names.len() > 1 {
                    Some(uppered(names[1]))
                } else {
                    None
                },
                quality: quality_among(parts, parts.len() as int),
            },
        )
    }
}

/// The coding preference that a text like `gzip; q=0.5` denotes.
pub open spec fn encoding_in(s: Seq<char>) -> Option<EncodingView> {
    let parts = split_on(s, ';');
    if trimmed(parts[0]).len() == 0 {
        None
    } else {
        Some(
            EncodingView {
                encoding: lowered(trimmed(parts[0])),
                quality: quality_among(parts, parts.len() as int),
            },
        )
    }
}

/// Whether one range covers a part of the other.
pub open spec fn media_match(a: MediaView, b: MediaView) -> bool {
    (a.type_ == "*"@ || b.type_ == "*"@ || a.type_ == b.type_) && (a.subtype == "*"@ || b.subtype
        == "*"@ || a.subtype == b.subtype)
}

/// Whether two tags can mean one language; a missing region stands for any.
pub open spec fn language_match(a: LanguageView, b: LanguageView) -> bool {
    a.language == "*"@ || b.language == "*"@ || (a.language == b.language && (match (
        a.region,
        b.region,
    ) {
        (Some(x), Some(y)) => x == y,
        _ => true,
    }))
}

/// The first `n` parameters in words, each behind a semicolon.
pub open spec fn params_text(params: Seq<(Seq<char>, Seq<char>)>, n: int) -> Seq<char>
    decreases n,
{
    if n <= 0 {
        seq![]
    } else {
        params_text(params, n - 1) + "; "@ + params[n - 1].0 + "="@ + params[n - 1].1
    }
}

/// A media type in words, without its quality.
pub open spec fn media_text(m: MediaView) -> Seq<char> {
    m.type_ + "/"@ + m.subtype + params_text(m.params, m.params.len() as int)
}

/// A language in words, without its quality.
pub open spec fn language_text(l: LanguageView) -> Seq<char> {
    match l.region {
        Some(r) => l.language + "-"@ + r,
        None => l.language,
    }
}

proof fn lemma_split(s: Seq<char>, c: char)
    ensures
        split_on(s, c).len() >= 1,
        s.len() == 0 ==> split_on(s, c).len() == 1,
{
}

impl MediaType {
    /// Reads a media type.
    pub fn parse(s: &str) -> (r: Option<Self>)
        ensures
            match r {
                Some(m) => media_in(s@) == Some(m@),
                None => media_in(s@) is None,
            },
    {
        let chars = chars_of(s);
        read_media(chars.as_slice())
    }

    /// Whether the range covers a part of the other.
    pub fn matches(&self, other: &MediaType) -> (r: bool)
        ensures
            r == media_match(self@, other@),
    {
        (is_str(&self.type_, "*") || is_str(&other.type_, "*") || same_string(
            &self.type_,
            &other.type_,
        )) && (is_str(&self.subtype, "*") || is_str(&other.subtype, "*") || same_string(
            &self.subtype,
            &other.subtype,
        ))
    }

    /// How narrow the range is.
    pub fn specificity(&self) -> (r: u8)
        ensures
            r == media_specificity(self@),
            r <= 2,
    {
        if is_str(&self.type_, "*") {
            0
        } else if is_str(&self.subtype, "*") {
            1
        } else {
            2
        }
    }

    /// The media type in words, without its quality.
    pub fn to_string(&self) -> (r: String)
        ensures
            r@ == media_text(self@),
    {
        let mut out = chars_of(self.type_.as_str());
        push_text(&mut out, "/");
        push_text(&mut out, self.subtype.as_str());
        let ghost lead = self.type_@ + "/"@ + self.subtype@;
        let ghost params = self@.params;
        let mut i: usize = 0;
        assert(out@ =~= lead + params_text(params, 0));
        while i < self.params.len()
            invariant
                i <= self.params@.len(),
                params == pair_views(self.params@),
                out@ == lead + params_text(params, i as int),
            decreases self.params@.len() - i,
        {
            assert(params[i as int] == (self.params@[i as int].0@, self.params@[i as int].1@));
            push_text(&mut out, "; ");
            push_text(&mut out, self.params[i].0.as_str());
            push_text(&mut out, "=");
            push_text(&mut out, self.params[i].1.as_str());
            assert(out@ =~= lead + params_text(params, i + 1));
            i = i + 1;
        }
        string_of(out.as_slice())
    }
}

/// Whether a string is a text.
fn is_str(s: &String, t: &str) -> (r: bool)
    ensures
        r == (s@ == t@),
{
    is_text(chars_of(s.as_str()).as_slice(), t)
}

/// Whether two strings hold one text.
fn same_string(a: &String, b: &String) -> (r: bool)
    ensures
        r == (a@ == b@),
{
    is_str(a, b.as_str())
}

/// Reads the parameters other than `q`.
fn read_other_params(parts: &Vec<&[char]>) -> (r: Vec<(String, String)>)
    ensures
        pair_views(r@) == other_params(texts(parts@), parts@.len() as int),
{
    let mut out: Vec<(String, String)> = Vec::new();
    let ghost all = texts(parts@);
    let mut i: usize = 1;
    assert(pair_views(out@) =~= seq![]);
    while i < parts.len()
        invariant
            1 <= i,
            i <= parts@.len() || i == 1,
            all == texts(parts@),
            pair_views(out@) == other_params(all, i as int),
        decreases parts@.len() - i,
    {
        let part = trim(parts[i]);
        assert(part@ == trimmed(all[i as int]));
        match find_char(part, '=') {
            Some(k) => {
                let end: usize = part.len();
                let key = trim(slice_subrange(part, 0, k));
                let value = trim(slice_subrange(part, k + 1, end));
                assert(part@.subrange(0, k as int) =~= part@.take(k as int));
                assert(part@.subrange(k + 1, part@.len() as int) =~= part@.skip(k + 1));
                if !is_text_nocase(key, "q") {
                    let ghost was = out@;
                    out.push((string_of(key), string_of(value)));
                    assert(pair_views(out@) =~= pair_views(was).push((key@, value@)));
                }
            },
            None => {},
        }
        i = i + 1;
    }
    out
}

fn read_media(s: &[char]) -> (r: Option<MediaType>)
    ensures
        match r {
            Some(m) => media_in(s@) == Some(m@),
            None => media_in(s@) is None,
        },
{
    let parts = split(s, ';');
    proof {
        lemma_split(s@, ';');
    }
    assert(texts(parts@).len() == parts@.len());
    assert(texts(parts@)[0] == parts@[0]@);
    let name = trim(parts[0]);
    let names = split(name, '/');
    assert(texts(names@).len() == names@.len());
    if names.len() != 2 {
        return None;
    }
    assert(texts(names@)[0] == names@[0]@ && texts(names@)[1] == names@[1]@);
    Some(
        MediaType {
            type_: string_of(to_lower(names[0]).as_slice()),
            subtype: string_of(to_lower(names[1]).as_slice()),
            quality: read_element_quality(&parts),
            params: read_other_params(&parts),
        },
    )
}

impl LanguageTag {
    /// Reads a language.
    pub fn parse(s: &str) -> (r: Option<Self>)
        ensures
            match r {
                Some(l) => language_in(s@) == Some(l@),
                None => language_in(s@) is None,
            },
    {
        let chars = chars_of(s);
        read_language(chars.as_slice())
    }

    /// Whether the two tags can mean one language.
    pub fn matches(&self, other: &LanguageTag) -> (r: bool)
        ensures
            r == language_match(self@, other@),
    {
        if is_str(&self.language, "*") || is_str(&other.language, "*") {
            return true;
        }
        if !same_string(&self.language, &other.language) {
            return false;
        }
        match (&self.region, &other.region) {
            (Some(a), Some(b)) => same_string(a, b),
            _ => true,
        }
    }

    /// The language in words, without its quality.
    pub fn to_string(&self) -> (r: String)
        ensures
            r@ == language_text(self@),
    {
        let mut out = chars_of(self.language.as_str());
        match &self.region {
            Some(region) => {
                push_text(&mut out, "-");
                push_text(&mut out, region.as_str());
            },
            None => {},
        }
        string_of(out.as_slice())
    }
}

fn read_language(s: &[char]) -> (r: Option<LanguageTag>)
    ensures
        match r {
            Some(l) => language_in(s@) == Some(l@),
            None => language_in(s@) is None,
        },
{
    let parts = split(s, ';');
    proof {
        lemma_split(s@, ';');
    }
    assert(texts(parts@).len() == parts@.len());
    assert(texts(parts@)[0] == parts@[0]@);
    let name = trim(parts[0]);
    if name.len() == 0 {
        return None;
    }
    let names = split(name, '-');
    proof {
        lemma_split(name@, '-');
    }
    assert(texts(names@).len() == names@.len());
    assert(texts(names@)[0] == names@[0]@);
    let region = if names.len() > 1 {
        assert(texts(names@)[1] == names@[1]@);
        Some(string_of(to_upper(names[1]).as_slice()))
    } else {
        None
    };
    Some(
        LanguageTag {
            language: string_of(to_lower(names[0]).as_slice()),
            region,
            quality: read_element_quality(&parts),
        },
    )
}

impl EncodingPreference {
    /// Reads a coding preference.
    pub fn parse(s: &str) -> (r: Option<Self>)
        ensures
            match r {
                Some(e) => encoding_in(s@) == Some(e@),
                None => encoding_in(s@) is None,
            },
    {
        let chars = chars_of(s);
        read_encoding(chars.as_slice())
    }

    fn specificity(&self) -> (r: u8)
        ensures
            r == encoding_specificity(self@),
            r <= 1,
    {
        if is_str(&self.encoding, "*") {
            0
        } else {
            1
        }
    }
}

fn read_encoding(s: &[char]) -> (r: Option<EncodingPreference>)
    ensures
        match r {
            Some(e) => encoding_in(s@) == Some(e@),
            None => encoding_in(s@) is None,
        },
{
    let parts = split(s, ';');
    proof {
        lemma_split(s@, ';');
    }
    assert(texts(parts@).len() == parts@.len());
    assert(texts(parts@)[0] == parts@[0]@);
    let name = trim(parts[0]);
    if name.len() == 0 {
        return None;
    }
    Some(
        EncodingPreference {
            encoding: string_of(to_lower(name).as_slice()),
            quality: read_element_quality(&parts),
        },
    )
}

/// The media types that the first `n` elements of a list accept at all, as they come.
pub open spec fn media_among(elements: Seq<Seq<char>>, n: int) -> Seq<MediaView>
    decreases n,
{
    if n <= 0 {
        seq![]
    } else {
        match media_in(trimmed(elements[n - 1])) {
            Some(m) => if m.quality > 0 {
                media_among(elements, n - 1).push(m)
            } else {
                media_among(elements, n - 1)
            },
            None => media_among(elements, n - 1),
        }
    }
}

/// What an `Accept` value accepts, best first.
pub open spec fn accepted_media(accept: Seq<char>) -> Seq<MediaView> {
    let elements = split_on(accept, ',');
    ranked(media_among(elements, elements.len() as int))
}

/// The languages that the first `n` elements of a list accept at all, as they come.
pub open spec fn languages_among(elements: Seq<Seq<char>>, n: int) -> Seq<LanguageView>
    decreases n,
{
    if n <= 0 {
        seq![]
    } else {
        match language_in(trimmed(elements[n - 1])) {
            Some(l) => if l.quality > 0 {
                languages_among(elements, n - 1).push(l)
            } else {
                languages_among(elements, n - 1)
            },
            None => languages_among(elements, n - 1),
        }
    }
}

/// What an `Accept-Language` value accepts, best first.
pub open spec fn accepted_languages(accept: Seq<char>) -> Seq<LanguageView> {
    let elements = split_on(accept, ',');
    ranked(languages_among(elements, elements.len() as int))
}

/// The codings that the first `n` elements of a list accept at all, as they come.
pub open spec fn encodings_among(elements: Seq<Seq<char>>, n: int) -> Seq<EncodingView>
    decreases n,
{
    if n <= 0 {
        seq![]
    } else {
        match encoding_in(trimmed(elements[n - 1])) {
            Some(e) => if e.quality > 0 {
                encodings_among(elements, n - 1).push(e)
            } else {
                encodings_among(elements, n - 1)
            },
            None => encodings_among(elements, n - 1),
        }
    }
}

/// What an `Accept-Encoding` value accepts, best first.
pub open spec fn accepted_encodings(accept: Seq<char>) -> Seq<EncodingView> {
    let elements = split_on(accept, ',');
    ranked(encodings_among(elements, elements.len() as int))
}

/// The media types that a server's first `n` offers denote.
pub open spec fn offered_media(offers: Seq<Seq<char>>, n: int) -> Seq<MediaView>
    decreases n,
{
    if n <= 0 {
        seq![]
    } else {
        match media_in(offers[n - 1]) {
            Some(m) => offered_media(offers, n - 1).push(m),
            None => offered_media(offers, n - 1),
        }
    }
}

/// The languages that a server's first `n` offers denote.
pub open spec fn offered_languages(offers: Seq<Seq<char>>, n: int) -> Seq<LanguageView>
    decreases n,
{
    if n <= 0 {
        seq![]
    } else {
        match language_in(offers[n - 1]) {
            Some(l) => offered_languages(offers, n - 1).push(l),
            None => offered_languages(offers, n - 1),
        }
    }
}

/// The first offer from `j` on that suits a wish.
pub open spec fn first_media(wish: MediaView, offers: Seq<MediaView>, j: int) -> Option<MediaView>
    decreases offers.len() - j,
{
    if j < 0 || j >= offers.len() {
        None
    } else if media_match(wish, offers[j]) {
        Some(offers[j])
    } else {
        first_media(wish, offers, j + 1)
    }
}

/// The first offer that suits the first wish from `i` on that any offer suits.
pub open spec fn best_media(wishes: Seq<MediaView>, offers: Seq<MediaView>, i: int) -> Option<MediaView>
    decreases wishes.len() - i,
{
    if i < 0 || i >= wishes.len() {
        None
    } else {
        match first_media(wishes[i], offers, 0) {
            Some(m) => Some(m),
            None => best_media(wishes, offers, i + 1),
        }
    }
}

pub open spec fn first_language(wish: LanguageView, offers: Seq<LanguageView>, j: int) -> Option<
    LanguageView,
>
    decreases offers.len() - j,
{
    if j < 0 || j >= offers.len() {
        None
    } else if language_match(wish, offers[j]) {
        Some(offers[j])
    } else {
        first_language(wish, offers, j + 1)
    }
}

pub open spec fn best_language(wishes: Seq<LanguageView>, offers: Seq<LanguageView>, i: int) -> Option<
    LanguageView,
>
    decreases wishes.len() - i,
{
    if i < 0 || i >= wishes.len() {
        None
    } else {
        match first_language(wishes[i], offers, 0) {
            Some(l) => Some(l),
            None => best_language(wishes, offers, i + 1),
        }
    }
}

/// The media type to send, in words.
pub open spec fn negotiated_media(accept: Seq<char>, available: Seq<Seq<char>>) -> Option<Seq<char>> {
    match best_media(
        accepted_media(accept),
        offered_media(available, available.len() as int),
        0,
    ) {
        Some(m) => Some(media_text(m)),
        None => None,
    }
}

/// The language to send, in words.
pub open spec fn negotiated_language(accept: Seq<char>, available: Seq<Seq<char>>) -> Option<Seq<char>> {
    match best_language(
        accepted_languages(accept),
        offered_languages(available, available.len() as int),
        0,
    ) {
        Some(l) => Some(language_text(l)),
        None => None,
    }
}

pub open spec fn all_lowered(v: Seq<Seq<char>>) -> Seq<Seq<char>> {
    v.map_values(|s: Seq<char>| lowered(s))
}

/// The first coding from `j` on that changes the payload; the identity where there is none.
pub open spec fn first_changing(offers: Seq<Seq<char>>, j: int) -> Seq<char>
    decreases offers.len() - j,
{
    if j < 0 || j >= offers.len() {
        "identity"@
    } else if offers[j] != "identity"@ {
        offers[j]
    } else {
        first_changing(offers, j + 1)
    }
}

/// The coding that the wishes from `i` on lead to.
pub open spec fn best_encoding(wishes: Seq<EncodingView>, offers: Seq<Seq<char>>, i: int) -> Option<
    Seq<char>,
>
    decreases wishes.len() - i,
{
    if i < 0 || i >= wishes.len() {
        if offers.contains("identity"@) {
            Some("identity"@)
        } else {
            None
        }
    } else if wishes[i].encoding == "*"@ {
        Some(first_changing(offers, 0))
    } else if offers.contains(wishes[i].encoding) {
        Some(wishes[i].encoding)
    } else {
        best_encoding(wishes, offers, i + 1)
    }
}

/// The coding to send.
pub open spec fn negotiated_encoding(accept: Seq<char>, available: Seq<Seq<char>>) -> Option<Seq<char>> {
    if accepted_encodings(accept).len() == 0 {
        Some("identity"@)
    } else {
        best_encoding(accepted_encodings(accept), all_lowered(available), 0)
    }
}

/// Chooses among a server's offers by what a client accepts.
pub struct ContentNegotiator;

impl ContentNegotiator {
    /// Reads an `Accept` value, best first.
    pub fn parse_accept(accept: &str) -> (r: Vec<MediaType>)
        ensures
            views(r@) == accepted_media(accept@),
    {
        let chars = chars_of(accept);
        let elements = split(chars.as_slice(), ',');
        let ghost all = texts(elements@);
        let mut out: Vec<MediaType> = Vec::new();
        let mut i: usize = 0;
        assert(views(out@) =~= ranked(media_among(all, 0)));
        while i < elements.len()
            invariant
                i <= elements@.len(),
                all == texts(elements@),
                views(out@) == ranked(media_among(all, i as int)),
            decreases elements@.len() - i,
        {
            assert(all[i as int] == elements@[i as int]@);
            match read_media(trim(elements[i])) {
                Some(m) => {
                    if m.quality > 0 {
                        proof {
                            lemma_placed_views(out@, m);
                            assert(media_among(all, i as int).push(m@).drop_last() =~= media_among(
                                all,
                                i as int,
                            ));
                        }
                        place(&mut out, m);
                    }
                },
                None => {},
            }
            i = i + 1;
        }
        out
    }

    /// Reads an `Accept-Language` value, best first.
    pub fn parse_accept_language(accept_language: &str) -> (r: Vec<LanguageTag>)
        ensures
            views(r@) == accepted_languages(accept_language@),
    {
        let chars = chars_of(accept_language);
        let elements = split(chars.as_slice(), ',');
        let ghost all = texts(elements@);
        let mut out: Vec<LanguageTag> = Vec::new();
        let mut i: usize = 0;
        assert(views(out@) =~= ranked(languages_among(all, 0)));
        while i < elements.len()
            invariant
                i <= elements@.len(),
                all == texts(elements@),
                views(out@) == ranked(languages_among(all, i as int)),
            decreases elements@.len() - i,
        {
            assert(all[i as int] == elements@[i as int]@);
            match read_language(trim(elements[i])) {
                Some(l) => {
                    if l.quality > 0 {
                        proof {
                            lemma_placed_views(out@, l);
                            assert(languages_among(all, i as int).push(l@).drop_last()
                                =~= languages_among(all, i as int));
                        }
                        place(&mut out, l);
                    }
                },
                None => {},
            }
            i = i + 1;
        }
        out
    }

    /// Reads an `Accept-Encoding` value, best first.
    pub fn parse_accept_encoding(accept_encoding: &str) -> (r: Vec<EncodingPreference>)
        ensures
            views(r@) == accepted_encodings(accept_encoding@),
    {
        let chars = chars_of(accept_encoding);
        let elements = split(chars.as_slice(), ',');
        let ghost all = texts(elements@);
        let mut out: Vec<EncodingPreference> = Vec::new();
        let mut i: usize = 0;
        assert(views(out@) =~= ranked(encodings_among(all, 0)));
        while i < elements.len()
            invariant
                i <= elements@.len(),
                all == texts(elements@),
                views(out@) == ranked(encodings_among(all, i as int)),
            decreases elements@.len() - i,
        {
            assert(all[i as int] == elements@[i as int]@);
            match read_encoding(trim(elements[i])) {
                Some(e) => {
                    if e.quality > 0 {
                        proof {
                            lemma_placed_views(out@, e);
                            assert(encodings_among(all, i as int).push(e@).drop_last()
                                =~= encodings_among(all, i as int));
                        }
                        place(&mut out, e);
                    }
                },
                None => {},
            }
            i = i + 1;
        }
        out
    }

    /// Chooses a media type: the first offer that suits the best wish that any offer suits.
    pub fn negotiate_media_type(accept: &str, available: &[&str]) -> (r: Option<String>)
        ensures
            opt_text(r) == negotiated_media(accept@, strs(available@)),
    {
        let wishes = Self::parse_accept(accept);
        let ghost all = strs(available@);
        let mut offers: Vec<MediaType> = Vec::new();
        let mut k: usize = 0;
        assert(views(offers@) =~= offered_media(all, 0));
        while k < available.len()
            invariant
                k <= available@.len(),
                all == strs(available@),
                views(offers@) == offered_media(all, k as int),
            decreases available@.len() - k,
        {
            assert(all[k as int] == available@[k as int]@);
            match MediaType::parse(available[k]) {
                Some(m) => {
                    let ghost was = offers@;
                    offers.push(m);
                    assert(views(offers@) =~= views(was).push(m@));
                },
                None => {},
            }
            k = k + 1;
        }
        let ghost w = views(wishes@);
        let ghost o = views(offers@);
        let mut i: usize = 0;
        while i < wishes.len()
            invariant
                i <= wishes@.len(),
                w == views(wishes@),
                o == views(offers@),
                best_media(w, o, i as int) == best_media(w, o, 0),
                w == accepted_media(accept@),
                o == offered_media(strs(available@), available@.len() as int),
            decreases wishes@.len() - i,
        {
            assert(w[i as int] == wishes@[i as int]@);
            let mut j: usize = 0;
            while j < offers.len()
                invariant
                    i < wishes@.len(),
                    j <= offers@.len(),
                    w == views(wishes@),
                    w[i as int] == wishes@[i as int]@,
                    o == views(offers@),
                    best_media(w, o, i as int) == best_media(w, o, 0),
                    first_media(w[i as int], o, j as int) == first_media(w[i as int], o, 0),
                    w == accepted_media(accept@),
                    o == offered_media(strs(available@), available@.len() as int),
                decreases offers@.len() - j,
            {
                assert(o[j as int] == offers@[j as int]@);
                if wishes[i].matches(&offers[j]) {
                    return Some(offers[j].to_string());
                }
                j = j + 1;
            }
            i = i + 1;
        }
        None
    }

    /// Chooses a language: the first offer that suits the best wish that any offer suits.
    pub fn negotiate_language(accept_language: &str, available: &[&str]) -> (r: Option<String>)
        ensures
            opt_text(r) == negotiated_language(accept_language@, strs(available@)),
    {
        let wishes = Self::parse_accept_language(accept_language);
        let ghost all = strs(available@);
        let mut offers: Vec<LanguageTag> = Vec::new();
        let mut k: usize = 0;
        assert(views(offers@) =~= offered_languages(all, 0));
        while k < available.len()
            invariant
                k <= available@.len(),
                all == strs(available@),
                views(offers@) == offered_languages(all, k as int),
            decreases available@.len() - k,
        {
            assert(all[k as int] == available@[k as int]@);
            match LanguageTag::parse(available[k]) {
                Some(l) => {
                    let ghost was = offers@;
                    offers.push(l);
                    assert(views(offers@) =~= views(was).push(l@));
                },
                None => {},
            }
            k = k + 1;
        }
        let ghost w = views(wishes@);
        let ghost o = views(offers@);
        let mut i: usize = 0;
        while i < wishes.len()
            invariant
                i <= wishes@.len(),
                w == views(wishes@),
                o == views(offers@),
                best_language(w, o, i as int) == best_language(w, o, 0),
                w == accepted_languages(accept_language@),
                o == offered_languages(strs(available@), available@.len() as int),
            decreases wishes@.len() - i,
        {
            assert(w[i as int] == wishes@[i as int]@);
            let mut j: usize = 0;
            while j < offers.len()
                invariant
                    i < wishes@.len(),
                    j <= offers@.len(),
                    w == views(wishes@),
                    w[i as int] == wishes@[i as int]@,
                    o == views(offers@),
                    best_language(w, o, i as int) == best_language(w, o, 0),
                    first_language(w[i as int], o, j as int) == first_language(w[i as int], o, 0),
                    w == accepted_languages(accept_language@),
                    o == offered_languages(strs(available@), available@.len() as int),
                decreases offers@.len() - j,
            {
                assert(o[j as int] == offers@[j as int]@);
                if wishes[i].matches(&offers[j]) {
                    return Some(offers[j].to_string());
                }
                j = j + 1;
            }
            i = i + 1;
        }
        None
    }

    /// Chooses a content coding. Without any wish, or where nothing suits and it is offered, that
    /// is the identity; a wish for any coding gets the first offer that changes the payload.
    pub fn negotiate_encoding(accept_encoding: &str, available: &[&str]) -> (r: Option<String>)
        ensures
            opt_text(r) == negotiated_encoding(accept_encoding@, strs(available@)),
    {
        let wishes = Self::parse_accept_encoding(accept_encoding);
        let ghost w = views(wishes@);
        if wishes.len() == 0 {
            return Some("identity".to_owned());
        }
        let offers = lower_all(available);
        let ghost o = all_lowered(strs(available@));
        let mut i: usize = 0;
        while i < wishes.len()
            invariant
                i <= wishes@.len(),
                wishes@.len() > 0,
                w == views(wishes@),
                w == accepted_encodings(accept_encoding@),
                o == all_lowered(strs(available@)),
                o == char_texts(offers@),
                best_encoding(w, o, i as int) == best_encoding(w, o, 0),
            decreases wishes@.len() - i,
        {
            assert(w[i as int] == wishes@[i as int]@);
            if is_str(&wishes[i].encoding, "*") {
                return Some(find_changing(&offers));
            }
            if holds(&offers, wishes[i].encoding.as_str()) {
                return Some(string_of(chars_of(wishes[i].encoding.as_str()).as_slice()));
            }
            i = i + 1;
        }
        if holds(&offers, "identity") {
            return Some("identity".to_owned());
        }
        None
    }
}

fn lower_all(available: &[&str]) -> (r: Vec<Vec<char>>)
    ensures
        char_texts(r@) == all_lowered(strs(available@)),
{
    let mut out: Vec<Vec<char>> = Vec::new();
    let mut i: usize = 0;
    while i < available.len()
        invariant
            i <= available@.len(),
            out@.len() == i,
            forall|k: int| 0 <= k < i ==> (#[trigger] out@[k])@ == lowered(available@[k]@),
        decreases available@.len() - i,
    {
        let name = chars_of(available[i]);
        out.push(to_lower(name.as_slice()));
        i = i + 1;
    }
    assert(char_texts(out@) =~= all_lowered(strs(available@)));
    out
}

fn holds(offers: &Vec<Vec<char>>, name: &str) -> (r: bool)
    ensures
        r == char_texts(offers@).contains(name@),
{
    let mut i: usize = 0;
    while i < offers.len()
        invariant
            i <= offers@.len(),
            forall|k: int| 0 <= k < i ==> (#[trigger] char_texts(offers@)[k]) != name@,
        decreases offers@.len() - i,
    {
        assert(char_texts(offers@)[i as int] == offers@[i as int]@);
        if is_text(offers[i].as_slice(), name) {
            return true;
        }
        i = i + 1;
    }
    false
}

fn find_changing(offers: &Vec<Vec<char>>) -> (r: String)
    ensures
        r@ == first_changing(char_texts(offers@), 0),
{
    let ghost all = char_texts(offers@);
    let mut i: usize = 0;
    while i < offers.len()
        invariant
            i <= offers@.len(),
            all == char_texts(offers@),
            first_changing(all, i as int) == first_changing(all, 0),
        decreases offers@.len() - i,
    {
        assert(all[i as int] == offers@[i as int]@);
        if !is_text(offers[i].as_slice(), "identity") {
            return string_of(offers[i].as_slice());
        }
        i = i + 1;
    }
    "identity".to_owned()
}

/// What a client says it accepts.
#[derive(Debug, Clone, PartialEq, Eq)]
pub struct ContentNegotiationProfile {
    pub accept: Option<String>,
    pub accept_language: Option<String>,
    pub accept_encoding: Option<String>,
}

#[verifier::ext_equal]
pub struct ProfileView {
    pub accept: Option<Seq<char>>,
    pub accept_language: Option<Seq<char>>,
    pub accept_encoding: Option<Seq<char>>,
}

impl View for ContentNegotiationProfile {
    type V = ProfileView;

    open spec fn view(&self) -> ProfileView {
        ProfileView {
            accept: opt_text(self.accept),
            accept_language: opt_text(self.accept_language),
            accept_encoding: opt_text(self.accept_encoding),
        }
    }
}

pub open spec fn empty_profile() -> ProfileView {
    ProfileView { accept: None, accept_language: None, accept_encoding: None }
}

impl Default for ContentNegotiationProfile {
    fn default() -> (r: Self)
        ensures
            r@ == empty_profile(),
    {
        ContentNegotiationProfile { accept: None, accept_language: None, accept_encoding: None }
    }
}

/// Whether the identity is offered, in any case of letters.
pub open spec fn offers_identity(available: Seq<Seq<char>>) -> bool {
    exists|i: int| 0 <= i < available.len() && same_nocase(#[trigger] available[i], "identity"@)
}

/// The coding that a profile leads to.
pub open spec fn profile_encoding(p: ProfileView, available: Seq<Seq<char>>) -> Option<Seq<char>> {
    let wished = match p.accept_encoding {
        Some(a) => negotiated_encoding(a, available),
        None => None,
    };
    if wished is None && offers_identity(available) {
        Some("identity"@)
    } else {
        wished
    }
}

fn own(o: Option<&str>) -> (r: Option<String>)
    ensures
        opt_text(r) == opt_str(o),
{
    match o {
        Some(s) => Some(s.to_owned()),
        None => None,
    }
}

impl ContentNegotiationProfile {
    /// The profile of a client that says nothing.
    pub fn new() -> (r: Self)
        ensures
            r@ == empty_profile(),
    {
        Self::default()
    }

    /// The profile that header fields give.
    pub fn from_headers(
        accept: Option<&str>,
        accept_language: Option<&str>,
        accept_encoding: Option<&str>,
    ) -> (r: Self)
        ensures
            r@ == (ProfileView {
                accept: opt_str(accept),
                accept_language: opt_str(accept_language),
                accept_encoding: opt_str(accept_encoding),
            }),
    {
        ContentNegotiationProfile {
            accept: own(accept),
            accept_language: own(accept_language),
            accept_encoding: own(accept_encoding),
        }
    }

    /// Chooses a media type; none where the profile says nothing of them.
    pub fn negotiate_media_type(&self, available: &[&str]) -> (r: Option<String>)
        ensures
            opt_text(r) == (match self@.accept {
                Some(a) => negotiated_media(a, strs(available@)),
                None => None,
            }),
    {
        match &self.accept {
            Some(accept) => ContentNegotiator::negotiate_media_type(accept.as_str(), available),
            None => None,
        }
    }

    /// Chooses a language; none where the profile says nothing of them.
    pub fn negotiate_language(&self, available: &[&str]) -> (r: Option<String>)
        ensures
            opt_text(r) == (match self@.accept_language {
                Some(a) => negotiated_language(a, strs(available@)),
                None => None,
            }),
    {
        match &self.accept_language {
            Some(accept) => ContentNegotiator::negotiate_language(accept.as_str(), available),
            None => None,
        }
    }

    /// Chooses a content coding; the identity, if it is offered, where the profile leads to none.
    pub fn negotiate_encoding(&self, available: &[&str]) -> (r: Option<String>)
        ensures
            opt_text(r) == profile_encoding(self@, strs(available@)),
    {
        let wished = match &self.accept_encoding {
            Some(accept) => ContentNegotiator::negotiate_encoding(accept.as_str(), available),
            None => None,
        };
        if wished.is_some() {
            return wished;
        }
        let ghost all = strs(available@);
        let mut i: usize = 0;
        while i < available.len()
            invariant
                i <= available@.len(),
                all == strs(available@),
                self@.accept_encoding matches Some(a) ==> negotiated_encoding(a, all) is None,
                forall|k: int| 0 <= k < i ==> !same_nocase(#[trigger] all[k], "identity"@),
            decreases available@.len() - i,
        {
            assert(all[i as int] == available@[i as int]@);
            let name = chars_of(available[i]);
            if is_text_nocase(name.as_slice(), "identity") {
                return Some("identity".to_owned());
            }
            i = i + 1;
        }
        None
    }
}

/// The line of a field that is there.
pub open spec fn field_line(key: Seq<char>, value: Option<Seq<char>>) -> Seq<Seq<char>> {
    match value {
        Some(v) => seq![key + armour(v)],
        None => seq![],
    }
}

/// The lines of a profile.
pub open spec fn profile_lines(p: ProfileView) -> Seq<Seq<char>> {
    field_line("accept="@, p.accept) + field_line("accept-language="@, p.accept_language)
        + field_line("accept-encoding="@, p.accept_encoding)
}

/// A profile in serialized form.
pub open spec fn profile_serialized(p: ProfileView) -> Seq<u8> {
    encode_utf8(joined(profile_lines(p), "\n"@))
}

fn push_field_line(rows: &mut Vec<Vec<char>>, key: &str, value: &Option<String>)
    ensures
        char_texts(final(rows)@) == char_texts(old(rows)@) + field_line(key@, opt_text(*value)),
{
    match value {
        Some(v) => {
            let mut line = chars_of(key);
            push_chars(&mut line, armour_text(v.as_str()).as_slice());
            let ghost was = rows@;
            rows.push(line);
            assert(char_texts(rows@) =~= char_texts(was) + seq![line@]);
        },
        None => {
            assert(char_texts(rows@) =~= char_texts(rows@) + seq![]);
        },
    }
}

/// Writes a profile as lines `key=Base64`.
pub fn serialize_content_negotiation_profile(profile: &ContentNegotiationProfile) -> (r: Vec<u8>)
    ensures
        r@ == profile_serialized(profile@),
{
    let mut rows: Vec<Vec<char>> = Vec::new();
    assert(char_texts(rows@) =~= seq![]);
    push_field_line(&mut rows, "accept=", &profile.accept);
    push_field_line(&mut rows, "accept-language=", &profile.accept_language);
    push_field_line(&mut rows, "accept-encoding=", &profile.accept_encoding);
    assert(char_texts(rows@) =~= profile_lines(profile@));
    let text = string_of(join(&rows, "\n").as_slice());
    vstd::slice::slice_to_vec(text.as_str().as_bytes())
}

/// A profile after a line; `None` where the line cannot be read.
pub open spec fn with_field_line(p: ProfileView, line: Seq<char>) -> Option<ProfileView> {
    if trimmed(line).len() == 0 {
        Some(p)
    } else {
        match pair_of(trimmed(line)) {
            None => None,
            Some((key, value)) => match unarmoured(value) {
                None => None,
                Some(t) => Some(
                    if key == "accept"@ {
                        ProfileView { accept: Some(t), ..p }
                    } else if key == "accept-language"@ {
                        ProfileView { accept_language: Some(t), ..p }
                    } else if key == "accept-encoding"@ {
                        ProfileView { accept_encoding: Some(t), ..p }
                    } else {
                        p
                    },
                ),
            },
        }
    }
}

/// The profile that the first `n` lines give.
pub open spec fn profile_among(lines: Seq<Seq<char>>, n: int) -> Option<ProfileView>
    decreases n,
{
    if n <= 0 {
        Some(empty_profile())
    } else {
        match profile_among(lines, n - 1) {
            Some(p) => with_field_line(p, lines[n - 1]),
            None => None,
        }
    }
}

/// The profile that a payload holds.
pub open spec fn profile_deserialized(raw: Seq<u8>) -> Option<ProfileView> {
    if valid_utf8(raw) {
        let l = lines_of(decode_utf8(raw));
        profile_among(l, l.len() as int)
    } else {
        None
    }
}

proof fn lemma_none_stays(lines: Seq<Seq<char>>, i: int, n: int)
    requires
        0 <= i <= n,
        profile_among(lines, i) is None,
    ensures
        profile_among(lines, n) is None,
    decreases n,
{
    if i < n {
        lemma_none_stays(lines, i, n - 1);
    }
}

/// Reads a profile from the lines that `serialize_content_negotiation_profile` writes.
pub fn deserialize_content_negotiation_profile(raw_payload: &[u8]) -> (r: Option<
    ContentNegotiationProfile,
>)
    ensures
        match r {
            Some(p) => profile_deserialized(raw_payload@) == Some(p@),
            None => profile_deserialized(raw_payload@) is None,
        },
{
    let text = utf8_text(raw_payload)?;
    let chars = chars_of(text.as_str());
    let rows = lines(chars.as_slice());
    let ghost all = texts(rows@);
    let mut profile = ContentNegotiationProfile::new();
    let mut i: usize = 0;
    while i < rows.len()
        invariant
            i <= rows@.len(),
            all == texts(rows@),
            all == lines_of(decode_utf8(raw_payload@)),
            valid_utf8(raw_payload@),
            profile_among(all, i as int) == Some(profile@),
        decreases rows@.len() - i,
    {
        let line = trim(rows[i]);
        assert(line@ == trimmed(all[i as int]));
        if line.len() > 0 {
            let value = match find_char(line, '=') {
                Some(k) => {
                    let end: usize = line.len();
                    let key = trim(slice_subrange(line, 0, k));
                    let value = trim(slice_subrange(line, k + 1, end));
                    assert(line@.subrange(0, k as int) =~= line@.take(k as int));
                    assert(line@.subrange(k + 1, line@.len() as int) =~= line@.skip(k + 1));
                    match read_armour(value) {
                        Some(t) => {
                            if is_text(key, "accept") {
                                profile.accept = Some(t);
                            } else if is_text(key, "accept-language") {
                                profile.accept_language = Some(t);
                            } else if is_text(key, "accept-encoding") {
                                profile.accept_encoding = Some(t);
                            }
                            true
                        },
                        None => false,
                    }
                },
                None => false,
            };
            if !value {
                proof {
                    lemma_none_stays(all, i + 1, all.len() as int);
                }
                return None;
            }
        }
        i = i + 1;
    }
    Some(profile)
}

/// Chooses the coding for a profile blob from an `Accept-Encoding` value.
pub fn select_secure_content_negotiation_algorithm(accept_encoding: &str) -> (r:
    CompressionAlgorithm)
    ensures
        r == selected(accept_encoding@, true),
{
    select_any(accept_encoding)
}

/// Seals a profile. `coded` is what the codec of `algorithm` made of the serialized profile, `None`
/// where the codec failed; it is not looked at under the identity.
pub fn encode_secure_content_negotiation_profile(
    profile: &ContentNegotiationProfile,
    algorithm: CompressionAlgorithm,
    coded: Option<&[u8]>,
    nonce: &[u8],
    issued_at_unix: u64,
) -> (r: Result<(SecureContentNegotiationBlobMeta, Vec<u8>), EnvelopeError>)
    ensures
        contents(r) == sealed(
            BlobKind::Negotiation,
            profile_serialized(profile@),
            algorithm,
            opt_bytes(coded),
            nonce@,
            issued_at_unix as nat,
        ),
{
    let raw = serialize_content_negotiation_profile(profile);
    seal(BlobKind::Negotiation, raw.as_slice(), algorithm, coded, nonce, issued_at_unix)
}

/// Seals a profile in the coding chosen from an `Accept-Encoding` value.
pub fn encode_secure_content_negotiation_profile_auto(
    profile: &ContentNegotiationProfile,
    accept_encoding: &str,
    coded: Option<&[u8]>,
    nonce: &[u8],
    issued_at_unix: u64,
) -> (r: Result<(SecureContentNegotiationBlobMeta, Vec<u8>), EnvelopeError>)
    ensures
        contents(r) == sealed(
            BlobKind::Negotiation,
            profile_serialized(profile@),
            selected(accept_encoding@, true),
            opt_bytes(coded),
            nonce@,
            issued_at_unix as nat,
        ),
{
    let algorithm = select_secure_content_negotiation_algorithm(accept_encoding);
    encode_secure_content_negotiation_profile(profile, algorithm, coded, nonce, issued_at_unix)
}

/// What a profile blob holds.
pub open spec fn profile_unsealed(data: Seq<u8>, plain: Option<Seq<u8>>) -> Result<
    (MetaView, ProfileView),
    EnvelopeError,
> {
    carried(
        unsealed(BlobKind::Negotiation, data, plain),
        |raw: Seq<u8>| profile_deserialized(raw),
    )
}

pub open spec fn opened_profile(
    r: Result<(SecureContentNegotiationBlobMeta, ContentNegotiationProfile), EnvelopeError>,
) -> Result<(MetaView, ProfileView), EnvelopeError> {
    match r {
        Ok((meta, p)) => Ok((meta@, p@)),
        Err(e) => Err(e),
    }
}

/// Opens a profile blob. `plain` is what the codec made of the payload as sent, `None` where the
/// codec failed; it is not looked at under the identity.
pub fn decode_secure_content_negotiation_profile(data: &[u8], plain: Option<&[u8]>) -> (r: Result<
    (SecureContentNegotiationBlobMeta, ContentNegotiationProfile),
    EnvelopeError,
>)
    ensures
        opened_profile(r) == profile_unsealed(data@, opt_bytes(plain)),
{
    match unseal(BlobKind::Negotiation, data, plain) {
        Ok((meta, raw)) => match deserialize_content_negotiation_profile(raw.as_slice()) {
            Some(p) => Ok((meta, p)),
            None => Err(EnvelopeError::BadPayload),
        },
        Err(e) => Err(e),
    }
}

impl ContentNegotiationProfile {
    /// Seals the profile.
    pub fn to_secure_blob(
        &self,
        algorithm: CompressionAlgorithm,
        coded: Option<&[u8]>,
        nonce: &[u8],
        issued_at_unix: u64,
    ) -> (r: Result<(SecureContentNegotiationBlobMeta, Vec<u8>), EnvelopeError>)
        ensures
            contents(r) == sealed(
                BlobKind::Negotiation,
                profile_serialized(self@),
                algorithm,
                opt_bytes(coded),
                nonce@,
                issued_at_unix as nat,
            ),
    {
        encode_secure_content_negotiation_profile(self, algorithm, coded, nonce, issued_at_unix)
    }

    /// Seals the profile in the coding chosen from an `Accept-Encoding` value.
    pub fn to_secure_blob_auto(
        &self,
        accept_encoding: &str,
        coded: Option<&[u8]>,
        nonce: &[u8],
        issued_at_unix: u64,
    ) -> (r: Result<(SecureContentNegotiationBlobMeta, Vec<u8>), EnvelopeError>)
        ensures
            contents(r) == sealed(
                BlobKind::Negotiation,
                profile_serialized(self@),
                selected(accept_encoding@, true),
                opt_bytes(coded),
                nonce@,
                issued_at_unix as nat,
            ),
    {
        encode_secure_content_negotiation_profile_auto(
            self,
            accept_encoding,
            coded,
            nonce,
            issued_at_unix,
        )
    }

    /// Opens a profile blob.
    pub fn from_secure_blob(data: &[u8], plain: Option<&[u8]>) -> (r: Result<
        (SecureContentNegotiationBlobMeta, Self),
        EnvelopeError,
    >)
        ensures
            opened_profile(r) == profile_unsealed(data@, opt_bytes(plain)),
    {
        decode_secure_content_negotiation_profile(data, plain)
    }
}

proof fn lemma_field_line(key: Seq<char>, name: Seq<char>, t: Seq<char>)
    requires
        tidy(name),
        name.len() > 0,
        lacks(name, '='),
        key == name + seq!['='],
    ensures
        is_line(key + armour(t)),
        trimmed(key + armour(t)) == key + armour(t),
        (key + armour(t)).len() > 0,
        pair_of(key + armour(t)) == Some((name, armour(t))),
        unarmoured(armour(t)) == Some(t),
{
    let line = key + armour(t);
    law_armour_roundtrip(t);
    assert(tidy(seq!['=']));
    lemma_tidy_concat(name, seq!['=']);
    lemma_tidy_concat(key, armour(t));
    lemma_tidy_line(line);
    lemma_trimmed_solid(line);
    lemma_pair(line, name, armour(t));
}

/// A profile that was serialized is read back.
pub proof fn law_profile_roundtrip(p: ProfileView)
    ensures
        profile_deserialized(profile_serialized(p)) == Some(p),
{
    let l = profile_lines(p);
    reveal_strlit("accept=");
    reveal_strlit("accept-language=");
    reveal_strlit("accept-encoding=");
    reveal_strlit("accept");
    reveal_strlit("accept-language");
    reveal_strlit("accept-encoding");
    assert("accept="@ =~= "accept"@ + seq!['=']);
    assert("accept-language="@ =~= "accept-language"@ + seq!['=']);
    assert("accept-encoding="@ =~= "accept-encoding"@ + seq!['=']);
    assert("accept"@.len() == 6 && "accept-language"@.len() == 15 && "accept-encoding"@.len() == 15);
    assert("accept-language"@[7] == 'l' && "accept-encoding"@[7] == 'e');
    if p.accept is Some {
        lemma_field_line("accept="@, "accept"@, p.accept->0);
    }
    if p.accept_language is Some {
        lemma_field_line("accept-language="@, "accept-language"@, p.accept_language->0);
    }
    if p.accept_encoding is Some {
        lemma_field_line("accept-encoding="@, "accept-encoding"@, p.accept_encoding->0);
    }
    reveal_strlit("\n");
    assert("\n"@ =~= seq!['\n']);
    if l.len() > 0 {
        lemma_lines_joined(l);
    }
    encode_utf8_valid_utf8(joined(l, "\n"@));
    encode_utf8_decode_utf8(joined(l, "\n"@));
    reveal_with_fuel(profile_among, 4);
    assert(l.len() <= 3);
}

/// A profile that was sealed is opened again, where the codec gives back what it was given.
pub proof fn law_profile_blob_roundtrip(
    p: ProfileView,
    algorithm: CompressionAlgorithm,
    coded: Option<Seq<u8>>,
    nonce: Seq<u8>,
    issued_at: nat,
)
    requires
        profile_serialized(p).len() <= usize::MAX,
        coded matches Some(c) ==> c.len() <= usize::MAX,
        issued_at <= u64::MAX,
    ensures
        sealed(
            BlobKind::Negotiation,
            profile_serialized(p),
            algorithm,
            coded,
            nonce,
            issued_at,
        ) matches Ok((meta, data)) ==> profile_unsealed(data, Some(profile_serialized(p))) == Ok::<
            (MetaView, ProfileView),
            EnvelopeError,
        >((meta, p)),
{
    law_profile_roundtrip(p);
    law_blob_roundtrip(BlobKind::Negotiation, profile_serialized(p), algorithm, coded, nonce, issued_at);
}

proof fn lemma_first_media(wish: MediaView, offers: Seq<MediaView>, j: int)
    requires
        0 <= j,
    ensures
        first_media(wish, offers, j) matches Some(m) ==> media_match(wish, m) && offers.contains(m),
        first_media(wish, offers, j) is None ==> forall|k: int|
            j <= k < offers.len() ==> !media_match(wish, #[trigger] offers[k]),
    decreases offers.len() - j,
{
    if j < offers.len() {
        lemma_first_media(wish, offers, j + 1);
    }
}

proof fn lemma_best_media(wishes: Seq<MediaView>, offers: Seq<MediaView>, i: int)
    requires
        0 <= i,
    ensures
        best_media(wishes, offers, i) matches Some(m) ==> offers.contains(m) && exists|k: int|
            i <= k < wishes.len() && media_match(#[trigger] wishes[k], m) && forall|h: int, j: int|
                i <= h < k && 0 <= j < offers.len() ==> !media_match(
                    #[trigger] wishes[h],
                    #[trigger] offers[j],
                ),
        best_media(wishes, offers, i) is None ==> forall|k: int, j: int|
            i <= k < wishes.len() && 0 <= j < offers.len() ==> !media_match(
                #[trigger] wishes[k],
                #[trigger] offers[j],
            ),
    decreases wishes.len() - i,
{
    if i < wishes.len() {
        lemma_first_media(wishes[i], offers, 0);
        lemma_best_media(wishes, offers, i + 1);
        if first_media(wishes[i], offers, 0) is Some {
            assert(media_match(wishes[i], best_media(wishes, offers, i)->0));
        } else if best_media(wishes, offers, i) is Some {
            let m = best_media(wishes, offers, i)->0;
            let k = choose|k: int|
                i + 1 <= k < wishes.len() && media_match(#[trigger] wishes[k], m) && forall|
                    h: int,
                    j: int,
                |
                    i + 1 <= h < k && 0 <= j < offers.len() ==> !media_match(
                        #[trigger] wishes[h],
                        #[trigger] offers[j],
                    );
            assert(media_match(wishes[k], m));
        }
    }
}

/// A media type that is chosen is an offer that suits a wish, and no offer suits a better wish; none
/// is chosen only where no offer suits any wish.
pub proof fn law_negotiated_media_suits(accept: Seq<char>, available: Seq<Seq<char>>)
    ensures
        ({
            let wishes = accepted_media(accept);
            let offers = offered_media(available, available.len() as int);
            match best_media(wishes, offers, 0) {
                Some(m) => negotiated_media(accept, available) == Some(media_text(m))
                    && offers.contains(m) && exists|k: int|
                    0 <= k < wishes.len() && media_match(#[trigger] wishes[k], m) && forall|
                        h: int,
                        j: int,
                    |
                        0 <= h < k && 0 <= j < offers.len() ==> !media_match(
                            #[trigger] wishes[h],
                            #[trigger] offers[j],
                        ),
                None => negotiated_media(accept, available) is None && forall|k: int, j: int|
                    0 <= k < wishes.len() && 0 <= j < offers.len() ==> !media_match(
                        #[trigger] wishes[k],
                        #[trigger] offers[j],
                    ),
            }
        }),
{
    lemma_best_media(accepted_media(accept), offered_media(available, available.len() as int), 0);
}

proof fn lemma_first_language(wish: LanguageView, offers: Seq<LanguageView>, j: int)
    requires
        0 <= j,
    ensures
        first_language(wish, offers, j) matches Some(m) ==> language_match(wish, m) && offers.contains(m),
        first_language(wish, offers, j) is None ==> forall|k: int|
            j <= k < offers.len() ==> !language_match(wish, #[trigger] offers[k]),
    decreases offers.len() - j,
{
    if j < offers.len() {
        lemma_first_language(wish, offers, j + 1);
    }
}

proof fn lemma_best_language(wishes: Seq<LanguageView>, offers: Seq<LanguageView>, i: int)
    requires
        0 <= i,
    ensures
        best_language(wishes, offers, i) matches Some(m) ==> offers.contains(m) && exists|k: int|
            i <= k < wishes.len() && language_match(#[trigger] wishes[k], m) && forall|h: int, j: int|
                i <= h < k && 0 <= j < offers.len() ==> !language_match(
                    #[trigger] wishes[h],
                    #[trigger] offers[j],
                ),
        best_language(wishes, offers, i) is None ==> forall|k: int, j: int|
            i <= k < wishes.len() && 0 <= j < offers.len() ==> !language_match(
                #[trigger] wishes[k],
                #[trigger] offers[j],
            ),
    decreases wishes.len() - i,
{
    if i < wishes.len() {
        lemma_first_language(wishes[i], offers, 0);
        lemma_best_language(wishes, offers, i + 1);
        if first_language(wishes[i], offers, 0) is Some {
            assert(language_match(wishes[i], best_language(wishes, offers, i)->0));
        } else if best_language(wishes, offers, i) is Some {
            let m = best_language(wishes, offers, i)->0;
            let k = choose|k: int|
                i + 1 <= k < wishes.len() && language_match(#[trigger] wishes[k], m) && forall|
                    h: int,
                    j: int,
                |
                    i + 1 <= h < k && 0 <= j < offers.len() ==> !language_match(
                        #[trigger] wishes[h],
                        #[trigger] offers[j],
                    );
            assert(language_match(wishes[k], m));
        }
    }
}

/// A language that is chosen is an offer that suits a wish, and no offer suits a better wish; none
/// is chosen only where no offer suits any wish.
pub proof fn law_negotiated_language_suits(accept: Seq<char>, available: Seq<Seq<char>>)
    ensures
        ({
            let wishes = accepted_languages(accept);
            let offers = offered_languages(available, available.len() as int);
            match best_language(wishes, offers, 0) {
                Some(m) => negotiated_language(accept, available) == Some(language_text(m))
                    && offers.contains(m) && exists|k: int|
                    0 <= k < wishes.len() && language_match(#[trigger] wishes[k], m) && forall|
                        h: int,
                        j: int,
                    |
                        0 <= h < k && 0 <= j < offers.len() ==> !language_match(
                            #[trigger] wishes[h],
                            #[trigger] offers[j],
                        ),
                None => negotiated_language(accept, available) is None && forall|k: int, j: int|
                    0 <= k < wishes.len() && 0 <= j < offers.len() ==> !language_match(
                        #[trigger] wishes[k],
                        #[trigger] offers[j],
                    ),
            }
        }),
{
    lemma_best_language(accepted_languages(accept), offered_languages(available, available.len() as int), 0);
}

proof fn lemma_best_encoding(wishes: Seq<EncodingView>, offers: Seq<Seq<char>>, i: int)
    requires
        0 <= i,
    ensures
        best_encoding(wishes, offers, i) matches Some(e) ==> e == "identity"@ || offers.contains(e),
        best_encoding(wishes, offers, i) matches Some(e) ==> e == "identity"@ || exists|k: int|
            i <= k < wishes.len() && wished(#[trigger] wishes[k], e),
        best_encoding(wishes, offers, i) is None ==> !offers.contains("identity"@),
        best_encoding(wishes, offers, i) is None ==> forall|k: int|
            i <= k < wishes.len() ==> !offers.contains((#[trigger] wishes[k]).encoding),
    decreases wishes.len() - i,
{
    if i < wishes.len() {
        lemma_best_encoding(wishes, offers, i + 1);
        lemma_first_changing(offers, 0);
        if wishes[i].encoding == "*"@ || offers.contains(wishes[i].encoding) {
            assert(wished(wishes[i], best_encoding(wishes, offers, i).unwrap()));
        }
    }
}

/// Whether a wish names a coding, or any.
pub open spec fn wished(wish: EncodingView, encoding: Seq<char>) -> bool {
    wish.encoding == encoding || wish.encoding == "*"@
}

proof fn lemma_first_changing(offers: Seq<Seq<char>>, j: int)
    requires
        0 <= j,
    ensures
        first_changing(offers, j) == "identity"@ || offers.contains(first_changing(offers, j)),
    decreases offers.len() - j,
{
    if j < offers.len() {
        lemma_first_changing(offers, j + 1);
    }
}

/// A coding that is chosen is the identity, or is offered and was wished for; none is chosen only where neither
/// the identity nor any coding wished for is offered.
pub proof fn law_negotiated_encoding_is_offered(accept: Seq<char>, available: Seq<Seq<char>>)
    ensures
        negotiated_encoding(accept, available) matches Some(e) ==> e == "identity"@ || all_lowered(
            available,
        ).contains(e),
        negotiated_encoding(accept, available) matches Some(e) ==> e == "identity"@ || exists|k: int|
            0 <= k < accepted_encodings(accept).len() && wished(#[trigger] accepted_encodings(accept)[k], e),
        negotiated_encoding(accept, available) is None ==> !all_lowered(available).contains(
            "identity"@,
        ),
        negotiated_encoding(accept, available) is None ==> forall|k: int|
            0 <= k < accepted_encodings(accept).len() ==> !all_lowered(available).contains(
                (#[trigger] accepted_encodings(accept)[k]).encoding,
            ),
{
    lemma_best_encoding(accepted_encodings(accept), all_lowered(available), 0);
}

/// What is accepted comes out best first.
pub proof fn law_accepted_in_order(accept: Seq<char>)
    ensures
        in_order(accepted_media(accept)),
        in_order(accepted_languages(accept)),
        in_order(accepted_encodings(accept)),
{
    let elements = split_on(accept, ',');
    law_ranked_in_order(media_among(elements, elements.len() as int));
    law_ranked_in_order(languages_among(elements, elements.len() as int));
    law_ranked_in_order(encodings_among(elements, elements.len() as int));
}

proof fn lemma_media_above_zero(elements: Seq<Seq<char>>, n: int)
    ensures
        forall|k: int|
            0 <= k < media_among(elements, n).len() ==> (#[trigger] media_among(elements, n)[k]).quality > 0,
    decreases n,
{
    if n > 0 {
        lemma_media_above_zero(elements, n - 1);
        let was = media_among(elements, n - 1);
        assert forall|k: int| 0 <= k < media_among(elements, n).len() implies (#[trigger] media_among(
            elements,
            n,
        )[k]).quality > 0 by {
            if k < was.len() {
                assert(media_among(elements, n)[k] == was[k]);
            }
        }
    }
}

proof fn lemma_languages_above_zero(elements: Seq<Seq<char>>, n: int)
    ensures
        forall|k: int|
            0 <= k < languages_among(elements, n).len() ==> (#[trigger] languages_among(
                elements,
                n,
            )[k]).quality > 0,
    decreases n,
{
    if n > 0 {
        lemma_languages_above_zero(elements, n - 1);
        let was = languages_among(elements, n - 1);
        assert forall|k: int| 0 <= k < languages_among(elements, n).len() implies (#[trigger] languages_among(
            elements,
            n,
        )[k]).quality > 0 by {
            if k < was.len() {
                assert(languages_among(elements, n)[k] == was[k]);
            }
        }
    }
}

proof fn lemma_encodings_above_zero(elements: Seq<Seq<char>>, n: int)
    ensures
        forall|k: int|
            0 <= k < encodings_among(elements, n).len() ==> (#[trigger] encodings_among(
                elements,
                n,
            )[k]).quality > 0,
    decreases n,
{
    if n > 0 {
        lemma_encodings_above_zero(elements, n - 1);
        let was = encodings_among(elements, n - 1);
        assert forall|k: int| 0 <= k < encodings_among(elements, n).len() implies (#[trigger] encodings_among(
            elements,
            n,
        )[k]).quality > 0 by {
            if k < was.len() {
                assert(encodings_among(elements, n)[k] == was[k]);
            }
        }
    }
}

/// What is asked for with quality zero is not accepted.
pub proof fn law_accepted_above_zero(accept: Seq<char>)
    ensures
        forall|k: int|
            0 <= k < accepted_media(accept).len() ==> (#[trigger] accepted_media(accept)[k]).quality > 0,
        forall|k: int|
            0 <= k < accepted_languages(accept).len() ==> (#[trigger] accepted_languages(accept)[k]).quality
                > 0,
        forall|k: int|
            0 <= k < accepted_encodings(accept).len() ==> (#[trigger] accepted_encodings(accept)[k]).quality
                > 0,
{
    let elements = split_on(accept, ',');
    let n = elements.len() as int;
    lemma_media_above_zero(elements, n);
    lemma_languages_above_zero(elements, n);
    lemma_encodings_above_zero(elements, n);
    let m = media_among(elements, n);
    let l = languages_among(elements, n);
    let e = encodings_among(elements, n);
    assert forall|k: int| 0 <= k < ranked(m).len() implies (#[trigger] ranked(m)[k]).quality > 0 by {
        lemma_ranked_item(m, k);
    }
    assert forall|k: int| 0 <= k < ranked(l).len() implies (#[trigger] ranked(l)[k]).quality > 0 by {
        lemma_ranked_item(l, k);
    }
    assert forall|k: int| 0 <= k < ranked(e).len() implies (#[trigger] ranked(e)[k]).quality > 0 by {
        lemma_ranked_item(e, k);
    }
}

/// What is ranked was there before.
proof fn lemma_ranked_item<T: HasRank>(s: Seq<T>, k: int)
    requires
        0 <= k < ranked(s).len(),
    ensures
        s.contains(ranked(s)[k]),
{
    broadcast use vstd::seq_lib::group_to_multiset_ensures;

    law_ranked_same_items(s);
    assert(ranked(s).contains(ranked(s)[k]));
    assert(ranked(s).to_multiset().contains(ranked(s)[k]));
}

/// A media type that is chosen is one of the offers, and there is a wish that it suits: the types of the two are the
/// same or one of them is any, and so are the subtypes. No offer suits a better wish in that way, and no offer before
/// the chosen one suits that wish. Where none is chosen, no offer suits any wish.
pub proof fn law_negotiated_media_fits(accept: Seq<char>, available: Seq<Seq<char>>)
    ensures
        ({
            let wishes = accepted_media(accept);
            let offers = offered_media(available, available.len() as int);
            let star = "*"@;
            match negotiated_media(accept, available) {
                Some(text) => exists|k: int, j: int|
                    #![trigger wishes[k], offers[j]]
                    {
                        &&& 0 <= k < wishes.len() && 0 <= j < offers.len()
                        &&& text == media_text(offers[j])
                        &&& wishes[k].type_ == offers[j].type_ || wishes[k].type_ == star || offers[j].type_ == star
                        &&& wishes[k].subtype == offers[j].subtype || wishes[k].subtype == star || offers[j].subtype == star
                        &&& forall|x: int, y: int|
                            #![trigger wishes[x], offers[y]]
                            0 <= x <= k && 0 <= y < offers.len() && (x < k || y < j) ==> {
                                ||| wishes[x].type_ != offers[y].type_ && wishes[x].type_ != star && offers[y].type_ != star
                                ||| wishes[x].subtype != offers[y].subtype && wishes[x].subtype != star
                                    && offers[y].subtype != star
                            }
                    },
                None => forall|x: int, y: int|
                    #![trigger wishes[x], offers[y]]
                    0 <= x < wishes.len() && 0 <= y < offers.len() ==> {
                        ||| wishes[x].type_ != offers[y].type_ && wishes[x].type_ != star && offers[y].type_ != star
                        ||| wishes[x].subtype != offers[y].subtype && wishes[x].subtype != star && offers[y].subtype
                            != star
                    },
            }
        }),
{
    let wishes = accepted_media(accept);
    let offers = offered_media(available, available.len() as int);
    if let Some((k, j)) = lemma_best_media_at(wishes, offers, 0) {
        assert(media_match(wishes[k], offers[j]));
        assert(negotiated_media(accept, available) == Some(media_text(offers[j])));
    }
}

proof fn lemma_first_media_at(wish: MediaView, offers: Seq<MediaView>, i: int) -> (r: Option<int>)
    requires
        0 <= i,
    ensures
        match r {
            Some(j) => i <= j < offers.len() && first_media(wish, offers, i) == Some(offers[j]) && media_match(
                wish,
                offers[j],
            ) && forall|y: int| i <= y < j ==> !media_match(wish, #[trigger] offers[y]),
            None => first_media(wish, offers, i) is None && forall|y: int|
                i <= y < offers.len() ==> !media_match(wish, #[trigger] offers[y]),
        },
    decreases offers.len() - i,
{
    if i >= offers.len() {
        None
    } else if media_match(wish, offers[i]) {
        Some(i)
    } else {
        lemma_first_media_at(wish, offers, i + 1)
    }
}

proof fn lemma_best_media_at(wishes: Seq<MediaView>, offers: Seq<MediaView>, i: int) -> (r: Option<(int, int)>)
    requires
        0 <= i,
    ensures
        match r {
            Some((k, j)) => {
                &&& i <= k < wishes.len() && 0 <= j < offers.len()
                &&& best_media(wishes, offers, i) == Some(offers[j])
                &&& media_match(wishes[k], offers[j])
                &&& forall|x: int, y: int|
                    #![trigger wishes[x], offers[y]]
                    i <= x <= k && 0 <= y < offers.len() && (x < k || y < j) ==> !media_match(wishes[x], offers[y])
            },
            None => best_media(wishes, offers, i) is None && forall|x: int, y: int|
                #![trigger wishes[x], offers[y]]
                i <= x < wishes.len() && 0 <= y < offers.len() ==> !media_match(wishes[x], offers[y]),
        },
    decreases wishes.len() - i,
{
    if i >= wishes.len() {
        None
    } else {
        match lemma_first_media_at(wishes[i], offers, 0) {
            Some(j) => Some((i, j)),
            None => lemma_best_media_at(wishes, offers, i + 1),
        }
    }
}

/// A language that is chosen is one of the offers, and there is a wish that it suits: the languages of the two are the
/// same, and their regions too where both have one, or one of them is any language. No offer suits a better wish, and
/// none before the chosen one suits that wish. Where none is chosen, no offer suits any wish.
pub proof fn law_negotiated_language_fits(accept: Seq<char>, available: Seq<Seq<char>>)
    ensures
        ({
            let wishes = accepted_languages(accept);
            let offers = offered_languages(available, available.len() as int);
            let star = "*"@;
            match negotiated_language(accept, available) {
                Some(text) => exists|k: int, j: int|
                    #![trigger wishes[k], offers[j]]
                    {
                        &&& 0 <= k < wishes.len() && 0 <= j < offers.len()
                        &&& text == language_text(offers[j])
                        &&& wishes[k].language == star || offers[j].language == star || (wishes[k].language
                            == offers[j].language && (wishes[k].region is None || offers[j].region is None
                            || wishes[k].region == offers[j].region))
                        &&& forall|x: int, y: int|
                            #![trigger wishes[x], offers[y]]
                            0 <= x <= k && 0 <= y < offers.len() && (x < k || y < j) ==> wishes[x].language != star
                                && offers[y].language != star && (wishes[x].language != offers[y].language || (
                            wishes[x].region is Some && offers[y].region is Some && wishes[x].region != offers[y].region))
                    },
                None => forall|x: int, y: int|
                    #![trigger wishes[x], offers[y]]
                    0 <= x < wishes.len() && 0 <= y < offers.len() ==> wishes[x].language != star && offers[y].language
                        != star && (wishes[x].language != offers[y].language || (wishes[x].region is Some
                        && offers[y].region is Some && wishes[x].region != offers[y].region)),
            }
        }),
{
    let wishes = accepted_languages(accept);
    let offers = offered_languages(available, available.len() as int);
    if let Some((k, j)) = lemma_best_language_at(wishes, offers, 0) {
        assert(language_match(wishes[k], offers[j]));
        assert(negotiated_language(accept, available) == Some(language_text(offers[j])));
    }
}

proof fn lemma_first_language_at(wish: LanguageView, offers: Seq<LanguageView>, i: int) -> (r: Option<int>)
    requires
        0 <= i,
    ensures
        match r {
            Some(j) => i <= j < offers.len() && first_language(wish, offers, i) == Some(offers[j]) && language_match(
                wish,
                offers[j],
            ) && forall|y: int| i <= y < j ==> !language_match(wish, #[trigger] offers[y]),
            None => first_language(wish, offers, i) is None && forall|y: int|
                i <= y < offers.len() ==> !language_match(wish, #[trigger] offers[y]),
        },
    decreases offers.len() - i,
{
    if i >= offers.len() {
        None
    } else if language_match(wish, offers[i]) {
        Some(i)
    } else {
        lemma_first_language_at(wish, offers, i + 1)
    }
}

proof fn lemma_best_language_at(wishes: Seq<LanguageView>, offers: Seq<LanguageView>, i: int) -> (r: Option<(int, int)>)
    requires
        0 <= i,
    ensures
        match r {
            Some((k, j)) => {
                &&& i <= k < wishes.len() && 0 <= j < offers.len()
                &&& best_language(wishes, offers, i) == Some(offers[j])
                &&& language_match(wishes[k], offers[j])
                &&& forall|x: int, y: int|
                    #![trigger wishes[x], offers[y]]
                    i <= x <= k && 0 <= y < offers.len() && (x < k || y < j) ==> !language_match(wishes[x], offers[y])
            },
            None => best_language(wishes, offers, i) is None && forall|x: int, y: int|
                #![trigger wishes[x], offers[y]]
                i <= x < wishes.len() && 0 <= y < offers.len() ==> !language_match(wishes[x], offers[y]),
        },
    decreases wishes.len() - i,
{
    if i >= wishes.len() {
        None
    } else {
        match lemma_first_language_at(wishes[i], offers, 0) {
            Some(j) => Some((i, j)),
            None => lemma_best_language_at(wishes, offers, i + 1),
        }
    }
}

proof fn lemma_best_encoding_skips(wishes: Seq<EncodingView>, offers: Seq<Seq<char>>, i: int, k: int)
    requires
        0 <= i <= k <= wishes.len(),
        forall|x: int|
            i <= x < k ==> (#[trigger] wishes[x]).encoding != "*"@ && !offers.contains(wishes[x].encoding),
    ensures
        best_encoding(wishes, offers, i) == best_encoding(wishes, offers, k),
    decreases k - i,
{
    if i < k {
        lemma_best_encoding_skips(wishes, offers, i + 1, k);
    }
}

/// The best wish that is for any coding or for one that is offered decides: one that is for a coding gets it, one that
/// is for any gets the first offer that changes the payload. Where no wish can be met, the identity is chosen if it is
/// offered, and nothing otherwise. Without wishes the identity is chosen.
pub proof fn law_negotiated_encoding_follows_wishes(accept: Seq<char>, available: Seq<Seq<char>>, k: int, j: int)
    ensures
        ({
            let wishes = accepted_encodings(accept);
            let offers = all_lowered(available);
            let got = negotiated_encoding(accept, available);
            let passed = forall|x: int|
                0 <= x < k ==> (#[trigger] wishes[x]).encoding != "*"@ && !offers.contains(wishes[x].encoding);
            &&& wishes.len() == 0 ==> got == Some("identity"@)
            &&& 0 <= k < wishes.len() && passed && wishes[k].encoding != "*"@ && offers.contains(wishes[k].encoding)
                ==> got == Some(wishes[k].encoding)
            &&& 0 <= k < wishes.len() && passed && wishes[k].encoding == "*"@ && 0 <= j < offers.len() && offers[j]
                != "identity"@ && (forall|y: int| 0 <= y < j ==> #[trigger] offers[y] == "identity"@) ==> got == Some(
                offers[j],
            )
            &&& 0 <= k < wishes.len() && passed && wishes[k].encoding == "*"@ && (forall|y: int|
                0 <= y < offers.len() ==> #[trigger] offers[y] == "identity"@) ==> got == Some("identity"@)
            &&& 0 < k == wishes.len() && passed ==> got == (if offers.contains("identity"@) {
                Some("identity"@)
            } else {
                None
            })
        }),
{
    let wishes = accepted_encodings(accept);
    let offers = all_lowered(available);
    if 0 <= k <= wishes.len() && forall|x: int|
        0 <= x < k ==> (#[trigger] wishes[x]).encoding != "*"@ && !offers.contains(wishes[x].encoding) {
        lemma_best_encoding_skips(wishes, offers, 0, k);
    }
    if 0 <= j < offers.len() && offers[j] != "identity"@ && forall|y: int|
        0 <= y < j ==> #[trigger] offers[y] == "identity"@ {
        lemma_changing_at(offers, 0, j);
    }
    if forall|y: int| 0 <= y < offers.len() ==> #[trigger] offers[y] == "identity"@ {
        lemma_nothing_changes(offers, 0);
    }
}

proof fn lemma_changing_at(offers: Seq<Seq<char>>, i: int, j: int)
    requires
        0 <= i <= j < offers.len(),
        offers[j] != "identity"@,
        forall|y: int| i <= y < j ==> #[trigger] offers[y] == "identity"@,
    ensures
        first_changing(offers, i) == offers[j],
    decreases j - i,
{
    if i < j {
        lemma_changing_at(offers, i + 1, j);
    }
}

proof fn lemma_nothing_changes(offers: Seq<Seq<char>>, i: int)
    requires
        0 <= i,
        forall|y: int| i <= y < offers.len() ==> #[trigger] offers[y] == "identity"@,
    ensures
        first_changing(offers, i) == "identity"@,
    decreases offers.len() - i,
{
    if i < offers.len() {
        lemma_nothing_changes(offers, i + 1);
    }
}

/// A media type is what stands before and behind the slash, in lower case, with the quality behind `q=` or with quality
/// one; what lacks a slash is none.
pub proof fn law_media_is_read(t: Seq<char>, s: Seq<char>, q: Seq<char>)
    requires
        solid(t) && lacks(t, '/') && lacks(t, ';'),
        solid(s) && lacks(s, '/') && lacks(s, ';'),
        solid(q) && lacks(q, ';'),
    ensures
        media_in(t + "/"@ + s) == Some(
            MediaView { type_: lowered(t), subtype: lowered(s), quality: ONE as nat, params: seq![] },
        ),
        media_in(t + "/"@ + s + ";q="@ + q) == Some(
            MediaView { type_: lowered(t), subtype: lowered(s), quality: quality_or_one(q), params: seq![] },
        ),
        media_in(t) is None,
{
    reveal_strlit("/");
    reveal_strlit(";q=");
    reveal_strlit("q=");
    let name = t + "/"@ + s;
    let param = "q="@ + q;
    assert(name =~= t + seq!['/'] + s);
    lemma_split_two(t, s, '/');
    lemma_parts_around(t, s, '/', q);
    lemma_trimmed_solid(name);
    lemma_trimmed_solid(t);
    lemma_split_two(name, param, ';');
    lemma_split_two(t, param, ';');
    assert(name + ";q="@ + q =~= name + seq![';'] + param);
    lemma_one_param(name, q);
}

/// What is made of solid pieces has no white space around it and no semicolon in it.
proof fn lemma_parts_around(a: Seq<char>, b: Seq<char>, c: char, q: Seq<char>)
    requires
        solid(a) && lacks(a, ';'),
        solid(b) && lacks(b, ';'),
        solid(q) && lacks(q, ';'),
        c != ';' && !is_white(c),
    ensures
        solid(a + seq![c] + b),
        lacks(a + seq![c] + b, ';'),
        lacks("q="@ + q, ';'),
{
    reveal_strlit("q=");
    let s = a + seq![c] + b;
    assert forall|i: int| 0 <= i < s.len() implies !is_white(#[trigger] s[i]) && s[i] != ';' by {
        if i < a.len() {
            assert(s[i] == a[i]);
        } else if i > a.len() {
            assert(s[i] == b[i - a.len() - 1]);
        }
    }
    let p = "q="@ + q;
    assert forall|i: int| 0 <= i < p.len() implies #[trigger] p[i] != ';' by {
        if i >= 2 {
            assert(p[i] == q[i - 2]);
        }
    }
}

proof fn lemma_one_param(name: Seq<char>, q: Seq<char>)
    requires
        solid(q),
    ensures
        quality_among(seq![name, "q="@ + q], 2) == quality_or_one(q),
        other_params(seq![name, "q="@ + q], 2) == Seq::<(Seq<char>, Seq<char>)>::empty(),
        quality_among(seq![name], 1) == ONE,
        other_params(seq![name], 1) == Seq::<(Seq<char>, Seq<char>)>::empty(),
{
    lemma_q_param(q);
    let parts = seq![name, "q="@ + q];
    reveal_with_fuel(quality_among, 3);
    reveal_with_fuel(other_params, 3);
    assert(parts[1] == "q="@ + q);
}

/// A language is what stands before the hyphen, in lower case, its region what stands behind it, in upper case, with
/// the quality behind `q=` or with quality one.
pub proof fn law_language_is_read(l: Seq<char>, r: Seq<char>, q: Seq<char>)
    requires
        l.len() > 0,
        solid(l) && lacks(l, '-') && lacks(l, ';'),
        solid(r) && lacks(r, '-') && lacks(r, ';'),
        solid(q) && lacks(q, ';'),
    ensures
        language_in(l) == Some(LanguageView { language: lowered(l), region: None, quality: ONE as nat }),
        language_in(l + "-"@ + r) == Some(
            LanguageView { language: lowered(l), region: Some(uppered(r)), quality: ONE as nat },
        ),
        language_in(l + "-"@ + r + ";q="@ + q) == Some(
            LanguageView { language: lowered(l), region: Some(uppered(r)), quality: quality_or_one(q) },
        ),
        language_in(l + ";q="@ + q) == Some(
            LanguageView { language: lowered(l), region: None, quality: quality_or_one(q) },
        ),
{
    reveal_strlit("-");
    reveal_strlit(";q=");
    reveal_strlit("q=");
    let name = l + "-"@ + r;
    let param = "q="@ + q;
    assert(name =~= l + seq!['-'] + r);
    lemma_split_two(l, r, '-');
    lemma_parts_around(l, r, '-', q);
    lemma_trimmed_solid(name);
    lemma_trimmed_solid(l);
    lemma_split_two(name, param, ';');
    lemma_split_two(l, param, ';');
    assert(name + ";q="@ + q =~= name + seq![';'] + param);
    assert(l + ";q="@ + q =~= l + seq![';'] + param);
    lemma_one_param(name, q);
    lemma_one_param(l, q);
}

/// A coding is what stands before the parameters, in lower case, with the quality behind `q=` or with quality one.
pub proof fn law_encoding_is_read(name: Seq<char>, q: Seq<char>)
    requires
        name.len() > 0,
        solid(name) && lacks(name, ';'),
        solid(q) && lacks(q, ';'),
    ensures
        encoding_in(name) == Some(EncodingView { encoding: lowered(name), quality: ONE as nat }),
        encoding_in(name + ";q="@ + q) == Some(EncodingView { encoding: lowered(name), quality: quality_or_one(q) }),
{
    reveal_strlit(";q=");
    reveal_strlit("q=");
    let param = "q="@ + q;
    lemma_parts_around(name, name, '-', q);
    lemma_trimmed_solid(name);
    lemma_split_two(name, param, ';');
    assert(name + ";q="@ + q =~= name + seq![';'] + param);
    lemma_one_param(name, q);
}

proof fn lemma_media_among(elements: Seq<Seq<char>>, n: int, m: MediaView)
    requires
        n <= elements.len(),
    ensures
        media_among(elements, n).contains(m) <==> m.quality > 0 && exists|j: int|
            0 <= j < n && media_in(trimmed(#[trigger] elements[j])) == Some(m),
    decreases n,
{
    if n > 0 {
        lemma_media_among(elements, n - 1, m);
        lemma_pushed(media_among(elements, n - 1), media_in(trimmed(elements[n - 1])), m);
        assert(elements[n - 1] == elements[n - 1]);
    }
}

/// Pushing an item adds that item only.
proof fn lemma_pushed<T>(s: Seq<T>, x: Option<T>, m: T)
    ensures
        x matches Some(y) ==> (s.push(y).contains(m) <==> s.contains(m) || y == m),
{
    if let Some(y) = x {
        let all = s.push(y);
        if s.contains(m) {
            let i = choose|i: int| 0 <= i < s.len() && s[i] == m;
            assert(all[i] == m);
        }
        if y == m {
            assert(all[s.len() as int] == m);
        }
        if all.contains(m) {
            let i = choose|i: int| 0 <= i < all.len() && all[i] == m;
            if i < s.len() {
                assert(s[i] == m);
            }
        }
    }
}

proof fn lemma_ranked_holds<T: HasRank>(s: Seq<T>, m: T)
    ensures
        ranked(s).contains(m) <==> s.contains(m),
{
    broadcast use vstd::seq_lib::group_to_multiset_ensures;

    law_ranked_same_items(s);
    assert(ranked(s).contains(m) == ranked(s).to_multiset().contains(m));
    assert(s.contains(m) == s.to_multiset().contains(m));
}

/// The wishes are just what the elements of the list denote, those with quality zero left out; no wish of lower quality
/// comes before one of higher quality, nor of the same quality one for any type or subtype before one for a single one.
pub proof fn law_media_wishes(accept: Seq<char>, m: MediaView, i: int, j: int)
    ensures
        accepted_media(accept).contains(m) <==> m.quality > 0 && exists|e: int|
            0 <= e < split_on(accept, ',').len() && media_in(trimmed(#[trigger] split_on(accept, ',')[e])) == Some(m),
        0 <= i <= j < accepted_media(accept).len() ==> ({
            let (a, b) = (accepted_media(accept)[i], accepted_media(accept)[j]);
            a.quality > b.quality || (a.quality == b.quality && (a.type_ == "*"@ ==> b.type_ == "*"@) && (a.subtype
                == "*"@ ==> b.type_ == "*"@ || b.subtype == "*"@))
        }),
{
    let elements = split_on(accept, ',');
    let n = elements.len() as int;
    lemma_media_among(elements, n, m);
    lemma_ranked_holds(media_among(elements, n), m);
    law_accepted_in_order(accept);
    if 0 <= i <= j < accepted_media(accept).len() {
        let (a, b) = (accepted_media(accept)[i], accepted_media(accept)[j]);
        assert(a.rank() >= b.rank());
    }
}

proof fn lemma_languages_among(elements: Seq<Seq<char>>, n: int, m: LanguageView)
    requires
        n <= elements.len(),
    ensures
        languages_among(elements, n).contains(m) <==> m.quality > 0 && exists|j: int|
            0 <= j < n && language_in(trimmed(#[trigger] elements[j])) == Some(m),
    decreases n,
{
    if n > 0 {
        lemma_languages_among(elements, n - 1, m);
        lemma_pushed(languages_among(elements, n - 1), language_in(trimmed(elements[n - 1])), m);
        assert(elements[n - 1] == elements[n - 1]);
    }
}

/// The wishes are just what the elements of the list denote, those with quality zero left out; no wish of lower quality
/// comes before one of higher quality.
pub proof fn law_language_wishes(accept: Seq<char>, m: LanguageView, i: int, j: int)
    ensures
        accepted_languages(accept).contains(m) <==> m.quality > 0 && exists|e: int|
            0 <= e < split_on(accept, ',').len() && language_in(trimmed(#[trigger] split_on(accept, ',')[e])) == Some(m),
        0 <= i <= j < accepted_languages(accept).len() ==> accepted_languages(accept)[i].quality
            >= accepted_languages(accept)[j].quality,
{
    let elements = split_on(accept, ',');
    let n = elements.len() as int;
    lemma_languages_among(elements, n, m);
    lemma_ranked_holds(languages_among(elements, n), m);
    law_ranked_in_order(languages_among(elements, n));
    if 0 <= i <= j < accepted_languages(accept).len() {
        let (a, b) = (accepted_languages(accept)[i], accepted_languages(accept)[j]);
        assert(a.rank() >= b.rank());
    }
}

proof fn lemma_encodings_among(elements: Seq<Seq<char>>, n: int, m: EncodingView)
    requires
        n <= elements.len(),
    ensures
        encodings_among(elements, n).contains(m) <==> m.quality > 0 && exists|j: int|
            0 <= j < n && encoding_in(trimmed(#[trigger] elements[j])) == Some(m),
    decreases n,
{
    if n > 0 {
        lemma_encodings_among(elements, n - 1, m);
        lemma_pushed(encodings_among(elements, n - 1), encoding_in(trimmed(elements[n - 1])), m);
        assert(elements[n - 1] == elements[n - 1]);
    }
}

/// The wishes are just what the elements of the list denote, those with quality zero left out; no wish of lower quality
/// comes before one of higher quality, nor of the same quality one for any coding before one for a single one.
pub proof fn law_encoding_wishes(accept: Seq<char>, m: EncodingView, i: int, j: int)
    ensures
        accepted_encodings(accept).contains(m) <==> m.quality > 0 && exists|e: int|
            0 <= e < split_on(accept, ',').len() && encoding_in(trimmed(#[trigger] split_on(accept, ',')[e])) == Some(m),
        0 <= i <= j < accepted_encodings(accept).len() ==> ({
            let (a, b) = (accepted_encodings(accept)[i], accepted_encodings(accept)[j]);
            a.quality > b.quality || (a.quality == b.quality && (a.encoding == "*"@ ==> b.encoding == "*"@))
        }),
{
    let elements = split_on(accept, ',');
    let n = elements.len() as int;
    lemma_encodings_among(elements, n, m);
    lemma_ranked_holds(encodings_among(elements, n), m);
    law_ranked_in_order(encodings_among(elements, n));
    if 0 <= i <= j < accepted_encodings(accept).len() {
        let (a, b) = (accepted_encodings(accept)[i], accepted_encodings(accept)[j]);
        assert(a.rank() >= b.rank());
    }
}

/// The offers are just what a server's texts denote.
pub proof fn law_offers(available: Seq<Seq<char>>, n: int, m: MediaView, l: LanguageView)
    requires
        n <= available.len(),
    ensures
        offered_media(available, n).contains(m) <==> exists|j: int|
            0 <= j < n && media_in(#[trigger] available[j]) == Some(m),
        offered_languages(available, n).contains(l) <==> exists|j: int|
            0 <= j < n && language_in(#[trigger] available[j]) == Some(l),
    decreases n,
{
    if n > 0 {
        law_offers(available, n - 1, m, l);
        lemma_pushed(offered_media(available, n - 1), media_in(available[n - 1]), m);
        lemma_pushed(offered_languages(available, n - 1), language_in(available[n - 1]), l);
        assert(available[n - 1] == available[n - 1]);
    }
}

}
