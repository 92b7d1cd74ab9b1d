//! Content codings and the choice among those that a peer accepts.
use vstd::prelude::*;
use vstd::slice::slice_subrange;

use crate::net::http::quality::{quality_or_one, read_quality, ONE};
use crate::order::{in_order, law_ranked_in_order, place, placed, ranked, HasRank, Ranked};
use crate::text::{
    chars_of, find, find_char, is_text, is_text_nocase, is_white, lacks, lemma_find_is, lemma_split_two,
    lemma_trimmed_solid, lowered, same_nocase, solid, split, split_on, texts, to_lower, trim, trimmed,
};
use vstd::utf8::{encode_utf8, is_ascii_chars_encode_utf8};

verus! {

/// A content coding.
#[derive(Debug, Clone, Copy, PartialEq, Eq, Structural)]
pub enum CompressionAlgorithm {
    Identity,
    Gzip,
    Deflate,
    Brotli,
    Zstd,
}

/// How hard a codec works.
#[derive(Debug, Clone, Copy, PartialEq, Eq, Structural)]
pub enum CompressionLevel {
    Fast,
    Default,
    Best,
}

/// The name of a coding in header fields.
pub open spec fn coding_name(a: CompressionAlgorithm) -> Seq<char> {
    match a {
        CompressionAlgorithm::Identity => "identity"@,
        CompressionAlgorithm::Gzip => "gzip"@,
        CompressionAlgorithm::Deflate => "deflate"@,
        CompressionAlgorithm::Brotli => "br"@,
        CompressionAlgorithm::Zstd => "zstd"@,
    }
}

/// The coding with a given name.
pub open spec fn coding_named(s: Seq<char>) -> Option<CompressionAlgorithm> {
    if s == "identity"@ {
        Some(CompressionAlgorithm::Identity)
    } else if s == "gzip"@ {
        Some(CompressionAlgorithm::Gzip)
    } else if s == "deflate"@ {
        Some(CompressionAlgorithm::Deflate)
    } else if s == "br"@ {
        Some(CompressionAlgorithm::Brotli)
    } else if s == "zstd"@ {
        Some(CompressionAlgorithm::Zstd)
    } else {
        None
    }
}

/// Whether a codec for the coding is at hand. This is what the codec has to provide: it stands outside, and is
/// handed bodies in each of the codings that are said to be at hand here.
pub open spec fn implemented(a: CompressionAlgorithm) -> bool {
    match a {
        CompressionAlgorithm::Identity => true,
        CompressionAlgorithm::Gzip => true,
        CompressionAlgorithm::Deflate => true,
        CompressionAlgorithm::Brotli => true,
        CompressionAlgorithm::Zstd => true,
    }
}

/// The coding in whose form a payload is sent when `a` is asked for.
pub open spec fn usable(a: CompressionAlgorithm) -> CompressionAlgorithm {
    if implemented(a) {
        a
    } else {
        CompressionAlgorithm::Identity
    }
}

impl CompressionAlgorithm {
    /// The name in header fields.
    pub fn content_encoding(&self) -> (r: &'static str)
        ensures
            r@ == coding_name(*self),
    {
        match self {
            CompressionAlgorithm::Identity => "identity",
            CompressionAlgorithm::Gzip => "gzip",
            CompressionAlgorithm::Deflate => "deflate",
            CompressionAlgorithm::Brotli => "br",
            CompressionAlgorithm::Zstd => "zstd",
        }
    }

    /// The coding with the given name.
    pub fn from_content_encoding(name: &str) -> (r: Option<CompressionAlgorithm>)
        ensures
            r == coding_named(name@),
    {
        let s = chars_of(name);
        Self::from_chars(s.as_slice())
    }

    pub fn from_chars(s: &[char]) -> (r: Option<CompressionAlgorithm>)
        ensures
            r == coding_named(s@),
    {
        if is_text(s, "identity") {
            Some(CompressionAlgorithm::Identity)
        } else if is_text(s, "gzip") {
            Some(CompressionAlgorithm::Gzip)
        } else if is_text(s, "deflate") {
            Some(CompressionAlgorithm::Deflate)
        } else if is_text(s, "br") {
            Some(CompressionAlgorithm::Brotli)
        } else if is_text(s, "zstd") {
            Some(CompressionAlgorithm::Zstd)
        } else {
            None
        }
    }

    /// Whether a codec is at hand.
    pub fn is_implemented(&self) -> (r: bool)
        ensures
            r == implemented(*self),
    {
        match self {
            CompressionAlgorithm::Identity => true,
            CompressionAlgorithm::Gzip => true,
            CompressionAlgorithm::Deflate => true,
            CompressionAlgorithm::Brotli => true,
            CompressionAlgorithm::Zstd => true,
        }
    }
}

/// A coding is found again under its own name.
pub proof fn law_coding_names(a: CompressionAlgorithm)
    ensures
        coding_named(coding_name(a)) == Some(a),
{
    reveal_strlit("identity");
    reveal_strlit("gzip");
    reveal_strlit("deflate");
    reveal_strlit("br");
    reveal_strlit("zstd");
    assert("identity"@.len() == 8 && "gzip"@.len() == 4 && "deflate"@.len() == 7 && "br"@.len() == 2
        && "zstd"@.len() == 4);
    assert("gzip"@[0] == 'g' && "zstd"@[0] == 'z');
}

/// A coding with the quality at which it is accepted.
#[derive(Debug, Clone, Copy, PartialEq, Eq, Structural)]
pub struct AcceptedCoding {
    pub algorithm: CompressionAlgorithm,
    pub quality: u32,
}

impl HasRank for AcceptedCoding {
    open spec fn rank(&self) -> nat {
        self.quality as nat
    }
}

impl Ranked for AcceptedCoding {
    fn rank_of(&self) -> (r: u64) {
        self.quality as u64
    }
}

/// The value of a parameter `key=value` named `q`.
pub open spec fn q_value(param: Seq<char>) -> Option<Seq<char>> {
    match find(param, '=') {
        Some(i) => if same_nocase(trimmed(param.take(i)), "q"@) {
            Some(trimmed(param.skip(i + 1)))
        } else {
            None
        },
        None => None,
    }
}

/// The quality among the first `n` parameters behind the name: that of the last `q`, else 1.
pub open spec fn quality_among(params: Seq<Seq<char>>, n: int) -> nat
    decreases n,
{
    if n <= 1 {
        ONE as nat
    } else {
        match q_value(trimmed(params[n - 1])) {
            Some(v) => quality_or_one(v),
            None => quality_among(params, n - 1),
        }
    }
}

/// The quality that an element of an accept list gives.
pub open spec fn element_quality(element: Seq<char>) -> nat {
    let params = split_on(element, ';');
    quality_among(params, params.len() as int)
}

/// The name that an element of an accept list gives, without case.
pub open spec fn element_name(element: Seq<char>) -> Seq<char> {
    lowered(trimmed(split_on(element, ';')[0]))
}

/// What an element of an accept list stands for, where its coding is known.
pub open spec fn accepted_element(element: Seq<char>) -> Option<AcceptedCoding> {
    match coding_named(element_name(element)) {
        Some(algorithm) => Some(
            AcceptedCoding { algorithm, quality: element_quality(element) as u32 },
        ),
        None => None,
    }
}

/// The known codings of the first `n` elements, as they come.
pub open spec fn accepted_elements(elements: Seq<Seq<char>>, n: int) -> Seq<AcceptedCoding>
    decreases n,
{
    if n <= 0 {
        seq![]
    } else {
        match accepted_element(elements[n - 1]) {
            Some(a) => accepted_elements(elements, n - 1).push(a),
            None => accepted_elements(elements, n - 1),
        }
    }
}

/// What an `Accept-Encoding` value accepts, best first.
pub open spec fn accepted_codings(s: Seq<char>) -> Seq<AcceptedCoding> {
    let elements = split_on(s, ',');
    ranked(accepted_elements(elements, elements.len() as int))
}

proof fn lemma_split_nonempty(s: Seq<char>, c: char)
    ensures
        split_on(s, c).len() >= 1,
{
}

/// Reads the quality of an element of an accept list, given its parts between semicolons.
pub fn read_element_quality(params: &Vec<&[char]>) -> (r: u32)
    ensures
        r == quality_among(texts(params@), params@.len() as int),
        r <= ONE,
{
    let mut quality: u32 = ONE;
    let mut i: usize = 1;
    let ghost all = texts(params@);
    while i < params.len()
        invariant
            1 <= i,
            i <= params@.len() || i == 1,
            all == texts(params@),
            quality <= ONE,
            quality == quality_among(all, i as int),
        decreases params@.len() - i,
    {
        let param = trim(params[i]);
        assert(param@ == trimmed(all[i as int]));
        match find_char(param, '=') {
            Some(k) => {
                let end: usize = param.len();
                let key = trim(slice_subrange(param, 0, k));
                let value = trim(slice_subrange(param, k + 1, end));
                assert(param@.subrange(0, k as int) =~= param@.take(k as int));
                assert(param@.subrange(k + 1, param@.len() as int) =~= param@.skip(k + 1));
                if is_text_nocase(key, "q") {
                    quality = read_quality(value);
                }
            },
            None => {},
        }
        i = i + 1;
    }
    quality
}

fn read_accepted(element: &[char]) -> (r: Option<AcceptedCoding>)
    ensures
        r == accepted_element(element@),
{
    let params = split(element, ';');
    proof {
        lemma_split_nonempty(element@, ';');
    }
    assert(params@.len() == texts(params@).len());
    assert(texts(params@)[0] == params@[0]@);
    let name = to_lower(trim(params[0]));
    match CompressionAlgorithm::from_chars(name.as_slice()) {
        Some(algorithm) => Some(
            AcceptedCoding { algorithm, quality: read_element_quality(&params) },
        ),
        None => None,
    }
}

/// Reads an `Accept-Encoding` value: the codings it names, best first.
pub fn parse_accept_encoding(accept_encoding: &str) -> (r: Vec<AcceptedCoding>)
    ensures
        r@ == accepted_codings(accept_encoding@),
{
    let s = chars_of(accept_encoding);
    let elements = split(s.as_slice(), ',');
    let ghost all = texts(elements@);
    let mut out: Vec<AcceptedCoding> = Vec::new();
    let mut i: usize = 0;
    while i < elements.len()
        invariant
            i <= elements@.len(),
            all == texts(elements@),
            out@ == ranked(accepted_elements(all, i as int)),
        decreases elements@.len() - i,
    {
        assert(all[i as int] == elements@[i as int]@);
        match read_accepted(elements[i]) {
            Some(a) => {
                place(&mut out, a);
                assert(accepted_elements(all, i as int).push(a).drop_last()
                    =~= accepted_elements(all, i as int));
            },
            None => {},
        }
        i = i + 1;
    }
    out
}

/// The first coding from position `from` on that is accepted at all, has a codec and, unless
/// `identity_too`, is not the identity; the identity where there is none.
pub open spec fn first_usable(
    accepted: Seq<AcceptedCoding>,
    identity_too: bool,
    from: int,
) -> CompressionAlgorithm
    decreases accepted.len() - from,
{
    if from < 0 || from >= accepted.len() {
        CompressionAlgorithm::Identity
    } else if accepted[from].quality > 0 && implemented(accepted[from].algorithm) && (identity_too
        || accepted[from].algorithm != CompressionAlgorithm::Identity) {
        accepted[from].algorithm
    } else {
        first_usable(accepted, identity_too, from + 1)
    }
}

/// The coding to send to a peer with this `Accept-Encoding` value.
pub open spec fn selected(accept_encoding: Seq<char>, identity_too: bool) -> CompressionAlgorithm {
    first_usable(accepted_codings(accept_encoding), identity_too, 0)
}

fn select_first(accepted: &Vec<AcceptedCoding>, identity_too: bool) -> (r: CompressionAlgorithm)
    ensures
        r == first_usable(accepted@, identity_too, 0),
{
    let mut i: usize = 0;
    while i < accepted.len()
        invariant
            i <= accepted@.len(),
            first_usable(accepted@, identity_too, i as int) == first_usable(
                accepted@,
                identity_too,
                0,
            ),
        decreases accepted@.len() - i,
    {
        let a = accepted[i];
        if a.quality > 0 && a.algorithm.is_implemented() && (identity_too || a.algorithm
            != CompressionAlgorithm::Identity) {
            return a.algorithm;
        }
        i = i + 1;
    }
    CompressionAlgorithm::Identity
}

/// Chooses the best accepted coding that changes the payload; the identity where none is left.
pub fn select_compressing(accept_encoding: &str) -> (r: CompressionAlgorithm)
    ensures
        r == selected(accept_encoding@, false),
{
    let accepted = parse_accept_encoding(accept_encoding);
    select_first(&accepted, false)
}

/// Chooses the best accepted coding, the identity included.
pub fn select_any(accept_encoding: &str) -> (r: CompressionAlgorithm)
    ensures
        r == selected(accept_encoding@, true),
{
    let accepted = parse_accept_encoding(accept_encoding);
    select_first(&accepted, true)
}

/// What is chosen was accepted with a quality above zero, or is the identity.
pub proof fn law_selected_is_accepted(accept_encoding: Seq<char>, identity_too: bool)
    ensures
        ({
            let a = selected(accept_encoding, identity_too);
            a == CompressionAlgorithm::Identity || exists|i: int|
                0 <= i < accepted_codings(accept_encoding).len() && #[trigger] accepted_codings(
                    accept_encoding,
                )[i].algorithm == a && accepted_codings(accept_encoding)[i].quality > 0
        }),
{
    lemma_first_usable(accepted_codings(accept_encoding), identity_too, 0);
}

proof fn lemma_first_usable(accepted: Seq<AcceptedCoding>, identity_too: bool, from: int)
    requires
        0 <= from,
    ensures
        ({
            let a = first_usable(accepted, identity_too, from);
            a == CompressionAlgorithm::Identity || exists|i: int|
                0 <= i < accepted.len() && #[trigger] accepted[i].algorithm == a
                    && accepted[i].quality > 0
        }),
    decreases accepted.len() - from,
{
    if from < accepted.len() {
        lemma_first_usable(accepted, identity_too, from + 1);
    }
}

spec fn fits(x: AcceptedCoding, identity_too: bool) -> bool {
    x.quality > 0 && implemented(x.algorithm) && (identity_too || x.algorithm != CompressionAlgorithm::Identity)
}

spec fn first_fit(s: Seq<AcceptedCoding>, t: bool) -> Option<AcceptedCoding>
    decreases s.len(),
{
    if s.len() == 0 {
        None
    } else {
        match first_fit(s.drop_last(), t) {
            Some(y) => Some(y),
            None => if fits(s.last(), t) {
                Some(s.last())
            } else {
                None
            },
        }
    }
}

proof fn lemma_first_fit(s: Seq<AcceptedCoding>, t: bool) -> (r: Option<int>)
    ensures
        match r {
            Some(i) => 0 <= i < s.len() && fits(s[i], t) && first_fit(s, t) == Some(s[i]) && forall|j: int|
                0 <= j < i ==> !fits(#[trigger] s[j], t),
            None => first_fit(s, t) is None && forall|j: int| 0 <= j < s.len() ==> !fits(#[trigger] s[j], t),
        },
    decreases s.len(),
{
    if s.len() == 0 {
        None
    } else {
        let before = s.drop_last();
        match lemma_first_fit(before, t) {
            Some(i) => {
                assert forall|j: int| 0 <= j < i implies !fits(#[trigger] s[j], t) by {
                    assert(before[j] == s[j]);
                }
                Some(i)
            },
            None => {
                assert forall|j: int| 0 <= j < s.len() - 1 implies !fits(#[trigger] s[j], t) by {
                    assert(before[j] == s[j]);
                }
                if fits(s.last(), t) {
                    Some(s.len() - 1)
                } else {
                    None
                }
            },
        }
    }
}

proof fn lemma_usable_passes(s: Seq<AcceptedCoding>, t: bool, from: int, to: int)
    requires
        0 <= from <= to <= s.len(),
        forall|j: int| from <= j < to ==> !fits(#[trigger] s[j], t),
    ensures
        first_usable(s, t, from) == first_usable(s, t, to),
    decreases to - from,
{
    if from < to {
        assert(!fits(s[from], t));
        lemma_usable_passes(s, t, from + 1, to);
    }
}

proof fn lemma_placed_fit(s: Seq<AcceptedCoding>, x: AcceptedCoding, t: bool)
    requires
        in_order(s),
    ensures
        first_fit(placed(s, x), t) == (match first_fit(s, t) {
            Some(y) => if y.rank() >= x.rank() || !fits(x, t) {
                Some(y)
            } else {
                Some(x)
            },
            None => if fits(x, t) {
                Some(x)
            } else {
                None
            },
        }),
    decreases s.len(),
{
    if s.len() > 0 && s.last().rank() < x.rank() {
        let before = s.drop_last();
        assert(in_order(before)) by {
            assert forall|i: int, j: int| 0 <= i <= j < before.len() implies #[trigger] before[i].rank()
                >= #[trigger] before[j].rank() by {
                assert(s[i].rank() >= s[j].rank());
            }
        }
        lemma_placed_fit(before, x, t);
        let p = placed(before, x).push(s.last());
        assert(p.drop_last() =~= placed(before, x));
    } else {
        assert(s.push(x).drop_last() =~= s);
        if let Some(i) = lemma_first_fit(s, t) {
            assert(s[i].rank() >= s[s.len() - 1].rank());
        }
    }
}

proof fn lemma_best_fit(s: Seq<AcceptedCoding>, t: bool) -> (r: Option<int>)
    ensures
        match r {
            Some(k) => {
                &&& 0 <= k < s.len() && fits(s[k], t)
                &&& first_fit(ranked(s), t) == Some(s[k])
                &&& forall|j: int|
                    0 <= j < s.len() && fits(#[trigger] s[j], t) ==> s[k].quality > s[j].quality || (s[k].quality
                        == s[j].quality && k <= j)
            },
            None => first_fit(ranked(s), t) is None && forall|j: int|
                0 <= j < s.len() ==> !fits(#[trigger] s[j], t),
        },
    decreases s.len(),
{
    if s.len() == 0 {
        None
    } else {
        let before = s.drop_last();
        let x = s.last();
        law_ranked_in_order(before);
        lemma_placed_fit(ranked(before), x, t);
        let r = lemma_best_fit(before, t);
        assert forall|j: int| 0 <= j < before.len() implies #[trigger] s[j] == before[j] by {}
        match r {
            Some(k) => if before[k].quality >= x.quality || !fits(x, t) {
                Some(k)
            } else {
                Some(s.len() - 1)
            },
            None => if fits(x, t) {
                Some(s.len() - 1)
            } else {
                None
            },
        }
    }
}

proof fn lemma_accepted_from(elements: Seq<Seq<char>>, n: int, j: int)
    requires
        0 <= n <= elements.len(),
    ensures
        forall|k: int|
            0 <= k < accepted_elements(elements, n).len() ==> 0 <= #[trigger] element_behind(elements, n, k) < n
                && accepted_element(elements[element_behind(elements, n, k)]) == Some(
                accepted_elements(elements, n)[k],
            ),
        forall|k: int, l: int|
            0 <= k < l < accepted_elements(elements, n).len() ==> #[trigger] element_behind(elements, n, k)
                < #[trigger] element_behind(elements, n, l),
        0 <= j < n && accepted_element(elements[j]) is Some ==> exists|k: int|
            0 <= k < accepted_elements(elements, n).len() && #[trigger] element_behind(elements, n, k) == j,
    decreases n,
{
    if n > 0 {
        lemma_accepted_from(elements, n - 1, j);
        let before = accepted_elements(elements, n - 1);
        let all = accepted_elements(elements, n);
        assert forall|k: int| 0 <= k < all.len() implies 0 <= #[trigger] element_behind(elements, n, k) < n
            && accepted_element(elements[element_behind(elements, n, k)]) == Some(all[k]) by {
            if k < before.len() {
                assert(element_behind(elements, n, k) == element_behind(elements, n - 1, k));
                assert(all[k] == before[k]);
            }
        }
        assert forall|k: int, l: int| 0 <= k < l < all.len() implies #[trigger] element_behind(elements, n, k)
            < #[trigger] element_behind(elements, n, l) by {
            assert(element_behind(elements, n, k) == element_behind(elements, n - 1, k));
            assert(all[k] == before[k]);
            assert(accepted_element(elements[element_behind(elements, n - 1, k)]) == Some(before[k]));
            if l < before.len() {
                assert(element_behind(elements, n, l) == element_behind(elements, n - 1, l));
            }
        }
        if 0 <= j < n && accepted_element(elements[j]) is Some {
            if j == n - 1 {
                assert(element_behind(elements, n, before.len() as int) == j);
            } else {
                let k = choose|k: int|
                    0 <= k < before.len() && #[trigger] element_behind(elements, n - 1, k) == j;
                assert(element_behind(elements, n, k) == j);
            }
        }
    }
}

/// The position of the element that gave the coding at position `k`.
spec fn element_behind(elements: Seq<Seq<char>>, n: int, k: int) -> int
    decreases n,
{
    if n <= 0 {
        -1
    } else if k < accepted_elements(elements, n - 1).len() {
        element_behind(elements, n - 1, k)
    } else {
        n - 1
    }
}

/// The coding that is chosen is the best: no element of the list that names a coding, with a quality above zero,
/// has a higher quality than the element that named it, or the same and stands before it. The identity counts only
/// where it may be chosen, and is what is left where nothing else can be.
pub proof fn law_selected_is_best(accept_encoding: Seq<char>, identity_too: bool, j: int)
    ensures
        ({
            let elements = split_on(accept_encoding, ',');
            let a = selected(accept_encoding, identity_too);
            let fair = 0 <= j < elements.len() && coding_named(element_name(elements[j])) is Some && element_quality(
                elements[j],
            ) as u32 > 0 && (identity_too || coding_named(element_name(elements[j])) != Some(
                CompressionAlgorithm::Identity,
            ));
            &&& fair ==> exists|k: int|
                {
                    &&& 0 <= k < elements.len()
                    &&& coding_named(element_name(#[trigger] elements[k])) == Some(a)
                    &&& element_quality(elements[k]) as u32 > 0
                    &&& element_quality(elements[k]) as u32 > element_quality(elements[j]) as u32 || (element_quality(
                        elements[k],
                    ) as u32 == element_quality(elements[j]) as u32 && k <= j)
                }
            &&& fair && !identity_too ==> a != CompressionAlgorithm::Identity
        }),
{
    let elements = split_on(accept_encoding, ',');
    let n = elements.len() as int;
    let s = accepted_elements(elements, n);
    lemma_accepted_from(elements, n, j);
    let best = lemma_best_fit(s, identity_too);
    let first = lemma_first_fit(ranked(s), identity_too);
    if let Some(i) = first {
        lemma_usable_passes(ranked(s), identity_too, 0, i);
    }
    if 0 <= j < elements.len() && coding_named(element_name(elements[j])) is Some && element_quality(elements[j]) as u32
        > 0 && (identity_too || coding_named(element_name(elements[j])) != Some(CompressionAlgorithm::Identity)) {
        let m = choose|m: int| 0 <= m < s.len() && #[trigger] element_behind(elements, n, m) == j;
        assert(accepted_element(elements[j]) == Some(s[m]));
        assert(fits(s[m], identity_too));
        let k = best.unwrap();
        let e = element_behind(elements, n, k);
        assert(accepted_element(elements[e]) == Some(s[k]));
        if k < m {
            assert(e < j);
        }
        assert(coding_named(element_name(elements[e])) == Some(selected(accept_encoding, identity_too)));
    }
}

/// An element gives the coding that it names, whatever the case of letters, with the quality behind `q=`, or with
/// quality one where it has none.
pub proof fn law_element_is_read(name: Seq<char>, q: Seq<char>)
    requires
        solid(name) && lacks(name, ';'),
        solid(q) && lacks(q, ';'),
    ensures
        element_name(name) == lowered(name),
        element_quality(name) == ONE,
        element_name(name + ";q="@ + q) == lowered(name),
        element_quality(name + ";q="@ + q) == quality_or_one(q),
{
    let param = "q="@ + q;
    let e = name + ";q="@ + q;
    lemma_q_param(q);
    reveal_strlit(";q=");
    reveal_strlit("q=");
    assert(e =~= name + seq![';'] + param);
    assert(lacks(param, ';')) by {
        assert forall|i: int| 0 <= i < param.len() implies #[trigger] param[i] != ';' by {
            if i >= 2 {
                assert(param[i] == q[i - 2]);
            }
        }
    }
    lemma_split_two(name, param, ';');
    lemma_trimmed_solid(name);
    let params = seq![name, param];
    assert(split_on(e, ';') == params);
    reveal_with_fuel(quality_among, 3);
    assert(params[1] == param);
}

/// A quality parameter is read as what stands behind its sign.
pub proof fn lemma_q_param(q: Seq<char>)
    requires
        solid(q),
    ensures
        trimmed("q="@ + q) == "q="@ + q,
        q_value("q="@ + q) == Some(q),
        find("q="@ + q, '=') == Some(1int),
        ("q="@ + q).take(1) == "q"@,
        trimmed("q"@) == "q"@,
{
    reveal_strlit("q=");
    reveal_strlit("q");
    let param = "q="@ + q;
    assert(!is_white(param[0]));
    if q.len() > 0 {
        assert(param.last() == q.last());
        assert(!is_white(q[q.len() - 1]));
    }
    lemma_trimmed_solid(param);
    lemma_find_is(param, '=', 1);
    assert(param.take(1) =~= "q"@);
    lemma_trimmed_solid("q"@);
    assert(param.skip(2) =~= q);
    lemma_trimmed_solid(q);
}

/// The names of codings differ in their first octets.
pub proof fn lemma_coding_octets(a: CompressionAlgorithm, b: CompressionAlgorithm)
    ensures
        encode_utf8(coding_name(a)).len() > 0,
        encode_utf8(coding_name(a))[0] == encode_utf8(coding_name(b))[0] ==> a == b,
{
    lemma_first_octets(a);
    lemma_first_octets(b);
}

proof fn lemma_first_octets(a: CompressionAlgorithm)
    ensures
        encode_utf8(coding_name(a)).len() > 0,
        encode_utf8(coding_name(a))[0] == (match a {
            CompressionAlgorithm::Identity => 'i' as u8,
            CompressionAlgorithm::Gzip => 'g' as u8,
            CompressionAlgorithm::Deflate => 'd' as u8,
            CompressionAlgorithm::Brotli => 'b' as u8,
            CompressionAlgorithm::Zstd => 'z' as u8,
        }),
{
    reveal_strlit("identity");
    reveal_strlit("gzip");
    reveal_strlit("deflate");
    reveal_strlit("br");
    reveal_strlit("zstd");
    is_ascii_chars_encode_utf8(coding_name(a));
}

}
