//! Responses of HTTP/1 as they arrive: where the header ends, how long the body is, and when all is there.
use vstd::prelude::*;
use vstd::slice::slice_subrange;

use crate::bytes::{find_bytes, push_bytes};
use crate::decimal::{decimal, is_digit, law_decimal_roundtrip, lemma_decimal_digits, parse_usize, parsed};
use crate::net::http::headers::{field_in, read_field};
use crate::net::https::client::{HttpsError, ResponseFault};
use crate::text::{
    chars_of, contains_text, first_occurrence, has_text, is_text, joined, lemma_first_occurrence, lemma_trimmed_solid,
    lines, lines_of, lossy, lossy_text, lowered, occurs_at, texts, to_lower, trim, trimmed,
};
use vstd::utf8::{encode_utf8, encode_utf8_decode_utf8, encode_utf8_valid_utf8};
use crate::net::http::wire::{
    crlf, is_header_line, lemma_crlf_octets, lemma_header_end_octets, lemma_header_lines_ended, lemma_utf8_concat,
};

verus! {

/// The end of a header: two line ends.
pub open spec fn blank_line() -> Seq<u8> {
    seq![13u8, 10, 13, 10]
}

/// Where the body begins.
pub open spec fn body_start(data: Seq<u8>) -> Option<int> {
    match first_occurrence(data, blank_line(), 0) {
        Some(i) => Some(i + 4),
        None => None,
    }
}

/// Finds where the body begins.
pub fn find_http_header_end(data: &[u8]) -> (r: Option<usize>)
    ensures
        match r {
            Some(i) => body_start(data@) == Some(i as int) && 4 <= i <= data@.len(),
            None => body_start(data@) is None,
        },
{
    let mut mark: Vec<u8> = Vec::new();
    mark.push(13);
    mark.push(10);
    mark.push(13);
    mark.push(10);
    assert(mark@ =~= blank_line());
    proof {
        lemma_first_occurrence(data@, blank_line(), 0);
    }
    let end: usize = data.len();
    assert(blank_line().len() == 4);
    match find_bytes(data, mark.as_slice()) {
        Some(i) => Some(i + 4),
        None => None,
    }
}

/// What a header says of the length of the body: the length, if it can be read, and whether the body comes in
/// chunks.
pub open spec fn meta_among(lines: Seq<Seq<char>>, n: int) -> (Option<nat>, bool)
    decreases n,
{
    if n <= 1 {
        (None, false)
    } else {
        let before = meta_among(lines, n - 1);
        match field_in(lines[n - 1]) {
            None => before,
            Some((k, v)) => if lowered(k) == "content-length"@ {
                (parsed(lowered(v), usize::MAX as nat), before.1)
            } else if lowered(k) == "transfer-encoding"@ && has_text(lowered(v), "chunked"@) {
                (before.0, true)
            } else {
                before
            },
        }
    }
}

/// How many lines stand before the first blank one, the first line not looked at.
pub open spec fn header_len(lines: Seq<Seq<char>>, i: int) -> int
    decreases lines.len() - i,
{
    if i >= lines.len() {
        i
    } else if trimmed(lines[i]).len() == 0 {
        i
    } else {
        header_len(lines, i + 1)
    }
}

/// What a header in octets says of the length of the body.
pub open spec fn meta_in(header: Seq<u8>) -> (Option<nat>, bool) {
    let l = lines_of(lossy(header));
    meta_among(l, header_len(l, 1))
}

pub open spec fn opt_nat(o: Option<usize>) -> Option<nat> {
    match o {
        Some(n) => Some(n as nat),
        None => None,
    }
}

/// Reads what a header says of the length of the body.
pub fn parse_http1_meta(header_section: &[u8]) -> (r: (Option<usize>, bool))
    ensures
        (opt_nat(r.0), r.1) == meta_in(header_section@),
{
    let text = lossy_text(header_section);
    read_http1_meta(text.as_str())
}

/// Reads what a header says of the length of the body.
pub fn read_http1_meta(text: &str) -> (r: (Option<usize>, bool))
    ensures
        (opt_nat(r.0), r.1) == meta_among(lines_of(text@), header_len(lines_of(text@), 1)),
{
    let chars = chars_of(text);
    let all = lines(chars.as_slice());
    let ghost l = lines_of(text@);
    let mut content_length: Option<usize> = None;
    let mut chunked = false;
    let mut i: usize = 1;
    while i < all.len()
        invariant_except_break
            1 <= i,
            i <= all@.len() || i == 1,
            texts(all@) == l,
            header_len(l, i as int) == header_len(l, 1),
            (opt_nat(content_length), chunked) == meta_among(l, i as int),
        ensures
            (opt_nat(content_length), chunked) == meta_among(l, header_len(l, 1)),
        decreases all@.len() - i,
    {
        assert(l[i as int] == all@[i as int]@);
        if trim(all[i]).len() == 0 {
            break;
        }
        match read_field(all[i]) {
            None => {},
            Some((k, v)) => {
                let key = to_lower(k);
                let value = to_lower(v);
                if is_text(key.as_slice(), "content-length") {
                    content_length = parse_usize(value.as_slice());
                } else if is_text(key.as_slice(), "transfer-encoding") && contains_text(
                    value.as_slice(),
                    "chunked",
                ) {
                    chunked = true;
                }
            },
        }
        i = i + 1;
    }
    (content_length, chunked)
}

/// The last chunk, behind another.
pub open spec fn last_chunk() -> Seq<u8> {
    seq![13u8, 10, 48, 13, 10, 13, 10]
}

/// Whether the last chunk is there.
pub open spec fn chunks_end(body: Seq<u8>) -> bool {
    ||| exists|i: int| 0 <= i && #[trigger] occurs_at(body, last_chunk(), i)
    ||| body.len() >= 5 && body.skip(body.len() - 5) == last_chunk().skip(2)
}

/// Tells whether the last chunk is there.
pub fn chunked_body_complete(body: &[u8]) -> (r: bool)
    ensures
        r == chunks_end(body@),
{
    let mut mark: Vec<u8> = Vec::new();
    mark.push(13);
    mark.push(10);
    mark.push(48);
    mark.push(13);
    mark.push(10);
    mark.push(13);
    mark.push(10);
    assert(mark@ =~= last_chunk());
    proof {
        lemma_first_occurrence(body@, last_chunk(), 0);
    }
    match find_bytes(body, mark.as_slice()) {
        Some(i) => {
            assert(occurs_at(body@, last_chunk(), i as int));
            return true;
        },
        None => {},
    }
    if body.len() < 5 {
        return false;
    }
    let tail = slice_subrange(body, body.len() - 5, body.len());
    let short = slice_subrange(mark.as_slice(), 2, 7);
    assert(tail@ =~= body@.skip(body@.len() - 5));
    assert(short@ =~= last_chunk().skip(2));
    crate::bytes::constant_time_eq(tail, short)
}

/// Whether a response is all there, as far as it tells.
pub open spec fn is_complete(data: Seq<u8>) -> bool {
    match body_start(data) {
        None => false,
        Some(i) => {
            let (length, chunked) = meta_in(data.take(i));
            let body = data.skip(i);
            match length {
                Some(n) => body.len() >= n,
                None => chunked && chunks_end(body),
            }
        },
    }
}

/// Tells whether a response is all there, as far as it tells.
pub fn response_complete(data: &[u8]) -> (r: bool)
    ensures
        r == is_complete(data@),
{
    match find_http_header_end(data) {
        None => false,
        Some(i) => {
            let header = slice_subrange(data, 0, i);
            let body = slice_subrange(data, i, data.len());
            assert(header@ =~= data@.take(i as int));
            assert(body@ =~= data@.skip(i as int));
            let (length, chunked) = parse_http1_meta(header);
            match length {
                Some(n) => body.len() >= n,
                None => chunked && chunked_body_complete(body),
            }
        },
    }
}

/// What happens while a response is awaited.
#[derive(Debug, Clone)]
pub enum ReadEvent {
    /// The time is up.
    Elapsed,
    /// The other side has nothing more to send.
    Closed,
    /// Octets came in.
    Octets(Vec<u8>),
    /// Nothing is there yet.
    NotReady,
}

/// What is to be done next while a response is awaited.
#[derive(Debug, Clone, Copy, PartialEq, Eq, Structural)]
pub enum ReadStep {
    /// Read on.
    Read,
    /// Wait a little, and read on.
    Wait,
    /// Take what is there.
    Done,
    /// Give up: the time is up and nothing came.
    TimedOut,
}

/// What is to be done after an event; `data` is what is there after it.
pub open spec fn step_after(event: ReadEvent, data: Seq<u8>) -> ReadStep {
    match event {
        ReadEvent::Elapsed => if data.len() == 0 {
            ReadStep::TimedOut
        } else {
            ReadStep::Done
        },
        ReadEvent::Closed => ReadStep::Done,
        ReadEvent::Octets(_) => if is_complete(data) {
            ReadStep::Done
        } else {
            ReadStep::Read
        },
        ReadEvent::NotReady => if data.len() > 0 {
            ReadStep::Done
        } else {
            ReadStep::Wait
        },
    }
}

/// The octets that an event brings.
pub open spec fn brought(event: ReadEvent) -> Seq<u8> {
    match event {
        ReadEvent::Octets(o) => o@,
        _ => seq![],
    }
}

/// Takes in an event, and tells what is to be done next.
pub fn on_read_event(data: &mut Vec<u8>, event: &ReadEvent) -> (r: ReadStep)
    ensures
        final(data)@ == old(data)@ + brought(*event),
        r == step_after(*event, final(data)@),
{
    match event {
        ReadEvent::Elapsed => {
            assert(data@ =~= data@ + seq![]);
            if data.len() == 0 {
                ReadStep::TimedOut
            } else {
                ReadStep::Done
            }
        },
        ReadEvent::Closed => {
            assert(data@ =~= data@ + seq![]);
            ReadStep::Done
        },
        ReadEvent::Octets(o) => {
            push_bytes(data, o.as_slice());
            if response_complete(data.as_slice()) {
                ReadStep::Done
            } else {
                ReadStep::Read
            }
        },
        ReadEvent::NotReady => {
            assert(data@ =~= data@ + seq![]);
            if data.len() > 0 {
                ReadStep::Done
            } else {
                ReadStep::Wait
            }
        },
    }
}

/// Takes what was read as a response: nothing at all is none.
pub fn finish_http1_read(data: Vec<u8>) -> (r: Result<Vec<u8>, HttpsError>)
    ensures
        r == (if data@.len() == 0 {
            Err::<Vec<u8>, HttpsError>(HttpsError::InvalidResponse(ResponseFault::Empty))
        } else {
            Ok(data)
        }),
{
    if data.len() == 0 {
        Err(HttpsError::InvalidResponse(ResponseFault::Empty))
    } else {
        Ok(data)
    }
}

/// Octets of a header and a body.
pub open spec fn message_octets(lines: Seq<Seq<char>>, body: Seq<u8>) -> Seq<u8> {
    encode_utf8(joined(lines, crlf())) + seq![13u8, 10u8, 13u8, 10u8] + body
}

proof fn lemma_message(lines: Seq<Seq<char>>, body: Seq<u8>)
    requires
        lines.len() > 0,
        forall|i: int| 0 <= i < lines.len() ==> is_header_line(#[trigger] lines[i]),
        forall|i: int| 1 <= i < lines.len() ==> trimmed(#[trigger] lines[i]).len() > 0,
    ensures
        ({
            let data = message_octets(lines, body);
            &&& body_start(data) matches Some(i) && data.skip(i) == body && meta_in(data.take(i)) == meta_among(
                lines,
                lines.len() as int,
            )
        }),
{
    let text = joined(lines, crlf());
    let end = seq![13u8, 10u8, 13u8, 10u8];
    let data = message_octets(lines, body);
    lemma_header_end_octets(lines, body);
    let i = encode_utf8(text).len() as int + 4;
    assert(data.skip(i) =~= body);
    let whole = text + crlf() + crlf();
    lemma_utf8_concat(text + crlf(), crlf());
    lemma_utf8_concat(text, crlf());
    lemma_crlf_octets();
    assert(data.take(i) =~= encode_utf8(whole));
    encode_utf8_valid_utf8(whole);
    encode_utf8_decode_utf8(whole);
    lemma_header_lines_ended(lines);
    let l = lines.push(seq![]);
    assert(lines_of(lossy(data.take(i))) == l);
    assert(trimmed(seq![]).len() == 0) by {
        lemma_trimmed_solid(seq![]);
    }
    assert(l[lines.len() as int] == Seq::<char>::empty());
    assert forall|j: int| 1 <= j < lines.len() implies trimmed(#[trigger] l[j]).len() > 0 by {
        assert(l[j] == lines[j]);
    }
    lemma_header_len(l, 1, lines.len() as int);
    lemma_meta_prefix(lines, l, lines.len() as int);
}

proof fn lemma_header_len(l: Seq<Seq<char>>, i: int, n: int)
    requires
        0 <= i <= n < l.len(),
        trimmed(l[n]).len() == 0,
        forall|j: int| i <= j < n ==> trimmed(#[trigger] l[j]).len() > 0,
    ensures
        header_len(l, i) == n,
    decreases n - i,
{
    if i < n {
        assert(trimmed(l[i]).len() > 0);
        lemma_header_len(l, i + 1, n);
    }
}

proof fn lemma_meta_prefix(a: Seq<Seq<char>>, b: Seq<Seq<char>>, n: int)
    requires
        n <= a.len(),
        n <= b.len(),
        forall|j: int| 0 <= j < n ==> #[trigger] a[j] == b[j],
    ensures
        meta_among(a, n) == meta_among(b, n),
    decreases n,
{
    if n > 1 {
        lemma_meta_prefix(a, b, n - 1);
        assert(a[n - 1] == b[n - 1]);
    }
}

proof fn lemma_meta_length(lines: Seq<Seq<char>>, n: int, k: int)
    requires
        1 <= k < n <= lines.len(),
        field_in(lines[k]) matches Some((name, _)) && lowered(name) == "content-length"@,
        forall|j: int|
            k < j < n ==> (field_in(#[trigger] lines[j]) matches Some((name, _)) ==> lowered(name)
                != "content-length"@),
    ensures
        meta_among(lines, n).0 == parsed(lowered(field_in(lines[k]).unwrap().1), usize::MAX as nat),
    decreases n,
{
    if k < n - 1 {
        assert(field_in(lines[n - 1]) matches Some((name, _)) ==> lowered(name) != "content-length"@);
        lemma_meta_length(lines, n - 1, k);
    }
}

proof fn lemma_meta_unsized(lines: Seq<Seq<char>>, n: int)
    requires
        n <= lines.len(),
        forall|j: int|
            1 <= j < n ==> (field_in(#[trigger] lines[j]) matches Some((name, _)) ==> lowered(name)
                != "content-length"@),
    ensures
        meta_among(lines, n).0 is None,
        meta_among(lines, n).1 <==> exists|j: int|
            1 <= j < n && (field_in(#[trigger] lines[j]) matches Some((name, v)) && lowered(name)
                == "transfer-encoding"@ && has_text(lowered(v), "chunked"@)),
    decreases n,
{
    if n > 1 {
        lemma_meta_unsized(lines, n - 1);
        assert(field_in(lines[n - 1]) matches Some((name, _)) ==> lowered(name) != "content-length"@);
    }
}

/// A response that tells its length is all there just when so many octets follow its header, whatever else it tells.
pub proof fn law_complete_by_length(lines: Seq<Seq<char>>, k: int, n: usize, body: Seq<u8>)
    requires
        forall|i: int| 0 <= i < lines.len() ==> is_header_line(#[trigger] lines[i]),
        forall|i: int| 1 <= i < lines.len() ==> trimmed(#[trigger] lines[i]).len() > 0,
        1 <= k < lines.len(),
        field_in(lines[k]) matches Some((name, v)) && lowered(name) == "content-length"@ && v == decimal(n as nat),
        forall|j: int|
            k < j < lines.len() ==> (field_in(#[trigger] lines[j]) matches Some((name, _)) ==> lowered(name)
                != "content-length"@),
    ensures
        is_complete(message_octets(lines, body)) <==> body.len() >= n,
{
    lemma_message(lines, body);
    lemma_meta_length(lines, lines.len() as int, k);
    let d = decimal(n as nat);
    lemma_decimal_digits(n as nat);
    law_decimal_roundtrip(n as nat, usize::MAX as nat);
    assert forall|i: int| 0 <= i < d.len() implies #[trigger] lowered(d)[i] == d[i] by {
        assert(is_digit(d[i]));
    }
    assert(lowered(d) =~= d);
}

/// A response that tells no length is all there just when it comes in chunks and the last one is there: behind another,
/// or as the whole end of what came.
pub proof fn law_complete_without_length(lines: Seq<Seq<char>>, body: Seq<u8>)
    requires
        lines.len() > 0,
        forall|i: int| 0 <= i < lines.len() ==> is_header_line(#[trigger] lines[i]),
        forall|i: int| 1 <= i < lines.len() ==> trimmed(#[trigger] lines[i]).len() > 0,
        forall|j: int|
            1 <= j < lines.len() ==> (field_in(#[trigger] lines[j]) matches Some((name, _)) ==> lowered(name)
                != "content-length"@),
    ensures
        is_complete(message_octets(lines, body)) <==> (exists|j: int|
            1 <= j < lines.len() && (field_in(#[trigger] lines[j]) matches Some((name, v)) && lowered(name)
                == "transfer-encoding"@ && has_text(lowered(v), "chunked"@))) && ((exists|i: int|
            0 <= i <= body.len() - 7 && #[trigger] body.subrange(i, i + 7) == seq![13u8, 10, 48, 13, 10, 13, 10])
            || (body.len() >= 5 && body.skip(body.len() - 5) == seq![48u8, 13, 10, 13, 10])),
{
    lemma_message(lines, body);
    lemma_meta_unsized(lines, lines.len() as int);
    assert(last_chunk().skip(2) =~= seq![48u8, 13, 10, 13, 10]);
    assert(last_chunk() =~= seq![13u8, 10, 48, 13, 10, 13, 10]);
    if exists|i: int| 0 <= i && #[trigger] occurs_at(body, last_chunk(), i) {
        let i = choose|i: int| 0 <= i && #[trigger] occurs_at(body, last_chunk(), i);
        assert(body.subrange(i, i + 7) == last_chunk());
    }
    if exists|i: int|
        0 <= i <= body.len() - 7 && #[trigger] body.subrange(i, i + 7) == seq![13u8, 10, 48, 13, 10, 13, 10] {
        let i = choose|i: int|
            0 <= i <= body.len() - 7 && #[trigger] body.subrange(i, i + 7) == seq![13u8, 10, 48, 13, 10, 13, 10];
        assert(occurs_at(body, last_chunk(), i));
    }
}

/// Reading ends when the response is all there, when the other side closes, or when time is up and something came; it
/// goes on while octets come and something is missing. Where nothing came, it waits until time is up.
pub proof fn law_reading_ends(event: ReadEvent, data: Seq<u8>)
    ensures
        event is Octets ==> step_after(event, data) == (if is_complete(data) {
            ReadStep::Done
        } else {
            ReadStep::Read
        }),
        event is Closed ==> step_after(event, data) == ReadStep::Done,
        data.len() > 0 && !(event is Octets) ==> step_after(event, data) == ReadStep::Done,
        data.len() == 0 && event is Elapsed ==> step_after(event, data) == ReadStep::TimedOut,
        data.len() == 0 && event is NotReady ==> step_after(event, data) == ReadStep::Wait,
{
}

}
