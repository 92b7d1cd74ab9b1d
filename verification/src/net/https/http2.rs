//! Frames of HTTP/2 as a client sends and reads them.
use vstd::prelude::*;

use crate::bytes::{
    be24, be32, copy_range, from_be24, from_be32, law_be24_roundtrip, law_be32_roundtrip, push_be32,
    push_bytes, read_be24, read_be32,
};
use crate::net::https::client::{HttpsError, ResponseFault};
use crate::net::https::http1::ReadEvent;
use crate::net::https::tls::certificate::{cut24, push_cut24};

verus! {

pub const FRAME_DATA: u8 = 0;

pub const FRAME_HEADERS: u8 = 1;

pub const FRAME_RST_STREAM: u8 = 3;

pub const FRAME_SETTINGS: u8 = 4;

pub const FRAME_CONTINUATION: u8 = 9;

/// The last frame of a stream, and the answer to settings.
pub const FLAG_END: u8 = 1;

pub const FLAG_END_HEADERS: u8 = 4;

/// The octets with which a client begins.
pub const CONNECTION_PREFACE: &'static str = "PRI * HTTP/2.0\r\n\r\nSM\r\n\r\n";

/// A number of a stream in 31 bits.
pub open spec fn cut31(n: nat) -> u32 {
    (n % 0x8000_0000) as u32
}

/// A frame.
pub open spec fn frame(frame_type: u8, flags: u8, stream_id: u32, payload: Seq<u8>) -> Seq<u8> {
    be24(cut24(payload.len())) + seq![frame_type, flags] + be32(cut31(stream_id as nat)) + payload
}

/// Writes a frame.
pub fn build_http2_frame(frame_type: u8, flags: u8, stream_id: u32, payload: &[u8]) -> (r: Vec<u8>)
    ensures
        r@ == frame(frame_type, flags, stream_id, payload@),
{
    let mut out: Vec<u8> = Vec::new();
    push_cut24(&mut out, payload.len());
    out.push(frame_type);
    out.push(flags);
    push_be32(&mut out, stream_id % 0x8000_0000);
    push_bytes(&mut out, payload);
    assert(out@ =~= frame(frame_type, flags, stream_id, payload@));
    out
}

/// Whether the lowest bit is set.
pub open spec fn has_end(flags: u8) -> bool {
    flags & FLAG_END != 0
}

/// A response as it is read from frames: the stream that it comes on, the octets that are not yet a whole
/// frame, the block of its header, its body, and whether it is over.
#[derive(Debug, Clone)]
pub struct Http2Reader {
    pub target_stream_id: u32,
    pub received: Vec<u8>,
    pub header_block: Vec<u8>,
    pub body: Vec<u8>,
    pub end_stream: bool,
}

#[verifier::ext_equal]
pub struct ReaderView {
    pub target: u32,
    pub received: Seq<u8>,
    pub header_block: Seq<u8>,
    pub body: Seq<u8>,
    pub ended: bool,
}

impl View for Http2Reader {
    type V = ReaderView;

    open spec fn view(&self) -> ReaderView {
        ReaderView {
            target: self.target_stream_id,
            received: self.received@,
            header_block: self.header_block@,
            body: self.body@,
            ended: self.end_stream,
        }
    }
}

/// The length of the payload of the frame at the beginning.
pub open spec fn frame_len(s: Seq<u8>) -> int {
    from_be24(s[0], s[1], s[2]) as int
}

/// Whether a whole frame stands at the beginning.
pub open spec fn has_frame(s: Seq<u8>) -> bool {
    s.len() >= 9 && s.len() >= 9 + frame_len(s)
}

/// The stream of the frame at the beginning.
pub open spec fn frame_stream(s: Seq<u8>) -> u32 {
    cut31(from_be32(s[5], s[6], s[7], s[8]))
}

/// Whether the frame at the beginning tells settings that are to be answered.
pub open spec fn is_settings(s: Seq<u8>) -> bool {
    s[3] == FRAME_SETTINGS && frame_stream(s) == 0 && !has_end(s[4])
}

/// Whether the frame at the beginning breaks the response off.
pub open spec fn is_reset(r: ReaderView) -> bool {
    !is_settings(r.received) && frame_stream(r.received) == r.target && r.received[3] == FRAME_RST_STREAM
}

/// The response after the frame at the beginning.
pub open spec fn after_frame(r: ReaderView) -> ReaderView {
    let s = r.received;
    let payload = s.subrange(9, 9 + frame_len(s));
    let rest = ReaderView { received: s.skip(9 + frame_len(s)), ..r };
    if is_settings(s) || frame_stream(s) != r.target {
        rest
    } else if s[3] == FRAME_HEADERS || s[3] == FRAME_CONTINUATION {
        ReaderView {
            header_block: r.header_block + payload,
            ended: r.ended || has_end(s[4]),
            ..rest
        }
    } else if s[3] == FRAME_DATA {
        ReaderView { body: r.body + payload, ended: r.ended || has_end(s[4]), ..rest }
    } else {
        rest
    }
}

/// The answer to the frame at the beginning: settings are answered, nothing else.
pub open spec fn answer_to(s: Seq<u8>) -> Seq<u8> {
    if is_settings(s) {
        frame(FRAME_SETTINGS, FLAG_END, 0, seq![])
    } else {
        seq![]
    }
}

/// The response after all whole frames that are there, up to its last; what is to be answered, and whether it
/// was broken off.
pub open spec fn drained(r: ReaderView, answers: Seq<u8>) -> (ReaderView, Seq<u8>, bool)
    decreases r.received.len(),
{
    if !has_frame(r.received) {
        (r, answers, false)
    } else {
        let more = answers + answer_to(r.received);
        let next = after_frame(r);
        if is_reset(r) {
            (next, more, true)
        } else if next.ended {
            (next, more, false)
        } else {
            drained(next, more)
        }
    }
}

impl Http2Reader {
    pub fn new(target_stream_id: u32) -> (r: Self)
        ensures
            r@ == (ReaderView {
                target: target_stream_id,
                received: seq![],
                header_block: seq![],
                body: seq![],
                ended: false,
            }),
    {
        let r = Http2Reader {
            target_stream_id,
            received: Vec::new(),
            header_block: Vec::new(),
            body: Vec::new(),
            end_stream: false,
        };
        assert(r@ =~= (ReaderView {
            target: target_stream_id,
            received: seq![],
            header_block: seq![],
            body: seq![],
            ended: false,
        }));
        r
    }

    /// Reads the frame at the beginning. Gives what is to be answered, and whether the response was broken
    /// off.
    fn read_frame(&mut self) -> (r: (Vec<u8>, bool))
        requires
            has_frame(old(self)@.received),
        ensures
            final(self)@ == after_frame(old(self)@),
            r.0@ == answer_to(old(self)@.received),
            r.1 == is_reset(old(self)@),
    {
        let n = read_be24(self.received.as_slice(), 0);
        let frame_type = self.received[3];
        let flags = self.received[4];
        let stream_id = read_be32(self.received.as_slice(), 5) % 0x8000_0000;
        let end: usize = self.received.len();
        let payload = copy_range(self.received.as_slice(), 9, 9 + n);
        let rest = copy_range(self.received.as_slice(), 9 + n, end);
        assert(rest@ =~= self@.received.skip(9 + n as int));
        self.received = rest;
        if frame_type == FRAME_SETTINGS && stream_id == 0 && flags & FLAG_END == 0 {
            let none: Vec<u8> = Vec::new();
            assert(none@ =~= seq![]);
            let ack = build_http2_frame(FRAME_SETTINGS, FLAG_END, 0, none.as_slice());
            return (ack, false);
        }
        let none: Vec<u8> = Vec::new();
        assert(none@ =~= seq![]);
        if stream_id != self.target_stream_id {
            return (none, false);
        }
        if frame_type == FRAME_HEADERS || frame_type == FRAME_CONTINUATION {
            push_bytes(&mut self.header_block, payload.as_slice());
            if flags & FLAG_END != 0 {
                self.end_stream = true;
            }
            (none, false)
        } else if frame_type == FRAME_DATA {
            push_bytes(&mut self.body, payload.as_slice());
            if flags & FLAG_END != 0 {
                self.end_stream = true;
            }
            (none, false)
        } else {
            (none, frame_type == FRAME_RST_STREAM)
        }
    }

    /// Takes in octets, and reads the whole frames that are there, up to the last of the response. Gives what
    /// is to be answered, and whether the response was broken off.
    pub fn on_octets(&mut self, octets: &[u8]) -> (r: (Vec<u8>, bool))
        ensures
            ({
                let start = ReaderView {
                    received: old(self)@.received + octets@,
                    ..old(self)@
                };
                (final(self)@, r.0@, r.1) == drained(start, seq![])
            }),
    {
        let ghost start = ReaderView { received: self@.received + octets@, ..self@ };
        push_bytes(&mut self.received, octets);
        assert(self@ =~= start);
        let mut answers: Vec<u8> = Vec::new();
        assert(answers@ =~= seq![]);
        loop
            invariant
                drained(self@, answers@) == drained(start, seq![]),
                start == (ReaderView { received: old(self)@.received + octets@, ..old(self)@ }),
            decreases self@.received.len(),
        {
            let have: usize = self.received.len();
            if have < 9 || have - 9 < read_be24(self.received.as_slice(), 0) {
                return (answers, false);
            }
            let (ack, reset) = self.read_frame();
            push_bytes(&mut answers, ack.as_slice());
            if reset {
                return (answers, true);
            }
            if self.end_stream {
                return (answers, false);
            }
        }
    }
}

/// What is to be done next while a response is awaited.
#[derive(Debug, Clone, Copy, PartialEq, Eq, Structural)]
pub enum Http2Step {
    /// Read on.
    Read,
    /// Wait a little, and read on.
    Wait,
    /// Take what is there.
    Done,
    /// Give up: the time is up and nothing came.
    TimedOut,
    /// Give up: the response was broken off.
    Reset,
}

/// A response after an event, what is to be answered, and what is to be done next.
pub open spec fn http2_after(r: ReaderView, event: ReadEvent) -> (ReaderView, Seq<u8>, Http2Step) {
    match event {
        ReadEvent::Elapsed => (
            r,
            seq![],
            if r.header_block.len() == 0 && r.body.len() == 0 {
                Http2Step::TimedOut
            } else {
                Http2Step::Done
            },
        ),
        ReadEvent::Closed => (r, seq![], Http2Step::Done),
        ReadEvent::NotReady => (r, seq![], Http2Step::Wait),
        ReadEvent::Octets(o) => {
            let (next, answers, reset) = drained(
                ReaderView { received: r.received + o@, ..r },
                seq![],
            );
            (
                next,
                answers,
                if reset {
                    Http2Step::Reset
                } else if next.ended {
                    Http2Step::Done
                } else {
                    Http2Step::Read
                },
            )
        },
    }
}

impl Http2Reader {
    /// Takes in an event. Gives what is to be answered, and what is to be done next.
    pub fn on_event(&mut self, event: &ReadEvent) -> (r: (Vec<u8>, Http2Step))
        ensures
            (final(self)@, r.0@, r.1) == http2_after(old(self)@, *event),
    {
        let none: Vec<u8> = Vec::new();
        assert(none@ =~= seq![]);
        match event {
            ReadEvent::Elapsed => if self.header_block.len() == 0 && self.body.len() == 0 {
                (none, Http2Step::TimedOut)
            } else {
                (none, Http2Step::Done)
            },
            ReadEvent::Closed => (none, Http2Step::Done),
            ReadEvent::NotReady => (none, Http2Step::Wait),
            ReadEvent::Octets(o) => {
                let (answers, reset) = self.on_octets(o.as_slice());
                if reset {
                    (answers, Http2Step::Reset)
                } else if self.end_stream {
                    (answers, Http2Step::Done)
                } else {
                    (answers, Http2Step::Read)
                }
            },
        }
    }

    /// Takes what was read as a response: its header block and its body. Without a header block it is none.
    pub fn finish(self) -> (r: Result<(Vec<u8>, Vec<u8>), HttpsError>)
        ensures
            match r {
                Ok((h, b)) => self@.header_block.len() > 0 && h@ == self@.header_block && b@ == self@.body,
                Err(e) => self@.header_block.len() == 0 && e == HttpsError::InvalidResponse(
                    ResponseFault::MissingHeaders,
                ),
            },
    {
        if self.header_block.len() == 0 {
            Err(HttpsError::InvalidResponse(ResponseFault::MissingHeaders))
        } else {
            Ok((self.header_block, self.body))
        }
    }
}

proof fn lemma_frame_parts(frame_type: u8, flags: u8, stream_id: u32, payload: Seq<u8>, rest: Seq<u8>)
    requires
        payload.len() < 0x100_0000,
        stream_id < 0x8000_0000,
    ensures
        ({
            let s = frame(frame_type, flags, stream_id, payload) + rest;
            &&& has_frame(s)
            &&& frame_len(s) == payload.len()
            &&& s[3] == frame_type
            &&& s[4] == flags
            &&& frame_stream(s) == stream_id
            &&& s.subrange(9, 9 + frame_len(s)) == payload
            &&& s.skip(9 + frame_len(s)) == rest
        }),
{
    let s = frame(frame_type, flags, stream_id, payload) + rest;
    let a = be24(cut24(payload.len()));
    let b = be32(cut31(stream_id as nat));
    law_be24_roundtrip(payload.len());
    law_be32_roundtrip(stream_id);
    assert(a.len() == 3 && b.len() == 4);
    lemma_frame_layout(a, frame_type, flags, b, payload, rest);
}

proof fn lemma_frame_layout(a: Seq<u8>, frame_type: u8, flags: u8, b: Seq<u8>, payload: Seq<u8>, rest: Seq<u8>)
    requires
        a.len() == 3,
        b.len() == 4,
    ensures
        ({
            let s = a + seq![frame_type, flags] + b + payload + rest;
            &&& s.len() == 9 + payload.len() + rest.len()
            &&& s[0] == a[0] && s[1] == a[1] && s[2] == a[2] && s[3] == frame_type && s[4] == flags
            &&& s[5] == b[0] && s[6] == b[1] && s[7] == b[2] && s[8] == b[3]
            &&& s.subrange(9, 9 + payload.len() as int) == payload
            &&& s.skip(9 + payload.len() as int) == rest
        }),
{
    let s = a + seq![frame_type, flags] + b + payload + rest;
    assert(s.subrange(9, 9 + payload.len() as int) =~= payload);
    assert(s.skip(9 + payload.len() as int) =~= rest);
}

/// A header and a body that are sent on a stream, each in one frame, are read back whole, whatever the other
/// side tells of its settings before.
pub proof fn law_response_frames_are_read(stream_id: u32, header_block: Seq<u8>, body: Seq<u8>, rest: Seq<u8>)
    requires
        0 < stream_id < 0x8000_0000,
        header_block.len() < 0x100_0000,
        body.len() < 0x100_0000,
    ensures
        ({
            let sent = frame(FRAME_SETTINGS, 0, 0, seq![]) + (frame(
                FRAME_HEADERS,
                FLAG_END_HEADERS,
                stream_id,
                header_block,
            ) + (frame(FRAME_DATA, FLAG_END, stream_id, body) + rest));
            let start = ReaderView {
                target: stream_id,
                received: sent,
                header_block: seq![],
                body: seq![],
                ended: false,
            };
            drained(start, seq![]) == (
                ReaderView {
                    target: stream_id,
                    received: rest,
                    header_block,
                    body,
                    ended: true,
                },
                frame(FRAME_SETTINGS, FLAG_END, 0, seq![]),
                false,
            )
        }),
{
    let data = frame(FRAME_DATA, FLAG_END, stream_id, body) + rest;
    let headers = frame(FRAME_HEADERS, FLAG_END_HEADERS, stream_id, header_block) + data;
    let sent = frame(FRAME_SETTINGS, 0, 0, seq![]) + headers;
    lemma_frame_parts(FRAME_SETTINGS, 0, 0, seq![], headers);
    lemma_frame_parts(FRAME_HEADERS, FLAG_END_HEADERS, stream_id, header_block, data);
    lemma_frame_parts(FRAME_DATA, FLAG_END, stream_id, body, rest);
    assert(0u8 & FLAG_END == 0) by (bit_vector);
    assert(FLAG_END_HEADERS & FLAG_END == 0) by (bit_vector);
    assert(FLAG_END & FLAG_END != 0) by (bit_vector);
    let start = ReaderView {
        target: stream_id,
        received: sent,
        header_block: seq![],
        body: seq![],
        ended: false,
    };
    let ack = frame(FRAME_SETTINGS, FLAG_END, 0, seq![]);
    let r1 = after_frame(start);
    assert(r1 =~= (ReaderView { received: headers, ..start }));
    assert(seq![] + ack =~= ack);
    assert(drained(start, seq![]) == drained(r1, ack));
    let r2 = after_frame(r1);
    assert(seq![] + header_block =~= header_block);
    assert(r2 =~= (ReaderView { received: data, header_block, ..r1 }));
    assert(ack + seq![] =~= ack);
    assert(drained(r1, ack) == drained(r2, ack));
    let r3 = after_frame(r2);
    assert(seq![] + body =~= body);
    assert(r3 =~= (ReaderView { received: rest, body, ended: true, ..r2 }));
}

/// A frame that came is used up whole. On the stream of the response a header frame or a continuation adds to the
/// header, a data frame to the body, a flag of one ends it, and a reset breaks it off; a frame on another stream changes
/// nothing. Settings are answered, unless they are an answer themselves.
pub proof fn law_frame_is_taken(r: ReaderView, frame_type: u8, flags: u8, stream_id: u32, payload: Seq<u8>, rest: Seq<u8>)
    requires
        payload.len() < 0x100_0000,
        stream_id < 0x8000_0000,
        r.received == frame(frame_type, flags, stream_id, payload) + rest,
        r.target > 0,
    ensures
        ({
            let next = after_frame(r);
            let own = stream_id == r.target;
            &&& has_frame(r.received)
            &&& next.received == rest && next.target == r.target
            &&& next.header_block == (if own && (frame_type == 1 || frame_type == 9) {
                r.header_block + payload
            } else {
                r.header_block
            })
            &&& next.body == (if own && frame_type == 0 {
                r.body + payload
            } else {
                r.body
            })
            &&& next.ended == (r.ended || (own && (frame_type == 0 || frame_type == 1 || frame_type == 9) && flags & 1
                != 0))
            &&& is_reset(r) == (own && frame_type == 3)
            &&& answer_to(r.received) == (if frame_type == 4 && stream_id == 0 && flags & 1 == 0 {
                frame(4, 1, 0, seq![])
            } else {
                seq![]
            })
        }),
{
    lemma_frame_parts(frame_type, flags, stream_id, payload, rest);
}

/// Settings, a header and a body, in frames of one stream, as far as each is there, are read back whole.
pub proof fn lemma_frames_read(stream_id: u32, header_block: Seq<u8>, body: Seq<u8>)
    requires
        0 < stream_id < 0x8000_0000,
        header_block.len() < 0x100_0000,
        body.len() < 0x100_0000,
    ensures
        ({
            let start = |received: Seq<u8>|
                ReaderView { target: stream_id, received, header_block: seq![], body: seq![], ended: false };
            let done = ReaderView { target: stream_id, received: seq![], header_block, body, ended: true };
            let none = Seq::<u8>::empty();
            let headed = frame(1, 5, stream_id, header_block);
            let both = frame(1, 4, stream_id, header_block) + frame(0, 1, stream_id, body);
            let ack = frame(4, 1, 0, seq![]);
            &&& body.len() == 0 ==> drained(start(headed), none) == (done, none, false)
            &&& drained(start(both), none) == (done, none, false)
            &&& body.len() == 0 ==> drained(start(frame(4, 0, 0, seq![]) + headed), none) == (done, ack, false)
            &&& drained(start(frame(4, 0, 0, seq![]) + both), none) == (done, ack, false)
        }),
{
    let none = Seq::<u8>::empty();
    let data = frame(0, 1, stream_id, body);
    let headed = frame(1, 5, stream_id, header_block);
    let first = frame(1, 4, stream_id, header_block);
    assert(0u8 & 1u8 == 0) by (bit_vector);
    assert(4u8 & 1u8 == 0) by (bit_vector);
    assert(1u8 & 1u8 == 1) by (bit_vector);
    assert(5u8 & 1u8 == 1) by (bit_vector);
    assert(data + none =~= data);
    assert(headed + none =~= headed);
    lemma_frame_parts(0, 1, stream_id, body, none);
    lemma_frame_parts(1, 5, stream_id, header_block, none);
    lemma_frame_parts(1, 4, stream_id, header_block, data);
    lemma_frame_parts(4, 0, 0, none, headed);
    lemma_frame_parts(4, 0, 0, none, first + data);
    assert(none + header_block =~= header_block);
    assert(none + body =~= body);
    let ack = frame(4, 1, 0, none);
    assert(none + ack =~= ack);
    assert(none + none =~= none);
    assert(ack + none =~= ack);
    reveal_with_fuel(drained, 4);
}

}
