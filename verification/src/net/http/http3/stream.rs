//! A QUIC stream: flow control, reassembly of received data, and the states of its two directions.
use std::collections::VecDeque;
use vstd::prelude::*;
use vstd::string::StringSliceAdditionalSpecFns;

use crate::crypto::base64::{encode, encoded, law_base64_roundtrip, lemma_encoded_symbols};
use crate::decimal::{
    decimal, is_digit, law_decimal_roundtrip, lemma_decimal_value, parse_u64, parse_u8, parsed, to_decimal,
};
use crate::net::blob::{law_blob_roundtrip, opt_bytes, seal, sealed, unseal, unsealed, BlobKind};
use crate::net::envelope::{
    carried, contents, lemma_armoured_tidy, lemma_decimal_tidy, EnvelopeError, EnvelopeMeta, MetaView,
};
use crate::net::http::compression::{select_compressing, selected, CompressionAlgorithm};
use crate::net::record::{
    lemma_record, lemma_record_octets, number_of, octets_of, push_pair, record_in, record_lines,
    record_octets, recordable, value_of, Record,
};
use crate::text::{
    chars_of, ended, is_text, is_white, lacks, lemma_trimmed_solid, lines, lowered, push_chars, push_text,
    solid, string_of, tidy, to_lower, trim, trimmed, utf8_text,
};

verus! {

pub type StreamId = u64;

/// Who opened a stream, and whether it carries data both ways.
#[derive(Debug, Clone, Copy, PartialEq, Eq, Structural)]
pub enum StreamType {
    ClientBidirectional,
    ServerBidirectional,
    ClientUnidirectional,
    ServerUnidirectional,
}

/// The type that a stream's number gives: its low bit tells who opened it, the next bit whether it
/// carries data one way only.
pub open spec fn type_of_id(id: u64) -> StreamType {
    if id % 4 == 0 {
        StreamType::ClientBidirectional
    } else if id % 4 == 1 {
        StreamType::ServerBidirectional
    } else if id % 4 == 2 {
        StreamType::ClientUnidirectional
    } else {
        StreamType::ServerUnidirectional
    }
}

impl StreamType {
    pub fn from_id(id: StreamId) -> (r: Self)
        ensures
            r == type_of_id(id),
    {
        match id % 4 {
            0 => StreamType::ClientBidirectional,
            1 => StreamType::ServerBidirectional,
            2 => StreamType::ClientUnidirectional,
            _ => StreamType::ServerUnidirectional,
        }
    }

    pub open spec fn both_ways(&self) -> bool {
        self is ClientBidirectional || self is ServerBidirectional
    }

    pub open spec fn by_client(&self) -> bool {
        self is ClientBidirectional || self is ClientUnidirectional
    }

    pub fn is_bidirectional(&self) -> (r: bool)
        ensures
            r == self.both_ways(),
    {
        matches!(self, StreamType::ClientBidirectional | StreamType::ServerBidirectional)
    }

    pub fn is_unidirectional(&self) -> (r: bool)
        ensures
            r == !self.both_ways(),
    {
        !self.is_bidirectional()
    }

    pub fn is_client_initiated(&self) -> (r: bool)
        ensures
            r == self.by_client(),
    {
        matches!(self, StreamType::ClientBidirectional | StreamType::ClientUnidirectional)
    }

    pub fn is_server_initiated(&self) -> (r: bool)
        ensures
            r == !self.by_client(),
    {
        matches!(self, StreamType::ServerBidirectional | StreamType::ServerUnidirectional)
    }

    pub open spec fn text(&self) -> Seq<char> {
        match self {
            StreamType::ClientBidirectional => "ClientBidi"@,
            StreamType::ServerBidirectional => "ServerBidi"@,
            StreamType::ClientUnidirectional => "ClientUni"@,
            StreamType::ServerUnidirectional => "ServerUni"@,
        }
    }

    /// The type in words.
    pub fn to_string(&self) -> (r: String)
        ensures
            r@ == self.text(),
    {
        match self {
            StreamType::ClientBidirectional => "ClientBidi".to_owned(),
            StreamType::ServerBidirectional => "ServerBidi".to_owned(),
            StreamType::ClientUnidirectional => "ClientUni".to_owned(),
            StreamType::ServerUnidirectional => "ServerUni".to_owned(),
        }
    }
}

/// The state of a stream.
#[derive(Debug, Clone, Copy, PartialEq, Eq, Structural)]
pub enum StreamState {
    Open,
    SendClosed,
    ReceivedClosed,
    Closed,
    ResetSent,
    ResetReceived,
}

impl StreamState {
    pub open spec fn sends(&self) -> bool {
        self is Open
    }

    pub open spec fn receives(&self) -> bool {
        self is Open || self is SendClosed
    }

    pub open spec fn over(&self) -> bool {
        self is Closed || self is ResetSent || self is ResetReceived
    }

    pub fn can_send(&self) -> (r: bool)
        ensures
            r == self.sends(),
    {
        matches!(self, StreamState::Open)
    }

    pub fn can_receive(&self) -> (r: bool)
        ensures
            r == self.receives(),
    {
        matches!(self, StreamState::Open | StreamState::SendClosed)
    }

    pub fn is_closed(&self) -> (r: bool)
        ensures
            r == self.over(),
    {
        matches!(self, StreamState::Closed | StreamState::ResetSent | StreamState::ResetReceived)
    }

    /// The state in words.
    pub fn to_string(&self) -> (r: String)
        ensures
            r@ == state_label(*self),
    {
        stream_state_label(*self).to_owned()
    }
}

/// Why a stream refuses an operation.
#[derive(Debug, Clone, Copy, PartialEq, Eq, Structural)]
pub enum StreamError {
    InvalidStreamState,
    FinAlreadyQueued,
    SendWindowFull,
    FinOffsetMismatch,
    DataExceedsFinalOffset,
    ReceiveWindowExceeded,
    SendMaxOffsetDecreased,
}

/// A piece of stream data on the wire.
#[derive(Debug)]
pub struct StreamFrame {
    pub stream_id: StreamId,
    pub offset: u64,
    pub data: Vec<u8>,
    pub fin: bool,
}

/// Data that arrived ahead of its turn.
#[derive(Debug)]
struct DataChunk {
    offset: u64,
    data: Vec<u8>,
}

/// Data that arrived ahead of its turn.
pub struct ChunkView {
    pub offset: u64,
    pub data: Seq<u8>,
}

/// A stream.
#[derive(Debug)]
pub struct Stream {
    id: StreamId,
    stream_type: StreamType,
    state: StreamState,
    send_buffer: VecDeque<u8>,
    send_offset: u64,
    send_max_offset: u64,
    send_final_offset: Option<u64>,
    receive_buffer: VecDeque<u8>,
    receive_offset: u64,
    receive_max_offset: u64,
    receive_final_offset: Option<u64>,
    receive_chunks: Vec<DataChunk>,
    fin_queued: bool,
    fin_sent: bool,
    fin_received: bool,
    priority: u8,
    error_code: Option<u64>,
}

/// The contents of a stream.
pub struct StreamView {
    pub id: u64,
    pub stream_type: StreamType,
    pub state: StreamState,
    pub send_buffer: Seq<u8>,
    pub send_offset: u64,
    pub send_max_offset: u64,
    pub send_final_offset: Option<u64>,
    pub receive_buffer: Seq<u8>,
    pub receive_offset: u64,
    pub receive_max_offset: u64,
    pub receive_final_offset: Option<u64>,
    pub chunks: Seq<ChunkView>,
    pub fin_queued: bool,
    pub fin_sent: bool,
    pub fin_received: bool,
    pub priority: u8,
    pub error_code: Option<u64>,
}

spec fn chunk_views(v: Seq<DataChunk>) -> Seq<ChunkView> {
    Seq::new(v.len(), |i: int| ChunkView { offset: v[i].offset, data: v[i].data@ })
}

/// Whether chunks stand in the order of their offsets, each offset once.
pub open spec fn in_turn(chunks: Seq<ChunkView>) -> bool {
    forall|i: int, j: int|
        0 <= i < j < chunks.len() ==> #[trigger] chunks[i].offset < #[trigger] chunks[j].offset
}

/// Whether offsets stay within range: what waits to be sent fits the peer's limit, and every chunk
/// ends at an offset that can be written down.
pub open spec fn healthy(v: StreamView) -> bool {
    &&& v.send_offset + v.send_buffer.len() <= v.send_max_offset
    &&& forall|i: int|
        0 <= i < v.chunks.len() ==> (#[trigger] v.chunks[i]).offset + v.chunks[i].data.len()
            <= u64::MAX
}

/// A new stream.
pub open spec fn fresh(id: u64, max_send: u64, max_received: u64) -> StreamView {
    StreamView {
        id,
        stream_type: type_of_id(id),
        state: StreamState::Open,
        send_buffer: seq![],
        send_offset: 0,
        send_max_offset: max_send,
        send_final_offset: None,
        receive_buffer: seq![],
        receive_offset: 0,
        receive_max_offset: max_received,
        receive_final_offset: None,
        chunks: seq![],
        fin_queued: false,
        fin_sent: false,
        fin_received: false,
        priority: 128,
        error_code: None,
    }
}

/// How much more the peer lets the stream send.
pub open spec fn window(v: StreamView) -> int {
    v.send_max_offset - v.send_offset - v.send_buffer.len()
}

/// How much of `len` octets can be written.
pub open spec fn write_len(v: StreamView, len: nat) -> nat {
    if len <= window(v) {
        len
    } else {
        window(v) as nat
    }
}

/// The outcome of a write: how much was taken, and the stream after it.
pub open spec fn written(v: StreamView, data: Seq<u8>) -> Result<(nat, StreamView), StreamError> {
    if !v.state.sends() {
        Err(StreamError::InvalidStreamState)
    } else if v.fin_queued {
        Err(StreamError::FinAlreadyQueued)
    } else if write_len(v, data.len()) == 0 {
        Err(StreamError::SendWindowFull)
    } else {
        let n = write_len(v, data.len());
        Ok((n, StreamView { send_buffer: v.send_buffer + data.take(n as int), ..v }))
    }
}

/// The state after the end of the sending direction went out.
pub open spec fn after_send(v: StreamView) -> StreamView {
    if v.fin_sent && v.state is Open {
        StreamView { state: StreamState::SendClosed, ..v }
    } else if v.fin_sent && v.state is ReceivedClosed {
        StreamView { state: StreamState::Closed, ..v }
    } else {
        v
    }
}

/// The state after the end of the receiving direction came in.
pub open spec fn after_receive(v: StreamView) -> StreamView {
    if v.fin_received && v.state is Open {
        StreamView { state: StreamState::ReceivedClosed, ..v }
    } else if v.fin_received && v.state is SendClosed {
        StreamView { state: StreamState::Closed, ..v }
    } else {
        v
    }
}

pub open spec fn something_to_send(v: StreamView) -> bool {
    v.send_buffer.len() > 0 || (v.fin_queued && !v.fin_sent)
}

/// How many octets go into the next frame.
pub open spec fn frame_len(v: StreamView, max_data: nat) -> nat {
    if v.send_buffer.len() <= max_data {
        v.send_buffer.len()
    } else {
        max_data
    }
}

/// Whether there is a next frame.
pub open spec fn makes_frame(v: StreamView, max_data: nat) -> bool {
    something_to_send(v) && (frame_len(v, max_data) > 0 || v.fin_queued)
}

/// Whether the next frame ends the sending direction.
pub open spec fn frame_fin(v: StreamView, max_data: nat) -> bool {
    v.fin_queued && frame_len(v, max_data) == v.send_buffer.len()
}

/// The stream after its next frame.
pub open spec fn after_frame(v: StreamView, max_data: nat) -> StreamView {
    let n = frame_len(v, max_data) as int;
    let end = (v.send_offset + n) as u64;
    let sent = StreamView { send_buffer: v.send_buffer.skip(n), ..v };
    let closed = if frame_fin(v, max_data) {
        after_send(StreamView { fin_sent: true, send_final_offset: Some(end), ..sent })
    } else {
        sent
    };
    StreamView { send_offset: end, ..closed }
}

/// The stream with the chunks taken in whose turn it is.
pub open spec fn with_ready_chunks(v: StreamView) -> StreamView
    decreases v.chunks.len(),
{
    if v.chunks.len() > 0 && v.chunks[0].offset == v.receive_offset {
        with_ready_chunks(
            StreamView {
                receive_buffer: v.receive_buffer + v.chunks[0].data,
                receive_offset: (v.receive_offset + v.chunks[0].data.len()) as u64,
                chunks: v.chunks.skip(1),
                ..v
            },
        )
    } else {
        v
    }
}

/// The stream after data arrived in turn.
pub open spec fn drained(v: StreamView) -> StreamView {
    let w = with_ready_chunks(v);
    if w.fin_received && w.receive_final_offset is Some && w.receive_offset
        >= w.receive_final_offset.unwrap() {
        after_send(w)
    } else {
        w
    }
}

/// The chunks with one more; it takes the place of one with the same offset.
pub open spec fn with_chunk(chunks: Seq<ChunkView>, offset: u64, data: Seq<u8>) -> Seq<ChunkView>
    decreases chunks.len(),
{
    if chunks.len() == 0 || chunks.last().offset < offset {
        chunks.push(ChunkView { offset, data })
    } else if chunks.last().offset == offset {
        chunks.drop_last().push(ChunkView { offset, data })
    } else {
        with_chunk(chunks.drop_last(), offset, data).push(chunks.last())
    }
}

/// Why a frame is refused, if it is.
pub open spec fn frame_fault(v: StreamView, end: int, fin: bool) -> Option<StreamError> {
    if !v.state.receives() {
        Some(StreamError::InvalidStreamState)
    } else if v.receive_final_offset is Some && fin && end != v.receive_final_offset.unwrap() {
        Some(StreamError::FinOffsetMismatch)
    } else if v.receive_final_offset is Some && end > v.receive_final_offset.unwrap() {
        Some(StreamError::DataExceedsFinalOffset)
    } else if end > v.receive_max_offset {
        Some(StreamError::ReceiveWindowExceeded)
    } else {
        None
    }
}

/// The stream after a frame that is not refused.
pub open spec fn accepted(v: StreamView, offset: u64, data: Seq<u8>, fin: bool) -> StreamView {
    let end = (offset + data.len()) as u64;
    let marked = if fin {
        StreamView { receive_final_offset: Some(end), fin_received: true, ..v }
    } else {
        v
    };
    if offset == v.receive_offset {
        let w = drained(
            StreamView {
                receive_buffer: marked.receive_buffer + data,
                receive_offset: end,
                ..marked
            },
        );
        if fin && w.receive_buffer.len() == 0 {
            after_receive(w)
        } else {
            w
        }
    } else if offset > v.receive_offset {
        StreamView { chunks: with_chunk(marked.chunks, offset, data), ..marked }
    } else {
        marked
    }
}

/// The outcome of a received frame.
pub open spec fn received(v: StreamView, offset: u64, data: Seq<u8>, fin: bool) -> Result<
    StreamView,
    StreamError,
> {
    match frame_fault(v, offset + data.len(), fin) {
        Some(e) => Err(e),
        None => Ok(accepted(v, offset, data, fin)),
    }
}

/// The stream without its buffers, in the given state.
pub open spec fn cut_off(v: StreamView, state: StreamState, error_code: u64) -> StreamView {
    StreamView {
        state,
        error_code: Some(error_code),
        send_buffer: seq![],
        receive_buffer: seq![],
        chunks: seq![],
        ..v
    }
}

/// The stream after it was reset from this side.
pub open spec fn reset_sent(v: StreamView, error_code: u64) -> StreamView {
    if v.state.over() {
        v
    } else {
        cut_off(v, StreamState::ResetSent, error_code)
    }
}

fn append_all(q: &mut VecDeque<u8>, data: &[u8])
    ensures
        final(q)@ == old(q)@ + data@,
{
    let mut i: usize = 0;
    while i < data.len()
        invariant
            i <= data@.len(),
            q@ == old(q)@ + data@.take(i as int),
        decreases data@.len() - i,
    {
        q.push_back(data[i]);
        i = i + 1;
        assert(q@ =~= old(q)@ + data@.take(i as int));
    }
    assert(q@ =~= old(q)@ + data@);
}

fn take_front(q: &mut VecDeque<u8>, n: usize) -> (r: Vec<u8>)
    requires
        n <= old(q)@.len(),
    ensures
        r@ == old(q)@.take(n as int),
        final(q)@ == old(q)@.skip(n as int),
{
    let mut out: Vec<u8> = Vec::new();
    let mut i: usize = 0;
    while i < n
        invariant
            i <= n <= old(q)@.len(),
            out@ == old(q)@.take(i as int),
            q@ == old(q)@.skip(i as int),
        decreases n - i,
    {
        match q.pop_front() {
            Some(b) => {
                out.push(b);
            },
            None => {},
        }
        i = i + 1;
        assert(out@ =~= old(q)@.take(i as int));
        assert(q@ =~= old(q)@.skip(i as int));
    }
    out
}

fn queued_bytes(q: &VecDeque<u8>) -> (r: Vec<u8>)
    ensures
        r@ == q@,
{
    let mut out: Vec<u8> = Vec::new();
    let mut i: usize = 0;
    while i < q.len()
        invariant
            i <= q@.len(),
            out@ == q@.take(i as int),
        decreases q@.len() - i,
    {
        out.push(q[i]);
        i = i + 1;
        assert(out@ =~= q@.take(i as int));
    }
    assert(out@ =~= q@);
    out
}

impl Stream {
    pub closed spec fn view(&self) -> StreamView {
        StreamView {
            id: self.id,
            stream_type: self.stream_type,
            state: self.state,
            send_buffer: self.send_buffer@,
            send_offset: self.send_offset,
            send_max_offset: self.send_max_offset,
            send_final_offset: self.send_final_offset,
            receive_buffer: self.receive_buffer@,
            receive_offset: self.receive_offset,
            receive_max_offset: self.receive_max_offset,
            receive_final_offset: self.receive_final_offset,
            chunks: chunk_views(self.receive_chunks@),
            fin_queued: self.fin_queued,
            fin_sent: self.fin_sent,
            fin_received: self.fin_received,
            priority: self.priority,
            error_code: self.error_code,
        }
    }

    /// What holds of every stream: its type is that of its number, and its chunks stand in order.
    pub open spec fn inv(&self) -> bool {
        self@.stream_type == type_of_id(self@.id) && in_turn(self@.chunks)
    }

    /// Opens a stream.
    pub fn new(id: StreamId, max_send: u64, max_received: u64) -> (r: Self)
        ensures
            r.inv(),
            r@ == fresh(id, max_send, max_received),
            healthy(r@),
    {
        let r = Stream {
            id,
            stream_type: StreamType::from_id(id),
            state: StreamState::Open,
            send_buffer: VecDeque::new(),
            send_offset: 0,
            send_max_offset: max_send,
            send_final_offset: None,
            receive_buffer: VecDeque::new(),
            receive_offset: 0,
            receive_max_offset: max_received,
            receive_final_offset: None,
            receive_chunks: Vec::new(),
            fin_queued: false,
            fin_sent: false,
            fin_received: false,
            priority: 128,
            error_code: None,
        };
        assert(r@.chunks =~= seq![]);
        r
    }

    pub fn id(&self) -> (r: StreamId)
        ensures
            r == self@.id,
    {
        self.id
    }

    pub fn stream_type(&self) -> (r: StreamType)
        ensures
            r == self@.stream_type,
    {
        self.stream_type
    }

    pub fn state(&self) -> (r: StreamState)
        ensures
            r == self@.state,
    {
        self.state
    }

    pub fn set_priority(&mut self, priority: u8)
        ensures
            final(self)@ == (StreamView { priority, ..old(self)@ }),
            old(self).inv() ==> final(self).inv(),
    {
        self.priority = priority;
    }

    pub fn priority(&self) -> (r: u8)
        ensures
            r == self@.priority,
    {
        self.priority
    }

    /// Queues data to be sent, as far as the peer's limit lets it.
    pub fn write(&mut self, data: &[u8]) -> (r: Result<usize, StreamError>)
        requires
            old(self)@.state.sends() && !old(self)@.fin_queued ==> window(old(self)@) >= 0,
        ensures
            match written(old(self)@, data@) {
                Ok((n, v)) => r == Ok::<usize, StreamError>(n as usize) && n <= data@.len()
                    && final(self)@ == v,
                Err(e) => r == Err::<usize, StreamError>(e) && final(self)@ == old(self)@,
            },
            old(self).inv() ==> final(self).inv(),
            healthy(old(self)@) ==> healthy(final(self)@),
    {
        if !self.state.can_send() {
            return Err(StreamError::InvalidStreamState);
        }
        if self.fin_queued {
            return Err(StreamError::FinAlreadyQueued);
        }
        let available: u64 = self.send_max_offset - self.send_offset - self.send_buffer.len() as u64;
        let to_write: usize = if data.len() as u64 <= available {
            data.len()
        } else {
            available as usize
        };
        if to_write == 0 {
            return Err(StreamError::SendWindowFull);
        }
        let part = vstd::slice::slice_subrange(data, 0, to_write);
        assert(part@ =~= data@.take(to_write as int));
        append_all(&mut self.send_buffer, part);
        Ok(to_write)
    }

    /// Queues data and the end of the sending direction behind it.
    pub fn write_fin(&mut self, data: &[u8]) -> (r: Result<usize, StreamError>)
        requires
            old(self)@.state.sends() && !old(self)@.fin_queued ==> window(old(self)@) >= 0,
        ensures
            match written(old(self)@, data@) {
                Ok((n, v)) => r == Ok::<usize, StreamError>(n as usize) && n <= data@.len()
                    && final(self)@ == (StreamView { fin_queued: true, ..v }),
                Err(e) => r == Err::<usize, StreamError>(e) && final(self)@ == old(self)@,
            },
            old(self).inv() ==> final(self).inv(),
            healthy(old(self)@) ==> healthy(final(self)@),
    {
        match self.write(data) {
            Ok(n) => {
                self.fin_queued = true;
                Ok(n)
            },
            Err(e) => Err(e),
        }
    }

    /// Queues the end of the sending direction.
    pub fn close_send(&mut self) -> (r: Result<(), StreamError>)
        ensures
            match r {
                Ok(()) => old(self)@.state.sends() && final(self)@ == (StreamView {
                    fin_queued: true,
                    ..old(self)@
                }),
                Err(e) => e == StreamError::InvalidStreamState && !old(self)@.state.sends()
                    && final(self)@ == old(self)@,
            },
            old(self).inv() ==> final(self).inv(),
            healthy(old(self)@) ==> healthy(final(self)@),
    {
        if !self.state.can_send() {
            return Err(StreamError::InvalidStreamState);
        }
        self.fin_queued = true;
        Ok(())
    }

    /// Moves received data into `buffer` and tells how much it was.
    pub fn read(&mut self, buffer: &mut [u8]) -> (r: Result<usize, StreamError>)
        ensures
            ({
                let v = old(self)@;
                let n = if old(buffer)@.len() <= v.receive_buffer.len() {
                    old(buffer)@.len()
                } else {
                    v.receive_buffer.len()
                };
                if v.state.receives() {
                    &&& r == Ok::<usize, StreamError>(n as usize)
                    &&& final(buffer)@ == v.receive_buffer.take(n as int) + old(buffer)@.skip(
                        n as int,
                    )
                    &&& final(self)@ == (StreamView {
                        receive_buffer: v.receive_buffer.skip(n as int),
                        ..v
                    })
                } else {
                    &&& r == (if v.fin_received {
                        Ok::<usize, StreamError>(0)
                    } else {
                        Err::<usize, StreamError>(StreamError::InvalidStreamState)
                    })
                    &&& final(buffer)@ == old(buffer)@
                    &&& final(self)@ == v
                }
            }),
            old(self).inv() ==> final(self).inv(),
            healthy(old(self)@) ==> healthy(final(self)@),
    {
        if !self.state.can_receive() {
            if self.fin_received {
                return Ok(0);
            }
            return Err(StreamError::InvalidStreamState);
        }
        let n: usize = if buffer.len() <= self.receive_buffer.len() {
            buffer.len()
        } else {
            self.receive_buffer.len()
        };
        let data = take_front(&mut self.receive_buffer, n);
        let mut i: usize = 0;
        while i < n
            invariant
                i <= n,
                n == data@.len(),
                n <= old(buffer)@.len(),
                buffer@ == data@.take(i as int) + old(buffer)@.skip(i as int),
            decreases n - i,
        {
            buffer[i] = data[i];
            i = i + 1;
            assert(buffer@ =~= data@.take(i as int) + old(buffer)@.skip(i as int));
        }
        assert(data@.take(n as int) =~= data@);
        Ok(n)
    }

    /// How much received data waits to be read.
    pub fn readable(&self) -> (r: usize)
        ensures
            r == self@.receive_buffer.len(),
    {
        self.receive_buffer.len()
    }

    /// How much can be written now.
    pub fn writable(&self) -> (r: usize)
        requires
            self@.state.sends() && !self@.fin_queued ==> window(self@) >= 0,
        ensures
            r == (if !self@.state.sends() || self@.fin_queued {
                0
            } else {
                window(self@) as usize
            }),
    {
        if !self.state.can_send() || self.fin_queued {
            return 0;
        }
        let available: u64 = self.send_max_offset - self.send_offset - self.send_buffer.len() as u64;
        available as usize
    }

    /// Whether a frame is due.
    pub fn has_data_to_send(&self) -> (r: bool)
        ensures
            r == something_to_send(self@),
    {
        self.send_buffer.len() > 0 || (self.fin_queued && !self.fin_sent)
    }

    /// Whether the offsets of the sending direction and of the waiting chunks are within range, as
    /// they are for a stream that was opened here.
    pub fn is_healthy(&self) -> (r: bool)
        ensures
            r == healthy(self@),
    {
        let queued: u64 = self.send_buffer.len() as u64;
        if self.send_offset > self.send_max_offset || queued > self.send_max_offset
            - self.send_offset {
            return false;
        }
        let mut i: usize = 0;
        while i < self.receive_chunks.len()
            invariant
                i <= self.receive_chunks@.len(),
                forall|j: int|
                    0 <= j < i ==> (#[trigger] self@.chunks[j]).offset + self@.chunks[j].data.len()
                        <= u64::MAX,
            decreases self.receive_chunks@.len() - i,
        {
            let len: u64 = self.receive_chunks[i].data.len() as u64;
            if len > u64::MAX - self.receive_chunks[i].offset {
                assert(self@.chunks[i as int].offset + self@.chunks[i as int].data.len() > u64::MAX);
                return false;
            }
            i = i + 1;
        }
        true
    }

    fn update_state_after_send(&mut self)
        ensures
            final(self)@ == after_send(old(self)@),
    {
        if self.fin_sent {
            match self.state {
                StreamState::Open => {
                    self.state = StreamState::SendClosed;
                },
                StreamState::ReceivedClosed => {
                    self.state = StreamState::Closed;
                },
                _ => {},
            }
        }
    }

    fn update_state_after_receive(&mut self)
        ensures
            final(self)@ == after_receive(old(self)@),
    {
        if self.fin_received {
            match self.state {
                StreamState::Open => {
                    self.state = StreamState::ReceivedClosed;
                },
                StreamState::SendClosed => {
                    self.state = StreamState::Closed;
                },
                _ => {},
            }
        }
    }

    /// Takes up to `max_data` octets into a frame; the last frame carries the end of the direction.
    pub fn generate_frame(&mut self, max_data: usize) -> (r: Result<
        Option<StreamFrame>,
        StreamError,
    >)
        requires
            makes_frame(old(self)@, max_data as nat) ==> old(self)@.send_offset + frame_len(
                old(self)@,
                max_data as nat,
            ) <= u64::MAX,
        ensures
            ({
                let v = old(self)@;
                let n = frame_len(v, max_data as nat);
                match r {
                    Ok(Some(f)) => {
                        &&& makes_frame(v, max_data as nat)
                        &&& f.stream_id == v.id
                        &&& f.offset == v.send_offset
                        &&& f.data@ == v.send_buffer.take(n as int)
                        &&& f.fin == frame_fin(v, max_data as nat)
                        &&& final(self)@ == after_frame(v, max_data as nat)
                    },
                    Ok(None) => !makes_frame(v, max_data as nat) && final(self)@ == v,
                    Err(_) => false,
                }
            }),
            old(self).inv() ==> final(self).inv(),
            healthy(old(self)@) ==> healthy(final(self)@),
    {
        if !self.has_data_to_send() {
            return Ok(None);
        }
        let available: usize = if self.send_buffer.len() <= max_data {
            self.send_buffer.len()
        } else {
            max_data
        };
        if available == 0 && !self.fin_queued {
            return Ok(None);
        }
        let data = take_front(&mut self.send_buffer, available);
        let fin = self.fin_queued && self.send_buffer.len() == 0;
        let end: u64 = self.send_offset + data.len() as u64;
        if fin {
            self.fin_sent = true;
            self.send_final_offset = Some(end);
            self.update_state_after_send();
        }
        let frame = StreamFrame { stream_id: self.id, offset: self.send_offset, data, fin };
        self.send_offset = end;
        Ok(Some(frame))
    }

    fn process_queued_chunks(&mut self)
        requires
            old(self).inv(),
            healthy_chunks(old(self)@.chunks),
        ensures
            final(self)@ == drained(old(self)@),
            final(self).inv(),
    {
        let ghost start = self@;
        while self.receive_chunks.len() > 0 && self.receive_chunks[0].offset == self.receive_offset
            invariant
                with_ready_chunks(self@) == with_ready_chunks(start),
                in_turn(self@.chunks),
                healthy_chunks(self@.chunks),
                self@.stream_type == start.stream_type,
                self@.id == start.id,
            decreases self.receive_chunks@.len(),
        {
            let ghost before = self@;
            assert(before.chunks[0].offset + before.chunks[0].data.len() <= u64::MAX);
            let chunk = self.receive_chunks.remove(0);
            append_all(&mut self.receive_buffer, chunk.data.as_slice());
            self.receive_offset = self.receive_offset + chunk.data.len() as u64;
            proof {
                assert(self@.chunks =~= before.chunks.skip(1));
                assert(before.chunks[0].data == chunk.data@);
                assert forall|i: int, j: int| 0 <= i < j < self@.chunks.len() implies
                    #[trigger] self@.chunks[i].offset < #[trigger] self@.chunks[j].offset by {
                    assert(before.chunks[i + 1].offset < before.chunks[j + 1].offset);
                }
                assert forall|i: int| 0 <= i < self@.chunks.len() implies
                    (#[trigger] self@.chunks[i]).offset + self@.chunks[i].data.len() <= u64::MAX by {
                    assert(before.chunks[i + 1].offset + before.chunks[i + 1].data.len() <= u64::MAX);
                }
            }
        }
        assert(self@ == with_ready_chunks(start));
        if self.fin_received {
            match self.receive_final_offset {
                Some(f) => {
                    if self.receive_offset >= f {
                        self.update_state_after_send();
                    }
                },
                None => {},
            }
        }
    }

    fn insert_chunk(&mut self, offset: u64, data: Vec<u8>)
        requires
            old(self).inv(),
        ensures
            final(self)@ == (StreamView {
                chunks: with_chunk(old(self)@.chunks, offset, data@),
                ..old(self)@
            }),
            final(self).inv(),
    {
        let ghost chunks = self@.chunks;
        let mut i: usize = self.receive_chunks.len();
        while i > 0 && self.receive_chunks[i - 1].offset > offset
            invariant
                i <= self.receive_chunks@.len(),
                self@ == old(self)@,
                chunks == self@.chunks,
                forall|j: int| i <= j < chunks.len() ==> (#[trigger] chunks[j]).offset > offset,
            decreases i,
        {
            i = i - 1;
        }
        proof {
            lemma_with_chunk(chunks, offset, data@, i as int);
        }
        if i > 0 && self.receive_chunks[i - 1].offset == offset {
            let mut chunk = DataChunk { offset, data };
            let at: usize = i - 1;
            self.receive_chunks[at] = chunk;
            assert(self@.chunks =~= chunks.update(i - 1, ChunkView { offset, data: chunk.data@ }));
        } else {
            let chunk = DataChunk { offset, data };
            self.receive_chunks.insert(i, chunk);
            assert(self@.chunks =~= chunks.insert(i as int, ChunkView { offset, data: chunk.data@ }));
        }
    }

    /// Takes in a piece of data that starts at `offset`.
    pub fn process_frame(&mut self, offset: u64, data: Vec<u8>, fin: bool) -> (r: Result<
        (),
        StreamError,
    >)
        requires
            old(self).inv(),
            healthy_chunks(old(self)@.chunks),
            old(self)@.state.receives() ==> offset + data@.len() <= u64::MAX,
        ensures
            match received(old(self)@, offset, data@, fin) {
                Ok(v) => r == Ok::<(), StreamError>(()) && final(self)@ == v,
                Err(e) => r == Err::<(), StreamError>(e) && final(self)@ == old(self)@,
            },
            final(self).inv(),
            healthy(old(self)@) ==> healthy(final(self)@),
    {
        proof {
            if healthy(old(self)@) && received(old(self)@, offset, data@, fin) is Ok {
                law_receiving_keeps_health(old(self)@, offset, data@, fin);
            }
        }
        if !self.state.can_receive() {
            return Err(StreamError::InvalidStreamState);
        }
        let end: u64 = offset + data.len() as u64;
        match self.receive_final_offset {
            Some(f) => {
                if fin && end != f {
                    return Err(StreamError::FinOffsetMismatch);
                }
                if end > f {
                    return Err(StreamError::DataExceedsFinalOffset);
                }
            },
            None => {},
        }
        if end > self.receive_max_offset {
            return Err(StreamError::ReceiveWindowExceeded);
        }
        if fin {
            self.receive_final_offset = Some(end);
            self.fin_received = true;
        }
        if offset == self.receive_offset {
            append_all(&mut self.receive_buffer, data.as_slice());
            self.receive_offset = end;
            self.process_queued_chunks();
            if fin && self.receive_buffer.len() == 0 {
                self.update_state_after_receive();
            }
        } else if offset > self.receive_offset {
            self.insert_chunk(offset, data);
        }
        Ok(())
    }

    /// Resets the stream from this side; a stream that is over stays as it is.
    pub fn reset(&mut self, error_code: u64) -> (r: Result<(), StreamError>)
        ensures
            r == Ok::<(), StreamError>(()),
            final(self)@ == reset_sent(old(self)@, error_code),
            old(self).inv() ==> final(self).inv(),
            healthy(old(self)@) ==> healthy(final(self)@),
    {
        if self.state.is_closed() {
            return Ok(());
        }
        self.error_code = Some(error_code);
        self.state = StreamState::ResetSent;
        self.send_buffer.clear();
        self.receive_buffer.clear();
        self.receive_chunks.clear();
        assert(self@.chunks =~= seq![]);
        Ok(())
    }

    /// Takes note that the peer reset the stream.
    pub fn handle_reset(&mut self, error_code: u64) -> (r: Result<(), StreamError>)
        ensures
            r == Ok::<(), StreamError>(()),
            final(self)@ == cut_off(old(self)@, StreamState::ResetReceived, error_code),
            old(self).inv() ==> final(self).inv(),
            healthy(old(self)@) ==> healthy(final(self)@),
    {
        self.error_code = Some(error_code);
        self.state = StreamState::ResetReceived;
        self.send_buffer.clear();
        self.receive_buffer.clear();
        self.receive_chunks.clear();
        assert(self@.chunks =~= seq![]);
        Ok(())
    }

    /// Stops sending because the peer asks for it.
    pub fn handle_stop_sending(&mut self, error_code: u64) -> (r: Result<(), StreamError>)
        ensures
            r == Ok::<(), StreamError>(()),
            final(self)@ == reset_sent(old(self)@, error_code),
            old(self).inv() ==> final(self).inv(),
            healthy(old(self)@) ==> healthy(final(self)@),
    {
        self.reset(error_code)
    }

    /// Raises the limit up to which data may be sent.
    pub fn update_send_max_offset(&mut self, new_max: u64) -> (r: Result<(), StreamError>)
        ensures
            match r {
                Ok(()) => new_max >= old(self)@.send_max_offset && final(self)@ == (StreamView {
                    send_max_offset: new_max,
                    ..old(self)@
                }),
                Err(e) => e == StreamError::SendMaxOffsetDecreased && new_max < old(
                    self,
                )@.send_max_offset && final(self)@ == old(self)@,
            },
            old(self).inv() ==> final(self).inv(),
            healthy(old(self)@) ==> healthy(final(self)@),
    {
        if new_max < self.send_max_offset {
            return Err(StreamError::SendMaxOffsetDecreased);
        }
        self.send_max_offset = new_max;
        Ok(())
    }

    /// Sets the limit up to which data may be received.
    pub fn update_receive_max_offset(&mut self, new_max: u64)
        ensures
            final(self)@ == (StreamView { receive_max_offset: new_max, ..old(self)@ }),
            old(self).inv() ==> final(self).inv(),
            healthy(old(self)@) ==> healthy(final(self)@),
    {
        self.receive_max_offset = new_max;
    }

    pub fn send_offset(&self) -> (r: u64)
        ensures
            r == self@.send_offset,
    {
        self.send_offset
    }

    pub fn receive_offset(&self) -> (r: u64)
        ensures
            r == self@.receive_offset,
    {
        self.receive_offset
    }

    pub fn send_max_offset(&self) -> (r: u64)
        ensures
            r == self@.send_max_offset,
    {
        self.send_max_offset
    }

    pub fn receive_max_offset(&self) -> (r: u64)
        ensures
            r == self@.receive_max_offset,
    {
        self.receive_max_offset
    }

    pub fn is_finished(&self) -> (r: bool)
        ensures
            r == self@.state.over(),
    {
        self.state.is_closed()
    }

    pub fn fin_queued(&self) -> (r: bool)
        ensures
            r == self@.fin_queued,
    {
        self.fin_queued
    }

    pub fn fin_sent(&self) -> (r: bool)
        ensures
            r == self@.fin_sent,
    {
        self.fin_sent
    }

    pub fn fin_received(&self) -> (r: bool)
        ensures
            r == self@.fin_received,
    {
        self.fin_received
    }

    pub fn error_code(&self) -> (r: Option<u64>)
        ensures
            r == self@.error_code,
    {
        self.error_code
    }

    /// How much data waits to be sent.
    pub fn unsent(&self) -> (r: usize)
        ensures
            r == self@.send_buffer.len(),
    {
        self.send_buffer.len()
    }
}

/// Whether every chunk ends at an offset that can be written down.
pub open spec fn healthy_chunks(chunks: Seq<ChunkView>) -> bool {
    forall|i: int|
        0 <= i < chunks.len() ==> (#[trigger] chunks[i]).offset + chunks[i].data.len() <= u64::MAX
}

/// Where a chunk goes.
pub proof fn lemma_with_chunk(chunks: Seq<ChunkView>, offset: u64, data: Seq<u8>, i: int)
    requires
        in_turn(chunks),
        0 <= i <= chunks.len(),
        i > 0 ==> chunks[i - 1].offset <= offset,
        forall|j: int| i <= j < chunks.len() ==> (#[trigger] chunks[j]).offset > offset,
    ensures
        ({
            let c = ChunkView { offset, data };
            with_chunk(chunks, offset, data) == (if i > 0 && chunks[i - 1].offset == offset {
                chunks.update(i - 1, c)
            } else {
                chunks.insert(i, c)
            })
        }),
        in_turn(with_chunk(chunks, offset, data)),
    decreases chunks.len(),
{
    let c = ChunkView { offset, data };
    if chunks.len() > 0 && chunks.last().offset > offset {
        let rest = chunks.drop_last();
        assert forall|a: int, b: int| 0 <= a < b < rest.len() implies #[trigger] rest[a].offset
            < #[trigger] rest[b].offset by {
            assert(chunks[a].offset < chunks[b].offset);
        }
        lemma_with_chunk(rest, offset, data, i);
        if i > 0 && chunks[i - 1].offset == offset {
            assert(rest.update(i - 1, c).push(chunks.last()) =~= chunks.update(i - 1, c));
        } else {
            assert(rest.insert(i, c).push(chunks.last()) =~= chunks.insert(i, c));
        }
        let r = with_chunk(chunks, offset, data);
        let w = with_chunk(rest, offset, data);
        assert forall|a: int, b: int| 0 <= a < b < r.len() implies #[trigger] r[a].offset
            < #[trigger] r[b].offset by {
            if b == r.len() - 1 {
                let last = chunks.len() - 1;
                if i > 0 && chunks[i - 1].offset == offset {
                    if a != i - 1 {
                        assert(chunks[a].offset < chunks[last].offset);
                    }
                } else if a < i {
                    assert(chunks[a].offset < chunks[last].offset);
                } else if a > i {
                    assert(chunks[a - 1].offset < chunks[last].offset);
                }
            } else {
                assert(w[a].offset < w[b].offset);
            }
        }
    } else if chunks.len() > 0 && chunks.last().offset == offset {
        assert(i == chunks.len());
        assert(chunks.drop_last().push(c) =~= chunks.update(i - 1, c));
        let r = with_chunk(chunks, offset, data);
        assert forall|a: int, b: int| 0 <= a < b < r.len() implies #[trigger] r[a].offset
            < #[trigger] r[b].offset by {
            assert(chunks[a].offset < chunks[b].offset);
        }
    } else {
        assert(i == chunks.len());
        assert(chunks.push(c) =~= chunks.insert(i, c));
        let r = with_chunk(chunks, offset, data);
        assert forall|a: int, b: int| 0 <= a < b < r.len() implies #[trigger] r[a].offset
            < #[trigger] r[b].offset by {
            if b < chunks.len() {
                assert(chunks[a].offset < chunks[b].offset);
            } else if a < chunks.len() - 1 {
                assert(chunks[a].offset < chunks[chunks.len() - 1].offset);
            }
        }
    }
}


proof fn lemma_ready_keeps_health(v: StreamView)
    requires
        healthy(v),
    ensures
        healthy(with_ready_chunks(v)),
        with_ready_chunks(v).send_buffer == v.send_buffer,
        with_ready_chunks(v).send_offset == v.send_offset,
        with_ready_chunks(v).send_max_offset == v.send_max_offset,
        with_ready_chunks(v).state == v.state,
    decreases v.chunks.len(),
{
    if v.chunks.len() > 0 && v.chunks[0].offset == v.receive_offset {
        let w = StreamView {
            receive_buffer: v.receive_buffer + v.chunks[0].data,
            receive_offset: (v.receive_offset + v.chunks[0].data.len()) as u64,
            chunks: v.chunks.skip(1),
            ..v
        };
        assert forall|i: int| 0 <= i < w.chunks.len() implies (#[trigger] w.chunks[i]).offset
            + w.chunks[i].data.len() <= u64::MAX by {
            assert(v.chunks[i + 1].offset + v.chunks[i + 1].data.len() <= u64::MAX);
        }
        lemma_ready_keeps_health(w);
    }
}

proof fn lemma_chunk_keeps_health(chunks: Seq<ChunkView>, offset: u64, data: Seq<u8>)
    requires
        healthy_chunks(chunks),
        offset + data.len() <= u64::MAX,
    ensures
        healthy_chunks(with_chunk(chunks, offset, data)),
    decreases chunks.len(),
{
    if chunks.len() > 0 && chunks.last().offset > offset {
        let rest = chunks.drop_last();
        assert forall|i: int| 0 <= i < rest.len() implies (#[trigger] rest[i]).offset
            + rest[i].data.len() <= u64::MAX by {
            assert(chunks[i].offset + chunks[i].data.len() <= u64::MAX);
        }
        lemma_chunk_keeps_health(rest, offset, data);
        assert(chunks[chunks.len() - 1].offset + chunks[chunks.len() - 1].data.len() <= u64::MAX);
    } else if chunks.len() > 0 && chunks.last().offset == offset {
        let rest = chunks.drop_last();
        assert forall|i: int| 0 <= i < rest.len() implies (#[trigger] rest[i]).offset
            + rest[i].data.len() <= u64::MAX by {
            assert(chunks[i].offset + chunks[i].data.len() <= u64::MAX);
        }
    }
}

/// Receiving data keeps all offsets within range.
pub proof fn law_receiving_keeps_health(v: StreamView, offset: u64, data: Seq<u8>, fin: bool)
    requires
        healthy(v),
        received(v, offset, data, fin) is Ok,
    ensures
        healthy(accepted(v, offset, data, fin)),
{
    let end = (offset + data.len()) as u64;
    let marked = if fin {
        StreamView { receive_final_offset: Some(end), fin_received: true, ..v }
    } else {
        v
    };
    if offset == v.receive_offset {
        lemma_ready_keeps_health(
            StreamView {
                receive_buffer: marked.receive_buffer + data,
                receive_offset: end,
                ..marked
            },
        );
    } else if offset > v.receive_offset {
        lemma_chunk_keeps_health(marked.chunks, offset, data);
    }
}

/// What waits to be sent never exceeds the peer's limit: writing keeps the sum of what was sent and
/// what is queued below it.
pub proof fn law_writing_respects_limit(v: StreamView, data: Seq<u8>)
    requires
        healthy(v),
    ensures
        written(v, data) matches Ok((n, w)) ==> {
            &&& healthy(w)
            &&& w.send_offset + w.send_buffer.len() <= w.send_max_offset
            &&& 0 < n <= data.len()
        },
{
}

/// A stream that is over stays over, whatever happens to it, and takes no more data either way.
pub proof fn law_over_is_final(
    v: StreamView,
    data: Seq<u8>,
    offset: u64,
    fin: bool,
    max_data: nat,
    error_code: u64,
)
    requires
        v.state.over(),
    ensures
        written(v, data) == Err::<(nat, StreamView), StreamError>(StreamError::InvalidStreamState),
        received(v, offset, data, fin) == Err::<StreamView, StreamError>(
            StreamError::InvalidStreamState,
        ),
        after_frame(v, max_data).state.over(),
        reset_sent(v, error_code) == v,
        cut_off(v, StreamState::ResetReceived, error_code).state.over(),
{
}

/// Data is sent in the order in which it was written: a frame holds the front of the queue, what is
/// left stays queued, and the next frame starts where this one ends.
pub proof fn law_frames_follow_each_other(v: StreamView, max_data: nat)
    requires
        v.send_offset + v.send_buffer.len() <= u64::MAX,
    ensures
        ({
            let n = frame_len(v, max_data) as int;
            let w = after_frame(v, max_data);
            &&& v.send_buffer.take(n) + w.send_buffer == v.send_buffer
            &&& w.send_offset == v.send_offset + n
        }),
{
    let n = frame_len(v, max_data) as int;
    assert(v.send_buffer.take(n) + v.send_buffer.skip(n) =~= v.send_buffer);
}

/// Data that arrives in the wrong order is put together in the right one: two neighbouring pieces
/// leave the same data to be read whichever comes first.
pub proof fn law_neighbours_in_either_order(v: StreamView, a: Seq<u8>, b: Seq<u8>)
    requires
        v.state.receives(),
        v.receive_final_offset is None,
        v.chunks.len() == 0,
        a.len() > 0,
        v.receive_offset + a.len() + b.len() <= v.receive_max_offset,
    ensures
        ({
            let first = v.receive_offset;
            let second = (v.receive_offset + a.len()) as u64;
            let in_order = accepted(accepted(v, first, a, false), second, b, false);
            let swapped = accepted(accepted(v, second, b, false), first, a, false);
            &&& received(v, first, a, false) is Ok
            &&& received(accepted(v, first, a, false), second, b, false) is Ok
            &&& received(v, second, b, false) is Ok
            &&& received(accepted(v, second, b, false), first, a, false) is Ok
            &&& in_order.receive_buffer == v.receive_buffer + a + b
            &&& swapped.receive_buffer == v.receive_buffer + a + b
            &&& in_order.receive_offset == swapped.receive_offset
            &&& in_order.chunks.len() == 0
            &&& swapped.chunks.len() == 0
        }),
{
    let first = v.receive_offset;
    let second = (v.receive_offset + a.len()) as u64;
    let one = accepted(v, first, a, false);
    assert(one.receive_buffer == v.receive_buffer + a);
    let ahead = accepted(v, second, b, false);
    assert(ahead.chunks =~= seq![ChunkView { offset: second, data: b }]);
    let filled = StreamView {
        receive_buffer: ahead.receive_buffer + a,
        receive_offset: second,
        ..ahead
    };
    let taken = StreamView {
        receive_buffer: filled.receive_buffer + b,
        receive_offset: (second + b.len()) as u64,
        chunks: filled.chunks.skip(1),
        ..filled
    };
    assert(taken.chunks.len() == 0);
    assert(with_ready_chunks(taken) == taken);
    assert(with_ready_chunks(filled) == taken);
}

/// With both ends closed and nothing left to read, the stream is over: an empty last frame on a
/// stream whose sending side is closed ends it.
pub proof fn law_both_ends_close(v: StreamView)
    requires
        v.state is SendClosed,
        v.receive_final_offset is None,
        v.chunks.len() == 0,
        v.receive_buffer.len() == 0,
        v.receive_offset <= v.receive_max_offset,
    ensures
        received(v, v.receive_offset, seq![], true) is Ok,
        accepted(v, v.receive_offset, seq![], true).state is Closed,
{
}


pub open spec fn type_label(t: StreamType) -> Seq<char> {
    match t {
        StreamType::ClientBidirectional => "ClientBidirectional"@,
        StreamType::ServerBidirectional => "ServerBidirectional"@,
        StreamType::ClientUnidirectional => "ClientUnidirectional"@,
        StreamType::ServerUnidirectional => "ServerUnidirectional"@,
    }
}

pub open spec fn type_labelled(s: Seq<char>) -> Option<StreamType> {
    if s == "ClientBidirectional"@ {
        Some(StreamType::ClientBidirectional)
    } else if s == "ServerBidirectional"@ {
        Some(StreamType::ServerBidirectional)
    } else if s == "ClientUnidirectional"@ {
        Some(StreamType::ClientUnidirectional)
    } else if s == "ServerUnidirectional"@ {
        Some(StreamType::ServerUnidirectional)
    } else {
        None
    }
}

pub open spec fn state_label(t: StreamState) -> Seq<char> {
    match t {
        StreamState::Open => "Open"@,
        StreamState::SendClosed => "SendClosed"@,
        StreamState::ReceivedClosed => "ReceivedClosed"@,
        StreamState::Closed => "Closed"@,
        StreamState::ResetSent => "ResetSent"@,
        StreamState::ResetReceived => "ResetReceived"@,
    }
}

pub open spec fn state_labelled(s: Seq<char>) -> Option<StreamState> {
    if s == "Open"@ {
        Some(StreamState::Open)
    } else if s == "SendClosed"@ {
        Some(StreamState::SendClosed)
    } else if s == "ReceivedClosed"@ {
        Some(StreamState::ReceivedClosed)
    } else if s == "Closed"@ {
        Some(StreamState::Closed)
    } else if s == "ResetSent"@ {
        Some(StreamState::ResetSent)
    } else if s == "ResetReceived"@ {
        Some(StreamState::ResetReceived)
    } else {
        None
    }
}

/// The name of a stream type.
pub fn stream_type_label(stream_type: StreamType) -> (r: &'static str)
    ensures
        r@ == type_label(stream_type),
{
    match stream_type {
        StreamType::ClientBidirectional => "ClientBidirectional",
        StreamType::ServerBidirectional => "ServerBidirectional",
        StreamType::ClientUnidirectional => "ClientUnidirectional",
        StreamType::ServerUnidirectional => "ServerUnidirectional",
    }
}

/// The stream type with a given name.
pub fn parse_stream_type(value: &[char]) -> (r: Option<StreamType>)
    ensures
        r == type_labelled(value@),
{
    if is_text(value, "ClientBidirectional") {
        Some(StreamType::ClientBidirectional)
    } else if is_text(value, "ServerBidirectional") {
        Some(StreamType::ServerBidirectional)
    } else if is_text(value, "ClientUnidirectional") {
        Some(StreamType::ClientUnidirectional)
    } else if is_text(value, "ServerUnidirectional") {
        Some(StreamType::ServerUnidirectional)
    } else {
        None
    }
}

/// The name of a stream state.
pub fn stream_state_label(state: StreamState) -> (r: &'static str)
    ensures
        r@ == state_label(state),
{
    match state {
        StreamState::Open => "Open",
        StreamState::SendClosed => "SendClosed",
        StreamState::ReceivedClosed => "ReceivedClosed",
        StreamState::Closed => "Closed",
        StreamState::ResetSent => "ResetSent",
        StreamState::ResetReceived => "ResetReceived",
    }
}

/// The stream state with a given name.
pub fn parse_stream_state(value: &[char]) -> (r: Option<StreamState>)
    ensures
        r == state_labelled(value@),
{
    if is_text(value, "Open") {
        Some(StreamState::Open)
    } else if is_text(value, "SendClosed") {
        Some(StreamState::SendClosed)
    } else if is_text(value, "ReceivedClosed") {
        Some(StreamState::ReceivedClosed)
    } else if is_text(value, "Closed") {
        Some(StreamState::Closed)
    } else if is_text(value, "ResetSent") {
        Some(StreamState::ResetSent)
    } else if is_text(value, "ResetReceived") {
        Some(StreamState::ResetReceived)
    } else {
        None
    }
}

pub open spec fn bool_text(b: bool) -> Seq<char> {
    if b {
        "true"@
    } else {
        "false"@
    }
}

/// The truth value that a text denotes.
pub open spec fn bool_of(s: Seq<char>) -> Option<bool> {
    let t = lowered(trimmed(s));
    if t == "1"@ || t == "true"@ || t == "yes"@ {
        Some(true)
    } else if t == "0"@ || t == "false"@ || t == "no"@ {
        Some(false)
    } else {
        None
    }
}

/// Reads a truth value.
pub fn parse_bool(value: &[char]) -> (r: Option<bool>)
    ensures
        r == bool_of(value@),
{
    let t = to_lower(trim(value));
    let s = t.as_slice();
    if is_text(s, "1") || is_text(s, "true") || is_text(s, "yes") {
        Some(true)
    } else if is_text(s, "0") || is_text(s, "false") || is_text(s, "no") {
        Some(false)
    } else {
        None
    }
}

/// A number, or a dash where there is none.
pub open spec fn opt_text(o: Option<u64>) -> Seq<char> {
    match o {
        Some(n) => decimal(n as nat),
        None => "-"@,
    }
}

/// Writes a number, or a dash where there is none.
pub fn opt_u64_to_text(value: Option<u64>) -> (r: Vec<char>)
    ensures
        r@ == opt_text(value),
{
    match value {
        Some(n) => to_decimal(n),
        None => chars_of("-"),
    }
}

/// What a number or a dash denotes.
pub open spec fn opt_of(s: Seq<char>) -> Option<Option<u64>> {
    let t = trimmed(s);
    if t == "-"@ {
        Some(None)
    } else {
        match parsed(t, u64::MAX as nat) {
            Some(n) => Some(Some(n as u64)),
            None => None,
        }
    }
}

/// Reads a number or a dash.
pub fn parse_opt_u64(value: &[char]) -> (r: Option<Option<u64>>)
    ensures
        r == opt_of(value@),
{
    let t = trim(value);
    if is_text(t, "-") {
        Some(None)
    } else {
        match parse_u64(t) {
            Some(n) => Some(Some(n)),
            None => None,
        }
    }
}

/// The keys of a stream record, without those of its chunks.
pub open spec fn fixed_keys() -> Seq<Seq<char>> {
    seq![
        "id"@,
        "stream-type"@,
        "state"@,
        "send-offset"@,
        "send-max-offset"@,
        "send-final-offset"@,
        "receive-offset"@,
        "receive-max-offset"@,
        "receive-final-offset"@,
        "fin-queued"@,
        "fin-sent"@,
        "fin-received"@,
        "priority"@,
        "error-code"@,
        "send-buffer"@,
        "receive-buffer"@,
        "receive-chunks-count"@,
    ]
}

/// The values that go with `fixed_keys`.
pub open spec fn fixed_values(v: StreamView) -> Seq<Seq<char>> {
    seq![
        decimal(v.id as nat),
        type_label(v.stream_type),
        state_label(v.state),
        decimal(v.send_offset as nat),
        decimal(v.send_max_offset as nat),
        opt_text(v.send_final_offset),
        decimal(v.receive_offset as nat),
        decimal(v.receive_max_offset as nat),
        opt_text(v.receive_final_offset),
        bool_text(v.fin_queued),
        bool_text(v.fin_sent),
        bool_text(v.fin_received),
        decimal(v.priority as nat),
        opt_text(v.error_code),
        encoded(v.send_buffer),
        encoded(v.receive_buffer),
        decimal(v.chunks.len()),
    ]
}

pub open spec fn offset_key(i: nat) -> Seq<char> {
    "chunk-"@ + decimal(i) + "-offset"@
}

pub open spec fn data_key(i: nat) -> Seq<char> {
    "chunk-"@ + decimal(i) + "-data"@
}

/// The keys of the first `n` chunks.
pub open spec fn chunk_keys(n: nat) -> Seq<Seq<char>> {
    Seq::new(
        2 * n,
        |i: int|
            if i % 2 == 0 {
                offset_key((i / 2) as nat)
            } else {
                data_key((i / 2) as nat)
            },
    )
}

/// The values that go with `chunk_keys`.
pub open spec fn chunk_values(chunks: Seq<ChunkView>) -> Seq<Seq<char>> {
    Seq::new(
        2 * chunks.len(),
        |i: int|
            if i % 2 == 0 {
                decimal(chunks[i / 2].offset as nat)
            } else {
                encoded(chunks[i / 2].data)
            },
    )
}

pub open spec fn stream_keys(v: StreamView) -> Seq<Seq<char>> {
    fixed_keys() + chunk_keys(v.chunks.len())
}

pub open spec fn stream_values(v: StreamView) -> Seq<Seq<char>> {
    fixed_values(v) + chunk_values(v.chunks)
}

/// A stream as a record.
pub open spec fn serialized(v: StreamView) -> Seq<u8> {
    record_octets(stream_keys(v), stream_values(v))
}

/// The chunks from `i` on that a record gives, put among those before.
pub open spec fn chunks_read(
    lines: Seq<Seq<char>>,
    before: Seq<ChunkView>,
    i: nat,
    count: nat,
) -> Option<Seq<ChunkView>>
    decreases count - i,
{
    if i >= count {
        Some(before)
    } else {
        match (number_of(lines, offset_key(i), u64::MAX as nat), octets_of(lines, data_key(i))) {
            (Some(offset), Some(data)) => chunks_read(
                lines,
                with_chunk(before, offset as u64, data),
                i + 1,
                count,
            ),
            _ => None,
        }
    }
}

pub open spec fn type_at(lines: Seq<Seq<char>>) -> Option<StreamType> {
    match value_of(lines, "stream-type"@) {
        Some(v) => type_labelled(v),
        None => None,
    }
}

pub open spec fn state_at(lines: Seq<Seq<char>>) -> Option<StreamState> {
    match value_of(lines, "state"@) {
        Some(v) => state_labelled(v),
        None => None,
    }
}

pub open spec fn opt_at(lines: Seq<Seq<char>>, key: Seq<char>) -> Option<Option<u64>> {
    match value_of(lines, key) {
        Some(v) => opt_of(v),
        None => None,
    }
}

pub open spec fn bool_at(lines: Seq<Seq<char>>, key: Seq<char>) -> Option<bool> {
    match value_of(lines, key) {
        Some(v) => bool_of(v),
        None => None,
    }
}

/// The stream that a record holds.
pub open spec fn stream_in(lines: Seq<Seq<char>>) -> Option<StreamView> {
    let id = number_of(lines, "id"@, u64::MAX as nat);
    let stream_type = type_at(lines);
    let state = state_at(lines);
    let send_offset = number_of(lines, "send-offset"@, u64::MAX as nat);
    let send_max_offset = number_of(lines, "send-max-offset"@, u64::MAX as nat);
    let send_final_offset = opt_at(lines, "send-final-offset"@);
    let receive_offset = number_of(lines, "receive-offset"@, u64::MAX as nat);
    let receive_max_offset = number_of(lines, "receive-max-offset"@, u64::MAX as nat);
    let receive_final_offset = opt_at(lines, "receive-final-offset"@);
    let fin_queued = bool_at(lines, "fin-queued"@);
    let fin_sent = bool_at(lines, "fin-sent"@);
    let fin_received = bool_at(lines, "fin-received"@);
    let priority = number_of(lines, "priority"@, u8::MAX as nat);
    let error_code = opt_at(lines, "error-code"@);
    let send_buffer = octets_of(lines, "send-buffer"@);
    let receive_buffer = octets_of(lines, "receive-buffer"@);
    let count = number_of(lines, "receive-chunks-count"@, usize::MAX as nat);
    let chunks = chunks_read(lines, seq![], 0, count.unwrap());
    if id is Some && stream_type is Some && stream_type.unwrap() == type_of_id(id.unwrap() as u64)
        && state is Some && send_offset is Some && send_max_offset is Some && send_final_offset is Some
        && receive_offset is Some && receive_max_offset is Some && receive_final_offset is Some
        && fin_queued is Some && fin_sent is Some && fin_received is Some && priority is Some
        && error_code is Some && send_buffer is Some && receive_buffer is Some && count is Some
        && chunks is Some {
        Some(
            StreamView {
                id: id.unwrap() as u64,
                stream_type: stream_type.unwrap(),
                state: state.unwrap(),
                send_buffer: send_buffer.unwrap(),
                send_offset: send_offset.unwrap() as u64,
                send_max_offset: send_max_offset.unwrap() as u64,
                send_final_offset: send_final_offset.unwrap(),
                receive_buffer: receive_buffer.unwrap(),
                receive_offset: receive_offset.unwrap() as u64,
                receive_max_offset: receive_max_offset.unwrap() as u64,
                receive_final_offset: receive_final_offset.unwrap(),
                chunks: chunks.unwrap(),
                fin_queued: fin_queued.unwrap(),
                fin_sent: fin_sent.unwrap(),
                fin_received: fin_received.unwrap(),
                priority: priority.unwrap() as u8,
                error_code: error_code.unwrap(),
            },
        )
    } else {
        None
    }
}

/// The stream that was serialized.
pub open spec fn deserialized(raw: Seq<u8>) -> Option<StreamView> {
    match record_in(raw) {
        Some(lines) => stream_in(lines),
        None => None,
    }
}

/// The lines of a record that do not depend on its chunks.
spec fn fixed_lines(v: StreamView) -> Seq<Seq<char>> {
    record_lines(fixed_keys(), fixed_values(v))
}

/// Appends the next line of a record.
fn push_next(out: &mut Vec<char>, key: &str, value: &[char], Ghost(all): Ghost<Seq<Seq<char>>>, Ghost(n): Ghost<int>)
    requires
        0 <= n < all.len(),
        all[n] == key@ + seq!['='] + value@,
        old(out)@ == ended(all.take(n)),
    ensures
        final(out)@ == ended(all.take(n + 1)),
{
    let k = chars_of(key);
    push_pair(out, k.as_slice(), value);
    assert(all.take(n + 1).drop_last() =~= all.take(n));
}

/// Writes who a stream is and what becomes of its sending side.
fn push_sending(out: &mut Vec<char>, stream: &Stream)
    requires
        old(out)@.len() == 0,
    ensures
        final(out)@ == ended(fixed_lines(stream@).take(6)),
{
    let ghost all = fixed_lines(stream@);
    assert(ended(all.take(0)) =~= seq![]);
    assert(out@ =~= seq![]);
    push_next(out, "id", to_decimal(stream.id).as_slice(), Ghost(all), Ghost(0));
    let label = chars_of(stream_type_label(stream.stream_type));
    push_next(out, "stream-type", label.as_slice(), Ghost(all), Ghost(1));
    let label = chars_of(stream_state_label(stream.state));
    push_next(out, "state", label.as_slice(), Ghost(all), Ghost(2));
    push_next(out, "send-offset", to_decimal(stream.send_offset).as_slice(), Ghost(all), Ghost(3));
    push_next(out, "send-max-offset", to_decimal(stream.send_max_offset).as_slice(), Ghost(all), Ghost(4));
    let end = opt_u64_to_text(stream.send_final_offset);
    push_next(out, "send-final-offset", end.as_slice(), Ghost(all), Ghost(5));
}

/// Writes what becomes of a stream's receiving side, and which ends were reached.
fn push_receiving(out: &mut Vec<char>, stream: &Stream)
    requires
        old(out)@ == ended(fixed_lines(stream@).take(6)),
    ensures
        final(out)@ == ended(fixed_lines(stream@).take(12)),
{
    let ghost all = fixed_lines(stream@);
    push_next(out, "receive-offset", to_decimal(stream.receive_offset).as_slice(), Ghost(all), Ghost(6));
    push_next(out, "receive-max-offset", to_decimal(stream.receive_max_offset).as_slice(), Ghost(all), Ghost(7));
    let end = opt_u64_to_text(stream.receive_final_offset);
    push_next(out, "receive-final-offset", end.as_slice(), Ghost(all), Ghost(8));
    push_next(out, "fin-queued", bool_chars(stream.fin_queued).as_slice(), Ghost(all), Ghost(9));
    push_next(out, "fin-sent", bool_chars(stream.fin_sent).as_slice(), Ghost(all), Ghost(10));
    push_next(out, "fin-received", bool_chars(stream.fin_received).as_slice(), Ghost(all), Ghost(11));
}

/// Writes what waits in a stream, but for its chunks.
fn push_waiting(out: &mut Vec<char>, stream: &Stream)
    requires
        old(out)@ == ended(fixed_lines(stream@).take(12)),
    ensures
        final(out)@ == ended(fixed_lines(stream@).take(17)),
{
    let ghost all = fixed_lines(stream@);
    push_next(out, "priority", to_decimal(stream.priority as u64).as_slice(), Ghost(all), Ghost(12));
    push_next(out, "error-code", opt_u64_to_text(stream.error_code).as_slice(), Ghost(all), Ghost(13));
    let send_buffer = queued_bytes(&stream.send_buffer);
    let armour = chars_of(encode(send_buffer.as_slice()).as_str());
    push_next(out, "send-buffer", armour.as_slice(), Ghost(all), Ghost(14));
    let receive_buffer = queued_bytes(&stream.receive_buffer);
    let armour = chars_of(encode(receive_buffer.as_slice()).as_str());
    push_next(out, "receive-buffer", armour.as_slice(), Ghost(all), Ghost(15));
    let count = to_decimal(stream.receive_chunks.len() as u64);
    push_next(out, "receive-chunks-count", count.as_slice(), Ghost(all), Ghost(16));
}

fn chunk_key(i: usize, suffix: &str) -> (r: Vec<char>)
    ensures
        r@ == "chunk-"@ + decimal(i as nat) + suffix@,
{
    let mut key = chars_of("chunk-");
    let n = to_decimal(i as u64);
    push_chars(&mut key, n.as_slice());
    push_text(&mut key, suffix);
    key
}

fn bool_chars(b: bool) -> (r: Vec<char>)
    ensures
        r@ == bool_text(b),
{
    if b {
        chars_of("true")
    } else {
        chars_of("false")
    }
}

/// Writes a stream as a record.
pub fn serialize_stream(stream: &Stream) -> (r: Vec<u8>)
    ensures
        r@ == serialized(stream@),
{
    let mut out: Vec<char> = Vec::new();
    push_sending(&mut out, stream);
    push_receiving(&mut out, stream);
    push_waiting(&mut out, stream);
    let ghost keys = stream_keys(stream@);
    let ghost values = stream_values(stream@);
    let ghost full = record_lines(keys, values);
    assert(full.take(17) =~= fixed_lines(stream@).take(17));
    let mut i: usize = 0;
    while i < stream.receive_chunks.len()
        invariant
            i <= stream.receive_chunks@.len(),
            keys == stream_keys(stream@),
            values == stream_values(stream@),
            full == record_lines(keys, values),
            keys.len() == 17 + 2 * stream.receive_chunks@.len(),
            out@ == ended(full.take(17 + 2 * i)),
        decreases stream.receive_chunks@.len() - i,
    {
        let key = chunk_key(i, "-offset");
        let value = to_decimal(stream.receive_chunks[i].offset);
        let ghost at = 17 + 2 * i;
        let ghost before = full.take(at);
        proof {
            assert(keys[at] == chunk_keys(stream@.chunks.len())[2 * i as int]);
            assert(values[at] == chunk_values(stream@.chunks)[2 * i as int]);
            assert(keys[at + 1] == chunk_keys(stream@.chunks.len())[2 * i as int + 1]);
            assert(values[at + 1] == chunk_values(stream@.chunks)[2 * i as int + 1]);
            assert((2 * i as int) / 2 == i && (2 * i as int + 1) / 2 == i);
            assert(full.take(at + 1) =~= before.push(full[at]));
            assert(full.take(at + 1).drop_last() =~= before);
        }
        push_pair(&mut out, key.as_slice(), value.as_slice());
        assert(out@ == ended(full.take(at + 1)));
        let key = chunk_key(i, "-data");
        let value = chars_of(encode(stream.receive_chunks[i].data.as_slice()).as_str());
        proof {
            assert(full.take(at + 2) =~= full.take(at + 1).push(full[at + 1]));
            assert(full.take(at + 2).drop_last() =~= full.take(at + 1));
        }
        push_pair(&mut out, key.as_slice(), value.as_slice());
        i = i + 1;
    }
    assert(full.take(full.len() as int) =~= full);
    let text = string_of(out.as_slice());
    vstd::slice::slice_to_vec(text.as_str().as_bytes())
}


fn type_field(record: &Record) -> (r: Option<StreamType>)
    requires
        record.inv(),
    ensures
        r == type_at(record@),
{
    match record.field("stream-type") {
        Some(v) => parse_stream_type(v),
        None => None,
    }
}

fn state_field(record: &Record) -> (r: Option<StreamState>)
    requires
        record.inv(),
    ensures
        r == state_at(record@),
{
    match record.field("state") {
        Some(v) => parse_stream_state(v),
        None => None,
    }
}

fn opt_field(record: &Record, key: &str) -> (r: Option<Option<u64>>)
    requires
        record.inv(),
    ensures
        r == opt_at(record@, key@),
{
    match record.field(key) {
        Some(v) => parse_opt_u64(v),
        None => None,
    }
}

fn bool_field(record: &Record, key: &str) -> (r: Option<bool>)
    requires
        record.inv(),
    ensures
        r == bool_at(record@, key@),
{
    match record.field(key) {
        Some(v) => parse_bool(v),
        None => None,
    }
}

fn priority_field(record: &Record) -> (r: Option<u8>)
    requires
        record.inv(),
    ensures
        match r {
            Some(n) => number_of(record@, "priority"@, u8::MAX as nat) == Some(n as nat),
            None => number_of(record@, "priority"@, u8::MAX as nat) is None,
        },
{
    match record.field("priority") {
        Some(v) => parse_u8(v),
        None => None,
    }
}

fn queue_of(data: &Vec<u8>) -> (r: VecDeque<u8>)
    ensures
        r@ == data@,
{
    let mut q: VecDeque<u8> = VecDeque::new();
    append_all(&mut q, data.as_slice());
    assert(q@ =~= data@);
    q
}

fn read_stream(record: &Record) -> (r: Option<Stream>)
    requires
        record.inv(),
    ensures
        match r {
            Some(s) => stream_in(record@) == Some(s@) && s.inv(),
            None => stream_in(record@) is None,
        },
{
    let id = record.u64_field("id")?;
    let stream_type = type_field(record)?;
    if stream_type != StreamType::from_id(id) {
        return None;
    }
    let state = state_field(record)?;
    let send_offset = record.u64_field("send-offset")?;
    let send_max_offset = record.u64_field("send-max-offset")?;
    let send_final_offset = opt_field(record, "send-final-offset")?;
    let receive_offset = record.u64_field("receive-offset")?;
    let receive_max_offset = record.u64_field("receive-max-offset")?;
    let receive_final_offset = opt_field(record, "receive-final-offset")?;
    let fin_queued = bool_field(record, "fin-queued")?;
    let fin_sent = bool_field(record, "fin-sent")?;
    let fin_received = bool_field(record, "fin-received")?;
    let priority = priority_field(record)?;
    let error_code = opt_field(record, "error-code")?;
    let send_buffer = record.octets_field("send-buffer")?;
    let receive_buffer = record.octets_field("receive-buffer")?;
    let count = record.usize_field("receive-chunks-count")?;
    let mut stream = Stream {
        id,
        stream_type,
        state,
        send_buffer: queue_of(&send_buffer),
        send_offset,
        send_max_offset,
        send_final_offset,
        receive_buffer: queue_of(&receive_buffer),
        receive_offset,
        receive_max_offset,
        receive_final_offset,
        receive_chunks: Vec::new(),
        fin_queued,
        fin_sent,
        fin_received,
        priority,
        error_code,
    };
    assert(stream@.chunks =~= seq![]);
    let ghost first = stream@;
    let ghost lines = record@;
    let mut i: usize = 0;
    while i < count
        invariant
            i <= count,
            record.inv(),
            lines == record@,
            stream.inv(),
            stream@ == (StreamView { chunks: stream@.chunks, ..first }),
            number_of(lines, "receive-chunks-count"@, usize::MAX as nat) == Some(count as nat),
            chunks_read(lines, stream@.chunks, i as nat, count as nat) == chunks_read(
                lines,
                seq![],
                0,
                count as nat,
            ),
        decreases count - i,
    {
        let offset_name = chunk_key(i, "-offset");
        let data_name = chunk_key(i, "-data");
        let offset = match record.u64_at(offset_name.as_slice()) {
            Some(n) => n,
            None => {
                return None;
            },
        };
        let data = match record.octets_at(data_name.as_slice()) {
            Some(d) => d,
            None => {
                return None;
            },
        };
        stream.insert_chunk(offset, data);
        i = i + 1;
    }
    Some(stream)
}

/// Reads a stream from the record that `serialize_stream` writes.
pub fn deserialize_stream(raw_payload: &[u8]) -> (r: Option<Stream>)
    ensures
        match r {
            Some(s) => deserialized(raw_payload@) == Some(s@) && s.inv(),
            None => deserialized(raw_payload@) is None,
        },
{
    let text = match utf8_text(raw_payload) {
        Some(t) => t,
        None => {
            return None;
        },
    };
    let chars = chars_of(text.as_str());
    let rows = lines(chars.as_slice());
    match Record::read(&rows) {
        Some(record) => read_stream(&record),
        None => None,
    }
}


proof fn lemma_opt_tidy(o: Option<u64>)
    ensures
        tidy(opt_text(o)),
        opt_of(opt_text(o)) == Some(o),
{
    match o {
        Some(n) => {
            lemma_decimal_tidy(n as nat);
            lemma_trimmed_solid(decimal(n as nat));
            law_decimal_roundtrip(n as nat, u64::MAX as nat);
            crate::decimal::lemma_decimal_digits(n as nat);
            reveal_strlit("-");
            assert(is_digit(decimal(n as nat)[0]));
            assert("-"@[0] == '-');
        },
        None => {
            reveal_strlit("-");
            lemma_trimmed_solid("-"@);
        },
    }
}

proof fn lemma_bool_tidy(b: bool)
    ensures
        tidy(bool_text(b)),
        bool_of(bool_text(b)) == Some(b),
{
    reveal_strlit("true");
    reveal_strlit("false");
    reveal_strlit("1");
    reveal_strlit("0");
    reveal_strlit("yes");
    reveal_strlit("no");
    lemma_trimmed_solid("true"@);
    lemma_trimmed_solid("false"@);
    assert(lowered("true"@) =~= "true"@);
    assert(lowered("false"@) =~= "false"@);
    assert("false"@.len() == 5);
    assert("yes"@.len() == 3 && "1"@.len() == 1 && "true"@.len() == 4);
}

proof fn lemma_type_label(t: StreamType)
    ensures
        tidy(type_label(t)),
        type_labelled(type_label(t)) == Some(t),
{
    reveal_strlit("ClientBidirectional");
    reveal_strlit("ServerBidirectional");
    reveal_strlit("ClientUnidirectional");
    reveal_strlit("ServerUnidirectional");
    assert("ClientBidirectional"@[0] == 'C' && "ServerBidirectional"@[0] == 'S');
    assert("ClientUnidirectional"@[0] == 'C' && "ServerUnidirectional"@[0] == 'S');
    assert("ClientBidirectional"@.len() == 19 && "ServerBidirectional"@.len() == 19);
    assert("ClientUnidirectional"@.len() == 20 && "ServerUnidirectional"@.len() == 20);
}

proof fn lemma_state_label(t: StreamState)
    ensures
        tidy(state_label(t)),
        state_labelled(state_label(t)) == Some(t),
{
    reveal_strlit("Open");
    reveal_strlit("SendClosed");
    reveal_strlit("ReceivedClosed");
    reveal_strlit("Closed");
    reveal_strlit("ResetSent");
    reveal_strlit("ResetReceived");
    assert("Open"@.len() == 4 && "SendClosed"@.len() == 10 && "ReceivedClosed"@.len() == 14);
    assert("Closed"@.len() == 6 && "ResetSent"@.len() == 9 && "ResetReceived"@.len() == 13);
}

proof fn lemma_encoded_tidy(s: Seq<u8>)
    ensures
        tidy(encoded(s)),
{
    lemma_encoded_symbols(s);
    lemma_armoured_tidy(encoded(s));
}

/// The fixed keys are all different, without white space or equals signs, and none is a chunk key.
proof fn lemma_fixed_keys()
    ensures
        fixed_keys().len() == 17,
        forall|i: int|
            0 <= i < 17 ==> lacks(#[trigger] fixed_keys()[i], '=') && solid(fixed_keys()[i])
                && fixed_keys()[i].len() > 0 && fixed_keys()[i][0] != 'c',
        forall|i: int, j: int|
            0 <= i < 17 && 0 <= j < 17 && i != j ==> #[trigger] fixed_keys()[i]
                != #[trigger] fixed_keys()[j],
{
    reveal_strlit("id");
    reveal_strlit("stream-type");
    reveal_strlit("state");
    reveal_strlit("send-offset");
    reveal_strlit("send-max-offset");
    reveal_strlit("send-final-offset");
    reveal_strlit("receive-offset");
    reveal_strlit("receive-max-offset");
    reveal_strlit("receive-final-offset");
    reveal_strlit("fin-queued");
    reveal_strlit("fin-sent");
    reveal_strlit("fin-received");
    reveal_strlit("priority");
    reveal_strlit("error-code");
    reveal_strlit("send-buffer");
    reveal_strlit("receive-buffer");
    reveal_strlit("receive-chunks-count");
    let k = fixed_keys();
    // Lengths and first characters tell the keys apart, but for two pairs.
    assert(k[0].len() == 2 && k[1].len() == 11 && k[2].len() == 5 && k[3].len() == 11);
    assert(k[4].len() == 15 && k[5].len() == 17 && k[6].len() == 14 && k[7].len() == 18);
    assert(k[8].len() == 20 && k[9].len() == 10 && k[10].len() == 8 && k[11].len() == 12);
    assert(k[12].len() == 8 && k[13].len() == 10 && k[14].len() == 11 && k[15].len() == 14);
    assert(k[16].len() == 20);
    assert(k[1][1] == 't' && k[3][1] == 'e' && k[14][1] == 'e');
    assert(k[3][5] == 'o' && k[14][5] == 'b');
    assert(k[6][8] == 'o' && k[15][8] == 'b');
    assert(k[8][8] == 'f' && k[16][8] == 'c');
    assert(k[9][0] == 'f' && k[13][0] == 'e');
    assert(k[10][0] == 'f' && k[12][0] == 'p');
}

proof fn lemma_chunk_key(i: nat)
    ensures
        lacks(offset_key(i), '=') && solid(offset_key(i)),
        lacks(data_key(i), '=') && solid(data_key(i)),
        offset_key(i).len() > 0 && offset_key(i)[0] == 'c' && offset_key(i).last() == 't',
        data_key(i).len() > 0 && data_key(i)[0] == 'c' && data_key(i).last() == 'a',
        offset_key(i).len() == 13 + decimal(i).len(),
        data_key(i).len() == 11 + decimal(i).len(),
        offset_key(i).subrange(6, 6 + decimal(i).len() as int) == decimal(i),
        data_key(i).subrange(6, 6 + decimal(i).len() as int) == decimal(i),
{
    reveal_strlit("chunk-");
    reveal_strlit("-offset");
    reveal_strlit("-data");
    crate::decimal::lemma_decimal_digits(i);
    let d = decimal(i);
    let a = "chunk-"@;
    let o = offset_key(i);
    let t = data_key(i);
    assert forall|j: int| 0 <= j < o.len() implies #[trigger] o[j] != '=' && !is_white(o[j]) by {
        if j < 6 {
            assert(o[j] == a[j]);
        } else if j < 6 + d.len() {
            assert(o[j] == d[j - 6]);
            assert(is_digit(d[j - 6]));
        } else {
            assert(o[j] == "-offset"@[j - 6 - d.len()]);
        }
    }
    assert forall|j: int| 0 <= j < t.len() implies #[trigger] t[j] != '=' && !is_white(t[j]) by {
        if j < 6 {
            assert(t[j] == a[j]);
        } else if j < 6 + d.len() {
            assert(t[j] == d[j - 6]);
            assert(is_digit(d[j - 6]));
        } else {
            assert(t[j] == "-data"@[j - 6 - d.len()]);
        }
    }
    assert(o.subrange(6, 6 + d.len() as int) =~= d);
    assert(t.subrange(6, 6 + d.len() as int) =~= d);
}

proof fn lemma_chunk_keys_apart(n: nat, i: int, j: int)
    requires
        0 <= i < 2 * n,
        0 <= j < 2 * n,
        i != j,
    ensures
        chunk_keys(n)[i] != chunk_keys(n)[j],
{
    let a = (i / 2) as nat;
    let b = (j / 2) as nat;
    lemma_chunk_key(a);
    lemma_chunk_key(b);
    if i % 2 == j % 2 {
        if chunk_keys(n)[i] == chunk_keys(n)[j] {
            assert(decimal(a) == decimal(b));
            lemma_decimal_value(a);
            lemma_decimal_value(b);
            assert(a == b);
        }
    }
}

/// A stream can be written as a record.
proof fn lemma_stream_recordable(v: StreamView)
    ensures
        recordable(stream_keys(v), stream_values(v)),
{
    let keys = stream_keys(v);
    let values = stream_values(v);
    let n = v.chunks.len();
    lemma_fixed_keys();
    assert(fixed_values(v).len() == 17);
    assert(keys.len() == values.len());
    assert forall|i: int| 0 <= i < keys.len() implies lacks(#[trigger] keys[i], '=') && solid(keys[i]) by {
        if i < 17 {
            assert(keys[i] == fixed_keys()[i]);
        } else {
            assert(keys[i] == chunk_keys(n)[i - 17]);
            lemma_chunk_key(((i - 17) / 2) as nat);
        }
    }
    assert forall|i: int| 0 <= i < values.len() implies solid(#[trigger] values[i]) by {
        if i < 17 {
            assert(values[i] == fixed_values(v)[i]);
            lemma_fixed_values_tidy(v, i);
        } else {
            assert(values[i] == chunk_values(v.chunks)[i - 17]);
            let c = v.chunks[(i - 17) / 2];
            lemma_decimal_tidy(c.offset as nat);
            lemma_encoded_tidy(c.data);
        }
    }
    assert forall|i: int, j: int|
        0 <= i < keys.len() && 0 <= j < keys.len() && i != j implies #[trigger] keys[i]
        != #[trigger] keys[j] by {
        if i < 17 && j < 17 {
            assert(keys[i] == fixed_keys()[i] && keys[j] == fixed_keys()[j]);
        } else if i >= 17 && j >= 17 {
            assert(keys[i] == chunk_keys(n)[i - 17] && keys[j] == chunk_keys(n)[j - 17]);
            lemma_chunk_keys_apart(n, i - 17, j - 17);
        } else if i < 17 {
            assert(keys[i] == fixed_keys()[i] && keys[j] == chunk_keys(n)[j - 17]);
            lemma_chunk_key(((j - 17) / 2) as nat);
        } else {
            assert(keys[i] == chunk_keys(n)[i - 17] && keys[j] == fixed_keys()[j]);
            lemma_chunk_key(((i - 17) / 2) as nat);
        }
    }
}

proof fn lemma_fixed_values_tidy(v: StreamView, i: int)
    requires
        0 <= i < 17,
    ensures
        tidy(fixed_values(v)[i]),
{
    lemma_decimal_tidy(v.id as nat);
    lemma_type_label(v.stream_type);
    lemma_state_label(v.state);
    lemma_decimal_tidy(v.send_offset as nat);
    lemma_decimal_tidy(v.send_max_offset as nat);
    lemma_opt_tidy(v.send_final_offset);
    lemma_decimal_tidy(v.receive_offset as nat);
    lemma_decimal_tidy(v.receive_max_offset as nat);
    lemma_opt_tidy(v.receive_final_offset);
    lemma_bool_tidy(v.fin_queued);
    lemma_bool_tidy(v.fin_sent);
    lemma_bool_tidy(v.fin_received);
    lemma_decimal_tidy(v.priority as nat);
    lemma_opt_tidy(v.error_code);
    lemma_encoded_tidy(v.send_buffer);
    lemma_encoded_tidy(v.receive_buffer);
    lemma_decimal_tidy(v.chunks.len());
}

/// The chunks of a record are read back in their order.
proof fn lemma_chunks_read(v: StreamView, i: nat)
    requires
        in_turn(v.chunks),
        i <= v.chunks.len(),
    ensures
        chunks_read(
            record_lines(stream_keys(v), stream_values(v)),
            v.chunks.take(i as int),
            i,
            v.chunks.len(),
        ) == Some(v.chunks),
    decreases v.chunks.len() - i,
{
    let l = record_lines(stream_keys(v), stream_values(v));
    let n = v.chunks.len();
    let before = v.chunks.take(i as int);
    if i == n {
        assert(before =~= v.chunks);
    } else {
        let c = v.chunks[i as int];
        let k = 17 + 2 * i as int;
        lemma_stream_recordable(v);
        lemma_record(stream_keys(v), stream_values(v));
        assert((2 * i as int) / 2 == i && (2 * i as int + 1) / 2 == i);
        assert(stream_keys(v)[k] == chunk_keys(n)[2 * i as int]);
        assert(stream_keys(v)[k + 1] == chunk_keys(n)[2 * i as int + 1]);
        assert(stream_values(v)[k] == chunk_values(v.chunks)[2 * i as int]);
        assert(stream_values(v)[k + 1] == chunk_values(v.chunks)[2 * i as int + 1]);
        assert(stream_keys(v)[k] == offset_key(i));
        assert(stream_keys(v)[k + 1] == data_key(i));
        law_decimal_roundtrip(c.offset as nat, u64::MAX as nat);
        law_base64_roundtrip(c.data);
        assert(number_of(l, offset_key(i), u64::MAX as nat) == Some(c.offset as nat));
        assert(octets_of(l, data_key(i)) == Some(c.data));
        if i > 0 {
            assert(before.last() == v.chunks[i - 1]);
            assert(v.chunks[i - 1].offset < v.chunks[i as int].offset);
        }
        assert(with_chunk(before, c.offset, c.data) =~= v.chunks.take(i as int + 1));
        lemma_chunks_read(v, i + 1);
    }
}

/// A stream that was serialized is read back as it was, whatever its state.
pub proof fn law_stream_roundtrip(v: StreamView)
    requires
        v.stream_type == type_of_id(v.id),
        in_turn(v.chunks),
        v.chunks.len() <= usize::MAX,
    ensures
        deserialized(serialized(v)) == Some(v),
{
    let keys = stream_keys(v);
    let values = stream_values(v);
    let l = record_lines(keys, values);
    lemma_stream_recordable(v);
    lemma_record_octets(keys, values);
    lemma_record(keys, values);
    lemma_fixed_keys();
    assert forall|i: int| 0 <= i < 17 implies value_of(l, #[trigger] fixed_keys()[i]) == Some(
        fixed_values(v)[i],
    ) by {
        assert(keys[i] == fixed_keys()[i] && values[i] == fixed_values(v)[i]);
    }
    let k = fixed_keys();
    assert(value_of(l, k[0]) is Some && value_of(l, k[1]) is Some && value_of(l, k[2]) is Some);
    assert(value_of(l, k[3]) is Some && value_of(l, k[4]) is Some && value_of(l, k[5]) is Some);
    assert(value_of(l, k[6]) is Some && value_of(l, k[7]) is Some && value_of(l, k[8]) is Some);
    assert(value_of(l, k[9]) is Some && value_of(l, k[10]) is Some && value_of(l, k[11]) is Some);
    assert(value_of(l, k[12]) is Some && value_of(l, k[13]) is Some && value_of(l, k[14]) is Some);
    assert(value_of(l, k[15]) is Some && value_of(l, k[16]) is Some);
    law_decimal_roundtrip(v.id as nat, u64::MAX as nat);
    lemma_type_label(v.stream_type);
    lemma_state_label(v.state);
    law_decimal_roundtrip(v.send_offset as nat, u64::MAX as nat);
    law_decimal_roundtrip(v.send_max_offset as nat, u64::MAX as nat);
    lemma_opt_tidy(v.send_final_offset);
    law_decimal_roundtrip(v.receive_offset as nat, u64::MAX as nat);
    law_decimal_roundtrip(v.receive_max_offset as nat, u64::MAX as nat);
    lemma_opt_tidy(v.receive_final_offset);
    lemma_bool_tidy(v.fin_queued);
    lemma_bool_tidy(v.fin_sent);
    lemma_bool_tidy(v.fin_received);
    law_decimal_roundtrip(v.priority as nat, u8::MAX as nat);
    lemma_opt_tidy(v.error_code);
    law_base64_roundtrip(v.send_buffer);
    law_base64_roundtrip(v.receive_buffer);
    law_decimal_roundtrip(v.chunks.len(), usize::MAX as nat);
    lemma_chunks_read(v, 0);
    assert(v.chunks.take(0) =~= seq![]);
}


/// The header of a stream blob.
pub type SecureStreamBlobMeta = EnvelopeMeta;

/// What a stream blob holds.
pub open spec fn stream_unsealed(data: Seq<u8>, plain: Option<Seq<u8>>) -> Result<
    (MetaView, StreamView),
    EnvelopeError,
> {
    carried(unsealed(BlobKind::Stream, data, plain), |raw: Seq<u8>| deserialized(raw))
}

impl Stream {
    /// Seals the stream in a blob. `coded` is what the codec of `algorithm` made of the serialized
    /// stream, `None` where the codec failed; it is not looked at under the identity.
    pub fn to_secure_blob(
        &self,
        algorithm: CompressionAlgorithm,
        coded: Option<&[u8]>,
        nonce: &[u8],
        issued_at_unix: u64,
    ) -> (r: Result<(SecureStreamBlobMeta, Vec<u8>), EnvelopeError>)
        ensures
            contents(r) == sealed(
                BlobKind::Stream,
                serialized(self@),
                algorithm,
                opt_bytes(coded),
                nonce@,
                issued_at_unix as nat,
            ),
    {
        let raw = serialize_stream(self);
        seal(BlobKind::Stream, raw.as_slice(), algorithm, coded, nonce, issued_at_unix)
    }

    /// Seals the stream in the coding chosen from an `Accept-Encoding` value.
    pub fn to_secure_blob_auto(
        &self,
        accept_encoding: &str,
        coded: Option<&[u8]>,
        nonce: &[u8],
        issued_at_unix: u64,
    ) -> (r: Result<(SecureStreamBlobMeta, Vec<u8>), EnvelopeError>)
        ensures
            contents(r) == sealed(
                BlobKind::Stream,
                serialized(self@),
                selected(accept_encoding@, false),
                opt_bytes(coded),
                nonce@,
                issued_at_unix as nat,
            ),
    {
        let algorithm = select_secure_stream_algorithm(accept_encoding);
        self.to_secure_blob(algorithm, coded, nonce, issued_at_unix)
    }

    /// Opens a stream blob. `plain` is what the codec made of the payload as sent, `None` where the
    /// codec failed; it is not looked at under the identity.
    pub fn from_secure_blob(data: &[u8], plain: Option<&[u8]>) -> (r: Result<
        (SecureStreamBlobMeta, Self),
        EnvelopeError,
    >)
        ensures
            match r {
                Ok((meta, s)) => stream_unsealed(data@, opt_bytes(plain)) == Ok::<
                    (MetaView, StreamView),
                    EnvelopeError,
                >((meta@, s@)) && s.inv(),
                Err(e) => stream_unsealed(data@, opt_bytes(plain)) == Err::<
                    (MetaView, StreamView),
                    EnvelopeError,
                >(e),
            },
    {
        match unseal(BlobKind::Stream, data, plain) {
            Ok((meta, raw)) => match deserialize_stream(raw.as_slice()) {
                Some(s) => Ok((meta, s)),
                None => Err(EnvelopeError::BadPayload),
            },
            Err(e) => Err(e),
        }
    }
}

/// Chooses the coding for a stream blob from an `Accept-Encoding` value.
pub fn select_secure_stream_algorithm(accept_encoding: &str) -> (r: CompressionAlgorithm)
    ensures
        r == selected(accept_encoding@, false),
{
    select_compressing(accept_encoding)
}

/// See `Stream::to_secure_blob`.
pub fn encode_secure_stream(
    stream: &Stream,
    algorithm: CompressionAlgorithm,
    coded: Option<&[u8]>,
    nonce: &[u8],
    issued_at_unix: u64,
) -> (r: Result<(SecureStreamBlobMeta, Vec<u8>), EnvelopeError>)
    ensures
        contents(r) == sealed(
            BlobKind::Stream,
            serialized(stream@),
            algorithm,
            opt_bytes(coded),
            nonce@,
            issued_at_unix as nat,
        ),
{
    stream.to_secure_blob(algorithm, coded, nonce, issued_at_unix)
}

/// See `Stream::to_secure_blob_auto`.
pub fn encode_secure_stream_auto(
    stream: &Stream,
    accept_encoding: &str,
    coded: Option<&[u8]>,
    nonce: &[u8],
    issued_at_unix: u64,
) -> (r: Result<(SecureStreamBlobMeta, Vec<u8>), EnvelopeError>)
    ensures
        contents(r) == sealed(
            BlobKind::Stream,
            serialized(stream@),
            selected(accept_encoding@, false),
            opt_bytes(coded),
            nonce@,
            issued_at_unix as nat,
        ),
{
    stream.to_secure_blob_auto(accept_encoding, coded, nonce, issued_at_unix)
}

/// See `Stream::from_secure_blob`.
pub fn decode_secure_stream(data: &[u8], plain: Option<&[u8]>) -> (r: Result<
    (SecureStreamBlobMeta, Stream),
    EnvelopeError,
>)
    ensures
        match r {
            Ok((meta, s)) => stream_unsealed(data@, opt_bytes(plain)) == Ok::<
                (MetaView, StreamView),
                EnvelopeError,
            >((meta@, s@)) && s.inv(),
            Err(e) => stream_unsealed(data@, opt_bytes(plain)) == Err::<
                (MetaView, StreamView),
                EnvelopeError,
            >(e),
        },
{
    Stream::from_secure_blob(data, plain)
}

/// A stream comes out of a blob as it went in, given that the codec undoes what it did.
pub proof fn law_stream_blob_roundtrip(
    v: StreamView,
    algorithm: CompressionAlgorithm,
    coded: Option<Seq<u8>>,
    nonce: Seq<u8>,
    issued_at: nat,
)
    requires
        v.stream_type == type_of_id(v.id),
        in_turn(v.chunks),
        v.chunks.len() <= usize::MAX,
        serialized(v).len() <= usize::MAX,
        coded matches Some(c) ==> c.len() <= usize::MAX,
        issued_at <= u64::MAX,
    ensures
        sealed(BlobKind::Stream, serialized(v), algorithm, coded, nonce, issued_at) matches Ok(
            (meta, data),
        ) ==> stream_unsealed(data, Some(serialized(v))) == Ok::<(MetaView, StreamView), EnvelopeError>(
            (meta, v),
        ),
{
    law_blob_roundtrip(BlobKind::Stream, serialized(v), algorithm, coded, nonce, issued_at);
    law_stream_roundtrip(v);
}

proof fn lemma_even_of_four(n: int)
    ensures
        n % 2 == 0 <==> n % 4 == 0 || n % 4 == 2,
        0 <= n % 4 < 4,
{
}

/// Even numbers are those of streams that the client opened, and the numbers of streams that carry data both ways leave
/// less than two when they are divided by four.
#[verifier::rlimit(60)]
#[verifier::spinoff_prover]
pub proof fn law_stream_types(id: u64)
    ensures
        type_of_id(id).by_client() <==> id % 2 == 0,
        type_of_id(id).both_ways() <==> id % 4 < 2,
        fresh(id, 0, 0).stream_type == type_of_id(id),
        fresh(id, 0, 0).state.sends() && fresh(id, 0, 0).state.receives() && !fresh(id, 0, 0).state.over(),
{
    lemma_even_of_four(id as int);
}

/// A stream that is over neither sends nor receives, and one that does neither is over or waits for its own end only.
pub proof fn law_stream_states(s: StreamState)
    ensures
        s.over() ==> !s.sends() && !s.receives(),
        s.sends() ==> s.receives(),
        !s.over() && !s.receives() ==> s is ReceivedClosed,
{
}

/// A frame is taken just where the stream still receives, the frame ends within the limit, and it agrees with an end
/// that is known: data do not pass it, and another end does not differ from it.
pub proof fn law_frame_within_limits(v: StreamView, offset: u64, data: Seq<u8>, fin: bool)
    ensures
        ({
            let end = offset + data.len();
            &&& received(v, offset, data, fin) is Ok <==> v.state.receives() && end <= v.receive_max_offset && (
            v.receive_final_offset matches Some(f) ==> end <= f && (fin ==> end == f))
            &&& v.state.receives() && v.receive_final_offset is None && end > v.receive_max_offset ==> received(
                v,
                offset,
                data,
                fin,
            ) == Err::<StreamView, StreamError>(StreamError::ReceiveWindowExceeded)
        }),
{
}

/// A reset ends a stream that is not over, with its code and nothing left in it, and changes nothing in one that is.
pub proof fn law_reset_ends(v: StreamView, error_code: u64)
    ensures
        reset_sent(v, error_code).state.over(),
        v.state.over() ==> reset_sent(v, error_code) == v,
        !v.state.over() ==> {
            let r = reset_sent(v, error_code);
            &&& r.state is ResetSent
            &&& r.error_code == Some(error_code)
            &&& r.send_buffer.len() == 0 && r.receive_buffer.len() == 0 && r.chunks.len() == 0
            &&& r.id == v.id && r.send_offset == v.send_offset && r.receive_offset == v.receive_offset
        },
{
}

/// What is written goes behind what waits to be sent, from its front on: all of it, or as much as the peer lets the
/// stream send. Nothing is taken where the stream does not send, its end is queued, or there is no room.
pub proof fn law_written_data(v: StreamView, data: Seq<u8>)
    requires
        v.send_offset + v.send_buffer.len() <= v.send_max_offset,
    ensures
        match written(v, data) {
            Ok((n, w)) => {
                &&& 0 < n <= data.len()
                &&& w.send_buffer == v.send_buffer + data.take(n as int)
                &&& n < data.len() ==> w.send_offset + w.send_buffer.len() == w.send_max_offset
                &&& w.send_offset + w.send_buffer.len() <= w.send_max_offset
                &&& w.receive_buffer == v.receive_buffer && w.state == v.state && w.send_offset == v.send_offset
            },
            Err(_) => !v.state.sends() || v.fin_queued || data.len() == 0 || v.send_offset + v.send_buffer.len()
                == v.send_max_offset,
        },
{
}

}
