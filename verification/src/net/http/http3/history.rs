//! What becomes of a stream over time: that its frames, put together, are what was written, and that pieces which
//! arrive in any order are put together to what was sent.
use vstd::prelude::*;

use crate::net::http::http3::stream::{
    accepted, after_frame, drained, frame_fin, frame_len, fresh, healthy, in_turn, law_receiving_keeps_health,
    law_writing_respects_limit, lemma_with_chunk, makes_frame, received, window, with_chunk, with_ready_chunks, written,
    ChunkView, StreamError, StreamView,
};

verus! {

/// What can happen to a stream, short of a reset.
pub enum Act {
    Write(Seq<u8>),
    WriteFin(Seq<u8>),
    CloseSend,
    Frame(nat),
    RaiseSendLimit(u64),
    Receive(u64, Seq<u8>, bool),
    Read(nat),
    SetReceiveLimit(u64),
    SetPriority(u8),
}

/// A frame, with what held when it was made: the most data that it was to carry, whether the end of the direction was
/// queued, and how much had been taken by then to be sent.
pub struct SentFrame {
    pub stream_id: u64,
    pub offset: u64,
    pub data: Seq<u8>,
    pub fin: bool,
    pub max_data: nat,
    pub fin_queued: bool,
    pub taken: nat,
}

/// A stream with its past: all data that it took to be sent, and the frames that it made.
pub struct History {
    pub stream: StreamView,
    pub taken: Seq<u8>,
    pub frames: Seq<SentFrame>,
}

/// The stream after data was taken to be sent, and that data.
pub open spec fn after_write(h: History, data: Seq<u8>, fin: bool) -> History {
    match written(h.stream, data) {
        Ok((n, v)) => History {
            stream: if fin {
                StreamView { fin_queued: true, ..v }
            } else {
                v
            },
            taken: h.taken + data.take(n as int),
            ..h
        },
        Err(_) => h,
    }
}

/// The stream after a frame was asked for.
pub open spec fn after_frame_due(h: History, max_data: nat) -> History {
    let v = h.stream;
    if makes_frame(v, max_data) {
        History {
            stream: after_frame(v, max_data),
            frames: h.frames.push(
                SentFrame {
                    stream_id: v.id,
                    offset: v.send_offset,
                    data: v.send_buffer.take(frame_len(v, max_data) as int),
                    fin: frame_fin(v, max_data),
                    max_data,
                    fin_queued: v.fin_queued,
                    taken: h.taken.len(),
                },
            ),
            ..h
        }
    } else {
        h
    }
}

/// The stream after something happened to it.
pub open spec fn after_act(h: History, act: Act) -> History {
    let v = h.stream;
    match act {
        Act::Write(data) => after_write(h, data, false),
        Act::WriteFin(data) => after_write(h, data, true),
        Act::CloseSend => if v.state.sends() {
            History { stream: StreamView { fin_queued: true, ..v }, ..h }
        } else {
            h
        },
        Act::Frame(max_data) => after_frame_due(h, max_data),
        Act::RaiseSendLimit(limit) => if limit >= v.send_max_offset {
            History { stream: StreamView { send_max_offset: limit, ..v }, ..h }
        } else {
            h
        },
        Act::Receive(offset, data, fin) => match received(v, offset, data, fin) {
            Ok(w) => History { stream: w, ..h },
            Err(_) => h,
        },
        Act::Read(n) => if v.state.receives() && n <= v.receive_buffer.len() {
            History { stream: StreamView { receive_buffer: v.receive_buffer.skip(n as int), ..v }, ..h }
        } else {
            h
        },
        Act::SetReceiveLimit(limit) => History { stream: StreamView { receive_max_offset: limit, ..v }, ..h },
        Act::SetPriority(priority) => History { stream: StreamView { priority, ..v }, ..h },
    }
}

/// A new stream after all that happened to it.
pub open spec fn history(id: u64, max_send: u64, max_received: u64, acts: Seq<Act>) -> History
    decreases acts.len(),
{
    if acts.len() == 0 {
        History { stream: fresh(id, max_send, max_received), taken: seq![], frames: seq![] }
    } else {
        after_act(history(id, max_send, max_received, acts.drop_last()), acts.last())
    }
}

/// The data of frames, put together.
pub open spec fn payload(frames: Seq<SentFrame>) -> Seq<u8>
    decreases frames.len(),
{
    if frames.len() == 0 {
        seq![]
    } else {
        payload(frames.drop_last()) + frames.last().data
    }
}

/// Whether frames stand in a row: each is the stream's own, starts where those before it end, carries no more than it
/// was to carry, and ends the direction just where the end was queued and nothing is left behind it.
pub open spec fn in_a_row(id: u64, frames: Seq<SentFrame>) -> bool {
    forall|i: int|
        0 <= i < frames.len() ==> {
            let f = #[trigger] frames[i];
            &&& f.stream_id == id
            &&& f.offset == payload(frames.take(i)).len()
            &&& f.data.len() <= f.max_data
            &&& f.fin <==> f.fin_queued && f.offset + f.data.len() == f.taken
            &&& f.fin ==> i == frames.len() - 1
        }
}

/// What the frames have to do with what was written.
spec fn sound(id: u64, h: History) -> bool {
    let v = h.stream;
    &&& v.id == id
    &&& v.send_offset + v.send_buffer.len() <= v.send_max_offset
    &&& v.send_offset <= h.taken.len()
    &&& v.send_buffer == h.taken.skip(v.send_offset as int)
    &&& payload(h.frames) == h.taken.take(v.send_offset as int)
    &&& in_a_row(id, h.frames)
    &&& v.fin_sent ==> v.fin_queued && v.send_buffer.len() == 0 && !(v.state is Open)
    &&& v.fin_sent <==> h.frames.len() > 0 && h.frames.last().fin
}

/// Receiving leaves the sending side alone; it never opens a stream again.
proof fn lemma_ready_chunks(v: StreamView)
    ensures
        ({
            let w = with_ready_chunks(v);
            &&& w.id == v.id
            &&& w.state == v.state
            &&& w.send_buffer == v.send_buffer
            &&& w.send_offset == v.send_offset
            &&& w.send_max_offset == v.send_max_offset
            &&& w.fin_queued == v.fin_queued
            &&& w.fin_sent == v.fin_sent
            &&& w.fin_received == v.fin_received
        }),
    decreases v.chunks.len(),
{
    if v.chunks.len() > 0 && v.chunks[0].offset == v.receive_offset {
        lemma_ready_chunks(
            StreamView {
                receive_buffer: v.receive_buffer + v.chunks[0].data,
                receive_offset: (v.receive_offset + v.chunks[0].data.len()) as u64,
                chunks: v.chunks.skip(1),
                ..v
            },
        );
    }
}

proof fn lemma_receiving(v: StreamView, offset: u64, data: Seq<u8>, fin: bool)
    ensures
        ({
            let w = accepted(v, offset, data, fin);
            &&& w.id == v.id
            &&& w.state is Open ==> v.state is Open
            &&& w.send_buffer == v.send_buffer
            &&& w.send_offset == v.send_offset
            &&& w.send_max_offset == v.send_max_offset
            &&& w.fin_queued == v.fin_queued
            &&& w.fin_sent == v.fin_sent
        }),
{
    let end = (offset + data.len()) as u64;
    let marked = if fin {
        StreamView { receive_final_offset: Some(end), fin_received: true, ..v }
    } else {
        v
    };
    if offset == v.receive_offset {
        lemma_ready_chunks(
            StreamView { receive_buffer: marked.receive_buffer + data, receive_offset: end, ..marked },
        );
    }
}

proof fn lemma_after_write(id: u64, h: History, data: Seq<u8>, fin: bool)
    requires
        sound(id, h),
    ensures
        sound(id, after_write(h, data, fin)),
{
    if let Ok((n, v)) = written(h.stream, data) {
        let part = data.take(n as int);
        let at = h.stream.send_offset as int;
        let taken = h.taken + part;
        assert(taken.skip(at) =~= h.taken.skip(at) + part);
        assert(taken.take(at) =~= h.taken.take(at));
    }
}

proof fn lemma_after_frame(id: u64, h: History, max_data: nat)
    requires
        sound(id, h),
    ensures
        sound(id, after_frame_due(h, max_data)),
{
    let v = h.stream;
    if makes_frame(v, max_data) {
        let out = after_frame_due(h, max_data);
        let n = frame_len(v, max_data) as int;
        let at = v.send_offset as int;
        let f = out.frames.last();
        assert(out.frames.drop_last() =~= h.frames);
        assert(h.taken.take(at) + h.taken.skip(at).take(n) =~= h.taken.take(at + n));
        assert(h.taken.skip(at).skip(n) =~= h.taken.skip(at + n));
        assert(out.stream.send_offset == at + n);
        assert forall|i: int| 0 <= i < out.frames.len() implies {
            let f = #[trigger] out.frames[i];
            &&& f.stream_id == id
            &&& f.offset == payload(out.frames.take(i)).len()
            &&& f.data.len() <= f.max_data
            &&& f.fin <==> f.fin_queued && f.offset + f.data.len() == f.taken
            &&& f.fin ==> i == out.frames.len() - 1
        } by {
            if i < h.frames.len() {
                assert(out.frames[i] == h.frames[i]);
                assert(out.frames.take(i) =~= h.frames.take(i));
            } else {
                assert(out.frames.take(i) =~= h.frames);
            }
        }
    }
}

proof fn lemma_sound(id: u64, max_send: u64, max_received: u64, acts: Seq<Act>)
    ensures
        sound(id, history(id, max_send, max_received, acts)),
    decreases acts.len(),
{
    if acts.len() == 0 {
        let h = history(id, max_send, max_received, acts);
        assert(h.taken.skip(0) =~= seq![]);
        assert(h.taken.take(0) =~= seq![]);
    } else {
        lemma_sound(id, max_send, max_received, acts.drop_last());
        let h = history(id, max_send, max_received, acts.drop_last());
        match acts.last() {
            Act::Write(data) => {
                lemma_after_write(id, h, data, false);
            },
            Act::WriteFin(data) => {
                lemma_after_write(id, h, data, true);
            },
            Act::Frame(max_data) => {
                lemma_after_frame(id, h, max_data);
            },
            Act::Receive(offset, data, fin) => {
                lemma_receiving(h.stream, offset, data, fin);
            },
            _ => {},
        }
    }
}

proof fn lemma_healthy(id: u64, max_send: u64, max_received: u64, acts: Seq<Act>)
    ensures
        healthy(history(id, max_send, max_received, acts).stream),
    decreases acts.len(),
{
    if acts.len() > 0 {
        lemma_healthy(id, max_send, max_received, acts.drop_last());
        let v = history(id, max_send, max_received, acts.drop_last()).stream;
        match acts.last() {
            Act::Write(data) | Act::WriteFin(data) => {
                law_writing_respects_limit(v, data);
            },
            Act::Receive(offset, data, fin) => {
                if received(v, offset, data, fin) is Ok {
                    law_receiving_keeps_health(v, offset, data, fin);
                }
            },
            _ => {},
        }
    }
}

/// Whatever happens to a stream short of a reset, the frames that it made, put together, are the data that it took
/// up to its send offset, and the rest of that data waits. Each frame starts where those before it end and carries no
/// more than it was to carry. A frame ends the direction just where the end was queued and nothing that was taken is
/// left behind it; at most one does, the last one, and after it no frame is made. All offsets stay within range, so
/// that the stream can always be written to.
pub proof fn law_frames_are_what_was_written(id: u64, max_send: u64, max_received: u64, acts: Seq<Act>)
    ensures
        ({
            let h = history(id, max_send, max_received, acts);
            let v = h.stream;
            &&& healthy(v)
            &&& window(v) >= 0
            &&& v.send_offset <= h.taken.len()
            &&& payload(h.frames) == h.taken.take(v.send_offset as int)
            &&& v.send_buffer == h.taken.skip(v.send_offset as int)
            &&& in_a_row(id, h.frames)
            &&& v.fin_sent <==> h.frames.len() > 0 && h.frames.last().fin
            &&& v.fin_sent ==> v.send_offset == h.taken.len() && forall|max_data: nat|
                !#[trigger] makes_frame(v, max_data)
        }),
{
    lemma_sound(id, max_send, max_received, acts);
    lemma_healthy(id, max_send, max_received, acts);
}

/// After the frame that ends the direction, nothing more is taken and no frame is made, whatever happens short of a
/// reset.
pub proof fn law_nothing_follows_the_last_frame(
    id: u64,
    max_send: u64,
    max_received: u64,
    acts: Seq<Act>,
    more: Seq<Act>,
)
    requires
        history(id, max_send, max_received, acts).stream.fin_sent,
    ensures
        ({
            let h = history(id, max_send, max_received, acts);
            let w = history(id, max_send, max_received, acts + more);
            &&& w.frames == h.frames
            &&& w.taken == h.taken
            &&& w.stream.fin_sent
        }),
    decreases more.len(),
{
    if more.len() == 0 {
        assert(acts + more =~= acts);
    } else {
        let all = acts + more;
        assert(all.drop_last() =~= acts + more.drop_last());
        law_nothing_follows_the_last_frame(id, max_send, max_received, acts, more.drop_last());
        lemma_sound(id, max_send, max_received, all.drop_last());
        let h = history(id, max_send, max_received, all.drop_last());
        if let Act::Receive(offset, data, fin) = all.last() {
            lemma_receiving(h.stream, offset, data, fin);
        }
    }
}

/// A piece of a message: where it starts, and where it ends.
pub struct Piece {
    pub from: nat,
    pub to: nat,
}

/// Whether a position lies in one of the pieces.
pub open spec fn covered(pieces: Seq<Piece>, p: nat) -> bool {
    exists|i: int| 0 <= i < pieces.len() && (#[trigger] pieces[i]).from <= p < pieces[i].to
}

/// Whether pieces are parts of a message, none of them empty, and no two of them overlap.
pub open spec fn apart(pieces: Seq<Piece>, len: nat) -> bool {
    &&& forall|i: int| 0 <= i < pieces.len() ==> (#[trigger] pieces[i]).from < pieces[i].to <= len
    &&& forall|i: int, j: int|
        0 <= i < pieces.len() && 0 <= j < pieces.len() && i != j ==> (#[trigger] pieces[i]).to
            <= (#[trigger] pieces[j]).from || pieces[j].to <= pieces[i].from
}

/// A new stream after pieces of a message arrived, one after the other.
pub open spec fn delivered(id: u64, max_send: u64, max_received: u64, msg: Seq<u8>, pieces: Seq<Piece>) -> Result<
    StreamView,
    StreamError,
>
    decreases pieces.len(),
{
    if pieces.len() == 0 {
        Ok(fresh(id, max_send, max_received))
    } else {
        match delivered(id, max_send, max_received, msg, pieces.drop_last()) {
            Ok(v) => {
                let q = pieces.last();
                received(v, q.from as u64, msg.subrange(q.from as int, q.to as int), false)
            },
            Err(e) => Err(e),
        }
    }
}

/// Whether a chunk holds a piece of a message.
spec fn holds_piece(c: ChunkView, msg: Seq<u8>, q: Piece) -> bool {
    &&& c.offset == q.from
    &&& c.data == msg.subrange(q.from as int, q.to as int)
}

/// Whether every chunk lies behind an offset and holds one of the pieces.
#[verifier::opaque]
spec fn all_pieces(chunks: Seq<ChunkView>, at: nat, msg: Seq<u8>, pieces: Seq<Piece>) -> bool {
    forall|c: int|
        0 <= c < chunks.len() ==> at <= (#[trigger] chunks[c]).offset && exists|i: int|
            0 <= i < pieces.len() && holds_piece(chunks[c], msg, #[trigger] pieces[i])
}

/// Whether every piece lies before an offset or is held by a chunk.
#[verifier::opaque]
spec fn none_lost(chunks: Seq<ChunkView>, at: nat, msg: Seq<u8>, pieces: Seq<Piece>) -> bool {
    forall|i: int|
        0 <= i < pieces.len() ==> (#[trigger] pieces[i]).to <= at || exists|c: int|
            0 <= c < chunks.len() && holds_piece(#[trigger] chunks[c], msg, pieces[i])
}

/// Whether all positions before one are covered.
#[verifier::opaque]
spec fn covered_to(pieces: Seq<Piece>, at: nat) -> bool {
    forall|p: nat| p < at ==> #[trigger] covered(pieces, p)
}

/// The piece that a chunk holds.
proof fn lemma_piece_of(chunks: Seq<ChunkView>, at: nat, msg: Seq<u8>, pieces: Seq<Piece>, c: int) -> (i: int)
    requires
        all_pieces(chunks, at, msg, pieces),
        0 <= c < chunks.len(),
    ensures
        0 <= i < pieces.len(),
        holds_piece(chunks[c], msg, pieces[i]),
        at <= chunks[c].offset,
{
    reveal(all_pieces);
    choose|i: int| 0 <= i < pieces.len() && holds_piece(chunks[c], msg, #[trigger] pieces[i])
}

/// The chunk that holds a piece.
proof fn lemma_chunk_of(chunks: Seq<ChunkView>, at: nat, msg: Seq<u8>, pieces: Seq<Piece>, i: int) -> (c: int)
    requires
        none_lost(chunks, at, msg, pieces),
        0 <= i < pieces.len(),
        pieces[i].to > at,
    ensures
        0 <= c < chunks.len(),
        holds_piece(chunks[c], msg, pieces[i]),
{
    reveal(none_lost);
    choose|c: int| 0 <= c < chunks.len() && holds_piece(#[trigger] chunks[c], msg, pieces[i])
}

/// The piece that covers a position.
proof fn lemma_covering(pieces: Seq<Piece>, at: nat, p: nat) -> (i: int)
    requires
        covered_to(pieces, at),
        p < at,
    ensures
        0 <= i < pieces.len(),
        pieces[i].from <= p < pieces[i].to,
{
    reveal(covered_to);
    assert(covered(pieces, p));
    choose|i: int| 0 <= i < pieces.len() && (#[trigger] pieces[i]).from <= p < pieces[i].to
}

/// What a stream holds of the pieces that arrived: the message up to its receive offset, and the pieces behind it as
/// chunks.
spec fn holds_pieces(v: StreamView, msg: Seq<u8>, pieces: Seq<Piece>) -> bool {
    let k = v.receive_offset as nat;
    &&& v.state is Open
    &&& v.receive_final_offset is None
    &&& !v.fin_received
    &&& k <= msg.len() <= v.receive_max_offset
    &&& v.receive_buffer == msg.take(k as int)
    &&& in_turn(v.chunks)
    &&& covered_to(pieces, k)
    &&& all_pieces(v.chunks, k, msg, pieces)
    &&& none_lost(v.chunks, k, msg, pieces)
}

/// The first chunk is taken in when its turn has come.
proof fn lemma_first_taken_in(v: StreamView, msg: Seq<u8>, pieces: Seq<Piece>)
    requires
        apart(pieces, msg.len()),
        holds_pieces(v, msg, pieces),
        v.chunks.len() > 0,
        v.chunks[0].offset == v.receive_offset,
    ensures
        ({
            let w = StreamView {
                receive_buffer: v.receive_buffer + v.chunks[0].data,
                receive_offset: (v.receive_offset + v.chunks[0].data.len()) as u64,
                chunks: v.chunks.skip(1),
                ..v
            };
            holds_pieces(w, msg, pieces)
        }),
{
    let k = v.receive_offset as nat;
    let rest = v.chunks.skip(1);
    let a = lemma_piece_of(v.chunks, k, msg, pieces, 0);
    let q = pieces[a];
    assert(q.from < q.to <= msg.len());
    assert(msg.take(k as int) + msg.subrange(q.from as int, q.to as int) =~= msg.take(q.to as int));
    assert(in_turn(rest)) by {
        assert forall|i: int, j: int| 0 <= i < j < rest.len() implies #[trigger] rest[i].offset
            < #[trigger] rest[j].offset by {
            assert(v.chunks[i + 1].offset < v.chunks[j + 1].offset);
        }
    }
    assert(covered_to(pieces, q.to)) by {
        reveal(covered_to);
        assert forall|p: nat| p < q.to implies #[trigger] covered(pieces, p) by {
            if p >= k {
                assert(pieces[a].from <= p < pieces[a].to);
            }
        }
    }
    assert(all_pieces(rest, q.to, msg, pieces)) by {
        assert forall|c: int| 0 <= c < rest.len() implies q.to <= (#[trigger] rest[c]).offset && exists|i: int|
            0 <= i < pieces.len() && holds_piece(rest[c], msg, #[trigger] pieces[i]) by {
            assert(rest[c] == v.chunks[c + 1]);
            assert(v.chunks[0].offset < v.chunks[c + 1].offset);
            let b = lemma_piece_of(v.chunks, k, msg, pieces, c + 1);
            assert(pieces[a].to <= pieces[b].from || pieces[b].to <= pieces[a].from);
            assert(pieces[b].from < pieces[b].to);
        }
        reveal(all_pieces);
    }
    assert(none_lost(rest, q.to, msg, pieces)) by {
        assert forall|i: int| 0 <= i < pieces.len() implies (#[trigger] pieces[i]).to <= q.to || exists|c: int|
            0 <= c < rest.len() && holds_piece(#[trigger] rest[c], msg, pieces[i]) by {
            if pieces[i].to > q.to {
                let c = lemma_chunk_of(v.chunks, k, msg, pieces, i);
                if c == 0 && i != a {
                    assert(pieces[a].to <= pieces[i].from || pieces[i].to <= pieces[a].from);
                }
                assert(rest[c - 1] == v.chunks[c]);
            }
        }
        reveal(none_lost);
    }
}

/// Chunks behind the receive offset are taken in when their turn comes.
proof fn lemma_taken_in(v: StreamView, msg: Seq<u8>, pieces: Seq<Piece>)
    requires
        apart(pieces, msg.len()),
        holds_pieces(v, msg, pieces),
    ensures
        holds_pieces(with_ready_chunks(v), msg, pieces),
        with_ready_chunks(v).receive_max_offset == v.receive_max_offset,
        no_turn(with_ready_chunks(v)),
    decreases v.chunks.len(),
{
    if v.chunks.len() > 0 && v.chunks[0].offset == v.receive_offset {
        lemma_first_taken_in(v, msg, pieces);
        lemma_taken_in(
            StreamView {
                receive_buffer: v.receive_buffer + v.chunks[0].data,
                receive_offset: (v.receive_offset + v.chunks[0].data.len()) as u64,
                chunks: v.chunks.skip(1),
                ..v
            },
            msg,
            pieces,
        );
    }
}

/// Whether no chunk's turn has come.
spec fn no_turn(v: StreamView) -> bool {
    v.chunks.len() > 0 ==> v.chunks[0].offset != v.receive_offset
}

/// What covers positions still does with one more piece.
proof fn lemma_covered_push(pieces: Seq<Piece>, q: Piece, at: nat)
    requires
        covered_to(pieces, at),
    ensures
        covered_to(pieces.push(q), at),
{
    let all = pieces.push(q);
    assert forall|p: nat| p < at implies #[trigger] covered(all, p) by {
        let b = lemma_covering(pieces, at, p);
        assert(all[b] == pieces[b]);
    }
    reveal(covered_to);
}

/// A chunk with a piece that overlaps no other starts where no other chunk does.
proof fn lemma_own_offset(v: StreamView, msg: Seq<u8>, pieces: Seq<Piece>, q: Piece, c: int)
    requires
        apart(pieces.push(q), msg.len()),
        holds_pieces(v, msg, pieces),
        0 <= c < v.chunks.len(),
    ensures
        v.chunks[c].offset != q.from,
        v.chunks[c].offset > q.from ==> v.chunks[c].offset >= q.to,
{
    let all = pieces.push(q);
    let n = pieces.len() as int;
    let b = lemma_piece_of(v.chunks, v.receive_offset as nat, msg, pieces, c);
    assert(all[b] == pieces[b] && all[n] == q);
    assert(all[b].to <= all[n].from || all[n].to <= all[b].from);
    assert(all[b].from < all[b].to && all[n].from < all[n].to);
}

/// One more piece, ahead of its turn.
proof fn lemma_ahead(v: StreamView, msg: Seq<u8>, pieces: Seq<Piece>, q: Piece)
    requires
        apart(pieces.push(q), msg.len()),
        holds_pieces(v, msg, pieces),
        no_turn(v),
        v.receive_offset < q.from < q.to <= msg.len(),
    ensures
        ({
            let data = msg.subrange(q.from as int, q.to as int);
            let w = StreamView { chunks: with_chunk(v.chunks, q.from as u64, data), ..v };
            holds_pieces(w, msg, pieces.push(q)) && no_turn(w)
        }),
{
    let all = pieces.push(q);
    let n = pieces.len() as int;
    assert(all[n] == q);
    let at = q.from as u64;
    let data = msg.subrange(q.from as int, q.to as int);
    let added = ChunkView { offset: at, data };
    let i = lemma_place(v.chunks, at);
    if i > 0 {
        lemma_own_offset(v, msg, pieces, q, i - 1);
    }
    lemma_with_chunk(v.chunks, at, data, i);
    let out = with_chunk(v.chunks, at, data);
    assert(out == v.chunks.insert(i, added));
    let k = v.receive_offset as nat;
    lemma_covered_push(pieces, q, k);
    assert(all_pieces(out, k, msg, all)) by {
        assert forall|c: int| 0 <= c < out.len() implies k <= (#[trigger] out[c]).offset && exists|b: int|
            0 <= b < all.len() && holds_piece(out[c], msg, #[trigger] all[b]) by {
            if c == i {
                assert(holds_piece(out[c], msg, all[n]));
            } else {
                let o = if c < i {
                    c
                } else {
                    c - 1
                };
                assert(out[c] == v.chunks[o]);
                let b = lemma_piece_of(v.chunks, k, msg, pieces, o);
                assert(all[b] == pieces[b]);
            }
        }
        reveal(all_pieces);
    }
    assert(none_lost(out, k, msg, all)) by {
        assert forall|b: int| 0 <= b < all.len() implies (#[trigger] all[b]).to <= k || exists|c: int|
            0 <= c < out.len() && holds_piece(#[trigger] out[c], msg, all[b]) by {
            if b == n {
                assert(holds_piece(out[i], msg, all[b]));
            } else if all[b].to > k {
                assert(all[b] == pieces[b]);
                let c = lemma_chunk_of(v.chunks, k, msg, pieces, b);
                let o = if c < i {
                    c
                } else {
                    c + 1
                };
                assert(out[o] == v.chunks[c]);
            }
        }
        reveal(none_lost);
    }
}

/// Where a chunk goes among others.
proof fn lemma_place(chunks: Seq<ChunkView>, offset: u64) -> (i: int)
    requires
        in_turn(chunks),
    ensures
        0 <= i <= chunks.len(),
        i > 0 ==> chunks[i - 1].offset <= offset,
        forall|j: int| i <= j < chunks.len() ==> (#[trigger] chunks[j]).offset > offset,
    decreases chunks.len(),
{
    if chunks.len() == 0 || chunks.last().offset <= offset {
        chunks.len() as int
    } else {
        let rest = chunks.drop_last();
        assert forall|a: int, b: int| 0 <= a < b < rest.len() implies #[trigger] rest[a].offset
            < #[trigger] rest[b].offset by {
            assert(chunks[a].offset < chunks[b].offset);
        }
        let i = lemma_place(rest, offset);
        assert forall|j: int| i <= j < chunks.len() implies (#[trigger] chunks[j]).offset > offset by {
            if j < rest.len() {
                assert(rest[j] == chunks[j]);
            }
        }
        i
    }
}

/// One more piece, in its turn, before the chunks behind it are looked at.
proof fn lemma_in_turn(v: StreamView, msg: Seq<u8>, pieces: Seq<Piece>, q: Piece)
    requires
        apart(pieces.push(q), msg.len()),
        holds_pieces(v, msg, pieces),
        v.receive_offset == q.from < q.to <= msg.len(),
        no_turn(v),
    ensures
        ({
            let data = msg.subrange(q.from as int, q.to as int);
            let w = StreamView {
                receive_buffer: v.receive_buffer + data,
                receive_offset: (q.from as u64 + data.len()) as u64,
                ..v
            };
            holds_pieces(w, msg, pieces.push(q))
        }),
{
    let all = pieces.push(q);
    let n = pieces.len() as int;
    assert(all[n] == q);
    let k = v.receive_offset as nat;
    let data = msg.subrange(q.from as int, q.to as int);
    assert(msg.take(k as int) + data =~= msg.take(q.to as int));
    assert(covered_to(all, q.to)) by {
        assert forall|p: nat| p < q.to implies #[trigger] covered(all, p) by {
            if p >= k {
                assert(all[n].from <= p < all[n].to);
            } else {
                let b = lemma_covering(pieces, k, p);
                assert(all[b] == pieces[b]);
            }
        }
        reveal(covered_to);
    }
    assert(all_pieces(v.chunks, q.to, msg, all)) by {
        assert forall|c: int| 0 <= c < v.chunks.len() implies q.to <= (#[trigger] v.chunks[c]).offset && exists|
            b: int,
        |
            0 <= b < all.len() && holds_piece(v.chunks[c], msg, #[trigger] all[b]) by {
            let b = lemma_piece_of(v.chunks, k, msg, pieces, c);
            lemma_own_offset(v, msg, pieces, q, c);
            assert(all[b] == pieces[b]);
        }
        reveal(all_pieces);
    }
    assert(none_lost(v.chunks, q.to, msg, all)) by {
        assert forall|b: int| 0 <= b < all.len() implies (#[trigger] all[b]).to <= q.to || exists|c: int|
            0 <= c < v.chunks.len() && holds_piece(#[trigger] v.chunks[c], msg, all[b]) by {
            if b < n && all[b].to > q.to {
                assert(all[b] == pieces[b]);
                let c = lemma_chunk_of(v.chunks, k, msg, pieces, b);
            }
        }
        reveal(none_lost);
    }
}

/// Fewer pieces overlap as little.
proof fn lemma_apart_before(pieces: Seq<Piece>, len: nat)
    requires
        apart(pieces, len),
        pieces.len() > 0,
    ensures
        apart(pieces.drop_last(), len),
        pieces.last().from < pieces.last().to <= len,
{
    let before = pieces.drop_last();
    assert(pieces[pieces.len() - 1] == pieces.last());
    assert forall|i: int| 0 <= i < before.len() implies (#[trigger] before[i]).from < before[i].to <= len by {
        assert(pieces[i] == before[i]);
    }
    assert forall|i: int, j: int| 0 <= i < before.len() && 0 <= j < before.len() && i != j implies (
    #[trigger] before[i]).to <= (#[trigger] before[j]).from || before[j].to <= before[i].from by {
        assert(pieces[i] == before[i] && pieces[j] == before[j]);
    }
}

/// One more piece arrives.
proof fn lemma_next_piece(v: StreamView, msg: Seq<u8>, pieces: Seq<Piece>, q: Piece)
    requires
        apart(pieces, msg.len()),
        apart(pieces.push(q), msg.len()),
        q.from < q.to <= msg.len(),
        holds_pieces(v, msg, pieces),
        no_turn(v),
    ensures
        received(v, q.from as u64, msg.subrange(q.from as int, q.to as int), false) matches Ok(w) && holds_pieces(
            w,
            msg,
            pieces.push(q),
        ) && no_turn(w) && w.receive_max_offset == v.receive_max_offset,
{
    let all = pieces.push(q);
    let n = pieces.len() as int;
    assert(all[n] == q);
    let data = msg.subrange(q.from as int, q.to as int);
    if q.from < v.receive_offset {
        let b = lemma_covering(pieces, v.receive_offset as nat, q.from);
        assert(all[b] == pieces[b]);
        assert(all[b].to <= all[n].from || all[n].to <= all[b].from);
    } else if q.from == v.receive_offset {
        lemma_in_turn(v, msg, pieces, q);
        let w = StreamView {
            receive_buffer: v.receive_buffer + data,
            receive_offset: (q.from as u64 + data.len()) as u64,
            ..v
        };
        lemma_taken_in(w, msg, all);
        assert(drained(w) == with_ready_chunks(w));
    } else {
        lemma_ahead(v, msg, pieces, q);
    }
}

proof fn lemma_delivered(id: u64, max_send: u64, max_received: u64, msg: Seq<u8>, pieces: Seq<Piece>)
    requires
        msg.len() <= max_received,
        apart(pieces, msg.len()),
    ensures
        delivered(id, max_send, max_received, msg, pieces) matches Ok(v) && holds_pieces(v, msg, pieces)
            && v.receive_max_offset == max_received && no_turn(v),
    decreases pieces.len(),
{
    if pieces.len() == 0 {
        assert(msg.take(0) =~= seq![]);
        reveal(covered_to);
        reveal(all_pieces);
        reveal(none_lost);
    } else {
        let before = pieces.drop_last();
        assert(before.push(pieces.last()) =~= pieces);
        lemma_apart_before(pieces, msg.len());
        lemma_delivered(id, max_send, max_received, msg, before);
        let v = delivered(id, max_send, max_received, msg, before).unwrap();
        lemma_next_piece(v, msg, before, pieces.last());
    }
}

/// Pieces of a message that do not overlap can arrive in any order: every one is accepted; what can be read is always
/// the message up to the first position that no piece has brought yet; and once they cover the message it can be read
/// whole. All the while the stream is open, so that what is there can be read.
pub proof fn law_reassembly(id: u64, max_send: u64, max_received: u64, msg: Seq<u8>, pieces: Seq<Piece>)
    requires
        msg.len() <= max_received,
        apart(pieces, msg.len()),
    ensures
        delivered(id, max_send, max_received, msg, pieces) matches Ok(v) && {
            &&& v.state is Open
            &&& v.receive_offset == v.receive_buffer.len()
            &&& v.receive_offset <= msg.len()
            &&& v.receive_buffer == msg.take(v.receive_offset as int)
            &&& forall|p: nat| p < v.receive_offset ==> #[trigger] covered(pieces, p)
            &&& !covered(pieces, v.receive_offset as nat)
            &&& (forall|p: nat| p < msg.len() ==> #[trigger] covered(pieces, p)) ==> v.receive_buffer == msg
        },
{
    lemma_delivered(id, max_send, max_received, msg, pieces);
    let v = delivered(id, max_send, max_received, msg, pieces).unwrap();
    let k = v.receive_offset as nat;
    reveal(covered_to);
    assert(!covered(pieces, k)) by {
        if covered(pieces, k) {
            let i = choose|i: int| 0 <= i < pieces.len() && (#[trigger] pieces[i]).from <= k < pieces[i].to;
            let c = lemma_chunk_of(v.chunks, k, msg, pieces, i);
            let b = lemma_piece_of(v.chunks, k, msg, pieces, c);
            if c > 0 {
                let a = lemma_piece_of(v.chunks, k, msg, pieces, 0);
                assert(v.chunks[0].offset < v.chunks[c].offset);
            }
        }
    }
    if forall|p: nat| p < msg.len() ==> #[trigger] covered(pieces, p) {
        assert(k == msg.len());
        assert(msg.take(k as int) =~= msg);
    }
}

}
