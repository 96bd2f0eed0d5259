//! What a byte stream means, and that writing and reading agree on it.
//!
//! A run of bytes stands for a sequence of [`Item`]s: frame announcements, and payload bytes each
//! tagged with its stream. How payload bytes are grouped into chunks is not part of the meaning,
//! so the same items come out however the bytes were cut into pieces on the way.

use vstd::prelude::*;

use crate::chunk;
use crate::frame;
use crate::frame::{FrameModel, FrameWriterError, StreamEventModel};
use crate::packet;
use crate::packet::{Flags, ParserError, StreamID};

verus! {

/// One unit of meaning on the wire.
pub enum Item {
    /// A frame other than a data chunk.
    Announced(FrameModel),
    /// A payload byte of a stream.
    Payload(StreamID, u8),
    /// A header that announces no known frame.
    Unknown(ParserError),
}

/// Payload bytes of one stream.
pub open spec fn payload_items(stream_id: StreamID, bytes: Seq<u8>) -> Seq<Item> {
    Seq::new(bytes.len(), |i: int| Item::Payload(stream_id, bytes[i]))
}

/// The items that a frame carries.
pub open spec fn items_of(frame: FrameModel) -> Seq<Item> {
    match frame {
        FrameModel::Stream(stream_id, StreamEventModel::DataChunk(bytes)) => payload_items(
            stream_id,
            bytes,
        ),
        _ => seq![Item::Announced(frame)],
    }
}

/// The items that a sequence of frames carries.
pub open spec fn items_of_all(frames: Seq<FrameModel>) -> Seq<Item>
    decreases frames.len(),
{
    if frames.len() == 0 {
        seq![]
    } else {
        items_of(frames[0]) + items_of_all(frames.drop_first())
    }
}

/// The items of what a reader returned.
pub open spec fn items_of_read(read: Result<Option<FrameModel>, ParserError>) -> Seq<Item> {
    match read {
        Ok(Some(frame)) => items_of(frame),
        Ok(None) => seq![],
        Err(error) => seq![Item::Unknown(error)],
    }
}

/// The bytes of a sequence of frames on the wire.
pub open spec fn bytes_of_all(frames: Seq<FrameModel>) -> Seq<u8>
    decreases frames.len(),
{
    if frames.len() == 0 {
        seq![]
    } else {
        frame::frame_bytes(frames[0]) + bytes_of_all(frames.drop_first())
    }
}

/// The items that `bytes` stands for, as far as they are complete, when `pending` tells what is
/// missing of a payload.
pub open spec fn decode(pending: Option<(StreamID, nat)>, bytes: Seq<u8>) -> Seq<Item>
    decreases
            bytes.len(),
            if pending is Some {
                1int
            } else {
                0int
            },
{
    match pending {
        Some((stream_id, remain)) => if bytes.len() == 0 {
            seq![]
        } else if remain == 0 {
            decode(None, bytes)
        } else {
            seq![Item::Payload(stream_id, bytes[0])] + decode(
                frame::pending_payload(stream_id, (remain - 1) as nat),
                bytes.skip(1),
            )
        },
        None => if bytes.len() < packet::HEADER_LEN {
            seq![]
        } else {
            let rest = bytes.skip(packet::HEADER_LEN as int);
            match frame::frame_of(bytes) {
                Ok(frame) => seq![Item::Announced(frame)] + decode(
                    frame::announced_payload(frame),
                    rest,
                ),
                Err(error) => seq![Item::Unknown(error)] + decode(None, rest),
            }
        },
    }
}

/// What is missing of a payload once a writer took all of `frames`, or why it did not.
pub open spec fn write_all(pending: Option<(StreamID, nat)>, frames: Seq<FrameModel>) -> Result<
    Option<(StreamID, nat)>,
    FrameWriterError,
>
    decreases frames.len(),
{
    if frames.len() == 0 {
        Ok(pending)
    } else {
        match frame::write_step(pending, frames[0]) {
            Ok(next) => write_all(next, frames.drop_first()),
            Err(error) => Err(error),
        }
    }
}

/// Whether a reader that starts with `pending` and `pieces` returns `read`, one item after the
/// other, and is then left with `pending_after` and `pieces_after`.
pub open spec fn reads(
    pending: Option<(StreamID, nat)>,
    pieces: Seq<Seq<u8>>,
    read: Seq<Result<Option<FrameModel>, ParserError>>,
    pending_after: Option<(StreamID, nat)>,
    pieces_after: Seq<Seq<u8>>,
) -> bool
    decreases read.len(),
{
    if read.len() == 0 {
        pending_after == pending && pieces_after == pieces
    } else {
        let step = frame::read_step(pending, pieces);
        step.item == read[0] && reads(
            step.pending,
            step.pieces,
            read.drop_first(),
            pending_after,
            pieces_after,
        )
    }
}

/// The items of what a reader returned, one call after the other.
pub open spec fn items_of_reads(read: Seq<Result<Option<FrameModel>, ParserError>>) -> Seq<Item>
    decreases read.len(),
{
    if read.len() == 0 {
        seq![]
    } else {
        items_of_read(read[0]) + items_of_reads(read.drop_first())
    }
}

/// Bytes of a payload that fit into what is missing of it are its next items.
proof fn lemma_decode_payload(stream_id: StreamID, remain: nat, bytes: Seq<u8>, rest: Seq<u8>)
    requires
        bytes.len() <= remain,
    ensures
        decode(Some((stream_id, remain)), bytes + rest) == payload_items(stream_id, bytes)
            + decode(frame::pending_payload(stream_id, (remain - bytes.len()) as nat), rest),
    decreases bytes.len(),
{
    if bytes.len() == 0 {
        assert(bytes + rest =~= rest);
        assert(payload_items(stream_id, bytes) =~= Seq::<Item>::empty());
        if remain == 0 && rest.len() == 0 {
            assert(decode(None, rest) =~= Seq::<Item>::empty());
        }
        assert(Seq::<Item>::empty() + decode(
            frame::pending_payload(stream_id, remain),
            rest,
        ) =~= decode(frame::pending_payload(stream_id, remain), rest));
    } else {
        let tail = bytes.skip(1);
        assert((bytes + rest).skip(1) =~= tail + rest);
        if remain == 1 {
            assert(tail + rest =~= rest);
            assert(payload_items(stream_id, bytes) =~= seq![Item::Payload(stream_id, bytes[0])]);
        } else {
            lemma_decode_payload(stream_id, (remain - 1) as nat, tail, rest);
            let first = seq![Item::Payload(stream_id, bytes[0])];
            assert(payload_items(stream_id, bytes) =~= first + payload_items(stream_id, tail));
            assert((remain - 1) as nat - tail.len() == remain - bytes.len());
            let after = decode(
                frame::pending_payload(stream_id, (remain - bytes.len()) as nat),
                rest,
            );
            assert(first + (payload_items(stream_id, tail) + after) =~= (first + payload_items(
                stream_id,
                tail,
            )) + after);
        }
    }
}

/// A header is spelled by its own bytes alone.
proof fn lemma_frame_of_prefix(bytes: Seq<u8>, more: Seq<u8>)
    requires
        bytes.len() >= packet::HEADER_LEN,
    ensures
        frame::frame_of(bytes + more) == frame::frame_of(bytes),
{
    let all = bytes + more;
    assert(forall|i: int| 0 <= i < 2 ==> all.skip(2)[i] == bytes.skip(2)[i]);
    assert(forall|i: int| 0 <= i < 4 ==> all.skip(4)[i] == bytes.skip(4)[i]);
    assert(forall|i: int| 0 <= i < 4 ==> all.skip(8)[i] == bytes.skip(8)[i]);
}

/// Reading a chunk of a payload takes exactly its bytes off the front of the stream.
proof fn lemma_read_payload(
    stream_id: StreamID,
    remain: nat,
    pieces: Seq<Seq<u8>>,
    more: Seq<u8>,
)
    requires
        pieces.len() > 0,
    ensures
        ({
            let step = frame::read_step(Some((stream_id, remain)), pieces);
            decode(Some((stream_id, remain)), pieces.flatten() + more) == items_of_read(step.item)
                + decode(step.pending, step.pieces.flatten() + more)
        }),
{
    chunk::lemma_front_piece(pieces, remain);
    let front = chunk::front_piece(pieces, remain);
    let rest = chunk::without_front_piece(pieces, remain).flatten() + more;
    assert(pieces.flatten() + more =~= front + rest);
    lemma_decode_payload(stream_id, remain, front, rest);
}

/// Reading a header takes exactly its bytes off the front of the stream.
proof fn lemma_read_header(pieces: Seq<Seq<u8>>, more: Seq<u8>)
    requires
        pieces.flatten().len() >= packet::HEADER_LEN,
    ensures
        ({
            let step = frame::read_step(None, pieces);
            decode(None, pieces.flatten() + more) == items_of_read(step.item) + decode(
                step.pending,
                step.pieces.flatten() + more,
            )
        }),
{
    let bytes = pieces.flatten();
    let rest = chunk::without_bytes(pieces, packet::HEADER_LEN as nat);
    chunk::lemma_without_bytes(pieces, packet::HEADER_LEN as nat);
    assert((bytes + more).skip(packet::HEADER_LEN as int) =~= rest.flatten() + more);
    lemma_frame_of_prefix(bytes, more);
    lemma_frame_of_announces(bytes);
}

/// What a header announces is no data chunk.
proof fn lemma_frame_of_announces(bytes: Seq<u8>)
    ensures
        frame::frame_of(bytes) matches Ok(frame) ==> items_of(frame) == seq![Item::Announced(frame)],
{
}

/// Reading an item takes exactly its meaning off the front of the stream, whatever bytes are
/// still to come behind those in the buffer.
pub proof fn law_read_keeps_meaning(
    pending: Option<(StreamID, nat)>,
    pieces: Seq<Seq<u8>>,
    more: Seq<u8>,
)
    ensures
        ({
            let step = frame::read_step(pending, pieces);
            decode(pending, pieces.flatten() + more) == items_of_read(step.item) + decode(
                step.pending,
                step.pieces.flatten() + more,
            )
        }),
{
    let meaning = decode(pending, pieces.flatten() + more);
    assert(Seq::<Item>::empty() + meaning =~= meaning);
    match pending {
        Some((stream_id, remain)) => {
            if pieces.len() > 0 {
                lemma_read_payload(stream_id, remain, pieces, more);
            }
        },
        None => {
            if pieces.flatten().len() >= packet::HEADER_LEN {
                lemma_read_header(pieces, more);
            }
        },
    }
}

/// Over any number of reads, the items that came out and the meaning of what is left make up the
/// meaning of what was there. So what a reader yields depends on the bytes alone, not on how they
/// were cut into pieces.
pub proof fn law_reads_keep_meaning(
    pending: Option<(StreamID, nat)>,
    pieces: Seq<Seq<u8>>,
    read: Seq<Result<Option<FrameModel>, ParserError>>,
    pending_after: Option<(StreamID, nat)>,
    pieces_after: Seq<Seq<u8>>,
)
    requires
        reads(pending, pieces, read, pending_after, pieces_after),
    ensures
        decode(pending, pieces.flatten()) == items_of_reads(read) + decode(
            pending_after,
            pieces_after.flatten(),
        ),
    decreases read.len(),
{
    let after = decode(pending_after, pieces_after.flatten());
    if read.len() == 0 {
        assert(Seq::<Item>::empty() + after =~= after);
    } else {
        let step = frame::read_step(pending, pieces);
        law_read_keeps_meaning(pending, pieces, seq![]);
        assert(pieces.flatten() + Seq::<u8>::empty() =~= pieces.flatten());
        assert(step.pieces.flatten() + Seq::<u8>::empty() =~= step.pieces.flatten());
        law_reads_keep_meaning(
            step.pending,
            step.pieces,
            read.drop_first(),
            pending_after,
            pieces_after,
        );
        assert(items_of_read(read[0]) + (items_of_reads(read.drop_first()) + after) =~= (
        items_of_read(read[0]) + items_of_reads(read.drop_first())) + after);
    }
}

/// Frames that a writer accepts mean on the wire what they say, whatever follows them.
pub proof fn law_write_keeps_meaning(
    pending: Option<(StreamID, nat)>,
    frames: Seq<FrameModel>,
    rest: Seq<u8>,
)
    requires
        write_all(pending, frames) is Ok,
    ensures
        decode(pending, bytes_of_all(frames) + rest) == items_of_all(frames) + decode(
            write_all(pending, frames)->Ok_0,
            rest,
        ),
    decreases frames.len(),
{
    if frames.len() == 0 {
        assert(Seq::<u8>::empty() + rest =~= rest);
        assert(Seq::<Item>::empty() + decode(pending, rest) =~= decode(pending, rest));
    } else {
        let first = frames[0];
        let others = frames.drop_first();
        let next = frame::write_step(pending, first)->Ok_0;
        let tail = bytes_of_all(others) + rest;
        let after = decode(write_all(pending, frames)->Ok_0, rest);
        law_write_keeps_meaning(next, others, rest);
        assert(bytes_of_all(frames) + rest =~= frame::frame_bytes(first) + tail);
        match first {
            FrameModel::Stream(stream_id, StreamEventModel::DataChunk(bytes)) => {
                lemma_decode_payload(stream_id, (pending->0).1, bytes, tail);
            },
            _ => {
                frame::law_frame_round_trip(first, tail);
                assert((frame::frame_bytes(first) + tail).skip(packet::HEADER_LEN as int) =~= tail);
            },
        }
        assert(items_of(first) + (items_of_all(others) + after) =~= (items_of(first)
            + items_of_all(others)) + after);
    }
}

/// A writer takes frames one after the other.
pub proof fn lemma_write_all_append(
    pending: Option<(StreamID, nat)>,
    frames: Seq<FrameModel>,
    more: Seq<FrameModel>,
)
    ensures
        write_all(pending, frames + more) == (match write_all(pending, frames) {
            Ok(next) => write_all(next, more),
            Err(error) => Err(error),
        }),
    decreases frames.len(),
{
    if frames.len() == 0 {
        assert(frames + more =~= more);
    } else {
        assert((frames + more).drop_first() =~= frames.drop_first() + more);
        if let Ok(next) = frame::write_step(pending, frames[0]) {
            lemma_write_all_append(next, frames.drop_first(), more);
        }
    }
}

/// Nothing that is complete is left where a reader asks for more data.
proof fn lemma_nothing_left(pending: Option<(StreamID, nat)>, pieces: Seq<Seq<u8>>)
    requires
        frame::read_step(pending, pieces).item == Ok::<Option<FrameModel>, ParserError>(None),
    ensures
        decode(pending, pieces.flatten()) == Seq::<Item>::empty(),
{
    if pending is Some {
        assert(pieces.flatten() =~= Seq::<u8>::empty());
    }
}

/// What a writer took is what a reader gives back: once whole payloads were written, and the
/// bytes reached a reader cut into any pieces, the reader yields the same announcements and the
/// same payload bytes in the same order until it asks for more data.
pub proof fn law_read_gives_back_what_was_written(
    frames: Seq<FrameModel>,
    pieces: Seq<Seq<u8>>,
    read: Seq<Result<Option<FrameModel>, ParserError>>,
    pending_after: Option<(StreamID, nat)>,
    pieces_after: Seq<Seq<u8>>,
)
    requires
        write_all(None, frames) == Ok::<Option<(StreamID, nat)>, FrameWriterError>(None),
        pieces.flatten() == bytes_of_all(frames),
        reads(None, pieces, read, pending_after, pieces_after),
        frame::read_step(pending_after, pieces_after).item == Ok::<
            Option<FrameModel>,
            ParserError,
        >(None),
    ensures
        items_of_reads(read) == items_of_all(frames),
{
    law_write_keeps_meaning(None, frames, seq![]);
    assert(bytes_of_all(frames) + Seq::<u8>::empty() =~= bytes_of_all(frames));
    assert(decode(None, Seq::<u8>::empty()) =~= Seq::<Item>::empty());
    law_reads_keep_meaning(None, pieces, read, pending_after, pieces_after);
    lemma_nothing_left(pending_after, pieces_after);
    assert(items_of_all(frames) + Seq::<Item>::empty() =~= items_of_all(frames));
    assert(items_of_reads(read) + Seq::<Item>::empty() =~= items_of_reads(read));
}

/// One use of a reader.
pub enum ReadOp {
    /// Bytes of the peer arrive, as one more piece.
    Push(Seq<u8>),
    /// The next item is read.
    Read,
}

/// The state of a reader: what is missing of a payload, and the pieces that are not read yet.
pub struct ReaderState {
    pub pending: Option<(StreamID, nat)>,
    pub pieces: Seq<Seq<u8>>,
}

/// A reader after one use.
pub open spec fn reader_after(state: ReaderState, op: ReadOp) -> ReaderState {
    match op {
        ReadOp::Push(bytes) => ReaderState { pieces: state.pieces.push(bytes), ..state },
        ReadOp::Read => {
            let step = frame::read_step(state.pending, state.pieces);
            ReaderState { pending: step.pending, pieces: step.pieces }
        },
    }
}

/// The frames that a run of a reader yields.
pub open spec fn frames_read(state: ReaderState, ops: Seq<ReadOp>) -> Seq<FrameModel>
    decreases ops.len(),
{
    if ops.len() == 0 {
        seq![]
    } else {
        (match (ops[0], frame::read_step(state.pending, state.pieces).item) {
            (ReadOp::Read, Ok(Some(frame))) => seq![frame],
            _ => seq![],
        }) + frames_read(reader_after(state, ops[0]), ops.drop_first())
    }
}

/// No read of a run finds a header that it does not know.
pub open spec fn reads_well(state: ReaderState, ops: Seq<ReadOp>) -> bool
    decreases ops.len(),
{
    ops.len() > 0 ==> (ops[0] is Read ==> frame::read_step(state.pending, state.pieces).item is Ok)
        && reads_well(reader_after(state, ops[0]), ops.drop_first())
}

/// The bytes that arrive over a run of a reader.
pub open spec fn bytes_arrived(ops: Seq<ReadOp>) -> Seq<u8>
    decreases ops.len(),
{
    if ops.len() == 0 {
        seq![]
    } else {
        (match ops[0] {
            ReadOp::Push(bytes) => bytes,
            ReadOp::Read => seq![],
        }) + bytes_arrived(ops.drop_first())
    }
}

/// The frames that a reader yields are in order, and what they leave open of a payload is what
/// the reader waits for.
proof fn lemma_frames_read_in_order(state: ReaderState, ops: Seq<ReadOp>)
    requires
        reads_well(state, ops),
    ensures
        write_all(state.pending, frames_read(state, ops)) is Ok,
    decreases ops.len(),
{
    if ops.len() > 0 {
        let next = reader_after(state, ops[0]);
        let rest = frames_read(next, ops.drop_first());
        lemma_frames_read_in_order(next, ops.drop_first());
        let all = frames_read(state, ops);
        if all.len() > rest.len() {
            let step = frame::read_step(state.pending, state.pieces);
            assert(all.drop_first() =~= rest);
            if let Some((stream_id, remain)) = state.pending {
                chunk::lemma_front_piece(state.pieces, remain);
            } else {
                lemma_frame_of_announces(state.pieces.flatten());
            }
            assert(frame::write_step(state.pending, all[0]) == Ok::<
                Option<(StreamID, nat)>,
                FrameWriterError,
            >(step.pending));
        } else {
            assert(all =~= rest);
            assert(next.pending == state.pending);
        }
    }
}

/// What is put in front of both keeps a prefix a prefix.
proof fn lemma_prefix_behind(first: Seq<Item>, part: Seq<Item>, all: Seq<Item>)
    requires
        part.is_prefix_of(all),
    ensures
        (first + part).is_prefix_of(first + all),
{
}

/// What one read yields goes in front of what the later ones yield.
proof fn lemma_items_read_first(state: ReaderState, ops: Seq<ReadOp>)
    requires
        ops.len() > 0,
        ops[0] is Read,
        frame::read_step(state.pending, state.pieces).item is Ok,
    ensures
        items_of_all(frames_read(state, ops)) == items_of_read(
            frame::read_step(state.pending, state.pieces).item,
        ) + items_of_all(frames_read(reader_after(state, ops[0]), ops.drop_first())),
{
    let item = frame::read_step(state.pending, state.pieces).item;
    let rest = frames_read(reader_after(state, ops[0]), ops.drop_first());
    match item {
        Ok(Some(frame)) => {
            assert(frames_read(state, ops) == seq![frame] + rest);
            assert((seq![frame] + rest).drop_first() =~= rest);
        },
        _ => {
            assert(frames_read(state, ops) =~= rest);
            assert(Seq::<Item>::empty() + items_of_all(rest) =~= items_of_all(rest));
        },
    }
}

/// What a run of a reader yields is the start of what is there and arrives.
pub open spec fn yields_start(state: ReaderState, ops: Seq<ReadOp>, more: Seq<u8>) -> bool {
    items_of_all(frames_read(state, ops)).is_prefix_of(
        decode(state.pending, state.pieces.flatten() + (bytes_arrived(ops) + more)),
    )
}

/// Bytes that arrive first.
proof fn lemma_push_yields_start(state: ReaderState, ops: Seq<ReadOp>, more: Seq<u8>)
    requires
        ops.len() > 0,
        ops[0] is Push,
        yields_start(reader_after(state, ops[0]), ops.drop_first(), more),
    ensures
        yields_start(state, ops, more),
{
    let piece = ops[0]->Push_0;
    let later = bytes_arrived(ops.drop_first());
    let next = reader_after(state, ops[0]);
    chunk::lemma_flatten_push(state.pieces, piece);
    assert(bytes_arrived(ops) == piece + later);
    assert(frames_read(state, ops) =~= frames_read(next, ops.drop_first()));
    assert(state.pieces.flatten() + (piece + later + more) =~= next.pieces.flatten() + (later
        + more));
}

/// An item that is read first.
proof fn lemma_read_yields_start(state: ReaderState, ops: Seq<ReadOp>, more: Seq<u8>)
    requires
        ops.len() > 0,
        ops[0] is Read,
        frame::read_step(state.pending, state.pieces).item is Ok,
        yields_start(reader_after(state, ops[0]), ops.drop_first(), more),
    ensures
        yields_start(state, ops, more),
{
    let later = bytes_arrived(ops.drop_first());
    let next = reader_after(state, ops[0]);
    let item = frame::read_step(state.pending, state.pieces).item;
    assert(bytes_arrived(ops) =~= later);
    law_read_keeps_meaning(state.pending, state.pieces, later + more);
    lemma_items_read_first(state, ops);
    lemma_prefix_behind(
        items_of_read(item),
        items_of_all(frames_read(next, ops.drop_first())),
        decode(next.pending, next.pieces.flatten() + (later + more)),
    );
}

/// A reader yields nothing but the start of what is there and arrives.
proof fn lemma_run_yields_start(state: ReaderState, ops: Seq<ReadOp>, more: Seq<u8>)
    requires
        reads_well(state, ops),
    ensures
        yields_start(state, ops, more),
    decreases ops.len(),
{
    if ops.len() > 0 {
        lemma_run_yields_start(reader_after(state, ops[0]), ops.drop_first(), more);
        if ops[0] is Read {
            lemma_read_yields_start(state, ops, more);
        } else {
            lemma_push_yields_start(state, ops, more);
        }
    }
}

/// The frame is a chunk of the stream that holds no bytes.
pub open spec fn is_empty_chunk(frame: FrameModel, stream_id: StreamID) -> bool {
    frame matches FrameModel::Stream(of, StreamEventModel::DataChunk(bytes)) && of == stream_id
        && bytes.len() == 0
}

/// The frame announces a payload of the stream that holds no bytes.
pub open spec fn announces_nothing(frame: FrameModel, stream_id: StreamID) -> bool {
    frame matches FrameModel::Stream(of, StreamEventModel::Data(_, size)) && of == stream_id
        && size == 0
}

/// If the frame at `i` is a chunk that holds no bytes, the one before it announces just that.
pub open spec fn chunk_is_due(frames: Seq<FrameModel>, i: int, stream_id: StreamID) -> bool {
    is_empty_chunk(frames[i], stream_id) ==> i > 0 && announces_nothing(frames[i - 1], stream_id)
}

/// Chunks that hold no bytes come only where a payload of no bytes was announced.
pub open spec fn chunks_hold_bytes(frames: Seq<FrameModel>) -> bool {
    forall|i: int, stream_id: StreamID|
        0 <= i < frames.len() ==> #[trigger] chunk_is_due(frames, i, stream_id)
}

/// No piece is empty.
pub open spec fn pieces_hold_bytes(pieces: Seq<Seq<u8>>) -> bool {
    forall|i: int| 0 <= i < pieces.len() ==> (#[trigger] pieces[i]).len() > 0
}

/// What arrives over a run comes in pieces that are not empty; an empty read is the end of a byte
/// stream.
pub open spec fn arrives_in_pieces(ops: Seq<ReadOp>) -> bool {
    forall|i: int|
        0 <= i < ops.len() ==> ((#[trigger] ops[i]) matches ReadOp::Push(bytes) ==> bytes.len() > 0)
}

/// Taking bytes away leaves no empty piece.
proof fn lemma_without_bytes_holds(pieces: Seq<Seq<u8>>, n: nat)
    requires
        pieces_hold_bytes(pieces),
    ensures
        pieces_hold_bytes(chunk::without_bytes(pieces, n)),
    decreases n,
{
    if n > 0 {
        let next = chunk::without_first_byte(pieces);
        assert forall|i: int| 0 <= i < next.len() implies (#[trigger] next[i]).len() > 0 by {
            if pieces[0].len() == 1 {
                assert(next[i] == pieces[i + 1]);
            } else if i > 0 {
                assert(next[i] == pieces[i]);
            }
        }
        lemma_without_bytes_holds(next, (n - 1) as nat);
    }
}

/// Reading an item leaves no empty piece, and yields an empty chunk only where the payload that is
/// read holds no bytes; such a payload is missing only where it was just announced.
proof fn lemma_read_step_holds(pending: Option<(StreamID, nat)>, pieces: Seq<Seq<u8>>)
    requires
        pieces_hold_bytes(pieces),
    ensures
        ({
            let step = frame::read_step(pending, pieces);
            &&& pieces_hold_bytes(step.pieces)
            &&& forall|stream_id: StreamID| #[trigger]
                is_empty_chunk(step.item->Ok_0->0, stream_id) && step.item is Ok
                    && step.item->Ok_0 is Some ==> pending == Some((stream_id, 0nat))
            &&& forall|stream_id: StreamID|
                step.item is Ok && step.item->Ok_0 is Some && step.pending == Some(
                    (stream_id, 0nat),
                ) ==> #[trigger] announces_nothing(step.item->Ok_0->0, stream_id)
            &&& step.item == Ok::<Option<FrameModel>, ParserError>(None) ==> step.pending
                == pending
        }),
{
    let step = frame::read_step(pending, pieces);
    match pending {
        Some((stream_id, remain)) => {
            if pieces.len() > 0 {
                let next = step.pieces;
                assert(pieces[0].len() > 0);
                assert forall|i: int| 0 <= i < next.len() implies (#[trigger] next[i]).len() > 0 by {
                    if pieces[0].len() > remain {
                        if i > 0 {
                            assert(next[i] == pieces[i]);
                        }
                    } else {
                        assert(next[i] == pieces[i + 1]);
                    }
                }
            }
        },
        None => {
            if pieces.flatten().len() >= packet::HEADER_LEN {
                lemma_without_bytes_holds(pieces, packet::HEADER_LEN as nat);
                lemma_frame_of_announces(pieces.flatten());
            }
        },
    }
}

/// A reader of pieces that hold bytes yields chunks that hold bytes.
proof fn lemma_frames_read_hold(state: ReaderState, ops: Seq<ReadOp>)
    requires
        pieces_hold_bytes(state.pieces),
        arrives_in_pieces(ops),
        reads_well(state, ops),
    ensures
        ({
            let frames = frames_read(state, ops);
            forall|i: int, stream_id: StreamID|
                0 <= i < frames.len() ==> #[trigger] chunk_is_due(frames, i, stream_id) || (i == 0
                    && state.pending == Some((stream_id, 0nat)))
        }),
    decreases ops.len(),
{
    if ops.len() > 0 {
        let next = reader_after(state, ops[0]);
        let rest = frames_read(next, ops.drop_first());
        let frames = frames_read(state, ops);
        assert forall|i: int| 0 <= i < ops.drop_first().len() implies ((
        #[trigger] ops.drop_first()[i]) matches ReadOp::Push(bytes) ==> bytes.len() > 0) by {
            assert(ops.drop_first()[i] == ops[i + 1]);
        }
        match ops[0] {
            ReadOp::Push(bytes) => {
                assert forall|i: int| 0 <= i < next.pieces.len() implies (
                #[trigger] next.pieces[i]).len() > 0 by {
                    if i < state.pieces.len() {
                        assert(next.pieces[i] == state.pieces[i]);
                    }
                }
                lemma_frames_read_hold(next, ops.drop_first());
                assert(frames =~= rest);
            },
            ReadOp::Read => {
                lemma_read_step_holds(state.pending, state.pieces);
                lemma_frames_read_hold(next, ops.drop_first());
                let step = frame::read_step(state.pending, state.pieces);
                match step.item {
                    Ok(Some(frame)) => {
                        assert(frames == seq![frame] + rest);
                        assert forall|i: int, stream_id: StreamID|
                            0 <= i < frames.len() implies #[trigger] chunk_is_due(
                            frames,
                            i,
                            stream_id,
                        ) || (i == 0 && state.pending == Some((stream_id, 0nat))) by {
                            if i == 0 {
                                assert(frames[0] == frame);
                                assert(frame == step.item->Ok_0->0);
                                if is_empty_chunk(step.item->Ok_0->0, stream_id) {
                                }
                            } else {
                                assert(frames[i] == rest[i - 1]);
                                assert(chunk_is_due(rest, i - 1, stream_id) || (i - 1 == 0
                                    && next.pending == Some((stream_id, 0nat))));
                                if i > 1 {
                                    assert(frames[i - 1] == rest[i - 2]);
                                } else {
                                    assert(frames[0] == step.item->Ok_0->0);
                                    if next.pending == Some((stream_id, 0nat)) {
                                        assert(announces_nothing(step.item->Ok_0->0, stream_id));
                                    }
                                }
                            }
                        }
                    },
                    _ => {
                        assert(frames =~= rest);
                    },
                }
            },
        }
    }
}

/// Every item is known.
pub open spec fn all_known(items: Seq<Item>) -> bool {
    forall|i: int| 0 <= i < items.len() ==> !((#[trigger] items[i]) is Unknown)
}

/// The items of frames are known.
proof fn lemma_frames_are_known(frames: Seq<FrameModel>)
    ensures
        all_known(items_of_all(frames)),
    decreases frames.len(),
{
    if frames.len() > 0 {
        lemma_frames_are_known(frames.drop_first());
        let first = items_of(frames[0]);
        let rest = items_of_all(frames.drop_first());
        assert forall|i: int| 0 <= i < (first + rest).len() implies !((
        #[trigger] (first + rest)[i]) is Unknown) by {
            if i >= first.len() {
                assert((first + rest)[i] == rest[i - first.len()]);
            }
        }
    }
}

/// What is there and arrives means items that are known.
pub open spec fn means_known(state: ReaderState, ops: Seq<ReadOp>, more: Seq<u8>) -> bool {
    all_known(decode(state.pending, state.pieces.flatten() + (bytes_arrived(ops) + more)))
}

/// What is left after a use still means items that are known, and a read finds one.
proof fn lemma_known_after(state: ReaderState, ops: Seq<ReadOp>, more: Seq<u8>)
    requires
        ops.len() > 0,
        means_known(state, ops, more),
    ensures
        means_known(reader_after(state, ops[0]), ops.drop_first(), more),
        ops[0] is Read ==> frame::read_step(state.pending, state.pieces).item is Ok,
{
    let later = bytes_arrived(ops.drop_first());
    let next = reader_after(state, ops[0]);
    match ops[0] {
        ReadOp::Push(piece) => {
            chunk::lemma_flatten_push(state.pieces, piece);
            assert(bytes_arrived(ops) == piece + later);
            assert(state.pieces.flatten() + (piece + later + more) =~= next.pieces.flatten() + (
            later + more));
        },
        ReadOp::Read => {
            assert(bytes_arrived(ops) =~= later);
            law_read_keeps_meaning(state.pending, state.pieces, later + more);
            let item = frame::read_step(state.pending, state.pieces).item;
            let first = items_of_read(item);
            let rest = decode(next.pending, next.pieces.flatten() + (later + more));
            let all = first + rest;
            assert forall|i: int| 0 <= i < rest.len() implies !((#[trigger] rest[i]) is Unknown) by {
                assert(rest[i] == all[i + first.len()]);
            }
            if let Err(error) = item {
                assert(all[0] == Item::Unknown(error));
            }
        },
    }
}

/// A reader of items that are known fails on none.
proof fn lemma_known_reads_well(state: ReaderState, ops: Seq<ReadOp>, more: Seq<u8>)
    requires
        means_known(state, ops, more),
    ensures
        reads_well(state, ops),
    decreases ops.len(),
{
    if ops.len() > 0 {
        lemma_known_after(state, ops, more);
        lemma_known_reads_well(reader_after(state, ops[0]), ops.drop_first(), more);
    }
}

/// However a connection cuts and delays the bytes of what was written, a reader at its other end
/// does not fail, yields frames in an order that a writer takes, and what they mean is the start of
/// what was written. Its chunks hold bytes where the pieces that arrive do.
pub proof fn law_reader_yields_what_was_written(
    frames: Seq<FrameModel>,
    ops: Seq<ReadOp>,
    more: Seq<u8>,
)
    requires
        write_all(None, frames) is Ok,
        bytes_arrived(ops) + more == bytes_of_all(frames),
    ensures
        reads_well(ReaderState { pending: None, pieces: seq![] }, ops),
        ({
            let read = frames_read(ReaderState { pending: None, pieces: seq![] }, ops);
            &&& write_all(None, read) is Ok
            &&& items_of_all(read).is_prefix_of(items_of_all(frames))
            &&& arrives_in_pieces(ops) ==> chunks_hold_bytes(read)
        }),
{
    let start = ReaderState { pending: None, pieces: seq![] };
    assert(start.pieces.flatten() =~= Seq::<u8>::empty());
    assert(start.pieces.flatten() + (bytes_arrived(ops) + more) =~= bytes_of_all(frames));
    law_write_keeps_meaning(None, frames, seq![]);
    assert(bytes_of_all(frames) + Seq::<u8>::empty() =~= bytes_of_all(frames));
    let left = write_all(None, frames)->Ok_0;
    assert(decode(left, Seq::<u8>::empty()) =~= Seq::<Item>::empty());
    assert(items_of_all(frames) + Seq::<Item>::empty() =~= items_of_all(frames));
    lemma_frames_are_known(frames);
    lemma_known_reads_well(start, ops, more);
    lemma_frames_read_in_order(start, ops);
    lemma_run_yields_start(start, ops, more);
    if arrives_in_pieces(ops) {
        lemma_frames_read_hold(start, ops);
    }
}

/// A small payload comes back whole: a data frame that fits into one chunk with its header, written
/// to an empty chained buffer, is read back as its header and a single chunk, and then nothing.
pub proof fn law_small_frame_comes_back_whole(stream_id: StreamID, flags: Flags, bytes: Seq<u8>)
    requires
        0 < bytes.len(),
        packet::HEADER_LEN + bytes.len() <= chunk::CHUNK_CAPACITY,
    ensures
        ({
            let header = FrameModel::Stream(
                stream_id,
                StreamEventModel::Data(flags, bytes.len() as u32),
            );
            let payload = FrameModel::Stream(stream_id, StreamEventModel::DataChunk(bytes));
            let pieces = chunk::with_bytes(
                chunk::with_bytes(seq![], frame::frame_bytes(header)),
                frame::frame_bytes(payload),
            );
            let first = frame::read_step(None, pieces);
            let second = frame::read_step(first.pending, first.pieces);
            let third = frame::read_step(second.pending, second.pieces);
            &&& first.item == Ok::<Option<FrameModel>, ParserError>(Some(header))
            &&& second.item == Ok::<Option<FrameModel>, ParserError>(Some(payload))
            &&& third.item == Ok::<Option<FrameModel>, ParserError>(None)
        }),
{
    let header = FrameModel::Stream(stream_id, StreamEventModel::Data(flags, bytes.len() as u32));
    let head = frame::frame_bytes(header);
    let all = head + bytes;
    let none = Seq::<Seq<u8>>::empty();
    frame::law_frame_round_trip(header, bytes);
    chunk::lemma_with_bytes_adds(none, head, bytes);
    chunk::lemma_with_bytes_in_new(none, all);
    assert(none.push(all) =~= seq![all]);
    chunk::lemma_flatten_one(all);
    chunk::lemma_without_bytes_of_one(all, packet::HEADER_LEN as nat);
    assert(all.skip(packet::HEADER_LEN as int) =~= bytes);
    let last = frame::read_step(Some((stream_id, bytes.len())), seq![bytes]);
    assert(last.pieces =~= none);
    assert(none.flatten() =~= Seq::<u8>::empty());
}

} // verus!
