//! Yamux frame parsing and encoding.
//!
//! Frames are read and written using [`ChunkBufferReader`] and
//! [`ChunkBufferWriter`] so that callers can operate directly on chunked
//! buffers without intermediate copies.

use vstd::prelude::*;

use crate::chunk;
use crate::chunk::{
    ChunkBufferReader, ChunkBufferSink, ChunkBufferSource, ChunkBufferWriter, ChunkView,
};
use crate::packet;
use crate::packet::{Flags, FrameType, Header, ParserError, StreamID};

verus! {

// === Events ===

/// Stream-directed events.
#[derive(Debug, PartialEq, Eq)]
pub enum FrameStreamEvent {
    /// Announces an incoming data payload of `size` bytes.
    Data(Flags, u32),
    /// Carries a slice of data for the current payload.
    DataChunk(ChunkView),
    /// Updates the flow-control window by `delta`.
    WindowUpdate(Flags, u32),
}

/// Session-directed events.
#[derive(Debug, Clone, Copy, PartialEq, Eq, Structural)]
pub enum FrameSessionEvent {
    /// Ping frame (opaque payload not yet modeled).
    Ping(Flags, u32),
    /// GoAway frame (error payload not yet modeled).
    GoAway(u32),
}

/// Yamux frame variants.
#[derive(Debug, PartialEq, Eq)]
pub enum Frame {
    /// Session-level control event.
    Session(FrameSessionEvent),
    /// Stream-level event tagged with the destination stream.
    Stream(StreamID, FrameStreamEvent),
}

/// A stream event by what it says: a chunk stands for its bytes.
pub enum StreamEventModel {
    Data(Flags, u32),
    DataChunk(Seq<u8>),
    WindowUpdate(Flags, u32),
}

/// A frame by what it says: a chunk stands for its bytes.
pub enum FrameModel {
    Session(FrameSessionEvent),
    Stream(StreamID, StreamEventModel),
}

impl View for FrameStreamEvent {
    type V = StreamEventModel;

    open spec fn view(&self) -> StreamEventModel {
        match self {
            FrameStreamEvent::Data(flags, size) => StreamEventModel::Data(*flags, *size),
            FrameStreamEvent::DataChunk(chunk) => StreamEventModel::DataChunk(chunk.bytes()),
            FrameStreamEvent::WindowUpdate(flags, delta) => StreamEventModel::WindowUpdate(
                *flags,
                *delta,
            ),
        }
    }
}

impl View for Frame {
    type V = FrameModel;

    open spec fn view(&self) -> FrameModel {
        match self {
            Frame::Session(event) => FrameModel::Session(*event),
            Frame::Stream(stream_id, event) => FrameModel::Stream(*stream_id, event@),
        }
    }
}

impl Clone for FrameStreamEvent {
    fn clone(&self) -> (r: Self)
        ensures
            r@ == self@,
    {
        match self {
            FrameStreamEvent::Data(flags, size) => FrameStreamEvent::Data(*flags, *size),
            FrameStreamEvent::DataChunk(chunk) => FrameStreamEvent::DataChunk(chunk.clone()),
            FrameStreamEvent::WindowUpdate(flags, delta) => FrameStreamEvent::WindowUpdate(
                *flags,
                *delta,
            ),
        }
    }
}

impl Clone for Frame {
    fn clone(&self) -> (r: Self)
        ensures
            r@ == self@,
    {
        match self {
            Frame::Session(event) => Frame::Session(*event),
            Frame::Stream(stream_id, event) => Frame::Stream(*stream_id, event.clone()),
        }
    }
}

impl FrameStreamEvent {
    /// Returns flags for events that carry them.
    pub fn flags(&self) -> (r: Option<Flags>)
        ensures
            r == event_flags(self@),
    {
        match self {
            FrameStreamEvent::Data(flags, _) => Some(*flags),
            FrameStreamEvent::WindowUpdate(flags, _) => Some(*flags),
            FrameStreamEvent::DataChunk(_) => None,
        }
    }
}

/// The flags of an event that carries them.
pub open spec fn event_flags(event: StreamEventModel) -> Option<Flags> {
    match event {
        StreamEventModel::Data(flags, _) => Some(flags),
        StreamEventModel::WindowUpdate(flags, _) => Some(flags),
        StreamEventModel::DataChunk(_) => None,
    }
}

// === Frame ===

/// The header that announces a frame; a data chunk has none.
pub open spec fn header_of_frame(frame: FrameModel) -> Option<Header> {
    let none = Flags { syn: false, ack: false, fin: false, rst: false };
    match frame {
        FrameModel::Session(FrameSessionEvent::Ping(flags, code)) => Some(
            Header {
                version: 0,
                type_: FrameType::Ping,
                flags,
                stream_id: StreamID(0),
                length: code,
            },
        ),
        FrameModel::Session(FrameSessionEvent::GoAway(code)) => Some(
            Header {
                version: 0,
                type_: FrameType::GoAway,
                flags: none,
                stream_id: StreamID(0),
                length: code,
            },
        ),
        FrameModel::Stream(stream_id, StreamEventModel::Data(flags, size)) => Some(
            Header { version: 0, type_: FrameType::Data, flags, stream_id, length: size },
        ),
        FrameModel::Stream(stream_id, StreamEventModel::WindowUpdate(flags, delta)) => Some(
            Header { version: 0, type_: FrameType::WindowUpdate, flags, stream_id, length: delta },
        ),
        FrameModel::Stream(_, StreamEventModel::DataChunk(_)) => None,
    }
}

/// The bytes of a frame on the wire: its header, or the payload bytes of a data chunk.
pub open spec fn frame_bytes(frame: FrameModel) -> Seq<u8> {
    match frame {
        FrameModel::Stream(_, StreamEventModel::DataChunk(bytes)) => bytes,
        _ => packet::header_bytes(header_of_frame(frame)->0),
    }
}

/// The frame that a header announces.
pub open spec fn frame_of_header(header: Header) -> FrameModel {
    match header.type_ {
        FrameType::Data => FrameModel::Stream(
            header.stream_id,
            StreamEventModel::Data(header.flags, header.length),
        ),
        FrameType::WindowUpdate => FrameModel::Stream(
            header.stream_id,
            StreamEventModel::WindowUpdate(header.flags, header.length),
        ),
        FrameType::Ping => FrameModel::Session(
            FrameSessionEvent::Ping(header.flags, header.length),
        ),
        FrameType::GoAway => FrameModel::Session(FrameSessionEvent::GoAway(header.length)),
    }
}

/// The frame that the first [`packet::HEADER_LEN`] bytes announce.
pub open spec fn frame_of(bytes: Seq<u8>) -> Result<FrameModel, ParserError> {
    match packet::header_of(bytes) {
        Ok(header) => Ok(frame_of_header(header)),
        Err(error) => Err(error),
    }
}

/// A frame that was written is read back as it was, whatever follows it; this holds of every
/// frame but a data chunk, which has no header.
pub proof fn law_frame_round_trip(frame: FrameModel, rest: Seq<u8>)
    requires
        header_of_frame(frame) is Some,
    ensures
        frame_bytes(frame).len() == packet::HEADER_LEN,
        frame_of(frame_bytes(frame) + rest) == Ok::<FrameModel, ParserError>(frame),
{
    packet::law_header_round_trip(header_of_frame(frame)->0, rest);
}

/// What the header of a frame says on the wire, for every kind of frame: version 0, the kind, the
/// flags, the stream, and the size, the delta or the code. A GoAway carries no flags, and the
/// frames of the session are those of stream 0. A data chunk is its own bytes.
pub proof fn law_frame_layout(frame: FrameModel)
    ensures
        ({
            let bytes = frame_bytes(frame);
            let flags = packet::number_of_two(bytes[2], bytes[3]);
            let stream = packet::number_of_four(bytes[4], bytes[5], bytes[6], bytes[7]);
            let value = packet::number_of_four(bytes[8], bytes[9], bytes[10], bytes[11]);
            match frame {
                FrameModel::Stream(_, StreamEventModel::DataChunk(payload)) => bytes == payload,
                FrameModel::Stream(id, StreamEventModel::Data(set, size)) => {
                    &&& bytes.len() == 12 && bytes[0] == 0 && bytes[1] == 0
                    &&& flags == packet::bits_of(set) && stream == id.0 && value == size
                },
                FrameModel::Stream(id, StreamEventModel::WindowUpdate(set, delta)) => {
                    &&& bytes.len() == 12 && bytes[0] == 0 && bytes[1] == 1
                    &&& flags == packet::bits_of(set) && stream == id.0 && value == delta
                },
                FrameModel::Session(FrameSessionEvent::Ping(set, code)) => {
                    &&& bytes.len() == 12 && bytes[0] == 0 && bytes[1] == 2
                    &&& flags == packet::bits_of(set) && stream == 0 && value == code
                },
                FrameModel::Session(FrameSessionEvent::GoAway(code)) => {
                    &&& bytes.len() == 12 && bytes[0] == 0 && bytes[1] == 3
                    &&& flags == 0 && stream == 0 && value == code
                },
            }
        }),
{
    if let Some(header) = header_of_frame(frame) {
        packet::law_header_layout(header);
    }
}

/// Any twelve bytes whose second byte is a frame type are read as a frame of this kind, with the
/// stream and the number that they spell; other bytes are refused.
pub proof fn law_frame_is_read_by_its_layout(bytes: Seq<u8>)
    requires
        bytes.len() >= 12,
    ensures
        ({
            let flags = packet::number_of_two(bytes[2], bytes[3]) % 16;
            let stream = packet::number_of_four(bytes[4], bytes[5], bytes[6], bytes[7]);
            let value = packet::number_of_four(bytes[8], bytes[9], bytes[10], bytes[11]);
            match frame_of(bytes) {
                Ok(FrameModel::Stream(id, StreamEventModel::Data(set, size))) => bytes[1] == 0
                    && packet::bits_of(set) == flags && id.0 == stream && size == value,
                Ok(FrameModel::Stream(id, StreamEventModel::WindowUpdate(set, delta))) => bytes[1]
                    == 1 && packet::bits_of(set) == flags && id.0 == stream && delta == value,
                Ok(FrameModel::Session(FrameSessionEvent::Ping(set, code))) => bytes[1] == 2
                    && packet::bits_of(set) == flags && code == value,
                Ok(FrameModel::Session(FrameSessionEvent::GoAway(code))) => bytes[1] == 3 && code
                    == value,
                Ok(FrameModel::Stream(_, StreamEventModel::DataChunk(_))) => false,
                Err(error) => bytes[1] >= 4 && error == ParserError::UnknownType(bytes[1]),
            }
        }),
{
    packet::law_header_is_read_by_its_layout(bytes);
}

impl Frame {
    /// Attempts to parse a full frame.
    ///
    /// Returns `Ok(None)` when the buffer does not yet hold a complete header.
    /// The payload of a data frame remains in the buffer; use [`FrameReader`]
    /// to stream data chunks without allocation.
    pub fn read<B: ChunkBufferReader>(buffer: &mut B) -> (r: Result<Option<Self>, ParserError>)
        requires
            old(buffer).wf(),
        ensures
            final(buffer).wf(),
            if chunk::bytes_of(*old(buffer)).len() < packet::HEADER_LEN {
                &&& r == Ok::<Option<Frame>, ParserError>(None)
                &&& final(buffer).pieces() == old(buffer).pieces()
            } else {
                &&& match frame_of(chunk::bytes_of(*old(buffer))) {
                    Ok(frame) => r matches Ok(Some(read)) && read@ == frame,
                    Err(error) => r == Err::<Option<Frame>, ParserError>(error),
                }
                &&& final(buffer).pieces() == chunk::without_bytes(
                    old(buffer).pieces(),
                    packet::HEADER_LEN as nat,
                )
            },
    {
        let header = match Header::read(buffer) {
            Ok(Some(header)) => header,
            Ok(None) => {
                return Ok(None);
            },
            Err(error) => {
                return Err(error);
            },
        };
        match header.type_ {
            FrameType::Data => Ok(
                Some(
                    Frame::Stream(
                        header.stream_id,
                        FrameStreamEvent::Data(header.flags, header.length),
                    ),
                ),
            ),
            FrameType::WindowUpdate => Ok(
                Some(
                    Frame::Stream(
                        header.stream_id,
                        FrameStreamEvent::WindowUpdate(header.flags, header.length),
                    ),
                ),
            ),
            FrameType::Ping => Ok(
                Some(Frame::Session(FrameSessionEvent::Ping(header.flags, header.length))),
            ),
            FrameType::GoAway => Ok(Some(Frame::Session(FrameSessionEvent::GoAway(header.length)))),
        }
    }

    /// Returns how many bytes the frame takes on the wire.
    pub fn encoded_len(&self) -> (n: usize)
        ensures
            n == frame_bytes(self@).len(),
    {
        proof {
            if header_of_frame(self@) is Some {
                law_frame_round_trip(self@, seq![]);
            }
        }
        match self {
            Frame::Stream(_, FrameStreamEvent::DataChunk(chunk)) => chunk.len(),
            _ => packet::HEADER_LEN,
        }
    }

    /// Writes the frame into the provided buffer.
    ///
    /// This helper does not check that headers and chunks match; prefer [`FrameWriter`] for
    /// data frames to ensure headers and chunks are emitted consistently.
    pub fn write<B: ChunkBufferWriter>(&self, buffer: &mut B)
        requires
            old(buffer).wf(),
            old(buffer).room() >= frame_bytes(self@).len(),
        ensures
            final(buffer).wf(),
            final(buffer).room() == old(buffer).room() - frame_bytes(self@).len(),
            chunk::bytes_of(*final(buffer)) == chunk::bytes_of(*old(buffer)) + frame_bytes(self@),
            chunk::wrote(*old(buffer), *final(buffer), frame_bytes(self@)),
    {
        proof {
            if header_of_frame(self@) is Some {
                law_frame_round_trip(self@, seq![]);
            }
        }
        match self {
            Frame::Session(event) => match event {
                FrameSessionEvent::Ping(flags, code) => {
                    Header::new(FrameType::Ping, *flags, StreamID(0), *code).write(buffer);
                },
                FrameSessionEvent::GoAway(code) => {
                    Header::new(FrameType::GoAway, Flags::empty(), StreamID(0), *code).write(
                        buffer,
                    );
                },
            },
            Frame::Stream(stream_id, event) => match event {
                FrameStreamEvent::Data(flags, size) => {
                    Header::new(FrameType::Data, *flags, *stream_id, *size).write(buffer);
                },
                FrameStreamEvent::DataChunk(chunk) => {
                    if !chunk.is_empty() {
                        buffer.write_chunk(chunk);
                    } else {
                        proof {
                            assert(chunk.bytes() =~= seq![]);
                            assert(chunk::bytes_of(*buffer) =~= chunk::bytes_of(*buffer)
                                + chunk.bytes());
                            buffer.lemma_nothing_written();
                            assert(forall|more: Seq<u8>| #[trigger]
                                (chunk.bytes() + more) =~= more);
                        }
                    }
                },
                FrameStreamEvent::WindowUpdate(flags, delta) => {
                    Header::new(FrameType::WindowUpdate, *flags, *stream_id, *delta).write(buffer);
                },
            },
        }
    }
}

// === Internal state ===

/// Tracks payload bytes remaining for a data frame currently being streamed.
#[derive(Debug, Clone, Copy)]
struct PendingPayload {
    stream_id: StreamID,
    remain: usize,
}

/// The stream and the missing payload bytes of a data frame that is being streamed.
spec fn pending_model(pending: Option<PendingPayload>) -> Option<(StreamID, nat)> {
    match pending {
        Some(payload) => Some((payload.stream_id, payload.remain as nat)),
        None => None,
    }
}

/// What is missing of a payload, `None` once nothing is.
pub open spec fn pending_payload(stream_id: StreamID, remain: nat) -> Option<(StreamID, nat)> {
    if remain == 0 {
        None
    } else {
        Some((stream_id, remain))
    }
}

// === Reader ===

/// What reading an item does: what comes out, what is then missing of a payload, and the pieces
/// left in the buffer.
pub struct ReadStep {
    pub item: Result<Option<FrameModel>, ParserError>,
    pub pending: Option<(StreamID, nat)>,
    pub pieces: Seq<Seq<u8>>,
}

/// Reading the next item. While payload bytes are missing, it is the front piece of the buffer,
/// as far as it belongs to the payload; else it is a header, once all of it is there.
pub open spec fn read_step(pending: Option<(StreamID, nat)>, pieces: Seq<Seq<u8>>) -> ReadStep {
    match pending {
        Some((stream_id, remain)) => if pieces.len() == 0 {
            ReadStep { item: Ok(None), pending, pieces }
        } else {
            let bytes = chunk::front_piece(pieces, remain);
            ReadStep {
                item: Ok(Some(FrameModel::Stream(stream_id, StreamEventModel::DataChunk(bytes)))),
                pending: pending_payload(stream_id, (remain - bytes.len()) as nat),
                pieces: chunk::without_front_piece(pieces, remain),
            }
        },
        None => if pieces.flatten().len() < packet::HEADER_LEN {
            ReadStep { item: Ok(None), pending, pieces }
        } else {
            let rest = chunk::without_bytes(pieces, packet::HEADER_LEN as nat);
            match frame_of(pieces.flatten()) {
                Ok(frame) => ReadStep {
                    item: Ok(Some(frame)),
                    pending: announced_payload(frame),
                    pieces: rest,
                },
                Err(error) => ReadStep { item: Err(error), pending, pieces: rest },
            }
        },
    }
}

/// The payload that a frame announces.
pub open spec fn announced_payload(frame: FrameModel) -> Option<(StreamID, nat)> {
    match frame {
        FrameModel::Stream(stream_id, StreamEventModel::Data(_, size)) => Some(
            (stream_id, size as nat),
        ),
        _ => None,
    }
}

/// Reading takes bytes off the front and loses none. A header takes twelve bytes, also where its
/// type is refused, and is read exactly when no payload is missing and twelve bytes are there; a
/// data header is then followed by the payload that it announces. A chunk is the rest of the
/// front piece, or what is missing of the payload, whichever is less, and makes up for its
/// length. Where nothing is read nothing changes.
pub proof fn law_read_takes_from_the_front(pending: Option<(StreamID, nat)>, pieces: Seq<Seq<u8>>)
    ensures
        ({
            let step = read_step(pending, pieces);
            let bytes = pieces.flatten();
            &&& pending is None ==> {
                &&& bytes.len() < 12 ==> step.item == Ok::<Option<FrameModel>, ParserError>(None)
                &&& bytes.len() >= 12 ==> {
                    &&& step.pieces.flatten() == bytes.skip(12)
                    &&& step.item is Err <==> bytes[1] >= 4
                    &&& step.item is Ok ==> step.item->Ok_0 is Some && frame_of(bytes)
                        == Ok::<FrameModel, ParserError>(step.item->Ok_0->0)
                    &&& match step.item {
                        Ok(Some(FrameModel::Stream(id, StreamEventModel::Data(_, size)))) =>
                        step.pending == Some((id, size as nat)),
                        _ => step.pending is None,
                    }
                }
            }
            &&& pending matches Some((id, missing)) ==> {
                &&& step.item is Ok
                &&& pieces.len() == 0 ==> step.item->Ok_0 is None
                &&& pieces.len() > 0 ==> {
                    let n = vstd::math::min(pieces[0].len() as int, missing as int);
                    &&& step.item == Ok::<Option<FrameModel>, ParserError>(
                        Some(
                            FrameModel::Stream(id, StreamEventModel::DataChunk(bytes.take(n))),
                        ),
                    )
                    &&& step.pieces.flatten() == bytes.skip(n)
                    &&& step.pending == (if n == missing {
                        None
                    } else {
                        Some((id, (missing - n) as nat))
                    })
                }
            }
            &&& step.item == Ok::<Option<FrameModel>, ParserError>(None) ==> step.pending
                == pending && step.pieces == pieces
        }),
{
    let bytes = pieces.flatten();
    match pending {
        None => {
            if bytes.len() >= 12 {
                chunk::lemma_without_bytes(pieces, 12);
                law_frame_is_read_by_its_layout(bytes);
            }
        },
        Some((id, missing)) => {
            if pieces.len() > 0 {
                let front = chunk::front_piece(pieces, missing);
                chunk::lemma_front_piece(pieces, missing);
                assert(bytes.take(front.len() as int) =~= front);
                assert(bytes.skip(front.len() as int) =~= chunk::without_front_piece(
                    pieces,
                    missing,
                ).flatten());
            }
        },
    }
}

/// Stateful reader that yields metadata and payload chunks separately.
///
/// A data frame is surfaced as [`Frame::Stream`] with [`FrameStreamEvent::Data`]
/// followed by one or more [`FrameStreamEvent::DataChunk`] values until the
/// declared `size` is exhausted. Control frames are returned as session events.
pub struct FrameReader<R> {
    buffer: R,
    pending: Option<PendingPayload>,
}

impl<R: ChunkBufferReader + ChunkBufferSink> FrameReader<R> {
    /// Validity of the reader.
    pub closed spec fn wf(&self) -> bool {
        self.buffer.wf()
    }

    /// The pieces that are still to be parsed.
    pub closed spec fn pieces(&self) -> Seq<Seq<u8>> {
        self.buffer.pieces()
    }

    /// The stream and the missing payload bytes of the data frame that is being streamed.
    pub closed spec fn pending(&self) -> Option<(StreamID, nat)> {
        pending_model(self.pending)
    }

    /// Creates a new reader over the provided buffer.
    pub fn new(buffer: R) -> (r: Self)
        requires
            buffer.wf(),
        ensures
            r.wf(),
            r.pieces() == buffer.pieces(),
            r.pending() is None,
    {
        FrameReader { buffer, pending: None }
    }

    /// Returns how many bytes wait to be parsed.
    pub fn buffered_len(&self) -> (n: usize)
        requires
            self.wf(),
        ensures
            n == self.pieces().flatten().len(),
    {
        self.buffer.len()
    }

    /// Pushes a new chunk to the back of the queue.
    pub fn push_back(&mut self, chunk: ChunkView)
        requires
            old(self).wf(),
            old(self).pieces().flatten().len() + chunk.bytes().len() <= usize::MAX,
        ensures
            final(self).wf(),
            final(self).pieces() == old(self).pieces().push(chunk.bytes()),
            final(self).pending() == old(self).pending(),
    {
        self.buffer.push_back(chunk);
    }

    /// Parses the next frame or payload chunk if available.
    ///
    /// Returns `Ok(None)` when more data is required to produce the next item.
    pub fn next_frame(&mut self) -> (r: Result<Option<Frame>, ParserError>)
        requires
            old(self).wf(),
        ensures
            final(self).wf(),
            ({
                let step = read_step(old(self).pending(), old(self).pieces());
                &&& match step.item {
                    Ok(Some(frame)) => r matches Ok(Some(read)) && read@ == frame,
                    Ok(None) => r == Ok::<Option<Frame>, ParserError>(None),
                    Err(error) => r == Err::<Option<Frame>, ParserError>(error),
                }
                &&& final(self).pending() == step.pending
                &&& final(self).pieces() == step.pieces
            }),
    {
        // Data chunks come first until the payload is complete.
        if let Some(payload) = self.pending {
            match self.buffer.next_chunk(payload.remain) {
                None => {
                    return Ok(None);
                },
                Some(chunk) => {
                    let remain: usize = payload.remain - chunk.len();
                    if remain == 0 {
                        self.pending = None;
                    } else {
                        self.pending = Some(PendingPayload { stream_id: payload.stream_id, remain });
                    }
                    return Ok(
                        Some(Frame::Stream(payload.stream_id, FrameStreamEvent::DataChunk(chunk))),
                    );
                },
            }
        }
        // Parse a new frame from the buffer.

        match Frame::read(&mut self.buffer) {
            Ok(Some(frame)) => {
                if let Frame::Stream(stream_id, FrameStreamEvent::Data(_, size)) = &frame {
                    // Track this data frame for chunked delivery.
                    self.pending = Some(
                        PendingPayload { stream_id: *stream_id, remain: *size as usize },
                    );
                }
                Ok(Some(frame))
            },
            Ok(None) => Ok(None),
            Err(error) => Err(error),
        }
    }
}

// === Writer ===

/// Errors returned by [`FrameWriter::write`].
#[derive(Debug, Clone, Copy, PartialEq, Eq, Structural)]
pub enum FrameWriterError {
    /// The stream identifier for a [`FrameStreamEvent::DataChunk`] did not match
    /// the stream currently being written.
    InvalidStreamId,
    /// A data chunk exceeded the remaining declared payload size.
    ChunkTooLarge,
    /// A non-chunk frame was provided while a payload was still pending.
    UnexpectedFrameType,
}

/// What is missing of a payload after `frame`, or why `frame` cannot be written now: a payload is
/// completed before anything else is written, and a chunk needs a payload that it belongs to.
pub open spec fn write_step(pending: Option<(StreamID, nat)>, frame: FrameModel) -> Result<
    Option<(StreamID, nat)>,
    FrameWriterError,
> {
    match (pending, frame) {
        (Some((expected, remain)), FrameModel::Stream(id, StreamEventModel::DataChunk(bytes))) =>
        if id != expected {
            Err(FrameWriterError::InvalidStreamId)
        } else if bytes.len() > remain {
            Err(FrameWriterError::ChunkTooLarge)
        } else {
            Ok(pending_payload(id, (remain - bytes.len()) as nat))
        },
        (Some(_), _) => Err(FrameWriterError::UnexpectedFrameType),
        (None, FrameModel::Stream(_, StreamEventModel::DataChunk(_))) => Err(
            FrameWriterError::UnexpectedFrameType,
        ),
        (None, _) => Ok(announced_payload(frame)),
    }
}

/// What can be written when. While a payload is missing, only its own chunks can be written, up to
/// what is missing, and each makes up for its length; while none is, everything but a chunk can,
/// and a data header announces its payload. A chunk of another stream is refused as such, also
/// where it is too large.
pub proof fn law_payload_is_written_whole(pending: Option<(StreamID, nat)>, frame: FrameModel)
    ensures
        ({
            let step = write_step(pending, frame);
            let chunk = frame is Stream && frame->Stream_1 is DataChunk;
            let id = frame->Stream_0;
            let bytes = frame->Stream_1->DataChunk_0;
            &&& pending is None ==> {
                &&& chunk ==> step == Err::<Option<(StreamID, nat)>, FrameWriterError>(
                    FrameWriterError::UnexpectedFrameType,
                )
                &&& !chunk ==> step is Ok
                &&& step matches Ok(next) ==> match frame {
                    FrameModel::Stream(of, StreamEventModel::Data(_, size)) => next == Some(
                        (of, size as nat),
                    ),
                    _ => next is None,
                }
            }
            &&& pending matches Some((of, missing)) ==> {
                &&& !chunk ==> step == Err::<Option<(StreamID, nat)>, FrameWriterError>(
                    FrameWriterError::UnexpectedFrameType,
                )
                &&& chunk && id != of ==> step == Err::<Option<(StreamID, nat)>, FrameWriterError>(
                    FrameWriterError::InvalidStreamId,
                )
                &&& chunk && id == of && bytes.len() > missing ==> step == Err::<
                    Option<(StreamID, nat)>,
                    FrameWriterError,
                >(FrameWriterError::ChunkTooLarge)
                &&& chunk && id == of && bytes.len() == missing ==> step == Ok::<
                    Option<(StreamID, nat)>,
                    FrameWriterError,
                >(None)
                &&& chunk && id == of && bytes.len() < missing ==> step == Ok::<
                    Option<(StreamID, nat)>,
                    FrameWriterError,
                >(Some((of, (missing - bytes.len()) as nat)))
            }
        }),
{
}

/// Stateful writer that owns a buffer and enforces header/data sequencing.
#[derive(Debug)]
pub struct FrameWriter<W> {
    pending: Option<PendingPayload>,
    buffer: W,
}

impl<W: ChunkBufferWriter + ChunkBufferSource> FrameWriter<W> {
    /// The underlying buffer.
    pub closed spec fn buffer(&self) -> W {
        self.buffer
    }

    /// The stream and the missing payload bytes of the data frame that is being written.
    pub closed spec fn pending(&self) -> Option<(StreamID, nat)> {
        pending_model(self.pending)
    }

    /// Creates a new writer backed by the provided buffer.
    pub fn new(buffer: W) -> (r: Self)
        ensures
            r.buffer() == buffer,
            r.pending() is None,
    {
        FrameWriter { pending: None, buffer }
    }

    /// Returns a mutable reference to the underlying buffer.
    pub fn buffer_mut(&mut self) -> (r: &mut W)
        ensures
            *r == old(self).buffer(),
            final(self).buffer() == *final(r),
            final(self).pending() == old(self).pending(),
    {
        &mut self.buffer
    }

    /// Returns a reference to the underlying buffer.
    pub fn buffer_ref(&self) -> (r: &W)
        ensures
            *r == self.buffer(),
    {
        &self.buffer
    }

    /// Returns the inner buffer, discarding writer state.
    pub fn take(self) -> (r: W)
        ensures
            r == self.buffer(),
    {
        self.buffer
    }

    /// Pops the next chunk from the front of the queue.
    pub fn pop_front(&mut self) -> (r: Option<ChunkView>)
        requires
            old(self).buffer().wf(),
        ensures
            final(self).buffer().wf(),
            final(self).pending() == old(self).pending(),
            r is Some <==> old(self).buffer().pieces().len() > 0,
            match r {
                Some(chunk) => {
                    &&& chunk.bytes() == old(self).buffer().pieces()[0]
                    &&& final(self).buffer().pieces() == old(self).buffer().pieces().drop_first()
                },
                None => final(self).buffer().pieces() == old(self).buffer().pieces(),
            },
    {
        self.buffer.pop_front()
    }

    /// Writes the next frame or chunk into the owned buffer, enforcing payload sizes.
    ///
    /// # Errors
    ///
    /// Returns [`FrameWriterError::InvalidStreamId`] if a data chunk is written for a
    /// different stream than the most recent data header, [`FrameWriterError::ChunkTooLarge`] if
    /// it exceeds what is left of the payload, or [`FrameWriterError::UnexpectedFrameType`]
    /// if a non-chunk frame is written while a payload is pending, or a chunk while none is. The
    /// writer is then as it was.
    pub fn write(&mut self, frame: Frame) -> (r: Result<(), FrameWriterError>)
        requires
            old(self).buffer().wf(),
            write_step(old(self).pending(), frame@) is Ok ==> old(self).buffer().room()
                >= frame_bytes(frame@).len(),
        ensures
            final(self).buffer().wf(),
            match write_step(old(self).pending(), frame@) {
                Ok(pending) => {
                    &&& r is Ok
                    &&& final(self).pending() == pending
                    &&& chunk::bytes_of(final(self).buffer()) == chunk::bytes_of(
                        old(self).buffer(),
                    ) + frame_bytes(frame@)
                    &&& chunk::wrote(old(self).buffer(), final(self).buffer(), frame_bytes(frame@))
                    &&& final(self).buffer().room() == old(self).buffer().room() - frame_bytes(
                        frame@,
                    ).len()
                },
                Err(error) => {
                    &&& r == Err::<(), FrameWriterError>(error)
                    &&& *final(self) == *old(self)
                },
            },
    {
        if let Some(payload) = self.pending {
            if let Frame::Stream(stream_id, FrameStreamEvent::DataChunk(chunk)) = &frame {
                if *stream_id != payload.stream_id {
                    // The chunk belongs to another stream.
                    return Err(FrameWriterError::InvalidStreamId);
                }
                if chunk.len() > payload.remain {
                    return Err(FrameWriterError::ChunkTooLarge);
                }
                let remain: usize = payload.remain - chunk.len();
                if remain == 0 {
                    self.pending = None;
                } else {
                    self.pending = Some(PendingPayload { stream_id: payload.stream_id, remain });
                }
            } else {
                // Only data chunks are accepted while a payload is pending.
                return Err(FrameWriterError::UnexpectedFrameType);
            }
        } else if let Frame::Stream(stream_id, FrameStreamEvent::Data(_, size)) = &frame {
            // Track the payload for chunked delivery.
            self.pending = Some(PendingPayload { stream_id: *stream_id, remain: *size as usize });
        } else if let Frame::Stream(_, FrameStreamEvent::DataChunk(_)) = &frame {
            // A data chunk without a preceding header is invalid.
            return Err(FrameWriterError::UnexpectedFrameType);
        }
        frame.write(&mut self.buffer);
        Ok(())
    }
}

} // verus!
