//! Yamux framing over a byte stream.
//!
//! A [`YamuxTransport`] holds the bytes between frames and the stream, in both directions. It
//! does no I/O: its steps say what to do with the stream next, and take what the stream answered.

use vstd::prelude::*;

use crate::chunk;
use crate::chunk::{
    ChainedChunkBufferReader, ChainedChunkBufferWriter, ChunkBuffer, ChunkBufferGrowth, ChunkView,
    CHUNK_CAPACITY,
};
use crate::frame;
use crate::frame::{Frame, FrameReader, FrameWriter};
use crate::packet::{ParserError, StreamID};
use crate::wire;

verus! {

// === Errors ===

/// Errors of a transport.
#[derive(Debug, PartialEq, Eq)]
pub enum YamuxTransportError {
    /// The stream failed, with this message.
    Io(String),
    /// The peer sent a frame that cannot be parsed.
    ParserError(ParserError),
}

impl From<ParserError> for YamuxTransportError {
    fn from(error: ParserError) -> (r: Self) {
        YamuxTransportError::ParserError(error)
    }
}

impl vstd::std_specs::convert::FromSpecImpl<ParserError> for YamuxTransportError {
    open spec fn obeys_from_spec() -> bool {
        true
    }

    open spec fn from_spec(error: ParserError) -> Self {
        YamuxTransportError::ParserError(error)
    }
}

// === Steps ===

/// What the stream answered while buffered bytes are flushed.
#[derive(Debug)]
pub enum FlushEvent {
    /// Nothing was asked yet.
    Start,
    /// It took so many bytes.
    Written(usize),
    /// It takes no bytes now.
    Blocked,
    /// It failed, with this message.
    Failed(String),
}

/// What to do next to flush buffered bytes.
#[derive(Debug)]
pub enum FlushStep {
    /// Offer [`YamuxTransport::front_slice`] to the stream.
    Write,
    /// All bytes are flushed.
    Done,
    /// Try again when the stream takes bytes.
    Pending,
    /// Give up.
    Failed(YamuxTransportError),
}

/// What the stream answered while the next frame is read.
#[derive(Debug)]
pub enum ReadEvent {
    /// Nothing was asked yet.
    Start,
    /// It yielded these bytes; none at its end.
    Bytes(Vec<u8>),
    /// It has no bytes now.
    Blocked,
    /// It failed, with this message.
    Failed(String),
}

/// What to do next to read a frame.
#[derive(Debug)]
pub enum ReadStep {
    /// A frame, or a chunk of a payload, is there.
    Frame(Frame),
    /// Read further bytes from the stream.
    NeedRead,
    /// The stream is at its end.
    Ended,
    /// Try again when the stream has bytes.
    Pending,
    /// Give up.
    Failed(YamuxTransportError),
}

/// No piece is empty, and none is larger than a chunk.
pub open spec fn pieces_bounded(pieces: Seq<Seq<u8>>) -> bool {
    forall|i: int|
        0 <= i < pieces.len() ==> 0 < (#[trigger] pieces[i]).len() <= CHUNK_CAPACITY
}

/// Whether `step` hands out what reading a frame yields.
pub open spec fn yields(
    step: ReadStep,
    item: Result<Option<frame::FrameModel>, ParserError>,
) -> bool {
    match item {
        Ok(Some(frame)) => step matches ReadStep::Frame(read) && read@ == frame,
        Ok(None) => step is NeedRead,
        Err(error) => step == ReadStep::Failed(YamuxTransportError::ParserError(error)),
    }
}

// === Laws ===

/// What happens to the bytes that wait for the stream.
pub enum SendOp {
    /// A frame is encoded behind them.
    Send(frame::FrameModel),
    /// The stream took so many bytes of the first piece.
    Written(nat),
}

/// Whether the pieces that wait for the stream can become `next` by one operation.
pub open spec fn follows(pieces: Seq<Seq<u8>>, op: SendOp, next: Seq<Seq<u8>>) -> bool {
    match op {
        SendOp::Send(frame) => next.flatten() == pieces.flatten() + frame::frame_bytes(frame),
        SendOp::Written(n) => {
            &&& pieces.len() > 0
            &&& n <= pieces[0].len()
            &&& next == chunk::without_front_piece(pieces, n)
        },
    }
}

/// Whether the pieces that wait for the stream can go through `states` by these operations.
pub open spec fn is_send_run(states: Seq<Seq<Seq<u8>>>, ops: Seq<SendOp>) -> bool {
    &&& states.len() == ops.len() + 1
    &&& forall|i: int|
        0 <= i < ops.len() ==> follows(states[i], #[trigger] ops[i], states[i + 1])
}

/// The frames that were sent.
pub open spec fn frames_sent(ops: Seq<SendOp>) -> Seq<frame::FrameModel>
    decreases ops.len(),
{
    if ops.len() == 0 {
        seq![]
    } else {
        (match ops[0] {
            SendOp::Send(frame) => seq![frame],
            SendOp::Written(_) => seq![],
        }) + frames_sent(ops.drop_first())
    }
}

/// The bytes that the stream took.
pub open spec fn bytes_written(states: Seq<Seq<Seq<u8>>>, ops: Seq<SendOp>) -> Seq<u8>
    decreases ops.len(),
{
    if ops.len() == 0 {
        seq![]
    } else {
        (match ops[0] {
            SendOp::Send(_) => seq![],
            SendOp::Written(n) => states[0][0].take(n as int),
        }) + bytes_written(states.drop_first(), ops.drop_first())
    }
}

/// However the stream takes its bytes, they are the bytes of the frames in the order in which
/// they were sent: over any run, what was taken and what still waits is what waited at the start
/// and the frames behind it.
pub proof fn law_frames_are_written_in_order(states: Seq<Seq<Seq<u8>>>, ops: Seq<SendOp>)
    requires
        is_send_run(states, ops),
    ensures
        bytes_written(states, ops) + states.last().flatten() == states[0].flatten()
            + wire::bytes_of_all(frames_sent(ops)),
    decreases ops.len(),
{
    let start = states[0].flatten();
    let end = states.last().flatten();
    if ops.len() == 0 {
        assert(bytes_written(states, ops) + end =~= start + wire::bytes_of_all(frames_sent(ops)));
    } else {
        let later = states.drop_first();
        let rest = ops.drop_first();
        let written = bytes_written(later, rest);
        let frames = frames_sent(rest);
        assert forall|i: int| 0 <= i < rest.len() implies follows(
            later[i],
            #[trigger] rest[i],
            later[i + 1],
        ) by {
            assert(rest[i] == ops[i + 1]);
        }
        law_frames_are_written_in_order(later, rest);
        assert(later.last() == states.last());
        assert(follows(states[0], ops[0], states[1]));
        match ops[0] {
            SendOp::Send(frame) => {
                let all = frames_sent(ops);
                assert(all =~= seq![frame] + frames);
                assert(all.drop_first() =~= frames);
                assert(bytes_written(states, ops) + end =~= written + end);
                assert(start + wire::bytes_of_all(all) =~= later[0].flatten() + wire::bytes_of_all(
                    frames,
                ));
            },
            SendOp::Written(n) => {
                let front = states[0][0].take(n as int);
                chunk::lemma_front_piece(states[0], n);
                assert(chunk::front_piece(states[0], n) =~= front);
                assert(frames_sent(ops) =~= frames);
                assert(bytes_written(states, ops) + end =~= front + (written + end));
                assert(start + wire::bytes_of_all(frames) =~= front + (later[0].flatten()
                    + wire::bytes_of_all(frames)));
            },
        }
    }
}

/// Whether the frames of a run are sent only where [`YamuxTransport::poll_ready`] allows it: when
/// all bytes are flushed, or fewer than `limit` wait; and none is longer than `longest`.
pub open spec fn sends_when_ready(
    states: Seq<Seq<Seq<u8>>>,
    ops: Seq<SendOp>,
    limit: nat,
    longest: nat,
) -> bool {
    forall|i: int|
        0 <= i < ops.len() ==> (#[trigger] ops[i] matches SendOp::Send(frame) ==> {
            &&& states[i].len() == 0 || states[i].flatten().len() < limit
            &&& frame::frame_bytes(frame).len() <= longest
        })
}

/// Backpressure bounds the buffer: where frames are sent only when the transport is ready, never
/// more bytes wait for the stream than the limit and one frame.
pub proof fn law_waiting_bytes_are_bounded(
    states: Seq<Seq<Seq<u8>>>,
    ops: Seq<SendOp>,
    limit: nat,
    longest: nat,
    i: int,
)
    requires
        is_send_run(states, ops),
        sends_when_ready(states, ops, limit, longest),
        states[0].flatten().len() <= limit + longest,
        0 <= i < states.len(),
    ensures
        states[i].flatten().len() <= limit + longest,
    decreases i,
{
    if i > 0 {
        law_waiting_bytes_are_bounded(states, ops, limit, longest, i - 1);
        assert(follows(states[i - 1], ops[i - 1], states[i - 1 + 1]));
        match ops[i - 1] {
            SendOp::Send(frame) => {
                if states[i - 1].len() == 0 {
                    assert(states[i - 1].flatten() =~= seq![]);
                }
            },
            SendOp::Written(n) => {
                chunk::lemma_front_piece(states[i - 1], n);
            },
        }
    }
}

/// Backpressure: while bytes are not flushed, a further frame is taken exactly as long as fewer of
/// them wait than the limit; once all are flushed, one is always taken.
pub proof fn law_transport_takes_frames_below_its_limit(
    transport: YamuxTransport,
    flushed: bool,
    ready: bool,
)
    requires
        call_ensures(YamuxTransport::poll_ready, (&transport, flushed), ready),
    ensures
        flushed ==> ready,
        !flushed && transport.unsent().flatten().len() >= transport.limit() ==> !ready,
        !flushed && transport.unsent().flatten().len() < transport.limit() ==> ready,
{
}

/// A frame that is sent goes behind the bytes that wait, and touches nothing that is read.
pub proof fn law_frame_is_encoded_behind_what_waits(transport: &mut YamuxTransport, item: Frame)
    requires
        call_ensures(YamuxTransport::start_send, (transport, item), ()),
    ensures
        final(transport).unsent().flatten() == old(transport).unsent().flatten()
            + frame::frame_bytes(item@),
        final(transport).unparsed() == old(transport).unparsed(),
        final(transport).pending() == old(transport).pending(),
        final(transport).limit() == old(transport).limit(),
{
}

/// Flushing drops exactly the bytes that the stream took, asks for more as long as any are left,
/// and stops when the stream blocks or fails; nothing that is read changes.
pub proof fn law_flush_drops_what_was_taken(
    transport: &mut YamuxTransport,
    event: FlushEvent,
    step: FlushStep,
)
    requires
        event matches FlushEvent::Written(n) ==> old(transport).unsent().len() > 0 && n <= old(
            transport,
        ).unsent()[0].len(),
        call_ensures(YamuxTransport::poll_write, (transport, event), step),
    ensures
        ({
            let before = old(transport).unsent().flatten();
            let after = final(transport).unsent().flatten();
            let stopped = event is Blocked || event is Failed;
            &&& event matches FlushEvent::Written(n) ==> after == before.skip(n as int)
            &&& event !is Written ==> after == before
            &&& step is Pending <==> event is Blocked
            &&& step is Failed <==> event is Failed
            &&& event matches FlushEvent::Failed(message) ==> step == FlushStep::Failed(
                YamuxTransportError::Io(message),
            )
            &&& step is Done ==> after.len() == 0
            &&& !stopped && after.len() > 0 ==> step is Write
            &&& step is Write ==> final(transport).unsent().len() > 0
        }),
        final(transport).unparsed() == old(transport).unparsed(),
        final(transport).pending() == old(transport).pending(),
        final(transport).limit() == old(transport).limit(),
{
    let pieces = old(transport).unsent();
    if let FlushEvent::Written(n) = event {
        chunk::lemma_front_piece(pieces, n as nat);
        assert(chunk::front_piece(pieces, n as nat).len() == n);
        assert(pieces.flatten().skip(n as int) =~= final(transport).unsent().flatten());
    }
    if final(transport).unsent().len() == 0 {
        assert(final(transport).unsent().flatten() =~= seq![]);
    }
}

/// Reading takes bytes off the front of those that came and loses none. A header takes twelve; a
/// chunk takes its own bytes; where there is no whole item the stream is asked, and nothing
/// changes. An unknown frame type, and a stream that fails, are reported as such; a stream that
/// ends or has nothing yet changes nothing. What waits to be sent stays as it is.
pub proof fn law_read_hands_out_what_came(
    transport: &mut YamuxTransport,
    event: ReadEvent,
    step: ReadStep,
)
    requires
        call_ensures(YamuxTransport::poll_next, (transport, event), step),
    ensures
        ({
            let held = old(transport).unparsed().flatten();
            let came = match event {
                ReadEvent::Bytes(bytes) => held + bytes@,
                _ => held,
            };
            let left = final(transport).unparsed().flatten();
            &&& step is Ended <==> event is Bytes && event->Bytes_0@.len() == 0
            &&& step is Pending <==> event is Blocked
            &&& event matches ReadEvent::Failed(message) ==> step == ReadStep::Failed(
                YamuxTransportError::Io(message),
            ) && left == held
            &&& step is Ended || step is Pending || step is NeedRead ==> left == came
            &&& step is NeedRead && old(transport).pending() is None ==> came.len() < 12
            &&& step is Failed && event !is Failed ==> {
                &&& came.len() >= 12
                &&& left == came.skip(12)
                &&& step == ReadStep::Failed(
                    YamuxTransportError::ParserError(ParserError::UnknownType(came[1])),
                )
            }
            &&& step matches ReadStep::Frame(item) ==> match item@ {
                frame::FrameModel::Stream(id, frame::StreamEventModel::DataChunk(bytes)) => {
                    &&& came == bytes + left
                    &&& old(transport).pending() matches Some((of, missing)) && id == of
                        && bytes.len() <= missing
                },
                _ => {
                    &&& came.len() >= 12
                    &&& left == came.skip(12)
                    &&& old(transport).pending() is None
                    &&& frame::frame_of(came) == Ok::<frame::FrameModel, ParserError>(item@)
                },
            }
        }),
        final(transport).unsent() == old(transport).unsent(),
        final(transport).limit() == old(transport).limit(),
{
    let pending = old(transport).pending();
    let held = old(transport).unparsed();
    let pieces = match event {
        ReadEvent::Bytes(bytes) => held.push(bytes@),
        _ => held,
    };
    if let ReadEvent::Bytes(bytes) = event {
        chunk::lemma_flatten_push(held, bytes@);
        assert(held.flatten() + Seq::<u8>::empty() =~= held.flatten());
        if bytes@.len() == 0 {
            assert(held.flatten() + bytes@ =~= held.flatten());
        }
    }
    frame::law_read_takes_from_the_front(pending, pieces);
    if pieces.flatten().len() >= 12 {
        frame::law_frame_is_read_by_its_layout(pieces.flatten());
    }
    if let Some((id, missing)) = pending {
        if pieces.len() > 0 {
            let n = vstd::math::min(pieces[0].len() as int, missing as int);
            chunk::lemma_front_piece(pieces, missing);
            assert(pieces.flatten() =~= pieces.flatten().take(n) + pieces.flatten().skip(n));
        }
    }
}

// === Transport ===

/// Adapts a byte stream into Yamux frames using chunked buffers.
///
/// The transport encodes frames into `ChunkOwned` blocks, to be written to the stream. Incoming
/// bytes are parsed incrementally with [`FrameReader`], yielding metadata and data chunks as they
/// arrive.
pub struct YamuxTransport {
    max_writer_buffer: usize,
    writer: FrameWriter<ChainedChunkBufferWriter>,
    reader: FrameReader<ChainedChunkBufferReader>,
}

impl YamuxTransport {
    /// Validity of the transport; every operation needs it and keeps it.
    pub closed spec fn wf(&self) -> bool {
        self.writer.buffer().wf() && self.reader.wf()
    }

    /// Buffered bytes from which on the transport takes no further frame while the stream blocks.
    pub closed spec fn limit(&self) -> usize {
        self.max_writer_buffer
    }

    /// The bytes that wait to be written to the stream, in pieces.
    pub closed spec fn unsent(&self) -> Seq<Seq<u8>> {
        self.writer.buffer().pieces()
    }

    /// The pieces that wait to be written to the stream once `bytes` are put behind them: the last
    /// chunk is filled up before a new one starts.
    pub closed spec fn unsent_with(&self, bytes: Seq<u8>) -> Seq<Seq<u8>> {
        self.writer.buffer().pieces_with(bytes)
    }

    /// The bytes of the stream that wait to be parsed, in pieces.
    pub closed spec fn unparsed(&self) -> Seq<Seq<u8>> {
        self.reader.pieces()
    }

    /// The stream and the missing payload bytes of the data frame that is being read.
    pub closed spec fn pending(&self) -> Option<(StreamID, nat)> {
        self.reader.pending()
    }

    /// Creates a transport with nothing buffered.
    pub fn new(max_writer_buffer: usize) -> (r: Self)
        ensures
            r.wf(),
            r.limit() == max_writer_buffer,
            r.unsent() == Seq::<Seq<u8>>::empty(),
            forall|bytes: Seq<u8>| #[trigger]
                r.unsent_with(bytes) == chunk::with_bytes(seq![], bytes),
            r.unparsed() == Seq::<Seq<u8>>::empty(),
            r.pending() is None,
    {
        let transport = YamuxTransport {
            max_writer_buffer,
            writer: FrameWriter::new(ChainedChunkBufferWriter::new()),
            reader: FrameReader::new(ChainedChunkBufferReader::new()),
        };
        assert forall|bytes: Seq<u8>| #[trigger]
            transport.unsent_with(bytes) == chunk::with_bytes(seq![], bytes) by {
            chunk::lemma_pieces_of_all(chunk::with_bytes(seq![], bytes));
        }
        transport
    }

    /// Borrows the next bytes for the stream.
    pub fn front_slice(&self) -> (r: Option<&[u8]>)
        requires
            self.wf(),
        ensures
            r is Some <==> self.unsent().len() > 0,
            r matches Some(front) ==> front@ == self.unsent()[0] && 0 < front@.len()
                <= CHUNK_CAPACITY,
    {
        proof {
            self.law_pieces_are_bounded();
        }
        self.writer.buffer_ref().front_slice()
    }

    /// What waits for the stream is held in small pieces: none is empty, and none is larger than a
    /// chunk.
    pub proof fn law_pieces_are_bounded(&self)
        requires
            self.wf(),
        ensures
            pieces_bounded(self.unsent()),
    {
        let buffer = self.writer.buffer();
        buffer.law_chunks_are_bounded();
        assert forall|i: int| 0 <= i < self.unsent().len() implies 0 < (
        #[trigger] self.unsent()[i]).len() <= CHUNK_CAPACITY by {
            assert(0 < buffer.chunks()[i].len() <= CHUNK_CAPACITY);
        }
    }

    /// Flushes buffered encoded bytes to the stream: one step after what the stream answered.
    ///
    /// Bytes that the stream took are dropped, and the next ones are offered until all are
    /// flushed or the stream blocks.
    pub fn poll_write(&mut self, event: FlushEvent) -> (r: FlushStep)
        requires
            old(self).wf(),
            event matches FlushEvent::Written(n) ==> old(self).unsent().len() > 0 && n <= old(
                self,
            ).unsent()[0].len(),
        ensures
            final(self).wf(),
            final(self).limit() == old(self).limit(),
            final(self).unparsed() == old(self).unparsed(),
            final(self).pending() == old(self).pending(),
            final(self).unsent() == (match event {
                FlushEvent::Written(n) => chunk::without_front_piece(
                    old(self).unsent(),
                    n as nat,
                ),
                _ => old(self).unsent(),
            }),
            r == (match event {
                FlushEvent::Blocked => FlushStep::Pending,
                FlushEvent::Failed(message) => FlushStep::Failed(YamuxTransportError::Io(message)),
                _ => if final(self).unsent().len() == 0 {
                    FlushStep::Done
                } else {
                    FlushStep::Write
                },
            }),
    {
        match event {
            FlushEvent::Start => {},
            FlushEvent::Written(n) => {
                self.writer.buffer_mut().consume_front(n);
            },
            FlushEvent::Blocked => {
                return FlushStep::Pending;
            },
            FlushEvent::Failed(message) => {
                return FlushStep::Failed(YamuxTransportError::Io(message));
            },
        }
        match self.writer.buffer_ref().front_slice() {
            Some(_) => FlushStep::Write,
            None => FlushStep::Done,
        }
    }

    /// Tells whether a further frame is taken, after a flush that completed or blocked: while the
    /// stream blocks, only below the limit.
    pub fn poll_ready(&self, flushed: bool) -> (r: bool)
        requires
            self.wf(),
        ensures
            r == (flushed || self.unsent().flatten().len() < self.limit()),
    {
        flushed || self.writer.buffer_ref().filled_len() < self.max_writer_buffer
    }

    /// True when the encoded frame fits into the buffer.
    pub fn has_room(&self, item: &Frame) -> (r: bool)
        requires
            self.wf(),
        ensures
            r == (self.unsent().flatten().len() + frame::frame_bytes(item@).len() <= usize::MAX),
    {
        item.encoded_len() <= usize::MAX - self.writer.buffer_ref().filled_len()
    }

    /// Encodes a frame behind the buffered bytes.
    pub fn start_send(&mut self, item: Frame)
        requires
            old(self).wf(),
            old(self).unsent().flatten().len() + frame::frame_bytes(item@).len() <= usize::MAX,
        ensures
            final(self).wf(),
            final(self).limit() == old(self).limit(),
            final(self).unparsed() == old(self).unparsed(),
            final(self).pending() == old(self).pending(),
            final(self).unsent().flatten() == old(self).unsent().flatten() + frame::frame_bytes(
                item@,
            ),
            final(self).unsent() == old(self).unsent_with(frame::frame_bytes(item@)),
            forall|more: Seq<u8>| #[trigger]
                final(self).unsent_with(more) == old(self).unsent_with(
                    frame::frame_bytes(item@) + more,
                ),
            pieces_bounded(final(self).unsent()),
    {
        item.write(self.writer.buffer_mut());
        proof {
            self.law_pieces_are_bounded();
        }
    }

    /// True when the buffer can take `len` further bytes of the stream.
    pub fn can_buffer(&self, len: usize) -> (r: bool)
        requires
            self.wf(),
        ensures
            r == (self.unparsed().flatten().len() + len <= usize::MAX),
    {
        len <= usize::MAX - self.reader.buffered_len()
    }

    /// Reads the next frame: one step after what the stream answered.
    ///
    /// Buffered bytes are parsed first; the stream is read only when they hold no whole item.
    pub fn poll_next(&mut self, event: ReadEvent) -> (r: ReadStep)
        requires
            old(self).wf(),
            event matches ReadEvent::Bytes(bytes) ==> old(self).unparsed().flatten().len()
                + bytes@.len() <= usize::MAX,
        ensures
            final(self).wf(),
            final(self).limit() == old(self).limit(),
            final(self).unsent() == old(self).unsent(),
            match event {
                ReadEvent::Start => {
                    let step = frame::read_step(old(self).pending(), old(self).unparsed());
                    &&& yields(r, step.item)
                    &&& final(self).pending() == step.pending
                    &&& final(self).unparsed() == step.pieces
                },
                ReadEvent::Bytes(bytes) => if bytes@.len() == 0 {
                    &&& r is Ended
                    &&& final(self).pending() == old(self).pending()
                    &&& final(self).unparsed() == old(self).unparsed()
                } else {
                    let step = frame::read_step(
                        old(self).pending(),
                        old(self).unparsed().push(bytes@),
                    );
                    &&& yields(r, step.item)
                    &&& final(self).pending() == step.pending
                    &&& final(self).unparsed() == step.pieces
                },
                ReadEvent::Blocked => {
                    &&& r is Pending
                    &&& final(self).pending() == old(self).pending()
                    &&& final(self).unparsed() == old(self).unparsed()
                },
                ReadEvent::Failed(message) => {
                    &&& r == ReadStep::Failed(YamuxTransportError::Io(message))
                    &&& final(self).pending() == old(self).pending()
                    &&& final(self).unparsed() == old(self).unparsed()
                },
            },
    {
        match event {
            ReadEvent::Start => {},
            ReadEvent::Bytes(bytes) => {
                if bytes.len() == 0 {
                    return ReadStep::Ended;
                }
                self.reader.push_back(ChunkView::from(bytes));
            },
            ReadEvent::Blocked => {
                return ReadStep::Pending;
            },
            ReadEvent::Failed(message) => {
                return ReadStep::Failed(YamuxTransportError::Io(message));
            },
        }
        match self.reader.next_frame() {
            Ok(Some(frame)) => ReadStep::Frame(frame),
            Ok(None) => ReadStep::NeedRead,
            Err(error) => ReadStep::Failed(YamuxTransportError::from(error)),
        }
    }
}

} // verus!
