//! Session orchestration for Yamux multiplexing.
//!
//! A [`YamuxSession`] maintains the set of active stream state machines (see
//! [`crate::stream::YamuxStreamHead`]) and the frames that wait to be sent. It does no I/O. A
//! poll of the session is a *turn*: [`YamuxSession::begin`] says what to do first, and each
//! [`YamuxSession::step`] takes what came of it and says what to do next, until the turn is
//! finished. A turn advances both inbound and outbound traffic, and may end with a newly
//! accepted stream.

use std::collections::{HashMap, VecDeque};
use std::time::Instant;

use vstd::prelude::*;

use crate::chunk::{ChunkView, DEFAULT_CHUNK_CAPACITY};
use crate::frame;
use crate::frame::{Frame, FrameModel, FrameSessionEvent, FrameStreamEvent, StreamEventModel};
use crate::packet::{Flags, StreamID};
use crate::stream;
use crate::stream::{HeadModel, HeadPoll, Pulled, PulledModel, YamuxStreamHead};

pub mod effects;
pub mod history;
pub mod pair;
pub mod rtt;
pub mod turns;

pub use rtt::KeepAliveConfig;
use rtt::{Rtt, RttEvent, RttModel};

verus! {

broadcast use vstd::std_specs::hash::group_hash_axioms;

/// Limits and timing of a session.
#[derive(Debug, Clone, Copy, PartialEq, Eq, Structural)]
pub struct YamuxSessionConfig {
    /// Buffered bytes from which on the transport holds frames back.
    pub max_write_buffer: usize,
    /// Keep-alive pings, if there are to be any.
    pub keep_alive_config: Option<KeepAliveConfig>,
}

// === Events and actions of a turn ===

/// What the keep-alive interval answered.
#[derive(Debug, Clone, Copy, PartialEq, Eq, Structural)]
pub enum TickPoll {
    /// Not yet.
    Pending,
    /// An interval is over.
    Elapsed,
    /// There are no further intervals.
    Ended,
}

/// What the transport answered when it was asked for the next frame.
#[derive(Debug)]
pub enum Inbound {
    /// No frame yet.
    Pending,
    /// The next frame.
    Frame(Frame),
    /// The transport failed.
    Failed,
    /// The transport is at its end.
    Ended,
}

/// What came of the action of a turn.
#[derive(Debug)]
pub enum SessionEvent {
    /// Of [`SessionAction::PollTick`].
    Tick(TickPoll),
    /// Of [`SessionAction::PollReady`]: whether the transport takes a frame.
    Ready(bool),
    /// Of [`SessionAction::Send`]: whether the frame was taken.
    Sent(bool),
    /// Of [`SessionAction::PollClose`]: whether the transport is closed.
    Closed(bool),
    /// Of [`SessionAction::PollInbound`].
    Inbound(Inbound),
    /// Of [`SessionAction::Deliver`].
    Delivered,
    /// Of [`SessionAction::Pull`].
    Pulled(Pulled),
    /// Of [`SessionAction::Release`].
    Released,
    /// Of [`SessionAction::PollFlush`]: whether the transport failed.
    Flushed(bool),
}

/// How a turn ends.
#[derive(Debug)]
pub enum Outcome {
    /// Nothing to hand out; poll again when something happens.
    Pending,
    /// Nothing to hand out; poll again at once.
    Wake,
    /// The session is over.
    Ended,
    /// The peer opened this stream; the chunk, if there is one, is the first to deliver on it.
    Accepted(StreamID, Option<ChunkView>),
}

/// What a turn asks for.
#[derive(Debug)]
pub enum SessionAction {
    /// Ask the keep-alive interval.
    PollTick,
    /// Ask the transport whether it takes a frame.
    PollReady,
    /// Hand this frame to the transport.
    Send(Frame),
    /// Flush and close the transport.
    PollClose,
    /// Ask the transport for the next frame.
    PollInbound,
    /// Put this chunk on the channel to the user of the stream.
    Deliver(StreamID, ChunkView),
    /// Ask the channel of the user of the stream for a chunk.
    Pull(StreamID),
    /// Drop the channels of the stream.
    Release(StreamID),
    /// Flush the transport.
    PollFlush,
    /// The turn is over.
    Finish(Outcome),
}

/// What the keep-alive tick of a turn asks for at its end.
#[derive(Debug, Clone, Copy, PartialEq, Eq, Structural)]
pub enum SessionTickEvent {
    Idle,
    NeedWake,
    Close,
}

/// Which event a turn waits for.
#[derive(Debug, Clone, Copy, PartialEq, Eq, Structural)]
pub enum Phase {
    Tick,
    ReadyFirst,
    SentFirst,
    Closing,
    Inbound,
    Delivering,
    Pulling,
    Releasing,
    ReadySecond,
    SentSecond,
    Flushing,
    Finished,
}

// === Model ===

/// The state of a [`YamuxSession`].
pub struct SessionModel {
    pub streams: Map<u32, HeadModel>,
    pub next_stream_id: u32,
    pub out_queue: Seq<FrameModel>,
    pub manual_close: bool,
    pub rtt: RttModel,
    pub keep_alive: bool,
}

/// The state of a turn.
pub struct TurnModel {
    pub phase: Phase,
    pub tick: SessionTickEvent,
    /// A frame was handed to the transport.
    pub sent: bool,
    /// Streams that are still to be asked for what they have to send, last first.
    pub visiting: Seq<u32>,
    /// Streams that are over and still to be released, last first.
    pub closed: Seq<u32>,
}

/// An answer of the transport: a chunk stands for its bytes.
pub enum InboundModel {
    Pending,
    Frame(FrameModel),
    Failed,
    Ended,
}

/// An event of a turn: a chunk stands for its bytes.
pub enum EventModel {
    Tick(TickPoll),
    Ready(bool),
    Sent(bool),
    Closed(bool),
    Inbound(InboundModel),
    Delivered,
    Pulled(PulledModel),
    Released,
    Flushed(bool),
}

/// How a turn ends: a chunk stands for its bytes.
pub enum OutcomeModel {
    Pending,
    Wake,
    Ended,
    Accepted(StreamID, Option<Seq<u8>>),
}

/// An action of a turn: a chunk stands for its bytes.
pub enum ActionModel {
    PollTick,
    PollReady,
    Send(FrameModel),
    PollClose,
    PollInbound,
    Deliver(StreamID, Seq<u8>),
    Pull(StreamID),
    Release(StreamID),
    PollFlush,
    Finish(OutcomeModel),
}

/// One step of a turn: the states after it and the action it asks for.
pub struct Step {
    pub session: SessionModel,
    pub turn: TurnModel,
    pub action: ActionModel,
}

impl View for Inbound {
    type V = InboundModel;

    open spec fn view(&self) -> InboundModel {
        match self {
            Inbound::Pending => InboundModel::Pending,
            Inbound::Frame(frame) => InboundModel::Frame(frame@),
            Inbound::Failed => InboundModel::Failed,
            Inbound::Ended => InboundModel::Ended,
        }
    }
}

impl View for SessionEvent {
    type V = EventModel;

    open spec fn view(&self) -> EventModel {
        match self {
            SessionEvent::Tick(tick) => EventModel::Tick(*tick),
            SessionEvent::Ready(ready) => EventModel::Ready(*ready),
            SessionEvent::Sent(sent) => EventModel::Sent(*sent),
            SessionEvent::Closed(closed) => EventModel::Closed(*closed),
            SessionEvent::Inbound(inbound) => EventModel::Inbound(inbound@),
            SessionEvent::Delivered => EventModel::Delivered,
            SessionEvent::Pulled(pulled) => EventModel::Pulled(pulled@),
            SessionEvent::Released => EventModel::Released,
            SessionEvent::Flushed(failed) => EventModel::Flushed(*failed),
        }
    }
}

/// The bytes of a chunk, if there is one.
pub open spec fn chunk_bytes(chunk: Option<ChunkView>) -> Option<Seq<u8>> {
    match chunk {
        Some(chunk) => Some(chunk.bytes()),
        None => None,
    }
}

impl View for Outcome {
    type V = OutcomeModel;

    open spec fn view(&self) -> OutcomeModel {
        match self {
            Outcome::Pending => OutcomeModel::Pending,
            Outcome::Wake => OutcomeModel::Wake,
            Outcome::Ended => OutcomeModel::Ended,
            Outcome::Accepted(stream_id, chunk) => OutcomeModel::Accepted(
                *stream_id,
                chunk_bytes(*chunk),
            ),
        }
    }
}

impl View for SessionAction {
    type V = ActionModel;

    open spec fn view(&self) -> ActionModel {
        match self {
            SessionAction::PollTick => ActionModel::PollTick,
            SessionAction::PollReady => ActionModel::PollReady,
            SessionAction::Send(frame) => ActionModel::Send(frame@),
            SessionAction::PollClose => ActionModel::PollClose,
            SessionAction::PollInbound => ActionModel::PollInbound,
            SessionAction::Deliver(stream_id, chunk) => ActionModel::Deliver(
                *stream_id,
                chunk.bytes(),
            ),
            SessionAction::Pull(stream_id) => ActionModel::Pull(*stream_id),
            SessionAction::Release(stream_id) => ActionModel::Release(*stream_id),
            SessionAction::PollFlush => ActionModel::PollFlush,
            SessionAction::Finish(outcome) => ActionModel::Finish(outcome@),
        }
    }
}

/// The state of a new session whose clock was started at `origin`. A server opens even streams, a
/// client odd ones.
pub open spec fn new_session(
    is_server: bool,
    cfg: YamuxSessionConfig,
    origin: Instant,
) -> SessionModel {
    SessionModel {
        streams: Map::empty(),
        next_stream_id: if is_server {
            2
        } else {
            1
        },
        out_queue: seq![],
        manual_close: false,
        rtt: rtt::new_rtt(
            match cfg.keep_alive_config {
                Some(config) => config,
                None => rtt::default_config(),
            },
            origin,
        ),
        keep_alive: cfg.keep_alive_config is Some,
    }
}

/// The identifier of the stream that is opened after `id`: of the same parity, and never 0.
pub open spec fn next_id(id: u32) -> u32 {
    if id + 2 <= u32::MAX {
        (id + 2) as u32
    } else if id + 2 == u32::MAX + 1 {
        2
    } else {
        (id + 2 - u32::MAX - 1) as u32
    }
}

/// A session after a stream was opened here.
pub open spec fn opened(session: SessionModel) -> SessionModel {
    SessionModel {
        streams: session.streams.insert(session.next_stream_id, stream::opened_head()),
        next_stream_id: next_id(session.next_stream_id),
        ..session
    }
}

/// A session after a frame was queued.
pub open spec fn queued(session: SessionModel, frame: FrameModel) -> SessionModel {
    SessionModel { out_queue: session.out_queue.push(frame), ..session }
}

/// A session after it was told to close: a GoAway is queued.
pub open spec fn closing(session: SessionModel, code: u32) -> SessionModel {
    SessionModel {
        manual_close: true,
        ..queued(session, FrameModel::Session(FrameSessionEvent::GoAway(code)))
    }
}

/// A session after a ping frame that came at time `now`: a ping is echoed, an answer counted.
pub open spec fn pinged(session: SessionModel, flags: Flags, code: u32, now: nat) -> SessionModel {
    if flags.ack {
        SessionModel { rtt: rtt::handle_pong_step(session.rtt, code, now).1, ..session }
    } else if flags.syn {
        queued(
            session,
            FrameModel::Session(FrameSessionEvent::Ping(stream::ack_flags(), code)),
        )
    } else {
        session
    }
}

/// The frames that carry events of a stream.
pub open spec fn stream_frames(id: u32, events: Seq<StreamEventModel>) -> Seq<FrameModel> {
    Seq::new(events.len(), |i: int| FrameModel::Stream(StreamID(id), events[i]))
}

/// A session after the waiting events of a stream were queued.
pub open spec fn drained(session: SessionModel, id: u32) -> SessionModel {
    let head = session.streams[id];
    SessionModel {
        streams: session.streams.insert(id, HeadModel { outs: seq![], ..head }),
        out_queue: session.out_queue + stream_frames(id, head.outs),
        ..session
    }
}

/// The step that asks for `action` and waits in `phase` for what comes of it.
pub open spec fn ask(
    session: SessionModel,
    turn: TurnModel,
    phase: Phase,
    action: ActionModel,
) -> Step {
    Step { session, turn: TurnModel { phase, ..turn }, action }
}

/// The step that ends a turn.
pub open spec fn finish(session: SessionModel, turn: TurnModel, outcome: OutcomeModel) -> Step {
    ask(session, turn, Phase::Finished, ActionModel::Finish(outcome))
}

/// Sending queued frames at the start of a turn.
pub open spec fn send_first(session: SessionModel, turn: TurnModel) -> Step {
    if session.out_queue.len() > 0 {
        ask(session, turn, Phase::ReadyFirst, ActionModel::PollReady)
    } else {
        after_first_send(session, turn)
    }
}

/// After queued frames were sent as far as possible: a session that is closing waits until all
/// of them are out, and then closes the transport; any other goes on to read.
pub open spec fn after_first_send(session: SessionModel, turn: TurnModel) -> Step {
    if session.manual_close {
        if session.out_queue.len() > 0 {
            finish(session, turn, OutcomeModel::Pending)
        } else {
            ask(session, turn, Phase::Closing, ActionModel::PollClose)
        }
    } else {
        ask(session, turn, Phase::Inbound, ActionModel::PollInbound)
    }
}

/// Asking the streams one after the other for what they have to send: waiting events are queued,
/// and the user's channel is asked where the stream can send data. Streams that are over are
/// put aside.
pub open spec fn visit(session: SessionModel, turn: TurnModel) -> Step
    decreases turn.visiting.len(),
{
    if turn.visiting.len() == 0 {
        release(session, turn)
    } else {
        let id = turn.visiting.last();
        let rest = turn.visiting.drop_last();
        if stream::is_closed(session.streams[id]) {
            visit(session, TurnModel { visiting: rest, closed: turn.closed.push(id), ..turn })
        } else {
            let next = drained(session, id);
            if stream::can_pull(next.streams[id]) {
                ask(next, turn, Phase::Pulling, ActionModel::Pull(StreamID(id)))
            } else {
                visit(next, TurnModel { visiting: rest, ..turn })
            }
        }
    }
}

/// Removing the streams that are over.
pub open spec fn release(session: SessionModel, turn: TurnModel) -> Step {
    if turn.closed.len() > 0 {
        let id = turn.closed.last();
        ask(
            SessionModel { streams: session.streams.remove(id), ..session },
            TurnModel { closed: turn.closed.drop_last(), ..turn },
            Phase::Releasing,
            ActionModel::Release(StreamID(id)),
        )
    } else {
        send_second(session, turn)
    }
}

/// Sending queued frames at the end of a turn.
pub open spec fn send_second(session: SessionModel, turn: TurnModel) -> Step {
    if session.out_queue.len() > 0 {
        ask(session, turn, Phase::ReadySecond, ActionModel::PollReady)
    } else {
        after_second_send(session, turn)
    }
}

/// Flushing the transport if anything was handed to it.
pub open spec fn after_second_send(session: SessionModel, turn: TurnModel) -> Step {
    if turn.sent {
        ask(session, turn, Phase::Flushing, ActionModel::PollFlush)
    } else {
        conclude(session, turn)
    }
}

/// The end of a turn, as the keep-alive tick asked for it.
pub open spec fn conclude(session: SessionModel, turn: TurnModel) -> Step {
    match turn.tick {
        SessionTickEvent::Close => finish(closing(session, 0), turn, OutcomeModel::Pending),
        SessionTickEvent::NeedWake => finish(session, turn, OutcomeModel::Wake),
        SessionTickEvent::Idle => finish(session, turn, OutcomeModel::Pending),
    }
}

/// Handing the first queued frame to the transport.
pub open spec fn send_front(session: SessionModel, turn: TurnModel, phase: Phase) -> Step {
    ask(
        SessionModel { out_queue: session.out_queue.drop_first(), ..session },
        turn,
        phase,
        ActionModel::Send(session.out_queue[0]),
    )
}

/// What the keep-alive interval answered at time `now`.
pub open spec fn tick_step(
    session: SessionModel,
    turn: TurnModel,
    tick: TickPoll,
    now: nat,
) -> Step {
    match tick {
        TickPoll::Pending => send_first(session, TurnModel { tick: SessionTickEvent::Idle, ..turn }),
        TickPoll::Ended => send_first(session, TurnModel { tick: SessionTickEvent::Close, ..turn }),
        TickPoll::Elapsed => {
            let (event, rtt) = rtt::next_ping_step(session.rtt, now);
            let next = SessionModel { rtt, ..session };
            match event {
                Some(RttEvent::KeepAlive(nonce)) => send_first(
                    queued(
                        next,
                        FrameModel::Session(FrameSessionEvent::Ping(stream::syn_flags(), nonce)),
                    ),
                    TurnModel { tick: SessionTickEvent::NeedWake, ..turn },
                ),
                Some(RttEvent::Close) => send_first(
                    next,
                    TurnModel { tick: SessionTickEvent::Close, ..turn },
                ),
                None => send_first(next, TurnModel { tick: SessionTickEvent::NeedWake, ..turn }),
            }
        },
    }
}

/// An event for a stream that came from the peer. A stream that is known takes it; an unknown
/// one is accepted if the event opens it, and the event is dropped otherwise.
pub open spec fn stream_step(
    session: SessionModel,
    turn: TurnModel,
    stream_id: StreamID,
    event: StreamEventModel,
) -> Step {
    let id = stream_id.0;
    if session.streams.contains_key(id) {
        let input = stream::input_step(session.streams[id], event);
        let next = SessionModel { streams: session.streams.insert(id, input.head), ..session };
        match input.result {
            Ok(Some(bytes)) => ask(
                next,
                turn,
                Phase::Delivering,
                ActionModel::Deliver(stream_id, bytes),
            ),
            _ => ask(next, turn, Phase::Inbound, ActionModel::PollInbound),
        }
    } else if frame::event_flags(event) matches Some(flags) && flags.syn {
        let input = stream::input_step(stream::accepted_head(), event);
        let next = SessionModel { streams: session.streams.insert(id, input.head), ..session };
        let first = match input.result {
            Ok(bytes) => bytes,
            Err(_) => None,
        };
        finish(next, turn, OutcomeModel::Accepted(stream_id, first))
    } else {
        ask(session, turn, Phase::Inbound, ActionModel::PollInbound)
    }
}

/// What the transport answered at time `now`. When it has no frame, the streams are visited in
/// the order of `walk`, last first.
pub open spec fn inbound_step(
    session: SessionModel,
    turn: TurnModel,
    inbound: InboundModel,
    now: nat,
    walk: Seq<u32>,
) -> Step {
    match inbound {
        InboundModel::Pending => visit(
            session,
            TurnModel { visiting: walk, closed: seq![], ..turn },
        ),
        InboundModel::Failed => finish(session, turn, OutcomeModel::Ended),
        InboundModel::Ended => finish(session, turn, OutcomeModel::Ended),
        InboundModel::Frame(FrameModel::Session(FrameSessionEvent::Ping(flags, code))) => ask(
            pinged(session, flags, code, now),
            turn,
            Phase::Inbound,
            ActionModel::PollInbound,
        ),
        InboundModel::Frame(FrameModel::Session(FrameSessionEvent::GoAway(_))) => finish(
            session,
            turn,
            OutcomeModel::Ended,
        ),
        InboundModel::Frame(FrameModel::Stream(stream_id, event)) => stream_step(
            session,
            turn,
            stream_id,
            event,
        ),
    }
}

/// What the channel of the visited stream's user answered: the event that the stream makes of it
/// is queued, and the stream is asked again.
pub open spec fn pulled_step(session: SessionModel, turn: TurnModel, pulled: PulledModel) -> Step {
    let id = turn.visiting.last();
    let rest = turn.visiting.drop_last();
    let (poll, head) = stream::pulled_step(session.streams[id], pulled);
    match poll {
        stream::HeadPollModel::Emit(event) => visit(
            SessionModel {
                streams: session.streams.insert(id, head),
                ..queued(session, FrameModel::Stream(StreamID(id), event))
            },
            turn,
        ),
        _ => visit(session, TurnModel { visiting: rest, ..turn }),
    }
}

/// A step of a turn: what came of the last action leads to the next one.
pub open spec fn turn_step(
    session: SessionModel,
    turn: TurnModel,
    event: EventModel,
    now: nat,
    walk: Seq<u32>,
) -> Step {
    match (turn.phase, event) {
        (Phase::Tick, EventModel::Tick(tick)) => tick_step(session, turn, tick, now),
        (Phase::ReadyFirst, EventModel::Ready(ready)) => if ready {
            send_front(session, turn, Phase::SentFirst)
        } else {
            after_first_send(session, turn)
        },
        (Phase::SentFirst, EventModel::Sent(sent)) => if sent {
            send_first(session, TurnModel { sent: true, ..turn })
        } else {
            finish(session, turn, OutcomeModel::Ended)
        },
        (Phase::Closing, EventModel::Closed(closed)) => finish(
            session,
            turn,
            if closed {
                OutcomeModel::Ended
            } else {
                OutcomeModel::Pending
            },
        ),
        (Phase::Inbound, EventModel::Inbound(inbound)) => inbound_step(
            session,
            turn,
            inbound,
            now,
            walk,
        ),
        (Phase::Delivering, EventModel::Delivered) => ask(
            session,
            turn,
            Phase::Inbound,
            ActionModel::PollInbound,
        ),
        (Phase::Pulling, EventModel::Pulled(pulled)) => pulled_step(session, turn, pulled),
        (Phase::Releasing, EventModel::Released) => release(session, turn),
        (Phase::ReadySecond, EventModel::Ready(ready)) => if ready {
            send_front(session, turn, Phase::SentSecond)
        } else {
            after_second_send(session, turn)
        },
        (Phase::SentSecond, EventModel::Sent(sent)) => if sent {
            send_second(session, TurnModel { sent: true, ..turn })
        } else {
            finish(session, turn, OutcomeModel::Ended)
        },
        (Phase::Flushing, EventModel::Flushed(failed)) => if failed {
            finish(session, turn, OutcomeModel::Ended)
        } else {
            conclude(session, turn)
        },
        _ => finish(session, turn, OutcomeModel::Pending),
    }
}

/// The first step of a turn.
pub open spec fn first_step(session: SessionModel) -> Step {
    let turn = TurnModel {
        phase: Phase::Tick,
        tick: SessionTickEvent::Idle,
        sent: false,
        visiting: seq![],
        closed: seq![],
    };
    if session.keep_alive {
        ask(session, turn, Phase::Tick, ActionModel::PollTick)
    } else {
        send_first(session, turn)
    }
}

/// The event answers the action that the turn asked for.
pub open spec fn expected(phase: Phase, event: EventModel) -> bool {
    match event {
        EventModel::Tick(_) => phase is Tick,
        EventModel::Ready(_) => phase is ReadyFirst || phase is ReadySecond,
        EventModel::Sent(_) => phase is SentFirst || phase is SentSecond,
        EventModel::Closed(_) => phase is Closing,
        EventModel::Inbound(_) => phase is Inbound,
        EventModel::Delivered => phase is Delivering,
        EventModel::Pulled(_) => phase is Pulling,
        EventModel::Released => phase is Releasing,
        EventModel::Flushed(_) => phase is Flushing,
    }
}

/// The counters that an event moves fit the machine, and a chunk of a user is no larger than
/// [`DEFAULT_CHUNK_CAPACITY`].
pub open spec fn event_fits(session: SessionModel, event: EventModel) -> bool {
    match event {
        EventModel::Tick(TickPoll::Elapsed) => rtt::nonce_left(session.rtt),
        EventModel::Inbound(InboundModel::Frame(FrameModel::Stream(stream_id, event))) => {
            session.streams.contains_key(stream_id.0) ==> stream::window_fits(
                session.streams[stream_id.0],
                event,
            )
        },
        EventModel::Pulled(PulledModel::Chunk(bytes)) => bytes.len() <= DEFAULT_CHUNK_CAPACITY,
        _ => true,
    }
}

/// The streams that are still to be visited are streams of the session.
pub open spec fn visits_known(session: SessionModel, turn: TurnModel) -> bool {
    forall|i: int|
        0 <= i < turn.visiting.len() ==> session.streams.contains_key(#[trigger] turn.visiting[i])
}

/// The turn speaks of streams and frames that the session has.
pub open spec fn coherent(session: SessionModel, turn: TurnModel) -> bool {
    &&& visits_known(session, turn)
    &&& turn.phase is Pulling ==> turn.visiting.len() > 0 && stream::can_pull(
        session.streams[turn.visiting.last()],
    )
    &&& turn.phase is Closing ==> session.manual_close
    &&& turn.phase is Releasing ==> turn.visiting.len() == 0
    &&& turn.phase is ReadyFirst || turn.phase is ReadySecond ==> session.out_queue.len() > 0
}

/// An order in which all streams can be visited, each once.
pub open spec fn is_walk(walk: Seq<u32>, session: SessionModel) -> bool {
    &&& walk.no_duplicates()
    &&& forall|id: u32| #[trigger] walk.contains(id) <==> session.streams.contains_key(id)
}

/// The order of a visit, where the event starts one.
pub open spec fn walk_fits(walk: Seq<u32>, session: SessionModel, event: EventModel) -> bool {
    event == EventModel::Inbound(InboundModel::Pending) ==> is_walk(walk, session)
}

// === Session type ===

/// A turn of a session: how far it has come.
#[derive(Debug)]
pub struct PollTurn {
    phase: Phase,
    tick: SessionTickEvent,
    sent: bool,
    visiting: Vec<u32>,
    closed: Vec<u32>,
}

impl View for PollTurn {
    type V = TurnModel;

    closed spec fn view(&self) -> TurnModel {
        TurnModel {
            phase: self.phase,
            tick: self.tick,
            sent: self.sent,
            visiting: self.visiting@,
            closed: self.closed@,
        }
    }
}

/// The frames of a queue by what they say.
pub open spec fn frame_models(frames: Seq<Frame>) -> Seq<FrameModel> {
    Seq::new(frames.len(), |i: int| frames[i]@)
}

/// Stream heads by what they say.
pub open spec fn head_models(heads: Map<u32, YamuxStreamHead>) -> Map<u32, HeadModel> {
    heads.map_values(|head: YamuxStreamHead| head@)
}

/// Multiplexes logical Yamux streams over a transport.
#[derive(Debug)]
pub struct YamuxSession {
    streams: HashMap<u32, YamuxStreamHead>,
    next_stream_id: u32,
    out_queue: VecDeque<Frame>,
    manual_close: bool,
    rtt: Rtt,
    keep_alive: bool,
}

impl View for YamuxSession {
    type V = SessionModel;

    closed spec fn view(&self) -> SessionModel {
        SessionModel {
            streams: head_models(self.streams@),
            next_stream_id: self.next_stream_id,
            out_queue: frame_models(self.out_queue@),
            manual_close: self.manual_close,
            rtt: self.rtt@,
            keep_alive: self.keep_alive,
        }
    }
}

impl YamuxSession {
    /// Creates a server-side session (even stream identifiers).
    pub fn server(cfg: YamuxSessionConfig) -> (r: Self)
        ensures
            r@ == new_session(true, cfg, r@.rtt.origin),
            call_ensures(Instant::now, (), r@.rtt.origin),
    {
        Self::new(true, cfg)
    }

    /// Creates a client-side session (odd stream identifiers).
    pub fn client(cfg: YamuxSessionConfig) -> (r: Self)
        ensures
            r@ == new_session(false, cfg, r@.rtt.origin),
            call_ensures(Instant::now, (), r@.rtt.origin),
    {
        Self::new(false, cfg)
    }

    /// Creates a session and selects the next outbound stream identifier.
    fn new(is_server: bool, cfg: YamuxSessionConfig) -> (r: Self)
        ensures
            r@ == new_session(is_server, cfg, r@.rtt.origin),
            call_ensures(Instant::now, (), r@.rtt.origin),
    {
        let start: u32 = if is_server {
            2
        } else {
            1
        };
        let (config, keep_alive) = match cfg.keep_alive_config {
            Some(config) => (config, true),
            None => (KeepAliveConfig::default(), false),
        };
        let session = YamuxSession {
            streams: HashMap::new(),
            next_stream_id: start,
            out_queue: VecDeque::new(),
            manual_close: false,
            rtt: Rtt::new(config),
            keep_alive,
        };
        assert(session@.streams =~= Map::<u32, HeadModel>::empty());
        assert(session@.out_queue =~= seq![]);
        session
    }

    /// Opens a new outbound stream.
    ///
    /// The stream becomes usable once the remote acknowledges it.
    pub fn open_stream(&mut self) -> (r: StreamID)
        ensures
            r == StreamID(old(self)@.next_stream_id),
            final(self)@ == opened(old(self)@),
    {
        let id: u32 = self.next_stream_id;
        self.next_stream_id = id.wrapping_add(2);
        if self.next_stream_id == 0 {
            self.next_stream_id = 2;
        }
        self.put_head(id, YamuxStreamHead::open());
        StreamID(id)
    }

    /// Queues a frame.
    fn enqueue(&mut self, frame: Frame)
        ensures
            final(self)@ == queued(old(self)@, frame@),
    {
        self.out_queue.push_back(frame);
        assert(self@.out_queue =~= queued(old(self)@, frame@).out_queue);
    }

    /// Starts a graceful session shutdown by queueing a GoAway frame.
    ///
    /// After calling this, polling the session continues flushing queued frames
    /// until the underlying transport closes.
    pub fn close(&mut self, code: u32)
        ensures
            final(self)@ == closing(old(self)@, code),
    {
        self.enqueue(Frame::Session(FrameSessionEvent::GoAway(code)));
        self.manual_close = true;
    }

    /// Takes a ping frame that came at time `now`, in nanoseconds since the session was made.
    pub fn on_ping_at(&mut self, flags: Flags, code: u32, now: u128)
        ensures
            final(self)@ == pinged(old(self)@, flags, code, now as nat),
    {
        if flags.ack {
            self.rtt.handle_pong_at(code, now);
        } else if flags.syn {
            self.enqueue(Frame::Session(FrameSessionEvent::Ping(Flags::ack(), code)));
        }
    }

    /// Takes a ping frame now, by a reading of the clock.
    pub fn on_ping(&mut self, flags: Flags, code: u32)
        ensures
            exists|now: u128| #[trigger]
                rtt::clock_shows(old(self)@.rtt.origin, now) && final(self)@ == pinged(
                    old(self)@,
                    flags,
                    code,
                    now as nat,
                ),
    {
        let now: u128 = self.rtt.now();
        self.on_ping_at(flags, code, now);
    }
}

// === Turns ===

impl YamuxSession {
    /// The identifiers of all streams, in the order in which the map is walked.
    fn walk(&self) -> (r: Vec<u32>)
        ensures
            is_walk(r@, self@),
    {
        let mut ids: Vec<u32> = Vec::new();
        for id in iter: self.streams.keys()
            invariant
                ids@ == iter.seq().unref().take(iter.index()),
        {
            ids.push(*id);
            assert(ids@ =~= iter.seq().unref().take(iter.index() + 1));
        }
        proof {
            let keys = vstd::std_specs::iter::IteratorSpec::remaining(&self.streams.keys());
            assert(ids@ =~= keys.unref());
            assert(ids@.to_set() == self.streams@.dom());
            assert forall|id: u32| #[trigger]
                ids@.contains(id) == self@.streams.contains_key(id) by {
                assert(ids@.to_set().contains(id) == ids@.contains(id));
            }
        }
        ids
    }

    /// Goes on with queued frames at the start of a turn.
    fn send_first(&mut self, turn: &mut PollTurn) -> (r: SessionAction)
        ensures
            (Step { session: final(self)@, turn: final(turn)@, action: r@ }) == send_first(
                old(self)@,
                old(turn)@,
            ),
    {
        if self.out_queue.len() > 0 {
            turn.phase = Phase::ReadyFirst;
            return SessionAction::PollReady;
        }
        self.after_first_send(turn)
    }

    /// Goes on when queued frames were sent as far as possible.
    fn after_first_send(&mut self, turn: &mut PollTurn) -> (r: SessionAction)
        ensures
            (Step { session: final(self)@, turn: final(turn)@, action: r@ }) == after_first_send(
                old(self)@,
                old(turn)@,
            ),
    {
        if self.manual_close {
            if self.out_queue.len() > 0 {
                return Self::finish(turn, Outcome::Pending);
            }
            turn.phase = Phase::Closing;
            return SessionAction::PollClose;
        }
        turn.phase = Phase::Inbound;
        SessionAction::PollInbound
    }

    /// Ends a turn.
    fn finish(turn: &mut PollTurn, outcome: Outcome) -> (r: SessionAction)
        ensures
            final(turn)@ == (TurnModel { phase: Phase::Finished, ..old(turn)@ }),
            r@ == ActionModel::Finish(outcome@),
    {
        turn.phase = Phase::Finished;
        SessionAction::Finish(outcome)
    }

    /// Takes the head of a stream out of the session.
    fn take_head(&mut self, id: u32) -> (r: Option<YamuxStreamHead>)
        ensures
            match r {
                Some(head) => old(self)@.streams.contains_key(id) && head@
                    == old(self)@.streams[id],
                None => !old(self)@.streams.contains_key(id),
            },
            final(self)@ == (SessionModel {
                streams: old(self)@.streams.remove(id),
                ..old(self)@
            }),
    {
        let head = self.streams.remove(&id);
        assert(self@.streams =~= old(self)@.streams.remove(id));
        head
    }

    /// Puts the head of a stream into the session.
    fn put_head(&mut self, id: u32, head: YamuxStreamHead)
        ensures
            final(self)@ == (SessionModel {
                streams: old(self)@.streams.insert(id, head@),
                ..old(self)@
            }),
    {
        self.streams.insert(id, head);
        assert(self@.streams =~= old(self)@.streams.insert(id, head@));
    }

    /// Queues the waiting events of a stream; tells whether the stream is over or a chunk of its
    /// user can be sent.
    fn drain(&mut self, id: u32) -> (r: HeadPoll)
        requires
            old(self)@.streams.contains_key(id),
        ensures
            final(self)@ == (if stream::is_closed(old(self)@.streams[id]) {
                old(self)@
            } else {
                drained(old(self)@, id)
            }),
            r@ == (if stream::is_closed(old(self)@.streams[id]) {
                stream::HeadPollModel::Closed
            } else if stream::can_pull(drained(old(self)@, id).streams[id]) {
                stream::HeadPollModel::Pull
            } else {
                stream::HeadPollModel::Pending
            }),
    {
        let ghost before = self@;
        let ghost start = before.streams[id];
        let mut poll = HeadPoll::Pending;
        if let Some(head) = self.take_head(id) {
            let mut head = head;
            proof {
                assert(start.outs.skip(0) =~= start.outs);
                assert(self@.out_queue =~= before.out_queue + stream_frames(
                    id,
                    start.outs.take(0),
                ));
            }
            let ghost mut sent: nat = 0;
            loop
                invariant
                    before.streams.contains_key(id),
                    start == before.streams[id],
                    sent <= start.outs.len(),
                    stream::is_closed(start) ==> sent == 0,
                    head@ == (HeadModel { outs: start.outs.skip(sent as int), ..start }),
                    self@ == (SessionModel {
                        streams: before.streams.remove(id),
                        out_queue: before.out_queue + stream_frames(id, start.outs.take(sent as int)),
                        ..before
                    }),
                ensures
                    poll@ == stream::poll_step(head@).0,
                    poll@ !is Emit,
                decreases start.outs.len() - sent,
            {
                match head.poll_next() {
                    HeadPoll::Emit(event) => {
                        self.enqueue(Frame::Stream(StreamID(id), event));
                        proof {
                            assert(start.outs.skip(sent as int).drop_first()
                                =~= start.outs.skip(sent as int + 1));
                            assert(stream_frames(id, start.outs.take(sent as int + 1))
                                =~= stream_frames(id, start.outs.take(sent as int)).push(
                                FrameModel::Stream(StreamID(id), start.outs[sent as int]),
                            ));
                            sent = sent + 1;
                        }
                    },
                    last => {
                        poll = last;
                        break;
                    },
                }
            }
            self.put_head(id, head);
            proof {
                if stream::is_closed(start) {
                    assert(self@.streams =~= before.streams);
                    assert(self@.out_queue =~= before.out_queue);
                } else {
                    assert(start.outs.take(sent as int) =~= start.outs);
                    assert(head@.outs =~= seq![]);
                    assert(self@.streams =~= drained(before, id).streams);
                }
            }
        }
        poll
    }

    /// Goes on with the streams that are still to be visited.
    fn visit(&mut self, turn: &mut PollTurn) -> (r: SessionAction)
        requires
            visits_known(old(self)@, old(turn)@),
        ensures
            (Step { session: final(self)@, turn: final(turn)@, action: r@ }) == visit(
                old(self)@,
                old(turn)@,
            ),
            coherent(final(self)@, final(turn)@),
    {
        while turn.visiting.len() > 0
            invariant
                visits_known(self@, turn@),
                visit(self@, turn@) == visit(old(self)@, old(turn)@),
            decreases turn.visiting.len(),
        {
            let id: u32 = turn.visiting[turn.visiting.len() - 1];
            assert(turn@.visiting.last() == id);
            match self.drain(id) {
                HeadPoll::Closed => {
                    turn.visiting.pop();
                    turn.closed.push(id);
                },
                HeadPoll::Pull => {
                    turn.phase = Phase::Pulling;
                    return SessionAction::Pull(StreamID(id));
                },
                _ => {
                    turn.visiting.pop();
                },
            }
        }
        self.release(turn)
    }

    /// Goes on with the streams that are still to be released.
    fn release(&mut self, turn: &mut PollTurn) -> (r: SessionAction)
        ensures
            (Step { session: final(self)@, turn: final(turn)@, action: r@ }) == release(
                old(self)@,
                old(turn)@,
            ),
    {
        if let Some(id) = turn.closed.pop() {
            let _ = self.take_head(id);
            turn.phase = Phase::Releasing;
            return SessionAction::Release(StreamID(id));
        }
        self.send_second(turn)
    }

    /// Goes on with queued frames at the end of a turn.
    fn send_second(&mut self, turn: &mut PollTurn) -> (r: SessionAction)
        ensures
            (Step { session: final(self)@, turn: final(turn)@, action: r@ }) == send_second(
                old(self)@,
                old(turn)@,
            ),
    {
        if self.out_queue.len() > 0 {
            turn.phase = Phase::ReadySecond;
            return SessionAction::PollReady;
        }
        self.after_second_send(turn)
    }

    /// Goes on when there is no more to send in this turn.
    fn after_second_send(&mut self, turn: &mut PollTurn) -> (r: SessionAction)
        ensures
            (Step { session: final(self)@, turn: final(turn)@, action: r@ }) == after_second_send(
                old(self)@,
                old(turn)@,
            ),
    {
        if turn.sent {
            turn.phase = Phase::Flushing;
            return SessionAction::PollFlush;
        }
        self.conclude(turn)
    }

    /// Ends a turn as the keep-alive tick asked for it.
    fn conclude(&mut self, turn: &mut PollTurn) -> (r: SessionAction)
        ensures
            (Step { session: final(self)@, turn: final(turn)@, action: r@ }) == conclude(
                old(self)@,
                old(turn)@,
            ),
    {
        match turn.tick {
            SessionTickEvent::Close => {
                self.close(0);
                Self::finish(turn, Outcome::Pending)
            },
            SessionTickEvent::NeedWake => Self::finish(turn, Outcome::Wake),
            SessionTickEvent::Idle => Self::finish(turn, Outcome::Pending),
        }
    }

    /// Hands the first queued frame to the transport.
    fn send_front(&mut self, turn: &mut PollTurn, phase: Phase) -> (r: SessionAction)
        requires
            old(self)@.out_queue.len() > 0,
        ensures
            (Step { session: final(self)@, turn: final(turn)@, action: r@ }) == send_front(
                old(self)@,
                old(turn)@,
                phase,
            ),
    {
        if let Some(frame) = self.out_queue.pop_front() {
            assert(self@.out_queue =~= old(self)@.out_queue.drop_first());
            turn.phase = phase;
            return SessionAction::Send(frame);
        }
        Self::finish(turn, Outcome::Pending)
    }

    /// Takes what the keep-alive interval answered.
    fn on_tick(&mut self, turn: &mut PollTurn, tick: TickPoll, now: u128) -> (r: SessionAction)
        requires
            tick is Elapsed ==> rtt::nonce_left(old(self)@.rtt),
        ensures
            (Step { session: final(self)@, turn: final(turn)@, action: r@ }) == tick_step(
                old(self)@,
                old(turn)@,
                tick,
                now as nat,
            ),
    {
        turn.tick = match tick {
            TickPoll::Pending => SessionTickEvent::Idle,
            TickPoll::Ended => SessionTickEvent::Close,
            TickPoll::Elapsed => match self.rtt.next_ping_at(now) {
                Some(RttEvent::KeepAlive(nonce)) => {
                    self.enqueue(Frame::Session(FrameSessionEvent::Ping(Flags::syn(), nonce)));
                    SessionTickEvent::NeedWake
                },
                Some(RttEvent::Close) => SessionTickEvent::Close,
                None => SessionTickEvent::NeedWake,
            },
        };
        self.send_first(turn)
    }

    /// Takes an event of the peer for a stream.
    fn on_stream(
        &mut self,
        turn: &mut PollTurn,
        stream_id: StreamID,
        event: FrameStreamEvent,
    ) -> (r: SessionAction)
        requires
            old(self)@.streams.contains_key(stream_id.0) ==> stream::window_fits(
                old(self)@.streams[stream_id.0],
                event@,
            ),
        ensures
            (Step { session: final(self)@, turn: final(turn)@, action: r@ }) == stream_step(
                old(self)@,
                old(turn)@,
                stream_id,
                event@,
            ),
            old(self)@.streams.dom().subset_of(final(self)@.streams.dom()),
    {
        let id: u32 = stream_id.0;
        let ghost before = self@;
        if let Some(head) = self.take_head(id) {
            let mut head = head;
            let delivered = head.on_input(event);
            self.put_head(id, head);
            assert(before.streams.remove(id).insert(id, head@) =~= before.streams.insert(id, head@));
            turn.phase = Phase::Inbound;
            // An event that is out of order is dropped.
            if let Ok(Some(chunk)) = delivered {
                turn.phase = Phase::Delivering;
                return SessionAction::Deliver(stream_id, chunk);
            }
            return SessionAction::PollInbound;
        }
        assert(before.streams.remove(id) =~= before.streams);
        if let Some(flags) = event.flags() {
            if flags.syn {
                let mut head = YamuxStreamHead::accept();
                let delivered = head.on_input(event);
                self.put_head(id, head);
                let first = match delivered {
                    Ok(first) => first,
                    Err(_) => None,
                };
                return Self::finish(turn, Outcome::Accepted(stream_id, first));
            }
        }
        turn.phase = Phase::Inbound;
        SessionAction::PollInbound
    }

    /// Takes what the transport answered.
    fn on_inbound(&mut self, turn: &mut PollTurn, inbound: Inbound, now: u128) -> (r: SessionAction)
        requires
            visits_known(old(self)@, old(turn)@),
            event_fits(old(self)@, EventModel::Inbound(inbound@)),
        ensures
            exists|walk: Seq<u32>| #[trigger]
                walk_fits(walk, old(self)@, EventModel::Inbound(inbound@)) && (Step {
                    session: final(self)@,
                    turn: final(turn)@,
                    action: r@,
                }) == inbound_step(old(self)@, old(turn)@, inbound@, now as nat, walk),
            coherent(final(self)@, final(turn)@),
    {
        assert(inbound@ !is Pending ==> walk_fits(
            seq![],
            old(self)@,
            EventModel::Inbound(inbound@),
        ));
        match inbound {
            Inbound::Pending => {
                let walk = self.walk();
                let ghost ids = walk@;
                assert(walk_fits(ids, old(self)@, EventModel::Inbound(inbound@)));
                turn.visiting = walk;
                turn.closed = Vec::new();
                assert forall|i: int| 0 <= i < ids.len() implies self@.streams.contains_key(
                    #[trigger] ids[i],
                ) by {
                    assert(ids.contains(ids[i]));
                }
                self.visit(turn)
            },
            Inbound::Failed => Self::finish(turn, Outcome::Ended),
            Inbound::Ended => Self::finish(turn, Outcome::Ended),
            Inbound::Frame(Frame::Session(FrameSessionEvent::Ping(flags, code))) => {
                self.on_ping_at(flags, code, now);
                turn.phase = Phase::Inbound;
                SessionAction::PollInbound
            },
            Inbound::Frame(Frame::Session(FrameSessionEvent::GoAway(_))) => Self::finish(
                turn,
                Outcome::Ended,
            ),
            Inbound::Frame(Frame::Stream(stream_id, event)) => self.on_stream(
                turn,
                stream_id,
                event,
            ),
        }
    }

    /// Takes what the channel of the visited stream's user answered.
    fn on_pulled(&mut self, turn: &mut PollTurn, pulled: Pulled) -> (r: SessionAction)
        requires
            coherent(old(self)@, old(turn)@),
            old(turn)@.phase is Pulling,
            event_fits(old(self)@, EventModel::Pulled(pulled@)),
        ensures
            (Step { session: final(self)@, turn: final(turn)@, action: r@ }) == pulled_step(
                old(self)@,
                old(turn)@,
                pulled@,
            ),
            coherent(final(self)@, final(turn)@),
    {
        let ghost before = self@;
        let id: u32 = turn.visiting[turn.visiting.len() - 1];
        assert(turn@.visiting.last() == id);
        if let Some(head) = self.take_head(id) {
            let mut head = head;
            let poll = head.on_pulled(pulled);
            self.put_head(id, head);
            assert(before.streams.remove(id).insert(id, head@) =~= before.streams.insert(id, head@));
            match poll {
                HeadPoll::Emit(event) => {
                    self.enqueue(Frame::Stream(StreamID(id), event));
                },
                _ => {
                    assert(self@.streams =~= before.streams);
                    turn.visiting.pop();
                },
            }
        }
        self.visit(turn)
    }

    /// Starts a turn. The turn goes on with [`YamuxSession::step`] until the action is
    /// [`SessionAction::Finish`]; the session is not used otherwise meanwhile.
    pub fn begin(&mut self) -> (r: (PollTurn, SessionAction))
        ensures
            (Step { session: final(self)@, turn: r.0@, action: r.1@ }) == first_step(old(self)@),
            coherent(final(self)@, r.0@),
    {
        let mut turn = PollTurn {
            phase: Phase::Tick,
            tick: SessionTickEvent::Idle,
            sent: false,
            visiting: Vec::new(),
            closed: Vec::new(),
        };
        if self.keep_alive {
            return (turn, SessionAction::PollTick);
        }
        let action = self.send_first(&mut turn);
        (turn, action)
    }

    /// Whether the event answers what the turn asked for, and keeps within the machine.
    pub fn fits(&self, turn: &PollTurn, event: &SessionEvent) -> (r: bool)
        ensures
            r == (expected(turn@.phase, event@) && event_fits(self@, event@)),
    {
        match (turn.phase, event) {
            (Phase::Tick, SessionEvent::Tick(tick)) => match tick {
                TickPoll::Elapsed => self.rtt.has_nonce(),
                _ => true,
            },
            (Phase::ReadyFirst, SessionEvent::Ready(_)) => true,
            (Phase::ReadySecond, SessionEvent::Ready(_)) => true,
            (Phase::SentFirst, SessionEvent::Sent(_)) => true,
            (Phase::SentSecond, SessionEvent::Sent(_)) => true,
            (Phase::Closing, SessionEvent::Closed(_)) => true,
            (Phase::Inbound, SessionEvent::Inbound(inbound)) => match inbound {
                Inbound::Frame(Frame::Stream(stream_id, event)) => match self.streams.get(
                    &stream_id.0,
                ) {
                    Some(head) => head.accepts(event),
                    None => true,
                },
                _ => true,
            },
            (Phase::Delivering, SessionEvent::Delivered) => true,
            (Phase::Pulling, SessionEvent::Pulled(pulled)) => match pulled {
                Pulled::Chunk(chunk) => chunk.len() <= DEFAULT_CHUNK_CAPACITY,
                _ => true,
            },
            (Phase::Releasing, SessionEvent::Released) => true,
            (Phase::Flushing, SessionEvent::Flushed(_)) => true,
            _ => false,
        }
    }

    /// Goes on with a turn at time `now`, in nanoseconds since the session was made: takes what
    /// came of the last action and says what to do next. When the transport has no frame, the
    /// streams are visited in some order.
    #[verifier::rlimit(40)]
    pub fn step_at(&mut self, turn: &mut PollTurn, event: SessionEvent, now: u128) -> (r:
        SessionAction)
        requires
            coherent(old(self)@, old(turn)@),
            expected(old(turn)@.phase, event@),
            event_fits(old(self)@, event@),
        ensures
            exists|walk: Seq<u32>| #[trigger]
                walk_fits(walk, old(self)@, event@) && (Step {
                    session: final(self)@,
                    turn: final(turn)@,
                    action: r@,
                }) == turn_step(old(self)@, old(turn)@, event@, now as nat, walk),
            coherent(final(self)@, final(turn)@),
    {
        assert(event@ != EventModel::Inbound(InboundModel::Pending) ==> walk_fits(
            seq![],
            old(self)@,
            event@,
        ));
        match event {
            SessionEvent::Tick(tick) => self.on_tick(turn, tick, now),
            SessionEvent::Ready(ready) => match turn.phase {
                Phase::ReadyFirst => if ready {
                    self.send_front(turn, Phase::SentFirst)
                } else {
                    self.after_first_send(turn)
                },
                _ => if ready {
                    self.send_front(turn, Phase::SentSecond)
                } else {
                    self.after_second_send(turn)
                },
            },
            SessionEvent::Sent(sent) => {
                if !sent {
                    return Self::finish(turn, Outcome::Ended);
                }
                turn.sent = true;
                match turn.phase {
                    Phase::SentFirst => self.send_first(turn),
                    _ => self.send_second(turn),
                }
            },
            SessionEvent::Closed(closed) => Self::finish(
                turn,
                if closed {
                    Outcome::Ended
                } else {
                    Outcome::Pending
                },
            ),
            SessionEvent::Inbound(inbound) => self.on_inbound(turn, inbound, now),
            SessionEvent::Delivered => {
                turn.phase = Phase::Inbound;
                SessionAction::PollInbound
            },
            SessionEvent::Pulled(pulled) => self.on_pulled(turn, pulled),
            SessionEvent::Released => self.release(turn),
            SessionEvent::Flushed(failed) => if failed {
                Self::finish(turn, Outcome::Ended)
            } else {
                self.conclude(turn)
            },
        }
    }

    /// Goes on with a turn now, by a reading of the clock: takes what came of the last action and
    /// says what to do next. When the transport has no frame, the streams are visited in some
    /// order.
    pub fn step(&mut self, turn: &mut PollTurn, event: SessionEvent) -> (r: SessionAction)
        requires
            coherent(old(self)@, old(turn)@),
            expected(old(turn)@.phase, event@),
            event_fits(old(self)@, event@),
        ensures
            exists|now: u128, walk: Seq<u32>| #[trigger]
                rtt::clock_shows(old(self)@.rtt.origin, now) && #[trigger] walk_fits(
                    walk,
                    old(self)@,
                    event@,
                ) && (Step { session: final(self)@, turn: final(turn)@, action: r@ }) == turn_step(
                    old(self)@,
                    old(turn)@,
                    event@,
                    now as nat,
                    walk,
                ),
            coherent(final(self)@, final(turn)@),
    {
        let now: u128 = self.rtt.now();
        self.step_at(turn, event, now)
    }
}

} // verus!
