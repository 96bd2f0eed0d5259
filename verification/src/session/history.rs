//! What holds over the life of a session, whatever the peer, the users of its streams and the
//! transport do.

use std::time::Instant;

use vstd::prelude::*;

use crate::frame;
use crate::frame::{FrameModel, FrameSessionEvent, FrameWriterError, StreamEventModel};
use crate::packet::{Flags, ParserError, StreamID};
use crate::session;
use crate::session::{
    ActionModel, EventModel, InboundModel, OutcomeModel, Phase, SessionModel, SessionTickEvent,
    Step, TickPoll, TurnModel, YamuxSessionConfig,
};
use crate::stream;
use crate::stream::PulledModel;
use crate::wire;

verus! {

/// A session and its turn.
pub struct SessionState {
    pub session: SessionModel,
    pub turn: TurnModel,
}

/// One use of a session.
pub enum SessionOp {
    /// A stream is opened here.
    Open,
    /// The session is told to close.
    Close(u32),
    /// A ping frame with these flags and this code is handed in at this time.
    Ping(Flags, u32, nat),
    /// A turn starts.
    Begin,
    /// A turn goes on after this event, at this time; a visit goes in this order.
    Event(EventModel, nat, Seq<u32>),
}

/// The state of a new session, before its first turn.
pub open spec fn initial(
    is_server: bool,
    cfg: YamuxSessionConfig,
    origin: Instant,
) -> SessionState {
    SessionState {
        session: session::new_session(is_server, cfg, origin),
        turn: TurnModel {
            phase: Phase::Finished,
            tick: SessionTickEvent::Idle,
            sent: false,
            visiting: seq![],
            closed: seq![],
        },
    }
}

/// When a use is in order: a turn is brought to its end before anything else is done.
pub open spec fn allowed(state: SessionState, op: SessionOp) -> bool {
    match op {
        SessionOp::Event(event, now, walk) => {
            &&& session::coherent(state.session, state.turn)
            &&& session::expected(state.turn.phase, event)
            &&& session::event_fits(state.session, event)
            &&& session::walk_fits(walk, state.session, event)
        },
        _ => state.turn.phase is Finished,
    }
}

/// The step of a use, where it is one of a turn.
pub open spec fn step_of(state: SessionState, op: SessionOp) -> Option<Step> {
    match op {
        SessionOp::Begin => Some(session::first_step(state.session)),
        SessionOp::Event(event, now, walk) => Some(
            session::turn_step(state.session, state.turn, event, now, walk),
        ),
        _ => None,
    }
}

/// The state after a use.
pub open spec fn after(state: SessionState, op: SessionOp) -> SessionState {
    match op {
        SessionOp::Open => SessionState { session: session::opened(state.session), ..state },
        SessionOp::Close(code) => SessionState {
            session: session::closing(state.session, code),
            ..state
        },
        SessionOp::Ping(flags, code, now) => SessionState {
            session: session::pinged(state.session, flags, code, now),
            ..state
        },
        _ => SessionState {
            session: step_of(state, op)->0.session,
            turn: step_of(state, op)->0.turn,
        },
    }
}

/// The frames that a use hands to the transport.
pub open spec fn sent_by(state: SessionState, op: SessionOp) -> Seq<FrameModel> {
    match step_of(state, op) {
        Some(Step { session: _, turn: _, action: ActionModel::Send(frame) }) => seq![frame],
        _ => seq![],
    }
}

/// Every use of a run is in order.
pub open spec fn run_allowed(state: SessionState, ops: Seq<SessionOp>) -> bool
    decreases ops.len(),
{
    ops.len() > 0 ==> allowed(state, ops[0]) && run_allowed(after(state, ops[0]), ops.drop_first())
}

/// The state after a run.
pub open spec fn after_all(state: SessionState, ops: Seq<SessionOp>) -> SessionState
    decreases ops.len(),
{
    if ops.len() == 0 {
        state
    } else {
        after_all(after(state, ops[0]), ops.drop_first())
    }
}

/// The frames that a run hands to the transport.
pub open spec fn sent_over(state: SessionState, ops: Seq<SessionOp>) -> Seq<FrameModel>
    decreases ops.len(),
{
    if ops.len() == 0 {
        seq![]
    } else {
        sent_by(state, ops[0]) + sent_over(after(state, ops[0]), ops.drop_first())
    }
}

// === Order of frames ===

/// A step sends nothing and queues behind what is queued.
pub open spec fn queues_behind(session: SessionModel, step: Step) -> bool {
    &&& session.out_queue.is_prefix_of(step.session.out_queue)
    &&& step.action !is Send
}

/// A visit queues behind what is queued.
pub proof fn lemma_visit_queues_behind(session: SessionModel, turn: TurnModel)
    ensures
        queues_behind(session, session::visit(session, turn)),
    decreases turn.visiting.len(),
{
    if turn.visiting.len() > 0 {
        let id = turn.visiting.last();
        let rest = turn.visiting.drop_last();
        if stream::is_closed(session.streams[id]) {
            lemma_visit_queues_behind(
                session,
                TurnModel { visiting: rest, closed: turn.closed.push(id), ..turn },
            );
        } else {
            let next = session::drained(session, id);
            if !stream::can_pull(next.streams[id]) {
                lemma_visit_queues_behind(next, TurnModel { visiting: rest, ..turn });
            }
        }
    }
}

/// An answer of the interval queues behind what is queued.
proof fn lemma_tick_queues_behind(
    session: SessionModel,
    turn: TurnModel,
    tick: TickPoll,
    now: nat,
)
    ensures
        queues_behind(session, session::tick_step(session, turn, tick, now)),
{
}

/// An answer of the transport queues behind what is queued.
proof fn lemma_inbound_queues_behind(
    session: SessionModel,
    turn: TurnModel,
    inbound: InboundModel,
    now: nat,
    walk: Seq<u32>,
)
    ensures
        queues_behind(session, session::inbound_step(session, turn, inbound, now, walk)),
{
    if inbound is Pending {
        lemma_visit_queues_behind(
            session,
            TurnModel { visiting: walk, closed: seq![], ..turn },
        );
    }
}

/// An answer of a user's channel queues behind what is queued.
proof fn lemma_pulled_queues_behind(
    session: SessionModel,
    turn: TurnModel,
    pulled: PulledModel,
)
    ensures
        queues_behind(session, session::pulled_step(session, turn, pulled)),
{
    let id = turn.visiting.last();
    let rest = turn.visiting.drop_last();
    let (poll, head) = stream::pulled_step(session.streams[id], pulled);
    match poll {
        stream::HeadPollModel::Emit(event) => {
            let next = SessionModel {
                streams: session.streams.insert(id, head),
                ..session::queued(session, FrameModel::Stream(StreamID(id), event))
            };
            lemma_visit_queues_behind(next, turn);
        },
        _ => {
            lemma_visit_queues_behind(session, TurnModel { visiting: rest, ..turn });
        },
    }
}

/// A use takes a frame off the front of the queue, or puts frames behind it.
#[verifier::rlimit(40)]
proof fn lemma_queue_after(state: SessionState, op: SessionOp)
    requires
        allowed(state, op),
    ensures
        state.session.out_queue.is_prefix_of(
            sent_by(state, op) + after(state, op).session.out_queue,
        ),
{
    let queue = state.session.out_queue;
    let next = after(state, op).session.out_queue;
    match op {
        SessionOp::Event(EventModel::Tick(tick), now, walk) => {
            lemma_tick_queues_behind(state.session, state.turn, tick, now);
        },
        SessionOp::Event(EventModel::Inbound(inbound), now, walk) => {
            lemma_inbound_queues_behind(state.session, state.turn, inbound, now, walk);
        },
        SessionOp::Event(EventModel::Pulled(pulled), now, walk) => {
            lemma_pulled_queues_behind(state.session, state.turn, pulled);
        },
        _ => {},
    }
    if sent_by(state, op).len() > 0 {
        assert(sent_by(state, op) + next =~= queue);
    } else {
        assert(sent_by(state, op) + next =~= next);
    }
}

/// Frames leave in the order in which they were queued, and none is lost: over any run, what was
/// queued at its start is what is sent first of what is sent and still queued at its end.
#[verifier::rlimit(40)]
pub proof fn law_queue_is_first_in_first_out(state: SessionState, ops: Seq<SessionOp>)
    requires
        run_allowed(state, ops),
    ensures
        state.session.out_queue.is_prefix_of(
            sent_over(state, ops) + after_all(state, ops).session.out_queue,
        ),
    decreases ops.len(),
{
    if ops.len() > 0 {
        let next = after(state, ops[0]);
        let sent = sent_by(state, ops[0]);
        let later = sent_over(next, ops.drop_first());
        let left = after_all(state, ops).session.out_queue;
        lemma_queue_after(state, ops[0]);
        law_queue_is_first_in_first_out(next, ops.drop_first());
        assert(sent_over(state, ops) + left =~= sent + (later + left));
    } else {
        let queue = state.session.out_queue;
        assert(sent_over(state, ops) + queue =~= queue);
    }
}

// === Whole payloads ===

/// A writer in the middle of `pending` takes `frames`, and is then in the middle of nothing.
pub open spec fn completes(pending: Option<(StreamID, nat)>, frames: Seq<FrameModel>) -> bool {
    wire::write_all(pending, frames) == Ok::<Option<(StreamID, nat)>, FrameWriterError>(None)
}

/// Only window updates.
pub open spec fn only_updates(events: Seq<StreamEventModel>) -> bool {
    forall|i: int| 0 <= i < events.len() ==> #[trigger] events[i] is WindowUpdate
}

/// No stream holds back a part of a payload.
pub open spec fn no_half_payload(session: SessionModel) -> bool {
    forall|id: u32|
        session.streams.contains_key(id) ==> only_updates((#[trigger] session.streams[id]).outs)
}

/// A frame that neither announces a payload nor carries one.
pub open spec fn plain(frame: FrameModel) -> bool {
    match frame {
        FrameModel::Session(_) => true,
        FrameModel::Stream(_, event) => event is WindowUpdate,
    }
}

/// A plain frame behind whole payloads.
proof fn lemma_push_plain(
    pending: Option<(StreamID, nat)>,
    frames: Seq<FrameModel>,
    frame: FrameModel,
)
    requires
        completes(pending, frames),
        plain(frame),
    ensures
        completes(pending, frames.push(frame)),
{
    wire::lemma_write_all_append(pending, frames, seq![frame]);
    assert(frames + seq![frame] =~= frames.push(frame));
    reveal_with_fuel(wire::write_all, 2);
}

/// Window updates behind whole payloads.
proof fn lemma_append_updates(
    pending: Option<(StreamID, nat)>,
    frames: Seq<FrameModel>,
    id: u32,
    events: Seq<StreamEventModel>,
)
    requires
        completes(pending, frames),
        only_updates(events),
    ensures
        completes(pending, frames + session::stream_frames(id, events)),
    decreases events.len(),
{
    let added = session::stream_frames(id, events);
    if events.len() == 0 {
        assert(frames + added =~= frames);
    } else {
        lemma_append_updates(pending, frames, id, events.drop_last());
        let before = frames + session::stream_frames(id, events.drop_last());
        lemma_push_plain(pending, before, FrameModel::Stream(StreamID(id), events.last()));
        assert(frames + added =~= before.push(FrameModel::Stream(StreamID(id), events.last())));
    }
}

/// A visit queues whole payloads only.
proof fn lemma_visit_completes(
    pending: Option<(StreamID, nat)>,
    session: SessionModel,
    turn: TurnModel,
)
    requires
        session::visits_known(session, turn),
        no_half_payload(session),
        completes(pending, session.out_queue),
    ensures
        ({
            let step = session::visit(session, turn);
            no_half_payload(step.session) && completes(pending, step.session.out_queue)
        }),
    decreases turn.visiting.len(),
{
    if turn.visiting.len() == 0 {
        if turn.closed.len() == 0 {
            let queue = session.out_queue;
            lemma_push_plain(
                pending,
                queue,
                FrameModel::Session(FrameSessionEvent::GoAway(0)),
            );
        }
    } else {
        let id = turn.visiting.last();
        let rest = turn.visiting.drop_last();
        assert(session.streams.contains_key(id));
        if stream::is_closed(session.streams[id]) {
            lemma_visit_completes(
                pending,
                session,
                TurnModel { visiting: rest, closed: turn.closed.push(id), ..turn },
            );
        } else {
            let next = session::drained(session, id);
            lemma_append_updates(
                pending,
                session.out_queue,
                id,
                session.streams[id].outs,
            );
            if !stream::can_pull(next.streams[id]) {
                lemma_visit_completes(pending, next, TurnModel { visiting: rest, ..turn });
            }
        }
    }
}

/// A chunk of a user is queued behind its header.
proof fn lemma_append_data(
    pending: Option<(StreamID, nat)>,
    frames: Seq<FrameModel>,
    id: u32,
    bytes: Seq<u8>,
)
    requires
        completes(pending, frames),
        bytes.len() <= u32::MAX,
    ensures
        completes(pending, frames + session::stream_frames(id, stream::data_events(bytes))),
{
    let added = session::stream_frames(id, stream::data_events(bytes));
    wire::lemma_write_all_append(pending, frames, added);
    reveal_with_fuel(wire::write_all, 3);
    assert(added.drop_first().drop_first() =~= seq![]);
}

/// An answer of a user's channel queues whole payloads only.
proof fn lemma_pulled_completes(
    pending: Option<(StreamID, nat)>,
    session: SessionModel,
    turn: TurnModel,
    pulled: PulledModel,
)
    requires
        session::coherent(session, turn),
        turn.phase is Pulling,
        session::event_fits(session, EventModel::Pulled(pulled)),
        no_half_payload(session),
        completes(pending, session.out_queue),
    ensures
        ({
            let step = session::pulled_step(session, turn, pulled);
            no_half_payload(step.session) && completes(pending, step.session.out_queue)
        }),
{
    let id = turn.visiting.last();
    let rest = turn.visiting.drop_last();
    let (poll, head) = stream::pulled_step(session.streams[id], pulled);
    match pulled {
        PulledModel::Chunk(bytes) => {
            let events = stream::data_events(bytes);
            let between = SessionModel {
                streams: session.streams.insert(id, head),
                ..session::queued(session, FrameModel::Stream(StreamID(id), events[0]))
            };
            let next = session::drained(between, id);
            lemma_append_data(pending, session.out_queue, id, bytes);
            assert(next.out_queue =~= session.out_queue + session::stream_frames(id, events));
            assert(no_half_payload(next));
            if !stream::can_pull(next.streams[id]) {
                lemma_visit_completes(pending, next, TurnModel { visiting: rest, ..turn });
            }
        },
        PulledModel::Ended => {
            let fin = FrameModel::Stream(
                StreamID(id),
                StreamEventModel::WindowUpdate(stream::fin_flags(), 0),
            );
            let between = SessionModel {
                streams: session.streams.insert(id, head),
                ..session::queued(session, fin)
            };
            lemma_push_plain(pending, session.out_queue, fin);
            lemma_visit_completes(pending, between, turn);
        },
        PulledModel::Pending => {
            lemma_visit_completes(pending, session, TurnModel { visiting: rest, ..turn });
        },
    }
}

/// An answer of the transport queues whole payloads only.
proof fn lemma_inbound_completes(
    pending: Option<(StreamID, nat)>,
    session: SessionModel,
    turn: TurnModel,
    inbound: InboundModel,
    now: nat,
    walk: Seq<u32>,
)
    requires
        session::walk_fits(walk, session, EventModel::Inbound(inbound)),
        no_half_payload(session),
        completes(pending, session.out_queue),
    ensures
        ({
            let step = session::inbound_step(session, turn, inbound, now, walk);
            no_half_payload(step.session) && completes(pending, step.session.out_queue)
        }),
{
    match inbound {
        InboundModel::Pending => {
            assert forall|i: int| 0 <= i < walk.len() implies session.streams.contains_key(
                #[trigger] walk[i],
            ) by {
                assert(walk.contains(walk[i]));
            }
            lemma_visit_completes(
                pending,
                session,
                TurnModel { visiting: walk, closed: seq![], ..turn },
            );
        },
        InboundModel::Frame(FrameModel::Session(FrameSessionEvent::Ping(flags, code))) => {
            lemma_push_plain(
                pending,
                session.out_queue,
                FrameModel::Session(FrameSessionEvent::Ping(stream::ack_flags(), code)),
            );
        },
        InboundModel::Frame(FrameModel::Stream(stream_id, event)) => {
            let id = stream_id.0;
            if session.streams.contains_key(id) {
                assert(only_updates(session.streams[id].outs));
                assert(only_updates(stream::input_step(session.streams[id], event).head.outs));
            } else {
                assert(only_updates(stream::accepted_head().outs));
                assert(only_updates(stream::input_step(stream::accepted_head(), event).head.outs));
            }
        },
        _ => {},
    }
}

/// A use queues whole payloads only, and sends frames that a writer takes.
#[verifier::rlimit(40)]
pub proof fn lemma_completes_after(
    pending: Option<(StreamID, nat)>,
    state: SessionState,
    op: SessionOp,
) -> (next: Option<(StreamID, nat)>)
    requires
        allowed(state, op),
        no_half_payload(state.session),
        completes(pending, state.session.out_queue),
    ensures
        no_half_payload(after(state, op).session),
        wire::write_all(pending, sent_by(state, op)) == Ok::<
            Option<(StreamID, nat)>,
            FrameWriterError,
        >(next),
        completes(next, after(state, op).session.out_queue),
{
    let session = state.session;
    let queue = session.out_queue;
    match op {
        SessionOp::Open => {
            assert(only_updates(stream::opened_head().outs));
            pending
        },
        SessionOp::Close(code) => {
            lemma_push_plain(
                pending,
                queue,
                FrameModel::Session(FrameSessionEvent::GoAway(code)),
            );
            pending
        },
        SessionOp::Ping(flags, code, now) => {
            lemma_push_plain(
                pending,
                queue,
                FrameModel::Session(FrameSessionEvent::Ping(stream::ack_flags(), code)),
            );
            pending
        },
        SessionOp::Begin => pending,
        SessionOp::Event(EventModel::Tick(tick), now, walk) => {
            lemma_tick_completes(pending, session, state.turn, tick, now);
            pending
        },
        SessionOp::Event(EventModel::Inbound(inbound), now, walk) => {
            lemma_inbound_queues_behind(session, state.turn, inbound, now, walk);
            lemma_inbound_completes(pending, session, state.turn, inbound, now, walk);
            pending
        },
        SessionOp::Event(EventModel::Pulled(pulled), now, walk) => {
            lemma_pulled_queues_behind(session, state.turn, pulled);
            lemma_pulled_completes(pending, session, state.turn, pulled);
            pending
        },
        SessionOp::Event(EventModel::Ready(true), now, walk) => {
            reveal_with_fuel(wire::write_all, 2);
            assert(sent_by(state, op) =~= seq![queue[0]]);
            assert(sent_by(state, op).drop_first() =~= seq![]);
            frame::write_step(pending, queue[0])->Ok_0
        },
        _ => {
            lemma_push_plain(
                pending,
                queue,
                FrameModel::Session(FrameSessionEvent::GoAway(0)),
            );
            pending
        },
    }
}

/// An answer of the interval queues whole payloads only.
proof fn lemma_tick_completes(
    pending: Option<(StreamID, nat)>,
    session: SessionModel,
    turn: TurnModel,
    tick: TickPoll,
    now: nat,
)
    requires
        no_half_payload(session),
        completes(pending, session.out_queue),
    ensures
        ({
            let step = session::tick_step(session, turn, tick, now);
            &&& no_half_payload(step.session)
            &&& completes(pending, step.session.out_queue)
            &&& step.action !is Send
        }),
{
    let nonce = (session.rtt.ping_seq + 1) as u32;
    lemma_push_plain(
        pending,
        session.out_queue,
        FrameModel::Session(FrameSessionEvent::Ping(stream::syn_flags(), nonce)),
    );
}

/// Over any run, the frames sent and those still queued make up whole payloads.
#[verifier::rlimit(40)]
proof fn lemma_run_completes(
    pending: Option<(StreamID, nat)>,
    state: SessionState,
    ops: Seq<SessionOp>,
)
    requires
        run_allowed(state, ops),
        no_half_payload(state.session),
        completes(pending, state.session.out_queue),
    ensures
        completes(pending, sent_over(state, ops) + after_all(state, ops).session.out_queue),
    decreases ops.len(),
{
    let left = after_all(state, ops).session.out_queue;
    if ops.len() > 0 {
        let sent = sent_by(state, ops[0]);
        let later = sent_over(after(state, ops[0]), ops.drop_first());
        let next = lemma_completes_after(pending, state, ops[0]);
        lemma_run_completes(next, after(state, ops[0]), ops.drop_first());
        wire::lemma_write_all_append(pending, sent, later + left);
        assert(sent_over(state, ops) + left =~= sent + (later + left));
    } else {
        assert(sent_over(state, ops) + left =~= left);
    }
}

/// Whatever happens in a session, each data header that it sends is followed at once by the
/// chunk that it announces, with no other frame between: a writer takes all frames in the order
/// in which they are sent, and once the queue is sent every payload is whole.
pub proof fn law_sent_frames_form_whole_payloads(
    is_server: bool,
    cfg: YamuxSessionConfig,
    origin: Instant,
    ops: Seq<SessionOp>,
)
    requires
        run_allowed(initial(is_server, cfg, origin), ops),
    ensures
        ({
            let sent = sent_over(initial(is_server, cfg, origin), ops);
            let queued = after_all(initial(is_server, cfg, origin), ops).session.out_queue;
            &&& wire::write_all(None, sent) is Ok
            &&& wire::write_all(None, sent + queued) == Ok::<
                Option<(StreamID, nat)>,
                FrameWriterError,
            >(None)
        }),
{
    let state = initial(is_server, cfg, origin);
    lemma_run_completes(None, state, ops);
    wire::lemma_write_all_append(
        None,
        sent_over(state, ops),
        after_all(state, ops).session.out_queue,
    );
}

/// What a session sent is what its peer reads: once the queue is sent, and the bytes reached the
/// peer cut into any pieces, the peer reads the same announcements and the same payload bytes, in
/// the same order, until it asks for more data.
pub proof fn law_peer_reads_what_was_sent(
    is_server: bool,
    cfg: YamuxSessionConfig,
    origin: Instant,
    ops: Seq<SessionOp>,
    pieces: Seq<Seq<u8>>,
    read: Seq<Result<Option<FrameModel>, ParserError>>,
    pending_after: Option<(StreamID, nat)>,
    pieces_after: Seq<Seq<u8>>,
)
    requires
        run_allowed(initial(is_server, cfg, origin), ops),
        after_all(initial(is_server, cfg, origin), ops).session.out_queue.len() == 0,
        pieces.flatten() == wire::bytes_of_all(sent_over(initial(is_server, cfg, origin), ops)),
        wire::reads(None, pieces, read, pending_after, pieces_after),
        frame::read_step(pending_after, pieces_after).item == Ok::<
            Option<FrameModel>,
            ParserError,
        >(None),
    ensures
        wire::items_of_reads(read) == wire::items_of_all(
            sent_over(initial(is_server, cfg, origin), ops),
        ),
{
    let sent = sent_over(initial(is_server, cfg, origin), ops);
    let queued = after_all(initial(is_server, cfg, origin), ops).session.out_queue;
    law_sent_frames_form_whole_payloads(is_server, cfg, origin, ops);
    assert(sent + queued =~= sent);
    wire::law_read_gives_back_what_was_written(
        sent,
        pieces,
        read,
        pending_after,
        pieces_after,
    );
}

// === Stream identifiers ===

/// A turn opens no stream under an identifier of this side.
proof fn lemma_visit_keeps_identity(session: SessionModel, turn: TurnModel)
    ensures
        ({
            let next = session::visit(session, turn).session;
            &&& next.next_stream_id == session.next_stream_id
            &&& session.manual_close ==> next.manual_close
            &&& next.keep_alive == session.keep_alive
        }),
    decreases turn.visiting.len(),
{
    if turn.visiting.len() > 0 {
        let id = turn.visiting.last();
        let rest = turn.visiting.drop_last();
        if stream::is_closed(session.streams[id]) {
            lemma_visit_keeps_identity(
                session,
                TurnModel { visiting: rest, closed: turn.closed.push(id), ..turn },
            );
        } else {
            let next = session::drained(session, id);
            if !stream::can_pull(next.streams[id]) {
                lemma_visit_keeps_identity(next, TurnModel { visiting: rest, ..turn });
            }
        }
    }
}

/// A use changes the next identifier only by opening a stream, and never takes back that the
/// session is to close.
pub proof fn lemma_after_keeps_identity(state: SessionState, op: SessionOp)
    ensures
        after(state, op).session.next_stream_id == (if op is Open {
            session::next_id(state.session.next_stream_id)
        } else {
            state.session.next_stream_id
        }),
        state.session.manual_close ==> after(state, op).session.manual_close,
{
    let session = state.session;
    let turn = state.turn;
    match op {
        SessionOp::Event(EventModel::Inbound(InboundModel::Pending), now, walk) => {
            lemma_visit_keeps_identity(
                session,
                TurnModel { visiting: walk, closed: seq![], ..turn },
            );
        },
        SessionOp::Event(EventModel::Pulled(pulled), now, walk) => {
            let id = turn.visiting.last();
            let rest = turn.visiting.drop_last();
            let (poll, head) = stream::pulled_step(session.streams[id], pulled);
            if let stream::HeadPollModel::Emit(event) = poll {
                lemma_visit_keeps_identity(
                    SessionModel {
                        streams: session.streams.insert(id, head),
                        ..session::queued(session, FrameModel::Stream(StreamID(id), event))
                    },
                    turn,
                );
            }
            lemma_visit_keeps_identity(session, TurnModel { visiting: rest, ..turn });
        },
        _ => {},
    }
}

/// Streams opened over a run.
pub open spec fn opens(ops: Seq<SessionOp>) -> nat
    decreases ops.len(),
{
    if ops.len() == 0 {
        0
    } else {
        (if ops[0] is Open {
            1nat
        } else {
            0nat
        }) + opens(ops.drop_first())
    }
}

/// The next identifier keeps its parity over any run, and grows by 2 with each stream opened
/// until it wraps around.
proof fn lemma_next_id_over_run(state: SessionState, ops: Seq<SessionOp>)
    ensures
        ({
            let start = state.session.next_stream_id;
            let next = after_all(state, ops).session.next_stream_id;
            &&& next % 2 == start % 2
            &&& start != 0 ==> next != 0
            &&& start + 2 * opens(ops) <= u32::MAX ==> next == start + 2 * opens(ops)
        }),
    decreases ops.len(),
{
    if ops.len() > 0 {
        lemma_after_keeps_identity(state, ops[0]);
        lemma_next_id_over_run(after(state, ops[0]), ops.drop_first());
    }
}

/// The k-th stream that a side opens, counted from 0, has the identifier `2 * k + 1` on a client and
/// `2 * k + 2` on a server, whatever else happened, until the identifiers run out.
pub proof fn law_stream_ids_count_up(
    is_server: bool,
    cfg: YamuxSessionConfig,
    origin: Instant,
    ops: Seq<SessionOp>,
)
    requires
        opens(ops) < 0x7fff_ffff,
    ensures
        after_all(initial(is_server, cfg, origin), ops).session.next_stream_id == 2 * opens(ops)
            + (if is_server {
            2int
        } else {
            1int
        }),
{
    lemma_next_id_over_run(initial(is_server, cfg, origin), ops);
}

/// A client opens odd streams and a server even ones, never stream 0, whatever happened before.
pub proof fn law_stream_ids_tell_the_side(
    is_server: bool,
    cfg: YamuxSessionConfig,
    origin: Instant,
    ops: Seq<SessionOp>,
)
    ensures
        ({
            let id = after_all(initial(is_server, cfg, origin), ops).session.next_stream_id;
            &&& id % 2 == (if is_server {
                0int
            } else {
                1int
            })
            &&& id != 0
        }),
{
    lemma_next_id_over_run(initial(is_server, cfg, origin), ops);
}

/// Two streams that are opened on the same side get different identifiers, as long as the
/// identifiers of a side do not run out.
pub proof fn law_opened_streams_are_distinct(
    is_server: bool,
    cfg: YamuxSessionConfig,
    origin: Instant,
    before: Seq<SessionOp>,
    between: Seq<SessionOp>,
)
    requires
        opens(before) + opens(between) < 0x7fff_fffe,
    ensures
        ({
            let first = after_all(initial(is_server, cfg, origin), before);
            let second = after_all(after(first, SessionOp::Open), between);
            first.session.next_stream_id < second.session.next_stream_id
        }),
{
    let start = initial(is_server, cfg, origin);
    let first = after_all(start, before);
    lemma_next_id_over_run(start, before);
    lemma_next_id_over_run(after(first, SessionOp::Open), between);
}

// === Closing ===

/// The phases that a turn of a session that is to close goes through.
pub open spec fn closing_phase(phase: Phase) -> bool {
    ||| phase is Tick
    ||| phase is ReadyFirst
    ||| phase is SentFirst
    ||| phase is Closing
    ||| phase is Finished
}

/// A use of a session that is to close.
proof fn lemma_after_closing(state: SessionState, op: SessionOp)
    requires
        allowed(state, op),
        state.session.manual_close,
        closing_phase(state.turn.phase),
    ensures
        after(state, op).session.manual_close,
        closing_phase(after(state, op).turn.phase),
        step_of(state, op) matches Some(step) ==> step.action !is PollInbound && step.action
            !is Pull && step.action !is Deliver,
{
}

/// Once a session was told to close, it never reads again and takes no more data of its users:
/// it only sends what is queued and closes the transport.
pub proof fn law_closing_session_reads_nothing(
    state: SessionState,
    code: u32,
    ops: Seq<SessionOp>,
    op: SessionOp,
)
    requires
        allowed(state, SessionOp::Close(code)),
        run_allowed(after(state, SessionOp::Close(code)), ops),
        allowed(after_all(after(state, SessionOp::Close(code)), ops), op),
    ensures
        step_of(after_all(after(state, SessionOp::Close(code)), ops), op) matches Some(step) ==> {
            &&& step.action !is PollInbound
            &&& step.action !is Pull
            &&& step.action !is Deliver
        },
{
    lemma_closing_over_run(after(state, SessionOp::Close(code)), ops);
    lemma_after_closing(after_all(after(state, SessionOp::Close(code)), ops), op);
}

/// A session that is to close stays so over any run.
proof fn lemma_closing_over_run(state: SessionState, ops: Seq<SessionOp>)
    requires
        run_allowed(state, ops),
        state.session.manual_close,
        closing_phase(state.turn.phase),
    ensures
        after_all(state, ops).session.manual_close,
        closing_phase(after_all(state, ops).turn.phase),
    decreases ops.len(),
{
    if ops.len() > 0 {
        lemma_after_closing(state, ops[0]);
        lemma_closing_over_run(after(state, ops[0]), ops.drop_first());
    }
}

/// A visit does not close the transport.
proof fn lemma_visit_does_not_close(session: SessionModel, turn: TurnModel)
    ensures
        session::visit(session, turn).action !is PollClose,
    decreases turn.visiting.len(),
{
    if turn.visiting.len() > 0 {
        let id = turn.visiting.last();
        let rest = turn.visiting.drop_last();
        if stream::is_closed(session.streams[id]) {
            lemma_visit_does_not_close(
                session,
                TurnModel { visiting: rest, closed: turn.closed.push(id), ..turn },
            );
        } else {
            let next = session::drained(session, id);
            if !stream::can_pull(next.streams[id]) {
                lemma_visit_does_not_close(next, TurnModel { visiting: rest, ..turn });
            }
        }
    }
}

/// The transport is closed only when nothing is queued, in a session that is to close.
proof fn lemma_closes_when_all_is_sent(state: SessionState, op: SessionOp)
    requires
        step_of(state, op) matches Some(step) && step.action is PollClose,
    ensures
        after(state, op).session.manual_close,
        after(state, op).session.out_queue.len() == 0,
{
    let session = state.session;
    let turn = state.turn;
    match op {
        SessionOp::Event(EventModel::Inbound(InboundModel::Pending), now, walk) => {
            lemma_visit_does_not_close(
                session,
                TurnModel { visiting: walk, closed: seq![], ..turn },
            );
        },
        SessionOp::Event(EventModel::Pulled(pulled), now, walk) => {
            let id = turn.visiting.last();
            let rest = turn.visiting.drop_last();
            let (poll, head) = stream::pulled_step(session.streams[id], pulled);
            if let stream::HeadPollModel::Emit(event) = poll {
                lemma_visit_does_not_close(
                    SessionModel {
                        streams: session.streams.insert(id, head),
                        ..session::queued(session, FrameModel::Stream(StreamID(id), event))
                    },
                    turn,
                );
            }
            lemma_visit_does_not_close(session, TurnModel { visiting: rest, ..turn });
        },
        _ => {},
    }
}

/// Shutdown is graceful: when a session that was told to close closes the transport, all frames
/// that were queued and, behind them, the GoAway were handed to the transport, in this order.
pub proof fn law_close_sends_what_is_queued(
    state: SessionState,
    code: u32,
    ops: Seq<SessionOp>,
    op: SessionOp,
)
    requires
        run_allowed(after(state, SessionOp::Close(code)), ops),
        allowed(after_all(after(state, SessionOp::Close(code)), ops), op),
        step_of(after_all(after(state, SessionOp::Close(code)), ops), op) matches Some(step)
            && step.action is PollClose,
    ensures
        state.session.out_queue.push(
            FrameModel::Session(FrameSessionEvent::GoAway(code)),
        ).is_prefix_of(sent_over(after(state, SessionOp::Close(code)), ops)),
{
    let closing = after(state, SessionOp::Close(code));
    let last = after_all(closing, ops);
    law_queue_is_first_in_first_out(closing, ops);
    lemma_closes_when_all_is_sent(last, op);
    lemma_queue_after(last, op);
    assert(sent_by(last, op) =~= seq![]);
    assert(sent_by(last, op) + after(last, op).session.out_queue =~= seq![]);
    assert(last.session.out_queue =~= seq![]);
    assert(sent_over(closing, ops) + last.session.out_queue =~= sent_over(closing, ops));
}

/// The keep-alive tick gave the session up, and a turn does not end with its peer still waited
/// for: it hands out a stream, the session is over, or the session is to close.
pub open spec fn gives_up(step: Step) -> bool {
    &&& step.turn.tick is Close
    &&& step.action matches ActionModel::Finish(outcome) ==> match outcome {
        OutcomeModel::Pending => step.session.manual_close,
        OutcomeModel::Wake => false,
        OutcomeModel::Ended => true,
        OutcomeModel::Accepted(_, _) => true,
    }
}

/// A visit keeps what the tick asked for.
proof fn lemma_visit_gives_up(session: SessionModel, turn: TurnModel)
    requires
        turn.tick is Close,
    ensures
        gives_up(session::visit(session, turn)),
    decreases turn.visiting.len(),
{
    if turn.visiting.len() > 0 {
        let id = turn.visiting.last();
        let rest = turn.visiting.drop_last();
        if stream::is_closed(session.streams[id]) {
            lemma_visit_gives_up(
                session,
                TurnModel { visiting: rest, closed: turn.closed.push(id), ..turn },
            );
        } else {
            let next = session::drained(session, id);
            if !stream::can_pull(next.streams[id]) {
                lemma_visit_gives_up(next, TurnModel { visiting: rest, ..turn });
            }
        }
    }
}

/// A session whose peer did not answer a ping in time, or whose interval ended, closes itself:
/// from that tick on, the turn ends with the session told to close, unless it ends the session
/// or hands out a stream before.
pub proof fn law_keep_alive_closes(
    state: SessionState,
    event: EventModel,
    now: nat,
    walk: Seq<u32>,
)
    requires
        allowed(state, SessionOp::Event(event, now, walk)),
        match event {
            EventModel::Tick(TickPoll::Ended) => true,
            EventModel::Tick(TickPoll::Elapsed) => session::rtt::next_ping_step(
                state.session.rtt,
                now,
            ).0 == Some(session::rtt::RttEvent::Close),
            EventModel::Tick(TickPoll::Pending) => false,
            _ => state.turn.tick is Close,
        },
    ensures
        gives_up(session::turn_step(state.session, state.turn, event, now, walk)),
{
    let session = state.session;
    let turn = state.turn;
    match event {
        EventModel::Inbound(InboundModel::Pending) => {
            lemma_visit_gives_up(session, TurnModel { visiting: walk, closed: seq![], ..turn });
        },
        EventModel::Pulled(pulled) => {
            let id = turn.visiting.last();
            let rest = turn.visiting.drop_last();
            let (poll, head) = stream::pulled_step(session.streams[id], pulled);
            if let stream::HeadPollModel::Emit(event) = poll {
                lemma_visit_gives_up(
                    SessionModel {
                        streams: session.streams.insert(id, head),
                        ..session::queued(session, FrameModel::Stream(StreamID(id), event))
                    },
                    turn,
                );
            }
            lemma_visit_gives_up(session, TurnModel { visiting: rest, ..turn });
        },
        _ => {},
    }
}

// === Pings ===

/// A ping comes back: the ping of one session, taken by the other, is answered with its nonce,
/// and the answer sets the first session waiting for the next interval.
pub proof fn law_ping_comes_back(
    near: SessionModel,
    far: SessionModel,
    near_turn: TurnModel,
    far_turn: TurnModel,
    sent_at: nat,
    received_at: nat,
    answered_at: nat,
    walk: Seq<u32>,
)
    requires
        session::rtt::next_ping_step(near.rtt, sent_at).0 matches Some(
            session::rtt::RttEvent::KeepAlive(_),
        ),
    ensures
        ({
            let pinging = session::tick_step(near, near_turn, TickPoll::Elapsed, sent_at).session;
            let ping = pinging.out_queue.last();
            let echoing = session::inbound_step(
                far,
                far_turn,
                InboundModel::Frame(ping),
                received_at,
                walk,
            ).session;
            let pong = echoing.out_queue.last();
            let answered = session::inbound_step(
                pinging,
                near_turn,
                InboundModel::Frame(pong),
                answered_at,
                walk,
            ).session;
            &&& pinging.out_queue.drop_last() == near.out_queue
            &&& echoing.out_queue.drop_last() == far.out_queue
            &&& answered.out_queue == pinging.out_queue
            &&& answered.rtt.state == (session::rtt::RttStateModel::Waiting {
                next: answered_at + near.rtt.cfg.interval as nat,
            })
        }),
{
    let pinging = session::tick_step(near, near_turn, TickPoll::Elapsed, sent_at).session;
    let ping = pinging.out_queue.last();
    let echoing = session::inbound_step(
        far,
        far_turn,
        InboundModel::Frame(ping),
        received_at,
        walk,
    ).session;
    assert(pinging.out_queue.drop_last() =~= near.out_queue);
    assert(echoing.out_queue.drop_last() =~= far.out_queue);
}

// === Streams ===

/// A frame for a stream that is not known, and that does not open one, changes nothing.
pub proof fn law_unknown_stream_is_ignored(
    session: SessionModel,
    turn: TurnModel,
    stream_id: StreamID,
    event: StreamEventModel,
)
    requires
        !session.streams.contains_key(stream_id.0),
        frame::event_flags(event) matches Some(flags) ==> !flags.syn,
    ensures
        session::stream_step(session, turn, stream_id, event) == session::ask(
            session,
            turn,
            Phase::Inbound,
            ActionModel::PollInbound,
        ),
{
}

/// A frame that is out of order on its stream changes nothing.
pub proof fn law_out_of_order_frame_is_dropped(
    session: SessionModel,
    turn: TurnModel,
    stream_id: StreamID,
    event: StreamEventModel,
)
    requires
        session.streams.contains_key(stream_id.0),
        stream::input_step(session.streams[stream_id.0], event).result is Err,
    ensures
        session::stream_step(session, turn, stream_id, event) == session::ask(
            session,
            turn,
            Phase::Inbound,
            ActionModel::PollInbound,
        ),
{
    stream::law_refused_input_changes_nothing(session.streams[stream_id.0], event);
    let id = stream_id.0;
    assert(session.streams.insert(id, session.streams[id]) =~= session.streams);
}

/// A frame for one stream leaves every other stream as it is.
pub proof fn law_streams_are_independent(
    session: SessionModel,
    turn: TurnModel,
    stream_id: StreamID,
    event: StreamEventModel,
    other: u32,
)
    requires
        other != stream_id.0,
    ensures
        ({
            let next = session::stream_step(session, turn, stream_id, event).session;
            &&& next.streams.contains_key(other) == session.streams.contains_key(other)
            &&& next.streams[other] == session.streams[other]
        }),
{
}

/// A stream that is opened on one side is accepted on the other: its first frame makes the other
/// session hand it out, and the answer to it opens the remote half here.
pub proof fn law_opened_stream_is_accepted(
    near: SessionModel,
    far: SessionModel,
    near_turn: TurnModel,
    far_turn: TurnModel,
)
    requires
        !far.streams.contains_key(near.next_stream_id),
    ensures
        ({
            let id = near.next_stream_id;
            let opened = session::opened(near);
            let syn = opened.streams[id].outs[0];
            let step = session::stream_step(far, far_turn, StreamID(id), syn);
            let ack = step.session.streams[id].outs[0];
            let answered = session::stream_step(
                session::drained(opened, id),
                near_turn,
                StreamID(id),
                ack,
            ).session;
            &&& step.action == ActionModel::Finish(
                OutcomeModel::Accepted(StreamID(id), None),
            )
            &&& step.session.streams.contains_key(id)
            &&& stream::can_pull(session::drained(step.session, id).streams[id])
            &&& !stream::can_pull(session::drained(opened, id).streams[id])
            &&& stream::can_pull(answered.streams[id])
        }),
{
}

/// A chunk that a user writes on one side is delivered on the other: it is queued as a header
/// and the chunk, and these two frames, one after the other, make the other session deliver
/// exactly its bytes.
pub proof fn law_chunk_reaches_the_other_side(
    near: SessionModel,
    near_turn: TurnModel,
    far: SessionModel,
    far_turn: TurnModel,
    bytes: Seq<u8>,
)
    requires
        session::coherent(near, near_turn),
        near_turn.phase is Pulling,
        bytes.len() <= crate::chunk::DEFAULT_CHUNK_CAPACITY,
        far.streams.contains_key(near_turn.visiting.last()),
        far.streams[near_turn.visiting.last()].receiving is None,
    ensures
        ({
            let id = StreamID(near_turn.visiting.last());
            let events = stream::data_events(bytes);
            let sending = session::pulled_step(near, near_turn, PulledModel::Chunk(bytes));
            let announced = session::stream_step(far, far_turn, id, events[0]);
            let delivered = session::stream_step(
                announced.session,
                announced.turn,
                id,
                events[1],
            );
            &&& (near.out_queue + session::stream_frames(id.0, events)).is_prefix_of(
                sending.session.out_queue,
            )
            &&& announced.action is PollInbound
            &&& delivered.action == ActionModel::Deliver(id, bytes)
            &&& delivered.session.streams[id.0].receiving is None
        }),
{
    let id = near_turn.visiting.last();
    let events = stream::data_events(bytes);
    let (poll, head) = stream::pulled_step(near.streams[id], PulledModel::Chunk(bytes));
    let between = SessionModel {
        streams: near.streams.insert(id, head),
        ..session::queued(near, FrameModel::Stream(StreamID(id), events[0]))
    };
    let next = session::drained(between, id);
    assert(next.out_queue =~= near.out_queue + session::stream_frames(id, events));
    if !stream::can_pull(next.streams[id]) {
        lemma_visit_queues_behind(
            next,
            TurnModel { visiting: near_turn.visiting.drop_last(), ..near_turn },
        );
    }
}

/// Every stream that is over is still to be visited or to be released.
pub open spec fn closed_accounted(session: SessionModel, turn: TurnModel) -> bool {
    forall|id: u32|
        session.streams.contains_key(id) && stream::is_closed(#[trigger] session.streams[id]) ==> {
            turn.visiting.contains(id) || turn.closed.contains(id)
        }
}

/// No stream is over.
pub open spec fn all_open(session: SessionModel) -> bool {
    forall|id: u32|
        session.streams.contains_key(id) ==> !stream::is_closed(#[trigger] session.streams[id])
}

/// A step of a visit or a release forgets no stream that is over.
pub open spec fn forgets_none(step: Step) -> bool {
    if step.turn.phase is Pulling || step.turn.phase is Releasing {
        closed_accounted(step.session, step.turn)
    } else {
        all_open(step.session)
    }
}

/// A release forgets no stream that is over.
proof fn lemma_release_forgets_none(session: SessionModel, turn: TurnModel)
    requires
        turn.visiting.len() == 0,
        closed_accounted(session, turn),
    ensures
        forgets_none(session::release(session, turn)),
{
    let step = session::release(session, turn);
    if turn.closed.len() > 0 {
        let rest = turn.closed.drop_last();
        assert forall|id: u32|
            step.session.streams.contains_key(id) && stream::is_closed(
                #[trigger] step.session.streams[id],
            ) implies rest.contains(id) by {
            assert(stream::is_closed(session.streams[id]));
            let i = choose|i: int| 0 <= i < turn.closed.len() && turn.closed[i] == id;
            assert(rest[i] == id);
        }
    }
}

/// A visit forgets no stream that is over.
proof fn lemma_visit_forgets_none(session: SessionModel, turn: TurnModel)
    requires
        closed_accounted(session, turn),
    ensures
        forgets_none(session::visit(session, turn)),
    decreases turn.visiting.len(),
{
    if turn.visiting.len() == 0 {
        lemma_release_forgets_none(session, turn);
    } else {
        let id = turn.visiting.last();
        let rest = turn.visiting.drop_last();
        let closed = turn.closed.push(id);
        assert(forall|other: u32| #[trigger]
            turn.visiting.contains(other) ==> other == id || rest.contains(other)) by {
            assert(turn.visiting =~= rest.push(id));
        }
        assert(closed.last() == id);
        assert forall|other: u32| #[trigger] turn.closed.contains(other) implies closed.contains(
            other,
        ) by {
            let i = choose|i: int| 0 <= i < turn.closed.len() && turn.closed[i] == other;
            assert(closed[i] == other);
        }
        if stream::is_closed(session.streams[id]) {
            assert(closed[turn.closed.len() as int] == id);
            lemma_visit_forgets_none(session, TurnModel { visiting: rest, closed, ..turn });
        } else {
            let next = session::drained(session, id);
            assert forall|other: u32|
                next.streams.contains_key(other) && stream::is_closed(
                    #[trigger] next.streams[other],
                ) implies other != id && stream::is_closed(session.streams[other]) by {}
            assert(closed_accounted(next, TurnModel { visiting: rest, ..turn }));
            if !stream::can_pull(next.streams[id]) {
                lemma_visit_forgets_none(next, TurnModel { visiting: rest, ..turn });
            }
        }
    }
}

/// Streams that are over do not stay: once the transport has no frame, a turn visits all
/// streams, and when it is done with visiting and releasing, only streams that are not over are
/// left.
pub proof fn law_streams_that_are_over_are_released(state: SessionState, op: SessionOp)
    requires
        allowed(state, op),
        op matches SessionOp::Event(event, _, _) && {
            ||| event == EventModel::Inbound(InboundModel::Pending)
            ||| (event is Pulled || event is Released) && closed_accounted(
                state.session,
                state.turn,
            )
        },
    ensures
        forgets_none(step_of(state, op)->0),
{
    let session = state.session;
    let turn = state.turn;
    match op {
        SessionOp::Event(EventModel::Inbound(InboundModel::Pending), now, walk) => {
            lemma_visit_forgets_none(
                session,
                TurnModel { visiting: walk, closed: seq![], ..turn },
            );
        },
        SessionOp::Event(EventModel::Released, now, walk) => {
            lemma_release_forgets_none(session, turn);
        },
        SessionOp::Event(EventModel::Pulled(pulled), now, walk) => {
            lemma_pulled_forgets_none(session, turn, pulled);
        },
        _ => {},
    }
}

/// An answer of a user's channel forgets no stream that is over.
proof fn lemma_pulled_forgets_none(session: SessionModel, turn: TurnModel, pulled: PulledModel)
    requires
        session::coherent(session, turn),
        turn.phase is Pulling,
        closed_accounted(session, turn),
    ensures
        forgets_none(session::pulled_step(session, turn, pulled)),
{
    let id = turn.visiting.last();
    let rest = turn.visiting.drop_last();
    let (poll, head) = stream::pulled_step(session.streams[id], pulled);
    assert(forall|other: u32| #[trigger]
        turn.visiting.contains(other) ==> other == id || rest.contains(other)) by {
        assert(turn.visiting =~= rest.push(id));
    }
    match poll {
        stream::HeadPollModel::Emit(event) => {
            let next = SessionModel {
                streams: session.streams.insert(id, head),
                ..session::queued(session, FrameModel::Stream(StreamID(id), event))
            };
            assert forall|other: u32|
                next.streams.contains_key(other) && stream::is_closed(
                    #[trigger] next.streams[other],
                ) implies other == id || stream::is_closed(session.streams[other]) by {}
            assert(turn.visiting[turn.visiting.len() - 1] == id);
            lemma_visit_forgets_none(next, turn);
        },
        _ => {
            lemma_visit_forgets_none(session, TurnModel { visiting: rest, ..turn });
        },
    }
}

} // verus!
