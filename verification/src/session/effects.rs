//! What each use of a session does, what it leaves alone, and what adds up over a run of uses.

use std::time::Instant;

use vstd::prelude::*;

use crate::frame::{FrameModel, FrameSessionEvent, StreamEventModel};
use crate::packet::{Flags, StreamID};
use crate::session;
use crate::session::history;
use crate::session::history::{SessionOp, SessionState};
use crate::session::rtt::RttStateModel;
use crate::session::{
    ActionModel, EventModel, InboundModel, OutcomeModel, Phase, PollTurn, SessionAction,
    SessionEvent, SessionModel, Step, TickPoll, TurnModel, YamuxSession, YamuxSessionConfig,
};
use crate::stream;
use crate::stream::{HeadModel, PulledModel};

verus! {

// === Visits ===

/// The head is as it was, but that what waited to be sent may have been queued.
pub open spec fn only_drained(before: HeadModel, after: HeadModel) -> bool {
    after == before || after == (HeadModel { outs: seq![], ..before })
}

/// Every stream is as it was, but that what waited on it may have been queued; none is new, and
/// only a stream that is released is gone.
pub open spec fn streams_only_drained(before: SessionModel, step: Step) -> bool {
    &&& forall|id: u32| #[trigger]
        step.session.streams.contains_key(id) ==> before.streams.contains_key(id) && only_drained(
            before.streams[id],
            step.session.streams[id],
        )
    &&& forall|id: u32| #[trigger]
        before.streams.contains_key(id) && !step.session.streams.contains_key(id) ==> step.action
            == ActionModel::Release(StreamID(id))
}

/// What a visit leaves alone, and how it can go on.
pub open spec fn visit_keeps(before: SessionModel, turn: TurnModel, step: Step) -> bool {
    &&& step.session.next_stream_id == before.next_stream_id
    &&& step.session.rtt == before.rtt
    &&& step.session.keep_alive == before.keep_alive
    &&& step.turn.tick == turn.tick
    &&& step.turn.sent == turn.sent
    &&& before.manual_close ==> step.session.manual_close
    &&& !before.manual_close && step.session.manual_close ==> turn.tick is Close
    &&& step.action matches ActionModel::Finish(outcome) ==> outcome is Pending || outcome is Wake
    &&& step.action !is Deliver && step.action !is PollInbound && step.action !is Send
        && step.action !is PollClose && step.action !is PollTick
}

/// What a visit does.
pub proof fn lemma_visit_effect(session: SessionModel, turn: TurnModel)
    requires
        session::visits_known(session, turn),
    ensures
        streams_only_drained(session, session::visit(session, turn)),
        visit_keeps(session, turn, session::visit(session, turn)),
    decreases turn.visiting.len(),
{
    if turn.visiting.len() > 0 {
        let id = turn.visiting.last();
        let rest = turn.visiting.drop_last();
        assert(session.streams.contains_key(turn.visiting[turn.visiting.len() - 1]));
        assert(forall|i: int| 0 <= i < rest.len() ==> #[trigger] rest[i] == turn.visiting[i]);
        if stream::is_closed(session.streams[id]) {
            lemma_visit_effect(
                session,
                TurnModel { visiting: rest, closed: turn.closed.push(id), ..turn },
            );
        } else {
            let next = session::drained(session, id);
            if !stream::can_pull(next.streams[id]) {
                let later = TurnModel { visiting: rest, ..turn };
                assert(session::visits_known(next, later));
                lemma_visit_effect(next, later);
                let step = session::visit(next, later);
                assert forall|other: u32| #[trigger]
                    step.session.streams.contains_key(other) implies session.streams.contains_key(
                    other,
                ) && only_drained(session.streams[other], step.session.streams[other]) by {
                    assert(next.streams.contains_key(other));
                }
                assert forall|other: u32| #[trigger]
                    session.streams.contains_key(other) && !step.session.streams.contains_key(
                        other,
                    ) implies step.action == ActionModel::Release(StreamID(other)) by {
                    assert(next.streams.contains_key(other));
                }
            }
        }
    }
}

/// The session once the visited stream's user has answered, before the visit goes on.
pub open spec fn answered(
    session: SessionModel,
    turn: TurnModel,
    pulled: PulledModel,
) -> SessionModel {
    let id = turn.visiting.last();
    let (poll, head) = stream::pulled_step(session.streams[id], pulled);
    match poll {
        stream::HeadPollModel::Emit(event) => SessionModel {
            streams: session.streams.insert(id, head),
            ..session::queued(session, FrameModel::Stream(StreamID(id), event))
        },
        _ => session,
    }
}

/// What an answer of a user's channel does.
pub proof fn lemma_pulled_effect(session: SessionModel, turn: TurnModel, pulled: PulledModel)
    requires
        session::coherent(session, turn),
        turn.phase is Pulling,
    ensures
        streams_only_drained(
            answered(session, turn, pulled),
            session::pulled_step(session, turn, pulled),
        ),
        visit_keeps(session, turn, session::pulled_step(session, turn, pulled)),
{
    let id = turn.visiting.last();
    let rest = turn.visiting.drop_last();
    let next = answered(session, turn, pulled);
    assert(session.streams.contains_key(turn.visiting[turn.visiting.len() - 1]));
    assert(forall|i: int| 0 <= i < rest.len() ==> #[trigger] rest[i] == turn.visiting[i]);
    if stream::pulled_step(session.streams[id], pulled).0 is Emit {
        assert(session::visits_known(next, turn));
        lemma_visit_effect(next, turn);
    } else {
        lemma_visit_effect(session, TurnModel { visiting: rest, ..turn });
    }
}

// === Streams ===

/// Whether the use is a frame of this stream that comes from the peer.
pub open spec fn is_frame_of(op: SessionOp, id: u32) -> bool {
    op matches SessionOp::Event(
        EventModel::Inbound(InboundModel::Frame(FrameModel::Stream(stream_id, _))),
        _,
        _,
    ) && stream_id.0 == id
}

/// The event of a frame that comes from the peer.
pub open spec fn event_of(op: SessionOp) -> StreamEventModel {
    op->Event_0->Inbound_0->Frame_0->Stream_1
}

/// Whether the use is an answer of the channel of this stream's user.
pub open spec fn is_answer_of(state: SessionState, op: SessionOp, id: u32) -> bool {
    op is Event && op->Event_0 is Pulled && state.turn.visiting.last() == id
}

/// Whether the use opens this stream here.
pub open spec fn opens_here(state: SessionState, op: SessionOp, id: u32) -> bool {
    op is Open && state.session.next_stream_id == id
}

/// A stream changes only by what concerns it: by a frame of the peer that is meant for it, which
/// its head takes; by an answer of its own user; and by what waits on it being queued. Nothing
/// that happens to another stream, to the session or to the transport touches it.
pub proof fn law_streams_change_by_their_own_events(state: SessionState, op: SessionOp, id: u32)
    requires
        history::allowed(state, op),
        state.session.streams.contains_key(id),
        history::after(state, op).session.streams.contains_key(id),
        !opens_here(state, op, id),
    ensures
        ({
            let before = state.session.streams[id];
            let after = history::after(state, op).session.streams[id];
            if is_frame_of(op, id) {
                after == stream::input_step(before, event_of(op)).head
            } else if is_answer_of(state, op, id) {
                only_drained(stream::pulled_step(before, op->Event_0->Pulled_0).1, after)
            } else {
                only_drained(before, after)
            }
        }),
{
    let session = state.session;
    let turn = state.turn;
    match op {
        SessionOp::Event(EventModel::Inbound(InboundModel::Pending), now, walk) => {
            lemma_walk_known(session, turn, walk);
            lemma_visit_effect(session, TurnModel { visiting: walk, closed: seq![], ..turn });
        },
        SessionOp::Event(EventModel::Pulled(pulled), now, walk) => {
            lemma_pulled_effect(session, turn, pulled);
            assert(answered(session, turn, pulled).streams.contains_key(id));
        },
        _ => {},
    }
}

/// A walk visits streams of the session.
pub proof fn lemma_walk_known(session: SessionModel, turn: TurnModel, walk: Seq<u32>)
    requires
        session::is_walk(walk, session),
    ensures
        session::visits_known(session, TurnModel { visiting: walk, closed: seq![], ..turn }),
{
    assert forall|i: int| 0 <= i < walk.len() implies session.streams.contains_key(
        #[trigger] walk[i],
    ) by {
        assert(walk.contains(walk[i]));
    }
}

/// The event carries SYN.
pub open spec fn carries_syn(event: StreamEventModel) -> bool {
    match event {
        StreamEventModel::Data(flags, _) => flags.syn,
        StreamEventModel::WindowUpdate(flags, _) => flags.syn,
        StreamEventModel::DataChunk(_) => false,
    }
}

/// Streams come by being opened, here or by the peer with SYN, and go by being released: no other
/// use changes which streams there are.
#[verifier::spinoff_prover]
pub proof fn law_streams_come_and_go(state: SessionState, op: SessionOp, id: u32)
    requires
        history::allowed(state, op),
    ensures
        ({
            let before = state.session.streams.contains_key(id);
            let after = history::after(state, op).session.streams.contains_key(id);
            &&& !before ==> (after <==> opens_here(state, op, id) || is_frame_of(op, id)
                && carries_syn(event_of(op)))
            &&& before && !after ==> history::step_of(state, op) is Some && history::step_of(
                state,
                op,
            )->0.action == ActionModel::Release(StreamID(id))
        }),
{
    let session = state.session;
    let turn = state.turn;
    match op {
        SessionOp::Event(EventModel::Inbound(InboundModel::Pending), now, walk) => {
            lemma_walk_known(session, turn, walk);
            lemma_visit_effect(session, TurnModel { visiting: walk, closed: seq![], ..turn });
        },
        SessionOp::Event(EventModel::Pulled(pulled), now, walk) => {
            lemma_pulled_effect(session, turn, pulled);
            let id = turn.visiting.last();
            assert(session.streams.contains_key(turn.visiting[turn.visiting.len() - 1]));
            assert(answered(session, turn, pulled).streams.dom() =~= session.streams.dom());
        },
        _ => {},
    }
}

// === Frames of the peer ===

/// The use in which a frame comes from the peer.
pub open spec fn reading(frame: FrameModel, now: nat, walk: Seq<u32>) -> SessionOp {
    SessionOp::Event(EventModel::Inbound(InboundModel::Frame(frame)), now, walk)
}

/// Only the streams of a session differ.
pub open spec fn differs_in_streams(before: SessionModel, after: SessionModel) -> bool {
    after == (SessionModel { streams: after.streams, ..before })
}

/// A frame of a known stream is given to its head, whatever the frame is: the head takes it, every
/// other stream and the rest of the session stay as they are, the user gets what the head hands
/// out, and the turn reads on.
pub proof fn law_frame_reaches_its_stream(
    state: SessionState,
    id: u32,
    event: StreamEventModel,
    now: nat,
    walk: Seq<u32>,
)
    requires
        state.turn.phase is Inbound,
        state.session.streams.contains_key(id),
    ensures
        ({
            let op = reading(FrameModel::Stream(StreamID(id), event), now, walk);
            let input = stream::input_step(state.session.streams[id], event);
            let after = history::after(state, op);
            let action = history::step_of(state, op)->0.action;
            &&& after.session.streams[id] == input.head
            &&& forall|other: u32|
                other != id ==> {
                    &&& #[trigger] after.session.streams.contains_key(other)
                        == state.session.streams.contains_key(other)
                    &&& after.session.streams[other] == state.session.streams[other]
                }
            &&& differs_in_streams(state.session, after.session)
            &&& match input.result {
                Ok(Some(bytes)) => action == ActionModel::Deliver(StreamID(id), bytes),
                _ => action is PollInbound,
            }
            &&& after.turn == (TurnModel { phase: after.turn.phase, ..state.turn })
            &&& action is PollInbound <==> after.turn.phase is Inbound
        }),
{
}

/// A window update for a known stream fills its send window, whatever its flags and its delta are.
pub proof fn law_window_update_fills_the_send_window(
    state: SessionState,
    id: u32,
    flags: Flags,
    delta: u32,
    now: nat,
    walk: Seq<u32>,
)
    requires
        state.turn.phase is Inbound,
        state.session.streams.contains_key(id),
    ensures
        ({
            let frame = FrameModel::Stream(
                StreamID(id),
                StreamEventModel::WindowUpdate(flags, delta),
            );
            let after = history::after(state, reading(frame, now, walk));
            &&& after.session.streams.contains_key(id)
            &&& after.session.streams[id].send == state.session.streams[id].send + delta
        }),
{
    stream::law_window_update_is_added(state.session.streams[id], flags, delta);
}

/// A frame with SYN for a stream that is not known opens it: the turn hands it out, with the first
/// chunk for its user where the frame carries FIN, and its head starts as a new one that has taken
/// the frame. Nothing else changes.
pub proof fn law_syn_opens_an_unknown_stream(
    state: SessionState,
    id: u32,
    event: StreamEventModel,
    now: nat,
    walk: Seq<u32>,
)
    requires
        state.turn.phase is Inbound,
        !state.session.streams.contains_key(id),
        carries_syn(event),
    ensures
        ({
            let op = reading(FrameModel::Stream(StreamID(id), event), now, walk);
            let after = history::after(state, op);
            let action = history::step_of(state, op)->0.action;
            let fin = (event is Data && event->Data_0.fin) || (event is WindowUpdate
                && event->WindowUpdate_0.fin);
            &&& action == ActionModel::Finish(
                OutcomeModel::Accepted(
                    StreamID(id),
                    if fin {
                        Some(Seq::<u8>::empty())
                    } else {
                        None
                    },
                ),
            )
            &&& after.session.streams.contains_key(id)
            &&& after.session.streams[id] == stream::input_step(
                stream::accepted_head(),
                event,
            ).head
            &&& after.session.streams.remove(id) == state.session.streams
            &&& differs_in_streams(state.session, after.session)
        }),
{
    let op = reading(FrameModel::Stream(StreamID(id), event), now, walk);
    assert(history::after(state, op).session.streams.remove(id) =~= state.session.streams);
}

/// Any other frame for a stream that is not known changes nothing, and the turn reads on.
pub proof fn law_other_frames_of_unknown_streams_are_dropped(
    state: SessionState,
    id: u32,
    event: StreamEventModel,
    now: nat,
    walk: Seq<u32>,
)
    requires
        state.turn.phase is Inbound,
        !state.session.streams.contains_key(id),
        !carries_syn(event),
    ensures
        ({
            let op = reading(FrameModel::Stream(StreamID(id), event), now, walk);
            &&& history::after(state, op) == state
            &&& history::step_of(state, op)->0.action is PollInbound
        }),
{
}

/// Once a chunk was put on the channel of a user, the turn reads on and nothing changes.
pub proof fn law_turn_reads_on_after_a_delivery(state: SessionState, now: nat, walk: Seq<u32>)
    requires
        state.turn.phase is Delivering,
    ensures
        ({
            let op = SessionOp::Event(EventModel::Delivered, now, walk);
            &&& history::step_of(state, op)->0.action is PollInbound
            &&& history::after(state, op).session == state.session
            &&& history::after(state, op).turn == (TurnModel { phase: Phase::Inbound, ..state.turn })
        }),
{
}

// === Pings of the peer ===

/// The pong that answers a ping: only ACK, and the code of the ping.
pub open spec fn pong(code: u32) -> FrameModel {
    FrameModel::Session(
        FrameSessionEvent::Ping(Flags { syn: false, ack: true, fin: false, rst: false }, code),
    )
}

/// What a ping frame may change of a session: a ping with SYN puts its pong behind the queue, an
/// answer moves on the exchange of pings, and any other changes nothing.
pub open spec fn only_answers_the_ping(
    before: SessionModel,
    after: SessionModel,
    flags: Flags,
    code: u32,
    now: nat,
) -> bool {
    &&& after.streams == before.streams
    &&& after.next_stream_id == before.next_stream_id
    &&& after.manual_close == before.manual_close
    &&& after.keep_alive == before.keep_alive
    &&& after.rtt.cfg == before.rtt.cfg
    &&& after.rtt.origin == before.rtt.origin
    &&& after.rtt.ping_seq == before.rtt.ping_seq
    &&& flags.syn && !flags.ack ==> after.out_queue == before.out_queue.push(pong(code))
    &&& flags.ack || !flags.syn ==> after.out_queue == before.out_queue
    &&& !flags.ack ==> after.rtt == before.rtt
    &&& flags.ack && before.rtt.state is AwaitingPong && before.rtt.state->nonce == code ==> {
        after.rtt.state == (RttStateModel::Waiting {
            next: now + before.rtt.cfg.interval as nat,
        })
    }
    &&& flags.ack && !(before.rtt.state is AwaitingPong && before.rtt.state->nonce == code)
        ==> after.rtt == before.rtt
}

/// A ping frame of the peer changes nothing of a session but the pong behind its queue, or what
/// the session waits for: it does not close the session, and touches no stream. The turn reads on.
/// The same holds where the frame is handed in between turns.
pub proof fn law_ping_changes_only_its_answer(
    state: SessionState,
    flags: Flags,
    code: u32,
    now: nat,
    walk: Seq<u32>,
)
    ensures
        state.turn.phase is Inbound ==> {
            let op = reading(FrameModel::Session(FrameSessionEvent::Ping(flags, code)), now, walk);
            &&& only_answers_the_ping(
                state.session,
                history::after(state, op).session,
                flags,
                code,
                now,
            )
            &&& history::after(state, op).turn == state.turn
            &&& history::step_of(state, op)->0.action is PollInbound
        },
        ({
            let op = SessionOp::Ping(flags, code, now);
            &&& only_answers_the_ping(
                state.session,
                history::after(state, op).session,
                flags,
                code,
                now,
            )
            &&& history::after(state, op).turn == state.turn
        }),
{
}

// === The end of a session ===

/// The events that end a session: the transport failed, is at its end or was closed as asked, or
/// the peer said GoAway, with whatever code.
pub open spec fn ends_the_session(event: EventModel) -> bool {
    ||| event == EventModel::Sent(false)
    ||| event == EventModel::Closed(true)
    ||| event == EventModel::Flushed(true)
    ||| event == EventModel::Inbound(InboundModel::Failed)
    ||| event == EventModel::Inbound(InboundModel::Ended)
    ||| exists|code: u32| event == #[trigger] go_away(code)
}

/// A GoAway that comes from the peer.
pub open spec fn go_away(code: u32) -> EventModel {
    EventModel::Inbound(
        InboundModel::Frame(FrameModel::Session(FrameSessionEvent::GoAway(code))),
    )
}

/// A session is over exactly when the transport fails, ends or is closed as asked, or when the
/// peer says GoAway: with these events the turn ends at once and says so, and the session is left
/// as it is; with no other use does a turn say that the session is over.
#[verifier::spinoff_prover]
pub proof fn law_session_ends_exactly_when_told(state: SessionState, op: SessionOp)
    requires
        history::allowed(state, op),
    ensures
        ({
            let step = history::step_of(state, op);
            let over = step is Some && step->0.action == ActionModel::Finish(OutcomeModel::Ended);
            &&& over <==> op is Event && ends_the_session(op->Event_0)
            &&& over ==> step->0.session == state.session && step->0.turn.phase is Finished
        }),
{
    let session = state.session;
    let turn = state.turn;
    match op {
        SessionOp::Event(EventModel::Inbound(inbound), now, walk) => {
            match inbound {
                InboundModel::Pending => {
                    lemma_walk_known(session, turn, walk);
                    lemma_visit_effect(
                        session,
                        TurnModel { visiting: walk, closed: seq![], ..turn },
                    );
                },
                InboundModel::Frame(FrameModel::Session(FrameSessionEvent::GoAway(code))) => {
                    assert(op->Event_0 == go_away(code));
                },
                _ => {},
            }
        },
        SessionOp::Event(EventModel::Pulled(pulled), now, walk) => {
            lemma_pulled_effect(session, turn, pulled);
        },
        _ => {},
    }
}

/// A GoAway ends the session that reads it, whatever its code is.
pub proof fn law_go_away_ends_the_session(
    state: SessionState,
    code: u32,
    now: nat,
    walk: Seq<u32>,
)
    requires
        state.turn.phase is Inbound,
    ensures
        ({
            let step = history::step_of(
                state,
                SessionOp::Event(go_away(code), now, walk),
            )->0;
            &&& step.action == ActionModel::Finish(OutcomeModel::Ended)
            &&& step.session == state.session
        }),
{
}

/// Closing one side ends the other: the last frame that a session queues when it is told to close
/// is a GoAway with the code, and a session that reads this frame is over.
pub proof fn law_close_ends_the_other_side(
    near: SessionState,
    far: SessionState,
    code: u32,
    now: nat,
    walk: Seq<u32>,
)
    requires
        far.turn.phase is Inbound,
    ensures
        ({
            let closing = history::after(near, SessionOp::Close(code)).session;
            let frame = closing.out_queue.last();
            &&& closing.out_queue.drop_last() == near.session.out_queue
            &&& frame == FrameModel::Session(FrameSessionEvent::GoAway(code))
            &&& history::step_of(far, reading(frame, now, walk))->0.action == ActionModel::Finish(
                OutcomeModel::Ended,
            )
        }),
{
    let closing = history::after(near, SessionOp::Close(code)).session;
    assert(closing.out_queue.drop_last() =~= near.session.out_queue);
}

/// A session that is told to close is to close, has its GoAway behind the queue, and is otherwise
/// as it was.
pub proof fn law_close_queues_a_go_away(state: SessionState, code: u32)
    ensures
        ({
            let after = history::after(state, SessionOp::Close(code));
            &&& after.session.manual_close
            &&& after.session.out_queue == state.session.out_queue.push(
                FrameModel::Session(FrameSessionEvent::GoAway(code)),
            )
            &&& after.session.streams == state.session.streams
            &&& after.session.next_stream_id == state.session.next_stream_id
            &&& after.session.rtt == state.session.rtt
            &&& after.session.keep_alive == state.session.keep_alive
            &&& after.turn == state.turn
        }),
{
}

// === Told to close ===

/// Whether the keep-alive gives the session up with this use: the interval ended, or a tick finds
/// a ping unanswered whose time is over.
pub open spec fn keep_alive_gives_up(state: SessionState, op: SessionOp) -> bool {
    op matches SessionOp::Event(EventModel::Tick(tick), now, _) && match tick {
        TickPoll::Pending => false,
        TickPoll::Ended => true,
        TickPoll::Elapsed => {
            let rtt = state.session.rtt;
            &&& rtt.state is AwaitingPong
            &&& now >= rtt.state->sent_at + rtt.cfg.timeout || rtt.cfg.timeout == 0
        },
    }
}

/// Whether a run never tells the session to close, and its keep-alive never gives up.
pub open spec fn never_told_to_close(state: SessionState, ops: Seq<SessionOp>) -> bool
    decreases ops.len(),
{
    ops.len() > 0 ==> {
        &&& ops[0] !is Close
        &&& !keep_alive_gives_up(state, ops[0])
        &&& never_told_to_close(history::after(state, ops[0]), ops.drop_first())
    }
}

/// One use that does not tell the session to close.
proof fn lemma_not_told_to_close(state: SessionState, op: SessionOp)
    requires
        history::allowed(state, op),
        op !is Close,
        !keep_alive_gives_up(state, op),
        !state.session.manual_close,
        state.turn.tick !is Close,
    ensures
        !history::after(state, op).session.manual_close,
        history::after(state, op).turn.tick !is Close,
{
    let session = state.session;
    let turn = state.turn;
    match op {
        SessionOp::Event(EventModel::Inbound(InboundModel::Pending), now, walk) => {
            lemma_walk_known(session, turn, walk);
            lemma_visit_effect(session, TurnModel { visiting: walk, closed: seq![], ..turn });
        },
        SessionOp::Event(EventModel::Pulled(pulled), now, walk) => {
            lemma_pulled_effect(session, turn, pulled);
        },
        _ => {},
    }
}

/// A session is to close only because it was told to, or because the keep-alive gave up: over any
/// run without the one and the other, whatever the peer, the users and the transport do, it stays
/// open.
pub proof fn law_session_closes_only_when_told(state: SessionState, ops: Seq<SessionOp>)
    requires
        history::run_allowed(state, ops),
        never_told_to_close(state, ops),
        !state.session.manual_close,
        state.turn.tick !is Close,
    ensures
        !history::after_all(state, ops).session.manual_close,
        history::after_all(state, ops).turn.tick !is Close,
    decreases ops.len(),
{
    if ops.len() > 0 {
        lemma_not_told_to_close(state, ops[0]);
        law_session_closes_only_when_told(history::after(state, ops[0]), ops.drop_first());
    }
}

/// A new session has no streams, nothing to send and nothing to close; it sends keep-alive pings
/// exactly where the configuration asks for them, with the times that it gives.
pub proof fn law_new_session_is_idle(is_server: bool, cfg: YamuxSessionConfig, origin: Instant)
    ensures
        ({
            let state = history::initial(is_server, cfg, origin);
            let session = state.session;
            &&& forall|id: u32| !(#[trigger] session.streams.contains_key(id))
            &&& session.out_queue.len() == 0
            &&& !session.manual_close
            &&& state.turn.tick !is Close
            &&& session.keep_alive <==> cfg.keep_alive_config is Some
            &&& cfg.keep_alive_config matches Some(config) ==> session.rtt.cfg == config
            &&& session.rtt.origin == origin
            &&& session.rtt.ping_seq == 0
            &&& session.rtt.state == (RttStateModel::Waiting { next: 0 })
            &&& session.next_stream_id == (if is_server {
                2u32
            } else {
                1u32
            })
        }),
{
}

/// The configuration of a session and its clock stay what they are over any run.
#[verifier::spinoff_prover]
pub proof fn law_configuration_stays(state: SessionState, ops: Seq<SessionOp>)
    requires
        history::run_allowed(state, ops),
    ensures
        ({
            let after = history::after_all(state, ops).session;
            &&& after.keep_alive == state.session.keep_alive
            &&& after.rtt.cfg == state.session.rtt.cfg
            &&& after.rtt.origin == state.session.rtt.origin
        }),
    decreases ops.len(),
{
    if ops.len() > 0 {
        let session = state.session;
        let turn = state.turn;
        match ops[0] {
            SessionOp::Event(EventModel::Inbound(InboundModel::Pending), now, walk) => {
                lemma_walk_known(session, turn, walk);
                lemma_visit_effect(session, TurnModel { visiting: walk, closed: seq![], ..turn });
            },
            SessionOp::Event(EventModel::Pulled(pulled), now, walk) => {
                lemma_pulled_effect(session, turn, pulled);
            },
            _ => {},
        }
        law_configuration_stays(history::after(state, ops[0]), ops.drop_first());
    }
}

// === Flow control ===

/// The stream is known all through a run, and not opened anew.
pub open spec fn stays(state: SessionState, ops: Seq<SessionOp>, id: u32) -> bool
    decreases ops.len(),
{
    &&& state.session.streams.contains_key(id)
    &&& ops.len() > 0 ==> !opens_here(state, ops[0], id) && stays(
        history::after(state, ops[0]),
        ops.drop_first(),
        id,
    )
}

/// The window that a frame of the peer grants on the stream.
pub open spec fn granted_by(op: SessionOp, id: u32) -> nat {
    match op {
        SessionOp::Event(
            EventModel::Inbound(
                InboundModel::Frame(
                    FrameModel::Stream(stream_id, StreamEventModel::WindowUpdate(_, delta)),
                ),
            ),
            _,
            _,
        ) => if stream_id.0 == id {
            delta as nat
        } else {
            0
        },
        _ => 0,
    }
}

/// The bytes that a use takes from the user of the stream.
pub open spec fn taken_by(state: SessionState, op: SessionOp, id: u32) -> nat {
    match op {
        SessionOp::Event(EventModel::Pulled(PulledModel::Chunk(bytes)), _, _) => if
        state.turn.visiting.last() == id {
            bytes.len()
        } else {
            0
        },
        _ => 0,
    }
}

/// The window that the peer grants on the stream over a run.
pub open spec fn granted_over(ops: Seq<SessionOp>, id: u32) -> nat
    decreases ops.len(),
{
    if ops.len() == 0 {
        0
    } else {
        granted_by(ops[0], id) + granted_over(ops.drop_first(), id)
    }
}

/// The bytes that are taken from the user of the stream over a run.
pub open spec fn taken_over(state: SessionState, ops: Seq<SessionOp>, id: u32) -> nat
    decreases ops.len(),
{
    if ops.len() == 0 {
        0
    } else {
        taken_by(state, ops[0], id) + taken_over(
            history::after(state, ops[0]),
            ops.drop_first(),
            id,
        )
    }
}

/// The send window of a stream is an account: over any run of a session, the window and the bytes
/// that were taken from the stream's user make up the window at the start and all that the peer
/// granted on the stream since. So every window update counts, and no more is sent than granted.
#[verifier::spinoff_prover]
pub proof fn law_send_window_is_an_account(state: SessionState, ops: Seq<SessionOp>, id: u32)
    requires
        history::run_allowed(state, ops),
        stays(state, ops, id),
    ensures
        history::after_all(state, ops).session.streams[id].send + taken_over(state, ops, id)
            == state.session.streams[id].send + granted_over(ops, id),
        taken_over(state, ops, id) <= state.session.streams[id].send + granted_over(ops, id),
    decreases ops.len(),
{
    if ops.len() > 0 {
        let next = history::after(state, ops[0]);
        assert(stays(next, ops.drop_first(), id));
        law_streams_change_by_their_own_events(state, ops[0], id);
        law_send_window_is_an_account(next, ops.drop_first(), id);
    }
}

/// The use makes the stream: it is opened here, or the peer opens it.
pub open spec fn makes(state: SessionState, op: SessionOp, id: u32) -> bool {
    &&& history::after(state, op).session.streams.contains_key(id)
    &&& opens_here(state, op, id) || !state.session.streams.contains_key(id)
}

/// From its first moment on, a stream may send the initial window of 256 KiB and what the peer
/// granted since, the frame that opened the stream included: the send window and the bytes that
/// were taken from its user always make up just that.
#[verifier::spinoff_prover]
pub proof fn law_stream_sends_what_it_was_granted(
    state: SessionState,
    op: SessionOp,
    ops: Seq<SessionOp>,
    id: u32,
)
    requires
        history::allowed(state, op),
        makes(state, op, id),
        history::run_allowed(history::after(state, op), ops),
        stays(history::after(state, op), ops, id),
    ensures
        ({
            let made = history::after(state, op);
            history::after_all(made, ops).session.streams[id].send + taken_over(made, ops, id)
                == 256 * 1024 + granted_by(op, id) + granted_over(ops, id)
        }),
{
    let made = history::after(state, op);
    if !opens_here(state, op, id) {
        law_streams_come_and_go(state, op, id);
    }
    law_send_window_is_an_account(made, ops, id);
}

/// A stream with an open local half that the peer has answered, with nothing waiting on it, asks
/// its user for more exactly as long as the window has room for a whole chunk. So grants of the
/// peer let it go on.
pub proof fn law_granted_stream_goes_on(
    state: SessionState,
    id: u32,
    flags: Flags,
    delta: u32,
    now: nat,
    walk: Seq<u32>,
)
    requires
        state.turn.phase is Inbound,
        state.session.streams.contains_key(id),
        state.session.streams[id].local,
        state.session.streams[id].opened,
        state.session.streams[id].outs.len() == 0,
        !flags.rst,
    ensures
        ({
            let frame = FrameModel::Stream(
                StreamID(id),
                StreamEventModel::WindowUpdate(flags, delta),
            );
            let head = history::after(state, reading(frame, now, walk)).session.streams[id];
            stream::can_pull(head) <==> state.session.streams[id].send + delta >= 4090
        }),
{
}

/// The window that a frame grants to the peer on the stream.
pub open spec fn grant_in(id: u32, frame: FrameModel) -> nat {
    match frame {
        FrameModel::Stream(stream_id, StreamEventModel::WindowUpdate(_, delta)) => if stream_id.0
            == id {
            delta as nat
        } else {
            0
        },
        _ => 0,
    }
}

/// The window that frames grant to the peer on the stream.
pub open spec fn grants_in(id: u32, frames: Seq<FrameModel>) -> nat
    decreases frames.len(),
{
    if frames.len() == 0 {
        0
    } else {
        grants_in(id, frames.drop_last()) + grant_in(id, frames.last())
    }
}

/// What the peer is still to be granted on the stream: in frames that are queued, in events that
/// wait on it, and for received bytes that were not granted yet.
pub open spec fn owed(session: SessionModel, id: u32) -> nat {
    grants_in(id, session.out_queue) + stream::grants_of(session.streams[id].outs)
        + session.streams[id].recv
}

/// Frames grant one after the other.
proof fn lemma_grants_append(id: u32, frames: Seq<FrameModel>, more: Seq<FrameModel>)
    ensures
        grants_in(id, frames + more) == grants_in(id, frames) + grants_in(id, more),
    decreases more.len(),
{
    if more.len() == 0 {
        assert(frames + more =~= frames);
    } else {
        lemma_grants_append(id, frames, more.drop_last());
        assert((frames + more).drop_last() =~= frames + more.drop_last());
    }
}

/// A further frame grants what it says.
proof fn lemma_grants_push(id: u32, frames: Seq<FrameModel>, frame: FrameModel)
    ensures
        grants_in(id, frames.push(frame)) == grants_in(id, frames) + grant_in(id, frame),
{
    assert(frames.push(frame).drop_last() =~= frames);
}

/// The frames of the events of a stream grant what the events do, on this stream only.
proof fn lemma_grants_of_frames(id: u32, other: u32, events: Seq<StreamEventModel>)
    ensures
        grants_in(id, session::stream_frames(other, events)) == (if id == other {
            stream::grants_of(events)
        } else {
            0
        }),
    decreases events.len(),
{
    let frames = session::stream_frames(other, events);
    if events.len() > 0 {
        lemma_grants_of_frames(id, other, events.drop_last());
        assert(frames.drop_last() =~= session::stream_frames(other, events.drop_last()));
    }
}

/// Queueing what waits on a stream changes what is owed on no stream.
proof fn lemma_drained_owes(session: SessionModel, other: u32, id: u32)
    ensures
        owed(session::drained(session, other), id) == owed(session, id),
{
    let events = session.streams[other].outs;
    lemma_grants_append(id, session.out_queue, session::stream_frames(other, events));
    lemma_grants_of_frames(id, other, events);
}

/// A visit changes what is owed on no stream.
proof fn lemma_visit_owes(session: SessionModel, turn: TurnModel, id: u32)
    requires
        session::visit(session, turn).session.streams.contains_key(id),
    ensures
        owed(session::visit(session, turn).session, id) == owed(session, id),
    decreases turn.visiting.len(),
{
    if turn.visiting.len() == 0 {
        let go_away = FrameModel::Session(FrameSessionEvent::GoAway(0));
        lemma_grants_push(id, session.out_queue, go_away);
    } else {
        let other = turn.visiting.last();
        let rest = turn.visiting.drop_last();
        if stream::is_closed(session.streams[other]) {
            lemma_visit_owes(
                session,
                TurnModel { visiting: rest, closed: turn.closed.push(other), ..turn },
                id,
            );
        } else {
            let next = session::drained(session, other);
            lemma_drained_owes(session, other, id);
            if !stream::can_pull(next.streams[other]) {
                lemma_visit_owes(next, TurnModel { visiting: rest, ..turn }, id);
            }
        }
    }
}

/// The bytes that a use hands to the user of the stream.
pub open spec fn handed_by(state: SessionState, op: SessionOp, id: u32) -> nat {
    match history::step_of(state, op) {
        Some(Step { session: _, turn: _, action: ActionModel::Deliver(stream_id, bytes) }) => if
        stream_id.0 == id {
            bytes.len()
        } else {
            0
        },
        _ => 0,
    }
}

/// The bytes that a run hands to the user of the stream.
pub open spec fn handed_over(state: SessionState, ops: Seq<SessionOp>, id: u32) -> nat
    decreases ops.len(),
{
    if ops.len() == 0 {
        0
    } else {
        handed_by(state, ops[0], id) + handed_over(
            history::after(state, ops[0]),
            ops.drop_first(),
            id,
        )
    }
}

/// A chunk that comes is small enough for its count to fit a window update.
pub open spec fn countable(op: SessionOp) -> bool {
    op matches SessionOp::Event(
        EventModel::Inbound(
            InboundModel::Frame(FrameModel::Stream(_, StreamEventModel::DataChunk(bytes))),
        ),
        _,
        _,
    ) ==> bytes.len() + 256 * 1024 <= u32::MAX
}

/// What one use does to what is owed.
#[verifier::spinoff_prover]
proof fn lemma_owed_after(state: SessionState, op: SessionOp, id: u32)
    requires
        history::allowed(state, op),
        countable(op),
        state.session.streams.contains_key(id),
        history::after(state, op).session.streams.contains_key(id),
        !opens_here(state, op, id),
        state.session.streams[id].recv <= 256 * 1024,
    ensures
        grants_in(id, history::sent_by(state, op)) + owed(history::after(state, op).session, id)
            == owed(state.session, id) + handed_by(state, op, id),
        history::after(state, op).session.streams[id].recv <= 256 * 1024,
{
    let session = state.session;
    let turn = state.turn;
    let queue = session.out_queue;
    let after = history::after(state, op).session;
    assert(grants_in(id, seq![]) == 0);
    law_streams_change_by_their_own_events(state, op, id);
    match op {
        SessionOp::Close(code) => {
            lemma_grants_push(id, queue, FrameModel::Session(FrameSessionEvent::GoAway(code)));
        },
        SessionOp::Ping(flags, code, now) => {
            lemma_grants_push(id, queue, pong(code));
        },
        SessionOp::Event(event, now, walk) => {
            lemma_grants_push(id, queue, FrameModel::Session(FrameSessionEvent::GoAway(0)));
            match event {
                EventModel::Tick(tick) => {
                    if after.out_queue != queue {
                        lemma_grants_push(id, queue, after.out_queue.last());
                    }
                },
                EventModel::Ready(true) => {
                    assert(queue =~= seq![queue[0]] + queue.drop_first());
                    lemma_grants_append(id, seq![queue[0]], queue.drop_first());
                },
                EventModel::Inbound(InboundModel::Pending) => {
                    lemma_walk_known(session, turn, walk);
                    let visiting = TurnModel { visiting: walk, closed: seq![], ..turn };
                    lemma_visit_effect(session, visiting);
                    lemma_visit_owes(session, visiting, id);
                },
                EventModel::Inbound(
                    InboundModel::Frame(FrameModel::Session(FrameSessionEvent::Ping(_, code))),
                ) => {
                    lemma_grants_push(id, queue, pong(code));
                },
                EventModel::Inbound(InboundModel::Frame(FrameModel::Stream(stream_id, input))) => {
                    if stream_id.0 == id {
                        let head = session.streams[id];
                        let next = stream::input_step(head, input).head;
                        if let StreamEventModel::DataChunk(bytes) = input {
                            let came = head.recv + bytes.len();
                            assert(came % 0x1_0000_0000 == came);
                            if next.outs != head.outs {
                                assert(next.outs.drop_last() =~= head.outs);
                            }
                        }
                    }
                },
                EventModel::Pulled(pulled) => {
                    lemma_pulled_effect(session, turn, pulled);
                    lemma_pulled_owes(session, turn, pulled, id);
                },
                _ => {},
            }
        },
        _ => {},
    }
}

/// An answer of a user's channel changes what is owed on no stream.
proof fn lemma_pulled_owes(session: SessionModel, turn: TurnModel, pulled: PulledModel, id: u32)
    requires
        session::coherent(session, turn),
        turn.phase is Pulling,
        session::pulled_step(session, turn, pulled).session.streams.contains_key(id),
    ensures
        owed(session::pulled_step(session, turn, pulled).session, id) == owed(session, id),
{
    let other = turn.visiting.last();
    let next = answered(session, turn, pulled);
    let (poll, head) = stream::pulled_step(session.streams[other], pulled);
    if let stream::HeadPollModel::Emit(event) = poll {
        let frame = FrameModel::Stream(StreamID(other), event);
        lemma_grants_push(id, session.out_queue, frame);
        assert(stream::grants_of(seq![]) == 0);
        assert(session.streams[other].outs =~= seq![]);
        if let PulledModel::Chunk(bytes) = pulled {
            assert(head.outs.drop_last() =~= seq![]);
        }
        assert(owed(next, id) == owed(session, id));
        lemma_visit_owes(next, turn, id);
    } else {
        lemma_visit_owes(
            session,
            TurnModel { visiting: turn.visiting.drop_last(), ..turn },
            id,
        );
    }
}

/// The receive window of a stream is an account: over any run of a session, what was granted to
/// the peer in the frames that were sent, and what it is still to be granted, grow by exactly the
/// bytes that were handed to the user. So the peer gets back the room for every byte, and for no
/// more.
pub proof fn law_receive_window_is_an_account(state: SessionState, ops: Seq<SessionOp>, id: u32)
    requires
        history::run_allowed(state, ops),
        stays(state, ops, id),
        forall|i: int| 0 <= i < ops.len() ==> countable(#[trigger] ops[i]),
        state.session.streams[id].recv <= 256 * 1024,
    ensures
        grants_in(id, history::sent_over(state, ops)) + owed(
            history::after_all(state, ops).session,
            id,
        ) == owed(state.session, id) + handed_over(state, ops, id),
        history::after_all(state, ops).session.streams[id].recv <= 256 * 1024,
    decreases ops.len(),
{
    if ops.len() == 0 {
        assert(grants_in(id, history::sent_over(state, ops)) == 0);
    } else {
        let next = history::after(state, ops[0]);
        let rest = ops.drop_first();
        assert(stays(next, rest, id));
        assert(forall|i: int| 0 <= i < rest.len() ==> #[trigger] rest[i] == ops[i + 1]);
        lemma_owed_after(state, ops[0], id);
        law_receive_window_is_an_account(next, rest, id);
        lemma_grants_append(id, history::sent_by(state, ops[0]), history::sent_over(next, rest));
    }
}

/// A stream that was just made owes its peer the initial window of 256 KiB, beside what is queued.
pub proof fn law_new_stream_owes_its_window(state: SessionState, op: SessionOp, id: u32)
    requires
        history::allowed(state, op),
        makes(state, op, id),
    ensures
        owed(history::after(state, op).session, id) == grants_in(id, state.session.out_queue) + 256
            * 1024,
        history::after(state, op).session.streams[id].recv == 0,
{
    let head = history::after(state, op).session.streams[id];
    if !opens_here(state, op, id) {
        law_streams_come_and_go(state, op, id);
    }
    assert(head.outs.drop_last() =~= seq![]);
    assert(stream::grants_of(seq![]) == 0);
}

// === Calls ===

/// A step that reads a GoAway, a failure or the end of the transport ends the turn and the session
/// with it, whatever the code of the GoAway is.
pub proof fn law_step_ends_with_the_peer(
    session: &mut YamuxSession,
    turn: &mut PollTurn,
    event: SessionEvent,
    now: u128,
    action: SessionAction,
)
    requires
        old(turn)@.phase is Inbound,
        event@ == EventModel::Inbound(InboundModel::Failed) || event@ == EventModel::Inbound(
            InboundModel::Ended,
        ) || exists|code: u32| event@ == #[trigger] go_away(code),
        call_ensures(YamuxSession::step_at, (session, turn, event, now), action),
    ensures
        action@ == ActionModel::Finish(OutcomeModel::Ended),
        final(session)@ == old(session)@,
{
}

/// A step that reads a window update of a known stream adds its delta to the stream's send window.
pub proof fn law_step_fills_the_send_window(
    session: &mut YamuxSession,
    turn: &mut PollTurn,
    event: SessionEvent,
    now: u128,
    action: SessionAction,
    id: u32,
    flags: Flags,
    delta: u32,
)
    requires
        old(turn)@.phase is Inbound,
        old(session)@.streams.contains_key(id),
        event@ == EventModel::Inbound(
            InboundModel::Frame(
                FrameModel::Stream(StreamID(id), StreamEventModel::WindowUpdate(flags, delta)),
            ),
        ),
        call_ensures(YamuxSession::step_at, (session, turn, event, now), action),
    ensures
        final(session)@.streams.contains_key(id),
        final(session)@.streams[id].send == old(session)@.streams[id].send + delta,
        final(session)@.out_queue == old(session)@.out_queue,
        final(session)@.manual_close == old(session)@.manual_close,
{
}

/// A step that reads a ping frame changes nothing but what answers it, and reads on.
pub proof fn law_step_only_answers_a_ping(
    session: &mut YamuxSession,
    turn: &mut PollTurn,
    event: SessionEvent,
    now: u128,
    action: SessionAction,
    flags: Flags,
    code: u32,
)
    requires
        old(turn)@.phase is Inbound,
        event@ == EventModel::Inbound(
            InboundModel::Frame(FrameModel::Session(FrameSessionEvent::Ping(flags, code))),
        ),
        call_ensures(YamuxSession::step_at, (session, turn, event, now), action),
    ensures
        only_answers_the_ping(old(session)@, final(session)@, flags, code, now as nat),
        action@ is PollInbound,
        final(turn)@ == old(turn)@,
{
}

} // verus!
