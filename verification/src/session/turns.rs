//! What a turn of a session goes through: what it starts with, in which order it sends, reads and
//! visits the streams, and how it ends.

use vstd::prelude::*;

use crate::frame::{FrameModel, FrameSessionEvent, StreamEventModel};
use crate::packet::{Flags, StreamID};
use crate::session;
use crate::session::effects;
use crate::session::history;
use crate::session::history::{SessionOp, SessionState};
use crate::session::rtt::RttStateModel;
use crate::session::{
    ActionModel, EventModel, InboundModel, OutcomeModel, SessionModel, SessionTickEvent, Step,
    TickPoll, TurnModel,
};
use crate::stream;
use crate::stream::PulledModel;

verus! {

// === Opening ===

/// Opening a stream takes the next identifier, puts a new stream under it and changes nothing
/// else. The identifiers go up in steps of two; where they start again, 0 is left out.
pub proof fn law_open_adds_a_stream(state: SessionState)
    ensures
        ({
            let id = state.session.next_stream_id;
            let after = history::after(state, SessionOp::Open).session;
            &&& after.streams == state.session.streams.insert(id, stream::opened_head())
            &&& after.next_stream_id != 0
            &&& id < u32::MAX - 1 ==> after.next_stream_id == id + 2
            &&& id == u32::MAX - 1 ==> after.next_stream_id == 2
            &&& id == u32::MAX ==> after.next_stream_id == 1
            &&& after.out_queue == state.session.out_queue
            &&& after.manual_close == state.session.manual_close
            &&& after.rtt == state.session.rtt
            &&& after.keep_alive == state.session.keep_alive
            &&& history::after(state, SessionOp::Open).turn == state.turn
        }),
{
}

// === Keep-alive ticks ===

/// The ping with this nonce: only SYN.
pub open spec fn ping(nonce: u32) -> FrameModel {
    FrameModel::Session(
        FrameSessionEvent::Ping(Flags { syn: true, ack: false, fin: false, rst: false }, nonce),
    )
}

/// What a tick does. Between intervals, and when there are no further ones, the session stays as
/// it is. At the end of an interval, a ping that is due is queued with the next nonce and its
/// answer is waited for; while it is not due, or an answer is waited for, the session stays as it
/// is. The turn notes that it is to be woken again, or that the session is to be given up: when
/// there are no further intervals, or an answer is overdue.
pub proof fn law_tick_pings_waits_or_gives_up(
    state: SessionState,
    tick: TickPoll,
    now: nat,
    walk: Seq<u32>,
)
    requires
        history::allowed(state, SessionOp::Event(EventModel::Tick(tick), now, walk)),
    ensures
        ({
            let op = SessionOp::Event(EventModel::Tick(tick), now, walk);
            let before = state.session;
            let after = history::after(state, op);
            let due = tick is Elapsed && before.rtt.state is Waiting && now
                >= before.rtt.state->next;
            &&& !due ==> after.session == before
            &&& due ==> {
                &&& after.session.out_queue == before.out_queue.push(
                    ping((before.rtt.ping_seq + 1) as u32),
                )
                &&& after.session.rtt.ping_seq == before.rtt.ping_seq + 1
                &&& after.session.rtt.state == (RttStateModel::AwaitingPong {
                    sent_at: now,
                    nonce: (before.rtt.ping_seq + 1) as u32,
                })
                &&& after.session.rtt.cfg == before.rtt.cfg
                &&& after.session.rtt.origin == before.rtt.origin
                &&& after.session.streams == before.streams
                &&& after.session.next_stream_id == before.next_stream_id
                &&& after.session.manual_close == before.manual_close
                &&& after.session.keep_alive == before.keep_alive
            }
            &&& after.turn.tick == (if effects::keep_alive_gives_up(state, op) {
                SessionTickEvent::Close
            } else if tick is Elapsed {
                SessionTickEvent::NeedWake
            } else {
                SessionTickEvent::Idle
            })
        }),
{
}

/// A turn notes what its tick asked for, and keeps the note to its end; a new turn starts without.
#[verifier::spinoff_prover]
pub proof fn law_turn_keeps_its_tick(state: SessionState, op: SessionOp)
    requires
        history::allowed(state, op),
    ensures
        ({
            let after = history::after(state, op).turn;
            &&& op is Begin ==> after.tick is Idle && !after.sent
            &&& !(op is Begin || op is Event && op->Event_0 is Tick) ==> after.tick
                == state.turn.tick
            &&& op !is Begin ==> after.sent == (state.turn.sent || op is Event && op->Event_0
                == EventModel::Sent(true))
        }),
{
    let session = state.session;
    let turn = state.turn;
    match op {
        SessionOp::Event(EventModel::Inbound(InboundModel::Pending), now, walk) => {
            effects::lemma_walk_known(session, turn, walk);
            effects::lemma_visit_effect(
                session,
                TurnModel { visiting: walk, closed: seq![], ..turn },
            );
        },
        SessionOp::Event(EventModel::Pulled(pulled), now, walk) => {
            effects::lemma_pulled_effect(session, turn, pulled);
        },
        _ => {},
    }
}

// === Sending ===

/// A turn starts with the keep-alive interval, where there is one, and changes nothing by that.
pub proof fn law_turn_starts_with_the_interval(state: SessionState)
    ensures
        ({
            let step = history::step_of(state, SessionOp::Begin)->0;
            &&& step.session == state.session
            &&& step.action is PollTick <==> state.session.keep_alive
            &&& step.action !is Finish
        }),
{
}

/// A turn sends before it reads. After the tick, or at once where there is no interval, and again
/// after each frame that was sent, it asks the transport whether it takes a frame as long as
/// frames are queued. When none is, a session that is to close closes the transport, and any other
/// reads.
pub proof fn law_turn_sends_before_it_reads(state: SessionState, op: SessionOp)
    requires
        history::allowed(state, op),
        op is Begin && !state.session.keep_alive || op is Event && (op->Event_0 is Tick
            || state.turn.phase is SentFirst && op->Event_0 == EventModel::Sent(true)),
    ensures
        ({
            let step = history::step_of(state, op)->0;
            let queue = step.session.out_queue;
            &&& step.action is PollReady <==> queue.len() > 0
            &&& step.action is PollClose <==> queue.len() == 0 && state.session.manual_close
            &&& step.action is PollInbound <==> queue.len() == 0 && !state.session.manual_close
        }),
{
}

/// A transport that takes a frame gets the oldest one; the others stay queued in their order, and
/// nothing else changes.
pub proof fn law_ready_transport_gets_the_oldest_frame(
    state: SessionState,
    now: nat,
    walk: Seq<u32>,
)
    requires
        history::allowed(state, SessionOp::Event(EventModel::Ready(true), now, walk)),
    ensures
        ({
            let step = history::step_of(
                state,
                SessionOp::Event(EventModel::Ready(true), now, walk),
            )->0;
            &&& step.action is Send
            &&& seq![step.action->Send_0] + step.session.out_queue == state.session.out_queue
            &&& step.session == (SessionModel {
                out_queue: step.session.out_queue,
                ..state.session
            })
        }),
{
    let step = history::step_of(state, SessionOp::Event(EventModel::Ready(true), now, walk))->0;
    assert(seq![step.action->Send_0] + step.session.out_queue =~= state.session.out_queue);
}

/// A transport that takes no frame does not hold a turn up: at its start, a session that is to
/// close ends the turn, and any other reads; at its end, the turn flushes if it has sent anything.
pub proof fn law_blocked_transport_is_not_waited_for(
    state: SessionState,
    now: nat,
    walk: Seq<u32>,
)
    requires
        history::allowed(state, SessionOp::Event(EventModel::Ready(false), now, walk)),
    ensures
        ({
            let step = history::step_of(
                state,
                SessionOp::Event(EventModel::Ready(false), now, walk),
            )->0;
            let first = state.turn.phase is ReadyFirst;
            &&& first && state.session.manual_close ==> step.action == ActionModel::Finish(
                OutcomeModel::Pending,
            )
            &&& first && !state.session.manual_close ==> step.action is PollInbound
            &&& !first && state.turn.sent ==> step.action is PollFlush
            &&& !first && !state.turn.sent ==> step.action is Finish
            &&& first || state.turn.sent ==> step.session == state.session
        }),
{
}

/// What a visit leaves queued, and how the turn then goes on: as long as frames are queued, the
/// transport is asked; then it is flushed if anything was sent; else the turn ends.
pub open spec fn goes_on_to_send(turn: TurnModel, step: Step) -> bool {
    step.action !is Pull && step.action !is Release ==> {
        &&& step.action is PollReady ==> step.session.out_queue.len() > 0
        &&& step.action is PollFlush ==> step.session.out_queue.len() == 0 && turn.sent
        &&& step.action is Finish ==> !turn.sent && (turn.tick !is Close
            ==> step.session.out_queue.len() == 0)
        &&& step.action is PollReady || step.action is PollFlush || step.action is Finish
    }
}

/// How a turn goes on after a visit.
proof fn lemma_visit_goes_on(session: SessionModel, turn: TurnModel)
    ensures
        goes_on_to_send(turn, session::visit(session, turn)),
    decreases turn.visiting.len(),
{
    if turn.visiting.len() > 0 {
        let id = turn.visiting.last();
        let rest = turn.visiting.drop_last();
        if stream::is_closed(session.streams[id]) {
            lemma_visit_goes_on(
                session,
                TurnModel { visiting: rest, closed: turn.closed.push(id), ..turn },
            );
        } else {
            let next = session::drained(session, id);
            if !stream::can_pull(next.streams[id]) {
                lemma_visit_goes_on(next, TurnModel { visiting: rest, ..turn });
            }
        }
    }
}

/// A turn leaves no frame behind that the transport would take: it flushes, or ends without
/// flushing, only when nothing is queued or the transport has just said that it takes no frame.
/// This is of sessions that are not to close; those wait for the whole queue to be taken.
pub proof fn law_turn_leaves_no_frame_behind(state: SessionState, op: SessionOp)
    requires
        history::allowed(state, op),
        !state.session.manual_close,
        state.turn.tick !is Close,
        op is Event,
        op->Event_0 !is Flushed,
        op->Event_0 != EventModel::Ready(false),
        !effects::keep_alive_gives_up(state, op),
    ensures
        ({
            let step = history::step_of(state, op)->0;
            step.action is PollFlush || step.action == ActionModel::Finish(OutcomeModel::Pending)
                || step.action == ActionModel::Finish(OutcomeModel::Wake)
                ==> step.session.out_queue.len() == 0
        }),
{
    let session = state.session;
    let turn = state.turn;
    match op {
        SessionOp::Event(EventModel::Inbound(InboundModel::Pending), now, walk) => {
            lemma_visit_goes_on(session, TurnModel { visiting: walk, closed: seq![], ..turn });
        },
        SessionOp::Event(EventModel::Pulled(pulled), now, walk) => {
            lemma_visit_goes_on(effects::answered(session, turn, pulled), turn);
            lemma_visit_goes_on(
                session,
                TurnModel { visiting: turn.visiting.drop_last(), ..turn },
            );
        },
        _ => {},
    }
}

/// What a turn has handed to the transport is flushed before the turn ends, unless it hands out a
/// stream, or the session is over or is to close.
pub proof fn law_sent_frames_are_flushed(state: SessionState, op: SessionOp)
    requires
        history::allowed(state, op),
        state.turn.sent,
        !state.session.manual_close,
        op is Event,
    ensures
        ({
            let step = history::step_of(state, op)->0;
            step.action == ActionModel::Finish(OutcomeModel::Pending) || step.action
                == ActionModel::Finish(OutcomeModel::Wake) ==> op->Event_0 == EventModel::Flushed(
                false,
            )
        }),
{
    let session = state.session;
    let turn = state.turn;
    match op {
        SessionOp::Event(EventModel::Inbound(InboundModel::Pending), now, walk) => {
            lemma_visit_goes_on(session, TurnModel { visiting: walk, closed: seq![], ..turn });
        },
        SessionOp::Event(EventModel::Pulled(pulled), now, walk) => {
            lemma_visit_goes_on(effects::answered(session, turn, pulled), turn);
            lemma_visit_goes_on(
                session,
                TurnModel { visiting: turn.visiting.drop_last(), ..turn },
            );
        },
        _ => {},
    }
}

/// A turn ends as its tick asked: where the session is to be given up, it is told to close with
/// code 0; where the tick asked to be woken, the turn says so; else there is just nothing to hand
/// out. This is of sessions that are not to close already.
pub open spec fn ends_as_asked(before: SessionModel, tick: SessionTickEvent, step: Step) -> bool {
    step.action matches ActionModel::Finish(outcome) ==> outcome is Ended || outcome is Accepted
        || match tick {
        SessionTickEvent::Close => {
            &&& outcome is Pending
            &&& step.session.manual_close
            &&& step.session.out_queue.len() > 0
            &&& step.session.out_queue.last() == FrameModel::Session(FrameSessionEvent::GoAway(0))
            &&& before.out_queue.is_prefix_of(step.session.out_queue.drop_last())
        },
        SessionTickEvent::NeedWake => outcome is Wake && !step.session.manual_close,
        SessionTickEvent::Idle => outcome is Pending && !step.session.manual_close,
    }
}

/// How a visit that ends the turn ends it.
proof fn lemma_visit_ends_as_asked(session: SessionModel, turn: TurnModel)
    requires
        !session.manual_close,
    ensures
        ends_as_asked(session, turn.tick, session::visit(session, turn)),
    decreases turn.visiting.len(),
{
    if turn.visiting.len() == 0 {
        let step = session::visit(session, turn);
        if step.session.manual_close {
            assert(step.session.out_queue.drop_last() =~= session.out_queue);
        }
    } else {
        let id = turn.visiting.last();
        let rest = turn.visiting.drop_last();
        if stream::is_closed(session.streams[id]) {
            lemma_visit_ends_as_asked(
                session,
                TurnModel { visiting: rest, closed: turn.closed.push(id), ..turn },
            );
        } else {
            let next = session::drained(session, id);
            if !stream::can_pull(next.streams[id]) {
                lemma_visit_ends_as_asked(next, TurnModel { visiting: rest, ..turn });
            }
        }
    }
}

/// Every turn of a session that is not to close ends as its tick asked, unless it hands out a
/// stream or the session is over.
#[verifier::spinoff_prover]
pub proof fn law_turn_ends_as_its_tick_asked(state: SessionState, op: SessionOp)
    requires
        history::allowed(state, op),
        !state.session.manual_close,
        op is Event,
        op->Event_0 !is Closed,
    ensures
        ends_as_asked(state.session, state.turn.tick, history::step_of(state, op)->0),
{
    let session = state.session;
    let turn = state.turn;
    let step = history::step_of(state, op)->0;
    match op {
        SessionOp::Event(EventModel::Inbound(InboundModel::Pending), now, walk) => {
            lemma_visit_ends_as_asked(
                session,
                TurnModel { visiting: walk, closed: seq![], ..turn },
            );
        },
        SessionOp::Event(EventModel::Pulled(pulled), now, walk) => {
            lemma_visit_ends_as_asked(effects::answered(session, turn, pulled), turn);
            lemma_visit_ends_as_asked(
                session,
                TurnModel { visiting: turn.visiting.drop_last(), ..turn },
            );
        },
        _ => {
            if step.session.manual_close && step.action is Finish {
                assert(step.session.out_queue.drop_last() =~= session.out_queue);
            }
        },
    }
}

/// The transport of a session that is to close says whether it is closed: if so the session is
/// over, if not the turn ends and the next one asks again.
pub proof fn law_closed_transport_ends_the_session(
    state: SessionState,
    closed: bool,
    now: nat,
    walk: Seq<u32>,
)
    requires
        history::allowed(state, SessionOp::Event(EventModel::Closed(closed), now, walk)),
    ensures
        ({
            let step = history::step_of(
                state,
                SessionOp::Event(EventModel::Closed(closed), now, walk),
            )->0;
            &&& step.action == ActionModel::Finish(
                if closed {
                    OutcomeModel::Ended
                } else {
                    OutcomeModel::Pending
                },
            )
            &&& step.session == state.session
        }),
{
}

/// What the transport answers to a frame, to a flush or to being closed changes nothing of the
/// session, to be closed or not; only the end of a turn in which the keep-alive gave up has it
/// closed. Releasing a stream changes nothing but the streams.
pub proof fn law_answers_of_the_transport_change_nothing(state: SessionState, op: SessionOp)
    requires
        history::allowed(state, op),
        op is Event,
    ensures
        ({
            let after = history::after(state, op).session;
            let event = op->Event_0;
            let given_up = state.turn.tick is Close;
            &&& event is Sent || event is Closed ==> after == state.session
            &&& event is Flushed && !given_up ==> after == state.session
            &&& event is Released && !given_up ==> effects::differs_in_streams(
                state.session,
                after,
            )
            &&& event is Flushed || event is Released ==> after.streams.dom().subset_of(
                state.session.streams.dom(),
            )
        }),
{
}

// === Visiting and releasing ===

/// Whether a visit has nothing more to do on the stream: it is over, or nothing waits on it and
/// its user cannot be asked now.
pub open spec fn is_settled(session: SessionModel, id: u32) -> bool {
    session.streams.contains_key(id) ==> {
        let head = session.streams[id];
        ||| !head.local && !head.remote
        ||| head.outs.len() == 0 && !(head.local && head.opened && head.send >= 4090)
    }
}

/// Whether a visit of these streams, last first, passed over none: it stopped at the first whose
/// user can be asked, asks just this user, and has settled those before; or there is none, and all
/// are settled.
pub open spec fn passes_over_none(visiting: Seq<u32>, step: Step) -> bool {
    if step.action is Pull {
        let rest = step.turn.visiting;
        &&& 0 < rest.len() <= visiting.len()
        &&& rest == visiting.take(rest.len() as int)
        &&& step.action == ActionModel::Pull(StreamID(rest.last()))
        &&& step.session.streams[rest.last()].local
        &&& step.session.streams[rest.last()].opened
        &&& step.session.streams[rest.last()].outs.len() == 0
        &&& step.session.streams[rest.last()].send >= 4090
        &&& forall|i: int|
            rest.len() <= i < visiting.len() ==> is_settled(step.session, #[trigger] visiting[i])
    } else {
        forall|i: int|
            0 <= i < visiting.len() ==> is_settled(step.session, #[trigger] visiting[i])
    }
}

/// A visit passes over no stream.
proof fn lemma_visit_passes_over_none(session: SessionModel, turn: TurnModel)
    requires
        session::visits_known(session, turn),
    ensures
        passes_over_none(turn.visiting, session::visit(session, turn)),
    decreases turn.visiting.len(),
{
    let all = turn.visiting;
    if all.len() > 0 {
        let id = all.last();
        let rest = all.drop_last();
        let step = session::visit(session, turn);
        assert(session.streams.contains_key(all[all.len() - 1]));
        assert(forall|i: int| 0 <= i < rest.len() ==> #[trigger] rest[i] == all[i]);
        let closed = stream::is_closed(session.streams[id]);
        let next = if closed {
            session
        } else {
            session::drained(session, id)
        };
        if !closed && stream::can_pull(next.streams[id]) {
            assert(all.take(all.len() as int) =~= all);
        } else {
            let later = if closed {
                TurnModel { visiting: rest, closed: turn.closed.push(id), ..turn }
            } else {
                TurnModel { visiting: rest, ..turn }
            };
            assert(session::visits_known(next, later));
            lemma_visit_passes_over_none(next, later);
            effects::lemma_visit_effect(next, later);
            assert(step == session::visit(next, later));
            assert(is_settled(step.session, id));
            assert forall|i: int| rest.len() <= i < all.len() implies is_settled(
                step.session,
                #[trigger] all[i],
            ) by {}
            assert forall|i: int|
                0 <= i < rest.len() && is_settled(step.session, rest[i]) implies is_settled(
                step.session,
                #[trigger] all[i],
            ) by {}
            if step.action is Pull {
                let left = step.turn.visiting;
                assert(rest.take(left.len() as int) =~= all.take(left.len() as int));
            }
        }
    }
}

/// When the transport has no frame, all streams are visited and none is passed over: on each that
/// is not over, what waits is queued, and its user is asked where data can be sent.
pub proof fn law_visit_passes_over_no_stream(state: SessionState, now: nat, walk: Seq<u32>)
    requires
        history::allowed(
            state,
            SessionOp::Event(EventModel::Inbound(InboundModel::Pending), now, walk),
        ),
    ensures
        ({
            let step = history::step_of(
                state,
                SessionOp::Event(EventModel::Inbound(InboundModel::Pending), now, walk),
            )->0;
            &&& passes_over_none(walk, step)
            &&& step.action !is Pull ==> forall|id: u32| #[trigger]
                state.session.streams.contains_key(id) ==> is_settled(step.session, id)
        }),
{
    let turn = TurnModel { visiting: walk, closed: seq![], ..state.turn };
    let step = session::visit(state.session, turn);
    effects::lemma_walk_known(state.session, state.turn, walk);
    lemma_visit_passes_over_none(state.session, turn);
    assert forall|id: u32| step.action !is Pull && #[trigger] state.session.streams.contains_key(
        id,
    ) implies is_settled(step.session, id) by {
        assert(walk.contains(id));
        let i = choose|i: int| 0 <= i < walk.len() && walk[i] == id;
        assert(is_settled(step.session, walk[i]));
    }
}

/// When a user has answered, the visit goes on: with the same stream, if the user gave a chunk or
/// writes no more, and else with the streams behind it.
pub proof fn law_visit_goes_on_after_an_answer(
    state: SessionState,
    pulled: PulledModel,
    now: nat,
    walk: Seq<u32>,
)
    requires
        history::allowed(state, SessionOp::Event(EventModel::Pulled(pulled), now, walk)),
    ensures
        ({
            let step = history::step_of(
                state,
                SessionOp::Event(EventModel::Pulled(pulled), now, walk),
            )->0;
            let visiting = state.turn.visiting;
            if pulled is Pending {
                passes_over_none(visiting.drop_last(), step)
            } else {
                passes_over_none(visiting, step)
            }
        }),
{
    let session = state.session;
    let turn = state.turn;
    let rest = turn.visiting.drop_last();
    assert(session.streams.contains_key(turn.visiting[turn.visiting.len() - 1]));
    assert(forall|i: int| 0 <= i < rest.len() ==> #[trigger] rest[i] == turn.visiting[i]);
    if pulled is Pending {
        lemma_visit_passes_over_none(session, TurnModel { visiting: rest, ..turn });
    } else {
        let next = effects::answered(session, turn, pulled);
        assert(session::visits_known(next, turn));
        lemma_visit_passes_over_none(next, turn);
    }
}

/// What a user gives is queued at once: a chunk as its header and the chunk, the end as FIN; a
/// user that has nothing yet has nothing queued. It all goes behind what is queued.
pub proof fn law_answer_of_a_user_is_queued(
    state: SessionState,
    pulled: PulledModel,
    now: nat,
    walk: Seq<u32>,
)
    requires
        history::allowed(state, SessionOp::Event(EventModel::Pulled(pulled), now, walk)),
    ensures
        ({
            let id = StreamID(state.turn.visiting.last());
            let after = history::after(
                state,
                SessionOp::Event(EventModel::Pulled(pulled), now, walk),
            ).session;
            let none = Flags { syn: false, ack: false, fin: false, rst: false };
            let fin = Flags { syn: false, ack: false, fin: true, rst: false };
            match pulled {
                PulledModel::Chunk(bytes) => (state.session.out_queue + seq![
                    FrameModel::Stream(id, StreamEventModel::Data(none, bytes.len() as u32)),
                    FrameModel::Stream(id, StreamEventModel::DataChunk(bytes)),
                ]).is_prefix_of(after.out_queue),
                PulledModel::Ended => state.session.out_queue.push(
                    FrameModel::Stream(id, StreamEventModel::WindowUpdate(fin, 0)),
                ).is_prefix_of(after.out_queue),
                PulledModel::Pending => state.session.out_queue.is_prefix_of(after.out_queue),
            }
        }),
{
    let session = state.session;
    let turn = state.turn;
    let id = turn.visiting.last();
    let next = effects::answered(session, turn, pulled);
    match pulled {
        PulledModel::Chunk(bytes) => {
            let drained = session::drained(next, id);
            let none = Flags { syn: false, ack: false, fin: false, rst: false };
            assert(drained.out_queue =~= session.out_queue + seq![
                FrameModel::Stream(
                    StreamID(id),
                    StreamEventModel::Data(none, bytes.len() as u32),
                ),
                FrameModel::Stream(StreamID(id), StreamEventModel::DataChunk(bytes)),
            ]);
            if !stream::can_pull(drained.streams[id]) {
                history::lemma_visit_queues_behind(
                    drained,
                    TurnModel { visiting: turn.visiting.drop_last(), ..turn },
                );
            }
        },
        PulledModel::Ended => {
            history::lemma_visit_queues_behind(next, turn);
        },
        PulledModel::Pending => {
            history::lemma_visit_queues_behind(
                session,
                TurnModel { visiting: turn.visiting.drop_last(), ..turn },
            );
        },
    }
}

/// Streams that are put aside are over.
pub open spec fn aside_is_over(session: SessionModel, closed: Seq<u32>) -> bool {
    forall|i: int|
        0 <= i < closed.len() && session.streams.contains_key(#[trigger] closed[i])
            ==> !session.streams[closed[i]].local && !session.streams[closed[i]].remote
}

/// The streams that a turn has put aside are over, and are put aside only while it visits and
/// releases.
pub open spec fn puts_aside_what_is_over(session: SessionModel, turn: TurnModel) -> bool {
    &&& aside_is_over(session, turn.closed)
    &&& !(turn.phase is Pulling || turn.phase is Releasing) ==> turn.closed.len() == 0
}

/// The action releases only a stream that was over.
pub open spec fn releases_what_is_over(before: SessionModel, action: ActionModel) -> bool {
    action matches ActionModel::Release(stream_id) ==> {
        before.streams.contains_key(stream_id.0) ==> !before.streams[stream_id.0].local
            && !before.streams[stream_id.0].remote
    }
}

/// A visit puts aside, and releases, only streams that are over.
proof fn lemma_visit_puts_aside(session: SessionModel, turn: TurnModel)
    requires
        session::visits_known(session, turn),
        aside_is_over(session, turn.closed),
    ensures
        puts_aside_what_is_over(
            session::visit(session, turn).session,
            session::visit(session, turn).turn,
        ),
        releases_what_is_over(session, session::visit(session, turn).action),
    decreases turn.visiting.len(),
{
    if turn.visiting.len() == 0 {
        lemma_release_puts_aside(session, turn);
    } else {
        let id = turn.visiting.last();
        let rest = turn.visiting.drop_last();
        assert(session.streams.contains_key(turn.visiting[turn.visiting.len() - 1]));
        assert(forall|i: int| 0 <= i < rest.len() ==> #[trigger] rest[i] == turn.visiting[i]);
        if stream::is_closed(session.streams[id]) {
            let closed = turn.closed.push(id);
            assert forall|i: int|
                0 <= i < closed.len() && session.streams.contains_key(
                    #[trigger] closed[i],
                ) implies !session.streams[closed[i]].local
                && !session.streams[closed[i]].remote by {
                if i < turn.closed.len() {
                    assert(closed[i] == turn.closed[i]);
                }
            }
            lemma_visit_puts_aside(session, TurnModel { visiting: rest, closed, ..turn });
        } else {
            let next = session::drained(session, id);
            assert forall|i: int|
                0 <= i < turn.closed.len() && next.streams.contains_key(
                    #[trigger] turn.closed[i],
                ) implies !next.streams[turn.closed[i]].local
                && !next.streams[turn.closed[i]].remote by {
                assert(session.streams.contains_key(turn.closed[i]));
            }
            if !stream::can_pull(next.streams[id]) {
                let later = TurnModel { visiting: rest, ..turn };
                assert(session::visits_known(next, later));
                lemma_visit_puts_aside(next, later);
            }
        }
    }
}

/// A release takes only streams that are over.
proof fn lemma_release_puts_aside(session: SessionModel, turn: TurnModel)
    requires
        aside_is_over(session, turn.closed),
    ensures
        puts_aside_what_is_over(
            session::release(session, turn).session,
            session::release(session, turn).turn,
        ),
        releases_what_is_over(session, session::release(session, turn).action),
{
    if turn.closed.len() > 0 {
        let rest = turn.closed.drop_last();
        assert(forall|i: int| 0 <= i < rest.len() ==> #[trigger] rest[i] == turn.closed[i]);
        assert(turn.closed[turn.closed.len() - 1] == turn.closed.last());
    }
}

/// Only a stream that is over is released: whatever a session goes through, a release is of a
/// stream both of whose halves are closed, be it that its user has just said to write no more; and
/// what a turn puts aside for it is so too.
#[verifier::spinoff_prover]
pub proof fn law_only_streams_that_are_over_are_released(state: SessionState, op: SessionOp)
    requires
        history::allowed(state, op),
        puts_aside_what_is_over(state.session, state.turn),
    ensures
        puts_aside_what_is_over(
            history::after(state, op).session,
            history::after(state, op).turn,
        ),
        history::step_of(state, op) matches Some(step) ==> (step.action matches ActionModel::Release(
            stream_id,
        ) ==> state.session.streams.contains_key(stream_id.0) ==> {
            let head = state.session.streams[stream_id.0];
            &&& !head.remote
            &&& head.local ==> effects::is_answer_of(state, op, stream_id.0) && op->Event_0->Pulled_0
                is Ended
        }),
{
    let session = state.session;
    let turn = state.turn;
    match op {
        SessionOp::Event(EventModel::Inbound(InboundModel::Pending), now, walk) => {
            effects::lemma_walk_known(session, turn, walk);
            lemma_visit_puts_aside(session, TurnModel { visiting: walk, closed: seq![], ..turn });
        },
        SessionOp::Event(EventModel::Pulled(pulled), now, walk) => {
            let id = turn.visiting.last();
            let rest = turn.visiting.drop_last();
            let next = effects::answered(session, turn, pulled);
            assert(session.streams.contains_key(turn.visiting[turn.visiting.len() - 1]));
            assert(forall|i: int| 0 <= i < rest.len() ==> #[trigger] rest[i] == turn.visiting[i]);
            assert forall|i: int|
                0 <= i < turn.closed.len() && next.streams.contains_key(
                    #[trigger] turn.closed[i],
                ) implies !next.streams[turn.closed[i]].local
                && !next.streams[turn.closed[i]].remote by {
                assert(session.streams.contains_key(turn.closed[i]));
            }
            assert(session::visits_known(next, turn));
            lemma_visit_puts_aside(next, turn);
            lemma_visit_puts_aside(session, TurnModel { visiting: rest, ..turn });
        },
        SessionOp::Event(EventModel::Released, now, walk) => {
            lemma_release_puts_aside(session, turn);
        },
        _ => {},
    }
}

// === Actions and answers ===

/// The events that answer an action.
pub open spec fn answers(action: ActionModel, event: EventModel) -> bool {
    match action {
        ActionModel::PollTick => event is Tick,
        ActionModel::PollReady => event is Ready,
        ActionModel::Send(_) => event is Sent,
        ActionModel::PollClose => event is Closed,
        ActionModel::PollInbound => event is Inbound,
        ActionModel::Deliver(_, _) => event is Delivered,
        ActionModel::Pull(_) => event is Pulled,
        ActionModel::Release(_) => event is Released,
        ActionModel::PollFlush => event is Flushed,
        ActionModel::Finish(_) => false,
    }
}

/// A visit waits for the answer to what it asks.
proof fn lemma_visit_takes_answers(session: SessionModel, turn: TurnModel, event: EventModel)
    ensures
        session::expected(session::visit(session, turn).turn.phase, event) == answers(
            session::visit(session, turn).action,
            event,
        ),
    decreases turn.visiting.len(),
{
    if turn.visiting.len() > 0 {
        let id = turn.visiting.last();
        let rest = turn.visiting.drop_last();
        if stream::is_closed(session.streams[id]) {
            lemma_visit_takes_answers(
                session,
                TurnModel { visiting: rest, closed: turn.closed.push(id), ..turn },
                event,
            );
        } else {
            let next = session::drained(session, id);
            if !stream::can_pull(next.streams[id]) {
                lemma_visit_takes_answers(next, TurnModel { visiting: rest, ..turn }, event);
            }
        }
    }
}

/// A turn takes the answer to what it asked for, and nothing else; once it has ended it takes
/// nothing.
#[verifier::spinoff_prover]
pub proof fn law_turn_takes_the_answer_it_asked_for(
    state: SessionState,
    op: SessionOp,
    event: EventModel,
)
    requires
        history::allowed(state, op),
        op is Begin || op is Event,
    ensures
        ({
            let step = history::step_of(state, op)->0;
            session::expected(step.turn.phase, event) == answers(step.action, event)
        }),
{
    let session = state.session;
    let turn = state.turn;
    match op {
        SessionOp::Event(EventModel::Inbound(InboundModel::Pending), now, walk) => {
            lemma_visit_takes_answers(
                session,
                TurnModel { visiting: walk, closed: seq![], ..turn },
                event,
            );
        },
        SessionOp::Event(EventModel::Pulled(pulled), now, walk) => {
            lemma_visit_takes_answers(effects::answered(session, turn, pulled), turn, event);
            lemma_visit_takes_answers(
                session,
                TurnModel { visiting: turn.visiting.drop_last(), ..turn },
                event,
            );
        },
        _ => {},
    }
}

/// Every event fits, but for a tick when all nonces are used, a window update that takes a send
/// window beyond 64 bits, and a chunk of a user of more than 4090 bytes.
pub proof fn law_only_full_counters_refuse_events(session: SessionModel, event: EventModel)
    ensures
        session::event_fits(session, event) <==> match event {
            EventModel::Tick(TickPoll::Elapsed) => !(session.rtt.state is Waiting
                && session.rtt.ping_seq == u32::MAX),
            EventModel::Inbound(
                InboundModel::Frame(
                    FrameModel::Stream(stream_id, StreamEventModel::WindowUpdate(_, delta)),
                ),
            ) => !(session.streams.contains_key(stream_id.0)
                && session.streams[stream_id.0].send + delta > u64::MAX),
            EventModel::Pulled(PulledModel::Chunk(bytes)) => bytes.len() <= 4090,
            _ => true,
        },
{
}

// === Frames of the session ===

/// The frames of the session among these.
pub open spec fn control_frames(frames: Seq<FrameModel>) -> Seq<FrameModel>
    decreases frames.len(),
{
    if frames.len() == 0 {
        seq![]
    } else if frames.last() is Session {
        control_frames(frames.drop_last()).push(frames.last())
    } else {
        control_frames(frames.drop_last())
    }
}

/// The GoAway of a session that was given up.
pub open spec fn farewell(given_up: bool) -> Seq<FrameModel> {
    if given_up {
        seq![FrameModel::Session(FrameSessionEvent::GoAway(0))]
    } else {
        seq![]
    }
}

/// The frames of the session that a use calls for: a GoAway when it is told to close or the
/// keep-alive has given it up, a pong for a ping, and a ping that is due.
pub open spec fn called_for(state: SessionState, op: SessionOp) -> Seq<FrameModel> {
    match op {
        SessionOp::Close(code) => seq![FrameModel::Session(FrameSessionEvent::GoAway(code))],
        SessionOp::Ping(flags, code, _) => if flags.syn && !flags.ack {
            seq![effects::pong(code)]
        } else {
            seq![]
        },
        SessionOp::Event(EventModel::Tick(tick), now, _) => {
            let rtt = state.session.rtt;
            if tick is Elapsed && rtt.state is Waiting && now >= rtt.state->next {
                seq![ping((rtt.ping_seq + 1) as u32)]
            } else {
                seq![]
            }
        },
        SessionOp::Event(
            EventModel::Inbound(
                InboundModel::Frame(FrameModel::Session(FrameSessionEvent::Ping(flags, code))),
            ),
            _,
            _,
        ) => if flags.syn && !flags.ack {
            seq![effects::pong(code)]
        } else {
            seq![]
        },
        _ => farewell(history::after(state, op).session.manual_close),
    }
}

/// Frames behind others keep their order.
proof fn lemma_control_append(frames: Seq<FrameModel>, more: Seq<FrameModel>)
    ensures
        control_frames(frames + more) == control_frames(frames) + control_frames(more),
    decreases more.len(),
{
    if more.len() == 0 {
        assert(frames + more =~= frames);
        assert(control_frames(frames) + control_frames(more) =~= control_frames(frames));
    } else {
        lemma_control_append(frames, more.drop_last());
        assert((frames + more).drop_last() =~= frames + more.drop_last());
        assert(control_frames(frames + more) =~= control_frames(frames) + control_frames(more));
    }
}

/// A further frame of the session is the last.
proof fn lemma_control_push(frames: Seq<FrameModel>, frame: FrameModel)
    ensures
        control_frames(frames.push(frame)) == (if frame is Session {
            control_frames(frames).push(frame)
        } else {
            control_frames(frames)
        }),
{
    assert(frames.push(frame).drop_last() =~= frames);
}

/// The frames of a stream are none of the session.
proof fn lemma_control_of_stream(id: u32, events: Seq<StreamEventModel>)
    ensures
        control_frames(session::stream_frames(id, events)) == Seq::<FrameModel>::empty(),
    decreases events.len(),
{
    let frames = session::stream_frames(id, events);
    if events.len() > 0 {
        lemma_control_of_stream(id, events.drop_last());
        assert(frames.drop_last() =~= session::stream_frames(id, events.drop_last()));
    }
}

/// A visit queues no frame of the session but the GoAway of one that was given up.
proof fn lemma_visit_queues_no_control(session: SessionModel, turn: TurnModel)
    requires
        !session.manual_close,
    ensures
        ({
            let next = session::visit(session, turn).session;
            control_frames(next.out_queue) == control_frames(session.out_queue) + farewell(
                next.manual_close,
            )
        }),
    decreases turn.visiting.len(),
{
    let next = session::visit(session, turn).session;
    if turn.visiting.len() == 0 {
        lemma_control_push(session.out_queue, FrameModel::Session(FrameSessionEvent::GoAway(0)));
        assert(control_frames(next.out_queue) =~= control_frames(session.out_queue) + farewell(
            next.manual_close,
        ));
    } else {
        let id = turn.visiting.last();
        let rest = turn.visiting.drop_last();
        if stream::is_closed(session.streams[id]) {
            lemma_visit_queues_no_control(
                session,
                TurnModel { visiting: rest, closed: turn.closed.push(id), ..turn },
            );
        } else {
            let between = session::drained(session, id);
            let events = session.streams[id].outs;
            lemma_control_append(session.out_queue, session::stream_frames(id, events));
            lemma_control_of_stream(id, events);
            assert(control_frames(between.out_queue) =~= control_frames(session.out_queue));
            if !stream::can_pull(between.streams[id]) {
                lemma_visit_queues_no_control(between, TurnModel { visiting: rest, ..turn });
            } else {
                assert(control_frames(next.out_queue) =~= control_frames(session.out_queue)
                    + farewell(next.manual_close));
            }
        }
    }
}

/// A session sends no frame of its own but those that are called for: over each use, the frames of
/// the session that are sent and queued are those that were queued and, behind them, the one that
/// the use calls for, if any. This is of sessions that are not to close yet.
#[verifier::spinoff_prover]
pub proof fn law_session_sends_only_what_is_called_for(state: SessionState, op: SessionOp)
    requires
        history::allowed(state, op),
        !state.session.manual_close,
    ensures
        control_frames(history::sent_by(state, op) + history::after(state, op).session.out_queue)
            == control_frames(state.session.out_queue) + called_for(state, op),
{
    let session = state.session;
    let turn = state.turn;
    let queue = session.out_queue;
    let after = history::after(state, op).session;
    let all = history::sent_by(state, op) + after.out_queue;
    let go_away = FrameModel::Session(FrameSessionEvent::GoAway(0));
    lemma_control_push(queue, go_away);
    match op {
        SessionOp::Close(code) => {
            lemma_control_push(queue, FrameModel::Session(FrameSessionEvent::GoAway(code)));
        },
        SessionOp::Ping(flags, code, _) => {
            lemma_control_push(queue, effects::pong(code));
        },
        SessionOp::Event(EventModel::Tick(tick), now, walk) => {
            law_tick_pings_waits_or_gives_up(state, tick, now, walk);
            lemma_control_push(queue, ping((session.rtt.ping_seq + 1) as u32));
        },
        SessionOp::Event(EventModel::Ready(true), now, walk) => {
            law_ready_transport_gets_the_oldest_frame(state, now, walk);
            assert(all =~= queue);
        },
        SessionOp::Event(
            EventModel::Inbound(
                InboundModel::Frame(FrameModel::Session(FrameSessionEvent::Ping(_, code))),
            ),
            _,
            _,
        ) => {
            lemma_control_push(queue, effects::pong(code));
        },
        SessionOp::Event(EventModel::Inbound(InboundModel::Pending), now, walk) => {
            effects::lemma_walk_known(session, turn, walk);
            let visiting = TurnModel { visiting: walk, closed: seq![], ..turn };
            effects::lemma_visit_effect(session, visiting);
            lemma_visit_queues_no_control(session, visiting);
        },
        SessionOp::Event(EventModel::Pulled(pulled), now, walk) => {
            let id = turn.visiting.last();
            let next = effects::answered(session, turn, pulled);
            effects::lemma_pulled_effect(session, turn, pulled);
            if next.out_queue != queue {
                lemma_control_push(queue, next.out_queue.last());
            }
            lemma_visit_queues_no_control(next, turn);
            lemma_visit_queues_no_control(
                session,
                TurnModel { visiting: turn.visiting.drop_last(), ..turn },
            );
        },
        _ => {},
    }
    if history::sent_by(state, op).len() == 0 {
        assert(all =~= after.out_queue);
    }
    assert(control_frames(all) =~= control_frames(queue) + called_for(state, op));
}

} // verus!
