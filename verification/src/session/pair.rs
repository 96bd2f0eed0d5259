//! Two sessions at the ends of one connection, and that what a user writes into a stream at one
//! end is what the user of the stream reads at the other.

use std::time::Instant;

use vstd::prelude::*;

use crate::frame;
use crate::frame::{FrameModel, FrameSessionEvent, StreamEventModel};
use crate::packet::StreamID;
use crate::session;
use crate::session::history;
use crate::session::history::{SessionOp, SessionState};
use crate::session::{
    ActionModel, EventModel, InboundModel, OutcomeModel, SessionModel, Step, TurnModel,
    YamuxSessionConfig,
};
use crate::stream;
use crate::stream::{HeadModel, HeadPollModel, PulledModel};
use crate::wire;
use crate::wire::Item;

verus! {

// === Two sessions ===

/// One end of a connection: a session, and what happened there so far.
pub struct Side {
    pub state: SessionState,
    /// The frames that were handed to the transport.
    pub sent: Seq<FrameModel>,
    /// The frames that came from the transport.
    pub got: Seq<FrameModel>,
    /// The chunks that users wrote, each with its stream.
    pub written: Seq<(u32, Seq<u8>)>,
    /// The chunks that were delivered to users, each with its stream.
    pub delivered: Seq<(u32, Seq<u8>)>,
}

/// The two ends of a connection.
pub struct Pair {
    pub client: Side,
    pub server: Side,
}

/// One use of one of the two sessions.
pub struct PairOp {
    pub at_client: bool,
    pub op: SessionOp,
}

/// The frames that a use takes from the transport.
pub open spec fn got_by(op: SessionOp) -> Seq<FrameModel> {
    match op {
        SessionOp::Event(EventModel::Inbound(InboundModel::Frame(frame)), _, _) => seq![frame],
        _ => seq![],
    }
}

/// The chunks that a use takes from users.
pub open spec fn written_by(state: SessionState, op: SessionOp) -> Seq<(u32, Seq<u8>)> {
    match op {
        SessionOp::Event(EventModel::Pulled(PulledModel::Chunk(bytes)), _, _) => seq![
            (state.turn.visiting.last(), bytes),
        ],
        _ => seq![],
    }
}

/// The chunks that an action delivers to users.
pub open spec fn delivered_in(action: ActionModel) -> Seq<(u32, Seq<u8>)> {
    match action {
        ActionModel::Deliver(stream_id, bytes) => seq![(stream_id.0, bytes)],
        ActionModel::Finish(OutcomeModel::Accepted(stream_id, Some(bytes))) => seq![
            (stream_id.0, bytes),
        ],
        _ => seq![],
    }
}

/// The chunks that a use delivers to users.
pub open spec fn delivered_by(state: SessionState, op: SessionOp) -> Seq<(u32, Seq<u8>)> {
    match history::step_of(state, op) {
        Some(step) => delivered_in(step.action),
        None => seq![],
    }
}

/// One end after a use.
pub open spec fn side_after(side: Side, op: SessionOp) -> Side {
    Side {
        state: history::after(side.state, op),
        sent: side.sent + history::sent_by(side.state, op),
        got: side.got + got_by(op),
        written: side.written + written_by(side.state, op),
        delivered: side.delivered + delivered_by(side.state, op),
    }
}

/// What a connection can have brought of `sent`: frames in order, whose meaning is the start of
/// what was sent, with chunks that hold bytes. A reader yields such frames, however the bytes were
/// cut and delayed on the way.
pub open spec fn arrives(got: Seq<FrameModel>, sent: Seq<FrameModel>) -> bool {
    &&& wire::write_all(None, got) is Ok
    &&& wire::items_of_all(got).is_prefix_of(wire::items_of_all(sent))
    &&& wire::chunks_hold_bytes(got)
}

/// When a use of one end is in order: frames that come were sent at the other end before, and the
/// identifiers have not run out.
pub open spec fn side_allowed(side: Side, peer: Side, op: SessionOp) -> bool {
    &&& history::allowed(side.state, op)
    &&& op is Open ==> side.state.session.next_stream_id + 2 <= u32::MAX
    &&& arrives(side.got + got_by(op), peer.sent)
}

/// When a use is in order.
pub open spec fn pair_allowed(pair: Pair, op: PairOp) -> bool {
    if op.at_client {
        side_allowed(pair.client, pair.server, op.op)
    } else {
        side_allowed(pair.server, pair.client, op.op)
    }
}

/// The two ends after a use.
pub open spec fn pair_after(pair: Pair, op: PairOp) -> Pair {
    if op.at_client {
        Pair { client: side_after(pair.client, op.op), ..pair }
    } else {
        Pair { server: side_after(pair.server, op.op), ..pair }
    }
}

/// Every use of a run is in order.
pub open spec fn pair_run_allowed(pair: Pair, ops: Seq<PairOp>) -> bool
    decreases ops.len(),
{
    ops.len() > 0 ==> pair_allowed(pair, ops[0]) && pair_run_allowed(
        pair_after(pair, ops[0]),
        ops.drop_first(),
    )
}

/// The two ends after a run.
pub open spec fn pair_after_all(pair: Pair, ops: Seq<PairOp>) -> Pair
    decreases ops.len(),
{
    if ops.len() == 0 {
        pair
    } else {
        pair_after_all(pair_after(pair, ops[0]), ops.drop_first())
    }
}

/// One end before anything happened.
pub open spec fn new_side(is_server: bool, cfg: YamuxSessionConfig, origin: Instant) -> Side {
    Side {
        state: history::initial(is_server, cfg, origin),
        sent: seq![],
        got: seq![],
        written: seq![],
        delivered: seq![],
    }
}

/// The bytes of one stream among chunks.
pub open spec fn bytes_for(id: u32, chunks: Seq<(u32, Seq<u8>)>) -> Seq<u8>
    decreases chunks.len(),
{
    if chunks.len() == 0 {
        seq![]
    } else {
        bytes_for(id, chunks.drop_last()) + (if chunks.last().0 == id {
            chunks.last().1
        } else {
            seq![]
        })
    }
}

/// No chunk belongs to the stream.
pub open spec fn none_of(id: u32, chunks: Seq<(u32, Seq<u8>)>) -> bool {
    forall|i: int| 0 <= i < chunks.len() ==> (#[trigger] chunks[i]).0 != id
}

// === What concerns one stream ===

/// The events of one stream among frames.
pub open spec fn events_of(id: u32, frames: Seq<FrameModel>) -> Seq<StreamEventModel>
    decreases frames.len(),
{
    if frames.len() == 0 {
        seq![]
    } else {
        let before = events_of(id, frames.drop_last());
        match frames.last() {
            FrameModel::Stream(stream_id, event) => if stream_id.0 == id {
                before.push(event)
            } else {
                before
            },
            FrameModel::Session(_) => before,
        }
    }
}

/// The item concerns one stream.
pub open spec fn concerns(id: u32, item: Item) -> bool {
    match item {
        Item::Announced(FrameModel::Stream(stream_id, _)) => stream_id.0 == id,
        Item::Payload(stream_id, _) => stream_id.0 == id,
        _ => false,
    }
}

/// The items that concern one stream.
pub open spec fn about(id: u32, items: Seq<Item>) -> Seq<Item>
    decreases items.len(),
{
    if items.len() == 0 {
        seq![]
    } else {
        let before = about(id, items.drop_last());
        if concerns(id, items.last()) {
            before.push(items.last())
        } else {
            before
        }
    }
}

/// The items of events of one stream.
pub open spec fn event_items(id: u32, events: Seq<StreamEventModel>) -> Seq<Item> {
    wire::items_of_all(session::stream_frames(id, events))
}

/// The payload bytes among items.
pub open spec fn payload_of(items: Seq<Item>) -> Seq<u8>
    decreases items.len(),
{
    if items.len() == 0 {
        seq![]
    } else {
        let before = payload_of(items.drop_last());
        match items.last() {
            Item::Payload(_, byte) => before.push(byte),
            _ => before,
        }
    }
}

/// Frames have their items one after the other.
proof fn lemma_items_append(frames: Seq<FrameModel>, more: Seq<FrameModel>)
    ensures
        wire::items_of_all(frames + more) == wire::items_of_all(frames) + wire::items_of_all(more),
    decreases frames.len(),
{
    if frames.len() == 0 {
        assert(frames + more =~= more);
        assert(wire::items_of_all(frames) + wire::items_of_all(more) =~= wire::items_of_all(more));
    } else {
        lemma_items_append(frames.drop_first(), more);
        assert((frames + more).drop_first() =~= frames.drop_first() + more);
        assert(wire::items_of_all(frames + more) =~= wire::items_of_all(frames)
            + wire::items_of_all(more));
    }
}

/// A single frame has its own items.
proof fn lemma_items_one(frame: FrameModel)
    ensures
        wire::items_of_all(seq![frame]) == wire::items_of(frame),
{
    reveal_with_fuel(wire::items_of_all, 2);
    assert(seq![frame].drop_first() =~= seq![]);
    assert(wire::items_of_all(seq![frame]) =~= wire::items_of(frame));
}

/// What concerns a stream comes one after the other.
proof fn lemma_about_append(id: u32, items: Seq<Item>, more: Seq<Item>)
    ensures
        about(id, items + more) == about(id, items) + about(id, more),
    decreases more.len(),
{
    if more.len() == 0 {
        assert(items + more =~= items);
        assert(about(id, items) + about(id, more) =~= about(id, items));
    } else {
        lemma_about_append(id, items, more.drop_last());
        assert((items + more).drop_last() =~= items + more.drop_last());
        assert(about(id, items + more) =~= about(id, items) + about(id, more));
    }
}

/// All of these items concern the stream, or none of them.
proof fn lemma_about_all(id: u32, items: Seq<Item>, all: bool)
    requires
        forall|i: int| 0 <= i < items.len() ==> concerns(id, #[trigger] items[i]) == all,
    ensures
        about(id, items) == (if all {
            items
        } else {
            seq![]
        }),
    decreases items.len(),
{
    if items.len() > 0 {
        assert forall|i: int| 0 <= i < items.drop_last().len() implies concerns(
            id,
            #[trigger] items.drop_last()[i],
        ) == all by {
            assert(items.drop_last()[i] == items[i]);
        }
        lemma_about_all(id, items.drop_last(), all);
        assert(concerns(id, items[items.len() - 1]) == all);
        if all {
            assert(items.drop_last().push(items.last()) =~= items);
        }
    }
}

/// The items of a frame concern its stream only.
proof fn lemma_about_frame(id: u32, frame: FrameModel)
    ensures
        about(id, wire::items_of(frame)) == (match frame {
            FrameModel::Stream(stream_id, _) => if stream_id.0 == id {
                wire::items_of(frame)
            } else {
                seq![]
            },
            FrameModel::Session(_) => seq![],
        }),
{
    let all = frame matches FrameModel::Stream(stream_id, _) && stream_id.0 == id;
    let items = wire::items_of(frame);
    assert forall|i: int| 0 <= i < items.len() implies concerns(id, #[trigger] items[i]) == all by {}
    lemma_about_all(id, items, all);
}

/// The events of a stream come one after the other.
proof fn lemma_events_append(id: u32, frames: Seq<FrameModel>, more: Seq<FrameModel>)
    ensures
        events_of(id, frames + more) == events_of(id, frames) + events_of(id, more),
    decreases more.len(),
{
    if more.len() == 0 {
        assert(frames + more =~= frames);
        assert(events_of(id, frames) + events_of(id, more) =~= events_of(id, frames));
    } else {
        lemma_events_append(id, frames, more.drop_last());
        assert((frames + more).drop_last() =~= frames + more.drop_last());
        assert(events_of(id, frames + more) =~= events_of(id, frames) + events_of(id, more));
    }
}

/// The events of frames of one stream.
proof fn lemma_events_of_stream(id: u32, other: u32, events: Seq<StreamEventModel>)
    ensures
        events_of(id, session::stream_frames(other, events)) == (if id == other {
            events
        } else {
            seq![]
        }),
    decreases events.len(),
{
    let frames = session::stream_frames(other, events);
    if events.len() > 0 {
        lemma_events_of_stream(id, other, events.drop_last());
        assert(frames.drop_last() =~= session::stream_frames(other, events.drop_last()));
        assert(events.drop_last().push(events.last()) =~= events);
    } else {
        assert(events =~= seq![]);
    }
}

/// An event more has its items behind.
proof fn lemma_event_items_push(id: u32, events: Seq<StreamEventModel>, event: StreamEventModel)
    ensures
        event_items(id, events.push(event)) == event_items(id, events) + wire::items_of(
            FrameModel::Stream(StreamID(id), event),
        ),
{
    let frame = FrameModel::Stream(StreamID(id), event);
    let frames = session::stream_frames(id, events);
    lemma_items_append(frames, seq![frame]);
    lemma_items_one(frame);
    assert(session::stream_frames(id, events.push(event)) =~= frames + seq![frame]);
}

/// What concerns a stream among the items of frames are the items of its events.
proof fn lemma_about_frames(id: u32, frames: Seq<FrameModel>)
    ensures
        about(id, wire::items_of_all(frames)) == event_items(id, events_of(id, frames)),
    decreases frames.len(),
{
    if frames.len() == 0 {
        assert(session::stream_frames(id, events_of(id, frames)) =~= seq![]);
    } else {
        let before = frames.drop_last();
        let last = frames.last();
        lemma_about_frames(id, before);
        assert(frames =~= before + seq![last]);
        lemma_items_append(before, seq![last]);
        lemma_items_one(last);
        lemma_about_append(id, wire::items_of_all(before), wire::items_of(last));
        lemma_about_frame(id, last);
        if let FrameModel::Stream(stream_id, event) = last {
            if stream_id.0 == id {
                assert(stream_id == StreamID(id));
                lemma_event_items_push(id, events_of(id, before), event);
            }
        }
        assert(about(id, wire::items_of_all(frames)) =~= event_items(id, events_of(id, frames)));
    }
}

/// Payload bytes come one after the other.
proof fn lemma_payload_append(items: Seq<Item>, more: Seq<Item>)
    ensures
        payload_of(items + more) == payload_of(items) + payload_of(more),
    decreases more.len(),
{
    if more.len() == 0 {
        assert(items + more =~= items);
        assert(payload_of(items) + payload_of(more) =~= payload_of(items));
    } else {
        lemma_payload_append(items, more.drop_last());
        assert((items + more).drop_last() =~= items + more.drop_last());
        assert(payload_of(items + more) =~= payload_of(items) + payload_of(more));
    }
}

/// The payload of payload bytes is these bytes.
proof fn lemma_payload_items(stream_id: StreamID, bytes: Seq<u8>)
    ensures
        payload_of(wire::payload_items(stream_id, bytes)) == bytes,
    decreases bytes.len(),
{
    let items = wire::payload_items(stream_id, bytes);
    if bytes.len() > 0 {
        lemma_payload_items(stream_id, bytes.drop_last());
        assert(items.drop_last() =~= wire::payload_items(stream_id, bytes.drop_last()));
        assert(bytes.drop_last().push(bytes.last()) =~= bytes);
    } else {
        assert(bytes =~= seq![]);
    }
}

/// The payload in the items of a frame is what its event carries.
proof fn lemma_payload_of_event(id: u32, event: StreamEventModel)
    ensures
        payload_of(wire::items_of(FrameModel::Stream(StreamID(id), event))) == stream::carried(
            event,
        ),
{
    match event {
        StreamEventModel::DataChunk(bytes) => {
            lemma_payload_items(StreamID(id), bytes);
        },
        _ => {
            reveal_with_fuel(payload_of, 2);
        },
    }
}

/// The payload in the items of events is what they carry.
proof fn lemma_payload_of_events(id: u32, events: Seq<StreamEventModel>)
    ensures
        payload_of(event_items(id, events)) == stream::carried_by(events),
    decreases events.len(),
{
    if events.len() == 0 {
        assert(session::stream_frames(id, events) =~= seq![]);
    } else {
        let before = events.drop_last();
        lemma_payload_of_events(id, before);
        lemma_event_items_push(id, before, events.last());
        assert(before.push(events.last()) =~= events);
        lemma_payload_append(
            event_items(id, before),
            wire::items_of(FrameModel::Stream(StreamID(id), events.last())),
        );
        lemma_payload_of_event(id, events.last());
        stream::lemma_carried_append(before, seq![events.last()]);
        stream::lemma_carried_one(events.last());
        assert(before + seq![events.last()] =~= events);
    }
}

/// The bytes of a stream come one after the other.
proof fn lemma_bytes_for_append(
    id: u32,
    chunks: Seq<(u32, Seq<u8>)>,
    more: Seq<(u32, Seq<u8>)>,
)
    ensures
        bytes_for(id, chunks + more) == bytes_for(id, chunks) + bytes_for(id, more),
    decreases more.len(),
{
    if more.len() == 0 {
        assert(chunks + more =~= chunks);
        assert(bytes_for(id, chunks) + bytes_for(id, more) =~= bytes_for(id, chunks));
    } else {
        lemma_bytes_for_append(id, chunks, more.drop_last());
        assert((chunks + more).drop_last() =~= chunks + more.drop_last());
        assert(bytes_for(id, chunks + more) =~= bytes_for(id, chunks) + bytes_for(id, more));
    }
}

/// Chunks of other streams have no bytes of the stream.
proof fn lemma_bytes_for_none(id: u32, chunks: Seq<(u32, Seq<u8>)>)
    requires
        none_of(id, chunks),
    ensures
        bytes_for(id, chunks) == Seq::<u8>::empty(),
    decreases chunks.len(),
{
    if chunks.len() > 0 {
        let before = chunks.drop_last();
        assert forall|i: int| 0 <= i < before.len() implies (#[trigger] before[i]).0 != id by {
            assert(before[i] == chunks[i]);
        }
        lemma_bytes_for_none(id, before);
        assert(chunks[chunks.len() - 1].0 != id);
        assert(bytes_for(id, chunks) =~= Seq::<u8>::empty());
    }
}

/// A single chunk has the bytes of its stream only.
proof fn lemma_bytes_for_one(id: u32, other: u32, bytes: Seq<u8>)
    ensures
        bytes_for(id, seq![(other, bytes)]) == (if id == other {
            bytes
        } else {
            seq![]
        }),
{
    reveal_with_fuel(bytes_for, 2);
    assert(seq![(other, bytes)].drop_last() =~= seq![]);
    assert(bytes_for(id, seq![(other, bytes)]) =~= (if id == other {
        bytes
    } else {
        seq![]
    }));
}

// === What a use does to one stream ===

/// The events that wait in the head of a stream.
pub open spec fn outs_of(session: SessionModel, id: u32) -> Seq<StreamEventModel> {
    if session.streams.contains_key(id) {
        session.streams[id].outs
    } else {
        seq![]
    }
}

/// The events of a stream that are queued, and those that wait in its head.
pub open spec fn full(session: SessionModel, id: u32) -> Seq<StreamEventModel> {
    events_of(id, session.out_queue) + outs_of(session, id)
}

/// Nothing changed but the events that wait and the windows.
pub open spec fn same_halves(a: HeadModel, b: HeadModel) -> bool {
    &&& a.opened == b.opened
    &&& a.local == b.local
    &&& a.remote == b.remote
    &&& a.receiving == b.receiving
}

/// A stream is over, or was found to be so in this turn.
pub open spec fn found_closed(session: SessionModel, closed: Seq<u32>, id: u32) -> bool {
    closed.contains(id) || session.streams.contains_key(id) && stream::is_closed(
        session.streams[id],
    )
}

/// A step leaves a stream as it is, moves its waiting events to the queue, or releases it when it
/// is over.
pub open spec fn stream_kept(id: u32, before: SessionModel, closed: Seq<u32>, step: Step) -> bool {
    let after = step.session;
    &&& none_of(id, delivered_in(step.action))
    &&& step.action !is Send
    &&& if after.streams.contains_key(id) {
        &&& before.streams.contains_key(id)
        &&& same_halves(after.streams[id], before.streams[id])
        &&& full(after, id) == full(before, id)
    } else {
        &&& events_of(id, after.out_queue) == events_of(id, before.out_queue) || events_of(
            id,
            after.out_queue,
        ) == full(before, id)
        &&& before.streams.contains_key(id) ==> found_closed(before, closed, id)
    }
    &&& step.turn.closed.contains(id) ==> found_closed(before, closed, id)
}

/// A frame that does not belong to the stream adds nothing to its events.
proof fn lemma_events_push_other(id: u32, frames: Seq<FrameModel>, frame: FrameModel)
    requires
        frame matches FrameModel::Stream(stream_id, _) ==> stream_id.0 != id,
    ensures
        events_of(id, frames.push(frame)) == events_of(id, frames),
{
    assert(frames.push(frame).drop_last() =~= frames);
}

/// A frame of the stream adds its event.
proof fn lemma_events_push_own(id: u32, frames: Seq<FrameModel>, event: StreamEventModel)
    ensures
        events_of(id, frames.push(FrameModel::Stream(StreamID(id), event))) == events_of(
            id,
            frames,
        ).push(event),
{
    assert(frames.push(FrameModel::Stream(StreamID(id), event)).drop_last() =~= frames);
}

/// Queueing the waiting events of a stream moves them.
proof fn lemma_drained_full(id: u32, session: SessionModel, other: u32)
    requires
        session.streams.contains_key(other),
    ensures
        ({
            let next = session::drained(session, other);
            &&& full(next, id) == full(session, id)
            &&& id != other ==> events_of(id, next.out_queue) == events_of(id, session.out_queue)
            &&& id == other ==> events_of(id, next.out_queue) == full(session, id)
            &&& next.streams.contains_key(id) == session.streams.contains_key(id)
            &&& session.streams.contains_key(id) ==> same_halves(
                next.streams[id],
                session.streams[id],
            )
        }),
{
    let next = session::drained(session, other);
    let outs = session.streams[other].outs;
    lemma_events_append(id, session.out_queue, session::stream_frames(other, outs));
    lemma_events_of_stream(id, other, outs);
    assert(full(next, id) =~= full(session, id));
    assert(id != other ==> events_of(id, next.out_queue) =~= events_of(id, session.out_queue));
}

/// The end of a turn.
proof fn lemma_conclude_keeps(id: u32, session: SessionModel, turn: TurnModel)
    ensures
        stream_kept(id, session, turn.closed, session::conclude(session, turn)),
{
    lemma_events_push_other(
        id,
        session.out_queue,
        FrameModel::Session(FrameSessionEvent::GoAway(0)),
    );
}

/// Sending at the end of a turn.
proof fn lemma_send_second_keeps(id: u32, session: SessionModel, turn: TurnModel)
    ensures
        stream_kept(id, session, turn.closed, session::send_second(session, turn)),
        stream_kept(id, session, turn.closed, session::after_second_send(session, turn)),
{
    lemma_conclude_keeps(id, session, turn);
}

/// A release.
proof fn lemma_release_keeps(id: u32, session: SessionModel, turn: TurnModel)
    ensures
        stream_kept(id, session, turn.closed, session::release(session, turn)),
{
    if turn.closed.len() > 0 {
        let step = session::release(session, turn);
        let rest = turn.closed.drop_last();
        assert(turn.closed.contains(turn.closed.last()));
        if rest.contains(id) {
            let i = choose|i: int| 0 <= i < rest.len() && rest[i] == id;
            assert(turn.closed[i] == id);
        }
        if turn.closed.last() != id {
            assert(step.session.streams.contains_key(id) == session.streams.contains_key(id));
        }
    } else {
        lemma_send_second_keeps(id, session, turn);
    }
}

/// A visit.
proof fn lemma_visit_keeps(id: u32, session: SessionModel, turn: TurnModel)
    requires
        session::visits_known(session, turn),
    ensures
        stream_kept(id, session, turn.closed, session::visit(session, turn)),
    decreases turn.visiting.len(),
{
    if turn.visiting.len() == 0 {
        lemma_release_keeps(id, session, turn);
    } else {
        let other = turn.visiting.last();
        let rest = turn.visiting.drop_last();
        assert(session.streams.contains_key(other));
        if stream::is_closed(session.streams[other]) {
            let closed = turn.closed.push(other);
            lemma_visit_keeps(id, session, TurnModel { visiting: rest, closed, ..turn });
            if closed.contains(id) && id != other {
                let i = choose|i: int| 0 <= i < closed.len() && closed[i] == id;
                assert(turn.closed[i] == id);
            }
        } else {
            let next = session::drained(session, other);
            lemma_drained_full(id, session, other);
            if !stream::can_pull(next.streams[other]) {
                lemma_visit_keeps(id, next, TurnModel { visiting: rest, ..turn });
            }
        }
    }
}

/// The events of a stream that were queued so far.
pub open spec fn base(side: Side, id: u32) -> Seq<StreamEventModel> {
    events_of(id, side.sent + side.state.session.out_queue)
}

/// The events of a stream that were queued so far, and those that wait in its head.
pub open spec fn log(side: Side, id: u32) -> Seq<StreamEventModel> {
    base(side, id) + outs_of(side.state.session, id)
}

/// A use leaves a stream as it is, moves its waiting events to the queue, or releases it when it
/// is over.
pub open spec fn kept(id: u32, before: Side, after: Side) -> bool {
    let session = before.state.session;
    let next = after.state.session;
    &&& bytes_for(id, after.written) == bytes_for(id, before.written)
    &&& bytes_for(id, after.delivered) == bytes_for(id, before.delivered)
    &&& if next.streams.contains_key(id) {
        &&& session.streams.contains_key(id)
        &&& same_halves(next.streams[id], session.streams[id])
        &&& log(after, id) == log(before, id)
    } else {
        &&& base(after, id) == base(before, id) || base(after, id) == log(before, id)
        &&& session.streams.contains_key(id) ==> found_closed(
            session,
            before.state.turn.closed,
            id,
        )
    }
    &&& after.state.turn.closed.contains(id) ==> found_closed(
        session,
        before.state.turn.closed,
        id,
    )
}

/// A step that keeps the stream keeps it at its end.
proof fn lemma_step_keeps_side(id: u32, side: Side, op: SessionOp, closed: Seq<u32>)
    requires
        history::step_of(side.state, op) matches Some(step) && stream_kept(
            id,
            side.state.session,
            closed,
            step,
        ),
        closed.contains(id) ==> side.state.turn.closed.contains(id),
        bytes_for(id, written_by(side.state, op)) == Seq::<u8>::empty(),
    ensures
        kept(id, side, side_after(side, op)),
        none_of(id, delivered_by(side.state, op)),
{
    let next = side_after(side, op);
    let session = side.state.session;
    lemma_bytes_for_none(id, delivered_by(side.state, op));
    lemma_bytes_for_append(id, side.written, written_by(side.state, op));
    lemma_bytes_for_append(id, side.delivered, delivered_by(side.state, op));
    assert(next.sent =~= side.sent);
    assert(bytes_for(id, next.written) =~= bytes_for(id, side.written));
    assert(bytes_for(id, next.delivered) =~= bytes_for(id, side.delivered));
    lemma_events_append(id, side.sent, session.out_queue);
    lemma_events_append(id, side.sent, next.state.session.out_queue);
    let sent = events_of(id, side.sent);
    assert(log(side, id) =~= sent + full(session, id));
    assert(log(next, id) =~= sent + full(next.state.session, id));
}

/// The use concerns the stream.
pub open spec fn touches(id: u32, state: SessionState, op: SessionOp) -> bool {
    match op {
        SessionOp::Open => state.session.next_stream_id == id,
        SessionOp::Event(
            EventModel::Inbound(InboundModel::Frame(FrameModel::Stream(stream_id, _))),
            _,
            _,
        ) => stream_id.0 == id,
        SessionOp::Event(EventModel::Pulled(pulled), _, _) => pulled !is Pending
            && state.turn.visiting.last() == id,
        _ => false,
    }
}

/// An answer of the interval.
proof fn lemma_tick_keeps(
    id: u32,
    session: SessionModel,
    turn: TurnModel,
    tick: session::TickPoll,
    now: nat,
)
    ensures
        stream_kept(id, session, turn.closed, session::tick_step(session, turn, tick, now)),
{
    let nonce = (session.rtt.ping_seq + 1) as u32;
    lemma_events_push_other(
        id,
        session.out_queue,
        FrameModel::Session(FrameSessionEvent::Ping(stream::syn_flags(), nonce)),
    );
}

/// An answer of the transport that does not concern the stream.
proof fn lemma_inbound_keeps(
    id: u32,
    session: SessionModel,
    turn: TurnModel,
    inbound: InboundModel,
    now: nat,
    walk: Seq<u32>,
)
    requires
        session::walk_fits(walk, session, EventModel::Inbound(inbound)),
        inbound matches InboundModel::Frame(FrameModel::Stream(stream_id, _)) ==> stream_id.0
            != id,
    ensures
        stream_kept(
            id,
            session,
            if inbound is Pending {
                seq![]
            } else {
                turn.closed
            },
            session::inbound_step(session, turn, inbound, now, walk),
        ),
{
    match inbound {
        InboundModel::Pending => {
            assert forall|i: int| 0 <= i < walk.len() implies session.streams.contains_key(
                #[trigger] walk[i],
            ) by {
                assert(walk.contains(walk[i]));
            }
            lemma_visit_keeps(
                id,
                session,
                TurnModel { visiting: walk, closed: seq![], ..turn },
            );
        },
        InboundModel::Frame(FrameModel::Session(FrameSessionEvent::Ping(flags, code))) => {
            lemma_events_push_other(
                id,
                session.out_queue,
                FrameModel::Session(FrameSessionEvent::Ping(stream::ack_flags(), code)),
            );
        },
        InboundModel::Frame(FrameModel::Stream(stream_id, event)) => {
            history::law_streams_are_independent(session, turn, stream_id, event, id);
        },
        _ => {},
    }
}

/// An answer of the channel of another stream's user, or none.
proof fn lemma_pulled_keeps(id: u32, session: SessionModel, turn: TurnModel, pulled: PulledModel)
    requires
        session::coherent(session, turn),
        turn.phase is Pulling,
        pulled is Pending || turn.visiting.last() != id,
    ensures
        stream_kept(id, session, turn.closed, session::pulled_step(session, turn, pulled)),
{
    let other = turn.visiting.last();
    let rest = turn.visiting.drop_last();
    let (poll, head) = stream::pulled_step(session.streams[other], pulled);
    match poll {
        HeadPollModel::Emit(event) => {
            let frame = FrameModel::Stream(StreamID(other), event);
            let next = SessionModel {
                streams: session.streams.insert(other, head),
                ..session::queued(session, frame)
            };
            lemma_events_push_other(id, session.out_queue, frame);
            lemma_visit_keeps(id, next, turn);
            assert(full(next, id) =~= full(session, id));
        },
        _ => {
            lemma_visit_keeps(id, session, TurnModel { visiting: rest, ..turn });
        },
    }
}

/// Handing a frame to the transport moves it.
proof fn lemma_send_keeps(id: u32, side: Side, op: SessionOp)
    requires
        history::allowed(side.state, op),
        op matches SessionOp::Event(EventModel::Ready(true), _, _),
    ensures
        kept(id, side, side_after(side, op)),
        none_of(id, delivered_by(side.state, op)),
{
    let next = side_after(side, op);
    let queue = side.state.session.out_queue;
    assert(next.sent + next.state.session.out_queue =~= side.sent + queue);
    assert(next.written =~= side.written);
    assert(next.delivered =~= side.delivered);
}

/// A use that does not concern the stream keeps it.
#[verifier::rlimit(60)]
proof fn lemma_use_keeps(id: u32, side: Side, op: SessionOp)
    requires
        history::allowed(side.state, op),
        !touches(id, side.state, op),
    ensures
        kept(id, side, side_after(side, op)),
        none_of(id, delivered_by(side.state, op)),
{
    let session = side.state.session;
    let turn = side.state.turn;
    let next = side_after(side, op);
    match op {
        SessionOp::Open => {
            assert(next.sent =~= side.sent);
            assert(next.written =~= side.written);
            assert(next.delivered =~= side.delivered);
        },
        SessionOp::Close(code) => {
            let go_away = FrameModel::Session(FrameSessionEvent::GoAway(code));
            assert(next.written =~= side.written);
            assert(next.delivered =~= side.delivered);
            assert(next.sent + next.state.session.out_queue =~= (side.sent
                + session.out_queue).push(go_away));
            lemma_events_push_other(id, side.sent + session.out_queue, go_away);
        },
        SessionOp::Ping(flags, code, now) => {
            let pong = FrameModel::Session(FrameSessionEvent::Ping(stream::ack_flags(), code));
            assert(next.written =~= side.written);
            assert(next.delivered =~= side.delivered);
            lemma_events_push_other(id, side.sent + session.out_queue, pong);
            if !flags.ack && flags.syn {
                assert(next.sent + next.state.session.out_queue =~= (side.sent
                    + session.out_queue).push(pong));
            } else {
                assert(next.sent =~= side.sent);
            }
        },
        SessionOp::Begin => {
            lemma_step_keeps_side(id, side, op, turn.closed);
        },
        SessionOp::Event(EventModel::Tick(tick), now, walk) => {
            lemma_tick_keeps(id, session, turn, tick, now);
            lemma_step_keeps_side(id, side, op, turn.closed);
        },
        SessionOp::Event(EventModel::Inbound(inbound), now, walk) => {
            lemma_inbound_keeps(id, session, turn, inbound, now, walk);
            let closed = if inbound is Pending {
                seq![]
            } else {
                turn.closed
            };
            lemma_step_keeps_side(id, side, op, closed);
        },
        SessionOp::Event(EventModel::Pulled(pulled), now, walk) => {
            lemma_pulled_keeps(id, session, turn, pulled);
            if let PulledModel::Chunk(bytes) = pulled {
                lemma_bytes_for_one(id, turn.visiting.last(), bytes);
            }
            lemma_step_keeps_side(id, side, op, turn.closed);
        },
        SessionOp::Event(EventModel::Ready(true), now, walk) => {
            lemma_send_keeps(id, side, op);
        },
        SessionOp::Event(EventModel::Released, now, walk) => {
            lemma_release_keeps(id, session, turn);
            lemma_step_keeps_side(id, side, op, turn.closed);
        },
        SessionOp::Event(event, now, walk) => {
            lemma_send_second_keeps(id, session, turn);
            lemma_send_second_keeps(id, session, TurnModel { sent: true, ..turn });
            lemma_conclude_keeps(id, session, turn);
            lemma_step_keeps_side(id, side, op, turn.closed);
        },
    }
}

// === Order of the events of one stream ===

/// The event opens the stream.
pub open spec fn is_syn(event: StreamEventModel) -> bool {
    frame::event_flags(event) matches Some(flags) && flags.syn
}

/// The events of a stream are in order: the side that opened it starts with SYN, no other event
/// has SYN, none has RST, and from FIN on there is no data.
pub open spec fn good_events(events: Seq<StreamEventModel>, opener: bool) -> bool {
    &&& forall|i: int, j: int|
        0 <= i <= j < events.len() && stream::is_fin(#[trigger] events[i]) ==> !stream::is_data(
            #[trigger] events[j],
        )
    &&& forall|i: int| 0 <= i < events.len() ==> !stream::is_rst(#[trigger] events[i])
    &&& forall|i: int| 0 <= i < events.len() && is_syn(#[trigger] events[i]) ==> opener && i == 0
    &&& opener && events.len() > 0 ==> is_syn(events[0])
}

/// An event has FIN.
pub open spec fn has_fin(events: Seq<StreamEventModel>) -> bool {
    exists|i: int| 0 <= i < events.len() && stream::is_fin(#[trigger] events[i])
}

/// The event that an item announces.
pub open spec fn announces(item: Item) -> Option<StreamEventModel> {
    match item {
        Item::Announced(FrameModel::Stream(_, event)) => Some(event),
        _ => None,
    }
}

/// The item announces FIN.
pub open spec fn item_fin(item: Item) -> bool {
    announces(item) matches Some(event) && stream::is_fin(event)
}

/// The item announces RST.
pub open spec fn item_rst(item: Item) -> bool {
    announces(item) matches Some(event) && stream::is_rst(event)
}

/// The item announces SYN.
pub open spec fn item_syn(item: Item) -> bool {
    announces(item) matches Some(event) && is_syn(event)
}

/// The item announces data or is data.
pub open spec fn item_data(item: Item) -> bool {
    item is Payload || (announces(item) matches Some(event) && stream::is_data(event))
}

/// The items of a stream are in order, as [`good_events`].
pub open spec fn good_items(items: Seq<Item>, opener: bool) -> bool {
    &&& forall|i: int, j: int|
        0 <= i <= j < items.len() && item_fin(#[trigger] items[i]) ==> !item_data(
            #[trigger] items[j],
        )
    &&& forall|i: int| 0 <= i < items.len() ==> !item_rst(#[trigger] items[i])
    &&& forall|i: int| 0 <= i < items.len() && item_syn(#[trigger] items[i]) ==> opener && i == 0
    &&& opener && items.len() > 0 ==> item_syn(items[0])
}

/// An item announces FIN.
pub open spec fn fin_among(items: Seq<Item>) -> bool {
    exists|i: int| 0 <= i < items.len() && item_fin(#[trigger] items[i])
}

/// An item announces SYN.
pub open spec fn syn_among(items: Seq<Item>) -> bool {
    exists|i: int| 0 <= i < items.len() && item_syn(#[trigger] items[i])
}

/// Events in order have items in order.
proof fn lemma_good_items(id: u32, events: Seq<StreamEventModel>, opener: bool)
    requires
        good_events(events, opener),
    ensures
        good_items(event_items(id, events), opener),
        fin_among(event_items(id, events)) ==> has_fin(events),
        events.len() > 0 && opener ==> event_items(id, events).len() > 0,
        events.len() == 0 ==> event_items(id, events).len() == 0,
    decreases events.len(),
{
    let items = event_items(id, events);
    if events.len() == 0 {
        assert(session::stream_frames(id, events) =~= seq![]);
    } else {
        let before = events.drop_last();
        let last = events.last();
        let earlier = event_items(id, before);
        let new = wire::items_of(FrameModel::Stream(StreamID(id), last));
        assert(before.push(last) =~= events);
        lemma_event_items_push(id, before, last);
        assert forall|i: int, j: int|
            0 <= i <= j < before.len() && stream::is_fin(
                #[trigger] before[i],
            ) implies !stream::is_data(#[trigger] before[j]) by {
            assert(before[i] == events[i] && before[j] == events[j]);
        }
        assert forall|i: int| 0 <= i < before.len() implies !stream::is_rst(
            #[trigger] before[i],
        ) by {
            assert(before[i] == events[i]);
        }
        assert forall|i: int| 0 <= i < before.len() && is_syn(#[trigger] before[i]) implies opener
            && i == 0 by {
            assert(before[i] == events[i]);
        }
        lemma_good_items(id, before, opener);
        assert(items == earlier + new);
        assert(forall|i: int| 0 <= i < earlier.len() ==> #[trigger] items[i] == earlier[i]);
        assert(forall|i: int|
            earlier.len() <= i < items.len() ==> #[trigger] items[i] == new[i - earlier.len()]);
        assert(last == events[events.len() - 1]);
        assert forall|i: int| 0 <= i < new.len() implies {
            &&& item_fin(#[trigger] new[i]) == stream::is_fin(last)
            &&& item_data(new[i]) == stream::is_data(last)
            &&& item_rst(new[i]) == stream::is_rst(last)
            &&& item_syn(new[i]) == is_syn(last)
        } by {}
        if has_fin(before) {
            let k = choose|k: int| 0 <= k < before.len() && stream::is_fin(#[trigger] before[k]);
            assert(events[k] == before[k]);
            assert(has_fin(events));
            assert(!stream::is_data(events[events.len() - 1]));
        }
        if stream::is_fin(last) {
            assert(has_fin(events));
            assert(!stream::is_data(events[events.len() - 1]));
        }
        assert forall|i: int, j: int|
            0 <= i <= j < items.len() && item_fin(#[trigger] items[i]) implies !item_data(
            #[trigger] items[j],
        ) by {
            if j >= earlier.len() {
                if i < earlier.len() {
                    assert(fin_among(earlier));
                }
            }
        }
        assert(fin_among(items) ==> has_fin(events)) by {
            if fin_among(items) {
                let i = choose|i: int| 0 <= i < items.len() && item_fin(#[trigger] items[i]);
                if i < earlier.len() {
                    assert(item_fin(earlier[i]));
                    assert(fin_among(earlier));
                }
            }
        }
        if is_syn(last) {
            assert(before =~= seq![]);
        }
    }
}

/// The start of items in order is in order.
proof fn lemma_good_prefix(items: Seq<Item>, all: Seq<Item>, opener: bool)
    requires
        items.is_prefix_of(all),
        good_items(all, opener),
    ensures
        good_items(items, opener),
{
    assert(forall|i: int| 0 <= i < items.len() ==> #[trigger] items[i] == all[i]);
}

/// The start of events in order is in order.
proof fn lemma_good_events_prefix(
    events: Seq<StreamEventModel>,
    more: Seq<StreamEventModel>,
    opener: bool,
)
    requires
        good_events(events + more, opener),
    ensures
        good_events(events, opener),
        has_fin(events) ==> has_fin(events + more),
{
    let all = events + more;
    assert(forall|i: int| 0 <= i < events.len() ==> #[trigger] events[i] == all[i]);
}

/// The start of items is the start also for one stream.
proof fn lemma_about_prefix(id: u32, items: Seq<Item>, all: Seq<Item>)
    requires
        items.is_prefix_of(all),
    ensures
        about(id, items).is_prefix_of(about(id, all)),
{
    let rest = all.skip(items.len() as int);
    assert(all =~= items + rest);
    lemma_about_append(id, items, rest);
}

// === What holds at both ends ===

/// What concerns a stream among the frames that came.
pub open spec fn seen(side: Side, id: u32) -> Seq<Item> {
    about(id, wire::items_of_all(side.got))
}

/// What is missing of a payload of the stream after the frames that came.
pub open spec fn missing(id: u32, got: Seq<FrameModel>) -> Option<nat> {
    match wire::write_all(None, got) {
        Ok(Some((stream_id, remain))) => if stream_id.0 == id {
            Some(remain)
        } else {
            None
        },
        _ => None,
    }
}

/// The stream was opened here, or its first frame came.
pub open spec fn made(side: Side, id: u32, opener: bool) -> bool {
    if opener {
        0 < id < side.state.session.next_stream_id
    } else {
        syn_among(seen(side, id))
    }
}

/// Both directions are in order.
pub open spec fn sound(side: Side) -> bool {
    &&& side.state.session.next_stream_id > 0
    &&& history::no_half_payload(side.state.session)
    &&& wire::write_all(None, side.sent) is Ok
    &&& history::completes(
        wire::write_all(None, side.sent)->Ok_0,
        side.state.session.out_queue,
    )
    &&& wire::write_all(None, side.got) is Ok
}

/// What is sent on a stream is in order, and is what its user wrote.
pub open spec fn sends_well(side: Side, id: u32, opener: bool) -> bool {
    let streams = side.state.session.streams;
    &&& good_events(log(side, id), opener)
    &&& !made(side, id, opener) ==> log(side, id).len() == 0
    &&& streams.contains_key(id) ==> made(side, id, opener)
    &&& streams.contains_key(id) && opener ==> log(side, id).len() > 0
    &&& streams.contains_key(id) && has_fin(log(side, id)) ==> !streams[id].local
    &&& stream::carried_by(base(side, id)) == bytes_for(id, side.written)
}

/// What comes for a stream is taken whole, and delivered to its user.
pub open spec fn takes_well(side: Side, id: u32, opener: bool) -> bool {
    let streams = side.state.session.streams;
    let came = seen(side, id);
    &&& streams.contains_key(id) ==> {
        &&& streams[id].receiving == missing(id, side.got)
        &&& !streams[id].local ==> streams[id].opened
        &&& streams[id].opened && !streams[id].remote ==> fin_among(came)
    }
    &&& missing(id, side.got) is Some ==> streams.contains_key(id) && !fin_among(came)
    &&& !streams.contains_key(id) && made(side, id, opener) ==> fin_among(came)
    &&& side.state.turn.closed.contains(id) ==> fin_among(came)
    &&& payload_of(came) == bytes_for(id, side.delivered)
}

/// What holds of a stream at one end.
pub open spec fn holds(side: Side, id: u32, opener: bool) -> bool {
    &&& sound(side)
    &&& (side.state.session.next_stream_id % 2 == id % 2) == opener
    &&& sends_well(side, id, opener)
    &&& takes_well(side, id, opener)
}

/// The order of both directions is kept.
proof fn lemma_sound_after(side: Side, peer: Side, op: SessionOp)
    requires
        sound(side),
        side_allowed(side, peer, op),
    ensures
        sound(side_after(side, op)),
        side_after(side, op).state.session.next_stream_id == side.state.session.next_stream_id
            + (if op is Open {
            2int
        } else {
            0int
        }),
{
    let pending = wire::write_all(None, side.sent)->Ok_0;
    let next = history::lemma_completes_after(pending, side.state, op);
    wire::lemma_write_all_append(None, side.sent, history::sent_by(side.state, op));
    history::lemma_after_keeps_identity(side.state, op);
}

/// Window updates carry no bytes of the user.
proof fn lemma_updates_carry_nothing(events: Seq<StreamEventModel>)
    requires
        history::only_updates(events),
    ensures
        stream::carried_by(events) == Seq::<u8>::empty(),
    decreases events.len(),
{
    if events.len() > 0 {
        assert forall|i: int| 0 <= i < events.drop_first().len() implies (
        #[trigger] events.drop_first()[i]) is WindowUpdate by {
            assert(events.drop_first()[i] == events[i + 1]);
        }
        lemma_updates_carry_nothing(events.drop_first());
        assert(events[0] is WindowUpdate);
        assert(stream::carried_by(events) =~= Seq::<u8>::empty());
    }
}

/// The events that wait carry no bytes of the user.
proof fn lemma_log_carries(side: Side, id: u32)
    requires
        sound(side),
    ensures
        stream::carried_by(log(side, id)) == stream::carried_by(base(side, id)),
{
    let session = side.state.session;
    let outs = outs_of(session, id);
    if session.streams.contains_key(id) {
        assert(history::only_updates(session.streams[id].outs));
    }
    lemma_updates_carry_nothing(outs);
    stream::lemma_carried_append(base(side, id), outs);
    assert(stream::carried_by(base(side, id)) + Seq::<u8>::empty() =~= stream::carried_by(
        base(side, id),
    ));
}

/// Frames that do not belong to the stream change nothing of what came for it.
proof fn lemma_got_other(id: u32, side: Side, op: SessionOp)
    requires
        !touches(id, side.state, op),
        wire::write_all(None, side.got) is Ok,
        wire::write_all(None, side.got + got_by(op)) is Ok,
    ensures
        seen(side_after(side, op), id) == seen(side, id),
        missing(id, side_after(side, op).got) == missing(id, side.got),
{
    let more = got_by(op);
    if more.len() == 0 {
        assert(side.got + more =~= side.got);
    } else {
        let frame = more[0];
        assert(more =~= seq![frame]);
        wire::lemma_write_all_append(None, side.got, more);
        reveal_with_fuel(wire::write_all, 2);
        assert(more.drop_first() =~= seq![]);
        lemma_items_append(side.got, more);
        lemma_items_one(frame);
        lemma_about_append(id, wire::items_of_all(side.got), wire::items_of(frame));
        lemma_about_frame(id, frame);
        assert(seen(side_after(side, op), id) =~= seen(side, id));
    }
}

/// A use that does not concern the stream keeps what holds of it.
proof fn lemma_holds_kept(side: Side, peer: Side, id: u32, opener: bool, op: SessionOp)
    requires
        holds(side, id, opener),
        side_allowed(side, peer, op),
        !touches(id, side.state, op),
    ensures
        holds(side_after(side, op), id, opener),
{
    let next = side_after(side, op);
    let session = side.state.session;
    lemma_sound_after(side, peer, op);
    lemma_got_other(id, side, op);
    lemma_use_keeps(id, side, op);
    lemma_log_carries(side, id);
    lemma_log_carries(next, id);
    lemma_good_events_prefix(base(side, id), outs_of(session, id), opener);
    assert(found_closed(session, side.state.turn.closed, id) ==> fin_among(seen(side, id)));
    assert(made(next, id, opener) == made(side, id, opener));
    if !next.state.session.streams.contains_key(id) {
        assert(log(next, id) =~= base(next, id));
    }
}

/// A use that takes no frame changes nothing of what came.
proof fn lemma_got_nothing(id: u32, side: Side, op: SessionOp)
    requires
        got_by(op).len() == 0,
    ensures
        side_after(side, op).got == side.got,
        seen(side_after(side, op), id) == seen(side, id),
{
    assert(side.got + got_by(op) =~= side.got);
}

/// Opening the stream.
proof fn lemma_holds_opened(side: Side, peer: Side, id: u32, opener: bool)
    requires
        holds(side, id, opener),
        side_allowed(side, peer, SessionOp::Open),
        side.state.session.next_stream_id == id,
    ensures
        holds(side_after(side, SessionOp::Open), id, opener),
        log(side_after(side, SessionOp::Open), id) == stream::opened_head().outs,
{
    let op = SessionOp::Open;
    let next = side_after(side, op);
    lemma_sound_after(side, peer, op);
    lemma_got_nothing(id, side, op);
    assert(next.sent =~= side.sent);
    assert(next.written =~= side.written);
    assert(next.delivered =~= side.delivered);
    assert(base(side, id).len() == 0) by {
        assert(log(side, id).len() == 0);
    }
    assert(log(next, id) =~= stream::opened_head().outs);
    assert(!stream::is_fin(log(next, id)[0]));
    assert(is_syn(log(next, id)[0]));
}

/// An event that is put behind events in order.
proof fn lemma_good_push(
    events: Seq<StreamEventModel>,
    event: StreamEventModel,
    opener: bool,
)
    requires
        good_events(events, opener),
        !stream::is_rst(event),
        !is_syn(event),
        opener ==> events.len() > 0,
        stream::is_data(event) ==> !has_fin(events) && !stream::is_fin(event),
    ensures
        good_events(events.push(event), opener),
        has_fin(events.push(event)) ==> has_fin(events) || stream::is_fin(event),
{
    let all = events.push(event);
    assert(forall|i: int| 0 <= i < events.len() ==> #[trigger] all[i] == events[i]);
    assert forall|i: int, j: int|
        0 <= i <= j < all.len() && stream::is_fin(#[trigger] all[i]) implies !stream::is_data(
        #[trigger] all[j],
    ) by {
        if j == events.len() && i < j {
            assert(stream::is_fin(events[i]));
            assert(has_fin(events));
        }
    }
    if has_fin(all) && !stream::is_fin(event) {
        let i = choose|i: int| 0 <= i < all.len() && stream::is_fin(#[trigger] all[i]);
        assert(stream::is_fin(events[i]));
    }
}

/// A chunk that the user of the stream wrote.
proof fn lemma_holds_written(
    side: Side,
    peer: Side,
    id: u32,
    opener: bool,
    bytes: Seq<u8>,
    now: nat,
    walk: Seq<u32>,
)
    requires
        holds(side, id, opener),
        side_allowed(
            side,
            peer,
            SessionOp::Event(EventModel::Pulled(PulledModel::Chunk(bytes)), now, walk),
        ),
        side.state.turn.visiting.last() == id,
    ensures
        holds(
            side_after(
                side,
                SessionOp::Event(EventModel::Pulled(PulledModel::Chunk(bytes)), now, walk),
            ),
            id,
            opener,
        ),
        log(
            side_after(
                side,
                SessionOp::Event(EventModel::Pulled(PulledModel::Chunk(bytes)), now, walk),
            ),
            id,
        ) == log(side, id) + stream::data_events(bytes),
        none_of(
            id,
            delivered_by(
                side.state,
                SessionOp::Event(EventModel::Pulled(PulledModel::Chunk(bytes)), now, walk),
            ),
        ),
{
    let op = SessionOp::Event(EventModel::Pulled(PulledModel::Chunk(bytes)), now, walk);
    let session = side.state.session;
    let turn = side.state.turn;
    let next = side_after(side, op);
    let events = stream::data_events(bytes);
    let (poll, head) = stream::pulled_step(session.streams[id], PulledModel::Chunk(bytes));
    let frame = FrameModel::Stream(StreamID(id), events[0]);
    let between = SessionModel {
        streams: session.streams.insert(id, head),
        ..session::queued(session, frame)
    };
    let drained = session::drained(between, id);
    let rest = TurnModel { visiting: turn.visiting.drop_last(), ..turn };
    let step = session::turn_step(session, turn, op->Event_0, now, walk);
    lemma_sound_after(side, peer, op);
    lemma_got_nothing(id, side, op);
    lemma_events_push_own(id, session.out_queue, events[0]);
    lemma_drained_full(id, between, id);
    assert(full(between, id) =~= events_of(id, session.out_queue) + events);
    assert(events_of(id, drained.out_queue) == full(drained, id)) by {
        assert(outs_of(drained, id) =~= seq![]);
        assert(full(drained, id) =~= events_of(id, drained.out_queue));
    }
    assert(step == session::visit(between, turn));
    if stream::can_pull(drained.streams[id]) {
        assert(step.session == drained);
    } else {
        lemma_visit_keeps(id, drained, rest);
        assert(step == session::visit(drained, rest));
    }
    assert(full(step.session, id) =~= events_of(id, session.out_queue) + events) by {
        if !step.session.streams.contains_key(id) {
            assert(full(step.session, id) =~= events_of(id, step.session.out_queue));
        }
    }
    lemma_bytes_for_append(id, side.written, written_by(side.state, op));
    lemma_bytes_for_one(id, id, bytes);
    lemma_bytes_for_none(id, delivered_by(side.state, op));
    lemma_bytes_for_append(id, side.delivered, delivered_by(side.state, op));
    assert(bytes_for(id, next.delivered) =~= bytes_for(id, side.delivered));
    assert(next.sent =~= side.sent);
    lemma_events_append(id, side.sent, session.out_queue);
    lemma_events_append(id, side.sent, next.state.session.out_queue);
    assert(log(side, id) =~= base(side, id));
    let first = log(side, id).push(events[0]);
    lemma_good_push(log(side, id), events[0], opener);
    lemma_good_push(first, events[1], opener);
    assert(first.push(events[1]) =~= log(side, id) + events);
    assert(log(next, id) =~= events_of(id, side.sent) + full(step.session, id));
    assert(log(next, id) =~= log(side, id) + events);
    lemma_log_carries(next, id);
    stream::lemma_carried_append(log(side, id), events);
    stream::lemma_carried_append(seq![events[0]], seq![events[1]]);
    stream::lemma_carried_one(events[0]);
    stream::lemma_carried_one(events[1]);
    assert(events =~= seq![events[0]] + seq![events[1]]);
    assert(stream::carried_by(events) =~= bytes);
}

/// The user of the stream writes no more.
proof fn lemma_holds_ended(
    side: Side,
    peer: Side,
    id: u32,
    opener: bool,
    now: nat,
    walk: Seq<u32>,
)
    requires
        holds(side, id, opener),
        side_allowed(
            side,
            peer,
            SessionOp::Event(EventModel::Pulled(PulledModel::Ended), now, walk),
        ),
        side.state.turn.visiting.last() == id,
    ensures
        holds(
            side_after(side, SessionOp::Event(EventModel::Pulled(PulledModel::Ended), now, walk)),
            id,
            opener,
        ),
        log(
            side_after(side, SessionOp::Event(EventModel::Pulled(PulledModel::Ended), now, walk)),
            id,
        ) == log(side, id).push(StreamEventModel::WindowUpdate(stream::fin_flags(), 0)),
        none_of(
            id,
            delivered_by(
                side.state,
                SessionOp::Event(EventModel::Pulled(PulledModel::Ended), now, walk),
            ),
        ),
{
    let op = SessionOp::Event(EventModel::Pulled(PulledModel::Ended), now, walk);
    let session = side.state.session;
    let turn = side.state.turn;
    let next = side_after(side, op);
    let fin = StreamEventModel::WindowUpdate(stream::fin_flags(), 0);
    let (poll, head) = stream::pulled_step(session.streams[id], PulledModel::Ended);
    let between = SessionModel {
        streams: session.streams.insert(id, head),
        ..session::queued(session, FrameModel::Stream(StreamID(id), fin))
    };
    lemma_sound_after(side, peer, op);
    lemma_got_nothing(id, side, op);
    lemma_events_push_own(id, session.out_queue, fin);
    assert(full(between, id) =~= events_of(id, between.out_queue));
    lemma_visit_keeps(id, between, turn);
    assert(next.written =~= side.written);
    lemma_bytes_for_none(id, delivered_by(side.state, op));
    lemma_bytes_for_append(id, side.delivered, delivered_by(side.state, op));
    assert(bytes_for(id, next.delivered) =~= bytes_for(id, side.delivered));
    assert(next.sent =~= side.sent);
    lemma_events_append(id, side.sent, session.out_queue);
    lemma_events_append(id, side.sent, next.state.session.out_queue);
    assert(log(side, id) =~= base(side, id));
    lemma_good_push(log(side, id), fin, opener);
    assert(log(next, id) =~= log(side, id).push(fin));
    lemma_log_carries(next, id);
    stream::lemma_carried_append(log(side, id), seq![fin]);
    stream::lemma_carried_one(fin);
    assert(log(side, id).push(fin) =~= log(side, id) + seq![fin]);
    assert(stream::carried_by(log(next, id)) =~= stream::carried_by(log(side, id)));
}

/// What was sent on a stream is the start of its events.
proof fn lemma_sent_good(side: Side, id: u32, opener: bool)
    requires
        sends_well(side, id, opener),
    ensures
        good_events(events_of(id, side.sent), opener),
        log(side, id).len() == 0 ==> events_of(id, side.sent).len() == 0,
{
    let sent = events_of(id, side.sent);
    let queued = events_of(id, side.state.session.out_queue);
    let outs = outs_of(side.state.session, id);
    lemma_events_append(id, side.sent, side.state.session.out_queue);
    assert(log(side, id) =~= sent + (queued + outs));
    lemma_good_events_prefix(sent, queued + outs, opener);
}

/// What comes for a stream is in order.
proof fn lemma_arrival(
    side: Side,
    peer: Side,
    id: u32,
    opener: bool,
    event: StreamEventModel,
)
    requires
        holds(side, id, opener),
        holds(peer, id, !opener),
        arrives(peer.got, side.sent),
        arrives(side.got + seq![FrameModel::Stream(StreamID(id), event)], peer.sent),
    ensures
        ({
            let frame = FrameModel::Stream(StreamID(id), event);
            let got = side.got + seq![frame];
            let came = seen(side, id) + wire::items_of(frame);
            &&& about(id, wire::items_of_all(got)) == came
            &&& good_items(came, !opener)
            &&& opener && came.len() > 0 ==> made(side, id, opener)
            &&& frame::write_step(wire::write_all(None, side.got)->Ok_0, frame) is Ok
            &&& wire::write_all(None, got) == frame::write_step(
                wire::write_all(None, side.got)->Ok_0,
                frame,
            )
        }),
{
    let frame = FrameModel::Stream(StreamID(id), event);
    let got = side.got + seq![frame];
    wire::lemma_write_all_append(None, side.got, seq![frame]);
    reveal_with_fuel(wire::write_all, 2);
    assert(seq![frame].drop_first() =~= seq![]);
    lemma_items_append(side.got, seq![frame]);
    lemma_items_one(frame);
    lemma_about_append(id, wire::items_of_all(side.got), wire::items_of(frame));
    lemma_about_frame(id, frame);
    let came = about(id, wire::items_of_all(got));
    lemma_about_prefix(id, wire::items_of_all(got), wire::items_of_all(peer.sent));
    lemma_about_frames(id, peer.sent);
    lemma_sent_good(peer, id, !opener);
    lemma_good_items(id, events_of(id, peer.sent), !opener);
    lemma_good_prefix(came, event_items(id, events_of(id, peer.sent)), !opener);
    if opener && !made(side, id, opener) {
        lemma_about_prefix(id, wire::items_of_all(peer.got), wire::items_of_all(side.sent));
        lemma_about_frames(id, side.sent);
        lemma_sent_good(side, id, opener);
        lemma_good_items(id, events_of(id, side.sent), opener);
        assert(seen(peer, id).len() == 0);
    }
}

/// FIN among items that grew by one.
proof fn lemma_fin_push(items: Seq<Item>, item: Item)
    ensures
        fin_among(items.push(item)) == (fin_among(items) || item_fin(item)),
        syn_among(items.push(item)) == (syn_among(items) || item_syn(item)),
{
    let all = items.push(item);
    assert(forall|i: int| 0 <= i < items.len() ==> #[trigger] all[i] == items[i]);
    assert(all[items.len() as int] == item);
    if fin_among(items) {
        let i = choose|i: int| 0 <= i < items.len() && item_fin(#[trigger] items[i]);
        assert(item_fin(all[i]));
    }
    if syn_among(items) {
        let i = choose|i: int| 0 <= i < items.len() && item_syn(#[trigger] items[i]);
        assert(item_syn(all[i]));
    }
    if fin_among(all) && !item_fin(item) {
        let i = choose|i: int| 0 <= i < all.len() && item_fin(#[trigger] all[i]);
        assert(item_fin(items[i]));
    }
    if syn_among(all) && !item_syn(item) {
        let i = choose|i: int| 0 <= i < all.len() && item_syn(#[trigger] all[i]);
        assert(item_syn(items[i]));
    }
}

/// Payload bytes announce nothing.
proof fn lemma_fin_payload(items: Seq<Item>, stream_id: StreamID, bytes: Seq<u8>)
    ensures
        fin_among(items + wire::payload_items(stream_id, bytes)) == fin_among(items),
        syn_among(items + wire::payload_items(stream_id, bytes)) == syn_among(items),
{
    let all = items + wire::payload_items(stream_id, bytes);
    assert(forall|i: int| 0 <= i < items.len() ==> #[trigger] all[i] == items[i]);
    assert(forall|i: int| items.len() <= i < all.len() ==> #[trigger] all[i] is Payload);
    if fin_among(items) {
        let i = choose|i: int| 0 <= i < items.len() && item_fin(#[trigger] items[i]);
        assert(item_fin(all[i]));
    }
    if syn_among(items) {
        let i = choose|i: int| 0 <= i < items.len() && item_syn(#[trigger] items[i]);
        assert(item_syn(all[i]));
    }
    if fin_among(all) {
        let i = choose|i: int| 0 <= i < all.len() && item_fin(#[trigger] all[i]);
        assert(item_fin(items[i]));
    }
    if syn_among(all) {
        let i = choose|i: int| 0 <= i < all.len() && item_syn(#[trigger] all[i]);
        assert(item_syn(items[i]));
    }
}

/// From FIN on no data comes.
proof fn lemma_no_data_after_fin(items: Seq<Item>, item: Item, opener: bool)
    requires
        good_items(items.push(item), opener),
    ensures
        fin_among(items.push(item)) ==> !item_data(item),
        !item_rst(item),
        item_syn(item) ==> opener && items.len() == 0,
        opener && items.len() == 0 ==> item_syn(item),
        opener && items.len() > 0 ==> syn_among(items),
{
    let all = items.push(item);
    let last = items.len() as int;
    assert(all[last] == item);
    if fin_among(all) {
        let i = choose|i: int| 0 <= i < all.len() && item_fin(#[trigger] all[i]);
        assert(!item_data(all[last]));
    }
    if opener && items.len() > 0 {
        assert(all[0] == items[0]);
        assert(item_syn(items[0]));
    }
}

/// The use that takes a frame of the stream.
pub open spec fn taking(id: u32, event: StreamEventModel, now: nat, walk: Seq<u32>) -> SessionOp {
    SessionOp::Event(
        EventModel::Inbound(InboundModel::Frame(FrameModel::Stream(StreamID(id), event))),
        now,
        walk,
    )
}

/// Taking a frame of the stream sends nothing, and leaves the queue as it is.
proof fn lemma_taking_sends_nothing(
    side: Side,
    id: u32,
    event: StreamEventModel,
    now: nat,
    walk: Seq<u32>,
)
    requires
        side.state.turn.phase is Inbound,
    ensures
        ({
            let next = side_after(side, taking(id, event, now, walk));
            let step = session::stream_step(
                side.state.session,
                side.state.turn,
                StreamID(id),
                event,
            );
            &&& next.sent == side.sent
            &&& next.written == side.written
            &&& next.state.session == step.session
            &&& next.state.turn == step.turn
            &&& next.delivered == side.delivered + delivered_in(step.action)
            &&& next.state.session.out_queue == side.state.session.out_queue
            &&& next.state.turn.closed == side.state.turn.closed
            &&& next.got == side.got + seq![FrameModel::Stream(StreamID(id), event)]
            &&& base(next, id) == base(side, id)
        }),
{
    let next = side_after(side, taking(id, event, now, walk));
    assert(next.sent =~= side.sent);
    assert(next.written =~= side.written);
}

/// The events that wait in a head after an input: those before, and maybe a grant.
proof fn lemma_input_outs(head: HeadModel, event: StreamEventModel)
    ensures
        ({
            let next = stream::input_step(head, event).head;
            next.outs == head.outs || (next.outs == head.outs.push(next.outs.last())
                && next.outs.last() is WindowUpdate && !stream::is_fin(next.outs.last())
                && !stream::is_rst(next.outs.last())
                && !is_syn(next.outs.last()) && !stream::is_data(next.outs.last()))
        }),
{
}

/// No payload that is announced holds no bytes.
pub open spec fn announces_bytes(events: Seq<StreamEventModel>) -> bool {
    forall|i: int|
        0 <= i < events.len() ==> ((#[trigger] events[i]) matches StreamEventModel::Data(_, size)
            ==> size > 0)
}

/// The events of a stream after an input.
proof fn lemma_input_log(
    side: Side,
    next: Side,
    id: u32,
    opener: bool,
    event: StreamEventModel,
)
    requires
        sends_well(side, id, opener),
        side.state.session.streams.contains_key(id),
        next.state.session.streams.contains_key(id),
        next.state.session.streams[id] == stream::input_step(
            side.state.session.streams[id],
            event,
        ).head,
        base(next, id) == base(side, id),
    ensures
        good_events(log(next, id), opener),
        opener ==> log(next, id).len() > 0,
        has_fin(log(next, id)) ==> has_fin(log(side, id)),
        announces_bytes(log(side, id)) ==> announces_bytes(log(next, id)),
{
    let head = side.state.session.streams[id];
    let outs = next.state.session.streams[id].outs;
    lemma_input_outs(head, event);
    if outs != head.outs {
        let before = log(side, id);
        lemma_good_push(before, outs.last(), opener);
        assert(log(next, id) =~= before.push(outs.last()));
        assert(forall|i: int|
            0 <= i < before.len() ==> #[trigger] log(next, id)[i] == before[i]);
    }
}

/// A chunk that comes for the stream.
proof fn lemma_holds_chunk(
    side: Side,
    peer: Side,
    id: u32,
    opener: bool,
    bytes: Seq<u8>,
    now: nat,
    walk: Seq<u32>,
)
    requires
        holds(side, id, opener),
        holds(peer, id, !opener),
        arrives(peer.got, side.sent),
        side_allowed(side, peer, taking(id, StreamEventModel::DataChunk(bytes), now, walk)),
    ensures
        holds(
            side_after(side, taking(id, StreamEventModel::DataChunk(bytes), now, walk)),
            id,
            opener,
        ),
        announces_bytes(log(side, id)) ==> announces_bytes(
            log(side_after(side, taking(id, StreamEventModel::DataChunk(bytes), now, walk)), id),
        ),
{
    let event = StreamEventModel::DataChunk(bytes);
    let op = taking(id, event, now, walk);
    let next = side_after(side, op);
    let head = side.state.session.streams[id];
    lemma_sound_after(side, peer, op);
    lemma_arrival(side, peer, id, opener, event);
    lemma_taking_sends_nothing(side, id, event, now, walk);
    assert(side.state.session.streams.contains_key(id));
    lemma_input_log(side, next, id, opener, event);
    lemma_fin_payload(seen(side, id), StreamID(id), bytes);
    lemma_payload_append(seen(side, id), wire::payload_items(StreamID(id), bytes));
    lemma_payload_items(StreamID(id), bytes);
    lemma_bytes_for_append(id, side.delivered, seq![(id, bytes)]);
    lemma_bytes_for_one(id, id, bytes);
    assert(made(next, id, opener));
}

/// A header that comes for a stream that is known.
proof fn lemma_holds_header(
    side: Side,
    peer: Side,
    id: u32,
    opener: bool,
    event: StreamEventModel,
    now: nat,
    walk: Seq<u32>,
)
    requires
        holds(side, id, opener),
        holds(peer, id, !opener),
        arrives(peer.got, side.sent),
        side_allowed(side, peer, taking(id, event, now, walk)),
        event !is DataChunk,
        side.state.session.streams.contains_key(id),
    ensures
        holds(side_after(side, taking(id, event, now, walk)), id, opener),
        announces_bytes(log(side, id)) ==> announces_bytes(
            log(side_after(side, taking(id, event, now, walk)), id),
        ),
{
    let op = taking(id, event, now, walk);
    let next = side_after(side, op);
    let item = Item::Announced(FrameModel::Stream(StreamID(id), event));
    let came = seen(side, id);
    lemma_sound_after(side, peer, op);
    lemma_arrival(side, peer, id, opener, event);
    lemma_taking_sends_nothing(side, id, event, now, walk);
    lemma_input_log(side, next, id, opener, event);
    assert(came + seq![item] =~= came.push(item));
    lemma_fin_push(came, item);
    lemma_no_data_after_fin(came, item, !opener);
    lemma_payload_append(came, seq![item]);
    lemma_payload_of_event(id, event);
    let step = session::stream_step(side.state.session, side.state.turn, StreamID(id), event);
    lemma_bytes_for_append(id, side.delivered, delivered_in(step.action));
    lemma_bytes_for_one(id, id, seq![]);
    assert(bytes_for(id, next.delivered) =~= bytes_for(id, side.delivered));
    assert(payload_of(seen(next, id)) =~= payload_of(came));
    assert(made(next, id, opener));
}

/// A header that comes for a stream that is not known: it opens the stream, or comes after it is
/// over.
proof fn lemma_holds_unknown(
    side: Side,
    peer: Side,
    id: u32,
    opener: bool,
    event: StreamEventModel,
    now: nat,
    walk: Seq<u32>,
)
    requires
        holds(side, id, opener),
        holds(peer, id, !opener),
        arrives(peer.got, side.sent),
        side_allowed(side, peer, taking(id, event, now, walk)),
        event !is DataChunk,
        !side.state.session.streams.contains_key(id),
    ensures
        holds(side_after(side, taking(id, event, now, walk)), id, opener),
        announces_bytes(log(side, id)) ==> announces_bytes(
            log(side_after(side, taking(id, event, now, walk)), id),
        ),
{
    let op = taking(id, event, now, walk);
    let next = side_after(side, op);
    let item = Item::Announced(FrameModel::Stream(StreamID(id), event));
    let came = seen(side, id);
    lemma_sound_after(side, peer, op);
    lemma_arrival(side, peer, id, opener, event);
    lemma_taking_sends_nothing(side, id, event, now, walk);
    assert(came + seq![item] =~= came.push(item));
    lemma_fin_push(came, item);
    lemma_no_data_after_fin(came, item, !opener);
    lemma_payload_append(came, seq![item]);
    lemma_payload_of_event(id, event);
    let step = session::stream_step(side.state.session, side.state.turn, StreamID(id), event);
    lemma_bytes_for_append(id, side.delivered, delivered_in(step.action));
    lemma_bytes_for_one(id, id, seq![]);
    assert(bytes_for(id, next.delivered) =~= bytes_for(id, side.delivered));
    assert(payload_of(seen(next, id)) =~= payload_of(came));
    if is_syn(event) {
        assert(came.len() == 0);
        assert(!made(side, id, opener));
        assert(log(next, id) =~= stream::accepted_head().outs);
        assert(!stream::is_fin(log(next, id)[0]));
    } else {
        assert(next.state.session == side.state.session);
        assert(made(side, id, opener));
    }
}

/// Every use of one end keeps what holds of the stream there.
proof fn lemma_holds_after(side: Side, peer: Side, id: u32, opener: bool, op: SessionOp)
    requires
        holds(side, id, opener),
        holds(peer, id, !opener),
        arrives(peer.got, side.sent),
        side_allowed(side, peer, op),
    ensures
        holds(side_after(side, op), id, opener),
{
    if !touches(id, side.state, op) {
        lemma_holds_kept(side, peer, id, opener, op);
    } else {
        match op {
            SessionOp::Open => {
                lemma_holds_opened(side, peer, id, opener);
            },
            SessionOp::Event(EventModel::Pulled(PulledModel::Chunk(bytes)), now, walk) => {
                lemma_holds_written(side, peer, id, opener, bytes, now, walk);
            },
            SessionOp::Event(EventModel::Pulled(PulledModel::Ended), now, walk) => {
                lemma_holds_ended(side, peer, id, opener, now, walk);
            },
            SessionOp::Event(
                EventModel::Inbound(InboundModel::Frame(FrameModel::Stream(stream_id, event))),
                now,
                walk,
            ) => {
                assert(stream_id == StreamID(id));
                assert(op == taking(id, event, now, walk));
                if let StreamEventModel::DataChunk(bytes) = event {
                    lemma_holds_chunk(side, peer, id, opener, bytes, now, walk);
                } else if side.state.session.streams.contains_key(id) {
                    lemma_holds_header(side, peer, id, opener, event, now, walk);
                } else {
                    lemma_holds_unknown(side, peer, id, opener, event, now, walk);
                }
            },
            _ => {},
        }
    }
}

// === The end of a stream ===

/// No chunk of the stream is empty.
pub open spec fn all_hold_bytes(id: u32, chunks: Seq<(u32, Seq<u8>)>) -> bool {
    forall|i: int|
        0 <= i < chunks.len() && (#[trigger] chunks[i]).0 == id ==> chunks[i].1.len() > 0
}

/// The chunk tells the user of the stream that its byte stream has ended.
pub open spec fn tells_end(id: u32, chunk: (u32, Seq<u8>)) -> bool {
    chunk.0 == id && chunk.1.len() == 0
}

/// Where the user is told of the end, all that came was delivered before, and FIN came.
pub open spec fn told_last(id: u32, delivered: Seq<(u32, Seq<u8>)>, came: Seq<Item>) -> bool {
    forall|k: int|
        0 <= k < delivered.len() && tells_end(id, #[trigger] delivered[k]) ==> fin_among(came)
            && bytes_for(id, delivered.take(k)) == payload_of(came)
}

/// The user was told of the end.
pub open spec fn was_told(id: u32, delivered: Seq<(u32, Seq<u8>)>) -> bool {
    exists|k: int| 0 <= k < delivered.len() && tells_end(id, #[trigger] delivered[k])
}

/// What holds of the end of a stream at one end of a connection.
pub open spec fn ends_well(side: Side, peer: Side, id: u32) -> bool {
    &&& all_hold_bytes(id, peer.written) ==> told_last(id, side.delivered, seen(side, id))
    &&& fin_among(seen(side, id)) ==> was_told(id, side.delivered)
    &&& all_hold_bytes(id, side.written) ==> announces_bytes(log(side, id))
}

/// Further chunks, and what came meanwhile.
proof fn lemma_told_grows(
    id: u32,
    delivered: Seq<(u32, Seq<u8>)>,
    more: Seq<(u32, Seq<u8>)>,
    came: Seq<Item>,
    next: Seq<Item>,
)
    requires
        told_last(id, delivered, came),
        payload_of(came) == bytes_for(id, delivered),
        payload_of(next) == payload_of(came),
        fin_among(came) ==> fin_among(next),
        forall|i: int|
            0 <= i < more.len() && tells_end(id, #[trigger] more[i]) ==> i == 0 && fin_among(next),
    ensures
        told_last(id, delivered + more, next),
{
    let all = delivered + more;
    assert forall|k: int| 0 <= k < all.len() && tells_end(id, #[trigger] all[k]) implies fin_among(
        next,
    ) && bytes_for(id, all.take(k)) == payload_of(next) by {
        if k < delivered.len() {
            assert(all[k] == delivered[k]);
            assert(all.take(k) =~= delivered.take(k));
        } else {
            assert(all[k] == more[k - delivered.len()]);
            assert(all.take(k) =~= delivered);
        }
    }
}

/// Who was told stays told, and a chunk that tells does.
proof fn lemma_told_stays(
    id: u32,
    delivered: Seq<(u32, Seq<u8>)>,
    more: Seq<(u32, Seq<u8>)>,
)
    ensures
        was_told(id, delivered) ==> was_told(id, delivered + more),
        more.len() > 0 && tells_end(id, more[0]) ==> was_told(id, delivered + more),
{
    let all = delivered + more;
    if was_told(id, delivered) {
        let k = choose|k: int| 0 <= k < delivered.len() && tells_end(id, #[trigger] delivered[k]);
        assert(tells_end(id, all[k]));
    }
    if more.len() > 0 && tells_end(id, more[0]) {
        assert(tells_end(id, all[delivered.len() as int]));
    }
}

/// Chunks that all hold bytes do so from the start on.
proof fn lemma_hold_bytes_start(
    id: u32,
    chunks: Seq<(u32, Seq<u8>)>,
    more: Seq<(u32, Seq<u8>)>,
)
    requires
        all_hold_bytes(id, chunks + more),
    ensures
        all_hold_bytes(id, chunks),
        all_hold_bytes(id, more),
{
    let all = chunks + more;
    assert(forall|i: int| 0 <= i < chunks.len() ==> #[trigger] chunks[i] == all[i]);
    assert(forall|i: int| 0 <= i < more.len() ==> #[trigger] more[i] == all[i + chunks.len()]);
}

/// An event that is announced among the items of events is one of them.
proof fn lemma_announced_event(id: u32, events: Seq<StreamEventModel>, i: int)
    requires
        0 <= i < event_items(id, events).len(),
        announces(event_items(id, events)[i]) is Some,
    ensures
        exists|j: int|
            0 <= j < events.len() && #[trigger] events[j] == announces(
                event_items(id, events)[i],
            )->0,
    decreases events.len(),
{
    if events.len() == 0 {
        assert(session::stream_frames(id, events) =~= seq![]);
    } else {
        let before = events.drop_last();
        let earlier = event_items(id, before);
        lemma_event_items_push(id, before, events.last());
        assert(before.push(events.last()) =~= events);
        if i < earlier.len() {
            assert(event_items(id, events)[i] == earlier[i]);
            lemma_announced_event(id, before, i);
            let j = choose|j: int|
                0 <= j < before.len() && #[trigger] before[j] == announces(earlier[i])->0;
            assert(events[j] == before[j]);
        } else {
            assert(events[events.len() - 1] == announces(event_items(id, events)[i])->0);
        }
    }
}

/// Where no empty chunk was written, no empty chunk comes.
proof fn lemma_chunk_holds_bytes(
    side: Side,
    peer: Side,
    id: u32,
    opener: bool,
    bytes: Seq<u8>,
)
    requires
        holds(peer, id, !opener),
        arrives(
            side.got + seq![FrameModel::Stream(StreamID(id), StreamEventModel::DataChunk(bytes))],
            peer.sent,
        ),
        announces_bytes(log(peer, id)),
    ensures
        bytes.len() > 0,
{
    let frame = FrameModel::Stream(StreamID(id), StreamEventModel::DataChunk(bytes));
    let got = side.got + seq![frame];
    if bytes.len() == 0 {
        let last = side.got.len() as int;
        assert(wire::chunk_is_due(got, last, StreamID(id)));
        assert(got[last] == frame);
        assert(got[last - 1] == side.got[last - 1]);
        let header = side.got.last();
        let before = side.got.drop_last();
        let came = seen(side, id);
        assert(side.got =~= before + seq![header]);
        lemma_items_append(before, seq![header]);
        lemma_items_one(header);
        lemma_about_append(id, wire::items_of_all(before), wire::items_of(header));
        lemma_about_frame(id, header);
        let i = came.len() - 1;
        assert(came[i] == Item::Announced(header));
        lemma_items_append(side.got, seq![frame]);
        lemma_items_one(frame);
        assert(wire::items_of_all(side.got).is_prefix_of(wire::items_of_all(peer.sent)));
        lemma_about_prefix(id, wire::items_of_all(side.got), wire::items_of_all(peer.sent));
        lemma_about_frames(id, peer.sent);
        let sent = events_of(id, peer.sent);
        assert(event_items(id, sent)[i] == came[i]);
        lemma_announced_event(id, sent, i);
        let j = choose|j: int|
            0 <= j < sent.len() && #[trigger] sent[j] == announces(event_items(id, sent)[i])->0;
        lemma_events_append(id, peer.sent, peer.state.session.out_queue);
        assert(log(peer, id)[j] == sent[j]);
    }
}

/// A use that does not concern the stream.
proof fn lemma_ends_kept(side: Side, peer: Side, id: u32, opener: bool, op: SessionOp)
    requires
        holds(side, id, opener),
        ends_well(side, peer, id),
        side_allowed(side, peer, op),
        !touches(id, side.state, op),
    ensures
        ends_well(side_after(side, op), peer, id),
{
    let next = side_after(side, op);
    let more = delivered_by(side.state, op);
    lemma_got_other(id, side, op);
    lemma_use_keeps(id, side, op);
    if all_hold_bytes(id, peer.written) {
        lemma_told_grows(id, side.delivered, more, seen(side, id), seen(next, id));
    }
    lemma_told_stays(id, side.delivered, more);
    if all_hold_bytes(id, next.written) {
        lemma_hold_bytes_start(id, side.written, written_by(side.state, op));
        assert forall|i: int| 0 <= i < log(next, id).len() implies ((
        #[trigger] log(next, id)[i]) matches StreamEventModel::Data(_, size) ==> size > 0) by {
            if !next.state.session.streams.contains_key(id) {
                assert(log(next, id) =~= base(next, id));
            }
            assert(log(next, id)[i] == log(side, id)[i]);
        }
    }
}

/// A use in which a user acts.
proof fn lemma_ends_user(side: Side, peer: Side, id: u32, opener: bool, op: SessionOp)
    requires
        holds(side, id, opener),
        ends_well(side, peer, id),
        side_allowed(side, peer, op),
        touches(id, side.state, op),
        got_by(op).len() == 0,
    ensures
        ends_well(side_after(side, op), peer, id),
{
    let next = side_after(side, op);
    let before = log(side, id);
    let more = delivered_by(side.state, op);
    match op {
        SessionOp::Open => {
            lemma_holds_opened(side, peer, id, opener);
            assert(none_of(id, more));
            assert(written_by(side.state, op) =~= seq![]);
            assert(announces_bytes(log(next, id)));
        },
        SessionOp::Event(EventModel::Pulled(PulledModel::Chunk(bytes)), now, walk) => {
            lemma_holds_written(side, peer, id, opener, bytes, now, walk);
            let events = stream::data_events(bytes);
            if all_hold_bytes(id, next.written) {
                lemma_hold_bytes_start(id, side.written, written_by(side.state, op));
                assert(written_by(side.state, op)[0] == (id, bytes));
                assert forall|i: int| 0 <= i < log(next, id).len() implies ((
                #[trigger] log(next, id)[i]) matches StreamEventModel::Data(_, size) ==> size > 0) by {
                    if i < before.len() {
                        assert(log(next, id)[i] == before[i]);
                    } else {
                        assert(log(next, id)[i] == events[i - before.len()]);
                    }
                }
            }
        },
        SessionOp::Event(EventModel::Pulled(PulledModel::Ended), now, walk) => {
            lemma_holds_ended(side, peer, id, opener, now, walk);
            if all_hold_bytes(id, next.written) {
                lemma_hold_bytes_start(id, side.written, written_by(side.state, op));
                assert forall|i: int| 0 <= i < log(next, id).len() implies ((
                #[trigger] log(next, id)[i]) matches StreamEventModel::Data(_, size) ==> size > 0) by {
                    if i < before.len() {
                        assert(log(next, id)[i] == before[i]);
                    }
                }
            }
        },
        _ => {},
    }
    lemma_got_nothing(id, side, op);
    if all_hold_bytes(id, peer.written) {
        lemma_told_grows(id, side.delivered, more, seen(side, id), seen(next, id));
    }
    lemma_told_stays(id, side.delivered, more);
}

/// A frame of the stream that comes.
proof fn lemma_ends_taking(
    side: Side,
    peer: Side,
    id: u32,
    opener: bool,
    event: StreamEventModel,
    now: nat,
    walk: Seq<u32>,
)
    requires
        holds(side, id, opener),
        holds(peer, id, !opener),
        arrives(peer.got, side.sent),
        ends_well(side, peer, id),
        ends_well(peer, side, id),
        side_allowed(side, peer, taking(id, event, now, walk)),
    ensures
        ends_well(side_after(side, taking(id, event, now, walk)), peer, id),
{
    let op = taking(id, event, now, walk);
    let next = side_after(side, op);
    let came = seen(side, id);
    let step = session::stream_step(side.state.session, side.state.turn, StreamID(id), event);
    let more = delivered_in(step.action);
    lemma_arrival(side, peer, id, opener, event);
    lemma_taking_sends_nothing(side, id, event, now, walk);
    lemma_told_stays(id, side.delivered, more);
    if let StreamEventModel::DataChunk(bytes) = event {
        lemma_holds_chunk(side, peer, id, opener, bytes, now, walk);
        lemma_fin_payload(came, StreamID(id), bytes);
        if all_hold_bytes(id, peer.written) {
            lemma_chunk_holds_bytes(side, peer, id, opener, bytes);
            let all = side.delivered + more;
            assert forall|k: int|
                0 <= k < all.len() && tells_end(id, #[trigger] all[k]) implies fin_among(
                seen(next, id),
            ) && bytes_for(id, all.take(k)) == payload_of(seen(next, id)) by {
                if k < side.delivered.len() {
                    assert(tells_end(id, side.delivered[k]));
                }
            }
        }
    } else {
        let item = Item::Announced(FrameModel::Stream(StreamID(id), event));
        assert(came + seq![item] =~= came.push(item));
        lemma_fin_push(came, item);
        lemma_no_data_after_fin(came, item, !opener);
        lemma_payload_append(came, seq![item]);
        lemma_payload_of_event(id, event);
        assert(payload_of(seen(next, id)) =~= payload_of(came));
        if side.state.session.streams.contains_key(id) {
            lemma_holds_header(side, peer, id, opener, event, now, walk);
        } else {
            lemma_holds_unknown(side, peer, id, opener, event, now, walk);
        }
        if all_hold_bytes(id, peer.written) {
            lemma_told_grows(id, side.delivered, more, came, seen(next, id));
        }
    }
}

/// Every use of one end keeps what holds of the end of the stream there.
proof fn lemma_ends_after(side: Side, peer: Side, id: u32, opener: bool, op: SessionOp)
    requires
        holds(side, id, opener),
        holds(peer, id, !opener),
        arrives(peer.got, side.sent),
        ends_well(side, peer, id),
        ends_well(peer, side, id),
        side_allowed(side, peer, op),
    ensures
        ends_well(side_after(side, op), peer, id),
        ends_well(peer, side_after(side, op), id),
{
    if !touches(id, side.state, op) {
        lemma_ends_kept(side, peer, id, opener, op);
    } else {
        match op {
            SessionOp::Event(
                EventModel::Inbound(InboundModel::Frame(FrameModel::Stream(stream_id, event))),
                now,
                walk,
            ) => {
                assert(stream_id == StreamID(id));
                assert(op == taking(id, event, now, walk));
                lemma_ends_taking(side, peer, id, opener, event, now, walk);
            },
            _ => {
                lemma_ends_user(side, peer, id, opener, op);
            },
        }
    }
    if all_hold_bytes(id, side_after(side, op).written) {
        lemma_hold_bytes_start(id, side.written, written_by(side.state, op));
    }
}

/// Payload-free items have no payload.
proof fn lemma_no_payload(items: Seq<Item>)
    requires
        forall|i: int| 0 <= i < items.len() ==> !((#[trigger] items[i]) is Payload),
    ensures
        payload_of(items) == Seq::<u8>::empty(),
    decreases items.len(),
{
    if items.len() > 0 {
        let before = items.drop_last();
        assert forall|i: int| 0 <= i < before.len() implies !((#[trigger] before[i]) is Payload) by {
            assert(before[i] == items[i]);
        }
        lemma_no_payload(before);
        assert(!(items[items.len() - 1] is Payload));
    }
}

/// Once FIN came, all that was written came.
proof fn lemma_fin_means_all(side: Side, peer: Side, id: u32, opener: bool)
    requires
        holds(side, id, opener),
        holds(peer, id, !opener),
        arrives(side.got, peer.sent),
        fin_among(seen(side, id)),
    ensures
        bytes_for(id, side.delivered) == bytes_for(id, peer.written),
{
    let came = seen(side, id);
    let sent = events_of(id, peer.sent);
    let events = log(peer, id);
    let unsent = events_of(id, peer.state.session.out_queue) + outs_of(peer.state.session, id);
    let all = event_items(id, events);
    lemma_about_prefix(id, wire::items_of_all(side.got), wire::items_of_all(peer.sent));
    lemma_about_frames(id, peer.sent);
    lemma_events_append(id, peer.sent, peer.state.session.out_queue);
    assert(events =~= sent + unsent);
    lemma_items_append(session::stream_frames(id, sent), session::stream_frames(id, unsent));
    assert(session::stream_frames(id, events) =~= session::stream_frames(id, sent)
        + session::stream_frames(id, unsent));
    assert(came.is_prefix_of(all));
    let rest = all.skip(came.len() as int);
    assert(all =~= came + rest);
    lemma_good_items(id, events, !opener);
    let f = choose|i: int| 0 <= i < came.len() && item_fin(#[trigger] came[i]);
    assert(all[f] == came[f]);
    assert forall|i: int| 0 <= i < rest.len() implies !((#[trigger] rest[i]) is Payload) by {
        assert(rest[i] == all[i + came.len()]);
        assert(item_fin(all[f]));
        assert(!item_data(all[i + came.len()]));
    }
    lemma_no_payload(rest);
    lemma_payload_append(came, rest);
    lemma_payload_of_events(id, events);
    lemma_log_carries(peer, id);
    assert(payload_of(came) + Seq::<u8>::empty() =~= payload_of(came));
}

/// What holds of a stream at both ends.
pub open spec fn pair_holds(pair: Pair, id: u32) -> bool {
    &&& holds(pair.client, id, id % 2 == 1)
    &&& holds(pair.server, id, id % 2 == 0)
    &&& arrives(pair.client.got, pair.server.sent)
    &&& arrives(pair.server.got, pair.client.sent)
    &&& ends_well(pair.client, pair.server, id)
    &&& ends_well(pair.server, pair.client, id)
}

/// What arrived of what was sent also arrived of more.
proof fn lemma_arrives_of_more(
    got: Seq<FrameModel>,
    sent: Seq<FrameModel>,
    more: Seq<FrameModel>,
)
    requires
        arrives(got, sent),
    ensures
        arrives(got, sent + more),
{
    lemma_items_append(sent, more);
}

/// Every use keeps what holds of the stream.
proof fn lemma_pair_holds_after(pair: Pair, id: u32, op: PairOp)
    requires
        pair_holds(pair, id),
        pair_allowed(pair, op),
    ensures
        pair_holds(pair_after(pair, op), id),
{
    if op.at_client {
        lemma_holds_after(pair.client, pair.server, id, id % 2 == 1, op.op);
        lemma_ends_after(pair.client, pair.server, id, id % 2 == 1, op.op);
        lemma_arrives_of_more(
            pair.server.got,
            pair.client.sent,
            history::sent_by(pair.client.state, op.op),
        );
    } else {
        lemma_holds_after(pair.server, pair.client, id, id % 2 == 0, op.op);
        lemma_ends_after(pair.server, pair.client, id, id % 2 == 0, op.op);
        lemma_arrives_of_more(
            pair.client.got,
            pair.server.sent,
            history::sent_by(pair.server.state, op.op),
        );
    }
}

/// Every run keeps what holds of the stream.
proof fn lemma_pair_holds_over_run(pair: Pair, id: u32, ops: Seq<PairOp>)
    requires
        pair_holds(pair, id),
        pair_run_allowed(pair, ops),
    ensures
        pair_holds(pair_after_all(pair, ops), id),
    decreases ops.len(),
{
    if ops.len() > 0 {
        lemma_pair_holds_after(pair, id, ops[0]);
        lemma_pair_holds_over_run(pair_after(pair, ops[0]), id, ops.drop_first());
    }
}

/// A new end.
proof fn lemma_new_side_holds(is_server: bool, cfg: YamuxSessionConfig, origin: Instant, id: u32)
    ensures
        holds(new_side(is_server, cfg, origin), id, (id % 2 == 0) == is_server),
        forall|peer: Side| #[trigger] ends_well(new_side(is_server, cfg, origin), peer, id),
{
    let side = new_side(is_server, cfg, origin);
    assert(side.sent + side.state.session.out_queue =~= seq![]);
    assert(log(side, id) =~= seq![]);
    assert(seen(side, id) =~= seq![]);
    assert(id % 2 == 0 || id % 2 == 1);
}

/// What is delivered of a stream at one end is the start of what its user wrote at the other.
proof fn lemma_delivered_was_written(side: Side, peer: Side, id: u32, opener: bool)
    requires
        holds(side, id, opener),
        holds(peer, id, !opener),
        arrives(side.got, peer.sent),
    ensures
        bytes_for(id, side.delivered).is_prefix_of(bytes_for(id, peer.written)),
{
    let came = seen(side, id);
    let sent = events_of(id, peer.sent);
    let queued = events_of(id, peer.state.session.out_queue);
    lemma_about_prefix(id, wire::items_of_all(side.got), wire::items_of_all(peer.sent));
    lemma_about_frames(id, peer.sent);
    let all = event_items(id, sent);
    let rest = all.skip(came.len() as int);
    assert(all =~= came + rest);
    lemma_payload_append(came, rest);
    lemma_payload_of_events(id, sent);
    lemma_events_append(id, peer.sent, peer.state.session.out_queue);
    stream::lemma_carried_append(sent, queued);
}

// === Laws ===

/// A user that writes no more half-closes the stream: FIN is queued behind all that is queued, and
/// as long as the peer has not closed its half the stream stays, with the local half closed.
pub proof fn law_half_close_queues_fin(session: SessionModel, turn: TurnModel)
    requires
        session::coherent(session, turn),
        turn.phase is Pulling,
        !turn.closed.contains(turn.visiting.last()),
    ensures
        ({
            let id = turn.visiting.last();
            let next = session::pulled_step(session, turn, PulledModel::Ended).session;
            let fin = StreamEventModel::WindowUpdate(stream::fin_flags(), 0);
            &&& session.out_queue.push(FrameModel::Stream(StreamID(id), fin)).is_prefix_of(
                next.out_queue,
            )
            &&& session.streams[id].remote ==> {
                &&& next.streams.contains_key(id)
                &&& next.streams[id].remote
                &&& !next.streams[id].local
            }
        }),
{
    let id = turn.visiting.last();
    let fin = StreamEventModel::WindowUpdate(stream::fin_flags(), 0);
    let (poll, head) = stream::pulled_step(session.streams[id], PulledModel::Ended);
    let between = SessionModel {
        streams: session.streams.insert(id, head),
        ..session::queued(session, FrameModel::Stream(StreamID(id), fin))
    };
    history::lemma_visit_queues_behind(between, turn);
    lemma_visit_keeps(id, between, turn);
}

/// What a user writes into a stream at one end of a connection is what the user of the stream
/// reads at the other. Over any run of two sessions, with any streams opened and closed at both
/// ends, however the connection cuts and delays what is sent, and in both directions: the bytes
/// that were delivered of a stream are the start of the bytes that were written into it, none
/// lost, none twice, none out of order, and none of another stream.
pub proof fn law_delivered_is_a_prefix_of_written(
    client_cfg: YamuxSessionConfig,
    server_cfg: YamuxSessionConfig,
    client_origin: Instant,
    server_origin: Instant,
    ops: Seq<PairOp>,
    id: u32,
)
    requires
        pair_run_allowed(
            Pair {
                client: new_side(false, client_cfg, client_origin),
                server: new_side(true, server_cfg, server_origin),
            },
            ops,
        ),
    ensures
        ({
            let pair = pair_after_all(
                Pair {
                    client: new_side(false, client_cfg, client_origin),
                    server: new_side(true, server_cfg, server_origin),
                },
                ops,
            );
            &&& bytes_for(id, pair.server.delivered).is_prefix_of(
                bytes_for(id, pair.client.written),
            )
            &&& bytes_for(id, pair.client.delivered).is_prefix_of(
                bytes_for(id, pair.server.written),
            )
        }),
{
    let start = Pair {
        client: new_side(false, client_cfg, client_origin),
        server: new_side(true, server_cfg, server_origin),
    };
    lemma_new_side_holds(false, client_cfg, client_origin, id);
    lemma_new_side_holds(true, server_cfg, server_origin, id);
    lemma_pair_holds_over_run(start, id, ops);
    let pair = pair_after_all(start, ops);
    lemma_delivered_was_written(pair.server, pair.client, id, id % 2 == 0);
    lemma_delivered_was_written(pair.client, pair.server, id, id % 2 == 1);
}

/// What is told of the end of a stream at one end of a connection: where no empty chunk was written
/// at the other end, a user who is told that the byte stream has ended got all bytes before that
/// were written there; and a user whose peer's FIN came was told.
pub open spec fn end_is_told(side: Side, peer: Side, id: u32) -> bool {
    &&& all_hold_bytes(id, peer.written) ==> forall|k: int|
        0 <= k < side.delivered.len() && tells_end(id, #[trigger] side.delivered[k]) ==> bytes_for(
            id,
            side.delivered.take(k),
        ) == bytes_for(id, peer.written)
    &&& fin_among(seen(side, id)) ==> was_told(id, side.delivered)
}

/// The end of a stream is told after all its bytes and only then. Over any run of two sessions, on
/// every stream and in both directions: when a user is told that the byte stream has ended, all
/// bytes that were written into it at the other end were delivered before, provided that no empty
/// chunk was written there, which reads as an end where it comes out; and a FIN that came was told.
pub proof fn law_end_is_told_after_all_bytes(
    client_cfg: YamuxSessionConfig,
    server_cfg: YamuxSessionConfig,
    client_origin: Instant,
    server_origin: Instant,
    ops: Seq<PairOp>,
    id: u32,
)
    requires
        pair_run_allowed(
            Pair {
                client: new_side(false, client_cfg, client_origin),
                server: new_side(true, server_cfg, server_origin),
            },
            ops,
        ),
    ensures
        ({
            let pair = pair_after_all(
                Pair {
                    client: new_side(false, client_cfg, client_origin),
                    server: new_side(true, server_cfg, server_origin),
                },
                ops,
            );
            &&& end_is_told(pair.server, pair.client, id)
            &&& end_is_told(pair.client, pair.server, id)
        }),
{
    let start = Pair {
        client: new_side(false, client_cfg, client_origin),
        server: new_side(true, server_cfg, server_origin),
    };
    lemma_new_side_holds(false, client_cfg, client_origin, id);
    lemma_new_side_holds(true, server_cfg, server_origin, id);
    lemma_pair_holds_over_run(start, id, ops);
    let pair = pair_after_all(start, ops);
    lemma_end_is_told(pair.server, pair.client, id, id % 2 == 0);
    lemma_end_is_told(pair.client, pair.server, id, id % 2 == 1);
}

/// The end of a stream at one end of a connection.
proof fn lemma_end_is_told(side: Side, peer: Side, id: u32, opener: bool)
    requires
        holds(side, id, opener),
        holds(peer, id, !opener),
        arrives(side.got, peer.sent),
        ends_well(side, peer, id),
    ensures
        end_is_told(side, peer, id),
{
    if fin_among(seen(side, id)) {
        lemma_fin_means_all(side, peer, id, opener);
    }
}

/// Nothing is held back: once all that was written is sent and came to the other end, all of it is
/// delivered.
pub proof fn law_all_that_came_is_delivered(
    client_cfg: YamuxSessionConfig,
    server_cfg: YamuxSessionConfig,
    client_origin: Instant,
    server_origin: Instant,
    ops: Seq<PairOp>,
    id: u32,
)
    requires
        pair_run_allowed(
            Pair {
                client: new_side(false, client_cfg, client_origin),
                server: new_side(true, server_cfg, server_origin),
            },
            ops,
        ),
    ensures
        ({
            let pair = pair_after_all(
                Pair {
                    client: new_side(false, client_cfg, client_origin),
                    server: new_side(true, server_cfg, server_origin),
                },
                ops,
            );
            &&& pair.client.state.session.out_queue.len() == 0 && wire::items_of_all(
                pair.server.got,
            ) == wire::items_of_all(pair.client.sent) ==> bytes_for(id, pair.server.delivered)
                == bytes_for(id, pair.client.written)
            &&& pair.server.state.session.out_queue.len() == 0 && wire::items_of_all(
                pair.client.got,
            ) == wire::items_of_all(pair.server.sent) ==> bytes_for(id, pair.client.delivered)
                == bytes_for(id, pair.server.written)
        }),
{
    let start = Pair {
        client: new_side(false, client_cfg, client_origin),
        server: new_side(true, server_cfg, server_origin),
    };
    lemma_new_side_holds(false, client_cfg, client_origin, id);
    lemma_new_side_holds(true, server_cfg, server_origin, id);
    lemma_pair_holds_over_run(start, id, ops);
    let pair = pair_after_all(start, ops);
    lemma_all_delivered(pair.server, pair.client, id, id % 2 == 0);
    lemma_all_delivered(pair.client, pair.server, id, id % 2 == 1);
}

/// What came whole is delivered whole.
proof fn lemma_all_delivered(side: Side, peer: Side, id: u32, opener: bool)
    requires
        holds(side, id, opener),
        holds(peer, id, !opener),
    ensures
        peer.state.session.out_queue.len() == 0 && wire::items_of_all(side.got)
            == wire::items_of_all(peer.sent) ==> bytes_for(id, side.delivered) == bytes_for(
            id,
            peer.written,
        ),
{
    if peer.state.session.out_queue.len() == 0 {
        lemma_about_frames(id, peer.sent);
        lemma_payload_of_events(id, events_of(id, peer.sent));
        assert(peer.sent + peer.state.session.out_queue =~= peer.sent);
    }
}

/// A reader at the end of a connection yields frames that a use may take, whatever pieces the
/// bytes of the peer come in.
pub proof fn law_reader_yields_what_arrives(
    sent: Seq<FrameModel>,
    ops: Seq<wire::ReadOp>,
    more: Seq<u8>,
)
    requires
        wire::write_all(None, sent) is Ok,
        wire::bytes_arrived(ops) + more == wire::bytes_of_all(sent),
        wire::arrives_in_pieces(ops),
    ensures
        arrives(
            wire::frames_read(wire::ReaderState { pending: None, pieces: seq![] }, ops),
            sent,
        ),
{
    wire::law_reader_yields_what_was_written(sent, ops, more);
}

} // verus!
