//! Logical Yamux stream state and user-facing I/O handle.
//!
//! Yamux models each logical stream as a small state machine plus a byte-oriented handle.
//! This module splits that into two parts:
//! - [`YamuxStreamHead`] is driven by the session and converts between I/O intent and
//!   [`crate::frame::FrameStreamEvent`] values.
//! - [`YamuxStream`] stands at the user's end and converts between bytes and chunks.
//!
//! Between the two run two channels of chunks. Neither end touches them: the head says which
//! chunk to deliver to the user and when to pull one, and both ends take what a channel answered.

use std::collections::VecDeque;

use vstd::prelude::*;

use crate::chunk::{ChunkView, DEFAULT_CHUNK_CAPACITY};
use crate::frame;
use crate::frame::{FrameStreamEvent, StreamEventModel};
use crate::packet::{Flags, FlagsBuilder};

verus! {

// === Constants ===

/// Initial per-stream flow-control window in bytes.
pub const INITIAL_WINDOW: u32 = 256 * 1024;

// === Channel answers ===

/// What a channel of chunks answered when it was asked for the next one.
#[derive(Debug)]
pub enum Pulled {
    /// The next chunk.
    Chunk(ChunkView),
    /// The other end is gone and no chunk is left.
    Ended,
    /// No chunk yet.
    Pending,
}

/// An answer of a channel: a chunk stands for its bytes.
pub enum PulledModel {
    Chunk(Seq<u8>),
    Ended,
    Pending,
}

impl View for Pulled {
    type V = PulledModel;

    open spec fn view(&self) -> PulledModel {
        match self {
            Pulled::Chunk(chunk) => PulledModel::Chunk(chunk.bytes()),
            Pulled::Ended => PulledModel::Ended,
            Pulled::Pending => PulledModel::Pending,
        }
    }
}

// === Model of a stream head ===

/// The state of a [`YamuxStreamHead`].
pub struct HeadModel {
    /// The peer has opened the stream, so data can be sent to it.
    pub opened: bool,
    /// The local half is open.
    pub local: bool,
    /// The remote half is open.
    pub remote: bool,
    /// How many bytes may still be sent.
    pub send: nat,
    /// How many received bytes were not granted back to the peer yet.
    pub recv: nat,
    /// Events that wait to be sent.
    pub outs: Seq<StreamEventModel>,
    /// What is missing of the payload that is being received.
    pub receiving: Option<nat>,
}

/// Only the ACK flag.
pub open spec fn ack_flags() -> Flags {
    Flags { syn: false, ack: true, fin: false, rst: false }
}

/// Only the SYN flag.
pub open spec fn syn_flags() -> Flags {
    Flags { syn: true, ack: false, fin: false, rst: false }
}

/// Only the FIN flag.
pub open spec fn fin_flags() -> Flags {
    Flags { syn: false, ack: false, fin: true, rst: false }
}

/// No flag.
pub open spec fn no_flags() -> Flags {
    Flags { syn: false, ack: false, fin: false, rst: false }
}

/// A stream that was opened here: it announces itself with SYN and waits for the peer.
pub open spec fn opened_head() -> HeadModel {
    HeadModel {
        opened: false,
        local: true,
        remote: false,
        send: INITIAL_WINDOW as nat,
        recv: 0,
        outs: seq![StreamEventModel::WindowUpdate(syn_flags(), INITIAL_WINDOW)],
        receiving: None,
    }
}

/// A stream that the peer opened: it is acknowledged with ACK.
pub open spec fn accepted_head() -> HeadModel {
    HeadModel {
        opened: true,
        local: true,
        remote: true,
        send: INITIAL_WINDOW as nat,
        recv: 0,
        outs: seq![StreamEventModel::WindowUpdate(ack_flags(), INITIAL_WINDOW)],
        receiving: None,
    }
}

/// Both halves are closed.
pub open spec fn is_closed(head: HeadModel) -> bool {
    !head.local && !head.remote
}

/// Errors in the order of data headers and chunks that a stream receives.
#[derive(Debug, Clone, Copy, PartialEq, Eq, Structural)]
pub enum StreamInputError {
    /// A data header came while a payload was not complete.
    DataWhileReceiving,
    /// A data chunk is larger than what is missing of the payload.
    ChunkTooLarge,
    /// A data chunk came while no payload was announced.
    ChunkWithoutData,
}

/// The halves after control flags: the first ACK opens the remote half, FIN closes it for good,
/// RST closes both. A peer that closes a half has opened the stream, also without an ACK.
pub open spec fn flagged(head: HeadModel, flags: Flags) -> HeadModel {
    HeadModel {
        opened: head.opened || flags.ack || flags.fin || flags.rst,
        local: head.local && !flags.rst,
        remote: (head.remote || flags.ack && !head.opened) && !flags.rst && !flags.fin,
        ..head
    }
}

/// What the user gets because of control flags: FIN ends the byte stream with an empty chunk.
pub open spec fn end_of_stream(flags: Flags) -> Option<Seq<u8>> {
    if flags.fin {
        Some(seq![])
    } else {
        None
    }
}

/// Counts received bytes; half a window of them, less a chunk, is granted back to the peer.
pub open spec fn credited(head: HeadModel, received: nat) -> HeadModel {
    let recv = head.recv + received;
    if recv + DEFAULT_CHUNK_CAPACITY >= INITIAL_WINDOW / 2 {
        HeadModel {
            recv: 0,
            outs: head.outs.push(
                StreamEventModel::WindowUpdate(ack_flags(), (recv % 0x1_0000_0000) as u32),
            ),
            ..head
        }
    } else {
        HeadModel { recv, ..head }
    }
}

/// What a head does with an event from the peer: its next state, and the bytes that go to the
/// user, if any, or why the event is out of order.
pub struct InputStep {
    pub head: HeadModel,
    pub result: Result<Option<Seq<u8>>, StreamInputError>,
}

/// Taking an event from the peer.
pub open spec fn input_step(head: HeadModel, event: StreamEventModel) -> InputStep {
    match event {
        StreamEventModel::Data(flags, size) => if head.receiving is Some {
            InputStep { head, result: Err(StreamInputError::DataWhileReceiving) }
        } else {
            InputStep {
                head: HeadModel { receiving: Some(size as nat), ..flagged(head, flags) },
                result: Ok(end_of_stream(flags)),
            }
        },
        StreamEventModel::DataChunk(bytes) => match head.receiving {
            Some(missing) => if missing < bytes.len() {
                InputStep { head, result: Err(StreamInputError::ChunkTooLarge) }
            } else {
                let receiving = if missing == bytes.len() {
                    None
                } else {
                    Some((missing - bytes.len()) as nat)
                };
                InputStep {
                    head: credited(HeadModel { receiving, ..head }, bytes.len()),
                    result: Ok(Some(bytes)),
                }
            },
            None => InputStep { head, result: Err(StreamInputError::ChunkWithoutData) },
        },
        StreamEventModel::WindowUpdate(flags, delta) => InputStep {
            head: HeadModel { send: head.send + delta as nat, ..flagged(head, flags) },
            result: Ok(end_of_stream(flags)),
        },
    }
}

/// The send window after an event fits the machine.
pub open spec fn window_fits(head: HeadModel, event: StreamEventModel) -> bool {
    event matches StreamEventModel::WindowUpdate(_, delta) ==> head.send + delta <= u64::MAX
}

/// The user may still write, nothing waits to be sent, the peer has opened the stream, and the
/// window has room for a whole chunk.
pub open spec fn can_pull(head: HeadModel) -> bool {
    &&& head.local
    &&& head.outs.len() == 0
    &&& head.opened
    &&& head.send >= DEFAULT_CHUNK_CAPACITY
}

/// A head after a chunk of the user was sent.
pub open spec fn sent_chunk(head: HeadModel, bytes: Seq<u8>) -> HeadModel {
    HeadModel { send: (head.send - bytes.len()) as nat, ..head }
}

/// The events that carry a chunk of the user: its header, then the chunk.
pub open spec fn data_events(bytes: Seq<u8>) -> Seq<StreamEventModel> {
    seq![
        StreamEventModel::Data(no_flags(), bytes.len() as u32),
        StreamEventModel::DataChunk(bytes),
    ]
}

/// What a head answers when it is asked for the next event to send.
#[derive(Debug)]
pub enum HeadPoll {
    /// Both halves are closed: the stream is over.
    Closed,
    /// Send this event.
    Emit(FrameStreamEvent),
    /// Nothing to send now.
    Pending,
    /// Ask the user's channel for a chunk.
    Pull,
}

/// An answer of a head: a chunk stands for its bytes.
pub enum HeadPollModel {
    Closed,
    Emit(StreamEventModel),
    Pending,
    Pull,
}

impl View for HeadPoll {
    type V = HeadPollModel;

    open spec fn view(&self) -> HeadPollModel {
        match self {
            HeadPoll::Closed => HeadPollModel::Closed,
            HeadPoll::Emit(event) => HeadPollModel::Emit(event@),
            HeadPoll::Pending => HeadPollModel::Pending,
            HeadPoll::Pull => HeadPollModel::Pull,
        }
    }
}

/// Asking a head for the next event: waiting events go first, also while the peer or the window
/// keeps data back.
pub open spec fn poll_step(head: HeadModel) -> (HeadPollModel, HeadModel) {
    if is_closed(head) {
        (HeadPollModel::Closed, head)
    } else if head.outs.len() > 0 {
        (HeadPollModel::Emit(head.outs[0]), HeadModel { outs: head.outs.drop_first(), ..head })
    } else if can_pull(head) {
        (HeadPollModel::Pull, head)
    } else {
        (HeadPollModel::Pending, head)
    }
}

/// What a head makes of what the user's channel answered: a chunk is sent behind its header, and
/// a user that writes no more closes the local half, which FIN tells the peer.
pub open spec fn pulled_step(head: HeadModel, pulled: PulledModel) -> (HeadPollModel, HeadModel) {
    match pulled {
        PulledModel::Chunk(bytes) => {
            let events = data_events(bytes);
            (
                HeadPollModel::Emit(events[0]),
                HeadModel { outs: seq![events[1]], ..sent_chunk(head, bytes) },
            )
        },
        PulledModel::Ended => (
            HeadPollModel::Emit(StreamEventModel::WindowUpdate(fin_flags(), 0)),
            HeadModel { local: false, ..head },
        ),
        PulledModel::Pending => (HeadPollModel::Pending, head),
    }
}

// === Laws ===

/// One use of a stream head.
pub enum HeadOp {
    /// An event of the peer.
    Input(StreamEventModel),
    /// The session asks for the next event.
    Poll,
    /// The user's channel answers.
    Pulled(PulledModel),
}

/// When a use is in order: the user's channel is asked only when the head wants it, and yields
/// chunks of a size that the window was asked for.
pub open spec fn op_allowed(head: HeadModel, op: HeadOp) -> bool {
    op matches HeadOp::Pulled(pulled) ==> can_pull(head) && (pulled matches PulledModel::Chunk(
        bytes,
    ) ==> bytes.len() <= DEFAULT_CHUNK_CAPACITY)
}

/// A head after one use.
pub open spec fn head_after(head: HeadModel, op: HeadOp) -> HeadModel {
    match op {
        HeadOp::Input(event) => input_step(head, event).head,
        HeadOp::Poll => poll_step(head).1,
        HeadOp::Pulled(pulled) => pulled_step(head, pulled).1,
    }
}

/// Every use of a run is in order.
pub open spec fn run_allowed(head: HeadModel, ops: Seq<HeadOp>) -> bool
    decreases ops.len(),
{
    ops.len() > 0 ==> op_allowed(head, ops[0]) && run_allowed(
        head_after(head, ops[0]),
        ops.drop_first(),
    )
}

/// A head after a run of uses.
pub open spec fn head_after_all(head: HeadModel, ops: Seq<HeadOp>) -> HeadModel
    decreases ops.len(),
{
    if ops.len() == 0 {
        head
    } else {
        head_after_all(head_after(head, ops[0]), ops.drop_first())
    }
}

/// Bytes that the peer allowed to be sent over a run.
pub open spec fn granted(ops: Seq<HeadOp>) -> nat
    decreases ops.len(),
{
    if ops.len() == 0 {
        0
    } else {
        (match ops[0] {
            HeadOp::Input(StreamEventModel::WindowUpdate(_, delta)) => delta as nat,
            _ => 0,
        }) + granted(ops.drop_first())
    }
}

/// Bytes of the user that were sent over a run.
pub open spec fn sent(ops: Seq<HeadOp>) -> nat
    decreases ops.len(),
{
    if ops.len() == 0 {
        0
    } else {
        (match ops[0] {
            HeadOp::Pulled(PulledModel::Chunk(bytes)) => bytes.len(),
            _ => 0,
        }) + sent(ops.drop_first())
    }
}

/// Flow control: over any run, what is sent is paid out of the window, which only the peer's
/// grants fill up; no more is ever sent than the window at the start and the grants allow.
pub proof fn law_window_pays_for_sent_bytes(head: HeadModel, ops: Seq<HeadOp>)
    requires
        run_allowed(head, ops),
    ensures
        head_after_all(head, ops).send + sent(ops) == head.send + granted(ops),
        sent(ops) <= head.send + granted(ops),
    decreases ops.len(),
{
    if ops.len() > 0 {
        law_window_pays_for_sent_bytes(head_after(head, ops[0]), ops.drop_first());
    }
}

/// Bytes of payload that were taken from the peer over a run.
pub open spec fn received(head: HeadModel, ops: Seq<HeadOp>) -> nat
    decreases ops.len(),
{
    if ops.len() == 0 {
        0
    } else {
        (match ops[0] {
            HeadOp::Input(StreamEventModel::DataChunk(bytes)) => if input_step(
                head,
                StreamEventModel::DataChunk(bytes),
            ).result is Ok {
                bytes.len()
            } else {
                0
            },
            _ => 0,
        }) + received(head_after(head, ops[0]), ops.drop_first())
    }
}

/// The window that an event grants to the peer.
pub open spec fn grant_of(event: StreamEventModel) -> nat {
    match event {
        StreamEventModel::WindowUpdate(_, delta) => delta as nat,
        _ => 0,
    }
}

/// The window that waiting events grant to the peer.
pub open spec fn grants_of(events: Seq<StreamEventModel>) -> nat
    decreases events.len(),
{
    if events.len() == 0 {
        0
    } else {
        grants_of(events.drop_last()) + grant_of(events.last())
    }
}

/// The window that was granted to the peer over a run.
pub open spec fn granted_back(head: HeadModel, ops: Seq<HeadOp>) -> nat
    decreases ops.len(),
{
    if ops.len() == 0 {
        0
    } else {
        (match (ops[0], poll_step(head).0) {
            (HeadOp::Poll, HeadPollModel::Emit(event)) => grant_of(event),
            _ => 0,
        }) + granted_back(head_after(head, ops[0]), ops.drop_first())
    }
}

/// The chunks of a run are small enough for their count to fit a window update.
pub open spec fn chunks_countable(ops: Seq<HeadOp>) -> bool {
    forall|i: int|
        0 <= i < ops.len() ==> (#[trigger] ops[i] matches HeadOp::Input(
            StreamEventModel::DataChunk(bytes),
        ) ==> bytes.len() + INITIAL_WINDOW <= u32::MAX)
}

/// Taking the first event away takes its grant away.
proof fn lemma_grants_first(events: Seq<StreamEventModel>)
    requires
        events.len() > 0,
    ensures
        grants_of(events) == grant_of(events[0]) + grants_of(events.drop_first()),
    decreases events.len(),
{
    if events.len() > 1 {
        lemma_grants_first(events.drop_last());
        assert(events.drop_last().drop_first() =~= events.drop_first().drop_last());
    } else {
        assert(events.drop_last() =~= seq![]);
        assert(events.drop_first() =~= seq![]);
        assert(grants_of(seq![]) == 0);
    }
}

/// The receive window is an account: over any run, what was granted to the peer, what waits to
/// be, and what is not granted yet grow by exactly the received bytes. So a peer is never granted
/// more than the first frame of the stream grants and the bytes that it sent since.
pub proof fn law_received_bytes_are_granted_back(head: HeadModel, ops: Seq<HeadOp>)
    requires
        head.recv <= INITIAL_WINDOW,
        run_allowed(head, ops),
        chunks_countable(ops),
    ensures
        ({
            let after = head_after_all(head, ops);
            &&& after.recv <= INITIAL_WINDOW
            &&& granted_back(head, ops) + grants_of(after.outs) + after.recv == grants_of(
                head.outs,
            ) + head.recv + received(head, ops)
        }),
    decreases ops.len(),
{
    if ops.len() > 0 {
        let next = head_after(head, ops[0]);
        match ops[0] {
            HeadOp::Input(event) => {
                let step = input_step(head, event);
                if let StreamEventModel::DataChunk(bytes) = event {
                    assert(ops[0] == HeadOp::Input(StreamEventModel::DataChunk(bytes)));
                    if step.result is Ok && next.outs != head.outs {
                        let recv = head.recv + bytes.len();
                        assert(recv % 0x1_0000_0000 == recv);
                        assert(next.outs.drop_last() =~= head.outs);
                    }
                }
            },
            HeadOp::Poll => {
                if !is_closed(head) && head.outs.len() > 0 {
                    lemma_grants_first(head.outs);
                }
            },
            HeadOp::Pulled(pulled) => {
                if let PulledModel::Chunk(bytes) = pulled {
                    assert(next.outs.drop_last() =~= head.outs);
                }
                assert(grants_of(head.outs) == 0);
                assert(grants_of(next.outs) == 0);
            },
        }
        assert(forall|i: int|
            0 <= i < ops.drop_first().len() ==> #[trigger] ops.drop_first()[i] == ops[i + 1]);
        law_received_bytes_are_granted_back(next, ops.drop_first());
    }
}

/// The events that a use hands to the session.
pub open spec fn emitted_by(head: HeadModel, op: HeadOp) -> Seq<StreamEventModel> {
    let poll = match op {
        HeadOp::Input(_) => HeadPollModel::Pending,
        HeadOp::Poll => poll_step(head).0,
        HeadOp::Pulled(pulled) => pulled_step(head, pulled).0,
    };
    match poll {
        HeadPollModel::Emit(event) => seq![event],
        _ => seq![],
    }
}

/// The events that a run hands to the session.
pub open spec fn emitted_over(head: HeadModel, ops: Seq<HeadOp>) -> Seq<StreamEventModel>
    decreases ops.len(),
{
    if ops.len() == 0 {
        seq![]
    } else {
        emitted_by(head, ops[0]) + emitted_over(head_after(head, ops[0]), ops.drop_first())
    }
}

/// The event tells the peer that the local half is closed.
pub open spec fn is_fin(event: StreamEventModel) -> bool {
    frame::event_flags(event) matches Some(flags) && flags.fin
}

/// The event announces or carries bytes of the user.
pub open spec fn is_data(event: StreamEventModel) -> bool {
    event is Data || event is DataChunk
}

/// The event resets the stream.
pub open spec fn is_rst(event: StreamEventModel) -> bool {
    frame::event_flags(event) matches Some(flags) && flags.rst
}

/// A run in which the peer reset the stream.
pub open spec fn reset_over(head: HeadModel, ops: Seq<HeadOp>) -> bool
    decreases ops.len(),
{
    if ops.len() == 0 {
        false
    } else {
        let reset = match ops[0] {
            HeadOp::Input(event) => is_rst(event) && input_step(head, event).result is Ok,
            _ => false,
        };
        reset || reset_over(head_after(head, ops[0]), ops.drop_first())
    }
}

/// No event is a FIN.
pub open spec fn no_fin(events: Seq<StreamEventModel>) -> bool {
    forall|i: int| 0 <= i < events.len() ==> !is_fin(#[trigger] events[i])
}

/// No event carries bytes of the user.
pub open spec fn no_data(events: Seq<StreamEventModel>) -> bool {
    forall|i: int| 0 <= i < events.len() ==> !is_data(#[trigger] events[i])
}

/// Once a stream is over, nothing is sent on it.
proof fn lemma_closed_emits_nothing(head: HeadModel, ops: Seq<HeadOp>)
    requires
        run_allowed(head, ops),
        is_closed(head),
        head.opened,
    ensures
        emitted_over(head, ops) == Seq::<StreamEventModel>::empty(),
        is_closed(head_after_all(head, ops)),
    decreases ops.len(),
{
    if ops.len() > 0 {
        lemma_closed_emits_nothing(head_after(head, ops[0]), ops.drop_first());
        assert(emitted_over(head, ops) =~= Seq::<StreamEventModel>::empty());
    }
}

/// Once the local half is closed, no data of the user is sent.
proof fn lemma_no_data_after_close(head: HeadModel, ops: Seq<HeadOp>)
    requires
        run_allowed(head, ops),
        !head.local,
        no_data(head.outs),
    ensures
        no_data(emitted_over(head, ops)),
        !head_after_all(head, ops).local,
    decreases ops.len(),
{
    if ops.len() > 0 {
        let next = head_after(head, ops[0]);
        assert forall|i: int| 0 <= i < next.outs.len() implies !is_data(#[trigger] next.outs[i]) by {
            if ops[0] is Poll && !is_closed(head) && head.outs.len() > 0 {
                assert(next.outs[i] == head.outs[i + 1]);
            } else if i < head.outs.len() {
                assert(next.outs[i] == head.outs[i]);
            }
        }
        lemma_no_data_after_close(next, ops.drop_first());
        let first = emitted_by(head, ops[0]);
        let later = emitted_over(next, ops.drop_first());
        assert forall|i: int| 0 <= i < (first + later).len() implies !is_data(
            #[trigger] (first + later)[i],
        ) by {
            if i >= first.len() {
                assert((first + later)[i] == later[i - first.len()]);
            }
        }
    }
}

/// Half-close: a stream is over only once the peer reset it, or the peer was told with FIN that
/// the local half is closed; and FIN comes after all data of the user. This holds of every stream
/// whose local half is open and whose FIN is yet to come.
pub proof fn law_fin_ends_the_data(head: HeadModel, ops: Seq<HeadOp>)
    requires
        head.local,
        no_fin(head.outs),
        run_allowed(head, ops),
    ensures
        ({
            let events = emitted_over(head, ops);
            &&& forall|i: int, j: int|
                0 <= i < j < events.len() && is_fin(#[trigger] events[i]) ==> !is_data(
                    #[trigger] events[j],
                )
            &&& !head_after_all(head, ops).local ==> reset_over(head, ops) || exists|i: int|
                0 <= i < events.len() && is_fin(#[trigger] events[i])
            &&& poll_step(head_after_all(head, ops)).0 is Closed ==> reset_over(head, ops)
                || exists|i: int| 0 <= i < events.len() && is_fin(#[trigger] events[i])
        }),
    decreases ops.len(),
{
    if ops.len() > 0 {
        let next = head_after(head, ops[0]);
        let rest = ops.drop_first();
        let first = emitted_by(head, ops[0]);
        let later = emitted_over(next, rest);
        let events = emitted_over(head, ops);
        assert(events == first + later);
        assert(forall|j: int|
            first.len() <= j < events.len() ==> #[trigger] events[j] == later[j - first.len()]);
        assert(forall|j: int| 0 <= j < later.len() ==> #[trigger] later[j] == events[j + first.len()]);
        if next.local {
            assert forall|i: int| 0 <= i < next.outs.len() implies !is_fin(
                #[trigger] next.outs[i],
            ) by {
                if ops[0] is Poll && !is_closed(head) && head.outs.len() > 0 {
                    assert(next.outs[i] == head.outs[i + 1]);
                } else if i < head.outs.len() {
                    assert(next.outs[i] == head.outs[i]);
                }
            }
            law_fin_ends_the_data(next, rest);
            assert(no_fin(first));
            if !reset_over(next, rest) && !head_after_all(next, rest).local {
                let i = choose|i: int| 0 <= i < later.len() && is_fin(#[trigger] later[i]);
                assert(is_fin(events[i + first.len()]));
            }
        } else if ops[0] is Pulled {
            lemma_no_data_after_close(next, rest);
            assert(is_fin(events[0]));
        } else {
            lemma_closed_emits_nothing(next, rest);
        }
    }
}

/// Half-close goes one way: after the peer's FIN the local half still sends, and after the local
/// half is closed the remote half stays as it is. The stream is over when both are closed.
pub proof fn law_halves_close_one_by_one(head: HeadModel, delta: u32)
    requires
        can_pull(head),
    ensures
        ({
            let finished = input_step(head, StreamEventModel::WindowUpdate(fin_flags(), delta)).head;
            let closed = pulled_step(head, PulledModel::Ended).1;
            let both = pulled_step(finished, PulledModel::Ended).1;
            &&& !finished.remote
            &&& can_pull(finished)
            &&& closed.remote == head.remote
            &&& poll_step(closed).0 is Closed <==> !head.remote
            &&& poll_step(both).0 is Closed
        }),
{
}

/// The bytes of the user that an event carries.
pub open spec fn carried(event: StreamEventModel) -> Seq<u8> {
    match event {
        StreamEventModel::DataChunk(bytes) => bytes,
        _ => seq![],
    }
}

/// The bytes of the user that events carry.
pub open spec fn carried_by(events: Seq<StreamEventModel>) -> Seq<u8>
    decreases events.len(),
{
    if events.len() == 0 {
        seq![]
    } else {
        carried(events[0]) + carried_by(events.drop_first())
    }
}

/// The bytes that the user wrote over a run.
pub open spec fn pulled_over(ops: Seq<HeadOp>) -> Seq<u8>
    decreases ops.len(),
{
    if ops.len() == 0 {
        seq![]
    } else {
        (match ops[0] {
            HeadOp::Pulled(PulledModel::Chunk(bytes)) => bytes,
            _ => seq![],
        }) + pulled_over(ops.drop_first())
    }
}

/// Events carry their bytes one after the other.
pub proof fn lemma_carried_append(events: Seq<StreamEventModel>, more: Seq<StreamEventModel>)
    ensures
        carried_by(events + more) == carried_by(events) + carried_by(more),
    decreases events.len(),
{
    if events.len() == 0 {
        assert(events + more =~= more);
        assert(carried_by(events) + carried_by(more) =~= carried_by(more));
    } else {
        lemma_carried_append(events.drop_first(), more);
        assert((events + more).drop_first() =~= events.drop_first() + more);
        assert(carried_by(events + more) =~= carried_by(events) + carried_by(more));
    }
}

/// A single event carries its own bytes.
pub proof fn lemma_carried_one(event: StreamEventModel)
    ensures
        carried_by(seq![event]) == carried(event),
{
    reveal_with_fuel(carried_by, 2);
    assert(seq![event].drop_first() =~= seq![]);
    assert(carried_by(seq![event]) =~= carried(event));
}

/// What the user writes is sent whole and in order: over any run, the bytes that went out and
/// those that wait are those that waited at the start and what the user wrote since.
pub proof fn law_user_bytes_go_out_in_order(head: HeadModel, ops: Seq<HeadOp>)
    requires
        run_allowed(head, ops),
    ensures
        carried_by(emitted_over(head, ops)) + carried_by(head_after_all(head, ops).outs)
            == carried_by(head.outs) + pulled_over(ops),
    decreases ops.len(),
{
    let end = carried_by(head_after_all(head, ops).outs);
    if ops.len() == 0 {
        assert(carried_by(emitted_over(head, ops)) + end =~= carried_by(head.outs) + pulled_over(
            ops,
        ));
    } else {
        let next = head_after(head, ops[0]);
        let rest = ops.drop_first();
        let first = emitted_by(head, ops[0]);
        let later = emitted_over(next, rest);
        law_user_bytes_go_out_in_order(next, rest);
        lemma_carried_append(first, later);
        match ops[0] {
            HeadOp::Input(event) => {
                if next.outs != head.outs {
                    assert(next.outs =~= head.outs + seq![next.outs.last()]);
                    lemma_carried_append(head.outs, seq![next.outs.last()]);
                    lemma_carried_one(next.outs.last());
                }
                assert(carried_by(next.outs) =~= carried_by(head.outs));
            },
            HeadOp::Poll => {
                if !is_closed(head) && head.outs.len() > 0 {
                    lemma_carried_one(head.outs[0]);
                }
                assert(carried_by(first) + carried_by(next.outs) =~= carried_by(head.outs));
            },
            HeadOp::Pulled(pulled) => {
                if first.len() > 0 {
                    lemma_carried_one(first[0]);
                }
                if let PulledModel::Chunk(bytes) = pulled {
                    lemma_carried_one(next.outs[0]);
                    assert(next.outs =~= seq![next.outs[0]]);
                }
                assert(carried_by(head.outs) =~= seq![]);
            },
        }
        assert(carried_by(emitted_over(head, ops)) + end =~= carried_by(first) + (carried_by(later)
            + end));
        assert(carried_by(head.outs) + pulled_over(ops) =~= carried_by(first) + (carried_by(
            next.outs,
        ) + pulled_over(rest)));
    }
}

/// An event that is out of order is refused, and changes nothing.
pub proof fn law_refused_input_changes_nothing(head: HeadModel, event: StreamEventModel)
    requires
        input_step(head, event).result is Err,
    ensures
        input_step(head, event).head == head,
{
}

/// A chunk of the user goes out as its header and, at once after it, the whole chunk.
pub proof fn law_chunk_follows_its_header(head: HeadModel, bytes: Seq<u8>)
    requires
        can_pull(head),
        bytes.len() <= DEFAULT_CHUNK_CAPACITY,
    ensures
        ({
            let (header, between) = pulled_step(head, PulledModel::Chunk(bytes));
            let (chunk, after) = poll_step(between);
            &&& header == HeadPollModel::Emit(data_events(bytes)[0])
            &&& chunk == HeadPollModel::Emit(data_events(bytes)[1])
            &&& after == sent_chunk(head, bytes)
        }),
{
    let after = poll_step(pulled_step(head, PulledModel::Chunk(bytes)).1).1;
    assert(after.outs =~= head.outs);
}

/// A head after the chunks of a payload.
pub open spec fn head_after_chunks(head: HeadModel, chunks: Seq<Seq<u8>>) -> HeadModel
    decreases chunks.len(),
{
    if chunks.len() == 0 {
        head
    } else {
        head_after_chunks(
            input_step(head, StreamEventModel::DataChunk(chunks[0])).head,
            chunks.drop_first(),
        )
    }
}

/// What the user gets of the chunks of a payload, one chunk after the other; a refused chunk
/// yields nothing.
pub open spec fn delivered_of_chunks(head: HeadModel, chunks: Seq<Seq<u8>>) -> Seq<u8>
    decreases chunks.len(),
{
    if chunks.len() == 0 {
        seq![]
    } else {
        let step = input_step(head, StreamEventModel::DataChunk(chunks[0]));
        (match step.result {
            Ok(Some(bytes)) => bytes,
            _ => seq![],
        }) + delivered_of_chunks(step.head, chunks.drop_first())
    }
}

/// A payload reaches the user whole and in order, however it was cut into chunks, and the head
/// is then ready for the next one.
pub proof fn law_payload_reaches_user(head: HeadModel, chunks: Seq<Seq<u8>>)
    requires
        chunks.len() > 0,
        head.receiving == Some(chunks.flatten().len()),
        forall|i: int| 0 <= i < chunks.len() ==> (#[trigger] chunks[i]).len() > 0,
    ensures
        head_after_chunks(head, chunks).receiving is None,
        delivered_of_chunks(head, chunks) == chunks.flatten(),
    decreases chunks.len(),
{
    let next = input_step(head, StreamEventModel::DataChunk(chunks[0])).head;
    let rest = chunks.drop_first();
    assert(chunks.flatten() == chunks[0] + rest.flatten());
    if rest.len() == 0 {
        assert(rest.flatten() =~= seq![]);
        assert(delivered_of_chunks(next, rest) =~= seq![]);
        assert(head_after_chunks(next, rest) == next);
    } else {
        assert(rest.flatten() == rest[0] + rest.drop_first().flatten());
        assert(rest[0] == chunks[1]);
        assert(next.receiving == Some(rest.flatten().len()));
        assert forall|i: int| 0 <= i < rest.len() implies (#[trigger] rest[i]).len() > 0 by {
            assert(rest[i] == chunks[i + 1]);
        }
        law_payload_reaches_user(next, rest);
    }
}

// === What each use of a head does ===

/// A new stream starts with a full window in both directions and nothing received. Its first event
/// tells the peer so: with SYN where it was opened here, with ACK where the peer opened it. Only
/// the latter is open to the peer's bytes, and to ours, from the start.
pub proof fn law_new_stream_announces_its_window()
    ensures
        ({
            let near = opened_head();
            let far = accepted_head();
            &&& near.send == 256 * 1024 && far.send == 256 * 1024
            &&& near.recv == 0 && far.recv == 0
            &&& near.receiving is None && far.receiving is None
            &&& near.local && far.local
            &&& !near.remote && far.remote
            &&& !near.opened && far.opened
            &&& near.outs.len() == 1 && far.outs.len() == 1
            &&& near.outs[0] == StreamEventModel::WindowUpdate(
                Flags { syn: true, ack: false, fin: false, rst: false },
                0x4_0000,
            )
            &&& far.outs[0] == StreamEventModel::WindowUpdate(
                Flags { syn: false, ack: true, fin: false, rst: false },
                0x4_0000,
            )
        }),
{
}

/// A window update is always taken, whatever its flags: its delta is added to the send window, and
/// what is received, granted or waits to be sent stays as it is.
pub proof fn law_window_update_is_added(head: HeadModel, flags: Flags, delta: u32)
    ensures
        ({
            let step = input_step(head, StreamEventModel::WindowUpdate(flags, delta));
            &&& step.result is Ok
            &&& step.head.send == head.send + delta
            &&& step.head.recv == head.recv
            &&& step.head.receiving == head.receiving
            &&& step.head.outs == head.outs
        }),
{
}

/// A window update fits unless the sum of the window and its delta exceeds 64 bits; any other
/// event always fits.
pub proof fn law_only_a_full_counter_refuses(head: HeadModel, event: StreamEventModel)
    ensures
        !window_fits(head, event) ==> event is WindowUpdate && head.send + event->WindowUpdate_1
            > u64::MAX,
        event is WindowUpdate && head.send + event->WindowUpdate_1 > u64::MAX ==> !window_fits(
            head,
            event,
        ),
{
}

/// Headers and payloads alternate. A data header is taken exactly when no payload is missing, and
/// announces its size; a chunk is taken exactly when it is no larger than what is missing, and
/// makes up for its length. Only a complete payload makes room for the next header.
pub proof fn law_payload_is_counted(head: HeadModel, flags: Flags, size: u32, bytes: Seq<u8>)
    ensures
        ({
            let header = input_step(head, StreamEventModel::Data(flags, size));
            let chunk = input_step(head, StreamEventModel::DataChunk(bytes));
            let missing = head.receiving;
            &&& header.result is Ok <==> missing is None
            &&& header.result is Err ==> header.result == Err::<Option<Seq<u8>>, StreamInputError>(
                StreamInputError::DataWhileReceiving,
            )
            &&& header.result is Ok ==> header.head.receiving == Some(size as nat)
            &&& header.head.send == head.send
            &&& header.head.recv == head.recv
            &&& header.head.outs == head.outs
            &&& chunk.result is Ok <==> missing is Some && bytes.len() <= missing->0
            &&& missing is None ==> chunk.result == Err::<Option<Seq<u8>>, StreamInputError>(
                StreamInputError::ChunkWithoutData,
            )
            &&& missing is Some && bytes.len() > missing->0 ==> chunk.result == Err::<
                Option<Seq<u8>>,
                StreamInputError,
            >(StreamInputError::ChunkTooLarge)
            &&& chunk.result is Ok && bytes.len() < missing->0 ==> chunk.head.receiving is Some
                && chunk.head.receiving->0 + bytes.len() == missing->0
            &&& chunk.result is Ok && bytes.len() == missing->0 ==> chunk.head.receiving is None
            &&& chunk.head.send == head.send
            &&& chunk.head.opened == head.opened
            &&& chunk.head.local == head.local
            &&& chunk.head.remote == head.remote
        }),
{
}

/// The user gets each chunk that is taken, byte for byte, and is told of the end with an empty
/// chunk exactly when a header with FIN is taken; other headers reach the user with nothing.
pub proof fn law_user_gets_chunks_and_the_end(head: HeadModel, event: StreamEventModel)
    requires
        input_step(head, event).result is Ok,
    ensures
        match event {
            StreamEventModel::DataChunk(bytes) => input_step(head, event).result->Ok_0 == Some(
                bytes,
            ),
            StreamEventModel::Data(flags, _) => input_step(head, event).result->Ok_0 == (
            if flags.fin {
                Some(Seq::<u8>::empty())
            } else {
                None
            }),
            StreamEventModel::WindowUpdate(flags, _) => input_step(head, event).result->Ok_0 == (
            if flags.fin {
                Some(Seq::<u8>::empty())
            } else {
                None
            }),
        },
{
}

/// Flags move the halves of a stream. RST closes both; FIN closes the remote half; the first
/// answer of the peer, and only the first, opens it, unless it closes it at once. The local half
/// is closed by nothing else, and what is closed is not opened again.
pub proof fn law_flags_move_the_halves(head: HeadModel, event: StreamEventModel, flags: Flags)
    requires
        input_step(head, event).result is Ok,
        event is Data || event is WindowUpdate,
        event is Data ==> flags == event->Data_0,
        event is WindowUpdate ==> flags == event->WindowUpdate_0,
    ensures
        ({
            let next = input_step(head, event).head;
            &&& flags.rst ==> !next.local && !next.remote
            &&& flags.fin ==> !next.remote
            &&& !flags.rst ==> next.local == head.local
            &&& !flags.rst && !flags.fin && head.opened ==> next.remote == head.remote
            &&& !flags.rst && !flags.fin && !head.opened ==> next.remote == (head.remote
                || flags.ack)
            &&& next.opened <==> head.opened || flags.ack || flags.fin || flags.rst
        }),
{
}

/// What the peer closed stays closed: once a stream that the peer has opened has lost a half, no
/// use brings it back.
pub proof fn law_closed_halves_stay_closed(head: HeadModel, ops: Seq<HeadOp>)
    requires
        run_allowed(head, ops),
        head.opened,
    ensures
        head_after_all(head, ops).opened,
        !head.remote ==> !head_after_all(head, ops).remote,
        !head.local ==> !head_after_all(head, ops).local,
    decreases ops.len(),
{
    if ops.len() > 0 {
        law_closed_halves_stay_closed(head_after(head, ops[0]), ops.drop_first());
    }
}

/// A reset ends a stream at once and for good: the user's bytes and all that waits are not sent
/// any more, whatever comes after it.
pub proof fn law_reset_ends_the_stream(head: HeadModel, event: StreamEventModel, ops: Seq<HeadOp>)
    requires
        is_rst(event),
        input_step(head, event).result is Ok,
        run_allowed(input_step(head, event).head, ops),
    ensures
        ({
            let reset = input_step(head, event).head;
            let later = head_after_all(reset, ops);
            &&& emitted_over(reset, ops).len() == 0
            &&& poll_step(later).0 is Closed
            &&& !can_pull(later)
        }),
{
    lemma_closed_emits_nothing(input_step(head, event).head, ops);
}

/// Received bytes are granted back in one go, once fewer than a chunk is missing to half a window:
/// before that nothing is sent for them, then a single window update with ACK grants all that
/// came since the last one. So never half a window is held back.
pub proof fn law_grants_come_at_half_a_window(head: HeadModel, bytes: Seq<u8>)
    requires
        input_step(head, StreamEventModel::DataChunk(bytes)).result is Ok,
        head.recv + bytes.len() <= u32::MAX,
    ensures
        ({
            let next = input_step(head, StreamEventModel::DataChunk(bytes)).head;
            let came = head.recv + bytes.len();
            &&& next.recv + 4090 < 128 * 1024
            &&& came + 4090 < 128 * 1024 ==> next.recv == came && next.outs == head.outs
            &&& came + 4090 >= 128 * 1024 ==> {
                &&& next.recv == 0
                &&& next.outs.len() == head.outs.len() + 1
                &&& next.outs.drop_last() == head.outs
                &&& next.outs.last() == StreamEventModel::WindowUpdate(
                    Flags { syn: false, ack: true, fin: false, rst: false },
                    came as u32,
                )
            }
        }),
{
    let next = input_step(head, StreamEventModel::DataChunk(bytes)).head;
    let came = head.recv + bytes.len();
    assert(came % 0x1_0000_0000 == came);
    if next.outs != head.outs {
        assert(next.outs.drop_last() =~= head.outs);
    }
}

/// What waits goes out first, oldest first, also while the peer has not answered yet; the user is
/// asked exactly when nothing waits, the peer has answered, the local half is open, and a whole
/// chunk fits the window. A stream is over exactly when both halves are closed.
pub proof fn law_head_sends_before_it_asks(head: HeadModel)
    ensures
        ({
            let (poll, next) = poll_step(head);
            let over = !head.local && !head.remote;
            &&& poll is Closed <==> over
            &&& poll is Emit <==> !over && head.outs.len() > 0
            &&& poll matches HeadPollModel::Emit(event) ==> seq![event] + next.outs == head.outs
            &&& poll is Pull <==> head.local && head.outs.len() == 0 && head.opened && head.send
                >= 4090
            &&& poll !is Emit ==> next == head
            &&& next.send == head.send && next.recv == head.recv
            &&& next.local == head.local && next.remote == head.remote
            &&& next.opened == head.opened && next.receiving == head.receiving
        }),
{
    let (poll, next) = poll_step(head);
    if let HeadPollModel::Emit(event) = poll {
        assert(seq![event] + next.outs =~= head.outs);
    }
}

/// A chunk of the user costs its length: it goes out as a header without flags that announces its
/// length, then as the chunk itself, and the window is smaller by its length.
pub proof fn law_chunk_is_paid_for(head: HeadModel, bytes: Seq<u8>)
    requires
        can_pull(head),
        bytes.len() <= 4090,
    ensures
        ({
            let (first, between) = pulled_step(head, PulledModel::Chunk(bytes));
            let (second, next) = poll_step(between);
            &&& first == HeadPollModel::Emit(
                StreamEventModel::Data(
                    Flags { syn: false, ack: false, fin: false, rst: false },
                    bytes.len() as u32,
                ),
            )
            &&& second == HeadPollModel::Emit(StreamEventModel::DataChunk(bytes))
            &&& next.send + bytes.len() == head.send
            &&& next == (HeadModel { send: next.send, ..head })
        }),
{
    let next = poll_step(pulled_step(head, PulledModel::Chunk(bytes)).1).1;
    assert(next.outs =~= head.outs);
}

/// A user that writes no more has FIN sent and its half closed; a user that has nothing yet
/// changes nothing.
pub proof fn law_user_that_ends_has_fin_sent(head: HeadModel)
    ensures
        ({
            let (poll, next) = pulled_step(head, PulledModel::Ended);
            &&& poll == HeadPollModel::Emit(
                StreamEventModel::WindowUpdate(
                    Flags { syn: false, ack: false, fin: true, rst: false },
                    0,
                ),
            )
            &&& !next.local
            &&& next == (HeadModel { local: false, ..head })
        }),
        pulled_step(head, PulledModel::Pending).0 is Pending,
        pulled_step(head, PulledModel::Pending).1 == head,
{
}

// === Internal state ===

/// Tracks whether the peer has opened a stream and whether each half of it is still open.
#[derive(Debug, Clone, Copy)]
pub struct State {
    pub opened: bool,
    pub local: bool,
    pub remote: bool,
}

/// Tracks per-stream send/receive flow-control windows.
#[derive(Debug, Clone, Copy)]
struct Window {
    // how many bytes may be sent
    send: u64,
    // how many bytes were received and not granted back yet
    recv: u32,
}

impl State {
    /// True when both the local and remote halves are closed.
    pub fn is_closed(&self) -> (r: bool)
        ensures
            r == (!self.local && !self.remote),
    {
        !self.local && !self.remote
    }
}

// === Stream head (session-driven) ===

/// State machine that turns stream I/O into [`FrameStreamEvent`] values.
///
/// The session drives this type by:
/// - Feeding inbound events via [`YamuxStreamHead::on_input`].
/// - Polling it with [`YamuxStreamHead::poll_next`] to obtain outbound events.
#[derive(Debug)]
pub struct YamuxStreamHead {
    state: State,
    window: Window,
    outs: VecDeque<FrameStreamEvent>,
    recv_state: Option<u32>,
}

/// The events of a queue by what they say.
pub open spec fn event_models(events: Seq<FrameStreamEvent>) -> Seq<StreamEventModel> {
    Seq::new(events.len(), |i: int| events[i]@)
}

impl View for YamuxStreamHead {
    type V = HeadModel;

    closed spec fn view(&self) -> HeadModel {
        HeadModel {
            opened: self.state.opened,
            local: self.state.local,
            remote: self.state.remote,
            send: self.window.send as nat,
            recv: self.window.recv as nat,
            outs: event_models(self.outs@),
            receiving: match self.recv_state {
                Some(missing) => Some(missing as nat),
                None => None,
            },
        }
    }
}

impl YamuxStreamHead {
    /// Creates a head whose first event is `first`.
    fn with_first(state: State, first: FrameStreamEvent) -> (r: Self)
        ensures
            r@ == (HeadModel {
                opened: state.opened,
                local: state.local,
                remote: state.remote,
                send: INITIAL_WINDOW as nat,
                recv: 0,
                outs: seq![first@],
                receiving: None,
            }),
    {
        let mut outs: VecDeque<FrameStreamEvent> = VecDeque::new();
        outs.push_back(first);
        let head = YamuxStreamHead {
            state,
            window: Window { send: INITIAL_WINDOW as u64, recv: 0 },
            outs,
            recv_state: None,
        };
        assert(head@.outs =~= seq![first@]);
        head
    }

    /// Creates a new outbound stream head (initiates with `SYN`).
    pub fn open() -> (r: Self)
        ensures
            r@ == opened_head(),
    {
        Self::with_first(
            State { opened: false, local: true, remote: false },
            FrameStreamEvent::WindowUpdate(
                FlagsBuilder::new().with_syn(true).build(),
                INITIAL_WINDOW,
            ),
        )
    }

    /// Creates a new inbound stream head (acknowledges with `ACK`).
    pub fn accept() -> (r: Self)
        ensures
            r@ == accepted_head(),
    {
        Self::with_first(
            State { opened: true, local: true, remote: true },
            FrameStreamEvent::WindowUpdate(
                FlagsBuilder::new().with_ack(true).build(),
                INITIAL_WINDOW,
            ),
        )
    }

    /// False when the send window would outgrow the machine.
    pub fn accepts(&self, event: &FrameStreamEvent) -> (r: bool)
        ensures
            r == window_fits(self@, event@),
    {
        match event {
            FrameStreamEvent::WindowUpdate(_, delta) => self.window.send <= u64::MAX
                - *delta as u64,
            _ => true,
        }
    }

    /// Handles an incoming frame for this stream. Returns the chunk to deliver to the user, if
    /// there is one; an empty chunk ends the byte stream.
    ///
    /// # Errors
    ///
    /// Returns an error when the inbound sequence violates the expected Yamux data header/chunk
    /// ordering; the head is then as it was.
    pub fn on_input(&mut self, event: FrameStreamEvent) -> (r: Result<
        Option<ChunkView>,
        StreamInputError,
    >)
        requires
            window_fits(old(self)@, event@),
        ensures
            ({
                let step = input_step(old(self)@, event@);
                &&& final(self)@ == step.head
                &&& match step.result {
                    Ok(Some(bytes)) => r matches Ok(Some(chunk)) && chunk.bytes() == bytes,
                    Ok(None) => r == Ok::<Option<ChunkView>, StreamInputError>(None),
                    Err(error) => r == Err::<Option<ChunkView>, StreamInputError>(error),
                }
            }),
    {
        match event {
            FrameStreamEvent::Data(flags, size) => {
                if self.recv_state.is_some() {
                    return Err(StreamInputError::DataWhileReceiving);
                }
                let delivered = self.handle_flag(flags);
                self.recv_state = Some(size);
                Ok(delivered)
            },
            FrameStreamEvent::DataChunk(chunk) => {
                if let Some(missing) = self.recv_state {
                    if (missing as usize) < chunk.len() {
                        return Err(StreamInputError::ChunkTooLarge);
                    }
                    let received: u32 = chunk.len() as u32;
                    if missing == received {
                        self.recv_state = None;
                    } else {
                        self.recv_state = Some(missing - received);
                    }
                    self.mark_received_bytes(received);
                    Ok(Some(chunk))
                } else {
                    Err(StreamInputError::ChunkWithoutData)
                }
            },
            FrameStreamEvent::WindowUpdate(flags, delta) => {
                let delivered = self.handle_flag(flags);
                self.window.send = self.window.send + delta as u64;
                Ok(delivered)
            },
        }
    }

    /// Applies stream state transitions implied by control flags.
    fn handle_flag(&mut self, flag: Flags) -> (r: Option<ChunkView>)
        ensures
            final(self)@ == flagged(old(self)@, flag),
            match end_of_stream(flag) {
                Some(bytes) => r matches Some(chunk) && chunk.bytes() == bytes,
                None => r is None,
            },
    {
        if flag.ack && !self.state.opened {
            self.state.opened = true;
            self.state.remote = true;
        }
        if flag.rst {
            self.state.opened = true;
            self.state.local = false;
            self.state.remote = false;
        }
        if flag.fin {
            self.state.opened = true;
            self.state.remote = false;
            let nothing: Vec<u8> = Vec::new();
            return Some(ChunkView::from(nothing));
        }
        None
    }

    /// Records received bytes and schedules window update frames when needed.
    fn mark_received_bytes(&mut self, received: u32)
        ensures
            final(self)@ == credited(old(self)@, received as nat),
    {
        let recv: u64 = self.window.recv as u64 + received as u64;
        if recv + DEFAULT_CHUNK_CAPACITY as u64 >= INITIAL_WINDOW as u64 / 2 {
            self.outs.push_back(
                FrameStreamEvent::WindowUpdate(
                    FlagsBuilder::new().with_ack(true).build(),
                    (recv % 0x1_0000_0000) as u32,
                ),
            );
            self.window.recv = 0;
            assert(self@.outs =~= credited(old(self)@, received as nat).outs);
        } else {
            self.window.recv = recv as u32;
        }
    }

    /// Asks for the next event to send.
    pub fn poll_next(&mut self) -> (r: HeadPoll)
        ensures
            (r@, final(self)@) == poll_step(old(self)@),
    {
        if self.state.is_closed() {
            // Both halves are closed, so the stream is over.
            return HeadPoll::Closed;
        }
        if let Some(out) = self.outs.pop_front() {
            assert(self@.outs =~= old(self)@.outs.drop_first());
            return HeadPoll::Emit(out);
        }
        // Data waits until the peer has opened the stream, and ends with the local half.

        if !self.state.opened || !self.state.local {
            return HeadPoll::Pending;
        }
        // A chunk is sent whole, so it waits until the window has room for the largest one.

        if self.window.send < DEFAULT_CHUNK_CAPACITY as u64 {
            return HeadPoll::Pending;
        }
        HeadPoll::Pull
    }

    /// Takes what the user's channel answered after [`HeadPoll::Pull`].
    pub fn on_pulled(&mut self, pulled: Pulled) -> (r: HeadPoll)
        requires
            can_pull(old(self)@),
            pulled@ matches PulledModel::Chunk(bytes) ==> bytes.len() <= DEFAULT_CHUNK_CAPACITY,
        ensures
            (r@, final(self)@) == pulled_step(old(self)@, pulled@),
    {
        match pulled {
            Pulled::Chunk(chunk) => {
                let len: usize = chunk.len();
                self.window.send = self.window.send - len as u64;
                self.outs.push_back(FrameStreamEvent::DataChunk(chunk));
                assert(self@.outs =~= seq![StreamEventModel::DataChunk(chunk.bytes())]);
                HeadPoll::Emit(FrameStreamEvent::Data(Flags::empty(), len as u32))
            },
            Pulled::Ended => {
                self.state.local = false;
                HeadPoll::Emit(
                    FrameStreamEvent::WindowUpdate(FlagsBuilder::new().with_fin(true).build(), 0),
                )
            },
            Pulled::Pending => HeadPoll::Pending,
        }
    }
}

// === User-facing stream handle ===

/// What a read yields.
#[derive(Debug, Clone, Copy, PartialEq, Eq, Structural)]
pub enum ReadPoll {
    /// No byte yet.
    Pending,
    /// The session is gone.
    Broken,
    /// So many bytes were read; none at the end of the byte stream.
    Read(usize),
}

/// Whether the channel to the session takes a chunk.
#[derive(Debug, Clone, Copy, PartialEq, Eq, Structural)]
pub enum SendReady {
    /// It does.
    Ready,
    /// Not yet.
    Pending,
    /// The session is gone.
    Closed,
}

/// What a write yields.
#[derive(Debug)]
pub enum WritePoll {
    /// The channel is full.
    Pending,
    /// The session is gone.
    Broken,
    /// Send this chunk; its bytes count as written.
    Send(ChunkView),
}

/// What a read does: its answer, the bytes that it puts into the buffer, and what is then left of
/// the chunk that is being read.
pub struct UserRead {
    pub poll: ReadPoll,
    pub bytes: Seq<u8>,
    pub unread: Option<Seq<u8>>,
}

/// Reading into a buffer with room for `room` bytes.
pub open spec fn user_read(unread: Option<Seq<u8>>, pulled: PulledModel, room: nat) -> UserRead {
    let current = match unread {
        Some(bytes) => PulledModel::Chunk(bytes),
        None => pulled,
    };
    match current {
        PulledModel::Chunk(bytes) => if bytes.len() <= room {
            UserRead { poll: ReadPoll::Read(bytes.len() as usize), bytes, unread: None }
        } else {
            UserRead {
                poll: ReadPoll::Read(room as usize),
                bytes: bytes.take(room as int),
                unread: Some(bytes.skip(room as int)),
            }
        },
        PulledModel::Ended => UserRead { poll: ReadPoll::Broken, bytes: seq![], unread: None },
        PulledModel::Pending => UserRead { poll: ReadPoll::Pending, bytes: seq![], unread: None },
    }
}

/// The bytes that are left of a chunk.
pub open spec fn left_of(unread: Option<Seq<u8>>) -> Seq<u8> {
    match unread {
        Some(bytes) => bytes,
        None => seq![],
    }
}

/// The bytes of an answer of a channel.
pub open spec fn pulled_bytes(pulled: PulledModel) -> Seq<u8> {
    match pulled {
        PulledModel::Chunk(bytes) => bytes,
        _ => seq![],
    }
}

/// What is left of the chunk that is being read, after a run of reads: each is given what the
/// channel answers and the room of its buffer.
pub open spec fn unread_after(unread: Option<Seq<u8>>, reads: Seq<(PulledModel, nat)>) -> Option<
    Seq<u8>,
>
    decreases reads.len(),
{
    if reads.len() == 0 {
        unread
    } else {
        user_read(
            unread_after(unread, reads.drop_last()),
            reads.last().0,
            reads.last().1,
        ).unread
    }
}

/// The bytes that a run of reads yields.
pub open spec fn bytes_read(unread: Option<Seq<u8>>, reads: Seq<(PulledModel, nat)>) -> Seq<u8>
    decreases reads.len(),
{
    if reads.len() == 0 {
        seq![]
    } else {
        bytes_read(unread, reads.drop_last()) + user_read(
            unread_after(unread, reads.drop_last()),
            reads.last().0,
            reads.last().1,
        ).bytes
    }
}

/// The bytes that came through the channel over a run of reads.
pub open spec fn bytes_pulled(reads: Seq<(PulledModel, nat)>) -> Seq<u8>
    decreases reads.len(),
{
    if reads.len() == 0 {
        seq![]
    } else {
        bytes_pulled(reads.drop_last()) + pulled_bytes(reads.last().0)
    }
}

/// The channel is asked only when nothing is left of a chunk.
pub open spec fn asks_when_needed(unread: Option<Seq<u8>>, reads: Seq<(PulledModel, nat)>) -> bool {
    forall|i: int|
        0 <= i < reads.len() && unread_after(unread, #[trigger] reads.take(i)) is Some
            ==> reads[i].0 is Pending
}

/// A user reads what came through the channel, byte for byte, however large the buffers are: over
/// any run of reads, what was read and what is left of a chunk is what was left at the start and
/// what came since.
pub proof fn law_user_reads_what_came(unread: Option<Seq<u8>>, reads: Seq<(PulledModel, nat)>)
    requires
        asks_when_needed(unread, reads),
    ensures
        bytes_read(unread, reads) + left_of(unread_after(unread, reads)) == left_of(unread)
            + bytes_pulled(reads),
    decreases reads.len(),
{
    if reads.len() == 0 {
        assert(bytes_read(unread, reads) + left_of(unread_after(unread, reads)) =~= left_of(unread)
            + bytes_pulled(reads));
    } else {
        let before = reads.drop_last();
        assert forall|i: int|
            0 <= i < before.len() && unread_after(unread, #[trigger] before.take(i))
                is Some implies before[i].0 is Pending by {
            assert(reads.take(i) =~= before.take(i));
        }
        law_user_reads_what_came(unread, before);
        assert(reads.take(reads.len() - 1) =~= before);
        assert(reads[reads.len() - 1] == reads.last());
        let current = unread_after(unread, before);
        let read = user_read(current, reads.last().0, reads.last().1);
        assert(read.bytes + left_of(read.unread) =~= left_of(current) + pulled_bytes(
            reads.last().0,
        ));
        let early = bytes_read(unread, before);
        assert(bytes_read(unread, reads) + left_of(read.unread) =~= early + (read.bytes + left_of(
            read.unread,
        )));
        assert(early + (left_of(current) + pulled_bytes(reads.last().0)) =~= (early + left_of(
            current,
        )) + pulled_bytes(reads.last().0));
        assert((left_of(unread) + bytes_pulled(before)) + pulled_bytes(reads.last().0) =~= left_of(
            unread,
        ) + bytes_pulled(reads));
    }
}

/// A read answers what it did: the number of bytes that it put into the buffer, which is filled as
/// far as the chunk goes; that there are none yet; or that the session is gone. A chunk that is
/// not used up is kept, and no other is asked for meanwhile. Only an empty chunk, or an empty
/// buffer, reads as no bytes.
pub proof fn law_read_fills_the_buffer(unread: Option<Seq<u8>>, pulled: PulledModel, room: nat)
    requires
        room <= usize::MAX,
    ensures
        ({
            let read = user_read(unread, pulled, room);
            let chunk = unread is Some || pulled is Chunk;
            &&& read.poll is Read <==> chunk
            &&& read.poll is Broken <==> unread is None && pulled is Ended
            &&& read.poll is Pending <==> unread is None && pulled is Pending
            &&& read.bytes.len() <= room
            &&& read.poll matches ReadPoll::Read(n) ==> n == read.bytes.len()
            &&& read.unread is Some ==> read.bytes.len() == room && left_of(read.unread).len() > 0
            &&& read.unread is None && chunk ==> read.bytes == (if unread is Some {
                left_of(unread)
            } else {
                pulled_bytes(pulled)
            })
        }),
{
}

/// A write hands a chunk to the session only when the channel takes one: the start of the buffer,
/// as much of it as a chunk holds. A buffer that is not empty is never written as nothing.
pub proof fn law_write_takes_the_start_of_the_buffer(ready: SendReady, buf: &[u8], written: WritePoll)
    requires
        call_ensures(YamuxStream::poll_write, (ready, buf), written),
    ensures
        written is Send <==> ready is Ready,
        written is Pending <==> ready is Pending,
        written is Broken <==> ready is Closed,
        written matches WritePoll::Send(chunk) ==> {
            &&& chunk.bytes().is_prefix_of(buf@)
            &&& chunk.bytes().len() <= 4090
            &&& chunk.bytes().len() < buf@.len() ==> chunk.bytes().len() == 4090
        },
{
}

/// User-facing half of a logical Yamux stream: what is left of the chunk that is being read.
#[derive(Debug)]
pub struct YamuxStream {
    recv_chunk: Option<ChunkView>,
}

impl YamuxStream {
    /// What is left to read of the chunk that is being read.
    pub closed spec fn unread(&self) -> Option<Seq<u8>> {
        match self.recv_chunk {
            Some(chunk) => Some(chunk.bytes()),
            None => None,
        }
    }

    /// Creates a handle that has read nothing.
    pub fn new() -> (r: Self)
        ensures
            r.unread() is None,
    {
        YamuxStream { recv_chunk: None }
    }

    /// True when the next read needs another chunk of the channel.
    pub fn needs_chunk(&self) -> (r: bool)
        ensures
            r == (self.unread() is None),
    {
        self.recv_chunk.is_none()
    }

    /// Reads bytes into `buf`. Where [`YamuxStream::needs_chunk`] holds, `pulled` is what the
    /// channel of the session answered; the channel is not asked otherwise.
    pub fn poll_read(&mut self, pulled: Pulled, buf: &mut [u8]) -> (r: ReadPoll)
        requires
            old(self).unread() is Some ==> pulled@ is Pending,
        ensures
            ({
                let current = match old(self).unread() {
                    Some(bytes) => PulledModel::Chunk(bytes),
                    None => pulled@,
                };
                match current {
                    PulledModel::Chunk(bytes) => {
                        let n = vstd::math::min(bytes.len() as int, old(buf)@.len() as int);
                        &&& r == ReadPoll::Read(n as usize)
                        &&& final(buf)@ == bytes.take(n) + old(buf)@.skip(n)
                        &&& final(self).unread() == (if n == bytes.len() {
                            None
                        } else {
                            Some(bytes.skip(n))
                        })
                    },
                    PulledModel::Ended => {
                        &&& r == ReadPoll::Broken
                        &&& final(buf)@ == old(buf)@
                        &&& final(self).unread() is None
                    },
                    PulledModel::Pending => {
                        &&& r == ReadPoll::Pending
                        &&& final(buf)@ == old(buf)@
                        &&& final(self).unread() is None
                    },
                }
            }),
            ({
                let read = user_read(old(self).unread(), pulled@, old(buf)@.len());
                &&& r == read.poll
                &&& final(buf)@ == read.bytes + old(buf)@.skip(read.bytes.len() as int)
                &&& final(self).unread() == read.unread
            }),
    {
        let chunk = match self.recv_chunk.take() {
            Some(chunk) => chunk,
            None => match pulled {
                Pulled::Chunk(chunk) => chunk,
                Pulled::Ended => {
                    return ReadPoll::Broken;
                },
                Pulled::Pending => {
                    return ReadPoll::Pending;
                },
            },
        };
        let len: usize = chunk.len();
        let read_len: usize = if len < buf.len() {
            len
        } else {
            buf.len()
        };
        let source = chunk.as_slice();
        let mut i: usize = 0;
        while i < read_len
            invariant
                i <= read_len,
                read_len <= buf@.len(),
                read_len <= source@.len(),
                buf@.len() == old(buf)@.len(),
                buf@ == source@.take(i as int) + old(buf)@.skip(i as int),
            decreases read_len - i,
        {
            buf[i] = source[i];
            i = i + 1;
            assert(buf@ =~= source@.take(i as int) + old(buf)@.skip(i as int));
        }
        if read_len < len {
            self.recv_chunk = chunk.view(read_len..len).ok();
            assert(chunk.bytes().subrange(read_len as int, len as int) =~= chunk.bytes().skip(
                read_len as int,
            ));
        }
        ReadPoll::Read(read_len)
    }

    /// Decides on a write of `buf`: as many bytes as a chunk takes go to the channel at once.
    pub fn poll_write(ready: SendReady, buf: &[u8]) -> (r: WritePoll)
        ensures
            match ready {
                SendReady::Pending => r is Pending,
                SendReady::Closed => r is Broken,
                SendReady::Ready => r matches WritePoll::Send(chunk) && chunk.bytes() == buf@.take(
                    vstd::math::min(buf@.len() as int, DEFAULT_CHUNK_CAPACITY as int),
                ),
            },
    {
        match ready {
            SendReady::Pending => WritePoll::Pending,
            SendReady::Closed => WritePoll::Broken,
            SendReady::Ready => {
                let send_len: usize = if buf.len() < DEFAULT_CHUNK_CAPACITY {
                    buf.len()
                } else {
                    DEFAULT_CHUNK_CAPACITY
                };
                let bytes = vstd::slice::slice_to_vec(&buf[0..send_len]);
                WritePoll::Send(ChunkView::from(bytes))
            },
        }
    }
}

} // verus!
