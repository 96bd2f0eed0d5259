//! Keep-alive pings and the answers to them.
//!
//! Time is counted in nanoseconds since the [`Rtt`] was made.

use std::time::{Duration, Instant};

use vstd::prelude::*;

verus! {

// === Clock ===

/// A point of the monotonic clock.
#[verifier::external_type_specification]
#[verifier::external_body]
pub struct ExInstant(Instant);

/// `Instant::now` reads the monotonic clock; nothing is claimed of the reading.
pub assume_specification[ Instant::now ]() -> Instant;

/// `Instant::elapsed` tells how long ago an instant was; nothing is claimed of the answer, which
/// depends on when the question is asked.
pub assume_specification[ Instant::elapsed ](instant: &Instant) -> Duration;

/// `Duration::as_nanos` counts the nanoseconds of a duration; nothing is claimed of the count,
/// since a duration is opaque here: there is no model of its length to compare with.
pub assume_specification[ Duration::as_nanos ](duration: &Duration) -> u128;

/// Whether `now` is what a clock that was started at `origin` can show: the nanoseconds of some
/// answer of `Instant::elapsed` on it.
pub open spec fn clock_shows(origin: Instant, now: u128) -> bool {
    exists|elapsed: Duration|
        #![trigger call_ensures(Instant::elapsed, (&origin,), elapsed)]
        call_ensures(Instant::elapsed, (&origin,), elapsed) && call_ensures(
            Duration::as_nanos,
            (&elapsed,),
            now,
        )
}

// === Configuration ===

/// When to ping, and when to give up on an answer; both in nanoseconds.
#[derive(Debug, Clone, Copy, PartialEq, Eq, Structural)]
pub struct KeepAliveConfig {
    /// Pause between an answer and the next ping.
    pub interval: u128,
    /// How long an answer may take.
    pub timeout: u128,
}

/// Ten seconds between pings and thirty seconds for an answer.
pub open spec fn default_config() -> KeepAliveConfig {
    KeepAliveConfig { interval: 10_000_000_000, timeout: 30_000_000_000 }
}

impl Default for KeepAliveConfig {
    fn default() -> (r: Self)
        ensures
            r == default_config(),
    {
        KeepAliveConfig { interval: 10_000_000_000, timeout: 30_000_000_000 }
    }
}

// === Model ===

/// What a tick asks of the session.
#[derive(Debug, Clone, Copy, PartialEq, Eq, Structural)]
pub enum RttEvent {
    /// Send a ping with this nonce.
    KeepAlive(u32),
    /// The peer did not answer in time.
    Close,
}

/// Where the exchange of pings and answers stands.
pub enum RttStateModel {
    /// The next ping is due at `next`.
    Waiting { next: nat },
    /// The ping with this nonce was sent at `sent_at` and is not answered yet.
    AwaitingPong { sent_at: nat, nonce: u32 },
}

/// The state of an [`Rtt`].
pub struct RttModel {
    /// When the clock was started.
    pub origin: Instant,
    pub state: RttStateModel,
    /// The nonce of the last ping; 0 before the first.
    pub ping_seq: u32,
    pub cfg: KeepAliveConfig,
}

/// The state at the start: a ping is due at once.
pub open spec fn new_rtt(cfg: KeepAliveConfig, origin: Instant) -> RttModel {
    RttModel { origin, state: RttStateModel::Waiting { next: 0 }, ping_seq: 0, cfg }
}

/// How long ago `since` is at time `now`; nothing, if it is yet to come.
pub open spec fn elapsed(since: nat, now: nat) -> nat {
    if now < since {
        0
    } else {
        (now - since) as nat
    }
}

/// What a tick at time `now` yields, and the state after it.
pub open spec fn next_ping_step(rtt: RttModel, now: nat) -> (Option<RttEvent>, RttModel) {
    match rtt.state {
        RttStateModel::Waiting { next } => if next > now {
            (None, rtt)
        } else {
            let nonce = (rtt.ping_seq + 1) as u32;
            (
                Some(RttEvent::KeepAlive(nonce)),
                RttModel {
                    state: RttStateModel::AwaitingPong { sent_at: now, nonce },
                    ping_seq: nonce,
                    ..rtt
                },
            )
        },
        RttStateModel::AwaitingPong { sent_at, nonce } => if elapsed(sent_at, now)
            < rtt.cfg.timeout {
            (None, rtt)
        } else {
            (Some(RttEvent::Close), rtt)
        },
    }
}

/// Whether the next ping, where none is awaiting its answer, still finds a nonce.
pub open spec fn nonce_left(rtt: RttModel) -> bool {
    rtt.state is Waiting ==> rtt.ping_seq < u32::MAX
}

/// Whether an answer that came at time `now` is the awaited one, and the state after it.
pub open spec fn handle_pong_step(rtt: RttModel, received_nonce: u32, now: nat) -> (
    bool,
    RttModel,
) {
    match rtt.state {
        RttStateModel::AwaitingPong { sent_at, nonce } if nonce == received_nonce => (
            true,
            RttModel {
                state: RttStateModel::Waiting { next: now + rtt.cfg.interval as nat },
                ..rtt
            },
        ),
        _ => (false, rtt),
    }
}

// === Laws ===

/// A ping is answered by its own nonce and by no other; an answer that does not belong to it
/// changes nothing.
pub proof fn law_only_own_nonce_answers(rtt: RttModel, sent: nat, nonce: u32, received: nat)
    requires
        next_ping_step(rtt, sent).0 matches Some(RttEvent::KeepAlive(_)),
    ensures
        ({
            let nonce_sent = next_ping_step(rtt, sent).0->0->KeepAlive_0;
            let waiting = next_ping_step(rtt, sent).1;
            &&& handle_pong_step(waiting, nonce, received).0 == (nonce == nonce_sent)
            &&& nonce != nonce_sent ==> handle_pong_step(waiting, nonce, received).1 == waiting
        }),
{
}

/// After an answer no further answer is taken, and no ping is sent before the interval is over;
/// then the nonce is the next number.
pub proof fn law_next_ping_after_interval(rtt: RttModel, nonce: u32, received: nat, now: nat)
    requires
        handle_pong_step(rtt, nonce, received).0,
        rtt.ping_seq < u32::MAX,
    ensures
        ({
            let answered = handle_pong_step(rtt, nonce, received).1;
            &&& !handle_pong_step(answered, nonce, now).0
            &&& now < received + rtt.cfg.interval ==> next_ping_step(answered, now) == (
                None::<RttEvent>,
                answered,
            )
            &&& now >= received + rtt.cfg.interval ==> next_ping_step(answered, now).0 == Some(
                RttEvent::KeepAlive((rtt.ping_seq + 1) as u32),
            )
        }),
{
}

/// While a ping is not answered no other is sent, and the session is given up exactly when the
/// timeout is over.
pub proof fn law_gives_up_after_timeout(rtt: RttModel, sent: nat, now: nat)
    requires
        next_ping_step(rtt, sent).0 matches Some(RttEvent::KeepAlive(_)),
    ensures
        ({
            let waiting = next_ping_step(rtt, sent).1;
            &&& next_ping_step(waiting, now).1 == waiting
            &&& next_ping_step(waiting, now).0 == (if elapsed(sent, now) < rtt.cfg.timeout {
                None
            } else {
                Some(RttEvent::Close)
            })
        }),
{
}

/// The first tick sends a ping, whenever it comes; its nonce is 1.
pub proof fn law_first_ping_is_due_at_once(cfg: KeepAliveConfig, origin: Instant, now: nat)
    ensures
        next_ping_step(new_rtt(cfg, origin), now).0 == Some(RttEvent::KeepAlive(1)),
{
}

/// The timeout is counted from the ping: a tick at or after `sent + timeout` gives the session up,
/// a tick before does nothing. Where there is no time to answer, every tick gives it up.
pub proof fn law_timeout_counts_from_the_ping(rtt: RttModel, sent: nat, now: nat)
    requires
        next_ping_step(rtt, sent).0 matches Some(RttEvent::KeepAlive(_)),
    ensures
        ({
            let waiting = next_ping_step(rtt, sent).1;
            let tick = next_ping_step(waiting, now);
            &&& tick.1 == waiting
            &&& now >= sent + rtt.cfg.timeout ==> tick.0 == Some(RttEvent::Close)
            &&& now < sent + rtt.cfg.timeout && rtt.cfg.timeout > 0 ==> tick.0 is None
            &&& rtt.cfg.timeout == 0 ==> tick.0 == Some(RttEvent::Close)
        }),
{
}

/// One use of an [`Rtt`].
pub enum RttOp {
    /// A tick at this time.
    Tick(nat),
    /// An answer with this nonce, at this time.
    Pong(u32, nat),
}

/// The state after one use.
pub open spec fn rtt_after(rtt: RttModel, op: RttOp) -> RttModel {
    match op {
        RttOp::Tick(now) => next_ping_step(rtt, now).1,
        RttOp::Pong(nonce, now) => handle_pong_step(rtt, nonce, now).1,
    }
}

/// The state after a run of uses.
pub open spec fn rtt_after_all(rtt: RttModel, ops: Seq<RttOp>) -> RttModel
    decreases ops.len(),
{
    if ops.len() == 0 {
        rtt
    } else {
        rtt_after(rtt_after_all(rtt, ops.drop_last()), ops.last())
    }
}

/// The nonces of the pings that a run sends.
pub open spec fn pings_over(rtt: RttModel, ops: Seq<RttOp>) -> Seq<u32>
    decreases ops.len(),
{
    if ops.len() == 0 {
        seq![]
    } else {
        let before = pings_over(rtt, ops.drop_last());
        match ops.last() {
            RttOp::Tick(now) => match next_ping_step(
                rtt_after_all(rtt, ops.drop_last()),
                now,
            ).0 {
                Some(RttEvent::KeepAlive(nonce)) => before.push(nonce),
                _ => before,
            },
            RttOp::Pong(_, _) => before,
        }
    }
}

/// How many pings a run can send with the nonces that are left.
pub open spec fn nonces_suffice(rtt: RttModel, ops: Seq<RttOp>) -> bool {
    rtt.ping_seq + ops.len() <= u32::MAX
}

/// The pings of a session are numbered one after the other: over any run, the nonces are the
/// numbers behind the last one, none left out and none used twice. The configuration and the
/// clock stay what they are.
pub proof fn law_pings_count_up(rtt: RttModel, ops: Seq<RttOp>)
    requires
        nonces_suffice(rtt, ops),
    ensures
        ({
            let pings = pings_over(rtt, ops);
            let after = rtt_after_all(rtt, ops);
            &&& forall|i: int|
                0 <= i < pings.len() ==> #[trigger] pings[i] == rtt.ping_seq + 1 + i
            &&& after.ping_seq == rtt.ping_seq + pings.len()
            &&& pings.len() <= ops.len()
            &&& after.cfg == rtt.cfg
            &&& after.origin == rtt.origin
        }),
    decreases ops.len(),
{
    if ops.len() > 0 {
        law_pings_count_up(rtt, ops.drop_last());
    }
}

/// Whether no use of a run answers the ping with this nonce.
pub open spec fn never_answered(ops: Seq<RttOp>, nonce: u32) -> bool {
    forall|i: int|
        0 <= i < ops.len() ==> (#[trigger] ops[i] matches RttOp::Pong(received, _)
            ==> received != nonce)
}

/// A ping that stays unanswered times out: whatever ticks and other answers come after a ping
/// that was sent at `sent`, no further ping is sent, and a tick gives the session up exactly when
/// it comes at or after `sent + timeout`.
pub proof fn law_unanswered_ping_times_out(
    rtt: RttModel,
    sent: nat,
    nonce: u32,
    ops: Seq<RttOp>,
    now: nat,
)
    requires
        next_ping_step(rtt, sent).0 == Some(RttEvent::KeepAlive(nonce)),
        never_answered(ops, nonce),
        rtt.cfg.timeout > 0,
    ensures
        ({
            let waiting = next_ping_step(rtt, sent).1;
            let later = rtt_after_all(waiting, ops);
            &&& later == waiting
            &&& pings_over(waiting, ops).len() == 0
            &&& next_ping_step(later, now).0 == (if now >= sent + rtt.cfg.timeout {
                Some(RttEvent::Close)
            } else {
                None
            })
        }),
    decreases ops.len(),
{
    if ops.len() > 0 {
        let before = ops.drop_last();
        assert(forall|i: int| 0 <= i < before.len() ==> #[trigger] before[i] == ops[i]);
        law_unanswered_ping_times_out(rtt, sent, nonce, before, now);
        assert(ops[ops.len() - 1] == ops.last());
    }
}

/// An answered ping keeps the session: whatever answers come after the one at `received`, the next
/// ping is sent by the first tick at or after `received + interval`, and not before.
pub proof fn law_answered_ping_rests_for_the_interval(
    rtt: RttModel,
    nonce: u32,
    received: nat,
    ops: Seq<RttOp>,
    now: nat,
)
    requires
        handle_pong_step(rtt, nonce, received).0,
        rtt.ping_seq < u32::MAX,
        forall|i: int|
            0 <= i < ops.len() ==> (#[trigger] ops[i] matches RttOp::Tick(tick) ==> tick < received
                + rtt.cfg.interval),
    ensures
        ({
            let answered = handle_pong_step(rtt, nonce, received).1;
            let later = rtt_after_all(answered, ops);
            &&& later == answered
            &&& pings_over(answered, ops).len() == 0
            &&& next_ping_step(later, now).0 == (if now >= received + rtt.cfg.interval {
                Some(RttEvent::KeepAlive((rtt.ping_seq + 1) as u32))
            } else {
                None
            })
        }),
    decreases ops.len(),
{
    if ops.len() > 0 {
        let before = ops.drop_last();
        assert(forall|i: int| 0 <= i < before.len() ==> #[trigger] before[i] == ops[i]);
        law_answered_ping_rests_for_the_interval(rtt, nonce, received, before, now);
        assert(ops[ops.len() - 1] == ops.last());
    }
}

/// An answer counts exactly when a ping is out and the answer carries its nonce. It changes what
/// is waited for and nothing else.
pub proof fn law_answer_counts_for_its_ping(rtt: RttModel, nonce: u32, now: nat)
    ensures
        ({
            let (taken, after) = handle_pong_step(rtt, nonce, now);
            &&& taken <==> rtt.state is AwaitingPong && rtt.state->nonce == nonce
            &&& !taken ==> after == rtt
            &&& taken ==> after.state == (RttStateModel::Waiting {
                next: now + rtt.cfg.interval as nat,
            })
            &&& after.ping_seq == rtt.ping_seq
            &&& after.cfg == rtt.cfg
            &&& after.origin == rtt.origin
        }),
{
}

/// A tick can lack a nonce only after the last number was used and answered.
pub proof fn law_nonces_last_to_the_last_number(rtt: RttModel)
    ensures
        rtt.ping_seq < u32::MAX ==> nonce_left(rtt),
        rtt.state is AwaitingPong ==> nonce_left(rtt),
        nonce_left(rtt) && rtt.state is Waiting ==> rtt.ping_seq < u32::MAX,
{
}

// === Exchange of pings and answers ===

#[derive(Debug, Clone, Copy)]
enum RttState {
    AwaitingPong { sent_at: u128, nonce: u32 },
    Waiting { since: u128, pause: u128 },
}

/// Decides when to ping the peer and when to give up on it.
#[derive(Debug)]
pub struct Rtt {
    origin: Instant,
    state: RttState,
    ping_seq: u32,
    cfg: KeepAliveConfig,
}

impl View for Rtt {
    type V = RttModel;

    closed spec fn view(&self) -> RttModel {
        RttModel {
            origin: self.origin,
            state: match self.state {
                RttState::AwaitingPong { sent_at, nonce } => RttStateModel::AwaitingPong {
                    sent_at: sent_at as nat,
                    nonce,
                },
                RttState::Waiting { since, pause } => RttStateModel::Waiting {
                    next: (since + pause) as nat,
                },
            },
            ping_seq: self.ping_seq,
            cfg: self.cfg,
        }
    }
}

impl Rtt {
    /// Starts the clock; the first ping is due at once.
    pub fn new(cfg: KeepAliveConfig) -> (r: Self)
        ensures
            r@ == new_rtt(cfg, r@.origin),
            call_ensures(Instant::now, (), r@.origin),
    {
        Rtt {
            origin: Instant::now(),
            state: RttState::Waiting { since: 0, pause: 0 },
            ping_seq: 0,
            cfg,
        }
    }

    /// Nanoseconds since the clock was started, as the clock shows them.
    pub fn now(&self) -> (r: u128)
        ensures
            clock_shows(self@.origin, r),
    {
        let elapsed = self.origin.elapsed();
        elapsed.as_nanos()
    }

    /// False when the next ping would need a nonce and none is left.
    pub fn has_nonce(&self) -> (r: bool)
        ensures
            r == nonce_left(self@),
    {
        match self.state {
            RttState::Waiting { since: _, pause: _ } => self.ping_seq < u32::MAX,
            RttState::AwaitingPong { sent_at: _, nonce: _ } => true,
        }
    }

    /// What to do on a tick at time `now`.
    pub fn next_ping_at(&mut self, now: u128) -> (r: Option<RttEvent>)
        requires
            next_ping_step(old(self)@, now as nat).0 matches Some(RttEvent::KeepAlive(_))
                ==> nonce_left(old(self)@),
        ensures
            (r, final(self)@) == next_ping_step(old(self)@, now as nat),
    {
        match self.state {
            RttState::Waiting { since, pause } => {
                if now < since || now - since < pause {
                    return None;
                }
            },
            RttState::AwaitingPong { sent_at, nonce: _ } => {
                let elapsed: u128 = if now < sent_at {
                    0
                } else {
                    now - sent_at
                };
                if elapsed < self.cfg.timeout {
                    return None;
                }
                return Some(RttEvent::Close);
            },
        }
        self.ping_seq = self.ping_seq + 1;
        let nonce: u32 = self.ping_seq;
        self.state = RttState::AwaitingPong { sent_at: now, nonce };
        Some(RttEvent::KeepAlive(nonce))
    }

    /// What to do on a tick now, by a reading of the clock.
    pub fn next_ping(&mut self) -> (r: Option<RttEvent>)
        requires
            nonce_left(old(self)@),
        ensures
            exists|now: u128| #[trigger]
                clock_shows(old(self)@.origin, now) && (r, final(self)@) == next_ping_step(
                    old(self)@,
                    now as nat,
                ),
    {
        let now: u128 = self.now();
        self.next_ping_at(now)
    }

    /// Takes an answer that came at time `now`; tells whether it is the awaited one.
    pub fn handle_pong_at(&mut self, received_nonce: u32, now: u128) -> (r: bool)
        ensures
            (r, final(self)@) == handle_pong_step(old(self)@, received_nonce, now as nat),
    {
        match self.state {
            RttState::Waiting { since: _, pause: _ } => false,
            RttState::AwaitingPong { sent_at: _, nonce } => {
                if received_nonce != nonce {
                    return false;
                }
                self.state = RttState::Waiting { since: now, pause: self.cfg.interval };
                true
            },
        }
    }

    /// Takes an answer now, by a reading of the clock.
    pub fn handle_pong(&mut self, received_nonce: u32) -> (r: bool)
        ensures
            exists|now: u128| #[trigger]
                clock_shows(old(self)@.origin, now) && (r, final(self)@) == handle_pong_step(
                    old(self)@,
                    received_nonce,
                    now as nat,
                ),
    {
        let now: u128 = self.now();
        self.handle_pong_at(received_nonce, now)
    }
}

/// A ping that is not answered gives the session up at the first tick that comes `timeout` after
/// it or later, and at none before.
pub proof fn law_overdue_answer_gives_up(
    pinging: &mut Rtt,
    sent: u128,
    nonce: u32,
    ticking: &mut Rtt,
    now: u128,
    event: Option<RttEvent>,
)
    requires
        call_ensures(
            Rtt::next_ping_at,
            (pinging, sent),
            Some(RttEvent::KeepAlive(nonce)),
        ),
        old(ticking)@ == final(pinging)@,
        call_ensures(Rtt::next_ping_at, (ticking, now), event),
        old(pinging)@.cfg.timeout > 0,
    ensures
        now >= sent + old(pinging)@.cfg.timeout ==> event == Some(RttEvent::Close),
        now < sent + old(pinging)@.cfg.timeout ==> event is None,
        final(ticking)@ == old(ticking)@,
{
    law_timeout_counts_from_the_ping(old(pinging)@, sent as nat, now as nat);
}

/// An answer with the nonce of the ping sets the next ping off: the first tick that comes
/// `interval` after the answer or later sends it, and none before.
pub proof fn law_answer_sets_the_next_ping_off(
    answering: &mut Rtt,
    nonce: u32,
    received: u128,
    ticking: &mut Rtt,
    now: u128,
    event: Option<RttEvent>,
)
    requires
        call_ensures(Rtt::handle_pong_at, (answering, nonce, received), true),
        old(ticking)@ == final(answering)@,
        call_ensures(Rtt::next_ping_at, (ticking, now), event),
        old(answering)@.ping_seq < u32::MAX,
    ensures
        now >= received + old(answering)@.cfg.interval ==> event == Some(
            RttEvent::KeepAlive((old(answering)@.ping_seq + 1) as u32),
        ),
        now < received + old(answering)@.cfg.interval ==> event is None,
{
    law_next_ping_after_interval(old(answering)@, nonce, received as nat, now as nat);
}

} // verus!
