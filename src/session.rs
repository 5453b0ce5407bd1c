//! The per-connection session as a state machine: the driver reports each
//! event (a frame read, a decode or registry outcome, a write outcome, a batch
//! of notifications) and performs the action that comes back.
use vstd::prelude::*;

verus! {

/// Most notifications forwarded to a client in one batch.
pub const BATCH_LIMIT: usize = 16;

/// Where a session stands.
#[derive(Clone, Copy, Debug, PartialEq, Eq, Structural)]
pub enum Phase {
    /// Waiting for the client's first control message.
    AwaitingConnect,
    /// A text or binary frame arrived and is being decoded as "connect".
    Decoding,
    /// The connect message was valid; the registry is being asked for a slot.
    Registering,
    /// Registered; the "connected" acknowledgment is being sent.
    Acknowledging,
    /// Steady state: relaying notifications and snapshots.
    Connected,
    /// Over; nothing further happens.
    Closed,
}

/// What the connection's stream yielded.
#[derive(Clone, Copy, Debug, PartialEq, Eq, Structural)]
pub enum Inbound {
    Text,
    Binary,
    /// A close frame.
    Close,
    /// Any other frame (ping, pong, raw).
    Other,
    /// The stream ended.
    Ended,
    /// Reading failed.
    Failed,
}

/// An event reported to the session.
#[derive(Clone, Copy, Debug, PartialEq, Eq, Structural)]
pub enum Event {
    Received(Inbound),
    /// Outcome of decoding the connect message, or (when connected) a
    /// snapshot record that failed to decode.
    Decoded(bool),
    /// Outcome of registering: `false` when the registry is full.
    Joined(bool),
    /// Outcome of a write followed by a flush.
    Sent(bool),
    /// Number of notifications drained from the queue in one batch.
    Drained(usize),
}

/// Why a session ended.
#[derive(Clone, Copy, Debug, PartialEq, Eq, Structural)]
pub enum EndReason {
    StreamEnded,
    ReadFailed,
    CloseReceived,
    BadConnectMessage,
    /// A binary frame in steady state was not a snapshot record.
    BadRecord,
    ServerFull,
    SendFailed,
    /// A wake-up with no notifications: the queue has been closed.
    QueueClosed,
    /// The driver reported an event that cannot happen in this phase.
    UnexpectedEvent,
}

/// What the driver does next.
#[derive(Clone, Copy, Debug, PartialEq, Eq, Structural)]
pub enum Action {
    /// Wait for the next event.
    Wait,
    /// Decode the frame just received as the connect control message.
    DecodeConnect,
    /// Register the player with the shared registry.
    Register,
    /// Send the "connected" message with the id and current peers.
    SendConnected,
    /// Decode the binary record just received; if it is one, apply it to the
    /// registry and forward the filtered snapshots it returns (then report
    /// `Sent`), else report `Decoded(false)`.
    ApplySnapshot,
    /// Write the drained notifications, then flush once.
    Forward,
    /// End the session; `disconnect` says whether the player must be removed
    /// from the registry.
    End(EndReason, bool),
}

/// The player is in the registry in this phase.
pub open spec fn registered(p: Phase) -> bool {
    p == Phase::Acknowledging || p == Phase::Connected
}

pub open spec fn end_in(p: Phase, reason: EndReason) -> (Phase, Action) {
    (Phase::Closed, Action::End(reason, registered(p)))
}

/// The session's transition table.
pub open spec fn next(p: Phase, e: Event) -> (Phase, Action) {
    match (p, e) {
        (Phase::Closed, _) => (Phase::Closed, Action::Wait),
        (_, Event::Received(Inbound::Ended)) => end_in(p, EndReason::StreamEnded),
        (_, Event::Received(Inbound::Failed)) => end_in(p, EndReason::ReadFailed),
        (_, Event::Received(Inbound::Close)) => end_in(p, EndReason::CloseReceived),
        (Phase::AwaitingConnect, Event::Received(Inbound::Other)) => (p, Action::Wait),
        (Phase::AwaitingConnect, Event::Received(_)) => (Phase::Decoding, Action::DecodeConnect),
        (Phase::Decoding, Event::Decoded(true)) => (Phase::Registering, Action::Register),
        (Phase::Decoding, Event::Decoded(false)) => end_in(p, EndReason::BadConnectMessage),
        (Phase::Registering, Event::Joined(true)) => (Phase::Acknowledging, Action::SendConnected),
        (Phase::Registering, Event::Joined(false)) => end_in(p, EndReason::ServerFull),
        (Phase::Acknowledging, Event::Sent(true)) => (Phase::Connected, Action::Wait),
        (Phase::Connected, Event::Sent(true)) => (p, Action::Wait),
        (Phase::Acknowledging, Event::Sent(false)) => end_in(p, EndReason::SendFailed),
        (Phase::Connected, Event::Sent(false)) => end_in(p, EndReason::SendFailed),
        (Phase::Connected, Event::Decoded(false)) => end_in(p, EndReason::BadRecord),
        (Phase::Connected, Event::Drained(0)) => end_in(p, EndReason::QueueClosed),
        (Phase::Connected, Event::Drained(_)) => (p, Action::Forward),
        (Phase::Connected, Event::Received(Inbound::Binary)) => (p, Action::ApplySnapshot),
        (Phase::Connected, Event::Received(_)) => (p, Action::Wait),
        _ => end_in(p, EndReason::UnexpectedEvent),
    }
}

/// The next phase and action after event `e` in phase `p`.
pub fn step(p: Phase, e: Event) -> (r: (Phase, Action))
    ensures
        r == next(p, e),
{
    let end = |reason: EndReason| -> (r: (Phase, Action))
        ensures
            r == end_in(p, reason),
        { (Phase::Closed, Action::End(reason, p == Phase::Acknowledging || p == Phase::Connected)) };
    match (p, e) {
        (Phase::Closed, _) => (Phase::Closed, Action::Wait),
        (_, Event::Received(Inbound::Ended)) => end(EndReason::StreamEnded),
        (_, Event::Received(Inbound::Failed)) => end(EndReason::ReadFailed),
        (_, Event::Received(Inbound::Close)) => end(EndReason::CloseReceived),
        (Phase::AwaitingConnect, Event::Received(Inbound::Other)) => (p, Action::Wait),
        (Phase::AwaitingConnect, Event::Received(_)) => (Phase::Decoding, Action::DecodeConnect),
        (Phase::Decoding, Event::Decoded(true)) => (Phase::Registering, Action::Register),
        (Phase::Decoding, Event::Decoded(false)) => end(EndReason::BadConnectMessage),
        (Phase::Registering, Event::Joined(true)) => (Phase::Acknowledging, Action::SendConnected),
        (Phase::Registering, Event::Joined(false)) => end(EndReason::ServerFull),
        (Phase::Acknowledging, Event::Sent(true)) => (Phase::Connected, Action::Wait),
        (Phase::Connected, Event::Sent(true)) => (p, Action::Wait),
        (Phase::Acknowledging, Event::Sent(false)) => end(EndReason::SendFailed),
        (Phase::Connected, Event::Sent(false)) => end(EndReason::SendFailed),
        (Phase::Connected, Event::Decoded(false)) => end(EndReason::BadRecord),
        (Phase::Connected, Event::Drained(0)) => end(EndReason::QueueClosed),
        (Phase::Connected, Event::Drained(_)) => (p, Action::Forward),
        (Phase::Connected, Event::Received(Inbound::Binary)) => (p, Action::ApplySnapshot),
        (Phase::Connected, Event::Received(_)) => (p, Action::Wait),
        _ => end(EndReason::UnexpectedEvent),
    }
}

/// The actions produced by feeding `events` to a session in phase `p`.
pub open spec fn run(p: Phase, events: Seq<Event>) -> Seq<Action>
    decreases events.len(),
{
    if events.len() == 0 {
        Seq::empty()
    } else {
        let (q, a) = next(p, events[0]);
        seq![a] + run(q, events.drop_first())
    }
}

pub open spec fn is_end(a: Action) -> bool {
    a matches Action::End(_, _)
}

/// Once closed, a session does nothing more.
pub proof fn lemma_closed_is_final(events: Seq<Event>)
    ensures
        forall|i: int| 0 <= i < events.len() ==> run(Phase::Closed, events)[i] == Action::Wait,
        run(Phase::Closed, events).len() == events.len(),
    decreases events.len(),
{
    if events.len() > 0 {
        lemma_closed_is_final(events.drop_first());
        let r = run(Phase::Closed, events);
        assert forall|i: int| 0 <= i < events.len() implies r[i] == Action::Wait by {
            if i > 0 {
                assert(r[i] == run(Phase::Closed, events.drop_first())[i - 1]);
            }
        }
    }
}

/// Whatever events arrive, a session ends at most once: any later action is
/// a wait. Hence the player is removed from the registry at most once.
pub proof fn lemma_ends_once(p: Phase, events: Seq<Event>)
    ensures
        run(p, events).len() == events.len(),
        forall|i: int, j: int|
            0 <= i < j < events.len() && is_end(#[trigger] run(p, events)[i]) ==> #[trigger] run(
                p,
                events,
            )[j] == Action::Wait,
    decreases events.len(),
{
    if events.len() > 0 {
        let (q, a) = next(p, events[0]);
        let rest = events.drop_first();
        lemma_ends_once(q, rest);
        let r = run(p, events);
        if is_end(a) {
            lemma_closed_is_final(rest);
        }
        assert forall|i: int, j: int|
            0 <= i < j < events.len() && is_end(#[trigger] r[i]) implies #[trigger] r[j]
                == Action::Wait by {
            assert(r[j] == run(q, rest)[j - 1]);
            if i > 0 {
                assert(r[i] == run(q, rest)[i - 1]);
            }
        }
    }
}

} // verus!
