use position_server::session::{step, Action, EndReason, Event, Inbound, Phase};

#[test]
fn handshake_success_path() {
    let (p, a) = step(Phase::AwaitingConnect, Event::Received(Inbound::Other));
    assert_eq!((p, a), (Phase::AwaitingConnect, Action::Wait));
    let (p, a) = step(p, Event::Received(Inbound::Text));
    assert_eq!((p, a), (Phase::Decoding, Action::DecodeConnect));
    let (p, a) = step(p, Event::Decoded(true));
    assert_eq!((p, a), (Phase::Registering, Action::Register));
    let (p, a) = step(p, Event::Joined(true));
    assert_eq!((p, a), (Phase::Acknowledging, Action::SendConnected));
    let (p, a) = step(p, Event::Sent(true));
    assert_eq!((p, a), (Phase::Connected, Action::Wait));
}

#[test]
fn handshake_failures_do_not_disconnect() {
    assert_eq!(
        step(Phase::AwaitingConnect, Event::Received(Inbound::Close)),
        (Phase::Closed, Action::End(EndReason::CloseReceived, false))
    );
    assert_eq!(
        step(Phase::AwaitingConnect, Event::Received(Inbound::Ended)),
        (Phase::Closed, Action::End(EndReason::StreamEnded, false))
    );
    assert_eq!(
        step(Phase::Decoding, Event::Decoded(false)),
        (Phase::Closed, Action::End(EndReason::BadConnectMessage, false))
    );
    assert_eq!(
        step(Phase::Registering, Event::Joined(false)),
        (Phase::Closed, Action::End(EndReason::ServerFull, false))
    );
}

#[test]
fn failed_acknowledgment_disconnects() {
    assert_eq!(
        step(Phase::Acknowledging, Event::Sent(false)),
        (Phase::Closed, Action::End(EndReason::SendFailed, true))
    );
}

#[test]
fn steady_state_events() {
    let c = Phase::Connected;
    assert_eq!(step(c, Event::Drained(3)), (c, Action::Forward));
    assert_eq!(step(c, Event::Drained(0)), (Phase::Closed, Action::End(EndReason::QueueClosed, true)));
    assert_eq!(step(c, Event::Received(Inbound::Binary)), (c, Action::ApplySnapshot));
    assert_eq!(step(c, Event::Received(Inbound::Text)), (c, Action::Wait));
    assert_eq!(step(c, Event::Received(Inbound::Other)), (c, Action::Wait));
    assert_eq!(
        step(c, Event::Received(Inbound::Close)),
        (Phase::Closed, Action::End(EndReason::CloseReceived, true))
    );
    assert_eq!(
        step(c, Event::Received(Inbound::Failed)),
        (Phase::Closed, Action::End(EndReason::ReadFailed, true))
    );
    assert_eq!(step(c, Event::Sent(false)), (Phase::Closed, Action::End(EndReason::SendFailed, true)));
}

#[test]
fn bad_record_ends_connected_session() {
    assert_eq!(
        step(Phase::Connected, Event::Decoded(false)),
        (Phase::Closed, Action::End(EndReason::BadRecord, true))
    );
    assert_eq!(
        step(Phase::Decoding, Event::Decoded(false)),
        (Phase::Closed, Action::End(EndReason::BadConnectMessage, false))
    );
}

#[test]
fn closed_session_ignores_everything() {
    for e in [
        Event::Received(Inbound::Close),
        Event::Drained(0),
        Event::Sent(false),
        Event::Joined(true),
    ] {
        assert_eq!(step(Phase::Closed, e), (Phase::Closed, Action::Wait));
    }
}

#[test]
fn unexpected_event_ends_session() {
    assert_eq!(
        step(Phase::Registering, Event::Drained(2)),
        (Phase::Closed, Action::End(EndReason::UnexpectedEvent, false))
    );
    assert_eq!(
        step(Phase::Connected, Event::Joined(true)),
        (Phase::Closed, Action::End(EndReason::UnexpectedEvent, true))
    );
}
