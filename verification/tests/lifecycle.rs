use room_relay::lifecycle::{step, ConnEvent, ConnState};

const STATES: [ConnState; 4] =
    [ConnState::Connecting, ConnState::Active, ConnState::Closing, ConnState::Closed];

const EVENTS: [ConnEvent; 6] = [
    ConnEvent::Spawned,
    ConnEvent::ReadError,
    ConnEvent::WriteError,
    ConnEvent::CloseRequested,
    ConnEvent::DropLimitReached,
    ConnEvent::Finished,
];

fn rank(state: ConnState) -> u8 {
    match state {
        ConnState::Connecting => 0,
        ConnState::Active => 1,
        ConnState::Closing => 2,
        ConnState::Closed => 3,
    }
}

#[test]
fn spawned_makes_a_connection_active() {
    assert_eq!(step(ConnState::Connecting, ConnEvent::Spawned), ConnState::Active);
}

#[test]
fn every_failure_closes_an_active_connection() {
    for event in [
        ConnEvent::ReadError,
        ConnEvent::WriteError,
        ConnEvent::CloseRequested,
        ConnEvent::DropLimitReached,
    ] {
        assert_eq!(step(ConnState::Active, event), ConnState::Closing);
    }
}

#[test]
fn finished_closes_a_closing_connection() {
    assert_eq!(step(ConnState::Closing, ConnEvent::Finished), ConnState::Closed);
}

#[test]
fn events_that_do_not_apply_change_nothing() {
    assert_eq!(step(ConnState::Connecting, ConnEvent::ReadError), ConnState::Connecting);
    assert_eq!(step(ConnState::Connecting, ConnEvent::Finished), ConnState::Connecting);
    assert_eq!(step(ConnState::Active, ConnEvent::Spawned), ConnState::Active);
    assert_eq!(step(ConnState::Active, ConnEvent::Finished), ConnState::Active);
    assert_eq!(step(ConnState::Closing, ConnEvent::Spawned), ConnState::Closing);
    assert_eq!(step(ConnState::Closing, ConnEvent::WriteError), ConnState::Closing);
}

#[test]
fn a_closed_connection_stays_closed() {
    for event in EVENTS {
        assert_eq!(step(ConnState::Closed, event), ConnState::Closed);
    }
}

#[test]
fn a_connection_never_moves_backwards() {
    for state in STATES {
        for event in EVENTS {
            let next = step(state, event);
            assert!(rank(next) >= rank(state));
            assert!(rank(next) <= rank(state) + 1);
        }
    }
}
