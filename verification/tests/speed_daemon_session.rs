use protohackers::speed_daemon::codec::{ClientToServerMessage, CodecError};
use protohackers::speed_daemon::session::{describe_frame_error, Action, Session};
use protohackers::speed_daemon::tickets::Sighting;

fn plate(text: &str, timestamp: u32) -> ClientToServerMessage {
    ClientToServerMessage::Plate { plate: text.to_string(), timestamp }
}

fn camera() -> ClientToServerMessage {
    ClientToServerMessage::IAmCamera { road: 66, mile: 100, limit: 60 }
}

fn dispatcher() -> ClientToServerMessage {
    ClientToServerMessage::IAmDispatcher { roads: vec![66, 368] }
}

fn reject(message: &str, unregister: bool) -> Action {
    Action::Reject { message: message.to_string(), unregister }
}

#[test]
fn a_new_session_is_open_and_unidentified() {
    let session = Session::new();
    assert!(session.is_open());
    assert!(!session.is_camera());
    assert!(!session.is_dispatcher());
    assert_eq!(session.heartbeat_interval(), None);
}

#[test]
fn a_plate_before_identification_is_rejected_and_closes_the_session() {
    let mut session = Session::new();
    assert_eq!(
        session.on_message(plate("UN1X", 1000)),
        reject("plate reported by a client that is not a camera", false)
    );
    assert!(!session.is_open());
}

#[test]
fn a_plate_from_a_dispatcher_is_rejected() {
    let mut session = Session::new();
    assert_eq!(session.on_message(dispatcher()), Action::Register { roads: vec![66, 368] });
    assert_eq!(
        session.on_message(plate("UN1X", 1000)),
        reject("plate reported by a client that is not a camera", true)
    );
    assert!(!session.is_open());
}

#[test]
fn a_plate_from_a_camera_is_observed_where_the_camera_stands() {
    let mut session = Session::new();
    assert_eq!(session.on_message(camera()), Action::Nothing);
    assert!(session.is_camera());
    assert_eq!(
        session.on_message(plate("UN1X", 1000)),
        Action::Observe {
            sighting: Sighting {
                plate: "UN1X".to_string(),
                road: 66,
                mile: 100,
                timestamp: 1000,
                limit: 60
            }
        }
    );
    assert!(session.is_open());
}

#[test]
fn identifying_twice_is_rejected() {
    for first in [camera(), dispatcher()] {
        for second in [camera(), dispatcher()] {
            let mut session = Session::new();
            let was_dispatcher = matches!(first, ClientToServerMessage::IAmDispatcher { .. });
            session.on_message(first.clone());
            assert_eq!(
                session.on_message(second.clone()),
                reject("already identified", was_dispatcher)
            );
            assert!(!session.is_open());
        }
    }
}

#[test]
fn heartbeats_may_be_asked_for_in_any_state() {
    let mut session = Session::new();
    assert_eq!(
        session.on_message(ClientToServerMessage::WantHeartbeat { interval: 50 }),
        Action::StartHeartbeat { period_millis: 5000 }
    );
    assert_eq!(session.on_message(camera()), Action::Nothing);
    let mut session = Session::new();
    session.on_message(dispatcher());
    assert_eq!(
        session.on_message(ClientToServerMessage::WantHeartbeat { interval: 1 }),
        Action::StartHeartbeat { period_millis: 100 }
    );
    assert_eq!(session.heartbeat_interval(), Some(1));
    let mut session = Session::new();
    assert_eq!(
        session.on_message(ClientToServerMessage::WantHeartbeat { interval: u32::MAX }),
        Action::StartHeartbeat { period_millis: 429496729500 }
    );
}

#[test]
fn an_interval_of_zero_starts_no_timer_and_sends_no_heartbeat() {
    let mut session = Session::new();
    assert_eq!(
        session.on_message(ClientToServerMessage::WantHeartbeat { interval: 0 }),
        Action::Nothing
    );
    assert!(session.is_open());
    assert_eq!(session.heartbeat_interval(), Some(0));
    assert_eq!(session.on_heartbeat_due(), Action::Nothing);
    assert_eq!(session.on_message(camera()), Action::Nothing);
    assert_eq!(session.on_heartbeat_due(), Action::Nothing);
}

#[test]
fn asking_for_heartbeats_twice_is_rejected() {
    for (first, second) in [(0u32, 0u32), (0, 10), (10, 0), (10, 10)] {
        let mut session = Session::new();
        session.on_message(ClientToServerMessage::WantHeartbeat { interval: first });
        assert_eq!(
            session.on_message(ClientToServerMessage::WantHeartbeat { interval: second }),
            reject("heartbeat already requested", false)
        );
        assert!(!session.is_open());
    }
}

#[test]
fn a_heartbeat_is_sent_whenever_it_is_due_until_the_session_closes() {
    let mut session = Session::new();
    assert_eq!(session.on_heartbeat_due(), Action::Nothing);
    session.on_message(ClientToServerMessage::WantHeartbeat { interval: 50 });
    assert_eq!(session.on_heartbeat_due(), Action::SendHeartbeat);
    assert_eq!(session.on_heartbeat_due(), Action::SendHeartbeat);
    assert_eq!(session.on_disconnect(), Action::Release { unregister: false });
    assert_eq!(session.on_heartbeat_due(), Action::Nothing);
}

#[test]
fn a_frame_error_is_rejected_with_its_reason() {
    let cases = [
        (CodecError::UnknownMessageType { tag: 0x99 }, "unknown message type"),
        (CodecError::InvalidText, "text is not valid UTF-8"),
        (CodecError::FieldTooLong, "field too long"),
        (CodecError::Truncated, "truncated frame"),
    ];
    for (error, text) in cases {
        assert_eq!(describe_frame_error(error), text);
        let mut session = Session::new();
        assert_eq!(session.on_frame_error(error), reject(text, false));
        assert!(!session.is_open());
    }
}

#[test]
fn a_dispatcher_that_disconnects_has_to_be_unregistered() {
    let mut session = Session::new();
    session.on_message(dispatcher());
    assert!(session.is_dispatcher());
    assert_eq!(session.on_disconnect(), Action::Release { unregister: true });
    let mut session = Session::new();
    session.on_message(camera());
    assert_eq!(session.on_disconnect(), Action::Release { unregister: false });
    let mut session = Session::new();
    assert_eq!(session.on_disconnect(), Action::Release { unregister: false });
}

#[test]
fn a_closed_session_does_nothing_more() {
    let mut session = Session::new();
    session.on_message(camera());
    session.on_disconnect();
    assert_eq!(session.on_message(plate("UN1X", 1)), Action::Nothing);
    assert_eq!(session.on_message(camera()), Action::Nothing);
    assert_eq!(
        session.on_message(ClientToServerMessage::WantHeartbeat { interval: 5 }),
        Action::Nothing
    );
    assert_eq!(session.on_frame_error(CodecError::Truncated), Action::Nothing);
    assert_eq!(session.on_heartbeat_due(), Action::Nothing);
    assert_eq!(session.on_disconnect(), Action::Nothing);
    assert!(!session.is_open());
}
