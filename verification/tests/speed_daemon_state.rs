use protohackers::speed_daemon::codec::{ClientToServerMessage, ServerToClientMessage};
use protohackers::speed_daemon::router::Delivery;
use protohackers::speed_daemon::session::{Action, Session};
use protohackers::speed_daemon::state::{Effect, State};
use protohackers::speed_daemon::tickets::{Sighting, Ticket};

fn sighting(plate: &str, road: u16, mile: u16, timestamp: u32, limit: u16) -> Sighting {
    Sighting { plate: plate.to_string(), road, mile, timestamp, limit }
}

fn ticket_message(plate: &str, road: u16, timestamps: (u32, u32)) -> ServerToClientMessage {
    ServerToClientMessage::Ticket {
        plate: plate.to_string(),
        road,
        mile1: 0,
        timestamp1: timestamps.0,
        mile2: 100,
        timestamp2: timestamps.1,
        speed: 10000,
    }
}

fn speed(state: &mut State, plate: &str, road: u16, at: u32) -> Option<Delivery> {
    assert_eq!(state.plate_seen(sighting(plate, road, 0, at, 60)), None);
    state.plate_seen(sighting(plate, road, 100, at + 3600, 60))
}

#[test]
fn a_ticket_waits_for_the_dispatcher_of_its_road() {
    let mut state = State::new();
    assert_eq!(speed(&mut state, "A", 1, 0), Some(Delivery::Queued));
    assert_eq!(speed(&mut state, "B", 1, 0), Some(Delivery::Queued));
    assert_eq!(speed(&mut state, "C", 2, 0), Some(Delivery::Queued));
    let effects = state.perform(5, Action::Register { roads: vec![1] });
    assert_eq!(
        effects,
        vec![
            Effect::Send { to: 5, message: ticket_message("A", 1, (0, 3600)) },
            Effect::Send { to: 5, message: ticket_message("B", 1, (0, 3600)) },
        ]
    );
    assert_eq!(state.router.pending_for(1), vec![]);
    assert_eq!(state.router.pending_for(2).len(), 1);
}

#[test]
fn a_ticket_goes_straight_to_a_dispatcher_that_is_there() {
    let mut state = State::new();
    assert_eq!(state.perform(5, Action::Register { roads: vec![1, 2] }), vec![]);
    assert_eq!(
        state.perform(9, Action::Observe { sighting: sighting("A", 2, 0, 0, 60) }),
        vec![]
    );
    assert_eq!(
        state.perform(8, Action::Observe { sighting: sighting("A", 2, 100, 3600, 60) }),
        vec![Effect::Send { to: 5, message: ticket_message("A", 2, (0, 3600)) }]
    );
}

#[test]
fn actions_that_concern_one_connection_alone_leave_the_state_alone() {
    let mut state = State::new();
    assert_eq!(state.perform(3, Action::Nothing), vec![]);
    assert_eq!(
        state.perform(3, Action::StartHeartbeat { period_millis: 5000 }),
        vec![Effect::StartHeartbeat { connection: 3, period_millis: 5000 }]
    );
    assert_eq!(
        state.perform(3, Action::SendHeartbeat),
        vec![Effect::Send { to: 3, message: ServerToClientMessage::Heartbeat }]
    );
    assert_eq!(state.engine.tickets_issued(), 0);
}

#[test]
fn a_rejected_client_is_told_and_closed() {
    let mut state = State::new();
    state.perform(3, Action::Register { roads: vec![1] });
    let effects =
        state.perform(3, Action::Reject { message: "already identified".to_string(), unregister: true });
    assert_eq!(
        effects,
        vec![
            Effect::Send {
                to: 3,
                message: ServerToClientMessage::Error("already identified".to_string())
            },
            Effect::Close { connection: 3 },
        ]
    );
    assert_eq!(state.router.dispatchers_for(1), vec![]);
}

#[test]
fn a_released_dispatcher_leaves_the_router() {
    let mut state = State::new();
    state.perform(3, Action::Register { roads: vec![1] });
    state.perform(4, Action::Register { roads: vec![1] });
    assert_eq!(
        state.perform(3, Action::Release { unregister: true }),
        vec![Effect::Close { connection: 3 }]
    );
    assert_eq!(state.router.dispatchers_for(1), vec![4]);
    assert_eq!(
        state.perform(9, Action::Release { unregister: false }),
        vec![Effect::Close { connection: 9 }]
    );
    assert_eq!(state.router.dispatchers_for(1), vec![4]);
}

#[test]
fn a_ticket_that_could_not_be_sent_is_kept() {
    let mut state = State::new();
    state.perform(3, Action::Register { roads: vec![1] });
    let delivery = speed(&mut state, "A", 1, 0);
    let ticket = Ticket {
        plate: "A".to_string(),
        road: 1,
        mile1: 0,
        timestamp1: 0,
        mile2: 100,
        timestamp2: 3600,
        speed: 10000,
    };
    assert_eq!(delivery, Some(Delivery::Deliver { dispatcher: 3, ticket: ticket.duplicate() }));
    assert_eq!(state.send_failed(3, ticket.duplicate()), Delivery::Queued);
    assert_eq!(state.router.pending_for(1), vec![ticket.duplicate()]);
    assert_eq!(
        state.perform(4, Action::Register { roads: vec![1] }),
        vec![Effect::Send { to: 4, message: ticket.to_message() }]
    );
}

#[test]
fn sessions_and_state_play_a_whole_scene() {
    let mut state = State::new();
    let mut camera_one = Session::new();
    let mut camera_two = Session::new();
    let mut dispatcher = Session::new();
    let mut effects = Vec::new();
    let first = camera_one.on_message(ClientToServerMessage::IAmCamera {
        road: 123,
        mile: 8,
        limit: 60,
    });
    effects.extend(state.perform(1, first));
    let seen = camera_one
        .on_message(ClientToServerMessage::Plate { plate: "UN1X".to_string(), timestamp: 0 });
    effects.extend(state.perform(1, seen));
    let second = camera_two.on_message(ClientToServerMessage::IAmCamera {
        road: 123,
        mile: 9,
        limit: 60,
    });
    effects.extend(state.perform(2, second));
    let seen = camera_two
        .on_message(ClientToServerMessage::Plate { plate: "UN1X".to_string(), timestamp: 45 });
    effects.extend(state.perform(2, seen));
    assert_eq!(effects, vec![]);
    let joined = dispatcher.on_message(ClientToServerMessage::IAmDispatcher { roads: vec![123] });
    assert_eq!(
        state.perform(3, joined),
        vec![Effect::Send {
            to: 3,
            message: ServerToClientMessage::Ticket {
                plate: "UN1X".to_string(),
                road: 123,
                mile1: 8,
                timestamp1: 0,
                mile2: 9,
                timestamp2: 45,
                speed: 8000,
            }
        }]
    );
}
