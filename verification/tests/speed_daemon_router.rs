use protohackers::speed_daemon::router::{Delivery, Router};
use protohackers::speed_daemon::tickets::Ticket;

fn ticket(plate: &str, road: u16) -> Ticket {
    Ticket {
        plate: plate.to_string(),
        road,
        mile1: 0,
        timestamp1: 0,
        mile2: 100,
        timestamp2: 3600,
        speed: 10000,
    }
}

#[test]
fn a_ticket_for_a_road_without_a_dispatcher_waits() {
    let mut router = Router::new();
    assert_eq!(router.route(ticket("A", 1)), Delivery::Queued);
    assert_eq!(router.pending_for(1), vec![ticket("A", 1)]);
    assert_eq!(router.pending_for(2), vec![]);
    assert_eq!(router.dispatchers_for(1), vec![]);
}

#[test]
fn waiting_tickets_go_to_the_first_dispatcher_in_the_order_they_came() {
    let mut router = Router::new();
    assert_eq!(router.route(ticket("A", 1)), Delivery::Queued);
    assert_eq!(router.route(ticket("B", 2)), Delivery::Queued);
    assert_eq!(router.route(ticket("C", 1)), Delivery::Queued);
    assert_eq!(router.route(ticket("D", 1)), Delivery::Queued);
    let flushed = router.register(1, 7);
    assert_eq!(flushed, vec![ticket("A", 1), ticket("C", 1), ticket("D", 1)]);
    assert_eq!(router.pending_for(1), vec![]);
    assert_eq!(router.pending_for(2), vec![ticket("B", 2)]);
    assert_eq!(router.dispatchers_for(1), vec![7]);
    assert_eq!(router.register(1, 8), vec![]);
}

#[test]
fn a_ticket_for_a_road_with_a_dispatcher_goes_out_at_once() {
    let mut router = Router::new();
    assert_eq!(router.register(1, 7), vec![]);
    assert_eq!(
        router.route(ticket("A", 1)),
        Delivery::Deliver { dispatcher: 7, ticket: ticket("A", 1) }
    );
    assert_eq!(router.pending_for(1), vec![]);
    assert_eq!(router.route(ticket("B", 2)), Delivery::Queued);
}

#[test]
fn the_dispatcher_that_registered_first_is_served_first() {
    let mut router = Router::new();
    router.register(1, 8);
    router.register(1, 7);
    router.register(1, 9);
    assert_eq!(router.dispatchers_for(1), vec![8, 7, 9]);
    assert_eq!(
        router.route(ticket("A", 1)),
        Delivery::Deliver { dispatcher: 8, ticket: ticket("A", 1) }
    );
    router.unregister(8);
    assert_eq!(
        router.route(ticket("B", 1)),
        Delivery::Deliver { dispatcher: 7, ticket: ticket("B", 1) }
    );
}

#[test]
fn registering_twice_is_registering_once() {
    let mut router = Router::new();
    router.register(1, 7);
    router.register(1, 7);
    assert_eq!(router.dispatchers_for(1), vec![7]);
    router.unregister(7);
    assert_eq!(router.dispatchers_for(1), vec![]);
}

#[test]
fn a_dispatcher_that_leaves_is_gone_from_all_its_roads_and_nothing_else_changes() {
    let mut router = Router::new();
    router.route(ticket("W", 3));
    router.register_all(&vec![1, 2], 7);
    router.register_all(&vec![2, 4], 8);
    router.unregister(7);
    assert_eq!(router.dispatchers_for(1), vec![]);
    assert_eq!(router.dispatchers_for(2), vec![8]);
    assert_eq!(router.dispatchers_for(4), vec![8]);
    assert_eq!(router.pending_for(3), vec![ticket("W", 3)]);
    assert_eq!(router.route(ticket("A", 1)), Delivery::Queued);
    assert_eq!(
        router.route(ticket("B", 2)),
        Delivery::Deliver { dispatcher: 8, ticket: ticket("B", 2) }
    );
}

#[test]
fn unregistering_a_stranger_changes_nothing() {
    let mut router = Router::new();
    router.register(1, 7);
    router.route(ticket("W", 2));
    router.unregister(99);
    assert_eq!(router.dispatchers_for(1), vec![7]);
    assert_eq!(router.pending_for(2), vec![ticket("W", 2)]);
}

#[test]
fn registering_for_many_roads_flushes_them_in_the_order_listed() {
    let mut router = Router::new();
    router.route(ticket("A", 1));
    router.route(ticket("B", 2));
    router.route(ticket("C", 3));
    router.route(ticket("D", 2));
    router.route(ticket("E", 1));
    let flushed = router.register_all(&vec![2, 1, 2, 9], 7);
    assert_eq!(
        flushed,
        vec![ticket("B", 2), ticket("D", 2), ticket("A", 1), ticket("E", 1)]
    );
    assert_eq!(router.pending_for(3), vec![ticket("C", 3)]);
    assert_eq!(router.dispatchers_for(2), vec![7]);
    assert_eq!(router.dispatchers_for(9), vec![7]);
    assert_eq!(router.dispatchers_for(3), vec![]);
}

#[test]
fn a_ticket_that_could_not_be_sent_goes_to_the_next_dispatcher() {
    let mut router = Router::new();
    router.register(1, 7);
    router.register(1, 8);
    let sent = router.route(ticket("A", 1));
    assert_eq!(sent, Delivery::Deliver { dispatcher: 7, ticket: ticket("A", 1) });
    assert_eq!(
        router.delivery_failed(7, ticket("A", 1)),
        Delivery::Deliver { dispatcher: 8, ticket: ticket("A", 1) }
    );
    assert_eq!(router.dispatchers_for(1), vec![8]);
}

#[test]
fn a_ticket_that_could_not_be_sent_waits_when_nobody_else_is_there() {
    let mut router = Router::new();
    router.register_all(&vec![1, 2], 7);
    assert_eq!(router.delivery_failed(7, ticket("A", 1)), Delivery::Queued);
    assert_eq!(router.delivery_failed(7, ticket("B", 1)), Delivery::Queued);
    assert_eq!(router.pending_for(1), vec![ticket("A", 1), ticket("B", 1)]);
    assert_eq!(router.dispatchers_for(2), vec![]);
    assert_eq!(router.register(1, 9), vec![ticket("A", 1), ticket("B", 1)]);
}
