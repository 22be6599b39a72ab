//! The state that all connections share.
//!
//! The ticket engine and the router belong together: a sighting may earn a
//! ticket, and the ticket has to find a dispatcher.  [`State`] owns both, so
//! that one exclusive borrow covers the whole of a decision: marking the
//! days of a ticket and queueing it, or registering a dispatcher and
//! emptying the queues of its roads.  Callers that serve connections
//! concurrently keep one `State` behind one lock.

use crate::speed_daemon::codec::{ServerMessage, ServerToClientMessage};
use crate::speed_daemon::router::{tickets_view, Delivery, DeliveryView, Router};
use crate::speed_daemon::session::{Action, ActionView};
use crate::speed_daemon::tickets::{
    ticket_message, ticket_view, Sighting, SightingView, Ticket, TicketEngine, TicketView,
};
use vstd::prelude::*;

verus! {

/// Something for the caller to do on a connection.
#[derive(Debug, PartialEq, Eq)]
pub enum Effect {
    /// Send `message` on connection `to`.
    Send { to: u64, message: ServerToClientMessage },
    /// Stop serving `connection`: close it and cancel its heartbeat timer.
    Close { connection: u64 },
    /// Start the heartbeat timer of `connection`.
    StartHeartbeat { connection: u64, period_millis: u64 },
}

/// The mathematical value of an [`Effect`].
pub enum EffectView {
    Send { to: u64, message: ServerMessage },
    Close { connection: u64 },
    StartHeartbeat { connection: u64, period_millis: u64 },
}

impl View for Effect {
    type V = EffectView;

    open spec fn view(&self) -> EffectView {
        match *self {
            Effect::Send { to, message } => EffectView::Send { to, message: message@ },
            Effect::Close { connection } => EffectView::Close { connection },
            Effect::StartHeartbeat { connection, period_millis } => EffectView::StartHeartbeat {
                connection,
                period_millis,
            },
        }
    }
}

/// The mathematical values of a run of effects.
pub open spec fn effects_view(effects: Seq<Effect>) -> Seq<EffectView> {
    effects.map_values(|effect: Effect| effect@)
}

/// The effects that send each of `tickets`, in their order, on connection
/// `to`.
pub open spec fn send_tickets(to: u64, tickets: Seq<TicketView>) -> Seq<EffectView> {
    tickets.map_values(|ticket: TicketView| EffectView::Send { to, message: ticket_message(ticket) })
}

/// The effects that carry out a delivery.
pub open spec fn deliver(delivery: DeliveryView) -> Seq<EffectView> {
    match delivery {
        DeliveryView::Deliver { dispatcher, ticket } => seq![
            EffectView::Send { to: dispatcher, message: ticket_message(ticket) },
        ],
        DeliveryView::Queued => Seq::empty(),
    }
}

/// The sightings, the ticketed days, the dispatchers and the waiting
/// tickets of a server.
pub struct State {
    /// The observation store and the record of ticketed days.
    pub engine: TicketEngine,
    /// The dispatchers and waiting tickets of every road.
    pub router: Router,
}

impl State {
    /// The invariant of the state: that of its parts.
    pub open spec fn wf(&self) -> bool {
        self.engine.wf() && self.router.wf()
    }

    /// A state that has seen nothing and knows no dispatcher.
    pub fn new() -> (state: State)
        ensures
            state.wf(),
            state.engine.ticketed() == Seq::<crate::speed_daemon::tickets::SpanView>::empty(),
            forall|plate: Seq<char>, road: u16| #[trigger]
                state.engine.history(plate, road) == Seq::<
                    crate::speed_daemon::tickets::Observation,
                >::empty(),
            forall|road: u16| #[trigger] state.router.dispatchers(road) == Seq::<u64>::empty(),
            forall|road: u16| #[trigger] state.router.pending(road) == Seq::<TicketView>::empty(),
    {
        State { engine: TicketEngine::new(), router: Router::new() }
    }

    /// What [`plate_seen`](Self::plate_seen) does: the engine records the
    /// sighting, and the ticket that the sighting earns, if any, is routed.
    pub open spec fn seen(
        &self,
        after: &State,
        sighting: SightingView,
        delivery: Option<DeliveryView>,
    ) -> bool {
        let ticket = self.engine.earns(sighting);
        &&& self.engine.observed(&after.engine, sighting, ticket)
        &&& match ticket {
            Some(ticket) => delivery is Some && self.router.routed(
                &after.router,
                ticket,
                delivery->Some_0,
            ),
            None => delivery is None && after.router == self.router,
        }
    }

    /// Records a sighting.  If it earns a ticket, the ticket is routed and
    /// the result says where to.
    pub fn plate_seen(&mut self, sighting: Sighting) -> (delivery: Option<Delivery>)
        requires
            old(self).wf(),
        ensures
            final(self).wf(),
            old(self).seen(
                final(self),
                sighting@,
                match delivery {
                    Some(d) => Some(d@),
                    None => None,
                },
            ),
    {
        match self.engine.observe(sighting) {
            Some(ticket) => Some(self.router.route(ticket)),
            None => None,
        }
    }

    /// What [`perform`](Self::perform) does for each action of the session
    /// of `connection`: `self` is the state before the call, `after` the
    /// state after it, `effects` what is left for the caller to do.
    pub open spec fn performed(
        &self,
        after: &State,
        connection: u64,
        action: ActionView,
        effects: Seq<EffectView>,
    ) -> bool {
        match action {
            ActionView::Nothing => *after == *self && effects == Seq::<EffectView>::empty(),
            ActionView::Observe { sighting } => {
                let ticket = self.engine.earns(sighting);
                &&& self.engine.observed(&after.engine, sighting, ticket)
                &&& match ticket {
                    Some(ticket) => {
                        &&& self.router.routed(
                            &after.router,
                            ticket,
                            self.router.delivery_of(ticket),
                        )
                        &&& effects == deliver(self.router.delivery_of(ticket))
                    },
                    None => after.router == self.router && effects == Seq::<EffectView>::empty(),
                }
            },
            ActionView::Register { roads } => {
                &&& after.engine == self.engine
                &&& self.router.registered_all(
                    &after.router,
                    roads,
                    connection,
                    self.router.waiting_for(roads),
                )
                &&& effects == send_tickets(connection, self.router.waiting_for(roads))
            },
            ActionView::StartHeartbeat { period_millis } => {
                &&& *after == *self
                &&& effects == seq![EffectView::StartHeartbeat { connection, period_millis }]
            },
            ActionView::SendHeartbeat => {
                &&& *after == *self
                &&& effects == seq![
                    EffectView::Send { to: connection, message: ServerMessage::Heartbeat },
                ]
            },
            ActionView::Reject { message, unregister } => {
                &&& after.engine == self.engine
                &&& if unregister {
                    self.router.unregistered(&after.router, connection)
                } else {
                    after.router == self.router
                }
                &&& effects == seq![
                    EffectView::Send { to: connection, message: ServerMessage::Error(message) },
                    EffectView::Close { connection },
                ]
            },
            ActionView::Release { unregister } => {
                &&& after.engine == self.engine
                &&& if unregister {
                    self.router.unregistered(&after.router, connection)
                } else {
                    after.router == self.router
                }
                &&& effects == seq![EffectView::Close { connection }]
            },
        }
    }

    /// Carries out, on the shared state, what the session of `connection`
    /// decided, and returns what is left to do on the connections.
    #[verifier::rlimit(50)]
    pub fn perform(&mut self, connection: u64, action: Action) -> (effects: Vec<Effect>)
        requires
            old(self).wf(),
        ensures
            final(self).wf(),
            old(self).performed(final(self), connection, action@, effects_view(effects@)),
    {
        let mut effects: Vec<Effect> = Vec::new();
        match action {
            Action::Nothing => {
                proof {
                    assert(effects_view(effects@) =~= Seq::<EffectView>::empty());
                }
            },
            Action::Observe { sighting } => {
                match self.engine.observe(sighting) {
                    Some(ticket) => {
                        match self.router.route(ticket) {
                            Delivery::Deliver { dispatcher, ticket } => {
                                effects.push(
                                    Effect::Send { to: dispatcher, message: ticket.to_message() },
                                );
                            },
                            Delivery::Queued => {},
                        }
                    },
                    None => {},
                }
                proof {
                    let earned = old(self).engine.earns(sighting@);
                    if earned is Some {
                        assert(effects_view(effects@) =~= deliver(
                            old(self).router.delivery_of(earned->Some_0),
                        ));
                    } else {
                        assert(effects_view(effects@) =~= Seq::<EffectView>::empty());
                    }
                }
            },
            Action::Register { roads } => {
                let flushed = self.router.register_all(&roads, connection);
                let mut i: usize = 0;
                while i < flushed.len()
                    invariant
                        i <= flushed@.len(),
                        effects@.len() == i,
                        effects_view(effects@) == send_tickets(
                            connection,
                            tickets_view(flushed@).take(i as int),
                        ),
                    decreases flushed@.len() - i,
                {
                    let ghost sent = effects@;
                    effects.push(Effect::Send { to: connection, message: flushed[i].to_message() });
                    proof {
                        let wanted = send_tickets(connection, tickets_view(flushed@).take(i + 1));
                        assert forall|k: int| 0 <= k < i + 1 implies effects_view(effects@)[k]
                            == wanted[k] by {
                            if k < i {
                                assert(effects_view(sent)[k] == send_tickets(
                                    connection,
                                    tickets_view(flushed@).take(i as int),
                                )[k]);
                            }
                        }
                        assert(effects_view(effects@) =~= wanted);
                    }
                    i += 1;
                }
                proof {
                    assert(tickets_view(flushed@).take(i as int) =~= tickets_view(flushed@));
                }
            },
            Action::StartHeartbeat { period_millis } => {
                effects.push(Effect::StartHeartbeat { connection, period_millis });
                proof {
                    assert(effects_view(effects@) =~= seq![
                        EffectView::StartHeartbeat { connection, period_millis },
                    ]);
                }
            },
            Action::SendHeartbeat => {
                effects.push(Effect::Send { to: connection, message: ServerToClientMessage::Heartbeat });
                proof {
                    assert(effects_view(effects@) =~= seq![
                        EffectView::Send { to: connection, message: ServerMessage::Heartbeat },
                    ]);
                }
            },
            Action::Reject { message, unregister } => {
                if unregister {
                    self.router.unregister(connection);
                }
                let ghost text = message@;
                effects.push(
                    Effect::Send { to: connection, message: ServerToClientMessage::Error(message) },
                );
                effects.push(Effect::Close { connection });
                proof {
                    assert(effects_view(effects@) =~= seq![
                        EffectView::Send { to: connection, message: ServerMessage::Error(text) },
                        EffectView::Close { connection },
                    ]);
                }
            },
            Action::Release { unregister } => {
                if unregister {
                    self.router.unregister(connection);
                }
                effects.push(Effect::Close { connection });
                proof {
                    assert(effects_view(effects@) =~= seq![EffectView::Close { connection }]);
                }
            },
        }
        effects
    }

    /// Takes back a ticket that could not be sent to `dispatcher`: the
    /// dispatcher leaves the router and the ticket is routed again.
    pub fn send_failed(&mut self, dispatcher: u64, ticket: Ticket) -> (delivery: Delivery)
        requires
            old(self).wf(),
        ensures
            final(self).wf(),
            final(self).engine == old(self).engine,
            old(self).router.rerouted(&final(self).router, dispatcher, ticket@, delivery@),
    {
        self.router.delivery_failed(dispatcher, ticket)
    }
}

} // verus!
