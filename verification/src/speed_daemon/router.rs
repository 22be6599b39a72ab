//! Routing tickets to dispatchers.
//!
//! For every road the router knows the dispatchers that are registered for
//! it, longest-registered first, and the tickets that wait for one.  A
//! ticket for a road with a dispatcher goes to the longest-registered
//! dispatcher of that road at once; a ticket for a road without one waits,
//! and the first dispatcher to register for the road gets all that wait, in
//! the order in which they came.  So no ticket ever waits while its road has
//! a dispatcher.
//!
//! Dispatchers are named by a number that the caller assigns to each
//! connection.

use crate::seqs::{distinct, lemma_without, without};
use crate::speed_daemon::tickets::{Ticket, TicketView};
use vstd::prelude::*;

verus! {

/// What became of a ticket that was handed to the router.
#[derive(Debug, PartialEq, Eq)]
pub enum Delivery {
    /// The ticket is to be sent to `dispatcher`.
    Deliver { dispatcher: u64, ticket: Ticket },
    /// No dispatcher is registered for the ticket's road; the ticket waits.
    Queued,
}

/// The mathematical value of a [`Delivery`].
pub enum DeliveryView {
    Deliver { dispatcher: u64, ticket: TicketView },
    Queued,
}

impl View for Delivery {
    type V = DeliveryView;

    open spec fn view(&self) -> DeliveryView {
        match *self {
            Delivery::Deliver { dispatcher, ticket } => DeliveryView::Deliver {
                dispatcher,
                ticket: ticket@,
            },
            Delivery::Queued => DeliveryView::Queued,
        }
    }
}

/// The mathematical values of a run of tickets.
pub open spec fn tickets_view(tickets: Seq<Ticket>) -> Seq<TicketView> {
    tickets.map_values(|ticket: Ticket| ticket@)
}

/// What the router knows of one road.
struct RoadState {
    road: u16,
    dispatchers: Vec<u64>,
    pending: Vec<Ticket>,
}

/// The dispatchers and waiting tickets of every road.
pub struct Router {
    roads: Vec<RoadState>,
}

impl Router {
    /// The invariant of the router: one entry per road, no dispatcher
    /// registered twice for a road, tickets filed under their own road, and
    /// no ticket waiting where a dispatcher is registered.
    pub closed spec fn wf(&self) -> bool {
        &&& forall|i: int, j: int|
            0 <= i < j < self.roads@.len() ==> (#[trigger] self.roads@[i]).road != (
            #[trigger] self.roads@[j]).road
        &&& forall|i: int|
            0 <= i < self.roads@.len() ==> distinct((#[trigger] self.roads@[i]).dispatchers@)
        &&& forall|i: int|
            0 <= i < self.roads@.len() && (#[trigger] self.roads@[i]).dispatchers@.len() > 0
                ==> self.roads@[i].pending@.len() == 0
        &&& forall|i: int, k: int|
            0 <= i < self.roads@.len() && 0 <= k < (#[trigger] self.roads@[i]).pending@.len()
                ==> (#[trigger] self.roads@[i].pending@[k]).road == self.roads@[i].road
    }

    /// Whether the router has an entry for `road`.
    spec fn knows(&self, road: u16) -> bool {
        exists|i: int| 0 <= i < self.roads@.len() && (#[trigger] self.roads@[i]).road == road
    }

    /// The index of the entry for `road`.
    spec fn slot(&self, road: u16) -> int {
        choose|i: int| 0 <= i < self.roads@.len() && (#[trigger] self.roads@[i]).road == road
    }

    /// The dispatchers registered for `road`, longest-registered first.
    pub closed spec fn dispatchers(&self, road: u16) -> Seq<u64> {
        if self.knows(road) {
            self.roads@[self.slot(road)].dispatchers@
        } else {
            Seq::empty()
        }
    }

    /// The tickets that wait for a dispatcher of `road`, oldest first.
    pub closed spec fn pending(&self, road: u16) -> Seq<TicketView> {
        if self.knows(road) {
            tickets_view(self.roads@[self.slot(road)].pending@)
        } else {
            Seq::empty()
        }
    }

    /// The entry at `i` is what the router knows of its road.
    proof fn lemma_slot(&self, i: int)
        requires
            self.wf(),
            0 <= i < self.roads@.len(),
        ensures
            self.dispatchers(self.roads@[i].road) == self.roads@[i].dispatchers@,
            self.pending(self.roads@[i].road) == tickets_view(self.roads@[i].pending@),
    {
        let road = self.roads@[i].road;
        assert(self.knows(road));
        let j = self.slot(road);
        if j < i {
            assert(self.roads@[j].road != self.roads@[i].road);
        } else if i < j {
            assert(self.roads@[i].road != self.roads@[j].road);
        }
    }

    /// No ticket waits while its road has a dispatcher, every ticket that
    /// waits for a road is a ticket for that road, and no dispatcher is
    /// registered twice for a road.
    pub proof fn lemma_pending_only_without_dispatcher(&self, road: u16)
        requires
            self.wf(),
        ensures
            self.dispatchers(road).len() > 0 ==> self.pending(road).len() == 0,
            distinct(self.dispatchers(road)),
            forall|k: int|
                0 <= k < self.pending(road).len() ==> (#[trigger] self.pending(road)[k]).road
                    == road,
    {
        if self.knows(road) {
            let i = self.slot(road);
            assert forall|k: int| 0 <= k < self.pending(road).len() implies (
            #[trigger] self.pending(road)[k]).road == road by {
                assert(self.roads@[i].pending@[k].road == self.roads@[i].road);
            }
        }
    }

    /// A router with no dispatchers and no tickets.
    pub fn new() -> (router: Router)
        ensures
            router.wf(),
            forall|road: u16| #[trigger] router.dispatchers(road) == Seq::<u64>::empty(),
            forall|road: u16| #[trigger] router.pending(road) == Seq::<TicketView>::empty(),
    {
        Router { roads: Vec::new() }
    }

    /// The dispatchers registered for `road`, longest-registered first.
    pub fn dispatchers_for(&self, road: u16) -> (dispatchers: Vec<u64>)
        requires
            self.wf(),
        ensures
            dispatchers@ == self.dispatchers(road),
    {
        match self.find_road(road) {
            Some(i) => {
                proof {
                    self.lemma_slot(i as int);
                }
                self.roads[i].dispatchers.clone()
            },
            None => Vec::new(),
        }
    }

    /// The tickets that wait for a dispatcher of `road`, oldest first.
    pub fn pending_for(&self, road: u16) -> (pending: Vec<Ticket>)
        requires
            self.wf(),
        ensures
            tickets_view(pending@) == self.pending(road),
    {
        let mut pending: Vec<Ticket> = Vec::new();
        match self.find_road(road) {
            Some(i) => {
                proof {
                    self.lemma_slot(i as int);
                }
                let waiting = &self.roads[i].pending;
                let mut k: usize = 0;
                while k < waiting.len()
                    invariant
                        k <= waiting@.len(),
                        pending@.len() == k,
                        forall|j: int| 0 <= j < k ==> (#[trigger] pending@[j])@ == waiting@[j]@,
                    decreases waiting@.len() - k,
                {
                    pending.push(waiting[k].duplicate());
                    k += 1;
                }
                proof {
                    assert(tickets_view(pending@) =~= tickets_view(waiting@));
                }
            },
            None => {
                proof {
                    assert(tickets_view(pending@) =~= Seq::<TicketView>::empty());
                }
            },
        }
        pending
    }

    /// The index of the entry for `road`, if there is one.
    fn find_road(&self, road: u16) -> (found: Option<usize>)
        ensures
            match found {
                Some(i) => i < self.roads@.len() && self.roads@[i as int].road == road,
                None => !self.knows(road),
            },
    {
        let mut i: usize = 0;
        while i < self.roads.len()
            invariant
                i <= self.roads@.len(),
                forall|k: int| 0 <= k < i ==> (#[trigger] self.roads@[k]).road != road,
            decreases self.roads@.len() - i,
        {
            if self.roads[i].road == road {
                return Some(i);
            }
            i += 1;
        }
        None
    }

    /// Whether `after` knows of every road but `road` what `self` knows.
    pub open spec fn same_elsewhere(&self, after: &Router, road: u16) -> bool {
        &&& forall|other: u16|
            other != road ==> #[trigger] after.dispatchers(other) == self.dispatchers(other)
        &&& forall|other: u16|
            other != road ==> #[trigger] after.pending(other) == self.pending(other)
    }

    /// Where a ticket that is routed now goes: to the longest-registered
    /// dispatcher of its road, or into the road's queue.
    pub open spec fn delivery_of(&self, ticket: TicketView) -> DeliveryView {
        if self.dispatchers(ticket.road).len() > 0 {
            DeliveryView::Deliver { dispatcher: self.dispatchers(ticket.road)[0], ticket }
        } else {
            DeliveryView::Queued
        }
    }

    /// What [`route`](Self::route) does: `self` is the router before the
    /// call, `after` the router after it.
    ///
    /// Where the ticket's road has a dispatcher, the ticket goes to the
    /// longest-registered one and the router stays as it is.  Where it has
    /// none, the ticket joins the end of the road's queue.
    pub open spec fn routed(&self, after: &Router, ticket: TicketView, delivery: DeliveryView) -> bool {
        let road = ticket.road;
        &&& self.same_elsewhere(after, road)
        &&& after.dispatchers(road) == self.dispatchers(road)
        &&& delivery == self.delivery_of(ticket)
        &&& after.pending(road) == if self.dispatchers(road).len() > 0 {
            self.pending(road)
        } else {
            self.pending(road).push(ticket)
        }
    }

    /// What [`register`](Self::register) does: `self` is the router before
    /// the call, `after` the router after it.
    ///
    /// The dispatcher joins the road's dispatchers, unless it is one of them
    /// already, and is handed every ticket that waits for the road, oldest
    /// first; none waits afterwards.
    pub open spec fn registered(
        &self,
        after: &Router,
        road: u16,
        dispatcher: u64,
        flushed: Seq<TicketView>,
    ) -> bool {
        &&& self.same_elsewhere(after, road)
        &&& after.dispatchers(road) == if self.dispatchers(road).contains(dispatcher) {
            self.dispatchers(road)
        } else {
            self.dispatchers(road).push(dispatcher)
        }
        &&& flushed == self.pending(road)
        &&& after.pending(road) == Seq::<TicketView>::empty()
    }

    /// What [`unregister`](Self::unregister) does: `self` is the router
    /// before the call, `after` the router after it.
    ///
    /// The dispatcher leaves every road; the other dispatchers stay, in
    /// their order, and so does every waiting ticket.
    pub open spec fn unregistered(&self, after: &Router, dispatcher: u64) -> bool {
        &&& forall|road: u16| #[trigger]
            after.dispatchers(road) == without(self.dispatchers(road), dispatcher)
        &&& forall|road: u16| #[trigger] after.pending(road) == self.pending(road)
    }

    /// A road whose entry is the same before and after is known the same.
    proof fn lemma_unchanged(&self, after: &Router, road: u16)
        requires
            self.wf(),
            after.wf(),
            self.roads@.len() <= after.roads@.len(),
            forall|j: int|
                0 <= j < self.roads@.len() ==> (#[trigger] after.roads@[j]).road
                    == self.roads@[j].road,
            forall|j: int|
                0 <= j < self.roads@.len() && (#[trigger] self.roads@[j]).road == road ==> {
                    &&& after.roads@[j].dispatchers@ == self.roads@[j].dispatchers@
                    &&& after.roads@[j].pending@ == self.roads@[j].pending@
                },
            forall|j: int|
                self.roads@.len() <= j < after.roads@.len() ==> (#[trigger] after.roads@[j]).road
                    != road,
        ensures
            after.dispatchers(road) == self.dispatchers(road),
            after.pending(road) == self.pending(road),
    {
        if self.knows(road) {
            let j = self.slot(road);
            self.lemma_slot(j);
            assert(after.roads@[j].road == road);
            after.lemma_slot(j);
        } else {
            assert forall|j: int| 0 <= j < after.roads@.len() implies (
            #[trigger] after.roads@[j]).road != road by {
                if j < self.roads@.len() {
                    assert(self.roads@[j].road != road);
                }
            }
        }
    }

    /// Hands a ticket to the router, which names the dispatcher to send it
    /// to or keeps it until one registers for the ticket's road.
    #[verifier::rlimit(50)]
    pub fn route(&mut self, ticket: Ticket) -> (delivery: Delivery)
        requires
            old(self).wf(),
        ensures
            final(self).wf(),
            old(self).routed(final(self), ticket@, delivery@),
    {
        let road: u16 = ticket.road;
        match self.find_road(road) {
            Some(i) => {
                proof {
                    self.lemma_slot(i as int);
                }
                if self.roads[i].dispatchers.len() > 0 {
                    let dispatcher: u64 = self.roads[i].dispatchers[0];
                    Delivery::Deliver { dispatcher, ticket }
                } else {
                    self.roads[i].pending.push(ticket);
                    proof {
                        assert(self.wf());
                        self.lemma_slot(i as int);
                        assert(self.pending(road) =~= old(self).pending(road).push(ticket@));
                        assert forall|other: u16| other != road implies #[trigger] self.dispatchers(other)
                            == old(self).dispatchers(other) by {
                            old(self).lemma_unchanged(self, other);
                        }
                        assert forall|other: u16| other != road implies #[trigger] self.pending(other)
                            == old(self).pending(other) by {
                            old(self).lemma_unchanged(self, other);
                        }
                    }
                    Delivery::Queued
                }
            },
            None => {
                let mut pending: Vec<Ticket> = Vec::new();
                pending.push(ticket);
                self.roads.push(RoadState { road, dispatchers: Vec::new(), pending });
                proof {
                    assert(self.wf());
                    self.lemma_slot(self.roads@.len() - 1);
                    assert(self.pending(road) =~= old(self).pending(road).push(ticket@));
                    assert forall|other: u16| other != road implies #[trigger] self.dispatchers(other)
                            == old(self).dispatchers(other) by {
                            old(self).lemma_unchanged(self, other);
                        }
                        assert forall|other: u16| other != road implies #[trigger] self.pending(other)
                            == old(self).pending(other) by {
                            old(self).lemma_unchanged(self, other);
                        }
                }
                Delivery::Queued
            },
        }
    }

    /// Registers `dispatcher` for `road` and returns the tickets that
    /// waited for the road, oldest first, for the caller to send to it.
    #[verifier::rlimit(50)]
    pub fn register(&mut self, road: u16, dispatcher: u64) -> (flushed: Vec<Ticket>)
        requires
            old(self).wf(),
        ensures
            final(self).wf(),
            old(self).registered(final(self), road, dispatcher, tickets_view(flushed@)),
    {
        let mut flushed: Vec<Ticket> = Vec::new();
        match self.find_road(road) {
            Some(i) => {
                proof {
                    self.lemma_slot(i as int);
                }
                if !has_dispatcher(&self.roads[i].dispatchers, dispatcher) {
                    self.roads[i].dispatchers.push(dispatcher);
                }
                core::mem::swap(&mut self.roads[i].pending, &mut flushed);
                proof {
                    assert(self.wf());
                    self.lemma_slot(i as int);
                    assert(self.pending(road) =~= Seq::<TicketView>::empty());
                    assert forall|other: u16| other != road implies #[trigger] self.dispatchers(other)
                            == old(self).dispatchers(other) by {
                            old(self).lemma_unchanged(self, other);
                        }
                        assert forall|other: u16| other != road implies #[trigger] self.pending(other)
                            == old(self).pending(other) by {
                            old(self).lemma_unchanged(self, other);
                        }
                }
            },
            None => {
                let mut dispatchers: Vec<u64> = Vec::new();
                dispatchers.push(dispatcher);
                self.roads.push(RoadState { road, dispatchers, pending: Vec::new() });
                proof {
                    assert(self.wf());
                    self.lemma_slot(self.roads@.len() - 1);
                    assert(self.dispatchers(road) =~= old(self).dispatchers(road).push(dispatcher));
                    assert(self.pending(road) =~= Seq::<TicketView>::empty());
                    assert(tickets_view(flushed@) =~= old(self).pending(road));
                    assert forall|other: u16| other != road implies #[trigger] self.dispatchers(other)
                            == old(self).dispatchers(other) by {
                            old(self).lemma_unchanged(self, other);
                        }
                        assert forall|other: u16| other != road implies #[trigger] self.pending(other)
                            == old(self).pending(other) by {
                            old(self).lemma_unchanged(self, other);
                        }
                }
            },
        }
        flushed
    }

    /// The tickets that a dispatcher is handed when it registers for
    /// `roads`, one road after the other: those that wait for each road, in
    /// the order of the roads' first mention.
    pub open spec fn waiting_for(&self, roads: Seq<u16>) -> Seq<TicketView>
        decreases roads.len(),
    {
        if roads.len() == 0 {
            Seq::empty()
        } else if roads.drop_last().contains(roads.last()) {
            self.waiting_for(roads.drop_last())
        } else {
            self.waiting_for(roads.drop_last()) + self.pending(roads.last())
        }
    }

    /// What [`register_all`](Self::register_all) does: `self` is the router
    /// before the call, `after` the router after it.
    ///
    /// The dispatcher joins each of `roads`, unless it is registered there
    /// already, and is handed the tickets that wait for them; the roads
    /// that are not listed stay as they are.
    pub open spec fn registered_all(
        &self,
        after: &Router,
        roads: Seq<u16>,
        dispatcher: u64,
        flushed: Seq<TicketView>,
    ) -> bool {
        &&& forall|road: u16| #[trigger]
            after.dispatchers(road) == if roads.contains(road) && !self.dispatchers(road).contains(
                dispatcher,
            ) {
                self.dispatchers(road).push(dispatcher)
            } else {
                self.dispatchers(road)
            }
        &&& forall|road: u16| #[trigger]
            after.pending(road) == if roads.contains(road) {
                Seq::<TicketView>::empty()
            } else {
                self.pending(road)
            }
        &&& flushed == self.waiting_for(roads)
    }

    /// What [`delivery_failed`](Self::delivery_failed) does: `self` is the
    /// router before the call, `after` the router after it.
    ///
    /// The dispatcher that could not be reached leaves every road, and the
    /// ticket is routed again: to the longest-registered of the dispatchers
    /// that are left for its road, or to the end of the road's queue.
    pub open spec fn rerouted(
        &self,
        after: &Router,
        dispatcher: u64,
        ticket: TicketView,
        delivery: DeliveryView,
    ) -> bool {
        let road = ticket.road;
        let left = without(self.dispatchers(road), dispatcher);
        &&& forall|any: u16| #[trigger]
            after.dispatchers(any) == without(self.dispatchers(any), dispatcher)
        &&& forall|other: u16| other != road ==> #[trigger] after.pending(other) == self.pending(other)
        &&& if left.len() > 0 {
            &&& delivery == DeliveryView::Deliver { dispatcher: left[0], ticket }
            &&& after.pending(road) == self.pending(road)
        } else {
            &&& delivery == DeliveryView::Queued
            &&& after.pending(road) == self.pending(road).push(ticket)
        }
    }

    /// Registers `dispatcher` for each of `roads`, in their order, and
    /// returns the tickets that waited for them, for the caller to send to
    /// it.
    #[verifier::rlimit(50)]
    pub fn register_all(&mut self, roads: &Vec<u16>, dispatcher: u64) -> (flushed: Vec<Ticket>)
        requires
            old(self).wf(),
        ensures
            final(self).wf(),
            old(self).registered_all(final(self), roads@, dispatcher, tickets_view(flushed@)),
    {
        let ghost before = *self;
        let mut flushed: Vec<Ticket> = Vec::new();
        let mut i: usize = 0;
        proof {
            assert(roads@.take(0).len() == 0);
            assert(tickets_view(flushed@) =~= before.waiting_for(roads@.take(0)));
        }
        while i < roads.len()
            invariant
                i <= roads@.len(),
                self.wf(),
                before.wf(),
                before.registered_all(
                    self,
                    roads@.take(i as int),
                    dispatcher,
                    tickets_view(flushed@),
                ),
            decreases roads@.len() - i,
        {
            let road: u16 = roads[i];
            let ghost mid = *self;
            let ghost sent = flushed@;
            let mut more = self.register(road, dispatcher);
            let ghost added = more@;
            flushed.append(&mut more);
            proof {
                let done = roads@.take(i as int);
                let next = roads@.take(i + 1);
                assert(next.drop_last() =~= done);
                assert(next.last() == road);
                assert forall|r: u16| next.contains(r) <==> done.contains(r) || r == road by {
                    if done.contains(r) {
                        let k = choose|k: int| 0 <= k < done.len() && done[k] == r;
                        assert(next[k] == r);
                    }
                    if r == road {
                        assert(next[i as int] == r);
                    }
                    if next.contains(r) {
                        let k = choose|k: int| 0 <= k < next.len() && next[k] == r;
                        if k < i {
                            assert(done[k] == r);
                        }
                    }
                }
                assert(tickets_view(flushed@) =~= tickets_view(sent) + tickets_view(added));
                mid.lemma_pending_only_without_dispatcher(road);
                assert(before.waiting_for(next) =~= tickets_view(flushed@));
                assert forall|r: u16| #[trigger]
                    self.dispatchers(r) == if next.contains(r) && !before.dispatchers(r).contains(
                        dispatcher,
                    ) {
                        before.dispatchers(r).push(dispatcher)
                    } else {
                        before.dispatchers(r)
                    } by {
                    if r == road {
                        if done.contains(r) && !before.dispatchers(r).contains(dispatcher) {
                            let grown = before.dispatchers(r).push(dispatcher);
                            assert(grown[grown.len() - 1] == dispatcher);
                        }
                    } else {
                        assert(self.dispatchers(r) == mid.dispatchers(r));
                    }
                }
                assert forall|r: u16| #[trigger]
                    self.pending(r) == if next.contains(r) {
                        Seq::<TicketView>::empty()
                    } else {
                        before.pending(r)
                    } by {
                    if r != road {
                        assert(self.pending(r) == mid.pending(r));
                    }
                }
            }
            i += 1;
        }
        proof {
            assert(roads@.take(i as int) =~= roads@);
        }
        flushed
    }

    /// Removes `dispatcher` from every road.  The tickets that wait stay
    /// where they are.
    #[verifier::rlimit(50)]
    pub fn unregister(&mut self, dispatcher: u64)
        requires
            old(self).wf(),
        ensures
            final(self).wf(),
            old(self).unregistered(final(self), dispatcher),
    {
        let ghost before = *self;
        let mut i: usize = 0;
        while i < self.roads.len()
            invariant
                i <= self.roads@.len(),
                self.roads@.len() == before.roads@.len(),
                self.wf(),
                before.wf(),
                forall|j: int|
                    0 <= j < self.roads@.len() ==> (#[trigger] self.roads@[j]).road
                        == before.roads@[j].road && self.roads@[j].pending@
                        == before.roads@[j].pending@,
                forall|j: int|
                    0 <= j < i ==> (#[trigger] self.roads@[j]).dispatchers@ == without(
                        before.roads@[j].dispatchers@,
                        dispatcher,
                    ),
                forall|j: int|
                    i <= j < self.roads@.len() ==> (#[trigger] self.roads@[j]).dispatchers@
                        == before.roads@[j].dispatchers@,
            decreases self.roads@.len() - i,
        {
            let kept = remove_dispatcher(&self.roads[i].dispatchers, dispatcher);
            proof {
                lemma_without(self.roads@[i as int].dispatchers@, dispatcher);
            }
            self.roads[i].dispatchers = kept;
            i += 1;
        }
        proof {
            assert forall|road: u16| #[trigger]
                self.dispatchers(road) == without(before.dispatchers(road), dispatcher) by {
                before.lemma_left_behind(self, road, dispatcher);
            }
            assert forall|road: u16| #[trigger] self.pending(road) == before.pending(road) by {
                before.lemma_left_behind(self, road, dispatcher);
            }
        }
    }

    /// What a road looks like once `dispatcher` has been taken out of every
    /// entry.
    proof fn lemma_left_behind(&self, after: &Router, road: u16, dispatcher: u64)
        requires
            self.wf(),
            after.wf(),
            self.roads@.len() == after.roads@.len(),
            forall|j: int|
                0 <= j < self.roads@.len() ==> {
                    &&& (#[trigger] after.roads@[j]).road == self.roads@[j].road
                    &&& after.roads@[j].pending@ == self.roads@[j].pending@
                    &&& after.roads@[j].dispatchers@ == without(
                        self.roads@[j].dispatchers@,
                        dispatcher,
                    )
                },
        ensures
            after.dispatchers(road) == without(self.dispatchers(road), dispatcher),
            after.pending(road) == self.pending(road),
    {
        if self.knows(road) {
            let j = self.slot(road);
            self.lemma_slot(j);
            assert(after.roads@[j].road == road);
            after.lemma_slot(j);
        } else {
            assert forall|j: int| 0 <= j < after.roads@.len() implies (
            #[trigger] after.roads@[j]).road != road by {
                assert(self.roads@[j].road != road);
            }
        }
    }

    /// Takes back a ticket that could not be sent to `dispatcher`, drops
    /// that dispatcher from every road, and routes the ticket again.
    pub fn delivery_failed(&mut self, dispatcher: u64, ticket: Ticket) -> (delivery: Delivery)
        requires
            old(self).wf(),
        ensures
            final(self).wf(),
            old(self).rerouted(final(self), dispatcher, ticket@, delivery@),
    {
        self.unregister(dispatcher);
        self.route(ticket)
    }
}

/// Whether `dispatcher` is among `dispatchers`.
fn has_dispatcher(dispatchers: &Vec<u64>, dispatcher: u64) -> (found: bool)
    ensures
        found == dispatchers@.contains(dispatcher),
{
    let mut i: usize = 0;
    while i < dispatchers.len()
        invariant
            i <= dispatchers@.len(),
            forall|k: int| 0 <= k < i ==> dispatchers@[k] != dispatcher,
        decreases dispatchers@.len() - i,
    {
        if dispatchers[i] == dispatcher {
            return true;
        }
        i += 1;
    }
    false
}

/// The dispatchers that are left when `dispatcher` leaves.
fn remove_dispatcher(dispatchers: &Vec<u64>, dispatcher: u64) -> (kept: Vec<u64>)
    ensures
        kept@ == without(dispatchers@, dispatcher),
{
    let mut kept: Vec<u64> = Vec::new();
    let mut i: usize = 0;
    while i < dispatchers.len()
        invariant
            i <= dispatchers@.len(),
            kept@ == without(dispatchers@.take(i as int), dispatcher),
        decreases dispatchers@.len() - i,
    {
        proof {
            assert(dispatchers@.take(i + 1).drop_last() =~= dispatchers@.take(i as int));
        }
        if dispatchers[i] != dispatcher {
            kept.push(dispatchers[i]);
        }
        i += 1;
    }
    proof {
        assert(dispatchers@.take(i as int) =~= dispatchers@);
    }
    kept
}

/// A dispatcher that disconnects is gone from every road, and nothing else
/// changes: every other dispatcher is registered where it was, and every
/// queue holds what it held.
pub proof fn lemma_unregister_spares_the_others(
    before: Router,
    after: Router,
    dispatcher: u64,
    road: u16,
    other: u64,
)
    requires
        before.unregistered(&after, dispatcher),
    ensures
        !after.dispatchers(road).contains(dispatcher),
        other != dispatcher ==> (after.dispatchers(road).contains(other)
            <==> before.dispatchers(road).contains(other)),
        after.pending(road) == before.pending(road),
{
    lemma_without(before.dispatchers(road), dispatcher);
}

/// Tickets that are routed while their road has no dispatcher wait, and the
/// first dispatcher that registers for the road is handed all of them in the
/// order in which they were routed.
///
/// `states` are the routers before, between and after the calls of `route`
/// that took `tickets`, one by one, and returned `deliveries`.
pub proof fn lemma_queued_tickets_are_flushed_in_order(
    states: Seq<Router>,
    tickets: Seq<TicketView>,
    deliveries: Seq<DeliveryView>,
    road: u16,
    after: Router,
    dispatcher: u64,
    flushed: Seq<TicketView>,
)
    requires
        states.len() == tickets.len() + 1,
        deliveries.len() == tickets.len(),
        states[0].dispatchers(road).len() == 0,
        forall|i: int|
            0 <= i < tickets.len() ==> (#[trigger] tickets[i]).road == road && states[i].routed(
                &states[i + 1],
                tickets[i],
                deliveries[i],
            ),
        states.last().registered(&after, road, dispatcher, flushed),
    ensures
        forall|i: int| 0 <= i < tickets.len() ==> #[trigger] deliveries[i] == DeliveryView::Queued,
        flushed == states[0].pending(road) + tickets,
        after.pending(road) == Seq::<TicketView>::empty(),
        after.dispatchers(road) == seq![dispatcher],
{
    lemma_queue_grows(states, tickets, deliveries, road, tickets.len() as int);
    assert(tickets.take(tickets.len() as int) =~= tickets);
    assert(states.last() == states[tickets.len() as int]);
    assert(after.dispatchers(road) =~= seq![dispatcher]);
}

/// The queue of a road without a dispatcher after `k` tickets for it have
/// been routed.
proof fn lemma_queue_grows(
    states: Seq<Router>,
    tickets: Seq<TicketView>,
    deliveries: Seq<DeliveryView>,
    road: u16,
    k: int,
)
    requires
        states.len() == tickets.len() + 1,
        deliveries.len() == tickets.len(),
        states[0].dispatchers(road).len() == 0,
        forall|i: int|
            0 <= i < tickets.len() ==> (#[trigger] tickets[i]).road == road && states[i].routed(
                &states[i + 1],
                tickets[i],
                deliveries[i],
            ),
        0 <= k <= tickets.len(),
    ensures
        states[k].dispatchers(road).len() == 0,
        states[k].pending(road) == states[0].pending(road) + tickets.take(k),
        forall|i: int| 0 <= i < k ==> #[trigger] deliveries[i] == DeliveryView::Queued,
    decreases k,
{
    if k == 0 {
        assert(states[0].pending(road) + tickets.take(0) =~= states[0].pending(road));
    } else {
        lemma_queue_grows(states, tickets, deliveries, road, k - 1);
        assert(tickets[k - 1].road == road);
        assert(states[k - 1].routed(&states[k - 1 + 1], tickets[k - 1], deliveries[k - 1]));
        assert(tickets.take(k) =~= tickets.take(k - 1).push(tickets[k - 1]));
        assert(states[k].pending(road) =~= states[0].pending(road) + tickets.take(k));
    }
}

/// A dispatcher that registers for one road is handed what waits for that
/// road, and a dispatcher that registers for several is handed what waits
/// for each, one road after the other.
pub proof fn lemma_waiting_for(router: Router, roads: Seq<u16>, road: u16)
    ensures
        router.waiting_for(seq![road]) == router.pending(road),
        !roads.contains(road) ==> router.waiting_for(roads.push(road)) == router.waiting_for(roads)
            + router.pending(road),
        roads.contains(road) ==> router.waiting_for(roads.push(road)) == router.waiting_for(roads),
{
    let one = seq![road];
    assert(one.drop_last() =~= Seq::<u16>::empty());
    assert(router.waiting_for(one.drop_last()) =~= Seq::<TicketView>::empty());
    assert(router.waiting_for(one) =~= router.pending(road));
    assert(roads.push(road).drop_last() =~= roads);
}

/// A ticket whose delivery failed is not lost: it goes to a dispatcher
/// other than the one that failed, or it waits at the end of its road's
/// queue.
pub proof fn lemma_failed_delivery_keeps_the_ticket(
    before: Router,
    after: Router,
    dispatcher: u64,
    ticket: TicketView,
    delivery: DeliveryView,
)
    requires
        before.rerouted(&after, dispatcher, ticket, delivery),
    ensures
        match delivery {
            DeliveryView::Deliver { dispatcher: next, ticket: sent } => {
                &&& sent == ticket
                &&& next != dispatcher
                &&& before.dispatchers(ticket.road).contains(next)
            },
            DeliveryView::Queued => {
                &&& after.pending(ticket.road).len() > 0
                &&& after.pending(ticket.road).last() == ticket
            },
        },
{
    let left = without(before.dispatchers(ticket.road), dispatcher);
    if left.len() > 0 {
        assert(left.contains(left[0]));
        lemma_without(before.dispatchers(ticket.road), dispatcher);
    }
}

} // verus!
