//! Which dispatcher gets the tickets of a road, and the tickets that wait for one.
//!
//! A dispatcher is known by the number of its connection.

use vstd::prelude::*;

use std::collections::HashMap;

use crate::speed_daemon::history::CameraComparison;
use crate::speed_daemon::message::Ticket;
use crate::speed_daemon::message::TicketView;
use crate::speed_daemon::ticketing::check_speed;
use crate::speed_daemon::ticketing::speed;
use crate::speed_daemon::ticketing::ticket;
use crate::speed_daemon::ticketing::SpeedCheck;

verus! {

/// The dispatchers that are connected, and the tickets of the roads that have none.
pub struct DispatcherList {
    dispatcher_list: HashMap<u16, u64>,
    pending_tickets: HashMap<u16, Vec<Ticket>>,
}

/// The mathematical counterpart of [`DispatcherList`].
#[verifier::ext_equal]
pub struct DispatcherListView {
    /// The dispatcher of a road.
    pub dispatchers: Map<u16, u64>,
    /// The tickets of a road, in the order in which they came.
    pub pending: Map<u16, Seq<TicketView>>,
}

/// The views of a sequence of tickets.
pub open spec fn ticket_views(tickets: Seq<Ticket>) -> Seq<TicketView> {
    tickets.map_values(|t: Ticket| t@)
}

impl View for DispatcherList {
    type V = DispatcherListView;

    closed spec fn view(&self) -> DispatcherListView {
        DispatcherListView {
            dispatchers: self.dispatcher_list@,
            pending: self.pending_tickets@.map_values(|v: Vec<Ticket>| ticket_views(v@)),
        }
    }
}

impl DispatcherListView {
    /// The tickets that wait for a dispatcher of this road.
    pub open spec fn waiting(self, road: u16) -> Seq<TicketView> {
        if self.pending.contains_key(road) {
            self.pending[road]
        } else {
            Seq::empty()
        }
    }

    /// Whether no ticket waits for a dispatcher that is connected.
    pub open spec fn wf(self) -> bool {
        forall|road: u16| #[trigger]
            self.pending.contains_key(road) ==> !self.dispatchers.contains_key(road)
    }

    /// The list after a ticket has come.
    pub open spec fn routed(self, ticket: TicketView) -> DispatcherListView {
        if self.dispatchers.contains_key(ticket.road) {
            self
        } else {
            DispatcherListView {
                pending: self.pending.insert(ticket.road, self.waiting(ticket.road).push(ticket)),
                ..self
            }
        }
    }

    /// The list after the dispatcher of a road has gone.
    pub open spec fn disconnected(self, road: u16) -> DispatcherListView {
        DispatcherListView { dispatchers: self.dispatchers.remove(road), ..self }
    }

    /// The list after a dispatcher has said that it is there for a road: the one that was there
    /// before it stays, and no ticket waits any more.
    pub open spec fn registered_road(self, dispatcher: u64, road: u16) -> DispatcherListView {
        DispatcherListView {
            dispatchers: if self.dispatchers.contains_key(road) {
                self.dispatchers
            } else {
                self.dispatchers.insert(road, dispatcher)
            },
            pending: self.pending.remove(road),
        }
    }

    /// The list after a dispatcher has said that it is there for some roads.
    pub open spec fn registered(self, dispatcher: u64, roads: Seq<u16>) -> DispatcherListView
        decreases roads.len(),
    {
        if roads.len() == 0 {
            self
        } else {
            self.registered(dispatcher, roads.drop_last()).registered_road(dispatcher, roads.last())
        }
    }

    /// The tickets that a dispatcher gets when it says that it is there for some roads: those that
    /// waited, road by road.
    pub open spec fn handed_out(self, dispatcher: u64, roads: Seq<u16>) -> Seq<TicketView>
        decreases roads.len(),
    {
        if roads.len() == 0 {
            Seq::empty()
        } else {
            self.handed_out(dispatcher, roads.drop_last()) + self.registered(
                dispatcher,
                roads.drop_last(),
            ).waiting(roads.last())
        }
    }
}

/// What comes of holding two reports of a car against each other.
#[derive(Debug, PartialEq, Eq)]
pub enum Enforcement {
    /// The car kept to the limit.
    Nothing,
    /// The dispatcher with this number gets the ticket.
    Deliver(u64, Ticket),
    /// The ticket waits for a dispatcher.
    Stored,
    /// The car was so fast that its speed cannot be written on a ticket.
    OffTheScale,
}

impl DispatcherList {
    /// There is no dispatcher and no ticket.
    pub fn new() -> (out: DispatcherList)
        ensures
            out@ == (DispatcherListView { dispatchers: Map::empty(), pending: Map::empty() }),
    {
        let out = DispatcherList {
            dispatcher_list: HashMap::new(),
            pending_tickets: HashMap::new(),
        };
        assert(out@.pending =~= Map::<u16, Seq<TicketView>>::empty());
        out
    }

    /// Takes a ticket to the dispatcher of its road, or keeps it until there is one.
    pub fn route(&mut self, ticket: Ticket) -> (out: Option<(u64, Ticket)>)
        ensures
            final(self)@ == old(self)@.routed(ticket@),
            old(self)@.dispatchers.contains_key(ticket.road) ==> out == Some(
                (old(self)@.dispatchers[ticket.road], ticket),
            ),
            !old(self)@.dispatchers.contains_key(ticket.road) ==> out is None,
    {
        match self.dispatcher_list.get(&ticket.road) {
            Some(dispatcher) => Some((*dispatcher, ticket)),
            None => {
                let ghost before = self@;
                let ghost t = ticket@;
                let road: u16 = ticket.road;
                let pending = self.pending_tickets.entry(road).or_insert(Vec::new());
                let ghost waiting = pending@;
                pending.push(ticket);
                proof {
                    assert(ticket_views(waiting) == before.waiting(road));
                    assert(ticket_views(waiting.push(ticket)) == ticket_views(waiting).push(t));
                    assert(self@.pending =~= before.pending.insert(
                        road,
                        before.waiting(road).push(t),
                    ));
                }
                None
            },
        }
    }

    /// Holds two reports of a car against each other, and takes the ticket to where it belongs if
    /// there is one.
    pub fn enforce(&mut self, comparison: CameraComparison) -> (out: Enforcement)
        ensures
            speed(comparison@) <= comparison.limit ==> out is Nothing && final(self)@ == old(
                self,
            )@,
            speed(comparison@) > comparison.limit && speed(comparison@) * 100 > u16::MAX ==> out
                is OffTheScale && final(self)@ == old(self)@,
            speed(comparison@) > comparison.limit && speed(comparison@) * 100 <= u16::MAX ==> {
                &&& final(self)@ == old(self)@.routed(ticket(comparison@))
                &&& match out {
                    Enforcement::Deliver(dispatcher, t) => {
                        &&& old(self)@.dispatchers.contains_key(comparison.road)
                        &&& dispatcher == old(self)@.dispatchers[comparison.road]
                        &&& t@ == ticket(comparison@)
                    },
                    Enforcement::Stored => !old(self)@.dispatchers.contains_key(comparison.road),
                    _ => false,
                }
            },
    {
        match check_speed(comparison) {
            SpeedCheck::Within => Enforcement::Nothing,
            SpeedCheck::OffTheScale => Enforcement::OffTheScale,
            SpeedCheck::TooFast(ticket) => match self.route(ticket) {
                Some((dispatcher, ticket)) => Enforcement::Deliver(dispatcher, ticket),
                None => Enforcement::Stored,
            },
        }
    }

    /// Forgets the dispatcher of a road.
    pub fn disconnect(&mut self, road: u16)
        ensures
            final(self)@ == old(self)@.disconnected(road),
    {
        self.dispatcher_list.remove(&road);
    }

    /// Takes in that a dispatcher is there for some roads, and gives it the tickets that waited.
    pub fn register(&mut self, dispatcher: u64, roads: &[u16]) -> (out: Vec<Ticket>)
        ensures
            final(self)@ == old(self)@.registered(dispatcher, roads@),
            ticket_views(out@) == old(self)@.handed_out(dispatcher, roads@),
            out@.len() == old(self)@.handed_out(dispatcher, roads@).len(),
            forall|i: int|
                0 <= i < out@.len() ==> (#[trigger] out@[i])@ == old(self)@.handed_out(
                    dispatcher,
                    roads@,
                )[i],
    {
        let ghost before = self@;
        let mut out: Vec<Ticket> = Vec::new();
        let mut i: usize = 0;
        assert(roads@.take(0) == Seq::<u16>::empty());
        assert(ticket_views(out@) == Seq::<TicketView>::empty());
        while i < roads.len()
            invariant
                i <= roads.len(),
                self@ == before.registered(dispatcher, roads@.take(i as int)),
                ticket_views(out@) == before.handed_out(dispatcher, roads@.take(i as int)),
            decreases roads.len() - i,
        {
            let road: u16 = roads[i];
            let ghost here = self@;
            proof {
                assert(roads@.take(i + 1).drop_last() == roads@.take(i as int));
                assert(roads@.take(i + 1).last() == road);
            }
            if !self.dispatcher_list.contains_key(&road) {
                self.dispatcher_list.insert(road, dispatcher);
            }
            match self.pending_tickets.remove(&road) {
                Some(tickets) => {
                    let mut tickets = tickets;
                    let ghost given = out@;
                    let ghost waiting = tickets@;
                    assert(ticket_views(waiting) == here.waiting(road));
                    out.append(&mut tickets);
                    assert(ticket_views(given + waiting) == ticket_views(given) + ticket_views(
                        waiting,
                    ));
                },
                None => {
                    assert(here.waiting(road) == Seq::<TicketView>::empty());
                    assert(ticket_views(out@) + Seq::<TicketView>::empty() == ticket_views(out@));
                },
            }
            assert(self@.pending =~= here.pending.remove(road));
            assert(self@ == here.registered_road(dispatcher, road));
            i = i + 1;
        }
        assert(roads@.take(roads@.len() as int) == roads@);
        out
    }
}

/// No ticket ever waits for a dispatcher that is connected: nothing that happens to the list brings
/// that about.
pub proof fn law_no_ticket_waits_in_vain(
    list: DispatcherListView,
    ticket: TicketView,
    road: u16,
    dispatcher: u64,
    roads: Seq<u16>,
)
    requires
        list.wf(),
    ensures
        list.routed(ticket).wf(),
        list.disconnected(road).wf(),
        list.registered(dispatcher, roads).wf(),
    decreases roads.len(),
{
    if roads.len() > 0 {
        law_no_ticket_waits_in_vain(list, ticket, road, dispatcher, roads.drop_last());
    }
}

/// A dispatcher that comes for a road gets every ticket that waited there, and none waits there
/// any more; and each road that it names has a dispatcher.
pub proof fn law_waiting_tickets_are_handed_out(
    list: DispatcherListView,
    dispatcher: u64,
    roads: Seq<u16>,
    road: u16,
)
    requires
        roads.contains(road),
    ensures
        forall|i: int|
            0 <= i < list.waiting(road).len() ==> list.handed_out(dispatcher, roads).contains(
                #[trigger] list.waiting(road)[i],
            ),
        list.registered(dispatcher, roads).waiting(road).len() == 0,
        list.registered(dispatcher, roads).dispatchers.contains_key(road),
    decreases roads.len(),
{
    let shorter = roads.drop_last();
    let given = list.handed_out(dispatcher, shorter);
    let here = list.registered(dispatcher, shorter);
    let all = list.handed_out(dispatcher, roads);
    if shorter.contains(road) {
        law_waiting_tickets_are_handed_out(list, dispatcher, shorter, road);
        assert forall|i: int| 0 <= i < list.waiting(road).len() implies all.contains(
            #[trigger] list.waiting(road)[i],
        ) by {
            let k = given.index_of(list.waiting(road)[i]);
            assert(all[k] == given[k]);
        }
    } else {
        let last = roads.len() - 1;
        assert(roads[last] == road) by {
            let k = roads.index_of(road);
            if k < last {
                assert(shorter[k] == road);
            }
        }
        lemma_other_roads_stay(list, dispatcher, shorter, road);
        assert forall|i: int| 0 <= i < list.waiting(road).len() implies all.contains(
            #[trigger] list.waiting(road)[i],
        ) by {
            assert(all[given.len() + i] == here.waiting(road)[i]);
        }
    }
}

proof fn lemma_other_roads_stay(
    list: DispatcherListView,
    dispatcher: u64,
    roads: Seq<u16>,
    road: u16,
)
    requires
        !roads.contains(road),
    ensures
        list.registered(dispatcher, roads).waiting(road) == list.waiting(road),
    decreases roads.len(),
{
    if roads.len() > 0 {
        assert(!roads.drop_last().contains(road)) by {
            if roads.drop_last().contains(road) {
                let k = roads.drop_last().index_of(road);
                assert(roads[k] == road);
            }
        }
        assert(roads[roads.len() - 1] != road);
        lemma_other_roads_stay(list, dispatcher, roads.drop_last(), road);
    }
}

/// The first dispatcher of a road keeps it: one that comes later takes nothing from it.
pub proof fn law_first_dispatcher_keeps_its_road(
    list: DispatcherListView,
    dispatcher: u64,
    roads: Seq<u16>,
    road: u16,
)
    requires
        list.dispatchers.contains_key(road),
    ensures
        list.registered(dispatcher, roads).dispatchers.contains_key(road),
        list.registered(dispatcher, roads).dispatchers[road] == list.dispatchers[road],
    decreases roads.len(),
{
    if roads.len() > 0 {
        law_first_dispatcher_keeps_its_road(list, dispatcher, roads.drop_last(), road);
    }
}

/// A ticket for a road without a dispatcher waits behind those that wait there already, and nothing
/// else changes; one for a road with a dispatcher changes nothing.
pub proof fn law_tickets_wait_in_line(list: DispatcherListView, ticket: TicketView, road: u16)
    ensures
        list.routed(ticket).dispatchers == list.dispatchers,
        list.dispatchers.contains_key(ticket.road) ==> list.routed(ticket).waiting(road)
            == list.waiting(road),
        !list.dispatchers.contains_key(ticket.road) ==> list.routed(ticket).waiting(ticket.road)
            == list.waiting(ticket.road) + seq![ticket],
        road != ticket.road ==> list.routed(ticket).waiting(road) == list.waiting(road),
{
    assert(list.waiting(ticket.road).push(ticket) == list.waiting(ticket.road) + seq![ticket]);
}

/// A dispatcher that is gone leaves its road, and no other; the tickets that wait stay.
pub proof fn law_who_is_gone_leaves_the_road(list: DispatcherListView, road: u16, other: u16)
    ensures
        !list.disconnected(road).dispatchers.contains_key(road),
        other != road ==> list.disconnected(road).dispatchers.contains_key(other)
            == list.dispatchers.contains_key(other),
        other != road && list.dispatchers.contains_key(other) ==> list.disconnected(
            road,
        ).dispatchers[other] == list.dispatchers[other],
        list.disconnected(road).waiting(other) == list.waiting(other),
{
}

/// A dispatcher takes the roads that it names and that have none, and no other road changes: neither
/// its dispatcher nor the tickets that wait there.
pub proof fn law_free_roads_are_taken(
    list: DispatcherListView,
    dispatcher: u64,
    roads: Seq<u16>,
    road: u16,
)
    ensures
        roads.contains(road) && !list.dispatchers.contains_key(road) ==> list.registered(
            dispatcher,
            roads,
        ).dispatchers.contains_key(road) && list.registered(dispatcher, roads).dispatchers[road]
            == dispatcher,
        list.dispatchers.contains_key(road) ==> list.registered(
            dispatcher,
            roads,
        ).dispatchers.contains_key(road) && list.registered(dispatcher, roads).dispatchers[road]
            == list.dispatchers[road],
        !roads.contains(road) ==> {
            &&& list.registered(dispatcher, roads).dispatchers.contains_key(road)
                == list.dispatchers.contains_key(road)
            &&& list.registered(dispatcher, roads).waiting(road) == list.waiting(road)
        },
        roads.contains(road) ==> list.registered(dispatcher, roads).waiting(road) == Seq::<
            TicketView,
        >::empty(),
    decreases roads.len(),
{
    if roads.len() > 0 {
        let shorter = roads.drop_last();
        law_free_roads_are_taken(list, dispatcher, shorter, road);
        if shorter.contains(road) {
            assert(roads[shorter.index_of(road)] == road);
        } else if roads.contains(road) {
            let k = roads.index_of(road);
            if k < roads.len() - 1 {
                assert(shorter[k] == road);
            }
        }
        if roads.last() == road {
            assert(roads[roads.len() - 1] == road);
        }
    }
}

/// A dispatcher gets the waiting tickets road by road, as it names them, each road's in the order in
/// which they came, and none twice where it names a road twice.
pub proof fn law_tickets_come_road_by_road(
    list: DispatcherListView,
    dispatcher: u64,
    roads: Seq<u16>,
    road: u16,
)
    ensures
        list.handed_out(dispatcher, Seq::empty()) == Seq::<TicketView>::empty(),
        !roads.contains(road) ==> list.handed_out(dispatcher, roads.push(road)) == list.handed_out(
            dispatcher,
            roads,
        ) + list.waiting(road),
        roads.contains(road) ==> list.handed_out(dispatcher, roads.push(road)) == list.handed_out(
            dispatcher,
            roads,
        ),
{
    assert(roads.push(road).drop_last() == roads);
    law_free_roads_are_taken(list, dispatcher, roads, road);
    if roads.contains(road) {
        assert(list.handed_out(dispatcher, roads) + Seq::<TicketView>::empty() == list.handed_out(
            dispatcher,
            roads,
        ));
    }
}

/// What a ticket shows of itself is what it holds, and tickets keep their places.
pub proof fn law_tickets_show_what_they_hold(t: Ticket, tickets: Seq<Ticket>, i: int)
    ensures
        t@.plate == t.plate@,
        t@.road == t.road,
        t@.mile1 == t.mile1,
        t@.timestamp1 == t.timestamp1,
        t@.mile2 == t.mile2,
        t@.timestamp2 == t.timestamp2,
        t@.speed == t.speed,
        ticket_views(tickets).len() == tickets.len(),
        0 <= i < tickets.len() ==> ticket_views(tickets)[i] == tickets[i]@,
{
}

} // verus!
