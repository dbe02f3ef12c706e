//! One connection: what a client may say, and what it is told.

use vstd::prelude::*;
use vstd::string::*;

use crate::speed_daemon::history::CameraState;
use crate::speed_daemon::history::PlateReport;
use crate::speed_daemon::history::PlateReportView;
use crate::speed_daemon::message::encode_error;
use crate::speed_daemon::message::error_bytes;
use crate::speed_daemon::message::ticket_bytes;
use crate::speed_daemon::message::Message;
use crate::speed_daemon::message::MessageView;
use crate::speed_daemon::message::PlateReadingView;
use crate::speed_daemon::message::Ticket;
use crate::speed_daemon::message::TicketView;
use crate::speed_daemon::message::HEARTBEAT;
use crate::speed_daemon::ticketing::is_fresh;
use crate::speed_daemon::ticketing::ticket_days;
use crate::speed_daemon::ticketing::DispatcherState;
use crate::speed_daemon::ticketing::TicketedDay;

verus! {

/// What the server knows of a client.
#[derive(Debug)]
pub struct Client {
    /// Where it stands, if it is a camera.
    pub camera_state: Option<CameraState>,
    /// What it has been sent, if it is a dispatcher.
    pub dispatcher_state: Option<DispatcherState>,
    /// Whether it has asked for a heartbeat.
    pub heartbeat: bool,
}

/// The mathematical counterpart of [`Client`].
pub struct ClientView {
    pub camera: Option<CameraState>,
    pub dispatcher: Option<Set<TicketedDay>>,
    pub heartbeat: bool,
}

impl View for Client {
    type V = ClientView;

    open spec fn view(&self) -> ClientView {
        ClientView {
            camera: self.camera_state,
            dispatcher: match self.dispatcher_state {
                Some(d) => Some(d@),
                None => None,
            },
            heartbeat: self.heartbeat,
        }
    }
}

/// What happens to a connection.
#[derive(Debug, PartialEq, Eq)]
pub enum Event {
    /// The client has sent a message.
    Received(Message),
    /// The client has sent something that is no message, or cannot be read from any more.
    Unreadable,
    /// The client has closed the connection.
    Closed,
    /// A ticket for the client has come.
    TicketFor(Ticket),
    /// The time of a heartbeat has come.
    HeartbeatDue,
}

/// The mathematical counterpart of [`Event`].
pub enum EventView {
    Received(MessageView),
    Unreadable,
    Closed,
    TicketFor(TicketView),
    HeartbeatDue,
}

impl View for Event {
    type V = EventView;

    open spec fn view(&self) -> EventView {
        match self {
            Event::Received(m) => EventView::Received(m@),
            Event::Unreadable => EventView::Unreadable,
            Event::Closed => EventView::Closed,
            Event::TicketFor(t) => EventView::TicketFor(t@),
            Event::HeartbeatDue => EventView::HeartbeatDue,
        }
    }
}

/// What is done for a connection.
#[derive(Debug, PartialEq, Eq)]
pub enum Action {
    /// Nothing.
    Wait,
    /// These bytes are written.
    Write(Vec<u8>),
    /// These bytes, if any, are written, and the connection ends.
    Stop(Vec<u8>),
    /// A report goes to the history.
    Report(PlateReport),
    /// From now on there is a heartbeat each so many milliseconds.
    StartHeartbeat(u64),
    /// The client becomes the dispatcher of these roads.
    Register(Vec<u16>),
}

/// The mathematical counterpart of [`Action`].
pub enum ActionView {
    Wait,
    Write(Seq<u8>),
    Stop(Seq<u8>),
    Report(PlateReportView),
    StartHeartbeat(u64),
    Register(Seq<u16>),
}

impl View for Action {
    type V = ActionView;

    open spec fn view(&self) -> ActionView {
        match self {
            Action::Wait => ActionView::Wait,
            Action::Write(bytes) => ActionView::Write(bytes@),
            Action::Stop(bytes) => ActionView::Stop(bytes@),
            Action::Report(r) => ActionView::Report(r@),
            Action::StartHeartbeat(millis) => ActionView::StartHeartbeat(*millis),
            Action::Register(roads) => ActionView::Register(roads@),
        }
    }
}

/// The end of a connection, with an error.
pub open spec fn stop(c: ClientView, error: Seq<char>) -> (ClientView, ActionView) {
    (c, ActionView::Stop(error_bytes(error)))
}

/// What is made of a message: the client afterwards, and what is done.
pub open spec fn on_message(c: ClientView, m: MessageView) -> (ClientView, ActionView) {
    match m {
        MessageView::Plate(plate_reading) => match c.camera {
            Some(camera_state) => (
                c,
                ActionView::Report(PlateReportView { camera_state, plate_reading }),
            ),
            None => stop(c, "client is not a camera"@),
        },
        MessageView::WantHeartbeat { interval } => if interval == 0 {
            (c, ActionView::Wait)
        } else if c.heartbeat {
            stop(c, "set heartbeat twice"@)
        } else {
            (
                ClientView { heartbeat: true, ..c },
                ActionView::StartHeartbeat((interval * 100) as u64),
            )
        },
        MessageView::IAmCamera { road, mile, limit } => {
            let after = ClientView { camera: Some(CameraState { road, mile, limit }), ..c };
            if c.camera is Some || c.dispatcher is Some {
                stop(after, "set client data twice"@)
            } else {
                (after, ActionView::Wait)
            }
        },
        MessageView::IAmDispatcher { roads } => if c.camera is Some || c.dispatcher is Some {
            stop(c, "set client data twice"@)
        } else {
            (
                ClientView { dispatcher: Some(Set::empty()), ..c },
                ActionView::Register(roads),
            )
        },
    }
}

/// What is made of a ticket for the client.
pub open spec fn on_ticket(c: ClientView, t: TicketView) -> (ClientView, ActionView) {
    match c.dispatcher {
        Some(days) => if is_fresh(days, t) {
            (
                ClientView {
                    dispatcher: Some(days.insert(ticket_days(t).0).insert(ticket_days(t).1)),
                    ..c
                },
                ActionView::Write(ticket_bytes(t)),
            )
        } else {
            (c, ActionView::Wait)
        },
        None => (c, ActionView::Wait),
    }
}

/// What is made of an event.
pub open spec fn step(c: ClientView, event: EventView) -> (ClientView, ActionView) {
    match event {
        EventView::Received(m) => on_message(c, m),
        EventView::Unreadable => stop(c, "failed to read message"@),
        EventView::Closed => (c, ActionView::Stop(Seq::empty())),
        EventView::TicketFor(t) => on_ticket(c, t),
        EventView::HeartbeatDue => (c, ActionView::Write(seq![HEARTBEAT])),
    }
}

impl Client {
    /// A client that has said nothing yet.
    pub fn new() -> (out: Client)
        ensures
            out@ == (ClientView { camera: None, dispatcher: None, heartbeat: false }),
    {
        Client { camera_state: None, dispatcher_state: None, heartbeat: false }
    }

    /// Does what a message asks for.
    fn handle_message(&mut self, message: Message) -> (out: Action)
        ensures
            (final(self)@, out@) == on_message(old(self)@, message@),
    {
        match message {
            Message::Plate(plate_reading) => match self.camera_state {
                Some(camera_state) => Action::Report(PlateReport { camera_state, plate_reading }),
                None => Action::Stop(encode_error("client is not a camera")),
            },
            Message::WantHeartbeat { interval } => {
                if interval == 0 {
                    Action::Wait
                } else if self.heartbeat {
                    Action::Stop(encode_error("set heartbeat twice"))
                } else {
                    self.heartbeat = true;
                    Action::StartHeartbeat(interval as u64 * 100)
                }
            },
            Message::IAmCamera { road, mile, limit } => {
                let twice = self.camera_state.is_some() || self.dispatcher_state.is_some();
                self.camera_state = Some(CameraState { road, mile, limit });
                if twice {
                    Action::Stop(encode_error("set client data twice"))
                } else {
                    Action::Wait
                }
            },
            Message::IAmDispatcher { roads } => {
                if self.camera_state.is_some() || self.dispatcher_state.is_some() {
                    Action::Stop(encode_error("set client data twice"))
                } else {
                    self.dispatcher_state = Some(DispatcherState::new());
                    Action::Register(roads)
                }
            },
        }
    }

    /// Does what is to be done with a ticket. It comes only to a dispatcher.
    pub fn send_ticket(&mut self, ticket: Ticket) -> (out: Action)
        requires
            old(self)@.dispatcher is Some,
        ensures
            (final(self)@, out@) == on_ticket(old(self)@, ticket@),
    {
        match self.dispatcher_state.take() {
            Some(d) => {
                let mut d = d;
                let sent = d.send_ticket(ticket);
                self.dispatcher_state = Some(d);
                match sent {
                    Some(bytes) => Action::Write(bytes),
                    None => Action::Wait,
                }
            },
            None => Action::Wait,
        }
    }

    /// Does what is to be done on an event.
    pub fn handle(&mut self, event: Event) -> (out: Action)
        requires
            event is TicketFor ==> old(self)@.dispatcher is Some,
        ensures
            (final(self)@, out@) == step(old(self)@, event@),
    {
        match event {
            Event::Received(m) => self.handle_message(m),
            Event::Unreadable => Action::Stop(encode_error("failed to read message")),
            Event::Closed => Action::Stop(Vec::new()),
            Event::TicketFor(t) => self.send_ticket(t),
            Event::HeartbeatDue => {
                let mut bytes: Vec<u8> = Vec::new();
                bytes.push(HEARTBEAT);
                assert(bytes@ == seq![HEARTBEAT]);
                Action::Write(bytes)
            },
        }
    }
}

/// A client is a camera or a dispatcher or neither, and stays what it is, as long as its connection
/// goes on.
pub proof fn law_client_has_one_role(c: ClientView, event: EventView)
    requires
        c.camera is None || c.dispatcher is None,
    ensures
        ({
            let (after, action) = step(c, event);
            !(action is Stop) ==> {
                &&& after.camera is None || after.dispatcher is None
                &&& c.camera is Some ==> after.camera == c.camera
                &&& c.dispatcher is Some ==> after.dispatcher is Some
                &&& c.heartbeat ==> after.heartbeat
            }
        }),
{
}

/// Only a camera reports plates, and a report is the camera's.
pub proof fn law_only_cameras_report(c: ClientView, event: EventView)
    ensures
        step(c, event).1 matches ActionView::Report(r) ==> c.camera == Some(r.camera_state)
            && event == EventView::Received(MessageView::Plate(r.plate_reading)),
{
}

/// The connection of a client that breaks the rules ends, and it is told which one it broke.
pub proof fn law_rule_breakers_are_told(c: ClientView, m: MessageView)
    ensures
        step(c, EventView::Received(m)).1 is Stop <==> {
            ||| m is Plate && c.camera is None
            ||| m matches MessageView::WantHeartbeat { interval } && interval != 0 && c.heartbeat
            ||| (m is IAmCamera || m is IAmDispatcher) && (c.camera is Some || c.dispatcher is Some)
        },
        step(c, EventView::Received(m)).1 matches ActionView::Stop(bytes) ==> {
            ||| m is Plate && bytes == error_bytes("client is not a camera"@)
            ||| m is WantHeartbeat && bytes == error_bytes("set heartbeat twice"@)
            ||| (m is IAmCamera || m is IAmDispatcher) && bytes == error_bytes(
                "set client data twice"@,
            )
        },
{
}

/// What a camera sees is reported as the camera's: its road, its mile and its limit, with the plate and
/// the time as they came.
pub proof fn law_cameras_report_what_they_see(c: ClientView, reading: PlateReadingView)
    ensures
        c.camera matches Some(camera) ==> step(c, EventView::Received(MessageView::Plate(reading)))
            matches (after, ActionView::Report(r)) && after == c && r.camera_state.road
            == camera.road && r.camera_state.mile == camera.mile && r.camera_state.limit
            == camera.limit && r.plate_reading.plate == reading.plate && r.plate_reading.timestamp
            == reading.timestamp,
{
}

/// A client becomes what it says: a camera at its place, or the dispatcher of its roads with no ticket
/// sent; and all else that is known of it stays.
pub proof fn law_clients_become_what_they_say(
    c: ClientView,
    road: u16,
    mile: u16,
    limit: u16,
    roads: Seq<u16>,
)
    requires
        c.camera is None,
        c.dispatcher is None,
    ensures
        ({
            let (after, action) = step(
                c,
                EventView::Received(MessageView::IAmCamera { road, mile, limit }),
            );
            &&& action is Wait
            &&& after.camera matches Some(camera) && camera.road == road && camera.mile == mile
                && camera.limit == limit
            &&& after.dispatcher is None
            &&& after.heartbeat == c.heartbeat
        }),
        ({
            let (after, action) = step(
                c,
                EventView::Received(MessageView::IAmDispatcher { roads }),
            );
            &&& action == ActionView::Register(roads)
            &&& after.camera is None
            &&& after.dispatcher matches Some(days) && forall|d: TicketedDay| !days.contains(d)
            &&& after.heartbeat == c.heartbeat
        }),
{
}

/// A heartbeat that is wanted comes each so many tenths of a second, and is one byte; without an
/// interval there is none.
pub proof fn law_heartbeats_come_in_tenths(c: ClientView, interval: u32)
    ensures
        ({
            let (after, action) = step(
                c,
                EventView::Received(MessageView::WantHeartbeat { interval }),
            );
            &&& after.camera == c.camera && after.dispatcher == c.dispatcher
            &&& interval == 0 ==> action is Wait && after.heartbeat == c.heartbeat
            &&& interval > 0 && !c.heartbeat ==> after.heartbeat && (action matches
                ActionView::StartHeartbeat(millis) && millis == 100 * interval)
        }),
        step(c, EventView::HeartbeatDue) matches (after, ActionView::Write(bytes)) && after == c
            && bytes.len() == 1 && bytes[0] == 0x41,
{
}

/// A dispatcher is written a ticket exactly if it was written none for the car on a day of either of its
/// times, and then both days have theirs, and no others.
pub proof fn law_dispatchers_are_written_tickets(
    c: ClientView,
    t: TicketView,
    plate: Seq<char>,
    d: u32,
)
    requires
        c.dispatcher is Some,
    ensures
        ({
            let days = c.dispatcher->0;
            let (after, action) = step(c, EventView::TicketFor(t));
            let fresh = !days.contains((t.plate, (t.timestamp1 as int / 86400) as u32))
                && !days.contains((t.plate, (t.timestamp2 as int / 86400) as u32));
            &&& after.camera == c.camera && after.heartbeat == c.heartbeat
            &&& fresh ==> action == ActionView::Write(ticket_bytes(t))
            &&& !fresh ==> action is Wait && after == c
            &&& fresh ==> (after.dispatcher matches Some(now) && (now.contains((plate, d))
                <==> days.contains((plate, d)) || plate == t.plate && (d == t.timestamp1 as int
                / 86400 || d == t.timestamp2 as int / 86400)))
        }),
{
}

/// A client that closes its connection is told nothing, and one whose bytes cannot be read is told so.
pub proof fn law_ends_are_told(c: ClientView)
    ensures
        step(c, EventView::Closed).1 matches ActionView::Stop(bytes) && bytes.len() == 0,
        step(c, EventView::Unreadable).1 == ActionView::Stop(
            error_bytes(
                seq![
                    'f', 'a', 'i', 'l', 'e', 'd', ' ', 't', 'o', ' ', 'r', 'e', 'a', 'd', ' ', 'm',
                    'e', 's', 's', 'a', 'g', 'e',
                ],
            ),
        ),
{
    reveal_strlit("failed to read message");
    assert("failed to read message"@ =~= seq![
        'f', 'a', 'i', 'l', 'e', 'd', ' ', 't', 'o', ' ', 'r', 'e', 'a', 'd', ' ', 'm', 'e', 's',
        's', 'a', 'g', 'e',
    ]);
}

/// The errors, letter for letter.
pub proof fn law_errors_are_spelled(c: ClientView, m: MessageView)
    ensures
        m is Plate && c.camera is None ==> step(c, EventView::Received(m)).1 == ActionView::Stop(
            error_bytes(
                seq![
                    'c', 'l', 'i', 'e', 'n', 't', ' ', 'i', 's', ' ', 'n', 'o', 't', ' ', 'a', ' ',
                    'c', 'a', 'm', 'e', 'r', 'a',
                ],
            ),
        ),
        m is WantHeartbeat && m->interval != 0 && c.heartbeat ==> step(
            c,
            EventView::Received(m),
        ).1 == ActionView::Stop(
            error_bytes(
                seq![
                    's', 'e', 't', ' ', 'h', 'e', 'a', 'r', 't', 'b', 'e', 'a', 't', ' ', 't', 'w',
                    'i', 'c', 'e',
                ],
            ),
        ),
        (m is IAmCamera || m is IAmDispatcher) && (c.camera is Some || c.dispatcher is Some)
            ==> step(c, EventView::Received(m)).1 == ActionView::Stop(
            error_bytes(
                seq![
                    's', 'e', 't', ' ', 'c', 'l', 'i', 'e', 'n', 't', ' ', 'd', 'a', 't', 'a', ' ',
                    't', 'w', 'i', 'c', 'e',
                ],
            ),
        ),
{
    reveal_strlit("client is not a camera");
    reveal_strlit("set heartbeat twice");
    reveal_strlit("set client data twice");
    assert("client is not a camera"@ =~= seq![
        'c', 'l', 'i', 'e', 'n', 't', ' ', 'i', 's', ' ', 'n', 'o', 't', ' ', 'a', ' ', 'c', 'a',
        'm', 'e', 'r', 'a',
    ]);
    assert("set heartbeat twice"@ =~= seq![
        's', 'e', 't', ' ', 'h', 'e', 'a', 'r', 't', 'b', 'e', 'a', 't', ' ', 't', 'w', 'i', 'c',
        'e',
    ]);
    assert("set client data twice"@ =~= seq![
        's', 'e', 't', ' ', 'c', 'l', 'i', 'e', 'n', 't', ' ', 'd', 'a', 't', 'a', ' ', 't', 'w',
        'i', 'c', 'e',
    ]);
}

/// What a client, an event and an action show of themselves is what they hold.
pub proof fn law_clients_show_what_they_hold(c: Client, event: Event, action: Action)
    ensures
        c@.camera == c.camera_state,
        c@.heartbeat == c.heartbeat,
        c@.dispatcher is Some <==> c.dispatcher_state is Some,
        c.dispatcher_state matches Some(d) ==> c@.dispatcher == Some(d@),
        match event {
            Event::Received(m) => event@ == EventView::Received(m@),
            Event::Unreadable => event@ == EventView::Unreadable,
            Event::Closed => event@ == EventView::Closed,
            Event::TicketFor(t) => event@ == EventView::TicketFor(t@),
            Event::HeartbeatDue => event@ == EventView::HeartbeatDue,
        },
        match action {
            Action::Wait => action@ == ActionView::Wait,
            Action::Write(bytes) => action@ == ActionView::Write(bytes@),
            Action::Stop(bytes) => action@ == ActionView::Stop(bytes@),
            Action::Report(r) => action@ == ActionView::Report(r@),
            Action::StartHeartbeat(millis) => action@ == ActionView::StartHeartbeat(millis),
            Action::Register(roads) => action@ == ActionView::Register(roads@),
        },
{
}

} // verus!
