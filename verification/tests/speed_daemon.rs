use protohackers::speed_daemon::client::{Action, Client, Event};
use protohackers::speed_daemon::dispatchers::{DispatcherList, Enforcement};
use protohackers::speed_daemon::history::{
    CameraComparison, CameraState, PlateHistory, PlateReport,
};
use protohackers::speed_daemon::message::{
    encode_error, encode_ticket, i_am_camera_message, i_am_dispatcher_message, message_string,
    parse_message, plate_message, read_message, want_heartbeat_message, Message, Parsed,
    PlateReading, Read, Ticket,
};
use protohackers::speed_daemon::ticketing::{
    average_speed, check_speed, DispatcherState, SpeedCheck, DAY,
};

fn reading(plate: &str, timestamp: u32) -> PlateReading {
    PlateReading {
        plate: plate.to_owned(),
        timestamp,
    }
}

fn report(plate: &str, road: u16, mile: u16, timestamp: u32) -> PlateReport {
    PlateReport {
        camera_state: CameraState { road, mile, limit: 60 },
        plate_reading: reading(plate, timestamp),
    }
}

fn comparison(mile1: u16, timestamp1: u32, mile2: u16, timestamp2: u32, limit: u16) -> CameraComparison {
    CameraComparison {
        plate: "UN1X".to_owned(),
        road: 123,
        limit,
        mile1,
        timestamp1,
        mile2,
        timestamp2,
    }
}

fn ticket(road: u16, timestamp1: u32, timestamp2: u32) -> Ticket {
    Ticket {
        plate: "UN1X".to_owned(),
        road,
        mile1: 8,
        timestamp1,
        mile2: 9,
        timestamp2,
        speed: 8000,
    }
}

#[test]
fn strings_have_a_length() {
    assert_eq!(message_string(&[0]), Parsed::Done(&[], String::new()));
    assert_eq!(
        message_string(&[3, 0x66, 0x6f, 0x6f, 0x21]),
        Parsed::Done(&[0x21], "foo".to_owned())
    );
    assert_eq!(message_string(&[3, 0x66]), Parsed::Incomplete);
    assert_eq!(message_string(&[]), Parsed::Incomplete);
    assert_eq!(message_string(&[1, 0x80]), Parsed::Invalid);
}

#[test]
fn plates_are_read() {
    let bytes = [0x20, 0x04, 0x55, 0x4e, 0x31, 0x58, 0x00, 0x00, 0x03, 0xe8];
    assert_eq!(
        plate_message(&bytes),
        Parsed::Done(&[], Message::Plate(reading("UN1X", 1000)))
    );
    assert_eq!(plate_message(&bytes[..9]), Parsed::Incomplete);
    assert_eq!(plate_message(&[0x21]), Parsed::Invalid);
}

#[test]
fn heartbeats_cameras_and_dispatchers_are_read() {
    assert_eq!(
        want_heartbeat_message(&[0x40, 0x00, 0x00, 0x04, 0xdb]),
        Parsed::Done(&[], Message::WantHeartbeat { interval: 1243 })
    );
    assert_eq!(
        i_am_camera_message(&[0x80, 0x01, 0x70, 0x04, 0xd2, 0x00, 0x28]),
        Parsed::Done(&[], Message::IAmCamera { road: 368, mile: 1234, limit: 40 })
    );
    assert_eq!(
        i_am_dispatcher_message(&[0x81, 0x03, 0x00, 0x42, 0x01, 0x70, 0x13, 0x88, 0x07]),
        Parsed::Done(&[0x07], Message::IAmDispatcher { roads: vec![66, 368, 5000] })
    );
    assert_eq!(
        i_am_dispatcher_message(&[0x81, 0x00]),
        Parsed::Done(&[], Message::IAmDispatcher { roads: vec![] })
    );
}

#[test]
fn any_message_is_read() {
    assert_eq!(
        parse_message(&[0x40, 0, 0, 0, 0]),
        Parsed::Done(&[], Message::WantHeartbeat { interval: 0 })
    );
    assert_eq!(parse_message(&[]), Parsed::Incomplete);
    assert_eq!(parse_message(&[0x80, 1]), Parsed::Incomplete);
    assert_eq!(parse_message(&[0x10]), Parsed::Invalid);
    assert_eq!(parse_message(&[0xff, 0xff]), Parsed::Invalid);
}

#[test]
fn pieces_of_messages_make_no_difference() {
    let stream = [
        0x80, 0x00, 0x7b, 0x00, 0x08, 0x00, 0x3c, 0x20, 0x04, 0x55, 0x4e, 0x31, 0x58, 0x00, 0x00,
        0x00, 0x00, 0x40, 0x00,
    ];
    let mut input = Vec::new();
    let mut messages = Vec::new();
    for b in stream {
        input.push(b);
        match read_message(&mut input) {
            Read::Message(m) => messages.push(m),
            Read::Incomplete => {}
            Read::Invalid => panic!("invalid"),
        }
    }
    let expected = vec![
        Message::IAmCamera { road: 123, mile: 8, limit: 60 },
        Message::Plate(reading("UN1X", 0)),
    ];
    assert_eq!(messages, expected);
    let mut whole = stream.to_vec();
    assert_eq!(
        read_message(&mut whole),
        Read::Message(Message::IAmCamera { road: 123, mile: 8, limit: 60 })
    );
    assert_eq!(
        read_message(&mut whole),
        Read::Message(Message::Plate(reading("UN1X", 0)))
    );
    assert_eq!(whole, input);
    assert_eq!(read_message(&mut vec![0x99]), Read::Invalid);
}

#[test]
fn errors_and_tickets_are_written() {
    assert_eq!(encode_error("bad"), vec![0x10, 0x03, 0x62, 0x61, 0x64]);
    let t = Ticket {
        plate: "UN1X".to_owned(),
        road: 66,
        mile1: 100,
        timestamp1: 123456,
        mile2: 110,
        timestamp2: 123816,
        speed: 10000,
    };
    assert_eq!(
        encode_ticket(&t),
        vec![
            0x21, 0x04, 0x55, 0x4e, 0x31, 0x58, 0x00, 0x42, 0x00, 0x64, 0x00, 0x01, 0xe2, 0x40,
            0x00, 0x6e, 0x00, 0x01, 0xe3, 0xa8, 0x27, 0x10,
        ]
    );
}

#[test]
fn strings_of_tickets_are_read_back() {
    let bytes = encode_ticket(&ticket(1, 2, 3));
    assert_eq!(
        message_string(&bytes[1..]),
        Parsed::Done(&bytes[6..], "UN1X".to_owned())
    );
}

#[test]
fn speeds_are_those_of_floating_point() {
    let distances: Vec<u16> = (0..200)
        .chain([655, 656, 1000, 12345, 32768, 65534, 65535])
        .collect();
    let times: Vec<u32> = (0..200)
        .chain([
            3599, 3600, 3601, 7199, 7200, 7201, 86399, 86400, 1_000_003, 2147483648, 4294967295,
        ])
        .collect();
    for d in &distances {
        for t in &times {
            let float = f64::round((*d as f64 * 3600.0) / *t as f64) as u16;
            assert_eq!(average_speed(*d, *t), float, "{d} miles in {t} seconds");
        }
    }
}

#[test]
fn speeds_are_rounded() {
    assert_eq!(average_speed(1, 45), 80);
    assert_eq!(average_speed(1, 7200), 1);
    assert_eq!(average_speed(1, 7201), 0);
    assert_eq!(average_speed(0, 0), 0);
    assert_eq!(average_speed(36408, 2000), 65534);
    assert_eq!(average_speed(65535, 3600), 65535);
    assert_eq!(average_speed(54614, 3000), 65535);
    assert_eq!(average_speed(1, 0), 65535);
}

#[test]
fn speeding_is_ticketed() {
    let fast = Ticket {
        plate: "UN1X".to_owned(),
        road: 123,
        mile1: 8,
        timestamp1: 0,
        mile2: 9,
        timestamp2: 45,
        speed: 8000,
    };
    assert_eq!(check_speed(comparison(8, 0, 9, 45, 60)), SpeedCheck::TooFast(fast));
    assert_eq!(check_speed(comparison(8, 0, 9, 45, 80)), SpeedCheck::Within);
    assert!(matches!(check_speed(comparison(9, 0, 8, 45, 79)), SpeedCheck::TooFast(_)));
    assert!(matches!(check_speed(comparison(0, 0, 655, 3600, 654)), SpeedCheck::TooFast(_)));
    assert_eq!(check_speed(comparison(0, 0, 656, 3600, 655)), SpeedCheck::OffTheScale);
    assert_eq!(check_speed(comparison(0, 0, 656, 3600, 656)), SpeedCheck::Within);
}

#[test]
fn reports_are_held_against_their_neighbours() {
    let mut history = PlateHistory::new();
    assert_eq!(history.record(report("UN1X", 123, 8, 100)), vec![]);
    let later = history.record(report("UN1X", 123, 10, 300));
    assert_eq!(later.len(), 1);
    assert_eq!((later[0].mile1, later[0].timestamp1), (8, 100));
    assert_eq!((later[0].mile2, later[0].timestamp2), (10, 300));
    let between = history.record(report("UN1X", 123, 9, 200));
    let times: Vec<(u32, u32)> = between.iter().map(|c| (c.timestamp1, c.timestamp2)).collect();
    assert_eq!(times, vec![(100, 200), (200, 300)]);
    let earlier = history.record(report("UN1X", 123, 7, 0));
    let times: Vec<(u32, u32)> = earlier.iter().map(|c| (c.timestamp1, c.timestamp2)).collect();
    assert_eq!(times, vec![(0, 100)]);
}

#[test]
fn the_order_of_reports_makes_no_difference() {
    let mut forwards = PlateHistory::new();
    forwards.record(report("UN1X", 123, 8, 100));
    let later = forwards.record(report("UN1X", 123, 10, 300));
    let mut backwards = PlateHistory::new();
    backwards.record(report("UN1X", 123, 10, 300));
    let earlier = backwards.record(report("UN1X", 123, 8, 100));
    assert_eq!(later, earlier);
    assert_eq!(later.len(), 1);
}

#[test]
fn reports_of_other_cars_and_roads_are_apart() {
    let mut history = PlateHistory::new();
    history.record(report("UN1X", 123, 8, 100));
    assert_eq!(history.record(report("RE05BKG", 123, 9, 110)), vec![]);
    assert_eq!(history.record(report("UN1X", 124, 9, 110)), vec![]);
    let again = history.record(report("UN1X", 123, 9, 100));
    assert_eq!(again, vec![]);
    let next = history.record(report("UN1X", 123, 10, 101));
    assert_eq!(next[0].mile1, 9);
    assert_eq!(next[0].limit, 60);
    assert_eq!(next[0].road, 123);
    assert_eq!(next[0].plate, "UN1X");
}

#[test]
fn one_ticket_a_day_is_sent() {
    let mut state = DispatcherState::new();
    let first = ticket(1, 0, DAY);
    let bytes = encode_ticket(&first);
    assert_eq!(state.send_ticket(first), Some(bytes));
    assert_eq!(state.send_ticket(ticket(2, 5, 6)), None);
    assert_eq!(state.send_ticket(ticket(3, DAY + 5, DAY + 6)), None);
    assert_eq!(state.send_ticket(ticket(3, DAY + 5, 2 * DAY)), None);
    assert!(state.send_ticket(ticket(4, 2 * DAY, 2 * DAY)).is_some());
    let mut other = ticket(5, 0, 0);
    other.plate = "OTHER".to_owned();
    assert!(state.send_ticket(other).is_some());
}

#[test]
fn tickets_wait_for_a_dispatcher() {
    let mut list = DispatcherList::new();
    assert_eq!(list.route(ticket(1, 0, 1)), None);
    assert_eq!(list.route(ticket(2, 0, 1)), None);
    assert_eq!(list.route(ticket(1, 5, 6)), None);
    assert_eq!(
        list.register(7, &[3, 1]),
        vec![ticket(1, 0, 1), ticket(1, 5, 6)]
    );
    assert_eq!(list.route(ticket(1, 8, 9)), Some((7, ticket(1, 8, 9))));
    assert_eq!(list.route(ticket(3, 8, 9)), Some((7, ticket(3, 8, 9))));
    assert_eq!(list.register(8, &[1, 2, 2]), vec![ticket(2, 0, 1)]);
    assert_eq!(list.route(ticket(1, 8, 9)), Some((7, ticket(1, 8, 9))));
    assert_eq!(list.route(ticket(2, 8, 9)), Some((8, ticket(2, 8, 9))));
    list.disconnect(1);
    assert_eq!(list.route(ticket(1, 8, 9)), None);
    assert_eq!(list.register(9, &[1]), vec![ticket(1, 8, 9)]);
}

#[test]
fn limits_are_enforced() {
    let mut list = DispatcherList::new();
    assert_eq!(list.enforce(comparison(8, 0, 9, 45, 80)), Enforcement::Nothing);
    assert_eq!(list.enforce(comparison(0, 0, 656, 3600, 60)), Enforcement::OffTheScale);
    assert_eq!(list.enforce(comparison(8, 0, 9, 45, 60)), Enforcement::Stored);
    let waiting = list.register(4, &[123]);
    assert_eq!(waiting.len(), 1);
    assert_eq!(waiting[0].speed, 8000);
    match list.enforce(comparison(8, 0, 9, 45, 60)) {
        Enforcement::Deliver(4, t) => assert_eq!(t, waiting[0]),
        other => panic!("not delivered: {other:?}"),
    }
}

fn camera() -> Message {
    Message::IAmCamera { road: 123, mile: 8, limit: 60 }
}

fn dispatcher() -> Message {
    Message::IAmDispatcher { roads: vec![123, 66] }
}

#[test]
fn cameras_report() {
    let mut client = Client::new();
    assert_eq!(client.handle(Event::Received(camera())), Action::Wait);
    let plate = Message::Plate(reading("UN1X", 45));
    assert_eq!(
        client.handle(Event::Received(plate)),
        Action::Report(report("UN1X", 123, 8, 45))
    );
}

#[test]
fn only_cameras_report() {
    let plate = || Message::Plate(reading("UN1X", 45));
    let stop = Action::Stop(encode_error("client is not a camera"));
    assert_eq!(Client::new().handle(Event::Received(plate())), stop);
    let mut client = Client::new();
    client.handle(Event::Received(dispatcher()));
    assert_eq!(client.handle(Event::Received(plate())), stop);
}

#[test]
fn clients_have_one_role() {
    let stop = Action::Stop(encode_error("set client data twice"));
    for (first, second) in [
        (camera(), camera()),
        (camera(), dispatcher()),
        (dispatcher(), camera()),
        (dispatcher(), dispatcher()),
    ] {
        let mut client = Client::new();
        assert_ne!(client.handle(Event::Received(first)), stop);
        assert_eq!(client.handle(Event::Received(second)), stop);
    }
}

#[test]
fn heartbeats_are_set_once() {
    let want = |interval| Event::Received(Message::WantHeartbeat { interval });
    let mut client = Client::new();
    assert_eq!(client.handle(want(0)), Action::Wait);
    assert_eq!(client.handle(want(25)), Action::StartHeartbeat(2500));
    assert_eq!(client.handle(Event::HeartbeatDue), Action::Write(vec![0x41]));
    assert_eq!(client.handle(want(0)), Action::Wait);
    assert_eq!(
        client.handle(want(1)),
        Action::Stop(encode_error("set heartbeat twice"))
    );
    assert_eq!(
        Client::new().handle(want(u32::MAX)),
        Action::StartHeartbeat(429496729500)
    );
}

#[test]
fn dispatchers_get_tickets() {
    let mut client = Client::new();
    assert_eq!(
        client.handle(Event::Received(dispatcher())),
        Action::Register(vec![123, 66])
    );
    let bytes = encode_ticket(&ticket(66, 0, 1));
    assert_eq!(client.handle(Event::TicketFor(ticket(66, 0, 1))), Action::Write(bytes));
    assert_eq!(client.handle(Event::TicketFor(ticket(66, 5, 6))), Action::Wait);
}

#[test]
fn connections_end() {
    assert_eq!(Client::new().handle(Event::Closed), Action::Stop(vec![]));
    assert_eq!(
        Client::new().handle(Event::Unreadable),
        Action::Stop(encode_error("failed to read message"))
    );
}
