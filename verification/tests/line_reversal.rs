use nom::branch::alt;
use nom::bytes::complete::{escaped_transform, is_not, tag};
use nom::combinator::{map_res, value};
use nom::IResult;
use protohackers::line_reversal::client::{Client, Event, Next, Step, Timer, MAX_DATA_SIZE};
use protohackers::line_reversal::message::{
    encode_message, escape_data, parse_ack, parse_data, parse_message, parse_message_type,
    parse_number, parse_session_token, Message, MessageType,
};
use protohackers::line_reversal::server::{dispatch, parse_datagram, Dispatch};

fn chars(text: &str) -> Vec<char> {
    text.chars().collect()
}

fn data(pos: u32, data: &str) -> Message {
    Message::Data {
        pos,
        data: data.to_owned(),
    }
}

fn open(step: Step) -> (Vec<Message>, Timer, Client) {
    match step.next {
        Next::Continue(client) => (step.sends, step.timer, client),
        other => panic!("the session did not go on: {other:?}"),
    }
}

fn receive(client: Client, message: Message) -> (Vec<Message>, Timer, Client) {
    open(client.handle(Event::Received(message)))
}

#[test]
fn numbers_end_at_the_slash() {
    let text = chars("12345/rest");
    let (rest, n) = parse_number(&text).unwrap();
    assert_eq!(rest, &chars("/rest")[..]);
    assert_eq!(n, 12345);
    assert_eq!(parse_number(&chars("4294967295")), Some((&[][..], 4294967295)));
    assert_eq!(parse_number(&chars("4294967296/")), None);
    assert_eq!(parse_number(&chars("/")), None);
    assert_eq!(parse_number(&chars("")), None);
    assert_eq!(parse_number(&chars("1a/")), None);
    assert_eq!(parse_number(&chars("-1/")), None);
    assert_eq!(parse_number(&chars("+1")), Some((&[][..], 1)));
    assert_eq!(parse_session_token(&chars("7/")).unwrap().1, 7);
}

#[test]
fn message_types_are_words() {
    assert_eq!(
        parse_message_type(&chars("connect/")).unwrap(),
        (&['/'][..], MessageType::Connect)
    );
    assert_eq!(parse_message_type(&chars("data")).unwrap().1, MessageType::Data);
    assert_eq!(parse_message_type(&chars("ack")).unwrap().1, MessageType::Ack);
    assert_eq!(parse_message_type(&chars("close")).unwrap().1, MessageType::Close);
    assert_eq!(parse_message_type(&chars("clos")), None);
}

#[test]
fn data_is_unescaped() {
    let text = chars("5/a\\/b\\\\c/!");
    let (rest, m) = parse_data(&text).unwrap();
    assert_eq!(rest, &['!'][..]);
    assert_eq!(m, data(5, "a/b\\c"));
    assert_eq!(parse_data(&chars("5//")), None);
    assert_eq!(parse_data(&chars("5/a")), None);
    assert_eq!(parse_data(&chars("5/a\\n/")), None);
    assert_eq!(parse_ack(&chars("17/")).unwrap().1, Message::Ack { length: 17 });
}

#[test]
fn messages_are_read() {
    assert_eq!(
        parse_message(&chars("/connect/12345/")).unwrap(),
        (&[][..], (12345, Message::Connect))
    );
    assert_eq!(
        parse_message(&chars("/data/12345/0/hello\n/")).unwrap().1,
        (12345, data(0, "hello\n"))
    );
    assert_eq!(
        parse_message(&chars("/ack/12345/5/")).unwrap().1,
        (12345, Message::Ack { length: 5 })
    );
    assert_eq!(
        parse_message(&chars("/close/12345/")).unwrap().1,
        (12345, Message::Close)
    );
    assert_eq!(parse_message(&chars("connect/12345/")), None);
    assert_eq!(parse_message(&chars("/connect/12345")), None);
    assert_eq!(parse_message(&chars("/data/12345/0/hello\n")), None);
    assert_eq!(parse_message(&chars("/ping/12345/")), None);
}

fn combined_number(input: &str) -> IResult<&str, u32> {
    map_res(is_not("/"), str::parse)(input)
}

fn combined_message(input: &str) -> IResult<&str, (u32, Message)> {
    let (input, _) = tag("/")(input)?;
    let (input, kind) = alt((tag("connect"), tag("data"), tag("ack"), tag("close")))(input)?;
    let (input, _) = tag("/")(input)?;
    let (input, token) = combined_number(input)?;
    let (input, _) = tag("/")(input)?;
    match kind {
        "connect" => Ok((input, (token, Message::Connect))),
        "close" => Ok((input, (token, Message::Close))),
        "ack" => {
            let (input, length) = combined_number(input)?;
            let (input, _) = tag("/")(input)?;
            Ok((input, (token, Message::Ack { length })))
        }
        _ => {
            let (input, pos) = combined_number(input)?;
            let (input, _) = tag("/")(input)?;
            let (input, data) = escaped_transform(
                is_not("\\/"),
                '\\',
                alt((value("/", tag("/")), value("\\", tag("\\")))),
            )(input)?;
            let (input, _) = tag("/")(input)?;
            Ok((input, (token, Message::Data { pos, data })))
        }
    }
}

#[test]
fn grammar_is_that_of_combinators() {
    let texts = [
        "",
        "/",
        "//",
        "/connect/1/",
        "/connect/1/rest",
        "/connect//",
        "/connect/x/",
        "/connect/+1/",
        "/connect/4294967296/",
        "/connected/1/",
        "/close/1/",
        "/close/1",
        "/ack/1/2/",
        "/ack/1/2",
        "/ack/1//",
        "/ack/1/\u{663}/",
        "/data/1/2/abc/",
        "/data/1/2/abc/def/",
        "/data/1/2/abc",
        "/data/1/2//",
        "/data/1/2/",
        "/data/1/2/\\//",
        "/data/1/2/\\\\/",
        "/data/1/2/\\\\\\//",
        "/data/1/2/a\\/b\\\\c/",
        "/data/1/2/a\\b/",
        "/data/1/2/a\\",
        "/data/1/2/\\",
        "/data/1/2/h\u{e9}llo \u{1f600}\n/",
        "/data/1/-2/abc/",
        "/data/x/2/abc/",
        "connect/1/",
    ];
    for text in texts {
        let read = parse_message(&chars(text)).map(|(rest, m)| (rest.len(), m));
        let combined = combined_message(text)
            .ok()
            .map(|(rest, m)| (rest.chars().count(), m));
        assert_eq!(read, combined, "{text:?}");
    }
}

#[test]
fn messages_are_written() {
    assert_eq!(encode_message(Message::Connect, 0), "/connect/0/");
    assert_eq!(encode_message(data(7, "olleh\n"), 12345), "/data/12345/7/olleh\n/");
    assert_eq!(encode_message(Message::Ack { length: 4294967295 }, 1), "/ack/1/4294967295/");
    assert_eq!(encode_message(Message::Close, 9), "/close/9/");
}

#[test]
fn escapes_are_those_of_two_replacements() {
    for text in ["", "plain", "/", "\\", "a/b", "a\\b", "\\/", "//\\\\"] {
        assert_eq!(
            escape_data(text),
            text.replace('/', r"\/").replace('\\', r"\\"),
            "{text:?}"
        );
    }
    assert_eq!(escape_data("foo\\bar"), "foo\\\\bar");
}

#[test]
fn messages_are_read_back() {
    for m in [
        Message::Connect,
        data(3, "back\\slash\n"),
        Message::Ack { length: 8 },
        Message::Close,
    ] {
        let written = chars(&encode_message(m.clone(), 42));
        assert_eq!(parse_message(&written), Some((&[][..], (42, m))));
    }
}

#[test]
fn a_session_reverses_lines() {
    let client = Client::new(12345);
    let (sends, timer, client) = receive(client, data(0, "hello\n"));
    assert_eq!(sends, vec![Message::Ack { length: 6 }, data(0, "olleh\n")]);
    assert_eq!(timer, Timer::Restart);
    let (sends, timer, client) = receive(client, Message::Ack { length: 6 });
    assert_eq!(sends, vec![]);
    assert_eq!(timer, Timer::Cancel);
    let (sends, _, client) = receive(client, data(6, "Hello, world!\n"));
    assert_eq!(
        sends,
        vec![Message::Ack { length: 20 }, data(6, "!dlrow ,olleH\n")]
    );
    let (sends, _, client) = receive(client, Message::Ack { length: 20 });
    assert_eq!(sends, vec![]);
    assert_eq!(client.max_ack, 20);
    assert_eq!(client.handle(Event::Received(Message::Close)).next, Next::Close);
}

#[test]
fn pieces_of_a_line_make_no_difference() {
    let (sends, timer, client) = receive(Client::new(1), data(0, "he"));
    assert_eq!(sends, vec![Message::Ack { length: 2 }]);
    assert_eq!(timer, Timer::Keep);
    assert_eq!(client.incoming_data_buffer, "he");
    let (sends, _, client) = receive(client, data(2, "llo\r\nab"));
    assert_eq!(sends, vec![Message::Ack { length: 9 }, data(0, "olleh\n")]);
    assert_eq!(client.incoming_data_buffer, "ab");
}

#[test]
fn each_line_is_followed_by_the_first_unacknowledged_data() {
    let (sends, _, client) = receive(Client::new(1), data(0, "ab\ncd\n"));
    assert_eq!(
        sends,
        vec![Message::Ack { length: 6 }, data(0, "ba\n"), data(0, "ba\ndc\n")]
    );
    let (sends, timer, client) = receive(client, Message::Ack { length: 3 });
    assert_eq!(sends, vec![data(3, "dc\n")]);
    assert_eq!(timer, Timer::Restart);
    assert_eq!(client.outgoing_data, "dc\n");
}

#[test]
fn repeated_and_early_data_is_only_acknowledged() {
    let (_, _, client) = receive(Client::new(1), data(0, "abc"));
    let (sends, timer, client) = receive(client, data(0, "abc"));
    assert_eq!((sends, timer), (vec![Message::Ack { length: 3 }], Timer::Keep));
    let (sends, timer, client) = receive(client, data(10, "xyz\n"));
    assert_eq!((sends, timer), (vec![Message::Ack { length: 3 }], Timer::Keep));
    assert_eq!(client.incoming_data_buffer, "abc");
    let (sends, _, client) = receive(client, data(1, "bcd"));
    assert_eq!(sends, vec![Message::Ack { length: 4 }]);
    assert_eq!(client.incoming_data_buffer, "abcd");
}

#[test]
fn only_new_data_can_leave_the_range_of_positions() {
    let client = || Client {
        session_token: 1,
        incoming_data_buffer: "ab".to_owned(),
        incoming_pos: u32::MAX - 1,
        outgoing_data: String::new(),
        max_ack: 0,
    };
    let (sends, _, _) = receive(client(), data(u32::MAX - 4, "xyz"));
    assert_eq!(sends, vec![Message::Ack { length: u32::MAX - 1 }]);
    let (sends, _, _) = receive(client(), data(u32::MAX, "early"));
    assert_eq!(sends, vec![Message::Ack { length: u32::MAX - 1 }]);
    let (sends, _, _) = receive(client(), data(u32::MAX - 2, "zw"));
    assert_eq!(sends, vec![Message::Ack { length: u32::MAX }]);
    let step = client().handle(Event::Received(data(u32::MAX - 1, "no")));
    assert_eq!(step.next, Next::Fault);
}

#[test]
fn acknowledgements_for_too_much_close_the_session() {
    let (_, _, client) = receive(Client::new(1), data(0, "abc\n"));
    let (sends, timer, client) = receive(client, Message::Ack { length: 0 });
    assert_eq!((sends, timer), (vec![], Timer::Keep));
    let step = client.handle(Event::Received(Message::Ack { length: 5 }));
    assert_eq!(step.next, Next::Close);
    assert_eq!(step.sends, vec![]);
}

#[test]
fn data_is_sent_in_chunks() {
    let line: String = "x".repeat(MAX_DATA_SIZE + 99) + "\n";
    let (sends, _, client) = receive(Client::new(1), data(0, &line));
    assert_eq!(sends[1], data(0, &"x".repeat(MAX_DATA_SIZE)));
    let (sends, timer, client) = open(client.handle(Event::RetransmissionDue));
    assert_eq!(sends, vec![data(0, &"x".repeat(MAX_DATA_SIZE))]);
    assert_eq!(timer, Timer::Restart);
    let (sends, _, client) = receive(client, Message::Ack { length: 900 });
    assert_eq!(sends, vec![data(900, &("x".repeat(99) + "\n"))]);
    assert_eq!(client.send_data_chunk(), Some(data(900, &("x".repeat(99) + "\n"))));
}

#[test]
fn the_application_answers_complete_lines() {
    let mut client = Client::new(1);
    client.incoming_data_buffer = "ab\ncd".to_owned();
    assert_eq!(client.run_application(), (vec![data(0, "ba\n")], true));
    assert_eq!(client.incoming_data_buffer, "cd");
    assert_eq!(client.run_application(), (vec![], true));
    let mut client = Client::new(1);
    client.incoming_data_buffer = "x\n".to_owned() + &"\u{e9}".repeat(600) + "\nnever\n";
    let (sends, complete) = client.run_application();
    assert!(complete);
    assert_eq!(sends.len(), 3);
    let mut client = Client::new(1);
    client.incoming_data_buffer = "\u{e9}".repeat(600) + "x\nnever\n";
    assert_eq!(client.run_application(), (vec![], false));
}

#[test]
fn silence_and_disconnection_close_the_session() {
    assert_eq!(Client::new(1).handle(Event::SessionExpired).next, Next::Close);
    assert_eq!(Client::new(1).handle(Event::Disconnected).next, Next::Close);
    let (sends, _, _) = receive(Client::new(1), Message::Connect);
    assert_eq!(sends, vec![Message::Ack { length: 0 }]);
}

#[test]
fn characters_are_not_cut_in_two() {
    let (_, _, client) = receive(Client::new(1), data(0, "a"));
    let step = client.handle(Event::Received(data(0, "\u{e9}")));
    assert_eq!(step.next, Next::Fault);
    assert_eq!(step.sends, vec![]);
    let (_, _, client) = receive(Client::new(1), data(0, "\u{e9}\n"));
    assert_eq!(
        client.handle(Event::Received(Message::Ack { length: 1 })).next,
        Next::Fault
    );
    let mut client = Client::new(1);
    assert_eq!(client.send_data("ab"), Some(data(0, "ab")));
    assert_eq!(client.send_data(&"\u{e9}".repeat(600)), Some(data(0, &("ab".to_owned() + &"\u{e9}".repeat(449)))));
    let mut client = Client::new(1);
    assert_eq!(client.send_data(&("a".to_owned() + &"\u{e9}".repeat(600))), None);
}

#[test]
fn datagrams_may_end_in_white_space() {
    assert_eq!(parse_datagram("/connect/1/\n"), Some((1, Message::Connect)));
    assert_eq!(parse_datagram("/connect/1/ \u{2003}\t"), Some((1, Message::Connect)));
    assert_eq!(parse_datagram("/connect/1/x"), None);
    assert_eq!(parse_datagram("connect"), None);
    for n in 0..0x11_0000u32 {
        if let Some(c) = char::from_u32(n) {
            if c.is_whitespace() || n < 0x100 || (0x1680..0x3100).contains(&n) {
                let mut text = "/close/3/".to_owned();
                text.push(c);
                assert_eq!(parse_datagram(&text).is_some(), c.is_whitespace(), "{n:x}");
            }
        }
    }
}

#[test]
fn messages_go_to_their_sessions() {
    assert_eq!(dispatch(Message::Close, true), Dispatch::Forward(Message::Close));
    assert_eq!(
        dispatch(Message::Connect, false),
        Dispatch::Open(Message::Ack { length: 0 })
    );
    assert_eq!(dispatch(data(0, "x"), false), Dispatch::Reject(Message::Close));
}
