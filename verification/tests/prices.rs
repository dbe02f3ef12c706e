use protohackers::prices::{parse_message, Message, PriceHistory};

fn insert(timestamp: i32, price: i32) -> Message {
    Message::Insert { timestamp, price }
}

fn query(mintime: i32, maxtime: i32) -> Message {
    Message::Query { mintime, maxtime }
}

#[test]
fn price_messages_have_nine_bytes() {
    assert_eq!(
        parse_message(&[0x49, 0x00, 0x00, 0x30, 0x39, 0x00, 0x00, 0x00, 0x65]),
        Some(insert(12345, 101))
    );
    assert_eq!(
        parse_message(&[0x51, 0x00, 0x00, 0x30, 0x00, 0x00, 0x00, 0x40, 0x00]),
        Some(query(12288, 16384))
    );
    assert_eq!(
        parse_message(&[0x49, 0xff, 0xff, 0xff, 0xff, 0x80, 0x00, 0x00, 0x00]),
        Some(insert(-1, i32::MIN))
    );
    assert_eq!(parse_message(&[0x50, 0, 0, 0, 0, 0, 0, 0, 0]), None);
}

#[test]
fn a_query_gives_the_mean() {
    let mut history = PriceHistory::new();
    for (timestamp, price) in [(12345, 101), (12346, 102), (12347, 100), (40960, 5)] {
        assert_eq!(history.handle(insert(timestamp, price)), None);
    }
    assert_eq!(history.handle(query(12288, 16384)), Some(101));
    assert_eq!(history.average(40960, 40960), 5);
}

#[test]
fn empty_and_reversed_periods_have_the_mean_zero() {
    let mut history = PriceHistory::new();
    assert_eq!(history.average(i32::MIN, i32::MAX), 0);
    history.insert(10, 7);
    assert_eq!(history.average(11, 20), 0);
    assert_eq!(history.average(20, 0), 0);
    assert_eq!(history.average(10, 10), 7);
}

#[test]
fn means_are_cut_off_towards_zero() {
    let mut history = PriceHistory::new();
    history.insert(0, -1);
    history.insert(1, -2);
    assert_eq!(history.average(0, 1), -1);
    history.insert(0, 1);
    history.insert(1, 2);
    assert_eq!(history.average(0, 1), 1);
}

#[test]
fn means_do_not_overflow() {
    let mut history = PriceHistory::new();
    for t in 0..10 {
        history.insert(t, i32::MAX);
    }
    assert_eq!(history.average(0, 9), i32::MAX);
    for t in 0..10 {
        history.insert(t, i32::MIN);
    }
    assert_eq!(history.average(0, 9), i32::MIN);
}

#[test]
fn other_times_do_not_matter() {
    let mut history = PriceHistory::new();
    history.insert(5, 10);
    history.insert(6, 30);
    let before = history.average(5, 6);
    history.insert(7, 1_000_000);
    history.insert(4, -1_000_000);
    assert_eq!(history.average(5, 6), before);
    assert_eq!(before, 20);
}
