use protohackers::chat::{greeting, handle, Action, Event, Refusal, Room};

#[test]
fn clients_are_greeted() {
    assert_eq!(greeting(), "hey, what's your name?\n");
}

#[test]
fn new_members_learn_who_is_there() {
    let mut room = Room::new();
    let bob = room.join("bob").unwrap();
    assert_eq!(bob.presence, "* this room currently has nobody in it\n");
    assert_eq!(bob.announcement, "* bob has joined the chat\n");
    let dave = room.join("dave").unwrap();
    assert_eq!(dave.presence, "* this room currently has bob in it\n");
    let alice = room.join("alice").unwrap();
    assert_eq!(alice.presence, "* this room currently has bob, dave in it\n");
    assert_eq!(alice.announcement, "* alice has joined the chat\n");
}

#[test]
fn names_are_taken_once() {
    let mut room = Room::new();
    assert!(room.join("bob").is_ok());
    assert_eq!(room.join("bob"), Err(Refusal::Taken));
    room.leave("bob");
    let again = room.join("bob").unwrap();
    assert_eq!(again.presence, "* this room currently has nobody in it\n");
}

#[test]
fn leaving_undoes_joining() {
    let mut room = Room::new();
    room.join("a").unwrap();
    room.join("b").unwrap();
    room.join("c").unwrap();
    room.leave("b");
    room.leave("nobody");
    assert_eq!(
        room.join("d").unwrap().presence,
        "* this room currently has a, c in it\n"
    );
}

#[test]
fn names_are_measured_in_bytes() {
    let mut room = Room::new();
    assert!(room.join(&"x".repeat(32)).is_ok());
    assert_eq!(room.join(&"x".repeat(33)), Err(Refusal::TooLong));
    assert!(room.join(&"\u{e9}".repeat(16)).is_ok());
    assert_eq!(room.join(&"\u{e9}".repeat(17)), Err(Refusal::TooLong));
    assert!(room.join("").is_ok());
}

#[test]
fn members_are_told_what_others_say() {
    let said = handle("alice", Event::Says("hi".to_owned()));
    assert_eq!(said, Action::TellAll("[alice] hi\n".to_owned()));
    let message = "[alice] hi\n".to_owned();
    assert_eq!(handle("alice", Event::Told(message.clone())), Action::Wait);
    assert_eq!(
        handle("bob", Event::Told(message.clone())),
        Action::Tell(message.clone())
    );
    assert_eq!(handle("ali", Event::Told(message.clone())), Action::Tell(message));
}

#[test]
fn brackets_in_names_can_silence() {
    let message = "[a] b] hi\n".to_owned();
    assert_eq!(
        handle("a] b", Event::Says("hi".to_owned())),
        Action::TellAll(message.clone())
    );
    assert_eq!(handle("a", Event::Told(message)), Action::Wait);
}

#[test]
fn members_are_told_who_comes_and_goes() {
    let joined = "* bob has joined the chat\n".to_owned();
    assert_eq!(handle("bob", Event::Told(joined.clone())), Action::Tell(joined));
    let left = "* bob has left the chat\n".to_owned();
    assert_eq!(handle("bob", Event::Gone), Action::Leave(left.clone()));
    assert_eq!(handle("alice", Event::Told(left.clone())), Action::Tell(left));
}
