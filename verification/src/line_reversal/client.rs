//! The server's side of one session: it puts the client's stream together, reverses each complete
//! line, and sends the reversed lines until the client has acknowledged them.
//!
//! Positions in the streams count bytes. A message that would cut a character in two, or move a
//! position beyond thirty-two bits, is a [`Next::Fault`].

use vstd::prelude::*;
use vstd::string::*;
use vstd::utf8::*;

use crate::line_reversal::message::Message;
use crate::line_reversal::message::MessageView;
use crate::line_reversal::message::SessionToken;
use crate::text::before_byte;
use crate::text::byte_len;
use crate::text::byte_length;
use crate::text::chars_of;
use crate::text::complete_lines;
use crate::text::from_byte;
use crate::text::is_boundary;
use crate::text::law_lines_of_pieces;
use crate::text::law_split_join;
use crate::text::lemma_ascii_boundary;
use crate::text::lemma_encode_concat;
use crate::text::lemma_split_bytes;
use crate::text::lemma_split_without;
use crate::text::split_at_byte;
use crate::text::split_on;
use crate::text::take_lines;
use crate::text::unfinished_line;
use crate::text::views;

verus! {

/// The most bytes of data that one message carries.
pub const MAX_DATA_SIZE: usize = 900;

/// How long data stays unacknowledged before it is sent again.
pub const RETRANSMISSION_TIMEOUT_MILLIS: u64 = 100;

/// How long a session lives without a message from the client.
pub const SESSION_EXPIRY_TIMEOUT_SECS: u64 = 60;

/// The state of a session.
#[derive(Debug, PartialEq, Eq)]
pub struct Client {
    /// The number of the session.
    pub session_token: SessionToken,
    /// What has arrived since the last complete line.
    pub incoming_data_buffer: String,
    /// How many bytes of the client's stream have arrived.
    pub incoming_pos: u32,
    /// What the client has not acknowledged yet.
    pub outgoing_data: String,
    /// How many bytes the client has acknowledged.
    pub max_ack: u32,
}

/// The mathematical counterpart of [`Client`].
pub struct ClientView {
    pub session_token: SessionToken,
    pub incoming: Seq<char>,
    pub incoming_pos: u32,
    pub outgoing: Seq<char>,
    pub max_ack: u32,
}

impl View for Client {
    type V = ClientView;

    open spec fn view(&self) -> ClientView {
        ClientView {
            session_token: self.session_token,
            incoming: self.incoming_data_buffer@,
            incoming_pos: self.incoming_pos,
            outgoing: self.outgoing_data@,
            max_ack: self.max_ack,
        }
    }
}

/// What happens to a session.
#[derive(Debug, PartialEq, Eq)]
pub enum Event {
    /// A message of the client has come.
    Received(Message),
    /// Data has stayed unacknowledged for too long.
    RetransmissionDue,
    /// The client has been silent for too long.
    SessionExpired,
    /// No message can come any more.
    Disconnected,
}

/// The mathematical counterpart of [`Event`].
pub enum EventView {
    Received(MessageView),
    RetransmissionDue,
    SessionExpired,
    Disconnected,
}

impl View for Event {
    type V = EventView;

    open spec fn view(&self) -> EventView {
        match self {
            Event::Received(m) => EventView::Received(m@),
            Event::RetransmissionDue => EventView::RetransmissionDue,
            Event::SessionExpired => EventView::SessionExpired,
            Event::Disconnected => EventView::Disconnected,
        }
    }
}

/// What becomes of the retransmission timer.
#[derive(Debug, Clone, Copy, PartialEq, Eq, Structural)]
pub enum Timer {
    /// It stays as it is.
    Keep,
    /// It starts anew.
    Restart,
    /// It is stopped.
    Cancel,
}

/// How a session goes on.
#[derive(Debug, PartialEq, Eq)]
pub enum Next {
    /// It waits for the next event in this state.
    Continue(Client),
    /// It ends, and the client is told so.
    Close,
    /// It cannot go on: a character would be cut in two, or a position does not fit.
    Fault,
}

/// The mathematical counterpart of [`Next`].
pub enum NextView {
    Continue(ClientView),
    Close,
    Fault,
}

impl View for Next {
    type V = NextView;

    open spec fn view(&self) -> NextView {
        match self {
            Next::Continue(client) => NextView::Continue(client@),
            Next::Close => NextView::Close,
            Next::Fault => NextView::Fault,
        }
    }
}

/// What a session does on an event: the messages that it sends, in order, the retransmission
/// timer, and how it goes on.
#[derive(Debug, PartialEq, Eq)]
pub struct Step {
    pub sends: Vec<Message>,
    pub timer: Timer,
    pub next: Next,
}

/// The mathematical counterpart of [`Step`].
pub struct StepView {
    pub sends: Seq<MessageView>,
    pub timer: Timer,
    pub next: NextView,
}

/// The views of a sequence of messages.
pub open spec fn message_views(messages: Seq<Message>) -> Seq<MessageView> {
    messages.map_values(|m: Message| m@)
}

impl View for Step {
    type V = StepView;

    open spec fn view(&self) -> StepView {
        StepView { sends: message_views(self.sends@), timer: self.timer, next: self.next@ }
    }
}

/// `n` as a number of thirty-two bits, without the bits above them.
pub open spec fn low_bits(n: int) -> int {
    n % 0x1_0000_0000
}

/// The low thirty-two bits of `n`.
fn truncated(n: usize) -> (low: u32)
    ensures
        low == low_bits(n as int),
{
    let wide: u64 = n as u64;
    assert(wide as u32 == wide % 0x1_0000_0000) by (bit_vector);
    #[verifier::truncate]
    (wide as u32)
}

/// The session after a piece of the client's stream: whatever of it has not arrived before is
/// added. A piece that leaves a gap changes nothing.
pub open spec fn received(c: ClientView, pos: u32, data: Seq<char>) -> Option<ClientView> {
    let known = c.incoming_pos - pos;
    if 0 <= known < byte_len(data) {
        let end = c.incoming_pos + low_bits(byte_len(data) - known);
        if is_boundary(data, known) && end <= u32::MAX {
            Some(
                ClientView {
                    incoming: c.incoming + from_byte(data, known),
                    incoming_pos: end as u32,
                    ..c
                },
            )
        } else {
            None
        }
    } else {
        Some(c)
    }
}

/// The message with the first unacknowledged data, as much as one message carries.
pub open spec fn chunk(outgoing: Seq<char>, max_ack: u32) -> Option<MessageView> {
    let length = if byte_len(outgoing) < MAX_DATA_SIZE {
        byte_len(outgoing) as int
    } else {
        MAX_DATA_SIZE as int
    };
    if is_boundary(outgoing, length) {
        Some(MessageView::Data { pos: max_ack, data: before_byte(outgoing, length) })
    } else {
        None
    }
}

/// The answer to a line: the line reversed, and a line feed.
pub open spec fn reversed_line(line: Seq<char>) -> Seq<char> {
    line.reverse().push('\n')
}

/// What answering `lines` leads to.
pub struct Answers {
    /// The unacknowledged data with the answers at its end.
    pub outgoing: Seq<char>,
    /// One message for each line.
    pub sends: Seq<MessageView>,
    /// Whether every message could be made.
    pub complete: bool,
}

/// The answers to `lines`: each is added to the unacknowledged data, and then the first of that
/// data is sent. They stop at the first message that cannot be made.
pub open spec fn answers(outgoing: Seq<char>, max_ack: u32, lines: Seq<Seq<char>>) -> Answers
    decreases lines.len(),
{
    if lines.len() == 0 {
        Answers { outgoing, sends: Seq::empty(), complete: true }
    } else {
        let before = answers(outgoing, max_ack, lines.drop_last());
        if before.complete {
            let outgoing = before.outgoing + reversed_line(lines.last());
            match chunk(outgoing, max_ack) {
                Some(m) => Answers { outgoing, sends: before.sends.push(m), complete: true },
                None => Answers { outgoing, sends: before.sends, complete: false },
            }
        } else {
            before
        }
    }
}

/// What a session does on data of the client: it acknowledges all that has arrived, and answers
/// the lines that are complete.
pub open spec fn on_data(c: ClientView, pos: u32, data: Seq<char>) -> StepView {
    match received(c, pos, data) {
        Some(c) => {
            let a = answers(c.outgoing, c.max_ack, complete_lines(c.incoming));
            StepView {
                sends: seq![MessageView::Ack { length: c.incoming_pos }] + a.sends,
                timer: if a.sends.len() > 0 {
                    Timer::Restart
                } else {
                    Timer::Keep
                },
                next: if a.complete {
                    NextView::Continue(
                        ClientView {
                            incoming: unfinished_line(c.incoming),
                            outgoing: a.outgoing,
                            ..c
                        },
                    )
                } else {
                    NextView::Fault
                },
            }
        },
        None => StepView { sends: Seq::empty(), timer: Timer::Keep, next: NextView::Fault },
    }
}

/// What a session does on an acknowledgement: data that it covers is done with, and the rest goes
/// on. An old one changes nothing; one for more than was sent ends the session.
pub open spec fn on_ack(c: ClientView, length: u32) -> StepView {
    let progress = length - c.max_ack;
    if progress <= 0 {
        StepView { sends: Seq::empty(), timer: Timer::Keep, next: NextView::Continue(c) }
    } else if progress > low_bits(byte_len(c.outgoing) as int) {
        StepView { sends: Seq::empty(), timer: Timer::Keep, next: NextView::Close }
    } else if !is_boundary(c.outgoing, progress) {
        StepView { sends: Seq::empty(), timer: Timer::Keep, next: NextView::Fault }
    } else {
        let outgoing = from_byte(c.outgoing, progress);
        let after = ClientView { outgoing, max_ack: length, ..c };
        if outgoing.len() == 0 {
            StepView { sends: Seq::empty(), timer: Timer::Cancel, next: NextView::Continue(after) }
        } else {
            on_chunk(after)
        }
    }
}

/// What a session does when it is to send unacknowledged data.
pub open spec fn on_chunk(c: ClientView) -> StepView {
    match chunk(c.outgoing, c.max_ack) {
        Some(m) => StepView {
            sends: seq![m],
            timer: Timer::Restart,
            next: NextView::Continue(c),
        },
        None => StepView { sends: Seq::empty(), timer: Timer::Keep, next: NextView::Fault },
    }
}

/// What a session does on an event.
pub open spec fn step(c: ClientView, event: EventView) -> StepView {
    match event {
        EventView::Received(MessageView::Connect) => StepView {
            sends: seq![MessageView::Ack { length: 0 }],
            timer: Timer::Keep,
            next: NextView::Continue(c),
        },
        EventView::Received(MessageView::Data { pos, data }) => on_data(c, pos, data),
        EventView::Received(MessageView::Ack { length }) => on_ack(c, length),
        EventView::RetransmissionDue => on_chunk(c),
        EventView::Received(MessageView::Close)
        | EventView::SessionExpired
        | EventView::Disconnected => StepView {
            sends: Seq::empty(),
            timer: Timer::Keep,
            next: NextView::Close,
        },
    }
}

/// A step that sends nothing and leaves the timer alone.
fn quiet(next: Next) -> (out: Step)
    ensures
        out@ == (StepView { sends: Seq::empty(), timer: Timer::Keep, next: next@ }),
{
    let out = Step { sends: Vec::new(), timer: Timer::Keep, next };
    assert(message_views(out.sends@) == Seq::<MessageView>::empty());
    out
}

/// The answer to a line.
fn reverse_line(line: &str) -> (out: String)
    ensures
        out@ == reversed_line(line@),
{
    let chars = chars_of(line);
    let mut out = String::new();
    let mut i: usize = chars.len();
    while i > 0
        invariant
            i <= chars.len(),
            chars@ == line@,
            out@ == chars@.reverse().take(chars.len() - i),
        decreases i,
    {
        i = i - 1;
        out.push(chars[i]);
        assert(chars@.reverse()[chars.len() - 1 - i] == chars@[i as int]);
        assert(chars@.reverse().take(chars.len() - i) == chars@.reverse().take(
            chars.len() - 1 - i,
        ).push(chars@[i as int]));
    }
    assert(chars@.reverse().take(chars.len() as int) == chars@.reverse());
    out.push('\n');
    out
}

impl Client {
    /// A session in which nothing has been said yet.
    pub fn new(session_token: SessionToken) -> (client: Client)
        ensures
            client@ == (ClientView {
                session_token,
                incoming: Seq::empty(),
                incoming_pos: 0,
                outgoing: Seq::empty(),
                max_ack: 0,
            }),
    {
        Client {
            session_token,
            incoming_data_buffer: String::new(),
            incoming_pos: 0,
            outgoing_data: String::new(),
            max_ack: 0,
        }
    }

    /// The message with the first unacknowledged data.
    pub fn send_data_chunk(&self) -> (out: Option<Message>)
        ensures
            out is Some == chunk(self@.outgoing, self.max_ack) is Some,
            out matches Some(m) ==> chunk(self@.outgoing, self.max_ack) == Some(m@),
    {
        let length: usize = byte_length(self.outgoing_data.as_str());
        let chunk_length: usize = if length < MAX_DATA_SIZE {
            length
        } else {
            MAX_DATA_SIZE
        };
        match split_at_byte(self.outgoing_data.as_str(), chunk_length) {
            Some((data, _rest)) => Some(
                Message::Data { pos: self.max_ack, data: data.to_owned() },
            ),
            None => None,
        }
    }

    /// Adds to the unacknowledged data, and gives the message with the first of it.
    pub fn send_data(&mut self, data: &str) -> (out: Option<Message>)
        ensures
            final(self)@ == (ClientView { outgoing: old(self)@.outgoing + data@, ..old(self)@ }),
            out is Some == chunk(final(self)@.outgoing, old(self).max_ack) is Some,
            out matches Some(m) ==> chunk(final(self)@.outgoing, old(self).max_ack) == Some(m@),
    {
        self.outgoing_data.append(data);
        self.send_data_chunk()
    }

    /// Answers the complete lines that have arrived, and keeps the open one. Gives the messages to
    /// send, and whether all of them could be made.
    pub fn run_application(&mut self) -> (out: (Vec<Message>, bool))
        ensures
            ({
                let a = answers(old(self)@.outgoing, old(self).max_ack, complete_lines(old(self)@.incoming));
                &&& message_views(out.0@) == a.sends
                &&& out.1 == a.complete
                &&& final(self)@ == (ClientView {
                    incoming: unfinished_line(old(self)@.incoming),
                    outgoing: a.outgoing,
                    ..old(self)@
                })
            }),
    {
        let ghost before = self@;
        let (lines, open) = take_lines(self.incoming_data_buffer.as_str());
        self.incoming_data_buffer = open;
        let ghost all = complete_lines(before.incoming);
        let mut sends: Vec<Message> = Vec::new();
        let mut i: usize = 0;
        assert(all.take(0) == Seq::<Seq<char>>::empty());
        assert(message_views(sends@) == Seq::<MessageView>::empty());
        while i < lines.len()
            invariant
                i <= lines.len(),
                before == old(self)@,
                views(lines@) == all,
                all == complete_lines(before.incoming),
                answers(before.outgoing, before.max_ack, all.take(i as int)).complete,
                answers(before.outgoing, before.max_ack, all.take(i as int)).sends == message_views(
                    sends@,
                ),
                self@ == (ClientView {
                    incoming: unfinished_line(before.incoming),
                    outgoing: answers(
                        before.outgoing,
                        before.max_ack,
                        all.take(i as int),
                    ).outgoing,
                    ..before
                }),
            decreases lines.len() - i,
        {
            proof {
                assert(views(lines@)[i as int] == lines@[i as int]@);
                assert(all.take(i + 1).drop_last() == all.take(i as int));
                assert(all.take(i + 1).last() == all[i as int]);
            }
            let reversed = reverse_line(lines[i].as_str());
            match self.send_data(reversed.as_str()) {
                Some(m) => {
                    let ghost sent = sends@;
                    sends.push(m);
                    assert(message_views(sends@) == message_views(sent).push(m@));
                },
                None => {
                    proof {
                        lemma_answers_stop(before.outgoing, before.max_ack, all, i + 1);
                    }
                    return (sends, false);
                },
            }
            i = i + 1;
        }
        assert(all.take(all.len() as int) == all);
        (sends, true)
    }

    /// Takes in a piece of the client's stream. False, and nothing changed, where the piece would
    /// cut a character in two or move the position beyond its range.
    fn receive(&mut self, pos: u32, data: &str) -> (ok: bool)
        ensures
            ok == received(old(self)@, pos, data@) is Some,
            ok ==> received(old(self)@, pos, data@) == Some(final(self)@),
            !ok ==> final(self)@ == old(self)@,
    {
        if pos > self.incoming_pos {
            return true;
        }
        let known: u32 = self.incoming_pos - pos;
        let length: usize = byte_length(data);
        if known as usize >= length {
            return true;
        }
        let fresh: usize = length - known as usize;
        let added: u32 = truncated(fresh);
        match split_at_byte(data, known as usize) {
            Some((_old, new)) => match self.incoming_pos.checked_add(added) {
                Some(end) => {
                    self.incoming_data_buffer.append(new);
                    self.incoming_pos = end;
                    true
                },
                None => false,
            },
            None => false,
        }
    }

    /// Does what a session does on an event.
    pub fn handle(self, event: Event) -> (out: Step)
        ensures
            out@ == step(self@, event@),
    {
        let mut client = self;
        match event {
            Event::Received(Message::Connect) => {
                let mut sends: Vec<Message> = Vec::new();
                sends.push(Message::Ack { length: 0 });
                assert(message_views(sends@) == seq![MessageView::Ack { length: 0 }]);
                Step { sends, timer: Timer::Keep, next: Next::Continue(client) }
            },
            Event::Received(Message::Data { pos, data }) => {
                if !client.receive(pos, data.as_str()) {
                    return quiet(Next::Fault);
                }
                let mut sends: Vec<Message> = Vec::new();
                sends.push(Message::Ack { length: client.incoming_pos });
                let ghost ack = MessageView::Ack { length: client.incoming_pos };
                assert(message_views(sends@) == seq![ack]);
                let (mut data_sends, complete) = client.run_application();
                let timer = if data_sends.len() > 0 {
                    Timer::Restart
                } else {
                    Timer::Keep
                };
                let ghost answered = data_sends@;
                sends.append(&mut data_sends);
                assert(message_views(sends@) == seq![ack] + message_views(answered));
                if complete {
                    Step { sends, timer, next: Next::Continue(client) }
                } else {
                    Step { sends, timer, next: Next::Fault }
                }
            },
            Event::Received(Message::Ack { length }) => {
                if length <= client.max_ack {
                    return quiet(Next::Continue(client));
                }
                let progress_made: u32 = length - client.max_ack;
                let buffered: usize = byte_length(client.outgoing_data.as_str());
                let remaining_buffer: u32 = truncated(buffered);
                if progress_made > remaining_buffer {
                    return quiet(Next::Close);
                }
                let rest: String = match split_at_byte(
                    client.outgoing_data.as_str(),
                    progress_made as usize,
                ) {
                    Some((_acknowledged, rest)) => rest.to_owned(),
                    None => {
                        return quiet(Next::Fault);
                    },
                };
                let done: bool = rest.as_str().is_empty();
                client.outgoing_data = rest;
                client.max_ack = length;
                if done {
                    let mut out = quiet(Next::Continue(client));
                    out.timer = Timer::Cancel;
                    out
                } else {
                    client.resend()
                }
            },
            Event::RetransmissionDue => client.resend(),
            Event::Received(Message::Close)
            | Event::SessionExpired
            | Event::Disconnected => quiet(Next::Close),
        }
    }

    /// Sends the first unacknowledged data.
    fn resend(self) -> (out: Step)
        ensures
            out@ == on_chunk(self@),
    {
        match self.send_data_chunk() {
            Some(m) => {
                let mut sends: Vec<Message> = Vec::new();
                sends.push(m);
                assert(message_views(sends@) == seq![m@]);
                Step { sends, timer: Timer::Restart, next: Next::Continue(self) }
            },
            None => quiet(Next::Fault),
        }
    }
}

proof fn lemma_answers_stop(outgoing: Seq<char>, max_ack: u32, lines: Seq<Seq<char>>, n: int)
    requires
        0 <= n <= lines.len(),
        !answers(outgoing, max_ack, lines.take(n)).complete,
    ensures
        answers(outgoing, max_ack, lines) == answers(outgoing, max_ack, lines.take(n)),
    decreases lines.len() - n,
{
    if n == lines.len() {
        assert(lines.take(n) == lines);
    } else {
        assert(lines.take(n + 1).drop_last() == lines.take(n));
        lemma_answers_stop(outgoing, max_ack, lines, n + 1);
    }
}

/// Data that belongs to a stream puts the stream together: the bytes that are added are those of
/// the stream behind the ones that were there, none twice and none left out. Only a character that
/// would be cut in two stands in the way.
pub proof fn law_stream_is_put_together(c: ClientView, pos: u32, data: Seq<char>, stream: Seq<u8>)
    requires
        stream.len() <= u32::MAX,
        c.incoming_pos <= stream.len(),
        pos + byte_len(data) <= stream.len(),
        stream.subrange(pos as int, pos + byte_len(data)) == encode_utf8(data),
    ensures
        match received(c, pos, data) {
            Some(d) => {
                &&& c.incoming_pos <= d.incoming_pos <= stream.len()
                &&& pos <= c.incoming_pos ==> pos + byte_len(data) <= d.incoming_pos
                &&& encode_utf8(d.incoming) == encode_utf8(c.incoming) + stream.subrange(
                    c.incoming_pos as int,
                    d.incoming_pos as int,
                )
                &&& d == (ClientView {
                    incoming: d.incoming,
                    incoming_pos: d.incoming_pos,
                    ..c
                })
            },
            None => pos <= c.incoming_pos && !is_boundary(data, c.incoming_pos - pos),
        },
{
    let known = c.incoming_pos - pos;
    if 0 <= known < byte_len(data) {
        if is_boundary(data, known) {
            lemma_split_bytes(data, known);
            lemma_encode_concat(c.incoming, from_byte(data, known));
            assert(encode_utf8(data).subrange(known, byte_len(data) as int) == stream.subrange(
                c.incoming_pos as int,
                pos + byte_len(data),
            ));
        }
    } else {
        assert(stream.subrange(c.incoming_pos as int, c.incoming_pos as int) == Seq::<u8>::empty());
        assert(encode_utf8(c.incoming) + Seq::<u8>::empty() == encode_utf8(c.incoming));
    }
}

/// A session keeps only an open line: no line feed is in what it has yet to answer.
pub proof fn law_only_an_open_line_is_kept(c: ClientView, event: EventView)
    requires
        !c.incoming.contains('\n'),
    ensures
        step(c, event).next matches NextView::Continue(d) ==> !d.incoming.contains('\n'),
{
    if let EventView::Received(MessageView::Data { pos, data }) = event {
        if let Some(d) = received(c, pos, data) {
            law_split_join(d.incoming, '\n');
        }
    }
}

/// Data that has arrived before changes nothing: it is acknowledged again, and that is all.
pub proof fn law_repeated_data_is_only_acknowledged(c: ClientView, pos: u32, data: Seq<char>)
    requires
        !c.incoming.contains('\n'),
        pos + byte_len(data) <= c.incoming_pos,
    ensures
        step(c, EventView::Received(MessageView::Data { pos, data })) == (StepView {
            sends: seq![MessageView::Ack { length: c.incoming_pos }],
            timer: Timer::Keep,
            next: NextView::Continue(c),
        }),
{
    lemma_open_line_is_left_alone(c);
}

/// Data that leaves a gap changes nothing: what has arrived is acknowledged again.
pub proof fn law_early_data_is_only_acknowledged(c: ClientView, pos: u32, data: Seq<char>)
    requires
        !c.incoming.contains('\n'),
        pos > c.incoming_pos,
    ensures
        step(c, EventView::Received(MessageView::Data { pos, data })) == (StepView {
            sends: seq![MessageView::Ack { length: c.incoming_pos }],
            timer: Timer::Keep,
            next: NextView::Continue(c),
        }),
{
    lemma_open_line_is_left_alone(c);
}

proof fn lemma_open_line_is_left_alone(c: ClientView)
    requires
        !c.incoming.contains('\n'),
    ensures
        complete_lines(c.incoming) == Seq::<Seq<char>>::empty(),
        unfinished_line(c.incoming) == c.incoming,
        forall|ack: MessageView| #[trigger] (seq![ack] + Seq::<MessageView>::empty()) == seq![ack],
{
    lemma_split_without(c.incoming, '\n');
    assert(complete_lines(c.incoming) == Seq::<Seq<char>>::empty());
    assert forall|ack: MessageView| #[trigger]
        (seq![ack] + Seq::<MessageView>::empty()) == seq![ack] by {}
}

/// The answers to `lines`, one behind the other.
pub open spec fn reversed_lines(lines: Seq<Seq<char>>) -> Seq<char>
    decreases lines.len(),
{
    if lines.len() == 0 {
        Seq::empty()
    } else {
        reversed_lines(lines.drop_last()) + reversed_line(lines.last())
    }
}

/// What a session comes to owe the client for `lines` is the reversed lines, in order, and each
/// line is followed by one message.
pub proof fn law_answers_are_the_reversed_lines(
    outgoing: Seq<char>,
    max_ack: u32,
    lines: Seq<Seq<char>>,
)
    requires
        answers(outgoing, max_ack, lines).complete,
    ensures
        answers(outgoing, max_ack, lines).outgoing == outgoing + reversed_lines(lines),
        answers(outgoing, max_ack, lines).sends.len() == lines.len(),
    decreases lines.len(),
{
    if lines.len() > 0 {
        law_answers_are_the_reversed_lines(outgoing, max_ack, lines.drop_last());
        assert((outgoing + reversed_lines(lines.drop_last())) + reversed_line(lines.last())
            == outgoing + reversed_lines(lines));
    } else {
        assert(outgoing + reversed_lines(lines) == outgoing);
    }
}

proof fn lemma_reversed_lines_concat(a: Seq<Seq<char>>, b: Seq<Seq<char>>)
    ensures
        reversed_lines(a + b) == reversed_lines(a) + reversed_lines(b),
    decreases b.len(),
{
    if b.len() == 0 {
        assert(a + b == a);
        assert(reversed_lines(a) + reversed_lines(b) == reversed_lines(a));
    } else {
        assert((a + b).drop_last() == a + b.drop_last());
        lemma_reversed_lines_concat(a, b.drop_last());
        assert(reversed_lines(a + b) == reversed_lines(a) + reversed_lines(b));
    }
}

/// The pieces in which a text arrives make no difference to what the client is owed for it.
pub proof fn law_pieces_make_no_difference(a: Seq<char>, b: Seq<char>)
    ensures
        reversed_lines(complete_lines(a + b)) == reversed_lines(complete_lines(a))
            + reversed_lines(complete_lines(unfinished_line(a) + b)),
        unfinished_line(a + b) == unfinished_line(unfinished_line(a) + b),
{
    law_lines_of_pieces(a, b);
    lemma_reversed_lines_concat(complete_lines(a), complete_lines(unfinished_line(a) + b));
}

/// A data message begins where the client's acknowledgements end, carries the first of what is
/// unacknowledged, no more than one message may hold, and something where there is something.
pub proof fn law_chunk_is_the_first_unacknowledged_data(outgoing: Seq<char>, max_ack: u32)
    ensures
        chunk(outgoing, max_ack) matches Some(m) ==> {
            &&& m matches MessageView::Data { pos, data }
            &&& pos == max_ack
            &&& byte_len(data) <= MAX_DATA_SIZE
            &&& byte_len(data) == byte_len(outgoing) || byte_len(data) == MAX_DATA_SIZE
            &&& encode_utf8(data) == encode_utf8(outgoing).take(byte_len(data) as int)
        },
        chunk(outgoing, max_ack) is None ==> byte_len(outgoing) > MAX_DATA_SIZE,
{
    let length = if byte_len(outgoing) < MAX_DATA_SIZE {
        byte_len(outgoing) as int
    } else {
        MAX_DATA_SIZE as int
    };
    encode_utf8_valid_utf8(outgoing);
    is_char_boundary_start_end_of_seq(encode_utf8(outgoing));
    if is_boundary(outgoing, length) {
        lemma_split_bytes(outgoing, length);
    }
}

/// An acknowledgement takes away exactly the bytes that it covers: what is left is the rest of
/// what was there, and it ends where it ended before.
pub proof fn law_acknowledged_data_is_done_with(c: ClientView, length: u32)
    requires
        length > c.max_ack,
    ensures
        step(c, EventView::Received(MessageView::Ack { length })).next matches NextView::Continue(d)
            ==> {
            &&& d.max_ack == length
            &&& length - c.max_ack <= byte_len(c.outgoing)
            &&& encode_utf8(d.outgoing) == encode_utf8(c.outgoing).skip(length - c.max_ack)
            &&& d.max_ack + byte_len(d.outgoing) == c.max_ack + byte_len(c.outgoing)
            &&& d.incoming == c.incoming && d.incoming_pos == c.incoming_pos
        },
{
    if is_boundary(c.outgoing, length - c.max_ack) {
        lemma_split_bytes(c.outgoing, length - c.max_ack);
    }
}

/// Whether the retransmission timer runs after a step, given whether it ran before.
pub open spec fn timer_runs(before: bool, timer: Timer) -> bool {
    match timer {
        Timer::Keep => before,
        Timer::Restart => true,
        Timer::Cancel => false,
    }
}

/// The retransmission timer runs just while there is unacknowledged data.
pub proof fn law_timer_runs_while_data_is_unacknowledged(c: ClientView, event: EventView, runs: bool)
    requires
        runs == (c.outgoing.len() > 0),
        event is RetransmissionDue ==> runs,
    ensures
        step(c, event).next matches NextView::Continue(d) ==> timer_runs(
            runs,
            step(c, event).timer,
        ) == (d.outgoing.len() > 0),
{
    if let EventView::Received(MessageView::Data { pos, data }) = event {
        if let Some(d) = received(c, pos, data) {
            let lines = complete_lines(d.incoming);
            if answers(d.outgoing, d.max_ack, lines).complete {
                law_answers_are_the_reversed_lines(d.outgoing, d.max_ack, lines);
                if lines.len() == 0 {
                    assert(reversed_lines(lines) == Seq::<char>::empty());
                }
            }
        }
    }
}

/// What is unacknowledged when the timer fires is sent again, and nothing else changes.
pub proof fn law_retransmission_changes_nothing(c: ClientView)
    ensures
        step(c, EventView::RetransmissionDue).next matches NextView::Continue(d) ==> d == c && chunk(
            c.outgoing,
            c.max_ack,
        ) == Some(step(c, EventView::RetransmissionDue).sends[0]) && step(
            c,
            EventView::RetransmissionDue,
        ).sends.len() == 1,
{
}

/// A session in ASCII has no faults, and stays in ASCII, unless data that goes on with the client's
/// stream takes its position beyond what thirty-two bits hold.
pub proof fn law_ascii_has_no_faults(c: ClientView, event: EventView)
    requires
        is_ascii_chars(c.incoming),
        is_ascii_chars(c.outgoing),
        event matches EventView::Received(MessageView::Data { pos, data }) ==> is_ascii_chars(data)
            && (pos <= c.incoming_pos < pos + data.len() ==> c.incoming_pos + low_bits(
            pos + data.len() - c.incoming_pos,
        ) <= u32::MAX),
    ensures
        !(step(c, event).next is Fault),
        step(c, event).next matches NextView::Continue(d) ==> is_ascii_chars(d.incoming)
            && is_ascii_chars(d.outgoing),
{
    lemma_ascii_chunk(c.outgoing, c.max_ack);
    match event {
        EventView::Received(MessageView::Data { pos, data }) => {
            lemma_ascii_boundary(data, 0);
            let known = c.incoming_pos - pos;
            if 0 <= known < byte_len(data) {
                lemma_ascii_boundary(data, known);
            }
            let d = received(c, pos, data)->Some_0;
            lemma_ascii_lines(d.incoming);
            lemma_ascii_answers(d.outgoing, d.max_ack, complete_lines(d.incoming));
        },
        EventView::Received(MessageView::Ack { length }) => {
            let progress = length - c.max_ack;
            lemma_ascii_boundary(c.outgoing, 0);
            if 0 < progress <= low_bits(byte_len(c.outgoing) as int) {
                lemma_ascii_boundary(c.outgoing, progress);
                lemma_ascii_chunk(from_byte(c.outgoing, progress), length);
            }
        },
        _ => {},
    }
}

proof fn lemma_ascii_chunk(outgoing: Seq<char>, max_ack: u32)
    requires
        is_ascii_chars(outgoing),
    ensures
        chunk(outgoing, max_ack) is Some,
{
    lemma_ascii_boundary(outgoing, 0);
    if outgoing.len() < MAX_DATA_SIZE {
        lemma_ascii_boundary(outgoing, outgoing.len() as int);
    } else {
        lemma_ascii_boundary(outgoing, MAX_DATA_SIZE as int);
    }
}

proof fn lemma_ascii_pieces(text: Seq<char>, sep: char)
    requires
        is_ascii_chars(text),
    ensures
        split_on(text, sep).len() >= 1,
        forall|i: int| 0 <= i < split_on(text, sep).len() ==> is_ascii_chars(#[trigger] split_on(text, sep)[i]),
    decreases text.len(),
{
    if text.len() > 0 {
        lemma_ascii_pieces(text.drop_last(), sep);
        let before = split_on(text.drop_last(), sep);
        assert(is_ascii_chars(before.last()));
        assert('\0' <= text[text.len() - 1] <= '\u{7f}');
    }
}

proof fn lemma_ascii_lines(text: Seq<char>)
    requires
        is_ascii_chars(text),
    ensures
        is_ascii_chars(unfinished_line(text)),
        forall|i: int| 0 <= i < complete_lines(text).len() ==> is_ascii_chars(#[trigger] complete_lines(text)[i]),
{
    lemma_ascii_pieces(text, '\n');
    assert forall|i: int| 0 <= i < complete_lines(text).len() implies is_ascii_chars(
        #[trigger] complete_lines(text)[i],
    ) by {
        assert(is_ascii_chars(split_on(text, '\n')[i]));
    }
}

proof fn lemma_ascii_answers(outgoing: Seq<char>, max_ack: u32, lines: Seq<Seq<char>>)
    requires
        is_ascii_chars(outgoing),
        forall|i: int| 0 <= i < lines.len() ==> is_ascii_chars(#[trigger] lines[i]),
    ensures
        answers(outgoing, max_ack, lines).complete,
        is_ascii_chars(answers(outgoing, max_ack, lines).outgoing),
    decreases lines.len(),
{
    if lines.len() > 0 {
        lemma_ascii_answers(outgoing, max_ack, lines.drop_last());
        let before = answers(outgoing, max_ack, lines.drop_last()).outgoing;
        let line = lines[lines.len() - 1];
        assert(is_ascii_chars(line));
        assert(is_ascii_chars(reversed_line(line)));
        is_ascii_chars_concat(before + reversed_line(line), before, reversed_line(line));
        lemma_ascii_chunk(before + reversed_line(line), max_ack);
    }
}

} // verus!
