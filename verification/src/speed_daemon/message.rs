//! The messages of the protocol, and how they are read and written.
//!
//! A message arrives in pieces: as long as its end is missing it is neither right nor wrong.

use vstd::prelude::*;
use vstd::slice::slice_subrange;
use vstd::string::*;
use vstd::utf8::*;

use crate::bytes::be_u16;
use crate::bytes::be_u32;
use crate::bytes::law_u16_reads_back;
use crate::bytes::law_u32_reads_back;
use crate::bytes::push_u16;
use crate::bytes::push_u32;
use crate::bytes::read_u16;
use crate::bytes::read_u32;
use crate::bytes::u16_bytes;
use crate::bytes::u32_bytes;
use crate::text::byte_len;

verus! {

/// The byte that begins an error.
pub const ERROR: u8 = 0x10;

/// The byte that begins the report of a plate.
pub const PLATE: u8 = 0x20;

/// The byte that begins a ticket.
pub const TICKET: u8 = 0x21;

/// The byte that begins the request for a heartbeat.
pub const WANT_HEARTBEAT: u8 = 0x40;

/// The byte that is a heartbeat.
pub const HEARTBEAT: u8 = 0x41;

/// The byte with which a client says that it is a camera.
pub const I_AM_CAMERA: u8 = 0x80;

/// The byte with which a client says that it is a dispatcher.
pub const I_AM_DISPATCHER: u8 = 0x81;

/// A plate that a camera saw, and when.
#[derive(Debug, PartialEq, Eq)]
pub struct PlateReading {
    pub plate: String,
    pub timestamp: u32,
}

/// The mathematical counterpart of [`PlateReading`].
pub struct PlateReadingView {
    pub plate: Seq<char>,
    pub timestamp: u32,
}

impl View for PlateReading {
    type V = PlateReadingView;

    open spec fn view(&self) -> PlateReadingView {
        PlateReadingView { plate: self.plate@, timestamp: self.timestamp }
    }
}

/// What a client says.
#[derive(Debug, PartialEq, Eq)]
pub enum Message {
    /// A camera saw a plate.
    Plate(PlateReading),
    /// The client wants a heartbeat each `interval` tenths of a second.
    WantHeartbeat { interval: u32 },
    /// The client is a camera at a mile of a road with a limit.
    IAmCamera { road: u16, mile: u16, limit: u16 },
    /// The client dispatches the tickets of these roads.
    IAmDispatcher { roads: Vec<u16> },
}

/// The mathematical counterpart of [`Message`].
pub enum MessageView {
    Plate(PlateReadingView),
    WantHeartbeat { interval: u32 },
    IAmCamera { road: u16, mile: u16, limit: u16 },
    IAmDispatcher { roads: Seq<u16> },
}

impl View for Message {
    type V = MessageView;

    open spec fn view(&self) -> MessageView {
        match self {
            Message::Plate(reading) => MessageView::Plate(reading@),
            Message::WantHeartbeat { interval } => MessageView::WantHeartbeat {
                interval: *interval,
            },
            Message::IAmCamera { road, mile, limit } => MessageView::IAmCamera {
                road: *road,
                mile: *mile,
                limit: *limit,
            },
            Message::IAmDispatcher { roads } => MessageView::IAmDispatcher { roads: roads@ },
        }
    }
}

/// What reading something at the beginning of some bytes comes to.
#[derive(Debug, PartialEq, Eq)]
pub enum Parsed<'a, T> {
    /// The end of it is not there yet.
    Incomplete,
    /// It is not there, whatever may follow.
    Invalid,
    /// It is there, and these bytes follow it.
    Done(&'a [u8], T),
}

/// The mathematical counterpart of [`Parsed`].
pub enum Outcome<T> {
    Incomplete,
    Invalid,
    Done(Seq<u8>, T),
}

impl<'a, T: View> View for Parsed<'a, T> {
    type V = Outcome<T::V>;

    open spec fn view(&self) -> Outcome<T::V> {
        match self {
            Parsed::Incomplete => Outcome::Incomplete,
            Parsed::Invalid => Outcome::Invalid,
            Parsed::Done(rest, value) => Outcome::Done(rest@, value@),
        }
    }
}

/// The byte `kind`, and nothing else.
pub open spec fn kind_byte(input: Seq<u8>, kind: u8) -> Outcome<()> {
    if input.len() == 0 {
        Outcome::Incomplete
    } else if input[0] != kind {
        Outcome::Invalid
    } else {
        Outcome::Done(input.skip(1), ())
    }
}

/// A number of two bytes.
pub open spec fn uint16(input: Seq<u8>) -> Outcome<u16> {
    if input.len() < 2 {
        Outcome::Incomplete
    } else {
        Outcome::Done(input.skip(2), be_u16(input))
    }
}

/// A number of four bytes.
pub open spec fn uint32(input: Seq<u8>) -> Outcome<u32> {
    if input.len() < 4 {
        Outcome::Incomplete
    } else {
        Outcome::Done(input.skip(4), be_u32(input))
    }
}

/// Whether `bytes` are in ASCII.
pub open spec fn is_ascii_bytes(bytes: Seq<u8>) -> bool {
    forall|i: int| 0 <= i < bytes.len() ==> #[trigger] bytes[i] < 0x80
}

/// The characters of which `bytes` are the numbers.
pub open spec fn ascii(bytes: Seq<u8>) -> Seq<char> {
    bytes.map_values(|b: u8| b as char)
}

/// A text: a byte that says how long it is, and that many bytes in ASCII.
pub open spec fn string(input: Seq<u8>) -> Outcome<Seq<char>> {
    if input.len() == 0 || input.len() < 1 + input[0] {
        Outcome::Incomplete
    } else {
        let end = 1 + input[0] as int;
        let body = input.subrange(1, end);
        if is_ascii_bytes(body) {
            Outcome::Done(input.skip(end), ascii(body))
        } else {
            Outcome::Invalid
        }
    }
}

/// A number of numbers of two bytes each.
pub open spec fn uint16s(input: Seq<u8>, n: nat) -> Outcome<Seq<u16>>
    decreases n,
{
    if n == 0 {
        Outcome::Done(input, Seq::empty())
    } else {
        match uint16s(input, (n - 1) as nat) {
            Outcome::Done(rest, numbers) => match uint16(rest) {
                Outcome::Done(rest, number) => Outcome::Done(rest, numbers.push(number)),
                Outcome::Incomplete => Outcome::Incomplete,
                Outcome::Invalid => Outcome::Invalid,
            },
            Outcome::Incomplete => Outcome::Incomplete,
            Outcome::Invalid => Outcome::Invalid,
        }
    }
}

/// The fields of the report of a plate.
pub open spec fn plate_fields(input: Seq<u8>) -> Outcome<MessageView> {
    match string(input) {
        Outcome::Done(rest, plate) => match uint32(rest) {
            Outcome::Done(rest, timestamp) => Outcome::Done(
                rest,
                MessageView::Plate(PlateReadingView { plate, timestamp }),
            ),
            Outcome::Incomplete => Outcome::Incomplete,
            Outcome::Invalid => Outcome::Invalid,
        },
        Outcome::Incomplete => Outcome::Incomplete,
        Outcome::Invalid => Outcome::Invalid,
    }
}

/// The field of the request for a heartbeat.
pub open spec fn want_heartbeat_fields(input: Seq<u8>) -> Outcome<MessageView> {
    match uint32(input) {
        Outcome::Done(rest, interval) => Outcome::Done(
            rest,
            MessageView::WantHeartbeat { interval },
        ),
        Outcome::Incomplete => Outcome::Incomplete,
        Outcome::Invalid => Outcome::Invalid,
    }
}

/// What a camera says of itself.
pub open spec fn i_am_camera_fields(input: Seq<u8>) -> Outcome<MessageView> {
    match uint16s(input, 3) {
        Outcome::Done(rest, n) => Outcome::Done(
            rest,
            MessageView::IAmCamera { road: n[0], mile: n[1], limit: n[2] },
        ),
        Outcome::Incomplete => Outcome::Incomplete,
        Outcome::Invalid => Outcome::Invalid,
    }
}

/// What a dispatcher says of itself.
pub open spec fn i_am_dispatcher_fields(input: Seq<u8>) -> Outcome<MessageView> {
    if input.len() == 0 {
        Outcome::Incomplete
    } else {
        match uint16s(input.skip(1), input[0] as nat) {
            Outcome::Done(rest, roads) => Outcome::Done(
                rest,
                MessageView::IAmDispatcher { roads },
            ),
            Outcome::Incomplete => Outcome::Incomplete,
            Outcome::Invalid => Outcome::Invalid,
        }
    }
}

/// A message at the beginning of `input`. Its first byte says of which kind it is.
pub open spec fn message(input: Seq<u8>) -> Outcome<MessageView> {
    if input.len() == 0 {
        Outcome::Incomplete
    } else if input[0] == PLATE {
        plate_fields(input.skip(1))
    } else if input[0] == WANT_HEARTBEAT {
        want_heartbeat_fields(input.skip(1))
    } else if input[0] == I_AM_CAMERA {
        i_am_camera_fields(input.skip(1))
    } else if input[0] == I_AM_DISPATCHER {
        i_am_dispatcher_fields(input.skip(1))
    } else {
        Outcome::Invalid
    }
}

/// The fields `of` a message behind the byte `kind`.
pub open spec fn tagged(
    input: Seq<u8>,
    kind: u8,
    fields: spec_fn(Seq<u8>) -> Outcome<MessageView>,
) -> Outcome<MessageView> {
    match kind_byte(input, kind) {
        Outcome::Done(rest, _) => fields(rest),
        Outcome::Incomplete => Outcome::Incomplete,
        Outcome::Invalid => Outcome::Invalid,
    }
}

/// Reads the byte `kind`.
fn parse_kind<'a>(input: &'a [u8], kind: u8) -> (out: Parsed<'a, ()>)
    ensures
        out@ == kind_byte(input@, kind),
{
    if input.len() == 0 {
        Parsed::Incomplete
    } else if input[0] != kind {
        Parsed::Invalid
    } else {
        let rest = slice_subrange(input, 1, input.len());
        assert(rest@ == input@.skip(1));
        Parsed::Done(rest, ())
    }
}

/// Reads a number of two bytes.
fn parse_u16<'a>(input: &'a [u8]) -> (out: Parsed<'a, u16>)
    ensures
        out@ == uint16(input@),
{
    if input.len() < 2 {
        Parsed::Incomplete
    } else {
        let n: u16 = read_u16(input, 0);
        assert(input@.skip(0) == input@);
        let rest = slice_subrange(input, 2, input.len());
        assert(rest@ == input@.skip(2));
        Parsed::Done(rest, n)
    }
}

/// Reads a number of four bytes.
fn parse_u32<'a>(input: &'a [u8]) -> (out: Parsed<'a, u32>)
    ensures
        out@ == uint32(input@),
{
    if input.len() < 4 {
        Parsed::Incomplete
    } else {
        let n: u32 = read_u32(input, 0);
        assert(input@.skip(0) == input@);
        let rest = slice_subrange(input, 4, input.len());
        assert(rest@ == input@.skip(4));
        Parsed::Done(rest, n)
    }
}

/// Reads a text.
pub fn message_string<'a>(input: &'a [u8]) -> (out: Parsed<'a, String>)
    ensures
        out@ == string(input@),
{
    if input.len() == 0 {
        return Parsed::Incomplete;
    }
    let end: usize = 1 + input[0] as usize;
    if input.len() < end {
        return Parsed::Incomplete;
    }
    let ghost body = input@.subrange(1, end as int);
    let mut text = String::new();
    let mut i: usize = 1;
    while i < end
        invariant
            1 <= i <= end <= input.len(),
            end == 1 + input@[0],
            body == input@.subrange(1, end as int),
            text@ == ascii(body).take(i - 1),
            forall|k: int| 0 <= k < i - 1 ==> #[trigger] body[k] < 0x80,
        decreases end - i,
    {
        assert(body[i - 1] == input@[i as int]);
        if input[i] >= 0x80 {
            assert(!is_ascii_bytes(body));
            return Parsed::Invalid;
        }
        text.push(input[i] as char);
        assert(ascii(body).take(i as int) == ascii(body).take(i - 1).push(input@[i as int] as char));
        i = i + 1;
    }
    assert(ascii(body).take(body.len() as int) == ascii(body));
    let rest = slice_subrange(input, end, input.len());
    assert(rest@ == input@.skip(end as int));
    Parsed::Done(rest, text)
}

/// Reads the report of a plate.
pub fn plate_message<'a>(input: &'a [u8]) -> (out: Parsed<'a, Message>)
    ensures
        out@ == tagged(input@, PLATE, |i: Seq<u8>| plate_fields(i)),
{
    match parse_kind(input, PLATE) {
        Parsed::Done(rest, _) => match message_string(rest) {
            Parsed::Done(rest, plate) => match parse_u32(rest) {
                Parsed::Done(rest, timestamp) => Parsed::Done(
                    rest,
                    Message::Plate(PlateReading { plate, timestamp }),
                ),
                Parsed::Incomplete => Parsed::Incomplete,
                Parsed::Invalid => Parsed::Invalid,
            },
            Parsed::Incomplete => Parsed::Incomplete,
            Parsed::Invalid => Parsed::Invalid,
        },
        Parsed::Incomplete => Parsed::Incomplete,
        Parsed::Invalid => Parsed::Invalid,
    }
}

/// Reads the request for a heartbeat.
pub fn want_heartbeat_message<'a>(input: &'a [u8]) -> (out: Parsed<'a, Message>)
    ensures
        out@ == tagged(input@, WANT_HEARTBEAT, |i: Seq<u8>| want_heartbeat_fields(i)),
{
    match parse_kind(input, WANT_HEARTBEAT) {
        Parsed::Done(rest, _) => match parse_u32(rest) {
            Parsed::Done(rest, interval) => Parsed::Done(rest, Message::WantHeartbeat { interval }),
            Parsed::Incomplete => Parsed::Incomplete,
            Parsed::Invalid => Parsed::Invalid,
        },
        Parsed::Incomplete => Parsed::Incomplete,
        Parsed::Invalid => Parsed::Invalid,
    }
}

/// Reads `n` numbers of two bytes each.
fn parse_u16s<'a>(input: &'a [u8], n: usize) -> (out: Parsed<'a, Vec<u16>>)
    ensures
        out@ == uint16s(input@, n as nat),
{
    let mut numbers: Vec<u16> = Vec::new();
    let mut rest = input;
    let mut i: usize = 0;
    assert(numbers@ == Seq::<u16>::empty());
    while i < n
        invariant
            i <= n,
            uint16s(input@, i as nat) == Outcome::Done(rest@, numbers@),
        decreases n - i,
    {
        match parse_u16(rest) {
            Parsed::Done(after, number) => {
                rest = after;
                numbers.push(number);
            },
            Parsed::Incomplete => {
                proof {
                    lemma_uint16s_stop(input@, (i + 1) as nat, n as nat);
                }
                return Parsed::Incomplete;
            },
            Parsed::Invalid => {
                return Parsed::Invalid;
            },
        }
        i = i + 1;
    }
    Parsed::Done(rest, numbers)
}

proof fn lemma_uint16s_stop(input: Seq<u8>, i: nat, n: nat)
    requires
        i <= n,
        uint16s(input, i) is Incomplete,
    ensures
        uint16s(input, n) is Incomplete,
    decreases n,
{
    if i < n {
        lemma_uint16s_stop(input, i, (n - 1) as nat);
    }
}

/// Reads what a camera says of itself.
pub fn i_am_camera_message<'a>(input: &'a [u8]) -> (out: Parsed<'a, Message>)
    ensures
        out@ == tagged(input@, I_AM_CAMERA, |i: Seq<u8>| i_am_camera_fields(i)),
{
    match parse_kind(input, I_AM_CAMERA) {
        Parsed::Done(rest, _) => match parse_u16s(rest, 3) {
            Parsed::Done(after, n) => {
                proof {
                    lemma_uint16s_count(rest@, 3);
                }
                Parsed::Done(after, Message::IAmCamera { road: n[0], mile: n[1], limit: n[2] })
            },
            Parsed::Incomplete => Parsed::Incomplete,
            Parsed::Invalid => Parsed::Invalid,
        },
        Parsed::Incomplete => Parsed::Incomplete,
        Parsed::Invalid => Parsed::Invalid,
    }
}

proof fn lemma_uint16s_count(input: Seq<u8>, n: nat)
    ensures
        uint16s(input, n) matches Outcome::Done(rest, numbers) ==> numbers.len() == n,
    decreases n,
{
    if n > 0 {
        lemma_uint16s_count(input, (n - 1) as nat);
    }
}

/// Reads what a dispatcher says of itself.
pub fn i_am_dispatcher_message<'a>(input: &'a [u8]) -> (out: Parsed<'a, Message>)
    ensures
        out@ == tagged(input@, I_AM_DISPATCHER, |i: Seq<u8>| i_am_dispatcher_fields(i)),
{
    match parse_kind(input, I_AM_DISPATCHER) {
        Parsed::Done(rest, _) => {
            if rest.len() == 0 {
                return Parsed::Incomplete;
            }
            let numroads: u8 = rest[0];
            let after = slice_subrange(rest, 1, rest.len());
            assert(after@ == rest@.skip(1));
            match parse_u16s(after, numroads as usize) {
                Parsed::Done(after, roads) => Parsed::Done(after, Message::IAmDispatcher { roads }),
                Parsed::Incomplete => Parsed::Incomplete,
                Parsed::Invalid => Parsed::Invalid,
            }
        },
        Parsed::Incomplete => Parsed::Incomplete,
        Parsed::Invalid => Parsed::Invalid,
    }
}

/// Reads a message: each kind is tried in turn until one is not ruled out.
pub fn parse_message<'a>(input: &'a [u8]) -> (out: Parsed<'a, Message>)
    ensures
        out@ == message(input@),
{
    match plate_message(input) {
        Parsed::Invalid => {},
        out => {
            return out;
        },
    }
    match want_heartbeat_message(input) {
        Parsed::Invalid => {},
        out => {
            return out;
        },
    }
    match i_am_camera_message(input) {
        Parsed::Invalid => {},
        out => {
            return out;
        },
    }
    i_am_dispatcher_message(input)
}

/// What became of the bytes that have arrived.
#[derive(Debug, PartialEq, Eq)]
pub enum Read {
    /// More must come before there is a message.
    Incomplete,
    /// They are no message.
    Invalid,
    /// They began with this message.
    Message(Message),
}

/// Takes the first message out of the bytes that have arrived.
pub fn read_message(input: &mut Vec<u8>) -> (out: Read)
    ensures
        match message(old(input)@) {
            Outcome::Incomplete => out is Incomplete && final(input)@ == old(input)@,
            Outcome::Invalid => out is Invalid && final(input)@ == old(input)@,
            Outcome::Done(rest, m) => out matches Read::Message(v) && v@ == m && final(input)@
                == rest,
        },
{
    let (rest, m) = match parse_message(input.as_slice()) {
        Parsed::Incomplete => {
            return Read::Incomplete;
        },
        Parsed::Invalid => {
            return Read::Invalid;
        },
        Parsed::Done(rest, m) => (vstd::slice::slice_to_vec(rest), m),
    };
    *input = rest;
    Read::Message(m)
}

/// A ticket for a car that was too fast between two cameras.
#[derive(Debug, PartialEq, Eq)]
pub struct Ticket {
    pub plate: String,
    pub road: u16,
    pub mile1: u16,
    pub timestamp1: u32,
    pub mile2: u16,
    pub timestamp2: u32,
    /// In hundredths of a mile per hour.
    pub speed: u16,
}

/// The mathematical counterpart of [`Ticket`].
pub struct TicketView {
    pub plate: Seq<char>,
    pub road: u16,
    pub mile1: u16,
    pub timestamp1: u32,
    pub mile2: u16,
    pub timestamp2: u32,
    pub speed: u16,
}

impl View for Ticket {
    type V = TicketView;

    open spec fn view(&self) -> TicketView {
        TicketView {
            plate: self.plate@,
            road: self.road,
            mile1: self.mile1,
            timestamp1: self.timestamp1,
            mile2: self.mile2,
            timestamp2: self.timestamp2,
            speed: self.speed,
        }
    }
}

/// A text as it is written: its length in one byte, which holds no more than the low eight bits of
/// it, and its bytes.
pub open spec fn string_bytes(text: Seq<char>) -> Seq<u8> {
    seq![(encode_utf8(text).len() % 0x100) as u8] + encode_utf8(text)
}

/// An error as it is written.
pub open spec fn error_bytes(error: Seq<char>) -> Seq<u8> {
    seq![ERROR] + string_bytes(error)
}

/// A ticket as it is written.
pub open spec fn ticket_bytes(ticket: TicketView) -> Seq<u8> {
    seq![TICKET] + string_bytes(ticket.plate) + u16_bytes(ticket.road) + u16_bytes(ticket.mile1)
        + u32_bytes(ticket.timestamp1) + u16_bytes(ticket.mile2) + u32_bytes(ticket.timestamp2)
        + u16_bytes(ticket.speed)
}

/// Appends a text.
fn push_string(out: &mut Vec<u8>, text: &str)
    ensures
        final(out)@ == old(out)@ + string_bytes(text@),
{
    let bytes = text.as_bytes();
    out.push((bytes.len() % 0x100) as u8);
    let ghost before = out@;
    out.extend_from_slice(bytes);
    assert(out@ == before + bytes@);
}

/// Writes an error.
pub fn encode_error(error: &str) -> (out: Vec<u8>)
    ensures
        out@ == error_bytes(error@),
{
    let mut out: Vec<u8> = Vec::new();
    out.push(ERROR);
    push_string(&mut out, error);
    out
}

/// Writes a ticket.
pub fn encode_ticket(ticket: &Ticket) -> (out: Vec<u8>)
    ensures
        out@ == ticket_bytes(ticket@),
{
    let mut out: Vec<u8> = Vec::new();
    out.push(TICKET);
    assert(out@ == seq![TICKET]);
    push_string(&mut out, ticket.plate.as_str());
    push_u16(&mut out, ticket.road);
    push_u16(&mut out, ticket.mile1);
    push_u32(&mut out, ticket.timestamp1);
    push_u16(&mut out, ticket.mile2);
    push_u32(&mut out, ticket.timestamp2);
    push_u16(&mut out, ticket.speed);
    out
}

proof fn lemma_uint16s_prefix(a: Seq<u8>, b: Seq<u8>, n: nat)
    ensures
        uint16s(a, n) matches Outcome::Done(rest, numbers) ==> uint16s(a + b, n) == Outcome::Done(
            rest + b,
            numbers,
        ) && rest.len() <= a.len(),
        !(uint16s(a, n) is Invalid),
    decreases n,
{
    if n > 0 {
        lemma_uint16s_prefix(a, b, (n - 1) as nat);
        if let Outcome::Done(rest, _) = uint16s(a, (n - 1) as nat) {
            if rest.len() >= 2 {
                assert((rest + b).skip(2) == rest.skip(2) + b);
            }
        }
    }
}

/// What has arrived decides: a message that is complete is the same whatever follows it, and so is
/// a wrong one. A message takes at least one byte.
pub proof fn law_later_bytes_change_nothing(a: Seq<u8>, b: Seq<u8>)
    ensures
        message(a) matches Outcome::Done(rest, m) ==> message(a + b) == Outcome::Done(rest + b, m)
            && rest.len() < a.len(),
        message(a) is Invalid ==> message(a + b) is Invalid,
{
    if a.len() > 0 {
        let f = a.skip(1);
        assert((a + b).skip(1) == f + b);
        if a[0] == PLATE {
            if f.len() > 0 && f.len() >= 1 + f[0] {
                let end = 1 + f[0] as int;
                assert((f + b).subrange(1, end) == f.subrange(1, end));
                assert((f + b).skip(end) == f.skip(end) + b);
                if f.skip(end).len() >= 4 {
                    assert((f.skip(end) + b).skip(4) == f.skip(end).skip(4) + b);
                }
            }
        } else if a[0] == WANT_HEARTBEAT {
            if f.len() >= 4 {
                assert((f + b).skip(4) == f.skip(4) + b);
            }
        } else if a[0] == I_AM_CAMERA {
            lemma_uint16s_prefix(f, b, 3);
        } else if a[0] == I_AM_DISPATCHER {
            if f.len() > 0 {
                assert((f + b).skip(1) == f.skip(1) + b);
                lemma_uint16s_prefix(f.skip(1), b, f[0] as nat);
            }
        }
    }
}

/// The messages that `input` holds, up to the first that is incomplete or wrong, and the bytes from
/// there on.
pub open spec fn messages(input: Seq<u8>) -> (Seq<MessageView>, Seq<u8>)
    decreases input.len(),
{
    match message(input) {
        Outcome::Done(rest, m) => if rest.len() < input.len() {
            (seq![m] + messages(rest).0, messages(rest).1)
        } else {
            (Seq::empty(), input)
        },
        _ => (Seq::empty(), input),
    }
}

/// The pieces in which the bytes arrive make no difference to the messages that are read.
pub proof fn law_pieces_make_no_difference(a: Seq<u8>, b: Seq<u8>)
    ensures
        messages(a + b).0 == messages(a).0 + messages(messages(a).1 + b).0,
        messages(a + b).1 == messages(messages(a).1 + b).1,
    decreases a.len(),
{
    law_later_bytes_change_nothing(a, b);
    match message(a) {
        Outcome::Done(rest, m) => {
            law_pieces_make_no_difference(rest, b);
            assert(seq![m] + (messages(rest).0 + messages(messages(rest).1 + b).0) == (seq![m]
                + messages(rest).0) + messages(messages(rest).1 + b).0);
        },
        _ => {
            assert(Seq::<MessageView>::empty() + messages(a + b).0 == messages(a + b).0);
        },
    }
}

/// A text in ASCII of no more than two hundred and fifty-five characters is read back, and
/// whatever follows it is left over.
pub proof fn law_string_reads_back(text: Seq<char>, rest: Seq<u8>)
    requires
        is_ascii_chars(text),
        text.len() <= 255,
    ensures
        string(string_bytes(text) + rest) == Outcome::Done(rest, text),
{
    let bytes = encode_utf8(text);
    is_ascii_chars_encode_utf8(text);
    let input = string_bytes(text) + rest;
    assert(input.subrange(1, 1 + bytes.len() as int) == bytes);
    assert(input.skip(1 + bytes.len() as int) == rest);
    assert forall|i: int| 0 <= i < bytes.len() implies #[trigger] bytes[i] < 0x80 by {
        assert(text[i] as u8 == bytes[i]);
    }
    assert(ascii(bytes) == text) by {
        assert forall|i: int| 0 <= i < text.len() implies ascii(bytes)[i] == text[i] by {
            assert(text[i] as u8 == bytes[i]);
        }
    }
}

/// A dispatcher that reads the fields of a ticket one after the other gets what was written.
pub proof fn law_ticket_reads_back(t: TicketView)
    requires
        is_ascii_chars(t.plate),
        t.plate.len() <= 255,
    ensures
        ({
            let fields = ticket_bytes(t).skip(1);
            &&& ticket_bytes(t)[0] == TICKET
            &&& string(fields) matches Outcome::Done(r0, plate)
            &&& plate == t.plate
            &&& uint16(r0) matches Outcome::Done(r1, road)
            &&& road == t.road
            &&& uint16(r1) matches Outcome::Done(r2, mile1)
            &&& mile1 == t.mile1
            &&& uint32(r2) matches Outcome::Done(r3, timestamp1)
            &&& timestamp1 == t.timestamp1
            &&& uint16(r3) matches Outcome::Done(r4, mile2)
            &&& mile2 == t.mile2
            &&& uint32(r4) matches Outcome::Done(r5, timestamp2)
            &&& timestamp2 == t.timestamp2
            &&& uint16(r5) matches Outcome::Done(r6, speed)
            &&& speed == t.speed
            &&& r6.len() == 0
        }),
{
    let e = Seq::<u8>::empty();
    let r5 = u16_bytes(t.speed) + e;
    let r4 = u32_bytes(t.timestamp2) + r5;
    let r3 = u16_bytes(t.mile2) + r4;
    let r2 = u32_bytes(t.timestamp1) + r3;
    let r1 = u16_bytes(t.mile1) + r2;
    let r0 = u16_bytes(t.road) + r1;
    assert(ticket_bytes(t).skip(1) == string_bytes(t.plate) + r0);
    law_string_reads_back(t.plate, r0);
    law_numbers_are_read(t.road, 0, r1);
    law_numbers_are_read(t.mile1, 0, r2);
    law_numbers_are_read(0, t.timestamp1, r3);
    law_numbers_are_read(t.mile2, 0, r4);
    law_numbers_are_read(0, t.timestamp2, r5);
    law_numbers_are_read(t.speed, 0, e);
}

/// Numbers of two and of four bytes are read as they are written, and what follows them is left over.
pub proof fn law_numbers_are_read(n: u16, m: u32, rest: Seq<u8>)
    ensures
        uint16(u16_bytes(n) + rest) == Outcome::Done(rest, n),
        uint32(u32_bytes(m) + rest) == Outcome::Done(rest, m),
{
    law_u16_reads_back(n, rest);
    law_u32_reads_back(m, rest);
    assert((u16_bytes(n) + rest).skip(2) == rest);
    assert((u32_bytes(m) + rest).skip(4) == rest);
}

/// A list of numbers is read as it is written, and what follows it is left over.
pub proof fn law_lists_are_read(numbers: Seq<u16>, rest: Seq<u8>)
    ensures
        uint16s(numbers_bytes(numbers) + rest, numbers.len()) == Outcome::Done(rest, numbers),
    decreases numbers.len(),
{
    if numbers.len() == 0 {
        assert(numbers_bytes(numbers) + rest == rest);
        assert(numbers == Seq::<u16>::empty());
    } else {
        let shorter = numbers.drop_last();
        let tail = u16_bytes(numbers.last()) + rest;
        law_numbers_are_read(numbers.last(), 0, rest);
        law_lists_are_read(shorter, tail);
        assert(numbers_bytes(numbers) + rest == numbers_bytes(shorter) + tail);
        assert(shorter.push(numbers.last()) == numbers);
    }
}

/// Numbers of two bytes, one after the other.
pub open spec fn numbers_bytes(numbers: Seq<u16>) -> Seq<u8>
    decreases numbers.len(),
{
    if numbers.len() == 0 {
        Seq::empty()
    } else {
        numbers_bytes(numbers.drop_last()) + u16_bytes(numbers.last())
    }
}

/// How a client writes a message: the byte of its kind and its fields.
pub open spec fn client_bytes(m: MessageView) -> Seq<u8> {
    match m {
        MessageView::Plate(reading) => seq![0x20u8, reading.plate.len() as u8] + reading.plate.map_values(
            |c: char| c as u8,
        ) + u32_bytes(reading.timestamp),
        MessageView::WantHeartbeat { interval } => seq![0x40u8] + u32_bytes(interval),
        MessageView::IAmCamera { road, mile, limit } => seq![0x80u8] + u16_bytes(road) + u16_bytes(mile)
            + u16_bytes(limit),
        MessageView::IAmDispatcher { roads } => seq![0x81u8, roads.len() as u8] + numbers_bytes(roads),
    }
}

/// Whether a client can write a message: a plate is in ASCII, and a plate and a list of roads are no
/// longer than a byte says.
pub open spec fn can_be_written(m: MessageView) -> bool {
    match m {
        MessageView::Plate(reading) => is_ascii_chars(reading.plate) && reading.plate.len() <= 255,
        MessageView::IAmDispatcher { roads } => roads.len() <= 255,
        _ => true,
    }
}

/// What a client writes is read as what it means, and what follows it is left over.
pub proof fn law_messages_are_read(m: MessageView, rest: Seq<u8>)
    requires
        can_be_written(m),
    ensures
        message(client_bytes(m) + rest) == Outcome::Done(rest, m),
{
    let input = client_bytes(m) + rest;
    match m {
        MessageView::Plate(reading) => {
            let plate = reading.plate;
            let tail = u32_bytes(reading.timestamp) + rest;
            law_string_reads_back(plate, tail);
            is_ascii_chars_encode_utf8(plate);
            assert(string_bytes(plate) == seq![plate.len() as u8] + plate.map_values(
                |c: char| c as u8,
            ));
            assert(input.skip(1) == string_bytes(plate) + tail);
            law_numbers_are_read(0, reading.timestamp, rest);
        },
        MessageView::WantHeartbeat { interval } => {
            assert(input.skip(1) == u32_bytes(interval) + rest);
            law_numbers_are_read(0, interval, rest);
        },
        MessageView::IAmCamera { road, mile, limit } => {
            let numbers = seq![road, mile, limit];
            lemma_three_numbers(road, mile, limit);
            assert(input.skip(1) == numbers_bytes(numbers) + rest);
            law_lists_are_read(numbers, rest);
        },
        MessageView::IAmDispatcher { roads } => {
            assert(input.skip(1)[0] == roads.len() as u8);
            assert(input.skip(1).skip(1) == numbers_bytes(roads) + rest);
            law_lists_are_read(roads, rest);
        },
    }
}

proof fn lemma_three_numbers(a: u16, b: u16, c: u16)
    ensures
        numbers_bytes(seq![a, b, c]) == u16_bytes(a) + u16_bytes(b) + u16_bytes(c),
{
    assert(seq![a, b, c].drop_last() == seq![a, b]);
    assert(seq![a, b].drop_last() == seq![a]);
    assert(seq![a].drop_last() == Seq::<u16>::empty());
    assert(numbers_bytes(Seq::<u16>::empty()) == Seq::<u8>::empty());
    assert(numbers_bytes(seq![a]) == u16_bytes(a));
    assert(numbers_bytes(seq![a, b]) == u16_bytes(a) + u16_bytes(b));
}

/// A message whose end is missing is waited for, however much of it is there.
pub proof fn law_ends_are_waited_for(m: MessageView, n: int)
    requires
        can_be_written(m),
        0 <= n < client_bytes(m).len(),
    ensures
        message(client_bytes(m).take(n)) is Incomplete,
{
    let all = client_bytes(m);
    let a = all.take(n);
    let b = all.skip(n);
    assert(a + b == all);
    law_messages_are_read(m, Seq::empty());
    assert(all + Seq::<u8>::empty() == all);
    law_later_bytes_change_nothing(a, b);
    if let Outcome::Done(rest, _) = message(a) {
        assert((rest + b).len() == 0);
    }
}

/// What no client writes is wrong: another byte at the beginning, or a plate that is not in ASCII.
pub proof fn law_other_bytes_are_wrong(input: Seq<u8>, i: int)
    ensures
        input.len() > 0 && input[0] != 0x20 && input[0] != 0x40 && input[0] != 0x80 && input[0]
            != 0x81 ==> message(input) is Invalid,
        input.len() > 1 && input[0] == 0x20 && 0 <= i < input[1] && input.len() >= 2 + input[1]
            && input[2 + i] >= 128 ==> message(input) is Invalid,
{
    if input.len() > 1 && input[0] == 0x20 && 0 <= i < input[1] && input.len() >= 2 + input[1]
        && input[2 + i] >= 128 {
        let fields = input.skip(1);
        let body = fields.subrange(1, 1 + fields[0] as int);
        assert(body[i] == input[2 + i]);
    }
}

/// An error is its byte, its length and its text.
pub proof fn law_errors_are_written(error: Seq<char>, i: int)
    requires
        is_ascii_chars(error),
        error.len() <= 255,
    ensures
        error_bytes(error).len() == error.len() + 2,
        error_bytes(error)[0] == 0x10,
        error_bytes(error)[1] == error.len(),
        0 <= i < error.len() ==> error_bytes(error)[2 + i] == error[i] as u8,
{
    is_ascii_chars_encode_utf8(error);
    if 0 <= i < error.len() {
        assert(error_bytes(error)[2 + i] == encode_utf8(error)[i]);
    }
}

/// Each field of a ticket has its place: the byte of a ticket, the length of the plate and the plate,
/// the road, the mile and the time of the first observation, those of the second, and the speed.
pub proof fn law_tickets_are_written(t: TicketView, i: int)
    requires
        is_ascii_chars(t.plate),
        t.plate.len() <= 255,
    ensures
        ({
            let bytes = ticket_bytes(t);
            let n = t.plate.len() as int;
            &&& bytes.len() == n + 18
            &&& bytes[0] == 0x21
            &&& bytes[1] == n
            &&& 0 <= i < n ==> bytes[2 + i] == t.plate[i] as u8
            &&& be_u16(bytes.skip(2 + n)) == t.road
            &&& be_u16(bytes.skip(4 + n)) == t.mile1
            &&& be_u32(bytes.skip(6 + n)) == t.timestamp1
            &&& be_u16(bytes.skip(10 + n)) == t.mile2
            &&& be_u32(bytes.skip(12 + n)) == t.timestamp2
            &&& be_u16(bytes.skip(16 + n)) == t.speed
        }),
{
    let bytes = ticket_bytes(t);
    let n = t.plate.len() as int;
    is_ascii_chars_encode_utf8(t.plate);
    if 0 <= i < n {
        assert(bytes[2 + i] == encode_utf8(t.plate)[i]);
    }
    let r6 = u16_bytes(t.speed);
    let r5 = u32_bytes(t.timestamp2) + r6;
    let r4 = u16_bytes(t.mile2) + r5;
    let r3 = u32_bytes(t.timestamp1) + r4;
    let r2 = u16_bytes(t.mile1) + r3;
    let r1 = u16_bytes(t.road) + r2;
    assert(bytes.skip(2 + n) == r1);
    assert(bytes.skip(4 + n) == r2);
    assert(bytes.skip(6 + n) == r3);
    assert(bytes.skip(10 + n) == r4);
    assert(bytes.skip(12 + n) == r5);
    assert(bytes.skip(16 + n) == r6 + Seq::<u8>::empty());
    law_u16_reads_back(t.road, r2);
    law_u16_reads_back(t.mile1, r3);
    law_u32_reads_back(t.timestamp1, r4);
    law_u16_reads_back(t.mile2, r5);
    law_u32_reads_back(t.timestamp2, r6);
    law_u16_reads_back(t.speed, Seq::empty());
}

/// The bytes of a message say what it means: the first one is its kind, a plate has its length before
/// it and its time behind it, a camera has its road, its mile and its limit, and a dispatcher the number
/// of its roads and the roads. Numbers have their most significant byte first. As long as bytes are
/// missing, the message is waited for.
pub proof fn law_bytes_say_what_is_meant(input: Seq<u8>)
    ensures
        input.len() == 0 ==> message(input) is Incomplete,
        input.len() > 0 && input[0] == 0x20 ==> if input.len() < 2 || input.len() < 2 + input[1] {
            message(input) is Incomplete
        } else if exists|i: int| 2 <= i < 2 + input[1] && #[trigger] input[i] >= 128 {
            message(input) is Invalid
        } else if input.len() < 6 + input[1] {
            message(input) is Incomplete
        } else {
            message(input) matches Outcome::Done(rest, MessageView::Plate(reading)) && rest
                == input.skip(6 + input[1]) && reading.plate.len() == input[1] && (forall|i: int|
                0 <= i < input[1] ==> (#[trigger] reading.plate[i]) as int == input[2 + i])
                && reading.timestamp == number_at(input, 2 + input[1], 4)
        },
        input.len() > 0 && input[0] == 0x40 ==> if input.len() < 5 {
            message(input) is Incomplete
        } else {
            message(input) matches Outcome::Done(rest, MessageView::WantHeartbeat { interval })
                && rest == input.skip(5) && interval == number_at(input, 1, 4)
        },
        input.len() > 0 && input[0] == 0x80 ==> if input.len() < 7 {
            message(input) is Incomplete
        } else {
            message(input) matches Outcome::Done(rest, MessageView::IAmCamera { road, mile, limit })
                && rest == input.skip(7) && road == number_at(input, 1, 2) && mile == number_at(
                input,
                3,
                2,
            ) && limit == number_at(input, 5, 2)
        },
        input.len() > 0 && input[0] == 0x81 ==> if input.len() < 2 || input.len() < 2 + 2 * input[1] {
            message(input) is Incomplete
        } else {
            message(input) matches Outcome::Done(rest, MessageView::IAmDispatcher { roads }) && rest
                == input.skip(2 + 2 * input[1]) && roads.len() == input[1] && forall|i: int|
                0 <= i < roads.len() ==> #[trigger] roads[i] == number_at(input, 2 + 2 * i, 2)
        },
{
    reveal_with_fuel(number_at, 5);
    if input.len() > 0 {
        let fields = input.skip(1);
        if input[0] == 0x20 {
            lemma_plate_is_read(input);
        } else if input[0] == 0x40 {
            if input.len() >= 5 {
                assert(fields.skip(4) == input.skip(5));
            }
        } else if input[0] == 0x80 {
            lemma_uint16s(fields, 3);
            if input.len() >= 7 {
                assert(fields.skip(6) == input.skip(7));
                assert(number_at(fields, 0, 2) == number_at(input, 1, 2));
                assert(number_at(fields, 2, 2) == number_at(input, 3, 2));
                assert(number_at(fields, 4, 2) == number_at(input, 5, 2));
            }
        } else if input[0] == 0x81 && input.len() > 1 {
            let n = input[1] as nat;
            assert(fields[0] == input[1]);
            let list = fields.skip(1);
            lemma_uint16s(list, n);
            if input.len() >= 2 + 2 * n {
                assert(list.skip(2 * n as int) == input.skip(2 + 2 * n as int));
                assert forall|i: int| 0 <= i < n implies number_at(list, 2 * i, 2) == number_at(
                    input,
                    #[trigger] (2 + 2 * i),
                    2,
                ) by {}
            }
        }
    }
}

/// The number in the `n` bytes of `input` from `at` on, the most significant one first.
pub open spec fn number_at(input: Seq<u8>, at: int, n: nat) -> int
    decreases n,
{
    if n == 0 {
        0
    } else {
        number_at(input, at, (n - 1) as nat) * 256 + input[at + n - 1]
    }
}

/// Whether `m` is what the bytes of a plate message say.
spec fn is_plate_read(input: Seq<u8>, m: Outcome<MessageView>) -> bool {
    if input.len() < 2 || input.len() < 2 + input[1] {
        m is Incomplete
    } else if exists|i: int| 2 <= i < 2 + input[1] && #[trigger] input[i] >= 128 {
        m is Invalid
    } else if input.len() < 6 + input[1] {
        m is Incomplete
    } else {
        m matches Outcome::Done(rest, MessageView::Plate(reading)) && rest == input.skip(
            6 + input[1],
        ) && reading.plate.len() == input[1] && (forall|i: int|
            0 <= i < input[1] ==> (#[trigger] reading.plate[i]) as int == input[2 + i])
            && reading.timestamp == number_at(input, 2 + input[1], 4)
    }
}

proof fn lemma_plate_is_read(input: Seq<u8>)
    requires
        input.len() > 0,
        input[0] == 0x20,
    ensures
        is_plate_read(input, message(input)),
{
    reveal_with_fuel(number_at, 5);
    let fields = input.skip(1);
    if input.len() >= 2 && input.len() >= 2 + input[1] {
        let n = input[1] as int;
        assert(fields[0] == input[1]);
        let body = fields.subrange(1, 1 + n);
        assert forall|i: int| 0 <= i < n implies #[trigger] body[i] == input[2 + i] by {}
        if exists|i: int| 2 <= i < 2 + n && #[trigger] input[i] >= 128 {
            let i = choose|i: int| 2 <= i < 2 + n && #[trigger] input[i] >= 128;
            assert(body[i - 2] >= 128);
        } else {
            assert forall|i: int| 0 <= i < n implies #[trigger] body[i] < 0x80 by {
                assert(!(input[2 + i] >= 128));
            }
            let rest = fields.skip(1 + n);
            assert(rest == input.skip(2 + n));
            if input.len() >= 6 + n {
                assert(rest.skip(4) == input.skip(6 + n));
                assert(rest[0] == input[2 + n]);
                assert(rest[1] == input[3 + n]);
                assert(rest[2] == input[4 + n]);
                assert(rest[3] == input[5 + n]);
                assert(number_at(input, 2 + n, 4) == be_u32(rest));
            }
        }
    }
}

proof fn lemma_uint16s(input: Seq<u8>, n: nat)
    ensures
        input.len() < 2 * n ==> uint16s(input, n) is Incomplete,
        input.len() >= 2 * n ==> (uint16s(input, n) matches Outcome::Done(rest, numbers) && rest
            == input.skip(2 * n as int) && numbers.len() == n && forall|i: int|
            0 <= i < n ==> #[trigger] numbers[i] == number_at(input, 2 * i, 2)),
    decreases n,
{
    reveal_with_fuel(number_at, 3);
    if n == 0 {
        assert(input.skip(0) == input);
    } else {
        lemma_uint16s(input, (n - 1) as nat);
        if input.len() >= 2 * n {
            let rest = input.skip(2 * (n - 1));
            assert(rest.skip(2) == input.skip(2 * n as int));
            assert(rest[0] == input[2 * (n - 1)]);
            assert(rest[1] == input[2 * (n - 1) + 1]);
            assert(be_u16(rest) == number_at(input, 2 * (n - 1), 2));
        }
    }
}

/// A text is written as the number of its bytes, as far as a byte holds it, and its bytes.
pub proof fn law_texts_are_written(text: Seq<char>)
    ensures
        string_bytes(text).len() == byte_len(text) + 1,
        string_bytes(text)[0] == byte_len(text) % 256,
        string_bytes(text).skip(1) == encode_utf8(text),
        error_bytes(text) == seq![0x10u8] + string_bytes(text),
{
}

/// What a message shows of itself is what it holds.
pub proof fn law_messages_show_what_they_hold(m: Message)
    ensures
        match m {
            Message::Plate(reading) => m@ matches MessageView::Plate(shown) && shown.plate
                == reading.plate@ && shown.timestamp == reading.timestamp,
            Message::WantHeartbeat { interval } => m@ == (MessageView::WantHeartbeat { interval }),
            Message::IAmCamera { road, mile, limit } => m@ == (MessageView::IAmCamera {
                road,
                mile,
                limit,
            }),
            Message::IAmDispatcher { roads } => m@ == (MessageView::IAmDispatcher { roads: roads@ }),
        },
{
}

} // verus!
