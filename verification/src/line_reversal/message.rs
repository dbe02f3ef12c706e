//! The messages of the protocol, and how they are written and read.
//!
//! A message is a text of fields, each ended by a slash: `/connect/TOKEN/`,
//! `/data/TOKEN/POS/DATA/`, `/ack/TOKEN/LENGTH/` and `/close/TOKEN/`.

use vstd::prelude::*;
use vstd::slice::slice_subrange;
use vstd::string::*;

use crate::text::chars_of;
use crate::text::decimal;
use crate::text::is_digit;
use crate::text::is_prefix;
use crate::text::law_numeral_reads_back;
use crate::text::lemma_decimal;
use crate::text::numeral;
use crate::text::parse_unsigned;
use crate::text::starts_with;
use crate::text::string_of;
use crate::text::unsigned;

verus! {

/// The number by which both sides know a session.
pub type SessionToken = u32;

/// What one side tells the other about a session.
#[derive(Debug, Clone, PartialEq, Eq)]
pub enum Message {
    /// The client opens the session.
    Connect,
    /// A piece of the stream that begins at byte `pos`.
    Data { pos: u32, data: String },
    /// `length` bytes of the stream have arrived.
    Ack { length: u32 },
    /// The session ends.
    Close,
}

/// The mathematical counterpart of [`Message`].
pub enum MessageView {
    Connect,
    Data { pos: u32, data: Seq<char> },
    Ack { length: u32 },
    Close,
}

impl View for Message {
    type V = MessageView;

    open spec fn view(&self) -> MessageView {
        match self {
            Message::Connect => MessageView::Connect,
            Message::Data { pos, data } => MessageView::Data { pos: *pos, data: data@ },
            Message::Ack { length } => MessageView::Ack { length: *length },
            Message::Close => MessageView::Close,
        }
    }
}

/// The four kinds of message.
#[derive(Debug, Clone, Copy, PartialEq, Eq, Structural)]
pub enum MessageType {
    Connect,
    Data,
    Ack,
    Close,
}

/// What is left of `input` after `expected`, where it begins so.
pub open spec fn after(input: Seq<char>, expected: Seq<char>) -> Option<Seq<char>> {
    if is_prefix(expected, input) {
        Some(input.skip(expected.len() as int))
    } else {
        None
    }
}

/// How many characters precede the first slash.
pub open spec fn field_len(input: Seq<char>) -> nat
    decreases input.len(),
{
    if input.len() == 0 || input[0] == '/' {
        0
    } else {
        1 + field_len(input.skip(1))
    }
}

/// A number that fills the text up to the next slash.
pub open spec fn number(input: Seq<char>) -> Option<(Seq<char>, u32)> {
    let n = field_len(input) as int;
    match unsigned(input.take(n)) {
        Some(value) => Some((input.skip(n), value)),
        None => None,
    }
}

/// A number and the slash behind it.
pub open spec fn number_field(input: Seq<char>) -> Option<(Seq<char>, u32)> {
    match number(input) {
        Some((rest, value)) => match after(rest, "/"@) {
            Some(rest) => Some((rest, value)),
            None => None,
        },
        None => None,
    }
}

/// The word that says of which kind a message is.
pub open spec fn message_type(input: Seq<char>) -> Option<(Seq<char>, MessageType)> {
    if let Some(rest) = after(input, "connect"@) {
        Some((rest, MessageType::Connect))
    } else if let Some(rest) = after(input, "data"@) {
        Some((rest, MessageType::Data))
    } else if let Some(rest) = after(input, "ack"@) {
        Some((rest, MessageType::Ack))
    } else if let Some(rest) = after(input, "close"@) {
        Some((rest, MessageType::Close))
    } else {
        None
    }
}

/// Text up to the first slash that no backslash precedes, with the backslashes that announce a
/// slash or a backslash taken out. The slash that ends the text is consumed.
pub open spec fn unescaped(input: Seq<char>) -> Option<(Seq<char>, Seq<char>)>
    decreases input.len(),
{
    if input.len() == 0 {
        None
    } else if input[0] == '/' {
        Some((input.skip(1), Seq::empty()))
    } else if input[0] == '\\' {
        if input.len() > 1 && (input[1] == '/' || input[1] == '\\') {
            match unescaped(input.skip(2)) {
                Some((rest, data)) => Some((rest, seq![input[1]] + data)),
                None => None,
            }
        } else {
            None
        }
    } else {
        match unescaped(input.skip(1)) {
            Some((rest, data)) => Some((rest, seq![input[0]] + data)),
            None => None,
        }
    }
}

/// The fields of a data message behind the token: a position and data that is not empty.
pub open spec fn data_fields(input: Seq<char>) -> Option<(Seq<char>, MessageView)> {
    match number_field(input) {
        Some((rest, pos)) => match unescaped(rest) {
            Some((rest, data)) => if data.len() > 0 {
                Some((rest, MessageView::Data { pos, data }))
            } else {
                None
            },
            None => None,
        },
        None => None,
    }
}

/// The field of an acknowledgement behind the token.
pub open spec fn ack_fields(input: Seq<char>) -> Option<(Seq<char>, MessageView)> {
    match number_field(input) {
        Some((rest, length)) => Some((rest, MessageView::Ack { length })),
        None => None,
    }
}

/// What a kind of message has behind the token.
pub open spec fn fields(kind: MessageType, input: Seq<char>) -> Option<(Seq<char>, MessageView)> {
    match kind {
        MessageType::Connect => Some((input, MessageView::Connect)),
        MessageType::Data => data_fields(input),
        MessageType::Ack => ack_fields(input),
        MessageType::Close => Some((input, MessageView::Close)),
    }
}

/// The kind of a message, between the slash that begins it and the one behind its first word.
pub open spec fn message_head(input: Seq<char>) -> Option<(Seq<char>, MessageType)> {
    match after(input, "/"@) {
        Some(rest) => match message_type(rest) {
            Some((rest, kind)) => match after(rest, "/"@) {
                Some(rest) => Some((rest, kind)),
                None => None,
            },
            None => None,
        },
        None => None,
    }
}

/// A whole message at the beginning of `input`: what follows it, its token, and what it says.
pub open spec fn message(input: Seq<char>) -> Option<(Seq<char>, (SessionToken, MessageView))> {
    match message_head(input) {
        Some((rest, kind)) => match number_field(rest) {
            Some((rest, token)) => match fields(kind, rest) {
                Some((rest, m)) => Some((rest, (token, m))),
                None => None,
            },
            None => None,
        },
        None => None,
    }
}

/// What is left of `input` after `expected`.
fn parse_after<'a>(input: &'a [char], expected: &str) -> (out: Option<&'a [char]>)
    ensures
        out is Some == after(input@, expected@) is Some,
        out matches Some(rest) ==> after(input@, expected@) == Some(rest@),
{
    let expected = chars_of(expected);
    if starts_with(input, expected.as_slice()) {
        let rest = slice_subrange(input, expected.len(), input.len());
        assert(rest@ == input@.skip(expected@.len() as int));
        Some(rest)
    } else {
        None
    }
}

/// A field reaches up to the first slash.
pub proof fn lemma_field_len(input: Seq<char>, n: nat)
    requires
        n <= input.len(),
        forall|i: int| 0 <= i < n ==> #[trigger] input[i] != '/',
        n == input.len() || input[n as int] == '/',
    ensures
        field_len(input) == n,
    decreases n,
{
    if n > 0 {
        assert(input[0] != '/');
        lemma_field_len(input.skip(1), (n - 1) as nat);
    }
}

/// Reads a number that ends where the text or the field does.
pub fn parse_number<'a>(input: &'a [char]) -> (out: Option<(&'a [char], u32)>)
    ensures
        out is Some == number(input@) is Some,
        out matches Some((rest, n)) ==> number(input@) == Some((rest@, n)),
{
    let mut i: usize = 0;
    while i < input.len() && input[i] != '/'
        invariant
            i <= input.len(),
            forall|k: int| 0 <= k < i ==> #[trigger] input@[k] != '/',
        decreases input.len() - i,
    {
        i = i + 1;
    }
    proof {
        lemma_field_len(input@, i as nat);
    }
    let field = slice_subrange(input, 0, i);
    assert(field@ == input@.take(i as int));
    match parse_unsigned(field) {
        Some(value) => {
            let rest = slice_subrange(input, i, input.len());
            assert(rest@ == input@.skip(i as int));
            Some((rest, value))
        },
        None => None,
    }
}

/// Reads a number and the slash behind it.
fn parse_number_field<'a>(input: &'a [char]) -> (out: Option<(&'a [char], u32)>)
    ensures
        out is Some == number_field(input@) is Some,
        out matches Some((rest, n)) ==> number_field(input@) == Some((rest@, n)),
{
    match parse_number(input) {
        Some((rest, n)) => match parse_after(rest, "/") {
            Some(rest) => Some((rest, n)),
            None => None,
        },
        None => None,
    }
}

/// Reads the word that says of which kind a message is.
pub fn parse_message_type<'a>(input: &'a [char]) -> (out: Option<(&'a [char], MessageType)>)
    ensures
        out is Some == message_type(input@) is Some,
        out matches Some((rest, kind)) ==> message_type(input@) == Some((rest@, kind)),
{
    if let Some(rest) = parse_after(input, "connect") {
        return Some((rest, MessageType::Connect));
    }
    if let Some(rest) = parse_after(input, "data") {
        return Some((rest, MessageType::Data));
    }
    if let Some(rest) = parse_after(input, "ack") {
        return Some((rest, MessageType::Ack));
    }
    if let Some(rest) = parse_after(input, "close") {
        return Some((rest, MessageType::Close));
    }
    None
}

/// Reads the token of a session.
pub fn parse_session_token<'a>(input: &'a [char]) -> (out: Option<(&'a [char], SessionToken)>)
    ensures
        out is Some == number(input@) is Some,
        out matches Some((rest, token)) ==> number(input@) == Some((rest@, token)),
{
    parse_number(input)
}

/// Reads text up to the first slash that no backslash precedes.
fn parse_unescaped<'a>(input: &'a [char]) -> (out: Option<(&'a [char], Vec<char>)>)
    ensures
        out is Some == unescaped(input@) is Some,
        out matches Some((rest, data)) ==> unescaped(input@) == Some((rest@, data@)),
{
    let mut data: Vec<char> = Vec::new();
    let mut i: usize = 0;
    assert(input@.skip(0) == input@);
    while i < input.len() && input[i] != '/'
        invariant
            i <= input.len(),
            unescaped(input@) == match unescaped(input@.skip(i as int)) {
                Some((rest, more)) => Some((rest, data@ + more)),
                None => None,
            },
        decreases input.len() - i,
    {
        let ghost before = data@;
        let ghost here = input@.skip(i as int);
        if input[i] == '\\' {
            if input.len() - i > 1 && (input[i + 1] == '/' || input[i + 1] == '\\') {
                data.push(input[i + 1]);
                assert(here.skip(2) == input@.skip(i + 2));
                assert(forall|more: Seq<char>|
                    before + (seq![here[1]] + more) == #[trigger] (data@ + more));
                i = i + 2;
            } else {
                return None;
            }
        } else {
            data.push(input[i]);
            assert(here.skip(1) == input@.skip(i + 1));
            assert(forall|more: Seq<char>|
                before + (seq![here[0]] + more) == #[trigger] (data@ + more));
            i = i + 1;
        }
    }
    if i < input.len() {
        let rest = slice_subrange(input, i + 1, input.len());
        assert(rest@ == input@.skip(i as int).skip(1));
        assert(data@ + Seq::<char>::empty() == data@);
        Some((rest, data))
    } else {
        None
    }
}

/// Reads what a data message has behind the token.
pub fn parse_data<'a>(input: &'a [char]) -> (out: Option<(&'a [char], Message)>)
    ensures
        out is Some == data_fields(input@) is Some,
        out matches Some((rest, m)) ==> data_fields(input@) == Some((rest@, m@)),
{
    match parse_number_field(input) {
        Some((rest, pos)) => match parse_unescaped(rest) {
            Some((rest, data)) => {
                if data.len() > 0 {
                    let data = string_of(data.as_slice());
                    Some((rest, Message::Data { pos, data }))
                } else {
                    None
                }
            },
            None => None,
        },
        None => None,
    }
}

/// Reads what an acknowledgement has behind the token.
pub fn parse_ack<'a>(input: &'a [char]) -> (out: Option<(&'a [char], Message)>)
    ensures
        out is Some == ack_fields(input@) is Some,
        out matches Some((rest, m)) ==> ack_fields(input@) == Some((rest@, m@)),
{
    match parse_number_field(input) {
        Some((rest, length)) => Some((rest, Message::Ack { length })),
        None => None,
    }
}

/// Reads the kind of a message and the slashes around it.
fn parse_message_head<'a>(input: &'a [char]) -> (out: Option<(&'a [char], MessageType)>)
    ensures
        out is Some == message_head(input@) is Some,
        out matches Some((rest, kind)) ==> message_head(input@) == Some((rest@, kind)),
{
    match parse_after(input, "/") {
        Some(rest) => match parse_message_type(rest) {
            Some((rest, kind)) => match parse_after(rest, "/") {
                Some(rest) => Some((rest, kind)),
                None => None,
            },
            None => None,
        },
        None => None,
    }
}

/// Reads a message at the beginning of `input`: what follows it, its token, and what it says.
pub fn parse_message<'a>(input: &'a [char]) -> (out: Option<(&'a [char], (SessionToken, Message))>)
    ensures
        out is Some == message(input@) is Some,
        out matches Some((rest, (token, m))) ==> message(input@) == Some((rest@, (token, m@))),
{
    match parse_message_head(input) {
        Some((rest, kind)) => match parse_session_token(rest) {
            Some((rest, token)) => match parse_after(rest, "/") {
                Some(rest) => match kind {
                    MessageType::Connect => Some((rest, (token, Message::Connect))),
                    MessageType::Data => match parse_data(rest) {
                        Some((rest, m)) => Some((rest, (token, m))),
                        None => None,
                    },
                    MessageType::Ack => match parse_ack(rest) {
                        Some((rest, m)) => Some((rest, (token, m))),
                        None => None,
                    },
                    MessageType::Close => Some((rest, (token, Message::Close))),
                },
                None => None,
            },
            None => None,
        },
        None => None,
    }
}

/// One character of data as it is written: first a slash gets a backslash before it, then every
/// backslash is doubled.
pub open spec fn escaped_char(c: char) -> Seq<char> {
    if c == '/' {
        seq!['\\', '\\', '/']
    } else if c == '\\' {
        seq!['\\', '\\']
    } else {
        seq![c]
    }
}

/// Data as it is written into a message.
pub open spec fn escaped(data: Seq<char>) -> Seq<char>
    decreases data.len(),
{
    if data.len() == 0 {
        Seq::empty()
    } else {
        escaped_char(data[0]) + escaped(data.skip(1))
    }
}

/// A message as it is written.
pub open spec fn encoded(message: MessageView, token: SessionToken) -> Seq<char> {
    let token = decimal(token as nat);
    match message {
        MessageView::Connect => "/connect/"@ + token + "/"@,
        MessageView::Data { pos, data } => "/data/"@ + token + "/"@ + decimal(pos as nat) + "/"@
            + escaped(data) + "/"@,
        MessageView::Ack { length } => "/ack/"@ + token + "/"@ + decimal(length as nat) + "/"@,
        MessageView::Close => "/close/"@ + token + "/"@,
    }
}

/// Writes data for a message.
pub fn escape_data(data: &str) -> (out: String)
    ensures
        out@ == escaped(data@),
{
    let chars = chars_of(data);
    let mut out = String::new();
    let mut i: usize = 0;
    assert(chars@.skip(0) == chars@);
    while i < chars.len()
        invariant
            i <= chars.len(),
            chars@ == data@,
            escaped(data@) == out@ + escaped(chars@.skip(i as int)),
        decreases chars.len() - i,
    {
        let c = chars[i];
        let ghost before = out@;
        let ghost here = chars@.skip(i as int);
        if c == '/' || c == '\\' {
            out.push('\\');
            out.push('\\');
        }
        if c != '\\' {
            out.push(c);
        }
        assert(out@ == before + escaped_char(c));
        assert(here.skip(1) == chars@.skip(i + 1));
        i = i + 1;
    }
    assert(chars@.skip(chars@.len() as int) == Seq::<char>::empty());
    out
}

/// Writes a message.
pub fn encode_message(message: Message, session_token: SessionToken) -> (out: String)
    ensures
        out@ == encoded(message@, session_token),
{
    let token = numeral(session_token);
    let mut out: String;
    match message {
        Message::Connect => {
            out = "/connect/".to_owned();
            out.append(token.as_str());
        },
        Message::Data { pos, data } => {
            out = "/data/".to_owned();
            out.append(token.as_str());
            out.append("/");
            out.append(numeral(pos).as_str());
            out.append("/");
            out.append(escape_data(data.as_str()).as_str());
        },
        Message::Ack { length } => {
            out = "/ack/".to_owned();
            out.append(token.as_str());
            out.append("/");
            out.append(numeral(length).as_str());
        },
        Message::Close => {
            out = "/close/".to_owned();
            out.append(token.as_str());
        },
    }
    out.append("/");
    out
}

proof fn lemma_number_field_reads_back(n: u32, rest: Seq<char>)
    ensures
        number_field(decimal(n as nat) + "/"@ + rest) == Some((rest, n)),
{
    reveal_strlit("/");
    let digits = decimal(n as nat);
    let input = digits + "/"@ + rest;
    lemma_decimal(n as nat);
    law_numeral_reads_back(n);
    assert forall|i: int| 0 <= i < digits.len() implies #[trigger] input[i] != '/' by {
        assert(is_digit(digits[i]));
    }
    lemma_field_len(input, digits.len());
    assert(input.take(digits.len() as int) == digits);
    assert(input.skip(digits.len() as int) == "/"@ + rest);
    assert(("/"@ + rest).take(1) == "/"@);
    assert(("/"@ + rest).skip(1) == rest);
}

proof fn lemma_unescaped_reads_back(data: Seq<char>, rest: Seq<char>)
    requires
        !data.contains('/'),
    ensures
        unescaped(escaped(data) + "/"@ + rest) == Some((rest, data)),
    decreases data.len(),
{
    reveal_strlit("/");
    let input = escaped(data) + "/"@ + rest;
    if data.len() == 0 {
        assert(input.skip(1) == rest);
    } else {
        assert(data.contains(data[0]));
        let tail = data.skip(1);
        assert(!tail.contains('/')) by {
            if tail.contains('/') {
                let k = tail.index_of('/');
                assert(data[k + 1] == '/');
            }
        }
        lemma_unescaped_reads_back(tail, rest);
        let k = escaped_char(data[0]).len() as int;
        assert(input.skip(k) == escaped(tail) + "/"@ + rest);
        assert(seq![data[0]] + tail == data);
    }
}

/// The words that begin messages are told apart.
pub proof fn lemma_message_head_reads_back(rest: Seq<char>)
    ensures
        message_head("/connect/"@ + rest) == Some((rest, MessageType::Connect)),
        message_head("/data/"@ + rest) == Some((rest, MessageType::Data)),
        message_head("/ack/"@ + rest) == Some((rest, MessageType::Ack)),
        message_head("/close/"@ + rest) == Some((rest, MessageType::Close)),
{
    reveal_strlit("/");
    reveal_strlit("connect");
    reveal_strlit("data");
    reveal_strlit("ack");
    reveal_strlit("close");
    reveal_strlit("/connect/");
    reveal_strlit("/data/");
    reveal_strlit("/ack/");
    reveal_strlit("/close/");
    assert(("/"@ + rest).take(1) == "/"@);
    assert(("/"@ + rest).skip(1) == rest);
    assert(("/connect/"@ + rest).take(1) == "/"@);
    assert(("/connect/"@ + rest).skip(1) == "connect"@ + ("/"@ + rest));
    assert(("connect"@ + ("/"@ + rest)).take(7) == "connect"@);
    assert(("connect"@ + ("/"@ + rest)).skip(7) == "/"@ + rest);
    let data = "data"@ + ("/"@ + rest);
    assert(("/data/"@ + rest).take(1) == "/"@);
    assert(("/data/"@ + rest).skip(1) == data);
    assert(data.len() >= 7 ==> data.take(7)[0] == 'd');
    assert("connect"@[0] == 'c');
    assert(data.take(4) == "data"@);
    assert(data.skip(4) == "/"@ + rest);
    let ack = "ack"@ + ("/"@ + rest);
    assert(("/ack/"@ + rest).take(1) == "/"@);
    assert(("/ack/"@ + rest).skip(1) == ack);
    assert(ack.len() >= 7 ==> ack.take(7)[0] == 'a');
    assert(ack.len() >= 4 ==> ack.take(4)[0] == 'a');
    assert("data"@[0] == 'd');
    assert(ack.take(3) == "ack"@);
    assert(ack.skip(3) == "/"@ + rest);
    let close = "close"@ + ("/"@ + rest);
    assert(("/close/"@ + rest).take(1) == "/"@);
    assert(("/close/"@ + rest).skip(1) == close);
    assert(close.len() >= 7 ==> close.take(7)[1] == 'l');
    assert("connect"@[1] == 'o');
    assert(close.take(4)[0] == 'c');
    assert(close.take(3)[0] == 'c');
    assert("ack"@[0] == 'a');
    assert(close.take(5) == "close"@);
    assert(close.skip(5) == "/"@ + rest);
}

/// What is written is read back: the token and the message, and whatever follows is left over.
/// Data must be there, and hold no slash.
pub proof fn law_message_reads_back(m: MessageView, token: SessionToken, rest: Seq<char>)
    requires
        m matches MessageView::Data { data, .. } ==> data.len() > 0 && !data.contains('/'),
    ensures
        message(encoded(m, token) + rest) == Some((rest, (token, m))),
{
    let t = decimal(token as nat);
    match m {
        MessageView::Connect => {
            assert(encoded(m, token) + rest == "/connect/"@ + (t + "/"@ + rest));
            lemma_message_head_reads_back(t + "/"@ + rest);
            lemma_number_field_reads_back(token, rest);
        },
        MessageView::Data { pos, data } => {
            let d = escaped(data) + "/"@ + rest;
            let p = decimal(pos as nat) + "/"@ + d;
            assert(encoded(m, token) + rest == "/data/"@ + (t + "/"@ + p));
            lemma_message_head_reads_back(t + "/"@ + p);
            lemma_number_field_reads_back(token, p);
            lemma_number_field_reads_back(pos, d);
            lemma_unescaped_reads_back(data, rest);
        },
        MessageView::Ack { length } => {
            let l = decimal(length as nat) + "/"@ + rest;
            assert(encoded(m, token) + rest == "/ack/"@ + (t + "/"@ + l));
            lemma_message_head_reads_back(t + "/"@ + l);
            lemma_number_field_reads_back(token, l);
            lemma_number_field_reads_back(length, rest);
        },
        MessageView::Close => {
            assert(encoded(m, token) + rest == "/close/"@ + (t + "/"@ + rest));
            lemma_message_head_reads_back(t + "/"@ + rest);
            lemma_number_field_reads_back(token, rest);
        },
    }
}

} // verus!
