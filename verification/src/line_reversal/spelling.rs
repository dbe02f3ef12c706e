//! How messages are spelled, letter for letter.

use vstd::prelude::*;
use vstd::string::*;

use crate::line_reversal::message::after;
use crate::line_reversal::message::encoded;
use crate::line_reversal::message::escaped;
use crate::line_reversal::message::escaped_char;
use crate::line_reversal::message::field_len;
use crate::line_reversal::message::fields;
use crate::line_reversal::message::lemma_field_len;
use crate::line_reversal::message::lemma_message_head_reads_back;
use crate::line_reversal::message::message;
use crate::line_reversal::message::message_head;
use crate::line_reversal::message::message_type;
use crate::line_reversal::message::number_field;
use crate::line_reversal::message::unescaped;
use crate::line_reversal::message::MessageType;
use crate::line_reversal::message::MessageView;
use crate::line_reversal::message::SessionToken;
use crate::text::decimal;
use crate::text::is_digit;
use crate::text::unsigned;

verus! {

/// Messages are written letter for letter, and numbers in decimal digits.
pub proof fn law_messages_are_spelled(token: SessionToken, pos: u32, length: u32, data: Seq<char>)
    ensures
        encoded(MessageView::Connect, token) == seq![
            '/', 'c', 'o', 'n', 'n', 'e', 'c', 't', '/',
        ] + decimal(token as nat) + seq!['/'],
        encoded(MessageView::Data { pos, data }, token) == seq!['/', 'd', 'a', 't', 'a', '/']
            + decimal(token as nat) + seq!['/'] + decimal(pos as nat) + seq!['/'] + escaped(data)
            + seq!['/'],
        encoded(MessageView::Ack { length }, token) == seq!['/', 'a', 'c', 'k', '/'] + decimal(
            token as nat,
        ) + seq!['/'] + decimal(length as nat) + seq!['/'],
        encoded(MessageView::Close, token) == seq!['/', 'c', 'l', 'o', 's', 'e', '/'] + decimal(
            token as nat,
        ) + seq!['/'],
{
    lemma_literals();
}

proof fn lemma_literals()
    ensures
        "/"@ == seq!['/'],
        "connect"@ == seq!['c', 'o', 'n', 'n', 'e', 'c', 't'],
        "data"@ == seq!['d', 'a', 't', 'a'],
        "ack"@ == seq!['a', 'c', 'k'],
        "close"@ == seq!['c', 'l', 'o', 's', 'e'],
        "/connect/"@ == seq!['/', 'c', 'o', 'n', 'n', 'e', 'c', 't', '/'],
        "/data/"@ == seq!['/', 'd', 'a', 't', 'a', '/'],
        "/ack/"@ == seq!['/', 'a', 'c', 'k', '/'],
        "/close/"@ == seq!['/', 'c', 'l', 'o', 's', 'e', '/'],
{
    reveal_strlit("/");
    reveal_strlit("connect");
    reveal_strlit("data");
    reveal_strlit("ack");
    reveal_strlit("close");
    reveal_strlit("/connect/");
    reveal_strlit("/data/");
    reveal_strlit("/ack/");
    reveal_strlit("/close/");
    assert("/"@ =~= seq!['/']);
    assert("connect"@ =~= seq!['c', 'o', 'n', 'n', 'e', 'c', 't']);
    assert("data"@ =~= seq!['d', 'a', 't', 'a']);
    assert("ack"@ =~= seq!['a', 'c', 'k']);
    assert("close"@ =~= seq!['c', 'l', 'o', 's', 'e']);
    assert("/connect/"@ =~= seq!['/', 'c', 'o', 'n', 'n', 'e', 'c', 't', '/']);
    assert("/data/"@ =~= seq!['/', 'd', 'a', 't', 'a', '/']);
    assert("/ack/"@ =~= seq!['/', 'a', 'c', 'k', '/']);
    assert("/close/"@ =~= seq!['/', 'c', 'l', 'o', 's', 'e', '/']);
}

/// Data is written character by character: a slash behind two backslashes, a backslash twice, and any
/// other as it is.
pub proof fn law_characters_are_escaped(a: Seq<char>, b: Seq<char>, c: char)
    ensures
        escaped(Seq::empty()) == Seq::<char>::empty(),
        escaped(seq!['/']) == seq!['\\', '\\', '/'],
        escaped(seq!['\\']) == seq!['\\', '\\'],
        c != '/' && c != '\\' ==> escaped(seq![c]) == seq![c],
        escaped(a + b) == escaped(a) + escaped(b),
    decreases a.len(),
{
    assert(escaped(Seq::<char>::empty()) == Seq::<char>::empty());
    lemma_one_escape('/');
    lemma_one_escape('\\');
    lemma_one_escape(c);
    if a.len() == 0 {
        assert(a + b == b);
    } else {
        law_characters_are_escaped(a.skip(1), b, c);
        assert((a + b).skip(1) == a.skip(1) + b);
    }
}

proof fn lemma_one_escape(c: char)
    ensures
        escaped(seq![c]) == escaped_char(c),
{
    assert(seq![c].skip(1) == Seq::<char>::empty());
    assert(escaped(Seq::<char>::empty()) == Seq::<char>::empty());
    assert(escaped_char(c) + Seq::<char>::empty() == escaped_char(c));
}

/// Data is read up to the slash that ends it: plain text as it is, and a slash or a backslash behind a
/// backslash as itself. Anything else behind a backslash, or no slash at the end, is wrong.
pub proof fn law_data_is_unescaped(plain: Seq<char>, c: char, rest: Seq<char>)
    requires
        !plain.contains('/'),
        !plain.contains('\\'),
    ensures
        unescaped(plain + seq!['/'] + rest) == Some((rest, plain)),
        unescaped(plain) is None,
        unescaped(rest) matches Some((left, data)) ==> unescaped(plain + rest) == Some(
            (left, plain + data),
        ),
        unescaped(rest) is None ==> unescaped(plain + rest) is None,
        c == '/' || c == '\\' ==> (unescaped(rest) matches Some((left, data)) ==> unescaped(
            seq!['\\', c] + rest,
        ) == Some((left, seq![c] + data))),
        c == '/' || c == '\\' ==> (unescaped(rest) is None ==> unescaped(seq!['\\', c] + rest) is None),
        c != '/' && c != '\\' ==> unescaped(seq!['\\', c] + rest) is None,
        unescaped(seq!['\\']) is None,
{
    lemma_plain_text(plain, seq!['/'] + rest);
    assert((seq!['/'] + rest).skip(1) == rest);
    assert(plain + (seq!['/'] + rest) == plain + seq!['/'] + rest);
    assert(plain + Seq::<char>::empty() == plain);
    lemma_plain_text(plain, Seq::empty());
    lemma_plain_text(plain, rest);
    assert((seq!['\\', c] + rest).skip(2) == rest);
}

proof fn lemma_plain_text(plain: Seq<char>, rest: Seq<char>)
    requires
        !plain.contains('/'),
        !plain.contains('\\'),
    ensures
        unescaped(rest) matches Some((left, data)) ==> unescaped(plain + rest) == Some(
            (left, plain + data),
        ),
        unescaped(rest) is None ==> unescaped(plain + rest) is None,
    decreases plain.len(),
{
    if plain.len() == 0 {
        assert(plain + rest == rest);
        if let Some((left, data)) = unescaped(rest) {
            assert(plain + data == data);
        }
    } else {
        assert(plain.contains(plain[0]));
        let shorter = plain.skip(1);
        assert forall|c: char| !plain.contains(c) implies !#[trigger] shorter.contains(c) by {
            if shorter.contains(c) {
                assert(plain[shorter.index_of(c) + 1] == c);
            }
        }
        lemma_plain_text(shorter, rest);
        assert((plain + rest).skip(1) == shorter + rest);
        if let Some((left, data)) = unescaped(rest) {
            assert(seq![plain[0]] + (shorter + data) == plain + data);
        }
    }
}

proof fn lemma_after(input: Seq<char>, expected: Seq<char>, rest: Seq<char>)
    ensures
        after(expected + rest, expected) == Some(rest),
        after(input, expected) matches Some(r) ==> input == expected + r,
{
    let whole = expected + rest;
    assert(whole.take(expected.len() as int) == expected);
    assert(whole.skip(expected.len() as int) == rest);
    if after(input, expected) is Some {
        assert(input == input.take(expected.len() as int) + input.skip(expected.len() as int));
    }
}

proof fn lemma_number_holds_no_slash(text: Seq<char>)
    requires
        unsigned(text) is Some,
    ensures
        forall|i: int| 0 <= i < text.len() ==> #[trigger] text[i] != '/',
{
    assert forall|i: int| 0 <= i < text.len() implies #[trigger] text[i] != '/' by {
        if text[0] == '+' && i > 0 {
            assert(is_digit(text.skip(1)[i - 1]));
        } else if text[0] != '+' {
            assert(is_digit(text[i]));
        }
    }
}

proof fn lemma_number_field(text: Seq<char>, n: u32, rest: Seq<char>)
    requires
        unsigned(text) == Some(n),
    ensures
        number_field(text + seq!['/'] + rest) == Some((rest, n)),
{
    lemma_literals();
    lemma_number_holds_no_slash(text);
    let input = text + seq!['/'] + rest;
    lemma_field_len(input, text.len());
    assert(input.take(text.len() as int) == text);
    assert(input.skip(text.len() as int) == seq!['/'] + rest);
    lemma_after(input, "/"@, rest);
}

proof fn lemma_number_field_reads(input: Seq<char>)
    ensures
        number_field(input) matches Some((rest, n)) ==> exists|text: Seq<char>|
            unsigned(text) == Some(n) && input == #[trigger] (text + seq!['/'] + rest),
{
    lemma_literals();
    if let Some((rest, n)) = number_field(input) {
        let k = field_len(input) as int;
        let text = input.take(k);
        lemma_after(input.skip(k), "/"@, rest);
        lemma_field_len_is_within(input);
        assert(input == text + input.skip(k));
        assert(input == text + seq!['/'] + rest);
    }
}

proof fn lemma_field_len_is_within(input: Seq<char>)
    ensures
        field_len(input) <= input.len(),
    decreases input.len(),
{
    if input.len() > 0 && input[0] != '/' {
        lemma_field_len_is_within(input.skip(1));
    }
}

/// What a message of this kind begins with.
pub open spec fn beginning(kind: MessageType) -> Seq<char> {
    match kind {
        MessageType::Connect => seq!['/', 'c', 'o', 'n', 'n', 'e', 'c', 't', '/'],
        MessageType::Data => seq!['/', 'd', 'a', 't', 'a', '/'],
        MessageType::Ack => seq!['/', 'a', 'c', 'k', '/'],
        MessageType::Close => seq!['/', 'c', 'l', 'o', 's', 'e', '/'],
    }
}

/// Whether `input` is a message of this kind with these numbers, letter for letter, and `rest` is what
/// follows its last slash; of a data message, what follows its position.
pub open spec fn is_spelled(
    input: Seq<char>,
    kind: MessageType,
    token: Seq<char>,
    number: Seq<char>,
    rest: Seq<char>,
) -> bool {
    if kind is Connect || kind is Close {
        input == beginning(kind) + token + seq!['/'] + rest
    } else {
        input == beginning(kind) + token + seq!['/'] + (number + seq!['/'] + rest)
    }
}

/// A text is read as a message by its parts: a word that begins a message, a number, and the fields of
/// that kind of message.
proof fn lemma_message_of(head: Seq<char>, kind: MessageType, token: Seq<char>, t: u32, tail: Seq<char>)
    requires
        unsigned(token) == Some(t),
        message_head(head + (token + seq!['/'] + tail)) == Some((token + seq!['/'] + tail, kind)),
    ensures
        message(head + token + seq!['/'] + tail) == match fields(kind, tail) {
            Some((left, m)) => Some((left, (t, m))),
            None => None,
        },
{
    lemma_number_field(token, t, tail);
    assert(head + (token + seq!['/'] + tail) == head + token + seq!['/'] + tail);
}

/// A text that is spelled so opens a session.
pub proof fn law_connects_are_read(token: Seq<char>, t: u32, rest: Seq<char>)
    requires
        unsigned(token) == Some(t),
    ensures
        message(seq!['/', 'c', 'o', 'n', 'n', 'e', 'c', 't', '/'] + token + seq!['/'] + rest) == Some(
            (rest, (t, MessageView::Connect)),
        ),
{
    lemma_literals();
    lemma_message_head_reads_back(token + seq!['/'] + rest);
    lemma_message_of("/connect/"@, MessageType::Connect, token, t, rest);
}

/// A text that is spelled so ends a session.
pub proof fn law_closes_are_read(token: Seq<char>, t: u32, rest: Seq<char>)
    requires
        unsigned(token) == Some(t),
    ensures
        message(seq!['/', 'c', 'l', 'o', 's', 'e', '/'] + token + seq!['/'] + rest) == Some(
            (rest, (t, MessageView::Close)),
        ),
{
    lemma_literals();
    lemma_message_head_reads_back(token + seq!['/'] + rest);
    lemma_message_of("/close/"@, MessageType::Close, token, t, rest);
}

/// A text that is spelled so acknowledges bytes.
pub proof fn law_acknowledgements_are_read(
    token: Seq<char>,
    t: u32,
    number: Seq<char>,
    n: u32,
    rest: Seq<char>,
)
    requires
        unsigned(token) == Some(t),
        unsigned(number) == Some(n),
    ensures
        message(
            seq!['/', 'a', 'c', 'k', '/'] + token + seq!['/'] + (number + seq!['/'] + rest),
        ) == Some((rest, (t, MessageView::Ack { length: n }))),
{
    lemma_literals();
    let tail = number + seq!['/'] + rest;
    lemma_message_head_reads_back(token + seq!['/'] + tail);
    lemma_message_of("/ack/"@, MessageType::Ack, token, t, tail);
    lemma_number_field(number, n, rest);
}

/// A text that is spelled so carries data, if data can be read from it and is not empty.
pub proof fn law_data_is_read(
    token: Seq<char>,
    t: u32,
    number: Seq<char>,
    n: u32,
    rest: Seq<char>,
)
    requires
        unsigned(token) == Some(t),
        unsigned(number) == Some(n),
    ensures
        message(
            seq!['/', 'd', 'a', 't', 'a', '/'] + token + seq!['/'] + (number + seq!['/'] + rest),
        ) == match unescaped(rest) {
            Some((left, data)) => if data.len() > 0 {
                Some((left, (t, MessageView::Data { pos: n, data })))
            } else {
                None
            },
            None => None,
        },
{
    lemma_literals();
    let tail = number + seq!['/'] + rest;
    lemma_message_head_reads_back(token + seq!['/'] + tail);
    lemma_message_of("/data/"@, MessageType::Data, token, t, tail);
    lemma_number_field(number, n, rest);
}

/// What is read as a message is spelled as one.
pub proof fn law_messages_read_are_spelled(input: Seq<char>)
    ensures
        message(input) matches Some((left, (t, m))) ==> exists|
            kind: MessageType,
            token: Seq<char>,
            number: Seq<char>,
            rest: Seq<char>,
        | #[trigger]
            is_spelled(input, kind, token, number, rest) && unsigned(token) == Some(t) && match m {
                MessageView::Connect => kind is Connect && rest == left,
                MessageView::Close => kind is Close && rest == left,
                MessageView::Ack { length } => kind is Ack && rest == left && unsigned(number)
                    == Some(length),
                MessageView::Data { pos, data } => kind is Data && unsigned(number) == Some(pos)
                    && unescaped(rest) == Some((left, data)) && data.len() > 0,
            },
{
    if let Some((left, (t, m))) = message(input) {
        let (after_head, kind) = message_head(input)->0;
        lemma_head_is_spelled(input);
        lemma_number_field_reads(after_head);
        let (after_token, _token) = number_field(after_head)->0;
        let token = choose|text: Seq<char>|
            unsigned(text) == Some(t) && after_head == #[trigger] (text + seq!['/'] + after_token);
        assert(input == beginning(kind) + token + seq!['/'] + after_token);
        if m is Connect || m is Close {
            assert(is_spelled(input, kind, token, Seq::empty(), left));
        } else {
            lemma_number_field_reads(after_token);
            let (rest, n) = number_field(after_token)->0;
            let number = choose|text: Seq<char>|
                unsigned(text) == Some(n) && after_token == #[trigger] (text + seq!['/'] + rest);
            assert(is_spelled(input, kind, token, number, rest));
        }
    }
}

proof fn lemma_head_is_spelled(input: Seq<char>)
    ensures
        message_head(input) matches Some((rest, kind)) ==> input == beginning(kind) + rest,
{
    lemma_literals();
    if let Some((rest, kind)) = message_head(input) {
        let word = match kind {
            MessageType::Connect => "connect"@,
            MessageType::Data => "data"@,
            MessageType::Ack => "ack"@,
            MessageType::Close => "close"@,
        };
        let r1 = after(input, "/"@)->0;
        lemma_after(input, "/"@, r1);
        let (r2, _kind) = message_type(r1)->0;
        lemma_after(r1, word, r2);
        lemma_after(r2, "/"@, rest);
        assert(seq!['/'] + word + seq!['/'] == beginning(kind));
        assert(input == seq!['/'] + word + seq!['/'] + rest);
    }
}

} // verus!
