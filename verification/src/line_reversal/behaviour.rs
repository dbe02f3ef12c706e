//! What a session does on each event, told character by character.

use vstd::prelude::*;
use vstd::string::*;
use vstd::utf8::*;

use crate::line_reversal::client::answers;
use crate::line_reversal::client::chunk;
use crate::line_reversal::client::law_answers_are_the_reversed_lines;
use crate::line_reversal::client::low_bits;
use crate::line_reversal::client::message_views;
use crate::line_reversal::client::received;
use crate::line_reversal::client::reversed_line;
use crate::line_reversal::client::reversed_lines;
use crate::line_reversal::client::step;
use crate::line_reversal::client::Client;
use crate::line_reversal::client::ClientView;
use crate::line_reversal::client::EventView;
use crate::line_reversal::client::Next;
use crate::line_reversal::client::NextView;
use crate::line_reversal::client::Step;
use crate::line_reversal::client::StepView;
use crate::line_reversal::client::Timer;
use crate::line_reversal::client::MAX_DATA_SIZE;
use crate::line_reversal::client::RETRANSMISSION_TIMEOUT_MILLIS;
use crate::line_reversal::client::SESSION_EXPIRY_TIMEOUT_SECS;
use crate::line_reversal::message::Message;
use crate::line_reversal::message::MessageView;
use crate::text::byte_len;
use crate::text::complete_lines;
use crate::text::is_boundary;
use crate::text::law_bytes_of_characters;
use crate::text::law_line_feeds_end_lines;
use crate::text::law_no_character_is_cut;
use crate::text::law_strings_are_cut_between_characters;
use crate::text::lemma_ascii_boundary;
use crate::text::unfinished_line;

verus! {

/// The limits of the protocol: nine hundred bytes of data in a message, a tenth of a second before data
/// is sent again, and a minute of silence.
pub proof fn law_limits()
    ensures
        MAX_DATA_SIZE == 900,
        RETRANSMISSION_TIMEOUT_MILLIS == 100,
        SESSION_EXPIRY_TIMEOUT_SECS == 60,
{
}

/// The answer to a line has its characters in the opposite order, all of them, and a line feed behind
/// them.
pub proof fn law_lines_are_reversed(line: Seq<char>, i: int)
    ensures
        reversed_line(line).len() == line.len() + 1,
        0 <= i < line.len() ==> reversed_line(line)[i] == line[line.len() - 1 - i],
        reversed_line(line)[line.len() as int] == '\n',
{
    lemma_reverse(line);
}

proof fn lemma_reverse(s: Seq<char>)
    ensures
        s.reverse().len() == s.len(),
        forall|i: int| 0 <= i < s.len() ==> #[trigger] s.reverse()[i] == s[s.len() - 1 - i],
    decreases s.len(),
{
    if s.len() > 0 {
        lemma_reverse(s.drop_last());
        lemma_reverse(s.drop_first());
    }
}

/// The answers to lines follow one another in the order of the lines.
pub proof fn law_answers_follow_one_another(a: Seq<Seq<char>>, b: Seq<Seq<char>>, line: Seq<char>)
    ensures
        reversed_lines(Seq::empty()) == Seq::<char>::empty(),
        reversed_lines(seq![line]) == reversed_line(line),
        reversed_lines(a + b) == reversed_lines(a) + reversed_lines(b),
    decreases b.len(),
{
    assert(seq![line].drop_last() == Seq::<Seq<char>>::empty());
    assert(reversed_lines(Seq::<Seq<char>>::empty()) == Seq::<char>::empty());
    if b.len() == 0 {
        assert(a + b == a);
    } else {
        law_answers_follow_one_another(a, b.drop_last(), line);
        assert((a + b).drop_last() == a + b.drop_last());
    }
}

/// Numbers below two to the power of thirty-two are kept, and that much more makes no difference.
pub proof fn law_low_bits_are_kept(n: int)
    ensures
        0 <= n < 4294967296 ==> low_bits(n) == n,
        low_bits(n + 4294967296) == low_bits(n),
{
}

/// A data message carries the first characters of what is owed, as many as fit in nine hundred bytes,
/// and says where they begin.
pub proof fn law_messages_carry_what_fits(outgoing: Seq<char>, max_ack: u32, k: int)
    requires
        0 <= k <= outgoing.len(),
    ensures
        byte_len(outgoing) <= 900 ==> chunk(outgoing, max_ack) == Some(
            MessageView::Data { pos: max_ack, data: outgoing },
        ),
        byte_len(outgoing) > 900 && byte_len(outgoing.take(k)) == 900 ==> chunk(outgoing, max_ack)
            == Some(MessageView::Data { pos: max_ack, data: outgoing.take(k) }),
{
    let n = outgoing.len() as int;
    assert(outgoing.take(n) == outgoing);
    law_strings_are_cut_between_characters(outgoing, 0, n);
    law_strings_are_cut_between_characters(outgoing, 0, k);
}

/// Data goes on where the client's stream is: the characters that are new are added, and the position
/// moves on by their bytes.
pub proof fn law_new_characters_are_added(c: ClientView, pos: u32, data: Seq<char>, k: int)
    requires
        0 <= k <= data.len(),
        pos + byte_len(data) <= u32::MAX,
    ensures
        pos + byte_len(data.take(k)) == c.incoming_pos ==> received(c, pos, data) == Some(
            ClientView {
                incoming: c.incoming + data.skip(k),
                incoming_pos: (pos + byte_len(data)) as u32,
                ..c
            },
        ),
        pos > c.incoming_pos ==> received(c, pos, data) == Some(c),
        pos + byte_len(data) <= c.incoming_pos ==> received(c, pos, data) == Some(c),
{
    if pos + byte_len(data.take(k)) == c.incoming_pos {
        law_strings_are_cut_between_characters(data, 0, k);
        assert(data.take(k) + data.skip(k) == data);
        law_bytes_of_characters(data.take(k), data.skip(k), ' ');
        if byte_len(data.take(k)) == byte_len(data) {
            lemma_no_bytes_no_characters(data.skip(k));
            assert(c.incoming + data.skip(k) == c.incoming);
        }
    }
}

proof fn lemma_no_bytes_no_characters(s: Seq<char>)
    requires
        byte_len(s) == 0,
    ensures
        s.len() == 0,
{
    if s.len() > 0 {
        assert(s == seq![s[0]] + s.skip(1));
        law_bytes_of_characters(seq![s[0]], s.skip(1), s[0]);
    }
}

/// After each line the first of all that is owed by then is sent.
pub proof fn law_each_line_is_followed_by_a_message(
    outgoing: Seq<char>,
    max_ack: u32,
    lines: Seq<Seq<char>>,
    k: int,
)
    requires
        answers(outgoing, max_ack, lines).complete,
        0 <= k < lines.len(),
    ensures
        answers(outgoing, max_ack, lines).sends.len() == lines.len(),
        chunk(outgoing + reversed_lines(lines.take(k + 1)), max_ack) == Some(
            answers(outgoing, max_ack, lines).sends[k],
        ),
        answers(outgoing, max_ack, lines).outgoing == outgoing + reversed_lines(lines),
    decreases lines.len(),
{
    law_answers_are_the_reversed_lines(outgoing, max_ack, lines);
    if k < lines.len() - 1 {
        law_each_line_is_followed_by_a_message(outgoing, max_ack, lines.drop_last(), k);
        assert(lines.drop_last().take(k + 1) == lines.take(k + 1));
    } else {
        assert(lines.take(k + 1) == lines);
    }
}

/// Data that ends a line is acknowledged up to its end and answered: what is owed grows by the line, from
/// its last character to its first, and a line feed, and the first nine hundred bytes of it are sent. In
/// ASCII, where a character is a byte.
pub proof fn law_a_line_is_answered(c: ClientView, data: Seq<char>, i: int)
    requires
        is_ascii_chars(c.incoming),
        is_ascii_chars(c.outgoing),
        is_ascii_chars(data),
        !c.incoming.contains('\n'),
        !data.contains('\n'),
        data.len() > 0 ==> data.last() != '\r',
        data.len() == 0 && c.incoming.len() > 0 ==> c.incoming.last() != '\r',
        c.incoming_pos + data.len() + 1 <= u32::MAX,
    ensures
        ({
            let line = c.incoming + data;
            let n = line.len() as int;
            let s = step(
                c,
                EventView::Received(
                    MessageView::Data { pos: c.incoming_pos, data: data.push('\n') },
                ),
            );
            &&& s.timer is Restart
            &&& s.sends.len() == 2
            &&& s.sends[0] == (MessageView::Ack {
                length: (c.incoming_pos + data.len() + 1) as u32,
            })
            &&& s.next matches NextView::Continue(d) && {
                let owed = c.outgoing.len() as int;
                &&& d.incoming.len() == 0
                &&& d.incoming_pos == c.incoming_pos + data.len() + 1
                &&& d.max_ack == c.max_ack
                &&& d.session_token == c.session_token
                &&& d.outgoing.len() == owed + n + 1
                &&& d.outgoing.take(owed) == c.outgoing
                &&& 0 <= i < n ==> d.outgoing[owed + i] == line[n - 1 - i]
                &&& d.outgoing.last() == '\n'
                &&& s.sends[1] == (MessageView::Data {
                    pos: c.max_ack,
                    data: if d.outgoing.len() < 900 {
                        d.outgoing
                    } else {
                        d.outgoing.take(900)
                    },
                })
            }
        }),
{
    let line = c.incoming + data;
    let whole = data.push('\n');
    let n = line.len() as int;
    assert(is_ascii_chars(whole)) by {
        assert forall|k: int| 0 <= k < whole.len() implies '\0' <= #[trigger] whole[k] <= '\u{7f}' by {
            if k < data.len() {
                assert(whole[k] == data[k]);
            }
        }
    }
    lemma_ascii_boundary(whole, 0);
    assert(whole.take(0) == Seq::<char>::empty());
    law_bytes_of_characters(Seq::empty(), Seq::empty(), ' ');
    law_new_characters_are_added(c, c.incoming_pos, whole, 0);
    assert(whole.skip(0) == whole);
    let text = c.incoming + whole;
    assert(text == line + seq!['\n'] + Seq::<char>::empty());
    assert(!line.contains('\n')) by {
        if line.contains('\n') {
            let k = line.index_of('\n');
            if k < c.incoming.len() {
                assert(c.incoming[k] == '\n');
            } else {
                assert(data[k - c.incoming.len()] == '\n');
            }
        }
    }
    if line.len() > 0 {
        assert(line.last() == if data.len() > 0 {
            data.last()
        } else {
            c.incoming.last()
        });
    }
    law_line_feeds_end_lines(line, Seq::empty());
    law_line_feeds_end_lines(Seq::empty(), Seq::empty());
    assert(complete_lines(text) == seq![line]);
    assert(unfinished_line(text) == Seq::<char>::empty());
    law_lines_are_reversed(line, i);
    let answer = reversed_line(line);
    let owed = c.outgoing + answer;
    assert(is_ascii_chars(owed)) by {
        assert forall|k: int| 0 <= k < owed.len() implies '\0' <= #[trigger] owed[k] <= '\u{7f}' by {
            if k < c.outgoing.len() {
                assert(owed[k] == c.outgoing[k]);
            } else if k - c.outgoing.len() < n {
                let j = k - c.outgoing.len();
                law_lines_are_reversed(line, j);
                if n - 1 - j < c.incoming.len() {
                    assert(line[n - 1 - j] == c.incoming[n - 1 - j]);
                } else {
                    assert(line[n - 1 - j] == data[n - 1 - j - c.incoming.len()]);
                }
            }
        }
    }
    lemma_ascii_messages(owed, c.max_ack);
    assert(seq![line].drop_last() == Seq::<Seq<char>>::empty());
    let none = answers(c.outgoing, c.max_ack, Seq::<Seq<char>>::empty());
    assert(none.outgoing == c.outgoing && none.complete && none.sends.len() == 0);
    assert(owed.take(c.outgoing.len() as int) == c.outgoing);
    assert(seq![line].last() == line);
}

proof fn lemma_ascii_messages(outgoing: Seq<char>, max_ack: u32)
    requires
        is_ascii_chars(outgoing),
    ensures
        chunk(outgoing, max_ack) == Some(
            MessageView::Data {
                pos: max_ack,
                data: if outgoing.len() < 900 {
                    outgoing
                } else {
                    outgoing.take(900)
                },
            },
        ),
{
    lemma_ascii_boundary(outgoing, 0);
    if outgoing.len() <= 900 {
        law_messages_carry_what_fits(outgoing, max_ack, 0);
        if outgoing.len() == 900 {
            assert(outgoing.take(900) == outgoing);
        }
    } else {
        let first = outgoing.take(900);
        assert(is_ascii_chars(first)) by {
            assert forall|k: int| 0 <= k < first.len() implies '\0' <= #[trigger] first[k]
                <= '\u{7f}' by {
                assert(first[k] == outgoing[k]);
            }
        }
        lemma_ascii_boundary(first, 0);
        law_messages_carry_what_fits(outgoing, max_ack, 900);
    }
}

/// Data without a line feed joins the open line, and is only acknowledged.
pub proof fn law_an_open_line_is_kept(c: ClientView, data: Seq<char>)
    requires
        !c.incoming.contains('\n'),
        !data.contains('\n'),
        c.incoming_pos + byte_len(data) <= u32::MAX,
    ensures
        step(
            c,
            EventView::Received(MessageView::Data { pos: c.incoming_pos, data }),
        ) == (StepView {
            sends: seq![
                MessageView::Ack { length: (c.incoming_pos + byte_len(data)) as u32 },
            ],
            timer: Timer::Keep,
            next: NextView::Continue(
                ClientView {
                    incoming: c.incoming + data,
                    incoming_pos: (c.incoming_pos + byte_len(data)) as u32,
                    ..c
                },
            ),
        }),
{
    assert(data.take(0) == Seq::<char>::empty());
    assert(data.skip(0) == data);
    law_bytes_of_characters(Seq::empty(), Seq::empty(), ' ');
    law_new_characters_are_added(c, c.incoming_pos, data, 0);
    let text = c.incoming + data;
    assert(!text.contains('\n')) by {
        if text.contains('\n') {
            let k = text.index_of('\n');
            if k < c.incoming.len() {
                assert(c.incoming[k] == '\n');
            } else {
                assert(data[k - c.incoming.len()] == '\n');
            }
        }
    }
    law_line_feeds_end_lines(text, Seq::empty());
    let ack = MessageView::Ack { length: (c.incoming_pos + byte_len(data)) as u32 };
    assert(seq![ack] + Seq::<MessageView>::empty() == seq![ack]);
}

/// An acknowledgement of some of the characters that are owed takes those off and sends the first of the
/// others; of all of them, it stops the timer; of none that is new, it changes nothing; and of more than
/// there are, it closes the session.
pub proof fn law_acknowledged_characters_are_taken_off(c: ClientView, length: u32, k: int)
    requires
        0 < k <= c.outgoing.len(),
        byte_len(c.outgoing) <= u32::MAX,
    ensures
        ({
            let s = step(c, EventView::Received(MessageView::Ack { length }));
            &&& length <= c.max_ack ==> s.sends.len() == 0 && s.timer is Keep && s.next
                == NextView::Continue(c)
            &&& length > c.max_ack + byte_len(c.outgoing) ==> s.sends.len() == 0 && s.next is Close
            &&& length == c.max_ack + byte_len(c.outgoing.take(k)) && k == c.outgoing.len() ==> {
                &&& s.sends.len() == 0
                &&& s.timer is Cancel
                &&& s.next matches NextView::Continue(d) && d == (ClientView {
                    outgoing: Seq::empty(),
                    max_ack: length,
                    ..c
                })
            }
            &&& length == c.max_ack + byte_len(c.outgoing.take(k)) && k < c.outgoing.len()
                && byte_len(c.outgoing.skip(k)) <= 900 ==> {
                &&& s.sends == seq![MessageView::Data { pos: length, data: c.outgoing.skip(k) }]
                &&& s.timer is Restart
                &&& s.next == NextView::Continue(
                    ClientView { outgoing: c.outgoing.skip(k), max_ack: length, ..c },
                )
            }
            &&& length == c.max_ack + byte_len(c.outgoing.take(k)) && k < c.outgoing.len() ==> {
                match chunk(c.outgoing.skip(k), length) {
                    Some(m) => s.sends == seq![m] && s.timer is Restart && s.next
                        == NextView::Continue(
                        ClientView { outgoing: c.outgoing.skip(k), max_ack: length, ..c },
                    ),
                    None => s.sends.len() == 0 && s.next is Fault,
                }
            }
        }),
{
    let first = c.outgoing.take(k);
    let rest = c.outgoing.skip(k);
    assert(first + rest == c.outgoing);
    law_bytes_of_characters(first, rest, ' ');
    law_strings_are_cut_between_characters(c.outgoing, 0, k);
    law_low_bits_are_kept(byte_len(c.outgoing) as int);
    law_messages_carry_what_fits(rest, length, 0);
    if byte_len(first) == 0 {
        lemma_no_bytes_no_characters(first);
    }
    assert(k == c.outgoing.len() ==> rest == Seq::<char>::empty());
}

/// A client that asks again for its session is told once more that nothing has arrived; one that
/// closes it, is silent for too long or cannot be heard any more is told nothing before the end; and
/// what is owed is sent again when its time has come.
pub proof fn law_other_events(c: ClientView)
    ensures
        step(c, EventView::Received(MessageView::Connect)) == (StepView {
            sends: seq![MessageView::Ack { length: 0 }],
            timer: Timer::Keep,
            next: NextView::Continue(c),
        }),
        step(c, EventView::Received(MessageView::Close)).next is Close,
        step(c, EventView::Received(MessageView::Close)).sends.len() == 0,
        step(c, EventView::SessionExpired).next is Close,
        step(c, EventView::SessionExpired).sends.len() == 0,
        step(c, EventView::Disconnected).next is Close,
        step(c, EventView::Disconnected).sends.len() == 0,
        byte_len(c.outgoing) <= 900 ==> step(c, EventView::RetransmissionDue) == (StepView {
            sends: seq![MessageView::Data { pos: c.max_ack, data: c.outgoing }],
            timer: Timer::Restart,
            next: NextView::Continue(c),
        }),
        chunk(c.outgoing, c.max_ack) matches Some(m) ==> step(c, EventView::RetransmissionDue) == (
        StepView { sends: seq![m], timer: Timer::Restart, next: NextView::Continue(c) }),
        chunk(c.outgoing, c.max_ack) is None ==> step(c, EventView::RetransmissionDue).next is Fault
            && step(c, EventView::RetransmissionDue).sends.len() == 0,
{
    law_messages_carry_what_fits(c.outgoing, c.max_ack, 0);
}

/// A data message can be made unless the nine hundredth byte is inside a character.
pub proof fn law_only_a_cut_character_stands_in_the_way(outgoing: Seq<char>, max_ack: u32)
    ensures
        chunk(outgoing, max_ack) is None ==> byte_len(outgoing) > 900 && forall|k: int|
            0 <= k <= outgoing.len() ==> byte_len(#[trigger] outgoing.take(k)) != 900,
        chunk(outgoing, max_ack) is Some && byte_len(outgoing) > 900 ==> exists|k: int|
            0 <= k <= outgoing.len() && byte_len(#[trigger] outgoing.take(k)) == 900,
{
    if chunk(outgoing, max_ack) is None {
        law_messages_carry_what_fits(outgoing, max_ack, 0);
        assert forall|k: int| 0 <= k <= outgoing.len() implies byte_len(#[trigger] outgoing.take(k))
            != 900 by {
            law_messages_carry_what_fits(outgoing, max_ack, k);
        }
    } else if byte_len(outgoing) > 900 {
        let k = law_no_character_is_cut(outgoing, 900);
        assert(byte_len(outgoing.take(k)) == 900);
    }
}

/// Data is acknowledged up to where the client's stream now is, and then each line that is complete is
/// followed by a message; what is owed grows by the answers, and the open line is kept.
pub proof fn law_lines_are_answered_in_turn(c: ClientView, pos: u32, data: Seq<char>, k: int)
    requires
        received(c, pos, data) is Some,
    ensures
        ({
            let d = received(c, pos, data)->0;
            let lines = complete_lines(d.incoming);
            let s = step(c, EventView::Received(MessageView::Data { pos, data }));
            &&& s.sends.len() > 0 && s.sends[0] == (MessageView::Ack { length: d.incoming_pos })
            &&& s.next is Continue || s.next is Fault
            &&& s.next matches NextView::Continue(e) ==> {
                &&& s.sends.len() == 1 + lines.len()
                &&& 0 <= k < lines.len() ==> chunk(
                    d.outgoing + reversed_lines(lines.take(k + 1)),
                    d.max_ack,
                ) == Some(s.sends[1 + k])
                &&& s.timer == if lines.len() > 0 {
                    Timer::Restart
                } else {
                    Timer::Keep
                }
                &&& e == (ClientView {
                    incoming: unfinished_line(d.incoming),
                    outgoing: d.outgoing + reversed_lines(lines),
                    ..d
                })
            }
            &&& s.next is Fault ==> exists|j: int|
                0 <= j < lines.len() && chunk(
                    d.outgoing + #[trigger] reversed_lines(lines.take(j + 1)),
                    d.max_ack,
                ) is None
        }),
{
    let d = received(c, pos, data)->0;
    let lines = complete_lines(d.incoming);
    let a = answers(d.outgoing, d.max_ack, lines);
    if a.complete {
        law_answers_are_the_reversed_lines(d.outgoing, d.max_ack, lines);
        if 0 <= k < lines.len() {
            law_each_line_is_followed_by_a_message(d.outgoing, d.max_ack, lines, k);
        }
    } else {
        lemma_where_answers_stop(d.outgoing, d.max_ack, lines);
    }
}

proof fn lemma_where_answers_stop(outgoing: Seq<char>, max_ack: u32, lines: Seq<Seq<char>>)
    requires
        !answers(outgoing, max_ack, lines).complete,
    ensures
        exists|j: int|
            0 <= j < lines.len() && chunk(
                outgoing + #[trigger] reversed_lines(lines.take(j + 1)),
                max_ack,
            ) is None,
    decreases lines.len(),
{
    let shorter = lines.drop_last();
    let before = answers(outgoing, max_ack, shorter);
    if before.complete {
        law_answers_are_the_reversed_lines(outgoing, max_ack, shorter);
        let j = lines.len() - 1;
        assert(lines.take(j + 1) == lines);
        assert(outgoing + reversed_lines(shorter) + reversed_line(lines.last()) == outgoing
            + reversed_lines(lines));
    } else {
        lemma_where_answers_stop(outgoing, max_ack, shorter);
        let j = choose|j: int|
            0 <= j < shorter.len() && chunk(
                outgoing + #[trigger] reversed_lines(shorter.take(j + 1)),
                max_ack,
            ) is None;
        assert(shorter.take(j + 1) == lines.take(j + 1));
    }
}

/// What cannot be done is a fault and nothing is sent: data that would begin inside a character, a
/// position beyond thirty-two bits, and an acknowledgement that ends inside a character.
pub proof fn law_faults_send_nothing(c: ClientView, pos: u32, data: Seq<char>, length: u32)
    ensures
        pos <= c.incoming_pos < pos + byte_len(data) && (forall|k: int|
            0 <= k <= data.len() ==> byte_len(#[trigger] data.take(k)) != c.incoming_pos - pos) ==> ({
            let s = step(c, EventView::Received(MessageView::Data { pos, data }));
            s.next is Fault && s.sends.len() == 0
        }),
        pos <= c.incoming_pos < pos + byte_len(data) && pos + byte_len(data) > u32::MAX && pos
            + byte_len(data) - c.incoming_pos <= u32::MAX ==> ({
            let s = step(c, EventView::Received(MessageView::Data { pos, data }));
            s.next is Fault && s.sends.len() == 0
        }),
        c.max_ack < length <= c.max_ack + byte_len(c.outgoing) && byte_len(c.outgoing) <= u32::MAX && (
        forall|k: int|
            0 <= k <= c.outgoing.len() ==> byte_len(#[trigger] c.outgoing.take(k)) != length
                - c.max_ack) ==> ({
            let s = step(c, EventView::Received(MessageView::Ack { length }));
            s.next is Fault && s.sends.len() == 0
        }),
{
    let known = c.incoming_pos - pos;
    if 0 <= known < byte_len(data) && is_boundary(data, known) {
        let k = law_no_character_is_cut(data, known);
        assert(byte_len(data.take(k)) == known);
    }
    let progress = length - c.max_ack;
    if 0 < progress <= byte_len(c.outgoing) && is_boundary(c.outgoing, progress) {
        let k = law_no_character_is_cut(c.outgoing, progress);
        assert(byte_len(c.outgoing.take(k)) == progress);
    }
}

/// What a message, a session and a step show of themselves is what they hold.
pub proof fn law_views_show_what_is_there(
    m: Message,
    messages: Seq<Message>,
    c: Client,
    s: Step,
    i: int,
)
    ensures
        match m {
            Message::Connect => m@ == MessageView::Connect,
            Message::Data { pos, data } => m@ == (MessageView::Data { pos, data: data@ }),
            Message::Ack { length } => m@ == (MessageView::Ack { length }),
            Message::Close => m@ == MessageView::Close,
        },
        message_views(messages).len() == messages.len(),
        0 <= i < messages.len() ==> message_views(messages)[i] == messages[i]@,
        c@.session_token == c.session_token,
        c@.incoming == c.incoming_data_buffer@,
        c@.incoming_pos == c.incoming_pos,
        c@.outgoing == c.outgoing_data@,
        c@.max_ack == c.max_ack,
        s@.sends == message_views(s.sends@),
        s@.timer == s.timer,
        s.next is Close <==> s@.next is Close,
        s.next is Fault <==> s@.next is Fault,
        s.next matches Next::Continue(d) ==> s@.next == NextView::Continue(d@),
{
}

} // verus!
