//! What the server makes of a datagram: which session it belongs to, and what is answered where
//! there is no such session.

use vstd::prelude::*;

use crate::line_reversal::message::encoded;
use crate::line_reversal::message::law_message_reads_back;
use crate::line_reversal::message::message;
use crate::line_reversal::message::parse_message;
use crate::line_reversal::message::Message;
use crate::line_reversal::message::MessageView;
use crate::line_reversal::message::SessionToken;
use crate::text::chars_of;

verus! {

/// Whether `c` has the property `White_Space` of Unicode.
pub open spec fn is_white_space(c: char) -> bool {
    ||| '\u{9}' <= c <= '\u{d}'
    ||| c == ' '
    ||| c == '\u{85}'
    ||| c == '\u{a0}'
    ||| c == '\u{1680}'
    ||| '\u{2000}' <= c <= '\u{200a}'
    ||| c == '\u{2028}'
    ||| c == '\u{2029}'
    ||| c == '\u{202f}'
    ||| c == '\u{205f}'
    ||| c == '\u{3000}'
}

/// Whether there is nothing but white space in `s`.
pub open spec fn is_blank(s: Seq<char>) -> bool {
    forall|i: int| 0 <= i < s.len() ==> is_white_space(#[trigger] s[i])
}

/// The message that a datagram carries: it stands at the beginning, and nothing but white space
/// follows it.
pub open spec fn datagram(packet: Seq<char>) -> Option<(SessionToken, MessageView)> {
    match message(packet) {
        Some((rest, m)) => if is_blank(rest) {
            Some(m)
        } else {
            None
        },
        None => None,
    }
}

/// Whether there is nothing but white space in `s`.
fn all_blank(s: &[char]) -> (b: bool)
    ensures
        b == is_blank(s@),
{
    let mut i: usize = 0;
    while i < s.len()
        invariant
            i <= s.len(),
            forall|k: int| 0 <= k < i ==> is_white_space(#[trigger] s@[k]),
        decreases s.len() - i,
    {
        let c = s[i];
        let white = ('\u{9}' <= c && c <= '\u{d}') || c == ' ' || c == '\u{85}' || c == '\u{a0}'
            || c == '\u{1680}' || ('\u{2000}' <= c && c <= '\u{200a}') || c == '\u{2028}' || c
            == '\u{2029}' || c == '\u{202f}' || c == '\u{205f}' || c == '\u{3000}';
        if !white {
            assert(!is_white_space(s@[i as int]));
            return false;
        }
        i = i + 1;
    }
    true
}

/// Reads a datagram.
pub fn parse_datagram(packet: &str) -> (out: Option<(SessionToken, Message)>)
    ensures
        out is Some == datagram(packet@) is Some,
        out matches Some((token, m)) ==> datagram(packet@) == Some((token, m@)),
{
    let chars = chars_of(packet);
    match parse_message(chars.as_slice()) {
        Some((rest, (token, m))) => {
            if all_blank(rest) {
                Some((token, m))
            } else {
                None
            }
        },
        None => None,
    }
}

/// What is done with a message.
#[derive(Debug, PartialEq, Eq)]
pub enum Dispatch {
    /// Its session gets it.
    Forward(Message),
    /// A session is opened, and the client is told this.
    Open(Message),
    /// There is no such session, and the client is told this.
    Reject(Message),
}

/// Decides what is done with a message, given whether its session is there.
pub fn dispatch(message: Message, known: bool) -> (out: Dispatch)
    ensures
        known ==> out == Dispatch::Forward(message),
        !known && message@ is Connect ==> out == Dispatch::Open(Message::Ack { length: 0 }),
        !known && !(message@ is Connect) ==> out == Dispatch::Reject(Message::Close),
{
    if known {
        Dispatch::Forward(message)
    } else {
        match message {
            Message::Connect => Dispatch::Open(Message::Ack { length: 0 }),
            _ => Dispatch::Reject(Message::Close),
        }
    }
}

/// White space, by the numbers of its characters.
pub proof fn law_white_space(c: char)
    ensures
        is_white_space(c) <==> {
            let n = c as int;
            ||| 9 <= n <= 13
            ||| n == 32
            ||| n == 133
            ||| n == 160
            ||| n == 5760
            ||| 8192 <= n <= 8202
            ||| n == 8232
            ||| n == 8233
            ||| n == 8239
            ||| n == 8287
            ||| n == 12288
        },
{
}

/// White space may follow a message in its datagram, and nothing else may.
pub proof fn law_only_white_space_follows(
    m: MessageView,
    token: SessionToken,
    space: Seq<char>,
    i: int,
)
    requires
        m matches MessageView::Data { data, .. } ==> data.len() > 0 && !data.contains('/'),
    ensures
        (forall|k: int| 0 <= k < space.len() ==> is_white_space(#[trigger] space[k])) ==> datagram(
            encoded(m, token) + space,
        ) == Some((token, m)),
        0 <= i < space.len() && !is_white_space(space[i]) ==> datagram(encoded(m, token) + space)
            is None,
{
    law_message_reads_back(m, token, space);
}

/// What does not begin with a message is no datagram of one.
pub proof fn law_datagrams_hold_messages(packet: Seq<char>)
    ensures
        message(packet) is None ==> datagram(packet) is None,
        datagram(packet) matches Some(m) ==> message(packet) matches Some((rest, n)) && n == m,
{
}

} // verus!
