//! One connection, once its cipher is known: requests come in, and for each the toy that is wanted
//! most goes out.

use vstd::prelude::*;
use vstd::string::*;
use vstd::utf8::*;

use crate::insecure_sockets::cipher::advanced;
use crate::insecure_sockets::cipher::decrypted_stream;
use crate::insecure_sockets::cipher::encrypted_stream;
use crate::insecure_sockets::cipher::law_pieces_of_a_stream;
use crate::insecure_sockets::cipher::law_stream_is_read_back;
use crate::insecure_sockets::cipher::lemma_advanced;
use crate::insecure_sockets::cipher::CipherDirection;
use crate::insecure_sockets::cipher::CipherOp;
use crate::insecure_sockets::cipher::CipherSpec;
use crate::insecure_sockets::cipher::Encoder;
use crate::insecure_sockets::toys::is_request;
use crate::insecure_sockets::toys::priority;
use crate::insecure_sockets::toys::try_toy_priority;
use crate::text::complete_lines;
use crate::text::law_lines_of_pieces;
use crate::text::lemma_split_without;
use crate::text::split_on;
use crate::text::strip_carriage_return;
use crate::text::take_lines;
use crate::text::unfinished_line;
use crate::text::views;

verus! {

/// The byte that ends an answer.
pub const LINE_FEED: u8 = 0xa;

/// A connection: its cipher, and what has been decrypted of a request that is not complete.
#[derive(Debug)]
pub struct Handler<'a> {
    pub encoder: Encoder<'a>,
    pub decrypted_buffer: String,
}

/// The mathematical counterpart of [`Handler`].
pub struct HandlerView {
    pub ops: Seq<CipherOp>,
    pub incoming_pos: u8,
    pub outgoing_pos: u8,
    pub buffer: Seq<char>,
}

impl<'a> View for Handler<'a> {
    type V = HandlerView;

    open spec fn view(&self) -> HandlerView {
        HandlerView {
            ops: self.encoder.spec@,
            incoming_pos: self.encoder.incoming_pos,
            outgoing_pos: self.encoder.outgoing_pos,
            buffer: self.decrypted_buffer@,
        }
    }
}

/// What is sent to a client.
#[derive(Debug, PartialEq, Eq)]
pub struct Reply {
    /// The encrypted answers.
    pub bytes: Vec<u8>,
    /// Whether every request could be answered. If not, those before the first that could not are.
    pub complete: bool,
}

/// The characters that bytes stand for, one for each.
pub open spec fn characters(bytes: Seq<u8>) -> Seq<char> {
    bytes.map_values(|b: u8| b as char)
}

/// The answer to a request: the toy that is wanted most, and a line feed.
pub open spec fn answer(request: Seq<char>) -> Seq<u8> {
    encode_utf8(priority(request)).push(LINE_FEED)
}

/// Whether each of the requests is one.
pub open spec fn are_requests(requests: Seq<Seq<char>>) -> bool {
    forall|k: int| 0 <= k < requests.len() ==> is_request(#[trigger] requests[k])
}

/// The answers to requests, up to the first that is none.
pub open spec fn answers(requests: Seq<Seq<char>>) -> Seq<u8>
    decreases requests.len(),
{
    if requests.len() == 0 {
        Seq::empty()
    } else if are_requests(requests) {
        answers(requests.drop_last()) + answer(requests.last())
    } else {
        answers(requests.drop_last())
    }
}

impl HandlerView {
    /// The decrypted text that is there once `data` has come.
    pub open spec fn text(self, data: Seq<u8>) -> Seq<char> {
        self.buffer + characters(decrypted_stream(self.ops, self.incoming_pos, data))
    }

    /// The requests that are complete once `data` has come.
    pub open spec fn requests(self, data: Seq<u8>) -> Seq<Seq<char>> {
        complete_lines(self.text(data))
    }

    /// The connection once `data` has come and been answered.
    pub open spec fn after(self, data: Seq<u8>) -> HandlerView {
        HandlerView {
            ops: self.ops,
            incoming_pos: advanced(self.incoming_pos, data.len() as int),
            outgoing_pos: advanced(self.outgoing_pos, answers(self.requests(data)).len() as int),
            buffer: unfinished_line(self.text(data)),
        }
    }

    /// What is sent once `data` has come.
    pub open spec fn reply(self, data: Seq<u8>) -> Seq<u8> {
        encrypted_stream(self.ops, self.outgoing_pos, answers(self.requests(data)))
    }
}

impl<'a> Handler<'a> {
    /// A connection at its beginning.
    pub fn new(spec: &'a CipherSpec) -> (out: Self)
        ensures
            out@ == (HandlerView {
                ops: spec@,
                incoming_pos: 0,
                outgoing_pos: 0,
                buffer: Seq::empty(),
            }),
    {
        let out = Handler { encoder: Encoder::new(spec), decrypted_buffer: String::new() };
        assert(out@.buffer == Seq::<char>::empty());
        out
    }

    /// Decrypts what has come.
    fn decrypt(&mut self, data: &[u8])
        ensures
            final(self)@ == (HandlerView {
                incoming_pos: advanced(old(self)@.incoming_pos, data@.len() as int),
                buffer: old(self)@.text(data@),
                ..old(self)@
            }),
    {
        let ghost before = self@;
        let ghost plain = characters(decrypted_stream(before.ops, before.incoming_pos, data@));
        let mut i: usize = 0;
        assert(before.buffer + plain.take(0) == before.buffer);
        while i < data.len()
            invariant
                i <= data.len(),
                plain == characters(decrypted_stream(before.ops, before.incoming_pos, data@)),
                self@ == (HandlerView {
                    incoming_pos: advanced(before.incoming_pos, i as int),
                    buffer: before.buffer + plain.take(i as int),
                    ..before
                }),
            decreases data.len() - i,
        {
            let byte: u8 = self.encoder.apply_cipher(data[i], CipherDirection::Decrypt);
            self.decrypted_buffer.push(byte as char);
            proof {
                assert(plain[i as int] == byte as char);
                assert(before.buffer + plain.take(i + 1) == (before.buffer + plain.take(
                    i as int,
                )).push(plain[i as int]));
            }
            i = i + 1;
        }
        assert(plain.take(plain.len() as int) == plain);
    }

    /// Encrypts what is sent.
    fn encrypt(&mut self, plain: &[u8], encrypted: &mut Vec<u8>)
        ensures
            final(self)@ == (HandlerView {
                outgoing_pos: advanced(old(self)@.outgoing_pos, plain@.len() as int),
                ..old(self)@
            }),
            final(encrypted)@ == old(encrypted)@ + encrypted_stream(
                old(self)@.ops,
                old(self)@.outgoing_pos,
                plain@,
            ),
    {
        let ghost before = self@;
        let ghost sent = encrypted@;
        let ghost disguised = encrypted_stream(before.ops, before.outgoing_pos, plain@);
        let mut i: usize = 0;
        assert(sent + disguised.take(0) == sent);
        while i < plain.len()
            invariant
                i <= plain.len(),
                disguised == encrypted_stream(before.ops, before.outgoing_pos, plain@),
                self@ == (HandlerView {
                    outgoing_pos: advanced(before.outgoing_pos, i as int),
                    ..before
                }),
                encrypted@ == sent + disguised.take(i as int),
            decreases plain.len() - i,
        {
            let byte: u8 = self.encoder.apply_cipher(plain[i], CipherDirection::Encrypt);
            encrypted.push(byte);
            proof {
                assert(disguised[i as int] == byte);
                assert(sent + disguised.take(i + 1) == (sent + disguised.take(i as int)).push(byte));
            }
            i = i + 1;
        }
        assert(disguised.take(disguised.len() as int) == disguised);
    }

    /// Takes in what has come, and answers the requests that are complete.
    pub fn handle(&mut self, data: &[u8]) -> (out: Reply)
        ensures
            final(self)@ == old(self)@.after(data@),
            out.bytes@ == old(self)@.reply(data@),
            out.complete == are_requests(old(self)@.requests(data@)),
    {
        let ghost before = self@;
        self.decrypt(data);
        let (requests, open) = take_lines(self.decrypted_buffer.as_str());
        self.decrypted_buffer = open;
        let ghost lines = before.requests(data@);
        let ghost decrypted = self@;
        let mut bytes: Vec<u8> = Vec::new();
        let mut i: usize = 0;
        proof {
            assert(views(requests@) == lines);
            assert(lines.take(0) == Seq::<Seq<char>>::empty());
            assert(bytes@ == encrypted_stream(before.ops, before.outgoing_pos, Seq::empty()));
        }
        while i < requests.len()
            invariant
                i <= requests.len(),
                before == old(self)@,
                views(requests@) == lines,
                lines == before.requests(data@),
                are_requests(lines.take(i as int)),
                decrypted == (HandlerView {
                    incoming_pos: advanced(before.incoming_pos, data@.len() as int),
                    buffer: unfinished_line(before.text(data@)),
                    ..before
                }),
                self@ == (HandlerView {
                    outgoing_pos: advanced(
                        before.outgoing_pos,
                        answers(lines.take(i as int)).len() as int,
                    ),
                    ..decrypted
                }),
                bytes@ == encrypted_stream(
                    before.ops,
                    before.outgoing_pos,
                    answers(lines.take(i as int)),
                ),
            decreases requests.len() - i,
        {
            let request = requests[i].as_str();
            proof {
                assert(lines[i as int] == requests@[i as int]@);
                assert(lines.take(i + 1).drop_last() == lines.take(i as int));
                assert(lines.take(i + 1).last() == request@);
            }
            match try_toy_priority(request) {
                Some(toy) => {
                    let ghost answered = answers(lines.take(i as int));
                    proof {
                        assert forall|k: int| 0 <= k < i + 1 implies is_request(
                            #[trigger] lines.take(i + 1)[k],
                        ) by {
                            if k < i {
                                assert(lines.take(i + 1)[k] == lines.take(i as int)[k]);
                            }
                        }
                        assert(answers(lines.take(i + 1)) == answered + answer(request@));
                        law_pieces_of_a_stream(
                            before.ops,
                            before.outgoing_pos,
                            answered,
                            answer(request@),
                        );
                    }
                    let mut plain: Vec<u8> = Vec::new();
                    plain.extend_from_slice(toy.as_bytes());
                    plain.push(LINE_FEED);
                    assert(plain@ == answer(request@));
                    self.encrypt(plain.as_slice(), &mut bytes);
                    proof {
                        lemma_advanced(
                            before.outgoing_pos,
                            answered.len() as int,
                            plain@.len() as int,
                        );
                    }
                },
                None => {
                    proof {
                        assert(!is_request(lines[i as int]));
                        lemma_answers_stop(lines, i as int);
                    }
                    return Reply { bytes, complete: false };
                },
            }
            i = i + 1;
        }
        assert(lines.take(lines.len() as int) == lines);
        Reply { bytes, complete: true }
    }
}

proof fn lemma_answers_stop(requests: Seq<Seq<char>>, i: int)
    requires
        0 <= i < requests.len(),
        !is_request(requests[i]),
    ensures
        answers(requests) == answers(requests.take(i)),
        !are_requests(requests),
    decreases requests.len(),
{
    if i == requests.len() - 1 {
        assert(requests.drop_last() == requests.take(i));
    } else {
        assert(requests.drop_last().take(i) == requests.take(i));
        lemma_answers_stop(requests.drop_last(), i);
    }
}

proof fn lemma_answers_concat(a: Seq<Seq<char>>, b: Seq<Seq<char>>)
    requires
        are_requests(a),
    ensures
        answers(a + b) == answers(a) + answers(b),
        are_requests(a + b) == are_requests(b),
    decreases b.len(),
{
    if b.len() == 0 {
        assert(a + b == a);
    } else {
        lemma_answers_concat(a, b.drop_last());
        assert((a + b).drop_last() == a + b.drop_last());
        assert(are_requests(a + b) == are_requests(b)) by {
            assert forall|k: int| 0 <= k < b.len() implies b[k] == #[trigger] (a + b)[a.len() + k] by {}
            if are_requests(a + b) {
                assert forall|k: int| 0 <= k < b.len() implies is_request(#[trigger] b[k]) by {
                    assert(is_request((a + b)[a.len() + k]));
                }
            }
            if are_requests(b) {
                assert forall|k: int| 0 <= k < (a + b).len() implies is_request(
                    #[trigger] (a + b)[k],
                ) by {
                    if k < a.len() {
                        assert((a + b)[k] == a[k]);
                    } else {
                        assert((a + b)[k] == b[k - a.len()]);
                    }
                }
            }
        }
    }
}

/// It makes no difference in which pieces the stream of the client comes.
pub proof fn law_pieces_make_no_difference(h: HandlerView, a: Seq<u8>, b: Seq<u8>)
    requires
        are_requests(h.requests(a)),
    ensures
        h.after(a + b) == h.after(a).after(b),
        h.reply(a + b) == h.reply(a) + h.after(a).reply(b),
        are_requests(h.requests(a + b)) == are_requests(h.after(a).requests(b)),
{
    let next = h.after(a);
    law_pieces_of_a_stream(h.ops, h.incoming_pos, a, b);
    let text_b = characters(decrypted_stream(next.ops, next.incoming_pos, b));
    assert(h.text(a + b) == h.text(a) + text_b);
    law_lines_of_pieces(h.text(a), text_b);
    assert(next.text(b) == unfinished_line(h.text(a)) + text_b);
    assert(h.requests(a + b) == h.requests(a) + next.requests(b));
    lemma_answers_concat(h.requests(a), next.requests(b));
    let first = answers(h.requests(a));
    let second = answers(next.requests(b));
    law_pieces_of_a_stream(h.ops, h.outgoing_pos, first, second);
    lemma_advanced(h.incoming_pos, a.len() as int, b.len() as int);
    lemma_advanced(h.outgoing_pos, first.len() as int, second.len() as int);
}

/// A client that encrypts its request, and decrypts the reply, each at the position that the server
/// is at, reads the toy that is wanted most. The request is the line that the client ends: what the
/// server has of it already, and the rest.
pub proof fn law_client_reads_the_answer(h: HandlerView, rest: Seq<u8>)
    requires
        !h.buffer.contains('\n'),
        !rest.contains(LINE_FEED),
        is_request(strip_carriage_return(h.buffer + characters(rest))),
    ensures
        decrypted_stream(
            h.ops,
            h.outgoing_pos,
            h.reply(encrypted_stream(h.ops, h.incoming_pos, rest.push(LINE_FEED))),
        ) == answer(strip_carriage_return(h.buffer + characters(rest))),
{
    let bytes = rest.push(LINE_FEED);
    let sent = encrypted_stream(h.ops, h.incoming_pos, bytes);
    law_stream_is_read_back(h.ops, h.incoming_pos, bytes);
    let line = h.buffer + characters(rest);
    let request = strip_carriage_return(line);
    assert(h.text(sent) == line.push('\n')) by {
        assert(h.text(sent) == h.buffer + characters(bytes));
        assert(characters(bytes) == characters(rest).push(LINE_FEED as char));
    }
    assert(!line.contains('\n')) by {
        if line.contains('\n') {
            let k = line.index_of('\n');
            if k < h.buffer.len() {
                assert(h.buffer[k] == '\n');
            } else {
                assert(rest[k - h.buffer.len()] as char == '\n');
                assert(rest[k - h.buffer.len()] == LINE_FEED);
            }
        }
    }
    lemma_split_without(line, '\n');
    assert(line.push('\n').drop_last() == line);
    assert(h.requests(sent) == seq![request]) by {
        assert(split_on(line.push('\n'), '\n') == seq![line, Seq::<char>::empty()]);
        assert(split_on(line.push('\n'), '\n').drop_last() == seq![line]);
    }
    assert(are_requests(seq![request]));
    assert(seq![request].drop_last() == Seq::<Seq<char>>::empty());
    assert(answers(Seq::<Seq<char>>::empty()) == Seq::<u8>::empty());
    assert(answers(seq![request]) == answer(request));
    law_stream_is_read_back(h.ops, h.outgoing_pos, answer(request));
}

/// Each byte that comes is the character with its number.
pub proof fn law_bytes_are_characters(bytes: Seq<u8>, i: int)
    requires
        0 <= i < bytes.len(),
    ensures
        characters(bytes).len() == bytes.len(),
        characters(bytes)[i] as int == bytes[i],
{
}

/// The answers to requests follow one another, each the toy that is wanted most and a line feed, and
/// the first line that is no request ends them.
pub proof fn law_answers_follow_one_another(
    a: Seq<Seq<char>>,
    b: Seq<Seq<char>>,
    request: Seq<char>,
)
    requires
        are_requests(a),
    ensures
        answers(Seq::empty()) == Seq::<u8>::empty(),
        is_request(request) ==> answers(seq![request]) == encode_utf8(priority(request)) + seq![
            10u8,
        ],
        answers(a + b) == answers(a) + answers(b),
        !is_request(request) ==> answers(seq![request] + b) == Seq::<u8>::empty(),
        are_requests(seq![request]) <==> is_request(request),
        are_requests(a + b) <==> are_requests(b),
{
    assert(answers(Seq::<Seq<char>>::empty()) == Seq::<u8>::empty());
    lemma_answers_concat(a, b);
    assert(seq![request][0] == request);
    if is_request(request) {
        assert(are_requests(seq![request]));
        assert(seq![request].drop_last() == Seq::<Seq<char>>::empty());
        assert(answers(seq![request]) == answer(request));
        assert(answer(request) == encode_utf8(priority(request)) + seq![10u8]);
    } else {
        let all = seq![request] + b;
        assert(all[0] == request);
        lemma_answers_stop(all, 0);
        assert(all.take(0) == Seq::<Seq<char>>::empty());
    }
}

/// A connection takes each byte as it comes: what is decrypted joins what is open, the lines that are
/// complete are answered in disguise, and both streams go on by what has passed.
pub proof fn law_a_connection_goes_on(h: HandlerView, data: Seq<u8>)
    ensures
        ({
            let text = h.buffer + characters(decrypted_stream(h.ops, h.incoming_pos, data));
            let plain = answers(complete_lines(text));
            let d = h.after(data);
            &&& decrypted_stream(h.ops, h.outgoing_pos, h.reply(data)) == plain
            &&& h.reply(data).len() == plain.len()
            &&& h.requests(data) == complete_lines(text)
            &&& d.ops == h.ops
            &&& d.buffer == unfinished_line(text)
            &&& (h.incoming_pos + data.len() - d.incoming_pos) % 256 == 0
            &&& (h.outgoing_pos + plain.len() - d.outgoing_pos) % 256 == 0
        }),
{
    let plain = answers(h.requests(data));
    law_stream_is_read_back(h.ops, h.outgoing_pos, plain);
}

/// Lines are requests exactly if each of them is one.
pub proof fn law_lines_are_requests_one_by_one(a: Seq<Seq<char>>, b: Seq<Seq<char>>, line: Seq<char>)
    ensures
        are_requests(Seq::empty()),
        are_requests(seq![line]) <==> is_request(line),
        are_requests(a + b) <==> are_requests(a) && are_requests(b),
{
    assert(seq![line][0] == line);
    if are_requests(a) {
        lemma_answers_concat(a, b);
    } else if are_requests(a + b) {
        assert forall|k: int| 0 <= k < a.len() implies is_request(#[trigger] a[k]) by {
            assert((a + b)[k] == a[k]);
        }
    }
}

/// What a connection shows of itself is what it holds.
pub proof fn law_connections_show_what_they_hold(h: Handler)
    ensures
        h@.ops == h.encoder.spec@,
        h@.incoming_pos == h.encoder.incoming_pos,
        h@.outgoing_pos == h.encoder.outgoing_pos,
        h@.buffer == h.decrypted_buffer@,
{
}

} // verus!
