//! Strings as sequences of characters: conversions, lines and decimal numbers.

use vstd::arithmetic::power::lemma_pow0;
use vstd::arithmetic::power::pow;
use vstd::prelude::*;
use vstd::string::*;
use vstd::utf8::*;

verus! {

/// `String::push`: the character is appended at the end.
pub assume_specification[ String::push ](s: &mut String, c: char)
    ensures
        final(s)@ == old(s)@.push(c),
;

/// The characters of `s`, in order.
pub fn chars_of(s: &str) -> (out: Vec<char>)
    ensures
        out@ == s@,
{
    let mut out: Vec<char> = Vec::new();
    for c in it: s.chars()
        invariant
            out@ == s@.take(it.index()),
            it.seq() == s@,
    {
        out.push(c);
    }
    out
}

/// The string that consists of `chars`.
pub fn string_of(chars: &[char]) -> (out: String)
    ensures
        out@ == chars@,
{
    let mut out = String::new();
    let mut i: usize = 0;
    while i < chars.len()
        invariant
            i <= chars.len(),
            out@ == chars@.take(i as int),
        decreases chars.len() - i,
    {
        out.push(chars[i]);
        i = i + 1;
    }
    assert(chars@.take(chars@.len() as int) == chars@);
    out
}

/// Whether `text` begins with `prefix`.
pub open spec fn is_prefix(prefix: Seq<char>, text: Seq<char>) -> bool {
    prefix.len() <= text.len() && text.take(prefix.len() as int) == prefix
}

/// Whether `text` begins with `prefix`.
pub fn starts_with(text: &[char], prefix: &[char]) -> (b: bool)
    ensures
        b == is_prefix(prefix@, text@),
{
    if prefix.len() > text.len() {
        return false;
    }
    let mut i: usize = 0;
    while i < prefix.len()
        invariant
            i <= prefix.len() <= text.len(),
            text@.take(i as int) == prefix@.take(i as int),
        decreases prefix.len() - i,
    {
        if text[i] != prefix[i] {
            assert(text@.take(prefix@.len() as int)[i as int] != prefix@[i as int]);
            return false;
        }
        assert(text@.take(i + 1) == text@.take(i as int).push(text@[i as int]));
        assert(prefix@.take(i + 1) == prefix@.take(i as int).push(prefix@[i as int]));
        i = i + 1;
    }
    assert(prefix@.take(prefix@.len() as int) == prefix@);
    true
}

/// The pieces of `text` between the occurrences of `sep`. There is always at least one.
pub open spec fn split_on(text: Seq<char>, sep: char) -> Seq<Seq<char>>
    decreases text.len(),
{
    if text.len() == 0 {
        seq![Seq::<char>::empty()]
    } else {
        let before = split_on(text.drop_last(), sep);
        if text.last() == sep {
            before.push(Seq::<char>::empty())
        } else {
            before.drop_last().push(before.last().push(text.last()))
        }
    }
}

/// The pieces put together again, with `sep` between each two of them.
pub open spec fn join_with(pieces: Seq<Seq<char>>, sep: Seq<char>) -> Seq<char>
    decreases pieces.len(),
{
    if pieces.len() == 0 {
        Seq::empty()
    } else if pieces.len() == 1 {
        pieces[0]
    } else {
        join_with(pieces.drop_last(), sep) + sep + pieces.last()
    }
}

/// Splitting loses nothing: the pieces joined by the separator are the text, and the separator
/// occurs in none of them.
pub proof fn law_split_join(text: Seq<char>, sep: char)
    ensures
        split_on(text, sep).len() >= 1,
        join_with(split_on(text, sep), seq![sep]) == text,
        forall|i: int|
            0 <= i < split_on(text, sep).len() ==> !(#[trigger] split_on(text, sep)[i]).contains(sep),
    decreases text.len(),
{
    let pieces = split_on(text, sep);
    if text.len() > 0 {
        law_split_join(text.drop_last(), sep);
        let before = split_on(text.drop_last(), sep);
        assert(text == text.drop_last().push(text.last()));
        if text.last() == sep {
            assert(pieces.drop_last() == before);
        } else {
            assert(!before.last().contains(sep));
            assert(!before.last().push(text.last()).contains(sep)) by {
                if before.last().push(text.last()).contains(sep) {
                    let k = before.last().push(text.last()).index_of(sep);
                    assert(before.last()[k] == sep);
                }
            }
            assert(pieces.drop_last() == before.drop_last());
            if before.len() > 1 {
                assert(join_with(before, seq![sep]) == join_with(before.drop_last(), seq![sep]) + seq![
                    sep,
                ] + before.last());
                assert(join_with(pieces, seq![sep]) == join_with(pieces.drop_last(), seq![sep]) + seq![
                    sep,
                ] + pieces.last());
            }
            assert forall|i: int| 0 <= i < pieces.len() implies !(#[trigger] pieces[i]).contains(
                sep,
            ) by {
                if i < before.len() - 1 {
                    assert(pieces[i] == before[i]);
                }
            }
        }
    }
}

/// Joining is undone by splitting: pieces without the separator, joined by it, are split into the
/// same pieces.
pub proof fn law_join_split(pieces: Seq<Seq<char>>, sep: char)
    requires
        pieces.len() > 0,
        forall|k: int| 0 <= k < pieces.len() ==> !(#[trigger] pieces[k]).contains(sep),
    ensures
        split_on(join_with(pieces, seq![sep]), sep) == pieces,
    decreases pieces.len(),
{
    if pieces.len() == 1 {
        lemma_split_without(pieces[0], sep);
        assert(pieces == seq![pieces[0]]);
    } else {
        let shorter = pieces.drop_last();
        assert forall|k: int| 0 <= k < shorter.len() implies !(#[trigger] shorter[k]).contains(
            sep,
        ) by {
            assert(shorter[k] == pieces[k]);
        }
        law_join_split(shorter, sep);
        let before = join_with(shorter, seq![sep]);
        assert(!pieces[pieces.len() - 1].contains(sep));
        lemma_split_after_separator(before, pieces.last(), sep);
        assert(shorter.push(pieces.last()) == pieces);
    }
}

proof fn lemma_split_after_separator(before: Seq<char>, last: Seq<char>, sep: char)
    requires
        !last.contains(sep),
    ensures
        split_on(before + seq![sep] + last, sep) == split_on(before, sep).push(last),
    decreases last.len(),
{
    let text = before + seq![sep] + last;
    if last.len() == 0 {
        assert(text.drop_last() == before);
        assert(last == Seq::<char>::empty());
    } else {
        assert(last.contains(last.last()));
        let shorter = last.drop_last();
        assert(!shorter.contains(sep)) by {
            if shorter.contains(sep) {
                assert(last[shorter.index_of(sep)] == sep);
            }
        }
        lemma_split_after_separator(before, shorter, sep);
        assert(text.drop_last() == before + seq![sep] + shorter);
        assert(split_on(before, sep).push(shorter).drop_last() == split_on(before, sep));
        assert(shorter.push(last.last()) == last);
    }
}

/// A character that is not in a text is in none of its pieces.
pub proof fn lemma_pieces_are_of_the_text(text: Seq<char>, sep: char, k: int, c: char)
    requires
        0 <= k < split_on(text, sep).len(),
        !text.contains(c),
    ensures
        !split_on(text, sep)[k].contains(c),
    decreases text.len(),
{
    let pieces = split_on(text, sep);
    if text.len() > 0 {
        law_split_join(text.drop_last(), sep);
        let before = split_on(text.drop_last(), sep);
        assert(text.contains(text.last()));
        assert(!text.drop_last().contains(c)) by {
            if text.drop_last().contains(c) {
                assert(text[text.drop_last().index_of(c)] == c);
            }
        }
        if k < before.len() {
            lemma_pieces_are_of_the_text(text.drop_last(), sep, k, c);
        }
        if pieces[k].contains(c) {
            let i = pieces[k].index_of(c);
            if text.last() != sep && k == before.len() - 1 {
                assert(i == before[k].len() || before[k][i] == c);
            }
        }
    }
}

/// The piece of `text` from `range.0` up to `range.1`.
pub open spec fn piece_at(text: Seq<char>, range: (usize, usize)) -> Seq<char> {
    text.subrange(range.0 as int, range.1 as int)
}

/// Where the pieces of `text` between the occurrences of `sep` begin and end.
pub fn split_ranges(text: &[char], sep: char) -> (out: Vec<(usize, usize)>)
    ensures
        out@.len() == split_on(text@, sep).len(),
        forall|k: int|
            0 <= k < out@.len() ==> (#[trigger] out@[k]).0 <= out@[k].1 <= text@.len() && piece_at(
                text@,
                out@[k],
            ) == split_on(text@, sep)[k],
{
    let mut out: Vec<(usize, usize)> = Vec::new();
    let mut start: usize = 0;
    let mut i: usize = 0;
    assert(text@.take(0) == Seq::<char>::empty());
    assert(text@.subrange(0, 0) == Seq::<char>::empty());
    while i < text.len()
        invariant
            start <= i <= text.len(),
            out@.len() + 1 == split_on(text@.take(i as int), sep).len(),
            text@.subrange(start as int, i as int) == split_on(text@.take(i as int), sep).last(),
            forall|k: int|
                0 <= k < out@.len() ==> (#[trigger] out@[k]).0 <= out@[k].1 <= text@.len()
                    && piece_at(text@, out@[k]) == split_on(text@.take(i as int), sep)[k],
        decreases text.len() - i,
    {
        assert(text@.take(i + 1).drop_last() == text@.take(i as int));
        assert(text@.subrange(start as int, i + 1) == text@.subrange(start as int, i as int).push(
            text@[i as int],
        ));
        if text[i] == sep {
            out.push((start, i));
            start = i + 1;
            assert(text@.subrange(i + 1, i + 1) == Seq::<char>::empty());
        }
        i = i + 1;
    }
    assert(text@.take(text@.len() as int) == text@);
    out.push((start, i));
    out
}

/// A line without the carriage return that may end it.
pub open spec fn strip_carriage_return(line: Seq<char>) -> Seq<char> {
    if line.len() > 0 && line.last() == '\r' {
        line.drop_last()
    } else {
        line
    }
}

/// The lines of `text` that a line feed ends, each without its line ending.
pub open spec fn complete_lines(text: Seq<char>) -> Seq<Seq<char>> {
    split_on(text, '\n').drop_last().map_values(|line: Seq<char>| strip_carriage_return(line))
}

/// What follows the last line feed of `text`.
pub open spec fn unfinished_line(text: Seq<char>) -> Seq<char> {
    split_on(text, '\n').last()
}

/// The views of a vector of strings.
pub open spec fn views(strings: Seq<String>) -> Seq<Seq<char>> {
    strings.map_values(|s: String| s@)
}

/// Splits `text` into its complete lines and the line that is still open.
pub fn take_lines(text: &str) -> (out: (Vec<String>, String))
    ensures
        views(out.0@) == complete_lines(text@),
        out.1@ == unfinished_line(text@),
{
    let chars = chars_of(text);
    let mut lines: Vec<String> = Vec::new();
    let mut current: Vec<char> = Vec::new();
    let mut i: usize = 0;
    proof {
        assert(chars@.take(0) == Seq::<char>::empty());
        assert(complete_lines(chars@.take(0)) == Seq::<Seq<char>>::empty());
    }
    while i < chars.len()
        invariant
            i <= chars.len(),
            chars@ == text@,
            views(lines@) == complete_lines(chars@.take(i as int)),
            current@ == unfinished_line(chars@.take(i as int)),
        decreases chars.len() - i,
    {
        let c = chars[i];
        let ghost seen = chars@.take(i as int);
        proof {
            assert(chars@.take(i + 1) == seen.push(c));
            lemma_lines_push(seen, c);
        }
        if c == '\n' {
            let ghost line = current@;
            if current.len() > 0 && current[current.len() - 1] == '\r' {
                current.pop();
            }
            assert(current@ == strip_carriage_return(line));
            lines.push(string_of(current.as_slice()));
            assert(views(lines@) == complete_lines(seen).push(strip_carriage_return(line)));
            current = Vec::new();
        } else {
            current.push(c);
        }
        i = i + 1;
    }
    assert(chars@.take(chars@.len() as int) == chars@);
    (lines, string_of(current.as_slice()))
}

/// Whether `c` is a decimal digit.
pub open spec fn is_digit(c: char) -> bool {
    '0' <= c <= '9'
}

/// Whether `s` consists of decimal digits alone.
pub open spec fn all_digits(s: Seq<char>) -> bool {
    forall|i: int| 0 <= i < s.len() ==> is_digit(#[trigger] s[i])
}

/// The number that a sequence of decimal digits denotes.
pub open spec fn digits_value(s: Seq<char>) -> nat
    decreases s.len(),
{
    if s.len() == 0 {
        0
    } else {
        digits_value(s.drop_last()) * 10 + (s.last() as nat - '0' as nat) as nat
    }
}

/// `s` as a number of thirty-two bits: digits, perhaps after a plus sign.
pub open spec fn unsigned(s: Seq<char>) -> Option<u32> {
    let digits = if s.len() > 0 && s[0] == '+' {
        s.skip(1)
    } else {
        s
    };
    if digits.len() > 0 && all_digits(digits) && digits_value(digits) <= u32::MAX {
        Some(digits_value(digits) as u32)
    } else {
        None
    }
}

/// Reads a number of thirty-two bits.
pub fn parse_unsigned(s: &[char]) -> (n: Option<u32>)
    ensures
        n == unsigned(s@),
{
    let start: usize = if s.len() > 0 && s[0] == '+' {
        1
    } else {
        0
    };
    let ghost digits = s@.skip(start as int);
    assert(s@.skip(0) == s@);
    if start == s.len() {
        return None;
    }
    let mut value: u32 = 0;
    let mut fits: bool = true;
    let mut i: usize = start;
    assert(digits.take(0) == Seq::<char>::empty());
    while i < s.len()
        invariant
            start <= i <= s.len(),
            digits == s@.skip(start as int),
            digits == if s@.len() > 0 && s@[0] == '+' {
                s@.skip(1)
            } else {
                s@
            },
            all_digits(digits.take(i - start)),
            fits ==> value == digits_value(digits.take(i - start)),
            !fits ==> digits_value(digits.take(i - start)) > u32::MAX,
        decreases s.len() - i,
    {
        let c = s[i];
        assert(digits[i - start] == c);
        if c < '0' || '9' < c {
            assert(!is_digit(digits[i - start]));
            assert(!all_digits(digits));
            return None;
        }
        let d: u32 = c as u32 - '0' as u32;
        proof {
            let next = digits.take(i + 1 - start);
            assert(next.drop_last() == digits.take(i - start));
            assert(next.last() == c);
            assert forall|k: int| 0 <= k < next.len() implies is_digit(#[trigger] next[k]) by {
                if k < i - start {
                    assert(digits.take(i - start)[k] == next[k]);
                }
            }
        }
        if fits {
            let wide: u64 = value as u64 * 10 + d as u64;
            if wide > u32::MAX as u64 {
                fits = false;
            } else {
                value = wide as u32;
            }
        }
        i = i + 1;
    }
    assert(digits.take(digits.len() as int) == digits);
    if fits {
        Some(value)
    } else {
        None
    }
}

/// The character of a decimal digit.
pub open spec fn digit_char(d: nat) -> char {
    (d + '0' as nat) as char
}

/// The decimal numeral of `n`, without leading zeros.
pub open spec fn decimal(n: nat) -> Seq<char>
    decreases n,
{
    if n < 10 {
        seq![digit_char(n)]
    } else {
        decimal(n / 10).push(digit_char(n % 10))
    }
}

/// The decimal numeral of `n`.
pub fn numeral(n: u32) -> (s: String)
    ensures
        s@ == decimal(n as nat),
    decreases n,
{
    let d: u8 = (n % 10) as u8 + 48;
    assert(d == digit_char((n % 10) as nat) as u8);
    if n < 10 {
        let mut s = String::new();
        s.push(d as char);
        s
    } else {
        let mut s = numeral(n / 10);
        s.push(d as char);
        s
    }
}

/// A numeral consists of digits and denotes the number it was made of.
pub proof fn lemma_decimal(n: nat)
    ensures
        decimal(n).len() > 0,
        all_digits(decimal(n)),
        digits_value(decimal(n)) == n,
    decreases n,
{
    if n < 10 {
        assert(decimal(n).drop_last() == Seq::<char>::empty());
        assert(digits_value(Seq::<char>::empty()) == 0);
    } else {
        lemma_decimal(n / 10);
        assert(decimal(n).drop_last() == decimal(n / 10));
    }
}

/// Reading a numeral gives back the number that it was written for.
pub proof fn law_numeral_reads_back(n: u32)
    ensures
        unsigned(decimal(n as nat)) == Some(n),
{
    lemma_decimal(n as nat);
    assert(is_digit(decimal(n as nat)[0]));
}

/// How many bytes `s` takes in UTF-8.
pub open spec fn byte_len(s: Seq<char>) -> nat {
    encode_utf8(s).len()
}

/// Whether a character of `s`, or its end, is at byte `i`.
pub open spec fn is_boundary(s: Seq<char>, i: int) -> bool {
    is_char_boundary(encode_utf8(s), i)
}

/// The characters of `s` that its first `i` bytes encode.
pub open spec fn before_byte(s: Seq<char>, i: int) -> Seq<char> {
    decode_utf8(encode_utf8(s).subrange(0, i))
}

/// The characters of `s` that its bytes from `i` on encode.
pub open spec fn from_byte(s: Seq<char>, i: int) -> Seq<char> {
    decode_utf8(encode_utf8(s).subrange(i, byte_len(s) as int))
}

/// How many bytes `s` takes in UTF-8.
pub fn byte_length(s: &str) -> (n: usize)
    ensures
        n == byte_len(s@),
{
    s.as_bytes().len()
}

/// Cuts `s` in two at byte `i`, if a character begins or `s` ends there.
pub fn split_at_byte<'a>(s: &'a str, i: usize) -> (out: Option<(&'a str, &'a str)>)
    ensures
        out is Some == is_boundary(s@, i as int),
        out matches Some((before, from)) ==> before@ == before_byte(s@, i as int) && from@
            == from_byte(s@, i as int),
{
    if s.is_char_boundary(i) {
        let (before, from) = s.split_at(i);
        proof {
            encode_utf8_decode_utf8(before@);
            encode_utf8_decode_utf8(from@);
        }
        Some((before, from))
    } else {
        None
    }
}

/// The encoding of a concatenation is the concatenation of the encodings.
pub proof fn lemma_encode_concat(a: Seq<char>, b: Seq<char>)
    ensures
        encode_utf8(a + b) == encode_utf8(a) + encode_utf8(b),
    decreases a.len(),
{
    if a.len() == 0 {
        assert(a + b == b);
    } else {
        assert((a + b).drop_first() == a.drop_first() + b);
        lemma_encode_concat(a.drop_first(), b);
    }
}

/// The two halves of a string cut at a boundary are the string, and their encodings are the
/// halves of its encoding.
pub proof fn lemma_split_bytes(s: Seq<char>, i: int)
    requires
        is_boundary(s, i),
    ensures
        0 <= i <= byte_len(s),
        before_byte(s, i) + from_byte(s, i) == s,
        encode_utf8(before_byte(s, i)) == encode_utf8(s).subrange(0, i),
        encode_utf8(from_byte(s, i)) == encode_utf8(s).subrange(i, byte_len(s) as int),
{
    let bytes = encode_utf8(s);
    encode_utf8_valid_utf8(s);
    encode_utf8_decode_utf8(s);
    valid_utf8_split(bytes, i);
    decode_utf8_split(bytes, i);
    decode_utf8_encode_utf8(bytes.subrange(0, i));
    decode_utf8_encode_utf8(bytes.subrange(i, bytes.len() as int));
}

/// The characters of `s` that its bytes from `i` up to `j` encode.
pub open spec fn between_bytes(s: Seq<char>, i: int, j: int) -> Seq<char> {
    decode_utf8(encode_utf8(s).subrange(i, j))
}

/// What precedes a boundary of a string has the boundaries of the string.
proof fn lemma_boundary_before(s: Seq<char>, i: int, j: int)
    requires
        is_boundary(s, i),
        is_boundary(s, j),
        i <= j,
    ensures
        is_boundary(before_byte(s, j), i),
        from_byte(before_byte(s, j), i) == between_bytes(s, i, j),
{
    let bytes = encode_utf8(s);
    lemma_split_bytes(s, i);
    lemma_split_bytes(s, j);
    let before = encode_utf8(before_byte(s, j));
    encode_utf8_valid_utf8(s);
    encode_utf8_valid_utf8(before_byte(s, j));
    if i == j {
        is_char_boundary_start_end_of_seq(before);
    } else {
        is_char_boundary_iff_not_is_continuation_byte(bytes, i);
        is_char_boundary_iff_not_is_continuation_byte(before, i);
    }
    assert(before.subrange(i, before.len() as int) == bytes.subrange(i, j));
}

/// The part of `s` from byte `i` up to byte `j`.
pub fn slice_bytes<'a>(s: &'a str, i: usize, j: usize) -> (out: &'a str)
    requires
        i <= j,
        is_boundary(s@, i as int),
        is_boundary(s@, j as int),
    ensures
        out@ == between_bytes(s@, i as int, j as int),
{
    proof {
        lemma_boundary_before(s@, i as int, j as int);
    }
    match split_at_byte(s, j) {
        Some((before, _)) => match split_at_byte(before, i) {
            Some((_, out)) => out,
            None => s,
        },
        None => s,
    }
}

/// Every byte of a text in ASCII is a character of its own.
pub proof fn lemma_ascii_boundary(s: Seq<char>, i: int)
    requires
        is_ascii_chars(s),
        0 <= i <= s.len(),
    ensures
        byte_len(s) == s.len(),
        is_boundary(s, i),
        is_ascii_chars(before_byte(s, i)),
        is_ascii_chars(from_byte(s, i)),
{
    let bytes = encode_utf8(s);
    encode_utf8_valid_utf8(s);
    is_ascii_chars_encode_utf8(s);
    if i == s.len() {
        is_char_boundary_start_end_of_seq(bytes);
    } else {
        is_char_boundary_iff_not_is_continuation_byte(bytes, i);
        assert(s[i] as u8 == bytes[i]);
    }
    lemma_split_bytes(s, i);
    is_ascii_chars_concat(s, before_byte(s, i), from_byte(s, i));
}

/// Lines do not depend on the pieces in which a text arrives: those of `a` are complete before
/// `b` comes, and `b` goes on with the line that `a` left open.
pub proof fn law_lines_of_pieces(a: Seq<char>, b: Seq<char>)
    ensures
        complete_lines(a + b) == complete_lines(a) + complete_lines(unfinished_line(a) + b),
        unfinished_line(a + b) == unfinished_line(unfinished_line(a) + b),
    decreases b.len(),
{
    let open = unfinished_line(a);
    law_split_join(a, '\n');
    law_split_join(open + b, '\n');
    law_split_join(a + b, '\n');
    if b.len() == 0 {
        assert(a + b == a);
        assert(open + b == open);
        lemma_split_without(open, '\n');
        assert(complete_lines(open) == Seq::<Seq<char>>::empty());
    } else {
        let b0 = b.drop_last();
        law_lines_of_pieces(a, b0);
        law_split_join(open + b0, '\n');
        law_split_join(a + b0, '\n');
        assert((a + b).drop_last() == a + b0);
        assert((open + b).drop_last() == open + b0);
        lemma_lines_push(a + b0, b.last());
        lemma_lines_push(open + b0, b.last());
        assert(a + b == (a + b0).push(b.last()));
        assert(open + b == (open + b0).push(b.last()));
    }
}

/// A text without the separator is one piece.
pub proof fn lemma_split_without(text: Seq<char>, sep: char)
    requires
        !text.contains(sep),
    ensures
        split_on(text, sep) == seq![text],
    decreases text.len(),
{
    if text.len() > 0 {
        assert(text.contains(text.last()));
        assert(!text.drop_last().contains(sep)) by {
            if text.drop_last().contains(sep) {
                let k = text.drop_last().index_of(sep);
                assert(text[k] == sep);
            }
        }
        lemma_split_without(text.drop_last(), sep);
        assert(text.drop_last().push(text.last()) == text);
    } else {
        assert(text == Seq::<char>::empty());
    }
}

proof fn lemma_lines_push(text: Seq<char>, c: char)
    ensures
        c == '\n' ==> complete_lines(text.push(c)) == complete_lines(text).push(
            strip_carriage_return(unfinished_line(text)),
        ) && unfinished_line(text.push(c)) == Seq::<char>::empty(),
        c != '\n' ==> complete_lines(text.push(c)) == complete_lines(text) && unfinished_line(
            text.push(c),
        ) == unfinished_line(text).push(c),
{
    law_split_join(text, '\n');
    assert(text.push(c).drop_last() == text);
}

/// A text begins with another if it is as long, and each of its first characters is the one there.
pub proof fn law_prefixes_agree(prefix: Seq<char>, text: Seq<char>)
    ensures
        is_prefix(prefix, text) <==> {
            &&& prefix.len() <= text.len()
            &&& forall|i: int| 0 <= i < prefix.len() ==> #[trigger] text[i] == prefix[i]
        },
{
    if prefix.len() <= text.len() {
        if is_prefix(prefix, text) {
            assert forall|i: int| 0 <= i < prefix.len() implies #[trigger] text[i] == prefix[i] by {
                assert(text.take(prefix.len() as int)[i] == prefix[i]);
            }
        }
        if forall|i: int| 0 <= i < prefix.len() ==> #[trigger] text[i] == prefix[i] {
            assert(text.take(prefix.len() as int) =~= prefix);
        }
    }
}

/// A separator parts a text: the pieces are those before it and those behind it. What holds no
/// separator is one piece.
pub proof fn law_separators_part(a: Seq<char>, b: Seq<char>, sep: char)
    ensures
        split_on(a + seq![sep] + b, sep) == split_on(a, sep) + split_on(b, sep),
        !a.contains(sep) ==> split_on(a, sep) == seq![a],
    decreases b.len(),
{
    if !a.contains(sep) {
        lemma_split_without(a, sep);
    }
    law_split_join(a, sep);
    if b.len() == 0 {
        assert((a + seq![sep] + b).drop_last() == a);
        assert(split_on(a, sep) + split_on(b, sep) == split_on(a, sep).push(Seq::empty()));
    } else {
        let shorter = b.drop_last();
        law_separators_part(a, shorter, sep);
        law_split_join(shorter, sep);
        assert((a + seq![sep] + b).drop_last() == a + seq![sep] + shorter);
        let before = split_on(a, sep) + split_on(shorter, sep);
        assert(before.last() == split_on(shorter, sep).last());
        assert(before.drop_last() == split_on(a, sep) + split_on(shorter, sep).drop_last());
        if b.last() == sep {
            assert(before.push(Seq::empty()) == split_on(a, sep) + split_on(shorter, sep).push(
                Seq::empty(),
            ));
        }
    }
}

/// The separator stands between pieces that are joined, and nowhere else.
pub proof fn law_pieces_are_joined(
    a: Seq<Seq<char>>,
    b: Seq<Seq<char>>,
    piece: Seq<char>,
    sep: Seq<char>,
)
    ensures
        join_with(Seq::empty(), sep) == Seq::<char>::empty(),
        join_with(seq![piece], sep) == piece,
        a.len() > 0 && b.len() > 0 ==> join_with(a + b, sep) == join_with(a, sep) + sep + join_with(
            b,
            sep,
        ),
    decreases b.len(),
{
    if a.len() > 0 && b.len() > 0 {
        assert((a + b).drop_last() == a + b.drop_last());
        assert((a + b).last() == b.last());
        if b.len() == 1 {
            assert(a + b.drop_last() == a);
        } else {
            law_pieces_are_joined(a, b.drop_last(), piece, sep);
            assert(join_with(a + b, sep) == join_with(a, sep) + sep + (join_with(
                b.drop_last(),
                sep,
            ) + sep + b.last()));
        }
    }
}

/// A line feed ends a line, and a carriage return right before it is not of the line. What no line
/// feed ends stays open.
pub proof fn law_line_feeds_end_lines(line: Seq<char>, rest: Seq<char>)
    requires
        !line.contains('\n'),
    ensures
        complete_lines(line) == Seq::<Seq<char>>::empty(),
        unfinished_line(line) == line,
        line.len() == 0 || line.last() != '\r' ==> complete_lines(line + seq!['\n'] + rest)
            == seq![line] + complete_lines(rest),
        complete_lines(line + seq!['\r', '\n'] + rest) == seq![line] + complete_lines(rest),
        unfinished_line(line + seq!['\n'] + rest) == unfinished_line(rest),
        unfinished_line(line + seq!['\r', '\n'] + rest) == unfinished_line(rest),
{
    lemma_line_feed(line, rest);
    let longer = line.push('\r');
    assert(!longer.contains('\n')) by {
        if longer.contains('\n') {
            let k = longer.index_of('\n');
            assert(line[k] == '\n');
        }
    }
    lemma_line_feed(longer, rest);
    assert(longer + seq!['\n'] + rest == line + seq!['\r', '\n'] + rest);
    assert(longer.drop_last() == line);
    lemma_split_without(line, '\n');
    assert(complete_lines(line) =~= Seq::<Seq<char>>::empty());
}

proof fn lemma_line_feed(line: Seq<char>, rest: Seq<char>)
    requires
        !line.contains('\n'),
    ensures
        complete_lines(line + seq!['\n'] + rest) == seq![strip_carriage_return(line)]
            + complete_lines(rest),
        unfinished_line(line + seq!['\n'] + rest) == unfinished_line(rest),
{
    law_separators_part(line, rest, '\n');
    law_split_join(rest, '\n');
    let all = seq![line] + split_on(rest, '\n');
    assert(all.drop_last() == seq![line] + split_on(rest, '\n').drop_last());
    assert(complete_lines(line + seq!['\n'] + rest) =~= seq![strip_carriage_return(line)]
        + complete_lines(rest));
}

/// A digit behind others takes them up by a power of ten, and the digits have the codes from 48 to
/// 57.
pub proof fn law_digits_have_places(a: Seq<char>, b: Seq<char>, c: char)
    ensures
        is_digit(c) <==> 48 <= c as int <= 57,
        is_digit(c) ==> digits_value(seq![c]) == c as int - 48,
        digits_value(Seq::empty()) == 0,
        digits_value(a + b) == digits_value(a) * pow(10, b.len()) + digits_value(b),
    decreases b.len(),
{
    assert(seq![c].drop_last() == Seq::<char>::empty());
    assert(digits_value(Seq::<char>::empty()) == 0);
    if b.len() == 0 {
        assert(a + b == a);
        assert(b == Seq::<char>::empty());
        lemma_pow0(10);
    } else {
        let shorter = b.drop_last();
        law_digits_have_places(a, shorter, c);
        assert((a + b).drop_last() == a + shorter);
        reveal(pow);
        let x = digits_value(a) as int;
        let p = pow(10, shorter.len());
        assert(pow(10, b.len()) == 10 * p);
        assert((x * p) * 10 == x * (10 * p)) by (nonlinear_arith);
    }
}

/// A number of thirty-two bits is digits and nothing else, but for a plus sign in front, and no more
/// than thirty-two bits hold.
pub proof fn law_numbers_are_digits(s: Seq<char>, i: int)
    ensures
        unsigned(s) matches Some(n) ==> {
            ||| s.len() > 0 && all_digits(s) && n == digits_value(s)
            ||| s.len() > 1 && s[0] == '+' && all_digits(s.skip(1)) && n == digits_value(s.skip(1))
        },
        s.len() > 0 && all_digits(s) && digits_value(s) <= 4294967295 ==> unsigned(s) == Some(
            digits_value(s) as u32,
        ) && unsigned(seq!['+'] + s) == Some(digits_value(s) as u32),
        s.len() > 0 && all_digits(s) && digits_value(s) > 4294967295 ==> unsigned(s) is None
            && unsigned(seq!['+'] + s) is None,
        s.len() == 0 ==> unsigned(s) is None,
        0 <= i < s.len() && !(48 <= s[i] as int <= 57) && (i > 0 || s[0] != '+') ==> unsigned(s)
            is None,
{
    if s.len() > 0 && all_digits(s) {
        assert(is_digit(s[0]));
        assert((seq!['+'] + s).skip(1) == s);
    }
    if 0 <= i < s.len() && !(48 <= s[i] as int <= 57) && (i > 0 || s[0] != '+') {
        assert(!is_digit(s[i]));
        if s[0] == '+' {
            assert(s.skip(1)[i - 1] == s[i]);
        }
    }
}

/// A numeral is the digits of its number, without a zero in front unless it is zero.
pub proof fn law_numerals_are_plain(n: nat)
    ensures
        decimal(n).len() > 0,
        all_digits(decimal(n)),
        digits_value(decimal(n)) == n,
        n > 0 ==> decimal(n)[0] != '0',
        n == 0 ==> decimal(n) == seq!['0'],
    decreases n,
{
    lemma_decimal(n);
    if n >= 10 {
        law_numerals_are_plain(n / 10);
    }
}

/// A string takes as many bytes as its characters together: one for a character below 128, two below
/// 2048, three below 65536, and four for any other.
pub proof fn law_bytes_of_characters(a: Seq<char>, b: Seq<char>, c: char)
    ensures
        byte_len(Seq::empty()) == 0,
        byte_len(a + b) == byte_len(a) + byte_len(b),
        byte_len(seq![c]) == if (c as int) < 128 {
            1int
        } else if (c as int) < 2048 {
            2
        } else if (c as int) < 65536 {
            3
        } else {
            4
        },
{
    lemma_encode_concat(a, b);
    assert(seq![c].drop_first() == Seq::<char>::empty());
    assert(encode_utf8(Seq::<char>::empty()).len() == 0);
    assert(encode_utf8(seq![c]) == encode_scalar(c as u32) + encode_utf8(
        Seq::<char>::empty(),
    ));
}

/// A string is cut between characters: where some of its characters end, what precedes is those
/// characters, what follows is the others, and what stands between two such places is the characters
/// between them.
pub proof fn law_strings_are_cut_between_characters(s: Seq<char>, j: int, k: int)
    requires
        0 <= j <= k <= s.len(),
    ensures
        is_boundary(s, byte_len(s.take(k)) as int),
        before_byte(s, byte_len(s.take(k)) as int) == s.take(k),
        from_byte(s, byte_len(s.take(k)) as int) == s.skip(k),
        between_bytes(s, byte_len(s.take(j)) as int, byte_len(s.take(k)) as int) == s.subrange(j, k),
{
    let bytes = encode_utf8(s);
    let first = encode_utf8(s.take(k));
    let i = first.len() as int;
    assert(s.take(k) + s.skip(k) == s);
    lemma_encode_concat(s.take(k), s.skip(k));
    assert(bytes.subrange(0, i) == first);
    assert(bytes.subrange(i, bytes.len() as int) == encode_utf8(s.skip(k)));
    encode_utf8_decode_utf8(s.take(k));
    encode_utf8_decode_utf8(s.skip(k));
    let middle = s.subrange(j, k);
    let i0 = encode_utf8(s.take(j)).len() as int;
    assert(s.take(j) + middle == s.take(k));
    lemma_encode_concat(s.take(j), middle);
    assert(bytes.subrange(i0, i) == encode_utf8(middle));
    encode_utf8_decode_utf8(middle);
    encode_utf8_valid_utf8(s);
    encode_utf8_valid_utf8(s.skip(k));
    if k == s.len() {
        assert(s.take(k) == s);
        is_char_boundary_start_end_of_seq(bytes);
    } else {
        let tail = encode_utf8(s.skip(k));
        is_char_boundary_start_end_of_seq(tail);
        encode_utf8_first_scalar(s.skip(k));
        assert(tail.len() > 0);
        is_char_boundary_iff_not_is_continuation_byte(tail, 0);
        is_char_boundary_iff_not_is_continuation_byte(bytes, i);
        assert(tail[0] == bytes[i]);
    }
}

/// A string is cut nowhere else than between characters.
pub proof fn law_no_character_is_cut(s: Seq<char>, i: int) -> (k: int)
    requires
        is_boundary(s, i),
    ensures
        0 <= k <= s.len(),
        i == byte_len(s.take(k)),
{
    lemma_split_bytes(s, i);
    let k = before_byte(s, i).len() as int;
    assert(s.take(k) == before_byte(s, i));
    k
}

/// Strings show their characters, and keep their places.
pub proof fn law_strings_show_their_characters(strings: Seq<String>, i: int)
    requires
        0 <= i < strings.len(),
    ensures
        views(strings).len() == strings.len(),
        views(strings)[i] == strings[i]@,
{
}

} // verus!
