use protohackers::bytes::{push_u16, push_u32, read_i32, read_u16, read_u32};
use protohackers::text::{
    byte_length, chars_of, numeral, parse_unsigned, slice_bytes, split_at_byte, split_ranges,
    starts_with, string_of, take_lines,
};

fn letters(text: &str) -> Vec<char> {
    text.chars().collect()
}

#[test]
fn strings_are_sequences_of_characters() {
    let text = "h\u{e9}llo";
    assert_eq!(chars_of(text), letters(text));
    assert_eq!(string_of(&letters(text)), text);
    assert_eq!(byte_length(text), 6);
    assert!(starts_with(&letters("abc"), &letters("ab")));
    assert!(!starts_with(&letters("abc"), &letters("abd")));
    assert!(!starts_with(&letters("a"), &letters("ab")));
}

#[test]
fn numerals_are_decimal_and_read_back() {
    for n in [0, 1, 9, 10, 12345, u32::MAX] {
        assert_eq!(numeral(n), n.to_string());
        assert_eq!(parse_unsigned(&letters(&numeral(n))), Some(n));
    }
}

#[test]
fn numbers_are_those_of_std() {
    for text in [
        "", "+", "-", "0", "+0", "-0", "007", "+007", "++7", "4294967295", "4294967296",
        "99999999999999999999", "1 ", " 1", "1x", "\u{663}",
    ] {
        assert_eq!(parse_unsigned(&letters(text)), text.parse().ok(), "{text:?}");
    }
}

#[test]
fn lines_are_those_of_std() {
    for text in ["", "\n", "a", "a\n", "a\r\nb\n", "a\r", "\r\n\n", "a\nb\r\r\nc"] {
        let end = text.rfind('\n').map_or(0, |i| i + 1);
        let (lines, open) = take_lines(text);
        assert_eq!(lines, text[..end].lines().collect::<Vec<_>>(), "{text:?}");
        assert_eq!(open, &text[end..], "{text:?}");
    }
}

#[test]
fn lines_do_not_depend_on_pieces() {
    let (first, open) = take_lines("one\ntwo\nthr");
    let (second, rest) = take_lines(&(open + "ee\nfour"));
    assert_eq!(first, vec!["one", "two"]);
    assert_eq!(second, vec!["three"]);
    assert_eq!(rest, "four");
}

#[test]
fn pieces_are_those_of_std() {
    for text in ["", ",", "a", "a,b", ",a,,b,"] {
        let all = letters(text);
        let pieces: Vec<String> = split_ranges(&all, ',')
            .into_iter()
            .map(|(a, b)| all[a..b].iter().collect())
            .collect();
        assert_eq!(pieces, text.split(',').collect::<Vec<_>>(), "{text:?}");
    }
}

#[test]
fn strings_are_cut_between_characters() {
    assert_eq!(split_at_byte("a\u{e9}b", 1), Some(("a", "\u{e9}b")));
    assert_eq!(split_at_byte("a\u{e9}b", 2), None);
    assert_eq!(split_at_byte("a\u{e9}b", 4), Some(("a\u{e9}b", "")));
    assert_eq!(split_at_byte("a\u{e9}b", 5), None);
    assert_eq!(slice_bytes("a\u{e9}b", 1, 3), "\u{e9}");
}

#[test]
fn big_endian_numbers_are_read_back() {
    let mut bytes = Vec::new();
    push_u16(&mut bytes, 0x1234);
    push_u32(&mut bytes, 0xdead_beef);
    assert_eq!(bytes, vec![0x12, 0x34, 0xde, 0xad, 0xbe, 0xef]);
    assert_eq!(read_u16(&bytes, 0), 0x1234);
    assert_eq!(read_u32(&bytes, 2), 0xdead_beef);
    assert_eq!(read_i32(&bytes, 2), i32::from_be_bytes([0xde, 0xad, 0xbe, 0xef]));
    assert_eq!(read_i32(&[0xff, 0xff, 0xff, 0xff], 0), -1);
    assert_eq!(read_i32(&[0x80, 0, 0, 0], 0), i32::MIN);
}

#[test]
fn joined_pieces_are_split_again() {
    let pieces = ["", "ab", "", "c"];
    let all = letters(&pieces.join(" "));
    let split: Vec<String> = split_ranges(&all, ' ')
        .into_iter()
        .map(|(a, b)| all[a..b].iter().collect())
        .collect();
    assert_eq!(split, pieces);
}
