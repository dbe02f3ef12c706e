use protohackers::addresses::{rewrite_addresses, rewrite_matches, try_rewrite_addresses};

const TONY: &str = "7YWHMfk9JZe0LM0g1ZauHuiSxhI";

fn rewritten(line: &str) -> String {
    let out = rewrite_addresses(line);
    assert_eq!(try_rewrite_addresses(line), Some(out.clone()));
    out
}

#[test]
fn addresses_between_spaces_are_replaced() {
    assert_eq!(
        rewritten("Hi alice, please send payment to 7iKDZEwPZSqIvDnHvVN2r0hUWXD5rHX\n"),
        format!("Hi alice, please send payment to {TONY}\n")
    );
    assert_eq!(
        rewritten("7F1u3wSD5RbOHQmupo9nx4TnhQ is mine\n"),
        format!("{TONY} is mine\n")
    );
    assert_eq!(
        rewritten("a 7F1u3wSD5RbOHQmupo9nx4TnhQ 7iKDZEwPZSqIvDnHvVN2r0hUWXD5rHX b\n"),
        format!("a {TONY} {TONY} b\n")
    );
}

#[test]
fn other_words_stay() {
    for line in [
        "\n",
        "hello\n",
        "7\n",
        "7F1u3wSD5RbOHQmupo9nx4Tnh\n",
        "7F1u3wSD5RbOHQmupo9nx4TnhQ7F1u3wSD5R\n",
        "8F1u3wSD5RbOHQmupo9nx4TnhQ\n",
        "7F1u3wSD5RbOHQmupo9nx4TnhQ-suffix\n",
        "prefix-7F1u3wSD5RbOHQmupo9nx4TnhQ\n",
        "x7F1u3wSD5RbOHQmupo9nx4TnhQ\n",
        "7F1u3wSD5RbOHQmupo9nx4TnhQ.\n",
        "\t7F1u3wSD5RbOHQmupo9nx4TnhQ\n",
    ] {
        assert_eq!(rewritten(line), line);
    }
}

#[test]
fn addresses_have_26_to_35_characters() {
    for n in 20..40 {
        let word = "7".repeat(n);
        let line = format!("{word}\n");
        let expected = if (26..=35).contains(&n) {
            format!("{TONY}\n")
        } else {
            line.clone()
        };
        assert_eq!(rewritten(&line), expected);
    }
    assert_eq!(rewritten(&format!("7{}\n", "_".repeat(25))), format!("{TONY}\n"));
}

#[test]
fn lines_are_rewritten_word_by_word() {
    let line = "7F1u3wSD5RbOHQmupo9nx4TnhQ  a-7F1u3wSD5RbOHQmupo9nx4TnhQ 7F1u3wSD5RbOHQmupo9nx4TnhQ";
    let words: Vec<&str> = line
        .split(' ')
        .map(|w| {
            let plain = w.chars().all(|c| c.is_ascii_alphanumeric() || c == '_');
            if plain && w.starts_with('7') && (26..=35).contains(&w.len()) {
                TONY
            } else {
                w
            }
        })
        .collect();
    assert_eq!(rewritten(&format!("{line}\n")), words.join(" ") + "\n");
}

#[test]
fn an_address_at_the_very_end_is_refused() {
    assert_eq!(try_rewrite_addresses("7F1u3wSD5RbOHQmupo9nx4TnhQ"), None);
    assert_eq!(
        try_rewrite_addresses("7F1u3wSD5RbOHQmupo9nx4TnhQ-suffix"),
        Some("7F1u3wSD5RbOHQmupo9nx4TnhQ-suffix".to_owned())
    );
}

#[test]
fn positions_are_counted_in_bytes() {
    let line = "\u{e9} 7F1u3wSD5RbOHQmupo9nx4TnhQ  \n";
    assert_eq!(try_rewrite_addresses(line), Some(line.to_owned()));
    let line = "\u{e9}\u{e9}\u{e9} 7F1u3wSD5RbOHQmupo9nx4TnhQ\n";
    assert_eq!(try_rewrite_addresses(line), None);
    let word = format!("7{}", "\u{e9}".repeat(25));
    assert_eq!(try_rewrite_addresses(&format!("{word}\n")), None);
    assert_eq!(
        try_rewrite_addresses(&format!("{word}{}\n", " ".repeat(30))),
        Some(format!("{TONY}{}\n", " ".repeat(30)))
    );
}

#[test]
fn matches_are_replaced_where_they_stand_alone() {
    assert_eq!(rewrite_matches("abc def\n", &[(0, 3), (4, 7)]), format!("{TONY} {TONY}\n"));
    assert_eq!(rewrite_matches("abc-def\n", &[(0, 3), (4, 7)]), "abc-def\n");
    assert_eq!(rewrite_matches("abc\n", &[]), "abc\n");
}

#[test]
fn texts_may_hold_more_than_one_line() {
    let address = "7F1u3wSD5RbOHQmupo9nx4TnhQ";
    assert_eq!(
        rewritten(&format!("{address}\n{address} {address}\n\n {address}\n")),
        format!("{TONY}\n{address} {TONY}\n\n {TONY}\n")
    );
    assert_eq!(rewritten(&format!("\n{address}\n")), format!("\n{address}\n"));
}

#[test]
fn rewriting_twice_is_rewriting_once() {
    let address = "7F1u3wSD5RbOHQmupo9nx4TnhQ";
    for text in [
        "\n".to_owned(),
        format!("{TONY}\n"),
        format!("send to {address} or a-{address}, {address}  \n"),
        format!("{address}\n{address} {address}\n"),
    ] {
        let once = rewritten(&text);
        assert_eq!(rewritten(&once), once);
        for c in [' ', '\n'] {
            assert_eq!(once.matches(c).count(), text.matches(c).count());
        }
    }
}

#[test]
fn nothing_found_nothing_changed() {
    let text = "h\u{e9}llo \u{1f600} 7\n";
    assert_eq!(rewritten(text), text);
}
