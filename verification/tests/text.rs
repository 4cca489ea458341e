use shader_loader::text::{decimal, join_text, parse_decimal, split_text};

fn owned(parts: &[&str]) -> Vec<String> {
    parts.iter().map(|s| s.to_string()).collect()
}

#[test]
fn split_on_newline_keeps_empty_pieces() {
    assert_eq!(split_text("a\nb", '\n', '\n'), owned(&["a", "b"]));
    assert_eq!(split_text("", '\n', '\n'), owned(&[""]));
    assert_eq!(split_text("\n", '\n', '\n'), owned(&["", ""]));
    assert_eq!(split_text("a\n", '\n', '\n'), owned(&["a", ""]));
    assert_eq!(split_text("\n\nx", '\n', '\n'), owned(&["", "", "x"]));
}

#[test]
fn split_on_either_of_two_separators() {
    assert_eq!(split_text("a/b\\c", '\\', '/'), owned(&["a", "b", "c"]));
    assert_eq!(split_text("/a//", '\\', '/'), owned(&["", "a", "", ""]));
}

#[test]
fn split_keeps_characters_beyond_ascii() {
    assert_eq!(split_text("é\n日本", '\n', '\n'), owned(&["é", "日本"]));
}

#[test]
fn join_puts_the_separator_between_neighbours() {
    assert_eq!(join_text(&owned(&["a", "b", "c"]), "/"), "a/b/c");
    assert_eq!(join_text(&owned(&["a"]), "/"), "a");
    assert_eq!(join_text(&owned(&[]), "/"), "");
    assert_eq!(join_text(&owned(&["", ""]), "\n"), "\n");
    assert_eq!(join_text(&owned(&["x", "y"]), " included from\n"), "x included from\ny");
}

#[test]
fn join_undoes_split() {
    for text in ["", "a", "a\nb", "\n", "a\n\nb\n", "#include_once \"x\"\nmain"] {
        let lines = split_text(text, '\n', '\n');
        assert_eq!(join_text(&lines, "\n"), text);
    }
}

#[test]
fn split_join_split_gives_the_same_lines() {
    for text in ["", "one", "one\ntwo\n", "\n\n\n", "a\r\nb"] {
        let lines = split_text(text, '\n', '\n');
        let again = split_text(&join_text(&lines, "\n"), '\n', '\n');
        assert_eq!(again, lines);
    }
}

#[test]
fn decimal_writes_digits_without_leading_zeros() {
    assert_eq!(decimal(0), "0");
    assert_eq!(decimal(7), "7");
    assert_eq!(decimal(10), "10");
    assert_eq!(decimal(120), "120");
    assert_eq!(decimal(usize::MAX), usize::MAX.to_string());
}

#[test]
fn parse_decimal_reads_digits_only() {
    assert_eq!(parse_decimal("0"), Some(0));
    assert_eq!(parse_decimal("007"), Some(7));
    assert_eq!(parse_decimal("42"), Some(42));
    assert_eq!(parse_decimal(&usize::MAX.to_string()), Some(usize::MAX));
    assert_eq!(parse_decimal(""), None);
    assert_eq!(parse_decimal("12a"), None);
    assert_eq!(parse_decimal("+3"), None);
    assert_eq!(parse_decimal("-3"), None);
    assert_eq!(parse_decimal("٣"), None);
}

#[test]
fn parse_decimal_gives_up_on_numbers_too_large() {
    assert_eq!(parse_decimal("99999999999999999999999999"), None);
    let mut above = usize::MAX.to_string();
    above.push('0');
    assert_eq!(parse_decimal(&above), None);
}

#[test]
fn parse_decimal_undoes_decimal() {
    for n in [0usize, 1, 9, 10, 99, 100, 12345, usize::MAX - 1, usize::MAX] {
        assert_eq!(parse_decimal(&decimal(n)), Some(n));
    }
}
