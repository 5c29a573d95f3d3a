use jgrep::indent::adjust_indent;

#[test]
fn levels_are_rescaled() {
    assert_eq!(adjust_indent("{\n  \"a\": [\n    1\n  ]\n}", 4), "{\n    \"a\": [\n        1\n    ]\n}");
    assert_eq!(adjust_indent("{\n  \"a\": 1\n}", 0), "{\n\"a\": 1\n}");
}

#[test]
fn odd_blanks_round_down() {
    assert_eq!(adjust_indent("   x", 3), "   x");
    assert_eq!(adjust_indent(" x", 3), "x");
}

#[test]
fn line_ends() {
    assert_eq!(adjust_indent("", 2), "");
    assert_eq!(adjust_indent("a\n", 2), "a");
    assert_eq!(adjust_indent("a\r\n  b\r\n", 1), "a\n b");
    assert_eq!(adjust_indent("\n\n", 2), "\n");
}

#[test]
fn all_leading_white_space_counts_by_bytes() {
    assert_eq!(adjust_indent("\u{b}\u{b}x", 4), "    x");
    assert_eq!(adjust_indent("\u{a0}x", 3), "   x");
    assert_eq!(adjust_indent("\u{3000}x", 2), "  x");
    assert_eq!(adjust_indent("\u{3000}\u{3000}\u{3000}\u{3000}x y", 1), "      x y");
}

#[test]
fn carriage_return_kept_without_line_feed() {
    assert_eq!(adjust_indent("a\r", 2), "a\r");
    assert_eq!(adjust_indent("a\r\nb\r", 2), "a\nb\r");
}

#[test]
fn large_indent_without_leading_space() {
    assert_eq!(adjust_indent("x\ny", usize::MAX), "x\ny");
    assert_eq!(adjust_indent(" x", usize::MAX), "x");
}
