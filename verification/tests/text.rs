use puzzle_solvers::text::{is_white_space, lines_of, to_chars, trim};

#[test]
fn to_chars_lists_the_characters() {
    assert_eq!(to_chars(""), Vec::<char>::new());
    assert_eq!(to_chars("abc"), vec!['a', 'b', 'c']);
    assert_eq!(to_chars("a\u{e9}\u{20ac}\n"), vec!['a', '\u{e9}', '\u{20ac}', '\n']);
}

#[test]
fn is_white_space_agrees_with_the_standard_library() {
    for code in 0..=0x10FFFFu32 {
        if let Some(c) = char::from_u32(code) {
            assert_eq!(is_white_space(c), c.is_whitespace(), "U+{:04X}", code);
        }
    }
}

#[test]
fn trim_drops_whitespace_at_both_ends() {
    assert_eq!(trim(""), "");
    assert_eq!(trim("   "), "");
    assert_eq!(trim("abc"), "abc");
    assert_eq!(trim("  abc"), "abc");
    assert_eq!(trim("abc \n"), "abc");
    assert_eq!(trim("\r\n\t a b\tc \r\n"), "a b\tc");
    assert_eq!(trim("\u{2003}\u{e9}t\u{e9}\u{3000}\u{a0}"), "\u{e9}t\u{e9}");
}

#[test]
fn trim_agrees_with_the_standard_library() {
    let samples = [
        "", " ", "\n", "a", " a", "a ", " a ", "\ta\nb\r\n", "\u{85}x\u{85}", "\u{1680}\u{2000}",
        "x\u{200b}", "\u{200b}", "\u{feff}a", "  +1\n-2  ", "\n\n\n", "a\u{2028}",
    ];
    for sample in samples {
        assert_eq!(trim(sample), sample.trim(), "{:?}", sample);
    }
}

#[test]
fn lines_of_splits_at_line_feeds() {
    assert_eq!(lines_of(""), Vec::<String>::new());
    assert_eq!(lines_of("abc"), vec!["abc"]);
    assert_eq!(lines_of("abc\n"), vec!["abc"]);
    assert_eq!(lines_of("abc\ndef"), vec!["abc", "def"]);
    assert_eq!(lines_of("abc\ndef\n"), vec!["abc", "def"]);
    assert_eq!(lines_of("+1\n-2"), vec!["+1", "-2"]);
}

#[test]
fn lines_of_drops_a_carriage_return_before_a_line_feed() {
    assert_eq!(lines_of("abc\r\ndef\r\n"), vec!["abc", "def"]);
    assert_eq!(lines_of("a\rb\r\nc"), vec!["a\rb", "c"]);
    assert_eq!(lines_of("a\r\r\nb"), vec!["a\r", "b"]);
}

#[test]
fn lines_of_keeps_a_carriage_return_without_a_line_feed() {
    assert_eq!(lines_of("abc\r"), vec!["abc\r"]);
    assert_eq!(lines_of("abc\ndef\r"), vec!["abc", "def\r"]);
    assert_eq!(lines_of("\r"), vec!["\r"]);
    assert_eq!(lines_of("\r\n\r"), vec!["\r"]);
}

#[test]
fn lines_of_agrees_with_the_standard_library() {
    let samples = [
        "", "a", "a\n", "a\nb", "a\r\nb", "a\n\nb", "\n\na\n\nb\n\n", "a\r\n\r\nb\r\n",
        " x \n y ", "a\r", "a\r\r\n", "\r", "\n", "\r\n", "\n\r", "a\rb\nc\r", "\u{e9}\n\u{ea}\r\n",
    ];
    for sample in samples {
        let expected: Vec<String> =
            sample.lines().filter(|line| !line.is_empty()).map(String::from).collect();
        assert_eq!(lines_of(sample), expected, "{:?}", sample);
    }
}

#[test]
fn lines_of_passes_over_empty_lines() {
    assert_eq!(lines_of("\n"), Vec::<String>::new());
    assert_eq!(lines_of("\n\n\n"), Vec::<String>::new());
    assert_eq!(lines_of("\r\n"), Vec::<String>::new());
    assert_eq!(lines_of("a\n\nb"), vec!["a", "b"]);
    assert_eq!(lines_of("\na\n\r\n\nb\n\n"), vec!["a", "b"]);
    assert_eq!(lines_of("a\n \nb"), vec!["a", " ", "b"]);
}

#[test]
fn lines_of_keeps_other_characters() {
    assert_eq!(lines_of("\u{e9}t\u{e9}\n\u{20ac}5\n"), vec!["\u{e9}t\u{e9}", "\u{20ac}5"]);
    assert_eq!(lines_of(" a \n\tb"), vec![" a ", "\tb"]);
}

#[test]
fn lines_of_a_trimmed_text_agrees_with_the_standard_library() {
    let samples = [
        "", "a", "a\nb", "a\r\nb", "a\n\nb", "\n\na\n\nb\n\n", "a\r\n\r\nb\r\n", " x \n y ",
        "+1\n-2\n+3\n", "\u{e9}\n\u{ea}", "a\rb\nc",
    ];
    for sample in samples {
        let expected: Vec<String> = sample
            .trim()
            .lines()
            .filter(|line| !line.is_empty())
            .map(String::from)
            .collect();
        assert_eq!(lines_of(trim(sample)), expected, "{:?}", sample);
    }
}
