use puzzle_solvers::frequency::{digit_of, freq1, freq2, parse_change, parse_changes, ParseError};

#[test]
fn parse_changes_test() {
    assert_eq!(parse_changes(&"+1\n-2".to_string()), Ok(vec![1, -2]));
}

#[test]
fn freq1_test() {
    assert_eq!(freq1(&vec![1, -2]), -1);
}

#[test]
fn freq2_test_a() {
    assert_eq!(freq2(&vec![1, -1]), 0);
}

#[test]
fn freq2_test_b() {
    assert_eq!(freq2(&vec![3, 3, 4, -2, -4]), 10);
}

#[test]
fn freq2_test_c() {
    assert_eq!(freq2(&vec![-6, 3, 8, 5, -6]), 5);
}

#[test]
fn freq2_test_d() {
    assert_eq!(freq2(&vec![7, 7, -2, -7, -4]), 14);
}

#[test]
fn parse_changes_of_empty_input_is_empty() {
    assert_eq!(parse_changes(""), Ok(vec![]));
    assert_eq!(parse_changes(" \n\t\r\n  "), Ok(vec![]));
}

#[test]
fn parse_changes_drops_surrounding_whitespace() {
    assert_eq!(parse_changes("\n\n  +7\n-3\n+12  \n\n"), Ok(vec![7, -3, 12]));
}

#[test]
fn parse_changes_reads_unsigned_and_padded_numbers() {
    assert_eq!(parse_changes("5\n007\n-0\n+0"), Ok(vec![5, 7, 0, 0]));
}

#[test]
fn parse_changes_accepts_carriage_returns() {
    assert_eq!(parse_changes("+1\r\n-2\r\n+3\r\n"), Ok(vec![1, -2, 3]));
}

#[test]
fn parse_changes_passes_over_empty_lines() {
    assert_eq!(parse_changes("+1\n\n-2\n\r\n+3"), Ok(vec![1, -2, 3]));
}

#[test]
fn parse_changes_reads_the_limits_of_32_bits() {
    assert_eq!(
        parse_changes("2147483647\n-2147483648\n+2147483647"),
        Ok(vec![i32::MAX, i32::MIN, i32::MAX])
    );
}

#[test]
fn parse_changes_names_the_first_bad_record() {
    assert_eq!(parse_changes("abc"), Err(ParseError { line: 0 }));
    assert_eq!(parse_changes("+1\nx\n3\ny"), Err(ParseError { line: 1 }));
    assert_eq!(parse_changes("+1\n\n-2\n+ 3"), Err(ParseError { line: 2 }));
}

#[test]
fn parse_changes_rejects_numbers_out_of_range() {
    assert_eq!(parse_changes("1\n2147483648"), Err(ParseError { line: 1 }));
    assert_eq!(parse_changes("-2147483649"), Err(ParseError { line: 0 }));
    assert_eq!(parse_changes("99999999999999999999999999"), Err(ParseError { line: 0 }));
}

#[test]
fn parse_changes_rejects_inner_whitespace() {
    assert_eq!(parse_changes("+1 \n-2"), Err(ParseError { line: 0 }));
    assert_eq!(parse_changes("+1\n -2"), Err(ParseError { line: 1 }));
}

#[test]
fn parse_change_follows_the_grammar() {
    assert_eq!(parse_change("+1"), Some(1));
    assert_eq!(parse_change("-2"), Some(-2));
    assert_eq!(parse_change("42"), Some(42));
    assert_eq!(parse_change("0000000000000000000000012"), Some(12));
    assert_eq!(parse_change(""), None);
    assert_eq!(parse_change("+"), None);
    assert_eq!(parse_change("-"), None);
    assert_eq!(parse_change("+-1"), None);
    assert_eq!(parse_change("--1"), None);
    assert_eq!(parse_change("1+"), None);
    assert_eq!(parse_change("12a"), None);
    assert_eq!(parse_change("1.5"), None);
    assert_eq!(parse_change("0x10"), None);
    assert_eq!(parse_change("\u{663}"), None);
    assert_eq!(parse_change("2147483647"), Some(i32::MAX));
    assert_eq!(parse_change("2147483648"), None);
    assert_eq!(parse_change("-2147483648"), Some(i32::MIN));
    assert_eq!(parse_change("-2147483649"), None);
    assert_eq!(parse_change("21474836470"), None);
}

#[test]
fn parse_change_agrees_with_the_standard_parser() {
    let samples = [
        "", "+", "-", "0", "-0", "+0", "00", "1", "+1", "-1", "10", "99", "+99", "-99", "2147483647",
        "2147483648", "-2147483648", "-2147483649", "4294967296", "+4294967295", "1e3", "1_000",
        " 1", "1 ", "+ 1", "++1", "a", "1a", "a1", "\u{ff11}", "-\u{663}", "123456789",
        "-123456789", "000000000000", "0000000002147483647", "0000000002147483648",
    ];
    for sample in samples {
        assert_eq!(parse_change(sample), sample.parse::<i32>().ok(), "{:?}", sample);
    }
}

#[test]
fn digit_of_knows_the_ten_digits() {
    let digits = ['0', '1', '2', '3', '4', '5', '6', '7', '8', '9'];
    for (value, c) in digits.iter().enumerate() {
        assert_eq!(digit_of(*c), Some(value as u8));
    }
    assert_eq!(digit_of('a'), None);
    assert_eq!(digit_of('/'), None);
    assert_eq!(digit_of(':'), None);
    assert_eq!(digit_of('+'), None);
    assert_eq!(digit_of('\u{663}'), None);
}

#[test]
fn freq1_of_nothing_is_zero() {
    assert_eq!(freq1(&[]), 0);
}

#[test]
fn freq1_adds_signed_changes() {
    assert_eq!(freq1(&[1, 1, 1]), 3);
    assert_eq!(freq1(&[1, 1, -2]), 0);
    assert_eq!(freq1(&[-1, -2, -3]), -6);
    assert_eq!(freq1(&[1, -2, 3, 1]), 3);
}

#[test]
fn freq1_wraps_around() {
    assert_eq!(freq1(&[i32::MAX, 1]), i32::MIN);
    assert_eq!(freq1(&[i32::MIN, -1]), i32::MAX);
    assert_eq!(freq1(&[i32::MAX, i32::MAX, 2]), 0);
    assert_eq!(freq1(&[i32::MAX, 1, -1]), i32::MAX);
}

#[test]
fn freq1_does_not_depend_on_the_order() {
    assert_eq!(freq1(&[3, 3, 4, -2, -4]), 4);
    assert_eq!(freq1(&[-4, -2, 4, 3, 3]), 4);
    assert_eq!(freq1(&[4, -4, 3, -2, 3]), 4);
    assert_eq!(freq1(&[i32::MAX, 5, -7]), freq1(&[5, -7, i32::MAX]));
}

#[test]
fn freq2_depends_on_the_order() {
    assert_eq!(freq2(&[3, 3, 4, -2, -4]), 10);
    assert_eq!(freq2(&[-4, -2, 4, 3, 3]), 0);
}

#[test]
fn freq2_counts_the_start_as_reached() {
    assert_eq!(freq2(&[0]), 0);
    assert_eq!(freq2(&[5, -5, 7]), 0);
}

#[test]
fn freq2_replays_the_list() {
    assert_eq!(freq2(&[1, -2, 3, 1]), 2);
    assert_eq!(freq2(&[2, -1]), 2);
    assert_eq!(freq2(&[10, -9]), 10);
}

#[test]
fn freq2_wraps_around() {
    assert_eq!(freq2(&[i32::MAX, i32::MAX, 2]), 0);
    assert_eq!(freq2(&[i32::MIN, i32::MIN]), 0);
    assert_eq!(freq2(&[i32::MAX, 1, i32::MAX, 1, 7]), 0);
}

#[test]
fn same_changes_give_the_same_report() {
    let input = "+3\n+3\n+4\n-2\n-4\n";
    let first = parse_changes(input).unwrap();
    let second = parse_changes(input).unwrap();
    assert_eq!(first, second);
    assert_eq!(freq1(&first), freq1(&second));
    assert_eq!(freq2(&first), freq2(&second));
    assert_eq!((freq1(&first), freq2(&first)), (4, 10));
}
