use knapsack::parse::{parse_instance, parse_i32, split_lines, ParseError};
use knapsack::search::knapsack_brute_force;

fn bytes(s: &str) -> Vec<u8> {
    s.as_bytes().to_vec()
}

#[test]
fn parses_a_well_formed_instance() {
    let text = bytes("10\n2 3\n3 4\n4 5\n5 6\n");
    let (capacity, items) = parse_instance(&text).unwrap();
    assert_eq!(capacity, 10);
    assert_eq!(items, vec![(2, 3), (3, 4), (4, 5), (5, 6)]);
}

#[test]
fn final_newline_is_optional() {
    let with = parse_instance(&bytes("5\n1 2\n")).unwrap();
    let without = parse_instance(&bytes("5\n1 2")).unwrap();
    assert_eq!(with, without);
    assert_eq!(with, (5, vec![(1, 2)]));
}

#[test]
fn tolerates_carriage_returns_and_extra_whitespace() {
    let text = bytes("  10 \r\n\t2   3\t\r\n-4 5 \r\n");
    let (capacity, items) = parse_instance(&text).unwrap();
    assert_eq!(capacity, 10);
    assert_eq!(items, vec![(2, 3), (-4, 5)]);
}

#[test]
fn capacity_only_instance_has_no_items() {
    let (capacity, items) = parse_instance(&bytes("42\n")).unwrap();
    assert_eq!(capacity, 42);
    assert_eq!(items, Vec::<(i32, i32)>::new());
}

#[test]
fn empty_input_is_rejected() {
    assert_eq!(parse_instance(&bytes("")), Err(ParseError::EmptyInput));
}

#[test]
fn malformed_capacity_is_rejected() {
    assert_eq!(parse_instance(&bytes("abc\n1 2\n")), Err(ParseError::InvalidCapacity));
    assert_eq!(parse_instance(&bytes("\n1 2\n")), Err(ParseError::InvalidCapacity));
    assert_eq!(parse_instance(&bytes("10 11\n1 2\n")), Err(ParseError::InvalidCapacity));
    // Too large for an i32.
    assert_eq!(parse_instance(&bytes("2147483648\n")), Err(ParseError::InvalidCapacity));
}

#[test]
fn negative_capacity_is_rejected() {
    assert_eq!(parse_instance(&bytes("-5\n1 2\n")), Err(ParseError::NegativeCapacity));
    assert_eq!(
        parse_instance(&bytes("-2147483648\n1 1\n")),
        Err(ParseError::NegativeCapacity)
    );
}

#[test]
fn explicit_plus_sign_is_accepted() {
    let (capacity, items) = parse_instance(&bytes("+7\n+1 +2\n")).unwrap();
    assert_eq!(capacity, 7);
    assert_eq!(items, vec![(1, 2)]);
}

#[test]
fn bad_item_integer_names_its_line() {
    assert_eq!(
        parse_instance(&bytes("10\n1 2\n3 x\n")),
        Err(ParseError::InvalidInteger { line: 3 })
    );
    assert_eq!(
        parse_instance(&bytes("10\n2147483648 1\n")),
        Err(ParseError::InvalidInteger { line: 2 })
    );
    assert_eq!(
        parse_instance(&bytes("10\n-2147483649 1\n")),
        Err(ParseError::InvalidInteger { line: 2 })
    );
    // The first defective line is the one reported.
    assert_eq!(
        parse_instance(&bytes("10\n1 y\n3 x\n")),
        Err(ParseError::InvalidInteger { line: 2 })
    );
}

#[test]
fn wrong_token_count_names_its_line() {
    assert_eq!(
        parse_instance(&bytes("10\n1\n")),
        Err(ParseError::WrongTokenCount { line: 2 })
    );
    assert_eq!(
        parse_instance(&bytes("10\n1 2 3\n")),
        Err(ParseError::WrongTokenCount { line: 2 })
    );
    // A blank item line has zero tokens.
    assert_eq!(
        parse_instance(&bytes("10\n1 2\n\n")),
        Err(ParseError::WrongTokenCount { line: 3 })
    );
}

#[test]
fn item_values_spanning_the_i32_range_are_kept() {
    let (_, items) = parse_instance(&bytes("10\n-2147483648 2147483647\n")).unwrap();
    assert_eq!(items, vec![(i32::MIN, i32::MAX)]);
}

#[test]
fn parse_i32_accepts_exactly_integer_tokens() {
    let text = bytes("123 -45 +6 - + 12a 2147483647 2147483648");
    let tok = |from: usize, to: usize| parse_i32(&text, from, to);
    assert_eq!(tok(0, 3), Some(123));
    assert_eq!(tok(4, 7), Some(-45));
    assert_eq!(tok(8, 10), Some(6));
    assert_eq!(tok(11, 12), None);
    assert_eq!(tok(13, 14), None);
    assert_eq!(tok(15, 18), None);
    assert_eq!(tok(19, 29), Some(i32::MAX));
    assert_eq!(tok(30, 40), None);
    assert_eq!(tok(0, 0), None);
}

#[test]
fn split_lines_keeps_every_segment() {
    let text = bytes("a\nbb\n\nc");
    let lines = split_lines(&text);
    assert_eq!(lines, vec![(0, 1), (2, 4), (5, 5), (6, 7)]);
    assert_eq!(split_lines(&bytes("")), Vec::<(usize, usize)>::new());
    assert_eq!(split_lines(&bytes("\n")), vec![(0, 0)]);
}

#[test]
fn parsed_instance_feeds_the_search() {
    let text = bytes("10\n2 3\n3 4\n4 5\n5 6\n");
    let (capacity, items) = parse_instance(&text).unwrap();
    let (vector, weight, value) = knapsack_brute_force(&items, capacity).unwrap();
    assert_eq!(vector, vec![1, 1, 0, 1]);
    assert_eq!(weight, 10);
    assert_eq!(value, 13);
}
