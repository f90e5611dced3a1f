use rotate_pairs::board::{Input, Output};
use rotate_pairs::parse::{parse_input, parse_output, read, ParseError, MAX_OPS};
use rotate_pairs::text::{chars_of, decimal, decimal_wide, is_space_char, parse_integer};
use rotate_pairs::text::{signed_decimal, split_tokens};

fn blank(size: usize) -> Input {
    Input { size, board: vec![vec![0; size]; size] }
}

#[test]
fn separators_are_the_white_space_characters() {
    let mut c = 0u32;
    while c <= 0x10ffff {
        if let Some(ch) = char::from_u32(c) {
            assert_eq!(is_space_char(ch), ch.is_whitespace(), "U+{:04X}", c);
        }
        c += 1;
    }
}

#[test]
fn chars_of_lists_every_character() {
    assert_eq!(chars_of("a\u{3000}b"), vec!['a', '\u{3000}', 'b']);
    assert_eq!(chars_of(""), Vec::<char>::new());
}

#[test]
fn tokens_lie_between_separators() {
    let chars = chars_of("  12\t3\n\n456 ");
    assert_eq!(split_tokens(&chars), vec![(2, 4), (5, 6), (8, 11)]);
    assert_eq!(split_tokens(&chars_of(" \n ")), vec![]);
    assert_eq!(split_tokens(&chars_of("x")), vec![(0, 1)]);
}

#[test]
fn integers_are_read_as_the_standard_library_reads_them() {
    for t in [
        "0", "7", "007", "+5", "-5", "-0", "+0", "+", "-", "", "--1", "+-1", "-+1", "1-", "12a",
        "1 2", "18446744073709551615", "18446744073709551616",
        "170141183460469231731687303715884105727", "170141183460469231731687303715884105728",
        "-170141183460469231731687303715884105728", "-170141183460469231731687303715884105729",
        "+170141183460469231731687303715884105727", "999999999999999999999999999999999999999999",
        "-999999999999999999999999999999999999999999", "４", "1.0", "0x10",
    ] {
        let chars = chars_of(t);
        assert_eq!(parse_integer(&chars, 0, chars.len()), t.parse::<i128>().ok(), "{:?}", t);
    }
    let chars = chars_of("ab-12cd");
    assert_eq!(parse_integer(&chars, 2, 5), Some(-12));
    assert_eq!(parse_integer(&chars, 2, 3), None);
    assert_eq!(parse_integer(&chars, 3, 3), None);
}

#[test]
fn decimal_writes_base_ten() {
    assert_eq!(decimal(0), "0");
    assert_eq!(decimal(9), "9");
    assert_eq!(decimal(10), "10");
    assert_eq!(decimal(1234567890), "1234567890");
    assert_eq!(decimal(usize::MAX), usize::MAX.to_string());
    assert_eq!(decimal_wide(u128::MAX), u128::MAX.to_string());
    assert_eq!(decimal_wide(0), "0");
}

#[test]
fn signed_decimal_writes_the_sign_of_a_negative_number() {
    assert_eq!(signed_decimal(0), "0");
    assert_eq!(signed_decimal(-1), "-1");
    assert_eq!(signed_decimal(45), "45");
    assert_eq!(signed_decimal(-1200), "-1200");
    assert_eq!(signed_decimal(i128::MAX), i128::MAX.to_string());
    assert_eq!(signed_decimal(i128::MIN), i128::MIN.to_string());
}

#[test]
fn read_tells_the_faults_apart() {
    assert_eq!(read(None, 0, 9), Err(ParseError::UnexpectedEof));
    assert_eq!(read(Some("x1"), 0, 9), Err(ParseError::Malformed("x1".to_string())));
    assert_eq!(read(Some("10"), 0, 9), Err(ParseError::OutOfRange(10)));
    assert_eq!(read(Some("2"), 3, 9), Err(ParseError::OutOfRange(2)));
    assert_eq!(read(Some("9"), 0, 9), Ok(9));
    assert_eq!(read(Some("0"), 0, 9), Ok(0));
    assert_eq!(read(Some("0"), 1, 0), Err(ParseError::OutOfRange(0)));
    assert_eq!(read(Some("-1"), 0, 9), Err(ParseError::OutOfRange(-1)));
    assert_eq!(read(Some("-1"), -5, 9), Ok(-1));
    assert_eq!(read(Some("-"), 0, 9), Err(ParseError::Malformed("-".to_string())));
    assert_eq!(read(Some("+3"), 0, 9), Ok(3));
    assert_eq!(
        read(Some("18446744073709551616"), 0, 9),
        Err(ParseError::OutOfRange(18446744073709551616))
    );
    let long = "170141183460469231731687303715884105728";
    assert_eq!(read(Some(long), 0, 9), Err(ParseError::Malformed(long.to_string())));
}

#[test]
fn messages_name_the_fault() {
    assert_eq!(ParseError::UnexpectedEof.message(), "Unexpected EOF");
    assert_eq!(ParseError::Malformed("a<b".to_string()).message(), "Parse error: a<b");
    assert_eq!(ParseError::OutOfRange(100).message(), "Out of range: 100");
    assert_eq!(ParseError::OutOfRange(-1).message(), "Out of range: -1");
    assert_eq!(ParseError::TrailingTokens.message(), "Too many outputs");
}

#[test]
fn a_size_past_the_board_is_out_of_range() {
    assert_eq!(parse_output(&blank(10), "1 0 0 100"), Err(ParseError::OutOfRange(100)));
}

#[test]
fn a_negative_coordinate_is_out_of_range() {
    assert_eq!(parse_output(&blank(10), "1 -1 0 0"), Err(ParseError::OutOfRange(-1)));
    assert_eq!(parse_output(&blank(10), "1 0 -2 0"), Err(ParseError::OutOfRange(-2)));
    assert_eq!(parse_output(&blank(10), "1 0 0 -3"), Err(ParseError::OutOfRange(-3)));
    assert_eq!(parse_output(&blank(10), "2 0 0 1 9 -7 1"), Err(ParseError::OutOfRange(-7)));
    assert_eq!(parse_output(&blank(10), "1 -0 +0 -0"), Ok(Output { out: vec![(0, 0, 0)] }));
    assert_eq!(parse_output(&blank(10), "1 - 0 0"), Err(ParseError::Malformed("-".to_string())));
    assert_eq!(
        parse_output(&blank(10), "1 99999999999999999999 0 0"),
        Err(ParseError::OutOfRange(99999999999999999999))
    );
}

#[test]
fn fewer_moves_than_announced_end_early() {
    assert_eq!(parse_output(&blank(10), "2 0 0 1"), Err(ParseError::UnexpectedEof));
}

#[test]
fn moves_come_out_in_order() {
    let out = parse_output(&blank(10), "2\n0 0 2\n9 10 10\n").unwrap();
    assert_eq!(out, Output { out: vec![(0, 0, 2), (9, 10, 10)] });
    assert_eq!(parse_output(&blank(10), "0"), Ok(Output { out: vec![] }));
}

#[test]
fn the_row_is_held_below_the_side_and_the_column_may_reach_it() {
    assert_eq!(parse_output(&blank(10), "1 10 0 0"), Err(ParseError::OutOfRange(10)));
    assert_eq!(parse_output(&blank(10), "1 0 11 0"), Err(ParseError::OutOfRange(11)));
    assert_eq!(parse_output(&blank(10), "1 0 10 10"), Ok(Output { out: vec![(0, 10, 10)] }));
    assert_eq!(parse_output(&blank(0), "1 0 0 0"), Err(ParseError::OutOfRange(0)));
}

#[test]
fn the_first_fault_decides() {
    assert_eq!(parse_output(&blank(4), "2 1 1 1 9 x 1"), Err(ParseError::OutOfRange(9)));
    assert_eq!(
        parse_output(&blank(4), "2 1 1 1 1 x 9"),
        Err(ParseError::Malformed("x".to_string()))
    );
}

#[test]
fn tokens_after_the_last_move_are_refused() {
    assert_eq!(parse_output(&blank(4), "1 0 0 2 7"), Err(ParseError::TrailingTokens));
    assert_eq!(parse_output(&blank(4), "0 0"), Err(ParseError::TrailingTokens));
}

#[test]
fn the_count_must_be_a_number_below_the_limit() {
    assert_eq!(parse_output(&blank(4), ""), Err(ParseError::UnexpectedEof));
    assert_eq!(parse_output(&blank(4), "-1"), Err(ParseError::Malformed("-1".to_string())));
    assert_eq!(parse_output(&blank(4), "-1 0 0 0"), Err(ParseError::Malformed("-1".to_string())));
    assert_eq!(parse_output(&blank(4), "+1 0 0 0"), Ok(Output { out: vec![(0, 0, 0)] }));
    assert_eq!(parse_output(&blank(4), "two"), Err(ParseError::Malformed("two".to_string())));
    let limit = MAX_OPS.to_string();
    assert_eq!(parse_output(&blank(4), &limit), Err(ParseError::Malformed(limit.clone())));
    assert_eq!(parse_output(&blank(4), "998244352"), Err(ParseError::UnexpectedEof));
}

#[test]
fn a_board_is_read_row_by_row() {
    let b = parse_input("2\n3 1 \n4 1 \n").unwrap();
    assert_eq!(b, Input { size: 2, board: vec![vec![3, 1], vec![4, 1]] });
    assert_eq!(parse_input("0"), Ok(Input { size: 0, board: vec![] }));
    assert_eq!(parse_input("1 5 6 7"), Ok(Input { size: 1, board: vec![vec![5]] }));
}

#[test]
fn a_board_that_cannot_be_read_gives_the_fault() {
    assert_eq!(parse_input(""), Err(ParseError::UnexpectedEof));
    assert_eq!(parse_input("2 1 2 3"), Err(ParseError::UnexpectedEof));
    assert_eq!(parse_input("2 1 b 3 4"), Err(ParseError::Malformed("b".to_string())));
    assert_eq!(parse_input("x"), Err(ParseError::Malformed("x".to_string())));
    assert_eq!(parse_input("-2"), Err(ParseError::OutOfRange(-2)));
    assert_eq!(parse_input("1 -4"), Err(ParseError::OutOfRange(-4)));
    assert_eq!(
        parse_input("1 18446744073709551616"),
        Err(ParseError::OutOfRange(18446744073709551616))
    );
    assert_eq!(parse_input("18446744073709551615 1"), Err(ParseError::UnexpectedEof));
}
