use five_card_draw::parse_indices;

#[test]
fn parses_positions() {
    assert_eq!(parse_indices("1 3"), vec![1, 3]);
    assert_eq!(parse_indices("1 2 3\n"), vec![1, 2, 3]);
}

#[test]
fn empty_line_gives_nothing() {
    assert_eq!(parse_indices(""), Vec::<usize>::new());
    assert_eq!(parse_indices("   \n"), Vec::<usize>::new());
}

#[test]
fn unparsable_tokens_are_skipped() {
    assert_eq!(parse_indices("a 2 -1 x5 4b 7"), vec![2, 7]);
    assert_eq!(parse_indices("+ +4 ++4 3.0"), vec![4]);
}

#[test]
fn any_white_space_separates() {
    assert_eq!(parse_indices("\t5\u{3000}6\u{a0}7\r\n"), vec![5, 6, 7]);
}

#[test]
fn numbers_too_large_are_skipped() {
    assert_eq!(parse_indices("99999999999999999999999 2"), vec![2]);
    assert_eq!(parse_indices("18446744073709551615"), vec![18446744073709551615]);
    assert_eq!(parse_indices("18446744073709551616 0"), vec![0]);
    assert_eq!(parse_indices("007"), vec![7]);
}
