use bankers::input::{parse_answer, parse_counts};

#[test]
fn counts_separated_by_spaces() {
    assert_eq!(parse_counts("10 5 7"), Some(vec![10, 5, 7]));
}

#[test]
fn counts_with_mixed_blanks_and_plus_sign() {
    assert_eq!(parse_counts("  +3\t0 255 \r\n"), Some(vec![3, 0, 255]));
    assert_eq!(parse_counts("007"), Some(vec![7]));
}

#[test]
fn empty_line_has_no_counts() {
    assert_eq!(parse_counts(""), Some(vec![]));
    assert_eq!(parse_counts(" \n"), Some(vec![]));
}

#[test]
fn counts_out_of_range_are_rejected() {
    assert_eq!(parse_counts("1 256"), None);
    assert_eq!(parse_counts("00002560"), None);
    assert_eq!(parse_counts("99999999999999999999"), None);
}

#[test]
fn malformed_counts_are_rejected() {
    assert_eq!(parse_counts("1 x"), None);
    assert_eq!(parse_counts("-1"), None);
    assert_eq!(parse_counts("+"), None);
    assert_eq!(parse_counts("1,2"), None);
    assert_eq!(parse_counts("++1"), None);
}

#[test]
fn yes_answers() {
    assert_eq!(parse_answer("y\n"), Some(true));
    assert_eq!(parse_answer("  YES \r\n"), Some(true));
    assert_eq!(parse_answer("Yes"), Some(true));
}

#[test]
fn no_answers() {
    assert_eq!(parse_answer("n"), Some(false));
    assert_eq!(parse_answer("\tNo\n"), Some(false));
}

#[test]
fn other_answers() {
    assert_eq!(parse_answer(""), None);
    assert_eq!(parse_answer("maybe"), None);
    assert_eq!(parse_answer("y es"), None);
    assert_eq!(parse_answer("yess"), None);
    assert_eq!(parse_answer("ye"), None);
}

#[test]
fn counts_split_at_unicode_white_space() {
    assert_eq!(parse_counts("5\u{a0}"), Some(vec![5]));
    assert_eq!(parse_counts("1\u{3000}2\u{2009}3\u{85}4\u{1680}5\u{202f}6"), Some(vec![1, 2, 3, 4, 5, 6]));
    assert_eq!(parse_counts("\u{2028}7\u{2029}"), Some(vec![7]));
}

#[test]
fn counts_reject_non_ascii_digits() {
    assert_eq!(parse_counts("\u{663}"), None);
    assert_eq!(parse_counts("1\u{200b}2"), None);
}

#[test]
fn answers_trimmed_of_unicode_white_space() {
    assert_eq!(parse_answer("no\u{a0}"), Some(false));
    assert_eq!(parse_answer("\u{3000}Y\u{205f}\n"), Some(true));
    assert_eq!(parse_answer("y\u{a0}es"), None);
}

#[test]
fn answers_use_ascii_letters_only() {
    assert_eq!(parse_answer("\u{212a}"), None);
    assert_eq!(parse_answer("nO"), Some(false));
    assert_eq!(parse_answer("yEs"), Some(true));
}
