use cutr::{parse_index, parse_pos, parse_pos_basic, parse_usize, RangeError};

fn ranges(text: &str) -> Vec<(usize, usize)> {
    parse_pos(text)
        .unwrap()
        .iter()
        .map(|r| (r.start, r.end))
        .collect()
}

fn error(text: &str) -> String {
    parse_pos(text).unwrap_err().message()
}

#[test]
fn list_of_number_and_range() {
    assert_eq!(ranges("1,3-5"), vec![(0, 1), (2, 5)]);
}

#[test]
fn single_numbers() {
    assert_eq!(ranges("1"), vec![(0, 1)]);
    assert_eq!(ranges("7"), vec![(6, 7)]);
    assert_eq!(ranges("007"), vec![(6, 7)]);
    assert_eq!(ranges("18446744073709551615"), vec![(usize::MAX - 1, usize::MAX)]);
}

#[test]
fn ranges_of_two_numbers() {
    assert_eq!(ranges("2-4"), vec![(1, 4)]);
    assert_eq!(ranges("1-2"), vec![(0, 2)]);
    assert_eq!(ranges("10-12,1"), vec![(9, 12), (0, 1)]);
}

#[test]
fn order_and_duplicates_kept() {
    assert_eq!(ranges("3,1,3"), vec![(2, 3), (0, 1), (2, 3)]);
}

#[test]
fn inverted_range_fails() {
    assert_eq!(
        error("5-2"),
        "First number in range (5) must be lower than second number (2)"
    );
    assert_eq!(
        error("3-3"),
        "First number in range (3) must be lower than second number (3)"
    );
    assert_eq!(
        error("1,12-3"),
        "First number in range (12) must be lower than second number (3)"
    );
    assert!(matches!(parse_pos("5-2"), Err(RangeError::InvertedRange(5, 2))));
}

#[test]
fn plus_sign_fails() {
    assert_eq!(error("+1"), "illegal list value: \"+1\"");
    assert_eq!(error("1,+2"), "illegal list value: \"+2\"");
    assert_eq!(error("+1-3"), "illegal list value: \"+1-3\"");
    assert_eq!(error("1-+3"), "illegal list value: \"1-+3\"");
}

#[test]
fn non_positive_or_malformed_tokens_fail() {
    assert_eq!(error("0"), "illegal list value: \"0\"");
    assert_eq!(error(""), "illegal list value: \"\"");
    assert_eq!(error("a"), "illegal list value: \"a\"");
    assert_eq!(error("1,,2"), "illegal list value: \"\"");
    assert_eq!(error("-1"), "illegal list value: \"-1\"");
    assert_eq!(error("1-a"), "illegal list value: \"1-a\"");
    assert_eq!(error("1-2-3"), "illegal list value: \"1-2-3\"");
    assert_eq!(error("0-3"), "illegal list value: \"0\"");
    assert_eq!(error("2-0"), "illegal list value: \"0\"");
    assert_eq!(error("18446744073709551616"), "illegal list value: \"18446744073709551616\"");
}

#[test]
fn first_bad_token_decides() {
    assert_eq!(error("x,5-2"), "illegal list value: \"x\"");
    assert_eq!(
        error("5-2,x"),
        "First number in range (5) must be lower than second number (2)"
    );
}

#[test]
fn index_is_zero_based() {
    assert_eq!(parse_index("1").unwrap(), 0);
    assert_eq!(parse_index("42").unwrap(), 41);
    assert!(parse_index("0").is_err());
    assert!(parse_index("+3").is_err());
    assert!(parse_index("").is_err());
    assert_eq!(parse_index("x").unwrap_err().message(), "illegal list value: \"x\"");
}

#[test]
fn usize_reading_as_std() {
    assert_eq!(parse_usize("0"), Some(0));
    assert_eq!(parse_usize("+12"), Some(12));
    assert_eq!(parse_usize("18446744073709551615"), Some(usize::MAX));
    assert_eq!(parse_usize("18446744073709551616"), None);
    assert_eq!(parse_usize("+"), None);
    assert_eq!(parse_usize(""), None);
    assert_eq!(parse_usize("1a"), None);
}

#[test]
fn plain_reading_of_lists() {
    let v: Vec<(usize, usize)> = parse_pos_basic("1,3-5,+2,4-1-9")
        .unwrap()
        .iter()
        .map(|r| (r.start, r.end))
        .collect();
    assert_eq!(v, vec![(1, 1), (3, 5), (2, 2), (4, 1)]);
    assert_eq!(
        parse_pos_basic("1,x").unwrap_err().message(),
        "illegal list value: \"x\""
    );
    assert_eq!(
        parse_pos_basic("2-y").unwrap_err().message(),
        "illegal list value: \"y\""
    );
}
