use cutr::{parse_delimiter, select_extract, ConfigError, Extract};

#[test]
fn delimiter_is_one_byte() {
    assert_eq!(parse_delimiter(",").unwrap(), b',');
    assert_eq!(parse_delimiter("\t").unwrap(), b'\t');
    assert_eq!(
        parse_delimiter("ab").unwrap_err().message(),
        "--delim \"ab\" must be a single byte"
    );
    assert!(parse_delimiter("é").is_err());
    assert!(parse_delimiter("").is_err());
}

#[test]
fn exactly_one_selection() {
    match select_extract(Some("1-2"), None, None).unwrap() {
        Extract::Fields(v) => assert_eq!(v, vec![0..2]),
        other => panic!("unexpected {:?}", other),
    }
    match select_extract(None, Some("3"), None).unwrap() {
        Extract::Bytes(v) => assert_eq!(v, vec![2..3]),
        other => panic!("unexpected {:?}", other),
    }
    match select_extract(None, None, Some("1,2")).unwrap() {
        Extract::Chars(v) => assert_eq!(v, vec![0..1, 1..2]),
        other => panic!("unexpected {:?}", other),
    }
}

#[test]
fn selection_errors() {
    let none = select_extract(None, None, None).unwrap_err();
    assert!(matches!(none, ConfigError::NoSelection));
    assert_eq!(none.message(), "Must have --fields, --bytes or --chars");
    assert!(matches!(
        select_extract(Some("1"), Some("2"), None).unwrap_err(),
        ConfigError::Conflict
    ));
    let bad = select_extract(None, None, Some("5-2")).unwrap_err();
    assert_eq!(
        bad.message(),
        "First number in range (5) must be lower than second number (2)"
    );
}
