use cutr::{extract_bytes, extract_chars, extract_fields, FieldError};

#[test]
fn test_extract_chars() {
    assert_eq!(extract_chars("", &[0..1]), "".to_string());
    assert_eq!(extract_chars("ábc", &[0..1]), "á".to_string());
    assert_eq!(extract_chars("ábc", &[0..1, 2..3]), "ác".to_string());
    assert_eq!(extract_chars("ábc", &[0..3]), "ábc".to_string());
    assert_eq!(extract_chars("ábc", &[2..3, 1..2]), "cb".to_string());
    assert_eq!(
        extract_chars("ábc", &[0..1, 1..2, 4..5]),
        "áb".to_string()
    );
}

#[test]
fn test_extract_bytes() {
    assert_eq!(extract_bytes("ábc", &[0..1]), "�".to_string());
    assert_eq!(extract_bytes("ábc", &[0..2]), "á".to_string());
    assert_eq!(extract_bytes("ábc", &[0..3]), "áb".to_string());
    assert_eq!(extract_bytes("ábc", &[0..4]), "ábc".to_string());
    assert_eq!(extract_bytes("ábc", &[3..4, 2..3]), "cb".to_string());
    assert_eq!(extract_bytes("ábc", &[0..2, 5..6]), "á".to_string());
}

#[test]
fn chars_ranges_past_the_line_give_nothing() {
    assert_eq!(extract_chars("abc", &[5..9]), "");
    assert_eq!(extract_chars("abc", &[3..4, 0..1]), "a");
    assert_eq!(extract_chars("abc", &[]), "");
}

#[test]
fn chars_range_reaching_past_the_line_is_cut() {
    assert_eq!(extract_chars("abc", &[1..10]), "bc");
    assert_eq!(extract_chars("ábc", &[0..100]), "ábc");
}

#[test]
fn chars_empty_and_inverted_ranges_give_nothing() {
    assert_eq!(extract_chars("abc", &[1..1]), "");
    assert_eq!(extract_chars("abc", &[2..1]), "");
}

#[test]
fn chars_whole_line_comes_back() {
    for line in ["", "a", "ábc", "héllo wörld", "日本語"] {
        let n = line.chars().count();
        assert_eq!(extract_chars(line, &[0..n]), line);
    }
}

#[test]
fn chars_overlapping_ranges_repeat() {
    assert_eq!(extract_chars("abcd", &[0..2, 1..3]), "abbc");
}

#[test]
fn bytes_ranges_past_the_line_give_nothing() {
    assert_eq!(extract_bytes("abc", &[3..5]), "");
    assert_eq!(extract_bytes("abc", &[7..9, 0..1]), "a");
}

#[test]
fn bytes_range_reaching_past_the_line_is_cut() {
    assert_eq!(extract_bytes("ábc", &[2..50]), "bc");
    assert_eq!(extract_bytes("abc", &[1..usize::MAX]), "bc");
}

#[test]
fn bytes_cut_character_becomes_replacement() {
    assert_eq!(extract_bytes("ábc", &[1..3]), "\u{FFFD}b");
    assert_eq!(extract_bytes("日", &[0..2]), "\u{FFFD}");
    assert_eq!(extract_bytes("ábc", &[0..1, 1..2]), "\u{FFFD}\u{FFFD}");
}

fn record(cells: &[&str]) -> Vec<String> {
    cells.iter().map(|c| c.to_string()).collect()
}

#[test]
fn fields_joined_with_delimiter() {
    let r = record(&["a", "b", "c", "d"]);
    assert_eq!(extract_fields(&r, &[0..2], b',').unwrap(), "a,b");
    assert_eq!(extract_fields(&r, &[0..2, 3..4], b',').unwrap(), "a,b,d");
}

#[test]
fn fields_order_and_repeats_kept() {
    let r = record(&["a", "b", "c", "d"]);
    assert_eq!(extract_fields(&r, &[3..4, 0..1], b'\t').unwrap(), "d\ta");
    assert_eq!(extract_fields(&r, &[1..2, 1..3], b':').unwrap(), "b:b:c");
    assert_eq!(extract_fields(&r, &[], b',').unwrap(), "");
    assert_eq!(extract_fields(&r, &[2..2, 1..2], b',').unwrap(), "b");
}

#[test]
fn fields_empty_cells_still_separated() {
    let r = record(&["", "x", ""]);
    assert_eq!(extract_fields(&r, &[0..3], b',').unwrap(), ",x,");
}

#[test]
fn fields_past_the_record_fail() {
    let r = record(&["a", "b", "c", "d"]);
    assert_eq!(
        extract_fields(&r, &[0..5], b','),
        Err(FieldError::OutOfRange { start: 0, end: 5, count: 4 })
    );
    assert_eq!(
        extract_fields(&r, &[0..1, 4..6, 9..10], b','),
        Err(FieldError::OutOfRange { start: 4, end: 6, count: 4 })
    );
    assert_eq!(extract_fields(&r, &[0..4], b',').unwrap(), "a,b,c,d");
    let e = extract_fields(&r, &[2..7], b',').unwrap_err();
    assert_eq!(e.message(), "the list reaches field 7, but the record has 4 fields");
}

#[test]
fn fields_delimiter_must_be_text() {
    let r = record(&["a", "b"]);
    assert_eq!(extract_fields(&r, &[0..1], 0xFF), Err(FieldError::Delimiter(0xFF)));
    assert_eq!(
        FieldError::Delimiter(200).message(),
        "the delimiter byte 200 is not UTF-8 text"
    );
}

#[test]
fn bytes_whole_line_comes_back() {
    for line in ["", "a", "ábc", "héllo wörld", "日本語"] {
        assert_eq!(extract_bytes(line, &[0..line.len()]), line);
    }
}
