use vue_scanner::report::label_position;

#[test]
fn label_position_at_start() {
    assert_eq!(label_position("abc\ndef", 0), (1, 1));
}

#[test]
fn label_position_on_second_line() {
    assert_eq!(label_position("abc\ndef", 5), (2, 2));
}

#[test]
fn label_position_at_end_of_text() {
    assert_eq!(label_position("abc\ndef", 7), (2, 4));
}

#[test]
fn label_position_on_the_newline_itself() {
    assert_eq!(label_position("é\nxé", 2), (1, 3));
}

#[test]
fn label_position_counts_columns_in_bytes() {
    assert_eq!(label_position("é\nxé", 3), (2, 1));
    assert_eq!(label_position("é\nxé", 4), (2, 2));
    assert_eq!(label_position("ab\n\n\ncd", 6), (4, 2));
}
