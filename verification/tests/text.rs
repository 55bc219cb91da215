use quiz_deck::text::{decimal_string, join_strings};

#[test]
fn numbers_are_written_in_decimal() {
    assert_eq!(decimal_string(0), "0");
    assert_eq!(decimal_string(7), "7");
    assert_eq!(decimal_string(10), "10");
    assert_eq!(decimal_string(909), "909");
    assert_eq!(decimal_string(1234567890), "1234567890");
    assert_eq!(decimal_string(u32::MAX), "4294967295");
}

fn owned(texts: &[&str]) -> Vec<String> {
    texts.iter().map(|text| text.to_string()).collect()
}

#[test]
fn strings_are_joined_with_the_separator_between_them() {
    assert_eq!(join_strings(&owned(&["a", "b", "c"]), ", "), "a, b, c");
    assert_eq!(join_strings(&owned(&["a", "", "c"]), "\n"), "a\n\nc");
    assert_eq!(join_strings(&owned(&["a", "b"]), ""), "ab");
}

#[test]
fn one_string_or_none_is_joined_without_a_separator() {
    assert_eq!(join_strings(&owned(&["alone"]), ", "), "alone");
    assert_eq!(join_strings(&owned(&[]), ", "), "");
}
