use preprocess_cancellation::text::{int_to_text, str_le};

#[test]
fn integers_in_decimal() {
    assert_eq!(int_to_text(0), "0");
    assert_eq!(int_to_text(7), "7");
    assert_eq!(int_to_text(-42), "-42");
    assert_eq!(int_to_text(i32::MAX), "2147483647");
    assert_eq!(int_to_text(i32::MIN), "-2147483648");
}

#[test]
fn strings_in_string_order() {
    assert!(str_le("abc", "abd"));
    assert!(str_le("ab", "abc"));
    assert!(str_le("", "a"));
    assert!(str_le("Z", "a"));
    assert!(str_le("same", "same"));
    assert!(!str_le("b", "a"));
    assert!(!str_le("abc", "ab"));
}
