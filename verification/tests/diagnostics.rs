use envq::diagnostics::{invalid_key_message, is_valid_key};

#[test]
fn key_validation() {
    assert!(is_valid_key("KEY"));
    assert!(is_valid_key("_KEY_1"));
    assert!(!is_valid_key("1KEY"));
    assert!(!is_valid_key("KEY-NAME"));
    assert!(!is_valid_key(""));
}

#[test]
fn invalid_key_message_names_the_key() {
    assert_eq!(invalid_key_message("1BAD"), b"envq: invalid key: 1BAD\n");
}
