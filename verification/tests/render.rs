use envq::render::{encode_value_auto, encode_value_double};

#[test]
fn auto_quoting() {
    let cases: &[(&[u8], &[u8])] = &[
        (b"", b""),
        (b"simple-1", b"simple-1"),
        (b"two words", b"\"two words\""),
        (b"a#b", b"\"a#b\""),
        (b"a\"b\\c\n", b"\"a\\\"b\\\\c\\n\""),
        (b"carriage\rreturn", b"\"carriage\\rreturn\""),
        (b"tab\tvalue", b"\"tab\\tvalue\""),
        (b"\xff", b"\xff"),
    ];

    for (value, expected) in cases {
        assert_eq!(encode_value_auto(value).text, *expected);
    }
}

#[test]
fn double_quoting_always_quotes() {
    assert_eq!(encode_value_double(b"").text, b"\"\"");
    assert_eq!(encode_value_double(b"plain").text, b"\"plain\"");
    assert_eq!(encode_value_double(b"q\"\\\r\n\t").text, b"\"q\\\"\\\\\\r\\n\\t\"");
}

#[test]
fn escaping_then_decoding_gives_back_the_value() {
    let value: &[u8] = b"a\"b\\c\nd\re\tf\x01\xff";
    let escaped = envq::render::escape_double_quoted(value);
    assert_eq!(escaped, b"a\\\"b\\\\c\\nd\\re\\tf\x01\xff");
    assert_eq!(envq::parser::quoted::decode_double_quoted(&escaped), value);
}

#[test]
fn control_bytes_including_del_are_double_quoted() {
    assert_eq!(encode_value_auto(b"\x7f").text, b"\"\x7f\"");
    assert_eq!(encode_value_auto(b"a\x01b").text, b"\"a\x01b\"");
    assert_eq!(encode_value_auto(b"~").text, b"~");
}
