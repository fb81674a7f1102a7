use envq::model::{Line, QuoteType};
use envq::parser::parse_document;
use envq::parser::quoted::decode_double_quoted;
use envq::render::render_document;

#[test]
fn classifies_lines_and_renders_losslessly() {
    let source = b"\n  \n# comment\n  # indented\nKEY=value\nbad line\n";
    let document = parse_document(source);

    assert!(matches!(document.lines[0], Line::Blank(_)));
    assert!(matches!(document.lines[1], Line::Blank(_)));
    assert!(matches!(document.lines[2], Line::Comment(_)));
    assert!(matches!(document.lines[3], Line::Comment(_)));
    assert!(matches!(document.lines[4], Line::Binding(_)));
    assert!(matches!(document.lines[5], Line::Invalid(_)));
    assert_eq!(render_document(&document), source);
}

#[test]
fn preserves_export_spacing_and_inline_comment() {
    let document = parse_document(b"export KEY = value # keep\n");
    let Line::Binding(line) = &document.lines[0] else {
        panic!("expected binding");
    };

    assert!(line.export);
    assert_eq!(line.key, "KEY");
    assert_eq!(line.value, b"value");
    assert_eq!(line.raw_value, b"value");
    assert_eq!(line.prefix, b"export KEY = ");
    assert_eq!(line.suffix, b" # keep");
    assert_eq!(line.inline_comment.as_deref(), Some(&b" # keep"[..]));
}

#[test]
fn parses_hash_ambiguity_and_quoted_values() {
    let document = parse_document(b"A=a#b\nB=#c\nC=\"a\\n\\t\"\nD='one two'\n");
    let Line::Binding(first) = &document.lines[0] else {
        panic!("expected binding");
    };
    let Line::Binding(second) = &document.lines[1] else {
        panic!("expected binding");
    };
    let Line::Binding(third) = &document.lines[2] else {
        panic!("expected binding");
    };
    let Line::Binding(fourth) = &document.lines[3] else {
        panic!("expected binding");
    };

    assert_eq!(first.value, b"a#b");
    assert_eq!(second.value, b"#c");
    assert_eq!(third.value, b"a\n\t");
    assert_eq!(third.quote_type, QuoteType::Double);
    assert_eq!(fourth.value, b"one two");
    assert_eq!(fourth.quote_type, QuoteType::Single);
}

#[test]
fn invalid_quoted_suffix_is_invalid() {
    let document = parse_document(b"A=\"value\"suffix\n");
    assert!(matches!(document.lines[0], Line::Invalid(_)));
    assert_eq!(render_document(&document), b"A=\"value\"suffix\n");
}

#[test]
fn quoted_values_can_have_inline_comments_and_missing_closers() {
    let document = parse_document(b"A=\"value\" # keep\nB='a\\b' # keep\nC=\"hash\"#keep\nD=\"unterminated\n");

    let Line::Binding(first) = &document.lines[0] else {
        panic!("expected binding");
    };
    let Line::Binding(second) = &document.lines[1] else {
        panic!("expected binding");
    };

    assert_eq!(first.inline_comment.as_deref(), Some(&b" # keep"[..]));
    assert_eq!(second.value, b"a\\b");
    assert_eq!(second.inline_comment.as_deref(), Some(&b" # keep"[..]));
    let Line::Binding(third) = &document.lines[2] else {
        panic!("expected binding");
    };

    assert_eq!(third.inline_comment.as_deref(), Some(&b"#keep"[..]));
    assert!(matches!(document.lines[3], Line::Invalid(_)));
}

#[test]
fn tracks_newline_styles() {
    let document = parse_document(b"A=1\r\nB=2\rC=3\nD=4");
    assert_eq!(document.preferred_newline, b"\r\n");
    assert_eq!(document.lines[0].newline(), b"\r\n");
    assert_eq!(document.lines[1].newline(), b"\r");
    assert_eq!(document.lines[2].newline(), b"\n");
    assert_eq!(document.lines[3].newline(), b"");
}

#[test]
fn decodes_internal_trailing_backslash_literal() {
    assert_eq!(decode_double_quoted(b"abc\\"), b"abc\\");
}

#[test]
fn decodes_all_supported_and_unknown_double_quote_escapes() {
    assert_eq!(decode_double_quoted(b"a\\r\\\\\\\"x\\q"), b"a\r\\\"x\\q");
}

#[test]
fn empty_document_uses_platform_newline_and_renders_empty() {
    let document = parse_document(b"");
    assert!(document.lines.is_empty());
    assert_eq!(document.preferred_newline, b"\n");
    assert_eq!(render_document(&document), b"");
}

#[test]
fn parse_then_render_gives_back_arbitrary_bytes() {
    let inputs: [&[u8]; 6] = [
        b"A=1\r\nB=\"x\\q\" # c\rC='unterminated\n",
        b"\xff\xfe=\n export  K =  v  # x",
        b"\r\r\n\n",
        b"KEY: value\nexport\n=x\n",
        b"D=\"a\\\nb\"\n",
        b"only text without newline",
    ];
    for input in inputs {
        assert_eq!(render_document(&parse_document(input)), input);
    }
}

#[test]
fn parsed_lines_have_terminated_bodies_and_valid_keys() {
    let document = parse_document(b"A=1\r\nexport B_2 = \"x\"\r# c\n9X=1\nlast=v");
    let newlines: Vec<&[u8]> = document.lines.iter().map(|l| l.newline()).collect();
    assert_eq!(newlines, vec![&b"\r\n"[..], &b"\r"[..], &b"\n"[..], &b"\n"[..], &b""[..]]);
    let keys: Vec<String> = document
        .lines
        .iter()
        .filter_map(|l| match l {
            Line::Binding(b) => Some(b.key.clone()),
            _ => None,
        })
        .collect();
    assert_eq!(keys, vec!["A".to_string(), "B_2".to_string(), "last".to_string()]);
    assert!(matches!(document.lines[3], Line::Invalid(_)));
    for line in &document.lines {
        if let Line::Binding(b) = line {
            assert!(!b.prefix.iter().chain(&b.raw_value).chain(&b.suffix).any(|c| *c == b'\r' || *c == b'\n'));
        }
    }
}
