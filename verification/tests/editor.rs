use envq::editor::{get_value, has_key, list_bindings, set_value, unset_key};
use envq::parser::parse_document;
use envq::render::render_document;

fn default_newline() -> &'static [u8] {
    b"\n"
}

#[test]
fn duplicate_key_semantics() {
    let document = parse_document(b"A=1\nA=2\nB=3\n");

    assert_eq!(get_value(&document, "A"), Some(&b"1"[..]));
    assert!(has_key(&document, "A"));
    assert_eq!(
        list_bindings(&document),
        vec![
            ("A".to_owned(), b"1".to_vec()),
            ("A".to_owned(), b"2".to_vec()),
            ("B".to_owned(), b"3".to_vec()),
        ]
    );
    assert_eq!(render_document(&set_value(&document, "A", b"x")), b"A=x\nA=2\nB=3\n");

    let unset_result = unset_key(&document, "A");
    assert_eq!(unset_result.removed_count, 2);
    assert_eq!(render_document(&unset_result.document), b"B=3\n");
}

#[test]
fn preserves_prefix_spacing_comments_and_unambiguous_suffixes() {
    let document = parse_document(b"export A = old # keep\n");
    assert_eq!(render_document(&set_value(&document, "A", b"new")), b"export A = new # keep\n");

    let document = parse_document(b"A = old # keep\n");
    assert_eq!(render_document(&set_value(&document, "A", b"")), b"A = \"\" # keep\n");

    let document = parse_document(b"A=\"old\"   \n");
    assert_eq!(render_document(&set_value(&document, "A", b"new")), b"A=\"new\"   \n");
}

#[test]
fn appends_and_repairs_missing_terminal_newline() {
    let document = parse_document(b"A=1");
    let mut expected = b"A=1".to_vec();
    expected.extend(default_newline());
    expected.extend(b"B=\"two words\"");
    expected.extend(default_newline());

    assert_eq!(render_document(&set_value(&document, "B", b"two words")), expected);
}

#[test]
fn unset_can_empty_file() {
    let document = parse_document(b"A=1\nA=2");
    let unset_result = unset_key(&document, "A");

    assert_eq!(unset_result.removed_count, 2);
    assert_eq!(render_document(&unset_result.document), b"");
}

#[test]
fn get_after_set_and_unset_on_documents() {
    let document = parse_document(b"# head\r\nA=1\r\nB=2\r\n");
    let updated = set_value(&document, "C", b"x y");
    assert_eq!(get_value(&updated, "C"), Some(&b"x y"[..]));
    assert_eq!(get_value(&updated, "A"), Some(&b"1"[..]));
    assert_eq!(render_document(&updated), b"# head\r\nA=1\r\nB=2\r\nC=\"x y\"\r\n");

    let removed = unset_key(&updated, "A");
    assert_eq!(removed.removed_count, 1);
    assert_eq!(get_value(&removed.document, "A"), None);
    assert_eq!(get_value(&removed.document, "B"), Some(&b"2"[..]));

    let nothing = unset_key(&document, "MISSING");
    assert_eq!(nothing.removed_count, 0);
    assert_eq!(render_document(&nothing.document), b"# head\r\nA=1\r\nB=2\r\n");
}

#[test]
fn whitespace_only_suffix_forces_quoting() {
    let document = parse_document(b"A=\"old\"   \n");
    assert_eq!(render_document(&set_value(&document, "A", b"new")), b"A=\"new\"   \n");
}

#[test]
fn set_rewrites_first_binding_in_place() {
    let document = parse_document(b"export A = old # note\r\nB=1\nA=second\n");
    let updated = set_value(&document, "A", b"new");
    assert_eq!(
        render_document(&updated),
        b"export A = new # note\r\nB=1\nA=second\n".to_vec()
    );
    // An absent key is appended with the file's first newline style.
    let appended = set_value(&parse_document(b"B=1\r\nC=2\n"), "A", b"x");
    assert_eq!(render_document(&appended), b"B=1\r\nC=2\nA=x\r\n".to_vec());
}

#[test]
fn set_quotes_a_value_before_a_suffix_that_starts_with_hash() {
    let document = parse_document(b"C=\"a\"#c\n");
    let updated = set_value(&document, "C", b"x");
    let rendered = render_document(&updated);
    assert_eq!(rendered, b"C=\"x\"#c\n".to_vec());
    assert_eq!(get_value(&parse_document(&rendered), "C"), Some(&b"x"[..]));
}
