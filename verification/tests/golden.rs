use envq::editor::{list_bindings, set_value, unset_key};
use envq::parser::parse_document;
use envq::render::render_document;

struct ParseCase {
    id: &'static str,
    input: &'static [u8],
    bindings: &'static [(&'static str, &'static [u8])],
    line_kinds: &'static [&'static str],
}

const PARSE_CASES: &[ParseCase] = &[
    ParseCase {
        id: "parse.basic",
        input: b"A=1\nB=two\n",
        bindings: &[("A", b"1"), ("B", b"two")],
        line_kinds: &["binding", "binding"],
    },
    ParseCase {
        id: "parse.export-and-empty",
        input: b"export KEY=value\nKEY2=\n",
        bindings: &[("KEY", b"value"), ("KEY2", b"")],
        line_kinds: &["binding", "binding"],
    },
    ParseCase {
        id: "parse.inline-comment-rules",
        input: b"KEY=value # comment\nKEY=value#not-comment\nKEY=#not-comment\n",
        bindings: &[("KEY", b"value"), ("KEY", b"value#not-comment"), ("KEY", b"#not-comment")],
        line_kinds: &["binding", "binding", "binding"],
    },
    ParseCase {
        id: "parse.preserved-lines",
        input: b"# c\n\n  \nKEY: value\nexport\n\"Q\"=1\n",
        bindings: &[],
        line_kinds: &["comment", "blank", "blank", "invalid", "invalid", "invalid"],
    },
    ParseCase {
        id: "parse.quotes",
        input: b"A=\"a\\\\b\\\"c\\n\\q\"\nB='x\\ny'\nC=\"open\n",
        bindings: &[("A", b"a\\b\"c\n\\q"), ("B", b"x\\ny")],
        line_kinds: &["binding", "binding", "invalid"],
    },
    ParseCase {
        id: "parse.mixed-newlines",
        input: b"A=1\r\nB=2\rC=3",
        bindings: &[("A", b"1"), ("B", b"2"), ("C", b"3")],
        line_kinds: &["binding", "binding", "binding"],
    },
    ParseCase {
        id: "parse.invalid-utf8",
        input: b"RAW=\xff\n\xfe\n",
        bindings: &[("RAW", b"\xff")],
        line_kinds: &["binding", "invalid"],
    },
];

#[test]
fn parse_golden_fixtures() {
    for case in PARSE_CASES {
        let document = parse_document(case.input);

        let expected_bindings: Vec<(String, Vec<u8>)> =
            case.bindings.iter().map(|(k, v)| ((*k).to_owned(), v.to_vec())).collect();
        assert_eq!(list_bindings(&document), expected_bindings, "{}", case.id);

        let actual_line_kinds =
            document.lines.iter().map(|line| line.kind().to_owned()).collect::<Vec<_>>();
        assert_eq!(actual_line_kinds, case.line_kinds, "{}", case.id);

        assert_eq!(render_document(&document), case.input, "{}", case.id);
    }
}

enum EditOp {
    Assign(&'static str, &'static [u8]),
    Clear(&'static str),
    Unset(&'static str, usize),
}

const EDIT_CASES: &[(&str, &[u8], EditOp, &[u8])] = &[
    ("edit.set-existing", b"A=1\nB=2\n", EditOp::Assign("A", b"x"), b"A=x\nB=2\n"),
    ("edit.set-append", b"A=1\n", EditOp::Assign("B", b"two words"), b"A=1\nB=\"two words\"\n"),
    ("edit.set-first-duplicate", b"A=1\nA=2\n", EditOp::Assign("A", b"3"), b"A=3\nA=2\n"),
    ("edit.set-crlf-append", b"A=1\r\nB=2", EditOp::Assign("C", b"3"), b"A=1\r\nB=2\r\nC=3\r\n"),
    ("edit.set-keeps-comment", b"export A = old # keep\n", EditOp::Assign("A", b"new"), b"export A = new # keep\n"),
    ("edit.clear", b"A=1\n", EditOp::Clear("A"), b"A=\n"),
    ("edit.clear-before-comment", b"A = old # keep\n", EditOp::Clear("A"), b"A = \"\" # keep\n"),
    ("edit.unset-all", b"A=1\nB=2\nA=3\n", EditOp::Unset("A", 2), b"B=2\n"),
    ("edit.unset-missing", b"B=2", EditOp::Unset("A", 0), b"B=2"),
    ("edit.unset-to-empty", b"A=1\nA=2", EditOp::Unset("A", 2), b""),
    ("edit.unset-repairs-newline", b"A=1\nB=2", EditOp::Unset("A", 1), b"B=2\n"),
];

#[test]
fn edit_golden_fixtures() {
    for (id, input, operation, expected) in EDIT_CASES {
        let document = parse_document(input);
        let updated = match operation {
            EditOp::Assign(key, value) => set_value(&document, key, value),
            EditOp::Clear(key) => set_value(&document, key, b""),
            EditOp::Unset(key, removed_count) => {
                let unset_result = unset_key(&document, key);
                assert_eq!(unset_result.removed_count, *removed_count, "{id}");
                unset_result.document
            }
        };
        assert_eq!(render_document(&updated), *expected, "{id}");
    }
}
