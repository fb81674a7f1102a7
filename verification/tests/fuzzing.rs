use envq::fuzzing::{
    diff_case_from_input, document_bytes_from_input, edit_case_from_input, json_input,
    run_diff_bytes, run_edit_set_unset_bytes, run_parse_roundtrip_bytes, truncate_slice,
    truncate_vec, unified_diff, DiffCase, DocumentCase, EditCase, EditOperation,
};

#[test]
fn truncation_keeps_a_prefix() {
    assert_eq!(truncate_vec(b"abcdef".to_vec(), 3), b"abc");
    assert_eq!(truncate_vec(b"ab".to_vec(), 3), b"ab");
    assert_eq!(truncate_slice(b"abcdef", 4), b"abcd");
    assert_eq!(truncate_slice(b"", 4), b"");
    assert_eq!(json_input(&[b'x'; 9000]).len(), 8192);
}

#[test]
fn cases_come_from_json_or_raw_input() {
    assert_eq!(document_bytes_from_input(b"A=1\n", None), b"A=1\n");
    assert_eq!(
        document_bytes_from_input(b"{}", Some(DocumentCase { document: b"B=2\n".to_vec() })),
        b"B=2\n"
    );
    assert_eq!(document_bytes_from_input(&[b'a'; 5000], None).len(), 4096);

    let raw = edit_case_from_input(&[b'v'; 600], None);
    assert_eq!(raw.document.len(), 600);
    assert_eq!(raw.value.len(), 512);
    assert_eq!(raw.operation, EditOperation::SetValue);

    let split = diff_case_from_input(b"abcdef", None);
    assert_eq!(split.before, b"abc");
    assert_eq!(split.after, b"def");
    let given = diff_case_from_input(b"", Some(DiffCase { before: b"x".to_vec(), after: b"y".to_vec() }));
    assert_eq!((given.before, given.after), (b"x".to_vec(), b"y".to_vec()));
}

#[test]
fn harness_properties_hold() {
    assert!(run_parse_roundtrip_bytes(b"A=1\r\nB='x\n\xff", None));
    for operation in [
        EditOperation::SetValue,
        EditOperation::Clear,
        EditOperation::Unset,
        EditOperation::SetThenUnset,
    ] {
        let case = EditCase { document: b"FUZZ_KEY=1\nA=2".to_vec(), value: b"a b#\"\\".to_vec(), operation };
        assert!(run_edit_set_unset_bytes(b"", Some(case)));
    }
    assert!(run_diff_bytes(b"A=1\nB=2\nA=3\nB=4\n", None));
}

#[test]
fn fuzzing_diff_wrapper_delegates_to_internal_diff() {
    assert_eq!(
        unified_diff(b"x.env", b"A=1\n", b"A=2\n"),
        envq::diff::unified_diff("x.env", b"A=1\n", b"A=2\n")
    );
}
