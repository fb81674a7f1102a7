use envq::diff::{
    format_range_unified, grouped_opcodes, intern_line, opcodes_with_limits, push_opcode,
    split_lines_keepends, unified_diff, whole_file_opcodes, Opcode, Tag,
};

#[test]
fn emits_no_output_for_identical_inputs() {
    assert_eq!(unified_diff("x.env", b"A=1\n", b"A=1\n"), b"");
}

#[test]
fn matches_fixture_shape_for_single_line_diff() {
    assert_eq!(
        unified_diff("x.env", b"A=1\n", b"A=2\n"),
        b"--- x.env (before)\n+++ x.env (after)\n@@ -1 +1 @@\n-A=1\n+A=2\n"
    );
}

#[test]
fn preserves_missing_final_newline_shape() {
    assert_eq!(
        unified_diff("x.env", b"A=1", b"A=2"),
        b"--- x.env (before)\n+++ x.env (after)\n@@ -1 +1 @@\n-A=1+A=2"
    );
}

#[test]
fn splits_distant_changes_into_multiple_hunks() {
    assert_eq!(
        unified_diff(
            "x.env",
            b"A=1\nB=2\nC=3\nD=4\nE=5\nF=6\nG=7\nH=8\nI=9\n",
            b"A=x\nB=2\nC=3\nD=4\nE=5\nF=6\nG=7\nH=8\nI=x\n",
        ),
        b"--- x.env (before)\n+++ x.env (after)\n@@ -1,4 +1,4 @@\n-A=1\n+A=x\n B=2\n C=3\n D=4\n@@ -6,4 +6,4 @@\n F=6\n G=7\n H=8\n-I=9\n+I=x\n"
    );
}

#[test]
fn formats_pure_insertions_with_zero_length_before_range() {
    assert_eq!(
        unified_diff("x.env", b"", b"A=1\n"),
        b"--- x.env (before)\n+++ x.env (after)\n@@ -0,0 +1 @@\n+A=1\n"
    );
}

#[test]
fn context_reaching_file_start_has_correct_hunk_header() {
    assert_eq!(
        unified_diff("x.env", b"A=1\nB=2\nC=3\nD=4\nE=5\n", b"A=1\nB=x\nC=3\nD=4\nE=5\n"),
        b"--- x.env (before)\n+++ x.env (after)\n@@ -1,5 +1,5 @@\n A=1\n-B=2\n+B=x\n C=3\n D=4\n E=5\n"
    );
}

#[test]
fn large_line_count_diff_stays_small() {
    let mut before = Vec::new();
    let mut after = Vec::new();
    for index in 0..12_000 {
        before.extend(format!("KEY_{index}=same\n").as_bytes());
        if index == 11_000 {
            after.extend(format!("KEY_{index}=changed\n").as_bytes());
        } else {
            after.extend(format!("KEY_{index}=same\n").as_bytes());
        }
    }

    let output = unified_diff("x.env", &before, &after);
    assert!(output.len() < 512, "{}", String::from_utf8_lossy(&output));
    assert!(output.windows(b"-KEY_11000=same\n".len()).any(|window| window == b"-KEY_11000=same\n"));
    assert!(
        output.windows(b"+KEY_11000=changed\n".len()).any(|window| window == b"+KEY_11000=changed\n")
    );
}

#[test]
fn grouping_empty_opcodes_is_empty() {
    assert!(grouped_opcodes(&[], 3).is_empty());
}

#[test]
fn grouping_keeps_equal_only_opcodes_out_of_output_groups() {
    let groups = grouped_opcodes(
        &[Opcode { tag: Tag::Equal, a_start: 0, a_end: 1, b_start: 0, b_end: 1 }],
        3,
    );
    assert!(groups.is_empty());
}

#[test]
fn whole_file_fallback_opcodes_cover_empty_delete_insert_and_replace() {
    assert!(whole_file_opcodes(0, 0).is_empty());

    assert_eq!(
        whole_file_opcodes(2, 0),
        vec![Opcode { tag: Tag::Delete, a_start: 0, a_end: 2, b_start: 0, b_end: 0 }]
    );
    assert_eq!(
        whole_file_opcodes(0, 3),
        vec![Opcode { tag: Tag::Insert, a_start: 0, a_end: 0, b_start: 0, b_end: 3 }]
    );
    assert_eq!(
        whole_file_opcodes(2, 3),
        vec![
            Opcode { tag: Tag::Delete, a_start: 0, a_end: 2, b_start: 0, b_end: 0 },
            Opcode { tag: Tag::Insert, a_start: 2, a_end: 2, b_start: 0, b_end: 3 },
        ]
    );
}

#[test]
fn push_opcode_merges_adjacent_spans_with_the_same_tag() {
    let mut opcodes = Vec::new();

    push_opcode(&mut opcodes, Tag::Equal, 0, 1, 0, 1);
    push_opcode(&mut opcodes, Tag::Equal, 1, 3, 1, 3);
    push_opcode(&mut opcodes, Tag::Insert, 3, 3, 3, 4);

    assert_eq!(
        opcodes,
        vec![
            Opcode { tag: Tag::Equal, a_start: 0, a_end: 3, b_start: 0, b_end: 3 },
            Opcode { tag: Tag::Insert, a_start: 3, a_end: 3, b_start: 3, b_end: 4 },
        ]
    );
}

#[test]
fn intern_line_reuses_tokens_and_rejects_token_overflow() {
    let mut tokens = Vec::new();
    let mut next_token = 0;

    assert_eq!(intern_line(b"A=1\n", &mut tokens, &mut next_token, i32::MAX as u32), Some(0));
    assert_eq!(intern_line(b"A=1\n", &mut tokens, &mut next_token, i32::MAX as u32), Some(0));
    assert_eq!(next_token, 1);

    next_token = i32::MAX as u32;
    assert_eq!(intern_line(b"B=2\n", &mut tokens, &mut next_token, i32::MAX as u32), None);
}

#[test]
fn opcodes_fall_back_to_whole_file_diff_when_imara_limits_are_exceeded() {
    let before = vec![b"A=1\n".to_vec()];
    let after = vec![b"B=2\n".to_vec()];

    assert_eq!(opcodes_with_limits(&before, &after, 1, i32::MAX as u32), whole_file_opcodes(1, 1));
    assert_eq!(
        opcodes_with_limits(&before, &after, i32::MAX as usize, 1),
        whole_file_opcodes(1, 1)
    );
}

#[test]
fn split_lines_keepends_handles_lf_crlf_bare_cr_and_unterminated_tail() {
    assert_eq!(
        split_lines_keepends(b"A=1\nB=2\r\nC=3\rD=4"),
        vec![b"A=1\n".to_vec(), b"B=2\r\n".to_vec(), b"C=3\r".to_vec(), b"D=4".to_vec()]
    );
}

#[test]
fn hunk_ranges_use_one_based_starts_and_counts() {
    assert_eq!(format_range_unified(0, 1), b"1");
    assert_eq!(format_range_unified(0, 0), b"0,0");
    assert_eq!(format_range_unified(5, 9), b"6,4");
    assert_eq!(format_range_unified(3, 3), b"3,0");
}

#[test]
fn engine_hunks_drive_the_spans() {
    let before = vec![b"A\n".to_vec(), b"B\n".to_vec(), b"C\n".to_vec()];
    let after = vec![b"A\n".to_vec(), b"X\n".to_vec(), b"C\n".to_vec(), b"D\n".to_vec()];
    let spans = opcodes_with_limits(&before, &after, i32::MAX as usize, i32::MAX as u32);
    assert_eq!(
        spans,
        vec![
            Opcode { tag: Tag::Equal, a_start: 0, a_end: 1, b_start: 0, b_end: 1 },
            Opcode { tag: Tag::Delete, a_start: 1, a_end: 2, b_start: 1, b_end: 1 },
            Opcode { tag: Tag::Insert, a_start: 2, a_end: 2, b_start: 1, b_end: 2 },
            Opcode { tag: Tag::Equal, a_start: 2, a_end: 3, b_start: 2, b_end: 3 },
            Opcode { tag: Tag::Insert, a_start: 3, a_end: 3, b_start: 3, b_end: 4 },
        ]
    );
}

#[test]
fn diff_size_is_linear_in_the_inputs() {
    // One-byte lines that all change: the densest output per input byte.
    let before: Vec<u8> = b"a\n".repeat(2048);
    let after: Vec<u8> = b"b\n".repeat(2048);
    let output = unified_diff("x.env", &before, &after);
    assert!(!output.is_empty());
    assert!(output.len() <= 8 * 5 + 108 + 70 * (before.len() + after.len()));
    // Changes spread out with long unchanged stretches give one hunk each.
    let mut spread_before = Vec::new();
    let mut spread_after = Vec::new();
    for i in 0..400 {
        spread_before.extend_from_slice(b"k\n");
        spread_after.extend_from_slice(if i % 8 == 0 { b"x\n" } else { b"k\n" });
    }
    let spread = unified_diff("x.env", &spread_before, &spread_after);
    assert!(spread.len() <= 8 * 5 + 108 + 70 * (spread_before.len() + spread_after.len()));
}

fn rebuild(ops: &[Opcode], before: &[Vec<u8>], after: &[Vec<u8>]) -> Vec<Vec<u8>> {
    let mut out = Vec::new();
    for op in ops {
        match op.tag {
            Tag::Equal => out.extend_from_slice(&before[op.a_start..op.a_end]),
            Tag::Delete => {}
            Tag::Insert => out.extend_from_slice(&after[op.b_start..op.b_end]),
        }
    }
    out
}

#[test]
fn spans_rebuild_the_new_lines() {
    let before = split_lines_keepends(b"A=1\nB=2\nC=3\nD=4\nE=5\nF=6\nG=7\nH=8\n");
    let after = split_lines_keepends(b"A=1\nB=x\nC=3\nD=4\nE=5\nF=6\nNEW=1\nG=7\nH=8");
    let ops = envq::diff::opcodes(&before, &after);
    assert_eq!(rebuild(&ops, &before, &after), after);
    let empty: Vec<Vec<u8>> = Vec::new();
    assert_eq!(rebuild(&envq::diff::opcodes(&empty, &after), &empty, &after), after);
    assert_eq!(rebuild(&envq::diff::opcodes(&before, &empty), &before, &empty), empty);
}

fn apply_unified_diff(old: &[u8], diff: &[u8]) -> Vec<u8> {
    let old_lines = split_lines_keepends(old);
    let diff_lines = split_lines_keepends(diff);
    let mut out: Vec<u8> = Vec::new();
    let mut next_old = 0usize;
    let mut i = 2;
    while i < diff_lines.len() {
        let header = String::from_utf8(diff_lines[i].clone()).unwrap();
        assert!(header.starts_with("@@ -"));
        let old_range = header[4..].split(' ').next().unwrap();
        let mut parts = old_range.split(',');
        let start: usize = parts.next().unwrap().parse().unwrap();
        let length: usize = parts.next().map(|l| l.parse().unwrap()).unwrap_or(1);
        let first = if length == 0 { start } else { start - 1 };
        for line in &old_lines[next_old..first] {
            out.extend_from_slice(line);
        }
        next_old = first;
        i += 1;
        while i < diff_lines.len() && !diff_lines[i].starts_with(b"@@ ") {
            let line = &diff_lines[i];
            match line[0] {
                b' ' => {
                    assert_eq!(&line[1..], &old_lines[next_old][..]);
                    out.extend_from_slice(&line[1..]);
                    next_old += 1;
                }
                b'-' => {
                    assert_eq!(&line[1..], &old_lines[next_old][..]);
                    next_old += 1;
                }
                b'+' => out.extend_from_slice(&line[1..]),
                _ => panic!("unexpected diff line"),
            }
            i += 1;
        }
    }
    for line in &old_lines[next_old..] {
        out.extend_from_slice(line);
    }
    out
}

#[test]
fn applying_the_printed_hunks_gives_the_new_text() {
    let before: &[u8] = b"A=1\nB=2\nC=3\nD=4\nE=5\nF=6\nG=7\nH=8\nI=9\nJ=10\nK=11\nL=12\n";
    let after: &[u8] = b"A=1\nB=two\nC=3\nD=4\nE=5\nF=6\nG=7\nH=8\nI=9\nJ=10\nX=new\nK=11\n";
    let diff = unified_diff("x.env", before, after);
    assert_eq!(diff.windows(2).filter(|w| w == b"@@").count(), 4);
    assert_eq!(apply_unified_diff(before, &diff), after);
    let emptied = unified_diff("x.env", before, b"");
    assert_eq!(apply_unified_diff(before, &emptied), b"");
    let filled = unified_diff("x.env", b"", after);
    assert_eq!(apply_unified_diff(b"", &filled), after);
}
