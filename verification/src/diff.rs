//! Small unified-diff implementation matching envq's fixture shape.
//!
//! The output is byte-oriented and intentionally omits a "no newline at EOF"
//! marker. Line matching is computed by `imara-diff`'s Myers algorithm.
use vstd::prelude::*;

use crate::bytes::{bytes_eq, copy_range, extend_bytes};
use crate::decimal::{decimal, usize_decimal};
use crate::diagnostics::{push_str, str_bytes};
use crate::diff_size::{
    groups_end_a, groups_end_b, groups_ordered, lemma_groups_text_len, lemma_keepends_len,
    lemma_lines_len_split, lemma_str_bytes_len, span_nonempty,
};
use crate::diff_apply::{lemma_grouped_patched, patched};
use crate::parser::newline::{
    join_segments, lemma_line_end, lemma_split_join, line_end, physical_lines, split_from,
    terminator_at,
};

use imara_diff::{Algorithm, Diff, Token};

verus! {

/// Token-sequence limit of the diff engine: it supports fewer than `i32::MAX` tokens per side.
pub const MAX_IMARA_SEQUENCE_LEN: usize = 2147483647;

/// Token-count limit of the diff engine.
pub const MAX_IMARA_TOKEN_COUNT: u32 = 2147483647;

/// Kind of a diff span.
#[derive(Clone, Copy, Debug, PartialEq, Eq, Structural)]
pub enum Tag {
    /// Lines present on both sides.
    Equal,
    /// Lines only in the old text.
    Delete,
    /// Lines only in the new text.
    Insert,
}

/// One span of a diff: `a` indexes old lines, `b` new lines.
#[derive(Clone, Copy, Debug, PartialEq, Eq, Structural)]
pub struct Opcode {
    /// Kind of span.
    pub tag: Tag,
    /// First old line.
    pub a_start: usize,
    /// One past the last old line.
    pub a_end: usize,
    /// First new line.
    pub b_start: usize,
    /// One past the last new line.
    pub b_end: usize,
}

/// A changed region reported by the diff engine: old lines
/// `before_start..before_end` were replaced by new lines `after_start..after_end`.
pub type DiffHunk = (u32, u32, u32, u32);

/// The hunks that the engine's Myers diff reports for two token sequences.
pub uninterp spec fn myers_hunks(before: Seq<u32>, after: Seq<u32>, num_tokens: u32) -> Seq<DiffHunk>;

/// Shape of an engine result: hunks are non-empty, lie within both sides,
/// strictly increase, and the unchanged stretches between them (and before the
/// first and after the last) have the same length on both sides.
pub open spec fn hunks_well_formed(h: Seq<DiffHunk>, blen: int, alen: int) -> bool {
    &&& forall|i: int|
        0 <= i < h.len() ==> (#[trigger] h[i]).0 <= h[i].1 && h[i].2 <= h[i].3 && (h[i].0 < h[i].1
            || h[i].2 < h[i].3)
    &&& forall|i: int|
        0 < i < h.len() ==> h[i - 1].1 < (#[trigger] h[i]).0 && h[i - 1].3 < h[i].2 && h[i].0
            - h[i - 1].1 == h[i].2 - h[i - 1].3
    &&& (h.len() > 0 ==> h[0].0 == h[0].2 && h.last().1 <= blen && h.last().3 <= alen && blen
        - h.last().1 == alen - h.last().3)
    &&& (h.len() == 0 ==> blen == alen)
}

/// Wraps `imara_diff::Diff::compute_with` with `Algorithm::Myers` followed by
/// `Diff::hunks`. The hunks are named by `myers_hunks` of the token sequences.
/// The shape stated by `hunks_well_formed` is what `HunkIter`'s documentation
/// (monotonically increasing hunks) and its code (both positions advance
/// together over unchanged tokens, and a hunk is emitted only for a non-empty
/// change) show, for an edit script that transforms `before` into `after`.
/// Outside the hunks the two sides hold equal tokens, as `hunks_match` says:
/// the engine marks as unchanged only tokens of the Myers alignment, which
/// pairs equal tokens in order, and strips only a common prefix and suffix.
/// `compute_with` asserts that each side has fewer than `i32::MAX` tokens.
#[verifier::external_body]
fn myers_diff_hunks(before: &Vec<u32>, after: &Vec<u32>, num_tokens: u32) -> (r: Vec<DiffHunk>)
    requires
        before@.len() < MAX_IMARA_SEQUENCE_LEN,
        after@.len() < MAX_IMARA_SEQUENCE_LEN,
    ensures
        r@ == myers_hunks(before@, after@, num_tokens),
        hunks_well_formed(r@, before@.len() as int, after@.len() as int),
        hunks_match(r@, before@, after@),
{
    let before: Vec<Token> = before.iter().map(|t| Token(*t)).collect();
    let after: Vec<Token> = after.iter().map(|t| Token(*t)).collect();
    let mut diff = Diff::default();
    diff.compute_with(Algorithm::Myers, &before, &after, num_tokens);
    diff.hunks().map(|h| (h.before.start, h.before.end, h.after.start, h.after.end)).collect()
}

// ---------------------------------------------------------------------------
// Lines with their terminators.

/// The lines of `t`, each with its terminator attached.
pub open spec fn keepends_lines(t: Seq<u8>) -> Seq<Seq<u8>> {
    physical_lines(t).map_values(|s: (Seq<u8>, Seq<u8>)| s.0 + s.1)
}

proof fn lemma_segments_flatten(segs: Seq<(Seq<u8>, Seq<u8>)>)
    ensures
        segs.map_values(|s: (Seq<u8>, Seq<u8>)| s.0 + s.1).flatten() == join_segments(segs),
    decreases segs.len(),
{
    if segs.len() > 0 {
        lemma_segments_flatten(segs.drop_first());
        let m = segs.map_values(|s: (Seq<u8>, Seq<u8>)| s.0 + s.1);
        assert(m.drop_first() =~= segs.drop_first().map_values(
            |s: (Seq<u8>, Seq<u8>)| s.0 + s.1,
        ));
    }
}

/// The lines of a text, each with its terminator, joined again give back the text.
pub proof fn lemma_keepends_rejoin(t: Seq<u8>)
    ensures
        keepends_lines(t).flatten() == t,
{
    lemma_segments_flatten(physical_lines(t));
    lemma_split_join(t, 0);
    assert(t.subrange(0, t.len() as int) =~= t);
}

/// The view of a list of lines.
pub open spec fn lines_of(v: Seq<Vec<u8>>) -> Seq<Seq<u8>> {
    v.map_values(|l: Vec<u8>| l@)
}

/// Splits text into lines, keeping LF, CRLF and bare CR endings attached.
pub fn split_lines_keepends(text: &[u8]) -> (r: Vec<Vec<u8>>)
    ensures
        lines_of(r@) == keepends_lines(text@),
{
    let mut lines: Vec<Vec<u8>> = Vec::new();
    let mut start: usize = 0;
    let mut index: usize = 0;
    let ghost t = text@;
    while index < text.len()
        invariant
            t == text@,
            start <= index <= t.len(),
            line_end(t, start as int) == line_end(t, index as int),
            lines_of(lines@) + split_from(t, start as int).map_values(
                |s: (Seq<u8>, Seq<u8>)| s.0 + s.1,
            ) == keepends_lines(t),
        decreases t.len() - index,
    {
        let byte = text[index];
        if byte == 13 || byte == 10 {
            let next: usize = if byte == 13 && index + 1 < text.len() && text[index + 1] == 10 {
                index + 2
            } else {
                index + 1
            };
            let line = copy_range(text, start, next);
            proof {
                let nl = terminator_at(t, index as int);
                assert(nl.len() == next - index);
                assert(nl =~= t.subrange(index as int, next as int));
                assert(split_from(t, start as int) =~= seq![(t.subrange(start as int, index as int), nl)]
                    + split_from(t, next as int));
                assert(line@ =~= t.subrange(start as int, index as int) + nl);
            }
            let ghost old_lines = lines@;
            lines.push(line);
            proof {
                let f = |s: (Seq<u8>, Seq<u8>)| s.0 + s.1;
                assert(lines_of(lines@) =~= lines_of(old_lines).push(line@));
                assert(split_from(t, start as int).map_values(f) =~= seq![line@] + split_from(
                    t,
                    next as int,
                ).map_values(f));
                assert(lines_of(lines@) + split_from(t, next as int).map_values(f) =~= lines_of(
                    old_lines,
                ) + split_from(t, start as int).map_values(f));
            }
            start = next;
            index = next;
        } else {
            index = index + 1;
        }
    }
    if start < text.len() {
        let line = copy_range(text, start, text.len());
        proof {
            let f = |s: (Seq<u8>, Seq<u8>)| s.0 + s.1;
            assert(split_from(t, start as int) =~= seq![(line@, Seq::<u8>::empty())]);
            assert(split_from(t, start as int).map_values(f) =~= seq![line@]);
            assert(line@ + Seq::<u8>::empty() =~= line@);
        }
        let ghost old_lines = lines@;
        lines.push(line);
        proof {
            assert(lines_of(lines@) =~= lines_of(old_lines).push(line@));
        }
    } else {
        proof {
            let f = |s: (Seq<u8>, Seq<u8>)| s.0 + s.1;
            assert(split_from(t, start as int).map_values(f) =~= Seq::<Seq<u8>>::empty());
            assert(lines_of(lines@) =~= lines_of(lines@) + Seq::<Seq<u8>>::empty());
        }
    }
    lines
}

// ---------------------------------------------------------------------------
// Opcodes.

/// An opcode that lies within `blen` old and `alen` new lines and, when equal,
/// spans the same number of lines on both sides.
pub open spec fn opcode_ok(op: Opcode, blen: int, alen: int) -> bool {
    &&& op.a_start <= op.a_end <= blen
    &&& op.b_start <= op.b_end <= alen
    &&& (op.tag == Tag::Equal ==> op.a_end - op.a_start == op.b_end - op.b_start)
}

pub open spec fn opcodes_ok(ops: Seq<Opcode>, blen: int, alen: int) -> bool {
    forall|i: int| 0 <= i < ops.len() ==> opcode_ok(#[trigger] ops[i], blen, alen)
}

pub open spec fn mk_op(tag: Tag, a_start: int, a_end: int, b_start: int, b_end: int) -> Opcode {
    Opcode {
        tag,
        a_start: a_start as usize,
        a_end: a_end as usize,
        b_start: b_start as usize,
        b_end: b_end as usize,
    }
}

/// Appending a span: it extends the last span when that one has the same tag
/// and ends where the new one starts.
pub open spec fn push_spec(codes: Seq<Opcode>, op: Opcode) -> Seq<Opcode> {
    if codes.len() > 0 && codes.last().tag == op.tag && codes.last().a_end == op.a_start
        && codes.last().b_end == op.b_start {
        codes.update(codes.len() - 1, Opcode { a_end: op.a_end, b_end: op.b_end, ..codes.last() })
    } else {
        codes.push(op)
    }
}

proof fn lemma_push_ok(codes: Seq<Opcode>, op: Opcode, blen: int, alen: int)
    requires
        opcodes_ok(codes, blen, alen),
        opcode_ok(op, blen, alen),
    ensures
        opcodes_ok(push_spec(codes, op), blen, alen),
{
    let r = push_spec(codes, op);
    assert forall|i: int| 0 <= i < r.len() implies opcode_ok(#[trigger] r[i], blen, alen) by {
        if i < codes.len() - 1 || !(codes.len() > 0 && codes.last().tag == op.tag
            && codes.last().a_end == op.a_start && codes.last().b_end == op.b_start) {
            if i < codes.len() {
                assert(r[i] == codes[i]);
            }
        } else {
            assert(opcode_ok(codes[codes.len() - 1], blen, alen));
        }
    }
}

/// Appends a span, merging it into the last span when they are adjacent with the same tag.
pub fn push_opcode(
    codes: &mut Vec<Opcode>,
    tag: Tag,
    a_start: usize,
    a_end: usize,
    b_start: usize,
    b_end: usize,
)
    ensures
        final(codes)@ == push_spec(
            old(codes)@,
            Opcode { tag, a_start, a_end, b_start, b_end },
        ),
{
    let n = codes.len();
    if n > 0 {
        let last = codes[n - 1];
        if last.tag == tag && last.a_end == a_start && last.b_end == b_start {
            codes.set(n - 1, Opcode { a_end, b_end, ..last });
            return ;
        }
    }
    codes.push(Opcode { tag, a_start, a_end, b_start, b_end });
}

/// The spans that delete every old line and insert every new line.
pub open spec fn whole_file_spec(before_len: usize, after_len: usize) -> Seq<Opcode> {
    let d = if before_len > 0 {
        seq![Opcode { tag: Tag::Delete, a_start: 0, a_end: before_len, b_start: 0, b_end: 0 }]
    } else {
        Seq::empty()
    };
    if after_len > 0 {
        d.push(
            Opcode {
                tag: Tag::Insert,
                a_start: before_len,
                a_end: before_len,
                b_start: 0,
                b_end: after_len,
            },
        )
    } else {
        d
    }
}

/// Spans for a whole-file replacement, used when the diff engine cannot run.
pub fn whole_file_opcodes(before_len: usize, after_len: usize) -> (r: Vec<Opcode>)
    ensures
        r@ == whole_file_spec(before_len, after_len),
        opcodes_ok(r@, before_len as int, after_len as int),
{
    let mut codes: Vec<Opcode> = Vec::new();
    if before_len > 0 {
        push_opcode(&mut codes, Tag::Delete, 0, before_len, 0, 0);
    }
    if after_len > 0 {
        push_opcode(&mut codes, Tag::Insert, before_len, before_len, 0, after_len);
    }
    proof {
        assert(codes@ =~= whole_file_spec(before_len, after_len));
    }
    codes
}

/// State after folding hunks: spans so far and the old/new positions reached.
pub open spec fn hunk_step(state: (Seq<Opcode>, int, int), h: DiffHunk) -> (Seq<Opcode>, int, int) {
    let (codes, bi, ai) = state;
    let (a_start, a_end, b_start, b_end) = (h.0 as int, h.1 as int, h.2 as int, h.3 as int);
    let c1 = if bi < a_start || ai < b_start {
        push_spec(codes, mk_op(Tag::Equal, bi, a_start, ai, b_start))
    } else {
        codes
    };
    let c2 = if a_start < a_end {
        push_spec(c1, mk_op(Tag::Delete, a_start, a_end, b_start, b_start))
    } else {
        c1
    };
    let c3 = if b_start < b_end {
        push_spec(c2, mk_op(Tag::Insert, a_end, a_end, b_start, b_end))
    } else {
        c2
    };
    (c3, a_end, b_end)
}

pub open spec fn hunk_fold(hunks: Seq<DiffHunk>) -> (Seq<Opcode>, int, int)
    decreases hunks.len(),
{
    if hunks.len() == 0 {
        (Seq::empty(), 0, 0)
    } else {
        hunk_step(hunk_fold(hunks.drop_last()), hunks.last())
    }
}

/// The spans described by the engine's hunks: unchanged stretches between
/// them become equal spans, each hunk a deletion and/or an insertion.
pub open spec fn opcodes_from_hunks_spec(hunks: Seq<DiffHunk>, before_len: usize, after_len: usize) -> Seq<Opcode> {
    let (codes, bi, ai) = hunk_fold(hunks);
    if bi < before_len || ai < after_len {
        push_spec(codes, mk_op(Tag::Equal, bi, before_len as int, ai, after_len as int))
    } else {
        codes
    }
}

proof fn lemma_hunk_fold_ok(hunks: Seq<DiffHunk>, blen: int, alen: int)
    requires
        hunks_well_formed(hunks, blen, alen),
    ensures
        opcodes_ok(hunk_fold(hunks).0, blen, alen),
        hunks.len() == 0 ==> hunk_fold(hunks).1 == 0 && hunk_fold(hunks).2 == 0,
        hunks.len() > 0 ==> hunk_fold(hunks).1 == hunks.last().1 && hunk_fold(hunks).2
            == hunks.last().3,
    decreases hunks.len(),
{
    if hunks.len() > 0 {
        lemma_hunk_fold_ok_prefix(hunks, blen, alen);
    }
}

proof fn lemma_hunk_fold_ok_prefix(hunks: Seq<DiffHunk>, blen: int, alen: int)
    requires
        hunks_well_formed(hunks, blen, alen),
        hunks.len() > 0,
    ensures
        opcodes_ok(hunk_fold(hunks).0, blen, alen),
        hunk_fold(hunks).1 == hunks.last().1 && hunk_fold(hunks).2 == hunks.last().3,
{
    lemma_hunk_fold_inner(hunks, hunks.len() as int, blen, alen);
    assert(hunks.subrange(0, hunks.len() as int) =~= hunks);
}

/// Folding the first `n` hunks stays within bounds.
proof fn lemma_hunk_fold_inner(hunks: Seq<DiffHunk>, n: int, blen: int, alen: int)
    requires
        hunks_well_formed(hunks, blen, alen),
        0 <= n <= hunks.len(),
    ensures
        opcodes_ok(hunk_fold(hunks.subrange(0, n)).0, blen, alen),
        n == 0 ==> hunk_fold(hunks.subrange(0, n)).1 == 0 && hunk_fold(hunks.subrange(0, n)).2 == 0,
        n > 0 ==> hunk_fold(hunks.subrange(0, n)).1 == hunks[n - 1].1 && hunk_fold(
            hunks.subrange(0, n),
        ).2 == hunks[n - 1].3,
    decreases n,
{
    let pre = hunks.subrange(0, n);
    if n > 0 {
        lemma_hunk_fold_inner(hunks, n - 1, blen, alen);
        assert(pre.drop_last() =~= hunks.subrange(0, n - 1));
        let state = hunk_fold(hunks.subrange(0, n - 1));
        let h = hunks[n - 1];
        let (codes, bi, ai) = state;
        // Bounds of this hunk: each hunk lies below the last one's end.
        lemma_hunk_below_last(hunks, n - 1, blen, alen);
        let (a_start, a_end, b_start, b_end) = (h.0 as int, h.1 as int, h.2 as int, h.3 as int);
        let c1 = if bi < a_start || ai < b_start {
            push_spec(codes, mk_op(Tag::Equal, bi, a_start, ai, b_start))
        } else {
            codes
        };
        if bi < a_start || ai < b_start {
            lemma_push_ok(codes, mk_op(Tag::Equal, bi, a_start, ai, b_start), blen, alen);
        }
        let c2 = if a_start < a_end {
            push_spec(c1, mk_op(Tag::Delete, a_start, a_end, b_start, b_start))
        } else {
            c1
        };
        if a_start < a_end {
            lemma_push_ok(c1, mk_op(Tag::Delete, a_start, a_end, b_start, b_start), blen, alen);
        }
        if b_start < b_end {
            lemma_push_ok(c2, mk_op(Tag::Insert, a_end, a_end, b_start, b_end), blen, alen);
        }
    } else {
        assert(pre =~= Seq::<DiffHunk>::empty());
    }
}

proof fn lemma_hunk_below_last(hunks: Seq<DiffHunk>, i: int, blen: int, alen: int)
    requires
        hunks_well_formed(hunks, blen, alen),
        0 <= i < hunks.len(),
    ensures
        hunks[i].1 <= blen,
        hunks[i].3 <= alen,
    decreases hunks.len() - i,
{
    if i < hunks.len() - 1 {
        lemma_hunk_below_last(hunks, i + 1, blen, alen);
        assert(hunks[i].1 < hunks[i + 1].0);
        assert(hunks[i].3 < hunks[i + 1].2);
    }
}

/// Builds spans from the engine's hunks.
pub fn opcodes_from_hunks(hunks: &Vec<DiffHunk>, before_len: usize, after_len: usize) -> (r: Vec<Opcode>)
    ensures
        r@ == opcodes_from_hunks_spec(hunks@, before_len, after_len),
        hunks_well_formed(hunks@, before_len as int, after_len as int) ==> opcodes_ok(
            r@,
            before_len as int,
            after_len as int,
        ),
{
    let mut codes: Vec<Opcode> = Vec::new();
    let mut before_index: usize = 0;
    let mut after_index: usize = 0;
    let mut i: usize = 0;
    while i < hunks.len()
        invariant
            i <= hunks@.len(),
            hunk_fold(hunks@.subrange(0, i as int)) == (codes@, before_index as int, after_index as int),
        decreases hunks.len() - i,
    {
        let hunk = hunks[i];
        let a_start = hunk.0 as usize;
        let a_end = hunk.1 as usize;
        let b_start = hunk.2 as usize;
        let b_end = hunk.3 as usize;
        proof {
            assert(hunks@.subrange(0, i + 1).drop_last() =~= hunks@.subrange(0, i as int));
        }
        if before_index < a_start || after_index < b_start {
            push_opcode(&mut codes, Tag::Equal, before_index, a_start, after_index, b_start);
        }
        if a_start < a_end {
            push_opcode(&mut codes, Tag::Delete, a_start, a_end, b_start, b_start);
        }
        if b_start < b_end {
            push_opcode(&mut codes, Tag::Insert, a_end, a_end, b_start, b_end);
        }
        before_index = a_end;
        after_index = b_end;
        i = i + 1;
    }
    proof {
        assert(hunks@.subrange(0, i as int) =~= hunks@);
    }
    if before_index < before_len || after_index < after_len {
        push_opcode(&mut codes, Tag::Equal, before_index, before_len, after_index, after_len);
    }
    proof {
        if hunks_well_formed(hunks@, before_len as int, after_len as int) {
            lemma_hunk_fold_ok(hunks@, before_len as int, after_len as int);
            let (c, bi, ai) = hunk_fold(hunks@);
            if bi < before_len || ai < after_len {
                lemma_push_ok(
                    c,
                    mk_op(Tag::Equal, bi, before_len as int, ai, after_len as int),
                    before_len as int,
                    after_len as int,
                );
            }
        }
    }
    codes
}


/// Each span begins where the previous one ends, on both sides.
pub open spec fn contiguous(ops: Seq<Opcode>) -> bool {
    forall|i: int| 0 <= i < ops.len() - 1 ==> #[trigger] link(ops, i)
}

/// Span `i` ends where span `i + 1` begins.
pub open spec fn link(ops: Seq<Opcode>, i: int) -> bool {
    ops[i].a_end == ops[i + 1].a_start && ops[i].b_end == ops[i + 1].b_start
}

proof fn lemma_push_contiguous(codes: Seq<Opcode>, op: Opcode)
    requires
        contiguous(codes),
        codes.len() > 0 ==> codes.last().a_end == op.a_start && codes.last().b_end == op.b_start,
    ensures
        contiguous(push_spec(codes, op)),
        push_spec(codes, op).len() > 0,
        push_spec(codes, op).last().a_end == op.a_end,
        push_spec(codes, op).last().b_end == op.b_end,
{
    let r = push_spec(codes, op);
    assert forall|i: int| 0 <= i < r.len() - 1 implies #[trigger] link(r, i) by {
        assert(r[i] == codes[i]);
        if i + 1 < codes.len() {
            assert(link(codes, i));
            assert(r[i + 1].a_start == codes[i + 1].a_start);
            assert(r[i + 1].b_start == codes[i + 1].b_start);
        }
    }
}

/// Folding hunks yields contiguous spans ending at the position reached.
proof fn lemma_hunk_fold_contiguous(hunks: Seq<DiffHunk>, n: int, blen: int, alen: int)
    requires
        hunks_well_formed(hunks, blen, alen),
        0 <= n <= hunks.len(),
    ensures
        contiguous(hunk_fold(hunks.subrange(0, n)).0),
        hunk_fold(hunks.subrange(0, n)).0.len() > 0 ==> hunk_fold(hunks.subrange(0, n)).0.last().a_end
            == hunk_fold(hunks.subrange(0, n)).1 && hunk_fold(hunks.subrange(0, n)).0.last().b_end
            == hunk_fold(hunks.subrange(0, n)).2,
        hunk_fold(hunks.subrange(0, n)).0.len() > 0 ==> hunk_fold(hunks.subrange(0, n)).0[0].a_start
            == 0 && hunk_fold(hunks.subrange(0, n)).0[0].b_start == 0,
        n == 0 ==> hunk_fold(hunks.subrange(0, n)).1 == 0 && hunk_fold(hunks.subrange(0, n)).2 == 0,
        n > 0 ==> hunk_fold(hunks.subrange(0, n)).1 == hunks[n - 1].1 && hunk_fold(
            hunks.subrange(0, n),
        ).2 == hunks[n - 1].3,
        n > 0 ==> hunk_fold(hunks.subrange(0, n)).0.len() > 0,
    decreases n,
{
    let pre = hunks.subrange(0, n);
    if n > 0 {
        lemma_hunk_fold_contiguous(hunks, n - 1, blen, alen);
        assert(pre.drop_last() =~= hunks.subrange(0, n - 1));
        let (codes, bi, ai) = hunk_fold(hunks.subrange(0, n - 1));
        let h = hunks[n - 1];
        let (a_start, a_end, b_start, b_end) = (h.0 as int, h.1 as int, h.2 as int, h.3 as int);
        lemma_hunk_below_last(hunks, n - 1, blen, alen);
        if n - 1 > 0 {
            assert(hunks[n - 2].1 < hunks[n - 1].0);
        }
        let e = mk_op(Tag::Equal, bi, a_start, ai, b_start);
        let c1 = if bi < a_start || ai < b_start { push_spec(codes, e) } else { codes };
        if bi < a_start || ai < b_start {
            lemma_push_contiguous(codes, e);
        }
        assert(c1.len() > 0 ==> c1.last().a_end == a_start && c1.last().b_end == b_start);
        assert(c1.len() > 0 ==> c1[0].a_start == 0 && c1[0].b_start == 0);
        let d = mk_op(Tag::Delete, a_start, a_end, b_start, b_start);
        let c2 = if a_start < a_end { push_spec(c1, d) } else { c1 };
        if a_start < a_end {
            lemma_push_contiguous(c1, d);
        }
        assert(c2.len() > 0 ==> c2.last().a_end == a_end && c2.last().b_end == b_start);
        assert(c2.len() > 0 ==> c2[0].a_start == 0 && c2[0].b_start == 0);
        let ins = mk_op(Tag::Insert, a_end, a_end, b_start, b_end);
        if b_start < b_end {
            lemma_push_contiguous(c2, ins);
        }
    } else {
        assert(pre =~= Seq::<DiffHunk>::empty());
    }
}

/// The spans built from well-formed hunks cover both sides contiguously.
pub proof fn lemma_opcodes_from_hunks_contiguous(hunks: Seq<DiffHunk>, before_len: usize, after_len: usize)
    requires
        hunks_well_formed(hunks, before_len as int, after_len as int),
    ensures
        contiguous(opcodes_from_hunks_spec(hunks, before_len, after_len)),
{
    lemma_hunk_fold_contiguous(hunks, hunks.len() as int, before_len as int, after_len as int);
    assert(hunks.subrange(0, hunks.len() as int) =~= hunks);
    let (c, bi, ai) = hunk_fold(hunks);
    if bi < before_len || ai < after_len {
        lemma_push_contiguous(c, mk_op(Tag::Equal, bi, before_len as int, ai, after_len as int));
    }
}

// ---------------------------------------------------------------------------
// Grouping spans into hunks with context.

/// The first span, when equal, keeps only its last `ctx` lines.
pub open spec fn trim_first(codes: Seq<Opcode>, ctx: usize) -> Seq<Opcode> {
    if codes.len() > 0 && codes[0].tag == Tag::Equal {
        let f = codes[0];
        let a0 = if f.a_end >= ctx { (f.a_end - ctx) as usize } else { 0usize };
        let b0 = if f.b_end >= ctx { (f.b_end - ctx) as usize } else { 0usize };
        codes.update(
            0,
            Opcode {
                a_start: if f.a_start >= a0 { f.a_start } else { a0 },
                b_start: if f.b_start >= b0 { f.b_start } else { b0 },
                ..f
            },
        )
    } else {
        codes
    }
}

/// The last span, when equal, keeps only its first `ctx` lines.
pub open spec fn trim_last(codes: Seq<Opcode>, ctx: usize) -> Seq<Opcode> {
    if codes.len() > 0 && codes.last().tag == Tag::Equal {
        let l = codes.last();
        codes.update(
            codes.len() - 1,
            Opcode {
                a_end: if l.a_end <= l.a_start + ctx { l.a_end } else { (l.a_start + ctx) as usize },
                b_end: if l.b_end <= l.b_start + ctx { l.b_end } else { (l.b_start + ctx) as usize },
                ..l
            },
        )
    } else {
        codes
    }
}

/// One grouping step: an equal span longer than twice the context closes the
/// current group after `ctx` lines and opens the next with its last `ctx` lines.
pub open spec fn group_step(state: (Seq<Seq<Opcode>>, Seq<Opcode>), code: Opcode, ctx: usize) -> (
    Seq<Seq<Opcode>>,
    Seq<Opcode>,
) {
    let (groups, group) = state;
    if code.tag == Tag::Equal && code.a_end - code.a_start > 2 * ctx {
        let head = Opcode {
            tag: Tag::Equal,
            a_start: code.a_start,
            a_end: (code.a_start + ctx) as usize,
            b_start: code.b_start,
            b_end: (code.b_start + ctx) as usize,
        };
        let tail = Opcode {
            a_start: (code.a_end - ctx) as usize,
            b_start: (code.b_end - ctx) as usize,
            ..code
        };
        (groups.push(group.push(head)), seq![tail])
    } else {
        (groups, group.push(code))
    }
}

pub open spec fn group_fold(codes: Seq<Opcode>, ctx: usize) -> (Seq<Seq<Opcode>>, Seq<Opcode>)
    decreases codes.len(),
{
    if codes.len() == 0 {
        (Seq::empty(), Seq::empty())
    } else {
        group_step(group_fold(codes.drop_last(), ctx), codes.last(), ctx)
    }
}

/// Whether a group holds a deletion or insertion.
pub open spec fn has_change(group: Seq<Opcode>) -> bool {
    exists|i: int| 0 <= i < group.len() && (#[trigger] group[i]).tag != Tag::Equal
}

/// The hunks of a diff: spans grouped with `ctx` lines of context.
pub open spec fn grouped_spec(opcodes: Seq<Opcode>, ctx: usize) -> Seq<Seq<Opcode>> {
    if opcodes.len() == 0 {
        Seq::empty()
    } else {
        let (groups, group) = group_fold(trim_last(trim_first(opcodes, ctx), ctx), ctx);
        if has_change(group) {
            groups.push(group)
        } else {
            groups
        }
    }
}

pub open spec fn groups_view(v: Seq<Vec<Opcode>>) -> Seq<Seq<Opcode>> {
    v.map_values(|g: Vec<Opcode>| g@)
}

/// Spans that the grouping can process without overflow: ordered on both sides,
/// equal spans of the same length on both sides, and room to add the context.
pub open spec fn groupable(ops: Seq<Opcode>, ctx: usize) -> bool {
    &&& opcodes_ok(ops, usize::MAX - ctx, usize::MAX - ctx)
    &&& ctx <= usize::MAX / 2
}

/// Splits spans into hunks, keeping `context` unchanged lines around each change.
pub fn grouped_opcodes(opcodes: &[Opcode], context: usize) -> (r: Vec<Vec<Opcode>>)
    requires
        groupable(opcodes@, context),
    ensures
        groups_view(r@) == grouped_spec(opcodes@, context),
{
    if opcodes.len() == 0 {
        let r: Vec<Vec<Opcode>> = Vec::new();
        assert(groups_view(r@) =~= Seq::<Seq<Opcode>>::empty());
        return r;
    }
    let mut codes: Vec<Opcode> = vstd::slice::slice_to_vec(opcodes);
    let first = codes[0];
    if first.tag == Tag::Equal {
        let a0 = first.a_end.saturating_sub(context);
        let b0 = first.b_end.saturating_sub(context);
        codes.set(
            0,
            Opcode {
                a_start: if first.a_start >= a0 { first.a_start } else { a0 },
                b_start: if first.b_start >= b0 { first.b_start } else { b0 },
                ..first
            },
        );
    }
    let ghost after_first = codes@;
    assert(after_first == trim_first(opcodes@, context));
    let n = codes.len();
    let last = codes[n - 1];
    proof {
        assert(opcode_ok(opcodes@[n - 1], usize::MAX - context, usize::MAX - context));
    }
    if last.tag == Tag::Equal {
        codes.set(
            n - 1,
            Opcode {
                a_end: if last.a_end <= last.a_start + context { last.a_end } else { last.a_start + context },
                b_end: if last.b_end <= last.b_start + context { last.b_end } else { last.b_start + context },
                ..last
            },
        );
    }
    let ghost trimmed = codes@;
    assert(trimmed == trim_last(trim_first(opcodes@, context), context));
    proof {
        lemma_trim_ok(opcodes@, context, (usize::MAX - context) as int, (usize::MAX - context) as int);
    }

    let mut groups: Vec<Vec<Opcode>> = Vec::new();
    let mut group: Vec<Opcode> = Vec::new();
    let split_context = context * 2;
    let mut i: usize = 0;
    while i < codes.len()
        invariant
            codes@ == trimmed,
            split_context == 2 * context,
            opcodes_ok(trimmed, usize::MAX - context, usize::MAX - context),
            i <= trimmed.len(),
            (groups_view(groups@), group@) == group_fold(trimmed.subrange(0, i as int), context),
        decreases codes.len() - i,
    {
        let code = codes[i];
        proof {
            assert(trimmed.subrange(0, i + 1).drop_last() =~= trimmed.subrange(0, i as int));
            assert(opcode_ok(trimmed[i as int], usize::MAX - context, usize::MAX - context));
        }
        // Large equal blocks split hunks while retaining context on both sides.
        if code.tag == Tag::Equal && code.a_end - code.a_start > split_context {
            group.push(
                Opcode {
                    tag: Tag::Equal,
                    a_start: code.a_start,
                    a_end: code.a_start + context,
                    b_start: code.b_start,
                    b_end: code.b_start + context,
                },
            );
            let ghost old_groups = groups@;
            let finished = group;
            groups.push(finished);
            group = Vec::new();
            group.push(Opcode { a_start: code.a_end - context, b_start: code.b_end - context, ..code });
            proof {
                assert(groups_view(groups@) =~= groups_view(old_groups).push(finished@));
            }
        } else {
            group.push(code);
        }
        i = i + 1;
    }
    proof {
        assert(trimmed.subrange(0, i as int) =~= trimmed);
    }
    let mut changed = false;
    let mut k: usize = 0;
    while k < group.len()
        invariant
            k <= group@.len(),
            changed == exists|j: int| 0 <= j < k && (#[trigger] group@[j]).tag != Tag::Equal,
        decreases group.len() - k,
    {
        if group[k].tag != Tag::Equal {
            changed = true;
        }
        proof {
            if group@[k as int].tag != Tag::Equal {
                assert(0 <= k < k + 1 && group@[k as int].tag != Tag::Equal);
            }
        }
        k = k + 1;
    }
    if changed {
        let ghost old_groups = groups@;
        let g = group;
        groups.push(g);
        proof {
            assert(groups_view(groups@) =~= groups_view(old_groups).push(g@));
        }
    }
    groups
}

pub proof fn lemma_trim_ok(ops: Seq<Opcode>, ctx: usize, blen: int, alen: int)
    requires
        opcodes_ok(ops, blen, alen),
        blen <= usize::MAX - ctx,
        alen <= usize::MAX - ctx,
    ensures
        opcodes_ok(trim_first(ops, ctx), blen, alen),
        opcodes_ok(trim_last(trim_first(ops, ctx), ctx), blen, alen),
        trim_last(trim_first(ops, ctx), ctx).len() == ops.len(),
        contiguous(ops) ==> contiguous(trim_last(trim_first(ops, ctx), ctx)),
{
    let t1 = trim_first(ops, ctx);
    assert forall|i: int| 0 <= i < t1.len() implies opcode_ok(#[trigger] t1[i], blen, alen) by {
        assert(opcode_ok(ops[i], blen, alen));
    }
    let t2 = trim_last(t1, ctx);
    assert forall|i: int| 0 <= i < t2.len() implies opcode_ok(#[trigger] t2[i], blen, alen) by {
        assert(opcode_ok(t1[i], blen, alen));
    }
    if contiguous(ops) {
        assert forall|i: int| 0 <= i < t2.len() - 1 implies #[trigger] link(t2, i) by {
            assert(link(ops, i));
        }
    }
}


/// Groups are non-empty, lie within bounds, and each is contiguous.
pub open spec fn groups_ok(groups: Seq<Seq<Opcode>>, blen: int, alen: int) -> bool {
    forall|k: int|
        0 <= k < groups.len() ==> (#[trigger] groups[k]).len() > 0 && opcodes_ok(
            groups[k],
            blen,
            alen,
        ) && contiguous(groups[k])
}

pub proof fn lemma_group_fold(codes: Seq<Opcode>, ctx: usize, n: int, blen: int, alen: int)
    requires
        opcodes_ok(codes, blen, alen),
        contiguous(codes),
        0 <= n <= codes.len(),
        ctx <= usize::MAX / 2,
    ensures
        groups_ok(group_fold(codes.subrange(0, n), ctx).0, blen, alen),
        opcodes_ok(group_fold(codes.subrange(0, n), ctx).1, blen, alen),
        contiguous(group_fold(codes.subrange(0, n), ctx).1),
        n > 0 ==> group_fold(codes.subrange(0, n), ctx).1.len() > 0,
        n > 0 ==> group_fold(codes.subrange(0, n), ctx).1.last().a_end == codes[n - 1].a_end
            && group_fold(codes.subrange(0, n), ctx).1.last().b_end == codes[n - 1].b_end,
    decreases n,
{
    let pre = codes.subrange(0, n);
    if n == 0 {
        assert(pre =~= Seq::<Opcode>::empty());
    } else {
        lemma_group_fold(codes, ctx, n - 1, blen, alen);
        assert(pre.drop_last() =~= codes.subrange(0, n - 1));
        let (gs, g) = group_fold(codes.subrange(0, n - 1), ctx);
        let code = codes[n - 1];
        assert(opcode_ok(code, blen, alen));
        if n > 1 {
            assert(link(codes, n - 2));
        }
        if code.tag == Tag::Equal && code.a_end - code.a_start > 2 * ctx {
            let head = Opcode {
                tag: Tag::Equal,
                a_start: code.a_start,
                a_end: (code.a_start + ctx) as usize,
                b_start: code.b_start,
                b_end: (code.b_start + ctx) as usize,
            };
            let g2 = g.push(head);
            assert forall|i: int| 0 <= i < g2.len() implies opcode_ok(#[trigger] g2[i], blen, alen) by {
                if i < g.len() {
                    assert(g2[i] == g[i]);
                }
            }
            assert forall|i: int| 0 <= i < g2.len() - 1 implies #[trigger] link(g2, i) by {
                assert(g2[i] == g[i]);
                if i < g.len() - 1 {
                    assert(link(g, i));
                }
            }
            let gs2 = gs.push(g2);
            assert forall|k: int| 0 <= k < gs2.len() implies (#[trigger] gs2[k]).len() > 0 && opcodes_ok(
                gs2[k],
                blen,
                alen,
            ) && contiguous(gs2[k]) by {
                if k < gs.len() {
                    assert(gs2[k] == gs[k]);
                }
            }
            let tail = Opcode {
                a_start: (code.a_end - ctx) as usize,
                b_start: (code.b_end - ctx) as usize,
                ..code
            };
            let g3 = seq![tail];
            assert(opcode_ok(g3[0], blen, alen));
        } else {
            let g2 = g.push(code);
            assert forall|i: int| 0 <= i < g2.len() implies opcode_ok(#[trigger] g2[i], blen, alen) by {
                if i < g.len() {
                    assert(g2[i] == g[i]);
                }
            }
            assert forall|i: int| 0 <= i < g2.len() - 1 implies #[trigger] link(g2, i) by {
                assert(g2[i] == g[i]);
                if i < g.len() - 1 {
                    assert(link(g, i));
                }
            }
        }
    }
}

/// The hunks of well-formed spans are non-empty, within bounds, and contiguous.
pub proof fn lemma_grouped_ok(ops: Seq<Opcode>, ctx: usize, blen: int, alen: int)
    requires
        opcodes_ok(ops, blen, alen),
        contiguous(ops),
        blen <= usize::MAX - ctx,
        alen <= usize::MAX - ctx,
        ctx <= usize::MAX / 2,
    ensures
        groups_ok(grouped_spec(ops, ctx), blen, alen),
{
    if ops.len() > 0 {
        lemma_trim_ok(ops, ctx, blen, alen);
        let t = trim_last(trim_first(ops, ctx), ctx);
        lemma_group_fold(t, ctx, t.len() as int, blen, alen);
        assert(t.subrange(0, t.len() as int) =~= t);
        let (gs, g) = group_fold(t, ctx);
        if has_change(g) {
            let r = gs.push(g);
            assert forall|k: int| 0 <= k < r.len() implies (#[trigger] r[k]).len() > 0 && opcodes_ok(
                r[k],
                blen,
                alen,
            ) && contiguous(r[k]) by {
                if k < gs.len() {
                    assert(r[k] == gs[k]);
                }
            }
        }
    }
}

/// A non-empty contiguous run of spans starts no later than it ends.
pub proof fn lemma_run_extent(ops: Seq<Opcode>, blen: int, alen: int)
    requires
        ops.len() > 0,
        opcodes_ok(ops, blen, alen),
        contiguous(ops),
    ensures
        ops[0].a_start <= ops.last().a_end,
        ops[0].b_start <= ops.last().b_end,
    decreases ops.len(),
{
    if ops.len() > 1 {
        let prev = ops.drop_last();
        assert forall|i: int| 0 <= i < prev.len() - 1 implies #[trigger] link(prev, i) by {
            assert(link(ops, i));
        }
        lemma_run_extent(prev, blen, alen);
        assert(link(ops, ops.len() - 2));
        assert(opcode_ok(ops[ops.len() - 1], blen, alen));
    } else {
        assert(opcode_ok(ops[0], blen, alen));
    }
}

// ---------------------------------------------------------------------------
// Every span and every group shows at least one line.

/// A span that covers at least one line on some side.
pub open spec fn op_nonempty(op: Opcode) -> bool {
    op.a_start < op.a_end || op.b_start < op.b_end
}

pub open spec fn ops_nonempty(ops: Seq<Opcode>) -> bool {
    forall|i: int| 0 <= i < ops.len() ==> op_nonempty(#[trigger] ops[i])
}

proof fn lemma_push_nonempty(codes: Seq<Opcode>, op: Opcode, blen: int, alen: int)
    requires
        ops_nonempty(codes),
        opcodes_ok(codes, blen, alen),
        op_nonempty(op),
        opcode_ok(op, blen, alen),
        codes.len() > 0 ==> codes.last().a_end == op.a_start && codes.last().b_end == op.b_start,
    ensures
        ops_nonempty(push_spec(codes, op)),
{
    let r = push_spec(codes, op);
    assert forall|i: int| 0 <= i < r.len() implies op_nonempty(#[trigger] r[i]) by {
        if i < codes.len() {
            assert(opcode_ok(codes[i], blen, alen));
            assert(op_nonempty(codes[i]));
        }
    }
}

/// Folding hunks yields only spans that cover a line.
proof fn lemma_hunk_fold_nonempty(hunks: Seq<DiffHunk>, n: int, blen: int, alen: int)
    requires
        hunks_well_formed(hunks, blen, alen),
        0 <= n <= hunks.len(),
    ensures
        ops_nonempty(hunk_fold(hunks.subrange(0, n)).0),
    decreases n,
{
    let pre = hunks.subrange(0, n);
    if n > 0 {
        lemma_hunk_fold_nonempty(hunks, n - 1, blen, alen);
        lemma_hunk_fold_inner(hunks, n - 1, blen, alen);
        lemma_hunk_fold_contiguous(hunks, n - 1, blen, alen);
        assert(pre.drop_last() =~= hunks.subrange(0, n - 1));
        let (codes, bi, ai) = hunk_fold(hunks.subrange(0, n - 1));
        let h = hunks[n - 1];
        let (a_start, a_end, b_start, b_end) = (h.0 as int, h.1 as int, h.2 as int, h.3 as int);
        lemma_hunk_below_last(hunks, n - 1, blen, alen);
        if n - 1 > 0 {
            assert(hunks[n - 2].1 < hunks[n - 1].0);
        }
        let e = mk_op(Tag::Equal, bi, a_start, ai, b_start);
        let c1 = if bi < a_start || ai < b_start { push_spec(codes, e) } else { codes };
        if bi < a_start || ai < b_start {
            lemma_push_ok(codes, e, blen, alen);
            lemma_push_nonempty(codes, e, blen, alen);
            lemma_push_contiguous(codes, e);
        }
        assert(opcodes_ok(c1, blen, alen) && ops_nonempty(c1) && contiguous(c1));
        assert(c1.len() > 0 ==> c1.last().a_end == a_start && c1.last().b_end == b_start);
        let d = mk_op(Tag::Delete, a_start, a_end, b_start, b_start);
        let c2 = if a_start < a_end { push_spec(c1, d) } else { c1 };
        if a_start < a_end {
            lemma_push_ok(c1, d, blen, alen);
            lemma_push_nonempty(c1, d, blen, alen);
            lemma_push_contiguous(c1, d);
        }
        assert(opcodes_ok(c2, blen, alen) && ops_nonempty(c2));
        assert(c2.len() > 0 ==> c2.last().a_end == a_end && c2.last().b_end == b_start);
        let ins = mk_op(Tag::Insert, a_end, a_end, b_start, b_end);
        if b_start < b_end {
            lemma_push_nonempty(c2, ins, blen, alen);
        }
    } else {
        assert(pre =~= Seq::<DiffHunk>::empty());
    }
}

/// The spans built from well-formed hunks each cover a line.
pub proof fn lemma_opcodes_from_hunks_nonempty(hunks: Seq<DiffHunk>, before_len: usize, after_len: usize)
    requires
        hunks_well_formed(hunks, before_len as int, after_len as int),
    ensures
        ops_nonempty(opcodes_from_hunks_spec(hunks, before_len, after_len)),
{
    let blen = before_len as int;
    let alen = after_len as int;
    lemma_hunk_fold_nonempty(hunks, hunks.len() as int, blen, alen);
    lemma_hunk_fold_contiguous(hunks, hunks.len() as int, blen, alen);
    assert(hunks.subrange(0, hunks.len() as int) =~= hunks);
    lemma_hunk_fold_ok(hunks, blen, alen);
    let (c, bi, ai) = hunk_fold(hunks);
    if bi < before_len || ai < after_len {
        let e = mk_op(Tag::Equal, bi, blen, ai, alen);
        lemma_push_nonempty(c, e, blen, alen);
    }
}

/// Trimming the context of the outer spans keeps a line in each.
proof fn lemma_trim_nonempty(ops: Seq<Opcode>, ctx: usize, blen: int, alen: int)
    requires
        opcodes_ok(ops, blen, alen),
        ops_nonempty(ops),
        blen <= usize::MAX - ctx,
        alen <= usize::MAX - ctx,
        ctx > 0,
    ensures
        ops_nonempty(trim_last(trim_first(ops, ctx), ctx)),
{
    let t1 = trim_first(ops, ctx);
    assert forall|i: int| 0 <= i < t1.len() implies op_nonempty(#[trigger] t1[i]) && opcode_ok(
        t1[i],
        blen,
        alen,
    ) by {
        assert(op_nonempty(ops[i]));
        assert(opcode_ok(ops[i], blen, alen));
    }
    let t2 = trim_last(t1, ctx);
    assert forall|i: int| 0 <= i < t2.len() implies op_nonempty(#[trigger] t2[i]) by {
        assert(op_nonempty(t1[i]));
        assert(opcode_ok(t1[i], blen, alen));
    }
}

/// Grouping keeps the groups in order, each showing a line, with the group
/// being built beginning after the last finished one ends.
#[verifier::spinoff_prover]
#[verifier::rlimit(40)]
proof fn lemma_group_fold_ordered(codes: Seq<Opcode>, ctx: usize, n: int, blen: int, alen: int)
    requires
        opcodes_ok(codes, blen, alen),
        contiguous(codes),
        ops_nonempty(codes),
        0 <= n <= codes.len(),
        0 < ctx <= usize::MAX / 2,
    ensures
        groups_ordered(group_fold(codes.subrange(0, n), ctx).0),
        n > 0 ==> span_nonempty(group_fold(codes.subrange(0, n), ctx).1),
        n > 0 && group_fold(codes.subrange(0, n), ctx).0.len() > 0 ==> group_fold(
            codes.subrange(0, n),
            ctx,
        ).0.last().last().a_end <= group_fold(codes.subrange(0, n), ctx).1[0].a_start && group_fold(
            codes.subrange(0, n),
            ctx,
        ).0.last().last().b_end <= group_fold(codes.subrange(0, n), ctx).1[0].b_start,
        n == 0 ==> group_fold(codes.subrange(0, n), ctx).0.len() == 0 && group_fold(
            codes.subrange(0, n),
            ctx,
        ).1.len() == 0,
    decreases n,
{
    let pre = codes.subrange(0, n);
    if n == 0 {
        assert(pre =~= Seq::<Opcode>::empty());
    } else {
        lemma_group_fold_ordered(codes, ctx, n - 1, blen, alen);
        lemma_group_fold(codes, ctx, n - 1, blen, alen);
        assert(pre.drop_last() =~= codes.subrange(0, n - 1));
        let (gs, g) = group_fold(codes.subrange(0, n - 1), ctx);
        let code = codes[n - 1];
        assert(opcode_ok(code, blen, alen));
        assert(op_nonempty(code));
        if n > 1 {
            assert(link(codes, n - 2));
            lemma_run_extent(g, blen, alen);
        }
        if code.tag == Tag::Equal && code.a_end - code.a_start > 2 * ctx {
            let head = Opcode {
                tag: Tag::Equal,
                a_start: code.a_start,
                a_end: (code.a_start + ctx) as usize,
                b_start: code.b_start,
                b_end: (code.b_start + ctx) as usize,
            };
            let c = g.push(head);
            let gs2 = gs.push(c);
            assert(c.last() == head);
            assert(span_nonempty(c));
            assert forall|k: int| 0 <= k < gs2.len() implies span_nonempty(#[trigger] gs2[k]) by {
                if k < gs.len() {
                    assert(gs2[k] == gs[k]);
                }
            }
            assert forall|k: int| 0 < k < gs2.len() implies gs2[k - 1].last().a_end <= (
            #[trigger] gs2[k])[0].a_start && gs2[k - 1].last().b_end <= gs2[k][0].b_start by {
                assert(gs2[k - 1] == gs[k - 1]);
                if k < gs.len() {
                    assert(gs2[k] == gs[k]);
                }
            }
        } else {
            let g2 = g.push(code);
            if n > 1 {
                assert(g2[0] == g[0]);
            }
        }
    }
}

/// The hunks of spans that each cover a line follow one another in order and
/// each show a line.
#[verifier::spinoff_prover]
#[verifier::rlimit(30)]
pub proof fn lemma_grouped_ordered(ops: Seq<Opcode>, ctx: usize, blen: int, alen: int)
    requires
        opcodes_ok(ops, blen, alen),
        contiguous(ops),
        ops_nonempty(ops),
        blen <= usize::MAX - ctx,
        alen <= usize::MAX - ctx,
        0 < ctx <= usize::MAX / 2,
    ensures
        groups_ordered(grouped_spec(ops, ctx)),
{
    if ops.len() > 0 {
        lemma_trim_ok(ops, ctx, blen, alen);
        lemma_trim_nonempty(ops, ctx, blen, alen);
        let t = trim_last(trim_first(ops, ctx), ctx);
        lemma_group_fold_ordered(t, ctx, t.len() as int, blen, alen);
        lemma_group_fold(t, ctx, t.len() as int, blen, alen);
        assert(t.subrange(0, t.len() as int) =~= t);
        let (gs, g) = group_fold(t, ctx);
        if has_change(g) {
            let r = gs.push(g);
            assert forall|k: int| 0 <= k < r.len() implies span_nonempty(#[trigger] r[k]) by {
                if k < gs.len() {
                    assert(r[k] == gs[k]);
                }
            }
            assert forall|k: int| 0 < k < r.len() implies r[k - 1].last().a_end <= (
            #[trigger] r[k])[0].a_start && r[k - 1].last().b_end <= r[k][0].b_start by {
                assert(r[k - 1] == gs[k - 1]);
                if k < gs.len() {
                    assert(r[k] == gs[k]);
                }
            }
        }
    }
}

// ---------------------------------------------------------------------------
// Text of a unified diff.

/// Each line behind a one-byte marker.
pub open spec fn marked_lines(lines: Seq<Seq<u8>>, mark: u8) -> Seq<u8>
    decreases lines.len(),
{
    if lines.len() == 0 {
        Seq::empty()
    } else {
        marked_lines(lines.drop_last(), mark) + seq![mark] + lines.last()
    }
}

/// The body lines of one span: ` ` for equal, `-` for deleted, `+` for inserted.
pub open spec fn op_text(op: Opcode, bl: Seq<Seq<u8>>, al: Seq<Seq<u8>>) -> Seq<u8> {
    match op.tag {
        Tag::Equal => marked_lines(bl.subrange(op.a_start as int, op.a_end as int), 32),
        Tag::Delete => marked_lines(bl.subrange(op.a_start as int, op.a_end as int), 45),
        Tag::Insert => marked_lines(al.subrange(op.b_start as int, op.b_end as int), 43),
    }
}

pub open spec fn ops_text(ops: Seq<Opcode>, bl: Seq<Seq<u8>>, al: Seq<Seq<u8>>) -> Seq<u8>
    decreases ops.len(),
{
    if ops.len() == 0 {
        Seq::empty()
    } else {
        ops_text(ops.drop_last(), bl, al) + op_text(ops.last(), bl, al)
    }
}

/// A hunk-header range: `N` for one line, `S,L` otherwise, where an empty range
/// names the line before it.
pub open spec fn range_text(start: int, stop: int) -> Seq<u8> {
    let length = stop - start;
    if length == 1 {
        decimal((start + 1) as nat)
    } else if length == 0 {
        decimal(start as nat) + str_bytes(","@) + decimal(0)
    } else {
        decimal((start + 1) as nat) + str_bytes(","@) + decimal(length as nat)
    }
}

pub open spec fn hunk_header(g: Seq<Opcode>) -> Seq<u8> {
    str_bytes("@@ -"@) + range_text(g[0].a_start as int, g.last().a_end as int) + str_bytes(" +"@)
        + range_text(g[0].b_start as int, g.last().b_end as int) + str_bytes(" @@\n"@)
}

pub open spec fn groups_text(groups: Seq<Seq<Opcode>>, bl: Seq<Seq<u8>>, al: Seq<Seq<u8>>) -> Seq<u8>
    decreases groups.len(),
{
    if groups.len() == 0 {
        Seq::empty()
    } else {
        groups_text(groups.drop_last(), bl, al) + hunk_header(groups.last()) + ops_text(
            groups.last(),
            bl,
            al,
        )
    }
}

/// The two file-name lines of a diff.
pub open spec fn diff_header(path: Seq<char>) -> Seq<u8> {
    str_bytes("--- "@) + str_bytes(path) + str_bytes(" (before)\n"@) + str_bytes("+++ "@)
        + str_bytes(path) + str_bytes(" (after)\n"@)
}

/// Formats a hunk-header range.
pub fn format_range_unified(start: usize, stop: usize) -> (r: Vec<u8>)
    requires
        start <= stop < usize::MAX,
    ensures
        r@ == range_text(start as int, stop as int),
{
    let beginning = start + 1;
    let length = stop - start;
    if length == 1 {
        return usize_decimal(beginning);
    }
    let mut out = if length == 0 {
        usize_decimal(beginning - 1)
    } else {
        usize_decimal(beginning)
    };
    push_str(&mut out, ",");
    let len_text = usize_decimal(length);
    extend_bytes(&mut out, len_text.as_slice());
    out
}

fn write_marked_lines(output: &mut Vec<u8>, lines: &Vec<Vec<u8>>, start: usize, end: usize, mark: u8)
    requires
        start <= end <= lines@.len(),
    ensures
        final(output)@ == old(output)@ + marked_lines(
            lines_of(lines@).subrange(start as int, end as int),
            mark,
        ),
{
    let mut i = start;
    while i < end
        invariant
            start <= i <= end <= lines@.len(),
            output@ == old(output)@ + marked_lines(
                lines_of(lines@).subrange(start as int, i as int),
                mark,
            ),
        decreases end - i,
    {
        output.push(mark);
        extend_bytes(output, lines[i].as_slice());
        proof {
            let sub = lines_of(lines@).subrange(start as int, i + 1);
            assert(sub.drop_last() =~= lines_of(lines@).subrange(start as int, i as int));
            assert(sub.last() == lines@[i as int]@);
        }
        i = i + 1;
    }
}

/// Writes the body lines of one span.
fn write_op(output: &mut Vec<u8>, op: Opcode, before_lines: &Vec<Vec<u8>>, after_lines: &Vec<Vec<u8>>)
    requires
        opcode_ok(op, before_lines@.len() as int, after_lines@.len() as int),
    ensures
        final(output)@ == old(output)@ + op_text(op, lines_of(before_lines@), lines_of(after_lines@)),
{
    match op.tag {
        Tag::Equal => write_marked_lines(output, before_lines, op.a_start, op.a_end, 32),
        Tag::Delete => write_marked_lines(output, before_lines, op.a_start, op.a_end, 45),
        Tag::Insert => write_marked_lines(output, after_lines, op.b_start, op.b_end, 43),
    }
}

/// Renders the diff text for spans over the two line lists.
#[verifier::rlimit(30)]
pub fn diff_from_opcodes(
    path: &str,
    before_lines: &Vec<Vec<u8>>,
    after_lines: &Vec<Vec<u8>>,
    opcodes: &Vec<Opcode>,
) -> (r: Vec<u8>)
    requires
        opcodes_ok(opcodes@, before_lines@.len() as int, after_lines@.len() as int),
        contiguous(opcodes@),
        before_lines@.len() <= usize::MAX - 3,
        after_lines@.len() <= usize::MAX - 3,
    ensures
        r@ == diff_header(path@) + groups_text(
            grouped_spec(opcodes@, 3),
            lines_of(before_lines@),
            lines_of(after_lines@),
        ),
{
    let blen = before_lines.len();
    let alen = after_lines.len();
    proof {
        assert forall|i: int| 0 <= i < opcodes@.len() implies opcode_ok(
            #[trigger] opcodes@[i],
            usize::MAX - 3,
            usize::MAX - 3,
        ) by {
            assert(opcode_ok(opcodes@[i], blen as int, alen as int));
        }
        lemma_grouped_ok(opcodes@, 3, blen as int, alen as int);
    }
    let groups = grouped_opcodes(opcodes.as_slice(), 3);
    let ghost gv = groups_view(groups@);

    let mut output: Vec<u8> = Vec::new();
    push_str(&mut output, "--- ");
    push_str(&mut output, path);
    push_str(&mut output, " (before)\n");
    push_str(&mut output, "+++ ");
    push_str(&mut output, path);
    push_str(&mut output, " (after)\n");
    let ghost header = output@;
    proof {
        assert(header =~= diff_header(path@));
    }

    let mut k: usize = 0;
    while k < groups.len()
        invariant
            k <= groups@.len(),
            gv == groups_view(groups@),
            groups_ok(gv, blen as int, alen as int),
            blen == before_lines@.len(),
            alen == after_lines@.len(),
            blen <= usize::MAX - 3,
            alen <= usize::MAX - 3,
            output@ == header + groups_text(
                gv.subrange(0, k as int),
                lines_of(before_lines@),
                lines_of(after_lines@),
            ),
        decreases groups.len() - k,
    {
        let group = &groups[k];
        let ghost g = group@;
        proof {
            assert(gv[k as int] == g);
            lemma_run_extent(g, blen as int, alen as int);
            assert(opcode_ok(g[0], blen as int, alen as int));
            assert(opcode_ok(g[g.len() - 1], blen as int, alen as int));
        }
        let first = group[0];
        let last = group[group.len() - 1];
        let ghost before_header = output@;
        push_str(&mut output, "@@ -");
        let r1 = format_range_unified(first.a_start, last.a_end);
        extend_bytes(&mut output, r1.as_slice());
        push_str(&mut output, " +");
        let r2 = format_range_unified(first.b_start, last.b_end);
        extend_bytes(&mut output, r2.as_slice());
        push_str(&mut output, " @@\n");
        proof {
            assert(output@ =~= before_header + hunk_header(g));
        }
        let ghost after_header = output@;
        let mut j: usize = 0;
        while j < group.len()
            invariant
                j <= g.len(),
                g == group@,
                opcodes_ok(g, blen as int, alen as int),
                blen == before_lines@.len(),
                alen == after_lines@.len(),
                output@ == after_header + ops_text(
                    g.subrange(0, j as int),
                    lines_of(before_lines@),
                    lines_of(after_lines@),
                ),
            decreases group.len() - j,
        {
            proof {
                assert(opcode_ok(g[j as int], blen as int, alen as int));
                assert(g.subrange(0, j + 1).drop_last() =~= g.subrange(0, j as int));
            }
            write_op(&mut output, group[j], before_lines, after_lines);
            proof {
                assert(output@ =~= after_header + ops_text(
                    g.subrange(0, j + 1),
                    lines_of(before_lines@),
                    lines_of(after_lines@),
                ));
            }
            j = j + 1;
        }
        proof {
            assert(g.subrange(0, j as int) =~= g);
            let pre = gv.subrange(0, k + 1);
            assert(pre.drop_last() =~= gv.subrange(0, k as int));
            assert(pre.last() == g);
            assert(output@ =~= header + groups_text(
                gv.subrange(0, k + 1),
                lines_of(before_lines@),
                lines_of(after_lines@),
            ));
        }
        k = k + 1;
    }
    proof {
        assert(gv.subrange(0, k as int) =~= gv);
    }
    output
}


// ---------------------------------------------------------------------------
// Interning lines as tokens for the diff engine.

/// The index of the first occurrence of `line` in `d`.
pub open spec fn index_of(d: Seq<Seq<u8>>, line: Seq<u8>) -> Option<int>
    decreases d.len(),
{
    if d.len() == 0 {
        None
    } else {
        match index_of(d.drop_last(), line) {
            Some(k) => Some(k),
            None => if d.last() == line {
                Some(d.len() - 1)
            } else {
                None
            },
        }
    }
}

proof fn lemma_index_of(d: Seq<Seq<u8>>, line: Seq<u8>)
    ensures
        index_of(d, line) matches Some(k) ==> 0 <= k < d.len() && d[k] == line,
        index_of(d, line) is None ==> forall|k: int| 0 <= k < d.len() ==> d[k] != line,
    decreases d.len(),
{
    if d.len() > 0 {
        lemma_index_of(d.drop_last(), line);
        assert forall|k: int| 0 <= k < d.len() - 1 implies d[k] == d.drop_last()[k] by {}
    }
}

/// Interning state: the distinct lines seen, the tokens given so far, and
/// whether the token limit still held.
pub open spec fn intern_step(st: (Seq<Seq<u8>>, Seq<u32>, bool), line: Seq<u8>, max: u32) -> (
    Seq<Seq<u8>>,
    Seq<u32>,
    bool,
) {
    let (d, toks, ok) = st;
    if !ok {
        st
    } else {
        match index_of(d, line) {
            Some(k) => (d, toks.push(k as u32), true),
            None => if d.len() >= max {
                (d, toks, false)
            } else {
                (d.push(line), toks.push(d.len() as u32), true)
            },
        }
    }
}

pub open spec fn intern_fold(lines: Seq<Seq<u8>>, d: Seq<Seq<u8>>, max: u32) -> (
    Seq<Seq<u8>>,
    Seq<u32>,
    bool,
)
    decreases lines.len(),
{
    if lines.len() == 0 {
        (d, Seq::empty(), true)
    } else {
        intern_step(intern_fold(lines.drop_last(), d, max), lines.last(), max)
    }
}

/// Tokens for both sides, numbered by first appearance across the old then the
/// new lines, with the count of distinct lines; `None` past the engine's limits.
pub open spec fn intern_spec(
    before: Seq<Seq<u8>>,
    after: Seq<Seq<u8>>,
    max_sequence_len: usize,
    max_token_count: u32,
) -> Option<(Seq<u32>, Seq<u32>, u32)> {
    if before.len() >= max_sequence_len || after.len() >= max_sequence_len {
        None
    } else {
        let (d1, t1, ok1) = intern_fold(before, Seq::empty(), max_token_count);
        let (d2, t2, ok2) = intern_fold(after, d1, max_token_count);
        if !ok1 || !ok2 {
            None
        } else {
            Some((t1, t2, d2.len() as u32))
        }
    }
}

proof fn lemma_intern_fold(lines: Seq<Seq<u8>>, d: Seq<Seq<u8>>, max: u32)
    requires
        d.len() <= max,
    ensures
        intern_fold(lines, d, max).0.len() <= max,
        intern_fold(lines, d, max).2 ==> intern_fold(lines, d, max).1.len() == lines.len(),
    decreases lines.len(),
{
    if lines.len() > 0 {
        lemma_intern_fold(lines.drop_last(), d, max);
    }
}

/// Returns the token for `line`, assigning the next one when the line is new,
/// or `None` when a new token would pass `max_token_count`. Known lines are
/// kept in a list and found by a scan, so that their tokens are specified by
/// `index_of`; a map keyed by byte strings offers no contract to prove this on.
pub fn intern_line(line: &[u8], tokens: &mut Vec<Vec<u8>>, next_token: &mut u32, max_token_count: u32) -> (r: Option<u32>)
    requires
        *old(next_token) == old(tokens)@.len(),
    ensures
        *final(next_token) == final(tokens)@.len(),
        ({
            let (d, toks, ok) = intern_step(
                (lines_of(old(tokens)@), Seq::empty(), true),
                line@,
                max_token_count,
            );
            &&& lines_of(final(tokens)@) == d
            &&& (ok ==> r == Some(toks[0]))
            &&& (!ok ==> r is None)
        }),
{
    let mut k: usize = 0;
    proof {
        lemma_index_of(lines_of(tokens@), line@);
    }
    while k < tokens.len()
        invariant
            k <= tokens@.len(),
            tokens@ == old(tokens)@,
            *next_token == tokens@.len(),
            index_of(lines_of(tokens@).subrange(0, k as int), line@) is None,
        decreases tokens.len() - k,
    {
        proof {
            assert(lines_of(tokens@).subrange(0, k + 1).drop_last() =~= lines_of(tokens@).subrange(
                0,
                k as int,
            ));
        }
        if crate::bytes::bytes_eq(tokens[k].as_slice(), line) {
            proof {
                lemma_index_prefix(lines_of(tokens@), line@, k as int);
            }
            return Some(k as u32);
        }
        k = k + 1;
    }
    proof {
        assert(lines_of(tokens@).subrange(0, k as int) =~= lines_of(tokens@));
    }
    if *next_token >= max_token_count {
        return None;
    }
    let token = *next_token;
    *next_token = *next_token + 1;
    let ghost before = tokens@;
    tokens.push(crate::bytes::slice_to_vec(line));
    proof {
        assert(lines_of(tokens@) =~= lines_of(before).push(line@));
    }
    Some(token)
}

proof fn lemma_index_prefix(d: Seq<Seq<u8>>, line: Seq<u8>, k: int)
    requires
        0 <= k < d.len(),
        index_of(d.subrange(0, k), line) is None,
        d[k] == line,
    ensures
        index_of(d, line) == Some(k),
    decreases d.len(),
{
    if d.len() == k + 1 {
        assert(d.drop_last() =~= d.subrange(0, k));
    } else {
        assert(d.drop_last().subrange(0, k) =~= d.subrange(0, k));
        lemma_index_prefix(d.drop_last(), line, k);
    }
}

fn intern_line_slice(
    lines: &Vec<Vec<u8>>,
    tokens: &mut Vec<Vec<u8>>,
    next_token: &mut u32,
    max_token_count: u32,
) -> (r: Option<Vec<u32>>)
    requires
        *old(next_token) == old(tokens)@.len(),
    ensures
        *final(next_token) == final(tokens)@.len(),
        ({
            let (d, toks, ok) = intern_fold(lines_of(lines@), lines_of(old(tokens)@), max_token_count);
            &&& ok ==> (r matches Some(v) && v@ == toks && lines_of(final(tokens)@) == d)
            &&& !ok ==> r is None
        }),
{
    let mut out: Vec<u32> = Vec::with_capacity(lines.len());
    let mut i: usize = 0;
    let ghost d0 = lines_of(tokens@);
    while i < lines.len()
        invariant
            i <= lines@.len(),
            d0 == lines_of(old(tokens)@),
            *next_token == tokens@.len(),
            ({
                let (d, toks, ok) = intern_fold(lines_of(lines@).subrange(0, i as int), d0, max_token_count);
                ok && out@ == toks && lines_of(tokens@) == d
            }),
        decreases lines.len() - i,
    {
        proof {
            assert(lines_of(lines@).subrange(0, i + 1).drop_last() =~= lines_of(lines@).subrange(0, i as int));
            assert(lines_of(lines@).subrange(0, i + 1).last() == lines@[i as int]@);
        }
        match intern_line(lines[i].as_slice(), tokens, next_token, max_token_count) {
            Some(token) => {
                out.push(token);
            },
            None => {
                proof {
                    let st = intern_fold(lines_of(lines@).subrange(0, i as int), d0, max_token_count);
                    assert(!intern_step(st, lines@[i as int]@, max_token_count).2);
                    lemma_intern_fails_later(lines_of(lines@), d0, max_token_count, i as int + 1);
                }
                return None;
            },
        }
        i = i + 1;
    }
    proof {
        assert(lines_of(lines@).subrange(0, i as int) =~= lines_of(lines@));
    }
    Some(out)
}

/// Once the token limit fails, it stays failed.
proof fn lemma_intern_fails_later(lines: Seq<Seq<u8>>, d: Seq<Seq<u8>>, max: u32, n: int)
    requires
        0 <= n <= lines.len(),
        !intern_fold(lines.subrange(0, n), d, max).2,
    ensures
        !intern_fold(lines, d, max).2,
    decreases lines.len() - n,
{
    if n < lines.len() {
        assert(lines.subrange(0, n + 1).drop_last() =~= lines.subrange(0, n));
        lemma_intern_fails_later(lines, d, max, n + 1);
    } else {
        assert(lines.subrange(0, n) =~= lines);
    }
}

fn intern_lines(
    before: &Vec<Vec<u8>>,
    after: &Vec<Vec<u8>>,
    max_sequence_len: usize,
    max_token_count: u32,
) -> (r: Option<(Vec<u32>, Vec<u32>, u32)>)
    ensures
        match intern_spec(lines_of(before@), lines_of(after@), max_sequence_len, max_token_count) {
            Some((t1, t2, n)) => (r matches Some(x) && x.0@ == t1 && x.1@ == t2 && x.2 == n),
            None => r is None,
        },
{
    // The diff engine supports fewer than `i32::MAX` tokens on each side; the
    // guard keeps diff generation from panicking on extreme inputs.
    if before.len() >= max_sequence_len || after.len() >= max_sequence_len {
        return None;
    }
    let mut tokens: Vec<Vec<u8>> = Vec::new();
    let mut next_token: u32 = 0;
    proof {
        assert(lines_of(tokens@) =~= Seq::<Seq<u8>>::empty());
    }
    let before_tokens = match intern_line_slice(before, &mut tokens, &mut next_token, max_token_count) {
        Some(t) => t,
        None => return None,
    };
    let after_tokens = match intern_line_slice(after, &mut tokens, &mut next_token, max_token_count) {
        Some(t) => t,
        None => return None,
    };
    Some((before_tokens, after_tokens, next_token))
}

/// The spans for two line lists: the engine's hunks when interning succeeds,
/// else a whole-file replacement.
pub open spec fn opcodes_spec(
    before: Seq<Seq<u8>>,
    after: Seq<Seq<u8>>,
    max_sequence_len: usize,
    max_token_count: u32,
) -> Seq<Opcode> {
    match intern_spec(before, after, max_sequence_len, max_token_count) {
        Some((t1, t2, n)) => opcodes_from_hunks_spec(
            myers_hunks(t1, t2, n),
            before.len() as usize,
            after.len() as usize,
        ),
        None => whole_file_spec(before.len() as usize, after.len() as usize),
    }
}

/// Spans for two line lists under the given engine limits.
pub fn opcodes_with_limits(
    before: &Vec<Vec<u8>>,
    after: &Vec<Vec<u8>>,
    max_sequence_len: usize,
    max_token_count: u32,
) -> (r: Vec<Opcode>)
    requires
        max_sequence_len <= MAX_IMARA_SEQUENCE_LEN,
    ensures
        r@ == opcodes_spec(lines_of(before@), lines_of(after@), max_sequence_len, max_token_count),
        opcodes_ok(r@, before@.len() as int, after@.len() as int),
        contiguous(r@),
        ops_nonempty(r@),
        rebuilt(r@, lines_of(before@), lines_of(after@)) == lines_of(after@),
        spans_match(r@, lines_of(before@), lines_of(after@)),
        spans_cover(r@, before@.len() as int, after@.len() as int),
{
    match intern_lines(before, after, max_sequence_len, max_token_count) {
        None => {
            let r = whole_file_opcodes(before.len(), after.len());
            proof {
                assert forall|i: int| 0 <= i < r@.len() - 1 implies #[trigger] link(r@, i) by {}
                lemma_whole_file_rebuilt(lines_of(before@), lines_of(after@));
            }
            r
        },
        Some((before_tokens, after_tokens, token_count)) => {
            proof {
                let (d1, t1, ok1) = intern_fold(lines_of(before@), Seq::empty(), max_token_count);
                lemma_intern_fold(lines_of(before@), Seq::empty(), max_token_count);
                lemma_intern_fold(lines_of(after@), d1, max_token_count);
            }
            let hunks = myers_diff_hunks(&before_tokens, &after_tokens, token_count);
            let r = opcodes_from_hunks(&hunks, before.len(), after.len());
            proof {
                lemma_opcodes_from_hunks_contiguous(hunks@, before.len(), after.len());
                lemma_opcodes_from_hunks_nonempty(hunks@, before.len(), after.len());
                lemma_engine_spans_rebuild(
                    lines_of(before@),
                    lines_of(after@),
                    max_sequence_len,
                    max_token_count,
                    hunks@,
                );
            }
            r
        },
    }
}

/// Spans for two line lists.
pub fn opcodes(before: &Vec<Vec<u8>>, after: &Vec<Vec<u8>>) -> (r: Vec<Opcode>)
    ensures
        r@ == opcodes_spec(
            lines_of(before@),
            lines_of(after@),
            MAX_IMARA_SEQUENCE_LEN,
            MAX_IMARA_TOKEN_COUNT,
        ),
        opcodes_ok(r@, before@.len() as int, after@.len() as int),
        contiguous(r@),
        ops_nonempty(r@),
        rebuilt(r@, lines_of(before@), lines_of(after@)) == lines_of(after@),
        spans_match(r@, lines_of(before@), lines_of(after@)),
        spans_cover(r@, before@.len() as int, after@.len() as int),
{
    opcodes_with_limits(before, after, MAX_IMARA_SEQUENCE_LEN, MAX_IMARA_TOKEN_COUNT)
}

pub proof fn lemma_split_count(t: Seq<u8>, start: int)
    requires
        0 <= start <= t.len(),
    ensures
        split_from(t, start).len() <= t.len() - start,
    decreases t.len() - start,
{
    if start < t.len() {
        lemma_line_end(t, start);
        let j = line_end(t, start);
        if j < t.len() {
            lemma_split_count(t, j + terminator_at(t, j).len());
        }
    }
}

/// The unified diff of two texts for `path`, as `unified_diff` writes it.
pub open spec fn unified_diff_spec(path: Seq<char>, before: Seq<u8>, after: Seq<u8>) -> Seq<u8> {
    if before == after {
        Seq::empty()
    } else {
        diff_header(path) + groups_text(
            diff_groups(before, after),
            keepends_lines(before),
            keepends_lines(after),
        )
    }
}

/// The hunks that `unified_diff` prints for two texts: the spans between their
/// lines, grouped with three lines of context.
pub open spec fn diff_groups(before: Seq<u8>, after: Seq<u8>) -> Seq<Seq<Opcode>> {
    grouped_spec(
        opcodes_spec(
            keepends_lines(before),
            keepends_lines(after),
            MAX_IMARA_SEQUENCE_LEN,
            MAX_IMARA_TOKEN_COUNT,
        ),
        3,
    )
}

/// A diff shows each old and each new line at most once, so for texts below
/// 99999 bytes its size is linear in theirs.
proof fn lemma_diff_len(path: Seq<char>, before: Seq<u8>, after: Seq<u8>, ops: Seq<Opcode>)
    requires
        before.len() < 99999,
        after.len() < 99999,
        opcodes_ok(ops, keepends_lines(before).len() as int, keepends_lines(after).len() as int),
        contiguous(ops),
        ops_nonempty(ops),
    ensures
        (diff_header(path) + groups_text(grouped_spec(ops, 3), keepends_lines(before), keepends_lines(after))).len()
            <= 8 * path.len() + 108 + 70 * (before.len() + after.len()),
{
    let bl = keepends_lines(before);
    let al = keepends_lines(after);
    let blen = bl.len() as int;
    let alen = al.len() as int;
    lemma_keepends_len(before);
    lemma_keepends_len(after);
    lemma_grouped_ok(ops, 3, blen, alen);
    lemma_grouped_ordered(ops, 3, blen, alen);
    let gs = grouped_spec(ops, 3);
    lemma_groups_text_len(gs, bl, al);
    lemma_lines_len_split(bl, 0, groups_end_a(gs), blen);
    lemma_lines_len_split(al, 0, groups_end_b(gs), alen);
    assert(bl.subrange(0, blen) =~= bl);
    assert(al.subrange(0, alen) =~= al);
    reveal_strlit("--- ");
    reveal_strlit(" (before)\n");
    reveal_strlit("+++ ");
    reveal_strlit(" (after)\n");
    lemma_str_bytes_len("--- "@);
    lemma_str_bytes_len(" (before)\n"@);
    lemma_str_bytes_len("+++ "@);
    lemma_str_bytes_len(" (after)\n"@);
    lemma_str_bytes_len(path);
}

/// Emits a unified diff for one file path (given as the text to show for it).
///
/// Applying the printed hunks to the old lines gives the new lines: keeping
/// the old lines between hunks and putting each hunk's ` ` and `+` lines in
/// place of its ` ` and `-` lines yields the lines of `after`, which joined
/// again are `after` itself.
pub fn unified_diff(path: &str, before: &[u8], after: &[u8]) -> (r: Vec<u8>)
    requires
        before@.len() <= usize::MAX - 3,
        after@.len() <= usize::MAX - 3,
    ensures
        r@ == unified_diff_spec(path@, before@, after@),
        before@ == after@ <==> r@.len() == 0,
        before@ != after@ ==> patched(
            diff_groups(before@, after@),
            keepends_lines(before@),
            keepends_lines(after@),
        ) == keepends_lines(after@),
        before@ != after@ ==> patched(
            diff_groups(before@, after@),
            keepends_lines(before@),
            keepends_lines(after@),
        ).flatten() == after@,
        before@.len() < 99999 && after@.len() < 99999 ==> r@.len() <= 8 * path@.len() + 108 + 70 * (
        before@.len() + after@.len()),
{
    if bytes_eq(before, after) {
        return Vec::new();
    }
    let before_lines = split_lines_keepends(before);
    let after_lines = split_lines_keepends(after);
    proof {
        lemma_split_count(before@, 0);
        lemma_split_count(after@, 0);
    }
    let opcodes = opcodes(&before_lines, &after_lines);
    let r = diff_from_opcodes(path, &before_lines, &after_lines, &opcodes);
    proof {
        lemma_grouped_patched(opcodes@, 3, lines_of(before_lines@), lines_of(after_lines@));
        lemma_keepends_rejoin(after@);
        assert(str_bytes("--- "@).len() > 0) by {
            reveal_strlit("--- ");
        }
        if before@.len() < 99999 && after@.len() < 99999 {
            lemma_diff_len(path@, before@, after@, opcodes@);
        }
    }
    r
}

// ---------------------------------------------------------------------------
// The spans rebuild the new lines from the old ones.

/// Where the unchanged stretch before hunk `i` begins, on the old and the new
/// side (for `i == h.len()`, the stretch after the last hunk).
pub open spec fn gap_start(h: Seq<DiffHunk>, i: int) -> (int, int) {
    if i == 0 {
        (0, 0)
    } else {
        (h[i - 1].1 as int, h[i - 1].3 as int)
    }
}

/// The old items `b0..b1` equal the new items from `a0` on.
pub open spec fn stretch_equal<T>(b: Seq<T>, a: Seq<T>, b0: int, a0: int, b1: int) -> bool {
    b.subrange(b0, b1) == a.subrange(a0, a0 + (b1 - b0))
}

/// Every unchanged stretch, before each hunk and after the last, holds equal
/// tokens on both sides.
pub open spec fn hunks_match(h: Seq<DiffHunk>, b: Seq<u32>, a: Seq<u32>) -> bool {
    &&& forall|i: int|
        0 <= i < h.len() ==> stretch_equal(
            b,
            a,
            gap_start(h, i).0,
            gap_start(h, i).1,
            (#[trigger] h[i]).0 as int,
        )
    &&& stretch_equal(
        b,
        a,
        gap_start(h, h.len() as int).0,
        gap_start(h, h.len() as int).1,
        b.len() as int,
    )
}

/// An equal span holds the same items on both sides; a deletion adds no new
/// item and an insertion removes no old one.
pub open spec fn span_matches<T>(op: Opcode, b: Seq<T>, a: Seq<T>) -> bool {
    &&& op.tag == Tag::Equal ==> b.subrange(op.a_start as int, op.a_end as int) == a.subrange(
        op.b_start as int,
        op.b_end as int,
    )
    &&& op.tag == Tag::Delete ==> op.b_start == op.b_end
    &&& op.tag == Tag::Insert ==> op.a_start == op.a_end
}

pub open spec fn spans_match<T>(ops: Seq<Opcode>, b: Seq<T>, a: Seq<T>) -> bool {
    forall|i: int| 0 <= i < ops.len() ==> span_matches(#[trigger] ops[i], b, a)
}

/// The new items a span contributes: the old items it keeps, or the new
/// items it inserts.
pub open spec fn new_side<T>(op: Opcode, b: Seq<T>, a: Seq<T>) -> Seq<T> {
    match op.tag {
        Tag::Equal => b.subrange(op.a_start as int, op.a_end as int),
        Tag::Delete => Seq::empty(),
        Tag::Insert => a.subrange(op.b_start as int, op.b_end as int),
    }
}

/// The new items rebuilt from the old ones by applying the spans in order.
pub open spec fn rebuilt<T>(ops: Seq<Opcode>, b: Seq<T>, a: Seq<T>) -> Seq<T>
    decreases ops.len(),
{
    if ops.len() == 0 {
        Seq::empty()
    } else {
        rebuilt(ops.drop_last(), b, a) + new_side(ops.last(), b, a)
    }
}

/// The spans run from the start of both sides to their ends.
pub open spec fn spans_cover(ops: Seq<Opcode>, blen: int, alen: int) -> bool {
    &&& ops.len() > 0 ==> ops[0].a_start == 0 && ops[0].b_start == 0 && ops.last().a_end == blen
        && ops.last().b_end == alen
    &&& ops.len() == 0 ==> blen == 0 && alen == 0
}

proof fn lemma_push_match<T>(codes: Seq<Opcode>, op: Opcode, b: Seq<T>, a: Seq<T>)
    requires
        spans_match(codes, b, a),
        span_matches(op, b, a),
        opcodes_ok(codes, b.len() as int, a.len() as int),
        opcode_ok(op, b.len() as int, a.len() as int),
        codes.len() > 0 ==> codes.last().a_end == op.a_start && codes.last().b_end == op.b_start,
    ensures
        spans_match(push_spec(codes, op), b, a),
{
    let r = push_spec(codes, op);
    if codes.len() > 0 && codes.last().tag == op.tag && codes.last().a_end == op.a_start
        && codes.last().b_end == op.b_start {
        let l = codes.last();
        assert(opcode_ok(codes[codes.len() - 1], b.len() as int, a.len() as int));
        assert(span_matches(codes[codes.len() - 1], b, a));
        if op.tag == Tag::Equal {
            assert(b.subrange(l.a_start as int, op.a_end as int) =~= b.subrange(
                l.a_start as int,
                l.a_end as int,
            ) + b.subrange(op.a_start as int, op.a_end as int));
            assert(a.subrange(l.b_start as int, op.b_end as int) =~= a.subrange(
                l.b_start as int,
                l.b_end as int,
            ) + a.subrange(op.b_start as int, op.b_end as int));
        }
        assert(span_matches(r[r.len() - 1], b, a));
    }
    assert forall|i: int| 0 <= i < r.len() implies span_matches(#[trigger] r[i], b, a) by {
        if i < codes.len() - 1 || (i < codes.len() && !(codes.last().tag == op.tag
            && codes.last().a_end == op.a_start && codes.last().b_end == op.b_start)) {
            assert(r[i] == codes[i]);
        }
    }
}

/// One hunk folded onto spans that match, after an unchanged stretch that
/// holds equal tokens, gives spans that match.
#[verifier::spinoff_prover]
#[verifier::rlimit(40)]
proof fn lemma_hunk_step_match(codes: Seq<Opcode>, bi: int, ai: int, h: DiffHunk, b: Seq<u32>, a: Seq<u32>)
    requires
        opcodes_ok(codes, b.len() as int, a.len() as int),
        spans_match(codes, b, a),
        contiguous(codes),
        codes.len() > 0 ==> codes.last().a_end == bi && codes.last().b_end == ai,
        0 <= bi <= h.0 <= h.1 <= b.len(),
        0 <= ai <= h.2 <= h.3 <= a.len(),
        h.0 - bi == h.2 - ai,
        stretch_equal(b, a, bi, ai, h.0 as int),
    ensures
        spans_match(hunk_step((codes, bi, ai), h).0, b, a),
{
    let blen = b.len() as int;
    let alen = a.len() as int;
    let (a_start, a_end, b_start, b_end) = (h.0 as int, h.1 as int, h.2 as int, h.3 as int);
    let e = mk_op(Tag::Equal, bi, a_start, ai, b_start);
    let c1 = if bi < a_start || ai < b_start { push_spec(codes, e) } else { codes };
    if bi < a_start || ai < b_start {
        assert(span_matches(e, b, a));
        lemma_push_ok(codes, e, blen, alen);
        lemma_push_match(codes, e, b, a);
        lemma_push_contiguous(codes, e);
    }
    assert(c1.len() > 0 ==> c1.last().a_end == a_start && c1.last().b_end == b_start);
    let d = mk_op(Tag::Delete, a_start, a_end, b_start, b_start);
    let c2 = if a_start < a_end { push_spec(c1, d) } else { c1 };
    if a_start < a_end {
        lemma_push_ok(c1, d, blen, alen);
        lemma_push_match(c1, d, b, a);
        lemma_push_contiguous(c1, d);
    }
    assert(c2.len() > 0 ==> c2.last().a_end == a_end && c2.last().b_end == b_start);
    let ins = mk_op(Tag::Insert, a_end, a_end, b_start, b_end);
    if b_start < b_end {
        lemma_push_match(c2, ins, b, a);
    }
}

/// Folding hunks whose stretches hold equal tokens gives spans that match.
#[verifier::spinoff_prover]
#[verifier::rlimit(40)]
proof fn lemma_hunk_fold_match(hunks: Seq<DiffHunk>, n: int, b: Seq<u32>, a: Seq<u32>)
    requires
        hunks_well_formed(hunks, b.len() as int, a.len() as int),
        hunks_match(hunks, b, a),
        0 <= n <= hunks.len(),
    ensures
        spans_match(hunk_fold(hunks.subrange(0, n)).0, b, a),
    decreases n,
{
    let blen = b.len() as int;
    let alen = a.len() as int;
    let pre = hunks.subrange(0, n);
    if n > 0 {
        lemma_hunk_fold_match(hunks, n - 1, b, a);
        lemma_hunk_fold_inner(hunks, n - 1, blen, alen);
        lemma_hunk_fold_contiguous(hunks, n - 1, blen, alen);
        assert(pre.drop_last() =~= hunks.subrange(0, n - 1));
        let (codes, bi, ai) = hunk_fold(hunks.subrange(0, n - 1));
        let h = hunks[n - 1];
        lemma_hunk_below_last(hunks, n - 1, blen, alen);
        if n - 1 > 0 {
            assert(hunks[n - 2].1 < hunks[n - 1].0);
        }
        assert(gap_start(hunks, n - 1) == (bi, ai));
        assert(stretch_equal(b, a, bi, ai, h.0 as int));
        lemma_hunk_step_match(codes, bi, ai, h, b, a);
        assert(hunk_fold(pre) == hunk_step(hunk_fold(pre.drop_last()), pre.last()));
    } else {
        assert(pre =~= Seq::<DiffHunk>::empty());
    }
}

/// The spans built from the engine's hunks match, begin at the start of both
/// sides and end at their ends.
#[verifier::spinoff_prover]
#[verifier::rlimit(40)]
proof fn lemma_opcodes_from_hunks_match(hunks: Seq<DiffHunk>, b: Seq<u32>, a: Seq<u32>)
    requires
        hunks_well_formed(hunks, b.len() as int, a.len() as int),
        hunks_match(hunks, b, a),
        b.len() <= usize::MAX,
        a.len() <= usize::MAX,
    ensures
        spans_match(opcodes_from_hunks_spec(hunks, b.len() as usize, a.len() as usize), b, a),
        spans_cover(
            opcodes_from_hunks_spec(hunks, b.len() as usize, a.len() as usize),
            b.len() as int,
            a.len() as int,
        ),
{
    let blen = b.len() as int;
    let alen = a.len() as int;
    lemma_hunk_fold_match(hunks, hunks.len() as int, b, a);
    lemma_hunk_fold_contiguous(hunks, hunks.len() as int, blen, alen);
    lemma_hunk_fold_ok(hunks, blen, alen);
    assert(hunks.subrange(0, hunks.len() as int) =~= hunks);
    let (c, bi, ai) = hunk_fold(hunks);
    if hunks.len() > 0 {
        lemma_hunk_below_last(hunks, hunks.len() - 1, blen, alen);
    }
    assert(gap_start(hunks, hunks.len() as int) == (bi, ai));
    if bi < b.len() || ai < a.len() {
        let e = mk_op(Tag::Equal, bi, blen, ai, alen);
        assert(span_matches(e, b, a));
        lemma_push_match(c, e, b, a);
        lemma_push_contiguous(c, e);
    }
}

/// Applying spans that match and run contiguously gives the new items they span.
pub proof fn lemma_rebuilt<T>(ops: Seq<Opcode>, b: Seq<T>, a: Seq<T>)
    requires
        ops.len() > 0,
        opcodes_ok(ops, b.len() as int, a.len() as int),
        contiguous(ops),
        spans_match(ops, b, a),
    ensures
        rebuilt(ops, b, a) == a.subrange(ops[0].b_start as int, ops.last().b_end as int),
    decreases ops.len(),
{
    let last = ops.last();
    assert(opcode_ok(ops[ops.len() - 1], b.len() as int, a.len() as int));
    assert(span_matches(ops[ops.len() - 1], b, a));
    assert(new_side(last, b, a) =~= a.subrange(last.b_start as int, last.b_end as int));
    if ops.len() == 1 {
        assert(ops.drop_last() =~= Seq::<Opcode>::empty());
        assert(rebuilt(ops.drop_last(), b, a) =~= Seq::<T>::empty());
    } else {
        let prev = ops.drop_last();
        assert forall|i: int| 0 <= i < prev.len() implies opcode_ok(#[trigger] prev[i], b.len() as int, a.len() as int) && span_matches(prev[i], b, a) by {
            assert(opcode_ok(ops[i], b.len() as int, a.len() as int));
            assert(span_matches(ops[i], b, a));
        }
        assert forall|i: int| 0 <= i < prev.len() - 1 implies #[trigger] link(prev, i) by {
            assert(link(ops, i));
        }
        lemma_rebuilt(prev, b, a);
        lemma_run_extent(prev, b.len() as int, a.len() as int);
        assert(link(ops, ops.len() - 2));
        assert(prev[0] == ops[0]);
        assert(a.subrange(ops[0].b_start as int, last.b_end as int) =~= a.subrange(
            ops[0].b_start as int,
            last.b_start as int,
        ) + a.subrange(last.b_start as int, last.b_end as int));
    }
}

/// Interned lines: the entries `d` kept at the front of `d2`, and each line
/// given the index of its entry in `d2`.
pub open spec fn interned(lines: Seq<Seq<u8>>, d: Seq<Seq<u8>>, d2: Seq<Seq<u8>>, t: Seq<u32>) -> bool {
    &&& d.len() <= d2.len()
    &&& d2.subrange(0, d.len() as int) == d
    &&& t.len() == lines.len()
    &&& tokens_index(lines, d2, t)
}

/// Each line's token is the index of its entry in `d2`.
pub open spec fn tokens_index(lines: Seq<Seq<u8>>, d2: Seq<Seq<u8>>, t: Seq<u32>) -> bool {
    forall|k: int| 0 <= k < lines.len() ==> #[trigger] token_at(lines, d2, t, k)
}

/// Line `k`'s token is the index of its entry in `d2`.
pub open spec fn token_at(lines: Seq<Seq<u8>>, d2: Seq<Seq<u8>>, t: Seq<u32>, k: int) -> bool {
    (t[k] as int) < d2.len() && d2[t[k] as int] == lines[k]
}

/// Interning keeps the lines it has seen and gives each line the index of its
/// entry.
proof fn lemma_intern_dict(lines: Seq<Seq<u8>>, d: Seq<Seq<u8>>, max: u32)
    requires
        d.len() <= max,
    ensures
        intern_fold(lines, d, max).2 ==> interned(
            lines,
            d,
            intern_fold(lines, d, max).0,
            intern_fold(lines, d, max).1,
        ),
    decreases lines.len(),
{
    if lines.len() > 0 {
        let prev = lines.drop_last();
        lemma_intern_dict(prev, d, max);
        lemma_intern_fold(prev, d, max);
        let (d1, t1, ok1) = intern_fold(prev, d, max);
        if intern_fold(lines, d, max).2 {
            assert(ok1);
            let line = lines.last();
            lemma_index_of(d1, line);
            let (d2, t, ok) = intern_fold(lines, d, max);
            match index_of(d1, line) {
                Some(j) => {
                    assert(d2 == d1);
                    assert(t == t1.push(j as u32));
                },
                None => {
                    assert(d2 == d1.push(line));
                    assert(t == t1.push(d1.len() as u32));
                    assert(d2.subrange(0, d.len() as int) =~= d1.subrange(0, d.len() as int));
                },
            }
            assert forall|k: int| 0 <= k < lines.len() implies #[trigger] token_at(lines, d2, t, k) by {
                if k < lines.len() - 1 {
                    assert(prev[k] == lines[k]);
                    assert(tokens_index(prev, d1, t1));
                    assert(token_at(prev, d1, t1, k));
                    assert(t[k] == t1[k]);
                    assert(d2[t1[k] as int] == d1[t1[k] as int]);
                    assert((t[k] as int) < d2.len());
                } else {
                    assert(lines[k] == line);
                    match index_of(d1, line) {
                        Some(j) => {
                            assert(j < d1.len() <= max);
                            assert(t[k] == j as u32);
                            assert((j as u32) as int == j);
                        },
                        None => {
                            assert(t[k] == d1.len() as u32);
                            assert((d1.len() as u32) as int == d1.len());
                        },
                    }
                }
            }
            assert(tokens_index(lines, d2, t));
            assert(d.len() <= d2.len());
            assert(d2.subrange(0, d.len() as int) == d);
            assert(t.len() == lines.len());
            assert(interned(lines, d, d2, t));
        }
    } else {
        assert(d.subrange(0, d.len() as int) =~= d);
        assert(interned(lines, d, d, Seq::empty()));
    }
}

/// Spans that match on tokens match on the lines the tokens stand for.
proof fn lemma_lift_spans(
    ops: Seq<Opcode>,
    t1: Seq<u32>,
    t2: Seq<u32>,
    bl: Seq<Seq<u8>>,
    al: Seq<Seq<u8>>,
    d: Seq<Seq<u8>>,
)
    requires
        spans_match(ops, t1, t2),
        opcodes_ok(ops, bl.len() as int, al.len() as int),
        t1.len() == bl.len(),
        t2.len() == al.len(),
        tokens_index(bl, d, t1),
        tokens_index(al, d, t2),
    ensures
        spans_match(ops, bl, al),
{
    assert forall|i: int| 0 <= i < ops.len() implies span_matches(#[trigger] ops[i], bl, al) by {
        let op = ops[i];
        assert(opcode_ok(op, bl.len() as int, al.len() as int));
        assert(span_matches(op, t1, t2));
        if op.tag == Tag::Equal {
            let s1 = t1.subrange(op.a_start as int, op.a_end as int);
            let s2 = t2.subrange(op.b_start as int, op.b_end as int);
            let x = bl.subrange(op.a_start as int, op.a_end as int);
            let y = al.subrange(op.b_start as int, op.b_end as int);
            assert forall|j: int| 0 <= j < x.len() implies #[trigger] x[j] == y[j] by {
                assert(token_at(bl, d, t1, op.a_start + j));
                assert(token_at(al, d, t2, op.b_start + j));
                assert(s1[j] == t1[op.a_start + j]);
                assert(s2[j] == t2[op.b_start + j]);
                assert(s1[j] == s2[j]);
                assert(bl[op.a_start + j] == x[j]);
                assert(al[op.b_start + j] == y[j]);
            }
            assert(x =~= y);
        }
    }
}

/// A whole-file replacement rebuilds the new items.
proof fn lemma_whole_file_rebuilt<T>(b: Seq<T>, a: Seq<T>)
    requires
        b.len() <= usize::MAX,
        a.len() <= usize::MAX,
    ensures
        rebuilt(whole_file_spec(b.len() as usize, a.len() as usize), b, a) == a,
        spans_match(whole_file_spec(b.len() as usize, a.len() as usize), b, a),
        spans_cover(whole_file_spec(b.len() as usize, a.len() as usize), b.len() as int, a.len() as int),
{
    let ops = whole_file_spec(b.len() as usize, a.len() as usize);
    assert(rebuilt(Seq::<Opcode>::empty(), b, a) =~= Seq::<T>::empty());
    if b.len() > 0 {
        let d = seq![Opcode { tag: Tag::Delete, a_start: 0, a_end: b.len() as usize, b_start: 0, b_end: 0 }];
        assert(d.drop_last() =~= Seq::<Opcode>::empty());
        assert(new_side(d.last(), b, a) =~= Seq::<T>::empty());
        assert(rebuilt(d, b, a) =~= Seq::<T>::empty());
        if a.len() > 0 {
            assert(ops.drop_last() =~= d);
            assert(new_side(ops.last(), b, a) =~= a);
            assert(rebuilt(ops, b, a) =~= a);
        } else {
            assert(ops == d);
            assert(a =~= Seq::<T>::empty());
        }
    } else if a.len() > 0 {
        assert(ops.drop_last() =~= Seq::<Opcode>::empty());
        assert(new_side(ops.last(), b, a) =~= a);
        assert(rebuilt(ops, b, a) =~= a);
    } else {
        assert(a =~= Seq::<T>::empty());
    }
}

/// The spans built from the engine's hunks for interned lines rebuild the new
/// lines from the old ones.
proof fn lemma_engine_spans_rebuild(
    bl: Seq<Seq<u8>>,
    al: Seq<Seq<u8>>,
    max_sequence_len: usize,
    max_token_count: u32,
    hunks: Seq<DiffHunk>,
)
    requires
        intern_spec(bl, al, max_sequence_len, max_token_count) is Some,
        hunks_well_formed(
            hunks,
            intern_spec(bl, al, max_sequence_len, max_token_count).unwrap().0.len() as int,
            intern_spec(bl, al, max_sequence_len, max_token_count).unwrap().1.len() as int,
        ),
        hunks_match(
            hunks,
            intern_spec(bl, al, max_sequence_len, max_token_count).unwrap().0,
            intern_spec(bl, al, max_sequence_len, max_token_count).unwrap().1,
        ),
        bl.len() <= usize::MAX,
        al.len() <= usize::MAX,
    ensures
        rebuilt(opcodes_from_hunks_spec(hunks, bl.len() as usize, al.len() as usize), bl, al) == al,
        spans_match(opcodes_from_hunks_spec(hunks, bl.len() as usize, al.len() as usize), bl, al),
        spans_cover(
            opcodes_from_hunks_spec(hunks, bl.len() as usize, al.len() as usize),
            bl.len() as int,
            al.len() as int,
        ),
{
    let (d1, t1, ok1) = intern_fold(bl, Seq::empty(), max_token_count);
    let (d2, t2, ok2) = intern_fold(al, d1, max_token_count);
    lemma_intern_fold(bl, Seq::empty(), max_token_count);
    lemma_intern_dict(bl, Seq::empty(), max_token_count);
    lemma_intern_dict(al, d1, max_token_count);
    assert(interned(bl, Seq::empty(), d1, t1));
    assert(interned(al, d1, d2, t2));
    assert forall|k: int| 0 <= k < bl.len() implies #[trigger] token_at(bl, d2, t1, k) by {
        assert(token_at(bl, d1, t1, k));
        assert(d2.subrange(0, d1.len() as int)[t1[k] as int] == d2[t1[k] as int]);
    }
    let ops = opcodes_from_hunks_spec(hunks, bl.len() as usize, al.len() as usize);
    lemma_opcodes_from_hunks_match(hunks, t1, t2);
    lemma_hunk_fold_ok(hunks, bl.len() as int, al.len() as int);
    lemma_opcodes_from_hunks_contiguous(hunks, bl.len() as usize, al.len() as usize);
    let (c, bi, ai) = hunk_fold(hunks);
    if bi < bl.len() || ai < al.len() {
        lemma_push_ok(
            c,
            mk_op(Tag::Equal, bi, bl.len() as int, ai, al.len() as int),
            bl.len() as int,
            al.len() as int,
        );
    }
    lemma_lift_spans(ops, t1, t2, bl, al, d2);
    if ops.len() > 0 {
        lemma_rebuilt(ops, bl, al);
        assert(al.subrange(0, al.len() as int) =~= al);
    } else {
        assert(al =~= Seq::<Seq<u8>>::empty());
    }
}

} // verus!
