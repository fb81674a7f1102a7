//! How large a unified diff can grow: its body is linear in the sizes of the
//! two texts, since every old and every new line is shown at most once.
use vstd::prelude::*;

use crate::decimal::decimal;
use crate::diagnostics::str_bytes;
use crate::diff::{
    contiguous, groups_ok, groups_text, hunk_header, keepends_lines, lemma_run_extent,
    lemma_split_count, link, marked_lines, op_text, opcode_ok, opcodes_ok, ops_text, range_text,
    Opcode,
};
use crate::parser::newline::{join_segments, lemma_split_join, physical_lines};

verus! {

/// Total number of bytes in a list of lines.
pub open spec fn lines_len(ls: Seq<Seq<u8>>) -> int
    decreases ls.len(),
{
    if ls.len() == 0 {
        0
    } else {
        lines_len(ls.drop_last()) + ls.last().len()
    }
}

pub proof fn lemma_lines_len_nonneg(ls: Seq<Seq<u8>>)
    ensures
        lines_len(ls) >= 0,
    decreases ls.len(),
{
    if ls.len() > 0 {
        lemma_lines_len_nonneg(ls.drop_last());
    }
}

pub proof fn lemma_lines_len_concat(a: Seq<Seq<u8>>, b: Seq<Seq<u8>>)
    ensures
        lines_len(a + b) == lines_len(a) + lines_len(b),
    decreases b.len(),
{
    if b.len() == 0 {
        assert(a + b =~= a);
    } else {
        lemma_lines_len_concat(a, b.drop_last());
        assert((a + b).drop_last() =~= a + b.drop_last());
        assert((a + b).last() == b.last());
    }
}

/// The bytes of lines `i..k` are those of `i..j` followed by those of `j..k`.
pub proof fn lemma_lines_len_split(ls: Seq<Seq<u8>>, i: int, j: int, k: int)
    requires
        0 <= i <= j <= k <= ls.len(),
    ensures
        lines_len(ls.subrange(i, k)) == lines_len(ls.subrange(i, j)) + lines_len(ls.subrange(j, k)),
        lines_len(ls.subrange(i, j)) >= 0,
        lines_len(ls.subrange(j, k)) >= 0,
{
    assert(ls.subrange(i, k) =~= ls.subrange(i, j) + ls.subrange(j, k));
    lemma_lines_len_concat(ls.subrange(i, j), ls.subrange(j, k));
    lemma_lines_len_nonneg(ls.subrange(i, j));
    lemma_lines_len_nonneg(ls.subrange(j, k));
}

/// The lines of a split text, each with its terminator, hold as many bytes as
/// the joined segments.
pub proof fn lemma_lines_len_join(segs: Seq<(Seq<u8>, Seq<u8>)>, m: Seq<Seq<u8>>)
    requires
        m.len() == segs.len(),
        forall|i: int| 0 <= i < m.len() ==> #[trigger] m[i] == segs[i].0 + segs[i].1,
    ensures
        lines_len(m) == join_segments(segs).len(),
    decreases segs.len(),
{
    if segs.len() > 0 {
        let rest = m.drop_first();
        assert forall|i: int| 0 <= i < rest.len() implies #[trigger] rest[i] == segs.drop_first()[i].0
            + segs.drop_first()[i].1 by {
            assert(rest[i] == m[i + 1]);
        }
        lemma_lines_len_join(segs.drop_first(), rest);
        assert(m =~= seq![m[0]] + rest);
        lemma_lines_len_concat(seq![m[0]], rest);
        let one = seq![m[0]];
        assert(one.last() == m[0]);
        assert(one.drop_last().len() == 0);
        assert(lines_len(one.drop_last()) == 0);
        assert(lines_len(one) == m[0].len());
        assert(m[0] == segs[0].0 + segs[0].1);
        assert(join_segments(segs) == segs[0].0 + segs[0].1 + join_segments(segs.drop_first()));
    } else {
        assert(join_segments(segs) =~= Seq::<u8>::empty());
    }
}

/// The lines of a text, terminators kept, hold exactly its bytes.
pub proof fn lemma_keepends_len(t: Seq<u8>)
    ensures
        lines_len(keepends_lines(t)) == t.len(),
        keepends_lines(t).len() <= t.len(),
{
    let segs = physical_lines(t);
    let m = keepends_lines(t);
    assert forall|i: int| 0 <= i < m.len() implies #[trigger] m[i] == segs[i].0 + segs[i].1 by {}
    lemma_lines_len_join(segs, m);
    lemma_split_join(t, 0);
    assert(t.subrange(0, t.len() as int) =~= t);
    lemma_split_count(t, 0);
}

/// Marking lines adds one byte per line.
pub proof fn lemma_marked_len(ls: Seq<Seq<u8>>, mark: u8)
    ensures
        marked_lines(ls, mark).len() == ls.len() + lines_len(ls),
    decreases ls.len(),
{
    if ls.len() > 0 {
        lemma_marked_len(ls.drop_last(), mark);
    }
}

/// UTF-8 takes at most four bytes per character.
pub proof fn lemma_str_bytes_len(s: Seq<char>)
    ensures
        str_bytes(s).len() <= 4 * s.len(),
    decreases s.len(),
{
    if s.len() > 0 {
        lemma_str_bytes_len(s.drop_first());
    }
}

pub open spec fn ten_pow(d: nat) -> nat
    decreases d,
{
    if d == 0 {
        1
    } else {
        10 * ten_pow((d - 1) as nat)
    }
}

/// A number below `10^digits` takes at most `digits` decimal digits.
pub proof fn lemma_decimal_len(n: nat, digits: nat)
    requires
        1 <= digits,
        n < ten_pow(digits),
    ensures
        decimal(n).len() <= digits,
    decreases digits,
{
    if n >= 10 {
        assert(ten_pow(0) == 1);
        assert(ten_pow(1) == 10);
        assert(digits >= 2);
        assert(n / 10 < ten_pow((digits - 1) as nat));
        lemma_decimal_len(n / 10, (digits - 1) as nat);
    }
}

/// A range below 99999 lines prints in at most fourteen bytes.
pub proof fn lemma_range_text_len(start: int, stop: int)
    requires
        0 <= start <= stop < 99999,
    ensures
        range_text(start, stop).len() <= 14,
{
    assert(ten_pow(5) == 100000) by {
        reveal_with_fuel(ten_pow, 6);
    }
    reveal_strlit(",");
    assert(","@.len() == 1);
    lemma_str_bytes_len(","@);
    lemma_decimal_len((start + 1) as nat, 5);
    lemma_decimal_len(start as nat, 5);
    lemma_decimal_len(0, 5);
    lemma_decimal_len((stop - start) as nat, 5);
}

/// A hunk header over fewer than 99999 lines on each side is at most 68 bytes.
pub proof fn lemma_hunk_header_len(g: Seq<Opcode>)
    requires
        g.len() > 0,
        g[0].a_start <= g.last().a_end < 99999,
        g[0].b_start <= g.last().b_end < 99999,
    ensures
        hunk_header(g).len() <= 68,
{
    lemma_range_text_len(g[0].a_start as int, g.last().a_end as int);
    lemma_range_text_len(g[0].b_start as int, g.last().b_end as int);
    reveal_strlit("@@ -");
    reveal_strlit(" +");
    reveal_strlit(" @@\n");
    lemma_str_bytes_len("@@ -"@);
    lemma_str_bytes_len(" +"@);
    lemma_str_bytes_len(" @@\n"@);
}

/// What showing old lines `a0..a1` and new lines `b0..b1` may cost: one marker
/// per line and the lines' bytes.
pub open spec fn span_cost(
    bl: Seq<Seq<u8>>,
    al: Seq<Seq<u8>>,
    a0: int,
    a1: int,
    b0: int,
    b1: int,
) -> int {
    (a1 - a0) + (b1 - b0) + lines_len(bl.subrange(a0, a1)) + lines_len(al.subrange(b0, b1))
}

pub proof fn lemma_op_text_len(op: Opcode, bl: Seq<Seq<u8>>, al: Seq<Seq<u8>>)
    requires
        opcode_ok(op, bl.len() as int, al.len() as int),
    ensures
        op_text(op, bl, al).len() <= span_cost(
            bl,
            al,
            op.a_start as int,
            op.a_end as int,
            op.b_start as int,
            op.b_end as int,
        ),
{
    let sa = bl.subrange(op.a_start as int, op.a_end as int);
    let sb = al.subrange(op.b_start as int, op.b_end as int);
    lemma_lines_len_nonneg(sa);
    lemma_lines_len_nonneg(sb);
    lemma_marked_len(sa, 32);
    lemma_marked_len(sa, 45);
    lemma_marked_len(sb, 43);
}

/// The body of a contiguous run of spans costs no more than its extent.
pub proof fn lemma_ops_text_len(g: Seq<Opcode>, bl: Seq<Seq<u8>>, al: Seq<Seq<u8>>)
    requires
        g.len() > 0,
        opcodes_ok(g, bl.len() as int, al.len() as int),
        contiguous(g),
    ensures
        ops_text(g, bl, al).len() <= span_cost(
            bl,
            al,
            g[0].a_start as int,
            g.last().a_end as int,
            g[0].b_start as int,
            g.last().b_end as int,
        ),
    decreases g.len(),
{
    let blen = bl.len() as int;
    let alen = al.len() as int;
    let last = g.last();
    assert(opcode_ok(g[g.len() - 1], blen, alen));
    lemma_op_text_len(last, bl, al);
    if g.len() == 1 {
        assert(g.drop_last() =~= Seq::<Opcode>::empty());
        assert(ops_text(g, bl, al) == ops_text(g.drop_last(), bl, al) + op_text(last, bl, al));
        assert(ops_text(g.drop_last(), bl, al) =~= Seq::<u8>::empty());
    } else {
        let prev = g.drop_last();
        assert(prev[0] == g[0]);
        assert(prev.last() == g[g.len() - 2]);
        assert forall|i: int| 0 <= i < prev.len() implies opcode_ok(#[trigger] prev[i], blen, alen) by {
            assert(opcode_ok(g[i], blen, alen));
        }
        assert forall|i: int| 0 <= i < prev.len() - 1 implies #[trigger] link(prev, i) by {
            assert(link(g, i));
        }
        lemma_ops_text_len(prev, bl, al);
        lemma_run_extent(prev, blen, alen);
        assert(link(g, g.len() - 2));
        lemma_lines_len_split(bl, g[0].a_start as int, last.a_start as int, last.a_end as int);
        lemma_lines_len_split(al, g[0].b_start as int, last.b_start as int, last.b_end as int);
        assert(ops_text(g, bl, al) == ops_text(prev, bl, al) + op_text(last, bl, al));
    }
}

/// A group shows at least one line.
pub open spec fn span_nonempty(g: Seq<Opcode>) -> bool {
    g[0].a_start < g.last().a_end || g[0].b_start < g.last().b_end
}

/// Groups that each show a line and follow one another without overlap.
pub open spec fn groups_ordered(gs: Seq<Seq<Opcode>>) -> bool {
    &&& forall|k: int| 0 <= k < gs.len() ==> span_nonempty(#[trigger] gs[k])
    &&& forall|k: int|
        0 < k < gs.len() ==> gs[k - 1].last().a_end <= (#[trigger] gs[k])[0].a_start
            && gs[k - 1].last().b_end <= gs[k][0].b_start
}

/// Where the last group ends on the old side.
pub open spec fn groups_end_a(gs: Seq<Seq<Opcode>>) -> int {
    if gs.len() == 0 {
        0
    } else {
        gs.last().last().a_end as int
    }
}

/// Where the last group ends on the new side.
pub open spec fn groups_end_b(gs: Seq<Seq<Opcode>>) -> int {
    if gs.len() == 0 {
        0
    } else {
        gs.last().last().b_end as int
    }
}

/// Dropping the last group keeps the others as they were, and they end
/// before it begins.
#[verifier::spinoff_prover]
#[verifier::rlimit(40)]
proof fn lemma_groups_drop_last(gs: Seq<Seq<Opcode>>, blen: int, alen: int)
    requires
        gs.len() > 0,
        groups_ok(gs, blen, alen),
        groups_ordered(gs),
    ensures
        groups_ok(gs.drop_last(), blen, alen),
        groups_ordered(gs.drop_last()),
        gs.last().len() > 0,
        opcodes_ok(gs.last(), blen, alen),
        contiguous(gs.last()),
        span_nonempty(gs.last()),
        groups_end_a(gs.drop_last()) <= gs.last()[0].a_start,
        groups_end_b(gs.drop_last()) <= gs.last()[0].b_start,
{
    let prev = gs.drop_last();
    assert forall|k: int| 0 <= k < prev.len() implies (#[trigger] prev[k]).len() > 0 && opcodes_ok(
        prev[k],
        blen,
        alen,
    ) && contiguous(prev[k]) by {
        assert(prev[k] == gs[k]);
    }
    assert forall|k: int| 0 <= k < prev.len() implies span_nonempty(#[trigger] prev[k]) by {
        assert(prev[k] == gs[k]);
    }
    assert forall|k: int| 0 < k < prev.len() implies prev[k - 1].last().a_end <= (
    #[trigger] prev[k])[0].a_start && prev[k - 1].last().b_end <= prev[k][0].b_start by {
        assert(prev[k] == gs[k]);
        assert(prev[k - 1] == gs[k - 1]);
    }
    assert(gs[gs.len() - 1] == gs.last());
    if prev.len() > 0 {
        assert(prev.last() == gs[gs.len() - 2]);
    }
}

/// The hunks' text is bounded by 69 bytes per line up to where they end, plus
/// those lines' bytes.
#[verifier::spinoff_prover]
#[verifier::rlimit(40)]
pub proof fn lemma_groups_text_len(gs: Seq<Seq<Opcode>>, bl: Seq<Seq<u8>>, al: Seq<Seq<u8>>)
    requires
        groups_ok(gs, bl.len() as int, al.len() as int),
        groups_ordered(gs),
        bl.len() < 99999,
        al.len() < 99999,
    ensures
        0 <= groups_end_a(gs) <= bl.len(),
        0 <= groups_end_b(gs) <= al.len(),
        groups_text(gs, bl, al).len() <= 69 * (groups_end_a(gs) + groups_end_b(gs)) + lines_len(
            bl.subrange(0, groups_end_a(gs)),
        ) + lines_len(al.subrange(0, groups_end_b(gs))),
    decreases gs.len(),
{
    let blen = bl.len() as int;
    let alen = al.len() as int;
    if gs.len() == 0 {
        assert(bl.subrange(0, 0) =~= Seq::<Seq<u8>>::empty());
        assert(al.subrange(0, 0) =~= Seq::<Seq<u8>>::empty());
    } else {
        let prev = gs.drop_last();
        let g = gs.last();
        lemma_groups_drop_last(gs, blen, alen);
        lemma_groups_text_len(prev, bl, al);
        lemma_run_extent(g, blen, alen);
        assert(opcode_ok(g[0], blen, alen));
        assert(opcode_ok(g[g.len() - 1], blen, alen));
        lemma_hunk_header_len(g);
        lemma_ops_text_len(g, bl, al);
        let ea = groups_end_a(prev);
        let eb = groups_end_b(prev);
        assert(ea <= g[0].a_start);
        assert(eb <= g[0].b_start);
        lemma_lines_len_split(bl, 0, ea, g[0].a_start as int);
        lemma_lines_len_split(bl, 0, g[0].a_start as int, g.last().a_end as int);
        lemma_lines_len_split(al, 0, eb, g[0].b_start as int);
        lemma_lines_len_split(al, 0, g[0].b_start as int, g.last().b_end as int);
        let sa = g.last().a_end - g[0].a_start;
        let sb = g.last().b_end - g[0].b_start;
        assert(sa + sb >= 1);
        assert(groups_text(gs, bl, al) == groups_text(prev, bl, al) + hunk_header(g) + ops_text(
            g,
            bl,
            al,
        ));
    }
}

} // verus!
