//! Applying a unified diff's hunks to the old lines gives the new lines.
//!
//! Each hunk prints its spans: ` ` and `-` lines are its old lines, ` ` and
//! `+` lines its new lines. Between hunks, and before the first and after the
//! last, the old and the new lines are equal.
use vstd::prelude::*;

use crate::diff::{
    contiguous, group_fold, grouped_spec, groups_ok, has_change, lemma_group_fold,
    lemma_grouped_ok, lemma_rebuilt, lemma_run_extent, lemma_trim_ok, link, opcode_ok, opcodes_ok,
    rebuilt, span_matches, spans_cover, spans_match, trim_first, trim_last, Opcode, Tag,
};
use crate::diff_size::{groups_end_a, groups_end_b};

verus! {

/// Old items `pa..qa` equal new items `pb..qb`.
pub open spec fn aligned<T>(b: Seq<T>, a: Seq<T>, pa: int, pb: int, qa: int, qb: int) -> bool {
    &&& 0 <= pa <= qa <= b.len()
    &&& 0 <= pb <= qb <= a.len()
    &&& qa - pa == qb - pb
    &&& b.subrange(pa, qa) == a.subrange(pb, qb)
}

proof fn lemma_aligned_join<T>(b: Seq<T>, a: Seq<T>, pa: int, pb: int, qa: int, qb: int, ra: int, rb: int)
    requires
        aligned(b, a, pa, pb, qa, qb),
        aligned(b, a, qa, qb, ra, rb),
    ensures
        aligned(b, a, pa, pb, ra, rb),
{
    assert(b.subrange(pa, ra) =~= b.subrange(pa, qa) + b.subrange(qa, ra));
    assert(a.subrange(pb, rb) =~= a.subrange(pb, qb) + a.subrange(qb, rb));
}

proof fn lemma_aligned_part<T>(b: Seq<T>, a: Seq<T>, pa: int, pb: int, ra: int, rb: int, qa: int, qb: int)
    requires
        aligned(b, a, pa, pb, ra, rb),
        pa <= qa <= ra,
        qb == pb + (qa - pa),
    ensures
        aligned(b, a, pa, pb, qa, qb),
        aligned(b, a, qa, qb, ra, rb),
{
    assert(b.subrange(pa, qa) =~= b.subrange(pa, ra).subrange(0, qa - pa));
    assert(a.subrange(pb, qb) =~= a.subrange(pb, rb).subrange(0, qb - pb));
    assert(b.subrange(qa, ra) =~= b.subrange(pa, ra).subrange(qa - pa, ra - pa));
    assert(a.subrange(qb, rb) =~= a.subrange(pb, rb).subrange(qb - pb, rb - pb));
}

/// A part of an aligned stretch, equal on both sides, is an equal span that matches.
proof fn lemma_equal_part<T>(op: Opcode, b: Seq<T>, a: Seq<T>, pa: int, pb: int, ra: int, rb: int)
    requires
        op.tag == Tag::Equal,
        aligned(b, a, pa, pb, ra, rb),
        pa <= op.a_start <= op.a_end <= ra,
        op.b_start == pb + (op.a_start - pa),
        op.b_end == pb + (op.a_end - pa),
    ensures
        span_matches(op, b, a),
        aligned(b, a, op.a_start as int, op.b_start as int, op.a_end as int, op.b_end as int),
{
    lemma_aligned_part(b, a, pa, pb, ra, rb, op.a_start as int, op.b_start as int);
    lemma_aligned_part(
        b,
        a,
        op.a_start as int,
        op.b_start as int,
        ra,
        rb,
        op.a_end as int,
        op.b_end as int,
    );
}

/// A run of equal spans that match is one aligned stretch.
proof fn lemma_equal_run_aligned<T>(g: Seq<Opcode>, b: Seq<T>, a: Seq<T>)
    requires
        g.len() > 0,
        opcodes_ok(g, b.len() as int, a.len() as int),
        contiguous(g),
        spans_match(g, b, a),
        forall|i: int| 0 <= i < g.len() ==> (#[trigger] g[i]).tag == Tag::Equal,
    ensures
        aligned(b, a, g[0].a_start as int, g[0].b_start as int, g.last().a_end as int, g.last().b_end as int),
    decreases g.len(),
{
    let l = g.last();
    assert(opcode_ok(g[g.len() - 1], b.len() as int, a.len() as int));
    assert(span_matches(g[g.len() - 1], b, a));
    assert(g[g.len() - 1].tag == Tag::Equal);
    if g.len() > 1 {
        let prev = g.drop_last();
        assert forall|i: int| 0 <= i < prev.len() implies opcode_ok(#[trigger] prev[i], b.len() as int, a.len() as int)
            && span_matches(prev[i], b, a) && prev[i].tag == Tag::Equal by {
            assert(opcode_ok(g[i], b.len() as int, a.len() as int));
            assert(span_matches(g[i], b, a));
            assert(g[i].tag == Tag::Equal);
        }
        assert forall|i: int| 0 <= i < prev.len() - 1 implies #[trigger] link(prev, i) by {
            assert(link(g, i));
        }
        lemma_equal_run_aligned(prev, b, a);
        assert(link(g, g.len() - 2));
        assert(prev[0] == g[0]);
        lemma_aligned_join(
            b,
            a,
            g[0].a_start as int,
            g[0].b_start as int,
            l.a_start as int,
            l.b_start as int,
            l.a_end as int,
            l.b_end as int,
        );
    }
}

/// Every group's spans match.
pub open spec fn groups_match<T>(gs: Seq<Seq<Opcode>>, b: Seq<T>, a: Seq<T>) -> bool {
    forall|k: int| 0 <= k < gs.len() ==> spans_match(#[trigger] gs[k], b, a)
}

/// Where group `k - 1` ends on the old side (the start for `k == 0`).
pub open spec fn prev_end_a(gs: Seq<Seq<Opcode>>, k: int) -> int {
    if k == 0 {
        0
    } else {
        gs[k - 1].last().a_end as int
    }
}

/// Where group `k - 1` ends on the new side (the start for `k == 0`).
pub open spec fn prev_end_b(gs: Seq<Seq<Opcode>>, k: int) -> int {
    if k == 0 {
        0
    } else {
        gs[k - 1].last().b_end as int
    }
}

/// Before each group, the old and the new lines since the previous group are equal.
pub open spec fn gaps_aligned<T>(gs: Seq<Seq<Opcode>>, b: Seq<T>, a: Seq<T>) -> bool {
    forall|k: int|
        0 <= k < gs.len() ==> aligned(
            b,
            a,
            prev_end_a(gs, k),
            prev_end_b(gs, k),
            (#[trigger] gs[k])[0].a_start as int,
            gs[k][0].b_start as int,
        )
}

/// The new lines that applying the hunks gives, up to the end of the last
/// hunk: the old lines before each hunk, then the hunk's new side (its ` `
/// and `+` lines).
pub open spec fn hunks_applied<T>(gs: Seq<Seq<Opcode>>, b: Seq<T>, a: Seq<T>) -> Seq<T>
    decreases gs.len(),
{
    if gs.len() == 0 {
        Seq::empty()
    } else {
        hunks_applied(gs.drop_last(), b, a) + b.subrange(
            groups_end_a(gs.drop_last()),
            gs.last()[0].a_start as int,
        ) + rebuilt(gs.last(), b, a)
    }
}

/// The new lines that applying the hunks to the old lines gives: as above,
/// then the old lines after the last hunk.
pub open spec fn patched<T>(gs: Seq<Seq<Opcode>>, b: Seq<T>, a: Seq<T>) -> Seq<T> {
    hunks_applied(gs, b, a) + b.subrange(groups_end_a(gs), b.len() as int)
}

/// Groups that match, with equal lines between them, apply to the new lines
/// up to the end of the last group.
proof fn lemma_hunks_applied<T>(gs: Seq<Seq<Opcode>>, b: Seq<T>, a: Seq<T>)
    requires
        groups_ok(gs, b.len() as int, a.len() as int),
        groups_match(gs, b, a),
        gaps_aligned(gs, b, a),
    ensures
        hunks_applied(gs, b, a) == a.subrange(0, groups_end_b(gs)),
        0 <= groups_end_a(gs) <= b.len(),
        0 <= groups_end_b(gs) <= a.len(),
    decreases gs.len(),
{
    let blen = b.len() as int;
    let alen = a.len() as int;
    if gs.len() == 0 {
        assert(a.subrange(0, 0) =~= Seq::<T>::empty());
    } else {
        let prev = gs.drop_last();
        let g = gs.last();
        assert forall|k: int| 0 <= k < prev.len() implies (#[trigger] prev[k]).len() > 0 && opcodes_ok(
            prev[k],
            blen,
            alen,
        ) && contiguous(prev[k]) && spans_match(prev[k], b, a) by {
            assert(prev[k] == gs[k]);
        }
        assert forall|k: int| 0 <= k < prev.len() implies aligned(
            b,
            a,
            prev_end_a(prev, k),
            prev_end_b(prev, k),
            (#[trigger] prev[k])[0].a_start as int,
            prev[k][0].b_start as int,
        ) by {
            assert(prev[k] == gs[k]);
            if k > 0 {
                assert(prev[k - 1] == gs[k - 1]);
            }
            assert(aligned(
                b,
                a,
                prev_end_a(gs, k),
                prev_end_b(gs, k),
                gs[k][0].a_start as int,
                gs[k][0].b_start as int,
            ));
        }
        lemma_hunks_applied(prev, b, a);
        let k = gs.len() - 1;
        assert(gs[k] == g);
        assert(g.len() > 0 && opcodes_ok(g, blen, alen) && contiguous(g) && spans_match(g, b, a));
        if k > 0 {
            assert(prev.last() == gs[k - 1]);
        }
        assert(prev_end_a(gs, k) == groups_end_a(prev));
        assert(prev_end_b(gs, k) == groups_end_b(prev));
        assert(aligned(b, a, groups_end_a(prev), groups_end_b(prev), g[0].a_start as int, g[0].b_start as int));
        lemma_rebuilt(g, b, a);
        lemma_run_extent(g, blen, alen);
        assert(opcode_ok(g[g.len() - 1], blen, alen));
        assert(a.subrange(0, g.last().b_end as int) =~= a.subrange(0, groups_end_b(prev)) + a.subrange(
            groups_end_b(prev),
            g[0].b_start as int,
        ) + a.subrange(g[0].b_start as int, g.last().b_end as int));
    }
}

/// Grouping keeps every span matching and the lines between groups equal.
#[verifier::spinoff_prover]
#[verifier::rlimit(60)]
proof fn lemma_group_fold_aligned<T>(codes: Seq<Opcode>, ctx: usize, n: int, b: Seq<T>, a: Seq<T>)
    requires
        opcodes_ok(codes, b.len() as int, a.len() as int),
        contiguous(codes),
        spans_match(codes, b, a),
        codes.len() > 0 ==> aligned(b, a, 0, 0, codes[0].a_start as int, codes[0].b_start as int),
        0 <= n <= codes.len(),
        0 < ctx <= usize::MAX / 2,
    ensures
        groups_match(group_fold(codes.subrange(0, n), ctx).0, b, a),
        spans_match(group_fold(codes.subrange(0, n), ctx).1, b, a),
        gaps_aligned(group_fold(codes.subrange(0, n), ctx).0, b, a),
        n > 0 ==> aligned(
            b,
            a,
            groups_end_a(group_fold(codes.subrange(0, n), ctx).0),
            groups_end_b(group_fold(codes.subrange(0, n), ctx).0),
            group_fold(codes.subrange(0, n), ctx).1[0].a_start as int,
            group_fold(codes.subrange(0, n), ctx).1[0].b_start as int,
        ),
        n == 0 ==> group_fold(codes.subrange(0, n), ctx).0.len() == 0 && group_fold(
            codes.subrange(0, n),
            ctx,
        ).1.len() == 0,
    decreases n,
{
    let blen = b.len() as int;
    let alen = a.len() as int;
    let pre = codes.subrange(0, n);
    if n == 0 {
        assert(pre =~= Seq::<Opcode>::empty());
    } else {
        lemma_group_fold_aligned(codes, ctx, n - 1, b, a);
        lemma_group_fold(codes, ctx, n - 1, blen, alen);
        assert(pre.drop_last() =~= codes.subrange(0, n - 1));
        let (gs, g) = group_fold(codes.subrange(0, n - 1), ctx);
        let code = codes[n - 1];
        assert(opcode_ok(code, blen, alen));
        assert(span_matches(code, b, a));
        if n > 1 {
            assert(link(codes, n - 2));
        }
        if code.tag == Tag::Equal && code.a_end - code.a_start > 2 * ctx {
            let head = Opcode {
                tag: Tag::Equal,
                a_start: code.a_start,
                a_end: (code.a_start + ctx) as usize,
                b_start: code.b_start,
                b_end: (code.b_start + ctx) as usize,
            };
            let tail = Opcode {
                a_start: (code.a_end - ctx) as usize,
                b_start: (code.b_end - ctx) as usize,
                ..code
            };
            let ca = code.a_start as int;
            let cb = code.b_start as int;
            let ea = code.a_end as int;
            let eb = code.b_end as int;
            lemma_equal_part(code, b, a, ca, cb, ea, eb);
            lemma_equal_part(head, b, a, ca, cb, ea, eb);
            lemma_equal_part(tail, b, a, ca, cb, ea, eb);
            lemma_aligned_part(b, a, ca, cb, ea, eb, ca + ctx, cb + ctx);
            lemma_aligned_part(b, a, ca + ctx, cb + ctx, ea, eb, ea - ctx, eb - ctx);
            let c = g.push(head);
            let gs2 = gs.push(c);
            assert forall|i: int| 0 <= i < c.len() implies span_matches(#[trigger] c[i], b, a) by {
                if i < g.len() {
                    assert(c[i] == g[i]);
                }
            }
            assert forall|k: int| 0 <= k < gs2.len() implies spans_match(#[trigger] gs2[k], b, a) by {
                if k < gs.len() {
                    assert(gs2[k] == gs[k]);
                }
            }
            if n > 1 {
                assert(c[0] == g[0]);
            }
            assert forall|k: int| 0 <= k < gs2.len() implies aligned(
                b,
                a,
                prev_end_a(gs2, k),
                prev_end_b(gs2, k),
                (#[trigger] gs2[k])[0].a_start as int,
                gs2[k][0].b_start as int,
            ) by {
                if k < gs.len() {
                    assert(gs2[k] == gs[k]);
                    if k > 0 {
                        assert(gs2[k - 1] == gs[k - 1]);
                    }
                } else {
                    if k > 0 {
                        assert(gs2[k - 1] == gs[k - 1]);
                        assert(prev_end_a(gs2, k) == groups_end_a(gs));
                        assert(prev_end_b(gs2, k) == groups_end_b(gs));
                    }
                }
            }
            let g3 = seq![tail];
            assert(g3[0] == tail);
            assert(gs2.last() == c);
            assert(c.last() == head);
        } else {
            let g2 = g.push(code);
            assert forall|i: int| 0 <= i < g2.len() implies span_matches(#[trigger] g2[i], b, a) by {
                if i < g.len() {
                    assert(g2[i] == g[i]);
                }
            }
            if n > 1 {
                assert(g2[0] == g[0]);
            }
        }
    }
}

/// Trimming the outer context keeps every span matching, with equal lines
/// before the first span and after the last.
#[verifier::spinoff_prover]
#[verifier::rlimit(40)]
proof fn lemma_trim_aligned<T>(ops: Seq<Opcode>, ctx: usize, b: Seq<T>, a: Seq<T>)
    requires
        ops.len() > 0,
        opcodes_ok(ops, b.len() as int, a.len() as int),
        spans_match(ops, b, a),
        spans_cover(ops, b.len() as int, a.len() as int),
        b.len() <= usize::MAX - ctx,
        a.len() <= usize::MAX - ctx,
        ctx > 0,
    ensures
        spans_match(trim_last(trim_first(ops, ctx), ctx), b, a),
        aligned(
            b,
            a,
            0,
            0,
            trim_last(trim_first(ops, ctx), ctx)[0].a_start as int,
            trim_last(trim_first(ops, ctx), ctx)[0].b_start as int,
        ),
        aligned(
            b,
            a,
            trim_last(trim_first(ops, ctx), ctx).last().a_end as int,
            trim_last(trim_first(ops, ctx), ctx).last().b_end as int,
            b.len() as int,
            a.len() as int,
        ),
{
    let blen = b.len() as int;
    let alen = a.len() as int;
    lemma_trim_ok(ops, ctx, blen, alen);
    let t1 = trim_first(ops, ctx);
    let f = ops[0];
    assert(opcode_ok(f, blen, alen));
    assert(span_matches(f, b, a));
    if f.tag == Tag::Equal {
        lemma_equal_part(f, b, a, 0, 0, f.a_end as int, f.b_end as int);
        lemma_equal_part(t1[0], b, a, 0, 0, f.a_end as int, f.b_end as int);
        lemma_aligned_part(b, a, 0, 0, f.a_end as int, f.b_end as int, t1[0].a_start as int, t1[0].b_start as int);
    } else {
        assert(t1[0] == f);
        assert(b.subrange(0, 0) =~= a.subrange(0, 0));
    }
    assert forall|i: int| 0 <= i < t1.len() implies span_matches(#[trigger] t1[i], b, a) by {
        if i > 0 {
            assert(t1[i] == ops[i]);
            assert(span_matches(ops[i], b, a));
        }
    }
    assert(aligned(b, a, 0, 0, t1[0].a_start as int, t1[0].b_start as int));
    let t2 = trim_last(t1, ctx);
    let l = t1.last();
    assert(t1.last() == t1[t1.len() - 1]);
    assert(span_matches(l, b, a));
    assert(opcode_ok(l, blen, alen));
    assert(l.a_end == blen && l.b_end == alen) by {
        if ops.len() > 1 {
            assert(t1[t1.len() - 1] == ops[ops.len() - 1]);
        }
    }
    if l.tag == Tag::Equal {
        lemma_equal_part(l, b, a, l.a_start as int, l.b_start as int, blen, alen);
        let nl = t2.last();
        assert(nl == t2[t2.len() - 1]);
        lemma_equal_part(nl, b, a, l.a_start as int, l.b_start as int, blen, alen);
        lemma_aligned_part(b, a, l.a_start as int, l.b_start as int, blen, alen, nl.a_end as int, nl.b_end as int);
        assert forall|i: int| 0 <= i < t2.len() implies span_matches(#[trigger] t2[i], b, a) by {
            if i < t2.len() - 1 {
                assert(t2[i] == t1[i]);
            }
        }
        if t1.len() == 1 {
            lemma_aligned_part(b, a, 0, 0, l.a_start as int, l.b_start as int, 0, 0);
        }
    } else {
        assert(t2 == t1);
        assert(b.subrange(blen, blen) =~= a.subrange(alen, alen));
    }
}

/// Applying the hunks of spans that match, run contiguously and cover both
/// sides gives back the new lines.
#[verifier::spinoff_prover]
#[verifier::rlimit(40)]
pub proof fn lemma_grouped_patched<T>(ops: Seq<Opcode>, ctx: usize, b: Seq<T>, a: Seq<T>)
    requires
        opcodes_ok(ops, b.len() as int, a.len() as int),
        contiguous(ops),
        spans_match(ops, b, a),
        spans_cover(ops, b.len() as int, a.len() as int),
        b.len() <= usize::MAX - ctx,
        a.len() <= usize::MAX - ctx,
        0 < ctx <= usize::MAX / 2,
    ensures
        patched(grouped_spec(ops, ctx), b, a) == a,
{
    let blen = b.len() as int;
    let alen = a.len() as int;
    if ops.len() == 0 {
        assert(b.subrange(0, 0) =~= a);
        assert(hunks_applied(Seq::<Seq<Opcode>>::empty(), b, a) =~= Seq::<T>::empty());
        assert(patched(grouped_spec(ops, ctx), b, a) =~= a);
    } else {
        lemma_trim_ok(ops, ctx, blen, alen);
        lemma_trim_aligned(ops, ctx, b, a);
        let t = trim_last(trim_first(ops, ctx), ctx);
        lemma_group_fold_aligned(t, ctx, t.len() as int, b, a);
        lemma_group_fold(t, ctx, t.len() as int, blen, alen);
        assert(t.subrange(0, t.len() as int) =~= t);
        let (gs, g) = group_fold(t, ctx);
        lemma_grouped_ok(ops, ctx, blen, alen);
        let r = grouped_spec(ops, ctx);
        if has_change(g) {
            assert(r == gs.push(g));
            assert forall|k: int| 0 <= k < r.len() implies spans_match(#[trigger] r[k], b, a) by {
                if k < gs.len() {
                    assert(r[k] == gs[k]);
                }
            }
            assert forall|k: int| 0 <= k < r.len() implies aligned(
                b,
                a,
                prev_end_a(r, k),
                prev_end_b(r, k),
                (#[trigger] r[k])[0].a_start as int,
                r[k][0].b_start as int,
            ) by {
                if k < gs.len() {
                    assert(r[k] == gs[k]);
                    if k > 0 {
                        assert(r[k - 1] == gs[k - 1]);
                    }
                } else if k > 0 {
                    assert(r[k - 1] == gs[k - 1]);
                    assert(prev_end_a(r, k) == groups_end_a(gs));
                    assert(prev_end_b(r, k) == groups_end_b(gs));
                }
            }
            lemma_hunks_applied(r, b, a);
            assert(r.last() == g);
            assert(groups_end_a(r) == t.last().a_end && groups_end_b(r) == t.last().b_end);
        } else {
            assert(r == gs);
            assert forall|i: int| 0 <= i < g.len() implies (#[trigger] g[i]).tag == Tag::Equal by {
                if g[i].tag != Tag::Equal {
                    assert(has_change(g));
                }
            }
            lemma_equal_run_aligned(g, b, a);
            lemma_hunks_applied(r, b, a);
            lemma_aligned_join(
                b,
                a,
                groups_end_a(r),
                groups_end_b(r),
                g[0].a_start as int,
                g[0].b_start as int,
                g.last().a_end as int,
                g.last().b_end as int,
            );
            lemma_aligned_join(
                b,
                a,
                groups_end_a(r),
                groups_end_b(r),
                g.last().a_end as int,
                g.last().b_end as int,
                blen,
                alen,
            );
        }
        assert(a =~= a.subrange(0, groups_end_b(r)) + a.subrange(groups_end_b(r), alen));
    }
}

} // verus!
