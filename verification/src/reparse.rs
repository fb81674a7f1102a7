//! Reading back what was written: a value set in a parsed document is what
//! the first binding of its key holds once the rendered file is parsed again.
use vstd::prelude::*;

use crate::model::{render_lines, BindingSpec, DocumentSpec, LineSpec};
use crate::diagnostics::{key_continue_byte, key_start_byte, str_bytes, valid_key_bytes};
use crate::editor::{
    appended_binding, binds, count_bindings, existing_line_encoding, first_index, first_value,
    lemma_count_zero, lemma_first_index_at, lemma_first_index_bounds, lemma_first_index_none,
    lines_without, rebound,
    set_value_spec, unset_spec, with_terminal_newline,
};
use crate::model::QuoteType;
use crate::parser::binding::{
    all_ascii_ws, binding_head, comment_suffix_start, equals_of, first_comment_hash, has_export,
    hws_run_start, is_ascii_ws, key_end_of, key_start_of, lemma_first_comment_hash,
    lemma_head_indices, lemma_skip_key,
    parse_binding_spec, parse_line_spec, skip_key, value_start_of,
};
use crate::parser::common::{
    all_hws, is_hws, lemma_all_hws_iff_skip, lemma_skip_hws, skip_hws, starts_with_comment,
};
use crate::render::{
    auto_encoding, double_quoted, escape_byte, escape_dq, law_decode_escape_roundtrip, safe_unquoted,
    unsafe_unquoted_byte,
};
use vstd::utf8::decode_utf8;
use crate::parser::quoted::{closing_quote, valid_quoted_suffix};
use crate::parser::{lemma_parse_line_renders, parse_segments, parsed_lines};
use crate::parser::newline::{
    is_line_break, join_segments, lemma_line_end, lemma_split_well_formed, line_end,
    physical_lines, split_from,
    terminator_at, well_formed_segment,
};

verus! {

/// Whether a segment's bytes begin with a line feed. A well-formed body has
/// no line break, so that happens only for an empty body before `\n` or `\r\n`.
pub open spec fn begins_with_lf(seg: (Seq<u8>, Seq<u8>)) -> bool {
    seg.0.len() == 0 && seg.1.len() > 0 && seg.1[0] == 10
}

/// A bare `\r` terminator at `i` is not followed by a line feed.
pub open spec fn no_split_crlf(segs: Seq<(Seq<u8>, Seq<u8>)>, i: int) -> bool {
    segs[i].1 == seq![13u8] ==> !begins_with_lf(segs[i + 1])
}

/// Segments that splitting their joined bytes gives back: well formed, only
/// the last may lack a terminator, none is empty, and no bare `\r` ends up
/// in front of a line feed.
pub open spec fn stable_segments(segs: Seq<(Seq<u8>, Seq<u8>)>) -> bool {
    &&& forall|i: int| 0 <= i < segs.len() ==> well_formed_segment(#[trigger] segs[i])
    &&& forall|i: int| 0 <= i < segs.len() - 1 ==> (#[trigger] segs[i]).1.len() > 0
    &&& forall|i: int| 0 <= i < segs.len() ==> (#[trigger] segs[i]).1.len() > 0 || segs[i].0.len() > 0
    &&& forall|i: int| 0 <= i < segs.len() - 1 ==> #[trigger] no_split_crlf(segs, i)
}

proof fn lemma_line_end_shift(p: Seq<u8>, b: Seq<u8>, i: int)
    requires
        0 <= i <= b.len(),
    ensures
        line_end(p + b, p.len() + i) == p.len() + line_end(b, i),
    decreases b.len() - i,
{
    let t = p + b;
    assert(t[p.len() + i] == b[i] || i == b.len());
    if i < b.len() && !is_line_break(b[i]) {
        lemma_line_end_shift(p, b, i + 1);
    }
}

/// Splitting is local: the lines from a point on depend only on the bytes from there.
#[verifier::spinoff_prover]
#[verifier::rlimit(50)]
pub proof fn lemma_split_shift(p: Seq<u8>, b: Seq<u8>, i: int)
    requires
        0 <= i <= b.len(),
    ensures
        split_from(p + b, p.len() + i) == split_from(b, i),
    decreases b.len() - i,
{
    let t = p + b;
    if i < b.len() {
        lemma_line_end_shift(p, b, i);
        lemma_line_end(b, i);
        let j = line_end(b, i);
        if j < b.len() {
            assert(t[p.len() + j] == b[j]);
            if j + 1 < b.len() {
                assert(t[p.len() + j + 1] == b[j + 1]);
            }
            assert(terminator_at(t, p.len() + j) == terminator_at(b, j));
            let nl = terminator_at(b, j);
            lemma_split_shift(p, b, j + nl.len());
            assert(t.subrange(p.len() + i, p.len() + j) =~= b.subrange(i, j));
        } else {
            assert(t.subrange(p.len() + i, t.len() as int) =~= b.subrange(i, b.len() as int));
        }
    }
}

/// Joining one more segment appends its bytes.
pub proof fn lemma_join_push(segs: Seq<(Seq<u8>, Seq<u8>)>, s: (Seq<u8>, Seq<u8>))
    ensures
        join_segments(segs.push(s)) == join_segments(segs) + s.0 + s.1,
    decreases segs.len(),
{
    if segs.len() == 0 {
        assert(segs.push(s).drop_first() =~= Seq::<(Seq<u8>, Seq<u8>)>::empty());
        assert(join_segments(Seq::<(Seq<u8>, Seq<u8>)>::empty()) =~= Seq::<u8>::empty());
        assert(join_segments(segs.push(s)) =~= join_segments(segs) + s.0 + s.1);
    } else {
        lemma_join_push(segs.drop_first(), s);
        assert(segs.push(s).drop_first() =~= segs.drop_first().push(s));
        assert(join_segments(segs.push(s)) =~= join_segments(segs) + s.0 + s.1);
    }
}

/// Stable segments come back from splitting what they join to.
#[verifier::spinoff_prover]
#[verifier::rlimit(50)]
pub proof fn lemma_split_join_stable(segs: Seq<(Seq<u8>, Seq<u8>)>)
    requires
        stable_segments(segs),
    ensures
        split_from(join_segments(segs), 0) == segs,
    decreases segs.len(),
{
    if segs.len() == 0 {
        assert(join_segments(segs) =~= Seq::<u8>::empty());
        assert(split_from(join_segments(segs), 0) =~= segs);
    } else {
        let s0 = segs[0];
        let rest = segs.drop_first();
        let jr = join_segments(rest);
        let head = s0.0 + s0.1;
        let t = join_segments(segs);
        assert(t == s0.0 + s0.1 + jr);
        assert(t =~= head + jr);
        assert(well_formed_segment(s0));
        assert(stable_segments(rest)) by {
            assert forall|i: int| 0 <= i < rest.len() implies well_formed_segment(#[trigger] rest[i]) by {
                assert(rest[i] == segs[i + 1]);
            }
            assert forall|i: int| 0 <= i < rest.len() - 1 implies (#[trigger] rest[i]).1.len() > 0 by {
                assert(rest[i] == segs[i + 1]);
            }
            assert forall|i: int| 0 <= i < rest.len() implies (#[trigger] rest[i]).1.len() > 0
                || rest[i].0.len() > 0 by {
                assert(rest[i] == segs[i + 1]);
            }
            assert forall|i: int| 0 <= i < rest.len() - 1 implies #[trigger] no_split_crlf(rest, i) by {
                assert(rest[i] == segs[i + 1]);
                assert(rest[i + 1] == segs[i + 2]);
                assert(no_split_crlf(segs, i + 1));
            }
        }
        lemma_split_join_stable(rest);
        // The first line ends where the first body ends.
        assert forall|k: int| 0 <= k < s0.0.len() implies !is_line_break(#[trigger] t[k]) by {
            assert(t[k] == s0.0[k]);
        }
        lemma_line_end(t, 0);
        if s0.1.len() == 0 {
            assert(segs.len() == 1);
            assert(rest.len() == 0);
            assert(jr =~= Seq::<u8>::empty());
            assert(t =~= s0.0);
            assert(line_end(t, 0) == t.len()) by {
                if line_end(t, 0) < t.len() {
                    assert(is_line_break(t[line_end(t, 0)]));
                }
            }
            assert(t.subrange(0, t.len() as int) =~= s0.0);
            assert(s0.1 =~= Seq::<u8>::empty());
            assert(segs =~= seq![s0]);
            assert(s0.0.len() > 0);
            assert(split_from(t, 0) =~= seq![(t.subrange(0, t.len() as int), Seq::<u8>::empty())]);
            assert(split_from(t, 0) =~= segs);
        } else {
            let j = s0.0.len() as int;
            assert(t[j] == s0.1[0]);
            assert(is_line_break(t[j]));
            assert(line_end(t, 0) == j) by {
                if line_end(t, 0) < j {
                    assert(is_line_break(t[line_end(t, 0)]));
                }
                if line_end(t, 0) > j {
                    assert(!is_line_break(t[j]));
                }
            }
            if s0.1 == seq![13u8] {
                if j + 1 < t.len() {
                    assert(rest.len() > 0);
                    assert(no_split_crlf(segs, 0));
                    assert(t[j + 1] == jr[0]);
                    let r0 = rest[0];
                    assert(r0 == segs[1]);
                    assert(jr == r0.0 + r0.1 + join_segments(rest.drop_first()));
                    if r0.0.len() > 0 {
                        assert(jr[0] == r0.0[0]);
                        assert(well_formed_segment(segs[1]));
                    } else {
                        assert(r0.1.len() > 0);
                        assert(jr[0] == r0.1[0]);
                    }
                    assert(t[j + 1] != 10);
                }
                assert(terminator_at(t, j) =~= s0.1);
            } else if s0.1 == seq![13u8, 10u8] {
                assert(t[j + 1] == s0.1[1]);
                assert(terminator_at(t, j) =~= s0.1);
            } else {
                assert(s0.1 == seq![10u8]);
                assert(terminator_at(t, j) =~= s0.1);
            }
            lemma_split_shift(head, jr, 0);
            assert(t.subrange(0, j) =~= s0.0);
            assert(split_from(t, 0) == seq![(s0.0, s0.1)] + split_from(t, j + s0.1.len()));
            assert(split_from(t, 0) =~= segs);
        }
    }
}

/// The first line from `s` begins with a line feed only when the byte at `s` is one.
proof fn lemma_split_first(t: Seq<u8>, s: int)
    requires
        0 <= s < t.len(),
    ensures
        split_from(t, s).len() > 0,
        begins_with_lf(split_from(t, s)[0]) ==> t[s] == 10,
{
    lemma_line_end(t, s);
    let j = line_end(t, s);
    if j < t.len() {
        let segs = split_from(t, s);
        assert(segs[0] == (t.subrange(s, j), terminator_at(t, j)));
        if begins_with_lf(segs[0]) {
            assert(j == s);
            assert(terminator_at(t, j)[0] == 10);
            assert(t[j] != 13);
        }
    }
}

/// The physical lines of any bytes are stable.
#[verifier::spinoff_prover]
#[verifier::rlimit(50)]
pub proof fn lemma_split_stable(t: Seq<u8>, start: int)
    requires
        0 <= start <= t.len(),
    ensures
        stable_segments(split_from(t, start)),
    decreases t.len() - start,
{
    lemma_split_well_formed(t, start);
    let segs = split_from(t, start);
    if start < t.len() {
        lemma_line_end(t, start);
        let j = line_end(t, start);
        if j < t.len() {
            let nl = terminator_at(t, j);
            let next = j + nl.len();
            lemma_split_stable(t, next);
            let rest = split_from(t, next);
            assert(segs == seq![(t.subrange(start, j), nl)] + rest);
            assert forall|i: int| 0 <= i < segs.len() - 1 implies #[trigger] no_split_crlf(segs, i) by {
                if i == 0 {
                    if segs[0].1 == seq![13u8] {
                        assert(nl == seq![13u8]);
                        assert(nl.len() == 1);
                        if j + 1 < t.len() && t[j + 1] == 10 && t[j] == 13 {
                            assert(nl =~= seq![13u8, 10u8]);
                        }
                        assert(t[j] == 13) by {
                            if t[j] != 13 {
                                assert(nl =~= seq![10u8]);
                                assert(nl[0] == 10);
                            }
                        }
                        assert(!(j + 1 < t.len() && t[j + 1] == 10));
                        assert(next == j + 1);
                        assert(rest.len() > 0);
                        lemma_split_first(t, next);
                        assert(segs[1] == rest[0]);
                    }
                } else {
                    assert(segs[i] == rest[i - 1]);
                    assert(segs[i + 1] == rest[i]);
                    assert(no_split_crlf(rest, i - 1));
                }
            }
        }
    }
}

/// A line's bytes without its terminator.
pub open spec fn line_body(l: LineSpec) -> Seq<u8> {
    match l {
        LineSpec::Binding(b) => b.prefix + b.raw_value + b.suffix,
        LineSpec::Blank { text, .. } => text,
        LineSpec::Comment { text, .. } => text,
        LineSpec::Invalid { text, .. } => text,
    }
}

/// The body and terminator of each line.
pub open spec fn segments_of(lines: Seq<LineSpec>) -> Seq<(Seq<u8>, Seq<u8>)> {
    lines.map_values(|l: LineSpec| (line_body(l), l.newline()))
}

/// Rendering lines joins their bodies and terminators.
pub proof fn lemma_render_is_join(lines: Seq<LineSpec>)
    ensures
        render_lines(lines) == join_segments(segments_of(lines)),
    decreases lines.len(),
{
    if lines.len() == 0 {
        assert(segments_of(lines) =~= Seq::<(Seq<u8>, Seq<u8>)>::empty());
        assert(join_segments(segments_of(lines)) =~= Seq::<u8>::empty());
    } else {
        let init = lines.drop_last();
        let l = lines.last();
        lemma_render_is_join(init);
        assert(segments_of(lines) =~= segments_of(init).push((line_body(l), l.newline())));
        lemma_join_push(segments_of(init), (line_body(l), l.newline()));
        assert(l.rendered() =~= line_body(l) + l.newline());
        assert(render_lines(lines) == render_lines(init) + l.rendered());
        assert(render_lines(lines) =~= join_segments(segments_of(lines)));
    }
}

/// A classified line keeps its body and terminator.
#[verifier::spinoff_prover]
#[verifier::rlimit(50)]
pub proof fn lemma_parse_line_segment(t: Seq<u8>, nl: Seq<u8>)
    ensures
        line_body(parse_line_spec(t, nl)) == t,
        parse_line_spec(t, nl).newline() == nl,
{
    lemma_parse_line_renders(t, nl);
    let l = parse_line_spec(t, nl);
    lemma_head_indices(t);
    assert(l.newline() == nl);
    assert(l.rendered() =~= line_body(l) + nl);
    assert(line_body(l) =~= (line_body(l) + nl).subrange(0, line_body(l).len() as int));
    assert(t =~= (t + nl).subrange(0, t.len() as int));
}

/// The lines parsed from segments have those segments as bodies and terminators.
pub proof fn lemma_parsed_segments_of(segs: Seq<(Seq<u8>, Seq<u8>)>)
    ensures
        segments_of(parse_segments(segs)) == segs,
{
    assert forall|k: int| 0 <= k < segs.len() implies #[trigger] segments_of(parse_segments(segs))[k]
        == segs[k] by {
        lemma_parse_line_segment(segs[k].0, segs[k].1);
    }
    assert(segments_of(parse_segments(segs)) =~= segs);
}

/// Classifying a line does not depend on its terminator, which it only keeps.
#[verifier::spinoff_prover]
#[verifier::rlimit(50)]
pub proof fn lemma_parse_line_newline(t: Seq<u8>, n1: Seq<u8>, n2: Seq<u8>)
    ensures
        parse_line_spec(t, n2) == parse_line_spec(t, n1).with_newline(n2),
{
    if !all_ascii_ws(t) && !starts_with_comment(t) && binding_head(t) {
        let vs = value_start_of(t);
        if vs < t.len() && (t[vs] == 39 || t[vs] == 34) {
            let q = t[vs];
            match closing_quote(t, vs + 1, q) {
                None => {},
                Some(c) => {
                    let b1 = parse_binding_spec(t, n1);
                    let b2 = parse_binding_spec(t, n2);
                    if valid_quoted_suffix(t.subrange(c + 1, t.len() as int)) {
                        assert(b2 == Some(BindingSpec { newline: n2, ..b1.unwrap() }));
                    }
                },
            }
        } else {
            let b1 = parse_binding_spec(t, n1);
            let b2 = parse_binding_spec(t, n2);
            assert(b2 == Some(BindingSpec { newline: n2, ..b1.unwrap() }));
        }
    }
}

/// `t` and `u` hold the same bytes below `m`.
pub open spec fn agree_below(t: Seq<u8>, u: Seq<u8>, m: int) -> bool {
    &&& 0 <= m <= t.len()
    &&& m <= u.len()
    &&& forall|k: int| 0 <= k < m ==> #[trigger] t[k] == u[k]
}

proof fn lemma_skip_hws_agree(t: Seq<u8>, u: Seq<u8>, i: int, m: int)
    requires
        0 <= i,
        agree_below(t, u, m),
        skip_hws(t, i) < m,
    ensures
        skip_hws(u, i) == skip_hws(t, i),
    decreases t.len() - i,
{
    if i < t.len() && is_hws(t[i]) {
        assert(skip_hws(t, i) == skip_hws(t, i + 1));
        lemma_skip_hws_agree(t, u, i + 1, m);
        assert(i < m) by {
            lemma_skip_hws(t, i + 1);
        }
        assert(u[i] == t[i]);
    } else {
        assert(skip_hws(t, i) == i);
        assert(u[i] == t[i]);
    }
}

proof fn lemma_skip_key_agree(t: Seq<u8>, u: Seq<u8>, i: int, m: int)
    requires
        0 <= i,
        agree_below(t, u, m),
        skip_key(t, i) < m,
    ensures
        skip_key(u, i) == skip_key(t, i),
    decreases t.len() - i,
{
    if 0 <= i < t.len() && key_continue_byte(t[i]) {
        lemma_skip_key_agree(t, u, i + 1, m);
        assert(i < m) by {
            if i + 1 <= t.len() {
                lemma_skip_key(t, i + 1);
            }
        }
        assert(u[i] == t[i]);
    } else {
        assert(skip_key(t, i) == i);
        assert(u[i] == t[i]);
    }
}

/// Skipping from inside a run of spaces and tabs lands where skipping from its end does.
proof fn lemma_skip_hws_through(t: Seq<u8>, i: int, m: int)
    requires
        0 <= i <= m <= t.len(),
        forall|k: int| i <= k < m ==> is_hws(#[trigger] t[k]),
    ensures
        skip_hws(t, i) == skip_hws(t, m),
    decreases m - i,
{
    if i < m {
        lemma_skip_hws_through(t, i + 1, m);
    }
}

/// Bytes that agree up to where a binding's value begins have the same head.
#[verifier::spinoff_prover]
#[verifier::rlimit(50)]
proof fn lemma_head_agree(t: Seq<u8>, u: Seq<u8>, m: int)
    requires
        binding_head(t),
        value_start_of(t) == m,
        agree_below(t, u, m),
    ensures
        binding_head(u),
        key_start_of(u) == key_start_of(t),
        key_end_of(u) == key_end_of(t),
        equals_of(u) == equals_of(t),
        value_start_of(u) == skip_hws(u, m),
        u[0] == t[0],
{
    lemma_head_indices(t);
    let ks = key_start_of(t);
    let ke = key_end_of(t);
    let eq = equals_of(t);
    assert(eq < m);
    if m >= 7 {
        assert(t.subrange(0, 6) =~= u.subrange(0, 6));
        assert(t[6] == u[6]);
        assert(has_export(u) == has_export(t));
    } else {
        assert(t[eq] == 61 && u[eq] == 61);
        if has_export(t) {
            assert(t.subrange(0, 6)[eq] == t[eq]);
        }
        if has_export(u) {
            assert(u.subrange(0, 6)[eq] == u[eq]);
        }
        assert(!has_export(t) && !has_export(u));
    }
    if has_export(t) {
        lemma_skip_hws_agree(t, u, 6, m);
    }
    assert(key_start_of(u) == ks);
    lemma_skip_key_agree(t, u, ks + 1, m);
    assert(key_end_of(u) == ke);
    lemma_skip_hws_agree(t, u, ke, m);
    assert(equals_of(u) == eq);
    assert(u[eq] == t[eq]);
    assert(u[ks] == t[ks]);
    assert(u.subrange(ks, ke) =~= t.subrange(ks, ke));
    lemma_skip_hws(t, eq + 1);
    assert forall|k: int| eq + 1 <= k < m implies is_hws(#[trigger] u[k]) by {
        assert(u[k] == t[k]);
    }
    lemma_skip_hws_through(u, eq + 1, m);
    assert(u[0] == t[0]);
}

proof fn lemma_no_comment_hash(v: Seq<u8>, i: int)
    requires
        0 <= i,
        forall|k: int| i <= k < v.len() ==> #[trigger] v[k] != 35,
    ensures
        first_comment_hash(v, i) is None,
    decreases v.len() - i,
{
    if i < v.len() {
        lemma_no_comment_hash(v, i + 1);
    }
}

proof fn lemma_comment_hash_at(v: Seq<u8>, i: int, h: int)
    requires
        0 <= i <= h < v.len(),
        h >= 1,
        v[h] == 35,
        is_hws(v[h - 1]),
        forall|k: int| i <= k < h ==> #[trigger] v[k] != 35,
    ensures
        first_comment_hash(v, i) == Some(h),
    decreases h - i,
{
    if i < h {
        lemma_comment_hash_at(v, i + 1, h);
    }
}

proof fn lemma_hws_run_start_at(v: Seq<u8>, a: int, j: int)
    requires
        0 <= a <= j <= v.len(),
        forall|k: int| a <= k < j ==> is_hws(#[trigger] v[k]),
        a == 0 || !is_hws(v[a - 1]),
    ensures
        hws_run_start(v, j) == a,
    decreases j,
{
    if a < j {
        lemma_hws_run_start_at(v, a, j - 1);
    }
}

/// Inside double quotes, the escaped form of a value ends at the first
/// unescaped quote after it.
#[verifier::spinoff_prover]
#[verifier::rlimit(50)]
proof fn lemma_closing_after_escape(u: Seq<u8>, i: int, v: Seq<u8>)
    requires
        0 <= i,
        i + escape_dq(v).len() < u.len(),
        u.subrange(i, i + escape_dq(v).len()) == escape_dq(v),
        u[i + escape_dq(v).len()] == 34,
    ensures
        closing_quote(u, i, 34) == Some(i + escape_dq(v).len()),
    decreases v.len(),
{
    let e = escape_dq(v);
    if v.len() == 0 {
        assert(e.len() == 0);
    } else {
        let rest = v.drop_first();
        let er = escape_dq(rest);
        let eb = escape_byte(v[0]);
        assert(e == eb + er);
        assert(u.subrange(i, i + eb.len()) =~= eb) by {
            assert forall|k: int| 0 <= k < eb.len() implies u.subrange(i, i + eb.len())[k] == eb[k] by {
                assert(u.subrange(i, i + e.len())[k] == e[k]);
            }
        }
        assert(u.subrange(i + eb.len(), i + eb.len() + er.len()) =~= er) by {
            assert forall|k: int| 0 <= k < er.len() implies u.subrange(
                i + eb.len(),
                i + eb.len() + er.len(),
            )[k] == er[k] by {
                assert(u.subrange(i, i + e.len())[eb.len() + k] == e[eb.len() + k]);
            }
        }
        lemma_closing_after_escape(u, i + eb.len(), rest);
        let b = v[0];
        if b == 92 || b == 34 || b == 10 || b == 13 || b == 9 {
            assert(eb.len() == 2);
            assert(u[i] == eb[0]);
            assert(u[i] == 92);
        } else {
            assert(eb.len() == 1);
            assert(u[i] == eb[0]);
            assert(u[i] == b);
        }
    }
}

/// The escaped form of a value holds no line break.
pub proof fn lemma_escape_no_breaks(v: Seq<u8>)
    ensures
        forall|k: int| 0 <= k < escape_dq(v).len() ==> !is_line_break(#[trigger] escape_dq(v)[k]),
    decreases v.len(),
{
    if v.len() > 0 {
        let rest = v.drop_first();
        lemma_escape_no_breaks(rest);
        let eb = escape_byte(v[0]);
        let e = escape_dq(v);
        assert(e == eb + escape_dq(rest));
        assert forall|k: int| 0 <= k < e.len() implies !is_line_break(#[trigger] e[k]) by {
            if k >= eb.len() {
                assert(e[k] == escape_dq(rest)[k - eb.len()]);
            }
        }
    }
}

/// The suffixes a parsed binding can have: none, trailing spaces and tabs, or a comment.
pub open spec fn suffix_shape(suffix: Seq<u8>) -> bool {
    suffix.len() == 0 || all_hws(suffix) || starts_with_comment(suffix)
}

/// Whether writing `value` in front of `suffix` runs the suffix into the
/// value: the value is written unquoted and the suffix starts directly with
/// `#`, so the comment no longer follows whitespace.
pub open spec fn joins_suffix(value: Seq<u8>, suffix: Seq<u8>) -> bool {
    existing_line_encoding(value, suffix).1 == QuoteType::Unquoted && suffix.len() > 0 && suffix[0]
        == 35
}

/// A value token written before a suffix reads back as the value.
#[verifier::spinoff_prover]
#[verifier::rlimit(50)]
proof fn lemma_written_value_parses(u: Seq<u8>, m: int, v: Seq<u8>, suffix: Seq<u8>, n: Seq<u8>)
    requires
        binding_head(u),
        !all_ascii_ws(u),
        !starts_with_comment(u),
        0 <= m <= u.len(),
        value_start_of(u) == skip_hws(u, m),
        u.subrange(m, u.len() as int) == existing_line_encoding(v, suffix).0 + suffix,
        suffix_shape(suffix),
        !joins_suffix(v, suffix),
    ensures
        parse_line_spec(u, n) matches LineSpec::Binding(b) && b.value == v && b.key == decode_utf8(
            u.subrange(key_start_of(u), key_end_of(u)),
        ) && b.prefix == u.subrange(0, m) && b.raw_value == existing_line_encoding(v, suffix).0
            && b.suffix == suffix && b.newline == n,
{
    let enc = existing_line_encoding(v, suffix);
    let tail = u.subrange(m, u.len() as int);
    lemma_all_hws_iff_skip(suffix);
    lemma_skip_hws(suffix, 0);
    if enc.0.len() == 0 {
        // Only an empty value is written as nothing, and then only with no suffix.
        assert(suffix.len() == 0);
        assert(m == u.len());
    } else {
        assert(u[m] == tail[0]);
        assert(tail[0] == enc.0[0]);
        if enc.1 == QuoteType::Unquoted {
            assert(safe_unquoted(v));
            assert(enc.0 == v);
            assert(!unsafe_unquoted_byte(v[0]));
        }
        assert(!is_hws(u[m]));
    }
    assert(value_start_of(u) == m);
    let key = decode_utf8(u.subrange(key_start_of(u), key_end_of(u)));
    if enc.1 == QuoteType::Unquoted {
        assert(safe_unquoted(v));
        assert(enc.0 == v);
        if m < u.len() {
            assert(u[m] == v[0] || (v.len() == 0 && u[m] == suffix[0]));
            if v.len() == 0 {
                assert(suffix.len() == 0);
            }
            assert(!unsafe_unquoted_byte(v[0]));
        }
        assert(tail =~= v + suffix);
        if suffix.len() == 0 {
            assert(tail =~= v);
            assert forall|k: int| 0 <= k < tail.len() implies #[trigger] tail[k] != 35 by {
                assert(!unsafe_unquoted_byte(v[k]));
            }
            lemma_no_comment_hash(tail, 0);
            assert(comment_suffix_start(tail) is None);
            assert(suffix =~= Seq::<u8>::empty());
        } else {
            // The suffix is a comment that starts after spaces or tabs.
            assert(!all_hws(suffix));
            assert(starts_with_comment(suffix));
            assert(v.len() > 0);
            let s0 = skip_hws(suffix, 0);
            assert(suffix[0] != 35);
            assert(s0 > 0);
            let h = v.len() + s0;
            assert(tail[h] == suffix[s0]);
            assert(tail[h - 1] == suffix[s0 - 1]);
            assert forall|k: int| 0 <= k < h implies #[trigger] tail[k] != 35 by {
                if k < v.len() {
                    assert(tail[k] == v[k]);
                    assert(!unsafe_unquoted_byte(v[k]));
                } else {
                    assert(tail[k] == suffix[k - v.len()]);
                    assert(is_hws(suffix[k - v.len()]));
                }
            }
            lemma_comment_hash_at(tail, 0, h);
            assert forall|k: int| v.len() <= k < h - 1 implies is_hws(#[trigger] tail[k]) by {
                assert(tail[k] == suffix[k - v.len()]);
            }
            assert(tail[v.len() - 1] == v[v.len() - 1]);
            assert(!unsafe_unquoted_byte(v[v.len() - 1]));
            lemma_hws_run_start_at(tail, v.len() as int, h - 1);
            assert(comment_suffix_start(tail) == Some(v.len() as int));
            assert(tail.subrange(0, v.len() as int) =~= v);
            assert(tail.subrange(v.len() as int, tail.len() as int) =~= suffix);
        }
        if m < u.len() {
            assert(u[m] != 39 && u[m] != 34);
        }
    } else {
        let e = escape_dq(v);
        assert(enc.0 == double_quoted(v));
        assert(tail =~= seq![34u8] + e + seq![34u8] + suffix);
        assert(u[m] == 34);
        let c = m + 1 + e.len();
        assert(u.subrange(m + 1, m + 1 + e.len()) =~= e) by {
            assert forall|k: int| 0 <= k < e.len() implies u.subrange(m + 1, m + 1 + e.len())[k]
                == e[k] by {
                assert(u[m + 1 + k] == tail[1 + k]);
            }
        }
        assert(u[c] == tail[1 + e.len() as int]);
        lemma_closing_after_escape(u, m + 1, v);
        assert(u.subrange(c + 1, u.len() as int) =~= suffix) by {
            assert forall|k: int| 0 <= k < suffix.len() implies u.subrange(c + 1, u.len() as int)[k]
                == suffix[k] by {
                assert(u[c + 1 + k] == tail[2 + e.len() as int + k]);
            }
        }
        assert(valid_quoted_suffix(suffix));
        law_decode_escape_roundtrip(v);
        assert(u.subrange(m, c + 1) =~= enc.0);
    }
}

proof fn lemma_hws_run_start_all(v: Seq<u8>, j: int)
    requires
        0 <= j <= v.len(),
    ensures
        0 <= hws_run_start(v, j) <= j,
        forall|k: int| hws_run_start(v, j) <= k < j ==> is_hws(#[trigger] v[k]),
    decreases j,
{
    if 0 < j && is_hws(v[j - 1]) {
        lemma_hws_run_start_all(v, j - 1);
    }
}

/// A binding the parser produced has a suffix of one of the three shapes, and
/// its body is its prefix, value token and suffix.
#[verifier::spinoff_prover]
#[verifier::rlimit(50)]
proof fn lemma_parsed_binding_shape(t: Seq<u8>, n: Seq<u8>, b: BindingSpec)
    requires
        parse_line_spec(t, n) == LineSpec::Binding(b),
    ensures
        suffix_shape(b.suffix),
        t == b.prefix + b.raw_value + b.suffix,
        binding_head(t),
        b.prefix == t.subrange(0, value_start_of(t)),
        b.key == decode_utf8(t.subrange(key_start_of(t), key_end_of(t))),
        !all_ascii_ws(t),
        !starts_with_comment(t),
{
    lemma_parse_line_segment(t, n);
    lemma_head_indices(t);
    let vs = value_start_of(t);
    if !(vs < t.len() && (t[vs] == 39 || t[vs] == 34)) {
        let v = t.subrange(vs, t.len() as int);
        match comment_suffix_start(v) {
            Some(s) => {
                lemma_first_comment_hash(v, 0);
                let h = first_comment_hash(v, 0).unwrap();
                lemma_hws_run_start_all(v, h - 1);
                assert(s == hws_run_start(v, h - 1));
                let suffix = v.subrange(s, v.len() as int);
                assert(b.suffix == suffix);
                assert forall|k: int| 0 <= k < h - s implies is_hws(#[trigger] suffix[k]) by {
                    assert(suffix[k] == v[s + k]);
                }
                lemma_skip_hws_through(suffix, 0, h - s);
                assert(suffix[h - s] == v[h]);
                assert(skip_hws(suffix, h - s) == h - s);
                assert(starts_with_comment(suffix));
            },
            None => {},
        }
    }
}

/// A rebound binding reads back with its key and the new value.
#[verifier::spinoff_prover]
#[verifier::rlimit(50)]
proof fn lemma_rebound_parses(t: Seq<u8>, n: Seq<u8>, b: BindingSpec, v: Seq<u8>, n2: Seq<u8>)
    requires
        parse_line_spec(t, n) == LineSpec::Binding(b),
    ensures
        parse_line_spec(line_body(LineSpec::Binding(rebound(b, v))), n2) matches LineSpec::Binding(
            b2,
        ) && b2.key == b.key && b2.value == v && b2.prefix == b.prefix && b2.suffix == b.suffix
            && b2.newline == n2,
{
    lemma_never_joins(v, b.suffix);
    lemma_parsed_binding_shape(t, n, b);
    lemma_head_indices(t);
    let enc = existing_line_encoding(v, b.suffix);
    let u = b.prefix + enc.0 + b.suffix;
    assert(line_body(LineSpec::Binding(rebound(b, v))) == u);
    let m = value_start_of(t);
    assert(agree_below(t, u, m)) by {
        assert forall|k: int| 0 <= k < m implies #[trigger] t[k] == u[k] by {
            assert(u[k] == b.prefix[k]);
        }
    }
    lemma_head_agree(t, u, m);
    // The first byte starts the key or the word `export`.
    if has_export(t) {
        assert(t[0] == t.subrange(0, 6)[0]);
        assert(t[0] == 101);
    } else {
        assert(key_start_of(t) == 0);
        assert(key_start_byte(t[0]));
    }
    assert(!is_ascii_ws(u[0]) && !is_hws(u[0]) && u[0] != 35);
    assert(!all_ascii_ws(u));
    assert(skip_hws(u, 0) == 0);
    assert(!starts_with_comment(u));
    assert(u.subrange(m, u.len() as int) =~= enc.0 + b.suffix);
    lemma_written_value_parses(u, m, v, b.suffix, n2);
    assert(u.subrange(0, m) =~= b.prefix);
    assert(u.subrange(key_start_of(u), key_end_of(u)) =~= t.subrange(
        key_start_of(t),
        key_end_of(t),
    ));
}

proof fn lemma_skip_key_run(t: Seq<u8>, i: int, j: int)
    requires
        0 <= i <= j < t.len(),
        forall|k: int| i <= k < j ==> key_continue_byte(#[trigger] t[k]),
        !key_continue_byte(t[j]),
    ensures
        skip_key(t, i) == j,
    decreases j - i,
{
    if i < j {
        lemma_skip_key_run(t, i + 1, j);
    }
}

/// An appended binding reads back with its key and value.
#[verifier::spinoff_prover]
#[verifier::rlimit(50)]
proof fn lemma_appended_parses(key: Seq<char>, v: Seq<u8>, nl: Seq<u8>, n2: Seq<u8>)
    requires
        valid_key_bytes(str_bytes(key)),
    ensures
        parse_line_spec(line_body(LineSpec::Binding(appended_binding(key, v, nl))), n2)
            matches LineSpec::Binding(b2) && b2.key == key && b2.value == v && b2.prefix
            == str_bytes(key) + seq![61u8] && b2.suffix.len() == 0 && b2.newline == n2,
{
    let k = str_bytes(key);
    let enc = auto_encoding(v);
    let empty = Seq::<u8>::empty();
    assert(existing_line_encoding(v, empty) == enc);
    let prefix = k + seq![61u8];
    let u = prefix + enc.0 + empty;
    assert(line_body(LineSpec::Binding(appended_binding(key, v, nl))) == u);
    let kl = k.len() as int;
    assert(u[kl] == 61);
    assert forall|i: int| 0 <= i < kl implies #[trigger] u[i] == k[i] by {}
    // No `export` prefix: the word would need a space or tab where the key goes on or `=` is.
    if has_export(u) {
        if kl >= 7 {
            assert(u[6] == k[6]);
            assert(key_continue_byte(k[6]));
        } else if kl == 6 {
            assert(u[6] == 61);
        } else {
            assert(u.subrange(0, 6)[kl] == u[kl]);
        }
    }
    assert(key_start_of(u) == 0);
    assert(key_start_byte(u[0]));
    lemma_skip_key_run(u, 1, kl);
    assert(key_end_of(u) == kl);
    assert(equals_of(u) == kl);
    assert(u.subrange(0, kl) =~= k);
    vstd::utf8::encode_utf8_valid_utf8(key);
    vstd::utf8::encode_utf8_decode_utf8(key);
    assert(binding_head(u));
    assert(value_start_of(u) == skip_hws(u, kl + 1));
    assert(!all_ascii_ws(u));
    assert(skip_hws(u, 0) == 0);
    assert(!starts_with_comment(u));
    assert(u.subrange(kl + 1, u.len() as int) =~= enc.0 + empty);
    lemma_written_value_parses(u, kl + 1, v, empty, n2);
    assert(u.subrange(0, kl + 1) =~= prefix);
}

/// Changing bodies to non-empty ones without line breaks, and giving a
/// terminator only to a line that had none, keeps segments stable.
#[verifier::spinoff_prover]
#[verifier::rlimit(50)]
proof fn lemma_stable_after_edit(segs0: Seq<(Seq<u8>, Seq<u8>)>, segs1: Seq<(Seq<u8>, Seq<u8>)>)
    requires
        stable_segments(segs0),
        segs1.len() == segs0.len(),
        forall|k: int| 0 <= k < segs1.len() ==> well_formed_segment(#[trigger] segs1[k]),
        forall|k: int|
            0 <= k < segs1.len() ==> #[trigger] segs1[k].0 == segs0[k].0 || segs1[k].0.len() > 0,
        forall|k: int|
            0 <= k < segs1.len() ==> #[trigger] segs1[k].1 == segs0[k].1 || (segs0[k].1.len() == 0
                && segs1[k].1.len() > 0),
    ensures
        stable_segments(segs1),
{
    assert forall|k: int| 0 <= k < segs1.len() - 1 implies (#[trigger] segs1[k]).1.len() > 0 by {
        assert(segs0[k].1.len() > 0);
    }
    assert forall|k: int| 0 <= k < segs1.len() implies (#[trigger] segs1[k]).1.len() > 0
        || segs1[k].0.len() > 0 by {
        assert(segs0[k].1.len() > 0 || segs0[k].0.len() > 0);
    }
    assert forall|k: int| 0 <= k < segs1.len() - 1 implies #[trigger] no_split_crlf(segs1, k) by {
        assert(segs0[k].1.len() > 0);
        assert(segs1[k].1 == segs0[k].1);
        assert(no_split_crlf(segs0, k));
        assert(segs0[k + 1].1.len() > 0 || segs0[k + 1].0.len() > 0);
        if segs1[k].1 == seq![13u8] && begins_with_lf(segs1[k + 1]) {
            assert(segs1[k + 1].0 == segs0[k + 1].0);
            assert(segs1[k + 1].1 == segs0[k + 1].1);
            assert(begins_with_lf(segs0[k + 1]));
        }
    }
}

/// Appending a non-empty line after a terminated last line keeps segments stable.
proof fn lemma_stable_push(segs: Seq<(Seq<u8>, Seq<u8>)>, s: (Seq<u8>, Seq<u8>))
    requires
        stable_segments(segs),
        segs.len() > 0 ==> segs.last().1.len() > 0,
        well_formed_segment(s),
        s.0.len() > 0,
    ensures
        stable_segments(segs.push(s)),
{
    let all = segs.push(s);
    assert forall|k: int| 0 <= k < all.len() implies well_formed_segment(#[trigger] all[k]) by {
        if k < segs.len() {
            assert(all[k] == segs[k]);
        }
    }
    assert forall|k: int| 0 <= k < all.len() - 1 implies (#[trigger] all[k]).1.len() > 0 by {
        assert(all[k] == segs[k]);
    }
    assert forall|k: int| 0 <= k < all.len() implies (#[trigger] all[k]).1.len() > 0
        || all[k].0.len() > 0 by {
        if k < segs.len() {
            assert(all[k] == segs[k]);
        }
    }
    assert forall|k: int| 0 <= k < all.len() - 1 implies #[trigger] no_split_crlf(all, k) by {
        assert(all[k] == segs[k]);
        if k + 1 < segs.len() {
            assert(all[k + 1] == segs[k + 1]);
            assert(no_split_crlf(segs, k));
        } else {
            assert(all[k + 1] == s);
        }
    }
}

/// A line with another terminator keeps its body and what it binds.
proof fn lemma_with_newline_keeps(l: LineSpec, n: Seq<u8>, key: Seq<char>)
    ensures
        line_body(l.with_newline(n)) == line_body(l),
        l.with_newline(n).newline() == n,
        binds(l.with_newline(n), key) == binds(l, key),
{
}

/// The newline a document can use: LF, CRLF or CR.
pub open spec fn is_terminator(nl: Seq<u8>) -> bool {
    nl == seq![10u8] || nl == seq![13u8, 10u8] || nl == seq![13u8]
}

/// A value written over an existing binding never runs into its suffix: a
/// suffix that starts directly with `#` makes the value double-quoted.
proof fn lemma_never_joins(value: Seq<u8>, suffix: Seq<u8>)
    ensures
        !joins_suffix(value, suffix),
{
}

/// An encoded value holds no line break.
proof fn lemma_encoding_no_breaks(v: Seq<u8>, suffix: Seq<u8>)
    ensures
        forall|k: int|
            0 <= k < existing_line_encoding(v, suffix).0.len() ==> !is_line_break(
                #[trigger] existing_line_encoding(v, suffix).0[k],
            ),
{
    let enc = existing_line_encoding(v, suffix);
    lemma_escape_no_breaks(v);
    if enc.1 == QuoteType::Unquoted {
        assert(safe_unquoted(v));
        assert forall|k: int| 0 <= k < enc.0.len() implies !is_line_break(#[trigger] enc.0[k]) by {
            assert(!unsafe_unquoted_byte(v[k]));
        }
    } else {
        assert(enc.0 == double_quoted(v));
        assert forall|k: int| 0 <= k < enc.0.len() implies !is_line_break(#[trigger] enc.0[k]) by {
            if 0 < k < enc.0.len() - 1 {
                assert(enc.0[k] == escape_dq(v)[k - 1]);
            }
        }
    }
}

/// Reading back a value written over the first binding of its key.
#[verifier::spinoff_prover]
#[verifier::rlimit(60)]
proof fn lemma_reparse_rebound(
    text: Seq<u8>,
    nl: Seq<u8>,
    nl2: Seq<u8>,
    key: Seq<char>,
    value: Seq<u8>,
    i: int,
)
    requires
        valid_key_bytes(str_bytes(key)),
        is_terminator(nl),
        first_index(parsed_lines(text), key) == Some(i),
    ensures
        first_value(parsed_lines(written(text, nl, key, value)), key) == Some(value),
        written(written(text, nl, key, value), nl2, key, value) == written(text, nl, key, value),
{
    let segs0 = physical_lines(text);
    lemma_split_stable(text, 0);
    let lines = parse_segments(segs0);
    assert(lines == parsed_lines(text));
    lemma_parsed_segments_of(segs0);
    let d = DocumentSpec { lines, preferred_newline: nl };
    let out = set_value_spec(d, key, value).lines;
    let segs1 = segments_of(out);
    lemma_first_index_bounds(lines, key);
    let b = lines[i]->Binding_0;
    assert(lines[i] == parse_line_spec(segs0[i].0, segs0[i].1));
    assert(lines[i] == LineSpec::Binding(b));
    let nb = LineSpec::Binding(rebound(b, value));
    let edited = lines.update(i, nb);
    assert(out == with_terminal_newline(edited, nl));
    let last = lines.len() - 1;
    lemma_parsed_binding_shape(segs0[i].0, segs0[i].1, b);
    lemma_encoding_no_breaks(value, b.suffix);
    // Each line keeps its body, except the rebound one, and its terminator,
    // except that an unterminated last line gets `nl`.
    assert forall|k: int| 0 <= k < out.len() implies #[trigger] segs1[k] == (
        if k == i {
            line_body(nb)
        } else {
            segs0[k].0
        },
        if k == last && segs0[k].1.len() == 0 {
            nl
        } else {
            segs0[k].1
        },
    ) by {
        assert(segs0[k] == (line_body(lines[k]), lines[k].newline()));
        assert(nb.newline() == lines[i].newline());
        if k == last && edited[k].newline().len() == 0 {
            lemma_with_newline_keeps(edited[k], nl, key);
            assert(out[k] == edited[k].with_newline(nl));
        } else {
            assert(out[k] == edited[k]);
        }
    }
    assert forall|k: int| 0 <= k < segs1.len() implies well_formed_segment(#[trigger] segs1[k]) by {
        assert(well_formed_segment(segs0[k]));
        if k == i {
            let body = line_body(nb);
            let old = segs0[i].0;
            let enc = existing_line_encoding(value, b.suffix).0;
            assert(body == b.prefix + enc + b.suffix);
            assert forall|j: int| 0 <= j < body.len() implies !is_line_break(#[trigger] body[j]) by {
                if j < b.prefix.len() {
                    assert(body[j] == old[j]);
                } else if j < b.prefix.len() + enc.len() {
                    assert(body[j] == enc[j - b.prefix.len()]);
                } else {
                    let o = j - b.prefix.len() - enc.len();
                    assert(body[j] == b.suffix[o]);
                    assert(old[b.prefix.len() + b.raw_value.len() + o] == b.suffix[o]);
                }
            }
        }
    }
    lemma_head_indices(segs0[i].0);
    assert(line_body(nb).len() > 0) by {
        assert(b.prefix.len() == value_start_of(segs0[i].0));
    }
    lemma_stable_after_edit(segs0, segs1);
    lemma_render_is_join(out);
    lemma_split_join_stable(segs1);
    let reparsed = parse_segments(segs1);
    assert(parsed_lines(render_lines(out)) == reparsed);
    assert forall|j: int| 0 <= j < i implies !binds(#[trigger] reparsed[j], key) by {
        lemma_parse_line_newline(segs0[j].0, segs0[j].1, segs1[j].1);
        lemma_with_newline_keeps(lines[j], segs1[j].1, key);
    }
    lemma_rebound_parses(segs0[i].0, segs0[i].1, b, value, segs1[i].1);
    lemma_first_index_at(reparsed, key, i);
    // Writing the same value again changes nothing.
    lemma_parsed_segments_of(segs1);
    let b2 = reparsed[i]->Binding_0;
    let again = reparsed.update(i, LineSpec::Binding(rebound(b2, value)));
    assert(line_body(LineSpec::Binding(rebound(b2, value))) == line_body(nb));
    assert(segments_of(again) =~= segs1) by {
        assert forall|k: int| 0 <= k < again.len() implies #[trigger] segments_of(again)[k]
            == segs1[k] by {
            if k != i {
                assert(again[k] == reparsed[k]);
                assert(segments_of(reparsed)[k] == segs1[k]);
            }
        }
    }
    assert(out[last].newline().len() > 0) by {
        if edited[last].newline().len() == 0 {
            lemma_with_newline_keeps(edited[last], nl, key);
        }
    }
    assert(segs1[last].1.len() > 0);
    assert(again.last().newline() == segs1[last].1);
    let out2 = set_value_spec(DocumentSpec { lines: reparsed, preferred_newline: nl2 }, key, value).lines;
    assert(out2 == with_terminal_newline(again, nl2));
    assert(out2 == again);
    lemma_render_is_join(again);
}

/// Reading back a value appended for a key the file did not bind.
#[verifier::spinoff_prover]
#[verifier::rlimit(60)]
proof fn lemma_reparse_appended(
    text: Seq<u8>,
    nl: Seq<u8>,
    nl2: Seq<u8>,
    key: Seq<char>,
    value: Seq<u8>,
)
    requires
        valid_key_bytes(str_bytes(key)),
        is_terminator(nl),
        first_index(parsed_lines(text), key) is None,
    ensures
        first_value(parsed_lines(written(text, nl, key, value)), key) == Some(value),
        written(written(text, nl, key, value), nl2, key, value) == written(text, nl, key, value),
{
    let segs0 = physical_lines(text);
    lemma_split_stable(text, 0);
    let lines = parse_segments(segs0);
    assert(lines == parsed_lines(text));
    lemma_parsed_segments_of(segs0);
    let d = DocumentSpec { lines, preferred_newline: nl };
    let out = set_value_spec(d, key, value).lines;
    let segs1 = segments_of(out);
    lemma_first_index_bounds(lines, key);
    let wt = with_terminal_newline(lines, nl);
    let ab = LineSpec::Binding(appended_binding(key, value, nl));
    assert(out == wt.push(ab));
    let n0 = lines.len();
    let segs_w = segments_of(wt);
    assert forall|k: int| 0 <= k < n0 implies #[trigger] segs_w[k] == (
        segs0[k].0,
        if k == n0 - 1 && segs0[k].1.len() == 0 {
            nl
        } else {
            segs0[k].1
        },
    ) by {
        assert(segs0[k] == (line_body(lines[k]), lines[k].newline()));
        if k == n0 - 1 && lines[k].newline().len() == 0 {
            lemma_with_newline_keeps(lines[k], nl, key);
        }
    }
    assert forall|k: int| 0 <= k < segs_w.len() implies well_formed_segment(#[trigger] segs_w[k]) by {
        assert(well_formed_segment(segs0[k]));
    }
    lemma_stable_after_edit(segs0, segs_w);
    let kb = str_bytes(key);
    let enc = existing_line_encoding(value, Seq::<u8>::empty());
    lemma_encoding_no_breaks(value, Seq::<u8>::empty());
    let abody = line_body(ab);
    assert(abody == kb + seq![61u8] + enc.0 + Seq::<u8>::empty());
    assert forall|j: int| 0 <= j < abody.len() implies !is_line_break(#[trigger] abody[j]) by {
        if j < kb.len() {
            assert(abody[j] == kb[j]);
            assert(key_continue_byte(kb[j]) || key_start_byte(kb[j]));
        } else if j > kb.len() {
            assert(abody[j] == enc.0[j - kb.len() - 1]);
        }
    }
    assert(segs1 =~= segs_w.push((abody, nl)));
    lemma_stable_push(segs_w, (abody, nl));
    lemma_render_is_join(out);
    lemma_split_join_stable(segs1);
    let reparsed = parse_segments(segs1);
    assert(parsed_lines(render_lines(out)) == reparsed);
    assert forall|j: int| 0 <= j < n0 implies !binds(#[trigger] reparsed[j], key) by {
        lemma_parse_line_newline(segs0[j].0, segs0[j].1, segs1[j].1);
        lemma_with_newline_keeps(lines[j], segs1[j].1, key);
    }
    lemma_appended_parses(key, value, nl, nl);
    lemma_first_index_at(reparsed, key, n0 as int);
    // Writing the same value again changes nothing.
    lemma_parsed_segments_of(segs1);
    let b2 = reparsed[n0 as int]->Binding_0;
    assert(b2.suffix =~= Seq::<u8>::empty());
    let again = reparsed.update(n0 as int, LineSpec::Binding(rebound(b2, value)));
    assert(line_body(LineSpec::Binding(rebound(b2, value))) == abody);
    assert(segments_of(again) =~= segs1) by {
        assert forall|k: int| 0 <= k < again.len() implies #[trigger] segments_of(again)[k]
            == segs1[k] by {
            if k != n0 {
                assert(again[k] == reparsed[k]);
                assert(segments_of(reparsed)[k] == segs1[k]);
            }
        }
    }
    assert(again.last().newline() == nl);
    let out2 = set_value_spec(DocumentSpec { lines: reparsed, preferred_newline: nl2 }, key, value).lines;
    assert(out2 == with_terminal_newline(again, nl2));
    assert(out2 == again);
    lemma_render_is_join(again);
}

/// The file that setting `value` for `key` writes, for a document parsed from
/// `text` whose newline style is `nl`.
pub open spec fn written(text: Seq<u8>, nl: Seq<u8>, key: Seq<char>, value: Seq<u8>) -> Seq<u8> {
    render_lines(
        set_value_spec(
            DocumentSpec { lines: parsed_lines(text), preferred_newline: nl },
            key,
            value,
        ).lines,
    )
}

/// Writing a value and reading the file back gives the value: after
/// `set_value` on a document parsed from `text`, parsing the rendered file
/// again finds `value` as the first binding of `key`.
pub proof fn law_get_after_set_reparsed(text: Seq<u8>, nl: Seq<u8>, key: Seq<char>, value: Seq<u8>)
    requires
        valid_key_bytes(str_bytes(key)),
        is_terminator(nl),
    ensures
        first_value(parsed_lines(written(text, nl, key, value)), key) == Some(value),
{
    match first_index(parsed_lines(text), key) {
        Some(i) => lemma_reparse_rebound(text, nl, nl, key, value, i),
        None => lemma_reparse_appended(text, nl, nl, key, value),
    }
}

/// Setting is idempotent across files: setting the same value again in the
/// file that a set wrote leaves it byte for byte unchanged, whatever newline
/// style the second run prefers.
pub proof fn law_set_idempotent_reparsed(
    text: Seq<u8>,
    nl: Seq<u8>,
    nl2: Seq<u8>,
    key: Seq<char>,
    value: Seq<u8>,
)
    requires
        valid_key_bytes(str_bytes(key)),
        is_terminator(nl),
    ensures
        written(written(text, nl, key, value), nl2, key, value) == written(text, nl, key, value),
{
    match first_index(parsed_lines(text), key) {
        Some(i) => lemma_reparse_rebound(text, nl, nl2, key, value, i),
        None => lemma_reparse_appended(text, nl, nl2, key, value),
    }
}

/// Segments whose joined bytes split back into lines with the same bodies,
/// though a bare `\r` may then take the `\n` of an empty line after it.
pub open spec fn clean_segments(segs: Seq<(Seq<u8>, Seq<u8>)>) -> bool {
    &&& forall|i: int| 0 <= i < segs.len() ==> well_formed_segment(#[trigger] segs[i])
    &&& forall|i: int| 0 <= i < segs.len() - 1 ==> (#[trigger] segs[i]).1.len() > 0
    &&& forall|i: int| 0 <= i < segs.len() ==> (#[trigger] segs[i]).1.len() > 0 || segs[i].0.len() > 0
}

/// Whether `body` is the body of one of `segs`.
pub open spec fn body_among(segs: Seq<(Seq<u8>, Seq<u8>)>, body: Seq<u8>) -> bool {
    exists|k: int| 0 <= k < segs.len() && (#[trigger] segs[k]).0 == body
}

proof fn lemma_clean_tail(segs: Seq<(Seq<u8>, Seq<u8>)>, n: int)
    requires
        clean_segments(segs),
        0 <= n <= segs.len(),
    ensures
        clean_segments(segs.subrange(n, segs.len() as int)),
{
    let rest = segs.subrange(n, segs.len() as int);
    assert forall|i: int| 0 <= i < rest.len() implies well_formed_segment(#[trigger] rest[i]) by {
        assert(rest[i] == segs[n + i]);
    }
    assert forall|i: int| 0 <= i < rest.len() - 1 implies (#[trigger] rest[i]).1.len() > 0 by {
        assert(rest[i] == segs[n + i]);
    }
    assert forall|i: int| 0 <= i < rest.len() implies (#[trigger] rest[i]).1.len() > 0
        || rest[i].0.len() > 0 by {
        assert(rest[i] == segs[n + i]);
    }
}

/// Splitting the bytes of clean segments gives lines whose bodies are bodies of those segments.
#[verifier::spinoff_prover]
#[verifier::rlimit(50)]
pub proof fn lemma_split_bodies(segs: Seq<(Seq<u8>, Seq<u8>)>)
    requires
        clean_segments(segs),
    ensures
        forall|j: int|
            0 <= j < split_from(join_segments(segs), 0).len() ==> body_among(
                segs,
                (#[trigger] split_from(join_segments(segs), 0)[j]).0,
            ),
    decreases segs.len(),
{
    let t = join_segments(segs);
    let out = split_from(t, 0);
    if segs.len() == 0 {
        assert(t =~= Seq::<u8>::empty());
    } else {
        let s0 = segs[0];
        let rest = segs.drop_first();
        let jr = join_segments(rest);
        assert(t == s0.0 + s0.1 + jr);
        assert(well_formed_segment(s0));
        assert forall|k: int| 0 <= k < s0.0.len() implies !is_line_break(#[trigger] t[k]) by {
            assert(t[k] == s0.0[k]);
        }
        lemma_line_end(t, 0);
        assert(rest =~= segs.subrange(1, segs.len() as int));
        lemma_clean_tail(segs, 1);
        if s0.1.len() == 0 {
            assert(segs.len() == 1);
            assert(jr =~= Seq::<u8>::empty());
            assert(t =~= s0.0);
            assert(line_end(t, 0) == t.len()) by {
                if line_end(t, 0) < t.len() {
                    assert(is_line_break(t[line_end(t, 0)]));
                }
            }
            assert(s0.0.len() > 0);
            assert(t.subrange(0, t.len() as int) =~= t);
            assert(out =~= seq![(t.subrange(0, t.len() as int), Seq::<u8>::empty())]);
            assert(out[0].0 == segs[0].0);
            assert(body_among(segs, out[0].0));
        } else {
            let j = s0.0.len() as int;
            assert(t[j] == s0.1[0]);
            assert(line_end(t, 0) == j) by {
                if line_end(t, 0) < j {
                    assert(is_line_break(t[line_end(t, 0)]));
                }
                if line_end(t, 0) > j {
                    assert(!is_line_break(t[j]));
                }
            }
            let nl = terminator_at(t, j);
            assert(out == seq![(t.subrange(0, j), nl)] + split_from(t, j + nl.len()));
            assert(t.subrange(0, j) =~= s0.0);
            assert(body_among(segs, out[0].0));
            // Where the next line starts: after this segment, or after the empty
            // line whose `\n` a bare `\r` took.
            if s0.1 == seq![13u8] && j + 1 < t.len() && t[j + 1] == 10 {
                assert(rest.len() > 0);
                let r0 = rest[0];
                assert(r0 == segs[1]);
                assert(jr == r0.0 + r0.1 + join_segments(rest.drop_first()));
                assert(t[j + 1] == jr[0]);
                assert(well_formed_segment(r0));
                if r0.0.len() > 0 {
                    assert(jr[0] == r0.0[0]);
                }
                assert(r0.0.len() == 0);
                assert(r0.1.len() > 0);
                assert(jr[0] == r0.1[0]);
                assert(r0.1 == seq![10u8]);
                assert(nl =~= seq![13u8, 10u8]);
                let rest2 = rest.drop_first();
                assert(rest2 =~= segs.subrange(2, segs.len() as int));
                lemma_clean_tail(segs, 2);
                lemma_split_bodies(rest2);
                let head = s0.0 + s0.1 + r0.0 + r0.1;
                assert(t =~= head + join_segments(rest2));
                lemma_split_shift(head, join_segments(rest2), 0);
                assert(split_from(t, j + nl.len()) == split_from(join_segments(rest2), 0));
                assert forall|i: int| 0 <= i < out.len() implies body_among(segs, (#[trigger] out[i]).0) by {
                    if i > 0 {
                        let r = split_from(join_segments(rest2), 0);
                        assert(out[i] == r[i - 1]);
                        assert(body_among(rest2, r[i - 1].0));
                        let k = choose|k: int| 0 <= k < rest2.len() && (#[trigger] rest2[k]).0 == r[i - 1].0;
                        assert(segs[k + 2] == rest2[k]);
                    }
                }
            } else {
                if s0.1 == seq![13u8] {
                    assert(nl =~= s0.1);
                } else if s0.1 == seq![13u8, 10u8] {
                    assert(t[j + 1] == s0.1[1]);
                    assert(nl =~= s0.1);
                } else {
                    assert(nl =~= s0.1);
                }
                lemma_split_bodies(rest);
                let head = s0.0 + s0.1;
                assert(t =~= head + jr);
                lemma_split_shift(head, jr, 0);
                assert(split_from(t, j + nl.len()) == split_from(jr, 0));
                assert forall|i: int| 0 <= i < out.len() implies body_among(segs, (#[trigger] out[i]).0) by {
                    if i > 0 {
                        let r = split_from(jr, 0);
                        assert(out[i] == r[i - 1]);
                        assert(body_among(rest, r[i - 1].0));
                        let k = choose|k: int| 0 <= k < rest.len() && (#[trigger] rest[k]).0 == r[i - 1].0;
                        assert(segs[k + 1] == rest[k]);
                    }
                }
            }
        }
    }
}

/// Whether a line body can never be read as a binding of `key`, whatever its terminator.
pub open spec fn never_binds(body: Seq<u8>, key: Seq<char>) -> bool {
    forall|n: Seq<u8>| !binds(#[trigger] parse_line_spec(body, n), key)
}

/// Lines none of whose bodies reads as a binding of `key` render to a file
/// without a binding of `key`.
#[verifier::spinoff_prover]
#[verifier::rlimit(50)]
proof fn lemma_no_binding_after_reparse(out: Seq<LineSpec>, key: Seq<char>)
    requires
        clean_segments(segments_of(out)),
        forall|j: int| 0 <= j < out.len() ==> never_binds(line_body(#[trigger] out[j]), key),
    ensures
        first_value(parsed_lines(render_lines(out)), key) is None,
{
    let segs = segments_of(out);
    lemma_render_is_join(out);
    lemma_split_bodies(segs);
    let r = split_from(join_segments(segs), 0);
    let reparsed = parse_segments(r);
    assert(parsed_lines(render_lines(out)) == reparsed);
    assert forall|i: int| 0 <= i < reparsed.len() implies !binds(#[trigger] reparsed[i], key) by {
        assert(body_among(segs, r[i].0));
        let m = choose|m: int| 0 <= m < segs.len() && (#[trigger] segs[m]).0 == r[i].0;
        assert(segs[m].0 == line_body(out[m]));
        assert(never_binds(line_body(out[m]), key));
        assert(reparsed[i] == parse_line_spec(r[i].0, r[i].1));
    }
    lemma_first_index_none(reparsed, key);
}

/// A line parsed from a segment that does not bind `key` never binds it.
proof fn lemma_parsed_never_binds(t: Seq<u8>, n0: Seq<u8>, key: Seq<char>)
    requires
        !binds(parse_line_spec(t, n0), key),
    ensures
        never_binds(t, key),
{
    assert forall|n: Seq<u8>| !binds(#[trigger] parse_line_spec(t, n), key) by {
        lemma_parse_line_newline(t, n0, n);
        lemma_with_newline_keeps(parse_line_spec(t, n0), n, key);
    }
}

/// Each kept line is a line of the document that does not bind `key`, and
/// only the last kept line can be the document's last line.
#[verifier::spinoff_prover]
#[verifier::rlimit(50)]
proof fn lemma_kept_lines(lines: Seq<LineSpec>, key: Seq<char>)
    ensures
        forall|j: int|
            0 <= j < lines_without(lines, key).len() ==> exists|k: int|
                0 <= k < lines.len() && #[trigger] lines_without(lines, key)[j] == lines[k]
                    && !binds(lines[k], key) && (j < lines_without(lines, key).len() - 1 ==> k
                    < lines.len() - 1),
    decreases lines.len(),
{
    if lines.len() > 0 {
        let init = lines.drop_last();
        lemma_kept_lines(init, key);
        let ki = lines_without(init, key);
        let kept = lines_without(lines, key);
        assert forall|j: int| 0 <= j < kept.len() implies exists|k: int|
            0 <= k < lines.len() && #[trigger] kept[j] == lines[k] && !binds(lines[k], key) && (j
                < kept.len() - 1 ==> k < lines.len() - 1) by {
            if j < ki.len() {
                assert(kept[j] == ki[j]);
                let k = choose|k: int|
                    0 <= k < init.len() && #[trigger] ki[j] == init[k] && !binds(init[k], key) && (j
                        < ki.len() - 1 ==> k < init.len() - 1);
                assert(lines[k] == init[k]);
            } else {
                assert(kept[j] == lines[lines.len() - 1]);
            }
        }
    }
}

/// Removing a key and reading the file back finds no binding of it: after
/// `unset_key` on a document parsed from `text`, parsing the rendered file
/// again finds no binding of `key`.
#[verifier::spinoff_prover]
#[verifier::rlimit(50)]
pub proof fn law_get_after_unset_reparsed(text: Seq<u8>, nl: Seq<u8>, key: Seq<char>)
    requires
        is_terminator(nl),
    ensures
        first_value(
            parsed_lines(
                render_lines(
                    unset_spec(DocumentSpec { lines: parsed_lines(text), preferred_newline: nl }, key).lines,
                ),
            ),
            key,
        ) is None,
{
    let segs0 = physical_lines(text);
    lemma_split_stable(text, 0);
    let lines = parse_segments(segs0);
    assert(lines == parsed_lines(text));
    lemma_parsed_segments_of(segs0);
    let d = DocumentSpec { lines, preferred_newline: nl };
    let out = unset_spec(d, key).lines;
    // Every original line keeps its body; those that do not bind `key` never will.
    assert forall|k: int| 0 <= k < lines.len() && !binds(#[trigger] lines[k], key) implies never_binds(
        segs0[k].0,
        key,
    ) by {
        assert(lines[k] == parse_line_spec(segs0[k].0, segs0[k].1));
        lemma_parsed_never_binds(segs0[k].0, segs0[k].1, key);
    }
    assert forall|k: int| 0 <= k < lines.len() implies #[trigger] segs0[k] == (
        line_body(lines[k]),
        lines[k].newline(),
    ) by {}
    let kept = lines_without(lines, key);
    if count_bindings(lines, key) == 0 {
        lemma_count_zero(lines, key);
        assert(out == lines);
        assert(segments_of(out) == segs0);
        lemma_no_binding_after_reparse(out, key);
    } else if kept.len() == 0 {
        assert(out =~= Seq::<LineSpec>::empty());
        assert(render_lines(out) =~= Seq::<u8>::empty());
        assert(physical_lines(render_lines(out)) =~= Seq::<(Seq<u8>, Seq<u8>)>::empty());
        lemma_first_index_none(parsed_lines(render_lines(out)), key);
    } else {
        assert(out == with_terminal_newline(kept, nl));
        lemma_kept_lines(lines, key);
        let segs1 = segments_of(out);
        let last = kept.len() - 1;
        assert forall|j: int| 0 <= j < out.len() implies #[trigger] segs1[j].0 == line_body(kept[j])
            && (segs1[j].1 == kept[j].newline() || (j == last && segs1[j].1 == nl)) by {
            if j == last && kept[j].newline().len() == 0 {
                lemma_with_newline_keeps(kept[j], nl, key);
            }
        }
        assert(clean_segments(segs1)) by {
            assert forall|j: int| 0 <= j < segs1.len() implies well_formed_segment(#[trigger] segs1[j])
                && (j < segs1.len() - 1 ==> segs1[j].1.len() > 0) && (segs1[j].1.len() > 0
                || segs1[j].0.len() > 0) by {
                let k = choose|k: int|
                    0 <= k < lines.len() && #[trigger] kept[j] == lines[k] && !binds(lines[k], key)
                        && (j < kept.len() - 1 ==> k < lines.len() - 1);
                assert(segs0[k] == (line_body(lines[k]), lines[k].newline()));
                assert(well_formed_segment(segs0[k]));
                assert(segs0[k].1.len() > 0 || segs0[k].0.len() > 0);
                if j < kept.len() - 1 {
                    assert(segs0[k].1.len() > 0);
                }
            }
        }
        assert forall|j: int| 0 <= j < out.len() implies never_binds(line_body(#[trigger] out[j]), key) by {
            let k = choose|k: int|
                0 <= k < lines.len() && #[trigger] kept[j] == lines[k] && !binds(lines[k], key) && (j
                    < kept.len() - 1 ==> k < lines.len() - 1);
            assert(segs1[j].0 == line_body(kept[j]));
            assert(line_body(out[j]) == segs1[j].0);
            assert(line_body(lines[k]) == segs0[k].0);
        }
        lemma_no_binding_after_reparse(out, key);
    }
}

} // verus!
