//! Byte-preserving parser for envq's documented `.env` subset.
//!
//! The parser is local on purpose: envq is an editor, so it keeps unsupported
//! syntax, comments, spacing, mixed line endings, duplicate bindings and
//! invalid UTF-8 so that unrelated edits render byte-for-byte.
use vstd::prelude::*;

use crate::model::{lines_view, Document, LineSpec, render_lines};

pub mod binding;
pub mod common;
pub mod newline;
pub mod quoted;

use self::binding::{
    all_ascii_ws, binding_head, comment_suffix_start, key_end_of, key_start_of, lemma_comment_suffix_start,
    lemma_head_indices, lemma_skip_key, parse_binding_spec, parse_line, parse_line_spec,
    value_start_of,
};
use crate::diagnostics::{key_continue_byte, str_bytes, valid_key_bytes};
use crate::reparse::line_body;
use self::newline::{is_line_break, lemma_split_well_formed, well_formed_segment};
use self::quoted::{closing_quote, lemma_closing_quote};
use self::newline::{
    join_segments, lemma_split_join, physical_lines, preferred_newline, preferred_newline_of,
    segments_view, split_physical_lines,
};

verus! {

/// The lines of a parsed file: each physical line classified on its own.
pub open spec fn parse_segments(segs: Seq<(Seq<u8>, Seq<u8>)>) -> Seq<LineSpec> {
    segs.map_values(|s: (Seq<u8>, Seq<u8>)| parse_line_spec(s.0, s.1))
}

/// The lines that `parse_document` gives for `text`.
pub open spec fn parsed_lines(text: Seq<u8>) -> Seq<LineSpec> {
    parse_segments(physical_lines(text))
}

/// Parses raw file bytes into a byte-backed document model.
pub fn parse_document(text: &[u8]) -> (r: Document)
    ensures
        r@.lines == parsed_lines(text@),
        preferred_newline_of(physical_lines(text@), r@.preferred_newline),
{
    let segments = split_physical_lines(text);
    let preferred_newline = preferred_newline(&segments);
    let mut lines = Vec::with_capacity(segments.len());
    let mut i: usize = 0;
    while i < segments.len()
        invariant
            i <= segments@.len(),
            segments_view(segments@) == physical_lines(text@),
            lines_view(lines@) == parse_segments(segments_view(segments@).subrange(0, i as int)),
        decreases segments.len() - i,
    {
        let line = parse_line(segments[i].0.as_slice(), segments[i].1.as_slice());
        let ghost before = lines@;
        lines.push(line);
        proof {
            assert(lines_view(lines@) =~= lines_view(before).push(line@));
            assert(parse_segments(segments_view(segments@).subrange(0, i + 1)) =~= parse_segments(
                segments_view(segments@).subrange(0, i as int),
            ).push(line@));
        }
        i = i + 1;
    }
    proof {
        assert(segments_view(segments@).subrange(0, i as int) =~= segments_view(segments@));
    }
    Document { lines, preferred_newline }
}

/// Rendering a line as the parser classified it gives back its body and terminator.
#[verifier::spinoff_prover]
#[verifier::rlimit(40)]
pub proof fn lemma_parse_line_renders(t: Seq<u8>, nl: Seq<u8>)
    ensures
        parse_line_spec(t, nl).rendered() == t + nl,
{
    lemma_head_indices(t);
    if !all_ascii_ws(t) && !common::starts_with_comment(t) {
        if let Some(b) = parse_binding_spec(t, nl) {
            let vs = value_start_of(t);
            if vs < t.len() && (t[vs] == 39 || t[vs] == 34) {
                lemma_closing_quote(t, vs + 1, t[vs]);
                let c = closing_quote(t, vs + 1, t[vs]).unwrap();
                assert(t.subrange(0, vs) + t.subrange(vs, c + 1) + t.subrange(c + 1, t.len() as int)
                    =~= t);
            } else {
                let v = t.subrange(vs, t.len() as int);
                lemma_comment_suffix_start(v);
                match comment_suffix_start(v) {
                    Some(s) => {
                        assert(t.subrange(0, vs) + v.subrange(0, s) + v.subrange(s, v.len() as int)
                            =~= t);
                    },
                    None => {
                        assert(t.subrange(0, vs) + v + Seq::<u8>::empty() =~= t);
                    },
                }
            }
        }
    }
}

proof fn lemma_render_parsed_segments(segs: Seq<(Seq<u8>, Seq<u8>)>)
    ensures
        render_lines(parse_segments(segs)) == join_segments(segs),
    decreases segs.len(),
{
    if segs.len() > 0 {
        let rest = segs.drop_first();
        lemma_render_parsed_segments(rest);
        lemma_render_lines_prepend(parse_line_spec(segs[0].0, segs[0].1), parse_segments(rest));
        assert(parse_segments(segs) =~= seq![parse_line_spec(segs[0].0, segs[0].1)]
            + parse_segments(rest));
        lemma_parse_line_renders(segs[0].0, segs[0].1);
        assert(join_segments(segs) == segs[0].0 + segs[0].1 + join_segments(rest));
        assert(segs[0].0 + segs[0].1 + join_segments(rest) =~= (segs[0].0 + segs[0].1)
            + join_segments(rest));
    } else {
        assert(parse_segments(segs) =~= Seq::<LineSpec>::empty());
    }
}

/// Rendering a line list with one more line in front.
pub proof fn lemma_render_lines_prepend(first: LineSpec, rest: Seq<LineSpec>)
    ensures
        render_lines(seq![first] + rest) == first.rendered() + render_lines(rest),
    decreases rest.len(),
{
    let all = seq![first] + rest;
    if rest.len() == 0 {
        assert(all.drop_last() =~= Seq::<LineSpec>::empty());
        assert(render_lines(all) == render_lines(all.drop_last()) + all.last().rendered());
        assert(render_lines(Seq::<LineSpec>::empty()) =~= Seq::<u8>::empty());
        assert(first.rendered() + Seq::<u8>::empty() =~= first.rendered());
        assert(Seq::<u8>::empty() + first.rendered() =~= first.rendered());
    } else {
        lemma_render_lines_prepend(first, rest.drop_last());
        assert(all.drop_last() =~= seq![first] + rest.drop_last());
        assert(render_lines(all) == render_lines(all.drop_last()) + all.last().rendered());
        assert(render_lines(rest) == render_lines(rest.drop_last()) + rest.last().rendered());
        assert(first.rendered() + render_lines(rest.drop_last()) + rest.last().rendered()
            =~= first.rendered() + (render_lines(rest.drop_last()) + rest.last().rendered()));
    }
}

/// Parsing never loses a byte: rendering the parsed lines gives back the file.
pub proof fn law_parse_render_roundtrip(text: Seq<u8>)
    ensures
        render_lines(parsed_lines(text)) == text,
{
    lemma_render_parsed_segments(physical_lines(text));
    lemma_split_join(text, 0);
    assert(text.subrange(0, text.len() as int) =~= text);
}

/// The shape of a parsed line: its body holds no CR or LF; its terminator is
/// LF, CRLF or CR, except that the last line may have none, and then its body
/// is not empty; and a binding's key follows the key grammar.
pub open spec fn line_shape_ok(l: LineSpec, last: bool) -> bool {
    &&& forall|k: int| 0 <= k < line_body(l).len() ==> !is_line_break(#[trigger] line_body(l)[k])
    &&& (l.newline() == seq![10u8] || l.newline() == seq![13u8, 10u8] || l.newline() == seq![13u8]
        || (last && l.newline().len() == 0 && line_body(l).len() > 0))
    &&& (l matches LineSpec::Binding(b) ==> valid_key_bytes(str_bytes(b.key)))
}

/// A line classified from a well-formed physical line has the shape above.
#[verifier::spinoff_prover]
#[verifier::rlimit(40)]
proof fn lemma_line_shape(t: Seq<u8>, nl: Seq<u8>, last: bool)
    requires
        well_formed_segment((t, nl)),
        nl.len() > 0 || t.len() > 0,
        !last ==> nl.len() > 0,
    ensures
        line_shape_ok(parse_line_spec(t, nl), last),
{
    let l = parse_line_spec(t, nl);
    lemma_parse_line_renders(t, nl);
    lemma_head_indices(t);
    assert(l.newline() == nl);
    assert(line_body(l) + nl == l.rendered());
    assert(line_body(l) =~= (t + nl).subrange(0, t.len() as int));
    assert(line_body(l) =~= t);
    if let LineSpec::Binding(b) = l {
        let ks = key_start_of(t);
        let ke = key_end_of(t);
        lemma_skip_key(t, ks + 1);
        vstd::utf8::decode_utf8_encode_utf8(t.subrange(ks, ke));
        assert(str_bytes(b.key) =~= t.subrange(ks, ke));
        let k = t.subrange(ks, ke);
        assert(parse_binding_spec(t, nl) is Some);
        assert(binding_head(t));
        assert(k.len() > 0);
        assert(k[0] == t[ks]);
        assert forall|i: int| 1 <= i < k.len() implies key_continue_byte(#[trigger] k[i]) by {
            assert(k[i] == t[ks + i]);
        }
        assert(valid_key_bytes(str_bytes(b.key)));
    }
    let seg = (t, nl);
    assert forall|k: int| 0 <= k < line_body(l).len() implies !is_line_break(
        #[trigger] line_body(l)[k],
    ) by {
        assert(line_body(l)[k] == seg.0[k]);
    }
}

/// What every parsed line looks like: its body holds no CR or LF; its
/// terminator is LF, CRLF or CR, except that the last line may have none,
/// and then its body is not empty; and every binding's key follows the key
/// grammar `[A-Za-z_][A-Za-z0-9_]*`.
pub proof fn law_parsed_lines_well_formed(text: Seq<u8>)
    ensures
        forall|i: int|
            0 <= i < parsed_lines(text).len() ==> line_shape_ok(
                #[trigger] parsed_lines(text)[i],
                i == parsed_lines(text).len() - 1,
            ),
{
    let segs = physical_lines(text);
    lemma_split_well_formed(text, 0);
    assert forall|i: int| 0 <= i < parsed_lines(text).len() implies line_shape_ok(
        #[trigger] parsed_lines(text)[i],
        i == parsed_lines(text).len() - 1,
    ) by {
        assert(parsed_lines(text)[i] == parse_line_spec(segs[i].0, segs[i].1));
        assert(well_formed_segment(segs[i]));
        assert(segs[i] == (segs[i].0, segs[i].1));
        lemma_line_shape(segs[i].0, segs[i].1, i == segs.len() - 1);
    }
}

} // verus!
