//! How large a listing can grow: linear in the size of the listed document,
//! since each binding's key and value are bytes of its line.
use vstd::prelude::*;

use crate::cli::listing::{
    json_byte, json_escaped, json_item, json_items, keys_of, list_text, names_text, table_text,
    unique_spec, yaml_item, yaml_items, BindingView,
};
use crate::cli::types::ListOptions;
use crate::diagnostics::str_bytes;
use crate::diff_size::lemma_str_bytes_len;
use crate::editor::bindings_of;
use crate::model::{render_lines, LineSpec};
use crate::parser::binding::{
    key_end_of, key_start_of, lemma_comment_suffix_start, lemma_head_indices, parse_binding_spec,
    parse_line_spec, value_start_of,
};
use crate::parser::newline::physical_lines;
use crate::parser::quoted::{closing_quote, decode_dq, lemma_closing_quote};
use crate::parser::{law_parse_render_roundtrip, lemma_parse_line_renders, parse_segments, parsed_lines};

verus! {

/// What a binding weighs in a listing: its key's bytes, its value's bytes, and one.
pub open spec fn binding_weight(b: BindingView) -> int {
    (str_bytes(b.0).len() + b.1.len() + 1) as int
}

pub open spec fn bindings_weight(bs: Seq<BindingView>) -> int
    decreases bs.len(),
{
    if bs.len() == 0 {
        0
    } else {
        bindings_weight(bs.drop_last()) + binding_weight(bs.last())
    }
}

pub proof fn lemma_bindings_weight_nonneg(bs: Seq<BindingView>)
    ensures
        bindings_weight(bs) >= bs.len(),
    decreases bs.len(),
{
    if bs.len() > 0 {
        lemma_bindings_weight_nonneg(bs.drop_last());
    }
}

/// Decoding a double-quoted body never lengthens it.
proof fn lemma_decode_dq_len(v: Seq<u8>)
    ensures
        decode_dq(v).len() <= v.len(),
    decreases v.len(),
{
    if v.len() > 0 {
        if v[0] != 92 {
            lemma_decode_dq_len(v.drop_first());
        } else if v.len() > 1 {
            lemma_decode_dq_len(v.subrange(2, v.len() as int));
        }
    }
}

/// A binding's key, `=` and value are bytes of its line.
proof fn lemma_binding_fits(t: Seq<u8>, nl: Seq<u8>)
    ensures
        parse_binding_spec(t, nl) matches Some(b) ==> str_bytes(b.key).len() + b.value.len() + 1
            <= t.len(),
{
    lemma_head_indices(t);
    if let Some(b) = parse_binding_spec(t, nl) {
        let ks = key_start_of(t);
        let ke = key_end_of(t);
        vstd::utf8::decode_utf8_encode_utf8(t.subrange(ks, ke));
        let vs = value_start_of(t);
        if vs < t.len() && (t[vs] == 39 || t[vs] == 34) {
            lemma_closing_quote(t, vs + 1, t[vs]);
            let c = closing_quote(t, vs + 1, t[vs]).unwrap();
            lemma_decode_dq_len(t.subrange(vs + 1, c));
        } else {
            lemma_comment_suffix_start(t.subrange(vs, t.len() as int));
        }
    }
}

/// The bindings of parsed lines weigh no more than the lines' bytes.
proof fn lemma_parsed_bindings_weight(segs: Seq<(Seq<u8>, Seq<u8>)>)
    ensures
        bindings_weight(bindings_of(parse_segments(segs))) <= render_lines(parse_segments(segs)).len(),
    decreases segs.len(),
{
    let lines = parse_segments(segs);
    if segs.len() == 0 {
        assert(lines.len() == 0);
    } else {
        lemma_parsed_bindings_weight(segs.drop_last());
        assert(parse_segments(segs.drop_last()) =~= lines.drop_last());
        let last = segs.last();
        assert(lines.last() == parse_line_spec(last.0, last.1));
        lemma_parse_line_renders(last.0, last.1);
        lemma_binding_fits(last.0, last.1);
        let before = bindings_of(lines.drop_last());
        match lines.last() {
            LineSpec::Binding(b) => {
                assert(bindings_of(lines) == before.push((b.key, b.value)));
                assert(before.push((b.key, b.value)).drop_last() =~= before);
            },
            _ => {},
        }
    }
}

/// Keeping the first binding of each key drops weight, never adds it.
proof fn lemma_unique_weight(bs: Seq<BindingView>)
    ensures
        bindings_weight(unique_spec(bs)) <= bindings_weight(bs),
    decreases bs.len(),
{
    if bs.len() > 0 {
        lemma_unique_weight(bs.drop_last());
        let before = unique_spec(bs.drop_last());
        if !keys_of(bs.drop_last()).contains(bs.last().0) {
            assert(before.push(bs.last()).drop_last() =~= before);
        }
    }
}

proof fn lemma_table_len(bs: Seq<BindingView>)
    ensures
        table_text(bs).len() <= 2 * bindings_weight(bs),
    decreases bs.len(),
{
    if bs.len() > 0 {
        lemma_table_len(bs.drop_last());
    }
}

proof fn lemma_names_len(bs: Seq<BindingView>)
    ensures
        names_text(bs).len() <= bindings_weight(bs),
    decreases bs.len(),
{
    if bs.len() > 0 {
        lemma_names_len(bs.drop_last());
    }
}

/// JSON escaping takes at most six bytes per byte.
proof fn lemma_json_escaped_len(v: Seq<u8>)
    ensures
        json_escaped(v).len() <= 6 * v.len(),
    decreases v.len(),
{
    if v.len() > 0 {
        lemma_json_escaped_len(v.drop_last());
        assert(json_byte(v.last()).len() <= 6);
    }
}

proof fn lemma_json_item_len(b: BindingView, last: bool)
    ensures
        json_item(b, last).len() <= 150 * binding_weight(b),
{
    reveal_strlit("  {\n    \"key\": ");
    reveal_strlit(",\n    \"value\": ");
    reveal_strlit("\n  }");
    lemma_str_bytes_len("  {\n    \"key\": "@);
    lemma_str_bytes_len(",\n    \"value\": "@);
    lemma_str_bytes_len("\n  }"@);
    lemma_json_escaped_len(str_bytes(b.0));
    lemma_json_escaped_len(b.1);
}

proof fn lemma_json_items_len(bs: Seq<BindingView>, n: nat)
    requires
        n <= bs.len(),
    ensures
        json_items(bs, n).len() <= 150 * bindings_weight(bs.subrange(0, n as int)),
    decreases n,
{
    if n > 0 {
        lemma_json_items_len(bs, (n - 1) as nat);
        lemma_json_item_len(bs[n - 1], n == bs.len());
        let pre = bs.subrange(0, n as int);
        assert(pre.drop_last() =~= bs.subrange(0, n - 1));
        assert(pre.last() == bs[n - 1]);
    }
}

proof fn lemma_yaml_items_len(bs: Seq<BindingView>)
    ensures
        yaml_items(bs).len() <= 73 * bindings_weight(bs),
    decreases bs.len(),
{
    if bs.len() > 0 {
        lemma_yaml_items_len(bs.drop_last());
        let b = bs.last();
        reveal_strlit("- key: ");
        reveal_strlit("\n  value: ");
        lemma_str_bytes_len("- key: "@);
        lemma_str_bytes_len("\n  value: "@);
        lemma_json_escaped_len(str_bytes(b.0));
        lemma_json_escaped_len(b.1);
        assert(yaml_item(b).len() <= 73 * binding_weight(b));
    }
}

/// Each listing format takes at most 150 bytes per unit of weight, plus 16.
proof fn lemma_list_text_len(bs: Seq<BindingView>, options: ListOptions)
    ensures
        list_text(bs, options).len() <= 150 * bindings_weight(bs) + 16,
{
    let selected = if options.unique {
        unique_spec(bs)
    } else {
        bs
    };
    lemma_unique_weight(bs);
    lemma_bindings_weight_nonneg(selected);
    lemma_table_len(selected);
    lemma_names_len(selected);
    lemma_yaml_items_len(selected);
    lemma_json_items_len(selected, selected.len());
    assert(selected.subrange(0, selected.len() as int) =~= selected);
    reveal_strlit("[]\n");
    reveal_strlit("[\n");
    reveal_strlit("]\n");
    lemma_str_bytes_len("[]\n"@);
    lemma_str_bytes_len("[\n"@);
    lemma_str_bytes_len("]\n"@);
}

/// A document's listing, in any format and with or without `--unique`, takes
/// at most 150 bytes per byte of the document, plus 16: every listed key and
/// value is made of bytes of its own line.
pub proof fn law_list_output_linear(text: Seq<u8>, options: ListOptions)
    ensures
        list_text(bindings_of(parsed_lines(text)), options).len() <= 150 * text.len() + 16,
{
    lemma_parsed_bindings_weight(physical_lines(text));
    law_parse_render_roundtrip(text);
    lemma_list_text_len(bindings_of(parsed_lines(text)), options);
}

} // verus!
