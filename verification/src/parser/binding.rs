//! Classification of one physical line: blank, comment, binding, or invalid.
use vstd::prelude::*;
use vstd::utf8::{decode_utf8, valid_utf8};

use crate::bytes::copy_range;
use crate::diagnostics::{is_key_continue, is_key_start, key_continue_byte, key_start_byte};
use crate::model::{BindingLine, BindingSpec, BlankLine, CommentLine, InvalidLine, Line, LineSpec, QuoteType};
use crate::parser::common::{
    consume_horizontal_whitespace, is_horizontal_whitespace, is_hws, lemma_skip_hws, skip_hws,
    starts_with_comment, starts_with_comment_marker,
};
use crate::parser::quoted::{parse_quoted, parse_quoted_binding};
use crate::std_support::utf8_str;

verus! {

/// ASCII whitespace as `u8::is_ascii_whitespace` defines it: space, tab, LF, FF, CR.
pub open spec fn is_ascii_ws(b: u8) -> bool {
    b == 32 || b == 9 || b == 10 || b == 12 || b == 13
}

/// Whether every byte of `t` is ASCII whitespace.
pub open spec fn all_ascii_ws(t: Seq<u8>) -> bool {
    forall|i: int| 0 <= i < t.len() ==> is_ascii_ws(#[trigger] t[i])
}

/// The bytes of the word `export`.
pub open spec fn export_word() -> Seq<u8> {
    seq![101u8, 120u8, 112u8, 111u8, 114u8, 116u8]
}

/// Whether the line uses the `export` prefix: the word followed by a space or tab.
pub open spec fn has_export(t: Seq<u8>) -> bool {
    t.len() > 6 && t.subrange(0, 6) == export_word() && is_hws(t[6])
}

/// Where the key begins.
pub open spec fn key_start_of(t: Seq<u8>) -> int {
    if has_export(t) {
        skip_hws(t, 6)
    } else {
        0
    }
}

/// The first index at or after `i` that does not continue a key.
pub open spec fn skip_key(t: Seq<u8>, i: int) -> int
    decreases t.len() - i,
{
    if 0 <= i < t.len() && key_continue_byte(t[i]) {
        skip_key(t, i + 1)
    } else {
        i
    }
}

pub proof fn lemma_skip_key(t: Seq<u8>, i: int)
    requires
        0 <= i <= t.len(),
    ensures
        i <= skip_key(t, i) <= t.len(),
        skip_key(t, i) < t.len() ==> !key_continue_byte(t[skip_key(t, i)]),
        forall|k: int| i <= k < skip_key(t, i) ==> key_continue_byte(#[trigger] t[k]),
    decreases t.len() - i,
{
    if i < t.len() && key_continue_byte(t[i]) {
        lemma_skip_key(t, i + 1);
    }
}

/// Where the key ends.
pub open spec fn key_end_of(t: Seq<u8>) -> int {
    skip_key(t, key_start_of(t) + 1)
}

/// Where the `=` is expected.
pub open spec fn equals_of(t: Seq<u8>) -> int {
    skip_hws(t, key_end_of(t))
}

/// Where the value token begins.
pub open spec fn value_start_of(t: Seq<u8>) -> int {
    skip_hws(t, equals_of(t) + 1)
}

/// Whether the line has the `[export] KEY =` head of a binding.
pub open spec fn binding_head(t: Seq<u8>) -> bool {
    let ks = key_start_of(t);
    &&& ks < t.len()
    &&& key_start_byte(t[ks])
    &&& valid_utf8(t.subrange(ks, key_end_of(t)))
    &&& equals_of(t) < t.len()
    &&& t[equals_of(t)] == 61
}

/// The first `#` (at index 1 or later) that directly follows a space or tab.
pub open spec fn first_comment_hash(v: Seq<u8>, i: int) -> Option<int>
    decreases v.len() - i,
{
    if i < 0 || i >= v.len() {
        None
    } else if i >= 1 && v[i] == 35 && is_hws(v[i - 1]) {
        Some(i)
    } else {
        first_comment_hash(v, i + 1)
    }
}

/// The start of the run of spaces and tabs that ends at `j`.
pub open spec fn hws_run_start(v: Seq<u8>, j: int) -> int
    decreases j,
{
    if 0 < j <= v.len() && is_hws(v[j - 1]) {
        hws_run_start(v, j - 1)
    } else {
        j
    }
}

/// Where an unquoted value's inline-comment suffix begins, if it has one: at
/// the whitespace before the first ` #`.
pub open spec fn comment_suffix_start(v: Seq<u8>) -> Option<int> {
    match first_comment_hash(v, 0) {
        Some(i) => Some(hws_run_start(v, i - 1)),
        None => None,
    }
}

pub proof fn lemma_first_comment_hash(v: Seq<u8>, i: int)
    requires
        0 <= i,
    ensures
        first_comment_hash(v, i) matches Some(h) ==> i <= h < v.len() && h >= 1 && v[h] == 35
            && is_hws(v[h - 1]),
    decreases v.len() - i,
{
    if i < v.len() && !(i >= 1 && v[i] == 35 && is_hws(v[i - 1])) {
        lemma_first_comment_hash(v, i + 1);
    }
}

pub proof fn lemma_hws_run_start(v: Seq<u8>, j: int)
    requires
        0 <= j <= v.len(),
    ensures
        0 <= hws_run_start(v, j) <= j,
    decreases j,
{
    if 0 < j && is_hws(v[j - 1]) {
        lemma_hws_run_start(v, j - 1);
    }
}

pub proof fn lemma_comment_suffix_start(v: Seq<u8>)
    ensures
        comment_suffix_start(v) matches Some(s) ==> 0 <= s < v.len(),
{
    lemma_first_comment_hash(v, 0);
    if let Some(h) = first_comment_hash(v, 0) {
        lemma_hws_run_start(v, h - 1);
    }
}

/// The binding of an unquoted value token starting at `vs`.
pub open spec fn parse_unquoted(
    t: Seq<u8>,
    nl: Seq<u8>,
    export: bool,
    key: Seq<char>,
    prefix: Seq<u8>,
    vs: int,
) -> BindingSpec {
    let v = t.subrange(vs, t.len() as int);
    let (raw, suffix, inline) = match comment_suffix_start(v) {
        Some(s) => (v.subrange(0, s), v.subrange(s, v.len() as int), Some(
            v.subrange(s, v.len() as int),
        )),
        None => (v, Seq::<u8>::empty(), None::<Seq<u8>>),
    };
    BindingSpec {
        export,
        key,
        value: raw,
        raw_value: raw,
        quote_type: QuoteType::Unquoted,
        prefix,
        suffix,
        inline_comment: inline,
        original_text: t,
        newline: nl,
    }
}

/// The binding that a line holds, if it is one.
pub open spec fn parse_binding_spec(t: Seq<u8>, nl: Seq<u8>) -> Option<BindingSpec> {
    if !binding_head(t) {
        None
    } else {
        let vs = value_start_of(t);
        let export = has_export(t);
        let key = decode_utf8(t.subrange(key_start_of(t), key_end_of(t)));
        let prefix = t.subrange(0, vs);
        if vs < t.len() && (t[vs] == 39 || t[vs] == 34) {
            parse_quoted(t, nl, export, key, prefix, vs)
        } else {
            Some(parse_unquoted(t, nl, export, key, prefix, vs))
        }
    }
}

/// How a physical line with body `t` and terminator `nl` is classified.
pub open spec fn parse_line_spec(t: Seq<u8>, nl: Seq<u8>) -> LineSpec {
    if all_ascii_ws(t) {
        LineSpec::Blank { text: t, newline: nl }
    } else if starts_with_comment(t) {
        LineSpec::Comment { text: t, newline: nl }
    } else {
        match parse_binding_spec(t, nl) {
            Some(b) => LineSpec::Binding(b),
            None => LineSpec::Invalid { text: t, newline: nl },
        }
    }
}

pub proof fn lemma_head_indices(t: Seq<u8>)
    ensures
        0 <= key_start_of(t) <= t.len(),
        key_start_of(t) < t.len() ==> key_start_of(t) + 1 <= key_end_of(t) <= t.len(),
        key_start_of(t) < t.len() ==> key_end_of(t) <= equals_of(t) <= t.len(),
        key_start_of(t) < t.len() && equals_of(t) < t.len() ==> equals_of(t) + 1 <= value_start_of(
            t,
        ) <= t.len(),
{
    if has_export(t) {
        lemma_skip_hws(t, 6);
    }
    let ks = key_start_of(t);
    if ks < t.len() {
        lemma_skip_key(t, ks + 1);
        lemma_skip_hws(t, key_end_of(t));
        if equals_of(t) < t.len() {
            lemma_skip_hws(t, equals_of(t) + 1);
        }
    }
}

fn is_ascii_whitespace(b: u8) -> (r: bool)
    ensures
        r == is_ascii_ws(b),
{
    b == 32 || b == 9 || b == 10 || b == 12 || b == 13
}

fn all_ascii_whitespace(text: &[u8]) -> (r: bool)
    ensures
        r == all_ascii_ws(text@),
{
    let mut i: usize = 0;
    while i < text.len()
        invariant
            i <= text@.len(),
            forall|k: int| 0 <= k < i ==> is_ascii_ws(#[trigger] text@[k]),
        decreases text.len() - i,
    {
        if !is_ascii_whitespace(text[i]) {
            assert(!is_ascii_ws(text@[i as int]));
            return false;
        }
        i = i + 1;
    }
    true
}

/// Classifies a physical line without interpreting unsupported syntax.
pub fn parse_line(text: &[u8], newline: &[u8]) -> (r: Line)
    ensures
        r@ == parse_line_spec(text@, newline@),
{
    if all_ascii_whitespace(text) {
        return Line::Blank(BlankLine { text: copy_all(text), newline: copy_all(newline) });
    }
    if starts_with_comment_marker(text) {
        return Line::Comment(CommentLine { text: copy_all(text), newline: copy_all(newline) });
    }
    match parse_binding(text, newline) {
        Some(b) => Line::Binding(b),
        None => Line::Invalid(InvalidLine { text: copy_all(text), newline: copy_all(newline) }),
    }
}

fn copy_all(text: &[u8]) -> (r: Vec<u8>)
    ensures
        r@ == text@,
{
    let r = copy_range(text, 0, text.len());
    assert(r@ =~= text@);
    r
}

fn has_export_prefix(text: &[u8]) -> (r: bool)
    ensures
        r == has_export(text@),
{
    let r = text.len() > 6 && text[0] == 101 && text[1] == 120 && text[2] == 112 && text[3] == 111
        && text[4] == 114 && text[5] == 116 && is_horizontal_whitespace(text[6]);
    proof {
        if text@.len() > 6 {
            let w = text@.subrange(0, 6);
            if r {
                assert(w =~= export_word());
            } else if w == export_word() {
                assert(w[0] == 101 && w[1] == 120 && w[2] == 112 && w[3] == 111 && w[4] == 114
                    && w[5] == 116);
            }
        }
    }
    r
}

fn parse_binding(text: &[u8], newline: &[u8]) -> (r: Option<BindingLine>)
    ensures
        match r {
            Some(b) => parse_binding_spec(text@, newline@) == Some(b@),
            None => parse_binding_spec(text@, newline@) is None,
        },
{
    let ghost t = text@;
    proof {
        lemma_head_indices(t);
    }
    let mut index: usize = 0;
    let export = has_export_prefix(text);
    if export {
        index = consume_horizontal_whitespace(text, 6);
    }
    let key_start = index;
    if index >= text.len() || !is_key_start(text[index]) {
        return None;
    }
    index = index + 1;
    while index < text.len() && is_key_continue(text[index])
        invariant
            key_start < index <= t.len(),
            t == text@,
            skip_key(t, index as int) == key_end_of(t),
        decreases text.len() - index,
    {
        index = index + 1;
    }
    let key_bytes = copy_range(text, key_start, index);
    let key = match utf8_str(key_bytes.as_slice()) {
        Some(k) => k,
        None => return None,
    };

    index = consume_horizontal_whitespace(text, index);
    if index >= text.len() || text[index] != 61 {
        return None;
    }

    index = index + 1;
    index = consume_horizontal_whitespace(text, index);
    // Prefix is preserved so edits keep existing `export`, key, `=`, and spacing.
    let prefix = copy_range(text, 0, index);

    if index < text.len() && (text[index] == 39 || text[index] == 34) {
        return parse_quoted_binding(text, newline, export, key, prefix, index);
    }
    let value_text = copy_range(text, index, text.len());
    let (raw_value, suffix, inline_comment) = split_unquoted_value_and_suffix(value_text.as_slice());
    let value = copy_range(raw_value.as_slice(), 0, raw_value.len());
    let original_text = copy_all(text);
    let newline_copy = copy_all(newline);
    proof {
        assert(value@ =~= raw_value@);
    }
    let line = BindingLine {
        export,
        key: key.to_owned(),
        value,
        raw_value,
        quote_type: QuoteType::Unquoted,
        prefix,
        suffix,
        inline_comment,
        original_text,
        newline: newline_copy,
    };
    proof {
        let spec = parse_binding_spec(t, newline@).unwrap();
        assert(line@.suffix == spec.suffix);
        assert(line@ == spec);
    }
    Some(line)
}

fn split_unquoted_value_and_suffix(value_text: &[u8]) -> (r: (Vec<u8>, Vec<u8>, Option<Vec<u8>>))
    ensures
        match comment_suffix_start(value_text@) {
            Some(s) => {
                &&& r.0@ == value_text@.subrange(0, s)
                &&& r.1@ == value_text@.subrange(s, value_text@.len() as int)
                &&& r.2 matches Some(c) && c@ == r.1@
            },
            None => r.0@ == value_text@ && r.1@.len() == 0 && r.2 is None,
        },
{
    proof {
        lemma_comment_suffix_start(value_text@);
    }
    match find_unquoted_comment_suffix_start(value_text) {
        None => (copy_all(value_text), Vec::new(), None),
        Some(suffix_start) => {
            let raw_value = copy_range(value_text, 0, suffix_start);
            let suffix = copy_range(value_text, suffix_start, value_text.len());
            let comment = copy_range(value_text, suffix_start, value_text.len());
            (raw_value, suffix, Some(comment))
        },
    }
}

fn find_unquoted_comment_suffix_start(value_text: &[u8]) -> (r: Option<usize>)
    ensures
        match r {
            Some(s) => comment_suffix_start(value_text@) == Some(s as int),
            None => comment_suffix_start(value_text@) is None,
        },
{
    let ghost v = value_text@;
    let mut index: usize = 0;
    while index < value_text.len()
        invariant
            v == value_text@,
            index <= v.len(),
            first_comment_hash(v, index as int) == first_comment_hash(v, 0),
        decreases value_text.len() - index,
    {
        // Only ` #` starts an inline comment. `#` at the beginning of a value or
        // after non-whitespace stays part of the value.
        if value_text[index] != 35 || index == 0 || !is_horizontal_whitespace(value_text[index - 1]) {
            index = index + 1;
            continue;
        }
        let mut suffix_start = index - 1;
        while suffix_start > 0 && is_horizontal_whitespace(value_text[suffix_start - 1])
            invariant
                v == value_text@,
                suffix_start < v.len(),
                hws_run_start(v, suffix_start as int) == hws_run_start(v, index - 1),
            decreases suffix_start,
        {
            suffix_start = suffix_start - 1;
        }
        return Some(suffix_start);
    }
    None
}

} // verus!
