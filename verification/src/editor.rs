//! Pure document editing operations.
//!
//! These functions do not perform file I/O. They transform parsed documents and
//! leave command-specific output decisions to the CLI layer.
use vstd::prelude::*;

use crate::bytes::{slice_to_vec, str_eq};
use crate::diagnostics::{push_str, str_bytes};
use crate::model::{
    BindingLine, BindingSpec, Document, DocumentSpec, Line, LineSpec, QuoteType, copy_bytes,
    lines_view,
};
use crate::parser::common::{
    all_hws, is_hws, lemma_skip_hws, lstrip_horizontal, skip_hws, starts_with_comment,
};
use crate::render::{EncodedValue, auto_encoding, double_quoted, encode_value_auto, encode_value_double};

verus! {

/// Result of removing a key from a document.
#[derive(Clone, Debug, PartialEq, Eq)]
pub struct UnsetResult {
    /// Updated document, or the original document when nothing was removed.
    pub document: Document,
    /// Number of bindings removed.
    pub removed_count: usize,
}

/// Whether a line is a binding of `key`.
pub open spec fn binds(l: LineSpec, key: Seq<char>) -> bool {
    l matches LineSpec::Binding(b) && b.key == key
}

/// The index of the first binding of `key`.
pub open spec fn first_index(lines: Seq<LineSpec>, key: Seq<char>) -> Option<int>
    decreases lines.len(),
{
    if lines.len() == 0 {
        None
    } else {
        match first_index(lines.drop_last(), key) {
            Some(i) => Some(i),
            None => if binds(lines.last(), key) {
                Some(lines.len() - 1)
            } else {
                None
            },
        }
    }
}

/// The value of the first binding of `key`.
pub open spec fn first_value(lines: Seq<LineSpec>, key: Seq<char>) -> Option<Seq<u8>> {
    match first_index(lines, key) {
        Some(i) => Some(lines[i]->Binding_0.value),
        None => None,
    }
}

/// The keys and values of all bindings, in file order.
pub open spec fn bindings_of(lines: Seq<LineSpec>) -> Seq<(Seq<char>, Seq<u8>)>
    decreases lines.len(),
{
    if lines.len() == 0 {
        Seq::empty()
    } else {
        let before = bindings_of(lines.drop_last());
        match lines.last() {
            LineSpec::Binding(b) => before.push((b.key, b.value)),
            _ => before,
        }
    }
}

/// The lines that are not bindings of `key`, in order.
pub open spec fn lines_without(lines: Seq<LineSpec>, key: Seq<char>) -> Seq<LineSpec>
    decreases lines.len(),
{
    if lines.len() == 0 {
        Seq::empty()
    } else {
        let before = lines_without(lines.drop_last(), key);
        if binds(lines.last(), key) {
            before
        } else {
            before.push(lines.last())
        }
    }
}

/// How many lines are bindings of `key`.
pub open spec fn count_bindings(lines: Seq<LineSpec>, key: Seq<char>) -> nat
    decreases lines.len(),
{
    if lines.len() == 0 {
        0
    } else {
        count_bindings(lines.drop_last(), key) + if binds(lines.last(), key) {
            1nat
        } else {
            0nat
        }
    }
}

/// Gives the last line the preferred terminator when it has none.
pub open spec fn with_terminal_newline(lines: Seq<LineSpec>, nl: Seq<u8>) -> Seq<LineSpec> {
    if lines.len() == 0 || lines.last().newline().len() > 0 {
        lines
    } else {
        lines.update(lines.len() - 1, lines.last().with_newline(nl))
    }
}

/// Whether writing `value` unquoted in front of `suffix` would change what the
/// line means: an all-whitespace suffix would be absorbed, a suffix that
/// starts directly with `#` would join the value, and an empty value before a
/// comment would leave the comment as the value.
pub open spec fn would_absorb_suffix(value: Seq<u8>, suffix: Seq<u8>) -> bool {
    suffix.len() > 0 && (all_hws(suffix) || suffix[0] == 35 || (value.len() == 0
        && starts_with_comment(suffix)))
}

/// The token chosen when `value` replaces the value of a line with `suffix`.
pub open spec fn existing_line_encoding(value: Seq<u8>, suffix: Seq<u8>) -> (Seq<u8>, QuoteType) {
    let auto = auto_encoding(value);
    if auto.1 == QuoteType::Unquoted && would_absorb_suffix(value, suffix) {
        (double_quoted(value), QuoteType::Double)
    } else {
        auto
    }
}

/// A binding with its value replaced, keeping prefix, suffix and terminator.
pub open spec fn rebound(b: BindingSpec, value: Seq<u8>) -> BindingSpec {
    let enc = existing_line_encoding(value, b.suffix);
    BindingSpec { value, raw_value: enc.0, quote_type: enc.1, ..b }
}

/// The binding appended for a key that the document does not have yet.
pub open spec fn appended_binding(key: Seq<char>, value: Seq<u8>, nl: Seq<u8>) -> BindingSpec {
    let enc = auto_encoding(value);
    let prefix = str_bytes(key) + seq![61u8];
    BindingSpec {
        export: false,
        key,
        value,
        raw_value: enc.0,
        quote_type: enc.1,
        prefix,
        suffix: Seq::empty(),
        inline_comment: None,
        original_text: prefix + enc.0,
        newline: nl,
    }
}

/// What `set_value` makes of a document.
pub open spec fn set_value_spec(d: DocumentSpec, key: Seq<char>, value: Seq<u8>) -> DocumentSpec {
    let nl = d.preferred_newline;
    match first_index(d.lines, key) {
        Some(i) => DocumentSpec {
            lines: with_terminal_newline(
                d.lines.update(i, LineSpec::Binding(rebound(d.lines[i]->Binding_0, value))),
                nl,
            ),
            preferred_newline: nl,
        },
        None => DocumentSpec {
            lines: with_terminal_newline(d.lines, nl).push(
                LineSpec::Binding(appended_binding(key, value, nl)),
            ),
            preferred_newline: nl,
        },
    }
}

/// What `unset_key` makes of a document.
pub open spec fn unset_spec(d: DocumentSpec, key: Seq<char>) -> DocumentSpec {
    let kept = lines_without(d.lines, key);
    if count_bindings(d.lines, key) == 0 {
        d
    } else if kept.len() == 0 {
        DocumentSpec { lines: Seq::empty(), preferred_newline: d.preferred_newline }
    } else {
        DocumentSpec {
            lines: with_terminal_newline(kept, d.preferred_newline),
            preferred_newline: d.preferred_newline,
        }
    }
}

/// Where the first binding of `key` is, no earlier line binds it; without one, no line does.
pub proof fn lemma_first_index_bounds(lines: Seq<LineSpec>, key: Seq<char>)
    ensures
        first_index(lines, key) matches Some(i) ==> 0 <= i < lines.len() && binds(lines[i], key)
            && forall|j: int| 0 <= j < i ==> !binds(#[trigger] lines[j], key),
        first_index(lines, key) is None ==> forall|j: int|
            0 <= j < lines.len() ==> !binds(#[trigger] lines[j], key),
    decreases lines.len(),
{
    if lines.len() > 0 {
        lemma_first_index_bounds(lines.drop_last(), key);
        assert forall|j: int| 0 <= j < lines.len() - 1 implies lines.drop_last()[j] == lines[j] by {}
    }
}

fn key_matches(binding: &BindingLine, key: &str) -> (r: bool)
    ensures
        r == (binding@.key == key@),
{
    str_eq(binding.key.as_str(), key)
}

/// Returns the first matching binding value.
pub fn get_value<'a>(document: &'a Document, key: &str) -> (r: Option<&'a [u8]>)
    ensures
        match r {
            Some(v) => first_value(document@.lines, key@) == Some(v@),
            None => first_value(document@.lines, key@) is None,
        },
{
    let mut i: usize = 0;
    while i < document.lines.len()
        invariant
            i <= document.lines@.len(),
            first_index(lines_view(document.lines@.subrange(0, i as int)), key@) is None,
        decreases document.lines.len() - i,
    {
        let ghost pre = lines_view(document.lines@.subrange(0, i + 1));
        proof {
            assert(pre.drop_last() =~= lines_view(document.lines@.subrange(0, i as int)));
        }
        match &document.lines[i] {
            Line::Binding(binding) => {
                if key_matches(binding, key) {
                    proof {
                        assert(lines_view(document.lines@).subrange(0, i as int) =~= lines_view(
                            document.lines@.subrange(0, i as int),
                        ));
                        lemma_first_index_prefix(lines_view(document.lines@), key@, i as int);
                    }
                    return Some(binding.value.as_slice());
                }
            },
            _ => {},
        }
        i = i + 1;
    }
    proof {
        assert(document.lines@.subrange(0, i as int) =~= document.lines@);
    }
    None
}

/// When no binding of `key` comes before `i` and line `i` binds it, the first index is `i`.
proof fn lemma_first_index_prefix(lines: Seq<LineSpec>, key: Seq<char>, i: int)
    requires
        0 <= i < lines.len(),
        first_index(lines.subrange(0, i), key) is None,
        binds(lines[i], key),
    ensures
        first_index(lines, key) == Some(i),
    decreases lines.len(),
{
    if lines.len() == i + 1 {
        assert(lines.drop_last() =~= lines.subrange(0, i));
    } else {
        assert(lines.drop_last().subrange(0, i) =~= lines.subrange(0, i));
        lemma_first_index_prefix(lines.drop_last(), key, i);
    }
}

/// Returns whether any binding with `key` exists.
pub fn has_key(document: &Document, key: &str) -> (r: bool)
    ensures
        r == first_value(document@.lines, key@).is_some(),
        r == exists|i: int| 0 <= i < document@.lines.len() && binds(document@.lines[i], key@),
{
    let r = get_value(document, key).is_some();
    proof {
        lemma_first_index_bounds(document@.lines, key@);
    }
    r
}

/// The view of a list of key/value pairs.
pub open spec fn pairs_view(v: Seq<(String, Vec<u8>)>) -> Seq<(Seq<char>, Seq<u8>)> {
    v.map_values(|p: (String, Vec<u8>)| (p.0@, p.1@))
}

/// Lists binding keys and resolved values in file order.
pub fn list_bindings(document: &Document) -> (r: Vec<(String, Vec<u8>)>)
    ensures
        pairs_view(r@) == bindings_of(document@.lines),
{
    let mut out: Vec<(String, Vec<u8>)> = Vec::new();
    let mut i: usize = 0;
    while i < document.lines.len()
        invariant
            i <= document.lines@.len(),
            pairs_view(out@) == bindings_of(lines_view(document.lines@.subrange(0, i as int))),
        decreases document.lines.len() - i,
    {
        let ghost pre = lines_view(document.lines@.subrange(0, i + 1));
        proof {
            assert(pre.drop_last() =~= lines_view(document.lines@.subrange(0, i as int)));
        }
        match &document.lines[i] {
            Line::Binding(binding) => {
                let ghost before = out@;
                out.push((binding.key.clone(), copy_bytes(&binding.value)));
                proof {
                    assert(pairs_view(out@) =~= pairs_view(before).push((binding.key@, binding.value@)));
                }
            },
            _ => {},
        }
        i = i + 1;
    }
    proof {
        assert(document.lines@.subrange(0, i as int) =~= document.lines@);
    }
    out
}

/// Sets the first matching binding or appends a new binding.
pub fn set_value(document: &Document, key: &str, value: &[u8]) -> (r: Document)
    ensures
        r@ == set_value_spec(document@, key@, value@),
{
    let mut new_lines: Vec<Line> = Vec::with_capacity(document.lines.len());
    let mut updated = false;
    let ghost lines = document@.lines;

    let mut i: usize = 0;
    while i < document.lines.len()
        invariant
            i <= document.lines@.len(),
            lines == document@.lines,
            updated == first_index(lines.subrange(0, i as int), key@).is_some(),
            lines_view(new_lines@) == match first_index(lines.subrange(0, i as int), key@) {
                Some(j) => lines.subrange(0, i as int).update(
                    j,
                    LineSpec::Binding(rebound(lines[j]->Binding_0, value@)),
                ),
                None => lines.subrange(0, i as int),
            },
            first_index(lines.subrange(0, i as int), key@) matches Some(j) ==> 0 <= j < i,
        decreases document.lines.len() - i,
    {
        let ghost pre = lines.subrange(0, i + 1);
        proof {
            assert(pre.drop_last() =~= lines.subrange(0, i as int));
            assert(lines_view(document.lines@.subrange(0, i + 1)) =~= pre);
        }
        let ghost before = new_lines@;
        let line = &document.lines[i];
        let mut replaced = false;
        if !updated {
            if let Line::Binding(binding) = line {
                if key_matches(binding, key) {
                    let encoded_value = encode_value_for_existing_line(value, binding);
                    new_lines.push(
                        Line::Binding(
                            BindingLine {
                                export: binding.export,
                                key: binding.key.clone(),
                                value: slice_to_vec(value),
                                raw_value: encoded_value.text,
                                quote_type: encoded_value.quote_type,
                                prefix: copy_bytes(&binding.prefix),
                                suffix: copy_bytes(&binding.suffix),
                                inline_comment: copy_option(&binding.inline_comment),
                                original_text: copy_bytes(&binding.original_text),
                                newline: copy_bytes(&binding.newline),
                            },
                        ),
                    );
                    updated = true;
                    replaced = true;
                }
            }
        }
        if !replaced {
            new_lines.push(line.duplicate());
        }
        proof {
            assert(lines_view(new_lines@).drop_last() =~= lines_view(before));
            match first_index(lines.subrange(0, i as int), key@) {
                Some(j) => {
                    assert(first_index(pre, key@) == Some(j));
                    assert(!replaced);
                    assert(lines_view(new_lines@) == lines_view(before).push(lines[i as int]));
                    assert(lines_view(new_lines@) =~= pre.update(
                        j,
                        LineSpec::Binding(rebound(lines[j]->Binding_0, value@)),
                    ));
                },
                None => {
                    if replaced {
                        assert(lines_view(new_lines@) =~= pre.update(
                            i as int,
                            LineSpec::Binding(rebound(lines[i as int]->Binding_0, value@)),
                        ));
                    } else {
                        assert(lines_view(new_lines@) =~= pre);
                    }
                },
            }
        }
        i = i + 1;
    }
    proof {
        assert(lines.subrange(0, i as int) =~= lines);
    }

    if updated {
        let lines_out = ensure_terminal_newline(new_lines, document.preferred_newline.as_slice());
        return Document { lines: lines_out, preferred_newline: copy_bytes(&document.preferred_newline) };
    }
    let mut lines_for_append = ensure_terminal_newline(new_lines, document.preferred_newline.as_slice());
    let encoded_value = encode_value_auto(value);
    let mut prefix: Vec<u8> = Vec::new();
    push_str(&mut prefix, key);
    prefix.push(61);
    let mut original_text = copy_bytes(&prefix);
    crate::bytes::extend_bytes(&mut original_text, encoded_value.text.as_slice());
    let new_line = Line::Binding(
        BindingLine {
            export: false,
            key: key.to_owned(),
            value: slice_to_vec(value),
            raw_value: encoded_value.text,
            quote_type: encoded_value.quote_type,
            prefix,
            suffix: Vec::new(),
            inline_comment: None,
            original_text,
            newline: copy_bytes(&document.preferred_newline),
        },
    );
    proof {
        let expected = appended_binding(key@, value@, document@.preferred_newline);
        let got = new_line->Binding_0@;
        assert(got.prefix == expected.prefix);
        assert(got.raw_value == expected.raw_value);
        assert(got.quote_type == expected.quote_type);
        assert(got.original_text == expected.original_text);
        assert(got.suffix =~= expected.suffix);
        assert(got == expected);
    }
    let ghost before = lines_for_append@;
    let ghost new_view = new_line@;
    lines_for_append.push(new_line);
    proof {
        assert(lines_view(lines_for_append@) =~= lines_view(before).push(new_view));
    }
    Document { lines: lines_for_append, preferred_newline: copy_bytes(&document.preferred_newline) }
}

fn copy_option(o: &Option<Vec<u8>>) -> (r: Option<Vec<u8>>)
    ensures
        crate::model::option_bytes_view(r) == crate::model::option_bytes_view(*o),
{
    match o {
        Some(v) => Some(copy_bytes(v)),
        None => None,
    }
}

/// Removes all bindings with `key`.
pub fn unset_key(document: &Document, key: &str) -> (r: UnsetResult)
    ensures
        r.document@ == unset_spec(document@, key@),
        r.removed_count == count_bindings(document@.lines, key@),
{
    let mut kept_lines: Vec<Line> = Vec::with_capacity(document.lines.len());
    let mut removed_count: usize = 0;
    let ghost lines = document@.lines;

    let mut i: usize = 0;
    while i < document.lines.len()
        invariant
            i <= document.lines@.len(),
            lines == document@.lines,
            lines_view(kept_lines@) == lines_without(lines.subrange(0, i as int), key@),
            removed_count == count_bindings(lines.subrange(0, i as int), key@),
            removed_count <= i,
        decreases document.lines.len() - i,
    {
        let ghost pre = lines.subrange(0, i + 1);
        proof {
            assert(pre.drop_last() =~= lines.subrange(0, i as int));
            assert(lines_view(document.lines@.subrange(0, i + 1)) =~= pre);
        }
        let line = &document.lines[i];
        let mut matched = false;
        if let Line::Binding(binding) = line {
            if key_matches(binding, key) {
                matched = true;
            }
        }
        if matched {
            removed_count = removed_count + 1;
        } else {
            let ghost before = kept_lines@;
            kept_lines.push(line.duplicate());
            proof {
                assert(lines_view(kept_lines@) =~= lines_view(before).push(line@));
            }
        }
        i = i + 1;
    }
    proof {
        assert(lines.subrange(0, i as int) =~= lines);
    }

    if removed_count == 0 {
        return UnsetResult { document: document.duplicate(), removed_count };
    }
    if kept_lines.len() == 0 {
        let empty: Vec<Line> = Vec::new();
        proof {
            assert(lines_view(empty@) =~= Seq::<LineSpec>::empty());
        }
        return UnsetResult {
            document: Document { lines: empty, preferred_newline: copy_bytes(&document.preferred_newline) },
            removed_count,
        };
    }
    UnsetResult {
        document: Document {
            lines: ensure_terminal_newline(kept_lines, document.preferred_newline.as_slice()),
            preferred_newline: copy_bytes(&document.preferred_newline),
        },
        removed_count,
    }
}

fn ensure_terminal_newline(lines: Vec<Line>, preferred_newline: &[u8]) -> (r: Vec<Line>)
    ensures
        lines_view(r@) == with_terminal_newline(lines_view(lines@), preferred_newline@),
{
    let mut lines = lines;
    if lines.len() == 0 {
        return lines;
    }
    let last_index = lines.len() - 1;
    if lines[last_index].newline().len() > 0 {
        return lines;
    }
    let adjusted_last = lines[last_index].with_newline(slice_to_vec(preferred_newline));
    let ghost before = lines@;
    lines.set(last_index, adjusted_last);
    proof {
        assert(lines_view(lines@) =~= with_terminal_newline(lines_view(before), preferred_newline@));
    }
    lines
}

fn encode_value_for_existing_line(value: &[u8], line: &BindingLine) -> (r: EncodedValue)
    ensures
        (r.text@, r.quote_type) == existing_line_encoding(value@, line@.suffix),
{
    let encoded_value = encode_value_auto(value);
    // Preserve suffix/comment meaning. An otherwise safe unquoted value can
    // absorb preserved suffix bytes, so quote it when that would be ambiguous.
    if encoded_value.quote_type == QuoteType::Unquoted && unquoted_value_would_absorb_suffix(
        value,
        line.suffix.as_slice(),
    ) {
        return encode_value_double(value);
    }
    encoded_value
}

fn unquoted_value_would_absorb_suffix(value: &[u8], suffix: &[u8]) -> (r: bool)
    ensures
        r == would_absorb_suffix(value@, suffix@),
{
    if suffix.len() == 0 {
        return false;
    }
    let mut i: usize = 0;
    let mut all_blank = true;
    while i < suffix.len()
        invariant
            i <= suffix@.len(),
            all_blank == forall|k: int| 0 <= k < i ==> is_hws(#[trigger] suffix@[k]),
        decreases suffix.len() - i,
    {
        if !(suffix[i] == 32 || suffix[i] == 9) {
            all_blank = false;
        }
        i = i + 1;
    }
    if all_blank || suffix[0] == 35 {
        return true;
    }
    if value.len() != 0 {
        return false;
    }
    let stripped = lstrip_horizontal(suffix);
    proof {
        lemma_skip_hws(suffix@, 0);
        if stripped@.len() > 0 {
            assert(stripped@[0] == suffix@[skip_hws(suffix@, 0)]);
        }
    }
    stripped.len() > 0 && stripped[0] == 35
}


/// The first binding of `key` is at `i` when line `i` binds it and no earlier line does.
pub proof fn lemma_first_index_at(lines: Seq<LineSpec>, key: Seq<char>, i: int)
    requires
        0 <= i < lines.len(),
        binds(lines[i], key),
        forall|j: int| 0 <= j < i ==> !binds(#[trigger] lines[j], key),
    ensures
        first_index(lines, key) == Some(i),
    decreases lines.len(),
{
    if lines.len() == i + 1 {
        lemma_first_index_none(lines.drop_last(), key);
    } else {
        lemma_first_index_at(lines.drop_last(), key, i);
    }
}

/// No binding of `key` means no first index.
pub proof fn lemma_first_index_none(lines: Seq<LineSpec>, key: Seq<char>)
    requires
        forall|j: int| 0 <= j < lines.len() ==> !binds(#[trigger] lines[j], key),
    ensures
        first_index(lines, key) is None,
    decreases lines.len(),
{
    if lines.len() > 0 {
        lemma_first_index_none(lines.drop_last(), key);
    }
}

proof fn lemma_terminal_newline_keeps(lines: Seq<LineSpec>, nl: Seq<u8>)
    ensures
        with_terminal_newline(lines, nl).len() == lines.len(),
        forall|j: int, k: Seq<char>|
            0 <= j < lines.len() ==> #[trigger] binds(with_terminal_newline(lines, nl)[j], k)
                == binds(lines[j], k),
        forall|j: int|
            0 <= j < lines.len() && (#[trigger] lines[j]) is Binding ==> with_terminal_newline(
                lines,
                nl,
            )[j]->Binding_0.value == lines[j]->Binding_0.value,
{
}

proof fn lemma_first_value_same(a: Seq<LineSpec>, b: Seq<LineSpec>, key: Seq<char>)
    requires
        a.len() == b.len(),
        forall|j: int| 0 <= j < a.len() ==> binds(#[trigger] a[j], key) == binds(b[j], key),
        forall|j: int|
            0 <= j < a.len() && binds(#[trigger] a[j], key) ==> a[j]->Binding_0.value
                == b[j]->Binding_0.value,
    ensures
        first_value(a, key) == first_value(b, key),
{
    lemma_first_index_bounds(a, key);
    lemma_first_index_bounds(b, key);
    assert forall|j: int| 0 <= j < b.len() implies binds(#[trigger] b[j], key) == binds(a[j], key) by {}
    match first_index(a, key) {
        Some(i) => {
            lemma_first_index_at(b, key, i);
        },
        None => {
            lemma_first_index_none(b, key);
        },
    }
}

/// A read gives back what a write wrote: after `set_value`, the first binding
/// of the key holds exactly the new value.
pub proof fn law_get_after_set(d: DocumentSpec, key: Seq<char>, value: Seq<u8>)
    ensures
        first_value(set_value_spec(d, key, value).lines, key) == Some(value),
{
    let nl = d.preferred_newline;
    lemma_first_index_bounds(d.lines, key);
    match first_index(d.lines, key) {
        Some(i) => {
            let updated = d.lines.update(i, LineSpec::Binding(rebound(d.lines[i]->Binding_0, value)));
            lemma_terminal_newline_keeps(updated, nl);
            let out = with_terminal_newline(updated, nl);
            assert(binds(out[i], key));
            assert forall|j: int| 0 <= j < i implies !binds(#[trigger] out[j], key) by {
                assert(binds(out[j], key) == binds(updated[j], key));
            }
            lemma_first_index_at(out, key, i);
        },
        None => {
            let base = with_terminal_newline(d.lines, nl);
            lemma_terminal_newline_keeps(d.lines, nl);
            let out = base.push(LineSpec::Binding(appended_binding(key, value, nl)));
            assert forall|j: int| 0 <= j < base.len() implies !binds(#[trigger] out[j], key) by {
                assert(out[j] == base[j]);
                assert(binds(base[j], key) == binds(d.lines[j], key));
            }
            lemma_first_index_at(out, key, base.len() as int);
        },
    }
}

/// Setting one key leaves what every other key reads unchanged.
pub proof fn law_set_keeps_other_keys(
    d: DocumentSpec,
    key: Seq<char>,
    value: Seq<u8>,
    other: Seq<char>,
)
    requires
        other != key,
    ensures
        first_value(set_value_spec(d, key, value).lines, other) == first_value(d.lines, other),
{
    let nl = d.preferred_newline;
    lemma_first_index_bounds(d.lines, key);
    match first_index(d.lines, key) {
        Some(i) => {
            let updated = d.lines.update(i, LineSpec::Binding(rebound(d.lines[i]->Binding_0, value)));
            lemma_terminal_newline_keeps(updated, nl);
            let out = with_terminal_newline(updated, nl);
            assert forall|j: int| 0 <= j < out.len() implies binds(#[trigger] out[j], other) == binds(
                d.lines[j],
                other,
            ) by {
                assert(binds(out[j], other) == binds(updated[j], other));
            }
            lemma_first_value_same(out, d.lines, other);
        },
        None => {
            let base = with_terminal_newline(d.lines, nl);
            lemma_terminal_newline_keeps(d.lines, nl);
            let out = base.push(LineSpec::Binding(appended_binding(key, value, nl)));
            lemma_first_value_same(base, d.lines, other);
            lemma_first_index_bounds(base, other);
            match first_index(base, other) {
                Some(i) => {
                    lemma_first_index_at(out, other, i);
                },
                None => {
                    assert forall|j: int| 0 <= j < out.len() implies !binds(#[trigger] out[j], other) by {
                        if j < base.len() {
                            assert(out[j] == base[j]);
                        }
                    }
                    lemma_first_index_none(out, other);
                },
            }
        },
    }
}

proof fn lemma_lines_without(lines: Seq<LineSpec>, key: Seq<char>, other: Seq<char>)
    requires
        other != key,
    ensures
        forall|j: int|
            0 <= j < lines_without(lines, key).len() ==> !binds(
                #[trigger] lines_without(lines, key)[j],
                key,
            ),
        first_value(lines_without(lines, key), other) == first_value(lines, other),
    decreases lines.len(),
{
    if lines.len() > 0 {
        let prev = lines.drop_last();
        lemma_lines_without(prev, key, other);
        let kept_prev = lines_without(prev, key);
        let kept = lines_without(lines, key);
        lemma_first_index_bounds(prev, other);
        lemma_first_index_bounds(kept_prev, other);
        if binds(lines.last(), key) {
            assert(kept == kept_prev);
            assert(!binds(lines.last(), other));
            if let Some(i) = first_index(prev, other) {
                assert(lines[i] == prev[i]);
            }
        } else {
            assert(kept == kept_prev.push(lines.last()));
            assert(kept.drop_last() =~= kept_prev);
            if let Some(i) = first_index(prev, other) {
                assert(lines[i] == prev[i]);
                let k = first_index(kept_prev, other).unwrap();
                assert(kept[k] == kept_prev[k]);
            }
            assert forall|j: int| 0 <= j < kept.len() implies !binds(#[trigger] kept[j], key) by {
                if j < kept_prev.len() {
                    assert(kept[j] == kept_prev[j]);
                }
            }
        }
    } else {
        assert(lines_without(lines, key) =~= Seq::<LineSpec>::empty());
    }
}

/// After `unset_key` no binding of the key is left.
pub proof fn law_get_after_unset(d: DocumentSpec, key: Seq<char>)
    ensures
        first_value(unset_spec(d, key).lines, key) is None,
{
    let other = if key.len() == 0 { seq!['A'] } else { Seq::<char>::empty() };
    lemma_lines_without(d.lines, key, other);
    let kept = lines_without(d.lines, key);
    if count_bindings(d.lines, key) == 0 {
        lemma_count_zero(d.lines, key);
        lemma_first_index_none(d.lines, key);
    } else if kept.len() == 0 {
        lemma_first_index_none(Seq::<LineSpec>::empty(), key);
    } else {
        lemma_terminal_newline_keeps(kept, d.preferred_newline);
        let out = with_terminal_newline(kept, d.preferred_newline);
        assert forall|j: int| 0 <= j < out.len() implies !binds(#[trigger] out[j], key) by {
            assert(binds(out[j], key) == binds(kept[j], key));
        }
        lemma_first_index_none(out, key);
    }
}

/// No line binds `key` when none is counted.
pub proof fn lemma_count_zero(lines: Seq<LineSpec>, key: Seq<char>)
    requires
        count_bindings(lines, key) == 0,
    ensures
        forall|j: int| 0 <= j < lines.len() ==> !binds(#[trigger] lines[j], key),
    decreases lines.len(),
{
    if lines.len() > 0 {
        lemma_count_zero(lines.drop_last(), key);
        assert forall|j: int| 0 <= j < lines.len() implies !binds(#[trigger] lines[j], key) by {
            if j < lines.len() - 1 {
                assert(lines[j] == lines.drop_last()[j]);
            }
        }
    }
}

/// Removing one key leaves what every other key reads unchanged.
pub proof fn law_unset_keeps_other_keys(d: DocumentSpec, key: Seq<char>, other: Seq<char>)
    requires
        other != key,
    ensures
        first_value(unset_spec(d, key).lines, other) == first_value(d.lines, other),
{
    lemma_lines_without(d.lines, key, other);
    let kept = lines_without(d.lines, key);
    if count_bindings(d.lines, key) != 0 {
        if kept.len() == 0 {
            lemma_first_index_none(Seq::<LineSpec>::empty(), other);
            lemma_first_index_none(kept, other);
        } else {
            lemma_terminal_newline_keeps(kept, d.preferred_newline);
            lemma_first_value_same(with_terminal_newline(kept, d.preferred_newline), kept, other);
        }
    }
}

/// With a non-empty preferred newline, a document after `set_value` ends with a
/// line terminator.
pub proof fn law_set_ends_with_newline(d: DocumentSpec, key: Seq<char>, value: Seq<u8>)
    requires
        d.preferred_newline.len() > 0,
    ensures
        set_value_spec(d, key, value).lines.len() > 0,
        set_value_spec(d, key, value).lines.last().newline().len() > 0,
{
    lemma_first_index_bounds(d.lines, key);
    let nl = d.preferred_newline;
    if let Some(i) = first_index(d.lines, key) {
        let updated = d.lines.update(i, LineSpec::Binding(rebound(d.lines[i]->Binding_0, value)));
        assert(updated.last().with_newline(nl).newline() == nl);
    }
}

/// After `unset_key`, the document is empty or ends with a line terminator,
/// unless nothing was removed.
pub proof fn law_unset_empty_or_terminated(d: DocumentSpec, key: Seq<char>)
    requires
        d.preferred_newline.len() > 0,
        count_bindings(d.lines, key) > 0,
    ensures
        unset_spec(d, key).lines.len() == 0 || unset_spec(d, key).lines.last().newline().len() > 0,
{
    let kept = lines_without(d.lines, key);
    if kept.len() > 0 {
        assert(kept.last().with_newline(d.preferred_newline).newline() == d.preferred_newline);
    }
}

/// Lines a set does not rewrite keep their text and terminator: only the
/// first binding of the key changes (or a binding is appended), and an
/// unterminated last line gains the preferred terminator.
pub proof fn law_set_preserves_untouched_lines(d: DocumentSpec, key: Seq<char>, value: Seq<u8>, j: int)
    requires
        0 <= j < d.lines.len(),
        first_index(d.lines, key) != Some(j),
    ensures
        set_value_spec(d, key, value).lines[j] == d.lines[j] || (j == d.lines.len() - 1
            && d.lines[j].newline().len() == 0 && set_value_spec(d, key, value).lines[j]
            == d.lines[j].with_newline(d.preferred_newline)),
{
    let nl = d.preferred_newline;
    lemma_first_index_bounds(d.lines, key);
    match first_index(d.lines, key) {
        Some(i) => {
            let updated = d.lines.update(i, LineSpec::Binding(rebound(d.lines[i]->Binding_0, value)));
            assert(updated[j] == d.lines[j]);
            assert(set_value_spec(d, key, value).lines == with_terminal_newline(updated, nl));
            if j == d.lines.len() - 1 {
                assert(updated.last() == d.lines[j]);
            }
        },
        None => {
            let out = with_terminal_newline(d.lines, nl).push(
                LineSpec::Binding(appended_binding(key, value, nl)),
            );
            assert(set_value_spec(d, key, value).lines == out);
            assert(out[j] == with_terminal_newline(d.lines, nl)[j]);
        },
    }
}

/// A set rewrites the first binding of the key in place: that line keeps its
/// `export`, key, spacing before the value, suffix and terminator (an
/// unterminated last line gains the preferred one) and takes the new value.
/// Without such a binding, one line is appended that binds the key to the
/// value and ends with the preferred terminator.
pub proof fn law_set_rewrites_in_place(d: DocumentSpec, key: Seq<char>, value: Seq<u8>)
    ensures
        first_index(d.lines, key) matches Some(i) ==> {
            let old_b = d.lines[i]->Binding_0;
            let out = set_value_spec(d, key, value).lines;
            &&& out.len() == d.lines.len()
            &&& out[i] is Binding
            &&& out[i]->Binding_0.key == key
            &&& out[i]->Binding_0.value == value
            &&& out[i]->Binding_0.export == old_b.export
            &&& out[i]->Binding_0.prefix == old_b.prefix
            &&& out[i]->Binding_0.suffix == old_b.suffix
            &&& (out[i].newline() == old_b.newline || (old_b.newline.len() == 0 && i == d.lines.len()
                - 1 && out[i].newline() == d.preferred_newline))
        },
        first_index(d.lines, key) is None ==> {
            let out = set_value_spec(d, key, value).lines;
            &&& out.len() == d.lines.len() + 1
            &&& out.last() is Binding
            &&& out.last()->Binding_0.key == key
            &&& out.last()->Binding_0.value == value
            &&& out.last().newline() == d.preferred_newline
        },
{
    let nl = d.preferred_newline;
    lemma_first_index_bounds(d.lines, key);
    match first_index(d.lines, key) {
        Some(i) => {
            let updated = d.lines.update(i, LineSpec::Binding(rebound(d.lines[i]->Binding_0, value)));
            assert(set_value_spec(d, key, value).lines == with_terminal_newline(updated, nl));
            assert(binds(d.lines[i], key));
        },
        None => {},
    }
}

/// Lines a removal keeps keep their text and terminator, in order, except
/// that an unterminated last line gains the preferred terminator.
pub proof fn law_unset_preserves_kept_lines(d: DocumentSpec, key: Seq<char>, j: int)
    requires
        count_bindings(d.lines, key) > 0,
        0 <= j < lines_without(d.lines, key).len(),
    ensures
        unset_spec(d, key).lines[j] == lines_without(d.lines, key)[j] || (j == lines_without(
            d.lines,
            key,
        ).len() - 1 && unset_spec(d, key).lines[j] == lines_without(d.lines, key)[j].with_newline(
            d.preferred_newline,
        )),
{
}

} // verus!
