//! Fuzzing harnesses: each turns arbitrary input bytes into a case, runs the
//! library on it, and checks a property that the contracts guarantee.
//!
//! Input that parses as a JSON case is read as that case; the parse itself is
//! the caller's (see `json_input`), and each harness takes its result.
use vstd::prelude::*;

use crate::bytes::{bytes_eq, slice_to_vec};
use crate::diff::unified_diff_spec;
use crate::editor::{set_value, unset_key};
use crate::parser::{law_parse_render_roundtrip, parse_document};
use crate::render::render_document;
use crate::std_support::{byte_len, lossy_string, utf8_lossy};

verus! {

/// Longest document a harness works on.
pub const MAX_DOCUMENT_LEN: usize = 4096;

/// Longest value a harness sets.
pub const MAX_VALUE_LEN: usize = 512;

/// Longest text on either side of a diff case.
pub const MAX_DIFF_INPUT_LEN: usize = 4096;

/// Longest input read as a JSON case.
pub const MAX_JSON_INPUT_LEN: usize = 8192;

/// Largest diff output the diff harness accepts.
pub const MAX_DIFF_OUTPUT_LEN: usize = 1048576;

/// A document to parse and render.
#[derive(Debug, Default)]
pub struct DocumentCase {
    pub document: Vec<u8>,
}

/// An edit to apply to a document.
#[derive(Debug, Default)]
pub struct EditCase {
    pub document: Vec<u8>,
    pub value: Vec<u8>,
    pub operation: EditOperation,
}

/// The edits the edit harness applies to the key `FUZZ_KEY`.
#[derive(Clone, Copy, Debug, Default, PartialEq, Eq, Structural)]
pub enum EditOperation {
    /// Set the key to the case's value.
    #[default]
    SetValue,
    /// Set the key to an empty value.
    Clear,
    /// Remove every binding of the key.
    Unset,
    /// Set the key, then remove it again.
    SetThenUnset,
}

/// Two texts to diff.
#[derive(Debug, Default)]
pub struct DiffCase {
    pub before: Vec<u8>,
    pub after: Vec<u8>,
}

/// The first `max` bytes of `s`.
pub open spec fn truncated(s: Seq<u8>, max: usize) -> Seq<u8> {
    if s.len() <= max {
        s
    } else {
        s.subrange(0, max as int)
    }
}

/// Shortens `bytes` to at most `max_len` bytes.
pub fn truncate_vec(bytes: Vec<u8>, max_len: usize) -> (r: Vec<u8>)
    ensures
        r@ == truncated(bytes@, max_len),
{
    let mut bytes = bytes;
    bytes.truncate(max_len);
    bytes
}

/// The first `max_len` bytes of `bytes`, or all of them.
pub fn truncate_slice(bytes: &[u8], max_len: usize) -> (r: &[u8])
    ensures
        r@ == truncated(bytes@, max_len),
{
    let end = if bytes.len() < max_len {
        bytes.len()
    } else {
        max_len
    };
    vstd::slice::slice_subrange(bytes, 0, end)
}

/// The part of the input that is read as a JSON case.
pub fn json_input(data: &[u8]) -> (r: &[u8])
    ensures
        r@ == truncated(data@, MAX_JSON_INPUT_LEN),
{
    truncate_slice(data, MAX_JSON_INPUT_LEN)
}

/// The document bytes for an input: the JSON case's document, else the input.
pub open spec fn document_bytes_spec(data: Seq<u8>, case: Option<Seq<u8>>) -> Seq<u8> {
    match case {
        Some(d) => truncated(d, MAX_DOCUMENT_LEN),
        None => truncated(data, MAX_DOCUMENT_LEN),
    }
}

/// The document of a JSON case, if one was parsed.
pub open spec fn document_case_view(case: Option<DocumentCase>) -> Option<Seq<u8>> {
    match case {
        Some(c) => Some(c.document@),
        None => None,
    }
}

/// Picks the document bytes for an input, from `case` when the input parsed
/// as a JSON document case.
pub fn document_bytes_from_input(data: &[u8], case: Option<DocumentCase>) -> (r: Vec<u8>)
    ensures
        r@ == document_bytes_spec(data@, document_case_view(case)),
{
    match case {
        Some(case) => truncate_vec(case.document, MAX_DOCUMENT_LEN),
        None => slice_to_vec(truncate_slice(data, MAX_DOCUMENT_LEN)),
    }
}

/// Parsing then rendering gives back the document bytes; the result says
/// whether they matched, and the contract says that they always do.
pub fn run_parse_roundtrip_bytes(data: &[u8], case: Option<DocumentCase>) -> (r: bool)
    ensures
        r,
{
    let document_bytes = document_bytes_from_input(data, case);
    let document = parse_document(document_bytes.as_slice());
    let rendered = render_document(&document);
    proof {
        law_parse_render_roundtrip(document_bytes@);
    }
    bytes_eq(rendered.as_slice(), document_bytes.as_slice())
}

/// The edit case for an input: the JSON case, else the input as both the
/// document and the value; either way cut to the size limits.
pub open spec fn edit_case_spec(data: Seq<u8>, case: Option<(Seq<u8>, Seq<u8>, EditOperation)>) -> (
    Seq<u8>,
    Seq<u8>,
    EditOperation,
) {
    match case {
        Some((d, v, op)) => (truncated(d, MAX_DOCUMENT_LEN), truncated(v, MAX_VALUE_LEN), op),
        None => (
            truncated(data, MAX_DOCUMENT_LEN),
            truncated(data, MAX_VALUE_LEN),
            EditOperation::SetValue,
        ),
    }
}

/// The fields of an edit case.
pub open spec fn edit_case_view(case: Option<EditCase>) -> Option<(Seq<u8>, Seq<u8>, EditOperation)> {
    match case {
        Some(c) => Some((c.document@, c.value@, c.operation)),
        None => None,
    }
}

/// Builds the edit case for an input.
pub fn edit_case_from_input(data: &[u8], case: Option<EditCase>) -> (r: EditCase)
    ensures
        (r.document@, r.value@, r.operation) == edit_case_spec(data@, edit_case_view(case)),
{
    let case = match case {
        Some(case) => case,
        None => EditCase {
            document: slice_to_vec(truncate_slice(data, MAX_DOCUMENT_LEN)),
            value: slice_to_vec(truncate_slice(data, MAX_VALUE_LEN)),
            operation: EditOperation::SetValue,
        },
    };
    proof {
        assert(truncated(truncated(data@, MAX_DOCUMENT_LEN), MAX_DOCUMENT_LEN) == truncated(
            data@,
            MAX_DOCUMENT_LEN,
        ));
        assert(truncated(truncated(data@, MAX_VALUE_LEN), MAX_VALUE_LEN) == truncated(
            data@,
            MAX_VALUE_LEN,
        ));
    }
    EditCase {
        document: truncate_vec(case.document, MAX_DOCUMENT_LEN),
        value: truncate_vec(case.value, MAX_VALUE_LEN),
        operation: case.operation,
    }
}

/// Applies an edit, renders, parses the rendering and renders it again: the
/// two renderings agree. The result says whether they matched, and the
/// contract says that they always do.
pub fn run_edit_set_unset_bytes(data: &[u8], case: Option<EditCase>) -> (r: bool)
    ensures
        r,
{
    let case = edit_case_from_input(data, case);
    let document = parse_document(case.document.as_slice());
    let empty: Vec<u8> = Vec::new();
    let updated = match case.operation {
        EditOperation::SetValue => set_value(&document, "FUZZ_KEY", case.value.as_slice()),
        EditOperation::Clear => set_value(&document, "FUZZ_KEY", empty.as_slice()),
        EditOperation::Unset => unset_key(&document, "FUZZ_KEY").document,
        EditOperation::SetThenUnset => {
            let set_document = set_value(&document, "FUZZ_KEY", case.value.as_slice());
            unset_key(&set_document, "FUZZ_KEY").document
        },
    };
    let rendered = render_document(&updated);
    let reparsed = parse_document(rendered.as_slice());
    let rerendered = render_document(&reparsed);
    proof {
        law_parse_render_roundtrip(rendered@);
    }
    bytes_eq(rerendered.as_slice(), rendered.as_slice())
}

/// The diff case for an input: the JSON case, else the input split at its
/// middle (of at most twice the side limit); either way cut to the limits.
pub open spec fn diff_case_spec(data: Seq<u8>, case: Option<(Seq<u8>, Seq<u8>)>) -> (Seq<u8>, Seq<u8>) {
    match case {
        Some((b, a)) => (truncated(b, MAX_DIFF_INPUT_LEN), truncated(a, MAX_DIFF_INPUT_LEN)),
        None => {
            let midpoint = (if data.len() < 2 * MAX_DIFF_INPUT_LEN {
                data.len() as int
            } else {
                2 * MAX_DIFF_INPUT_LEN
            }) / 2;
            (
                truncated(data.subrange(0, midpoint), MAX_DIFF_INPUT_LEN),
                truncated(data.subrange(midpoint, data.len() as int), MAX_DIFF_INPUT_LEN),
            )
        },
    }
}

/// The sides of a diff case.
pub open spec fn diff_case_view(case: Option<DiffCase>) -> Option<(Seq<u8>, Seq<u8>)> {
    match case {
        Some(c) => Some((c.before@, c.after@)),
        None => None,
    }
}

/// Builds the diff case for an input.
pub fn diff_case_from_input(data: &[u8], case: Option<DiffCase>) -> (r: DiffCase)
    ensures
        (r.before@, r.after@) == diff_case_spec(data@, diff_case_view(case)),
{
    let case = match case {
        Some(case) => case,
        None => {
            let limit = MAX_DIFF_INPUT_LEN * 2;
            let midpoint = (if data.len() < limit {
                data.len()
            } else {
                limit
            }) / 2;
            let before = vstd::slice::slice_subrange(data, 0, midpoint);
            let after = vstd::slice::slice_subrange(data, midpoint, data.len());
            DiffCase {
                before: slice_to_vec(truncate_slice(before, MAX_DIFF_INPUT_LEN)),
                after: slice_to_vec(truncate_slice(after, MAX_DIFF_INPUT_LEN)),
            }
        },
    };
    DiffCase {
        before: truncate_vec(case.before, MAX_DIFF_INPUT_LEN),
        after: truncate_vec(case.after, MAX_DIFF_INPUT_LEN),
    }
}

/// Diffs the two sides of a case under the path `fuzz.env`; the result says
/// whether the output stayed within `MAX_DIFF_OUTPUT_LEN` bytes, which it
/// always does, since each side holds at most `MAX_DIFF_INPUT_LEN` bytes.
pub fn run_diff_bytes(data: &[u8], case: Option<DiffCase>) -> (r: bool)
    ensures
        r == (unified_diff_spec(
            "fuzz.env"@,
            diff_case_spec(data@, diff_case_view(case)).0,
            diff_case_spec(data@, diff_case_view(case)).1,
        ).len() <= MAX_DIFF_OUTPUT_LEN),
        r,
{
    let case = diff_case_from_input(data, case);
    let output = crate::diff::unified_diff("fuzz.env", case.before.as_slice(), case.after.as_slice());
    proof {
        reveal_strlit("fuzz.env");
    }
    output.len() <= MAX_DIFF_OUTPUT_LEN
}

/// Exposes the diff generator with the path given as raw bytes, shown as text.
pub fn unified_diff(path: &[u8], before: &[u8], after: &[u8]) -> (r: Vec<u8>)
    ensures
        r@ == unified_diff_spec(utf8_lossy(path@), before@, after@),
        before@.len() < 99999 && after@.len() < 99999 ==> r@.len() <= 8 * utf8_lossy(path@).len()
            + 108 + 70 * (before@.len() + after@.len()),
{
    let _before_len = byte_len(before);
    let _after_len = byte_len(after);
    let label = lossy_string(path);
    crate::diff::unified_diff(label.as_str(), before, after)
}

} // verus!
