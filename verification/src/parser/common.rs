//! Horizontal-whitespace scanning shared by the line classifiers.
use vstd::prelude::*;
use vstd::slice::slice_subrange;

verus! {

/// Horizontal whitespace recognized by the `.env` grammar: space and tab.
pub open spec fn is_hws(b: u8) -> bool {
    b == 32 || b == 9
}

/// The first index at or after `i` that does not hold horizontal whitespace.
pub open spec fn skip_hws(t: Seq<u8>, i: int) -> int
    decreases t.len() - i,
{
    if 0 <= i < t.len() && is_hws(t[i]) {
        skip_hws(t, i + 1)
    } else {
        i
    }
}

/// Whether every byte of `t` is horizontal whitespace.
pub open spec fn all_hws(t: Seq<u8>) -> bool {
    forall|i: int| 0 <= i < t.len() ==> is_hws(#[trigger] t[i])
}

/// `t` without its leading horizontal whitespace.
pub open spec fn lstrip_hws(t: Seq<u8>) -> Seq<u8> {
    t.subrange(skip_hws(t, 0), t.len() as int)
}

/// Whether `t`, once left-stripped of horizontal whitespace, starts with `#`.
pub open spec fn starts_with_comment(t: Seq<u8>) -> bool {
    let s = skip_hws(t, 0);
    s < t.len() && t[s] == 35
}

/// The end of `t` once trailing horizontal whitespace is dropped, scanning down from `j`.
pub open spec fn rskip_hws(t: Seq<u8>, j: int) -> int
    decreases j,
{
    if 0 < j <= t.len() && is_hws(t[j - 1]) {
        rskip_hws(t, j - 1)
    } else {
        j
    }
}

/// The end index of the horizontally trimmed part of `t`.
pub open spec fn trim_end(t: Seq<u8>) -> int {
    if skip_hws(t, 0) >= t.len() {
        t.len() as int
    } else {
        rskip_hws(t, t.len() as int)
    }
}

pub proof fn lemma_skip_hws(t: Seq<u8>, i: int)
    requires
        0 <= i <= t.len(),
    ensures
        i <= skip_hws(t, i) <= t.len(),
        skip_hws(t, i) < t.len() ==> !is_hws(t[skip_hws(t, i)]),
        forall|k: int| i <= k < skip_hws(t, i) ==> is_hws(#[trigger] t[k]),
    decreases t.len() - i,
{
    if i < t.len() && is_hws(t[i]) {
        lemma_skip_hws(t, i + 1);
    }
}

pub proof fn lemma_rskip_hws(t: Seq<u8>, j: int)
    requires
        0 <= j <= t.len(),
    ensures
        0 <= rskip_hws(t, j) <= j,
        rskip_hws(t, j) > 0 ==> !is_hws(t[rskip_hws(t, j) - 1]),
        forall|k: int| rskip_hws(t, j) <= k < j ==> is_hws(#[trigger] t[k]),
    decreases j,
{
    if 0 < j && is_hws(t[j - 1]) {
        lemma_rskip_hws(t, j - 1);
    }
}

/// Whether every byte of `t` is horizontal whitespace, phrased by the skip scan.
pub proof fn lemma_all_hws_iff_skip(t: Seq<u8>)
    ensures
        all_hws(t) <==> skip_hws(t, 0) == t.len(),
{
    lemma_skip_hws(t, 0);
    if skip_hws(t, 0) < t.len() {
        assert(!is_hws(t[skip_hws(t, 0)]));
    }
}

/// Horizontal whitespace recognized by the `.env` grammar.
pub fn is_horizontal_whitespace(byte: u8) -> (r: bool)
    ensures
        r == is_hws(byte),
{
    byte == 32 || byte == 9
}

/// Advances over spaces and tabs only.
pub fn consume_horizontal_whitespace(text: &[u8], index: usize) -> (r: usize)
    requires
        index <= text@.len(),
    ensures
        r == skip_hws(text@, index as int),
        index <= r <= text@.len(),
{
    let mut index = index;
    let ghost start = index;
    while index < text.len() && is_horizontal_whitespace(text[index])
        invariant
            start <= index <= text@.len(),
            skip_hws(text@, index as int) == skip_hws(text@, start as int),
        decreases text.len() - index,
    {
        index = index + 1;
    }
    index
}

/// Trims spaces and tabs from the left side.
pub fn lstrip_horizontal(text: &[u8]) -> (r: &[u8])
    ensures
        r@ == lstrip_hws(text@),
{
    let start = consume_horizontal_whitespace(text, 0);
    let r = slice_subrange(text, start, text.len());
    r
}

/// Whether `text` starts, after spaces and tabs, with `#`.
pub fn starts_with_comment_marker(text: &[u8]) -> (r: bool)
    ensures
        r == starts_with_comment(text@),
{
    let start = consume_horizontal_whitespace(text, 0);
    start < text.len() && text[start] == 35
}

/// Trims spaces and tabs from both sides.
pub fn trim_horizontal(text: &[u8]) -> (r: &[u8])
    ensures
        r@ == text@.subrange(skip_hws(text@, 0), trim_end(text@)),
        r@.len() == 0 <==> all_hws(text@),
{
    let start = consume_horizontal_whitespace(text, 0);
    proof {
        lemma_skip_hws(text@, 0);
        lemma_all_hws_iff_skip(text@);
        lemma_rskip_hws(text@, text@.len() as int);
    }
    if start >= text.len() {
        return slice_subrange(text, start, start);
    }
    let mut end = text.len();
    while end > 0 && is_horizontal_whitespace(text[end - 1])
        invariant
            0 <= end <= text@.len(),
            rskip_hws(text@, end as int) == rskip_hws(text@, text@.len() as int),
        decreases end,
    {
        end = end - 1;
    }
    proof {
        assert(!is_hws(text@[start as int]));
        if end <= start {
            assert(forall|k: int| end <= k < text@.len() ==> is_hws(#[trigger] text@[k]));
            assert(is_hws(text@[start as int]));
        }
    }
    slice_subrange(text, start, end)
}

} // verus!
