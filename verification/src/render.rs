//! Byte-preserving rendering and value encoding.
use vstd::prelude::*;

use crate::bytes::{extend_bytes, slice_to_vec};
use crate::model::{Document, Line, LineSpec, QuoteType, render_lines, lines_view};
use crate::parser::quoted::decode_dq;

verus! {

/// Encoded binding value plus the quote form chosen for rendering.
#[derive(Clone, Debug, PartialEq, Eq)]
pub struct EncodedValue {
    /// Source bytes for the value token, including quotes when present.
    pub text: Vec<u8>,
    /// Quote form represented by `text`.
    pub quote_type: QuoteType,
}

/// Bytes that force double quoting: space, tab, CR, LF, `#`, quotes, backslash,
/// and every other ASCII control byte (below 32, and DEL).
pub open spec fn unsafe_unquoted_byte(b: u8) -> bool {
    b == 32 || b == 9 || b == 13 || b == 10 || b == 35 || b == 39 || b == 34 || b == 92 || b < 32
        || b == 127
}

/// Whether a value can be written without quotes.
pub open spec fn safe_unquoted(v: Seq<u8>) -> bool {
    forall|i: int| 0 <= i < v.len() ==> !unsafe_unquoted_byte(#[trigger] v[i])
}

/// How one byte is written inside double quotes.
pub open spec fn escape_byte(b: u8) -> Seq<u8> {
    if b == 92 {
        seq![92u8, 92u8]
    } else if b == 34 {
        seq![92u8, 34u8]
    } else if b == 10 {
        seq![92u8, 110u8]
    } else if b == 13 {
        seq![92u8, 114u8]
    } else if b == 9 {
        seq![92u8, 116u8]
    } else {
        seq![b]
    }
}

/// The body of a double-quoted token for `v`.
pub open spec fn escape_dq(v: Seq<u8>) -> Seq<u8>
    decreases v.len(),
{
    if v.len() == 0 {
        Seq::empty()
    } else {
        escape_byte(v[0]) + escape_dq(v.drop_first())
    }
}

/// The double-quoted token for `v`.
pub open spec fn double_quoted(v: Seq<u8>) -> Seq<u8> {
    seq![34u8] + escape_dq(v) + seq![34u8]
}

/// The token and quote form that automatic quoting chooses for `v`.
pub open spec fn auto_encoding(v: Seq<u8>) -> (Seq<u8>, QuoteType) {
    if safe_unquoted(v) {
        (v, QuoteType::Unquoted)
    } else {
        (double_quoted(v), QuoteType::Double)
    }
}

/// Encodes safely unquoted values as-is and double-quotes everything else.
pub fn encode_value_auto(value: &[u8]) -> (r: EncodedValue)
    ensures
        (r.text@, r.quote_type) == auto_encoding(value@),
{
    if is_safe_unquoted_value(value) {
        return EncodedValue { text: slice_to_vec(value), quote_type: QuoteType::Unquoted };
    }
    encode_value_double(value)
}

/// Encodes a value as a double-quoted token using envq's supported escapes.
pub fn encode_value_double(value: &[u8]) -> (r: EncodedValue)
    ensures
        r.text@ == double_quoted(value@),
        r.quote_type == QuoteType::Double,
{
    let mut text: Vec<u8> = Vec::with_capacity(2);
    text.push(34);
    let escaped = escape_double_quoted(value);
    extend_bytes(&mut text, escaped.as_slice());
    text.push(34);
    proof {
        assert(text@ =~= double_quoted(value@));
    }
    EncodedValue { text, quote_type: QuoteType::Double }
}

/// Renders a document back to bytes.
pub fn render_document(document: &Document) -> (r: Vec<u8>)
    ensures
        r@ == render_lines(document@.lines),
{
    let mut rendered: Vec<u8> = Vec::new();
    let mut i: usize = 0;
    while i < document.lines.len()
        invariant
            i <= document.lines@.len(),
            rendered@ == render_lines(lines_view(document.lines@.subrange(0, i as int))),
        decreases document.lines.len() - i,
    {
        render_line(&document.lines[i], &mut rendered);
        proof {
            let pre = lines_view(document.lines@.subrange(0, i + 1));
            assert(pre.drop_last() =~= lines_view(document.lines@.subrange(0, i as int)));
            assert(pre.last() == document.lines@[i as int]@);
        }
        i = i + 1;
    }
    proof {
        assert(document.lines@.subrange(0, i as int) =~= document.lines@);
    }
    rendered
}

fn render_line(line: &Line, rendered: &mut Vec<u8>)
    ensures
        final(rendered)@ == old(rendered)@ + line@.rendered(),
{
    match line {
        Line::Binding(line) => {
            // Bindings render from stored raw pieces so unrelated syntax survives.
            extend_bytes(rendered, line.prefix.as_slice());
            extend_bytes(rendered, line.raw_value.as_slice());
            extend_bytes(rendered, line.suffix.as_slice());
            extend_bytes(rendered, line.newline.as_slice());
        },
        Line::Blank(line) => {
            extend_bytes(rendered, line.text.as_slice());
            extend_bytes(rendered, line.newline.as_slice());
        },
        Line::Comment(line) => {
            extend_bytes(rendered, line.text.as_slice());
            extend_bytes(rendered, line.newline.as_slice());
        },
        Line::Invalid(line) => {
            extend_bytes(rendered, line.text.as_slice());
            extend_bytes(rendered, line.newline.as_slice());
        },
    }
    proof {
        assert(final(rendered)@ =~= old(rendered)@ + line@.rendered());
    }
}

fn is_safe_unquoted_value(value: &[u8]) -> (r: bool)
    ensures
        r == safe_unquoted(value@),
{
    let mut i: usize = 0;
    while i < value.len()
        invariant
            i <= value@.len(),
            forall|k: int| 0 <= k < i ==> !unsafe_unquoted_byte(#[trigger] value@[k]),
        decreases value.len() - i,
    {
        let b = value[i];
        if b == 32 || b == 9 || b == 13 || b == 10 || b == 35 || b == 39 || b == 34 || b == 92 || b
            < 32 || b == 127 {
            assert(unsafe_unquoted_byte(value@[i as int]));
            return false;
        }
        i = i + 1;
    }
    true
}

/// Escapes a value for use between double quotes.
pub fn escape_double_quoted(value: &[u8]) -> (r: Vec<u8>)
    ensures
        r@ == escape_dq(value@),
{
    let mut escaped: Vec<u8> = Vec::with_capacity(value.len());
    let mut i: usize = 0;
    assert(value@.subrange(0, value@.len() as int) =~= value@);
    while i < value.len()
        invariant
            i <= value@.len(),
            escaped@ + escape_dq(value@.subrange(i as int, value@.len() as int)) == escape_dq(value@),
        decreases value.len() - i,
    {
        let ghost rest = value@.subrange(i as int, value@.len() as int);
        let ghost before = escaped@;
        let b = value[i];
        if b == 92 {
            escaped.push(92);
            escaped.push(92);
        } else if b == 34 {
            escaped.push(92);
            escaped.push(34);
        } else if b == 10 {
            escaped.push(92);
            escaped.push(110);
        } else if b == 13 {
            escaped.push(92);
            escaped.push(114);
        } else if b == 9 {
            escaped.push(92);
            escaped.push(116);
        } else {
            escaped.push(b);
        }
        proof {
            assert(escaped@ =~= before + escape_byte(b));
            assert(rest.drop_first() =~= value@.subrange(i + 1, value@.len() as int));
            assert(escape_dq(rest) == escape_byte(b) + escape_dq(rest.drop_first()));
            assert(escaped@ + escape_dq(rest.drop_first()) =~= before + escape_dq(rest));
        }
        i = i + 1;
    }
    proof {
        assert(value@.subrange(i as int, value@.len() as int) =~= Seq::<u8>::empty());
        assert(escape_dq(Seq::<u8>::empty()) =~= Seq::<u8>::empty());
        assert(escaped@ =~= escaped@ + Seq::<u8>::empty());
    }
    escaped
}

/// Decoding undoes escaping: a value written in double quotes reads back unchanged.
pub proof fn law_decode_escape_roundtrip(v: Seq<u8>)
    ensures
        decode_dq(escape_dq(v)) == v,
    decreases v.len(),
{
    if v.len() == 0 {
        assert(escape_dq(v) =~= Seq::<u8>::empty());
    } else {
        let rest = v.drop_first();
        law_decode_escape_roundtrip(rest);
        let e = escape_dq(v);
        let er = escape_dq(rest);
        assert(e == escape_byte(v[0]) + er);
        let b = v[0];
        if b == 92 || b == 34 || b == 10 || b == 13 || b == 9 {
            assert(e[0] == 92);
            assert(e.subrange(2, e.len() as int) =~= er);
            assert(decode_dq(e) == escape_decoded_of(e[1]) + decode_dq(e.subrange(2, e.len() as int)));
            assert(decode_dq(e) =~= v);
        } else {
            assert(e.drop_first() =~= er);
            assert(decode_dq(e) =~= v);
        }
    }
}

spec fn escape_decoded_of(b: u8) -> Seq<u8> {
    crate::parser::quoted::escape_decoded(b)
}

} // verus!
