//! Single- and double-quoted binding values.
use vstd::prelude::*;

use crate::bytes::copy_range;
use crate::model::{BindingLine, BindingSpec, QuoteType};
use crate::parser::common::{
    all_hws, lemma_all_hws_iff_skip, starts_with_comment, starts_with_comment_marker,
    trim_horizontal,
};

verus! {

/// The index of the closing `q` at or after `i`. Inside double quotes a
/// backslash escapes the byte after it.
pub open spec fn closing_quote(t: Seq<u8>, i: int, q: u8) -> Option<int>
    decreases t.len() + 1 - i,
{
    if i < 0 || i >= t.len() {
        None
    } else if q == 34 && t[i] == 92 {
        closing_quote(t, i + 2, q)
    } else if t[i] == q {
        Some(i)
    } else {
        closing_quote(t, i + 1, q)
    }
}

pub proof fn lemma_closing_quote(t: Seq<u8>, i: int, q: u8)
    requires
        0 <= i,
    ensures
        closing_quote(t, i, q) matches Some(c) ==> i <= c < t.len() && t[c] == q,
    decreases t.len() + 1 - i,
{
    if i < t.len() {
        if q == 34 && t[i] == 92 {
            lemma_closing_quote(t, i + 2, q);
        } else if t[i] != q {
            lemma_closing_quote(t, i + 1, q);
        }
    }
}

/// What a backslash followed by `b` decodes to inside double quotes.
pub open spec fn escape_decoded(b: u8) -> Seq<u8> {
    if b == 110 {
        seq![10u8]
    } else if b == 114 {
        seq![13u8]
    } else if b == 116 {
        seq![9u8]
    } else if b == 92 {
        seq![92u8]
    } else if b == 34 {
        seq![34u8]
    } else {
        seq![92u8, b]
    }
}

/// Decoding of a double-quoted body: `\n`, `\r`, `\t`, `\\` and `\"` are
/// escapes; any other backslash, including a trailing one, stays literal.
pub open spec fn decode_dq(v: Seq<u8>) -> Seq<u8>
    decreases v.len(),
{
    if v.len() == 0 {
        Seq::empty()
    } else if v[0] != 92 {
        seq![v[0]] + decode_dq(v.drop_first())
    } else if v.len() == 1 {
        seq![92u8]
    } else {
        escape_decoded(v[1]) + decode_dq(v.subrange(2, v.len() as int))
    }
}

/// A quoted value may be followed only by spaces and tabs, optionally then a comment.
pub open spec fn valid_quoted_suffix(s: Seq<u8>) -> bool {
    all_hws(s) || starts_with_comment(s)
}

/// The binding parsed from a line whose value token starts with a quote at `vs`.
pub open spec fn parse_quoted(
    t: Seq<u8>,
    nl: Seq<u8>,
    export: bool,
    key: Seq<char>,
    prefix: Seq<u8>,
    vs: int,
) -> Option<BindingSpec> {
    let q = t[vs];
    match closing_quote(t, vs + 1, q) {
        None => None,
        Some(c) => {
            let suffix = t.subrange(c + 1, t.len() as int);
            if !valid_quoted_suffix(suffix) {
                None
            } else {
                let inner = t.subrange(vs + 1, c);
                Some(
                    BindingSpec {
                        export,
                        key,
                        value: if q == 39 {
                            inner
                        } else {
                            decode_dq(inner)
                        },
                        raw_value: t.subrange(vs, c + 1),
                        quote_type: if q == 39 {
                            QuoteType::Single
                        } else {
                            QuoteType::Double
                        },
                        prefix,
                        suffix,
                        inline_comment: if starts_with_comment(suffix) {
                            Some(suffix)
                        } else {
                            None
                        },
                        original_text: t,
                        newline: nl,
                    },
                )
            }
        },
    }
}

/// Parses a single- or double-quoted binding once the opening quote is known.
pub fn parse_quoted_binding(
    text: &[u8],
    newline: &[u8],
    export: bool,
    key: &str,
    prefix: Vec<u8>,
    value_start: usize,
) -> (r: Option<BindingLine>)
    requires
        value_start < text@.len(),
    ensures
        match r {
            Some(b) => parse_quoted(text@, newline@, export, key@, prefix@, value_start as int)
                == Some(b@),
            None => parse_quoted(text@, newline@, export, key@, prefix@, value_start as int) is None,
        },
{
    let quote = text[value_start];
    let closing = find_closing_quote(text, value_start + 1, quote);
    let closing_quote = match closing {
        Some(c) => c,
        None => return None,
    };
    proof {
        lemma_closing_quote(text@, value_start + 1, quote);
    }
    let raw_value = copy_range(text, value_start, closing_quote + 1);
    let suffix = copy_range(text, closing_quote + 1, text.len());
    if !is_valid_quoted_suffix(suffix.as_slice()) {
        return None;
    }
    let quote_type = if quote == 39 {
        QuoteType::Single
    } else {
        QuoteType::Double
    };
    let inner_value = copy_range(text, value_start + 1, closing_quote);
    let value = if quote == 39 {
        inner_value
    } else {
        decode_double_quoted(inner_value.as_slice())
    };
    let has_inline_comment = starts_with_comment_marker(suffix.as_slice());
    let inline_comment = if has_inline_comment {
        Some(copy_range(suffix.as_slice(), 0, suffix.len()))
    } else {
        None
    };
    proof {
        assert(suffix@.subrange(0, suffix@.len() as int) =~= suffix@);
    }
    let original_text = copy_range(text, 0, text.len());
    let newline_copy = copy_range(newline, 0, newline.len());
    let owned_key = key.to_owned();
    proof {
        assert(original_text@ =~= text@);
        assert(newline_copy@ =~= newline@);
    }
    let line = BindingLine {
        export,
        key: owned_key,
        value,
        raw_value,
        quote_type,
        prefix,
        suffix,
        inline_comment,
        original_text,
        newline: newline_copy,
    };
    assert(line@ == parse_quoted(text@, newline@, export, key@, prefix@, value_start as int).unwrap());
    Some(line)
}

fn find_closing_quote(text: &[u8], from: usize, quote: u8) -> (r: Option<usize>)
    ensures
        match r {
            Some(c) => closing_quote(text@, from as int, quote) == Some(c as int),
            None => closing_quote(text@, from as int, quote) is None,
        },
{
    let mut index = from;
    while index < text.len()
        invariant
            closing_quote(text@, index as int, quote) == closing_quote(text@, from as int, quote),
        decreases text.len() + 1 - index,
    {
        let byte = text[index];
        // Backslash only escapes characters inside double quotes.
        if quote == 34 && byte == 92 {
            if text.len() - index < 2 {
                assert(closing_quote(text@, index + 2, quote) is None);
                return None;
            }
            index = index + 2;
        } else {
            if byte == quote {
                return Some(index);
            }
            index = index + 1;
        }
    }
    None
}

fn is_valid_quoted_suffix(suffix: &[u8]) -> (r: bool)
    ensures
        r == valid_quoted_suffix(suffix@),
{
    if trim_horizontal(suffix).len() == 0 {
        return true;
    }
    starts_with_comment_marker(suffix)
}

/// Decodes the body of a double-quoted value.
pub fn decode_double_quoted(value: &[u8]) -> (r: Vec<u8>)
    ensures
        r@ == decode_dq(value@),
{
    let mut decoded: Vec<u8> = Vec::with_capacity(value.len());
    let mut index: usize = 0;
    assert(value@.subrange(0, value@.len() as int) =~= value@);

    while index < value.len()
        invariant
            index <= value@.len(),
            decoded@ + decode_dq(value@.subrange(index as int, value@.len() as int)) == decode_dq(
                value@,
            ),
        decreases value.len() - index,
    {
        let ghost rest = value@.subrange(index as int, value@.len() as int);
        let byte = value[index];
        if byte != 92 {
            decoded.push(byte);
            proof {
                assert(rest.drop_first() =~= value@.subrange(index + 1, value@.len() as int));
                assert(decode_dq(rest) == seq![byte] + decode_dq(rest.drop_first()));
            }
            index = index + 1;
        } else if index + 1 >= value.len() {
            decoded.push(92);
            proof {
                assert(decode_dq(rest) == seq![92u8]);
                assert(value@.subrange(index + 1, value@.len() as int) =~= Seq::<u8>::empty());
                assert(decode_dq(Seq::<u8>::empty()) =~= Seq::<u8>::empty());
            }
            index = index + 1;
        } else {
            let escaped = value[index + 1];
            let ghost before = decoded@;
            if escaped == 110 {
                decoded.push(10);
            } else if escaped == 114 {
                decoded.push(13);
            } else if escaped == 116 {
                decoded.push(9);
            } else if escaped == 92 {
                decoded.push(92);
            } else if escaped == 34 {
                decoded.push(34);
            } else {
                // Unknown escapes stay literal, including the backslash.
                decoded.push(92);
                decoded.push(escaped);
            }
            proof {
                assert(decoded@ =~= before + escape_decoded(escaped));
                assert(rest.subrange(2, rest.len() as int) =~= value@.subrange(
                    index + 2,
                    value@.len() as int,
                ));
                assert(decode_dq(rest) == escape_decoded(escaped) + decode_dq(
                    rest.subrange(2, rest.len() as int),
                ));
            }
            index = index + 2;
        }
        proof {
            assert(decoded@ + decode_dq(value@.subrange(index as int, value@.len() as int))
                =~= decode_dq(value@));
        }
    }
    proof {
        assert(value@.subrange(index as int, value@.len() as int) =~= Seq::<u8>::empty());
        assert(decode_dq(Seq::<u8>::empty()) =~= Seq::<u8>::empty());
        assert(decoded@ =~= decoded@ + Seq::<u8>::empty());
    }
    decoded
}

} // verus!
