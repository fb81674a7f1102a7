//! Byte-aware formatting for `envq list`.
//!
//! The JSON and YAML writers are handwritten over bytes: values are raw bytes
//! that must come out byte for byte, which a UTF-8 string model would reject
//! or transform.
use vstd::prelude::*;

use crate::bytes::{extend_bytes, str_eq};
use crate::cli::types::{ListOptions, ListOutputFormat};
use crate::diagnostics::{push_str, str_bytes};
use crate::editor::pairs_view;
use crate::model::copy_bytes;

verus! {

/// A listed binding: its key and its value bytes.
pub type BindingView = (Seq<char>, Seq<u8>);

/// The keys of a sequence of bindings.
pub open spec fn keys_of(bs: Seq<BindingView>) -> Seq<Seq<char>> {
    bs.map_values(|b: BindingView| b.0)
}

/// The first binding of each key, in file order.
pub open spec fn unique_spec(bs: Seq<BindingView>) -> Seq<BindingView>
    decreases bs.len(),
{
    if bs.len() == 0 {
        Seq::empty()
    } else {
        let before = unique_spec(bs.drop_last());
        if keys_of(bs.drop_last()).contains(bs.last().0) {
            before
        } else {
            before.push(bs.last())
        }
    }
}

/// Table output: `KEY<TAB>VALUE` per line.
pub open spec fn table_text(bs: Seq<BindingView>) -> Seq<u8>
    decreases bs.len(),
{
    if bs.len() == 0 {
        Seq::empty()
    } else {
        table_text(bs.drop_last()) + str_bytes(bs.last().0) + seq![9u8] + bs.last().1 + seq![10u8]
    }
}

/// Names output: one key per line.
pub open spec fn names_text(bs: Seq<BindingView>) -> Seq<u8>
    decreases bs.len(),
{
    if bs.len() == 0 {
        Seq::empty()
    } else {
        names_text(bs.drop_last()) + str_bytes(bs.last().0) + seq![10u8]
    }
}

/// A lowercase hexadecimal digit.
pub open spec fn hex_digit_spec(nibble: u8) -> u8 {
    if nibble < 10 {
        (48 + nibble) as u8
    } else {
        (87 + nibble) as u8
    }
}

/// The JSON escape of one byte; bytes at or above 0x20 other than `"` and
/// `\` pass through unchanged, invalid UTF-8 included.
pub open spec fn json_byte(b: u8) -> Seq<u8> {
    if b == 34 {
        seq![92u8, 34u8]
    } else if b == 92 {
        seq![92u8, 92u8]
    } else if b == 10 {
        seq![92u8, 110u8]
    } else if b == 13 {
        seq![92u8, 114u8]
    } else if b == 9 {
        seq![92u8, 116u8]
    } else if b == 8 {
        seq![92u8, 98u8]
    } else if b == 12 {
        seq![92u8, 102u8]
    } else if b < 32 {
        seq![92u8, 117u8, 48u8, 48u8, hex_digit_spec(b / 16), hex_digit_spec(b % 16)]
    } else {
        seq![b]
    }
}

/// The escaped bytes of a value, without quotes.
pub open spec fn json_escaped(v: Seq<u8>) -> Seq<u8>
    decreases v.len(),
{
    if v.len() == 0 {
        Seq::empty()
    } else {
        json_escaped(v.drop_last()) + json_byte(v.last())
    }
}

/// A JSON string literal for a byte value.
pub open spec fn json_string(v: Seq<u8>) -> Seq<u8> {
    seq![34u8] + json_escaped(v) + seq![34u8]
}

// ---------------------------------------------------------------------------
// Reading a JSON string back.

/// The value of a hexadecimal digit of either case.
pub open spec fn hex_value(c: u8) -> Option<int> {
    if 48 <= c <= 57 {
        Some(c - 48)
    } else if 97 <= c <= 102 {
        Some(c - 87)
    } else if 65 <= c <= 70 {
        Some(c - 55)
    } else {
        None
    }
}

/// The byte that a one-letter JSON escape `\e` stands for.
pub open spec fn json_short_escape(e: u8) -> Option<u8> {
    if e == 34 {
        Some(34u8)
    } else if e == 92 {
        Some(92u8)
    } else if e == 47 {
        Some(47u8)
    } else if e == 98 {
        Some(8u8)
    } else if e == 102 {
        Some(12u8)
    } else if e == 110 {
        Some(10u8)
    } else if e == 114 {
        Some(13u8)
    } else if e == 116 {
        Some(9u8)
    } else {
        None
    }
}

/// The UTF-8 bytes of a code point below 0x10000 that is not a surrogate, as a
/// `\uXXXX` escape gives it; `None` for a surrogate.
pub open spec fn bmp_bytes(cp: int) -> Option<Seq<u8>> {
    if cp < 0x80 {
        Some(seq![cp as u8])
    } else if cp < 0x800 {
        Some(seq![(192 + cp / 64) as u8, (128 + cp % 64) as u8])
    } else if 0xD800 <= cp < 0xE000 {
        None
    } else {
        Some(seq![(224 + cp / 4096) as u8, (128 + (cp / 64) % 64) as u8, (128 + cp % 64) as u8])
    }
}

pub open spec fn prepend_bytes(p: Seq<u8>, r: Option<Seq<u8>>) -> Option<Seq<u8>> {
    match r {
        Some(t) => Some(p + t),
        None => None,
    }
}

/// Decodes the body of a JSON string (what stands between its quotes) into
/// bytes, as a JSON reader does: `\` starts an escape, which must be one of
/// `\" \\ \/ \b \f \n \r \t` or `\u` with four hex digits (a lone
/// surrogate is refused); a raw `"` or control byte is refused; every other
/// byte stands for itself. `None` where the body is not valid JSON.
pub open spec fn json_unescape(s: Seq<u8>) -> Option<Seq<u8>>
    decreases s.len(),
{
    if s.len() == 0 {
        Some(Seq::empty())
    } else if s[0] == 34 || s[0] < 32 {
        None
    } else if s[0] != 92 {
        prepend_bytes(seq![s[0]], json_unescape(s.drop_first()))
    } else if s.len() < 2 {
        None
    } else if json_short_escape(s[1]) is Some {
        prepend_bytes(
            seq![json_short_escape(s[1])->0],
            json_unescape(s.subrange(2, s.len() as int)),
        )
    } else if s[1] == 117 && s.len() >= 6 && hex_value(s[2]) is Some && hex_value(s[3]) is Some
        && hex_value(s[4]) is Some && hex_value(s[5]) is Some {
        let cp = 4096 * hex_value(s[2])->0 + 256 * hex_value(s[3])->0 + 16 * hex_value(s[4])->0
            + hex_value(s[5])->0;
        match bmp_bytes(cp) {
            Some(b) => prepend_bytes(b, json_unescape(s.subrange(6, s.len() as int))),
            None => None,
        }
    } else {
        None
    }
}

/// The bytes that a JSON string literal (quotes included) denotes, or `None`
/// where it is not one.
pub open spec fn json_string_value(s: Seq<u8>) -> Option<Seq<u8>> {
    if s.len() >= 2 && s[0] == 34 && s[s.len() - 1] == 34 {
        json_unescape(s.subrange(1, s.len() - 1))
    } else {
        None
    }
}

proof fn lemma_json_escaped_front(v: Seq<u8>)
    requires
        v.len() > 0,
    ensures
        json_escaped(v) == json_byte(v[0]) + json_escaped(v.drop_first()),
    decreases v.len(),
{
    if v.len() > 1 {
        lemma_json_escaped_front(v.drop_last());
        assert(v.drop_last().drop_first() =~= v.drop_first().drop_last());
        assert(v.drop_last()[0] == v[0]);
        assert(v.drop_first().last() == v.last());
        assert(json_byte(v[0]) + json_escaped(v.drop_first().drop_last()) + json_byte(v.last())
            =~= json_byte(v[0]) + (json_escaped(v.drop_first().drop_last()) + json_byte(v.last())));
    } else {
        assert(v.drop_last() =~= Seq::<u8>::empty());
        assert(v.drop_first() =~= Seq::<u8>::empty());
        assert(json_byte(v[0]) + Seq::<u8>::empty() =~= json_byte(v[0]));
        assert(Seq::<u8>::empty() + json_byte(v.last()) =~= json_byte(v.last()));
    }
}

proof fn lemma_hex_digit_value(n: u8)
    requires
        n < 16,
    ensures
        hex_value(hex_digit_spec(n)) == Some(n as int),
{
}

#[verifier::spinoff_prover]
proof fn lemma_unescape_byte(b: u8, rest: Seq<u8>)
    ensures
        json_unescape(json_byte(b) + rest) == prepend_bytes(seq![b], json_unescape(rest)),
{
    let s = json_byte(b) + rest;
    let e = json_byte(b);
    if e.len() == 2 {
        assert(s.subrange(2, s.len() as int) =~= rest);
    } else if e.len() == 6 {
        lemma_hex_digit_value(b / 16);
        lemma_hex_digit_value(b % 16);
        assert(s[1] == 117);
        assert(s.subrange(6, s.len() as int) =~= rest);
        assert(4096 * 0 + 256 * 0 + 16 * (b / 16) as int + (b % 16) as int == b as int);
        assert(bmp_bytes(b as int) == Some(seq![b]));
    } else {
        assert(s.drop_first() =~= rest);
    }
}

proof fn lemma_unescape_escaped(v: Seq<u8>)
    ensures
        json_unescape(json_escaped(v)) == Some(v),
    decreases v.len(),
{
    if v.len() == 0 {
    } else {
        lemma_json_escaped_front(v);
        lemma_unescape_escaped(v.drop_first());
        lemma_unescape_byte(v[0], json_escaped(v.drop_first()));
        assert(seq![v[0]] + v.drop_first() =~= v);
    }
}

/// A JSON string literal written for any bytes reads back, with a JSON
/// reader's rules, as exactly those bytes: every escape it writes is one JSON
/// knows, and no quote or control byte stands unescaped.
pub proof fn law_json_string_decodes(v: Seq<u8>)
    ensures
        json_string_value(json_string(v)) == Some(v),
{
    let s = json_string(v);
    assert(s.subrange(1, s.len() - 1) =~= json_escaped(v));
    lemma_unescape_escaped(v);
}

/// One object of the JSON array, with its separator and line end.
pub open spec fn json_item(b: BindingView, last: bool) -> Seq<u8> {
    str_bytes("  {\n    \"key\": "@) + json_string(str_bytes(b.0)) + str_bytes(",\n    \"value\": "@)
        + json_string(b.1) + str_bytes("\n  }"@) + (if last {
        Seq::empty()
    } else {
        seq![44u8]
    }) + seq![10u8]
}

/// The first `n` objects of the JSON array of `bs`.
pub open spec fn json_items(bs: Seq<BindingView>, n: nat) -> Seq<u8>
    decreases n,
{
    if n == 0 {
        Seq::empty()
    } else {
        json_items(bs, (n - 1) as nat) + json_item(bs[n - 1], n == bs.len())
    }
}

/// JSON output: an array of `{"key", "value"}` objects.
pub open spec fn json_text(bs: Seq<BindingView>) -> Seq<u8> {
    if bs.len() == 0 {
        str_bytes("[]\n"@)
    } else {
        str_bytes("[\n"@) + json_items(bs, bs.len()) + str_bytes("]\n"@)
    }
}

/// One entry of the YAML sequence.
pub open spec fn yaml_item(b: BindingView) -> Seq<u8> {
    str_bytes("- key: "@) + json_string(str_bytes(b.0)) + str_bytes("\n  value: "@) + json_string(
        b.1,
    ) + seq![10u8]
}

/// The YAML entries of `bs`.
pub open spec fn yaml_items(bs: Seq<BindingView>) -> Seq<u8>
    decreases bs.len(),
{
    if bs.len() == 0 {
        Seq::empty()
    } else {
        yaml_items(bs.drop_last()) + yaml_item(bs.last())
    }
}

/// YAML output: a sequence of quoted key/value maps.
pub open spec fn yaml_text(bs: Seq<BindingView>) -> Seq<u8> {
    if bs.len() == 0 {
        str_bytes("[]\n"@)
    } else {
        yaml_items(bs)
    }
}

/// What `list` prints for the bindings of a document.
pub open spec fn list_text(bs: Seq<BindingView>, options: ListOptions) -> Seq<u8> {
    let selected = if options.unique {
        unique_spec(bs)
    } else {
        bs
    };
    match options.output_format {
        ListOutputFormat::Table => table_text(selected),
        ListOutputFormat::Names => names_text(selected),
        ListOutputFormat::Json => json_text(selected),
        ListOutputFormat::Yaml => yaml_text(selected),
    }
}

/// Copies a list of bindings.
fn copy_bindings(bindings: &[(String, Vec<u8>)]) -> (r: Vec<(String, Vec<u8>)>)
    ensures
        pairs_view(r@) == pairs_view(bindings@),
{
    let mut out: Vec<(String, Vec<u8>)> = Vec::new();
    let mut i: usize = 0;
    while i < bindings.len()
        invariant
            i <= bindings@.len(),
            pairs_view(out@) == pairs_view(bindings@.subrange(0, i as int)),
        decreases bindings.len() - i,
    {
        let key = bindings[i].0.clone();
        let value = copy_bytes(&bindings[i].1);
        proof {
            assert(key@ == bindings@[i as int].0@);
        }
        let ghost old_out = out@;
        out.push((key, value));
        proof {
            let next = bindings@.subrange(0, i + 1);
            assert(next =~= bindings@.subrange(0, i as int).push(bindings@[i as int]));
            assert(pairs_view(out@) =~= pairs_view(old_out).push(
                (bindings@[i as int].0@, bindings@[i as int].1@),
            ));
            assert(pairs_view(next) =~= pairs_view(bindings@.subrange(0, i as int)).push(
                (bindings@[i as int].0@, bindings@[i as int].1@),
            ));
        }
        i = i + 1;
    }
    proof {
        assert(bindings@.subrange(0, bindings@.len() as int) =~= bindings@);
    }
    out
}

/// Formats bindings according to the list command options.
pub fn list_stdout(bindings: &[(String, Vec<u8>)], options: ListOptions) -> (r: Vec<u8>)
    ensures
        r@ == list_text(pairs_view(bindings@), options),
{
    let selected_bindings = if options.unique {
        unique_bindings(bindings)
    } else {
        copy_bindings(bindings)
    };
    let ghost sel = pairs_view(selected_bindings@);
    match options.output_format {
        ListOutputFormat::Table => {
            let mut output: Vec<u8> = Vec::new();
            let mut i: usize = 0;
            while i < selected_bindings.len()
                invariant
                    i <= selected_bindings@.len(),
                    sel == pairs_view(selected_bindings@),
                    output@ == table_text(sel.subrange(0, i as int)),
                decreases selected_bindings.len() - i,
            {
                push_str(&mut output, selected_bindings[i].0.as_str());
                output.push(9u8);
                extend_bytes(&mut output, selected_bindings[i].1.as_slice());
                output.push(10u8);
                proof {
                    assert(sel.subrange(0, i + 1).drop_last() =~= sel.subrange(0, i as int));
                }
                i = i + 1;
            }
            proof {
                assert(sel.subrange(0, sel.len() as int) =~= sel);
            }
            output
        },
        ListOutputFormat::Names => {
            let mut output: Vec<u8> = Vec::new();
            let mut i: usize = 0;
            while i < selected_bindings.len()
                invariant
                    i <= selected_bindings@.len(),
                    sel == pairs_view(selected_bindings@),
                    output@ == names_text(sel.subrange(0, i as int)),
                decreases selected_bindings.len() - i,
            {
                push_str(&mut output, selected_bindings[i].0.as_str());
                output.push(10u8);
                proof {
                    assert(sel.subrange(0, i + 1).drop_last() =~= sel.subrange(0, i as int));
                }
                i = i + 1;
            }
            proof {
                assert(sel.subrange(0, sel.len() as int) =~= sel);
            }
            output
        },
        ListOutputFormat::Json => json_bindings(&selected_bindings),
        ListOutputFormat::Yaml => yaml_bindings(&selected_bindings),
    }
}

/// Whether `key` is among the keys collected so far.
fn seen_key(seen: &Vec<String>, key: &str) -> (r: bool)
    ensures
        r == seen@.map_values(|s: String| s@).contains(key@),
{
    let ghost keys = seen@.map_values(|s: String| s@);
    let mut i: usize = 0;
    while i < seen.len()
        invariant
            i <= seen@.len(),
            keys == seen@.map_values(|s: String| s@),
            forall|j: int| 0 <= j < i ==> keys[j] != key@,
        decreases seen.len() - i,
    {
        if str_eq(seen[i].as_str(), key) {
            assert(keys[i as int] == key@);
            return true;
        }
        i = i + 1;
    }
    false
}

/// Keeps the first binding for each key and drops later duplicates.
pub fn unique_bindings(bindings: &[(String, Vec<u8>)]) -> (r: Vec<(String, Vec<u8>)>)
    ensures
        pairs_view(r@) == unique_spec(pairs_view(bindings@)),
{
    let ghost all = pairs_view(bindings@);
    let mut seen: Vec<String> = Vec::new();
    let mut unique_bindings: Vec<(String, Vec<u8>)> = Vec::new();
    let mut i: usize = 0;
    while i < bindings.len()
        invariant
            i <= bindings@.len(),
            all == pairs_view(bindings@),
            pairs_view(unique_bindings@) == unique_spec(all.subrange(0, i as int)),
            forall|k: Seq<char>|
                seen@.map_values(|s: String| s@).contains(k) <==> keys_of(
                    all.subrange(0, i as int),
                ).contains(k),
        decreases bindings.len() - i,
    {
        let key = &bindings[i].0;
        let value = &bindings[i].1;
        let ghost prefix = all.subrange(0, i as int);
        let ghost next = all.subrange(0, i + 1);
        proof {
            assert(next.drop_last() =~= prefix);
            assert(next.last() == (key@, value@));
        }
        let already = seen_key(&seen, key.as_str());
        let ghost old_seen = seen@.map_values(|s: String| s@);
        let ghost old_unique = pairs_view(unique_bindings@);
        if !already {
            seen.push(key.clone());
            unique_bindings.push((key.clone(), copy_bytes(value)));
            proof {
                assert(pairs_view(unique_bindings@) =~= old_unique.push((key@, value@)));
            }
        }
        proof {
            assert(keys_of(next) =~= keys_of(prefix).push(key@));
            broadcast use vstd::seq_lib::lemma_seq_contains_after_push;
            if !already {
                assert(seen@.map_values(|s: String| s@) =~= old_seen.push(key@));
            }
        }
        i = i + 1;
    }
    proof {
        assert(all.subrange(0, all.len() as int) =~= all);
    }
    unique_bindings
}

/// Formats bindings as a JSON array.
#[verifier::rlimit(30)]
pub fn json_bindings(bindings: &[(String, Vec<u8>)]) -> (r: Vec<u8>)
    ensures
        r@ == json_text(pairs_view(bindings@)),
{
    let ghost bs = pairs_view(bindings@);
    if bindings.len() == 0 {
        let mut output: Vec<u8> = Vec::new();
        push_str(&mut output, "[]\n");
        return output;
    }
    let mut output: Vec<u8> = Vec::new();
    push_str(&mut output, "[\n");
    let mut i: usize = 0;
    while i < bindings.len()
        invariant
            i <= bindings@.len(),
            bs == pairs_view(bindings@),
            output@ == str_bytes("[\n"@) + json_items(bs, i as nat),
        decreases bindings.len() - i,
    {
        let ghost before = output@;
        push_str(&mut output, "  {\n    \"key\": ");
        extend_json_string(&mut output, bindings[i].0.as_str().as_bytes());
        push_str(&mut output, ",\n    \"value\": ");
        extend_json_string(&mut output, bindings[i].1.as_slice());
        push_str(&mut output, "\n  }");
        if i + 1 < bindings.len() {
            output.push(44u8);
        }
        output.push(10u8);
        proof {
            assert(bs[i as int] == (bindings@[i as int].0@, bindings@[i as int].1@));
            let item = json_item(bs[i as int], i + 1 == bs.len());
            assert(output@ =~= before + item);
        }
        i = i + 1;
    }
    push_str(&mut output, "]\n");
    output
}

/// Formats bindings as a YAML sequence.
pub fn yaml_bindings(bindings: &[(String, Vec<u8>)]) -> (r: Vec<u8>)
    ensures
        r@ == yaml_text(pairs_view(bindings@)),
{
    let ghost bs = pairs_view(bindings@);
    if bindings.len() == 0 {
        let mut output: Vec<u8> = Vec::new();
        push_str(&mut output, "[]\n");
        return output;
    }
    let mut output: Vec<u8> = Vec::new();
    let mut i: usize = 0;
    while i < bindings.len()
        invariant
            i <= bindings@.len(),
            bs == pairs_view(bindings@),
            output@ == yaml_items(bs.subrange(0, i as int)),
        decreases bindings.len() - i,
    {
        let ghost before = output@;
        push_str(&mut output, "- key: ");
        extend_json_string(&mut output, bindings[i].0.as_str().as_bytes());
        push_str(&mut output, "\n  value: ");
        extend_json_string(&mut output, bindings[i].1.as_slice());
        output.push(10u8);
        proof {
            assert(bs[i as int] == (bindings@[i as int].0@, bindings@[i as int].1@));
            assert(bs.subrange(0, i + 1).drop_last() =~= bs.subrange(0, i as int));
            assert(output@ =~= before + yaml_item(bs[i as int]));
        }
        i = i + 1;
    }
    proof {
        assert(bs.subrange(0, bs.len() as int) =~= bs);
    }
    output
}

/// Appends a JSON string literal for `value` to `output`.
pub fn extend_json_string(output: &mut Vec<u8>, value: &[u8])
    ensures
        final(output)@ == old(output)@ + json_string(value@),
{
    output.push(34u8);
    let ghost start = output@;
    let mut i: usize = 0;
    while i < value.len()
        invariant
            i <= value@.len(),
            output@ == start + json_escaped(value@.subrange(0, i as int)),
        decreases value.len() - i,
    {
        let byte = value[i];
        let ghost before = output@;
        if byte == 34 {
            output.push(92u8);
            output.push(34u8);
        } else if byte == 92 {
            output.push(92u8);
            output.push(92u8);
        } else if byte == 10 {
            output.push(92u8);
            output.push(110u8);
        } else if byte == 13 {
            output.push(92u8);
            output.push(114u8);
        } else if byte == 9 {
            output.push(92u8);
            output.push(116u8);
        } else if byte == 8 {
            output.push(92u8);
            output.push(98u8);
        } else if byte == 12 {
            output.push(92u8);
            output.push(102u8);
        } else if byte < 32 {
            extend_control_escape(output, byte);
        } else {
            output.push(byte);
        }
        proof {
            assert(value@.subrange(0, i + 1).drop_last() =~= value@.subrange(0, i as int));
            assert(output@ =~= before + json_byte(byte));
        }
        i = i + 1;
    }
    proof {
        assert(value@.subrange(0, value@.len() as int) =~= value@);
    }
    output.push(34u8);
}

/// Appends the `\u00XX` escape of a control byte.
pub fn extend_control_escape(output: &mut Vec<u8>, byte: u8)
    ensures
        final(output)@ == old(output)@ + seq![
            92u8,
            117u8,
            48u8,
            48u8,
            hex_digit_spec(byte / 16),
            hex_digit_spec(byte % 16),
        ],
{
    output.push(92u8);
    output.push(117u8);
    output.push(48u8);
    output.push(48u8);
    output.push(hex_digit(byte / 16));
    output.push(hex_digit(byte % 16));
}

/// A lowercase hexadecimal digit for a nibble.
pub fn hex_digit(nibble: u8) -> (r: u8)
    requires
        nibble < 16,
    ensures
        r == hex_digit_spec(nibble),
{
    if nibble < 10 {
        48 + nibble
    } else {
        87 + nibble
    }
}

/// The value of the first binding of `key` in `bs`.
pub open spec fn first_binding_of(bs: Seq<BindingView>, key: Seq<char>) -> Option<Seq<u8>>
    decreases bs.len(),
{
    if bs.len() == 0 {
        None
    } else {
        match first_binding_of(bs.drop_last(), key) {
            Some(v) => Some(v),
            None => if bs.last().0 == key {
                Some(bs.last().1)
            } else {
                None
            },
        }
    }
}

proof fn lemma_first_binding_exists(bs: Seq<BindingView>, key: Seq<char>)
    ensures
        first_binding_of(bs, key) is Some <==> keys_of(bs).contains(key),
    decreases bs.len(),
{
    broadcast use vstd::seq_lib::lemma_seq_contains_after_push;
    if bs.len() > 0 {
        lemma_first_binding_exists(bs.drop_last(), key);
        assert(keys_of(bs) =~= keys_of(bs.drop_last()).push(bs.last().0));
    } else {
        assert(keys_of(bs) =~= Seq::<Seq<char>>::empty());
    }
}

/// `--unique` keeps the first binding of each key: the listed keys are
/// distinct, each listed binding is the first binding of its key, and every
/// key is listed.
pub proof fn law_unique_keeps_first_binding(bs: Seq<BindingView>)
    ensures
        forall|i: int, j: int|
            0 <= i < j < unique_spec(bs).len() ==> (#[trigger] unique_spec(bs)[i]).0 != (
            #[trigger] unique_spec(bs)[j]).0,
        forall|i: int|
            0 <= i < unique_spec(bs).len() ==> first_binding_of(bs, (#[trigger] unique_spec(bs)[i]).0)
                == Some(unique_spec(bs)[i].1),
        forall|k: Seq<char>| #[trigger] keys_of(unique_spec(bs)).contains(k) <==> keys_of(bs).contains(k),
    decreases bs.len(),
{
    broadcast use vstd::seq_lib::lemma_seq_contains_after_push;
    if bs.len() == 0 {
        assert(keys_of(bs) =~= Seq::<Seq<char>>::empty());
        assert(keys_of(unique_spec(bs)) =~= Seq::<Seq<char>>::empty());
    } else {
        let init = bs.drop_last();
        let last = bs.last();
        law_unique_keeps_first_binding(init);
        let ui = unique_spec(init);
        let u = unique_spec(bs);
        assert(keys_of(bs) =~= keys_of(init).push(last.0));
        assert forall|k: Seq<char>| first_binding_of(init, k) is Some implies #[trigger] first_binding_of(bs, k)
            == first_binding_of(init, k) by {}
        if keys_of(init).contains(last.0) {
            assert(u == ui);
            assert forall|i: int| 0 <= i < u.len() implies first_binding_of(bs, (#[trigger] u[i]).0) == Some(
                u[i].1,
            ) by {
                assert(first_binding_of(init, u[i].0) == Some(u[i].1));
            }
        } else {
            assert(u == ui.push(last));
            assert(keys_of(u) =~= keys_of(ui).push(last.0));
            lemma_first_binding_exists(init, last.0);
            assert forall|i: int, j: int| 0 <= i < j < u.len() implies (#[trigger] u[i]).0 != (
            #[trigger] u[j]).0 by {
                if j == u.len() - 1 {
                    assert(u[i] == ui[i]);
                    assert(keys_of(ui)[i] == ui[i].0);
                    assert(keys_of(ui).contains(ui[i].0));
                } else {
                    assert(u[i] == ui[i] && u[j] == ui[j]);
                }
            }
            assert forall|i: int| 0 <= i < u.len() implies first_binding_of(bs, (#[trigger] u[i]).0) == Some(
                u[i].1,
            ) by {
                if i < ui.len() {
                    assert(u[i] == ui[i]);
                    assert(first_binding_of(init, ui[i].0) == Some(ui[i].1));
                } else {
                    assert(u[i] == last);
                }
            }
        }
    }
}

} // verus!
