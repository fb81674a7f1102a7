//! Validation and diagnostic helpers shared by parser and CLI layers.
use vstd::prelude::*;
use vstd::utf8::encode_utf8;

use crate::bytes::extend_bytes;

verus! {

/// Bytes that may start a key: `_` or an ASCII letter.
pub open spec fn key_start_byte(b: u8) -> bool {
    b == 95 || (65 <= b && b <= 90) || (97 <= b && b <= 122)
}

/// Bytes that may continue a key: `_`, an ASCII letter, or an ASCII digit.
pub open spec fn key_continue_byte(b: u8) -> bool {
    key_start_byte(b) || (48 <= b && b <= 57)
}

/// The key grammar `[A-Za-z_][A-Za-z0-9_]*` over bytes.
pub open spec fn valid_key_bytes(k: Seq<u8>) -> bool {
    &&& k.len() > 0
    &&& key_start_byte(k[0])
    &&& forall|i: int| 1 <= i < k.len() ==> key_continue_byte(#[trigger] k[i])
}

/// The key grammar names its bytes by the characters they stand for: a key
/// starts with `_` or one of the 26 ASCII letters in either case, and goes on
/// with those or the ten ASCII digits; no other byte is accepted.
pub proof fn law_key_grammar()
    ensures
        forall|b: u8|
            #[trigger] key_start_byte(b) <==> (b == '_' as u8 || ('A' as u8 <= b && b <= 'Z' as u8)
                || ('a' as u8 <= b && b <= 'z' as u8)),
        forall|b: u8|
            #[trigger] key_continue_byte(b) <==> (key_start_byte(b) || ('0' as u8 <= b && b
                <= '9' as u8)),
        forall|i: int| 0 <= i < 26 ==> #[trigger] key_start_byte(('A' as u8 + i) as u8) && key_start_byte(
            ('a' as u8 + i) as u8,
        ),
        forall|i: int| 0 <= i < 10 ==> #[trigger] key_continue_byte(('0' as u8 + i) as u8),
{
}

/// A character that may stand in a key: `_`, an ASCII letter, or (after the
/// first position) an ASCII digit.
pub open spec fn key_char(c: char, first: bool) -> bool {
    let v = c as u32;
    c == '_' || (('A' as u32) <= v && v <= ('Z' as u32)) || (('a' as u32) <= v && v <= ('z' as u32))
        || (!first && ('0' as u32) <= v && v <= ('9' as u32))
}

/// An ASCII text is encoded byte for byte.
proof fn lemma_ascii_bytes(k: Seq<char>)
    requires
        forall|i: int| 0 <= i < k.len() ==> ((#[trigger] k[i]) as u32) < 128,
    ensures
        str_bytes(k).len() == k.len(),
        forall|i: int| 0 <= i < k.len() ==> #[trigger] str_bytes(k)[i] == k[i] as u32,
    decreases k.len(),
{
    if k.len() > 0 {
        let rest = k.drop_first();
        assert forall|i: int| 0 <= i < rest.len() implies ((#[trigger] rest[i]) as u32) < 128 by {
            assert(rest[i] == k[i + 1]);
        }
        lemma_ascii_bytes(rest);
        let v = k[0] as u32;
        assert(v < 128);
        assert(v & 0x7F == v) by (bit_vector)
            requires
                v < 128,
        ;
        assert(str_bytes(k) == seq![(v & 0x7F) as u8] + str_bytes(rest));
        assert forall|i: int| 0 <= i < k.len() implies #[trigger] str_bytes(k)[i] == k[i] as u32 by {
            if i > 0 {
                assert(str_bytes(k)[i] == str_bytes(rest)[i - 1]);
                assert(rest[i - 1] == k[i]);
            }
        }
    }
}

/// Every non-empty text of key characters (a letter or `_` first, then
/// letters, digits and `_`) is a valid key.
pub proof fn law_key_text_valid(k: Seq<char>)
    requires
        k.len() > 0,
        forall|i: int| 0 <= i < k.len() ==> key_char(#[trigger] k[i], i == 0),
    ensures
        valid_key_bytes(str_bytes(k)),
{
    assert forall|i: int| 0 <= i < k.len() implies ((#[trigger] k[i]) as u32) < 128 by {
        assert(key_char(k[i], i == 0));
    }
    lemma_ascii_bytes(k);
    let t = str_bytes(k);
    assert(key_char(k[0], true));
    assert(t[0] == k[0] as u32);
    assert forall|i: int| 1 <= i < t.len() implies key_continue_byte(#[trigger] t[i]) by {
        assert(key_char(k[i], false));
        assert(t[i] == k[i] as u32);
    }
}

/// The UTF-8 bytes of a string.
pub open spec fn str_bytes(s: Seq<char>) -> Seq<u8> {
    encode_utf8(s)
}

/// Appends the UTF-8 bytes of `s` to `out`.
pub fn push_str(out: &mut Vec<u8>, s: &str)
    ensures
        final(out)@ == old(out)@ + str_bytes(s@),
{
    extend_bytes(out, s.as_bytes());
}

/// Validates envq's supported key grammar.
pub fn is_valid_key(key: &str) -> (r: bool)
    ensures
        r == valid_key_bytes(str_bytes(key@)),
{
    let bytes = key.as_bytes();
    assert(bytes@ == str_bytes(key@));
    if bytes.len() == 0 {
        return false;
    }
    if !is_key_start(bytes[0]) {
        return false;
    }
    let mut i: usize = 1;
    while i < bytes.len()
        invariant
            1 <= i <= bytes@.len(),
            bytes@ == str_bytes(key@),
            forall|j: int| 1 <= j < i ==> key_continue_byte(#[trigger] bytes@[j]),
        decreases bytes.len() - i,
    {
        if !is_key_continue(bytes[i]) {
            assert(!key_continue_byte(bytes@[i as int]));
            return false;
        }
        i = i + 1;
    }
    true
}

/// The contract-compatible invalid-key diagnostic for `key`.
pub open spec fn invalid_key_text(key: Seq<char>) -> Seq<u8> {
    str_bytes("envq: invalid key: "@) + str_bytes(key) + str_bytes("\n"@)
}

/// Formats the contract-compatible invalid-key diagnostic.
pub fn invalid_key_message(key: &str) -> (r: Vec<u8>)
    ensures
        r@ == invalid_key_text(key@),
{
    let mut out: Vec<u8> = Vec::new();
    push_str(&mut out, "envq: invalid key: ");
    push_str(&mut out, key);
    push_str(&mut out, "\n");
    out
}

/// Returns whether a byte can start a supported key.
pub fn is_key_start(byte: u8) -> (r: bool)
    ensures
        r == key_start_byte(byte),
{
    // `_`, `A`..=`Z`, `a`..=`z`
    byte == 95 || (65 <= byte && byte <= 90) || (97 <= byte && byte <= 122)
}

/// Returns whether a byte can continue a supported key.
pub fn is_key_continue(byte: u8) -> (r: bool)
    ensures
        r == key_continue_byte(byte),
{
    // digits `0`..=`9`
    is_key_start(byte) || (48 <= byte && byte <= 57)
}

} // verus!
