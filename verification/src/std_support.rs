//! Thin wrappers around the few standard-library functions whose behaviour
//! the verified code relies on but that vstd does not specify.
use vstd::prelude::*;
use vstd::utf8::{decode_utf8, valid_utf8};

verus! {

/// Wraps `std::str::from_utf8`. Its documentation promises `Ok` exactly when the
/// bytes are valid UTF-8, and then a string slice over those same bytes; the
/// contract states both.
#[verifier::external_body]
pub fn utf8_str(bytes: &[u8]) -> (r: Option<&str>)
    ensures
        r.is_some() == valid_utf8(bytes@),
        r matches Some(s) ==> s@ == decode_utf8(bytes@),
{
    std::str::from_utf8(bytes).ok()
}

/// Wraps `std::path::MAIN_SEPARATOR`, the platform's primary path separator
/// (`\` on Windows, `/` elsewhere). Nothing is claimed of the value: it depends
/// on the platform the library was built for.
#[verifier::external_body]
pub fn main_separator() -> char {
    std::path::MAIN_SEPARATOR
}


/// The text that `String::from_utf8_lossy` makes of some bytes.
pub uninterp spec fn utf8_lossy(bytes: Seq<u8>) -> Seq<char>;

/// Wraps `String::from_utf8_lossy`. Its result is named by `utf8_lossy`; the
/// documentation also says that valid UTF-8 comes back unchanged, which the
/// contract states.
#[verifier::external_body]
pub fn lossy_string(bytes: &[u8]) -> (r: String)
    ensures
        r@ == utf8_lossy(bytes@),
        valid_utf8(bytes@) ==> r@ == decode_utf8(bytes@),
{
    String::from_utf8_lossy(bytes).into_owned()
}

/// The text that `format!("{:?}", s)` gives for a string: Rust's quoted,
/// escaped debug form.
pub uninterp spec fn debug_quoted(s: Seq<char>) -> Seq<char>;

/// Wraps the `Debug` formatting of `str` (quotes plus `char::escape_debug`
/// escapes). Only the name is stated.
#[verifier::external_body]
pub fn debug_string(s: &str) -> (r: String)
    ensures
        r@ == debug_quoted(s@),
{
    format!("{:?}", s)
}

/// Wraps `<[u8]>::len`. Rust documents that no object, and so no slice, is
/// larger than `isize::MAX` bytes; the contract states that bound beside the
/// length.
#[verifier::external_body]
pub fn byte_len(bytes: &[u8]) -> (r: usize)
    ensures
        r == bytes@.len(),
        r <= isize::MAX,
{
    bytes.len()
}
} // verus!
