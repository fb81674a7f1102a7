//! Diagnostic formatting shared by the command handlers.
use vstd::prelude::*;

use crate::bytes::extend_bytes;
use crate::cli::types::{OsError, OsErrorKind};
use crate::diagnostics::{push_str, str_bytes};
use crate::std_support::{lossy_string, utf8_lossy};

verus! {

/// Converts a key operand to a string for later key validation: valid UTF-8
/// as is, anything else with replacement characters.
pub fn key_operand(argument: &[u8]) -> (r: String)
    ensures
        r@ == utf8_lossy(argument@),
{
    lossy_string(argument)
}

/// The missing-key diagnostic.
pub open spec fn key_not_found_text(key: Seq<char>) -> Seq<u8> {
    str_bytes("envq: "@) + str_bytes(key) + str_bytes(": key not found\n"@)
}

/// Formats a missing-key diagnostic.
pub fn key_not_found_message(key: &str) -> (r: Vec<u8>)
    ensures
        r@ == key_not_found_text(key@),
{
    let mut out: Vec<u8> = Vec::new();
    push_str(&mut out, "envq: ");
    push_str(&mut out, key);
    push_str(&mut out, ": key not found\n");
    out
}

/// The normalized wording of common errors; others keep their own description.
pub open spec fn os_error_detail_text(error: OsError) -> Seq<u8> {
    match error.kind {
        OsErrorKind::NotFound => str_bytes("No such file or directory"@),
        OsErrorKind::PermissionDenied => str_bytes("Permission denied"@),
        OsErrorKind::AlreadyExists => str_bytes("File exists"@),
        OsErrorKind::IsADirectory => str_bytes("Is a directory"@),
        OsErrorKind::Other => str_bytes(error.message@),
    }
}

/// The wording used for an operating-system error.
pub fn os_error_detail(error: &OsError) -> (r: Vec<u8>)
    ensures
        r@ == os_error_detail_text(*error),
{
    let mut out: Vec<u8> = Vec::new();
    match error.kind {
        OsErrorKind::NotFound => push_str(&mut out, "No such file or directory"),
        OsErrorKind::PermissionDenied => push_str(&mut out, "Permission denied"),
        OsErrorKind::AlreadyExists => push_str(&mut out, "File exists"),
        OsErrorKind::IsADirectory => push_str(&mut out, "Is a directory"),
        OsErrorKind::Other => push_str(&mut out, error.message.as_str()),
    }
    out
}

/// A path-related diagnostic.
pub open spec fn os_error_text(path: Seq<char>, error: OsError) -> Seq<u8> {
    str_bytes("envq: "@) + str_bytes(path) + str_bytes(": "@) + os_error_detail_text(error)
        + str_bytes("\n"@)
}

/// Formats a path-related OS diagnostic with normalized wording for common
/// errors; `path` is the text shown for the path.
pub fn os_error_message(path: &str, error: &OsError) -> (r: Vec<u8>)
    ensures
        r@ == os_error_text(path@, *error),
{
    let mut out: Vec<u8> = Vec::new();
    push_str(&mut out, "envq: ");
    push_str(&mut out, path);
    push_str(&mut out, ": ");
    let detail = os_error_detail(error);
    extend_bytes(&mut out, detail.as_slice());
    push_str(&mut out, "\n");
    out
}

/// A stdin read diagnostic.
pub open spec fn stdin_error_text(error: OsError) -> Seq<u8> {
    str_bytes("envq: stdin: "@) + os_error_detail_text(error) + str_bytes("\n"@)
}

/// Formats a stdin read diagnostic.
pub fn stdin_error_message(error: &OsError) -> (r: Vec<u8>)
    ensures
        r@ == stdin_error_text(*error),
{
    let mut out: Vec<u8> = Vec::new();
    push_str(&mut out, "envq: stdin: ");
    let detail = os_error_detail(error);
    extend_bytes(&mut out, detail.as_slice());
    push_str(&mut out, "\n");
    out
}

} // verus!
