//! Byte-preserving `.env` query and editing library.
pub mod bytes;
pub mod cli;
pub mod decimal;
pub mod diagnostics;
pub mod diff;
pub mod diff_apply;
pub mod diff_size;
pub mod editor;
pub mod fuzzing;
pub mod model;
pub mod parser;
pub mod render;
pub mod reparse;
pub mod std_support;
