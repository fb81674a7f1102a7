//! Command-line behaviour: argument parsing, execution decisions, and output.
pub mod completion;
pub mod execute;
pub mod help;
pub mod list_size;
pub mod listing;
pub mod parse;
pub mod spec;
pub mod tail;
pub mod types;
pub mod util;
