# envq

Byte-preserving `.env` query and editing tool, written in Verus.

- `src/` is the verified library: the parser (`parser`), the document model
  (`model`), rendering (`render`), editing (`editor`), unified diffs (`diff`),
  the command line's argument parsing, execution decisions and output formats
  (`cli`), and fuzzing harnesses (`fuzzing`). `reparse` proves that a value
  written with `set` is read back from the rendered file; `diff_size` and
  `cli::list_size` bound the size of diffs and listings.
- Calls into `std`, `clap`, `clap_complete` and `imara-diff` that the library
  relies on go through the small trusted wrappers in `std_support`,
  `cli::spec` and `diff`. `cli::spec` describes the clap command surface as
  plain values that verified code builds.
- `app/` is the `envq` program: arguments, files and streams, and atomic file
  replacement.
- `tests/` exercises the library, including the command line over an
  in-memory file system.
