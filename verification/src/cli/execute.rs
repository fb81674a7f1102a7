//! Command execution after arguments have been parsed.
//!
//! Execution alternates decisions, made here, with work on files and streams,
//! which the caller performs: `execute` says what a command needs first, the
//! document steps say what the file and stdin lead to, and `write_result`
//! reports a replacement that was asked for.
use vstd::prelude::*;

use crate::bytes::{bytes_eq, slice_to_vec};
use crate::cli::completion::{completion_script_text, completion_script};
use crate::cli::spec::{clap_completion, generator_name, surface_view};
use crate::cli::help::{help_result, help_result_spec, option_str_view};
use crate::cli::listing::{list_stdout, list_text};
use crate::cli::types::{
    CliResult, Command, CommandView, CompletionShell, GlobalOptions, MutationMode,
    MutationOptions, OsError, OsErrorKind, ParseControl,
};
use crate::cli::util::{
    key_not_found_message, key_not_found_text, os_error_message, os_error_text,
    stdin_error_message, stdin_error_text,
};
use crate::diagnostics::{invalid_key_message, invalid_key_text, is_valid_key, str_bytes, valid_key_bytes};
use crate::diff::{unified_diff, unified_diff_spec};
use crate::editor::{
    bindings_of, count_bindings, first_value, get_value, has_key, list_bindings, set_value,
    set_value_spec, unset_key, unset_spec,
};
use crate::model::{render_lines, Document, DocumentSpec, ExitCode};
use crate::parser::newline::{is_platform_newline, physical_lines, preferred_newline_of};
use crate::parser::{parse_document, parsed_lines};
use crate::render::render_document;
use crate::std_support::{byte_len, lossy_string, utf8_lossy};

verus! {

/// A command's result as values: exit code, stdout, stderr.
pub type ResultView = (ExitCode, Seq<u8>, Seq<u8>);

/// The first thing a parsed command needs.
#[derive(Clone, Debug, PartialEq, Eq)]
pub enum Step {
    /// The command is done.
    Finished(CliResult),
    /// The file at `path` is needed; hand the outcome of reading it to
    /// `read_document_for_command`.
    ReadDocument { path: Vec<u8> },
}

/// [`Step`] as values.
pub enum StepView {
    Finished(ResultView),
    ReadDocument { path: Seq<u8> },
}

impl View for Step {
    type V = StepView;

    open spec fn view(&self) -> StepView {
        match self {
            Step::Finished(r) => StepView::Finished(r@),
            Step::ReadDocument { path } => StepView::ReadDocument { path: path@ },
        }
    }
}

/// A document read from its file.
#[derive(Clone, Debug, PartialEq, Eq)]
pub struct LoadedDocument {
    /// The file's bytes.
    pub source_text: Vec<u8>,
    /// Their parsed document.
    pub document: Document,
}

/// What reading a command's file led to.
#[derive(Clone, Debug, PartialEq, Eq)]
pub enum ReadOutcome {
    /// The document to run the command on.
    Loaded(LoadedDocument),
    /// The command ends with this result.
    Failed(CliResult),
    /// The file is missing and the command may create it: whether the
    /// directory that would hold it exists decides, in `handle_set_read_error`.
    CheckDirectory(OsError),
}

/// What a command that has its document leads to.
#[derive(Clone, Debug, PartialEq, Eq)]
pub enum MutationOutcome {
    /// The command is done.
    Finished(CliResult),
    /// Replace the file at `path` by `contents`, then hand the outcome to
    /// `write_result`.
    Write { path: Vec<u8>, contents: Vec<u8> },
}

/// [`MutationOutcome`] as values.
pub enum OutcomeView {
    Finished(ResultView),
    Write { path: Seq<u8>, contents: Seq<u8> },
}

impl View for MutationOutcome {
    type V = OutcomeView;

    open spec fn view(&self) -> OutcomeView {
        match self {
            MutationOutcome::Finished(r) => OutcomeView::Finished(r@),
            MutationOutcome::Write { path, contents } => OutcomeView::Write {
                path: path@,
                contents: contents@,
            },
        }
    }
}

/// Commands that work on a document file.
pub open spec fn is_document_command(c: CommandView) -> bool {
    !(c is Completion) && !(c is Help)
}

/// The key a document command names, if any.
pub open spec fn command_key(c: CommandView) -> Option<Seq<char>> {
    match c {
        CommandView::Get { key, .. } => Some(key),
        CommandView::SetValue { key, .. } => Some(key),
        CommandView::Clear { key, .. } => Some(key),
        CommandView::Unset { key, .. } => Some(key),
        CommandView::Has { key, .. } => Some(key),
        _ => None,
    }
}

/// The file a document command works on.
pub open spec fn command_path(c: CommandView) -> Seq<u8> {
    match c {
        CommandView::Get { path, .. } => path,
        CommandView::SetValue { path, .. } => path,
        CommandView::Clear { path, .. } => path,
        CommandView::Unset { path, .. } => path,
        CommandView::Has { path, .. } => path,
        CommandView::List { path, .. } => path,
        _ => Seq::empty(),
    }
}

/// A result with empty stdout.
pub open spec fn failure(code: ExitCode, stderr: Seq<u8>) -> ResultView {
    (code, Seq::empty(), stderr)
}

/// A successful result printing `stdout`.
pub open spec fn success_with(stdout: Seq<u8>) -> ResultView {
    (ExitCode::Success, stdout, Seq::empty())
}

/// What a parsed command needs first.
pub open spec fn execute_spec(c: CommandView) -> StepView {
    match c {
        CommandView::Completion { shell } => StepView::Finished(
            success_with(completion_script_text(shell, clap_completion(generator_name(shell), surface_view(), "envq"@))),
        ),
        CommandView::Help { topic } => StepView::Finished(help_result_spec(topic)),
        _ => match command_key(c) {
            Some(key) => if !valid_key_bytes(str_bytes(key)) {
                StepView::Finished(failure(ExitCode::ValidationError, invalid_key_text(key)))
            } else {
                StepView::ReadDocument { path: command_path(c) }
            },
            None => StepView::ReadDocument { path: command_path(c) },
        },
    }
}

/// Says what a parsed command needs first: nothing more (help, completion
/// scripts and invalid keys), or its document file.
pub fn execute(command: &Command) -> (r: Step)
    ensures
        r@ == execute_spec(command@),
{
    match command {
        Command::Completion { shell } => Step::Finished(completion_result(*shell)),
        Command::Help { topic } => {
            let t = match topic {
                Some(t) => Some(t.as_str()),
                None => None,
            };
            assert(option_str_view(t) == match command@ {
                CommandView::Help { topic } => topic,
                _ => None,
            });
            Step::Finished(help_result(t))
        },
        _ => execute_document_command(command),
    }
}

/// Validates the key of a document command and asks for its file.
pub fn execute_document_command(command: &Command) -> (r: Step)
    requires
        is_document_command(command@),
    ensures
        r@ == execute_spec(command@),
{
    if let Some(key) = invalid_command_key(command) {
        return Step::Finished(
            CliResult {
                exit_code: ExitCode::ValidationError,
                stdout: Vec::new(),
                stderr: invalid_key_message(key),
            },
        );
    }
    Step::ReadDocument { path: slice_to_vec(document_path(command)) }
}

/// The path operand of a document command.
pub fn document_path(command: &Command) -> (r: &[u8])
    requires
        is_document_command(command@),
    ensures
        r@ == command_path(command@),
{
    match command {
        Command::Get { path, .. } => path.as_slice(),
        Command::SetValue { path, .. } => path.as_slice(),
        Command::Clear { path, .. } => path.as_slice(),
        Command::Unset { path, .. } => path.as_slice(),
        Command::Has { path, .. } => path.as_slice(),
        Command::List { path, .. } => path.as_slice(),
        Command::Completion { .. } => {
            proof {
                assert(false);
            }
            "".as_bytes()
        },
        Command::Help { .. } => {
            proof {
                assert(false);
            }
            "".as_bytes()
        },
    }
}

/// The key of a document command when it is not a valid key.
pub fn invalid_command_key(command: &Command) -> (r: Option<&str>)
    ensures
        match r {
            Some(k) => command_key(command@) == Some(k@) && !valid_key_bytes(str_bytes(k@)),
            None => match command_key(command@) {
                Some(k) => valid_key_bytes(str_bytes(k)),
                None => true,
            },
        },
{
    match command {
        Command::Get { key, .. } => invalid_key(key.as_str()),
        Command::SetValue { key, .. } => invalid_key(key.as_str()),
        Command::Clear { key, .. } => invalid_key(key.as_str()),
        Command::Unset { key, .. } => invalid_key(key.as_str()),
        Command::Has { key, .. } => invalid_key(key.as_str()),
        _ => None,
    }
}

/// The key itself when it is not a valid key.
pub fn invalid_key(key: &str) -> (r: Option<&str>)
    ensures
        match r {
            Some(k) => k@ == key@ && !valid_key_bytes(str_bytes(key@)),
            None => valid_key_bytes(str_bytes(key@)),
        },
{
    if is_valid_key(key) {
        None
    } else {
        Some(key)
    }
}

/// The text shown for a path.
pub open spec fn path_text(path: Seq<u8>) -> Seq<char> {
    utf8_lossy(path)
}

/// The diagnostic for an error on `path`.
pub open spec fn path_error(path: Seq<u8>, error: OsError) -> ResultView {
    failure(ExitCode::GeneralError, os_error_text(path_text(path), error))
}

/// [`ReadOutcome`] as values: the loaded text and document, a result, or the
/// error that sends the caller to check the directory.
pub enum ReadView {
    Loaded(Seq<u8>, DocumentSpec),
    Failed(ResultView),
    CheckDirectory(OsError),
}

/// The value of a read outcome.
pub open spec fn read_view(r: ReadOutcome) -> ReadView {
    match r {
        ReadOutcome::Loaded(l) => ReadView::Loaded(l.source_text@, l.document@),
        ReadOutcome::Failed(c) => ReadView::Failed(c@),
        ReadOutcome::CheckDirectory(e) => ReadView::CheckDirectory(e),
    }
}

/// A document loaded from `text`: its lines are the parse of `text`, and its
/// preferred newline is the first terminator in `text`, else LF or CRLF.
pub open spec fn loaded_from(v: ReadView, text: Seq<u8>) -> bool {
    match v {
        ReadView::Loaded(source, document) => source == text && document.lines == parsed_lines(
            text,
        ) && preferred_newline_of(physical_lines(text), document.preferred_newline),
        _ => false,
    }
}

/// Commands that may create a missing file.
pub open spec fn creates_missing_file(c: CommandView) -> bool {
    c is SetValue || c is Clear
}

/// Loads the document of a command from the outcome of reading its file.
/// `set` and `clear` turn a missing file into `CheckDirectory`; every other
/// read error ends the command with a diagnostic naming the path.
pub fn read_document_for_command(command: &Command, read: Result<Vec<u8>, OsError>) -> (r:
    ReadOutcome)
    requires
        is_document_command(command@),
    ensures
        match read {
            Ok(text) => loaded_from(read_view(r), text@),
            Err(e) => if creates_missing_file(command@) && e.kind == OsErrorKind::NotFound {
                read_view(r) == ReadView::CheckDirectory(e)
            } else {
                read_view(r) == ReadView::Failed(path_error(command_path(command@), e))
            },
        },
{
    match command {
        Command::SetValue { .. } | Command::Clear { .. } => read_document_for_set(
            document_path(command),
            read,
        ),
        _ => read_document(document_path(command), read),
    }
}

/// Loads a document from the outcome of reading its file; a read error ends
/// the command with a diagnostic naming the path.
pub fn read_document(path: &[u8], read: Result<Vec<u8>, OsError>) -> (r: ReadOutcome)
    ensures
        match read {
            Ok(text) => loaded_from(read_view(r), text@),
            Err(e) => read_view(r) == ReadView::Failed(path_error(path@, e)),
        },
{
    match read {
        Ok(source_text) => {
            let document = parse_document(source_text.as_slice());
            ReadOutcome::Loaded(LoadedDocument { source_text, document })
        },
        Err(error) => ReadOutcome::Failed(path_error_result(path, &error)),
    }
}

/// Loads the document of `set` or `clear`: as `read_document`, except that a
/// missing file sends the caller to check its directory.
pub fn read_document_for_set(path: &[u8], read: Result<Vec<u8>, OsError>) -> (r: ReadOutcome)
    ensures
        match read {
            Ok(text) => loaded_from(read_view(r), text@),
            Err(e) => if e.kind == OsErrorKind::NotFound {
                read_view(r) == ReadView::CheckDirectory(e)
            } else {
                read_view(r) == ReadView::Failed(path_error(path@, e))
            },
        },
{
    match read {
        Ok(source_text) => {
            let document = parse_document(source_text.as_slice());
            ReadOutcome::Loaded(LoadedDocument { source_text, document })
        },
        Err(error) => {
            if error.kind == OsErrorKind::NotFound {
                ReadOutcome::CheckDirectory(error)
            } else {
                ReadOutcome::Failed(path_error_result(path, &error))
            }
        },
    }
}

/// The diagnostic result for an error on `path`.
pub fn path_error_result(path: &[u8], error: &OsError) -> (r: CliResult)
    ensures
        r@ == path_error(path@, *error),
{
    let text = lossy_string(path);
    CliResult {
        exit_code: ExitCode::GeneralError,
        stdout: Vec::new(),
        stderr: os_error_message(text.as_str(), error),
    }
}

/// Decides a failed read for `set` and `clear`: a missing file whose
/// directory exists starts out empty; anything else is reported.
pub fn handle_set_read_error(path: &[u8], error: &OsError, directory_exists: bool) -> (r: Result<
    LoadedDocument,
    CliResult,
>)
    ensures
        match r {
            Ok(l) => error.kind == OsErrorKind::NotFound && directory_exists && l.source_text@.len()
                == 0 && l.document@.lines == parsed_lines(Seq::empty()) && is_platform_newline(
                l.document@.preferred_newline,
            ),
            Err(c) => !(error.kind == OsErrorKind::NotFound && directory_exists) && c@ == path_error(
                path@,
                *error,
            ),
        },
{
    if error.kind != OsErrorKind::NotFound || !directory_exists {
        return Err(path_error_result(path, error));
    }
    let source_text: Vec<u8> = Vec::new();
    let document = parse_document(source_text.as_slice());
    proof {
        assert(physical_lines(source_text@) =~= Seq::<(Seq<u8>, Seq<u8>)>::empty());
    }
    Ok(LoadedDocument { source_text, document })
}

/// Whether a command reads its value from stdin (`set KEY - PATH`).
pub open spec fn needs_stdin(c: CommandView) -> bool {
    c matches CommandView::SetValue { value, .. } && value == seq![45u8]
}

/// Whether the command needs stdin before `execute_loaded_document_command`.
pub fn reads_stdin(command: &Command) -> (r: bool)
    ensures
        r == needs_stdin(command@),
{
    match command {
        Command::SetValue { value, .. } => {
            if value.len() == 1 && value[0] == 45u8 {
                assert(value@ =~= seq![45u8]);
                true
            } else {
                assert(value@ != seq![45u8]) by {
                    if value@ == seq![45u8] {
                        assert(value@[0] == 45u8);
                    }
                }
                false
            }
        },
        _ => false,
    }
}

/// The value to set: the operand, or what stdin held exactly.
pub open spec fn set_value_source(value: Seq<u8>, stdin: Option<Result<Seq<u8>, OsError>>) -> Result<
    Seq<u8>,
    ResultView,
> {
    if value != seq![45u8] {
        Ok(value)
    } else {
        match stdin {
            Some(Ok(v)) => Ok(v),
            Some(Err(e)) => Err(failure(ExitCode::GeneralError, stdin_error_text(e))),
            None => Ok(value),
        }
    }
}

/// The view of what stdin gave.
pub open spec fn stdin_view(stdin: Option<Result<Vec<u8>, OsError>>) -> Option<
    Result<Seq<u8>, OsError>,
> {
    match stdin {
        Some(Ok(v)) => Some(Ok(v@)),
        Some(Err(e)) => Some(Err(e)),
        None => None,
    }
}

/// Resolves the value of `set`: the operand itself, or, for `-`, the bytes
/// read from stdin exactly (trailing newlines are data).
pub fn set_command_value(value: &[u8], stdin: Option<Result<Vec<u8>, OsError>>) -> (r: Result<
    Vec<u8>,
    CliResult,
>)
    requires
        value@ == seq![45u8] ==> stdin is Some,
    ensures
        match r {
            Ok(v) => set_value_source(value@, stdin_view(stdin)) == Ok::<Seq<u8>, ResultView>(v@),
            Err(c) => set_value_source(value@, stdin_view(stdin)) == Err::<Seq<u8>, ResultView>(c@),
        },
{
    if !(value.len() == 1 && value[0] == 45u8) {
        assert(value@ != seq![45u8]) by {
            if value@ == seq![45u8] {
                assert(value@[0] == 45u8);
            }
        }
        return Ok(slice_to_vec(value));
    }
    assert(value@ =~= seq![45u8]);
    match stdin {
        Some(Ok(stdin_value)) => Ok(stdin_value),
        Some(Err(error)) => Err(
            CliResult {
                exit_code: ExitCode::GeneralError,
                stdout: Vec::new(),
                stderr: stdin_error_message(&error),
            },
        ),
        None => Ok(slice_to_vec(value)),
    }
}

/// What a mutation leads to once the new document is rendered.
pub open spec fn finish_spec(
    path: Seq<u8>,
    source: Seq<u8>,
    rendered: Seq<u8>,
    options: MutationOptions,
) -> OutcomeView {
    let diff = unified_diff_spec(path_text(path), source, rendered);
    if options.check {
        OutcomeView::Finished(
            (
                if rendered == source {
                    ExitCode::Success
                } else {
                    ExitCode::WouldChange
                },
                match options.mode {
                    MutationMode::Stdout => rendered,
                    MutationMode::Diff => diff,
                    MutationMode::Write => Seq::empty(),
                },
                Seq::empty(),
            ),
        )
    } else {
        match options.mode {
            MutationMode::Stdout => OutcomeView::Finished(success_with(rendered)),
            MutationMode::Diff => OutcomeView::Finished(success_with(diff)),
            MutationMode::Write => if rendered == source {
                OutcomeView::Finished(success_with(Seq::empty()))
            } else {
                OutcomeView::Write { path, contents: rendered }
            },
        }
    }
}

/// Renders the new document and decides what the mutation prints, exits
/// with, and writes: `--check` never writes, and an unchanged file is not
/// rewritten.
pub fn finish_mutation(path: &[u8], source_text: &[u8], document: &Document, options: MutationOptions) -> (r:
    MutationOutcome)
    ensures
        r@ == finish_spec(path@, source_text@, render_lines(document@.lines), options),
{
    let rendered_text = render_document(document);
    let _source_len = byte_len(source_text);
    let _rendered_len = byte_len(rendered_text.as_slice());
    let unchanged = bytes_eq(rendered_text.as_slice(), source_text);
    if options.check {
        let stdout = match options.mode {
            MutationMode::Stdout => slice_to_vec(rendered_text.as_slice()),
            MutationMode::Diff => diff_for_path(path, source_text, rendered_text.as_slice()),
            MutationMode::Write => Vec::new(),
        };
        let exit_code = if unchanged {
            ExitCode::Success
        } else {
            ExitCode::WouldChange
        };
        return MutationOutcome::Finished(CliResult { exit_code, stdout, stderr: Vec::new() });
    }
    match options.mode {
        MutationMode::Stdout => MutationOutcome::Finished(
            CliResult { exit_code: ExitCode::Success, stdout: rendered_text, stderr: Vec::new() },
        ),
        MutationMode::Diff => MutationOutcome::Finished(
            CliResult {
                exit_code: ExitCode::Success,
                stdout: diff_for_path(path, source_text, rendered_text.as_slice()),
                stderr: Vec::new(),
            },
        ),
        MutationMode::Write => {
            if unchanged {
                return MutationOutcome::Finished(CliResult::success());
            }
            MutationOutcome::Write { path: slice_to_vec(path), contents: rendered_text }
        },
    }
}

/// The unified diff of a file's old and new text, labelled by its path.
fn diff_for_path(path: &[u8], before: &[u8], after: &[u8]) -> (r: Vec<u8>)
    ensures
        r@ == unified_diff_spec(path_text(path@), before@, after@),
{
    let _before_len = byte_len(before);
    let _after_len = byte_len(after);
    let label = lossy_string(path);
    unified_diff(label.as_str(), before, after)
}

/// What a document command does with its loaded document.
pub open spec fn loaded_spec(
    c: CommandView,
    source: Seq<u8>,
    document: DocumentSpec,
    stdin: Option<Result<Seq<u8>, OsError>>,
) -> OutcomeView {
    match c {
        CommandView::Get { key, .. } => OutcomeView::Finished(
            match first_value(document.lines, key) {
                Some(v) => success_with(v),
                None => failure(ExitCode::KeyNotFound, key_not_found_text(key)),
            },
        ),
        CommandView::Has { key, .. } => OutcomeView::Finished(
            if first_value(document.lines, key) is Some {
                success_with(Seq::empty())
            } else {
                failure(ExitCode::KeyNotFound, Seq::empty())
            },
        ),
        CommandView::List { options, .. } => OutcomeView::Finished(
            success_with(list_text(bindings_of(document.lines), options)),
        ),
        CommandView::SetValue { key, value, path, options } => match set_value_source(value, stdin) {
            Ok(v) => finish_spec(
                path,
                source,
                render_lines(set_value_spec(document, key, v).lines),
                options,
            ),
            Err(failed) => OutcomeView::Finished(failed),
        },
        CommandView::Clear { key, path, options } => finish_spec(
            path,
            source,
            render_lines(set_value_spec(document, key, Seq::empty()).lines),
            options,
        ),
        CommandView::Unset { key, path, options } => if count_bindings(document.lines, key) == 0 {
            OutcomeView::Finished(failure(ExitCode::KeyNotFound, key_not_found_text(key)))
        } else {
            finish_spec(path, source, render_lines(unset_spec(document, key).lines), options)
        },
        _ => OutcomeView::Finished(success_with(Seq::empty())),
    }
}

/// Runs a document command on its loaded document. `stdin` holds what
/// stdin gave when the command reads it (see `reads_stdin`), else `None`.
pub fn execute_loaded_document_command(
    command: &Command,
    source_text: &[u8],
    document: &Document,
    stdin: Option<Result<Vec<u8>, OsError>>,
) -> (r: MutationOutcome)
    requires
        is_document_command(command@),
        stdin is Some <==> needs_stdin(command@),
    ensures
        r@ == loaded_spec(command@, source_text@, document@, stdin_view(stdin)),
{
    match command {
        Command::Get { key, .. } => match get_value(document, key.as_str()) {
            Some(value) => MutationOutcome::Finished(
                CliResult {
                    exit_code: ExitCode::Success,
                    stdout: slice_to_vec(value),
                    stderr: Vec::new(),
                },
            ),
            None => MutationOutcome::Finished(
                CliResult {
                    exit_code: ExitCode::KeyNotFound,
                    stdout: Vec::new(),
                    stderr: key_not_found_message(key.as_str()),
                },
            ),
        },
        Command::Has { key, .. } => {
            if has_key(document, key.as_str()) {
                MutationOutcome::Finished(CliResult::success())
            } else {
                MutationOutcome::Finished(
                    CliResult {
                        exit_code: ExitCode::KeyNotFound,
                        stdout: Vec::new(),
                        stderr: Vec::new(),
                    },
                )
            }
        },
        Command::List { options, .. } => {
            let bindings = list_bindings(document);
            MutationOutcome::Finished(
                CliResult {
                    exit_code: ExitCode::Success,
                    stdout: list_stdout(bindings.as_slice(), *options),
                    stderr: Vec::new(),
                },
            )
        },
        Command::SetValue { key, value, path, options } => {
            let value = match set_command_value(value.as_slice(), stdin) {
                Ok(value) => value,
                Err(result) => return MutationOutcome::Finished(result),
            };
            let updated_document = set_value(document, key.as_str(), value.as_slice());
            finish_mutation(path.as_slice(), source_text, &updated_document, *options)
        },
        Command::Clear { key, path, options } => {
            let empty: Vec<u8> = Vec::new();
            let updated_document = set_value(document, key.as_str(), empty.as_slice());
            finish_mutation(path.as_slice(), source_text, &updated_document, *options)
        },
        Command::Unset { key, path, options } => {
            let unset_result = unset_key(document, key.as_str());
            if unset_result.removed_count == 0 {
                return MutationOutcome::Finished(
                    CliResult {
                        exit_code: ExitCode::KeyNotFound,
                        stdout: Vec::new(),
                        stderr: key_not_found_message(key.as_str()),
                    },
                );
            }
            finish_mutation(path.as_slice(), source_text, &unset_result.document, *options)
        },
        _ => MutationOutcome::Finished(CliResult::success()),
    }
}

/// The result once a requested replacement has been attempted.
pub open spec fn write_spec(path: Seq<u8>, outcome: Result<(), OsError>) -> ResultView {
    match outcome {
        Ok(()) => success_with(Seq::empty()),
        Err(e) => path_error(path, e),
    }
}

/// Reports the outcome of replacing the file at `path`.
pub fn write_result(path: &[u8], outcome: Result<(), OsError>) -> (r: CliResult)
    ensures
        r@ == write_spec(path@, outcome),
{
    match outcome {
        Ok(()) => CliResult::success(),
        Err(error) => path_error_result(path, &error),
    }
}

/// The result of `completion`: the completion script for `shell`.
pub fn completion_result(shell: CompletionShell) -> (r: CliResult)
    ensures
        r@ == success_with(completion_script_text(shell, clap_completion(generator_name(shell), surface_view(), "envq"@))),
{
    CliResult { exit_code: ExitCode::Success, stdout: completion_script(shell), stderr: Vec::new() }
}

/// The result of a command once the global options apply: `--quiet` drops
/// the diagnostics of a failing command and keeps its exit code and stdout.
pub open spec fn quiet_spec(result: ResultView, quiet: bool) -> ResultView {
    if quiet && result.0 != ExitCode::Success {
        (result.0, result.1, Seq::empty())
    } else {
        result
    }
}

/// Applies the global options to a command's result.
pub fn apply_global_options(result: CliResult, global_options: GlobalOptions) -> (r: CliResult)
    ensures
        r@ == quiet_spec(result@, global_options.quiet),
{
    let mut result = result;
    if global_options.quiet && result.exit_code != ExitCode::Success {
        result.stderr = Vec::new();
    }
    result
}

/// The result of arguments that stopped at help or a usage error.
pub open spec fn control_spec(control: crate::cli::types::ControlView) -> ResultView {
    match control {
        crate::cli::types::ControlView::Help(m) => success_with(m),
        crate::cli::types::ControlView::Usage(m) => failure(ExitCode::GeneralError, m),
    }
}

/// Turns help output or a usage error into the command's result.
pub fn parse_control_result(control: ParseControl) -> (r: CliResult)
    ensures
        r@ == control_spec(control@),
{
    match control {
        ParseControl::Help(help) => CliResult {
            exit_code: ExitCode::Success,
            stdout: help.message,
            stderr: Vec::new(),
        },
        ParseControl::Usage(error) => CliResult {
            exit_code: ExitCode::GeneralError,
            stdout: Vec::new(),
            stderr: error.message,
        },
    }
}

/// The mutation options of a mutating command.
pub open spec fn mutation_options_of(c: CommandView) -> Option<MutationOptions> {
    match c {
        CommandView::SetValue { options, .. } => Some(options),
        CommandView::Clear { options, .. } => Some(options),
        CommandView::Unset { options, .. } => Some(options),
        _ => None,
    }
}

/// `--check` never writes; it exits `Success` when the rendered file equals
/// the file as read and `WouldChange` otherwise, and prints no diagnostic.
pub proof fn law_check_reports_without_writing(
    path: Seq<u8>,
    source: Seq<u8>,
    rendered: Seq<u8>,
    options: MutationOptions,
)
    requires
        options.check,
    ensures
        finish_spec(path, source, rendered, options) matches OutcomeView::Finished(r) && (r.0
            == ExitCode::WouldChange <==> rendered != source) && (r.0 == ExitCode::Success
            <==> rendered == source) && r.2.len() == 0,
{
}

/// No command run with `--check` asks for a write.
pub proof fn law_check_never_writes(
    c: CommandView,
    source: Seq<u8>,
    document: DocumentSpec,
    stdin: Option<Result<Seq<u8>, OsError>>,
)
    requires
        mutation_options_of(c) matches Some(o) && o.check,
    ensures
        loaded_spec(c, source, document, stdin) is Finished,
{
}

/// A write is asked for only without `--check` and without an output option,
/// for the command's own path, and only when the new text differs from the
/// file as read: an unchanged file is never rewritten.
pub proof fn law_writes_only_changed_text(
    c: CommandView,
    source: Seq<u8>,
    document: DocumentSpec,
    stdin: Option<Result<Seq<u8>, OsError>>,
)
    requires
        loaded_spec(c, source, document, stdin) is Write,
    ensures
        mutation_options_of(c) matches Some(o) && !o.check && o.mode == MutationMode::Write,
        loaded_spec(c, source, document, stdin) matches OutcomeView::Write { path, contents }
            && path == command_path(c) && contents != source,
{
}

/// `--quiet` clears stderr of a failing command and nothing else: the exit
/// code and stdout are kept, and a successful result is unchanged.
pub proof fn law_quiet_only_silences_failures(result: ResultView, quiet: bool)
    ensures
        quiet_spec(result, quiet).0 == result.0,
        quiet_spec(result, quiet).1 == result.1,
        quiet && result.0 != ExitCode::Success ==> quiet_spec(result, quiet).2.len() == 0,
        !quiet || result.0 == ExitCode::Success ==> quiet_spec(result, quiet) == result,
{
}

/// `clear KEY PATH` is `set KEY "" PATH`: it asks for the same file and, on
/// any file, prints, exits and writes the same.
pub proof fn law_clear_is_set_empty(
    key: Seq<char>,
    path: Seq<u8>,
    options: MutationOptions,
    source: Seq<u8>,
    document: DocumentSpec,
)
    ensures
        execute_spec(CommandView::Clear { key, path, options }) == execute_spec(
            CommandView::SetValue { key, value: Seq::empty(), path, options },
        ),
        loaded_spec(CommandView::Clear { key, path, options }, source, document, None)
            == loaded_spec(
            CommandView::SetValue { key, value: Seq::empty(), path, options },
            source,
            document,
            None,
        ),
{
    assert(Seq::<u8>::empty() != seq![45u8]) by {
        assert(seq![45u8].len() == 1);
    }
}

} // verus!
