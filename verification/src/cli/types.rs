//! Values that flow through argument parsing and command execution.
use vstd::prelude::*;

use crate::bytes::str_eq;
use crate::model::ExitCode;

verus! {

/// Result produced by the library CLI entry point.
#[derive(Clone, Debug, PartialEq, Eq)]
pub struct CliResult {
    /// Process exit status.
    pub exit_code: ExitCode,
    /// Raw stdout bytes.
    pub stdout: Vec<u8>,
    /// Raw stderr bytes.
    pub stderr: Vec<u8>,
}

impl View for CliResult {
    type V = (ExitCode, Seq<u8>, Seq<u8>);

    open spec fn view(&self) -> (ExitCode, Seq<u8>, Seq<u8>) {
        (self.exit_code, self.stdout@, self.stderr@)
    }
}

impl CliResult {
    /// Empty successful result.
    pub fn success() -> (r: Self)
        ensures
            r.exit_code == ExitCode::Success,
            r.stdout@ == Seq::<u8>::empty(),
            r.stderr@ == Seq::<u8>::empty(),
    {
        CliResult { exit_code: ExitCode::Success, stdout: Vec::new(), stderr: Vec::new() }
    }
}

/// Command names accepted by the top-level parser.
#[derive(Clone, Copy, Debug, PartialEq, Eq, Structural)]
pub enum CommandName {
    Get,
    SetValue,
    Clear,
    Unset,
    Remove,
    Has,
    List,
    Completion,
    Help,
}

/// The spelling of each command.
pub open spec fn command_spelling(c: CommandName) -> Seq<char> {
    match c {
        CommandName::Get => "get"@,
        CommandName::SetValue => "set"@,
        CommandName::Clear => "clear"@,
        CommandName::Unset => "unset"@,
        CommandName::Remove => "remove"@,
        CommandName::Has => "has"@,
        CommandName::List => "list"@,
        CommandName::Completion => "completion"@,
        CommandName::Help => "help"@,
    }
}

/// The command a name selects, if any.
pub open spec fn command_named(value: Seq<char>) -> Option<CommandName> {
    if value == "get"@ {
        Some(CommandName::Get)
    } else if value == "set"@ {
        Some(CommandName::SetValue)
    } else if value == "clear"@ {
        Some(CommandName::Clear)
    } else if value == "unset"@ {
        Some(CommandName::Unset)
    } else if value == "remove"@ {
        Some(CommandName::Remove)
    } else if value == "has"@ {
        Some(CommandName::Has)
    } else if value == "list"@ {
        Some(CommandName::List)
    } else if value == "completion"@ {
        Some(CommandName::Completion)
    } else if value == "help"@ {
        Some(CommandName::Help)
    } else {
        None
    }
}

/// Operands each command requires before its tail options.
pub open spec fn operand_count_of(c: CommandName) -> usize {
    match c {
        CommandName::Get => 2,
        CommandName::SetValue => 3,
        CommandName::Clear => 2,
        CommandName::Unset => 2,
        CommandName::Remove => 2,
        CommandName::Has => 2,
        CommandName::List => 1,
        CommandName::Completion => 1,
        CommandName::Help => 0,
    }
}

/// Commands that accept mutation tail options.
pub open spec fn is_mutating(c: CommandName) -> bool {
    c == CommandName::SetValue || c == CommandName::Clear || c == CommandName::Unset || c
        == CommandName::Remove
}

impl CommandName {
    /// Parses a command name after global options have been consumed.
    pub fn from_str(value: &str) -> (r: Option<CommandName>)
        ensures
            r == command_named(value@),
    {
        if str_eq(value, "get") {
            Some(CommandName::Get)
        } else if str_eq(value, "set") {
            Some(CommandName::SetValue)
        } else if str_eq(value, "clear") {
            Some(CommandName::Clear)
        } else if str_eq(value, "unset") {
            Some(CommandName::Unset)
        } else if str_eq(value, "remove") {
            Some(CommandName::Remove)
        } else if str_eq(value, "has") {
            Some(CommandName::Has)
        } else if str_eq(value, "list") {
            Some(CommandName::List)
        } else if str_eq(value, "completion") {
            Some(CommandName::Completion)
        } else if str_eq(value, "help") {
            Some(CommandName::Help)
        } else {
            None
        }
    }

    /// Static command spelling used in diagnostics and specs.
    pub fn as_str(self) -> (r: &'static str)
        ensures
            r@ == command_spelling(self),
    {
        match self {
            CommandName::Get => "get",
            CommandName::SetValue => "set",
            CommandName::Clear => "clear",
            CommandName::Unset => "unset",
            CommandName::Remove => "remove",
            CommandName::Has => "has",
            CommandName::List => "list",
            CommandName::Completion => "completion",
            CommandName::Help => "help",
        }
    }

    /// Required operand count before any command-specific tail options.
    pub fn operand_count(self) -> (r: usize)
        ensures
            r == operand_count_of(self),
    {
        match self {
            CommandName::Get => 2,
            CommandName::SetValue => 3,
            CommandName::Clear => 2,
            CommandName::Unset | CommandName::Remove => 2,
            CommandName::Has => 2,
            CommandName::List => 1,
            CommandName::Completion => 1,
            CommandName::Help => 0,
        }
    }

    /// Whether this command accepts mutation tail options.
    pub fn is_mutating(self) -> (r: bool)
        ensures
            r == is_mutating(self),
    {
        match self {
            CommandName::SetValue | CommandName::Clear | CommandName::Unset | CommandName::Remove => true,
            _ => false,
        }
    }
}

/// Shells with completion support.
#[derive(Clone, Copy, Debug, PartialEq, Eq, Structural)]
pub enum CompletionShell {
    Bash,
    Zsh,
    Fish,
    PowerShell,
}

/// Output of a mutating command.
#[derive(Clone, Copy, Debug, PartialEq, Eq, Structural)]
pub enum MutationMode {
    /// Write the file.
    Write,
    /// Print the rendered file.
    Stdout,
    /// Print a unified diff.
    Diff,
}

/// Output format of `list`.
#[derive(Clone, Copy, Debug, PartialEq, Eq, Structural)]
pub enum ListOutputFormat {
    Table,
    Json,
    Yaml,
    Names,
}

/// Tail options of mutating commands.
#[derive(Clone, Copy, Debug, PartialEq, Eq, Structural)]
pub struct MutationOptions {
    pub mode: MutationMode,
    pub check: bool,
}

impl MutationOptions {
    /// Writes the file, without `--check`.
    pub fn default() -> (r: Self)
        ensures
            r == (MutationOptions { mode: MutationMode::Write, check: false }),
    {
        MutationOptions { mode: MutationMode::Write, check: false }
    }
}

/// Tail options of `list`.
#[derive(Clone, Copy, Debug, PartialEq, Eq, Structural)]
pub struct ListOptions {
    pub output_format: ListOutputFormat,
    pub unique: bool,
}

impl ListOptions {
    /// Table output with duplicates.
    pub fn default() -> (r: Self)
        ensures
            r == (ListOptions { output_format: ListOutputFormat::Table, unique: false }),
    {
        ListOptions { output_format: ListOutputFormat::Table, unique: false }
    }
}

/// Options accepted before the command.
#[derive(Clone, Copy, Debug, PartialEq, Eq, Structural)]
pub struct GlobalOptions {
    pub quiet: bool,
}

/// A parsed command. Each `path` holds the raw bytes of the PATH operand.
#[derive(Clone, Debug, PartialEq, Eq)]
pub enum Command {
    Get { key: String, path: Vec<u8> },
    SetValue { key: String, value: Vec<u8>, path: Vec<u8>, options: MutationOptions },
    Clear { key: String, path: Vec<u8>, options: MutationOptions },
    Unset { key: String, path: Vec<u8>, options: MutationOptions },
    Has { key: String, path: Vec<u8> },
    List { path: Vec<u8>, options: ListOptions },
    Completion { shell: CompletionShell },
    Help { topic: Option<String> },
}

/// The mathematical value of a [`Command`]: keys as text, everything else as bytes.
pub enum CommandView {
    Get { key: Seq<char>, path: Seq<u8> },
    SetValue { key: Seq<char>, value: Seq<u8>, path: Seq<u8>, options: MutationOptions },
    Clear { key: Seq<char>, path: Seq<u8>, options: MutationOptions },
    Unset { key: Seq<char>, path: Seq<u8>, options: MutationOptions },
    Has { key: Seq<char>, path: Seq<u8> },
    List { path: Seq<u8>, options: ListOptions },
    Completion { shell: CompletionShell },
    Help { topic: Option<Seq<char>> },
}

impl View for Command {
    type V = CommandView;

    open spec fn view(&self) -> CommandView {
        match self {
            Command::Get { key, path } => CommandView::Get { key: key@, path: path@ },
            Command::SetValue { key, value, path, options } => CommandView::SetValue {
                key: key@,
                value: value@,
                path: path@,
                options: *options,
            },
            Command::Clear { key, path, options } => CommandView::Clear {
                key: key@,
                path: path@,
                options: *options,
            },
            Command::Unset { key, path, options } => CommandView::Unset {
                key: key@,
                path: path@,
                options: *options,
            },
            Command::Has { key, path } => CommandView::Has { key: key@, path: path@ },
            Command::List { path, options } => CommandView::List { path: path@, options: *options },
            Command::Completion { shell } => CommandView::Completion { shell: *shell },
            Command::Help { topic } => CommandView::Help {
                topic: match topic {
                    Some(t) => Some(t@),
                    None => None,
                },
            },
        }
    }
}

/// Operands once tail options have been split off.
#[derive(Clone, Debug, PartialEq, Eq)]
pub struct PreparedOperands {
    pub operands: Vec<Vec<u8>>,
    pub mutation_options: MutationOptions,
    pub list_options: ListOptions,
}

impl PreparedOperands {
    /// Operands with default options.
    pub fn new(operands: Vec<Vec<u8>>) -> (r: Self)
        ensures
            r.operands@ == operands@,
            r.mutation_options == (MutationOptions { mode: MutationMode::Write, check: false }),
            r.list_options == (ListOptions { output_format: ListOutputFormat::Table, unique: false }),
    {
        PreparedOperands {
            operands,
            mutation_options: MutationOptions::default(),
            list_options: ListOptions::default(),
        }
    }
}

/// A command with the global options that preceded it.
#[derive(Clone, Debug, PartialEq, Eq)]
pub struct ParsedCommand {
    pub command: Command,
    pub global_options: GlobalOptions,
}

/// A usage diagnostic for stderr.
#[derive(Clone, Debug, PartialEq, Eq)]
pub struct UsageError {
    pub message: Vec<u8>,
}

/// Help or version text for stdout.
#[derive(Clone, Debug, PartialEq, Eq)]
pub struct HelpRequested {
    pub message: Vec<u8>,
}

/// Why parsing stopped without a command.
#[derive(Clone, Debug, PartialEq, Eq)]
pub enum ParseControl {
    Help(HelpRequested),
    Usage(UsageError),
}

/// The mathematical value of a [`ParseControl`]: which stream, and its bytes.
pub enum ControlView {
    Help(Seq<u8>),
    Usage(Seq<u8>),
}

impl View for ParseControl {
    type V = ControlView;

    open spec fn view(&self) -> ControlView {
        match self {
            ParseControl::Help(h) => ControlView::Help(h.message@),
            ParseControl::Usage(u) => ControlView::Usage(u.message@),
        }
    }
}

/// The class of an operating-system error, as far as diagnostics distinguish them.
#[derive(Clone, Copy, Debug, PartialEq, Eq, Structural)]
pub enum OsErrorKind {
    NotFound,
    PermissionDenied,
    AlreadyExists,
    IsADirectory,
    Other,
}

/// An operating-system error: its class and its own description.
#[derive(Clone, Debug, PartialEq, Eq)]
pub struct OsError {
    pub kind: OsErrorKind,
    pub message: String,
}

} // verus!
