//! Static help text and usage diagnostics.
use vstd::prelude::*;

use crate::cli::types::{CliResult, CommandName};
use crate::diagnostics::{push_str, str_bytes};
use crate::model::ExitCode;

verus! {

/// The package version printed by `--version`.
pub const VERSION: &'static str = "0.1.3";

/// Top-level usage prefix shared by parser errors.
pub const USAGE: &'static str = "usage: envq [-h] [--version] [--quiet] {get,set,clear,unset,remove,has,list,completion,help} ...\n";

/// The description that follows the usage line in the top-level help.
pub const TOP_HELP_BODY: &'static str = "\nRead and edit .env files deterministically.\n\npositional arguments:\n  command     command to run\n  ...         command operands\n\noptions:\n  -h, --help  show this help message and exit\n  --version   show program's version number and exit\n  --quiet     suppress command diagnostics on stderr\n\n";

/// The command summary that ends the top-level help.
pub const COMMAND_USAGE: &'static str = "commands:\n  envq [--version] [--quiet]\n  get KEY PATH\n  set KEY VALUE PATH [--stdout|--diff] [--check]\n  set KEY - PATH [--stdout|--diff] [--check]\n  clear KEY PATH [--stdout|--diff] [--check]\n  unset KEY PATH [--stdout|--diff] [--check]\n  remove KEY PATH [--stdout|--diff] [--check]\n  has KEY PATH\n  list PATH [--json|--yaml|--names] [--unique]\n  completion {bash,zsh,fish,powershell,pwsh}\n  help [COMMAND]\n";

pub const GET_HELP: &'static str = "usage: envq get KEY PATH\n\nPrint the first matching value exactly, without adding a newline.\nReturns exit code 2 when KEY is absent.\n";

pub const SET_HELP: &'static str = "usage: envq set KEY VALUE PATH [--stdout|--diff] [--check]\n       envq set KEY - PATH [--stdout|--diff] [--check]\n\nSet KEY to VALUE, updating the first match or appending a new binding.\nUse VALUE '-' to read the value from stdin exactly.\nTrailing --stdout prints the rendered file without writing.\nTrailing --diff prints a unified diff without writing.\nTrailing --check exits 4 when the file would change and never writes.\n";

pub const CLEAR_HELP: &'static str = "usage: envq clear KEY PATH [--stdout|--diff] [--check]\n\nKeep or create KEY and set it to an empty value.\nSupports the same trailing output and check options as set.\n";

pub const UNSET_HELP: &'static str = "usage: envq unset KEY PATH [--stdout|--diff] [--check]\n\nRemove all matching bindings for KEY.\nReturns exit code 2 when KEY is absent.\n";

pub const REMOVE_HELP: &'static str = "usage: envq remove KEY PATH [--stdout|--diff] [--check]\n\nAlias for unset.\n";

pub const HAS_HELP: &'static str = "usage: envq has KEY PATH\n\nPrint nothing. Exit 0 if KEY exists, or 2 if KEY is absent.\n";

pub const LIST_HELP: &'static str = "usage: envq list PATH [--json|--yaml|--names] [--unique]\n\nPrint bindings in file order as KEY<TAB>VALUE by default.\n--json prints a JSON array of {\"key\", \"value\"} objects.\n--yaml prints a dependency-free YAML sequence.\n--names prints only keys, one per line.\n--unique keeps the first binding for each key and drops later duplicates.\n";

pub const COMPLETION_HELP: &'static str = "usage: envq completion {bash,zsh,fish,powershell,pwsh}\n\nPrint a shell completion script to stdout.\n";

pub const HELP_HELP: &'static str = "usage: envq help [COMMAND]\n\nPrint command-specific help.\n";

/// The help text of each command.
pub open spec fn command_help_text(c: CommandName) -> Seq<char> {
    match c {
        CommandName::Get => GET_HELP@,
        CommandName::SetValue => SET_HELP@,
        CommandName::Clear => CLEAR_HELP@,
        CommandName::Unset => UNSET_HELP@,
        CommandName::Remove => REMOVE_HELP@,
        CommandName::Has => HAS_HELP@,
        CommandName::List => LIST_HELP@,
        CommandName::Completion => COMPLETION_HELP@,
        CommandName::Help => HELP_HELP@,
    }
}

/// The top-level help output.
pub open spec fn top_help_text() -> Seq<u8> {
    str_bytes(USAGE@) + str_bytes(TOP_HELP_BODY@) + str_bytes(COMMAND_USAGE@)
}

/// The diagnostic for an unknown help topic.
pub open spec fn unknown_topic_text(topic: Seq<char>) -> Seq<u8> {
    str_bytes("envq: unknown help topic: "@) + str_bytes(topic) + str_bytes("\n"@)
}

/// What `help [topic]` prints and exits with.
pub open spec fn help_result_spec(topic: Option<Seq<char>>) -> (ExitCode, Seq<u8>, Seq<u8>) {
    match topic {
        None => (ExitCode::Success, top_help_text(), Seq::empty()),
        Some(t) => match crate::cli::types::command_named(t) {
            Some(c) => (ExitCode::Success, str_bytes(command_help_text(c)), Seq::empty()),
            None => (ExitCode::GeneralError, Seq::empty(), unknown_topic_text(t)),
        },
    }
}

/// The view of an optional string.
pub open spec fn option_str_view(s: Option<&str>) -> Option<Seq<char>> {
    match s {
        Some(t) => Some(t@),
        None => None,
    }
}

/// Returns top-level or command-specific help output.
pub fn help_result(topic: Option<&str>) -> (r: CliResult)
    ensures
        (r.exit_code, r.stdout@, r.stderr@) == help_result_spec(option_str_view(topic)),
{
    let topic = match topic {
        Some(topic) => topic,
        None => {
            return CliResult { exit_code: ExitCode::Success, stdout: top_help(), stderr: Vec::new() };
        },
    };
    let command = CommandName::from_str(topic);
    match command {
        Some(c) => {
            let mut stdout: Vec<u8> = Vec::new();
            push_str(&mut stdout, command_help(c));
            CliResult { exit_code: ExitCode::Success, stdout, stderr: Vec::new() }
        },
        None => {
            let mut stderr: Vec<u8> = Vec::new();
            push_str(&mut stderr, "envq: unknown help topic: ");
            push_str(&mut stderr, topic);
            push_str(&mut stderr, "\n");
            CliResult { exit_code: ExitCode::GeneralError, stdout: Vec::new(), stderr }
        },
    }
}

/// The help text of a command.
pub fn command_help(c: CommandName) -> (r: &'static str)
    ensures
        r@ == command_help_text(c),
{
    match c {
        CommandName::Get => GET_HELP,
        CommandName::SetValue => SET_HELP,
        CommandName::Clear => CLEAR_HELP,
        CommandName::Unset => UNSET_HELP,
        CommandName::Remove => REMOVE_HELP,
        CommandName::Has => HAS_HELP,
        CommandName::List => LIST_HELP,
        CommandName::Completion => COMPLETION_HELP,
        CommandName::Help => HELP_HELP,
    }
}

/// The operand-count usage diagnostic.
pub open spec fn command_usage_text(c: CommandName) -> Seq<u8> {
    str_bytes(USAGE@) + str_bytes("envq: error: expected operands: envq "@) + str_bytes(
        command_signature_text(c),
    ) + str_bytes("\n"@)
}

/// Formats a contract-compatible operand-count usage error.
pub fn command_usage_error(command_name: CommandName) -> (r: Vec<u8>)
    ensures
        r@ == command_usage_text(command_name),
{
    let mut out: Vec<u8> = Vec::new();
    push_str(&mut out, USAGE);
    push_str(&mut out, "envq: error: expected operands: envq ");
    push_str(&mut out, command_signature(command_name));
    push_str(&mut out, "\n");
    out
}

/// Returns top-level help output.
pub fn top_help() -> (r: Vec<u8>)
    ensures
        r@ == top_help_text(),
{
    let mut out: Vec<u8> = Vec::new();
    push_str(&mut out, USAGE);
    push_str(&mut out, TOP_HELP_BODY);
    push_str(&mut out, COMMAND_USAGE);
    out
}

/// The operand signature of each command.
pub open spec fn command_signature_text(c: CommandName) -> Seq<char> {
    match c {
        CommandName::Get => "get KEY PATH"@,
        CommandName::SetValue => "set KEY VALUE PATH"@,
        CommandName::Clear => "clear KEY PATH"@,
        CommandName::Unset => "unset KEY PATH"@,
        CommandName::Remove => "remove KEY PATH"@,
        CommandName::Has => "has KEY PATH"@,
        CommandName::List => "list PATH"@,
        CommandName::Completion => "completion {bash,zsh,fish,powershell,pwsh}"@,
        CommandName::Help => "help [COMMAND]"@,
    }
}

/// Returns the operand signature shown in usage errors.
pub fn command_signature(command_name: CommandName) -> (r: &'static str)
    ensures
        r@ == command_signature_text(command_name),
{
    match command_name {
        CommandName::Get => "get KEY PATH",
        CommandName::SetValue => "set KEY VALUE PATH",
        CommandName::Clear => "clear KEY PATH",
        CommandName::Unset => "unset KEY PATH",
        CommandName::Remove => "remove KEY PATH",
        CommandName::Has => "has KEY PATH",
        CommandName::List => "list PATH",
        CommandName::Completion => "completion {bash,zsh,fish,powershell,pwsh}",
        CommandName::Help => "help [COMMAND]",
    }
}

/// `t` holds the bytes `p` from position `i` on.
pub open spec fn occurs_at(t: Seq<u8>, p: Seq<u8>, i: int) -> bool {
    0 <= i && i + p.len() <= t.len() && t.subrange(i, i + p.len()) == p
}

proof fn lemma_str_bytes_concat(a: Seq<char>, b: Seq<char>)
    ensures
        str_bytes(a + b) == str_bytes(a) + str_bytes(b),
    decreases a.len(),
{
    if a.len() == 0 {
        assert(a + b =~= b);
        assert(str_bytes(a) + str_bytes(b) =~= str_bytes(b));
    } else {
        lemma_str_bytes_concat(a.drop_first(), b);
        assert((a + b).drop_first() =~= a.drop_first() + b);
        assert((a + b)[0] == a[0]);
        assert(str_bytes(a + b) =~= str_bytes(a) + str_bytes(b));
    }
}

/// Text that occurs in a string occurs in its UTF-8 bytes.
proof fn lemma_occurs_in_bytes(t: Seq<char>, p: Seq<char>, k: int)
    requires
        0 <= k,
        k + p.len() <= t.len(),
        t.subrange(k, k + p.len()) == p,
    ensures
        occurs_at(str_bytes(t), str_bytes(p), str_bytes(t.subrange(0, k)).len() as int),
{
    let pre = t.subrange(0, k);
    let post = t.subrange(k + p.len(), t.len() as int);
    assert(t =~= pre + p + post);
    lemma_str_bytes_concat(pre + p, post);
    lemma_str_bytes_concat(pre, p);
    let n = str_bytes(pre).len() as int;
    assert(str_bytes(t).subrange(n, n + str_bytes(p).len()) =~= str_bytes(p));
}

/// The top-level help lists every command: for each command, one of its lines
/// is two spaces and then the command's signature, the one that usage errors
/// show.
pub proof fn law_top_help_lists_commands(c: CommandName)
    ensures
        exists|i: int| occurs_at(top_help_text(), str_bytes("\n  "@ + command_signature_text(c)), i),
{
    reveal_strlit("commands:\n  envq [--version] [--quiet]\n  get KEY PATH\n  set KEY VALUE PATH [--stdout|--diff] [--check]\n  set KEY - PATH [--stdout|--diff] [--check]\n  clear KEY PATH [--stdout|--diff] [--check]\n  unset KEY PATH [--stdout|--diff] [--check]\n  remove KEY PATH [--stdout|--diff] [--check]\n  has KEY PATH\n  list PATH [--json|--yaml|--names] [--unique]\n  completion {bash,zsh,fish,powershell,pwsh}\n  help [COMMAND]\n");
    reveal_strlit("\n  ");
    let sig = command_signature_text(c);
    let k: int = match c {
        CommandName::Get => {
            reveal_strlit("get KEY PATH");
            38
        },
        CommandName::SetValue => {
            reveal_strlit("set KEY VALUE PATH");
            53
        },
        CommandName::Clear => {
            reveal_strlit("clear KEY PATH");
            147
        },
        CommandName::Unset => {
            reveal_strlit("unset KEY PATH");
            192
        },
        CommandName::Remove => {
            reveal_strlit("remove KEY PATH");
            237
        },
        CommandName::Has => {
            reveal_strlit("has KEY PATH");
            283
        },
        CommandName::List => {
            reveal_strlit("list PATH");
            298
        },
        CommandName::Completion => {
            reveal_strlit("completion {bash,zsh,fish,powershell,pwsh}");
            345
        },
        CommandName::Help => {
            reveal_strlit("help [COMMAND]");
            390
        },
    };
    let line = "\n  "@ + sig;
    let cu = COMMAND_USAGE@;
    assert(cu.subrange(k, k + line.len()) =~= line);
    lemma_occurs_in_bytes(cu, line, k);
    let head = str_bytes(USAGE@) + str_bytes(TOP_HELP_BODY@);
    let j = str_bytes(cu.subrange(0, k)).len() as int;
    let p = str_bytes(line);
    assert(top_help_text() == head + str_bytes(cu));
    assert(top_help_text().subrange(head.len() + j, head.len() + j + p.len()) =~= str_bytes(
        cu,
    ).subrange(j, j + p.len()));
    assert(occurs_at(top_help_text(), p, head.len() + j));
}

/// The `--version` output.
pub open spec fn version_text() -> Seq<u8> {
    str_bytes("envq "@) + str_bytes(VERSION@) + str_bytes("\n"@)
}

/// Formats the `--version` output.
pub fn version_message() -> (r: Vec<u8>)
    ensures
        r@ == version_text(),
{
    let mut out: Vec<u8> = Vec::new();
    push_str(&mut out, "envq ");
    push_str(&mut out, VERSION);
    push_str(&mut out, "\n");
    out
}

} // verus!
