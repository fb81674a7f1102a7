//! Global options, command name, operands and their option tails.
use vstd::prelude::*;
use vstd::utf8::{decode_utf8, valid_utf8};

use crate::bytes::{bytes_eq, bytes_list, copy_list, slice_to_vec};
use crate::cli::completion::{
    command_name_list, command_names, completion_shell, completion_shell_result, joined,
    lemma_same_bytes_same_text, push_joined,
};
use crate::cli::spec::mutation_tail_view;
use crate::cli::help::{
    command_usage_error, command_usage_text, top_help, top_help_text, version_message,
    version_text, USAGE,
};
use crate::cli::tail::{
    list_replay, mutation_replay, plain_operands, prepared_list_operands, prepared_list_spec, prepared_mutation_operands,
    prepared_mutation_spec, prepared_view, PreparedView,
};
use crate::cli::types::{
    command_named, command_spelling, is_mutating, operand_count_of, Command, CommandName, CommandView, ControlView,
    GlobalOptions, HelpRequested, ListOutputFormat, MutationMode, MutationOptions, ParseControl, ParsedCommand,
    PreparedOperands, UsageError,
};
use crate::cli::util::key_operand;
use crate::diagnostics::{push_str, str_bytes};
use crate::std_support::{debug_quoted, debug_string, lossy_string, utf8_lossy, utf8_str};

verus! {

/// The diagnostic for an unknown command name.
pub open spec fn invalid_choice_text(argument: Seq<u8>) -> Seq<u8> {
    if valid_utf8(argument) {
        str_bytes(USAGE@) + str_bytes("envq: error: argument command: invalid choice: '"@)
            + str_bytes(decode_utf8(argument)) + str_bytes("' (choose from "@) + joined(
            command_name_list(),
            ", "@,
        ) + str_bytes(")\n"@)
    } else {
        str_bytes(USAGE@) + str_bytes("envq: error: argument command: invalid choice: "@)
            + str_bytes(debug_quoted(utf8_lossy(argument))) + str_bytes("\n"@)
    }
}

/// The command an argument names, or the diagnostic for it.
pub open spec fn namespace_spec(argument: Seq<u8>) -> Result<CommandName, Seq<u8>> {
    if valid_utf8(argument) && command_named(decode_utf8(argument)) is Some {
        Ok(command_named(decode_utf8(argument)).unwrap())
    } else {
        Err(invalid_choice_text(argument))
    }
}

/// How the operands of a command split into operands and options.
pub open spec fn prepared_spec(c: CommandName, operands: Seq<Seq<u8>>) -> Result<
    PreparedView,
    ControlView,
> {
    if is_mutating(c) {
        prepared_mutation_spec(c, operands)
    } else if c == CommandName::List {
        prepared_list_spec(c, operands)
    } else {
        Ok(plain_operands(operands))
    }
}

/// Whether a command received the operands it needs.
pub open spec fn expected_operand_count(c: CommandName, n: int) -> bool {
    if c == CommandName::Help {
        n <= 1
    } else {
        n == operand_count_of(c)
    }
}

/// The command built from its operands and options.
pub open spec fn make_command_spec(c: CommandName, p: PreparedView) -> Result<
    CommandView,
    ControlView,
> {
    let ops = p.0;
    match c {
        CommandName::Get => Ok(CommandView::Get { key: utf8_lossy(ops[0]), path: ops[1] }),
        CommandName::SetValue => Ok(
            CommandView::SetValue {
                key: utf8_lossy(ops[0]),
                value: ops[1],
                path: ops[2],
                options: p.1,
            },
        ),
        CommandName::Clear => Ok(
            CommandView::Clear { key: utf8_lossy(ops[0]), path: ops[1], options: p.1 },
        ),
        CommandName::Unset | CommandName::Remove => Ok(
            CommandView::Unset { key: utf8_lossy(ops[0]), path: ops[1], options: p.1 },
        ),
        CommandName::Has => Ok(CommandView::Has { key: utf8_lossy(ops[0]), path: ops[1] }),
        CommandName::List => Ok(CommandView::List { path: ops[0], options: p.2 }),
        CommandName::Completion => match completion_shell_result(ops[0]) {
            Ok(shell) => Ok(CommandView::Completion { shell }),
            Err(e) => Err(e),
        },
        CommandName::Help => Ok(
            CommandView::Help {
                topic: if ops.len() == 0 {
                    None
                } else {
                    Some(utf8_lossy(ops[0]))
                },
            },
        ),
    }
}

/// What the parser makes of the command at `argv[i]` and what follows it.
pub open spec fn command_at_spec(argv: Seq<Seq<u8>>, i: int) -> Result<CommandView, ControlView> {
    match namespace_spec(argv[i]) {
        Err(m) => Err(ControlView::Usage(m)),
        Ok(c) => match prepared_spec(c, argv.subrange(i + 1, argv.len() as int)) {
            Err(e) => Err(e),
            Ok(p) => if !expected_operand_count(c, p.0.len() as int) {
                Err(ControlView::Usage(command_usage_text(c)))
            } else {
                make_command_spec(c, p)
            },
        },
    }
}

/// The options accepted before the command.
pub open spec fn global_flag(a: Seq<u8>) -> bool {
    a == str_bytes("--quiet"@) || a == str_bytes("--version"@) || a == str_bytes("--help"@) || a
        == str_bytes("-h"@)
}

/// Global options from `argv[i]` on, then the command.
pub open spec fn global_scan(argv: Seq<Seq<u8>>, i: nat, quiet: bool) -> Result<
    (CommandView, bool),
    ControlView,
>
    decreases argv.len() - i,
{
    if i >= argv.len() {
        Err(ControlView::Help(top_help_text()))
    } else if argv[i as int] == str_bytes("--quiet"@) {
        global_scan(argv, i + 1, true)
    } else if argv[i as int] == str_bytes("--version"@) {
        Err(ControlView::Help(version_text()))
    } else if argv[i as int] == str_bytes("--help"@) || argv[i as int] == str_bytes("-h"@) {
        Err(ControlView::Help(top_help_text()))
    } else {
        match command_at_spec(argv, i as int) {
            Ok(c) => Ok((c, quiet)),
            Err(e) => Err(e),
        }
    }
}

/// What the parser makes of the arguments: a command and whether `--quiet`
/// preceded it, or help text, or a usage diagnostic.
pub open spec fn parse_spec(argv: Seq<Seq<u8>>) -> Result<(CommandView, bool), ControlView> {
    if argv.len() == 0 {
        Err(ControlView::Help(top_help_text()))
    } else {
        global_scan(argv, 0, false)
    }
}

/// The value of a parse result.
pub open spec fn parsed_view(r: Result<ParsedCommand, ParseControl>) -> Result<
    (CommandView, bool),
    ControlView,
> {
    match r {
        Ok(p) => Ok((p.command@, p.global_options.quiet)),
        Err(e) => Err(e@),
    }
}

/// Help output carrying `message`.
fn help_control(message: Vec<u8>) -> (r: ParseControl)
    ensures
        r@ == ControlView::Help(message@),
{
    ParseControl::Help(HelpRequested { message })
}

/// Parses global options, command name, operands, and option tails. `argv`
/// holds the raw bytes of each argument, without the executable name.
pub fn parse_command(argv: &Vec<Vec<u8>>) -> (r: Result<ParsedCommand, ParseControl>)
    ensures
        parsed_view(r) == parse_spec(bytes_list(argv@)),
{
    let ghost args = bytes_list(argv@);
    if argv.len() == 0 {
        return Err(help_control(top_help()));
    }
    let mut index: usize = 0;
    let mut quiet = false;
    while index < argv.len()
        invariant
            index <= argv@.len(),
            args == bytes_list(argv@),
            args.len() > 0,
            parse_spec(args) == global_scan(args, index as nat, quiet),
        ensures
            index <= argv@.len(),
            parse_spec(args) == global_scan(args, index as nat, quiet),
            index < argv@.len() ==> !global_flag(args[index as int]),
        decreases argv.len() - index,
    {
        let argument = argv[index].as_slice();
        assert(argument@ == args[index as int]);
        if bytes_eq(argument, "--quiet".as_bytes()) {
            quiet = true;
            index = index + 1;
        } else if bytes_eq(argument, "--version".as_bytes()) {
            return Err(help_control(version_message()));
        } else if bytes_eq(argument, "--help".as_bytes()) || bytes_eq(argument, "-h".as_bytes()) {
            return Err(help_control(top_help()));
        } else {
            break ;
        }
    }
    if index >= argv.len() {
        return Err(help_control(top_help()));
    }
    let command = command_at(argv, index);
    match command {
        Ok(command) => Ok(ParsedCommand { command, global_options: GlobalOptions { quiet } }),
        Err(e) => Err(e),
    }
}

/// The value of a command result.
pub open spec fn command_result_view(r: Result<Command, ParseControl>) -> Result<
    CommandView,
    ControlView,
> {
    match r {
        Ok(c) => Ok(c@),
        Err(e) => Err(e@),
    }
}

/// Parses the command at `argv[index]` and its operands.
fn command_at(argv: &Vec<Vec<u8>>, index: usize) -> (r: Result<Command, ParseControl>)
    requires
        index < argv@.len(),
    ensures
        command_result_view(r) == command_at_spec(bytes_list(argv@), index as int),
{
    let ghost args = bytes_list(argv@);
    let argc = argv.len();
    let command_name = match namespace_command(argv[index].as_slice()) {
        Ok(c) => c,
        Err(e) => return Err(e),
    };
    let operands = copy_list(argv.as_slice(), index + 1, argc);
    let prepared = prepared_operands(command_name, operands);
    let prepared_operands = match prepared {
        Ok(p) => p,
        Err(e) => return Err(e),
    };
    if !has_expected_operand_count(command_name, prepared_operands.operands.as_slice()) {
        return Err(ParseControl::Usage(UsageError { message: command_usage_error(command_name) }));
    }
    make_command(command_name, prepared_operands)
}

/// Splits option tails off the operands of commands that accept them.
pub fn prepared_operands(command_name: CommandName, operands: Vec<Vec<u8>>) -> (r: Result<
    PreparedOperands,
    ParseControl,
>)
    ensures
        prepared_view(r) == prepared_spec(command_name, bytes_list(operands@)),
{
    if command_name.is_mutating() {
        return prepared_mutation_operands(command_name, operands);
    }
    if command_name == CommandName::List {
        return prepared_list_operands(command_name, operands);
    }
    Ok(PreparedOperands::new(operands))
}

/// Reads a command name, or reports an invalid choice.
pub fn namespace_command(argument: &[u8]) -> (r: Result<CommandName, ParseControl>)
    ensures
        match r {
            Ok(c) => namespace_spec(argument@) == Ok::<CommandName, Seq<u8>>(c),
            Err(e) => namespace_spec(argument@) matches Err(m) && e@ == ControlView::Usage(m),
        },
{
    match utf8_str(argument) {
        Some(value) => {
            proof {
                vstd::utf8::decode_utf8_encode_utf8(argument@);
            }
            if let Some(command_name) = CommandName::from_str(value) {
                return Ok(command_name);
            }
            let names = command_names();
            let mut message: Vec<u8> = Vec::new();
            push_str(&mut message, USAGE);
            push_str(&mut message, "envq: error: argument command: invalid choice: '");
            push_str(&mut message, value);
            push_str(&mut message, "' (choose from ");
            push_joined(&mut message, names.as_slice(), ", ");
            push_str(&mut message, ")\n");
            Err(ParseControl::Usage(UsageError { message }))
        },
        None => {
            let text = lossy_string(argument);
            let quoted = debug_string(text.as_str());
            let mut message: Vec<u8> = Vec::new();
            push_str(&mut message, USAGE);
            push_str(&mut message, "envq: error: argument command: invalid choice: ");
            push_str(&mut message, quoted.as_str());
            push_str(&mut message, "\n");
            Err(ParseControl::Usage(UsageError { message }))
        },
    }
}

/// Whether a command received the operands it needs.
pub fn has_expected_operand_count(command_name: CommandName, operands: &[Vec<u8>]) -> (r: bool)
    ensures
        r == expected_operand_count(command_name, operands@.len() as int),
{
    if command_name == CommandName::Help {
        operands.len() <= 1
    } else {
        operands.len() == command_name.operand_count()
    }
}

/// Builds the command from its operands and options.
pub fn make_command(command_name: CommandName, prepared_operands: PreparedOperands) -> (r: Result<
    Command,
    ParseControl,
>)
    requires
        expected_operand_count(command_name, prepared_operands.operands@.len() as int),
    ensures
        command_result_view(r) == make_command_spec(
            command_name,
            (
                bytes_list(prepared_operands.operands@),
                prepared_operands.mutation_options,
                prepared_operands.list_options,
            ),
        ),
{
    let operands = &prepared_operands.operands;
    let ghost ops = bytes_list(operands@);
    match command_name {
        CommandName::Get => Ok(
            Command::Get {
                key: key_operand(operands[0].as_slice()),
                path: slice_to_vec(operands[1].as_slice()),
            },
        ),
        CommandName::SetValue => Ok(
            Command::SetValue {
                key: key_operand(operands[0].as_slice()),
                value: slice_to_vec(operands[1].as_slice()),
                path: slice_to_vec(operands[2].as_slice()),
                options: prepared_operands.mutation_options,
            },
        ),
        CommandName::Clear => Ok(
            Command::Clear {
                key: key_operand(operands[0].as_slice()),
                path: slice_to_vec(operands[1].as_slice()),
                options: prepared_operands.mutation_options,
            },
        ),
        CommandName::Unset | CommandName::Remove => Ok(
            Command::Unset {
                key: key_operand(operands[0].as_slice()),
                path: slice_to_vec(operands[1].as_slice()),
                options: prepared_operands.mutation_options,
            },
        ),
        CommandName::Has => Ok(
            Command::Has {
                key: key_operand(operands[0].as_slice()),
                path: slice_to_vec(operands[1].as_slice()),
            },
        ),
        CommandName::List => Ok(
            Command::List {
                path: slice_to_vec(operands[0].as_slice()),
                options: prepared_operands.list_options,
            },
        ),
        CommandName::Completion => match completion_shell(operands[0].as_slice()) {
            Ok(shell) => Ok(Command::Completion { shell }),
            Err(e) => Err(e),
        },
        CommandName::Help => {
            if operands.len() == 0 {
                Ok(Command::Help { topic: None })
            } else {
                Ok(Command::Help { topic: Some(key_operand(operands[0].as_slice())) })
            }
        },
    }
}

/// Options are read only after the operands a command needs, so any bytes in
/// operand position are operands: `set KEY VALUE PATH` keeps all three as
/// given (the key as text) and uses the default options, whatever the value
/// looks like, `--stdout` included.
pub proof fn law_operands_before_options(key: Seq<u8>, value: Seq<u8>, path: Seq<u8>)
    ensures
        parse_spec(seq![str_bytes("set"@), key, value, path]) == Ok::<
            (CommandView, bool),
            ControlView,
        >(
            (
                CommandView::SetValue {
                    key: utf8_lossy(key),
                    value,
                    path,
                    options: MutationOptions { mode: MutationMode::Write, check: false },
                },
                false,
            ),
        ),
{
    let argv = seq![str_bytes("set"@), key, value, path];
    reveal_strlit("set");
    reveal_strlit("get");
    reveal_strlit("--quiet");
    reveal_strlit("--version");
    reveal_strlit("--help");
    reveal_strlit("-h");
    crate::cli::completion::lemma_same_bytes_same_text("set"@, "--quiet"@);
    crate::cli::completion::lemma_same_bytes_same_text("set"@, "--version"@);
    crate::cli::completion::lemma_same_bytes_same_text("set"@, "--help"@);
    crate::cli::completion::lemma_same_bytes_same_text("set"@, "-h"@);
    assert("set"@ != "--quiet"@);
    assert("set"@ != "--version"@);
    assert("set"@ != "--help"@);
    assert("set"@ != "-h"@);
    vstd::utf8::encode_utf8_valid_utf8("set"@);
    vstd::utf8::encode_utf8_decode_utf8("set"@);
    assert("set"@ != "get"@) by {
        assert("set"@[0] != "get"@[0]);
    }
    assert(command_named("set"@) == Some(CommandName::SetValue));
    assert(namespace_spec(argv[0]) == Ok::<CommandName, Seq<u8>>(CommandName::SetValue));
    assert(argv.subrange(1, 4) =~= seq![key, value, path]);
}

/// Whether a diagnostic begins with the usage line.
pub open spec fn begins_with_usage(m: Seq<u8>) -> bool {
    &&& m.len() >= str_bytes(USAGE@).len()
    &&& forall|k: int| 0 <= k < str_bytes(USAGE@).len() ==> #[trigger] m[k] == str_bytes(USAGE@)[k]
}

proof fn lemma_mutation_replay_usage(
    c: CommandName,
    tail: Seq<Seq<u8>>,
    i: nat,
    mode: MutationMode,
    check: bool,
)
    ensures
        begins_with_usage(mutation_replay(c, tail, i, mode, check)),
    decreases tail.len() - i,
{
    if i < tail.len() {
        lemma_mutation_replay_usage(c, tail, i + 1, MutationMode::Stdout, check);
        lemma_mutation_replay_usage(c, tail, i + 1, MutationMode::Diff, check);
        lemma_mutation_replay_usage(c, tail, i + 1, mode, true);
    }
}

proof fn lemma_list_replay_usage(
    c: CommandName,
    tail: Seq<Seq<u8>>,
    i: nat,
    format: ListOutputFormat,
    unique: bool,
)
    ensures
        begins_with_usage(list_replay(c, tail, i, format, unique)),
    decreases tail.len() - i,
{
    if i < tail.len() {
        lemma_list_replay_usage(c, tail, i + 1, ListOutputFormat::Json, unique);
        lemma_list_replay_usage(c, tail, i + 1, ListOutputFormat::Yaml, unique);
        lemma_list_replay_usage(c, tail, i + 1, ListOutputFormat::Names, unique);
        lemma_list_replay_usage(c, tail, i + 1, format, true);
    }
}

proof fn lemma_scan_usage(argv: Seq<Seq<u8>>, i: nat, quiet: bool)
    ensures
        global_scan(argv, i, quiet) matches Err(ControlView::Usage(m)) ==> begins_with_usage(m),
    decreases argv.len() - i,
{
    if i < argv.len() {
        if argv[i as int] == str_bytes("--quiet"@) {
            lemma_scan_usage(argv, i + 1, true);
        } else if !global_flag(argv[i as int]) {
            let operands = argv.subrange(i as int + 1, argv.len() as int);
            let tail_of = |c: CommandName| operands.subrange(
                operand_count_of(c) as int,
                operands.len() as int,
            );
            match namespace_spec(argv[i as int]) {
                Ok(c) => {
                    lemma_mutation_replay_usage(c, tail_of(c), 0, MutationMode::Write, false);
                    lemma_list_replay_usage(c, tail_of(c), 0, ListOutputFormat::Table, false);
                },
                Err(m) => {},
            }
        }
    }
}

/// Usage errors print usage: every diagnostic for arguments the parser
/// rejects begins with the usage line.
pub proof fn law_usage_errors_start_with_usage(argv: Seq<Seq<u8>>)
    ensures
        parse_spec(argv) matches Err(ControlView::Usage(m)) ==> begins_with_usage(m),
{
    lemma_scan_usage(argv, 0, false);
}

/// `remove` is an alias of `unset`: the same operands and options build the
/// same command.
pub proof fn law_remove_is_unset(p: PreparedView)
    ensures
        make_command_spec(CommandName::Remove, p) == make_command_spec(CommandName::Unset, p),
{
}

/// The result of a parse with the quiet setting turned on.
pub open spec fn with_quiet(r: Result<(CommandView, bool), ControlView>) -> Result<(CommandView, bool), ControlView> {
    match r {
        Ok((c, _)) => Ok((c, true)),
        Err(e) => Err(e),
    }
}

/// Scanning behind one more leading `--quiet` finds the same command, quiet.
proof fn lemma_scan_behind_quiet(rest: Seq<Seq<u8>>, k: nat, q: bool)
    ensures
        global_scan(seq![str_bytes("--quiet"@)] + rest, k + 1, true) == with_quiet(global_scan(rest, k, q)),
    decreases rest.len() - k,
{
    let argv = seq![str_bytes("--quiet"@)] + rest;
    if k < rest.len() {
        assert(argv[k + 1 as int] == rest[k as int]);
        if rest[k as int] == str_bytes("--quiet"@) {
            lemma_scan_behind_quiet(rest, k + 1, true);
        } else if !global_flag(rest[k as int]) {
            assert(argv.subrange(k + 2 as int, argv.len() as int) =~= rest.subrange(k + 1 as int, rest.len() as int));
        }
    }
}

/// `--quiet` in front of the arguments changes nothing but the quiet setting:
/// the same command (now quiet), or the same help or diagnostic.
pub proof fn law_quiet_prefix(rest: Seq<Seq<u8>>)
    ensures
        parse_spec(seq![str_bytes("--quiet"@)] + rest) == with_quiet(parse_spec(rest)),
{
    let argv = seq![str_bytes("--quiet"@)] + rest;
    assert(argv[0] == str_bytes("--quiet"@));
    lemma_scan_behind_quiet(rest, 0, false);
}

/// `remove` parses as `unset`: wherever `unset` with the same arguments
/// parses to a command, `remove` parses to that same command.
pub proof fn law_remove_parses_as_unset(rest: Seq<Seq<u8>>)
    ensures
        parse_spec(seq![str_bytes("unset"@)] + rest) matches Ok(p) ==> parse_spec(
            seq![str_bytes("remove"@)] + rest,
        ) == Ok::<(CommandView, bool), ControlView>(p),
{
    let a = seq![str_bytes("unset"@)] + rest;
    let b = seq![str_bytes("remove"@)] + rest;
    reveal_strlit("unset");
    reveal_strlit("remove");
    reveal_strlit("--quiet");
    reveal_strlit("--version");
    reveal_strlit("--help");
    reveal_strlit("-h");
    reveal_strlit("get");
    reveal_strlit("set");
    reveal_strlit("clear");
    lemma_not_global_flag("unset"@);
    lemma_not_global_flag("remove"@);
    vstd::utf8::encode_utf8_valid_utf8("unset"@);
    vstd::utf8::encode_utf8_valid_utf8("remove"@);
    vstd::utf8::encode_utf8_decode_utf8("unset"@);
    vstd::utf8::encode_utf8_decode_utf8("remove"@);
    assert(a[0] == str_bytes("unset"@));
    assert(b[0] == str_bytes("remove"@));
    assert(a.subrange(1, a.len() as int) =~= rest);
    assert(b.subrange(1, b.len() as int) =~= rest);
    assert(namespace_spec(a[0]) == Ok::<CommandName, Seq<u8>>(CommandName::Unset));
    assert(namespace_spec(b[0]) == Ok::<CommandName, Seq<u8>>(CommandName::Remove));
    lemma_remove_prepared(rest);
    if let Ok(p) = prepared_spec(CommandName::Unset, rest) {
        law_remove_is_unset(p);
    }
}

/// A word other than the global options is not one of them.
proof fn lemma_not_global_flag(word: Seq<char>)
    requires
        word != "--quiet"@,
        word != "--version"@,
        word != "--help"@,
        word != "-h"@,
    ensures
        !global_flag(str_bytes(word)),
{
    lemma_same_bytes_same_text(word, "--quiet"@);
    lemma_same_bytes_same_text(word, "--version"@);
    lemma_same_bytes_same_text(word, "--help"@);
    lemma_same_bytes_same_text(word, "-h"@);
}

/// `remove` and `unset` split their operands and options alike.
proof fn lemma_remove_prepared(operands: Seq<Seq<u8>>)
    ensures
        prepared_spec(CommandName::Unset, operands) matches Ok(p) ==> prepared_spec(
            CommandName::Remove,
            operands,
        ) == Ok::<PreparedView, ControlView>(p),
{
    assert(mutation_tail_view(command_spelling(CommandName::Remove)).args == mutation_tail_view(
        command_spelling(CommandName::Unset),
    ).args);
}

} // verus!
