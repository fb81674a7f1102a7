//! Options that follow the required operands of `set`, `clear`, `unset`,
//! `remove` and `list`.
//!
//! Clap decides whether a tail is acceptable; when it is not, the tail is
//! replayed here to pick the exact diagnostic.
use vstd::prelude::*;

use crate::bytes::{bytes_eq, bytes_list, copy_list};
use crate::cli::help::{command_usage_error, command_usage_text, USAGE};
use crate::cli::spec::{
    clap_flags, clap_tail_flags, list_tail_spec, list_tail_view, mutation_tail_spec,
    mutation_tail_view, strings_view,
};
use crate::cli::types::{
    command_spelling, is_mutating, operand_count_of, CommandName, ControlView, ListOptions,
    ListOutputFormat, MutationMode, MutationOptions, ParseControl, PreparedOperands, UsageError,
};
use crate::diagnostics::{push_str, str_bytes};
use crate::std_support::{lossy_string, utf8_lossy};

verus! {

/// The lossy text of each argument.
pub open spec fn lossy_list(args: Seq<Seq<u8>>) -> Seq<Seq<char>> {
    args.map_values(|a: Seq<u8>| utf8_lossy(a))
}

/// Converts each argument to text, replacing invalid UTF-8.
pub fn lossy_strings(args: &[Vec<u8>]) -> (r: Vec<String>)
    ensures
        strings_view(r@) == lossy_list(bytes_list(args@)),
{
    let mut out: Vec<String> = Vec::new();
    let mut i: usize = 0;
    while i < args.len()
        invariant
            i <= args@.len(),
            strings_view(out@) == lossy_list(bytes_list(args@.subrange(0, i as int))),
        decreases args.len() - i,
    {
        let ghost before = out@;
        out.push(lossy_string(args[i].as_slice()));
        proof {
            assert(strings_view(out@) =~= strings_view(before).push(utf8_lossy(args@[i as int]@)));
            assert(bytes_list(args@.subrange(0, i + 1)) =~= bytes_list(
                args@.subrange(0, i as int),
            ).push(args@[i as int]@));
            assert(lossy_list(bytes_list(args@.subrange(0, i + 1))) =~= lossy_list(
                bytes_list(args@.subrange(0, i as int)),
            ).push(utf8_lossy(args@[i as int]@)));
        }
        i = i + 1;
    }
    proof {
        assert(args@.subrange(0, args@.len() as int) =~= args@);
    }
    out
}

/// The diagnostic for two output options.
pub open spec fn output_conflict_text(c: CommandName) -> Seq<u8> {
    str_bytes(USAGE@) + str_bytes("envq: error: choose only one output option for envq "@)
        + str_bytes(command_spelling(c)) + str_bytes("\n"@)
}

/// The diagnostic for two list formats.
pub open spec fn format_conflict_text(c: CommandName) -> Seq<u8> {
    str_bytes(USAGE@) + str_bytes("envq: error: choose only one list output format for envq "@)
        + str_bytes(command_spelling(c)) + str_bytes("\n"@)
}

/// The diagnostic for a repeated flag.
pub open spec fn duplicate_option_text(c: CommandName, option: Seq<char>) -> Seq<u8> {
    str_bytes(USAGE@) + str_bytes("envq: error: duplicate option for envq "@) + str_bytes(
        command_spelling(c),
    ) + str_bytes(": "@) + str_bytes(option) + str_bytes("\n"@)
}

/// The diagnostic for a rejected mutation tail, replayed from `tail[i]` on
/// with the output mode and check flag seen so far.
pub open spec fn mutation_replay(
    c: CommandName,
    tail: Seq<Seq<u8>>,
    i: nat,
    mode: MutationMode,
    check: bool,
) -> Seq<u8>
    decreases tail.len() - i,
{
    if i >= tail.len() {
        command_usage_text(c)
    } else if tail[i as int] == str_bytes("--stdout"@) {
        if mode != MutationMode::Write {
            output_conflict_text(c)
        } else {
            mutation_replay(c, tail, i + 1, MutationMode::Stdout, check)
        }
    } else if tail[i as int] == str_bytes("--diff"@) {
        if mode != MutationMode::Write {
            output_conflict_text(c)
        } else {
            mutation_replay(c, tail, i + 1, MutationMode::Diff, check)
        }
    } else if tail[i as int] == str_bytes("--check"@) {
        if check {
            duplicate_option_text(c, "--check"@)
        } else {
            mutation_replay(c, tail, i + 1, mode, true)
        }
    } else {
        command_usage_text(c)
    }
}

/// The diagnostic for a rejected list tail, replayed from `tail[i]` on.
pub open spec fn list_replay(
    c: CommandName,
    tail: Seq<Seq<u8>>,
    i: nat,
    format: ListOutputFormat,
    unique: bool,
) -> Seq<u8>
    decreases tail.len() - i,
{
    if i >= tail.len() {
        command_usage_text(c)
    } else if tail[i as int] == str_bytes("--json"@) {
        if format != ListOutputFormat::Table {
            format_conflict_text(c)
        } else {
            list_replay(c, tail, i + 1, ListOutputFormat::Json, unique)
        }
    } else if tail[i as int] == str_bytes("--yaml"@) {
        if format != ListOutputFormat::Table {
            format_conflict_text(c)
        } else {
            list_replay(c, tail, i + 1, ListOutputFormat::Yaml, unique)
        }
    } else if tail[i as int] == str_bytes("--names"@) {
        if format != ListOutputFormat::Table {
            format_conflict_text(c)
        } else {
            list_replay(c, tail, i + 1, ListOutputFormat::Names, unique)
        }
    } else if tail[i as int] == str_bytes("--unique"@) {
        if unique {
            duplicate_option_text(c, "--unique"@)
        } else {
            list_replay(c, tail, i + 1, format, true)
        }
    } else {
        command_usage_text(c)
    }
}

/// Mutation options for the flags clap reported.
pub open spec fn mutation_options_from_flags(flags: (bool, bool, bool)) -> MutationOptions {
    MutationOptions {
        mode: if flags.0 {
            MutationMode::Stdout
        } else if flags.1 {
            MutationMode::Diff
        } else {
            MutationMode::Write
        },
        check: flags.2,
    }
}

/// List options for the flags clap reported.
pub open spec fn list_options_from_flags(flags: (bool, bool, bool, bool)) -> ListOptions {
    ListOptions {
        output_format: if flags.0 {
            ListOutputFormat::Json
        } else if flags.1 {
            ListOutputFormat::Yaml
        } else if flags.2 {
            ListOutputFormat::Names
        } else {
            ListOutputFormat::Table
        },
        unique: flags.3,
    }
}

/// Operands split from their tail options, as values.
pub type PreparedView = (Seq<Seq<u8>>, MutationOptions, ListOptions);

/// The value of a preparation result.
pub open spec fn prepared_view(r: Result<PreparedOperands, ParseControl>) -> Result<
    PreparedView,
    ControlView,
> {
    match r {
        Ok(p) => Ok((bytes_list(p.operands@), p.mutation_options, p.list_options)),
        Err(e) => Err(e@),
    }
}

/// Default options for the operands as given.
pub open spec fn plain_operands(operands: Seq<Seq<u8>>) -> PreparedView {
    (
        operands,
        MutationOptions { mode: MutationMode::Write, check: false },
        ListOptions { output_format: ListOutputFormat::Table, unique: false },
    )
}

/// How the operands of a mutating command split into operands and options.
pub open spec fn prepared_mutation_spec(c: CommandName, operands: Seq<Seq<u8>>) -> Result<
    PreparedView,
    ControlView,
> {
    let required = operand_count_of(c) as int;
    if operands.len() <= required {
        Ok(plain_operands(operands))
    } else {
        let tail = operands.subrange(required, operands.len() as int);
        match clap_flags(
            mutation_tail_view(command_spelling(c)).tail,
            mutation_tail_view(command_spelling(c)).args,
            lossy_list(tail),
        ) {
            Some(flags) => Ok(
                (
                    operands.subrange(0, required),
                    mutation_options_from_flags((flags[0], flags[1], flags[2])),
                    ListOptions { output_format: ListOutputFormat::Table, unique: false },
                ),
            ),
            None => Err(ControlView::Usage(mutation_replay(c, tail, 0, MutationMode::Write, false))),
        }
    }
}

/// How the operands of `list` split into the path and options.
pub open spec fn prepared_list_spec(c: CommandName, operands: Seq<Seq<u8>>) -> Result<
    PreparedView,
    ControlView,
> {
    let required = operand_count_of(c) as int;
    if operands.len() <= required {
        Ok(plain_operands(operands))
    } else {
        let tail = operands.subrange(required, operands.len() as int);
        match clap_flags(list_tail_view().tail, list_tail_view().args, lossy_list(tail)) {
            Some(flags) => Ok(
                (
                    operands.subrange(0, required),
                    MutationOptions { mode: MutationMode::Write, check: false },
                    list_options_from_flags((flags[0], flags[1], flags[2], flags[3])),
                ),
            ),
            None => Err(ControlView::Usage(list_replay(c, tail, 0, ListOutputFormat::Table, false))),
        }
    }
}

/// Parses trailing mutation options after the required operands.
pub fn prepared_mutation_operands(command_name: CommandName, operands: Vec<Vec<u8>>) -> (r: Result<
    PreparedOperands,
    ParseControl,
>)
    requires
        is_mutating(command_name),
    ensures
        prepared_view(r) == prepared_mutation_spec(command_name, bytes_list(operands@)),
{
    let required_operands = command_name.operand_count();
    if operands.len() <= required_operands {
        return Ok(PreparedOperands::new(operands));
    }
    let tail = copy_list(operands.as_slice(), required_operands, operands.len());
    let tail_text = lossy_strings(tail.as_slice());
    let spec = mutation_tail_spec(command_name);
    let verdict = clap_tail_flags(&spec, &tail_text);
    match verdict {
        Some(flags) => {
            let stdout = flags[0];
            let diff = flags[1];
            let check = flags[2];
            let mode = if stdout {
                MutationMode::Stdout
            } else if diff {
                MutationMode::Diff
            } else {
                MutationMode::Write
            };
            let kept = copy_list(operands.as_slice(), 0, required_operands);
            Ok(
                PreparedOperands {
                    operands: kept,
                    mutation_options: MutationOptions { mode, check },
                    list_options: ListOptions::default(),
                },
            )
        },
        None => Err(mutation_tail_error(command_name, tail.as_slice())),
    }
}

/// Parses trailing list options after the required path operand.
pub fn prepared_list_operands(command_name: CommandName, operands: Vec<Vec<u8>>) -> (r: Result<
    PreparedOperands,
    ParseControl,
>)
    ensures
        prepared_view(r) == prepared_list_spec(command_name, bytes_list(operands@)),
{
    let required_operands = command_name.operand_count();
    if operands.len() <= required_operands {
        return Ok(PreparedOperands::new(operands));
    }
    let tail = copy_list(operands.as_slice(), required_operands, operands.len());
    let tail_text = lossy_strings(tail.as_slice());
    let spec = list_tail_spec();
    let verdict = clap_tail_flags(&spec, &tail_text);
    match verdict {
        Some(flags) => {
            let json = flags[0];
            let yaml = flags[1];
            let names = flags[2];
            let unique = flags[3];
            let output_format = if json {
                ListOutputFormat::Json
            } else if yaml {
                ListOutputFormat::Yaml
            } else if names {
                ListOutputFormat::Names
            } else {
                ListOutputFormat::Table
            };
            let kept = copy_list(operands.as_slice(), 0, required_operands);
            Ok(
                PreparedOperands {
                    operands: kept,
                    mutation_options: MutationOptions::default(),
                    list_options: ListOptions { output_format, unique },
                },
            )
        },
        None => Err(list_tail_error(command_name, tail.as_slice())),
    }
}

/// A usage error carrying `message`.
fn usage(message: Vec<u8>) -> (r: ParseControl)
    ensures
        r@ == ControlView::Usage(message@),
{
    ParseControl::Usage(UsageError { message })
}

/// Replays a rejected mutation tail to pick its diagnostic.
pub fn mutation_tail_error(command_name: CommandName, tail: &[Vec<u8>]) -> (r: ParseControl)
    ensures
        r@ == ControlView::Usage(
            mutation_replay(command_name, bytes_list(tail@), 0, MutationMode::Write, false),
        ),
{
    let ghost t = bytes_list(tail@);
    let mut mode = MutationMode::Write;
    let mut check = false;
    let mut i: usize = 0;
    while i < tail.len()
        invariant
            i <= tail@.len(),
            t == bytes_list(tail@),
            mutation_replay(command_name, t, 0, MutationMode::Write, false) == mutation_replay(
                command_name,
                t,
                i as nat,
                mode,
                check,
            ),
        decreases tail.len() - i,
    {
        let option = tail[i].as_slice();
        assert(option@ == t[i as int]);
        if bytes_eq(option, "--stdout".as_bytes()) {
            if mode != MutationMode::Write {
                return mutation_output_conflict(command_name);
            }
            mode = MutationMode::Stdout;
        } else if bytes_eq(option, "--diff".as_bytes()) {
            if mode != MutationMode::Write {
                return mutation_output_conflict(command_name);
            }
            mode = MutationMode::Diff;
        } else if bytes_eq(option, "--check".as_bytes()) {
            if check {
                let mut message: Vec<u8> = Vec::new();
                push_str(&mut message, USAGE);
                push_str(&mut message, "envq: error: duplicate option for envq ");
                push_str(&mut message, command_name.as_str());
                push_str(&mut message, ": ");
                push_str(&mut message, "--check");
                push_str(&mut message, "\n");
                return usage(message);
            }
            check = true;
        } else {
            return usage(command_usage_error(command_name));
        }
        i = i + 1;
    }
    usage(command_usage_error(command_name))
}

/// Replays a rejected list tail to pick its diagnostic.
pub fn list_tail_error(command_name: CommandName, tail: &[Vec<u8>]) -> (r: ParseControl)
    ensures
        r@ == ControlView::Usage(
            list_replay(command_name, bytes_list(tail@), 0, ListOutputFormat::Table, false),
        ),
{
    let ghost t = bytes_list(tail@);
    let mut output_format = ListOutputFormat::Table;
    let mut unique = false;
    let mut i: usize = 0;
    while i < tail.len()
        invariant
            i <= tail@.len(),
            t == bytes_list(tail@),
            list_replay(command_name, t, 0, ListOutputFormat::Table, false) == list_replay(
                command_name,
                t,
                i as nat,
                output_format,
                unique,
            ),
        decreases tail.len() - i,
    {
        let option = tail[i].as_slice();
        assert(option@ == t[i as int]);
        if bytes_eq(option, "--json".as_bytes()) {
            if output_format != ListOutputFormat::Table {
                return list_format_conflict(command_name);
            }
            output_format = ListOutputFormat::Json;
        } else if bytes_eq(option, "--yaml".as_bytes()) {
            if output_format != ListOutputFormat::Table {
                return list_format_conflict(command_name);
            }
            output_format = ListOutputFormat::Yaml;
        } else if bytes_eq(option, "--names".as_bytes()) {
            if output_format != ListOutputFormat::Table {
                return list_format_conflict(command_name);
            }
            output_format = ListOutputFormat::Names;
        } else if bytes_eq(option, "--unique".as_bytes()) {
            if unique {
                let mut message: Vec<u8> = Vec::new();
                push_str(&mut message, USAGE);
                push_str(&mut message, "envq: error: duplicate option for envq ");
                push_str(&mut message, command_name.as_str());
                push_str(&mut message, ": ");
                push_str(&mut message, "--unique");
                push_str(&mut message, "\n");
                return usage(message);
            }
            unique = true;
        } else {
            return usage(command_usage_error(command_name));
        }
        i = i + 1;
    }
    usage(command_usage_error(command_name))
}

/// The diagnostic for both `--stdout` and `--diff`.
pub fn mutation_output_conflict(command_name: CommandName) -> (r: ParseControl)
    ensures
        r@ == ControlView::Usage(output_conflict_text(command_name)),
{
    let mut message: Vec<u8> = Vec::new();
    push_str(&mut message, USAGE);
    push_str(&mut message, "envq: error: choose only one output option for envq ");
    push_str(&mut message, command_name.as_str());
    push_str(&mut message, "\n");
    usage(message)
}

/// The diagnostic for two of `--json`, `--yaml` and `--names`.
pub fn list_format_conflict(command_name: CommandName) -> (r: ParseControl)
    ensures
        r@ == ControlView::Usage(format_conflict_text(command_name)),
{
    let mut message: Vec<u8> = Vec::new();
    push_str(&mut message, USAGE);
    push_str(&mut message, "envq: error: choose only one list output format for envq ");
    push_str(&mut message, command_name.as_str());
    push_str(&mut message, "\n");
    usage(message)
}

} // verus!
