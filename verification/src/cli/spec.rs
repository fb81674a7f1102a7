//! The clap description of the command surface, as plain values.
//!
//! The library describes every clap command it uses: the option tails of
//! mutating commands and of `list`, the completion shell operand, and the
//! whole surface from which completion scripts are generated. Clap decides on
//! those descriptions; its verdicts are named here, and what the library does
//! with them is verified in `tail` and `completion`.
use vstd::prelude::*;

use clap::builder::ValueParser;
use clap::ArgAction::SetTrue;
use clap::ValueHint::FilePath;
use clap::{Arg, Command as ClapCommand};
use clap_complete::aot::{generate, Shell};

use crate::bytes::str_eq;
use crate::cli::completion::{command_name_list, command_names, completion_shell_names, completion_shells};
use crate::cli::types::{command_spelling, CommandName, CompletionShell};

verus! {

/// The text views of a list of strings.
pub open spec fn strings_view(v: Seq<String>) -> Seq<Seq<char>> {
    v.map_values(|s: String| s@)
}

/// The text views of a list of string slices.
pub open spec fn strs_view(v: Seq<&str>) -> Seq<Seq<char>> {
    v.map_values(|s: &str| s@)
}

/// One argument of a clap command.
pub struct ArgDesc {
    /// The argument's id.
    pub id: &'static str,
    /// Its short option letter, if it has one.
    pub short: Option<char>,
    /// Its long option name, if it has one.
    pub long: Option<&'static str>,
    /// Whether it is a flag that is set by its presence.
    pub switch: bool,
    /// Whether it must be given.
    pub required: bool,
    /// Whether shells should complete it as a file path.
    pub file_path: bool,
    /// The only values it accepts, if it is restricted.
    pub choices: Option<Vec<&'static str>>,
    /// The group it belongs to, if any.
    pub group: Option<&'static str>,
}

/// [`ArgDesc`] as values.
pub struct ArgDescView {
    pub id: Seq<char>,
    pub short: Option<char>,
    pub long: Option<Seq<char>>,
    pub switch: bool,
    pub required: bool,
    pub file_path: bool,
    pub choices: Option<Seq<Seq<char>>>,
    pub group: Option<Seq<char>>,
}

pub open spec fn option_str_text(o: Option<&'static str>) -> Option<Seq<char>> {
    match o {
        Some(s) => Some(s@),
        None => None,
    }
}

impl View for ArgDesc {
    type V = ArgDescView;

    open spec fn view(&self) -> ArgDescView {
        ArgDescView {
            id: self.id@,
            short: self.short,
            long: option_str_text(self.long),
            switch: self.switch,
            required: self.required,
            file_path: self.file_path,
            choices: match self.choices {
                Some(c) => Some(strs_view(c@)),
                None => None,
            },
            group: option_str_text(self.group),
        }
    }
}

/// One clap command: its name and arguments. Of the arguments in one group
/// at most one may be given. Clap's own help and version flags are off.
pub struct CommandDesc {
    pub name: &'static str,
    /// Whether it parses a tail of arguments with no program name in front.
    pub tail: bool,
    /// Whether it is the top-level command, whose `help` subcommand is envq's own.
    pub root: bool,
    pub args: Vec<ArgDesc>,
}

/// [`CommandDesc`] as values.
pub struct CommandDescView {
    pub name: Seq<char>,
    pub tail: bool,
    pub root: bool,
    pub args: Seq<ArgDescView>,
}

pub open spec fn args_view(v: Seq<ArgDesc>) -> Seq<ArgDescView> {
    v.map_values(|a: ArgDesc| a@)
}

impl View for CommandDesc {
    type V = CommandDescView;

    open spec fn view(&self) -> CommandDescView {
        CommandDescView {
            name: self.name@,
            tail: self.tail,
            root: self.root,
            args: args_view(self.args@),
        }
    }
}

/// The whole command surface: the top-level command and its subcommands.
pub struct CommandSurface {
    pub root: CommandDesc,
    pub subcommands: Vec<CommandDesc>,
}

pub open spec fn commands_view(v: Seq<CommandDesc>) -> Seq<CommandDescView> {
    v.map_values(|c: CommandDesc| c@)
}

/// [`CommandSurface`] as values.
pub struct CommandSurfaceView {
    pub root: CommandDescView,
    pub subcommands: Seq<CommandDescView>,
}

impl View for CommandSurface {
    type V = CommandSurfaceView;

    open spec fn view(&self) -> CommandSurfaceView {
        CommandSurfaceView { root: self.root@, subcommands: commands_view(self.subcommands@) }
    }
}

// ---------------------------------------------------------------------------
// Shapes that clap accepts.

/// No two arguments share an id, a long name or a short letter.
pub open spec fn args_distinct(args: Seq<ArgDescView>) -> bool {
    forall|i: int, j: int|
        0 <= i < j < args.len() ==> (#[trigger] args[i]).id != (#[trigger] args[j]).id && (
        args[i].long is Some ==> args[i].long != args[j].long) && (args[i].short is Some
            ==> args[i].short != args[j].short)
}

/// An argument with no long name and no short letter is positional.
pub open spec fn is_positional(a: ArgDescView) -> bool {
    a.long is None && a.short is None
}

/// An argument's settings agree with one another: a flag has a name and takes
/// no value, a long name does not begin with `-`, and the short letter is not
/// `-`.
pub open spec fn arg_ok(a: ArgDescView) -> bool {
    &&& a.switch ==> !is_positional(a) && a.choices is None && !a.file_path
    &&& a.long matches Some(l) ==> l.len() > 0 && l[0] != '-'
    &&& a.short != Some('-')
}

/// The arguments of one command have the shape clap accepts: distinct ids and
/// names, settings that agree, no group named like an argument, and required
/// positionals before optional ones.
pub open spec fn args_ok(args: Seq<ArgDescView>) -> bool {
    &&& args_distinct(args)
    &&& forall|i: int| 0 <= i < args.len() ==> arg_ok(#[trigger] args[i])
    &&& forall|i: int, j: int|
        0 <= i < args.len() && 0 <= j < args.len() ==> ((#[trigger] args[i]).group matches Some(g)
            ==> (#[trigger] args[j]).id != g)
    &&& forall|i: int, j: int|
        0 <= i < j < args.len() && is_positional(#[trigger] args[i]) && is_positional(
            #[trigger] args[j],
        ) && args[j].required ==> args[i].required
}

/// No two subcommands share a name.
pub open spec fn names_distinct(cs: Seq<CommandDescView>) -> bool {
    forall|i: int, j: int| 0 <= i < j < cs.len() ==> (#[trigger] cs[i]).name != (#[trigger] cs[j]).name
}

/// Every argument is a flag.
pub open spec fn all_switches(args: Seq<ArgDescView>) -> bool {
    forall|i: int| 0 <= i < args.len() ==> (#[trigger] args[i]).switch
}

/// Whether `id` names a value-taking argument of `command`.
pub open spec fn has_value_arg(command: CommandDescView, id: Seq<char>) -> bool {
    exists|i: int| 0 <= i < command.args.len() && (#[trigger] command.args[i]).id == id && !command.args[i].switch
}

/// Where argument `id` of `command` is restricted to a list of values, `v` is
/// one of them.
pub open spec fn choice_of(command: CommandDescView, id: Seq<char>, v: Seq<char>) -> bool {
    forall|i: int|
        0 <= i < command.args.len() && (#[trigger] command.args[i]).id == id ==> (
        command.args[i].choices matches Some(c) ==> c.contains(v))
}

// ---------------------------------------------------------------------------
// Clap's verdicts.

/// The flags that clap reads from `input` for an unnamed command with
/// arguments `args` (with no program name in front of `input` when `tail`
/// holds), one per argument in order, or `None` where clap rejects the input.
pub uninterp spec fn clap_flags(tail: bool, args: Seq<ArgDescView>, input: Seq<Seq<char>>) -> Option<Seq<bool>>;

/// The value that clap gives for argument `id` of an unnamed command with
/// arguments `args` on `input` (with no program name in front when `tail`
/// holds), or `None` where clap rejects the input or the argument is absent.
pub uninterp spec fn clap_value(tail: bool, args: Seq<ArgDescView>, input: Seq<Seq<char>>, id: Seq<char>) -> Option<
    Seq<char>,
>;

/// The completion script that `clap_complete` generates for `shell` from the
/// command surface, for the program name `bin`.
pub uninterp spec fn clap_completion(shell: Seq<char>, surface: CommandSurfaceView, bin: Seq<char>) -> Seq<u8>;

/// The names of the generators that `clap_complete` knows.
pub open spec fn generator_names() -> Seq<Seq<char>> {
    seq!["bash"@, "elvish"@, "fish"@, "powershell"@, "zsh"@]
}

pub open spec fn bools_view(r: Option<Vec<bool>>) -> Option<Seq<bool>> {
    match r {
        Some(v) => Some(v@),
        None => None,
    }
}

pub open spec fn string_view(r: Option<String>) -> Option<Seq<char>> {
    match r {
        Some(s) => Some(s@),
        None => None,
    }
}

/// Builds `command` with clap's builder, runs `Command::try_get_matches_from`
/// on `tail`, and reads each argument's flag with `ArgMatches::get_flag`, in
/// order. Whether it has a program name in front, and each argument's id, short letter, long name, required setting, group and
/// flag setting go to clap (a flag takes no value hint or value list); the
/// command is left unnamed (`Command::default`), since clap uses the name
/// only in its own messages, which the library does not show. The verdict is
/// named; the source shows one flag per argument. `get_flag`
/// panics on an argument that is not a flag, and clap's debug assertions on a
/// malformed command: `requires` leaves those out.
#[verifier::external_body]
pub fn clap_tail_flags(command: &CommandDesc, tail: &Vec<String>) -> (r: Option<Vec<bool>>)
    requires
        all_switches(command@.args),
        args_ok(command@.args),
    ensures
        bools_view(r) == clap_flags(command@.tail, command@.args, strings_view(tail@)),
        r matches Some(v) ==> v@.len() == command@.args.len(),
{
    let spec = ClapCommand::default().no_binary_name(command.tail).disable_help_flag(true)
        .disable_version_flag(true).args(command.args.iter().map(|a| Arg::new(a.id).short(a.short)
        .long(a.long).required(a.required).action(a.switch.then_some(SetTrue)).groups(a.group)));
    let m = spec.try_get_matches_from(tail.iter().cloned()).ok()?;
    Some(command.args.iter().map(|a| m.get_flag(a.id)).collect())
}

/// Builds `command` with clap's builder, unnamed like the command of
/// `clap_tail_flags` (whether it has a program name in front, and each
/// argument's id, short letter, long name, required
/// setting, flag setting, group and, where it is restricted, the
/// `PossibleValuesParser` that `ValueParser::from` makes of its values), runs
/// `Command::try_get_matches_from` on `args` and reads argument `id` with
/// `ArgMatches::get_one::<String>`. The value is named; clap documents that a
/// `PossibleValuesParser` passes only a listed value, which the last clause
/// says of restricted arguments (an unrestricted one takes any value).
/// `get_one` panics on an unknown id, and clap's debug assertions on a
/// malformed command: `requires` leaves those out.
#[verifier::external_body]
pub fn clap_arg_value(command: &CommandDesc, args: &Vec<String>, id: &'static str) -> (r: Option<String>)
    requires
        has_value_arg(command@, id@),
        args_ok(command@.args),
    ensures
        string_view(r) == clap_value(command@.tail, command@.args, strings_view(args@), id@),
        r matches Some(v) ==> choice_of(command@, id@, v@),
{
    let spec = ClapCommand::default().no_binary_name(command.tail).disable_help_flag(true)
        .disable_version_flag(true).args(command.args.iter().map(|a| Arg::new(a.id).short(a.short)
        .long(a.long).required(a.required).action(a.switch.then_some(SetTrue)).groups(a.group)
        .value_parser(a.choices.clone().map(ValueParser::from))));
    let m = spec.try_get_matches_from(args.iter().cloned()).ok()?;
    m.get_one::<String>(id).cloned()
}

/// Converts the surface, every field of every command and argument, to
/// clap's builder and runs `clap_complete::aot::generate` into a buffer, for
/// the generator that `Shell::from_str` gives for `shell`. The script is
/// named. `requires` keeps to generator names that exist and leaves out what
/// clap's debug assertions reject: repeated subcommand names (the top-level
/// command must turn clap's own `help` subcommand off) and malformed commands.
#[verifier::external_body]
pub fn clap_completion_script(shell: &str, surface: &CommandSurface, bin: &'static str) -> (r: Vec<u8>)
    requires
        generator_names().contains(shell@),
        surface@.root.root,
        args_ok(surface@.root.args),
        names_distinct(surface@.subcommands),
        forall|i: int| 0 <= i < surface@.subcommands.len() ==> args_ok((#[trigger] surface@.subcommands[i]).args),
    ensures
        r@ == clap_completion(shell@, surface@, bin@),
{
    let build = |c: &CommandDesc| ClapCommand::new(c.name).disable_help_flag(true).disable_version_flag(true)
        .disable_help_subcommand(c.root).args(c.args.iter().map(|a| Arg::new(a.id).short(a.short).long(a.long)
        .required(a.required).action(a.switch.then_some(SetTrue)).groups(a.group).value_hint(a.file_path
        .then_some(FilePath)).value_parser(a.choices.clone().map(ValueParser::from))));
    let mut output = Vec::new();
    generate(shell.parse::<Shell>().unwrap(), &mut build(&surface.root).subcommands(surface.subcommands.iter().map(build)), bin, &mut output);
    output
}

// ---------------------------------------------------------------------------
// The descriptions.

/// A flag set by `--id`, in `group` if given.
pub open spec fn flag_view(id: Seq<char>, group: Option<Seq<char>>) -> ArgDescView {
    ArgDescView {
        id,
        short: None,
        long: Some(id),
        switch: true,
        required: false,
        file_path: false,
        choices: None,
        group,
    }
}

/// A positional operand; `PATH` completes as a file path.
pub open spec fn positional_view(id: Seq<char>) -> ArgDescView {
    ArgDescView {
        id,
        short: None,
        long: None,
        switch: false,
        required: false,
        file_path: id == "PATH"@,
        choices: None,
        group: None,
    }
}

/// A required positional operand.
pub open spec fn required_view(id: Seq<char>) -> ArgDescView {
    ArgDescView { required: true, ..positional_view(id) }
}

/// A subcommand with no arguments yet.
pub open spec fn subcommand_view(name: Seq<char>) -> CommandDescView {
    CommandDescView { name, tail: false, root: false, args: Seq::empty() }
}

/// A subcommand with required positional operands.
pub open spec fn with_positionals_view(name: Seq<char>, positionals: Seq<Seq<char>>) -> CommandDescView {
    CommandDescView {
        args: positionals.map_values(|p: Seq<char>| required_view(p)),
        ..subcommand_view(name)
    }
}

/// A command with the output options of mutating commands added.
pub open spec fn mutation_options_view(c: CommandDescView) -> CommandDescView {
    CommandDescView {
        args: c.args + seq![
            flag_view("stdout"@, Some("output"@)),
            flag_view("diff"@, Some("output"@)),
            flag_view("check"@, None),
        ],
        ..c
    }
}

/// A command with the options of `list` added.
pub open spec fn list_options_view(c: CommandDescView) -> CommandDescView {
    CommandDescView {
        args: c.args + seq![
            flag_view("json"@, Some("format"@)),
            flag_view("yaml"@, Some("format"@)),
            flag_view("names"@, Some("format"@)),
            flag_view("unique"@, None),
        ],
        ..c
    }
}

/// A parser of an argument tail with no program name.
pub open spec fn tail_view(name: Seq<char>) -> CommandDescView {
    CommandDescView { name, tail: true, root: false, args: Seq::empty() }
}

/// The options that may follow the operands of a mutating command.
pub open spec fn mutation_tail_view(name: Seq<char>) -> CommandDescView {
    mutation_options_view(tail_view(name))
}

/// The options that may follow the path of `list`.
pub open spec fn list_tail_view() -> CommandDescView {
    list_options_view(tail_view("list"@))
}

/// The shell operand of `completion`.
pub open spec fn completion_shell_view() -> CommandDescView {
    CommandDescView {
        args: seq![
            ArgDescView {
                required: true,
                choices: Some(completion_shell_names()),
                ..positional_view("shell"@)
            },
        ],
        ..tail_view("completion"@)
    }
}

/// The top-level command and its global flags.
pub open spec fn root_view() -> CommandDescView {
    CommandDescView {
        name: "envq"@,
        tail: false,
        root: true,
        args: seq![
            ArgDescView { short: Some('h'), ..flag_view("help"@, None) },
            flag_view("version"@, None),
            flag_view("quiet"@, None),
        ],
    }
}

/// Every subcommand, in help order.
pub open spec fn subcommands_view() -> Seq<CommandDescView> {
    seq![
        with_positionals_view("get"@, seq!["KEY"@, "PATH"@]),
        mutation_options_view(with_positionals_view("set"@, seq!["KEY"@, "VALUE"@, "PATH"@])),
        mutation_options_view(with_positionals_view("clear"@, seq!["KEY"@, "PATH"@])),
        mutation_options_view(with_positionals_view("unset"@, seq!["KEY"@, "PATH"@])),
        mutation_options_view(with_positionals_view("remove"@, seq!["KEY"@, "PATH"@])),
        with_positionals_view("has"@, seq!["KEY"@, "PATH"@]),
        list_options_view(with_positionals_view("list"@, seq!["PATH"@])),
        CommandDescView {
            args: seq![
                ArgDescView {
                    required: true,
                    choices: Some(completion_shell_names()),
                    ..positional_view("SHELL"@)
                },
            ],
            ..subcommand_view("completion"@)
        },
        CommandDescView {
            args: seq![ArgDescView { choices: Some(command_name_list()), ..positional_view("COMMAND"@) }],
            ..subcommand_view("help"@)
        },
    ]
}

/// The whole command surface.
pub open spec fn surface_view() -> CommandSurfaceView {
    CommandSurfaceView { root: root_view(), subcommands: subcommands_view() }
}

fn flag_arg(id: &'static str, group: Option<&'static str>) -> (r: ArgDesc)
    ensures
        r@ == flag_view(id@, option_str_text(group)),
{
    ArgDesc {
        id,
        short: None,
        long: Some(id),
        switch: true,
        required: false,
        file_path: false,
        choices: None,
        group,
    }
}

/// A positional operand; `PATH` completes as a file path.
pub fn positional_arg(name: &'static str) -> (r: ArgDesc)
    ensures
        r@ == positional_view(name@),
{
    ArgDesc {
        id: name,
        short: None,
        long: None,
        switch: false,
        required: false,
        file_path: str_eq(name, "PATH"),
        choices: None,
        group: None,
    }
}

/// A subcommand with no arguments yet.
pub fn subcommand(command_name: CommandName) -> (r: CommandDesc)
    ensures
        r@ == subcommand_view(command_spelling(command_name)),
{
    let r = CommandDesc {
        name: command_name.as_str(),
        tail: false,
        root: false,
        args: Vec::new(),
    };
    assert(r@.args =~= Seq::<ArgDescView>::empty());
    r
}

/// A subcommand with required positional operands.
pub fn command_with_positionals(command_name: CommandName, positionals: &[&'static str]) -> (r: CommandDesc)
    ensures
        r@ == with_positionals_view(command_spelling(command_name), strs_view(positionals@)),
{
    let mut command = subcommand(command_name);
    let ghost ps = strs_view(positionals@);
    let mut i: usize = 0;
    assert(ps.subrange(0, 0).map_values(|p: Seq<char>| required_view(p)) =~= Seq::<ArgDescView>::empty());
    while i < positionals.len()
        invariant
            i <= positionals@.len(),
            ps == strs_view(positionals@),
            command@ == (CommandDescView {
                args: ps.subrange(0, i as int).map_values(|p: Seq<char>| required_view(p)),
                ..subcommand_view(command_spelling(command_name))
            }),
        decreases positionals.len() - i,
    {
        let mut argument = positional_arg(positionals[i]);
        argument.required = true;
        let ghost before = command.args@;
        command.args.push(argument);
        proof {
            assert(args_view(command.args@) =~= args_view(before).push(argument@));
            assert(ps.subrange(0, i + 1).map_values(|p: Seq<char>| required_view(p)) =~= ps.subrange(
                0,
                i as int,
            ).map_values(|p: Seq<char>| required_view(p)).push(required_view(ps[i as int])));
        }
        i = i + 1;
    }
    proof {
        assert(ps.subrange(0, i as int) =~= ps);
    }
    command
}

/// Adds the output options of mutating commands.
pub fn add_mutation_options(command: CommandDesc) -> (r: CommandDesc)
    ensures
        r@ == mutation_options_view(command@),
{
    let mut command = command;
    let ghost before = command.args@;
    command.args.push(flag_arg("stdout", Some("output")));
    command.args.push(flag_arg("diff", Some("output")));
    command.args.push(flag_arg("check", None));
    proof {
        assert(args_view(command.args@) =~= args_view(before) + seq![
            flag_view("stdout"@, Some("output"@)),
            flag_view("diff"@, Some("output"@)),
            flag_view("check"@, None),
        ]);
    }
    command
}

/// Adds the options of `list`.
pub fn add_list_options(command: CommandDesc) -> (r: CommandDesc)
    ensures
        r@ == list_options_view(command@),
{
    let mut command = command;
    let ghost before = command.args@;
    command.args.push(flag_arg("json", Some("format")));
    command.args.push(flag_arg("yaml", Some("format")));
    command.args.push(flag_arg("names", Some("format")));
    command.args.push(flag_arg("unique", None));
    proof {
        assert(args_view(command.args@) =~= args_view(before) + seq![
            flag_view("json"@, Some("format"@)),
            flag_view("yaml"@, Some("format"@)),
            flag_view("names"@, Some("format"@)),
            flag_view("unique"@, None),
        ]);
    }
    command
}

/// A mutating subcommand with its operands and output options.
pub fn mutation_command_with_positionals(command_name: CommandName, positionals: &[&'static str]) -> (r: CommandDesc)
    ensures
        r@ == mutation_options_view(
            with_positionals_view(command_spelling(command_name), strs_view(positionals@)),
        ),
{
    add_mutation_options(command_with_positionals(command_name, positionals))
}

/// `list` with its path operand and options.
pub fn list_command_with_positionals() -> (r: CommandDesc)
    ensures
        r@ == list_options_view(with_positionals_view("list"@, seq!["PATH"@])),
{
    let positionals = ["PATH"];
    let r = add_list_options(command_with_positionals(CommandName::List, positionals.as_slice()));
    assert(strs_view(positionals@) =~= seq!["PATH"@]);
    r
}

fn tail_command(name: &'static str) -> (r: CommandDesc)
    ensures
        r@ == tail_view(name@),
{
    let r = CommandDesc { name, tail: true, root: false, args: Vec::new() };
    assert(r@.args =~= Seq::<ArgDescView>::empty());
    r
}

/// The parser of the options that follow a mutating command's operands.
pub fn mutation_tail_spec(command_name: CommandName) -> (r: CommandDesc)
    ensures
        r@ == mutation_tail_view(command_spelling(command_name)),
        all_switches(r@.args),
        args_ok(r@.args),
{
    let r = add_mutation_options(tail_command(command_name.as_str()));
    proof {
        reveal_strlit("stdout");
        reveal_strlit("diff");
        reveal_strlit("check");
        reveal_strlit("output");
        lemma_args_ok(r@.args);
    }
    r
}

/// The parser of the options that follow the path of `list`.
pub fn list_tail_spec() -> (r: CommandDesc)
    ensures
        r@ == list_tail_view(),
        all_switches(r@.args),
        args_ok(r@.args),
{
    let r = add_list_options(tail_command(CommandName::List.as_str()));
    proof {
        reveal_strlit("json");
        reveal_strlit("yaml");
        reveal_strlit("names");
        reveal_strlit("unique");
        reveal_strlit("format");
        lemma_args_ok(r@.args);
    }
    r
}

/// The parser of the shell operand of `completion`.
pub fn completion_shell_spec() -> (r: CommandDesc)
    ensures
        r@ == completion_shell_view(),
        has_value_arg(r@, "shell"@),
        args_ok(r@.args),
{
    let mut r = tail_command(CommandName::Completion.as_str());
    let mut shell = positional_arg("shell");
    shell.required = true;
    shell.choices = Some(completion_shells());
    r.args.push(shell);
    proof {
        assert(r@.args =~= seq![
            ArgDescView {
                required: true,
                choices: Some(completion_shell_names()),
                ..positional_view("shell"@)
            },
        ]);
        assert(r@.args[0].id == "shell"@);
        reveal_strlit("shell");
        lemma_args_ok(r@.args);
    }
    r
}

/// The `clap_complete` generator for a shell.
pub open spec fn generator_name(shell: CompletionShell) -> Seq<char> {
    match shell {
        CompletionShell::Bash => "bash"@,
        CompletionShell::Zsh => "zsh"@,
        CompletionShell::Fish => "fish"@,
        CompletionShell::PowerShell => "powershell"@,
    }
}

/// Names the `clap_complete` generator for a shell.
pub fn clap_shell(shell: CompletionShell) -> (r: &'static str)
    ensures
        r@ == generator_name(shell),
        generator_names().contains(r@),
{
    let r = match shell {
        CompletionShell::Bash => "bash",
        CompletionShell::Zsh => "zsh",
        CompletionShell::Fish => "fish",
        CompletionShell::PowerShell => "powershell",
    };
    proof {
        let names = generator_names();
        assert(names[0] == "bash"@ && names[1] == "elvish"@ && names[2] == "fish"@ && names[3]
            == "powershell"@ && names[4] == "zsh"@);
    }
    r
}

/// The whole command surface, from which completion scripts are generated.
pub fn command_spec() -> (r: CommandSurface)
    ensures
        r@ == surface_view(),
{
    let mut root = CommandDesc { name: "envq", tail: false, root: true, args: Vec::new() };
    let mut help = flag_arg("help", None);
    help.short = Some('h');
    root.args.push(help);
    root.args.push(flag_arg("version", None));
    root.args.push(flag_arg("quiet", None));
    let key_path = ["KEY", "PATH"];
    let key_value_path = ["KEY", "VALUE", "PATH"];
    let mut completion = subcommand(CommandName::Completion);
    let mut shell = positional_arg("SHELL");
    shell.required = true;
    shell.choices = Some(completion_shells());
    completion.args.push(shell);
    let mut help_command = subcommand(CommandName::Help);
    let mut topic = positional_arg("COMMAND");
    topic.choices = Some(command_names());
    help_command.args.push(topic);
    let mut subcommands: Vec<CommandDesc> = Vec::new();
    subcommands.push(command_with_positionals(CommandName::Get, key_path.as_slice()));
    subcommands.push(mutation_command_with_positionals(CommandName::SetValue, key_value_path.as_slice()));
    subcommands.push(mutation_command_with_positionals(CommandName::Clear, key_path.as_slice()));
    subcommands.push(mutation_command_with_positionals(CommandName::Unset, key_path.as_slice()));
    subcommands.push(mutation_command_with_positionals(CommandName::Remove, key_path.as_slice()));
    subcommands.push(command_with_positionals(CommandName::Has, key_path.as_slice()));
    subcommands.push(list_command_with_positionals());
    subcommands.push(completion);
    subcommands.push(help_command);
    proof {
        assert(strs_view(key_path@) =~= seq!["KEY"@, "PATH"@]);
        assert(strs_view(key_value_path@) =~= seq!["KEY"@, "VALUE"@, "PATH"@]);
        assert(root@.args =~= root_view().args);
        assert(completion@.args =~= subcommands_view()[7].args);
        assert(help_command@.args =~= subcommands_view()[8].args);
        assert(commands_view(subcommands@) =~= subcommands_view());
    }
    CommandSurface { root, subcommands }
}

/// Arguments told apart by the length or first letter of their ids and group
/// names, with long names equal to their ids, at most one short letter (`h`)
/// that comes first, flags named, and required positionals first, have the shape
/// clap accepts.
proof fn lemma_args_ok(a: Seq<ArgDescView>)
    requires
        forall|i: int, j: int|
            0 <= i < j < a.len() ==> (#[trigger] a[i]).id.len() != (#[trigger] a[j]).id.len()
                || a[i].id[0] != a[j].id[0],
        forall|i: int| 0 <= i < a.len() ==> (#[trigger] a[i]).long is None || a[i].long == Some(a[i].id),
        forall|i: int| 0 <= i < a.len() ==> (#[trigger] a[i]).id.len() > 0 && a[i].id[0] != '-',
        forall|i: int, j: int|
            0 <= i < j < a.len() ==> (#[trigger] a[i]).short is Some ==> (#[trigger] a[j]).short is None,
        forall|i: int| 0 <= i < a.len() ==> (#[trigger] a[i]).short is None || a[i].short == Some('h'),
        forall|i: int|
            0 <= i < a.len() ==> (#[trigger] a[i]).switch ==> a[i].long is Some && a[i].choices is None
                && !a[i].file_path,
        forall|i: int, j: int|
            0 <= i < a.len() && 0 <= j < a.len() ==> ((#[trigger] a[i]).group matches Some(g) ==> (
            g.len() != (#[trigger] a[j]).id.len() || g[0] != a[j].id[0])),
        forall|i: int, j: int|
            0 <= i < j < a.len() && is_positional(#[trigger] a[i]) && is_positional(#[trigger] a[j])
                && a[j].required ==> a[i].required,
    ensures
        args_ok(a),
{
    assert forall|i: int, j: int| 0 <= i < j < a.len() implies (#[trigger] a[i]).id != (
    #[trigger] a[j]).id && (a[i].long is Some ==> a[i].long != a[j].long) && (a[i].short is Some
        ==> a[i].short != a[j].short) by {
        if a[i].id == a[j].id {
            assert(a[i].id.len() == a[j].id.len());
            assert(a[i].id[0] == a[j].id[0]);
        }
    }
    assert forall|i: int| 0 <= i < a.len() implies arg_ok(#[trigger] a[i]) by {
        if a[i].long is Some {
            assert(a[i].long == Some(a[i].id));
        }
    }
}

/// The command surface has the shape clap accepts: no repeated subcommand
/// names, and the arguments of every command in a shape clap accepts.
pub proof fn lemma_surface_ok()
    ensures
        args_ok(surface_view().root.args),
        names_distinct(surface_view().subcommands),
        forall|i: int|
            0 <= i < surface_view().subcommands.len() ==> args_ok(
                (#[trigger] surface_view().subcommands[i]).args,
            ),
{
    reveal_strlit("help");
    reveal_strlit("version");
    reveal_strlit("quiet");
    reveal_strlit("KEY");
    reveal_strlit("VALUE");
    reveal_strlit("PATH");
    reveal_strlit("stdout");
    reveal_strlit("diff");
    reveal_strlit("check");
    reveal_strlit("json");
    reveal_strlit("yaml");
    reveal_strlit("names");
    reveal_strlit("unique");
    reveal_strlit("SHELL");
    reveal_strlit("COMMAND");
    reveal_strlit("get");
    reveal_strlit("set");
    reveal_strlit("clear");
    reveal_strlit("unset");
    reveal_strlit("remove");
    reveal_strlit("has");
    reveal_strlit("list");
    reveal_strlit("completion");
    reveal_strlit("envq");
    let subs = surface_view().subcommands;
    assert forall|i: int, j: int| 0 <= i < j < subs.len() implies (#[trigger] subs[i]).name != (
    #[trigger] subs[j]).name by {
        assert(subs[i].name.len() != subs[j].name.len() || subs[i].name[0] != subs[j].name[0]);
    }
    reveal_strlit("output");
    reveal_strlit("format");
    lemma_args_ok(root_view().args);
    assert forall|k: int| 0 <= k < subs.len() implies args_ok((#[trigger] subs[k]).args) by {
        lemma_args_ok(subs[k].args);
    }
}

} // verus!
