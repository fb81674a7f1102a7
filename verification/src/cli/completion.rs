//! Completion shells and the patches applied to generated completion scripts.
use vstd::prelude::*;
use vstd::utf8::valid_utf8;

use crate::bytes::{
    bytes_eq, copy_range, extend_bytes, find_bytes_from, find_from, lemma_find_from_found,
};
use crate::cli::help::USAGE;
use crate::cli::spec::{
    choice_of, clap_arg_value, clap_completion, clap_completion_script, clap_shell, clap_value,
    command_spec, generator_name,
    completion_shell_spec, completion_shell_view, lemma_surface_ok, strings_view, strs_view,
    surface_view,
};
use crate::cli::types::{CompletionShell, ControlView, ParseControl, UsageError};
use crate::diagnostics::{push_str, str_bytes};
use crate::std_support::{lossy_string, utf8_lossy, utf8_str};

verus! {

/// The shell names accepted by `completion`, in help order.
pub open spec fn completion_shell_names() -> Seq<Seq<char>> {
    seq!["bash"@, "zsh"@, "fish"@, "powershell"@, "pwsh"@]
}

/// The command names accepted by the parser, in help order.
pub open spec fn command_name_list() -> Seq<Seq<char>> {
    seq![
        "get"@,
        "set"@,
        "clear"@,
        "unset"@,
        "remove"@,
        "has"@,
        "list"@,
        "completion"@,
        "help"@,
    ]
}

/// The shell names accepted by `completion`.
pub fn completion_shells() -> (r: Vec<&'static str>)
    ensures
        strs_view(r@) == completion_shell_names(),
{
    let r = vec!["bash", "zsh", "fish", "powershell", "pwsh"];
    assert(strs_view(r@) =~= completion_shell_names());
    r
}

/// The command names accepted by the parser.
pub fn command_names() -> (r: Vec<&'static str>)
    ensures
        strs_view(r@) == command_name_list(),
{
    let r = vec!["get", "set", "clear", "unset", "remove", "has", "list", "completion", "help"];
    assert(strs_view(r@) =~= command_name_list());
    r
}

/// The shell a completion shell name selects.
pub open spec fn shell_named(value: Seq<char>) -> Option<CompletionShell> {
    if value == "bash"@ {
        Some(CompletionShell::Bash)
    } else if value == "zsh"@ {
        Some(CompletionShell::Zsh)
    } else if value == "fish"@ {
        Some(CompletionShell::Fish)
    } else if value == "powershell"@ || value == "pwsh"@ {
        Some(CompletionShell::PowerShell)
    } else {
        None
    }
}

/// Maps a shell name to the shell it selects.
pub fn completion_shell_from_name(value: &str) -> (r: Option<CompletionShell>)
    ensures
        r == shell_named(value@),
{
    let bytes = value.as_bytes();
    if bytes_eq(bytes, "bash".as_bytes()) {
        proof { lemma_same_bytes_same_text(value@, "bash"@); }
        Some(CompletionShell::Bash)
    } else if bytes_eq(bytes, "zsh".as_bytes()) {
        proof { lemma_same_bytes_same_text(value@, "zsh"@); }
        Some(CompletionShell::Zsh)
    } else if bytes_eq(bytes, "fish".as_bytes()) {
        proof { lemma_same_bytes_same_text(value@, "fish"@); }
        Some(CompletionShell::Fish)
    } else if bytes_eq(bytes, "powershell".as_bytes()) || bytes_eq(bytes, "pwsh".as_bytes()) {
        proof {
            if bytes@ == str_bytes("powershell"@) {
                lemma_same_bytes_same_text(value@, "powershell"@);
            } else {
                lemma_same_bytes_same_text(value@, "pwsh"@);
            }
        }
        Some(CompletionShell::PowerShell)
    } else {
        None
    }
}

/// Equal UTF-8 encodings come from equal text.
pub proof fn lemma_same_bytes_same_text(a: Seq<char>, b: Seq<char>)
    ensures
        (str_bytes(a) == str_bytes(b)) == (a == b),
{
    vstd::utf8::encode_utf8_decode_utf8(a);
    vstd::utf8::encode_utf8_decode_utf8(b);
}

/// The diagnostic for an unsupported completion shell.
pub open spec fn unsupported_shell_text(value: Seq<u8>) -> Seq<u8> {
    str_bytes(USAGE@) + str_bytes("envq: error: unsupported completion shell: "@) + str_bytes(
        utf8_lossy(value),
    ) + str_bytes("\n"@)
}

/// What the parser makes of a completion shell operand: the shell that clap's
/// accepted value names.
pub open spec fn completion_shell_result(value: Seq<u8>) -> Result<CompletionShell, ControlView> {
    match clap_value(
        completion_shell_view().tail,
        completion_shell_view().args,
        seq![utf8_lossy(value)],
        "shell"@,
    ) {
        Some(v) => Ok(shell_named(v).unwrap()),
        None => Err(ControlView::Usage(unsupported_shell_text(value))),
    }
}

/// Validates the requested completion shell while keeping envq's own diagnostic.
pub fn completion_shell(value: &[u8]) -> (r: Result<CompletionShell, ParseControl>)
    ensures
        match r {
            Ok(s) => completion_shell_result(value@) == Ok::<CompletionShell, ControlView>(s),
            Err(e) => completion_shell_result(value@) == Err::<CompletionShell, ControlView>(e@),
        },
{
    let text = lossy_string(value);
    let spec = completion_shell_spec();
    let args = vec![text];
    let accepted = clap_arg_value(&spec, &args, "shell");
    proof {
        assert(strings_view(args@) =~= seq![utf8_lossy(value@)]);
    }
    let shell = match accepted {
        Some(shell) => shell,
        None => {
            let mut message: Vec<u8> = Vec::new();
            push_str(&mut message, USAGE);
            push_str(&mut message, "envq: error: unsupported completion shell: ");
            push_str(&mut message, args[0].as_str());
            push_str(&mut message, "\n");
            return Err(ParseControl::Usage(UsageError { message }));
        },
    };
    proof {
        let v = shell@;
        let names = completion_shell_names();
        assert(choice_of(completion_shell_view(), "shell"@, v));
        assert(completion_shell_view().args[0].id == "shell"@);
        assert(names.contains(v));
        let k = choose|k: int| 0 <= k < names.len() && names[k] == v;
        assert(k == 0 || k == 1 || k == 2 || k == 3 || k == 4);
    }
    match completion_shell_from_name(shell.as_str()) {
        Some(shell) => Ok(shell),
        None => {
            proof {
                assert(false);
            }
            Err(ParseControl::Usage(UsageError { message: Vec::new() }))
        },
    }
}

/// `words` joined by `separator`.
pub open spec fn joined(words: Seq<Seq<char>>, separator: Seq<char>) -> Seq<u8>
    decreases words.len(),
{
    if words.len() == 0 {
        Seq::empty()
    } else if words.len() == 1 {
        str_bytes(words[0])
    } else {
        joined(words.drop_last(), separator) + str_bytes(separator) + str_bytes(words.last())
    }
}

/// Appends `words` joined by `separator`.
pub fn push_joined(out: &mut Vec<u8>, words: &[&str], separator: &str)
    ensures
        final(out)@ == old(out)@ + joined(strs_view(words@), separator@),
{
    let ghost start = out@;
    let ghost ws = strs_view(words@);
    let mut i: usize = 0;
    while i < words.len()
        invariant
            i <= words@.len(),
            ws == strs_view(words@),
            out@ == start + joined(ws.subrange(0, i as int), separator@),
        decreases words.len() - i,
    {
        if i > 0 {
            push_str(out, separator);
        }
        push_str(out, words[i]);
        proof {
            let next = ws.subrange(0, i + 1);
            assert(next.drop_last() =~= ws.subrange(0, i as int));
            assert(next.last() == words@[i as int]@);
            if i == 0 {
                assert(next.len() == 1);
            }
        }
        i = i + 1;
    }
    proof {
        assert(ws.subrange(0, ws.len() as int) =~= ws);
    }
}

/// The fish lines that complete the finite positional values.
pub open spec fn fish_positional_text() -> Seq<u8> {
    str_bytes("complete -c envq -n \"__fish_envq_using_subcommand completion\" -f -a \""@) + joined(
        completion_shell_names(),
        " "@,
    ) + str_bytes("\"\n"@) + str_bytes(
        "complete -c envq -n \"__fish_envq_using_subcommand help\" -f -a \""@,
    ) + joined(command_name_list(), " "@) + str_bytes("\"\n"@)
}

/// Appends fish completions for `completion SHELL` and `help COMMAND`, which
/// the generated fish script leaves out.
pub fn append_fish_positional_values(output: &mut Vec<u8>)
    ensures
        final(output)@ == old(output)@ + fish_positional_text(),
{
    let shells = completion_shells();
    let names = command_names();
    push_str(output, "complete -c envq -n \"__fish_envq_using_subcommand completion\" -f -a \"");
    push_joined(output, shells.as_slice(), " ");
    push_str(output, "\"\n");
    push_str(output, "complete -c envq -n \"__fish_envq_using_subcommand help\" -f -a \"");
    push_joined(output, names.as_slice(), " ");
    push_str(output, "\"\n");
}

/// A value with each `'` doubled, as PowerShell single-quoted strings need.
pub open spec fn quote_doubled(v: Seq<u8>) -> Seq<u8>
    decreases v.len(),
{
    if v.len() == 0 {
        Seq::empty()
    } else {
        quote_doubled(v.drop_last()) + if v.last() == 39 {
            seq![39u8, 39u8]
        } else {
            seq![v.last()]
        }
    }
}

/// Appends `value` with each `'` doubled.
fn push_quote_doubled(out: &mut Vec<u8>, value: &str)
    ensures
        final(out)@ == old(out)@ + quote_doubled(str_bytes(value@)),
{
    let bytes = value.as_bytes();
    let ghost start = out@;
    let mut i: usize = 0;
    while i < bytes.len()
        invariant
            i <= bytes@.len(),
            out@ == start + quote_doubled(bytes@.subrange(0, i as int)),
        decreases bytes.len() - i,
    {
        let ghost before = out@;
        if bytes[i] == 39 {
            out.push(39u8);
            out.push(39u8);
        } else {
            out.push(bytes[i]);
        }
        proof {
            assert(bytes@.subrange(0, i + 1).drop_last() =~= bytes@.subrange(0, i as int));
            assert(out@ =~= before + (if bytes@[i as int] == 39 {
                seq![39u8, 39u8]
            } else {
                seq![bytes@[i as int]]
            }));
        }
        i = i + 1;
    }
    proof {
        assert(bytes@.subrange(0, bytes@.len() as int) =~= bytes@);
    }
}

/// One PowerShell completion result line.
pub open spec fn powershell_result(value: Seq<char>) -> Seq<u8> {
    let q = quote_doubled(str_bytes(value));
    str_bytes("\n            [CompletionResult]::new('"@) + q + str_bytes("', '"@) + q + str_bytes(
        "', [CompletionResultType]::ParameterValue, '"@,
    ) + q + str_bytes("')"@)
}

/// The PowerShell completion result lines for `values`.
pub open spec fn powershell_results_text(values: Seq<Seq<char>>) -> Seq<u8>
    decreases values.len(),
{
    if values.len() == 0 {
        Seq::empty()
    } else {
        powershell_results_text(values.drop_last()) + powershell_result(values.last())
    }
}

/// Formats PowerShell completion results for finite positional values.
pub fn powershell_completion_results(values: &[&str]) -> (r: Vec<u8>)
    ensures
        r@ == powershell_results_text(strs_view(values@)),
{
    let ghost vs = strs_view(values@);
    let mut out: Vec<u8> = Vec::new();
    let mut i: usize = 0;
    while i < values.len()
        invariant
            i <= values@.len(),
            vs == strs_view(values@),
            out@ == powershell_results_text(vs.subrange(0, i as int)),
        decreases values.len() - i,
    {
        let ghost before = out@;
        let value = values[i];
        push_str(&mut out, "\n            [CompletionResult]::new('");
        push_quote_doubled(&mut out, value);
        push_str(&mut out, "', '");
        push_quote_doubled(&mut out, value);
        push_str(&mut out, "', [CompletionResultType]::ParameterValue, '");
        push_quote_doubled(&mut out, value);
        push_str(&mut out, "')");
        proof {
            assert(vs.subrange(0, i + 1).drop_last() =~= vs.subrange(0, i as int));
            assert(vs[i as int] == value@);
            assert(out@ =~= before + powershell_result(value@));
        }
        i = i + 1;
    }
    proof {
        assert(vs.subrange(0, vs.len() as int) =~= vs);
    }
    out
}

/// The line that ends a PowerShell switch case in the generated script.
pub open spec fn case_break() -> Seq<u8> {
    str_bytes("\n            break"@)
}

/// The script with result lines for `values` inserted before the end of the
/// case introduced by `header`, or `None` where the layout is not found.
pub open spec fn powershell_insertion(script: Seq<u8>, header: Seq<u8>, values: Seq<Seq<char>>) -> Option<
    Seq<u8>,
> {
    match find_from(script, header, 0) {
        None => None,
        Some(start) => match find_from(script, case_break(), start + header.len()) {
            None => None,
            Some(at) => Some(
                script.subrange(0, at) + powershell_results_text(values) + script.subrange(
                    at,
                    script.len() as int,
                ),
            ),
        },
    }
}

/// Inserts PowerShell completion results into the case introduced by
/// `case_header`; reports whether that case and its `break` were found. The
/// script is left unchanged when they were not.
pub fn insert_powershell_case_values(script: &mut Vec<u8>, case_header: &str, values: &[&str]) -> (r:
    bool)
    ensures
        r == powershell_insertion(old(script)@, str_bytes(case_header@), strs_view(values@)).is_some(),
        r ==> final(script)@ == powershell_insertion(
            old(script)@,
            str_bytes(case_header@),
            strs_view(values@),
        ).unwrap(),
        !r ==> final(script)@ == old(script)@,
{
    let header = case_header.as_bytes();
    let found = find_bytes_from(script.as_slice(), header, 0);
    proof {
        lemma_find_from_found(script@, header@, 0);
    }
    let case_start = match found {
        Some(start) => start,
        None => return false,
    };
    let script_len = script.len();
    assert(case_start + header@.len() <= script_len);
    let case_body_start = case_start + header.len();
    let insert_at = match find_bytes_from(script.as_slice(), "\n            break".as_bytes(), case_body_start) {
        Some(at) => at,
        None => return false,
    };
    proof {
        lemma_find_from_found(script@, case_break(), case_body_start as int);
    }
    let results = powershell_completion_results(values);
    let mut patched = copy_range(script.as_slice(), 0, insert_at);
    extend_bytes(&mut patched, results.as_slice());
    let rest = copy_range(script.as_slice(), insert_at, script.len());
    extend_bytes(&mut patched, rest.as_slice());
    *script = patched;
    true
}

/// The PowerShell script with the `completion` and `help` cases completed.
pub open spec fn powershell_patched(output: Seq<u8>) -> Seq<u8> {
    if !valid_utf8(output) {
        output
    } else {
        let s1 = match powershell_insertion(
            output,
            str_bytes("'envq;completion' {"@),
            completion_shell_names(),
        ) {
            Some(s) => s,
            None => output,
        };
        match powershell_insertion(s1, str_bytes("'envq;help' {"@), command_name_list()) {
            Some(s) => s,
            None => s1,
        }
    }
}

/// Adds the finite positional values of `completion` and `help` to a
/// generated PowerShell script; output that is not UTF-8 is left as it is.
pub fn append_powershell_positional_values(output: &mut Vec<u8>)
    ensures
        final(output)@ == powershell_patched(old(output)@),
{
    if utf8_str(output.as_slice()).is_none() {
        return;
    }
    let shells = completion_shells();
    let names = command_names();
    let _completion_case_found = insert_powershell_case_values(
        output,
        "'envq;completion' {",
        shells.as_slice(),
    );
    let _help_case_found = insert_powershell_case_values(output, "'envq;help' {", names.as_slice());
}

/// The completion script for `shell`, from the script the generator produced.
pub open spec fn completion_script_text(shell: CompletionShell, generated: Seq<u8>) -> Seq<u8> {
    match shell {
        CompletionShell::Fish => generated + fish_positional_text(),
        CompletionShell::PowerShell => powershell_patched(generated),
        _ => generated,
    }
}

/// Completes a generated script with the positional values the generator
/// leaves out for fish and PowerShell.
pub fn complete_generated_script(shell: CompletionShell, generated: Vec<u8>) -> (r: Vec<u8>)
    ensures
        r@ == completion_script_text(shell, generated@),
{
    let mut output = generated;
    match shell {
        CompletionShell::Fish => append_fish_positional_values(&mut output),
        CompletionShell::PowerShell => append_powershell_positional_values(&mut output),
        _ => {},
    }
    output
}

/// The completion script for `shell`: what `clap_complete` generates from the
/// command surface for the program `envq`, completed with the positional
/// values it leaves out.
pub fn completion_script(shell: CompletionShell) -> (r: Vec<u8>)
    ensures
        r@ == completion_script_text(shell, clap_completion(generator_name(shell), surface_view(), "envq"@)),
{
    let surface = command_spec();
    proof {
        lemma_surface_ok();
    }
    let generated = clap_completion_script(clap_shell(shell), &surface, "envq");
    complete_generated_script(shell, generated)
}

} // verus!
