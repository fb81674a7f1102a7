use envq::cli::completion::{
    append_fish_positional_values, append_powershell_positional_values, completion_shell,
    completion_shell_from_name, completion_script, complete_generated_script,
    insert_powershell_case_values,
    powershell_completion_results,
};
use envq::cli::spec::{command_spec, CommandDesc};
use envq::cli::types::{CompletionShell, ParseControl};

fn contains(haystack: &[u8], needle: &[u8]) -> bool {
    haystack.windows(needle.len()).any(|window| window == needle)
}

#[test]
fn completion_shell_name_mapping_rejects_unknown_values() {
    assert_eq!(completion_shell_from_name("bash"), Some(CompletionShell::Bash));
    assert_eq!(completion_shell_from_name("zsh"), Some(CompletionShell::Zsh));
    assert_eq!(completion_shell_from_name("fish"), Some(CompletionShell::Fish));
    assert_eq!(completion_shell_from_name("powershell"), Some(CompletionShell::PowerShell));
    assert_eq!(completion_shell_from_name("pwsh"), Some(CompletionShell::PowerShell));
    assert_eq!(completion_shell_from_name("cmd"), None);
}

#[test]
fn powershell_case_value_insertion_reports_success() {
    let mut script = b"'envq;completion' {\n            break\n        }\n".to_vec();

    let inserted = insert_powershell_case_values(&mut script, "'envq;completion' {", &["bash", "pwsh"]);

    assert!(inserted);
    assert!(contains(&script, b"[CompletionResult]::new('bash'"));
    assert!(contains(&script, b"[CompletionResult]::new('pwsh'"));
}

#[test]
fn powershell_case_value_insertion_reports_missing_layout() {
    let mut missing_case = b"'envq' {\n            break\n        }\n".to_vec();
    assert!(!insert_powershell_case_values(&mut missing_case, "'envq;completion' {", &["bash"]));

    let mut missing_break = b"'envq;completion' {\n        }\n".to_vec();
    assert!(!insert_powershell_case_values(&mut missing_break, "'envq;completion' {", &["bash"]));
    assert_eq!(missing_break, b"'envq;completion' {\n        }\n");
}

#[test]
fn powershell_positional_patch_preserves_unexpected_non_utf8_output() {
    let mut output = vec![b'p', 0xff, b's'];
    append_powershell_positional_values(&mut output);
    assert_eq!(output, vec![b'p', 0xff, b's']);
}

#[test]
fn powershell_patch_fills_both_cases_before_their_break() {
    let mut output = b"'envq;completion' {\n            break\n        }\n'envq;help' {\n            break\n        }\n".to_vec();
    append_powershell_positional_values(&mut output);
    let text = String::from_utf8(output).expect("utf-8");
    let help_start = text.find("'envq;help' {").expect("help case");
    let completion_part = &text[..help_start];
    let help_part = &text[help_start..];
    for shell in ["bash", "zsh", "fish", "powershell", "pwsh"] {
        assert!(completion_part.contains(&format!("[CompletionResult]::new('{shell}'")), "{shell}");
    }
    for command in ["get", "set", "clear", "unset", "remove", "has", "list", "completion", "help"] {
        assert!(help_part.contains(&format!("[CompletionResult]::new('{command}'")), "{command}");
    }
    assert!(completion_part.trim_end().ends_with("break\n        }"));
}

#[test]
fn powershell_results_double_single_quotes() {
    assert_eq!(
        powershell_completion_results(&["it's"]),
        b"\n            [CompletionResult]::new('it''s', 'it''s', [CompletionResultType]::ParameterValue, 'it''s')"
    );
}

#[test]
fn fish_script_gets_positional_values() {
    let mut output = b"# generated\n".to_vec();
    append_fish_positional_values(&mut output);
    assert_eq!(
        output,
        b"# generated\ncomplete -c envq -n \"__fish_envq_using_subcommand completion\" -f -a \"bash zsh fish powershell pwsh\"\ncomplete -c envq -n \"__fish_envq_using_subcommand help\" -f -a \"get set clear unset remove has list completion help\"\n"
    );
    assert_eq!(complete_generated_script(CompletionShell::Bash, b"x".to_vec()), b"x");
}

#[test]
fn completion_shell_operand_validation() {
    assert_eq!(completion_shell(b"bash").ok(), Some(CompletionShell::Bash));
    assert_eq!(completion_shell(b"pwsh").ok(), Some(CompletionShell::PowerShell));
    match completion_shell(b"cmd") {
        Err(ParseControl::Usage(error)) => assert_eq!(
            error.message,
            b"usage: envq [-h] [--version] [--quiet] {get,set,clear,unset,remove,has,list,completion,help} ...\nenvq: error: unsupported completion shell: cmd\n"
        ),
        other => panic!("unexpected {other:?}"),
    }
}

fn assert_powershell_case_contains(script: &str, case_header: &str, expected: &str) {
    let case_start = script.find(case_header).expect("PowerShell case header");
    let case_body_start = case_start + case_header.len();
    let relative_break = script[case_body_start..]
        .find("\n            break")
        .expect("PowerShell case break");
    let case_body = &script[case_body_start..case_body_start + relative_break];
    assert!(
        case_body.contains(&format!("[CompletionResult]::new('{expected}'")),
        "{case_header} missing {expected}"
    );
}

#[test]
fn generated_powershell_completion_contains_patched_positionals() {
    let script = completion_script(CompletionShell::PowerShell);
    let script = String::from_utf8(script).expect("PowerShell script is UTF-8");

    assert_powershell_case_contains(&script, "'envq;completion' {", "powershell");
    assert_powershell_case_contains(&script, "'envq;completion' {", "pwsh");
    assert_powershell_case_contains(&script, "'envq;help' {", "completion");
}

fn assert_contains_long_options(command: &CommandDesc, expected: &[&str]) {
    let long_options: Vec<&str> = command.args.iter().filter_map(|a| a.long).collect();
    for option in expected {
        assert!(long_options.contains(option), "{} missing --{option}", command.name);
    }
}

#[test]
fn clap_spec_matches_documented_command_surface() {
    let command = command_spec();
    let command_names: Vec<&str> = command.subcommands.iter().map(|c| c.name).collect();
    assert_eq!(
        command_names.as_slice(),
        ["get", "set", "clear", "unset", "remove", "has", "list", "completion", "help"]
    );

    for command_name in ["set", "clear", "unset", "remove"] {
        let command = command
            .subcommands
            .iter()
            .find(|command| command.name == command_name)
            .expect("mutation command in clap spec");
        assert_contains_long_options(command, &["stdout", "diff"]);
        assert_contains_long_options(command, &["check"]);
    }

    let list = command
        .subcommands
        .iter()
        .find(|command| command.name == "list")
        .expect("list command in clap spec");
    assert_contains_long_options(list, &["json", "yaml", "names"]);
    assert_contains_long_options(list, &["unique"]);
}
