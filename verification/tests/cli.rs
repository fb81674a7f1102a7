use envq::cli::execute::{
    apply_global_options, execute, execute_loaded_document_command, handle_set_read_error,
    parse_control_result, read_document_for_command, reads_stdin, write_result, MutationOutcome,
    ReadOutcome, Step,
};
use envq::cli::parse::parse_command;
use envq::cli::util::os_error_message;
use envq::cli::types::{CliResult, Command, OsError, OsErrorKind};
use envq::model::ExitCode;

/// An in-memory file system: files with their bytes, and directories.
struct MemFs {
    files: Vec<(Vec<u8>, Vec<u8>)>,
    directories: Vec<Vec<u8>>,
}

fn os_error(kind: OsErrorKind, message: &str) -> OsError {
    OsError { kind, message: message.to_owned() }
}

impl MemFs {
    fn new() -> Self {
        MemFs { files: Vec::new(), directories: vec![b"/tmp/t".to_vec(), b".".to_vec()] }
    }

    fn with_file(path: &str, contents: &[u8]) -> Self {
        let mut fs = MemFs::new();
        fs.files.push((path.as_bytes().to_vec(), contents.to_vec()));
        fs
    }

    fn file(&self, path: &str) -> Option<Vec<u8>> {
        self.files.iter().find(|(p, _)| p == path.as_bytes()).map(|(_, c)| c.clone())
    }

    fn read(&self, path: &[u8]) -> Result<Vec<u8>, OsError> {
        if self.directories.iter().any(|d| d == path) {
            return Err(os_error(OsErrorKind::IsADirectory, "Is a directory (os error 21)"));
        }
        match self.files.iter().find(|(p, _)| p == path) {
            Some((_, c)) => Ok(c.clone()),
            None => Err(os_error(OsErrorKind::NotFound, "No such file or directory (os error 2)")),
        }
    }

    fn parent_exists(&self, path: &[u8]) -> bool {
        let parent = match path.iter().rposition(|b| *b == b'/') {
            Some(0) => b"/".to_vec(),
            Some(i) => path[..i].to_vec(),
            None => b".".to_vec(),
        };
        self.directories.iter().any(|d| *d == parent)
    }

    fn write(&mut self, path: &[u8], contents: Vec<u8>) -> Result<(), OsError> {
        if self.directories.iter().any(|d| d == path) {
            return Err(os_error(OsErrorKind::IsADirectory, "Is a directory (os error 21)"));
        }
        if !self.parent_exists(path) {
            return Err(os_error(OsErrorKind::NotFound, "No such file or directory (os error 2)"));
        }
        match self.files.iter_mut().find(|(p, _)| p == path) {
            Some(entry) => entry.1 = contents,
            None => self.files.push((path.to_vec(), contents)),
        }
        Ok(())
    }
}

fn run_command(command: &Command, fs: &mut MemFs, stdin: &Result<Vec<u8>, OsError>) -> CliResult {
    let path = match execute(command) {
        Step::Finished(result) => return result,
        Step::ReadDocument { path } => path,
    };
    let loaded = match read_document_for_command(command, fs.read(&path)) {
        ReadOutcome::Loaded(loaded) => loaded,
        ReadOutcome::Failed(result) => return result,
        ReadOutcome::CheckDirectory(error) => {
            match handle_set_read_error(&path, &error, fs.parent_exists(&path)) {
                Ok(loaded) => loaded,
                Err(result) => return result,
            }
        }
    };
    let stdin_value = if reads_stdin(command) { Some(stdin.clone()) } else { None };
    match execute_loaded_document_command(command, &loaded.source_text, &loaded.document, stdin_value) {
        MutationOutcome::Finished(result) => result,
        MutationOutcome::Write { path, contents } => {
            let outcome = fs.write(&path, contents);
            write_result(&path, outcome)
        }
    }
}

fn run_with(args: &[&[u8]], fs: &mut MemFs, stdin: Result<Vec<u8>, OsError>) -> CliResult {
    let argv: Vec<Vec<u8>> = args.iter().map(|a| a.to_vec()).collect();
    match parse_command(&argv) {
        Ok(parsed) => {
            let result = run_command(&parsed.command, fs, &stdin);
            apply_global_options(result, parsed.global_options)
        }
        Err(control) => parse_control_result(control),
    }
}

fn run(args: &[&str], fs: &mut MemFs) -> CliResult {
    let args: Vec<&[u8]> = args.iter().map(|a| a.as_bytes()).collect();
    run_with(&args, fs, Ok(Vec::new()))
}

const ENV: &str = "/tmp/t/.env";
const USAGE: &str = "usage: envq [-h] [--version] [--quiet] {get,set,clear,unset,remove,has,list,completion,help} ...\n";

#[test]
fn get_and_missing_key() {
    let mut fs = MemFs::with_file(ENV, b"A=1\n");
    let result = run(&["get", "A", ENV], &mut fs);
    assert_eq!(
        result,
        CliResult { exit_code: ExitCode::Success, stdout: b"1".to_vec(), stderr: Vec::new() }
    );

    let result = run(&["get", "B", ENV], &mut fs);
    assert_eq!(result.exit_code, ExitCode::KeyNotFound);
    assert_eq!(result.stderr, b"envq: B: key not found\n");
}

#[test]
fn has_clear_unset_remove_and_noop_write_paths() {
    let mut fs = MemFs::with_file(ENV, b"A=1\nB=2\n");

    assert_eq!(run(&["has", "A", ENV], &mut fs), CliResult::success());

    let has_missing = run(&["has", "MISSING", ENV], &mut fs);
    assert_eq!(has_missing.exit_code, ExitCode::KeyNotFound);
    assert!(has_missing.stderr.is_empty());

    assert_eq!(run(&["set", "A", "1", ENV], &mut fs), CliResult::success());
    assert_eq!(fs.file(ENV).unwrap(), b"A=1\nB=2\n");

    let clear = run(&["clear", "B", ENV, "--stdout"], &mut fs);
    assert_eq!(clear.exit_code, ExitCode::Success);
    assert_eq!(clear.stdout, b"A=1\nB=\n");

    let unset = run(&["unset", "B", ENV, "--stdout"], &mut fs);
    assert_eq!(unset.exit_code, ExitCode::Success);
    assert_eq!(unset.stdout, b"A=1\n");

    let remove = run(&["remove", "A", ENV, "--stdout"], &mut fs);
    assert_eq!(remove.exit_code, ExitCode::Success);
    assert_eq!(remove.stdout, b"B=2\n");

    let unset_missing = run(&["unset", "MISSING", ENV], &mut fs);
    assert_eq!(unset_missing.exit_code, ExitCode::KeyNotFound);
    assert_eq!(unset_missing.stderr, b"envq: MISSING: key not found\n");
}

#[test]
fn set_stdout_does_not_write() {
    let mut fs = MemFs::with_file(ENV, b"A=1\n");
    let result = run(&["set", "A", "2", ENV, "--stdout"], &mut fs);
    assert_eq!(result.exit_code, ExitCode::Success);
    assert_eq!(result.stdout, b"A=2\n");
    assert_eq!(fs.file(ENV).unwrap(), b"A=1\n");
}

#[test]
fn set_can_create_missing_file_when_parent_exists() {
    let mut fs = MemFs::new();
    let result = run(&["set", "A", "1", ENV], &mut fs);
    assert_eq!(result, CliResult::success());
    assert_eq!(fs.file(ENV).unwrap(), b"A=1\n");
}

#[test]
fn set_reads_stdin_exactly() {
    let mut fs = MemFs::with_file(ENV, b"API_KEY=old\n");
    let result = run_with(
        &[b"set", b"API_KEY", b"-", ENV.as_bytes()],
        &mut fs,
        Ok(b"line1\nline2\n".to_vec()),
    );
    assert_eq!(result.exit_code, ExitCode::Success);
    assert_eq!(fs.file(ENV).unwrap(), b"API_KEY=\"line1\\nline2\\n\"\n");
}

#[test]
fn set_reports_stdin_read_errors() {
    let mut fs = MemFs::with_file(ENV, b"A=1\n");
    let result = run_with(
        &[b"set", b"A", b"-", ENV.as_bytes()],
        &mut fs,
        Err(os_error(OsErrorKind::Other, "stdin failed")),
    );
    assert_eq!(result.exit_code, ExitCode::GeneralError);
    assert_eq!(result.stderr, b"envq: stdin: stdin failed\n");
}

#[test]
fn value_named_stdout_is_an_operand_before_path() {
    let mut fs = MemFs::with_file(ENV, b"A=1\n");
    let result = run(&["set", "A", "--stdout", ENV], &mut fs);
    assert_eq!(result.exit_code, ExitCode::Success);
    assert_eq!(fs.file(ENV).unwrap(), b"A=--stdout\n");
}

#[test]
fn check_modes_cover_changed_and_unchanged_outputs() {
    let mut fs = MemFs::with_file(ENV, b"A=1\n");
    assert_eq!(run(&["set", "A", "1", ENV, "--check"], &mut fs), CliResult::success());

    let changed_stdout = run(&["set", "A", "2", ENV, "--stdout", "--check"], &mut fs);
    assert_eq!(changed_stdout.exit_code, ExitCode::WouldChange);
    assert_eq!(changed_stdout.stdout, b"A=2\n");
    assert_eq!(fs.file(ENV).unwrap(), b"A=1\n");
}

#[test]
fn diff_check_matches_golden_shape() {
    let mut fs = MemFs::with_file(ENV, b"A=1\n");
    let result = run(&["set", "A", "2", ENV, "--diff", "--check"], &mut fs);
    assert_eq!(result.exit_code, ExitCode::WouldChange);
    assert_eq!(
        result.stdout,
        format!("--- {ENV} (before)\n+++ {ENV} (after)\n@@ -1 +1 @@\n-A=1\n+A=2\n").into_bytes()
    );
}

#[test]
fn diff_output_without_check_exits_successfully() {
    let mut fs = MemFs::with_file(ENV, b"A=1\n");
    let result = run(&["set", "A", "2", ENV, "--diff"], &mut fs);
    assert_eq!(result.exit_code, ExitCode::Success);
    assert_eq!(
        result.stdout,
        format!("--- {ENV} (before)\n+++ {ENV} (after)\n@@ -1 +1 @@\n-A=1\n+A=2\n").into_bytes()
    );
    assert_eq!(fs.file(ENV).unwrap(), b"A=1\n");
}

#[test]
fn global_help_version_quiet_and_help_topics() {
    let mut fs = MemFs::new();
    let version = run(&["--version"], &mut fs);
    assert_eq!(version.exit_code, ExitCode::Success);
    assert!(version.stdout.starts_with(b"envq "));
    assert_eq!(version.stdout, b"envq 0.1.3\n");

    let short_help = run(&["-h"], &mut fs);
    assert_eq!(short_help.exit_code, ExitCode::Success);
    assert!(short_help.stdout.starts_with(b"usage: envq "));

    let no_args = run(&[], &mut fs);
    assert_eq!(no_args.exit_code, ExitCode::Success);
    assert!(no_args.stdout.starts_with(b"usage: envq "));

    let quiet_only = run(&["--quiet"], &mut fs);
    assert_eq!(quiet_only.exit_code, ExitCode::Success);
    assert!(quiet_only.stdout.starts_with(b"usage: envq "));

    let help = run(&["help"], &mut fs);
    assert_eq!(help.exit_code, ExitCode::Success);
    assert!(help.stdout.starts_with(b"usage: envq "));

    for topic in ["get", "set", "clear", "unset", "remove", "has", "list", "completion", "help"] {
        let result = run(&["help", topic], &mut fs);
        assert_eq!(result.exit_code, ExitCode::Success, "{topic}");
        assert!(result.stdout.starts_with(format!("usage: envq {topic}").as_bytes()), "{topic}");
    }

    let unknown = run(&["help", "unknown"], &mut fs);
    assert_eq!(unknown.exit_code, ExitCode::GeneralError);
    assert_eq!(unknown.stderr, b"envq: unknown help topic: unknown\n");
}

#[test]
fn command_parse_and_file_error_paths() {
    let missing_file = "/tmp/t/missing.env";
    let missing_parent_file = "/tmp/t/missing/.env";
    let mut fs = MemFs::with_file(ENV, b"A=1\n");

    let invalid_key = run(&["get", "1BAD", missing_file], &mut fs);
    assert_eq!(invalid_key.exit_code, ExitCode::ValidationError);
    assert_eq!(invalid_key.stderr, b"envq: invalid key: 1BAD\n");

    for command in ["set", "clear", "unset", "has"] {
        let mut argv = vec![command, "1BAD"];
        if command == "set" {
            argv.push("value");
        }
        argv.push(ENV);
        let result = run(&argv, &mut fs);
        assert_eq!(result.exit_code, ExitCode::ValidationError, "{command}");
        assert_eq!(result.stderr, b"envq: invalid key: 1BAD\n", "{command}");
    }

    let missing = run(&["get", "A", missing_file], &mut fs);
    assert_eq!(missing.exit_code, ExitCode::GeneralError);
    assert!(missing.stderr.ends_with(b": No such file or directory\n"));

    for command in ["has", "list", "unset"] {
        let mut argv = vec![command];
        if command != "list" {
            argv.push("A");
        }
        argv.push(missing_file);
        let result = run(&argv, &mut fs);
        assert_eq!(result.exit_code, ExitCode::GeneralError, "{command}");
        assert!(result.stderr.ends_with(b": No such file or directory\n"));
    }

    let missing_parent = run(&["set", "A", "1", missing_parent_file], &mut fs);
    assert_eq!(missing_parent.exit_code, ExitCode::GeneralError);
    assert!(missing_parent.stderr.ends_with(b": No such file or directory\n"));

    let clear_missing_parent = run(&["clear", "A", missing_parent_file], &mut fs);
    assert_eq!(clear_missing_parent.exit_code, ExitCode::GeneralError);
    assert!(clear_missing_parent.stderr.ends_with(b": No such file or directory\n"));

    let clear_missing = run(&["clear", "A", missing_file, "--stdout"], &mut fs);
    assert_eq!(clear_missing.exit_code, ExitCode::Success);
    assert_eq!(clear_missing.stdout, b"A=\n");

    let directory_path = run(&["set", "A", "1", "/tmp/t"], &mut fs);
    assert_eq!(directory_path.exit_code, ExitCode::GeneralError);
    assert!(directory_path.stderr.ends_with(b": Is a directory\n"));

    let bad_command = run(&["wat"], &mut fs);
    assert_eq!(bad_command.exit_code, ExitCode::GeneralError);
    assert!(bad_command.stderr.starts_with(b"usage: envq [-h] [--version] [--quiet]"));

    let too_many_help_operands = run(&["help", "get", "set"], &mut fs);
    assert_eq!(too_many_help_operands.exit_code, ExitCode::GeneralError);
    assert_eq!(
        too_many_help_operands.stderr,
        format!("{USAGE}envq: error: expected operands: envq help [COMMAND]\n").into_bytes()
    );

    for (command, signature) in [
        ("get", "get KEY PATH"),
        ("set", "set KEY VALUE PATH"),
        ("clear", "clear KEY PATH"),
        ("unset", "unset KEY PATH"),
        ("remove", "remove KEY PATH"),
        ("has", "has KEY PATH"),
        ("list", "list PATH"),
        ("completion", "completion {bash,zsh,fish,powershell,pwsh}"),
    ] {
        let result = run(&[command], &mut fs);
        assert_eq!(result.exit_code, ExitCode::GeneralError, "{command}");
        assert_eq!(
            result.stderr,
            format!("{USAGE}envq: error: expected operands: envq {signature}\n").into_bytes()
        );
    }

    let quiet_missing_key = run(&["--quiet", "get", "B", ENV], &mut fs);
    assert_eq!(quiet_missing_key.exit_code, ExitCode::KeyNotFound);
    assert!(quiet_missing_key.stderr.is_empty());
}

#[test]
fn non_utf8_operands_use_lossy_diagnostics() {
    let mut fs = MemFs::with_file(ENV, b"A=1\n");
    let result = run_with(&[&[0xff]], &mut fs, Ok(Vec::new()));
    assert_eq!(result.exit_code, ExitCode::GeneralError);
    assert!(result.stderr.starts_with(b"usage: envq "));
    assert!(result.stderr.ends_with(b"invalid choice: \"\xEF\xBF\xBD\"\n"));

    let result = run_with(&[b"get", &[0xff], ENV.as_bytes()], &mut fs, Ok(Vec::new()));
    assert_eq!(result.exit_code, ExitCode::ValidationError);
    assert_eq!(result.stderr, b"envq: invalid key: \xEF\xBF\xBD\n");
}

#[test]
fn unknown_command_lists_the_choices() {
    let mut fs = MemFs::new();
    let result = run(&["wat"], &mut fs);
    assert_eq!(
        result.stderr,
        format!(
            "{USAGE}envq: error: argument command: invalid choice: 'wat' (choose from get, set, clear, unset, remove, has, list, completion, help)\n"
        )
        .into_bytes()
    );
}

#[test]
fn mutation_tail_options_keep_contract_compatible_diagnostics() {
    let mut fs = MemFs::with_file(ENV, b"A=1\n");

    let conflict = run(&["set", "A", "2", ENV, "--stdout", "--diff"], &mut fs);
    assert_eq!(conflict.exit_code, ExitCode::GeneralError);
    assert_eq!(
        conflict.stderr,
        format!("{USAGE}envq: error: choose only one output option for envq set\n").into_bytes()
    );

    let duplicate_check = run(&["set", "A", "2", ENV, "--check", "--check"], &mut fs);
    assert_eq!(duplicate_check.exit_code, ExitCode::GeneralError);
    assert_eq!(
        duplicate_check.stderr,
        format!("{USAGE}envq: error: duplicate option for envq set: --check\n").into_bytes()
    );

    let reverse_conflict = run(&["set", "A", "2", ENV, "--diff", "--stdout"], &mut fs);
    assert_eq!(reverse_conflict.exit_code, ExitCode::GeneralError);
    assert_eq!(
        reverse_conflict.stderr,
        format!("{USAGE}envq: error: choose only one output option for envq set\n").into_bytes()
    );

    let unknown_tail = run(&["set", "A", "2", ENV, "--wat"], &mut fs);
    assert_eq!(unknown_tail.exit_code, ExitCode::GeneralError);
    assert_eq!(
        unknown_tail.stderr,
        format!("{USAGE}envq: error: expected operands: envq set KEY VALUE PATH\n").into_bytes()
    );
}

#[test]
fn list_empty_and_escape_outputs() {
    let mut fs = MemFs::with_file("/tmp/t/empty.env", b"");
    let empty_json = run(&["list", "/tmp/t/empty.env", "--json"], &mut fs);
    assert_eq!(empty_json.stdout, b"[]\n");
    let empty_yaml = run(&["list", "/tmp/t/empty.env", "--yaml"], &mut fs);
    assert_eq!(empty_yaml.stdout, b"[]\n");
}

#[test]
fn list_json_yaml_and_invalid_bytes() {
    let mut fs = MemFs::with_file(ENV, b"RAW=\xff\n");
    let json = run(&["list", ENV, "--json"], &mut fs);
    assert_eq!(json.stdout, b"[\n  {\n    \"key\": \"RAW\",\n    \"value\": \"\xff\"\n  }\n]\n");
    let yaml = run(&["list", ENV, "--yaml"], &mut fs);
    assert_eq!(yaml.stdout, b"- key: \"RAW\"\n  value: \"\xff\"\n");
}

#[test]
fn list_tail_options_keep_contract_compatible_diagnostics() {
    let mut fs = MemFs::with_file(ENV, b"A=1\nB=2\nA=3\n");

    let names_unique = run(&["list", ENV, "--names", "--unique"], &mut fs);
    assert_eq!(names_unique.exit_code, ExitCode::Success);
    assert_eq!(names_unique.stdout, b"A\nB\n");

    let unique_table = run(&["list", ENV, "--unique"], &mut fs);
    assert_eq!(unique_table.exit_code, ExitCode::Success);
    assert_eq!(unique_table.stdout, b"A\t1\nB\t2\n");

    let format_conflict = run(&["list", ENV, "--json", "--yaml"], &mut fs);
    assert_eq!(format_conflict.exit_code, ExitCode::GeneralError);
    assert_eq!(
        format_conflict.stderr,
        format!("{USAGE}envq: error: choose only one list output format for envq list\n").into_bytes()
    );

    let duplicate_unique = run(&["list", ENV, "--unique", "--unique"], &mut fs);
    assert_eq!(duplicate_unique.exit_code, ExitCode::GeneralError);
    assert_eq!(
        duplicate_unique.stderr,
        format!("{USAGE}envq: error: duplicate option for envq list: --unique\n").into_bytes()
    );

    for first in ["--yaml", "--names"] {
        let conflict = run(&["list", ENV, first, "--json"], &mut fs);
        assert_eq!(conflict.exit_code, ExitCode::GeneralError);
        assert_eq!(
            conflict.stderr,
            format!("{USAGE}envq: error: choose only one list output format for envq list\n")
                .into_bytes()
        );
    }

    let names_conflict = run(&["list", ENV, "--json", "--names"], &mut fs);
    assert_eq!(names_conflict.exit_code, ExitCode::GeneralError);
    assert_eq!(
        names_conflict.stderr,
        format!("{USAGE}envq: error: choose only one list output format for envq list\n").into_bytes()
    );

    let unknown_tail = run(&["list", ENV, "--wat"], &mut fs);
    assert_eq!(unknown_tail.exit_code, ExitCode::GeneralError);
    assert_eq!(
        unknown_tail.stderr,
        format!("{USAGE}envq: error: expected operands: envq list PATH\n").into_bytes()
    );
}

#[test]
fn mutation_write_errors_are_reported() {
    let mut fs = MemFs::with_file(ENV, b"A=1\n");
    fs.directories.push(b"/tmp/t/target.env".to_vec());
    let result = run(&["set", "A", "2", "/tmp/t/target.env"], &mut fs);
    assert_eq!(result.exit_code, ExitCode::GeneralError);
    assert_eq!(result.stderr, b"envq: /tmp/t/target.env: Is a directory\n");

    let result = write_result(
        b"/tmp/t/target.env",
        Err(os_error(OsErrorKind::PermissionDenied, "denied")),
    );
    assert_eq!(result.exit_code, ExitCode::GeneralError);
    assert_eq!(result.stderr, b"envq: /tmp/t/target.env: Permission denied\n");
}

#[test]
fn set_is_idempotent_and_check_confirms_it() {
    let mut fs = MemFs::with_file(ENV, b"A=1\nB=2\n");
    assert_eq!(run(&["set", "B", "two words", ENV], &mut fs), CliResult::success());
    let first = fs.file(ENV).unwrap();
    assert_eq!(first, b"A=1\nB=\"two words\"\n");
    assert_eq!(run(&["set", "B", "two words", ENV, "--check"], &mut fs), CliResult::success());
    assert_eq!(run(&["set", "B", "two words", ENV], &mut fs), CliResult::success());
    assert_eq!(fs.file(ENV).unwrap(), first);
}

#[test]
fn quiet_keeps_exit_code_and_stdout_of_failures() {
    let mut fs = MemFs::with_file(ENV, b"A=1\n");
    let loud = run(&["get", "B", ENV], &mut fs);
    assert!(!loud.stderr.is_empty());
    let quiet = run(&["--quiet", "get", "B", ENV], &mut fs);
    assert_eq!(quiet.exit_code, loud.exit_code);
    assert!(quiet.stderr.is_empty());

    let changed = run(&["--quiet", "set", "A", "2", ENV, "--stdout", "--check"], &mut fs);
    assert_eq!(changed.exit_code, ExitCode::WouldChange);
    assert_eq!(changed.stdout, b"A=2\n");

    let usage = run(&["--quiet", "set", "A", "2", ENV, "--stdout", "--diff"], &mut fs);
    assert_eq!(usage.exit_code, ExitCode::GeneralError);
    assert!(usage.stderr.starts_with(b"usage: envq "));
}

#[test]
fn get_after_set_reads_back_the_value() {
    let mut fs = MemFs::with_file(ENV, b"# c\nA = old # keep\nB='x'\n");
    for (key, value) in [("A", "new value"), ("B", "a\"b\\c"), ("C", "plain"), ("A", "")] {
        assert_eq!(run(&["set", key, value, ENV], &mut fs).exit_code, ExitCode::Success);
        let get = run(&["get", key, ENV], &mut fs);
        assert_eq!(get.exit_code, ExitCode::Success);
        assert_eq!(get.stdout, value.as_bytes());
    }
}

#[test]
fn get_after_unset_finds_nothing() {
    let mut fs = MemFs::with_file(ENV, b"A=1\r\nB=2\r\nA=3\rC=4");
    assert_eq!(run(&["unset", "A", ENV], &mut fs), CliResult::success());
    assert_eq!(fs.file(ENV).unwrap(), b"B=2\r\nC=4\r\n");
    let get = run(&["get", "A", ENV], &mut fs);
    assert_eq!(get.exit_code, ExitCode::KeyNotFound);
    assert_eq!(run(&["get", "C", ENV], &mut fs).stdout, b"4");
}

fn assert_completion_contract(shell: &str, stdout: &[u8]) {
    let output = String::from_utf8_lossy(stdout);
    for expected in [
        "get", "set", "clear", "unset", "remove", "has", "list", "completion", "help", "bash", "zsh",
        "fish", "powershell", "pwsh",
    ] {
        assert!(output.contains(expected), "{shell} missing {expected}");
    }
    let option_prefix = if shell == "fish" { "-l " } else { "--" };
    for option in [
        "help", "version", "quiet", "stdout", "diff", "check", "json", "yaml", "names", "unique",
    ] {
        let expected = format!("{option_prefix}{option}");
        assert!(output.contains(&expected), "{shell} missing {expected}");
    }
}

#[test]
fn completion_shell_validation_uses_clap_complete_output() {
    let mut fs = MemFs::with_file(ENV, b"");
    for shell in ["bash", "zsh", "fish", "powershell", "pwsh"] {
        let result = run(&["completion", shell], &mut fs);
        assert_eq!(result.exit_code, ExitCode::Success);
        assert!(result.stderr.is_empty());
        assert_completion_contract(shell, &result.stdout);
    }

    let result = run(&["completion", "cmd"], &mut fs);
    assert_eq!(result.exit_code, ExitCode::GeneralError);
    assert_eq!(
        result.stderr,
        b"usage: envq [-h] [--version] [--quiet] {get,set,clear,unset,remove,has,list,completion,help} ...\nenvq: error: unsupported completion shell: cmd\n"
    );
}

#[test]
fn normalized_os_error_messages_cover_common_error_kinds() {
    let permission = std::io::Error::from(std::io::ErrorKind::PermissionDenied);
    assert_eq!(
        os_error_message(
            "x.env",
            &OsError { kind: OsErrorKind::PermissionDenied, message: permission.to_string() },
        ),
        b"envq: x.env: Permission denied\n"
    );
    let exists = std::io::Error::from(std::io::ErrorKind::AlreadyExists);
    assert_eq!(
        os_error_message(
            "x.env",
            &OsError { kind: OsErrorKind::AlreadyExists, message: exists.to_string() },
        ),
        b"envq: x.env: File exists\n"
    );
}

fn argv(args: &[&str]) -> Vec<Vec<u8>> {
    args.iter().map(|a| a.as_bytes().to_vec()).collect()
}

#[test]
fn remove_parses_as_unset() {
    let unset = parse_command(&argv(&["unset", "A", "x.env", "--diff", "--check"])).ok().unwrap();
    let remove = parse_command(&argv(&["remove", "A", "x.env", "--diff", "--check"])).ok().unwrap();
    assert_eq!(remove.command, unset.command);
    assert_eq!(remove.global_options.quiet, unset.global_options.quiet);
}

#[test]
fn leading_quiet_only_sets_quiet() {
    let plain = parse_command(&argv(&["get", "A", "x.env"])).ok().unwrap();
    let quiet = parse_command(&argv(&["--quiet", "get", "A", "x.env"])).ok().unwrap();
    assert_eq!(quiet.command, plain.command);
    assert!(!plain.global_options.quiet);
    assert!(quiet.global_options.quiet);
    assert!(parse_command(&argv(&["--quiet", "bogus"])).is_err());
}
