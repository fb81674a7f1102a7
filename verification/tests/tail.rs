use envq::cli::tail::{list_tail_error, mutation_tail_error, prepared_mutation_operands};
use envq::cli::types::{CommandName, MutationMode, ParseControl};

const USAGE: &str = "usage: envq [-h] [--version] [--quiet] {get,set,clear,unset,remove,has,list,completion,help} ...\n";

#[test]
fn internal_tail_error_replay_handles_empty_tails() {
    let ParseControl::Usage(mutation) = mutation_tail_error(CommandName::SetValue, &[]) else {
        panic!("expected usage");
    };
    assert_eq!(
        mutation.message,
        format!("{USAGE}envq: error: expected operands: envq set KEY VALUE PATH\n").into_bytes()
    );

    let ParseControl::Usage(list) = list_tail_error(CommandName::List, &[]) else {
        panic!("expected usage");
    };
    assert_eq!(list.message, format!("{USAGE}envq: error: expected operands: envq list PATH\n").into_bytes());
}

#[test]
fn internal_command_operand_counts_cover_help() {
    assert_eq!(CommandName::Help.operand_count(), 0);
}

#[test]
fn mutation_tail_flags_select_mode_and_check() {
    let operands = vec![b"A".to_vec(), b".env".to_vec(), b"--check".to_vec(), b"--diff".to_vec()];
    let prepared = prepared_mutation_operands(CommandName::Clear, operands).expect("accepted tail");
    assert_eq!(prepared.operands, vec![b"A".to_vec(), b".env".to_vec()]);
    assert_eq!(prepared.mutation_options.mode, MutationMode::Diff);
    assert!(prepared.mutation_options.check);

    let replay = mutation_tail_error(CommandName::Unset, &[b"--diff".to_vec(), b"--check".to_vec(), b"--stdout".to_vec()]);
    let ParseControl::Usage(error) = replay else {
        panic!("expected usage");
    };
    assert_eq!(error.message, format!("{USAGE}envq: error: choose only one output option for envq unset\n").into_bytes());
}
