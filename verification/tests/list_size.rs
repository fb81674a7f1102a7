use envq::cli::listing::list_stdout;
use envq::cli::types::{ListOptions, ListOutputFormat};
use envq::editor::list_bindings;
use envq::parser::parse_document;

fn all_options() -> Vec<ListOptions> {
    let mut options = Vec::new();
    for format in [
        ListOutputFormat::Table,
        ListOutputFormat::Json,
        ListOutputFormat::Yaml,
        ListOutputFormat::Names,
    ] {
        for unique in [false, true] {
            options.push(ListOptions { output_format: format, unique });
        }
    }
    options
}

#[test]
fn list_output_is_linear_in_the_document() {
    // Short bindings whose values are control bytes: JSON and YAML escape each
    // of them as six bytes, and every line adds a whole object.
    let mut document = Vec::new();
    while document.len() + 5 <= 4096 {
        document.extend_from_slice(b"A=\x01\x01\n");
    }
    let bindings = list_bindings(&parse_document(&document));
    assert_eq!(bindings.len(), document.len() / 5);
    for options in all_options() {
        let output = list_stdout(&bindings, options);
        assert!(output.len() <= 150 * document.len() + 16);
        assert!(output.len() <= 1_048_576);
    }
    let json = list_stdout(
        &bindings,
        ListOptions { output_format: ListOutputFormat::Json, unique: false },
    );
    assert!(json.len() > 4 * document.len());
}

#[test]
fn list_output_of_an_empty_document_is_small() {
    let bindings = list_bindings(&parse_document(b""));
    for options in all_options() {
        assert!(list_stdout(&bindings, options).len() <= 16);
    }
}
