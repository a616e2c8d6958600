use context_compressor_mcp::compress::imports::{render, split, split_preamble};
use context_compressor_mcp::compress::Language;

#[test]
fn hoists_rust_use_statements_out_of_the_body() {
    let split = split(
        "use std::fmt;\nfn main() {}\nuse std::io;\n",
        Language::Rust,
    );
    assert_eq!(split.imports, vec!["use std::fmt;", "use std::io;"]);
    assert_eq!(split.body, "fn main() {}\n");
}

#[test]
fn drops_exact_duplicates_but_keeps_first_seen_order() {
    let split = split("use b;\nuse a;\nuse b;\n", Language::Rust);
    assert_eq!(split.imports, vec!["use b;", "use a;"]);
}

#[test]
fn leaves_indented_imports_in_the_body() {
    let src = "fn f() {\n    use std::io::Write;\n}\n";
    let split = split(src, Language::Rust);
    assert!(split.imports.is_empty());
    assert_eq!(split.body, src);
}

#[test]
fn handles_python_import_and_from_forms() {
    let split = split("import os\nfrom sys import argv\nx = 1\n", Language::Python);
    assert_eq!(split.imports, vec!["import os", "from sys import argv"]);
    assert_eq!(split.body, "x = 1\n");
}

#[test]
fn does_not_match_a_prefix_without_its_trailing_space() {
    let rust = split("used = 1\n", Language::Rust);
    assert!(rust.imports.is_empty());
    let python = split("important = 1\n", Language::Python);
    assert!(python.imports.is_empty());
}

#[test]
fn languages_without_import_syntax_are_untouched() {
    let src = "import whatever\n";
    let split = split(src, Language::Other);
    assert!(split.imports.is_empty());
    assert_eq!(split.body, src);
}

#[test]
fn render_is_empty_for_no_imports() {
    assert_eq!(render(&[]), "");
}

#[test]
fn render_separates_the_block_from_the_body() {
    assert_eq!(render(&["use a;".to_owned()]), "use a;\n\n");
}

#[test]
fn preamble_keeps_module_docs_above_the_imports() {
    let (preamble, rest) = split_preamble("//! Module doc.\n\nfn f() {}\n");
    assert_eq!(preamble, "//! Module doc.\n\n");
    assert_eq!(rest, "fn f() {}\n");
}

#[test]
fn preamble_keeps_inner_attributes_too() {
    let (preamble, _) = split_preamble("#![forbid(unsafe_code)]\nfn f() {}\n");
    assert_eq!(preamble, "#![forbid(unsafe_code)]\n");
}

#[test]
fn a_file_with_no_preamble_yields_an_empty_one() {
    let (preamble, rest) = split_preamble("fn f() {}\n");
    assert!(preamble.is_empty());
    assert_eq!(rest, "fn f() {}\n");
}

#[test]
fn a_doc_comment_further_down_is_not_a_preamble() {
    let (preamble, _) = split_preamble("fn f() {}\n//! stray\n");
    assert!(preamble.is_empty());
}

#[test]
fn empty_input_produces_empty_output() {
    let split = split("", Language::Rust);
    assert!(split.imports.is_empty());
    assert_eq!(split.body, "");
}

#[test]
fn imports_come_out_trimmed_of_trailing_whitespace() {
    let split = split("use a;   \nx();\n", Language::Rust);
    assert_eq!(split.imports, vec!["use a;"]);
    assert_eq!(split.body, "x();\n");
}

#[test]
fn render_puts_each_import_on_its_own_line() {
    let imports = vec!["import os".to_owned(), "import sys".to_owned()];
    assert_eq!(render(&imports), "import os\nimport sys\n\n");
}

#[test]
fn a_split_body_never_repeats_a_hoisted_import() {
    let split = split("use a;\nuse a;\nuse b;\nfn f() {}\n", Language::Rust);
    assert_eq!(split.imports, vec!["use a;", "use b;"]);
    assert!(!split.body.contains("use "));
}
