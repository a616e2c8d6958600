use context_compressor_mcp::compress::extract::{identifier_len, symbol};
use context_compressor_mcp::compress::Language;

const PY: &str = "\
import os


@cache
def alpha(a, b):
    \"\"\"Docstring.\"\"\"
    x = a + b

    return x


def beta():
    return 1


class Gamma:
    def method(self):
        pass
";

const RS: &str = "\
use std::fmt;

/// Adds two numbers.
pub fn add(a: i32, b: i32) -> i32 {
    if a > b {
        return a;
    }
    a + b
}

pub const LIMIT: u8 = 9;

struct S {
    field: u8,
}
";

#[test]
fn extracts_a_python_function_with_its_whole_body() {
    let got = symbol(PY, Language::Python, "alpha").expect("found");
    assert!(got.text.contains("def alpha(a, b):"), "{}", got.text);
    assert!(got.text.contains("return x"), "{}", got.text);
    assert!(!got.text.contains("def beta"), "{}", got.text);
}

#[test]
fn includes_decorators_and_docstrings_above_the_declaration() {
    let got = symbol(PY, Language::Python, "alpha").expect("found");
    assert!(got.text.starts_with("@cache"), "{}", got.text);
    assert!(got.text.contains("\"\"\"Docstring.\"\"\""), "{}", got.text);
}

#[test]
fn a_blank_line_inside_a_body_does_not_end_it() {
    let got = symbol(PY, Language::Python, "alpha").expect("found");
    assert!(got.text.contains("return x"), "{}", got.text);
}

#[test]
fn reports_the_line_range_it_came_from() {
    let got = symbol(PY, Language::Python, "beta").expect("found");
    let lines: Vec<&str> = PY.lines().collect();
    assert_eq!(lines[got.start_line - 1].trim(), "def beta():");
    assert_eq!(lines[got.end_line - 1].trim(), "return 1");
}

#[test]
fn extracts_a_python_class() {
    let got = symbol(PY, Language::Python, "Gamma").expect("found");
    assert!(got.text.contains("class Gamma:"), "{}", got.text);
    assert!(got.text.contains("def method(self):"), "{}", got.text);
}

#[test]
fn extracts_a_rust_function_by_brace_balance() {
    let got = symbol(RS, Language::Rust, "add").expect("found");
    assert!(
        got.text.contains("pub fn add(a: i32, b: i32) -> i32 {"),
        "{}",
        got.text
    );
    assert!(got.text.contains("a + b"), "{}", got.text);
    assert!(got.text.trim_end().ends_with('}'), "{}", got.text);
    assert_eq!(got.text.matches('{').count(), got.text.matches('}').count());
}

#[test]
fn keeps_the_rust_doc_comment_above_the_function() {
    let got = symbol(RS, Language::Rust, "add").expect("found");
    assert!(
        got.text.starts_with("/// Adds two numbers."),
        "{}",
        got.text
    );
}

#[test]
fn a_declaration_with_no_block_ends_at_its_semicolon() {
    let got = symbol(RS, Language::Rust, "LIMIT").expect("found");
    assert_eq!(got.text.trim(), "pub const LIMIT: u8 = 9;");
}

#[test]
fn extracts_a_struct() {
    let got = symbol(RS, Language::Rust, "S").expect("found");
    assert!(got.text.contains("field: u8"), "{}", got.text);
    assert!(got.text.trim_end().ends_with('}'), "{}", got.text);
}

#[test]
fn returns_none_for_an_unknown_symbol() {
    assert!(symbol(PY, Language::Python, "nope").is_none());
    assert!(symbol(PY, Language::Python, "").is_none());
}

#[test]
fn does_not_match_a_name_that_merely_contains_the_query() {
    assert!(symbol(PY, Language::Python, "alph").is_none());
}

#[test]
fn does_not_match_a_mention_inside_a_body() {
    let src = "def caller():\n    alpha()\n\ndef alpha():\n    return 1\n";
    let got = symbol(src, Language::Python, "alpha").expect("found");
    assert!(got.text.starts_with("def alpha():"), "{}", got.text);
}

#[test]
fn prefers_the_longest_matching_prefix() {
    let src = "pub async fn fetch(url: &str) -> u8 {\n    0\n}\n";
    let got = symbol(src, Language::Rust, "fetch").expect("found");
    assert!(got.text.starts_with("pub async fn fetch"), "{}", got.text);
}

#[test]
fn languages_without_declaration_syntax_extract_nothing() {
    assert!(symbol("anything at all\n", Language::Other, "anything").is_none());
}

#[test]
fn the_snippet_spans_exactly_its_reported_lines() {
    let got = symbol(RS, Language::Rust, "add").expect("found");
    assert_eq!(got.start_line, 3);
    assert_eq!(got.end_line, 9);
    assert!(!got.truncated);
    let lines: Vec<&str> = RS.lines().collect();
    assert_eq!(got.text, lines[2..9].join("\n"));
}

#[test]
fn a_name_followed_by_a_non_identifier_character_matches() {
    let src = "fn g<T>(x: T) {}\n";
    let got = symbol(src, Language::Rust, "g").expect("found");
    assert_eq!(got.text, "fn g<T>(x: T) {}");
    assert_eq!((got.start_line, got.end_line), (1, 1));
}

#[test]
fn unicode_letters_continue_an_identifier() {
    // `é` is alphanumeric, so `caf` is only a prefix of the name `café`.
    let src = "fn café() {}\n";
    assert!(symbol(src, Language::Rust, "caf").is_none());
    assert!(symbol(src, Language::Rust, "café").is_some());
}

#[test]
fn identifier_len_follows_the_given_classification() {
    let text: Vec<char> = "ab_c(d".chars().collect();
    assert_eq!(identifier_len(&text, &vec![true, true, false, true, false, true]), 4);
    assert_eq!(identifier_len(&text, &vec![true, false, false, false, false, false]), 1);
    assert_eq!(identifier_len(&text, &vec![false; 6]), 0);
    let underscores: Vec<char> = "__x".chars().collect();
    assert_eq!(identifier_len(&underscores, &vec![false, false, false]), 2);
}
