use context_compressor_mcp::compress::guard::{FileFacts, PathProbe};
use context_compressor_mcp::compress::{
    compress_file, compress_str, extract_symbol, GuardError, Language, OUTLINE_THRESHOLD_BYTES,
};

const RUST_SAMPLE: &str = "\
// internal note
use std::fmt;


/// Public API.
pub fn add(a: i32, b: i32) -> i32 {
    // adds them
    a + b   
}
use std::fmt;
";

fn probe(root: &str, resolved: Option<&str>, facts: Option<(bool, u64)>) -> PathProbe {
    PathProbe {
        root: Some(root.to_owned()),
        resolved: resolved.map(str::to_owned),
        metadata: facts.map(|(is_file, len)| FileFacts { is_file, len }),
    }
}

#[test]
fn end_to_end_removes_noise_and_keeps_signal() {
    let report = compress_str(RUST_SAMPLE, Language::Rust, OUTLINE_THRESHOLD_BYTES);
    assert!(report.text.contains("use std::fmt;"), "{}", report.text);
    assert!(report.text.contains("/// Public API."), "{}", report.text);
    assert!(
        report.text.contains("pub fn add(a: i32, b: i32) -> i32 {"),
        "{}",
        report.text
    );
    assert!(!report.text.contains("internal note"), "{}", report.text);
    assert!(!report.text.contains("adds them"), "{}", report.text);
}

#[test]
fn module_docs_stay_above_the_hoisted_imports() {
    let source = "//! Module doc.\nuse std::fmt;\nfn f() {}\n";
    let report = compress_str(source, Language::Rust, OUTLINE_THRESHOLD_BYTES);
    let doc_at = report.text.find("//! Module doc.").expect("doc kept");
    let use_at = report.text.find("use std::fmt;").expect("import kept");
    assert!(
        doc_at < use_at,
        "doc must precede imports:\n{}",
        report.text
    );
}

#[test]
fn duplicate_imports_appear_once() {
    let report = compress_str(RUST_SAMPLE, Language::Rust, OUTLINE_THRESHOLD_BYTES);
    assert_eq!(
        report.text.matches("use std::fmt;").count(),
        1,
        "{}",
        report.text
    );
}

#[test]
fn does_not_outline_when_under_the_threshold() {
    let report = compress_str(RUST_SAMPLE, Language::Rust, OUTLINE_THRESHOLD_BYTES);
    assert!(!report.outlined);
    assert!(report.text.contains("a + b"), "{}", report.text);
}

#[test]
fn outlines_when_over_the_threshold() {
    let report = compress_str(RUST_SAMPLE, Language::Rust, 1);
    assert!(report.outlined);
    assert!(report.text.contains("pub fn add"), "{}", report.text);
    assert!(!report.text.contains("a + b"), "{}", report.text);
}

#[test]
fn unknown_languages_still_get_whitespace_compression() {
    let report = compress_str("a\n\n\n\n\nb\n", Language::Other, OUTLINE_THRESHOLD_BYTES);
    assert_eq!(report.text, "a\n\nb\n");
}

#[test]
fn compression_shrinks_the_sample_and_counts_bytes() {
    let report = compress_str(RUST_SAMPLE, Language::Rust, OUTLINE_THRESHOLD_BYTES);
    assert_eq!(report.original_bytes, RUST_SAMPLE.len());
    assert_eq!(report.compressed_bytes, report.text.len());
    assert!(report.compressed_bytes < report.original_bytes);
    assert_eq!(report.language, Language::Rust);
}

#[test]
fn empty_input_compresses_to_nothing() {
    let report = compress_str("", Language::Rust, OUTLINE_THRESHOLD_BYTES);
    assert_eq!(report.original_bytes, 0);
    assert_eq!(report.compressed_bytes, 0);
    assert_eq!(report.text, "");
    assert!(!report.outlined);
}

#[test]
fn byte_counts_are_utf8_lengths() {
    let source = "let s = \"héllo 世界\";\n";
    let report = compress_str(source, Language::Rust, OUTLINE_THRESHOLD_BYTES);
    assert_eq!(report.original_bytes, source.len());
    assert_eq!(report.text, source);
    assert_eq!(report.compressed_bytes, source.len());
}

#[test]
fn the_exact_pack_for_a_small_rust_file() {
    let report = compress_str(RUST_SAMPLE, Language::Rust, OUTLINE_THRESHOLD_BYTES);
    assert_eq!(
        report.text,
        "use std::fmt;\n\n/// Public API.\npub fn add(a: i32, b: i32) -> i32 {\n    a + b\n}\n"
    );
}

#[test]
fn extraction_goes_through_the_same_trust_boundary_as_compression() {
    let traversal = probe("/tmp", Some("/etc/hosts"), Some((true, 10)));
    let error = extract_symbol(
        "../../../etc/hosts",
        &traversal,
        Ok("x".to_owned()),
        "anything",
    )
    .expect_err("traversal must be refused");
    assert!(matches!(
        error,
        GuardError::OutsideRoot | GuardError::NotFound
    ));
}

#[test]
fn compressing_a_missing_file_reports_a_guard_error() {
    let missing = probe("/tmp", None, None);
    let error = compress_file(
        "definitely-not-here-9f2a.rs",
        &missing,
        Err(GuardError::Unreadable),
        OUTLINE_THRESHOLD_BYTES,
    )
    .expect_err("missing file must fail");
    assert_eq!(error, GuardError::NotFound);
}

#[test]
fn a_read_failure_after_validation_is_reported_as_is() {
    let ok = probe("/p", Some("/p/a.rs"), Some((true, 3)));
    let error = compress_file("a.rs", &ok, Err(GuardError::NotUtf8), OUTLINE_THRESHOLD_BYTES)
        .expect_err("unreadable text must fail");
    assert_eq!(error, GuardError::NotUtf8);
}

#[test]
fn the_language_comes_from_the_resolved_path() {
    let ok = probe("/p", Some("/p/lib/a.py"), Some((true, 20)));
    let report = compress_file(
        "lib/a.py",
        &ok,
        Ok("x = 1  # note\n".to_owned()),
        OUTLINE_THRESHOLD_BYTES,
    )
    .expect("valid file");
    assert_eq!(report.language, Language::Python);
    assert_eq!(report.text, "x = 1\n");
}

#[test]
fn extract_symbol_finds_a_definition_in_a_validated_file() {
    let ok = probe("/p", Some("/p/m.rs"), Some((true, 20)));
    let snippet = extract_symbol("m.rs", &ok, Ok("fn f() {\n    g();\n}\n".to_owned()), "f")
        .expect("valid file")
        .expect("symbol present");
    assert_eq!(snippet.text, "fn f() {\n    g();\n}");
    assert_eq!((snippet.start_line, snippet.end_line), (1, 3));
    let none = extract_symbol("m.rs", &ok, Ok("fn f() {}\n".to_owned()), "g").expect("valid");
    assert!(none.is_none());
}
