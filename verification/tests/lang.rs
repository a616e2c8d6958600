use context_compressor_mcp::compress::Language;

#[test]
fn detects_languages_by_extension() {
    assert_eq!(Language::from_path("a/b/main.rs"), Language::Rust);
    assert_eq!(Language::from_path("script.py"), Language::Python);
    assert_eq!(Language::from_path("app.tsx"), Language::TypeScript);
    assert_eq!(Language::from_path("mod.mjs"), Language::JavaScript);
    assert_eq!(Language::from_path("srv.go"), Language::Go);
}

#[test]
fn unknown_and_missing_extensions_fall_back_to_other() {
    assert_eq!(Language::from_path("notes.txt"), Language::Other);
    assert_eq!(Language::from_path("Makefile"), Language::Other);
    assert_eq!(Language::from_path(".gitignore"), Language::Other);
}

#[test]
fn extension_matching_is_case_sensitive_and_does_not_match_substrings() {
    assert_eq!(Language::from_path("rust.rs.bak"), Language::Other);
}

#[test]
fn other_has_no_syntax_markers_so_only_whitespace_applies() {
    assert!(Language::Other.line_comment().is_none());
    assert!(Language::Other.import_prefixes().is_empty());
    assert!(Language::Other.signature_prefixes().is_empty());
}

#[test]
fn python_has_no_block_comments() {
    assert!(!Language::Python.has_block_comments());
    assert!(Language::Rust.has_block_comments());
}

#[test]
fn upper_case_extensions_are_not_recognised() {
    assert_eq!(Language::from_path("MAIN.RS"), Language::Other);
    assert_eq!(Language::from_path("stub.pyi"), Language::Python);
    assert_eq!(Language::from_path("lib.cjs"), Language::JavaScript);
    assert_eq!(Language::from_path("a.dir/file"), Language::Other);
}

#[test]
fn each_language_names_its_markers() {
    assert_eq!(Language::Python.line_comment(), Some("#"));
    assert_eq!(Language::Go.line_comment(), Some("//"));
    assert_eq!(Language::Rust.doc_prefixes(), &["///", "//!"]);
    assert_eq!(Language::Python.import_prefixes(), &["import ", "from "]);
    assert_eq!(Language::Go.signature_prefixes(), &["func ", "type ", "package "]);
}
