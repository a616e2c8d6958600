use context_compressor_mcp::compress::signatures::outline;
use context_compressor_mcp::compress::Language;

#[test]
fn keeps_signatures_and_elides_bodies() {
    let src = "fn add(a: i32, b: i32) -> i32 {\n    let c = a + b;\n    c\n}\n";
    let got = outline(src, Language::Rust);
    assert!(got.contains("fn add(a: i32, b: i32) -> i32 {"), "{got}");
    assert!(!got.contains("let c"), "{got}");
    assert!(got.contains("// ..."), "{got}");
}

#[test]
fn keeps_struct_trait_and_impl_headers() {
    let src = "pub struct S {\n    field: u8,\n}\ntrait T {\n    fn m(&self);\n}\nimpl T for S {\n    fn m(&self) {}\n}\n";
    let got = outline(src, Language::Rust);
    for expected in ["pub struct S {", "trait T {", "impl T for S {"] {
        assert!(got.contains(expected), "missing {expected} in {got}");
    }
    assert!(!got.contains("field: u8"), "{got}");
}

#[test]
fn keeps_doc_comments_attached_to_their_declaration() {
    let src = "/// Adds.\nfn add() {\n    body();\n}\n";
    let got = outline(src, Language::Rust);
    assert!(got.starts_with("/// Adds."), "{got}");
}

#[test]
fn keeps_top_level_closing_braces_only() {
    let src = "fn f() {\n    if x {\n        y();\n    }\n}\n";
    assert_eq!(outline(src, Language::Rust).matches('}').count(), 1);
}

#[test]
fn consecutive_elided_lines_collapse_to_one_marker() {
    let src = "fn f() {\n    a();\n    b();\n    c();\n}\n";
    assert_eq!(outline(src, Language::Rust).matches("// ...").count(), 1);
}

#[test]
fn keeps_the_docstring_summary_and_elides_the_rest() {
    let src = "def f(x):\n    \"\"\"\n    Compute a thing.\n\n    Parameters\n    ----------\n    x : int\n    \"\"\"\n    return x\n";
    let got = outline(src, Language::Python);
    assert!(got.contains("Compute a thing."), "{got}");
    assert!(!got.contains("Parameters"), "{got}");
    assert!(!got.contains("return x"), "{got}");
}

#[test]
fn keeps_the_module_docstring() {
    let src = "\"\"\"This module does things.\"\"\"\nimport os\ndef f():\n    pass\n";
    assert!(outline(src, Language::Python).contains("This module does things."));
}

#[test]
fn keeps_the_docstring_of_a_multi_line_signature() {
    let src = "def f(\n    a,\n    b,\n):\n    \"\"\"Summary.\"\"\"\n    pass\n";
    let got = outline(src, Language::Python);
    assert!(got.contains("Summary."), "{got}");
}

#[test]
fn does_not_keep_docstring_bullets_as_orphan_lines() {
    let src = "def f(x):\n    \"\"\"\n    Summary.\n\n    * 'propagate': returns nan\n    * 'raise': throws\n    \"\"\"\n    pass\n";
    let got = outline(src, Language::Python);
    assert!(!got.contains("'propagate'"), "{got}");
    assert!(!got.contains("* 'raise'"), "{got}");
}

#[test]
fn a_bare_star_is_still_a_doc_line_in_rust() {
    let src = "/**\n * Kept.\n */\nfn f() {}\n";
    let got = outline(src, Language::Rust);
    assert!(got.contains("* Kept."), "{got}");
}

#[test]
fn keeps_python_defs_classes_and_decorators() {
    let src = "@cache\ndef f(x):\n    return x + 1\n\nclass C:\n    pass\n";
    let got = outline(src, Language::Python);
    for expected in ["@cache", "def f(x):", "class C:"] {
        assert!(got.contains(expected), "missing {expected} in {got}");
    }
    assert!(!got.contains("return x + 1"), "{got}");
}

#[test]
fn keeps_typescript_exported_declarations() {
    let src = "export interface A {\n  b: string;\n}\nexport function f() {\n  work();\n}\n";
    let got = outline(src, Language::TypeScript);
    assert!(got.contains("export interface A {"), "{got}");
    assert!(!got.contains("work();"), "{got}");
}

#[test]
fn unknown_languages_pass_through_unchanged() {
    let src = "some prose\nmore prose\n";
    assert_eq!(outline(src, Language::Other), src);
}

#[test]
fn signatures_empty_input_gives_empty_output() {
    assert_eq!(outline("", Language::Rust), "");
}

#[test]
fn a_file_of_only_bodies_still_reports_the_elision() {
    assert_eq!(
        outline("    a();\n    b();\n", Language::Rust),
        "    // ...\n"
    );
}

#[test]
fn never_grows_the_input() {
    let src = "fn f() {\n    a();\n    b();\n}\n";
    assert!(outline(src, Language::Rust).len() <= src.len());
}

#[test]
fn the_exact_outline_of_a_rust_function() {
    let src = "/// Adds.\nfn add(a: i32) -> i32 {\n    a + 1\n}\n";
    assert_eq!(
        outline(src, Language::Rust),
        "/// Adds.\nfn add(a: i32) -> i32 {\n    // ...\n}\n"
    );
}

#[test]
fn python_elisions_use_python_comment_syntax() {
    let src = "def f():\n    return 1\n";
    assert_eq!(outline(src, Language::Python), "def f():\n    # ...\n");
}
