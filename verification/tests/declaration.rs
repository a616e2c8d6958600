use context_compressor_mcp::compress::declaration::{
    indent_width, is_declaration, is_doc, paren_delta, MAX_CONTINUATION_LINES,
};
use context_compressor_mcp::compress::signatures::outline;
use context_compressor_mcp::compress::Language;

#[test]
fn indent_width_counts_leading_whitespace() {
    assert_eq!(indent_width("no indent"), 0);
    assert_eq!(indent_width("    four"), 4);
    assert_eq!(indent_width("\tone tab"), 1);
}

#[test]
fn paren_delta_reports_net_depth() {
    assert_eq!(paren_delta("def f(a, b):"), 0);
    assert_eq!(paren_delta("def f(a,"), 1);
    assert_eq!(paren_delta("    b):"), -1);
}

#[test]
fn declaration_prefixes_need_their_trailing_space() {
    assert!(is_declaration("fn add()", Language::Rust));
    assert!(!is_declaration("fnord()", Language::Rust));
    assert!(is_declaration("def f():", Language::Python));
    assert!(!is_declaration("default = 1", Language::Python));
}

#[test]
fn a_bare_star_is_a_doc_line_only_where_block_comments_exist() {
    assert!(is_doc("* Kept.", Language::Rust));
    assert!(!is_doc("* 'propagate': returns nan", Language::Python));
}

#[test]
fn follows_a_multi_line_signature_to_its_closing_paren() {
    let src = "def ttest_ind(a, b, *, axis=0,\n              alternative='two-sided', trim=0):\n    return 1\n";
    let got = outline(src, Language::Python);
    assert!(got.contains("alternative='two-sided'"), "{got}");
    assert!(got.contains("trim=0):"), "{got}");
    assert!(!got.contains("return 1"), "{got}");
}

#[test]
fn every_kept_signature_closes_before_the_next_declaration() {
    let src = "def f(\n    a,\n    b,\n):\n    body()\n\ndef g(x):\n    body()\n";
    let got = outline(src, Language::Python);
    let mut depth = 0_i32;
    for line in got.lines() {
        let starts_declaration = line.trim_start().starts_with("def ");
        assert!(
            !(starts_declaration && depth > 0),
            "signature still open at: {line}\n{got}"
        );
        depth += paren_delta(line);
        depth = depth.max(0);
    }
    assert_eq!(depth, 0, "signature left open at end of file:\n{got}");
}

#[test]
fn follows_a_multi_line_rust_signature() {
    let src = "fn long(\n    a: i32,\n    b: i32,\n) -> i32 {\n    a\n}\n";
    let got = outline(src, Language::Rust);
    assert!(got.contains("a: i32"), "{got}");
    assert!(got.contains(") -> i32 {"), "{got}");
    assert!(!got.contains("\n    a\n"), "{got}");
}

#[test]
fn follows_a_multi_line_decorator() {
    let src =
        "@factory(pack_result, default_axis=0,\n         n_samples=2)\ndef f(x):\n    pass\n";
    let got = outline(src, Language::Python);
    assert!(got.contains("n_samples=2)"), "{got}");
}

#[test]
fn an_unbalanced_paren_cannot_swallow_the_file() {
    let mut src = String::from("def f(x = \"(\"):\n");
    for _ in 0..200 {
        src.push_str("    body();\n");
    }
    let got = outline(&src, Language::Python);
    assert!(got.lines().count() < MAX_CONTINUATION_LINES + 4, "{got}");
}

#[test]
fn indent_width_counts_bytes_of_unicode_whitespace() {
    assert_eq!(indent_width("\u{3000}x"), 3);
    assert_eq!(indent_width(""), 0);
    assert_eq!(indent_width("   "), 3);
}

#[test]
fn paren_delta_counts_every_paren_on_the_line() {
    assert_eq!(paren_delta("(()"), 1);
    assert_eq!(paren_delta("))"), -2);
    assert_eq!(paren_delta("no parens"), 0);
}

#[test]
fn typescript_and_go_declarations_are_recognised() {
    assert!(is_declaration("export function f() {", Language::TypeScript));
    assert!(is_declaration("func main() {", Language::Go));
    assert!(!is_declaration("fn f()", Language::Other));
}

#[test]
fn paren_counts_add_up_over_concatenation() {
    let (a, b) = ("def f(a,", "    b):");
    assert_eq!(paren_delta(&format!("{a}{b}")), paren_delta(a) + paren_delta(b));
    assert_eq!(paren_delta(&format!("{a}{b}")), 0);
}
