use context_compressor_mcp::compress::block::{
    brace_delta, end_by_braces, end_by_indent, MAX_SYMBOL_LINES,
};
use context_compressor_mcp::compress::extract::symbol;
use context_compressor_mcp::compress::Language;

#[test]
fn brace_delta_reports_net_depth() {
    assert_eq!(brace_delta("fn f() {"), 1);
    assert_eq!(brace_delta("}"), -1);
    assert_eq!(brace_delta("if x { y() }"), 0);
}

#[test]
fn a_nested_block_does_not_end_the_outer_one() {
    let lines = vec![
        "fn f() {",
        "    if x {",
        "        y();",
        "    }",
        "    z();",
        "}",
        "after",
    ];
    assert_eq!(end_by_braces(&lines, 0), (5, false));
}

#[test]
fn indentation_ends_a_block_at_the_first_line_back_at_base() {
    let lines = vec!["def f():", "    a()", "    b()", "def g():"];
    assert_eq!(end_by_indent(&lines, 0), (2, false));
}

#[test]
fn a_trailing_blank_line_is_not_part_of_the_block() {
    let lines = vec!["def f():", "    a()", "", "def g():"];
    assert_eq!(end_by_indent(&lines, 0), (1, false));
}

#[test]
fn a_runaway_block_is_bounded_and_flagged() {
    let mut src = String::from("def huge():\n");
    for _ in 0..MAX_SYMBOL_LINES + 50 {
        src.push_str("    work()\n");
    }
    let got = symbol(&src, Language::Python, "huge").expect("found");
    assert!(got.truncated, "should report truncation");
    assert!(got.text.lines().count() <= MAX_SYMBOL_LINES + 2);
}

#[test]
fn an_unclosed_rust_block_is_flagged_rather_than_silently_short() {
    let got = symbol("fn broken() {\n    work();\n", Language::Rust, "broken").expect("found");
    assert!(got.truncated, "unbalanced braces must be reported");
}

#[test]
fn a_runaway_brace_block_stops_at_the_line_cap() {
    let mut lines = vec!["fn f() {"];
    for _ in 0..MAX_SYMBOL_LINES + 10 {
        lines.push("    work();");
    }
    assert_eq!(end_by_braces(&lines, 0), (MAX_SYMBOL_LINES, true));
}

#[test]
fn a_line_that_opens_and_closes_its_braces_does_not_open_a_block() {
    // Only the net depth at the end of a line counts, so `{ x() }` never opens
    // a block; with no `;` either, the search runs to the end of the file.
    let lines = vec!["fn f() { x() }", "after"];
    assert_eq!(end_by_braces(&lines, 0), (1, false));
}

#[test]
fn an_indented_block_running_to_the_end_of_the_file_is_not_truncated() {
    let lines = vec!["def f():", "    a()", "    b()"];
    assert_eq!(end_by_indent(&lines, 0), (2, false));
}
