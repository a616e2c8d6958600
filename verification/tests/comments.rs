use context_compressor_mcp::compress::comments::strip;
use context_compressor_mcp::compress::Language;

#[test]
fn drops_a_comment_only_line() {
    assert_eq!(
        strip("// noise\nlet x = 1;\n", Language::Rust),
        "let x = 1;\n"
    );
}

#[test]
fn drops_a_trailing_comment_but_keeps_the_code() {
    assert_eq!(strip("let x = 1; // why\n", Language::Rust), "let x = 1;\n");
}

#[test]
fn keeps_rust_doc_comments() {
    let src = "/// Adds two numbers.\n//! Module doc.\nfn add() {}\n";
    assert_eq!(strip(src, Language::Rust), src);
}

#[test]
fn keeps_a_doc_block_comment_and_drops_a_plain_one() {
    let doc = "/**\n * Kept.\n */\nfn f() {}\n";
    assert_eq!(strip(doc, Language::Rust), doc);
    assert_eq!(
        strip("/*\n plain\n*/\nfn f() {}\n", Language::Rust),
        "fn f() {}\n"
    );
}

#[test]
fn does_not_strip_a_double_slash_inside_a_string() {
    let src = "let url = \"https://example.com/x\";\n";
    assert_eq!(strip(src, Language::Rust), src);
}

#[test]
fn strips_a_comment_that_follows_a_string_containing_slashes() {
    let src = "let url = \"https://example.com\"; // drop me\n";
    assert_eq!(
        strip(src, Language::Rust),
        "let url = \"https://example.com\";\n"
    );
}

#[test]
fn respects_escaped_quotes_when_tracking_strings() {
    let src = "let s = \"a\\\"b\"; // gone\n";
    assert_eq!(strip(src, Language::Rust), "let s = \"a\\\"b\";\n");
}

#[test]
fn a_lifetime_does_not_break_comment_stripping() {
    let src = "fn f<'a>(x: &'a str) {} // gone\n";
    assert_eq!(strip(src, Language::Rust), "fn f<'a>(x: &'a str) {}\n");
}

#[test]
fn python_hash_comments_go_but_docstrings_stay() {
    let src = "def f():\n    \"\"\"Doc stays.\"\"\"\n    x = 1  # gone\n# gone too\n";
    let expected = "def f():\n    \"\"\"Doc stays.\"\"\"\n    x = 1\n";
    assert_eq!(strip(src, Language::Python), expected);
}

#[test]
fn python_shebang_survives_on_the_first_line_only() {
    let src = "#!/usr/bin/env python3\nx = 1\n#!not a shebang\n";
    assert_eq!(
        strip(src, Language::Python),
        "#!/usr/bin/env python3\nx = 1\n"
    );
}

#[test]
fn a_hash_inside_a_python_string_is_not_a_comment() {
    let src = "color = \"#ff0000\"\n";
    assert_eq!(strip(src, Language::Python), src);
}

#[test]
fn unknown_languages_are_returned_untouched() {
    let src = "# this might be a markdown heading\n";
    assert_eq!(strip(src, Language::Other), src);
}

#[test]
fn comments_empty_input_gives_empty_output() {
    assert_eq!(strip("", Language::Rust), "");
}

#[test]
fn multibyte_content_is_not_corrupted() {
    let src = "let s = \"héllo 世界\"; // gone\n";
    assert_eq!(strip(src, Language::Rust), "let s = \"héllo 世界\";\n");
}

#[test]
fn javascript_single_quoted_strings_hide_markers() {
    let src = "const u = 'a//b'; // gone\n";
    assert_eq!(strip(src, Language::JavaScript), "const u = 'a//b';\n");
}

#[test]
fn go_comments_are_stripped_like_rust() {
    assert_eq!(strip("x := 1 // why\n", Language::Go), "x := 1\n");
}
