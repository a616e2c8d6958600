use context_compressor_mcp::compress::whitespace::collapse;

#[test]
fn collapses_runs_of_blank_lines_to_one() {
    assert_eq!(collapse("a\n\n\n\n\nb\n"), "a\n\nb\n");
}

#[test]
fn keeps_a_single_blank_line_as_a_separator() {
    assert_eq!(collapse("a\n\nb\n"), "a\n\nb\n");
}

#[test]
fn strips_trailing_whitespace_but_keeps_indentation() {
    assert_eq!(collapse("    indented   \n\tt\t\n"), "    indented\n\tt\n");
}

#[test]
fn drops_leading_and_trailing_blank_lines() {
    assert_eq!(collapse("\n\n\ncode\n\n\n"), "code\n");
}

#[test]
fn whitespace_only_lines_count_as_blank() {
    assert_eq!(collapse("a\n   \n\t\n\nb\n"), "a\n\nb\n");
}

#[test]
fn empty_and_whitespace_only_input_yield_empty_output() {
    assert_eq!(collapse(""), "");
    assert_eq!(collapse("\n\n\n"), "");
    assert_eq!(collapse("   \n\t  \n"), "");
}

#[test]
fn output_always_ends_with_exactly_one_newline() {
    for input in ["a", "a\n", "a\n\n\n"] {
        let got = collapse(input);
        assert!(got.ends_with('\n'), "{input:?} -> {got:?}");
        assert!(!got.ends_with("\n\n"), "{input:?} -> {got:?}");
    }
}

#[test]
fn crlf_line_endings_are_normalised() {
    assert_eq!(collapse("a\r\nb\r\n"), "a\nb\n");
}

#[test]
fn multibyte_characters_survive_intact() {
    assert_eq!(collapse("héllo → 世界  \n"), "héllo → 世界\n");
}

#[test]
fn is_idempotent() {
    let once = collapse("a\n\n\n\nb   \n\n");
    assert_eq!(collapse(&once), once);
}

#[test]
fn collapsing_twice_changes_nothing_on_messy_input() {
    for input in ["\r\n\r\n x \r\n\r\n\r\ny", "a", "\t\n\n\t\tb\t\n\n\n", "  "] {
        let once = collapse(input);
        assert_eq!(collapse(&once), once, "{input:?}");
    }
}

#[test]
fn unicode_whitespace_is_trailing_whitespace_too() {
    assert_eq!(collapse("a\u{3000}\n\u{a0}\n\nb"), "a\n\nb\n");
}

#[test]
fn collapse_is_empty_exactly_for_blank_sources() {
    assert_eq!(collapse(" \t\r\n\u{a0}\n"), "");
    let got = collapse("\n\n  x\n");
    assert_eq!(got, "  x\n");
    assert!(!got.starts_with('\n'));
}
