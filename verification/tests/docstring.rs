use context_compressor_mcp::compress::docstring::{Closed, Docstring, Opening};

fn open(line: &str) -> Opening {
    Docstring::open(line).expect("line opens a docstring")
}

fn run(lines: &[&str]) -> Closed {
    match open(lines[0]) {
        Opening::Complete(closed) => closed,
        Opening::Ongoing(mut state) => {
            for line in &lines[1..] {
                if let Some(closed) = state.feed(line) {
                    return closed;
                }
            }
            panic!("docstring never closed");
        }
    }
}

#[test]
fn recognises_both_quote_styles() {
    assert!(Docstring::open("    \"\"\"Doc.\"\"\"").is_some());
    assert!(Docstring::open("    '''Doc.'''").is_some());
}

#[test]
fn recognises_prefixed_string_literals() {
    assert!(Docstring::open("    r\"\"\"Raw doc.\"\"\"").is_some());
    assert!(Docstring::open("    f'''Formatted.'''").is_some());
}

#[test]
fn ignores_a_line_that_opens_no_docstring() {
    assert!(Docstring::open("    return x").is_none());
    assert!(Docstring::open("    x = \"single quoted\"").is_none());
}

#[test]
fn a_one_line_docstring_closes_immediately() {
    let closed = run(&["    \"\"\"Short and done.\"\"\""]);
    assert_eq!(
        closed.rendered.as_deref(),
        Some("    \"\"\"Short and done.\"\"\"")
    );
    assert!(!closed.elided_any);
}

#[test]
fn keeps_the_summary_from_the_opening_line() {
    let closed = run(&["    \"\"\"Summary here.", "", "    Detail.", "    \"\"\""]);
    assert_eq!(
        closed.rendered.as_deref(),
        Some("    \"\"\"Summary here.\"\"\"")
    );
    assert!(closed.elided_any, "the detail paragraph was dropped");
}

#[test]
fn keeps_the_summary_from_the_line_below_the_opening() {
    let closed = run(&[
        "    \"\"\"",
        "    Compute a thing.",
        "",
        "    Parameters",
        "    \"\"\"",
    ]);
    assert_eq!(
        closed.rendered.as_deref(),
        Some("    \"\"\"Compute a thing.\"\"\"")
    );
}

#[test]
fn output_is_always_a_closed_pair_of_quotes() {
    let closed = run(&["    \"\"\"", "    Summary.", "    More.", "    \"\"\""]);
    let rendered = closed.rendered.expect("summary kept");
    assert_eq!(rendered.matches("\"\"\"").count(), 2, "{rendered}");
}

#[test]
fn a_trailing_backslash_cannot_escape_the_closing_quotes() {
    let closed = run(&[
        "    \"\"\"",
        "    Summary ending in a backslash \\",
        "    \"\"\"",
    ]);
    let rendered = closed.rendered.expect("summary kept");
    assert!(rendered.ends_with("\"\"\""), "{rendered}");
    assert!(!rendered.contains("\\\"\"\""), "{rendered}");
}

#[test]
fn an_empty_docstring_renders_nothing() {
    let closed = run(&["    \"\"\"", "    \"\"\""]);
    assert!(closed.rendered.is_none());
}

#[test]
fn indentation_is_preserved() {
    let closed = run(&["        \"\"\"Nested.\"\"\""]);
    assert_eq!(
        closed.rendered.as_deref(),
        Some("        \"\"\"Nested.\"\"\"")
    );
}

#[test]
fn bullets_after_the_summary_are_dropped() {
    let closed = run(&[
        "    \"\"\"",
        "    Summary.",
        "",
        "    * 'propagate': returns nan",
        "    * 'raise': throws",
        "    \"\"\"",
    ]);
    let rendered = closed.rendered.expect("summary kept");
    assert!(!rendered.contains("propagate"), "{rendered}");
    assert!(closed.elided_any);
}

#[test]
fn single_quoted_docstrings_close_on_their_own_delimiter() {
    // The summary is always re-emitted between double quotes.
    let closed = run(&["    '''", "    Summary.", "    \"\"\" not the end", "    '''"]);
    assert_eq!(closed.rendered.as_deref(), Some("    \"\"\"Summary.\"\"\""));
    assert!(closed.elided_any);
}

#[test]
fn a_summary_that_closes_its_own_line_elides_nothing() {
    let closed = run(&["    \"\"\"", "    Summary.\"\"\""]);
    assert_eq!(closed.rendered.as_deref(), Some("    \"\"\"Summary.\"\"\""));
    assert!(!closed.elided_any);
}

#[test]
fn a_bare_closing_delimiter_elides_nothing() {
    let closed = run(&["    \"\"\"", "    Summary.", "    \"\"\""]);
    assert_eq!(closed.rendered.as_deref(), Some("    \"\"\"Summary.\"\"\""));
    assert!(!closed.elided_any);
}

#[test]
fn an_empty_docstring_elides_nothing() {
    let closed = run(&["    \"\"\"", "", "    \"\"\""]);
    assert!(closed.rendered.is_none());
    assert!(!closed.elided_any);
}
