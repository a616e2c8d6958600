use context_compressor_mcp::usage::{escape, format_record, Record};

const NOW: u64 = 1_700_000_000;

fn sample<'a>(tool: &'a str, outcome: &'a str) -> Record<'a> {
    Record {
        tool,
        file: "src/main.rs",
        input_bytes: Some(100),
        output_bytes: 42,
        outcome,
    }
}

#[test]
fn a_record_formats_as_one_json_line() {
    let line = format_record(&sample("compress_file", "outline"), NOW);
    assert!(line.ends_with('\n'), "{line}");
    assert_eq!(line.matches('\n').count(), 1, "{line}");

    let parsed: serde_json::Value = serde_json::from_str(line.trim()).expect("valid json");
    assert_eq!(parsed["tool"], "compress_file");
    assert_eq!(parsed["outcome"], "outline");
    assert_eq!(parsed["in"], 100);
    assert_eq!(parsed["out"], 42);
    assert!(parsed["ts"].as_u64().unwrap_or(0) > 0);
}

#[test]
fn an_absent_input_size_is_omitted_rather_than_zero() {
    let line = format_record(
        &Record {
            tool: "get_symbol",
            file: "a.rs",
            input_bytes: None,
            output_bytes: 7,
            outcome: "symbol",
        },
        NOW,
    );
    let parsed: serde_json::Value = serde_json::from_str(line.trim()).expect("valid json");
    assert!(parsed["in"].is_null(), "{line}");
}

#[test]
fn quotes_and_backslashes_in_a_path_stay_valid_json() {
    let line = format_record(
        &Record {
            tool: "compress_file",
            file: r#"weird "name" \ here.rs"#,
            input_bytes: None,
            output_bytes: 7,
            outcome: "refused",
        },
        NOW,
    );
    let parsed: serde_json::Value = serde_json::from_str(line.trim()).expect("escaping holds");
    assert_eq!(parsed["file"], r#"weird "name" \ here.rs"#);
}

#[test]
fn never_records_file_contents() {
    let line = format_record(&sample("compress_file", "full"), NOW);
    for field in ["text", "content", "body", "source"] {
        assert!(!line.contains(field), "{field} leaked into {line}");
    }
}

#[test]
fn the_exact_line_for_a_record() {
    let line = format_record(&sample("compress_file", "full"), 12);
    assert_eq!(
        line,
        "{\"ts\":12,\"tool\":\"compress_file\",\"file\":\"src/main.rs\",\"outcome\":\"full\",\"in\":100,\"out\":42}\n"
    );
}

#[test]
fn a_zero_timestamp_is_written_as_zero() {
    let line = format_record(
        &Record { tool: "t", file: "f", input_bytes: Some(0), output_bytes: 0, outcome: "o" },
        0,
    );
    assert_eq!(
        line,
        "{\"ts\":0,\"tool\":\"t\",\"file\":\"f\",\"outcome\":\"o\",\"in\":0,\"out\":0}\n"
    );
}

#[test]
fn escape_doubles_backslashes_and_escapes_quotes() {
    assert_eq!(escape(r#"a\b"c"#), r#"a\\b\"c"#);
    assert_eq!(escape("plain"), "plain");
    assert_eq!(escape(""), "");
}

#[test]
fn control_characters_in_a_path_cannot_split_the_record() {
    let file = "a\nb\r\tc\u{1}d\u{1f}";
    let line = format_record(
        &Record { tool: "compress_file", file, input_bytes: None, output_bytes: 1, outcome: "refused" },
        NOW,
    );
    assert_eq!(line.matches('\n').count(), 1, "{line}");
    assert!(line.ends_with('\n'));
    let parsed: serde_json::Value = serde_json::from_str(line.trim()).expect("valid json");
    assert_eq!(parsed["file"], file);
}

#[test]
fn escape_uses_short_and_unicode_escapes_for_control_characters() {
    assert_eq!(escape("a\nb"), "a\\nb");
    assert_eq!(escape("\r\t"), "\\r\\t");
    assert_eq!(escape("\u{0}\u{1b}"), "\\u0000\\u001b");
    assert_eq!(escape("é\u{7f}"), "é\u{7f}");
}
