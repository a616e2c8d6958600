use context_compressor_mcp::compress::guard::MAX_FILE_BYTES;
use context_compressor_mcp::compress::{
    compress_str, GuardError, Language, Report, Snippet, OUTLINE_THRESHOLD_BYTES,
};
use context_compressor_mcp::mcp::codes::INVALID_PARAMS;
use context_compressor_mcp::tools::{
    configured_root, failure_text, language_name, missing_symbol_text, outcome_of, outline_threshold,
    render_report, route_tool, symbol_text, Tool,
};

#[test]
fn compress_the_task_line_is_omitted_when_no_task_is_given() {
    let report = compress_str("fn f() {}\n", Language::Rust, OUTLINE_THRESHOLD_BYTES);
    assert!(!render_report(&report, "   ", "0").contains("// task:"));
}

#[test]
fn tool_the_task_line_is_omitted_when_no_task_is_given() {
    let report = compress_str("fn f() {}\n", Language::Rust, OUTLINE_THRESHOLD_BYTES);
    assert!(!render_report(&report, "   ", "0").contains("// task:"));
}

#[test]
fn compress_an_outlined_pack_tells_the_reader_how_to_expand_it() {
    let report = compress_str("fn f() {\n    body();\n}\n", Language::Rust, 1);
    assert!(report.outlined);
    let text = render_report(&report, "", "20");
    assert!(text.contains("get_symbol"), "{text}");
}

#[test]
fn tool_an_outlined_pack_tells_the_reader_how_to_expand_it() {
    let report = compress_str("fn f() {\n    body();\n}\n", Language::Rust, 1);
    assert!(report.outlined);
    let text = render_report(&report, "", "20");
    assert!(text.contains("get_symbol"), "{text}");
}

#[test]
fn the_header_states_language_mode_sizes_and_task() {
    let report = Report {
        text: "fn f() {}\n".to_owned(),
        language: Language::Rust,
        original_bytes: 20,
        compressed_bytes: 10,
        outlined: false,
    };
    assert_eq!(
        render_report(&report, "  review the wiring ", "50"),
        "// context pack | Rust | full | 20 -> 10 bytes (50% saved)\n// task: review the wiring\n\nfn f() {}\n"
    );
}

#[test]
fn an_outlined_header_names_the_way_back() {
    let report = Report {
        text: "def f():\n    # ...\n".to_owned(),
        language: Language::Python,
        original_bytes: 100,
        compressed_bytes: 19,
        outlined: true,
    };
    assert_eq!(
        render_report(&report, "", "81"),
        "// context pack | Python | outline | 100 -> 19 bytes (81% saved)\n// bodies elided. To read one whole: get_symbol(filePath, symbol)\n\ndef f():\n    # ...\n"
    );
}

#[test]
fn languages_are_named_as_in_the_header() {
    assert_eq!(language_name(Language::JavaScript), "JavaScript");
    assert_eq!(language_name(Language::TypeScript), "TypeScript");
    assert_eq!(language_name(Language::Go), "Go");
    assert_eq!(language_name(Language::Other), "Other");
}

#[test]
fn both_tools_are_advertised() {
    let names: Vec<&str> = Tool::all().iter().map(|t| t.name()).collect();
    assert_eq!(names, vec!["compress_file", "get_symbol"]);
}

#[test]
fn both_tools_are_advertised_in_order() {
    assert_eq!(Tool::all(), vec![Tool::CompressFile, Tool::GetSymbol]);
}

#[test]
fn every_advertised_tool_is_dispatchable() {
    for tool in Tool::all() {
        assert_eq!(route_tool(tool.name()).ok(), Some(tool));
    }
}

#[test]
fn mod_an_unknown_tool_name_is_an_invalid_params_error() {
    let error = route_tool("nope").expect_err("unknown tool");
    assert_eq!(error.code, INVALID_PARAMS);
    assert_eq!(error.message, "unknown tool: nope");
}

#[test]
fn a_found_symbol_is_headed_by_its_line_range() {
    let snippet = Snippet {
        text: "fn collapse() {}".to_owned(),
        start_line: 3,
        end_line: 12,
        truncated: false,
    };
    assert_eq!(
        symbol_text("src/a.rs", &snippet),
        "// src/a.rs lines 3-12\n\nfn collapse() {}"
    );
    let cut = Snippet { truncated: true, ..snippet };
    assert_eq!(
        symbol_text("src/a.rs", &cut),
        "// src/a.rs lines 3-12 (truncated: block never closed)\n\nfn collapse() {}"
    );
}

#[test]
fn an_unknown_symbol_is_named_in_the_answer() {
    assert_eq!(
        missing_symbol_text("no_such_thing", "src/a.rs"),
        "no symbol named `no_such_thing` in src/a.rs"
    );
}

#[test]
fn a_refusal_names_the_tool_and_the_category() {
    assert_eq!(
        failure_text(Tool::GetSymbol, &GuardError::OutsideRoot),
        "get_symbol failed: path resolves outside the allowed root"
    );
    assert_eq!(
        failure_text(Tool::CompressFile, &GuardError::TooLarge { bytes: MAX_FILE_BYTES + 1 }),
        "compress_file failed: file is 8388609 bytes, limit is 8388608"
    );
}

#[test]
fn an_unset_or_blank_root_setting_means_the_working_directory() {
    for configured in [None, Some(""), Some("   ")] {
        assert_eq!(configured_root(configured), None, "{configured:?}");
    }
    assert_eq!(configured_root(Some("  /srv/project ")), Some("/srv/project".to_owned()));
}

#[test]
fn the_threshold_defaults_and_the_outcome_names_the_mode() {
    assert_eq!(outline_threshold(None), OUTLINE_THRESHOLD_BYTES);
    assert_eq!(outline_threshold(Some(1)), 1);
    let full = compress_str("fn f() {}\n", Language::Rust, OUTLINE_THRESHOLD_BYTES);
    assert_eq!(outcome_of(&Ok(full)), "full");
    let outlined = compress_str("fn f() {\n    x();\n}\n", Language::Rust, 1);
    assert_eq!(outcome_of(&Ok(outlined)), "outline");
    assert_eq!(outcome_of(&Err(GuardError::Denied)), "refused");
}
