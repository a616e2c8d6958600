use context_compressor_mcp::mcp::codes::{INVALID_REQUEST, METHOD_NOT_FOUND, PARSE_ERROR};
use context_compressor_mcp::mcp::{
    answer, classify, next_incoming, parse_error, too_large_error, unknown_method_error, Answer,
    Incoming, Method, MAX_LINE_BYTES,
};
use serde_json::Value;

fn empty_object() -> Value {
    Value::Object(serde_json::Map::new())
}

/// Classify the way a server does: the tool name and arguments are what the
/// params hold under those keys.
fn classify_request(method: &str, params: Option<Value>) -> Method<Value> {
    let name = params
        .as_ref()
        .and_then(|p| p.get("name"))
        .and_then(Value::as_str)
        .map(str::to_owned);
    let arguments = params.as_ref().and_then(|p| p.get("arguments")).cloned();
    classify(method, name.as_deref(), arguments, empty_object())
}

/// Feed `input` through `next_incoming` one `read_line` at a time.
fn read_all(input: &str) -> Vec<String> {
    let mut out = Vec::new();
    let mut rest = input;
    loop {
        let line = match rest.find('\n') {
            Some(i) => &rest[..=i],
            None => rest,
        };
        rest = &rest[line.len()..];
        match next_incoming(line.len(), line) {
            Some(Incoming::Line(l)) => out.push(l),
            Some(Incoming::TooLong) => out.push("<too-long>".to_owned()),
            Some(Incoming::Eof) => return out,
            None => {}
        }
    }
}

#[test]
fn classifies_the_handshake_methods() {
    assert_eq!(classify_request("initialize", None), Method::Initialize);
    assert_eq!(classify_request("tools/list", None), Method::ToolsList);
    assert_eq!(classify_request("ping", None), Method::Ping);
}

#[test]
fn accepts_both_spellings_of_the_initialized_notification() {
    assert_eq!(
        classify_request("notifications/initialized", None),
        Method::Initialized
    );
    assert_eq!(classify_request("initialized", None), Method::Initialized);
}

#[test]
fn extracts_tool_name_and_arguments() {
    let mut arguments = serde_json::Map::new();
    arguments.insert("filePath".to_owned(), Value::String("a.rs".to_owned()));
    let mut params = serde_json::Map::new();
    params.insert("name".to_owned(), Value::String("compress_file".to_owned()));
    params.insert("arguments".to_owned(), Value::Object(arguments));
    match classify_request("tools/call", Some(Value::Object(params))) {
        Method::ToolsCall { name, arguments } => {
            assert_eq!(name, "compress_file");
            assert_eq!(arguments["filePath"], "a.rs");
        }
        other => panic!("expected ToolsCall, got {other:?}"),
    }
}

#[test]
fn tool_call_without_arguments_yields_an_empty_object() {
    let mut params = serde_json::Map::new();
    params.insert("name".to_owned(), Value::String("compress_file".to_owned()));
    match classify_request("tools/call", Some(Value::Object(params))) {
        Method::ToolsCall { arguments, .. } => assert_eq!(arguments, empty_object()),
        other => panic!("expected ToolsCall, got {other:?}"),
    }
}

#[test]
fn tool_call_with_no_params_at_all_does_not_panic() {
    match classify_request("tools/call", None) {
        Method::ToolsCall { name, arguments } => {
            assert!(name.is_empty());
            assert_eq!(arguments, empty_object());
        }
        other => panic!("expected ToolsCall, got {other:?}"),
    }
}

#[test]
fn unknown_methods_are_named_in_the_error() {
    assert_eq!(
        classify_request("resources/list", None),
        Method::Unknown("resources/list".to_owned())
    );
}

#[test]
fn method_names_match_exactly() {
    assert_eq!(classify_request("Ping", None), Method::Unknown("Ping".to_owned()));
    assert_eq!(classify_request("ping ", None), Method::Unknown("ping ".to_owned()));
    assert_eq!(classify_request("", None), Method::Unknown(String::new()));
}

#[test]
fn reads_messages_one_per_line() {
    let got = read_all("{\"a\":1}\n{\"b\":2}\n");
    assert_eq!(got, vec![r#"{"a":1}"#, r#"{"b":2}"#]);
}

#[test]
fn skips_blank_and_whitespace_only_lines() {
    let got = read_all("\n   \n{\"a\":1}\n\n");
    assert_eq!(got, vec![r#"{"a":1}"#]);
}

#[test]
fn final_line_without_newline_is_still_read() {
    let got = read_all(r#"{"a":1}"#);
    assert_eq!(got, vec![r#"{"a":1}"#]);
}

#[test]
fn empty_input_is_immediate_eof() {
    assert!(read_all("").is_empty());
}

#[test]
fn a_line_over_the_cap_is_too_long() {
    assert!(matches!(next_incoming(MAX_LINE_BYTES + 1, "x"), Some(Incoming::TooLong)));
    assert!(matches!(next_incoming(MAX_LINE_BYTES, " x "), Some(Incoming::Line(l)) if l == "x"));
}

#[test]
fn a_line_is_handed_on_trimmed() {
    match next_incoming(12, "  {\"a\":1}\r\n") {
        Some(Incoming::Line(l)) => assert_eq!(l, "{\"a\":1}"),
        other => panic!("expected a line, got {other:?}"),
    }
    assert!(next_incoming(3, " \t\n").is_none());
}

#[test]
fn the_initialized_notification_gets_no_reply() {
    let method = classify_request("notifications/initialized", None);
    assert!(answer(true, method).is_none());
}

#[test]
fn no_notification_is_ever_answered_whatever_its_method() {
    for method in ["tools/list", "initialize", "ping", "resources/list", "tools/call"] {
        assert!(answer(true, classify_request(method, None)).is_none(), "answered {method}");
    }
}

#[test]
fn unknown_methods_get_method_not_found() {
    match answer(false, classify_request("resources/list", None)) {
        Some(Answer::Failure(e)) => {
            assert_eq!(e.code, METHOD_NOT_FOUND);
            assert_eq!(e.message, "unknown method: resources/list");
        }
        other => panic!("expected a failure, got {other:?}"),
    }
}

#[test]
fn requests_with_an_id_are_answered_by_kind() {
    assert!(matches!(answer(false, classify_request("ping", None)), Some(Answer::Empty)));
    assert!(matches!(answer(false, classify_request("initialized", None)), Some(Answer::Empty)));
    assert!(matches!(
        answer(false, classify_request("initialize", None)),
        Some(Answer::ServerInfo)
    ));
    assert!(matches!(answer(false, classify_request("tools/list", None)), Some(Answer::ToolList)));
    match answer(false, classify_request("tools/call", None)) {
        Some(Answer::CallTool { name, arguments }) => {
            assert_eq!(name, "");
            assert_eq!(arguments, empty_object());
        }
        other => panic!("expected a tool call, got {other:?}"),
    }
}

#[test]
fn the_fixed_errors_carry_their_codes() {
    let e = unknown_method_error("x/y");
    assert_eq!((e.code, e.message.as_str()), (METHOD_NOT_FOUND, "unknown method: x/y"));
    let e = parse_error();
    assert_eq!((e.code, e.message.as_str()), (PARSE_ERROR, "invalid JSON-RPC request"));
    let e = too_large_error();
    assert_eq!((e.code, e.message.as_str()), (INVALID_REQUEST, "message too large"));
}
