//! The two tools, `compress_file` and `get_symbol`: which one a call names,
//! and the text each one answers with.
//!
//! Running a tool means reading a file, which is the caller's part; what the
//! model then reads is decided here.

use vstd::prelude::*;
use crate::compress::{GuardError, Language, Report, Snippet, OUTLINE_THRESHOLD_BYTES};
use crate::compress::guard::{decimal, decimal_of, message_of};
use crate::mcp::codes::INVALID_PARAMS;
use crate::mcp::ErrorObject;
use crate::text::{append_chars, append_str, chars_of, eq_chars, string_of, trim, trim_of};

verus! {

/// A tool this server offers.
#[derive(Debug, Clone, Copy, PartialEq, Eq, Structural)]
pub enum Tool {
    CompressFile,
    GetSymbol,
}

/// The name a tool is advertised and called by.
pub open spec fn tool_name_of(tool: Tool) -> Seq<char> {
    match tool {
        Tool::CompressFile => "compress_file"@,
        Tool::GetSymbol => "get_symbol"@,
    }
}

impl Tool {
    /// Both tools, in the order `tools/list` advertises them.
    pub fn all() -> (r: Vec<Tool>)
        ensures
            r@ == seq![Tool::CompressFile, Tool::GetSymbol],
    {
        vec![Tool::CompressFile, Tool::GetSymbol]
    }

    /// The name this tool is advertised and called by.
    pub fn name(self) -> (r: &'static str)
        ensures
            r@ == tool_name_of(self),
    {
        match self {
            Tool::CompressFile => "compress_file",
            Tool::GetSymbol => "get_symbol",
        }
    }
}

/// The tool called by `name`, if any.
pub open spec fn tool_named(name: Seq<char>) -> Option<Tool> {
    if name == tool_name_of(Tool::CompressFile) {
        Some(Tool::CompressFile)
    } else if name == tool_name_of(Tool::GetSymbol) {
        Some(Tool::GetSymbol)
    } else {
        None
    }
}

/// Every advertised tool is dispatchable: the name a tool is advertised by
/// calls that same tool.
pub proof fn lemma_every_tool_is_dispatchable(tool: Tool)
    ensures
        tool_named(tool_name_of(tool)) == Some(tool),
{
    reveal_strlit("compress_file");
    reveal_strlit("get_symbol");
    assert("get_symbol"@.len() != "compress_file"@.len());
}

/// The tool a call names, or the invalid-params error that names the
/// unknown tool.
pub fn route_tool(name: &str) -> (r: Result<Tool, ErrorObject>)
    ensures
        match tool_named(name@) {
            Some(t) => r matches Ok(u) && u == t,
            None => r matches Err(e) && e.code == INVALID_PARAMS && e.message@ == "unknown tool: "@
                + name@,
        },
{
    let n = chars_of(name);
    if eq_chars(&n, &chars_of("compress_file")) {
        Ok(Tool::CompressFile)
    } else if eq_chars(&n, &chars_of("get_symbol")) {
        Ok(Tool::GetSymbol)
    } else {
        let mut text: Vec<char> = Vec::new();
        append_str(&mut text, "unknown tool: ");
        append_chars(&mut text, &n);
        Err(ErrorObject { code: INVALID_PARAMS, message: string_of(&text) })
    }
}

/// How a language is named in a pack header.
pub open spec fn language_name_of(lang: Language) -> Seq<char> {
    match lang {
        Language::Rust => "Rust"@,
        Language::Python => "Python"@,
        Language::JavaScript => "JavaScript"@,
        Language::TypeScript => "TypeScript"@,
        Language::Go => "Go"@,
        Language::Other => "Other"@,
    }
}

pub fn language_name(lang: Language) -> (r: &'static str)
    ensures
        r@ == language_name_of(lang),
{
    match lang {
        Language::Rust => "Rust",
        Language::Python => "Python",
        Language::JavaScript => "JavaScript",
        Language::TypeScript => "TypeScript",
        Language::Go => "Go",
        Language::Other => "Other",
    }
}

/// The line an outlined pack carries so that its elisions read as deferral,
/// not loss: it names the way back.
pub open spec fn expansion_hint() -> Seq<char> {
    "// bodies elided. To read one whole: get_symbol(filePath, symbol)\n"@
}

/// The text the model reads for a report: a stats header, the task when one
/// was given, the expansion hint when bodies were elided, a blank line, and
/// the pack. `saved` is the saved percentage as it is printed.
pub open spec fn report_text(
    language: Language,
    outlined: bool,
    original_bytes: nat,
    compressed_bytes: nat,
    saved: Seq<char>,
    task: Seq<char>,
    text: Seq<char>,
) -> Seq<char> {
    let mode = if outlined {
        "outline"@
    } else {
        "full"@
    };
    let stats = "// context pack | "@ + language_name_of(language) + " | "@ + mode + " | "@
        + decimal(original_bytes) + " -> "@ + decimal(compressed_bytes) + " bytes ("@ + saved
        + "% saved)\n"@;
    let task_line = if trim(task).len() > 0 {
        "// task: "@ + trim(task) + "\n"@
    } else {
        Seq::<char>::empty()
    };
    let hint = if outlined {
        expansion_hint()
    } else {
        Seq::<char>::empty()
    };
    stats + task_line + hint + "\n"@ + text
}

/// Render a compression report as the text the model will read.
///
/// `saved_percent` is the report's saved percentage, already printed.
pub fn render_report(report: &Report, task: &str, saved_percent: &str) -> (r: String)
    ensures
        r@ == report_text(
            report.language,
            report.outlined,
            report.original_bytes as nat,
            report.compressed_bytes as nat,
            saved_percent@,
            task@,
            report.text@,
        ),
{
    let mut out: Vec<char> = Vec::new();
    append_str(&mut out, "// context pack | ");
    append_str(&mut out, language_name(report.language));
    append_str(&mut out, " | ");
    if report.outlined {
        append_str(&mut out, "outline");
    } else {
        append_str(&mut out, "full");
    }
    append_str(&mut out, " | ");
    append_chars(&mut out, &decimal_of(report.original_bytes as u64));
    append_str(&mut out, " -> ");
    append_chars(&mut out, &decimal_of(report.compressed_bytes as u64));
    append_str(&mut out, " bytes (");
    append_str(&mut out, saved_percent);
    append_str(&mut out, "% saved)\n");
    let ghost stats = out@;
    let trimmed = trim_of(&chars_of(task));
    if trimmed.len() > 0 {
        append_str(&mut out, "// task: ");
        append_chars(&mut out, &trimmed);
        append_str(&mut out, "\n");
    }
    let ghost with_task = out@;
    assert(with_task =~= stats + (if trim(task@).len() > 0 {
        "// task: "@ + trim(task@) + "\n"@
    } else {
        Seq::<char>::empty()
    }));
    if report.outlined {
        append_str(&mut out, "// bodies elided. To read one whole: get_symbol(filePath, symbol)\n");
    }
    append_str(&mut out, "\n");
    append_str(&mut out, report.text.as_str());
    proof {
        let mode = if report.outlined {
            "outline"@
        } else {
            "full"@
        };
        assert(stats =~= "// context pack | "@ + language_name_of(report.language) + " | "@ + mode
            + " | "@ + decimal(report.original_bytes as nat) + " -> "@ + decimal(
            report.compressed_bytes as nat,
        ) + " bytes ("@ + saved_percent@ + "% saved)\n"@);
    }
    assert(out@ =~= report_text(
        report.language,
        report.outlined,
        report.original_bytes as nat,
        report.compressed_bytes as nat,
        saved_percent@,
        task@,
        report.text@,
    ));
    string_of(&out)
}

/// The text `get_symbol` answers with: where the symbol came from, whether
/// its block was cut short, a blank line, and the symbol itself.
pub open spec fn symbol_text_of(file: Seq<char>, start: nat, end: nat, truncated: bool, text: Seq<
    char,
>) -> Seq<char> {
    "// "@ + file + " lines "@ + decimal(start) + "-"@ + decimal(end) + (if truncated {
        " (truncated: block never closed)"@
    } else {
        Seq::<char>::empty()
    }) + "\n\n"@ + text
}

/// The text for a symbol found in `file`.
pub fn symbol_text(file: &str, snippet: &Snippet) -> (r: String)
    ensures
        r@ == symbol_text_of(
            file@,
            snippet.start_line as nat,
            snippet.end_line as nat,
            snippet.truncated,
            snippet.text@,
        ),
{
    let mut out: Vec<char> = Vec::new();
    append_str(&mut out, "// ");
    append_str(&mut out, file);
    append_str(&mut out, " lines ");
    append_chars(&mut out, &decimal_of(snippet.start_line as u64));
    append_str(&mut out, "-");
    append_chars(&mut out, &decimal_of(snippet.end_line as u64));
    let ghost head = out@;
    if snippet.truncated {
        append_str(&mut out, " (truncated: block never closed)");
    }
    append_str(&mut out, "\n\n");
    append_str(&mut out, snippet.text.as_str());
    assert(out@ =~= symbol_text_of(
        file@,
        snippet.start_line as nat,
        snippet.end_line as nat,
        snippet.truncated,
        snippet.text@,
    ));
    string_of(&out)
}

/// The answer when `file` declares no `symbol`. Not found is an answer, not
/// a fault: the model can try another name.
pub fn missing_symbol_text(symbol: &str, file: &str) -> (r: String)
    ensures
        r@ == "no symbol named `"@ + symbol@ + "` in "@ + file@,
{
    let mut out: Vec<char> = Vec::new();
    append_str(&mut out, "no symbol named `");
    append_str(&mut out, symbol);
    append_str(&mut out, "` in ");
    append_str(&mut out, file);
    string_of(&out)
}

/// The answer when the guard refused the file: the tool's name and the
/// refusal's category, never an OS message.
pub fn failure_text(tool: Tool, error: &GuardError) -> (r: String)
    ensures
        r@ == tool_name_of(tool) + " failed: "@ + message_of(*error),
{
    let mut out: Vec<char> = Vec::new();
    append_str(&mut out, tool.name());
    append_str(&mut out, " failed: ");
    append_str(&mut out, error.message().as_str());
    string_of(&out)
}

/// The outline threshold a `compress_file` call asks for, or the default.
pub fn outline_threshold(requested: Option<usize>) -> (t: usize)
    ensures
        t == match requested {
            Some(n) => n,
            None => OUTLINE_THRESHOLD_BYTES,
        },
{
    match requested {
        Some(n) => n,
        None => OUTLINE_THRESHOLD_BYTES,
    }
}

/// The outcome word a `compress_file` call is logged with.
pub open spec fn outcome_word(result: Result<Report, GuardError>) -> Seq<char> {
    match result {
        Ok(report) => if report.outlined {
            "outline"@
        } else {
            "full"@
        },
        Err(_) => "refused"@,
    }
}

/// The outcome word a `compress_file` call is logged with: the pack's mode,
/// or `refused` when the guard refused the file.
pub fn outcome_of(result: &Result<Report, GuardError>) -> (w: &'static str)
    ensures
        w@ == outcome_word(*result),
{
    match result {
        Ok(report) => if report.outlined {
            "outline"
        } else {
            "full"
        },
        Err(_) => "refused",
    }
}

/// The explicitly configured root, if one was given: the setting trimmed,
/// unless that leaves nothing, in which case the working directory applies.
pub fn configured_root(setting: Option<&str>) -> (r: Option<String>)
    ensures
        match setting {
            Some(s) => if trim(s@).len() > 0 {
                r matches Some(v) && v@ == trim(s@)
            } else {
                r is None
            },
            None => r is None,
        },
{
    match setting {
        Some(s) => {
            let t = trim_of(&chars_of(s));
            if t.len() > 0 {
                Some(string_of(&t))
            } else {
                None
            }
        },
        None => None,
    }
}

} // verus!
