//! The decisions of the JSON-RPC 2.0 transport: how a line off the wire is
//! read, how a request is classified, and what an error reply says.
//!
//! Nothing here serialises or reads anything. The caller parses a request
//! into plain values, asks what to do, and writes the answer.

pub mod codes;

use vstd::prelude::*;
use crate::mcp::codes::{INVALID_REQUEST, METHOD_NOT_FOUND, PARSE_ERROR};
use crate::text::{append_str, chars_of, eq_chars, string_of, trim, trim_of};

verus! {

/// Refuse absurd single lines rather than growing the buffer without bound.
/// 16MB is double the file-size cap, leaving room for JSON escaping overhead.
pub const MAX_LINE_BYTES: usize = 16 * 1024 * 1024;

/// The error member of a failure reply.
#[derive(Debug)]
pub struct ErrorObject {
    pub code: i32,
    pub message: String,
}

/// Outcome of pulling one message off the wire.
#[derive(Debug)]
pub enum Incoming {
    Line(String),
    /// Line exceeded [`MAX_LINE_BYTES`]; caller should report and continue.
    TooLong,
    /// Clean EOF: the client closed stdin. Shut down.
    Eof,
}

/// What one read of `bytes` bytes, holding `line`, amounts to. `None` means
/// the line was blank: read the next one.
pub fn next_incoming(bytes: usize, line: &str) -> (r: Option<Incoming>)
    ensures
        match r {
            Some(Incoming::Eof) => bytes == 0,
            Some(Incoming::TooLong) => bytes > MAX_LINE_BYTES,
            Some(Incoming::Line(l)) => {
                &&& 0 < bytes <= MAX_LINE_BYTES
                &&& trim(line@).len() > 0
                &&& l@ == trim(line@)
            },
            None => 0 < bytes <= MAX_LINE_BYTES && trim(line@).len() == 0,
        },
{
    if bytes == 0 {
        return Some(Incoming::Eof);
    }
    if bytes > MAX_LINE_BYTES {
        return Some(Incoming::TooLong);
    }
    let trimmed = trim_of(&chars_of(line));
    if trimmed.len() > 0 {
        Some(Incoming::Line(string_of(&trimmed)))
    } else {
        None
    }
}

/// A recognised (or explicitly unrecognised) inbound method. `A` is whatever
/// the caller carries tool arguments in.
#[derive(Debug, PartialEq, Eq)]
pub enum Method<A> {
    Initialize,
    /// Post-handshake notification. Requires no reply.
    Initialized,
    ToolsList,
    ToolsCall { name: String, arguments: A },
    Ping,
    Unknown(String),
}

/// Classify a request by its `method` field.
///
/// For `tools/call`, `name` and `arguments` are what the request's params
/// hold under those keys, if anything; a missing name reads as empty and
/// missing arguments as `empty_arguments`. Validating their *shape* is the
/// caller's job, since only the caller knows the tool.
pub fn classify<A>(method: &str, name: Option<&str>, arguments: Option<A>, empty_arguments: A) -> (r:
    Method<A>)
    ensures
        if method@ == "initialize"@ {
            r is Initialize
        } else if method@ == "notifications/initialized"@ || method@ == "initialized"@ {
            r is Initialized
        } else if method@ == "tools/list"@ {
            r is ToolsList
        } else if method@ == "ping"@ {
            r is Ping
        } else if method@ == "tools/call"@ {
            &&& r matches Method::ToolsCall { name: n, arguments: a }
            &&& n@ == match name {
                Some(s) => s@,
                None => Seq::<char>::empty(),
            }
            &&& a == match arguments {
                Some(x) => x,
                None => empty_arguments,
            }
        } else {
            r matches Method::Unknown(m) && m@ == method@
        },
{
    let m = chars_of(method);
    if eq_chars(&m, &chars_of("initialize")) {
        Method::Initialize
    } else if eq_chars(&m, &chars_of("notifications/initialized")) || eq_chars(
        &m,
        &chars_of("initialized"),
    ) {
        Method::Initialized
    } else if eq_chars(&m, &chars_of("tools/list")) {
        Method::ToolsList
    } else if eq_chars(&m, &chars_of("ping")) {
        Method::Ping
    } else if eq_chars(&m, &chars_of("tools/call")) {
        let name = match name {
            Some(s) => string_of(&chars_of(s)),
            None => string_of(&Vec::new()),
        };
        let arguments = match arguments {
            Some(x) => x,
            None => empty_arguments,
        };
        Method::ToolsCall { name, arguments }
    } else {
        Method::Unknown(string_of(&m))
    }
}

/// The error for an unknown method: it names the method.
pub fn unknown_method_error(method: &str) -> (r: ErrorObject)
    ensures
        r.code == METHOD_NOT_FOUND,
        r.message@ == "unknown method: "@ + method@,
{
    let mut text: Vec<char> = Vec::new();
    append_str(&mut text, "unknown method: ");
    append_str(&mut text, method);
    ErrorObject { code: METHOD_NOT_FOUND, message: string_of(&text) }
}

/// What a request is answered with.
#[derive(Debug)]
pub enum Answer<A> {
    /// A success whose result is an empty object.
    Empty,
    /// The handshake payload: what this server is and what it can do.
    ServerInfo,
    /// The list of tools.
    ToolList,
    /// Run the named tool on these arguments and answer with its outcome.
    CallTool { name: String, arguments: A },
    /// A failure reply.
    Failure(ErrorObject),
}

/// What to answer to one request, or `None` when it must go unanswered.
///
/// JSON-RPC 2.0: a notification carries no id and MUST NOT be answered,
/// whatever its method. Replying would leave the client matching a response
/// to a request it never made. `Initialized` is reachable as a request only
/// if a client sent it *with* an id, against the spec; it is answered anyway
/// rather than left waiting.
pub fn answer<A>(is_notification: bool, method: Method<A>) -> (r: Option<Answer<A>>)
    ensures
        if is_notification {
            r is None
        } else {
            match method {
                Method::Initialized => r matches Some(Answer::Empty),
                Method::Ping => r matches Some(Answer::Empty),
                Method::Initialize => r matches Some(Answer::ServerInfo),
                Method::ToolsList => r matches Some(Answer::ToolList),
                Method::ToolsCall { name, arguments } => {
                    &&& r matches Some(Answer::CallTool { name: n, arguments: a })
                    &&& n@ == name@
                    &&& a == arguments
                },
                Method::Unknown(m) => {
                    &&& r matches Some(Answer::Failure(e))
                    &&& e.code == METHOD_NOT_FOUND
                    &&& e.message@ == "unknown method: "@ + m@
                },
            }
        },
{
    if is_notification {
        return None;
    }
    match method {
        Method::Initialized => Some(Answer::Empty),
        Method::Ping => Some(Answer::Empty),
        Method::Initialize => Some(Answer::ServerInfo),
        Method::ToolsList => Some(Answer::ToolList),
        Method::ToolsCall { name, arguments } => Some(Answer::CallTool { name, arguments }),
        Method::Unknown(m) => Some(Answer::Failure(unknown_method_error(m.as_str()))),
    }
}

/// The error for a line that is not a JSON-RPC request.
pub fn parse_error() -> (r: ErrorObject)
    ensures
        r.code == PARSE_ERROR,
        r.message@ == "invalid JSON-RPC request"@,
{
    ErrorObject { code: PARSE_ERROR, message: string_of(&chars_of("invalid JSON-RPC request")) }
}

/// The error for a line over [`MAX_LINE_BYTES`].
pub fn too_large_error() -> (r: ErrorObject)
    ensures
        r.code == INVALID_REQUEST,
        r.message@ == "message too large"@,
{
    ErrorObject { code: INVALID_REQUEST, message: string_of(&chars_of("message too large")) }
}

} // verus!
