//! Usage records, for answering questions about real use with data.
//!
//! One JSON object per line. **Metadata only**: tool name, file path, byte
//! counts, mode. Never file contents: a log is exactly the place that rule
//! gets broken by accident, so a `Record` has no field that could hold them.

use vstd::prelude::*;
use crate::compress::guard::{
    decimal, decimal_of, digit_char, lemma_decimal_avoids, lemma_decimal_reads_back, numeral_value,
};
use crate::text::{append_chars, append_str, chars_of, string_of};

verus! {

broadcast use vstd::seq_lib::group_seq_properties;

/// One recorded call.
pub struct Record<'a> {
    pub tool: &'a str,
    pub file: &'a str,
    /// Input size in bytes, when the call read a file.
    pub input_bytes: Option<usize>,
    /// Returned size in bytes.
    pub output_bytes: usize,
    /// `full`, `outline`, `symbol`, or an error category.
    pub outcome: &'a str,
}

/// Lower-case hexadecimal digit for `d < 16`.
pub open spec fn hex_digit(d: nat) -> char {
    if d < 10 {
        digit_char(d)
    } else if d == 10 {
        'a'
    } else if d == 11 {
        'b'
    } else if d == 12 {
        'c'
    } else if d == 13 {
        'd'
    } else if d == 14 {
        'e'
    } else {
        'f'
    }
}

/// The JSON escape of one character: backslashes and quotes get a
/// backslash, newline, carriage return and tab their short escapes, and the
/// other control characters a `\u00XX` escape. Everything else stands as is.
pub open spec fn escape_char(c: char) -> Seq<char> {
    if c == '\\' {
        seq!['\\', '\\']
    } else if c == '"' {
        seq!['\\', '"']
    } else if c == '\n' {
        seq!['\\', 'n']
    } else if c == '\r' {
        seq!['\\', 'r']
    } else if c == '\t' {
        seq!['\\', 't']
    } else if (c as u32) < 0x20 {
        seq!['\\', 'u', '0', '0', hex_digit((c as u32 / 16) as nat), hex_digit((c as u32 % 16) as nat)]
    } else {
        seq![c]
    }
}

/// `value` with each character escaped for a JSON string.
pub open spec fn escaped(value: Seq<char>) -> Seq<char>
    decreases value.len(),
{
    if value.len() == 0 {
        Seq::<char>::empty()
    } else {
        escaped(value.drop_last()) + escape_char(value.last())
    }
}

/// An escaped text holds no newline.
pub proof fn lemma_escaped_has_no_newline(value: Seq<char>)
    ensures
        !escaped(value).contains('\n'),
    decreases value.len(),
{
    if value.len() > 0 {
        lemma_escaped_has_no_newline(value.drop_last());
        let a = escaped(value.drop_last());
        let b = escape_char(value.last());
        assert(!b.contains('\n'));
        assert forall|i: int| 0 <= i < (a + b).len() implies (a + b)[i] != '\n' by {
            if i < a.len() {
                assert((a + b)[i] == a[i]);
            } else {
                assert((a + b)[i] == b[i - a.len()]);
            }
        }
    }
}

/// A lower-case hexadecimal digit.
pub open spec fn is_hex(c: char) -> bool {
    ||| c == '0' || c == '1' || c == '2' || c == '3' || c == '4' || c == '5' || c == '6' || c == '7'
    ||| c == '8' || c == '9' || c == 'a' || c == 'b' || c == 'c' || c == 'd' || c == 'e' || c == 'f'
}

/// A character that may stand unescaped inside a JSON string.
pub open spec fn plain_json_char(c: char) -> bool {
    c != '"' && c != '\\' && (c as u32) >= 0x20
}

/// A character that may follow a backslash in a short JSON escape.
pub open spec fn short_escape(c: char) -> bool {
    c == '"' || c == '\\' || c == 'n' || c == 'r' || c == 't'
}

/// `s` is the inside of a well-formed JSON string: unescaped characters other
/// than quotes, backslashes and control characters, short escapes, and
/// `\u` escapes with four hexadecimal digits.
pub open spec fn json_string_body(s: Seq<char>) -> bool
    decreases s.len(),
{
    if s.len() == 0 {
        true
    } else if plain_json_char(s[0]) {
        json_string_body(s.drop_first())
    } else if s[0] == '\\' && s.len() >= 2 && short_escape(s[1]) {
        json_string_body(s.skip(2))
    } else if s[0] == '\\' && s.len() >= 6 && s[1] == 'u' && is_hex(s[2]) && is_hex(s[3]) && is_hex(
        s[4],
    ) && is_hex(s[5]) {
        json_string_body(s.skip(6))
    } else {
        false
    }
}

proof fn lemma_json_concat(a: Seq<char>, b: Seq<char>)
    requires
        json_string_body(a),
        json_string_body(b),
    ensures
        json_string_body(a + b),
    decreases a.len(),
{
    if a.len() == 0 {
        assert(a + b =~= b);
    } else {
        let ab = a + b;
        assert(ab[0] == a[0]);
        if plain_json_char(a[0]) {
            lemma_json_concat(a.drop_first(), b);
            assert(ab.drop_first() =~= a.drop_first() + b);
        } else if a[0] == '\\' && a.len() >= 2 && short_escape(a[1]) {
            lemma_json_concat(a.skip(2), b);
            assert(ab[1] == a[1]);
            assert(ab.skip(2) =~= a.skip(2) + b);
        } else {
            lemma_json_concat(a.skip(6), b);
            assert(ab[1] == a[1] && ab[2] == a[2] && ab[3] == a[3] && ab[4] == a[4] && ab[5] == a[5]);
            assert(ab.skip(6) =~= a.skip(6) + b);
        }
    }
}

proof fn lemma_escape_char_json(c: char)
    ensures
        json_string_body(escape_char(c)),
{
    let e = escape_char(c);
    let empty = Seq::<char>::empty();
    assert(json_string_body(empty));
    if c == '\\' || c == '"' || c == '\n' || c == '\r' || c == '\t' {
        assert(e.len() == 2 && e[0] == '\\' && short_escape(e[1]));
        assert(!plain_json_char(e[0]));
        assert(e.skip(2) =~= empty);
    } else if (c as u32) < 0x20 {
        let v = c as u32;
        assert(v / 16 < 16);
        assert(v % 16 < 16);
        assert(is_hex(hex_digit((v / 16) as nat)));
        assert(is_hex(hex_digit((v % 16) as nat)));
        assert(e.len() == 6 && e[0] == '\\' && e[1] == 'u' && is_hex(e[2]) && is_hex(e[3]));
        assert(is_hex(e[4]) && is_hex(e[5]));
        assert(!plain_json_char(e[0]) && !short_escape(e[1]));
        assert(e.skip(6) =~= empty);
    } else {
        assert(e == seq![c]);
        assert(plain_json_char(c));
        assert(e.drop_first() =~= empty);
    }
}

/// An escaped value is the inside of a well-formed JSON string: no quote,
/// backslash or control character stands in it unescaped.
pub proof fn lemma_escaped_is_json_string(value: Seq<char>)
    ensures
        json_string_body(escaped(value)),
    decreases value.len(),
{
    if value.len() > 0 {
        lemma_escaped_is_json_string(value.drop_last());
        lemma_escape_char_json(value.last());
        lemma_json_concat(escaped(value.drop_last()), escape_char(value.last()));
    }
}

/// The value of a lower-case hexadecimal digit.
pub open spec fn hex_value(c: char) -> nat {
    if c == '1' {
        1
    } else if c == '2' {
        2
    } else if c == '3' {
        3
    } else if c == '4' {
        4
    } else if c == '5' {
        5
    } else if c == '6' {
        6
    } else if c == '7' {
        7
    } else if c == '8' {
        8
    } else if c == '9' {
        9
    } else if c == 'a' {
        10
    } else if c == 'b' {
        11
    } else if c == 'c' {
        12
    } else if c == 'd' {
        13
    } else if c == 'e' {
        14
    } else if c == 'f' {
        15
    } else {
        0
    }
}

/// The character a short escape stands for.
pub open spec fn short_unescape(c: char) -> char {
    if c == 'n' {
        '\n'
    } else if c == 'r' {
        '\r'
    } else if c == 't' {
        '\t'
    } else {
        c
    }
}

/// The text a JSON string body stands for, as a JSON parser reads it.
pub open spec fn json_decode(s: Seq<char>) -> Seq<char>
    decreases s.len(),
{
    if s.len() == 0 {
        Seq::<char>::empty()
    } else if plain_json_char(s[0]) {
        seq![s[0]] + json_decode(s.drop_first())
    } else if s[0] == '\\' && s.len() >= 2 && short_escape(s[1]) {
        seq![short_unescape(s[1])] + json_decode(s.skip(2))
    } else if s[0] == '\\' && s.len() >= 6 && s[1] == 'u' && is_hex(s[2]) && is_hex(s[3]) && is_hex(
        s[4],
    ) && is_hex(s[5]) {
        seq![
            ((hex_value(s[2]) * 4096 + hex_value(s[3]) * 256 + hex_value(s[4]) * 16 + hex_value(
                s[5],
            )) as int) as char,
        ] + json_decode(s.skip(6))
    } else {
        Seq::<char>::empty()
    }
}

proof fn lemma_decode_concat(a: Seq<char>, b: Seq<char>)
    requires
        json_string_body(a),
    ensures
        json_decode(a + b) == json_decode(a) + json_decode(b),
    decreases a.len(),
{
    if a.len() == 0 {
        assert(a + b =~= b);
    } else {
        let ab = a + b;
        assert(ab[0] == a[0]);
        if plain_json_char(a[0]) {
            lemma_decode_concat(a.drop_first(), b);
            assert(ab.drop_first() =~= a.drop_first() + b);
        } else if a[0] == '\\' && a.len() >= 2 && short_escape(a[1]) {
            lemma_decode_concat(a.skip(2), b);
            assert(ab[1] == a[1]);
            assert(ab.skip(2) =~= a.skip(2) + b);
        } else {
            lemma_decode_concat(a.skip(6), b);
            assert(ab[1] == a[1] && ab[2] == a[2] && ab[3] == a[3] && ab[4] == a[4] && ab[5] == a[5]);
            assert(ab.skip(6) =~= a.skip(6) + b);
        }
    }
}

proof fn lemma_hex_round_trip(d: nat)
    requires
        d < 16,
    ensures
        hex_value(hex_digit(d)) == d,
{
}

proof fn lemma_escape_char_decodes(c: char)
    ensures
        json_decode(escape_char(c)) == seq![c],
{
    let e = escape_char(c);
    let empty = Seq::<char>::empty();
    assert(json_decode(empty) =~= empty);
    if c == '\\' || c == '"' || c == '\n' || c == '\r' || c == '\t' {
        assert(e.len() == 2 && e[0] == '\\' && short_escape(e[1]));
        assert(!plain_json_char(e[0]));
        assert(e.skip(2) =~= empty);
        assert(short_unescape(e[1]) == c);
        assert(json_decode(e) =~= seq![c]);
    } else if (c as u32) < 0x20 {
        let v = c as u32;
        lemma_hex_round_trip((v / 16) as nat);
        lemma_hex_round_trip((v % 16) as nat);
        assert(e.len() == 6 && e[0] == '\\' && e[1] == 'u');
        assert(hex_value(e[2]) == 0 && hex_value(e[3]) == 0);
        assert(hex_value(e[4]) * 16 + hex_value(e[5]) == v);
        assert(is_hex(hex_digit((v / 16) as nat)));
        assert(is_hex(hex_digit((v % 16) as nat)));
        assert(!plain_json_char(e[0]) && !short_escape(e[1]));
        assert(e.skip(6) =~= empty);
        assert(((v as int) as char) == c);
        assert(json_decode(e) =~= seq![c]);
    } else {
        assert(e == seq![c]);
        assert(plain_json_char(c));
        assert(e.drop_first() =~= empty);
        assert(json_decode(e) =~= seq![c]);
    }
}

/// A JSON parser reads an escaped value back as the value itself.
pub proof fn lemma_escaped_decodes(value: Seq<char>)
    ensures
        json_decode(escaped(value)) == value,
    decreases value.len(),
{
    if value.len() > 0 {
        lemma_escaped_decodes(value.drop_last());
        lemma_escaped_is_json_string(value.drop_last());
        lemma_escape_char_decodes(value.last());
        lemma_decode_concat(escaped(value.drop_last()), escape_char(value.last()));
        assert(value.drop_last().push(value.last()) =~= value);
    }
}

fn hex(d: u32) -> (c: char)
    requires
        d < 16,
    ensures
        c == hex_digit(d as nat),
{
    if d == 0 {
        '0'
    } else if d == 1 {
        '1'
    } else if d == 2 {
        '2'
    } else if d == 3 {
        '3'
    } else if d == 4 {
        '4'
    } else if d == 5 {
        '5'
    } else if d == 6 {
        '6'
    } else if d == 7 {
        '7'
    } else if d == 8 {
        '8'
    } else if d == 9 {
        '9'
    } else if d == 10 {
        'a'
    } else if d == 11 {
        'b'
    } else if d == 12 {
        'c'
    } else if d == 13 {
        'd'
    } else if d == 14 {
        'e'
    } else {
        'f'
    }
}

/// `value` escaped for a JSON string.
pub fn escape(value: &str) -> (r: String)
    ensures
        r@ == escaped(value@),
{
    let v = chars_of(value);
    let mut out: Vec<char> = Vec::new();
    let mut i: usize = 0;
    while i < v.len()
        invariant
            i <= v.len(),
            out@ == escaped(v@.take(i as int)),
        decreases v.len() - i,
    {
        proof {
            assert(v@.take(i + 1).drop_last() == v@.take(i as int));
        }
        let c = v[i];
        let code = c as u32;
        if c == '\\' {
            out.push('\\');
            out.push('\\');
        } else if c == '"' {
            out.push('\\');
            out.push('"');
        } else if c == '\n' {
            out.push('\\');
            out.push('n');
        } else if c == '\r' {
            out.push('\\');
            out.push('r');
        } else if c == '\t' {
            out.push('\\');
            out.push('t');
        } else if code < 0x20 {
            out.push('\\');
            out.push('u');
            out.push('0');
            out.push('0');
            out.push(hex(code / 16));
            out.push(hex(code % 16));
        } else {
            out.push(c);
        }
        assert(out@ =~= escaped(v@.take(i + 1)));
        i = i + 1;
    }
    assert(v@.take(v.len() as int) == v@);
    string_of(&out)
}

/// The JSON line for `record` at time `seconds`, newline included.
pub open spec fn record_line(
    seconds: nat,
    tool: Seq<char>,
    file: Seq<char>,
    outcome: Seq<char>,
    input_bytes: Option<usize>,
    output_bytes: nat,
) -> Seq<char> {
    "{\"ts\":"@ + decimal(seconds) + ",\"tool\":\""@ + escaped(tool) + "\",\"file\":\""@ + escaped(
        file,
    ) + "\",\"outcome\":\""@ + escaped(outcome) + "\""@ + match input_bytes {
        Some(n) => ",\"in\":"@ + decimal(n as nat),
        None => Seq::<char>::empty(),
    } + ",\"out\":"@ + decimal(output_bytes) + "}\n"@
}

proof fn lemma_concat_avoids(a: Seq<char>, b: Seq<char>, x: char)
    requires
        !a.contains(x),
        !b.contains(x),
    ensures
        !(a + b).contains(x),
{
    assert forall|i: int| 0 <= i < (a + b).len() implies (a + b)[i] != x by {
        if i < a.len() {
            assert((a + b)[i] == a[i]);
        } else {
            assert((a + b)[i] == b[i - a.len()]);
        }
    }
}

/// A record is one line: its only newline is the last character, whatever
/// the tool, file and outcome hold.
pub proof fn lemma_record_is_one_line(
    seconds: nat,
    tool: Seq<char>,
    file: Seq<char>,
    outcome: Seq<char>,
    input_bytes: Option<usize>,
    output_bytes: nat,
)
    ensures
        record_line(seconds, tool, file, outcome, input_bytes, output_bytes).last() == '\n',
        !record_line(seconds, tool, file, outcome, input_bytes, output_bytes).drop_last().contains(
            '\n',
        ),
{
    reveal_strlit("{\"ts\":");
    reveal_strlit(",\"tool\":\"");
    reveal_strlit("\",\"file\":\"");
    reveal_strlit("\",\"outcome\":\"");
    reveal_strlit("\"");
    reveal_strlit(",\"in\":");
    reveal_strlit(",\"out\":");
    reveal_strlit("}\n");
    assert forall|d: nat| d < 10 implies #[trigger] digit_char(d) != '\n' by {}
    lemma_decimal_avoids(seconds, '\n');
    lemma_decimal_avoids(output_bytes, '\n');
    lemma_escaped_has_no_newline(tool);
    lemma_escaped_has_no_newline(file);
    lemma_escaped_has_no_newline(outcome);
    let tail = match input_bytes {
        Some(n) => ",\"in\":"@ + decimal(n as nat),
        None => Seq::<char>::empty(),
    };
    match input_bytes {
        Some(n) => {
            lemma_decimal_avoids(n as nat, '\n');
            lemma_concat_avoids(",\"in\":"@, decimal(n as nat), '\n');
        },
        None => {},
    }
    let mut x = "{\"ts\":"@;
    lemma_concat_avoids(x, decimal(seconds), '\n');
    x = x + decimal(seconds);
    lemma_concat_avoids(x, ",\"tool\":\""@, '\n');
    x = x + ",\"tool\":\""@;
    lemma_concat_avoids(x, escaped(tool), '\n');
    x = x + escaped(tool);
    lemma_concat_avoids(x, "\",\"file\":\""@, '\n');
    x = x + "\",\"file\":\""@;
    lemma_concat_avoids(x, escaped(file), '\n');
    x = x + escaped(file);
    lemma_concat_avoids(x, "\",\"outcome\":\""@, '\n');
    x = x + "\",\"outcome\":\""@;
    lemma_concat_avoids(x, escaped(outcome), '\n');
    x = x + escaped(outcome);
    lemma_concat_avoids(x, "\""@, '\n');
    x = x + "\""@;
    lemma_concat_avoids(x, tail, '\n');
    x = x + tail;
    lemma_concat_avoids(x, ",\"out\":"@, '\n');
    x = x + ",\"out\":"@;
    lemma_concat_avoids(x, decimal(output_bytes), '\n');
    x = x + decimal(output_bytes);
    assert(!seq!['}'].contains('\n'));
    lemma_concat_avoids(x, seq!['}'], '\n');
    let line = record_line(seconds, tool, file, outcome, input_bytes, output_bytes);
    assert(line == x + "}\n"@);
    assert(line.drop_last() =~= x + seq!['}']);
}

/// A record is one JSON object, `{"ts":…,"tool":"…","file":"…","outcome":"…",`
/// then `"in":…,` when the input size is known, then `"out":…}`: every numeral
/// reads back as the number recorded, and every string body is well formed
/// and reads back as the value recorded. Nothing else is written, so no file
/// contents can be.
pub proof fn lemma_record_is_json_object(
    seconds: nat,
    tool: Seq<char>,
    file: Seq<char>,
    outcome: Seq<char>,
    input_bytes: Option<usize>,
    output_bytes: nat,
)
    ensures
        record_line(seconds, tool, file, outcome, input_bytes, output_bytes) == "{\"ts\":"@ + decimal(
            seconds,
        ) + ",\"tool\":\""@ + escaped(tool) + "\",\"file\":\""@ + escaped(file)
            + "\",\"outcome\":\""@ + escaped(outcome) + "\""@ + match input_bytes {
            Some(n) => ",\"in\":"@ + decimal(n as nat),
            None => Seq::<char>::empty(),
        } + ",\"out\":"@ + decimal(output_bytes) + "}\n"@,
        numeral_value(decimal(seconds)) == seconds,
        numeral_value(decimal(output_bytes)) == output_bytes,
        input_bytes matches Some(n) ==> numeral_value(decimal(n as nat)) == n,
        json_string_body(escaped(tool)) && json_decode(escaped(tool)) == tool,
        json_string_body(escaped(file)) && json_decode(escaped(file)) == file,
        json_string_body(escaped(outcome)) && json_decode(escaped(outcome)) == outcome,
{
    lemma_decimal_reads_back(seconds);
    lemma_decimal_reads_back(output_bytes);
    if let Some(n) = input_bytes {
        lemma_decimal_reads_back(n as nat);
    }
    lemma_escaped_is_json_string(tool);
    lemma_escaped_is_json_string(file);
    lemma_escaped_is_json_string(outcome);
    lemma_escaped_decodes(tool);
    lemma_escaped_decodes(file);
    lemma_escaped_decodes(outcome);
}

/// Format one record as a single JSON line, newline included, stamped with
/// `seconds` since the Unix epoch.
///
/// Pure: no environment, no I/O.
pub fn format_record(record: &Record<'_>, seconds: u64) -> (r: String)
    ensures
        r@ == record_line(
            seconds as nat,
            record.tool@,
            record.file@,
            record.outcome@,
            record.input_bytes,
            record.output_bytes as nat,
        ),
        r@.last() == '\n',
        !r@.drop_last().contains('\n'),
{
    proof {
        lemma_record_is_one_line(
            seconds as nat,
            record.tool@,
            record.file@,
            record.outcome@,
            record.input_bytes,
            record.output_bytes as nat,
        );
    }
    let mut line: Vec<char> = Vec::new();
    append_str(&mut line, "{\"ts\":");
    append_chars(&mut line, &decimal_of(seconds));
    append_str(&mut line, ",\"tool\":\"");
    append_str(&mut line, escape(record.tool).as_str());
    append_str(&mut line, "\",\"file\":\"");
    append_str(&mut line, escape(record.file).as_str());
    append_str(&mut line, "\",\"outcome\":\"");
    append_str(&mut line, escape(record.outcome).as_str());
    append_str(&mut line, "\"");
    let ghost before_in = line@;
    if let Some(input) = record.input_bytes {
        append_str(&mut line, ",\"in\":");
        append_chars(&mut line, &decimal_of(input as u64));
    }
    append_str(&mut line, ",\"out\":");
    append_chars(&mut line, &decimal_of(record.output_bytes as u64));
    append_str(&mut line, "}\n");
    proof {
        let tail = match record.input_bytes {
            Some(n) => ",\"in\":"@ + decimal(n as nat),
            None => Seq::<char>::empty(),
        };
        assert(line@ =~= record_line(
            seconds as nat,
            record.tool@,
            record.file@,
            record.outcome@,
            record.input_bytes,
            record.output_bytes as nat,
        ));
    }
    string_of(&line)
}

} // verus!
