//! Python docstring handling for outline mode.
//!
//! A docstring is a *string literal*, not a comment, so the declaration rules
//! never see it. What is kept is the summary line, which PEP 257 defines as a
//! complete sentence describing the function, re-emitted as a closed one-line
//! docstring: an opening `"""` without its closing pair would leave the output
//! as invalid Python.

use vstd::prelude::*;
use crate::compress::declaration::{indent_bytes, indent_of};
use crate::compress::whitespace::{lemma_trailing_run_at, trailing_run};
use crate::text::{
    chars_of, contains, contains_seq, copy_chars, find, first_occurrence, has_prefix, leading_ws,
    lemma_leading_ws_bound, lemma_trailing_ws_bound, slice_of, starts_with, string_of, trim, trim_of,
    trim_start,
};

verus! {

broadcast use vstd::seq_lib::group_seq_properties;

/// Result of feeding the line that closes a docstring.
pub struct Closed {
    /// The one-line summary to emit, if the docstring had one.
    pub rendered: Option<String>,
    /// Whether any content was dropped, so the caller can mark an elision.
    pub elided_any: bool,
}

/// What opening a docstring produced.
pub enum Opening {
    /// `"""One-liner."""`: began and ended on the same line.
    Complete(Closed),
    /// Opened and still running; feed it subsequent lines.
    Ongoing(Docstring),
}

/// A docstring whose body is still streaming past.
pub struct Docstring {
    delimiter: &'static str,
    indent: u128,
    summary: Option<String>,
    elided_any: bool,
}

/// The mathematical content of a `Closed`.
pub struct ClosedModel {
    pub rendered: Option<Seq<char>>,
    pub elided_any: bool,
}

/// The mathematical content of a `Docstring`.
pub struct DocModel {
    pub delimiter: Seq<char>,
    pub indent: nat,
    pub summary: Option<Seq<char>>,
    pub elided_any: bool,
}

/// The mathematical content of an `Opening`.
pub enum OpeningModel {
    Complete(ClosedModel),
    Ongoing(DocModel),
}

pub open spec fn opt_view(o: Option<String>) -> Option<Seq<char>> {
    match o {
        Some(s) => Some(s@),
        None => None,
    }
}

impl View for Closed {
    type V = ClosedModel;

    open spec fn view(&self) -> ClosedModel {
        ClosedModel { rendered: opt_view(self.rendered), elided_any: self.elided_any }
    }
}

impl View for Docstring {
    type V = DocModel;

    closed spec fn view(&self) -> DocModel {
        DocModel {
            delimiter: self.delimiter@,
            indent: self.indent as nat,
            summary: opt_view(self.summary),
            elided_any: self.elided_any,
        }
    }
}

impl View for Opening {
    type V = OpeningModel;

    open spec fn view(&self) -> OpeningModel {
        match self {
            Opening::Complete(c) => OpeningModel::Complete(c@),
            Opening::Ongoing(d) => OpeningModel::Ongoing(d@),
        }
    }
}

/// The triple double quote.
pub open spec fn triple_double() -> Seq<char> {
    seq!['"', '"', '"']
}

/// The triple single quote.
pub open spec fn triple_single() -> Seq<char> {
    seq!['\'', '\'', '\'']
}

/// The string prefixes Python allows before the quotes.
pub open spec fn string_prefix_char(c: char) -> bool {
    c == 'r' || c == 'R' || c == 'b' || c == 'B' || c == 'u' || c == 'U' || c == 'f' || c == 'F'
}

/// Number of string-prefix letters at the start of `s`.
pub open spec fn prefix_letters(s: Seq<char>) -> nat
    decreases s.len(),
{
    if s.len() > 0 && string_prefix_char(s[0]) {
        1 + prefix_letters(s.drop_first())
    } else {
        0
    }
}

/// The triple-quote delimiter `trimmed` opens a docstring with, if any.
pub open spec fn delimiter_of_spec(trimmed: Seq<char>) -> Option<Seq<char>> {
    let body = trimmed.skip(prefix_letters(trimmed) as int);
    if has_prefix(body, triple_double()) {
        Some(triple_double())
    } else if has_prefix(body, triple_single()) {
        Some(triple_single())
    } else {
        None
    }
}

/// `s` without trailing backslashes.
pub open spec fn strip_backslashes(s: Seq<char>) -> Seq<char> {
    s.take(s.len() - trailing_run(s, '\\'))
}

/// `summary` as a closed one-line docstring at `indent` columns.
pub open spec fn rendered_of(indent: nat, summary: Seq<char>) -> Seq<char> {
    Seq::new(indent, |i: int| ' ') + triple_double() + strip_backslashes(trim(summary))
        + triple_double()
}

/// What follows the first occurrence of `d` in `s`, or nothing.
pub open spec fn after_first(s: Seq<char>, d: Seq<char>) -> Seq<char> {
    match first_occurrence(s, d) {
        Some(i) => s.skip(i + d.len()),
        None => Seq::<char>::empty(),
    }
}

/// What precedes the first occurrence of `d` in `s`, or all of `s`.
pub open spec fn before_first(s: Seq<char>, d: Seq<char>) -> Seq<char> {
    match first_occurrence(s, d) {
        Some(i) => s.take(i),
        None => s,
    }
}

/// `Some(x)` when `x` is not empty.
pub open spec fn nonempty(x: Seq<char>) -> Option<Seq<char>> {
    if x.len() > 0 {
        Some(x)
    } else {
        None
    }
}

/// What `Docstring::open` returns for `line`.
pub open spec fn spec_open(line: Seq<char>) -> Option<OpeningModel> {
    let trimmed = trim(line);
    match delimiter_of_spec(trimmed) {
        None => None,
        Some(d) => {
            let indent = indent_of(line);
            let after = after_first(trimmed, d);
            let summary = trim(before_first(after, d));
            if contains_seq(after, d) {
                Some(
                    OpeningModel::Complete(
                        ClosedModel {
                            rendered: if summary.len() > 0 {
                                Some(rendered_of(indent, summary))
                            } else {
                                None
                            },
                            elided_any: false,
                        },
                    ),
                )
            } else {
                Some(
                    OpeningModel::Ongoing(
                        DocModel {
                            delimiter: d,
                            indent,
                            summary: nonempty(summary),
                            elided_any: false,
                        },
                    ),
                )
            }
        },
    }
}

/// The trimmed line with its leading string-prefix letters dropped.
pub open spec fn opening_body(line: Seq<char>) -> Seq<char> {
    trim(line).skip(prefix_letters(trim(line)) as int)
}

/// A line opens a docstring exactly when, past its indentation and any
/// string-prefix letters, it starts with `"""` or `'''`; and the docstring
/// closes on that same line exactly when the delimiter occurs again after its
/// first occurrence.
pub proof fn lemma_open_characterized(line: Seq<char>)
    ensures
        spec_open(line) is Some == (has_prefix(opening_body(line), triple_double()) || has_prefix(
            opening_body(line),
            triple_single(),
        )),
        spec_open(line) is Some ==> {
            let d = if has_prefix(opening_body(line), triple_double()) {
                triple_double()
            } else {
                triple_single()
            };
            (spec_open(line) matches Some(OpeningModel::Complete(_))) == contains_seq(
                after_first(trim(line), d),
                d,
            )
        },
{
}

/// Feeding a line keeps the delimiter and indentation; a summary, once found,
/// stays; content is marked as elided only once a summary is kept, and never
/// unmarked; and the docstring closes exactly on a line whose trimmed text
/// holds the delimiter, rendering the kept summary (see
/// `lemma_rendered_shape`).
pub proof fn lemma_feed_characterized(d: DocModel, line: Seq<char>)
    ensures
        spec_feed(d, line).0.delimiter == d.delimiter,
        spec_feed(d, line).0.indent == d.indent,
        d.summary is Some ==> spec_feed(d, line).0.summary == d.summary,
        d.elided_any ==> spec_feed(d, line).0.elided_any,
        spec_feed(d, line).0.elided_any != d.elided_any ==> d.summary is Some && trim(
            strip_quotes(trim(line)),
        ).len() > 0,
        spec_feed(d, line).1 is Some == contains_seq(trim(line), d.delimiter),
        spec_feed(d, line).1 matches Some(c) ==> c.rendered == match spec_feed(d, line).0.summary {
            Some(s) => Some(rendered_of(d.indent, s)),
            None => None,
        },
{
}

/// A rendered summary is one closed docstring line: `indent` spaces, three
/// double quotes, the trimmed summary with no trailing backslash (which would
/// escape the closing quotes), and three double quotes; and it holds no
/// newline when the summary holds none.
pub proof fn lemma_rendered_shape(indent: nat, summary: Seq<char>)
    ensures
        ({
            let r = rendered_of(indent, summary);
            let body = strip_backslashes(trim(summary));
            &&& r == Seq::new(indent, |i: int| ' ') + triple_double() + body + triple_double()
            &&& forall|i: int| 0 <= i < indent ==> #[trigger] r[i] == ' '
            &&& r.subrange(indent as int, (indent + 3) as int) == triple_double()
            &&& r.subrange(r.len() - 3, r.len() as int) == triple_double()
            &&& body.len() > 0 ==> body.last() != '\\'
            &&& !summary.contains('\n') ==> !r.contains('\n')
        }),
{
    let t = trim(summary);
    let body = strip_backslashes(t);
    let sp = Seq::new(indent, |i: int| ' ');
    let r = rendered_of(indent, summary);
    assert(r == sp + triple_double() + body + triple_double());
    assert forall|i: int| 0 <= i < indent implies #[trigger] r[i] == ' ' by {
        assert(r[i] == sp[i]);
    }
    assert(r.subrange(indent as int, (indent + 3) as int) =~= triple_double());
    assert(r.subrange(r.len() - 3, r.len() as int) =~= triple_double());
    if body.len() > 0 {
        let k = trailing_run(t, '\\');
        assert(body == t.take(t.len() - k));
        lemma_trailing_run_bound(t, '\\');
        lemma_trailing_run_more(t, '\\');
    }
    if !summary.contains('\n') {
        lemma_trim_within(summary);
        assert forall|i: int| 0 <= i < r.len() implies r[i] != '\n' by {
            if i < indent {
            } else if i < indent + 3 {
                assert(r[i] == triple_double()[i - indent]);
            } else if i < indent + 3 + body.len() {
                assert(r[i] == body[i - indent - 3]);
                assert(body[i - indent - 3] == t[i - indent - 3]);
            } else {
                assert(r[i] == triple_double()[i - indent - 3 - body.len()]);
            }
        }
    }
}

proof fn lemma_trailing_run_bound(s: Seq<char>, c: char)
    ensures
        trailing_run(s, c) <= s.len(),
        forall|j: int| s.len() - trailing_run(s, c) <= j < s.len() ==> #[trigger] s[j] == c,
    decreases s.len(),
{
    if s.len() > 0 && s.last() == c {
        lemma_trailing_run_bound(s.drop_last(), c);
        assert forall|j: int| s.len() - trailing_run(s, c) <= j < s.len() implies #[trigger] s[j] == c by {
            if j < s.len() - 1 {
                assert(s[j] == s.drop_last()[j]);
            }
        }
    }
}

/// The run of `c` at the end of `s` is maximal: the character before it is not `c`.
proof fn lemma_trailing_run_more(s: Seq<char>, c: char)
    requires
        trailing_run(s, c) < s.len(),
    ensures
        s[s.len() - trailing_run(s, c) - 1] != c,
    decreases s.len(),
{
    if s.len() > 0 && s.last() == c {
        let q = s.drop_last();
        lemma_trailing_run_more(q, c);
        assert(q[q.len() - trailing_run(q, c) - 1] == s[s.len() - trailing_run(s, c) - 1]);
    }
}

/// Every character of `trim(s)` is a character of `s`.
proof fn lemma_trim_within(s: Seq<char>)
    ensures
        forall|i: int| 0 <= i < trim(s).len() ==> s.contains(#[trigger] trim(s)[i]),
{
    lemma_leading_ws_bound(s);
    let a = trim_start(s);
    lemma_trailing_ws_bound(a);
    assert forall|i: int| 0 <= i < trim(s).len() implies s.contains(#[trigger] trim(s)[i]) by {
        assert(trim(s)[i] == a[i]);
        assert(a[i] == s[i + leading_ws(s)]);
    }
}

/// A double or single quote.
pub open spec fn quote(c: char) -> bool {
    c == '"' || c == '\''
}

/// Number of quotes at the start of `s`.
pub open spec fn leading_quotes(s: Seq<char>) -> nat
    decreases s.len(),
{
    if s.len() > 0 && quote(s[0]) {
        1 + leading_quotes(s.drop_first())
    } else {
        0
    }
}

/// Number of quotes at the end of `s`.
pub open spec fn trailing_quotes(s: Seq<char>) -> nat
    decreases s.len(),
{
    if s.len() > 0 && quote(s.last()) {
        1 + trailing_quotes(s.drop_last())
    } else {
        0
    }
}

/// `s.trim_matches(|c| c == '"' || c == '\'')`.
pub open spec fn strip_quotes(s: Seq<char>) -> Seq<char> {
    let a = s.skip(leading_quotes(s) as int);
    a.take(a.len() - trailing_quotes(a))
}

/// What `Docstring::feed` does with `line`: the new state, and what it
/// returns.
pub open spec fn spec_feed(d: DocModel, line: Seq<char>) -> (DocModel, Option<ClosedModel>) {
    let trimmed = trim(line);
    let closes = contains_seq(trimmed, d.delimiter);
    // A line that is nothing but quotes (the closing delimiter, typically)
    // carries no content, so dropping it elides nothing.
    let text = trim(strip_quotes(trimmed));
    let d2 = if text.len() == 0 {
        d
    } else if d.summary is None {
        DocModel { summary: Some(text), ..d }
    } else {
        DocModel { elided_any: true, ..d }
    };
    (
        d2,
        if closes {
            Some(
                ClosedModel {
                    rendered: match d2.summary {
                        Some(s) => Some(rendered_of(d2.indent, s)),
                        None => None,
                    },
                    elided_any: d2.elided_any,
                },
            )
        } else {
            None
        },
    )
}

proof fn lemma_prefix_letters_at(s: Seq<char>, i: int)
    requires
        0 <= i <= s.len(),
        forall|j: int| 0 <= j < i ==> string_prefix_char(#[trigger] s[j]),
        i == s.len() || !string_prefix_char(s[i]),
    ensures
        prefix_letters(s) == i,
    decreases i,
{
    if i > 0 {
        assert(string_prefix_char(s[0]));
        assert forall|j: int| 0 <= j < i - 1 implies string_prefix_char(#[trigger] s.drop_first()[j]) by {
            assert(s.drop_first()[j] == s[j + 1]);
        }
        lemma_prefix_letters_at(s.drop_first(), i - 1);
    }
}

proof fn lemma_leading_quotes_at(s: Seq<char>, i: int)
    requires
        0 <= i <= s.len(),
        forall|j: int| 0 <= j < i ==> quote(#[trigger] s[j]),
        i == s.len() || !quote(s[i]),
    ensures
        leading_quotes(s) == i,
    decreases i,
{
    if i > 0 {
        assert(quote(s[0]));
        assert forall|j: int| 0 <= j < i - 1 implies quote(#[trigger] s.drop_first()[j]) by {
            assert(s.drop_first()[j] == s[j + 1]);
        }
        lemma_leading_quotes_at(s.drop_first(), i - 1);
    }
}

proof fn lemma_trailing_quotes_at(s: Seq<char>, k: int)
    requires
        0 <= k <= s.len(),
        forall|j: int| s.len() - k <= j < s.len() ==> quote(#[trigger] s[j]),
        k == s.len() || !quote(s[s.len() - k - 1]),
    ensures
        trailing_quotes(s) == k,
    decreases k,
{
    if k > 0 {
        assert(quote(s[s.len() - 1]));
        assert forall|j: int|
            s.drop_last().len() - (k - 1) <= j < s.drop_last().len() implies quote(
            #[trigger] s.drop_last()[j],
        ) by {
            assert(s.drop_last()[j] == s[j]);
        }
        if k - 1 < s.drop_last().len() {
            assert(s.drop_last()[s.drop_last().len() - (k - 1) - 1] == s[s.len() - k - 1]);
        }
        lemma_trailing_quotes_at(s.drop_last(), k - 1);
    }
}

fn is_prefix_letter(c: char) -> (b: bool)
    ensures
        b == string_prefix_char(c),
{
    c == 'r' || c == 'R' || c == 'b' || c == 'B' || c == 'u' || c == 'U' || c == 'f' || c == 'F'
}

/// The triple-quote delimiter this line opens a docstring with, if any.
///
/// Accepts the string prefixes Python allows before the quotes (`r`, `b`,
/// `f`, `u`, and their uppercase forms).
fn delimiter_of(trimmed: &Vec<char>) -> (r: Option<&'static str>)
    ensures
        r matches Some(d) ==> delimiter_of_spec(trimmed@) == Some(d@),
        r is None ==> delimiter_of_spec(trimmed@) is None,
{
    let mut i: usize = 0;
    while i < trimmed.len() && is_prefix_letter(trimmed[i])
        invariant
            i <= trimmed.len(),
            forall|j: int| 0 <= j < i ==> string_prefix_char(#[trigger] trimmed@[j]),
        decreases trimmed.len() - i,
    {
        i = i + 1;
    }
    proof {
        lemma_prefix_letters_at(trimmed@, i as int);
        reveal_strlit("\"\"\"");
        reveal_strlit("'''");
        assert("\"\"\""@ =~= triple_double());
        assert("'''"@ =~= triple_single());
    }
    let body = slice_of(trimmed, i, trimmed.len());
    let dq = chars_of("\"\"\"");
    let sq = chars_of("'''");
    if starts_with(&body, &dq) {
        Some("\"\"\"")
    } else if starts_with(&body, &sq) {
        Some("'''")
    } else {
        None
    }
}

/// `n` spaces, then `rest`.
fn push_spaces(out: &mut Vec<char>, n: u128)
    ensures
        final(out)@ == old(out)@ + Seq::new(n as nat, |i: int| ' '),
{
    let ghost start = old(out)@;
    let mut k: u128 = 0;
    while k < n
        invariant
            k <= n,
            out@ == start + Seq::new(k as nat, |i: int| ' '),
        decreases n - k,
    {
        out.push(' ');
        k = k + 1;
        assert(out@ =~= start + Seq::new(k as nat, |i: int| ' '));
    }
}

/// Render `summary` as a closed one-line docstring at `indent` columns.
fn render(indent: u128, summary: &Vec<char>) -> (r: String)
    ensures
        r@ == rendered_of(indent as nat, summary@),
{
    // A trailing backslash would escape our own closing quotes.
    let t = trim_of(summary);
    let mut k: usize = 0;
    while k < t.len() && t[t.len() - 1 - k] == '\\'
        invariant
            k <= t.len(),
            forall|j: int| t.len() - k <= j < t.len() ==> #[trigger] t@[j] == '\\',
        decreases t.len() - k,
    {
        k = k + 1;
    }
    proof {
        lemma_trailing_run_at(t@, '\\', k as int);
    }
    let body = slice_of(&t, 0, t.len() - k);
    let mut out: Vec<char> = Vec::new();
    push_spaces(&mut out, indent);
    let q = chars_of("\"\"\"");
    proof {
        reveal_strlit("\"\"\"");
        assert(q@ =~= triple_double());
    }
    crate::text::append_chars(&mut out, &q);
    crate::text::append_chars(&mut out, &body);
    crate::text::append_chars(&mut out, &q);
    string_of(&out)
}

fn rendered_opt(indent: u128, summary: &Vec<char>) -> (r: Option<String>)
    ensures
        opt_view(r) == (if summary@.len() > 0 {
            Some(rendered_of(indent as nat, summary@))
        } else {
            None
        }),
{
    if summary.len() > 0 {
        Some(render(indent, summary))
    } else {
        None
    }
}

fn strip_quotes_of(s: &Vec<char>) -> (r: Vec<char>)
    ensures
        r@ == strip_quotes(s@),
{
    let mut i: usize = 0;
    while i < s.len() && (s[i] == '"' || s[i] == '\'')
        invariant
            i <= s.len(),
            forall|j: int| 0 <= j < i ==> quote(#[trigger] s@[j]),
        decreases s.len() - i,
    {
        i = i + 1;
    }
    proof {
        lemma_leading_quotes_at(s@, i as int);
    }
    let a = slice_of(s, i, s.len());
    let mut k: usize = 0;
    while k < a.len() && (a[a.len() - 1 - k] == '"' || a[a.len() - 1 - k] == '\'')
        invariant
            k <= a.len(),
            forall|j: int| a.len() - k <= j < a.len() ==> quote(#[trigger] a@[j]),
        decreases a.len() - k,
    {
        k = k + 1;
    }
    proof {
        lemma_trailing_quotes_at(a@, k as int);
    }
    slice_of(&a, 0, a.len() - k)
}

impl Docstring {
    /// Try to open a docstring at `line`.
    ///
    /// Returns `None` if the line does not start one.
    pub fn open(line: &str) -> (r: Option<Opening>)
        ensures
            r matches Some(o) ==> spec_open(line@) == Some(o@),
            r is None ==> spec_open(line@) is None,
    {
        let chars = chars_of(line);
        Self::open_chars(&chars)
    }

    /// `open` over characters.
    #[verifier::spinoff_prover]
    #[verifier::rlimit(40)]
    pub fn open_chars(line: &Vec<char>) -> (r: Option<Opening>)
        ensures
            r matches Some(o) ==> spec_open(line@) == Some(o@),
            r is None ==> spec_open(line@) is None,
    {
        let trimmed = trim_of(line);
        let delimiter = match delimiter_of(&trimmed) {
            Some(d) => d,
            None => {
                return None;
            },
        };
        let indent = indent_bytes(line);
        let d = chars_of(delimiter);
        let after = match find(&trimmed, &d) {
            Some(i) => slice_of(&trimmed, i + d.len(), trimmed.len()),
            None => Vec::new(),
        };
        let head = match find(&after, &d) {
            Some(j) => slice_of(&after, 0, j),
            None => copy_chars(&after),
        };
        let summary = trim_of(&head);
        if contains(&after, &d) {
            let rendered = rendered_opt(indent, &summary);
            let r = Some(Opening::Complete(Closed { rendered, elided_any: false }));
            return r;
        }
        let summary_opt = if summary.len() > 0 {
            Some(string_of(&summary))
        } else {
            None
        };
        let ds = Docstring { delimiter, indent, summary: summary_opt, elided_any: false };
        proof {
            assert(ds@ == DocModel {
                delimiter: d@,
                indent: indent_of(line@),
                summary: nonempty(summary@),
                elided_any: false,
            });
        }
        Some(Opening::Ongoing(ds))
    }

    /// Feed one line of the docstring body.
    ///
    /// Returns `Some(Closed)` on the line that terminates it, `None` while it
    /// is still open.
    pub fn feed(&mut self, line: &str) -> (r: Option<Closed>)
        ensures
            final(self)@ == spec_feed(old(self)@, line@).0,
            match r {
                Some(c) => spec_feed(old(self)@, line@).1 == Some(c@),
                None => spec_feed(old(self)@, line@).1 is None,
            },
    {
        let chars = chars_of(line);
        self.feed_chars(&chars)
    }

    /// `feed` over characters.
    pub fn feed_chars(&mut self, line: &Vec<char>) -> (r: Option<Closed>)
        ensures
            final(self)@ == spec_feed(old(self)@, line@).0,
            match r {
                Some(c) => spec_feed(old(self)@, line@).1 == Some(c@),
                None => spec_feed(old(self)@, line@).1 is None,
            },
    {
        let trimmed = trim_of(line);
        let d = chars_of(self.delimiter);
        let closes = contains(&trimmed, &d);

        let text = strip_quotes_of(&trimmed);
        let text = trim_of(&text);
        if text.len() > 0 {
            if self.summary.is_none() {
                self.summary = Some(string_of(&text));
            } else {
                self.elided_any = true;
            }
        }
        if closes {
            let rendered = match &self.summary {
                Some(s) => {
                    let sc = chars_of(s.as_str());
                    Some(render(self.indent, &sc))
                },
                None => None,
            };
            Some(Closed { rendered, elided_any: self.elided_any })
        } else {
            None
        }
    }
}

} // verus!
