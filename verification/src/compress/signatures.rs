//! Outline mode: keep declarations and documentation, elide bodies.
//!
//! This is the last rung of the degradation ladder. A file too large to read
//! whole is reduced to its shape: what types exist, what functions they
//! expose, and what each one is for.
//!
//! 1. A declaration that spans lines is followed to its closing parenthesis.
//! 2. A Python docstring is a string, not a comment, so the declaration rules
//!    do not see it. Its summary line is lifted out and re-emitted closed.
//! 3. `*` only starts a doc line in languages that have `/** */` blocks.

use vstd::prelude::*;
use crate::compress::declaration::{
    declares, declares_chars, delta_wide, doc_chars, doc_line, indent_bytes, indent_of,
    lemma_delta_bound, paren_delta_of, MAX_CONTINUATION_LINES,
};
use crate::compress::docstring::{
    after_first, before_first, delimiter_of_spec, lemma_feed_characterized, prefix_letters,
    rendered_of, spec_feed, spec_open, string_prefix_char, triple_double, triple_single, DocModel,
    Docstring, Opening, OpeningModel,
};
use crate::compress::lang::{line_comment_of, signature_prefixes_of, Language};
use crate::text::{
    append_chars, chars_of, contains_seq, copy_chars, has_prefix, lines, occurs_at, split_lines, string_of, trim, trim_of, unlines,
    views,
};

verus! {

broadcast use vstd::seq_lib::group_seq_properties;

/// The outline scan's state between lines.
pub struct OutlineState {
    pub out: Seq<char>,
    /// Lines were dropped since the last one kept.
    pub elided: bool,
    /// Parentheses still open in a declaration that spans lines.
    pub open_parens: int,
    /// Lines consumed so far by that declaration.
    pub continuation: nat,
    /// A docstring may follow (Python, after a declaration).
    pub expect_docstring: bool,
    /// A docstring still open.
    pub docstring: Option<DocModel>,
}

/// Marker left where a body was removed, in the language's own comment syntax.
pub open spec fn elision_of(lang: Language) -> Seq<char> {
    let m = match line_comment_of(lang) {
        Some(m) => m,
        None => "//"@,
    };
    "    "@ + m + " ..."@
}

/// `out` with `line` appended, after a pending elision marker if any.
pub open spec fn push_out(out: Seq<char>, elided: bool, marker: Seq<char>, line: Seq<char>) -> Seq<
    char,
> {
    (if elided {
        out + marker.push('\n')
    } else {
        out
    }) + line.push('\n')
}

/// The line is a closing brace at the left margin.
pub open spec fn top_closer(line: Seq<char>, trimmed: Seq<char>) -> bool {
    indent_of(line) == 0 && (trimmed == seq!['}'] || trimmed == seq!['}', ';'])
}

/// A line that is not inside a declaration or docstring.
pub open spec fn decl_step(
    lang: Language,
    marker: Seq<char>,
    st: OutlineState,
    line: Seq<char>,
) -> OutlineState {
    let trimmed = trim(line);
    let python = lang is Python;
    let dec = declares(trimmed, lang);
    if dec || doc_line(trimmed, lang) || top_closer(line, trimmed) {
        let out = push_out(st.out, st.elided, marker, line);
        let delta = paren_delta_of(line);
        if dec && delta > 0 {
            OutlineState { out, elided: false, open_parens: delta, continuation: 0, ..st }
        } else if dec {
            OutlineState { out, elided: false, expect_docstring: python, ..st }
        } else {
            OutlineState { out, elided: false, ..st }
        }
    } else {
        OutlineState { elided: true, ..st }
    }
}

/// A line inside a declaration whose parentheses are still open.
pub open spec fn parens_step(
    lang: Language,
    marker: Seq<char>,
    st: OutlineState,
    line: Seq<char>,
) -> OutlineState {
    let out = push_out(st.out, st.elided, marker, line);
    let op = st.open_parens + paren_delta_of(line);
    let cont = st.continuation + 1;
    if op <= 0 || cont >= MAX_CONTINUATION_LINES {
        OutlineState {
            out,
            elided: false,
            open_parens: 0,
            continuation: 0,
            expect_docstring: lang is Python,
            ..st
        }
    } else {
        OutlineState { out, elided: false, open_parens: op, continuation: cont as nat, ..st }
    }
}

/// A line inside an open docstring.
pub open spec fn docstring_step(marker: Seq<char>, st: OutlineState, line: Seq<char>) -> OutlineState {
    let (d2, closed) = spec_feed(st.docstring->0, line);
    match closed {
        Some(c) => {
            let (out, el) = match c.rendered {
                Some(r) => (push_out(st.out, st.elided, marker, r), false),
                None => (st.out, st.elided),
            };
            OutlineState { out, elided: el || c.elided_any, docstring: None, ..st }
        },
        None => OutlineState { docstring: Some(d2), ..st },
    }
}

/// A non-blank line where a docstring may open.
pub open spec fn expect_step(
    lang: Language,
    marker: Seq<char>,
    st: OutlineState,
    line: Seq<char>,
) -> OutlineState {
    let st1 = OutlineState { expect_docstring: false, ..st };
    match spec_open(line) {
        Some(OpeningModel::Complete(c)) => match c.rendered {
            Some(r) => OutlineState {
                out: push_out(st1.out, st1.elided, marker, r),
                elided: false,
                ..st1
            },
            None => st1,
        },
        Some(OpeningModel::Ongoing(d)) => OutlineState { docstring: Some(d), ..st1 },
        None => decl_step(lang, marker, st1, line),
    }
}

/// One line of the outline scan.
#[verifier::opaque]
pub open spec fn outline_step(
    lang: Language,
    marker: Seq<char>,
    st: OutlineState,
    line: Seq<char>,
) -> OutlineState {
    if st.open_parens > 0 {
        parens_step(lang, marker, st, line)
    } else if st.docstring is Some {
        docstring_step(marker, st, line)
    } else if trim(line).len() == 0 {
        st
    } else if st.expect_docstring {
        expect_step(lang, marker, st, line)
    } else {
        decl_step(lang, marker, st, line)
    }
}

/// The state before the first line.
pub open spec fn outline_start(lang: Language) -> OutlineState {
    OutlineState {
        out: Seq::<char>::empty(),
        elided: false,
        open_parens: 0,
        continuation: 0,
        expect_docstring: lang is Python,
        docstring: None,
    }
}

pub open spec fn outline_scan(lang: Language, marker: Seq<char>, ls: Seq<Seq<char>>) -> OutlineState
    decreases ls.len(),
{
    if ls.len() == 0 {
        outline_start(lang)
    } else {
        outline_step(lang, marker, outline_scan(lang, marker, ls.drop_last()), ls.last())
    }
}

/// What `outline` returns for `source`.
pub open spec fn spec_outline(source: Seq<char>, lang: Language) -> Seq<char> {
    if signature_prefixes_of(lang).len() == 0 {
        source
    } else {
        let marker = elision_of(lang);
        let st = outline_scan(lang, marker, lines(source));
        if st.elided {
            st.out + marker.push('\n')
        } else {
            st.out
        }
    }
}

/// Marker left where a body was removed, in the language's own comment syntax.
///
/// A hard-coded `//` reads as a comment in Rust and JS but is a syntax error in
/// Python.
fn elision(lang: Language) -> (r: Vec<char>)
    ensures
        r@ == elision_of(lang),
{
    let m = match lang.line_comment() {
        Some(m) => m,
        None => "//",
    };
    let mut out = chars_of("    ");
    let mc = chars_of(m);
    let tail = chars_of(" ...");
    append_chars(&mut out, &mc);
    append_chars(&mut out, &tail);
    out
}

/// Append `line`, first flushing a pending elision marker.
fn push_line(out: &mut Vec<char>, elided: &mut bool, marker: &Vec<char>, line: &Vec<char>)
    ensures
        final(out)@ == push_out(old(out)@, *old(elided), marker@, line@),
        !*final(elided),
{
    if *elided {
        append_chars(out, marker);
        out.push('\n');
        *elided = false;
    }
    append_chars(out, line);
    out.push('\n');
}

fn is_top_closer(line: &Vec<char>, trimmed: &Vec<char>) -> (b: bool)
    ensures
        b == top_closer(line@, trimmed@),
{
    let indent = indent_bytes(line);
    let b = indent == 0 && ((trimmed.len() == 1 && trimmed[0] == '}') || (trimmed.len() == 2
        && trimmed[0] == '}' && trimmed[1] == ';'));
    proof {
        if trimmed@.len() == 1 && trimmed@[0] == '}' {
            assert(trimmed@ =~= seq!['}']);
        }
        if trimmed@.len() == 2 && trimmed@[0] == '}' && trimmed@[1] == ';' {
            assert(trimmed@ =~= seq!['}', ';']);
        }
    }
    b
}

/// The exec counterpart of `OutlineState`.
struct Scan {
    out: Vec<char>,
    elided: bool,
    open_parens: i128,
    continuation: usize,
    expect_docstring: bool,
    docstring: Option<Docstring>,
}

pub open spec fn doc_opt_view(d: Option<Docstring>) -> Option<DocModel> {
    match d {
        Some(d) => Some(d@),
        None => None,
    }
}

impl Scan {
    spec fn model(&self) -> OutlineState {
        OutlineState {
            out: self.out@,
            elided: self.elided,
            open_parens: self.open_parens as int,
            continuation: self.continuation as nat,
            expect_docstring: self.expect_docstring,
            docstring: doc_opt_view(self.docstring),
        }
    }

    spec fn bounded(&self) -> bool {
        &&& 0 <= self.open_parens <= 0x1_0000_0000_0000_0000 * (self.continuation + 1)
        &&& self.continuation < MAX_CONTINUATION_LINES
    }

    /// A line that is not inside a declaration or docstring.
    fn decl_step(&mut self, lang: Language, marker: &Vec<char>, line: &Vec<char>)
        requires
            old(self).bounded(),
        ensures
            final(self).model() == decl_step(lang, marker@, old(self).model(), line@),
            final(self).bounded(),
    {
        let trimmed = trim_of(line);
        let python = lang == Language::Python;
        let top = is_top_closer(line, &trimmed);
        let declares = declares_chars(&trimmed, lang);
        let line_len = line.len();
        if declares || doc_chars(&trimmed, lang) || top {
            push_line(&mut self.out, &mut self.elided, marker, line);
            let delta = delta_wide(line, '(', ')');
            proof {
                lemma_delta_bound(line@, '(', ')');
                assert(usize::MAX as int <= 0xffff_ffff_ffff_ffff);
            }
            if declares && delta > 0 {
                self.open_parens = delta;
                self.continuation = 0;
            } else if declares {
                self.expect_docstring = python;
            }
        } else {
            self.elided = true;
        }
    }

    /// A line inside a declaration whose parentheses are still open.
    fn parens_step(&mut self, lang: Language, marker: &Vec<char>, line: &Vec<char>)
        requires
            old(self).bounded(),
            old(self).open_parens > 0,
        ensures
            final(self).model() == parens_step(lang, marker@, old(self).model(), line@),
            final(self).bounded(),
    {
        let python = lang == Language::Python;
        let line_len = line.len();
        push_line(&mut self.out, &mut self.elided, marker, line);
        let delta = delta_wide(line, '(', ')');
        proof {
            lemma_delta_bound(line@, '(', ')');
            assert(usize::MAX as int <= 0xffff_ffff_ffff_ffff);
        }
        self.open_parens = self.open_parens + delta;
        self.continuation = self.continuation + 1;
        if self.open_parens <= 0 || self.continuation >= MAX_CONTINUATION_LINES {
            self.open_parens = 0;
            self.continuation = 0;
            self.expect_docstring = python;
        }
    }

    /// A line inside an open docstring.
    fn docstring_step(&mut self, marker: &Vec<char>, line: &Vec<char>)
        requires
            old(self).bounded(),
            old(self).docstring is Some,
        ensures
            final(self).model() == docstring_step(marker@, old(self).model(), line@),
            final(self).bounded(),
    {
        let mut state = self.docstring.take().unwrap();
        match state.feed_chars(line) {
            Some(closed) => {
                if let Some(rendered) = closed.rendered {
                    let r = chars_of(rendered.as_str());
                    push_line(&mut self.out, &mut self.elided, marker, &r);
                }
                self.elided = self.elided || closed.elided_any;
            },
            None => {
                self.docstring = Some(state);
            },
        }
    }

    /// A non-blank line where a docstring may open.
    fn expect_step(&mut self, lang: Language, marker: &Vec<char>, line: &Vec<char>)
        requires
            old(self).bounded(),
        ensures
            final(self).model() == expect_step(lang, marker@, old(self).model(), line@),
            final(self).bounded(),
    {
        self.expect_docstring = false;
        match Docstring::open_chars(line) {
            Some(Opening::Complete(closed)) => {
                if let Some(rendered) = closed.rendered {
                    let r = chars_of(rendered.as_str());
                    push_line(&mut self.out, &mut self.elided, marker, &r);
                }
            },
            Some(Opening::Ongoing(state)) => {
                self.docstring = Some(state);
            },
            None => {
                self.decl_step(lang, marker, line);
            },
        }
    }

    /// One line of the outline scan.
    fn step(&mut self, lang: Language, marker: &Vec<char>, line: &Vec<char>)
        requires
            old(self).bounded(),
        ensures
            final(self).model() == outline_step(lang, marker@, old(self).model(), line@),
            final(self).bounded(),
    {
        reveal(outline_step);
        // --- inside a multi-line declaration ------------------------------
        if self.open_parens > 0 {
            self.parens_step(lang, marker, line);
            return;
        }
        // --- inside a docstring --------------------------------------------

        if self.docstring.is_some() {
            self.docstring_step(marker, line);
            return;
        }
        let trimmed = trim_of(line);
        if trimmed.len() == 0 {
            return;
        }
        // --- a docstring opening right after a declaration ------------------

        if self.expect_docstring {
            self.expect_step(lang, marker, line);
            return;
        }
        // --- declarations, docs, and top-level closers ----------------------

        self.decl_step(lang, marker, line);
    }
}

/// `outline` over characters.
pub fn outline_chars(source: &Vec<char>, lang: Language) -> (r: Vec<char>)
    ensures
        r@ == spec_outline(source@, lang),
{
    if lang.signature_prefixes().len() == 0 {
        return copy_chars(source);
    }
    let marker = elision(lang);
    let ls = split_lines(source);
    let ghost gls = views(ls@);
    let mut scan = Scan {
        out: Vec::new(),
        elided: false,
        open_parens: 0,
        continuation: 0,
        // A module docstring opens the file, with no declaration before it.
        expect_docstring: lang == Language::Python,
        docstring: None,
    };
    let mut i: usize = 0;
    while i < ls.len()
        invariant
            i <= ls.len(),
            gls == views(ls@),
            gls == lines(source@),
            scan.bounded(),
            scan.model() == outline_scan(lang, marker@, gls.take(i as int)),
        decreases ls.len() - i,
    {
        proof {
            assert(gls.take(i + 1).drop_last() == gls.take(i as int));
            assert(gls[i as int] == ls@[i as int]@);
        }
        scan.step(lang, &marker, &ls[i]);
        i = i + 1;
    }
    proof {
        assert(gls.take(ls.len() as int) == gls);
    }
    let mut out = scan.out;
    if scan.elided {
        append_chars(&mut out, &marker);
        out.push('\n');
    }
    out
}

/// Reduce `source` to declarations, documentation, and structural closers.
///
/// Returns the source unchanged for languages with no known declaration syntax:
/// guessing at structure would lose more than it saves.
pub fn outline(source: &str, lang: Language) -> (r: String)
    ensures
        r@ == spec_outline(source@, lang),
        signature_prefixes_of(lang).len() == 0 ==> r@ == source@,
{
    let chars = chars_of(source);
    let out = outline_chars(&chars, lang);
    string_of(&out)
}


/// One line of an outline.
pub enum OutlineItem {
    /// Line `i` of the source, whole.
    Source(int),
    /// The elision marker.
    Marker,
    /// A docstring summary, re-emitted closed at the given indentation.
    Summary(nat, Seq<char>),
}

/// The text of each item: the source line, the marker, or the rendered
/// summary.
pub open spec fn outline_texts(ls: Seq<Seq<char>>, marker: Seq<char>, items: Seq<OutlineItem>) -> Seq<
    Seq<char>,
> {
    items.map_values(|x: OutlineItem| item_text(ls, marker, x))
}

pub open spec fn item_text(ls: Seq<Seq<char>>, marker: Seq<char>, x: OutlineItem) -> Seq<char> {
    match x {
        OutlineItem::Source(i) => ls[i],
        OutlineItem::Marker => marker,
        OutlineItem::Summary(indent, summary) => rendered_of(indent, summary),
    }
}

/// A line outline mode always keeps: a declaration, a documentation line, or
/// a closing brace at the left margin.
pub open spec fn always_kept(lang: Language, line: Seq<char>) -> bool {
    declares(trim(line), lang) || doc_line(trim(line), lang) || top_closer(line, trim(line))
}

/// The items of an outline are well placed: source lines in range and in
/// order, each at most once, and every marker directly followed by a line
/// that is not a marker, or last.
pub open spec fn orderly_items(n: int, items: Seq<OutlineItem>) -> bool {
    &&& forall|k: int|
        0 <= k < items.len() && #[trigger] items[k] is Source ==> 0 <= items[k]->Source_0 < n
    &&& forall|k: int, j: int|
        0 <= k < j < items.len() && #[trigger] items[k] is Source && #[trigger] items[j] is Source
            ==> items[k]->Source_0 < items[j]->Source_0
    &&& forall|k: int|
        0 <= k && k + 1 < items.len() ==> !(#[trigger] items[k] is Marker && items[k + 1] is Marker)
}

proof fn lemma_push_item(ls: Seq<Seq<char>>, marker: Seq<char>, items: Seq<OutlineItem>, x: OutlineItem)
    ensures
        unlines(outline_texts(ls, marker, items.push(x))) == unlines(outline_texts(ls, marker, items))
            + item_text(ls, marker, x).push('\n'),
{
    let t = outline_texts(ls, marker, items.push(x));
    assert(t =~= outline_texts(ls, marker, items).push(item_text(ls, marker, x)));
    assert(t.drop_last() =~= outline_texts(ls, marker, items));
}

proof fn lemma_python_prefix_heads(t: Seq<char>)
    requires
        t.len() > 0,
        declares(t, Language::Python),
    ensures
        t[0] == 'd' || t[0] == 'a' || t[0] == 'c' || t[0] == '@',
{
    reveal_strlit("def ");
    reveal_strlit("async def ");
    reveal_strlit("class ");
    reveal_strlit("@");
    let ps = signature_prefixes_of(Language::Python);
    let k = choose|k: int| 0 <= k < ps.len() && has_prefix(t, #[trigger] ps[k]);
    assert(ps[k].len() > 0);
    assert(t.take(ps[k].len() as int)[0] == t[0]);
    assert(t[0] == ps[k][0]);
}

/// A text whose first character is none of the string-prefix letters and no
/// quote starts no docstring delimiter.
proof fn lemma_no_quote_no_delimiter(t: Seq<char>)
    requires
        t.len() > 0,
        !string_prefix_char(t[0]),
        t[0] != '"',
        t[0] != '\'',
    ensures
        delimiter_of_spec(t) is None,
{
    assert(prefix_letters(t) == 0);
    assert(t.skip(0) =~= t);
    assert(!has_prefix(t, triple_double())) by {
        if has_prefix(t, triple_double()) {
            assert(t.take(3)[0] == t[0]);
        }
    }
    assert(!has_prefix(t, triple_single())) by {
        if has_prefix(t, triple_single()) {
            assert(t.take(3)[0] == t[0]);
        }
    }
}

/// A line outline mode always keeps never opens a Python docstring: it starts
/// with `def`, `async def`, `class`, `@` or `}`, none of which is a quote or a
/// string prefix.
#[verifier::spinoff_prover]
#[verifier::rlimit(50)]
proof fn lemma_kept_opens_no_docstring(line: Seq<char>)
    requires
        trim(line).len() > 0,
        always_kept(Language::Python, line),
    ensures
        spec_open(line) is None,
{
    let t = trim(line);
    assert(!doc_line(t, Language::Python));
    if declares(t, Language::Python) {
        lemma_python_prefix_heads(t);
    } else {
        assert(top_closer(line, t));
        assert(t[0] == '}');
    }
    lemma_no_quote_no_delimiter(t);
}

#[verifier::rlimit(90)]
#[verifier::spinoff_prover]
proof fn lemma_outline_items(lang: Language, marker: Seq<char>, ls: Seq<Seq<char>>) -> (items: Seq<
    OutlineItem,
>)
    ensures
        outline_scan(lang, marker, ls).expect_docstring ==> lang is Python,
        outline_scan(lang, marker, ls).docstring is Some ==> lang is Python,
        outline_scan(lang, marker, ls).out == unlines(outline_texts(ls, marker, items)),
        orderly_items(ls.len() as int, items),
        items.len() > 0 ==> !(items.last() is Marker),
        !(lang is Python) ==> forall|k: int| 0 <= k < items.len() ==> !(#[trigger] items[k] is Summary),
        forall|i: int|
            0 <= i < ls.len() && trim(ls[i]).len() > 0 && always_kept(lang, #[trigger] ls[i])
                && outline_scan(lang, marker, ls.take(i)).docstring is None
                ==> items.contains(OutlineItem::Source(i)),
    decreases ls.len(),
{
    if ls.len() == 0 {
        let items = Seq::<OutlineItem>::empty();
        assert(outline_texts(ls, marker, items) =~= Seq::<Seq<char>>::empty());
        items
    } else {
        let q = ls.drop_last();
        let r = lemma_outline_items(lang, marker, q);
        let st = outline_scan(lang, marker, q);
        let n = ls.len() - 1;
        let line = ls.last();
        assert(ls[n] == line);
        assert(ls.take(n) =~= q);
        reveal(outline_step);
        assert forall|k: int| 0 <= k < r.len() && r[k] is Source implies ls[r[k]->Source_0]
            == q[r[k]->Source_0] by {}
        assert(outline_texts(ls, marker, r) =~= outline_texts(q, marker, r));
        let with_marker = if st.elided {
            r.push(OutlineItem::Marker)
        } else {
            r
        };
        lemma_push_item(ls, marker, r, OutlineItem::Marker);
        // What a step appends, if anything.
        let added: Option<OutlineItem> = if st.open_parens > 0 {
            Some(OutlineItem::Source(n))
        } else if st.docstring is Some {
            let d = st.docstring->0;
            let (d2, closed) = spec_feed(d, line);
            match closed {
                Some(c) => match c.rendered {
                    Some(_) => Some(OutlineItem::Summary(d.indent, d2.summary->0)),
                    None => None,
                },
                None => None,
            }
        } else if trim(line).len() == 0 {
            None
        } else if st.expect_docstring && spec_open(line) is Some {
            match spec_open(line) {
                Some(OpeningModel::Complete(c)) => match c.rendered {
                    Some(_) => {
                        let t = trim(line);
                        let dl = delimiter_of_spec(t)->0;
                        Some(
                            OutlineItem::Summary(
                                indent_of(line),
                                trim(before_first(after_first(t, dl), dl)),
                            ),
                        )
                    },
                    None => None,
                },
                _ => None,
            }
        } else if always_kept(lang, line) {
            Some(OutlineItem::Source(n))
        } else {
            None
        };
        if st.expect_docstring && st.open_parens <= 0 && st.docstring is None && trim(line).len()
            > 0 && always_kept(lang, line) {
            lemma_kept_opens_no_docstring(line);
        }
        if st.docstring is Some && st.open_parens <= 0 {
            lemma_feed_characterized(st.docstring->0, line);
        }
        let items = match added {
            Some(x) => with_marker.push(x),
            None => r,
        };
        if let Some(x) = added {
            lemma_push_item(ls, marker, with_marker, x);
        }
        assert forall|k: int| 0 <= k < items.len() && #[trigger] items[k] is Source implies 0
            <= items[k]->Source_0 < ls.len() by {
            if k < r.len() {
                assert(items[k] == r[k]);
            }
        }
        assert forall|k: int, j: int|
            0 <= k < j < items.len() && #[trigger] items[k] is Source && #[trigger] items[j] is Source
                implies items[k]->Source_0 < items[j]->Source_0 by {
            if j < r.len() {
                assert(items[k] == r[k] && items[j] == r[j]);
            } else if k < r.len() {
                assert(items[k] == r[k]);
            }
        }
        assert forall|k: int| 0 <= k && k + 1 < items.len() implies !(#[trigger] items[k] is Marker
            && items[k + 1] is Marker) by {
            if k + 1 < r.len() {
                assert(items[k] == r[k] && items[k + 1] == r[k + 1]);
            } else if k < r.len() {
                assert(items[k] == r[k]);
            }
        }
        assert forall|k: int| 0 <= k < items.len() && !(lang is Python) implies !(
        #[trigger] items[k] is Summary) by {
            if k < r.len() {
                assert(items[k] == r[k]);
            }
        }
        assert forall|i: int|
            0 <= i < ls.len() && trim(ls[i]).len() > 0 && always_kept(lang, #[trigger] ls[i])
                && outline_scan(lang, marker, ls.take(i)).docstring is None implies items.contains(
            OutlineItem::Source(i),
        ) by {
            if i < n {
                assert(q[i] == ls[i]);
                assert(ls.take(i) =~= q.take(i));
                assert(r.contains(OutlineItem::Source(i)));
                let k = choose|k: int| 0 <= k < r.len() && r[k] == OutlineItem::Source(i);
                assert(items[k] == r[k]);
            } else {
                assert(items[items.len() - 1] == OutlineItem::Source(i));
            }
        }
        items
    }
}

/// What outline mode keeps, for a language with declaration syntax. The
/// outline is made of whole items only (ADR-008: something whole or a
/// marker): source lines, in order and each at most once; docstring summaries
/// re-emitted closed, and only in Python; and elision markers, never two in a
/// row. Every non-blank declaration, documentation line and margin closing
/// brace outside a docstring is among the source lines, and outside Python,
/// where no docstring ever opens, every one of them is.
pub proof fn lemma_outline_keeps_declarations(source: Seq<char>, lang: Language) -> (items: Seq<
    OutlineItem,
>)
    requires
        signature_prefixes_of(lang).len() > 0,
    ensures
        spec_outline(source, lang) == unlines(outline_texts(lines(source), elision_of(lang), items)),
        orderly_items(lines(source).len() as int, items),
        !(lang is Python) ==> forall|k: int| 0 <= k < items.len() ==> !(#[trigger] items[k] is Summary),
        forall|i: int|
            0 <= i < lines(source).len() && trim(lines(source)[i]).len() > 0 && always_kept(
                lang,
                #[trigger] lines(source)[i],
            ) && outline_scan(lang, elision_of(lang), lines(source).take(i)).docstring is None
                ==> items.contains(OutlineItem::Source(i)),
        !(lang is Python) ==> forall|i: int|
            0 <= i < lines(source).len() && trim(lines(source)[i]).len() > 0 && always_kept(
                lang,
                #[trigger] lines(source)[i],
            ) ==> items.contains(OutlineItem::Source(i)),
{
    let ls = lines(source);
    let marker = elision_of(lang);
    let r = lemma_outline_items(lang, marker, ls);
    let st = outline_scan(lang, marker, ls);
    if !(lang is Python) {
        assert forall|i: int| 0 <= i <= ls.len() implies outline_scan(
            lang,
            marker,
            #[trigger] ls.take(i),
        ).docstring is None by {
            lemma_outline_items(lang, marker, ls.take(i));
        }
    }
    if st.elided {
        let items = r.push(OutlineItem::Marker);
        lemma_push_item(ls, marker, r, OutlineItem::Marker);
        assert forall|k: int| 0 <= k < items.len() && #[trigger] items[k] is Source implies 0
            <= items[k]->Source_0 < ls.len() by {
            assert(items[k] == r[k]);
        }
        assert forall|k: int, j: int|
            0 <= k < j < items.len() && #[trigger] items[k] is Source && #[trigger] items[j] is Source
                implies items[k]->Source_0 < items[j]->Source_0 by {
            assert(items[k] == r[k] && items[j] == r[j]);
        }
        assert forall|k: int| 0 <= k && k + 1 < items.len() implies !(#[trigger] items[k] is Marker
            && items[k + 1] is Marker) by {
            assert(items[k] == r[k]);
            if k + 1 < r.len() {
                assert(items[k + 1] == r[k + 1]);
            }
        }
        assert forall|k: int| 0 <= k < items.len() && !(lang is Python) implies !(
        #[trigger] items[k] is Summary) by {
            if k < r.len() {
                assert(items[k] == r[k]);
            }
        }
        assert forall|i: int|
            0 <= i < ls.len() && trim(ls[i]).len() > 0 && always_kept(lang, #[trigger] ls[i])
                && outline_scan(lang, marker, ls.take(i)).docstring is None implies items.contains(
            OutlineItem::Source(i),
        ) by {
            let k = choose|k: int| 0 <= k < r.len() && r[k] == OutlineItem::Source(i);
            assert(items[k] == r[k]);
        }
        items
    } else {
        r
    }
}


/// `b` begins with `a`.
pub open spec fn extends(a: Seq<char>, b: Seq<char>) -> bool {
    a.len() <= b.len() && b.take(a.len() as int) == a
}

proof fn lemma_push_out_extends(o: Seq<char>, e: bool, marker: Seq<char>, l: Seq<char>)
    ensures
        extends(o, push_out(o, e, marker, l)),
{
    let p = push_out(o, e, marker, l);
    if e {
        assert(p =~= o + (marker.push('\n') + l.push('\n')));
    } else {
        assert(p =~= o + l.push('\n'));
    }
    assert(p.take(o.len() as int) =~= o);
}

proof fn lemma_decl_step_extends(lang: Language, marker: Seq<char>, st: OutlineState, line: Seq<char>)
    ensures
        extends(st.out, decl_step(lang, marker, st, line).out),
{
    lemma_push_out_extends(st.out, st.elided, marker, line);
    assert(st.out.take(st.out.len() as int) =~= st.out);
}

proof fn lemma_parens_step_extends(lang: Language, marker: Seq<char>, st: OutlineState, line: Seq<char>)
    ensures
        extends(st.out, parens_step(lang, marker, st, line).out),
{
    lemma_push_out_extends(st.out, st.elided, marker, line);
}

proof fn lemma_docstring_step_extends(marker: Seq<char>, st: OutlineState, line: Seq<char>)
    ensures
        extends(st.out, docstring_step(marker, st, line).out),
{
    assert(st.out.take(st.out.len() as int) =~= st.out);
    let (d2, closed) = spec_feed(st.docstring->0, line);
    if let Some(c) = closed {
        if let Some(r) = c.rendered {
            lemma_push_out_extends(st.out, st.elided, marker, r);
        }
    }
}

proof fn lemma_expect_step_extends(lang: Language, marker: Seq<char>, st: OutlineState, line: Seq<char>)
    ensures
        extends(st.out, expect_step(lang, marker, st, line).out),
{
    assert(st.out.take(st.out.len() as int) =~= st.out);
    let st1 = OutlineState { expect_docstring: false, ..st };
    lemma_decl_step_extends(lang, marker, st1, line);
    if let Some(OpeningModel::Complete(c)) = spec_open(line) {
        if let Some(r) = c.rendered {
            lemma_push_out_extends(st.out, st.elided, marker, r);
        }
    }
}

/// One step of the outline scan only appends to the outline text.
proof fn lemma_step_appends(lang: Language, marker: Seq<char>, st: OutlineState, line: Seq<char>)
    ensures
        st.out.len() <= outline_step(lang, marker, st, line).out.len(),
        outline_step(lang, marker, st, line).out.take(st.out.len() as int) == st.out,
{
    reveal(outline_step);
    assert(st.out.take(st.out.len() as int) =~= st.out);
    lemma_decl_step_extends(lang, marker, st, line);
    lemma_parens_step_extends(lang, marker, st, line);
    lemma_expect_step_extends(lang, marker, st, line);
    if st.docstring is Some {
        lemma_docstring_step_extends(marker, st, line);
    }
}

/// A declaration line in Python, outside a signature and a docstring, is
/// kept, and a docstring may follow it.
proof fn lemma_python_declaration_step(marker: Seq<char>, st: OutlineState, line: Seq<char>)
    requires
        st.open_parens <= 0,
        st.docstring is None,
        trim(line).len() > 0,
        declares(trim(line), Language::Python),
        paren_delta_of(line) <= 0,
    ensures
        outline_step(Language::Python, marker, st, line).out == push_out(st.out, st.elided, marker, line),
        !outline_step(Language::Python, marker, st, line).elided,
        outline_step(Language::Python, marker, st, line).expect_docstring,
        outline_step(Language::Python, marker, st, line).docstring is None,
        outline_step(Language::Python, marker, st, line).open_parens <= 0,
{
    assert(always_kept(Language::Python, line));
    lemma_kept_opens_no_docstring(line);
    reveal(outline_step);
}

/// A one-line docstring with a summary, where one may open, is re-emitted.
proof fn lemma_python_docstring_step(marker: Seq<char>, st: OutlineState, line: Seq<char>)
    requires
        st.open_parens <= 0,
        st.docstring is None,
        st.expect_docstring,
        spec_open(line) matches Some(OpeningModel::Complete(c)) && c.rendered is Some,
    ensures
        outline_step(Language::Python, marker, st, line).out == push_out(
            st.out,
            st.elided,
            marker,
            spec_open(line)->Some_0->Complete_0.rendered->Some_0,
        ),
{
    assert(trim(line).len() > 0) by {
        let t = trim(line);
        let body = t.skip(prefix_letters(t) as int);
        assert(has_prefix(body, triple_double()) || has_prefix(body, triple_single()));
    }
    reveal(outline_step);
}

/// The outline text of a prefix of the lines is a prefix of the outline text
/// of all of them.
proof fn lemma_scan_grows(lang: Language, marker: Seq<char>, ls: Seq<Seq<char>>, j: int)
    requires
        0 <= j <= ls.len(),
    ensures
        outline_scan(lang, marker, ls.take(j)).out.len() <= outline_scan(lang, marker, ls).out.len(),
        outline_scan(lang, marker, ls).out.take(outline_scan(lang, marker, ls.take(j)).out.len() as int)
            == outline_scan(lang, marker, ls.take(j)).out,
    decreases ls.len() - j,
{
    if j == ls.len() {
        assert(ls.take(j) =~= ls);
        assert(outline_scan(lang, marker, ls).out.take(outline_scan(lang, marker, ls).out.len() as int)
            =~= outline_scan(lang, marker, ls).out);
    } else {
        lemma_scan_grows(lang, marker, ls, j + 1);
        let t = ls.take(j + 1);
        assert(t.drop_last() =~= ls.take(j));
        assert(t.last() == ls[j]);
        let a = outline_scan(lang, marker, ls.take(j));
        lemma_step_appends(lang, marker, a, ls[j]);
        let b = outline_scan(lang, marker, t).out;
        let f = outline_scan(lang, marker, ls).out;
        assert(b == outline_step(lang, marker, a, ls[j]).out);
        assert(f.take(a.out.len() as int) =~= f.take(b.len() as int).take(a.out.len() as int));
    }
}

proof fn lemma_scan_next(lang: Language, marker: Seq<char>, ls: Seq<Seq<char>>, j: int)
    requires
        0 <= j < ls.len(),
    ensures
        outline_scan(lang, marker, ls.take(j + 1)) == outline_step(
            lang,
            marker,
            outline_scan(lang, marker, ls.take(j)),
            ls[j],
        ),
{
    assert(ls.take(j + 1).drop_last() =~= ls.take(j));
    assert(ls.take(j + 1).last() == ls[j]);
}

/// Blank lines outside a signature and a docstring leave the scan as it is.
proof fn lemma_blank_run(lang: Language, marker: Seq<char>, ls: Seq<Seq<char>>, a: int, b: int)
    requires
        0 <= a <= b <= ls.len(),
        outline_scan(lang, marker, ls.take(a)).open_parens <= 0,
        outline_scan(lang, marker, ls.take(a)).docstring is None,
        forall|j: int| a <= j < b ==> trim(#[trigger] ls[j]).len() == 0,
    ensures
        outline_scan(lang, marker, ls.take(b)) == outline_scan(lang, marker, ls.take(a)),
    decreases b - a,
{
    if a < b {
        lemma_blank_run(lang, marker, ls, a, b - 1);
        lemma_scan_next(lang, marker, ls, b - 1);
        reveal(outline_step);
        assert(trim(ls[b - 1]).len() == 0);
    }
}

/// In Python, a docstring that directly follows a kept declaration has its
/// summary emitted right after it: when line `k` declares something (outside
/// an open signature or docstring) without leaving a parenthesis open, the
/// lines after it are blank up to line `m`, and line `m` is a one-line
/// docstring with a summary, the outline holds line `k` followed directly by
/// that summary as a closed one-line docstring. Classes, functions and
/// decorated definitions alike.
#[verifier::spinoff_prover]
#[verifier::rlimit(80)]
pub proof fn lemma_docstring_follows_declaration(source: Seq<char>, k: int, m: int)
    requires
        0 <= k < m < lines(source).len(),
        outline_scan(Language::Python, elision_of(Language::Python), lines(source).take(k)).open_parens
            <= 0,
        outline_scan(Language::Python, elision_of(Language::Python), lines(source).take(
            k,
        )).docstring is None,
        trim(lines(source)[k]).len() > 0,
        declares(trim(lines(source)[k]), Language::Python),
        paren_delta_of(lines(source)[k]) <= 0,
        forall|j: int| k < j < m ==> trim(#[trigger] lines(source)[j]).len() == 0,
        spec_open(lines(source)[m]) matches Some(OpeningModel::Complete(c)) && c.rendered is Some,
    ensures
        contains_seq(
            spec_outline(source, Language::Python),
            lines(source)[k].push('\n') + (spec_open(lines(source)[m])->Some_0->Complete_0.rendered->Some_0).push('\n'),
        ),
{
    let lang = Language::Python;
    let marker = elision_of(lang);
    let ls = lines(source);
    let line = ls[k];
    let r = spec_open(ls[m])->Some_0->Complete_0.rendered->Some_0;
    let s0 = outline_scan(lang, marker, ls.take(k));
    lemma_scan_next(lang, marker, ls, k);
    lemma_python_declaration_step(marker, s0, line);
    let s1 = outline_scan(lang, marker, ls.take(k + 1));
    let head = if s0.elided {
        s0.out + marker.push('\n')
    } else {
        s0.out
    };
    assert(s1.out =~= head + line.push('\n'));
    lemma_blank_run(lang, marker, ls, k + 1, m);
    lemma_scan_next(lang, marker, ls, m);
    lemma_python_docstring_step(marker, s1, ls[m]);
    let s2 = outline_scan(lang, marker, ls.take(m + 1));
    let piece = line.push('\n') + r.push('\n');
    assert(s2.out =~= head + piece);
    lemma_scan_grows(lang, marker, ls, m + 1);
    let st = outline_scan(lang, marker, ls);
    let fin = spec_outline(source, lang);
    assert(fin.take(st.out.len() as int) =~= st.out);
    let at = head.len() as int;
    assert(fin.subrange(at, at + piece.len()) =~= s2.out.subrange(at, at + piece.len()));
    assert(occurs_at(fin, piece, at));
}


/// The docstring state after feeding it the lines `ls[a..b]`, in order.
pub open spec fn fed(d: DocModel, ls: Seq<Seq<char>>, a: int, b: int) -> DocModel
    decreases b - a,
{
    if b <= a {
        d
    } else {
        spec_feed(fed(d, ls, a, b - 1), ls[b - 1]).0
    }
}

/// Lines fed to an open docstring that do not close it leave the outline text
/// as it is and keep the docstring open.
proof fn lemma_open_docstring_run(
    marker: Seq<char>,
    ls: Seq<Seq<char>>,
    d: DocModel,
    a: int,
    b: int,
)
    requires
        0 <= a <= b <= ls.len(),
        outline_scan(Language::Python, marker, ls.take(a)).open_parens <= 0,
        outline_scan(Language::Python, marker, ls.take(a)).docstring == Some(d),
        forall|j: int| a <= j < b ==> (#[trigger] spec_feed(fed(d, ls, a, j), ls[j])).1 is None,
    ensures
        outline_scan(Language::Python, marker, ls.take(b)) == (OutlineState {
            docstring: Some(fed(d, ls, a, b)),
            ..outline_scan(Language::Python, marker, ls.take(a))
        }),
    decreases b - a,
{
    if a < b {
        lemma_open_docstring_run(marker, ls, d, a, b - 1);
        lemma_scan_next(Language::Python, marker, ls, b - 1);
        assert(spec_feed(fed(d, ls, a, b - 1), ls[b - 1]).1 is None);
        reveal(outline_step);
    } else {
        assert(outline_scan(Language::Python, marker, ls.take(a)) == OutlineState {
            docstring: Some(fed(d, ls, a, b)),
            ..outline_scan(Language::Python, marker, ls.take(a))
        });
    }
}

proof fn lemma_python_opening_step(marker: Seq<char>, st: OutlineState, line: Seq<char>)
    requires
        st.open_parens <= 0,
        st.docstring is None,
        st.expect_docstring,
        (spec_open(line) matches Some(OpeningModel::Ongoing(_))),
    ensures
        outline_step(Language::Python, marker, st, line) == (OutlineState {
            docstring: Some(spec_open(line)->Some_0->Ongoing_0),
            expect_docstring: false,
            ..st
        }),
{
    assert(trim(line).len() > 0) by {
        let t = trim(line);
        let body = t.skip(prefix_letters(t) as int);
        assert(has_prefix(body, triple_double()) || has_prefix(body, triple_single()));
    }
    reveal(outline_step);
}

proof fn lemma_python_closing_step(marker: Seq<char>, st: OutlineState, line: Seq<char>)
    requires
        st.open_parens <= 0,
        st.docstring is Some,
        (spec_feed(st.docstring->0, line).1 matches Some(c) && c.rendered is Some),
    ensures
        outline_step(Language::Python, marker, st, line).out == push_out(
            st.out,
            st.elided,
            marker,
            spec_feed(st.docstring->0, line).1->Some_0.rendered->Some_0,
        ),
{
    reveal(outline_step);
}

/// In Python, the summary of a multi-line docstring that directly follows a
/// kept declaration is emitted right after that declaration too: when line
/// `k` declares something as in `lemma_docstring_follows_declaration`, the
/// lines after it are blank up to line `m`, line `m` opens a docstring, the
/// lines after it do not close it until line `p`, and line `p` closes it with
/// a summary, the outline holds line `k` followed directly by that summary as
/// a closed one-line docstring.
#[verifier::spinoff_prover]
#[verifier::rlimit(80)]
pub proof fn lemma_long_docstring_follows_declaration(source: Seq<char>, k: int, m: int, p: int)
    requires
        0 <= k < m < p < lines(source).len(),
        outline_scan(Language::Python, elision_of(Language::Python), lines(source).take(k)).open_parens
            <= 0,
        outline_scan(Language::Python, elision_of(Language::Python), lines(source).take(
            k,
        )).docstring is None,
        trim(lines(source)[k]).len() > 0,
        declares(trim(lines(source)[k]), Language::Python),
        paren_delta_of(lines(source)[k]) <= 0,
        forall|j: int| k < j < m ==> trim(#[trigger] lines(source)[j]).len() == 0,
        (spec_open(lines(source)[m]) matches Some(OpeningModel::Ongoing(_))),
        forall|j: int|
            m < j < p ==> (#[trigger] spec_feed(
                fed(spec_open(lines(source)[m])->Some_0->Ongoing_0, lines(source), m + 1, j),
                lines(source)[j],
            )).1 is None,
        (spec_feed(
            fed(spec_open(lines(source)[m])->Some_0->Ongoing_0, lines(source), m + 1, p),
            lines(source)[p],
        ).1 matches Some(c) && c.rendered is Some),
    ensures
        contains_seq(
            spec_outline(source, Language::Python),
            lines(source)[k].push('\n') + (spec_feed(
                fed(spec_open(lines(source)[m])->Some_0->Ongoing_0, lines(source), m + 1, p),
                lines(source)[p],
            ).1->Some_0.rendered->Some_0).push('\n'),
        ),
{
    let lang = Language::Python;
    let marker = elision_of(lang);
    let ls = lines(source);
    let line = ls[k];
    let d = spec_open(ls[m])->Some_0->Ongoing_0;
    let r = spec_feed(fed(d, ls, m + 1, p), ls[p]).1->Some_0.rendered->Some_0;
    let s0 = outline_scan(lang, marker, ls.take(k));
    lemma_scan_next(lang, marker, ls, k);
    lemma_python_declaration_step(marker, s0, line);
    let s1 = outline_scan(lang, marker, ls.take(k + 1));
    let head = if s0.elided {
        s0.out + marker.push('\n')
    } else {
        s0.out
    };
    assert(s1.out =~= head + line.push('\n'));
    lemma_blank_run(lang, marker, ls, k + 1, m);
    lemma_scan_next(lang, marker, ls, m);
    lemma_python_opening_step(marker, s1, ls[m]);
    assert forall|j: int| m + 1 <= j < p implies (#[trigger] spec_feed(fed(d, ls, m + 1, j), ls[j])).1 is None by {}
    lemma_open_docstring_run(marker, ls, d, m + 1, p);
    let sp = outline_scan(lang, marker, ls.take(p));
    assert(sp.out == s1.out && !sp.elided);
    lemma_scan_next(lang, marker, ls, p);
    lemma_python_closing_step(marker, sp, ls[p]);
    let s2 = outline_scan(lang, marker, ls.take(p + 1));
    let piece = line.push('\n') + r.push('\n');
    assert(s2.out =~= head + piece);
    lemma_scan_grows(lang, marker, ls, p + 1);
    let st = outline_scan(lang, marker, ls);
    let fin = spec_outline(source, lang);
    assert(fin.take(st.out.len() as int) =~= st.out);
    let at = head.len() as int;
    assert(fin.subrange(at, at + piece.len()) =~= s2.out.subrange(at, at + piece.len()));
    assert(occurs_at(fin, piece, at));
}

} // verus!
