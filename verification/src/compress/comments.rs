//! Comment stripping that keeps documentation.
//!
//! Inline comments mostly restate the line below them; doc comments carry
//! intent an agent cannot re-derive from a signature. So: `//` and `#` go,
//! `///`, `//!` and `/** */` stay.
//!
//! The scanner is quote-aware, so a `//` inside a string literal (a URL, a
//! path) is not mistaken for a comment. It is still line-based.

use vstd::prelude::*;
use crate::compress::lang::{
    any_prefix, block_comments_of, doc_prefixes_of, line_comment_of, starts_with_any, Language,
};
use crate::text::{
    chars_of, contains, contains_seq, copy_chars, emit_line, has_prefix, lines, matches_at,
    occurs_at, slice_of, split_lines, starts_with, string_of, trim_end, trim_end_of, trim_start,
    trim_start_of, views, unlines, lemma_trailing_ws_bound, lemma_lines_len, lemma_lines_unlines,
    no_newlines,
};

verus! {

broadcast use vstd::seq_lib::group_seq_properties;

/// What a quote-aware scan of one line found first.
pub enum Found {
    LineComment(usize),
    BlockOpen(usize),
    Nothing,
}

/// The scan of `line` from position `i`, inside the string opened by
/// `in_string` if any, right after a backslash if `escaped`.
pub open spec fn scan_from(
    line: Seq<char>,
    marker: Seq<char>,
    blocks: bool,
    quotes: Seq<char>,
    i: int,
    in_string: Option<char>,
    escaped: bool,
) -> Found
    decreases line.len() - i,
{
    if i < 0 || i >= line.len() {
        Found::Nothing
    } else {
        let ch = line[i];
        if escaped {
            scan_from(line, marker, blocks, quotes, i + 1, in_string, false)
        } else if in_string is Some {
            if ch == '\\' {
                scan_from(line, marker, blocks, quotes, i + 1, in_string, true)
            } else if ch == in_string->0 {
                scan_from(line, marker, blocks, quotes, i + 1, None, false)
            } else {
                scan_from(line, marker, blocks, quotes, i + 1, in_string, false)
            }
        } else if quotes.contains(ch) {
            scan_from(line, marker, blocks, quotes, i + 1, Some(ch), false)
        } else if blocks && has_prefix(line.skip(i), "/*"@) {
            Found::BlockOpen(i as usize)
        } else if has_prefix(line.skip(i), marker) {
            Found::LineComment(i as usize)
        } else {
            scan_from(line, marker, blocks, quotes, i + 1, None, false)
        }
    }
}

/// The first comment marker of `line` that is not inside a string.
pub open spec fn scan_of(line: Seq<char>, marker: Seq<char>, blocks: bool, quotes: Seq<char>) -> Found {
    scan_from(line, marker, blocks, quotes, 0, None, false)
}

/// Quote characters that open a string literal in this language.
///
/// Rust omits `'` on purpose: lifetimes (`&'a str`) are far more common than
/// char literals containing a quote, and treating `'a` as an open string would
/// swallow the rest of the line.
pub open spec fn quote_chars_of(lang: Language) -> Seq<char> {
    match lang {
        Language::Rust => seq!['"'],
        Language::JavaScript | Language::TypeScript => seq!['"', '\'', '`'],
        Language::Python | Language::Go | Language::Other => seq!['"', '\''],
    }
}

/// `out` with `l` and a newline appended.
pub open spec fn emit(out: Seq<char>, l: Seq<char>) -> Seq<char> {
    out + l.push('\n')
}

/// `out` with `code` appended as a line, unless `code` is empty.
pub open spec fn emit_code(out: Seq<char>, code: Seq<char>) -> Seq<char> {
    if code.len() > 0 {
        emit(out, code)
    } else {
        out
    }
}

/// One line of the strip scan over state `(out, in_block, block_is_doc)`;
/// `number` is the line's position in the file.
pub open spec fn strip_step(
    lang: Language,
    marker: Seq<char>,
    st: (Seq<char>, bool, bool),
    number: int,
    line: Seq<char>,
) -> (Seq<char>, bool, bool) {
    let (out, in_block, block_is_doc) = st;
    if number == 0 && has_prefix(line, "#!"@) {
        // A shebang is executable metadata, not a comment.
        (emit(out, line), in_block, block_is_doc)
    } else if in_block {
        let o = if block_is_doc {
            emit(out, line)
        } else {
            out
        };
        if contains_seq(line, "*/"@) {
            (o, false, false)
        } else {
            (o, true, block_is_doc)
        }
    } else if starts_with_any(trim_start(line), doc_prefixes_of(lang)) {
        (emit(out, line), in_block, block_is_doc)
    } else {
        match scan_of(line, marker, block_comments_of(lang), quote_chars_of(lang)) {
            Found::Nothing => (emit(out, line), in_block, block_is_doc),
            Found::LineComment(index) => (
                emit_code(out, trim_end(line.take(index as int))),
                in_block,
                block_is_doc,
            ),
            Found::BlockOpen(index) => {
                let comment = line.skip(index as int);
                let is_doc = has_prefix(comment, "/**"@);
                let closes_here = contains_seq(comment.skip(2), "*/"@);
                let o = if is_doc {
                    emit(out, line)
                } else {
                    emit_code(out, trim_end(line.take(index as int)))
                };
                if !closes_here {
                    (o, true, is_doc)
                } else {
                    (o, in_block, block_is_doc)
                }
            },
        }
    }
}

pub open spec fn strip_scan(lang: Language, marker: Seq<char>, ls: Seq<Seq<char>>) -> (
    Seq<char>,
    bool,
    bool,
)
    decreases ls.len(),
{
    if ls.len() == 0 {
        (Seq::<char>::empty(), false, false)
    } else {
        strip_step(
            lang,
            marker,
            strip_scan(lang, marker, ls.drop_last()),
            ls.len() - 1,
            ls.last(),
        )
    }
}

/// What `strip` returns for `source`.
pub open spec fn spec_strip(source: Seq<char>, lang: Language) -> Seq<char> {
    match line_comment_of(lang) {
        None => source,
        Some(marker) => strip_scan(lang, marker, lines(source)).0,
    }
}

pub proof fn lemma_prefix_at(s: Seq<char>, p: Seq<char>, i: int)
    requires
        0 <= i <= s.len(),
    ensures
        has_prefix(s.skip(i), p) == occurs_at(s, p, i),
{
    if p.len() <= s.len() - i {
        assert(s.skip(i).take(p.len() as int) =~= s.subrange(i, i + p.len()));
    }
}

fn slice_contains(cs: &[char], c: char) -> (b: bool)
    ensures
        b == cs@.contains(c),
{
    let mut i: usize = 0;
    while i < cs.len()
        invariant
            i <= cs.len(),
            forall|j: int| 0 <= j < i ==> cs@[j] != c,
        decreases cs.len() - i,
    {
        if cs[i] == c {
            return true;
        }
        i = i + 1;
    }
    false
}

/// Scan `line` for the first comment marker that is *not* inside a string.
fn scan(line: &Vec<char>, marker: &Vec<char>, blocks: bool, quote_chars: &[char]) -> (r: Found)
    ensures
        r == scan_of(line@, marker@, blocks, quote_chars@),
{
    let mut in_string: Option<char> = None;
    let mut escaped = false;
    let block_open = chars_of("/*");
    let mut i: usize = 0;
    while i < line.len()
        invariant
            i <= line.len(),
            block_open@ == "/*"@,
            scan_of(line@, marker@, blocks, quote_chars@) == scan_from(
                line@,
                marker@,
                blocks,
                quote_chars@,
                i as int,
                in_string,
                escaped,
            ),
        decreases line.len() - i,
    {
        let ch = line[i];
        if escaped {
            escaped = false;
            i = i + 1;
            continue;
        }
        if let Some(quote) = in_string {
            if ch == '\\' {
                escaped = true;
            } else if ch == quote {
                in_string = None;
            }
            i = i + 1;
            continue;
        }
        // Outside a string literal: a marker here is a real comment.

        if slice_contains(quote_chars, ch) {
            in_string = Some(ch);
            i = i + 1;
            continue;
        }
        proof {
            lemma_prefix_at(line@, "/*"@, i as int);
            lemma_prefix_at(line@, marker@, i as int);
        }
        if blocks && matches_at(line, &block_open, i) {
            return Found::BlockOpen(i);
        }
        if matches_at(line, marker, i) {
            return Found::LineComment(i);
        }
        i = i + 1;
    }
    Found::Nothing
}

/// Quote characters that open a string literal in this language.
fn quote_chars(lang: Language) -> (r: &'static [char])
    ensures
        r@ == quote_chars_of(lang),
{
    let r: &'static [char] = match lang {
        Language::Rust => &['"'],
        Language::JavaScript | Language::TypeScript => &['"', '\'', '`'],
        Language::Python | Language::Go | Language::Other => &['"', '\''],
    };
    assert(r@ =~= quote_chars_of(lang));
    r
}

fn is_doc_line(trimmed: &Vec<char>, lang: Language) -> (b: bool)
    ensures
        b == starts_with_any(trimmed@, doc_prefixes_of(lang)),
{
    any_prefix(trimmed, lang.doc_prefixes())
}

fn emit_code_line(out: &mut Vec<char>, code: &Vec<char>)
    ensures
        final(out)@ == emit_code(old(out)@, code@),
{
    if code.len() > 0 {
        emit_line(out, code);
    }
}

/// `strip` over characters.
pub fn strip_chars(source: &Vec<char>, lang: Language) -> (r: Vec<char>)
    ensures
        r@ == spec_strip(source@, lang),
{
    let marker_str = match lang.line_comment() {
        Some(m) => m,
        None => {
            return copy_chars(source);
        },
    };
    let marker = chars_of(marker_str);
    let quotes = quote_chars(lang);
    let blocks = lang.has_block_comments();
    let shebang = chars_of("#!");
    let block_close = chars_of("*/");
    let doc_open = chars_of("/**");

    let ls = split_lines(source);
    let ghost gls = views(ls@);
    let mut out: Vec<char> = Vec::new();
    let mut in_block = false;
    let mut block_is_doc = false;
    let mut number: usize = 0;
    while number < ls.len()
        invariant
            number <= ls.len(),
            gls == views(ls@),
            gls == lines(source@),
            line_comment_of(lang) == Some(marker@),
            quotes@ == quote_chars_of(lang),
            blocks == block_comments_of(lang),
            shebang@ == "#!"@,
            block_close@ == "*/"@,
            doc_open@ == "/**"@,
            (out@, in_block, block_is_doc) == strip_scan(lang, marker@, gls.take(number as int)),
        decreases ls.len() - number,
    {
        proof {
            assert(gls.take(number + 1).drop_last() == gls.take(number as int));
            assert(gls[number as int] == ls@[number as int]@);
        }
        let line = &ls[number];
        if number == 0 && starts_with(line, &shebang) {
            emit_line(&mut out, line);
            number = number + 1;
            continue;
        }
        if in_block {
            if block_is_doc {
                emit_line(&mut out, line);
            }
            if contains(line, &block_close) {
                in_block = false;
                block_is_doc = false;
            }
            number = number + 1;
            continue;
        }
        let trimmed = trim_start_of(line);
        // Doc comments survive verbatim, including their indentation.
        if is_doc_line(&trimmed, lang) {
            emit_line(&mut out, line);
            number = number + 1;
            continue;
        }
        match scan(line, &marker, blocks, quotes) {
            Found::Nothing => {
                emit_line(&mut out, line);
            },
            Found::LineComment(index) => {
                proof {
                    assert(scan_of(line@, marker@, blocks, quotes@) == Found::LineComment(index));
                    lemma_scan_in_range(line@, marker@, blocks, quotes@, 0, None, false);
                }
                let code = slice_of(line, 0, index);
                let code = trim_end_of(&code);
                emit_code_line(&mut out, &code);
                // A comment-only line is dropped entirely.
            },
            Found::BlockOpen(index) => {
                proof {
                    lemma_scan_in_range(line@, marker@, blocks, quotes@, 0, None, false);
                    lemma_prefix_at(line@, "/*"@, index as int);
                    reveal_strlit("/*");
                }
                let comment = slice_of(line, index, line.len());
                let is_doc = starts_with(&comment, &doc_open);
                let after = slice_of(&comment, 2, comment.len());
                let closes_here = contains(&after, &block_close);
                if is_doc {
                    emit_line(&mut out, line);
                } else {
                    let code = slice_of(line, 0, index);
                    let code = trim_end_of(&code);
                    emit_code_line(&mut out, &code);
                }
                if !closes_here {
                    in_block = true;
                    block_is_doc = is_doc;
                }
            },
        }
        number = number + 1;
    }
    proof {
        assert(gls.take(ls.len() as int) == gls);
    }
    out
}

/// A block-open found by the scan leaves room for its `/*`; any found
/// position lies on the line.
proof fn lemma_scan_in_range(
    line: Seq<char>,
    marker: Seq<char>,
    blocks: bool,
    quotes: Seq<char>,
    i: int,
    in_string: Option<char>,
    escaped: bool,
)
    requires
        0 <= i,
        line.len() <= usize::MAX,
    ensures
        scan_from(line, marker, blocks, quotes, i, in_string, escaped) matches Found::LineComment(k)
            ==> i <= k < line.len(),
        scan_from(line, marker, blocks, quotes, i, in_string, escaped) matches Found::BlockOpen(k)
            ==> i <= k < line.len() && blocks && has_prefix(line.skip(k as int), "/*"@),
    decreases line.len() - i,
{
    if i < line.len() {
        let ch = line[i];
        if escaped {
            lemma_scan_in_range(line, marker, blocks, quotes, i + 1, in_string, false);
        } else if in_string is Some {
            if ch == '\\' {
                lemma_scan_in_range(line, marker, blocks, quotes, i + 1, in_string, true);
            } else if ch == in_string->0 {
                lemma_scan_in_range(line, marker, blocks, quotes, i + 1, None, false);
            } else {
                lemma_scan_in_range(line, marker, blocks, quotes, i + 1, in_string, false);
            }
        } else if quotes.contains(ch) {
            lemma_scan_in_range(line, marker, blocks, quotes, i + 1, Some(ch), false);
        } else if blocks && has_prefix(line.skip(i), "/*"@) {
        } else if has_prefix(line.skip(i), marker) {
        } else {
            lemma_scan_in_range(line, marker, blocks, quotes, i + 1, None, false);
        }
    }
}

/// `c` is one of the characters any language's strings may open with.
pub open spec fn any_quote(c: char) -> bool {
    c == '"' || c == '\'' || c == '`'
}

proof fn lemma_quotes_are_quotes(lang: Language, c: char)
    ensures
        quote_chars_of(lang).contains(c) ==> any_quote(c),
{
    if quote_chars_of(lang).contains(c) {
        let k = choose|k: int| 0 <= k < quote_chars_of(lang).len() && quote_chars_of(lang)[k] == c;
    }
}

/// Outside any string, from `i` up to `e`, where no quote stands and no
/// comment marker or `/*` starts, the scan finds nothing and moves on.
proof fn lemma_scan_outside(
    line: Seq<char>,
    marker: Seq<char>,
    lang: Language,
    i: int,
    e: int,
)
    requires
        0 <= i <= e <= line.len(),
        forall|j: int| i <= j < e ==> !any_quote(#[trigger] line[j]),
        forall|j: int| i <= j < e ==> !#[trigger] occurs_at(line, marker, j),
        forall|j: int| i <= j < e ==> !#[trigger] occurs_at(line, "/*"@, j),
    ensures
        scan_from(line, marker, block_comments_of(lang), quote_chars_of(lang), i, None, false)
            == scan_from(line, marker, block_comments_of(lang), quote_chars_of(lang), e, None, false),
    decreases e - i,
{
    if i < e {
        let c = line[i];
        lemma_quotes_are_quotes(lang, c);
        assert(!quote_chars_of(lang).contains(c));
        lemma_prefix_at(line, marker, i);
        lemma_prefix_at(line, "/*"@, i);
        assert(!has_prefix(line.skip(i), marker));
        assert(!has_prefix(line.skip(i), "/*"@));
        lemma_scan_outside(line, marker, lang, i + 1, e);
    }
}

/// Inside a string opened by `q`, up to its closing `q` at `close`, with no
/// backslash on the way, the scan finds nothing and leaves the string there.
proof fn lemma_scan_inside(
    line: Seq<char>,
    marker: Seq<char>,
    lang: Language,
    q: char,
    i: int,
    close: int,
)
    requires
        0 <= i <= close < line.len(),
        line[close] == q,
        q != '\\',
        forall|j: int| i <= j < close ==> #[trigger] line[j] != q && line[j] != '\\',
    ensures
        scan_from(line, marker, block_comments_of(lang), quote_chars_of(lang), i, Some(q), false)
            == scan_from(
            line,
            marker,
            block_comments_of(lang),
            quote_chars_of(lang),
            close + 1,
            None,
            false,
        ),
    decreases close - i,
{
    let ch = line[i];
    if i < close {
        assert(ch != q && ch != '\\');
        lemma_scan_inside(line, marker, lang, q, i + 1, close);
    } else {
        assert(ch == q);
    }
}

/// The quote characters each language's strings open with: `"` everywhere,
/// `'` too in Python, Go, JavaScript and TypeScript (in Rust `'` starts a
/// lifetime or a character, not a string that could hide a comment marker),
/// and the template-literal backquote in JavaScript and TypeScript.
pub open spec fn opens_string(lang: Language, q: char) -> bool {
    ||| q == '"'
    ||| q == '\'' && (lang is Python || lang is Go || lang is JavaScript || lang is TypeScript)
    ||| q == '`' && (lang is JavaScript || lang is TypeScript)
}

proof fn lemma_opens_string_quotes(lang: Language, q: char)
    requires
        opens_string(lang, q),
    ensures
        quote_chars_of(lang).contains(q),
{
    let quotes = quote_chars_of(lang);
    if q == '"' {
        assert(quotes[0] == '"');
    } else if q == '\'' {
        assert(quotes[1] == '\'');
    } else {
        assert(quotes[2] == '`');
    }
}

/// A comment marker inside a string literal is not a comment: a line whose
/// only marker occurrences (and `/*` occurrences) lie inside one string
/// literal, opened and closed by a quote that opens strings in the language
/// and holding no backslash, is scanned as holding no comment, and a source
/// made of that line alone comes out of `strip` unchanged.
pub proof fn lemma_marker_inside_string_is_kept(
    lang: Language,
    line: Seq<char>,
    q: char,
    open: int,
    close: int,
)
    requires
        line_comment_of(lang) is Some,
        opens_string(lang, q),
        0 <= open < close < line.len(),
        line[open] == q,
        line[close] == q,
        forall|j: int| 0 <= j < open ==> !any_quote(#[trigger] line[j]),
        forall|j: int| open < j < close ==> #[trigger] line[j] != q && line[j] != '\\',
        forall|j: int| close < j < line.len() ==> !any_quote(#[trigger] line[j]),
        forall|j: int|
            (0 <= j < open || close < j < line.len()) ==> !#[trigger] occurs_at(
                line,
                line_comment_of(lang)->0,
                j,
            ),
        forall|j: int|
            (0 <= j < open || close < j < line.len()) ==> !#[trigger] occurs_at(line, "/*"@, j),
    ensures
        scan_of(line, line_comment_of(lang)->0, block_comments_of(lang), quote_chars_of(lang))
            == Found::Nothing,
        !line.contains('\n') && !line.contains('\r') ==> spec_strip(line.push('\n'), lang)
            == line.push('\n'),
{
    let marker = line_comment_of(lang)->0;
    let blocks = block_comments_of(lang);
    let quotes = quote_chars_of(lang);
    lemma_scan_outside(line, marker, lang, 0, open);
    lemma_opens_string_quotes(lang, q);
    lemma_scan_inside(line, marker, lang, q, open + 1, close);
    lemma_scan_outside(line, marker, lang, close + 1, line.len() as int);
    if !line.contains('\n') && !line.contains('\r') {
        lemma_clean_line_kept(lang, line);
    }
}

/// A line with no newline or carriage return, scanned as holding no comment,
/// is a source that `strip` keeps unchanged.
proof fn lemma_clean_line_kept(lang: Language, line: Seq<char>)
    requires
        line_comment_of(lang) is Some,
        scan_of(line, line_comment_of(lang)->0, block_comments_of(lang), quote_chars_of(lang))
            == Found::Nothing,
        !line.contains('\n'),
        !line.contains('\r'),
    ensures
        spec_strip(line.push('\n'), lang) == line.push('\n'),
{
    let marker = line_comment_of(lang)->0;
    {
        let src = line.push('\n');
        let k = seq![line];
        assert(no_newlines(k)) by {
            assert forall|x: int, j: int| 0 <= x < k.len() && 0 <= j < k[x].len() implies #[trigger] k[x][j]
                != '\n' by {
                assert(k[x] == line);
                if line[j] == '\n' {
                    assert(line.contains('\n'));
                }
            }
        }
        if line.len() > 0 && line.last() == '\r' {
            assert(line.contains('\r')) by {
                assert(line[line.len() - 1] == '\r');
            }
        }
        assert(k.drop_last() =~= Seq::<Seq<char>>::empty());
        assert(k.last() == line);
        assert(unlines(Seq::<Seq<char>>::empty()) =~= Seq::<char>::empty());
        assert(unlines(k) == unlines(k.drop_last()) + k.last().push('\n'));
        assert(unlines(k) =~= src);
        lemma_lines_unlines(k);
        assert(lines(src) == k);
        assert(lines(src).drop_last() =~= Seq::<Seq<char>>::empty());
        assert(strip_scan(lang, marker, lines(src).drop_last()) == (Seq::<char>::empty(), false, false));
        assert(emit(Seq::<char>::empty(), line) =~= src);
    }
}

/// The texts of numbered pieces, in order.
pub open spec fn piece_texts(pieces: Seq<(int, Seq<char>)>) -> Seq<Seq<char>> {
    pieces.map_values(|p: (int, Seq<char>)| p.1)
}

proof fn lemma_trim_end_prefix(line: Seq<char>, index: int)
    requires
        0 <= index <= line.len(),
    ensures
        has_prefix(line, trim_end(line.take(index))),
{
    let x = line.take(index);
    lemma_trailing_ws_bound(x);
    assert(line.take(trim_end(x).len() as int) =~= trim_end(x));
}

proof fn lemma_strip_pieces(lang: Language, marker: Seq<char>, ls: Seq<Seq<char>>) -> (pieces: Seq<
    (int, Seq<char>),
>)
    requires
        forall|i: int| 0 <= i < ls.len() ==> #[trigger] ls[i].len() <= usize::MAX,
    ensures
        strip_scan(lang, marker, ls).0 == unlines(piece_texts(pieces)),
        forall|k: int|
            0 <= k < pieces.len() ==> 0 <= (#[trigger] pieces[k]).0 < ls.len() && has_prefix(
                ls[pieces[k].0],
                pieces[k].1,
            ),
        forall|k: int, j: int| 0 <= k < j < pieces.len() ==> (#[trigger] pieces[k]).0 < (
        #[trigger] pieces[j]).0,
        (forall|i: int| 0 <= i < ls.len() ==> !contains_seq(#[trigger] ls[i], "/*"@)) ==> {
            &&& !strip_scan(lang, marker, ls).1
            &&& forall|i: int|
                0 <= i < ls.len() && starts_with_any(trim_start(#[trigger] ls[i]), doc_prefixes_of(lang))
                    ==> pieces.contains((i, ls[i]))
        },
    decreases ls.len(),
{
    if ls.len() == 0 {
        let pieces = Seq::<(int, Seq<char>)>::empty();
        assert(piece_texts(pieces) =~= Seq::<Seq<char>>::empty());
        pieces
    } else {
        let q = ls.drop_last();
        assert forall|i: int| 0 <= i < q.len() implies #[trigger] q[i].len() <= usize::MAX by {
            assert(q[i] == ls[i]);
        }
        let r = lemma_strip_pieces(lang, marker, q);
        let st = strip_scan(lang, marker, q);
        let n = ls.len() - 1;
        let line = ls.last();
        assert(ls[n] == line);
        let whole = r.push((n, line));
        assert(piece_texts(whole) =~= piece_texts(r).push(line));
        assert(piece_texts(whole).drop_last() =~= piece_texts(r));
        assert(unlines(piece_texts(whole)) == emit(st.0, line));
        assert(strip_scan(lang, marker, ls) == strip_step(lang, marker, st, n, line));
        assert(has_prefix(line, line)) by {
            assert(line.take(line.len() as int) =~= line);
        }
        let found = scan_of(line, marker, block_comments_of(lang), quote_chars_of(lang));
        lemma_scan_in_range(line, marker, block_comments_of(lang), quote_chars_of(lang), 0, None, false);
        let pieces = if n == 0 && has_prefix(line, "#!"@) {
            whole
        } else if st.1 {
            if st.2 {
                whole
            } else {
                r
            }
        } else if starts_with_any(trim_start(line), doc_prefixes_of(lang)) {
            whole
        } else {
            match found {
                Found::Nothing => whole,
                Found::LineComment(index) => {
                    let code = trim_end(line.take(index as int));
                    lemma_trim_end_prefix(line, index as int);
                    if code.len() > 0 {
                        let p = r.push((n, code));
                        assert(piece_texts(p) =~= piece_texts(r).push(code));
                        assert(piece_texts(p).drop_last() =~= piece_texts(r));
                        assert(unlines(piece_texts(p)) == emit(st.0, code));
                        p
                    } else {
                        r
                    }
                },
                Found::BlockOpen(index) => {
                    let comment = line.skip(index as int);
                    if has_prefix(comment, "/**"@) {
                        whole
                    } else {
                        let code = trim_end(line.take(index as int));
                        lemma_trim_end_prefix(line, index as int);
                        if code.len() > 0 {
                            let p = r.push((n, code));
                            assert(piece_texts(p) =~= piece_texts(r).push(code));
                        assert(piece_texts(p).drop_last() =~= piece_texts(r));
                        assert(unlines(piece_texts(p)) == emit(st.0, code));
                            p
                        } else {
                            r
                        }
                    }
                },
            }
        };
        assert forall|k: int| 0 <= k < pieces.len() implies 0 <= (#[trigger] pieces[k]).0 < ls.len()
            && has_prefix(ls[pieces[k].0], pieces[k].1) by {
            if k < r.len() {
                assert(pieces[k] == r[k]);
                assert(ls[r[k].0] == q[r[k].0]);
            }
        }
        assert forall|k: int, j: int| 0 <= k < j < pieces.len() implies (#[trigger] pieces[k]).0 < (
        #[trigger] pieces[j]).0 by {
            if j < r.len() {
                assert(pieces[k] == r[k] && pieces[j] == r[j]);
            } else {
                assert(pieces[k] == r[k]);
            }
        }
        if forall|i: int| 0 <= i < ls.len() ==> !contains_seq(#[trigger] ls[i], "/*"@) {
            assert forall|i: int| 0 <= i < q.len() implies !contains_seq(#[trigger] q[i], "/*"@) by {
                assert(q[i] == ls[i]);
            }
            assert(!contains_seq(ls[n], "/*"@));
            if let Found::BlockOpen(index) = found {
                lemma_prefix_at(line, "/*"@, index as int);
                assert(occurs_at(line, "/*"@, index as int));
            }
            assert forall|i: int|
                0 <= i < ls.len() && starts_with_any(trim_start(#[trigger] ls[i]), doc_prefixes_of(lang))
                    implies pieces.contains((i, ls[i])) by {
                if i < q.len() {
                    assert(q[i] == ls[i]);
                    assert(r.contains((i, q[i])));
                    let k = choose|k: int| 0 <= k < r.len() && r[k] == (i, q[i]);
                    assert(pieces[k] == r[k]);
                } else {
                    assert(pieces == whole);
                    assert(pieces[r.len() as int] == (i, ls[i]));
                }
            }
        }
        pieces
    }
}

/// What `strip` keeps of a text, for a language with comment syntax: every
/// line of the result is a prefix of a line of the source, no source line
/// gives more than one, and they come in source order. Where no line holds
/// `/*`, every documentation line survives whole.
pub proof fn lemma_strip_keeps_prefixes(source: Seq<char>, lang: Language) -> (pieces: Seq<
    (int, Seq<char>),
>)
    requires
        line_comment_of(lang) is Some,
        source.len() <= usize::MAX,
    ensures
        spec_strip(source, lang) == unlines(piece_texts(pieces)),
        forall|k: int|
            0 <= k < pieces.len() ==> 0 <= (#[trigger] pieces[k]).0 < lines(source).len()
                && has_prefix(lines(source)[pieces[k].0], pieces[k].1),
        forall|k: int, j: int| 0 <= k < j < pieces.len() ==> (#[trigger] pieces[k]).0 < (
        #[trigger] pieces[j]).0,
        (forall|i: int| 0 <= i < lines(source).len() ==> !contains_seq(#[trigger] lines(source)[i], "/*"@))
            ==> forall|i: int|
            0 <= i < lines(source).len() && starts_with_any(
                trim_start(#[trigger] lines(source)[i]),
                doc_prefixes_of(lang),
            ) ==> pieces.contains((i, lines(source)[i])),
{
    lemma_lines_len(source);
    let ls = lines(source);
    assert forall|i: int| 0 <= i < ls.len() implies #[trigger] ls[i].len() <= usize::MAX by {}
    lemma_strip_pieces(lang, line_comment_of(lang)->0, ls)
}

/// Remove non-documentation comments from `source`.
///
/// Returns the source unchanged for languages with no known comment syntax.
pub fn strip(source: &str, lang: Language) -> (r: String)
    ensures
        r@ == spec_strip(source@, lang),
        line_comment_of(lang) is None ==> r@ == source@,
{
    let chars = chars_of(source);
    let out = strip_chars(&chars, lang);
    string_of(&out)
}

} // verus!
