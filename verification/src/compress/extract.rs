//! Pull one named symbol back out of a file, whole.
//!
//! This is the other half of outline mode. On its own, outlining is lossy: the
//! body is gone and the caller has no way back. With extraction, it is only
//! *deferred*: the pack says what exists and where, and whoever reads it asks
//! for the one body they actually need.
//!
//! Block ends are found the way each language marks them: by indentation in
//! Python, by brace balance elsewhere.

use vstd::prelude::*;
use crate::compress::block::{
    braces_end, end_by_braces_lines, end_by_indent_lines, indent_end, lemma_braces_end_range,
    lemma_indent_end_range, MAX_SYMBOL_LINES,
};
use crate::compress::declaration::{declares, declares_chars};
use crate::compress::lang::{
    any_prefix, block_comments_of, doc_prefixes_of, signature_prefixes_of, starts_with_any, strs,
    Language,
};
use crate::text::{
    chars_of, eq_chars, has_prefix, join_nl, lines, slice_of, split_lines, starts_with, string_of,
    trim, trim_of, trim_start, trim_start_of, views,
};

verus! {

broadcast use vstd::seq_lib::group_seq_properties;

/// One extracted symbol, with the location it came from.
#[derive(Debug, PartialEq, Eq)]
pub struct Snippet {
    pub text: String,
    /// 1-indexed, inclusive, matching what an editor shows.
    pub start_line: usize,
    pub end_line: usize,
    /// True when the block hit `MAX_SYMBOL_LINES` before it closed.
    pub truncated: bool,
}

/// The mathematical content of a `Snippet`.
pub struct SnippetModel {
    pub text: Seq<char>,
    pub start_line: int,
    pub end_line: int,
    pub truncated: bool,
}

impl View for Snippet {
    type V = SnippetModel;

    open spec fn view(&self) -> SnippetModel {
        SnippetModel {
            text: self.text@,
            start_line: self.start_line as int,
            end_line: self.end_line as int,
            truncated: self.truncated,
        }
    }
}

/// What `char::is_alphanumeric` returns for `c`.
pub uninterp spec fn char_alnum(c: char) -> bool;

/// `char::is_alphanumeric`: true for characters with the Unicode Alphabetic
/// property or a Numeric general category. The tables are std's; the contract
/// only names the result.
#[verifier::external_body]
fn is_alphanumeric(c: char) -> (b: bool)
    ensures
        b == char_alnum(c),
{
    c.is_alphanumeric()
}

/// A character that may appear in an identifier.
pub open spec fn ident_char(c: char) -> bool {
    char_alnum(c) || c == '_'
}

/// Length of the identifier at the start of `s`.
pub open spec fn ident_len(s: Seq<char>) -> nat
    decreases s.len(),
{
    if s.len() > 0 && ident_char(s[0]) {
        1 + ident_len(s.drop_first())
    } else {
        0
    }
}

/// Length of the identifier at the start of `s`, where `alnum[i]` says whether
/// `s[i]` is alphanumeric: the leading run of alphanumerics and `_`.
pub open spec fn ident_len_given(s: Seq<char>, alnum: Seq<bool>) -> nat
    decreases s.len(),
{
    if s.len() > 0 && alnum.len() > 0 && (alnum[0] || s[0] == '_') {
        1 + ident_len_given(s.drop_first(), alnum.drop_first())
    } else {
        0
    }
}

/// The longest prefix in `ps` that `t` starts with; on a tie, the later one.
pub open spec fn best_prefix(t: Seq<char>, ps: Seq<Seq<char>>) -> Option<Seq<char>>
    decreases ps.len(),
{
    if ps.len() == 0 {
        None
    } else {
        let b = best_prefix(t, ps.drop_last());
        let p = ps.last();
        if has_prefix(t, p) && (b is None || p.len() >= b->0.len()) {
            Some(p)
        } else {
            b
        }
    }
}

/// The identifier a declaration line declares, if it is one.
///
/// `def ttest_ind(a, b):` gives `ttest_ind`. `impl Trait for Type {` gives
/// `Trait`, which is imprecise but harmless.
pub open spec fn declared_name_of(trimmed: Seq<char>, lang: Language) -> Option<Seq<char>> {
    match best_prefix(trimmed, signature_prefixes_of(lang)) {
        None => None,
        Some(p) => {
            let rest = trim_start(trimmed.skip(p.len() as int));
            let name = rest.take(ident_len(rest) as int);
            if name.len() > 0 {
                Some(name)
            } else {
                None
            }
        },
    }
}

/// `line` is a declaration of `name`.
#[verifier::opaque]
pub open spec fn declares_name(line: Seq<char>, lang: Language, name: Seq<char>) -> bool {
    let t = trim_start(line);
    declares(t, lang) && declared_name_of(t, lang) == Some(name)
}

/// The first line that declares `name`.
pub open spec fn find_declaration(ls: Seq<Seq<char>>, lang: Language, name: Seq<char>) -> Option<
    int,
> {
    if exists|i: int| 0 <= i < ls.len() && declares_name(#[trigger] ls[i], lang, name) {
        Some(
            choose|i: int|
                0 <= i < ls.len() && declares_name(#[trigger] ls[i], lang, name) && forall|j: int|
                    0 <= j < i ==> !declares_name(#[trigger] ls[j], lang, name),
        )
    } else {
        None
    }
}

/// A line that belongs to the declaration below it: a decorator or a doc line.
pub open spec fn attached_line(candidate: Seq<char>, lang: Language) -> bool {
    ||| has_prefix(candidate, "@"@)
    ||| starts_with_any(candidate, doc_prefixes_of(lang))
    ||| block_comments_of(lang) && (has_prefix(candidate, "/**"@) || has_prefix(candidate, "*"@)
        || has_prefix(candidate, "*/"@))
}

/// First line of the run of attached lines that ends just above `start`.
pub open spec fn attached_from(ls: Seq<Seq<char>>, start: int, lang: Language) -> int
    decreases start,
{
    if start > 0 && start - 1 < ls.len() && attached_line(trim(ls[start - 1]), lang) {
        attached_from(ls, start - 1, lang)
    } else {
        start
    }
}

/// Where the block declared at `index` ends, and whether it was cut short.
#[verifier::opaque]
pub open spec fn block_end(ls: Seq<Seq<char>>, index: int, lang: Language) -> (int, bool) {
    if block_comments_of(lang) {
        braces_end(ls, index)
    } else {
        indent_end(ls, index)
    }
}

/// What `symbol` returns for `source`.
pub open spec fn spec_symbol(source: Seq<char>, lang: Language, name: Seq<char>) -> Option<
    SnippetModel,
> {
    symbol_in(lines(source), lang, name)
}

/// The symbol `name` among the lines `ls`.
pub open spec fn symbol_in(ls: Seq<Seq<char>>, lang: Language, name: Seq<char>) -> Option<
    SnippetModel,
> {
    if name.len() == 0 || signature_prefixes_of(lang).len() == 0 {
        None
    } else {
        match find_declaration(ls, lang, name) {
            None => None,
            Some(index) => {
                let (end, truncated) = block_end(ls, index, lang);
                let start = attached_from(ls, index, lang);
                Some(
                    SnippetModel {
                        text: join_nl(ls.subrange(start, end + 1)),
                        start_line: start + 1,
                        end_line: end + 1,
                        truncated,
                    },
                )
            },
        }
    }
}

proof fn lemma_ident_len_given_at(s: Seq<char>, alnum: Seq<bool>, i: int)
    requires
        0 <= i <= s.len(),
        i <= alnum.len(),
        forall|j: int| 0 <= j < i ==> #[trigger] alnum[j] || s[j] == '_',
        i == s.len() || i == alnum.len() || !(alnum[i] || s[i] == '_'),
    ensures
        ident_len_given(s, alnum) == i,
    decreases i,
{
    if i > 0 {
        assert(alnum[0] || s[0] == '_');
        assert forall|j: int| 0 <= j < i - 1 implies #[trigger] alnum.drop_first()[j]
            || s.drop_first()[j] == '_' by {
            assert(alnum.drop_first()[j] == alnum[j + 1]);
            assert(s.drop_first()[j] == s[j + 1]);
        }
        lemma_ident_len_given_at(s.drop_first(), alnum.drop_first(), i - 1);
    }
}

/// Given what `char::is_alphanumeric` says of each character, the identifier
/// length is `ident_len`.
proof fn lemma_ident_len_given(s: Seq<char>, alnum: Seq<bool>)
    requires
        alnum.len() == s.len(),
        forall|j: int| 0 <= j < s.len() ==> #[trigger] alnum[j] == char_alnum(s[j]),
    ensures
        ident_len_given(s, alnum) == ident_len(s),
    decreases s.len(),
{
    if s.len() > 0 {
        assert(alnum[0] == char_alnum(s[0]));
        assert forall|j: int| 0 <= j < s.drop_first().len() implies #[trigger] alnum.drop_first()[j]
            == char_alnum(s.drop_first()[j]) by {
            assert(alnum.drop_first()[j] == alnum[j + 1]);
            assert(s.drop_first()[j] == s[j + 1]);
        }
        lemma_ident_len_given(s.drop_first(), alnum.drop_first());
    }
}

/// Length of the identifier at the start of `text`, given which of its
/// characters are alphanumeric: the leading run of characters that are
/// alphanumeric or `_`.
pub fn identifier_len(text: &Vec<char>, alphanumeric: &Vec<bool>) -> (n: usize)
    ensures
        n == ident_len_given(text@, alphanumeric@),
        n <= text.len(),
{
    let mut end: usize = 0;
    while end < text.len() && end < alphanumeric.len() && (alphanumeric[end] || text[end] == '_')
        invariant
            end <= text.len(),
            end <= alphanumeric.len(),
            forall|j: int| 0 <= j < end ==> #[trigger] alphanumeric@[j] || text@[j] == '_',
        decreases text.len() - end,
    {
        end = end + 1;
    }
    proof {
        lemma_ident_len_given_at(text@, alphanumeric@, end as int);
    }
    end
}

proof fn lemma_attached_from_range(ls: Seq<Seq<char>>, start: int, lang: Language)
    requires
        0 <= start,
    ensures
        0 <= attached_from(ls, start, lang) <= start,
    decreases start,
{
    if start > 0 && start - 1 < ls.len() && attached_line(trim(ls[start - 1]), lang) {
        lemma_attached_from_range(ls, start - 1, lang);
    }
}

proof fn lemma_best_prefix(t: Seq<char>, ps: Seq<Seq<char>>)
    ensures
        best_prefix(t, ps) matches Some(p) ==> has_prefix(t, p),
    decreases ps.len(),
{
    if ps.len() > 0 {
        lemma_best_prefix(t, ps.drop_last());
    }
}

/// The longest matching prefix, as `max_by_key` on the length picks it.
fn best_prefix_of(t: &Vec<char>, ps: &[&str]) -> (r: Option<Vec<char>>)
    ensures
        r matches Some(p) ==> best_prefix(t@, strs(ps@)) == Some(p@),
        r is None ==> best_prefix(t@, strs(ps@)) is None,
{
    let mut best: Option<Vec<char>> = None;
    let mut i: usize = 0;
    while i < ps.len()
        invariant
            i <= ps.len(),
            best matches Some(p) ==> best_prefix(t@, strs(ps@).take(i as int)) == Some(p@),
            best is None ==> best_prefix(t@, strs(ps@).take(i as int)) is None,
        decreases ps.len() - i,
    {
        proof {
            assert(strs(ps@).take(i + 1).drop_last() == strs(ps@).take(i as int));
            assert(strs(ps@).take(i + 1).last() == ps@[i as int]@);
        }
        let p = chars_of(ps[i]);
        if starts_with(t, &p) {
            let better = match &best {
                None => true,
                Some(b) => p.len() >= b.len(),
            };
            if better {
                best = Some(p);
            }
        }
        i = i + 1;
    }
    proof {
        assert(strs(ps@).take(ps.len() as int) == strs(ps@));
    }
    best
}

/// The identifier a declaration line declares, if it is one.
fn declared_name(trimmed: &Vec<char>, lang: Language) -> (r: Option<Vec<char>>)
    ensures
        r matches Some(n) ==> declared_name_of(trimmed@, lang) == Some(n@),
        r is None ==> declared_name_of(trimmed@, lang) is None,
{
    let prefix = match best_prefix_of(trimmed, lang.signature_prefixes()) {
        Some(p) => p,
        None => {
            return None;
        },
    };
    // Longest prefix first: `pub async fn ` must beat `pub `.
    proof {
        lemma_best_prefix(trimmed@, signature_prefixes_of(lang));
    }
    let after = slice_of(trimmed, prefix.len(), trimmed.len());
    let rest = trim_start_of(&after);
    let mut alphanumeric: Vec<bool> = Vec::new();
    for k in 0..rest.len()
        invariant
            alphanumeric.len() == k,
            forall|j: int| 0 <= j < k ==> #[trigger] alphanumeric@[j] == char_alnum(rest@[j]),
    {
        alphanumeric.push(is_alphanumeric(rest[k]));
    }
    let end = identifier_len(&rest, &alphanumeric);
    proof {
        lemma_ident_len_given(rest@, alphanumeric@);
    }
    let name = slice_of(&rest, 0, end);
    if name.len() > 0 {
        Some(name)
    } else {
        None
    }
}

fn is_attached(candidate: &Vec<char>, lang: Language) -> (b: bool)
    ensures
        b == attached_line(candidate@, lang),
{
    let at = chars_of("@");
    let doc_open = chars_of("/**");
    let star = chars_of("*");
    let close = chars_of("*/");
    starts_with(candidate, &at) || any_prefix(candidate, lang.doc_prefixes()) || (
    lang.has_block_comments() && (starts_with(candidate, &doc_open) || starts_with(
        candidate,
        &star,
    ) || starts_with(candidate, &close)))
}

/// Lines immediately above `index` that belong to the declaration: decorators
/// and doc comments. Returns the first line index to include.
fn attached_start(lines: &Vec<Vec<char>>, index: usize, lang: Language) -> (r: usize)
    requires
        index <= lines.len(),
    ensures
        r == attached_from(views(lines@), index as int, lang),
{
    let ghost ls = views(lines@);
    let mut start = index;
    let mut more = true;
    while more && start > 0
        invariant
            start <= index <= lines.len(),
            ls == views(lines@),
            attached_from(ls, index as int, lang) == attached_from(ls, start as int, lang),
            !more ==> attached_from(ls, start as int, lang) == start,
        decreases start + if more { 1int } else { 0int },
    {
        proof {
            assert(ls[start - 1] == lines@[start - 1]@);
        }
        let candidate = trim_of(&lines[start - 1]);
        if is_attached(&candidate, lang) {
            start = start - 1;
        } else {
            more = false;
        }
    }
    start
}

fn declares_name_chars(line: &Vec<char>, lang: Language, name: &Vec<char>) -> (b: bool)
    ensures
        b == declares_name(line@, lang, name@),
{
    reveal(declares_name);
    let trimmed = trim_start_of(line);
    if !declares_chars(&trimmed, lang) {
        return false;
    }
    match declared_name(&trimmed, lang) {
        Some(n) => eq_chars(&n, name),
        None => false,
    }
}

/// Joins `lines[lo..hi]` with newlines between them.
fn join_lines(lines: &Vec<Vec<char>>, lo: usize, hi: usize) -> (r: Vec<char>)
    requires
        lo < hi <= lines.len(),
    ensures
        r@ == join_nl(views(lines@).subrange(lo as int, hi as int)),
{
    let ghost ls = views(lines@);
    let mut out = crate::text::copy_chars(&lines[lo]);
    let mut k = lo + 1;
    proof {
        assert(ls.subrange(lo as int, k as int) =~= seq![ls[lo as int]]);
    }
    while k < hi
        invariant
            lo < k <= hi <= lines.len(),
            ls == views(lines@),
            out@ == join_nl(ls.subrange(lo as int, k as int)),
        decreases hi - k,
    {
        out.push('\n');
        crate::text::append_chars(&mut out, &lines[k]);
        proof {
            let next = ls.subrange(lo as int, k + 1);
            assert(next.drop_last() =~= ls.subrange(lo as int, k as int));
            assert(next.last() == lines@[k as int]@);
            assert(out@ =~= join_nl(next));
        }
        k = k + 1;
    }
    out
}

/// `symbol` over characters.
pub fn symbol_chars(source: &Vec<char>, lang: Language, name: &Vec<char>) -> (r: Option<Snippet>)
    ensures
        r matches Some(s) ==> spec_symbol(source@, lang, name@) == Some(s@),
        r is None ==> spec_symbol(source@, lang, name@) is None,
{
    if name.len() == 0 || lang.signature_prefixes().len() == 0 {
        return None;
    }
    let lines = split_lines(source);
    let ghost ls = views(lines@);
    let mut index: usize = 0;
    let mut found = false;
    while !found && index < lines.len()
        invariant
            index <= lines.len(),
            ls == views(lines@),
            forall|j: int| 0 <= j < index ==> !declares_name(#[trigger] ls[j], lang, name@),
            found ==> index < lines.len() && declares_name(ls[index as int], lang, name@),
        decreases lines.len() - index + if found { 0int } else { 1int },
    {
        proof {
            assert(ls[index as int] == lines@[index as int]@);
        }
        if declares_name_chars(&lines[index], lang, name) {
            found = true;
        } else {
            index = index + 1;
        }
    }
    if index == lines.len() {
        assert(find_declaration(ls, lang, name@) is None);
        return None;
    }
    proof {
        assert(ls[index as int] == lines@[index as int]@);
        assert(declares_name(ls[index as int], lang, name@));
        let w = choose|i: int|
            0 <= i < ls.len() && declares_name(#[trigger] ls[i], lang, name@) && forall|j: int|
                0 <= j < i ==> !declares_name(#[trigger] ls[j], lang, name@);
        assert(0 <= w < ls.len() && declares_name(ls[w], lang, name@) && forall|j: int|
            0 <= j < w ==> !declares_name(#[trigger] ls[j], lang, name@));
        if w < index {
            assert(!declares_name(ls[w], lang, name@));
        } else if w > index {
            assert(!declares_name(ls[index as int], lang, name@));
        }
        assert(find_declaration(ls, lang, name@) == Some(index as int));
    }
    // The same languages that have block comments delimit blocks with `{}`.
    let braces = lang.has_block_comments();
    let (end, truncated) = if braces {
        end_by_braces_lines(&lines, index)
    } else {
        end_by_indent_lines(&lines, index)
    };
    proof {
        reveal(block_end);
        lemma_braces_end_range(ls, index as int);
        lemma_indent_end_range(ls, index as int);
    }
    let start = attached_start(&lines, index, lang);
    proof {
        lemma_attached_from_range(ls, index as int, lang);
    }
    let text = join_lines(&lines, start, end + 1);
    Some(Snippet { text: string_of(&text), start_line: start + 1, end_line: end + 1, truncated })
}

/// A found symbol spans whole lines of the source, unmodified, around the first
/// line that declares the name.
pub proof fn lemma_symbol_shape(source: Seq<char>, lang: Language, name: Seq<char>)
    ensures
        spec_symbol(source, lang, name) is Some <==> (name.len() > 0
            && signature_prefixes_of(lang).len() > 0 && exists|i: int|
            0 <= i < lines(source).len() && declares_name(#[trigger] lines(source)[i], lang, name)),
        spec_symbol(source, lang, name) matches Some(s) ==> {
            let ls = lines(source);
            &&& 1 <= s.start_line <= s.end_line <= ls.len()
            &&& s.text == join_nl(ls.subrange(s.start_line - 1, s.end_line))
            &&& exists|i: int|
                s.start_line - 1 <= i < s.end_line && declares_name(#[trigger] ls[i], lang, name)
                    && (block_comments_of(lang) ==> s.end_line - 1 - i <= MAX_SYMBOL_LINES)
                    && forall|j: int| 0 <= j < i ==> !declares_name(#[trigger] ls[j], lang, name)
        },
{
    lemma_symbol_in_shape(lines(source), lang, name);
}

/// Where some line declares `name`, a first such line exists.
proof fn lemma_first_declaration(ls: Seq<Seq<char>>, lang: Language, name: Seq<char>, k: int)
    requires
        0 <= k < ls.len(),
        declares_name(ls[k], lang, name),
    ensures
        exists|i: int|
            0 <= i < ls.len() && declares_name(#[trigger] ls[i], lang, name) && forall|j: int|
                0 <= j < i ==> !declares_name(#[trigger] ls[j], lang, name),
    decreases k,
{
    if exists|j: int| 0 <= j < k && declares_name(#[trigger] ls[j], lang, name) {
        let j = choose|j: int| 0 <= j < k && declares_name(#[trigger] ls[j], lang, name);
        lemma_first_declaration(ls, lang, name, j);
    } else {
        assert(forall|j: int| 0 <= j < k ==> !declares_name(#[trigger] ls[j], lang, name));
    }
}

proof fn lemma_symbol_in_shape(ls: Seq<Seq<char>>, lang: Language, name: Seq<char>)
    ensures
        symbol_in(ls, lang, name) is Some <==> (name.len() > 0
            && signature_prefixes_of(lang).len() > 0 && exists|i: int|
            0 <= i < ls.len() && declares_name(#[trigger] ls[i], lang, name)),
        symbol_in(ls, lang, name) matches Some(s) ==> {
            &&& 1 <= s.start_line <= s.end_line <= ls.len()
            &&& s.text == join_nl(ls.subrange(s.start_line - 1, s.end_line))
            &&& exists|i: int|
                s.start_line - 1 <= i < s.end_line && declares_name(#[trigger] ls[i], lang, name)
                    && (block_comments_of(lang) ==> s.end_line - 1 - i <= MAX_SYMBOL_LINES)
                    && forall|j: int| 0 <= j < i ==> !declares_name(#[trigger] ls[j], lang, name)
        },
{
    if name.len() > 0 && signature_prefixes_of(lang).len() > 0 && exists|i: int|
        0 <= i < ls.len() && declares_name(#[trigger] ls[i], lang, name) {
        let k = choose|i: int| 0 <= i < ls.len() && declares_name(#[trigger] ls[i], lang, name);
        lemma_first_declaration(ls, lang, name, k);
        let w = find_declaration(ls, lang, name)->0;
        assert(0 <= w < ls.len() && declares_name(ls[w], lang, name) && forall|j: int|
            0 <= j < w ==> !declares_name(#[trigger] ls[j], lang, name));
        lemma_block_facts(ls, w, lang);
    }
}

proof fn lemma_block_facts(ls: Seq<Seq<char>>, w: int, lang: Language)
    requires
        0 <= w < ls.len(),
    ensures
        0 <= attached_from(ls, w, lang) <= w <= block_end(ls, w, lang).0 < ls.len(),
        block_comments_of(lang) ==> block_end(ls, w, lang).0 - w <= MAX_SYMBOL_LINES,
{
    reveal(block_end);
    lemma_braces_end_range(ls, w);
    lemma_indent_end_range(ls, w);
    lemma_attached_from_range(ls, w, lang);
}

/// A declaration is found whatever its indentation: a line that, past its
/// leading whitespace, declares `name` (a method in a class or an `impl`
/// block, say) makes `symbol` find something.
pub proof fn lemma_indented_declaration_found(source: Seq<char>, lang: Language, name: Seq<char>)
    ensures
        (exists|i: int|
            0 <= i < lines(source).len() && declares(trim_start(#[trigger] lines(source)[i]), lang)
                && declared_name_of(trim_start(lines(source)[i]), lang) == Some(name)) ==> (
        name.len() > 0 && signature_prefixes_of(lang).len() > 0 && exists|i: int|
            0 <= i < lines(source).len() && declares_name(#[trigger] lines(source)[i], lang, name)),
{
    reveal(declares_name);
    if exists|i: int|
        0 <= i < lines(source).len() && declares(trim_start(#[trigger] lines(source)[i]), lang)
            && declared_name_of(trim_start(lines(source)[i]), lang) == Some(name) {
        let i = choose|i: int|
            0 <= i < lines(source).len() && declares(trim_start(#[trigger] lines(source)[i]), lang)
                && declared_name_of(trim_start(lines(source)[i]), lang) == Some(name);
        assert(declares_name(lines(source)[i], lang, name));
        let t = trim_start(lines(source)[i]);
        let ps = signature_prefixes_of(lang);
        assert(exists|k: int| 0 <= k < ps.len() && has_prefix(t, #[trigger] ps[k]));
    }
}

/// Extract the definition of `name` from `source`.
///
/// Returns `None` when no declaration of that name is found. The first match
/// wins: overloads and re-definitions are a known limitation.
pub fn symbol(source: &str, lang: Language, name: &str) -> (r: Option<Snippet>)
    ensures
        r matches Some(s) ==> spec_symbol(source@, lang, name@) == Some(s@),
        r is None ==> spec_symbol(source@, lang, name@) is None,
        r is Some <==> (name@.len() > 0 && signature_prefixes_of(lang).len() > 0 && exists|i: int|
            0 <= i < lines(source@).len() && declares_name(
                #[trigger] lines(source@)[i],
                lang,
                name@,
            )),
        (exists|i: int|
            0 <= i < lines(source@).len() && declares(trim_start(#[trigger] lines(source@)[i]), lang)
                && declared_name_of(trim_start(lines(source@)[i]), lang) == Some(name@)) ==> r is Some,
        r matches Some(s) ==> {
            let ls = lines(source@);
            &&& 1 <= s.start_line <= s.end_line <= ls.len()
            &&& s.text@ == join_nl(ls.subrange(s.start_line - 1, s.end_line as int))
            &&& exists|i: int|
                s.start_line - 1 <= i < s.end_line && declares_name(#[trigger] ls[i], lang, name@)
                    && (block_comments_of(lang) ==> s.end_line - 1 - i <= MAX_SYMBOL_LINES)
                    && forall|j: int| 0 <= j < i ==> !declares_name(#[trigger] ls[j], lang, name@)
        },
{
    let chars = chars_of(source);
    let n = chars_of(name);
    let r = symbol_chars(&chars, lang, &n);
    proof {
        lemma_symbol_shape(source@, lang, name@);
        lemma_indented_declaration_found(source@, lang, name@);
    }
    r
}

} // verus!
