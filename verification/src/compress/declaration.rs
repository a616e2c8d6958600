//! What counts as a declaration, and how far one reaches.
//!
//! The parenthesis tracking here is what stops a signature being truncated
//! mid-argument. A half-signature is worse than no signature: it reads as
//! complete, so a caller trusts it and gets the argument list wrong.

use vstd::prelude::*;
use crate::compress::lang::{
    any_prefix, block_comments_of, doc_prefixes_of, signature_prefixes_of, starts_with_any,
    Language,
};
use crate::text::{
    byte_len_wide, chars_of, has_prefix, lemma_leading_ws_bound,
    leading_ws, leading_ws_count, slice_of, starts_with, utf8_len,
};

verus! {

/// Safety valve: a declaration whose parentheses never balance (a stray `(`
/// inside a string) must not swallow the rest of the file.
pub const MAX_CONTINUATION_LINES: usize = 24;

/// Byte width of the leading whitespace of `l`.
pub open spec fn indent_of(l: Seq<char>) -> nat {
    utf8_len(l.take(leading_ws(l) as int))
}

/// Net count of `open` minus `close` in `l`.
pub open spec fn delta_of(l: Seq<char>, open: char, close: char) -> int
    decreases l.len(),
{
    if l.len() == 0 {
        0
    } else {
        delta_of(l.drop_last(), open, close) + if l.last() == open {
            1int
        } else if l.last() == close {
            -1int
        } else {
            0int
        }
    }
}

/// Net parenthesis depth added by `l`.
pub open spec fn paren_delta_of(l: Seq<char>) -> int {
    delta_of(l, '(', ')')
}

/// `trimmed` starts with one of the language's declaration prefixes.
pub open spec fn declares(trimmed: Seq<char>, lang: Language) -> bool {
    starts_with_any(trimmed, signature_prefixes_of(lang))
}

/// `trimmed` is a documentation line: a doc prefix, or a `/**` or `*` line
/// where block comments exist.
pub open spec fn doc_line(trimmed: Seq<char>, lang: Language) -> bool {
    ||| starts_with_any(trimmed, doc_prefixes_of(lang))
    ||| block_comments_of(lang) && (has_prefix(trimmed, "/**"@) || has_prefix(trimmed, "*"@))
}

/// The running count of `open` minus `close` stays within `i32` at every
/// character of `l`, so counting it in an `i32` never overflows.
pub open spec fn running_count_fits(l: Seq<char>, open: char, close: char) -> bool {
    forall|k: int|
        0 <= k <= l.len() ==> i32::MIN <= #[trigger] delta_of(l.take(k), open, close) <= i32::MAX
}

/// Number of `c` in `l`.
pub open spec fn count_of(l: Seq<char>, c: char) -> nat
    decreases l.len(),
{
    if l.len() == 0 {
        0
    } else {
        count_of(l.drop_last(), c) + if l.last() == c {
            1nat
        } else {
            0nat
        }
    }
}

/// The net count is the number of `open` minus the number of `close`, and a
/// prefix holds no more of either than the whole.
pub proof fn lemma_delta_is_count_difference(l: Seq<char>, open: char, close: char)
    requires
        open != close,
    ensures
        delta_of(l, open, close) == count_of(l, open) - count_of(l, close),
        forall|k: int|
            0 <= k <= l.len() ==> #[trigger] count_of(l.take(k), open) <= count_of(l, open)
                && count_of(l.take(k), close) <= count_of(l, close),
    decreases l.len(),
{
    if l.len() > 0 {
        let q = l.drop_last();
        lemma_delta_is_count_difference(q, open, close);
        assert forall|k: int| 0 <= k <= l.len() implies #[trigger] count_of(l.take(k), open)
            <= count_of(l, open) && count_of(l.take(k), close) <= count_of(l, close) by {
            if k < l.len() {
                assert(l.take(k) =~= q.take(k));
            } else {
                assert(l.take(k) =~= l);
            }
        }
    }
}

/// When neither `open` nor `close` occurs more than `i32::MAX` times, the
/// running count fits in an `i32`: what `paren_delta` and `brace_delta`
/// require holds.
pub proof fn lemma_counts_fit(l: Seq<char>, open: char, close: char)
    requires
        open != close,
        count_of(l, open) <= i32::MAX,
        count_of(l, close) <= i32::MAX,
    ensures
        running_count_fits(l, open, close),
{
    lemma_delta_is_count_difference(l, open, close);
    assert forall|k: int| 0 <= k <= l.len() implies i32::MIN <= #[trigger] delta_of(
        l.take(k),
        open,
        close,
    ) <= i32::MAX by {
        lemma_delta_is_count_difference(l.take(k), open, close);
    }
}

/// A line of at most `i32::MAX` characters always fits.
pub proof fn lemma_short_line_fits(l: Seq<char>, open: char, close: char)
    requires
        l.len() <= i32::MAX,
    ensures
        running_count_fits(l, open, close),
{
    assert forall|k: int| 0 <= k <= l.len() implies i32::MIN <= #[trigger] delta_of(
        l.take(k),
        open,
        close,
    ) <= i32::MAX by {
        lemma_delta_bound(l.take(k), open, close);
    }
}

/// Counts add up: the count over `a` followed by `b` is the count over `a`
/// plus the count over `b`.
pub proof fn lemma_delta_concat(a: Seq<char>, b: Seq<char>, open: char, close: char)
    ensures
        delta_of(a + b, open, close) == delta_of(a, open, close) + delta_of(b, open, close),
    decreases b.len(),
{
    if b.len() > 0 {
        lemma_delta_concat(a, b.drop_last(), open, close);
        assert((a + b).drop_last() =~= a + b.drop_last());
        assert((a + b).last() == b.last());
    } else {
        assert(a + b =~= a);
    }
}

pub proof fn lemma_delta_bound(l: Seq<char>, open: char, close: char)
    ensures
        -(l.len() as int) <= delta_of(l, open, close) <= l.len(),
    decreases l.len(),
{
    if l.len() > 0 {
        lemma_delta_bound(l.drop_last(), open, close);
    }
}

/// The indent of a line, counted wide.
pub fn indent_bytes(line: &Vec<char>) -> (n: u128)
    ensures
        n == indent_of(line@),
{
    let k = leading_ws_count(line);
    proof {
        lemma_leading_ws_bound(line@);
    }
    let lead = slice_of(line, 0, k);
    byte_len_wide(&lead)
}

/// Byte width of the leading whitespace, as `line.len() - line.trim_start().len()`.
///
/// A `str` is never longer than `usize::MAX` bytes, so the cast below never
/// truncates; it only says so to a reader who cannot see the allocation.
pub fn indent_width(line: &str) -> (n: usize)
    ensures
        n == indent_of(line@) as usize,
{
    let chars = chars_of(line);
    let n = indent_bytes(&chars);
    n as usize
}

/// Net count of `open` minus `close`, counted wide.
pub fn delta_wide(line: &Vec<char>, open: char, close: char) -> (d: i128)
    ensures
        d == delta_of(line@, open, close),
{
    let mut d: i128 = 0;
    let mut i: usize = 0;
    while i < line.len()
        invariant
            i <= line.len(),
            d == delta_of(line@.take(i as int), open, close),
        decreases line.len() - i,
    {
        proof {
            assert(line@.take(i + 1).drop_last() == line@.take(i as int));
            lemma_delta_bound(line@.take(i as int), open, close);
            assert(usize::MAX as int <= 0xffff_ffff_ffff_ffff);
        }
        let c = line[i];
        if c == open {
            d = d + 1;
        } else if c == close {
            d = d - 1;
        }
        i = i + 1;
    }
    assert(line@.take(line.len() as int) == line@);
    d
}

/// Net parenthesis depth added by this line.
///
/// Deliberately naive: parentheses inside string literals count. The
/// continuation cap above bounds the damage when that misfires.
pub fn paren_delta(line: &str) -> (d: i32)
    requires
        running_count_fits(line@, '(', ')'),
    ensures
        d == paren_delta_of(line@),
{
    let chars = chars_of(line);
    let d = delta_wide(&chars, '(', ')');
    proof {
        assert(line@.take(line@.len() as int) =~= line@);
    }
    d as i32
}

/// `is_declaration` over characters.
pub fn declares_chars(trimmed: &Vec<char>, lang: Language) -> (b: bool)
    ensures
        b == declares(trimmed@, lang),
{
    any_prefix(trimmed, lang.signature_prefixes())
}

pub fn is_declaration(trimmed: &str, lang: Language) -> (b: bool)
    ensures
        b == declares(trimmed@, lang),
{
    let chars = chars_of(trimmed);
    declares_chars(&chars, lang)
}

/// `is_doc` over characters.
pub fn doc_chars(trimmed: &Vec<char>, lang: Language) -> (b: bool)
    ensures
        b == doc_line(trimmed@, lang),
{
    if any_prefix(trimmed, lang.doc_prefixes()) {
        return true;
    }
    // A continuation `*` is only a doc line where `/** */` blocks exist.
    let open = chars_of("/**");
    let star = chars_of("*");
    lang.has_block_comments() && (starts_with(trimmed, &open) || starts_with(trimmed, &star))
}

pub fn is_doc(trimmed: &str, lang: Language) -> (b: bool)
    ensures
        b == doc_line(trimmed@, lang),
{
    let chars = chars_of(trimmed);
    doc_chars(&chars, lang)
}

} // verus!
