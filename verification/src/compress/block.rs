//! Where a block of code ends.
//!
//! Two rules, because languages use two conventions: brace balance where `{}`
//! delimits, indentation in Python. Both are bounded and both report when they
//! hit their bound: partial output that looks complete is worse than none.

use vstd::prelude::*;
use crate::compress::declaration::{
    delta_of, delta_wide, indent_bytes, indent_of, lemma_delta_bound, running_count_fits,
};
use crate::text::{
    chars_of, has_suffix, trim, trim_end, trim_end_of, trim_of, views,
};

verus! {

/// A symbol that runs past this many lines is almost certainly a parsing
/// failure rather than a real definition.
pub const MAX_SYMBOL_LINES: usize = 2_000;

/// Net brace depth added by `l`.
pub open spec fn brace_delta_of(l: Seq<char>) -> int {
    delta_of(l, '{', '}')
}

/// The brace scan from line `offset` on, at `depth` and having `opened` a block.
pub open spec fn braces_from(
    ls: Seq<Seq<char>>,
    index: int,
    offset: int,
    depth: int,
    opened: bool,
) -> (int, bool)
    decreases ls.len() - offset,
{
    if offset >= ls.len() {
        (if ls.len() == 0 {
            0
        } else {
            ls.len() - 1
        }, depth > 0)
    } else {
        let d = depth + brace_delta_of(ls[offset]);
        let op = opened || d > 0;
        if op && d <= 0 {
            (offset, false)
        } else if offset - index >= MAX_SYMBOL_LINES {
            (offset, true)
        } else if !op && has_suffix(trim_end(ls[offset]), ";"@) {
            (offset, false)
        } else {
            braces_from(ls, index, offset + 1, d, op)
        }
    }
}

/// Last line (and truncation flag) of the brace-delimited block at `index`.
pub open spec fn braces_end(ls: Seq<Seq<char>>, index: int) -> (int, bool) {
    braces_from(ls, index, index, 0, false)
}

/// The indentation scan from line `offset` on; `last` is the last body line so far.
pub open spec fn indent_from(ls: Seq<Seq<char>>, index: int, base: nat, offset: int, last: int) -> (
    int,
    bool,
)
    decreases ls.len() - offset,
{
    if offset >= ls.len() {
        (last, false)
    } else if trim(ls[offset]).len() == 0 {
        indent_from(ls, index, base, offset + 1, last)
    } else if indent_of(ls[offset]) <= base {
        (last, false)
    } else if offset - index >= MAX_SYMBOL_LINES {
        (offset, true)
    } else {
        indent_from(ls, index, base, offset + 1, offset)
    }
}

/// Last line (and truncation flag) of the indentation-delimited block at `index`.
pub open spec fn indent_end(ls: Seq<Seq<char>>, index: int) -> (int, bool) {
    let base = if 0 <= index < ls.len() {
        indent_of(ls[index])
    } else {
        0
    };
    indent_from(ls, index, base, index + 1, index)
}

/// Net brace depth of the lines `ls[lo..hi]`.
pub open spec fn braces_sum(ls: Seq<Seq<char>>, lo: int, hi: int) -> int
    decreases hi - lo,
{
    if hi <= lo {
        0
    } else {
        braces_sum(ls, lo, hi - 1) + brace_delta_of(ls[hi - 1])
    }
}

proof fn lemma_braces_from_range(ls: Seq<Seq<char>>, index: int, offset: int, depth: int, opened: bool)
    requires
        0 <= index <= offset,
        offset - index <= MAX_SYMBOL_LINES,
        offset <= ls.len() || offset == index,
        index < ls.len() ==> depth == braces_sum(ls, index, offset),
    ensures
        index < ls.len() ==> index <= braces_from(ls, index, offset, depth, opened).0 < ls.len(),
        index < ls.len() ==> braces_from(ls, index, offset, depth, opened).0 - index
            <= MAX_SYMBOL_LINES,
        index < ls.len() && braces_from(ls, index, offset, depth, opened).1 ==> {
            let end = braces_from(ls, index, offset, depth, opened).0;
            end - index == MAX_SYMBOL_LINES || (end == ls.len() - 1 && braces_sum(
                ls,
                index,
                ls.len() as int,
            ) > 0)
        },
    decreases ls.len() - offset,
{
    if offset < ls.len() {
        let d = depth + brace_delta_of(ls[offset]);
        let op = opened || d > 0;
        if !(op && d <= 0) && !(offset - index >= MAX_SYMBOL_LINES) && !(!op && has_suffix(
            trim_end(ls[offset]),
            ";"@,
        )) {
            assert(braces_sum(ls, index, offset + 1) == braces_sum(ls, index, offset)
                + brace_delta_of(ls[offset]));
            lemma_braces_from_range(ls, index, offset + 1, d, op);
        }
    }
}

/// The brace scan ends on a line of the file, at most `MAX_SYMBOL_LINES` past
/// its start, and a truncated block ends at the bound or, still open, at the
/// end of the file.
pub proof fn lemma_braces_end_range(ls: Seq<Seq<char>>, index: int)
    requires
        0 <= index < ls.len(),
    ensures
        index <= braces_end(ls, index).0 < ls.len(),
        braces_end(ls, index).0 - index <= MAX_SYMBOL_LINES,
        braces_end(ls, index).1 ==> braces_end(ls, index).0 - index == MAX_SYMBOL_LINES || (
        braces_end(ls, index).0 == ls.len() - 1 && braces_sum(ls, index, ls.len() as int) > 0),
{
    lemma_braces_from_range(ls, index, index, 0, false);
}

proof fn lemma_indent_from_range(ls: Seq<Seq<char>>, index: int, base: nat, offset: int, last: int)
    requires
        0 <= index <= last < offset,
        last < ls.len(),
    ensures
        index <= indent_from(ls, index, base, offset, last).0 < ls.len(),
    decreases ls.len() - offset,
{
    if offset < ls.len() {
        if trim(ls[offset]).len() == 0 {
            lemma_indent_from_range(ls, index, base, offset + 1, last);
        } else if indent_of(ls[offset]) <= base {
        } else if offset - index >= MAX_SYMBOL_LINES {
        } else {
            lemma_indent_from_range(ls, index, base, offset + 1, offset);
        }
    }
}

/// The indentation scan ends on a line of the file, at or after its start.
pub proof fn lemma_indent_end_range(ls: Seq<Seq<char>>, index: int)
    requires
        0 <= index < ls.len(),
    ensures
        index <= indent_end(ls, index).0 < ls.len(),
{
    let base = indent_of(ls[index]);
    lemma_indent_from_range(ls, index, base, index + 1, index);
}

/// Net brace depth added by a line.
pub fn brace_delta(line: &str) -> (d: i32)
    requires
        running_count_fits(line@, '{', '}'),
    ensures
        d == brace_delta_of(line@),
{
    let chars = chars_of(line);
    let d = delta_wide(&chars, '{', '}');
    proof {
        assert(line@.take(line@.len() as int) =~= line@);
    }
    d as i32
}

fn ends_with_semicolon(line: &Vec<char>) -> (b: bool)
    ensures
        b == has_suffix(trim_end(line@), ";"@),
{
    proof {
        reveal_strlit(";");
    }
    let t = trim_end_of(line);
    let b = t.len() > 0 && t[t.len() - 1] == ';';
    proof {
        if t@.len() > 0 {
            assert(t@.skip(t@.len() - 1) =~= seq![t@[t@.len() - 1]]);
        }
        if b {
            assert(t@.skip(t@.len() - 1) =~= ";"@);
        } else if t@.len() > 0 {
            assert(t@.skip(t@.len() - 1)[0] != ";"@[0]);
        }
    }
    b
}

/// `end_by_braces` over character lines.
pub fn end_by_braces_lines(lines: &Vec<Vec<char>>, index: usize) -> (r: (usize, bool))
    ensures
        r.0 == braces_end(views(lines@), index as int).0,
        r.1 == braces_end(views(lines@), index as int).1,
{
    let ghost ls = views(lines@);
    let mut depth: i128 = 0;
    let mut opened = false;
    let mut offset = index;
    while offset < lines.len()
        invariant
            index <= offset,
            offset < lines.len() ==> offset - index <= MAX_SYMBOL_LINES,
            ls == views(lines@),
            -(offset - index) * 0x1_0000_0000_0000_0000 <= depth <= (offset - index)
                * 0x1_0000_0000_0000_0000,
            braces_end(ls, index as int) == braces_from(ls, index as int, offset as int, depth as int, opened),
        decreases lines.len() - offset,
    {
        proof {
            assert(ls[offset as int] == lines@[offset as int]@);
            lemma_delta_bound(ls[offset as int], '{', '}');
            assert(usize::MAX as int <= 0xffff_ffff_ffff_ffff);
            let k: int = offset - index;
            assert(0 <= k <= 2000);
            assert(k * 0x1_0000_0000_0000_0000 <= 2000 * 0x1_0000_0000_0000_0000) by (nonlinear_arith)
                requires
                    0 <= k <= 2000,
            ;
            assert((k + 1) * 0x1_0000_0000_0000_0000 == k * 0x1_0000_0000_0000_0000
                + 0x1_0000_0000_0000_0000) by (nonlinear_arith);
        }
        let line_len = lines[offset].len();
        let d = delta_wide(&lines[offset], '{', '}');
        assert(-0x1_0000_0000_0000_0000 <= d <= 0x1_0000_0000_0000_0000);
        depth = depth + d;
        if depth > 0 {
            opened = true;
        }
        // A declaration with no body at all (`pub const X: u8 = 1;`) ends here.
        if opened && depth <= 0 {
            return (offset, false);
        }
        if offset - index >= MAX_SYMBOL_LINES {
            return (offset, true);
        }
        if !opened && ends_with_semicolon(&lines[offset]) {
            return (offset, false);
        }
        offset = offset + 1;
    }
    // Ran out of file with the block still open: report it rather than hand
    // back a body that silently stops mid-function.
    let last = if lines.len() == 0 {
        0
    } else {
        lines.len() - 1
    };
    (last, depth > 0)
}

/// Last line of a brace-delimited block starting at `index`.
pub fn end_by_braces(lines: &[&str], index: usize) -> (r: (usize, bool))
    ensures
        r.0 == braces_end(lines@.map_values(|l: &str| l@), index as int).0,
        r.1 == braces_end(lines@.map_values(|l: &str| l@), index as int).1,
{
    let owned = owned_lines(lines);
    end_by_braces_lines(&owned, index)
}

/// The lines as character vectors.
pub fn owned_lines(lines: &[&str]) -> (r: Vec<Vec<char>>)
    ensures
        views(r@) == lines@.map_values(|l: &str| l@),
{
    let mut r: Vec<Vec<char>> = Vec::new();
    let mut i: usize = 0;
    while i < lines.len()
        invariant
            i <= lines.len(),
            r@.len() == i,
            views(r@) == lines@.take(i as int).map_values(|l: &str| l@),
        decreases lines.len() - i,
    {
        let c = chars_of(lines[i]);
        let ghost old_r = r@;
        r.push(c);
        assert forall|j: int| 0 <= j < i + 1 implies #[trigger] views(r@)[j] == lines@[j]@ by {
            if j < i {
                assert(r@[j] == old_r[j]);
                assert(views(old_r)[j] == lines@.take(i as int).map_values(|l: &str| l@)[j]);
            }
        }
        assert(views(r@) =~= lines@.take(i + 1).map_values(|l: &str| l@));
        i = i + 1;
    }
    assert(lines@.take(lines.len() as int) == lines@);
    r
}

/// `end_by_indent` over character lines.
pub fn end_by_indent_lines(lines: &Vec<Vec<char>>, index: usize) -> (r: (usize, bool))
    requires
        index < usize::MAX,
    ensures
        r.0 == indent_end(views(lines@), index as int).0,
        r.1 == indent_end(views(lines@), index as int).1,
{
    let ghost ls = views(lines@);
    let base: u128 = if index < lines.len() {
        indent_bytes(&lines[index])
    } else {
        0
    };
    proof {
        if index < lines.len() {
            assert(ls[index as int] == lines@[index as int]@);
        }
    }
    let mut last = index;
    let mut offset = index + 1;
    while offset < lines.len()
        invariant
            index < offset,
            index <= last < offset,
            ls == views(lines@),
            base == (if 0 <= index < ls.len() {
                indent_of(ls[index as int])
            } else {
                0
            }),
            indent_end(ls, index as int) == indent_from(ls, index as int, base as nat, offset as int, last as int),
        decreases lines.len() - offset,
    {
        proof {
            assert(ls[offset as int] == lines@[offset as int]@);
        }
        let t = trim_of(&lines[offset]);
        if t.len() == 0 {
            offset = offset + 1;
            continue;  // blank lines inside a body do not end it
        }
        if indent_bytes(&lines[offset]) <= base {
            return (last, false);
        }
        last = offset;
        if offset - index >= MAX_SYMBOL_LINES {
            return (last, true);
        }
        offset = offset + 1;
    }
    (last, false)
}

/// Last line of an indentation-delimited block starting at `index`.
pub fn end_by_indent(lines: &[&str], index: usize) -> (r: (usize, bool))
    requires
        index < usize::MAX,
    ensures
        r.0 == indent_end(lines@.map_values(|l: &str| l@), index as int).0,
        r.1 == indent_end(lines@.map_values(|l: &str| l@), index as int).1,
{
    let owned = owned_lines(lines);
    end_by_indent_lines(&owned, index)
}

} // verus!
