//! Whitespace reduction: trailing spaces and runs of blank lines.
//!
//! Cheap, language-agnostic, and safe for every file type: the only pass that
//! also runs on `Language::Other`.

use vstd::prelude::*;
use crate::text::{
    chars_of, is_ws, join_nl, lemma_lines_no_newline, lemma_lines_unlines, lemma_trailing_ws_at,
    lemma_trailing_ws_bound, lemma_unlines_concat, lemma_unlines_join, lines,
    no_newlines, emit_line, slice_of, split_lines, string_of, trailing_ws, trim_end, trim_end_of,
    unlines, views, all_ws, lemma_lines_all_ws, lemma_trim_empty, trim,
};

verus! {

broadcast use vstd::seq_lib::group_seq_properties;

/// Consecutive blank lines collapse to at most this many.
pub const MAX_CONSECUTIVE_BLANKS: usize = 1;

/// One line of the collapse scan: the output so far and the current run of
/// blank lines, updated by `line`.
pub open spec fn collapse_step(acc: (Seq<char>, nat), line: Seq<char>) -> (Seq<char>, nat) {
    let t = trim_end(line);
    if t.len() == 0 {
        if acc.1 + 1 > MAX_CONSECUTIVE_BLANKS {
            (acc.0, (acc.1 + 1) as nat)
        } else {
            (acc.0 + t.push('\n'), (acc.1 + 1) as nat)
        }
    } else {
        (acc.0 + t.push('\n'), 0)
    }
}

pub open spec fn collapse_scan(ls: Seq<Seq<char>>) -> (Seq<char>, nat)
    decreases ls.len(),
{
    if ls.len() == 0 {
        (Seq::<char>::empty(), 0)
    } else {
        collapse_step(collapse_scan(ls.drop_last()), ls.last())
    }
}

/// Number of `c` at the start of `s`.
pub open spec fn leading_run(s: Seq<char>, c: char) -> nat
    decreases s.len(),
{
    if s.len() > 0 && s[0] == c {
        1 + leading_run(s.drop_first(), c)
    } else {
        0
    }
}

/// Number of `c` at the end of `s`.
pub open spec fn trailing_run(s: Seq<char>, c: char) -> nat
    decreases s.len(),
{
    if s.len() > 0 && s.last() == c {
        1 + trailing_run(s.drop_last(), c)
    } else {
        0
    }
}

/// `str::trim_matches('\n')`.
pub open spec fn strip_newlines(s: Seq<char>) -> Seq<char> {
    let a = s.skip(leading_run(s, '\n') as int);
    a.take(a.len() - trailing_run(a, '\n'))
}

/// What `collapse` returns for `source`.
pub open spec fn spec_collapse(source: Seq<char>) -> Seq<char> {
    let m = strip_newlines(collapse_scan(lines(source)).0);
    if m.len() == 0 {
        Seq::<char>::empty()
    } else {
        m.push('\n')
    }
}

pub proof fn lemma_leading_run_at(s: Seq<char>, c: char, i: int)
    requires
        0 <= i <= s.len(),
        forall|j: int| 0 <= j < i ==> #[trigger] s[j] == c,
        i == s.len() || s[i] != c,
    ensures
        leading_run(s, c) == i,
    decreases i,
{
    if i > 0 {
        assert(s[0] == c);
        assert forall|j: int| 0 <= j < i - 1 implies #[trigger] s.drop_first()[j] == c by {
            assert(s.drop_first()[j] == s[j + 1]);
        }
        lemma_leading_run_at(s.drop_first(), c, i - 1);
    }
}

pub proof fn lemma_trailing_run_at(s: Seq<char>, c: char, k: int)
    requires
        0 <= k <= s.len(),
        forall|j: int| s.len() - k <= j < s.len() ==> #[trigger] s[j] == c,
        k == s.len() || s[s.len() - k - 1] != c,
    ensures
        trailing_run(s, c) == k,
    decreases k,
{
    if k > 0 {
        assert(s[s.len() - 1] == c);
        assert forall|j: int|
            s.drop_last().len() - (k - 1) <= j < s.drop_last().len() implies #[trigger] s.drop_last()[j]
            == c by {
            assert(s.drop_last()[j] == s[j]);
        }
        if k - 1 < s.drop_last().len() {
            assert(s.drop_last()[s.drop_last().len() - (k - 1) - 1] == s[s.len() - k - 1]);
        }
        lemma_trailing_run_at(s.drop_last(), c, k - 1);
    }
}

fn leading_run_count(s: &Vec<char>, c: char) -> (n: usize)
    ensures
        n == leading_run(s@, c),
        n <= s.len(),
{
    let mut i: usize = 0;
    while i < s.len() && s[i] == c
        invariant
            i <= s.len(),
            forall|j: int| 0 <= j < i ==> #[trigger] s@[j] == c,
        decreases s.len() - i,
    {
        i = i + 1;
    }
    proof {
        lemma_leading_run_at(s@, c, i as int);
    }
    i
}

fn trailing_run_count(s: &Vec<char>, c: char) -> (n: usize)
    ensures
        n == trailing_run(s@, c),
        n <= s.len(),
{
    let mut k: usize = 0;
    while k < s.len() && s[s.len() - 1 - k] == c
        invariant
            k <= s.len(),
            forall|j: int| s.len() - k <= j < s.len() ==> #[trigger] s@[j] == c,
        decreases s.len() - k,
    {
        k = k + 1;
    }
    proof {
        lemma_trailing_run_at(s@, c, k as int);
    }
    k
}

fn strip_newlines_of(s: &Vec<char>) -> (r: Vec<char>)
    ensures
        r@ == strip_newlines(s@),
{
    let lead = leading_run_count(s, '\n');
    let a = slice_of(s, lead, s.len());
    let trail = trailing_run_count(&a, '\n');
    slice_of(&a, 0, a.len() - trail)
}

/// Collapse over characters; `collapse` is this at the `&str` edge.
pub fn collapse_chars(source: &Vec<char>) -> (r: Vec<char>)
    ensures
        r@ == spec_collapse(source@),
{
    let ls = split_lines(source);
    let mut out: Vec<char> = Vec::new();
    let mut blank_run: usize = 0;
    let mut i: usize = 0;
    while i < ls.len()
        invariant
            i <= ls.len(),
            blank_run <= i,
            views(ls@) == lines(source@),
            (out@, blank_run as nat) == collapse_scan(views(ls@).take(i as int)),
        decreases ls.len() - i,
    {
        proof {
            assert(views(ls@).take(i + 1).drop_last() == views(ls@).take(i as int));
            assert(views(ls@)[i as int] == ls@[i as int]@);
        }
        let trimmed = trim_end_of(&ls[i]);
        if trimmed.len() == 0 {
            blank_run = blank_run + 1;
            if blank_run > MAX_CONSECUTIVE_BLANKS {
                i = i + 1;
                continue;
            }
        } else {
            blank_run = 0;
        }
        emit_line(&mut out, &trimmed);
        i = i + 1;
    }
    proof {
        assert(views(ls@).take(ls.len() as int) == views(ls@));
    }
    let m = strip_newlines_of(&out);
    if m.len() == 0 {
        Vec::new()
    } else {
        let mut r = m;
        r.push('\n');
        r
    }
}

/// Trim trailing whitespace and collapse blank-line runs.
///
/// Leading indentation is preserved: it carries block structure in Python and
/// readability everywhere else.
pub fn collapse(source: &str) -> (r: String)
    ensures
        r@ == spec_collapse(source@),
{
    let chars = chars_of(source);
    let out = collapse_chars(&chars);
    string_of(&out)
}

// ---------------------------------------------------------------------------
// Idempotence
// ---------------------------------------------------------------------------

/// The lines the scan keeps, each trimmed at the end.
pub open spec fn kept(ls: Seq<Seq<char>>) -> Seq<Seq<char>>
    decreases ls.len(),
{
    if ls.len() == 0 {
        Seq::<Seq<char>>::empty()
    } else {
        let k = kept(ls.drop_last());
        let run = collapse_scan(ls.drop_last()).1;
        let t = trim_end(ls.last());
        if t.len() == 0 && run + 1 > MAX_CONSECUTIVE_BLANKS {
            k
        } else {
            k.push(t)
        }
    }
}

/// Lines with no newline inside, no trailing whitespace, and never two blank
/// lines in a row.
pub open spec fn orderly(k: Seq<Seq<char>>) -> bool {
    &&& no_newlines(k)
    &&& forall|i: int| 0 <= i < k.len() ==> trailing_ws(#[trigger] k[i]) == 0
    &&& forall|i: int| 0 <= i < k.len() - 1 ==> !(#[trigger] k[i].len() == 0 && k[i + 1].len() == 0)
}

/// Orderly, and neither starting nor ending with a blank line.
pub open spec fn tidy(k: Seq<Seq<char>>) -> bool {
    &&& orderly(k)
    &&& k.len() > 0 ==> k[0].len() > 0 && k.last().len() > 0
}

/// `k` without one leading and one trailing blank line.
pub open spec fn inner_block(k: Seq<Seq<char>>) -> Seq<Seq<char>> {
    let a = if k.len() > 0 && k[0].len() == 0 {
        k.drop_first()
    } else {
        k
    };
    if a.len() > 0 && a.last().len() == 0 {
        a.drop_last()
    } else {
        a
    }
}

proof fn lemma_trim_end_facts(l: Seq<char>)
    ensures
        trailing_ws(trim_end(l)) == 0,
        trim_end(l).len() <= l.len(),
        forall|j: int| 0 <= j < trim_end(l).len() ==> #[trigger] trim_end(l)[j] == l[j],
{
    lemma_trailing_ws_bound(l);
    let t = trim_end(l);
    if t.len() > 0 {
        assert(t[t.len() - 1] == l[l.len() - trailing_ws(l) - 1]);
    }
    lemma_trailing_ws_at(t, 0);
}

proof fn lemma_scan(ls: Seq<Seq<char>>)
    requires
        no_newlines(ls),
    ensures
        collapse_scan(ls).0 == unlines(kept(ls)),
        orderly(kept(ls)),
        collapse_scan(ls).1 > 0 ==> kept(ls).len() > 0 && kept(ls).last().len() == 0,
        collapse_scan(ls).1 == 0 ==> kept(ls).len() == 0 || kept(ls).last().len() > 0,
    decreases ls.len(),
{
    if ls.len() > 0 {
        let q = ls.drop_last();
        assert(no_newlines(q)) by {
            assert forall|k: int, j: int| 0 <= k < q.len() && 0 <= j < q[k].len() implies #[trigger] q[k][j]
                != '\n' by {
                assert(q[k] == ls[k]);
            }
        }
        lemma_scan(q);
        let k = kept(q);
        let t = trim_end(ls.last());
        lemma_trim_end_facts(ls.last());
        if !(t.len() == 0 && collapse_scan(q).1 + 1 > MAX_CONSECUTIVE_BLANKS) {
            let k2 = k.push(t);
            assert(k2.drop_last() =~= k);
            assert(no_newlines(k2)) by {
                assert forall|a: int, j: int| 0 <= a < k2.len() && 0 <= j < k2[a].len() implies #[trigger] k2[a][j]
                    != '\n' by {
                    if a == k.len() {
                        assert(k2[a][j] == ls[ls.len() - 1][j]);
                    } else {
                        assert(k2[a] == k[a]);
                    }
                }
            }
            assert forall|i: int| 0 <= i < k2.len() implies trailing_ws(#[trigger] k2[i]) == 0 by {
                if i < k.len() {
                    assert(k2[i] == k[i]);
                }
            }
            assert forall|i: int| 0 <= i < k2.len() - 1 implies !(#[trigger] k2[i].len() == 0
                && k2[i + 1].len() == 0) by {
                if i < k.len() - 1 {
                    assert(k2[i] == k[i] && k2[i + 1] == k[i + 1]);
                } else {
                    assert(k2[i] == k.last());
                }
            }
        }
    }
}

/// `n` newline characters.
pub open spec fn newlines(n: nat) -> Seq<char> {
    Seq::new(n, |i: int| '\n')
}

#[verifier::spinoff_prover]
proof fn lemma_core_frame(k: Seq<Seq<char>>) -> (r: (nat, nat))
    requires
        orderly(k),
    ensures
        tidy(inner_block(k)),
        unlines(k) == newlines(r.0) + unlines(inner_block(k)) + newlines(r.1),
        inner_block(k).len() == 0 ==> r.0 + r.1 == unlines(k).len(),
{
    let lead = k.len() > 0 && k[0].len() == 0;
    let a = if lead {
        k.drop_first()
    } else {
        k
    };
    let trail = a.len() > 0 && a.last().len() == 0;
    let c = inner_block(k);
    let pre: Seq<Seq<char>> = if lead {
        seq![Seq::<char>::empty()]
    } else {
        Seq::<Seq<char>>::empty()
    };
    let post: Seq<Seq<char>> = if trail {
        seq![Seq::<char>::empty()]
    } else {
        Seq::<Seq<char>>::empty()
    };
    let off: int = if lead { 1 } else { 0 };
    assert(a =~= k.subrange(off, k.len() as int));
    assert(c =~= a.subrange(0, if trail { a.len() - 1 } else { a.len() as int }));
    assert(k =~= pre + c + post);
    assert forall|i: int| 0 <= i < c.len() implies #[trigger] c[i] == k[i + off] by {}
    assert(orderly(c)) by {
        assert forall|x: int, j: int| 0 <= x < c.len() && 0 <= j < c[x].len() implies #[trigger] c[x][j]
            != '\n' by {
            assert(c[x] == k[x + off]);
        }
        assert forall|i: int| 0 <= i < c.len() implies trailing_ws(#[trigger] c[i]) == 0 by {
            assert(c[i] == k[i + off]);
        }
        assert forall|i: int| 0 <= i < c.len() - 1 implies !(#[trigger] c[i].len() == 0 && c[i
            + 1].len() == 0) by {
            assert(c[i] == k[i + off] && c[i + 1] == k[i + 1 + off]);
        }
    }
    if c.len() > 0 {
        assert(c[0] == k[off]);
        if c[0].len() == 0 && lead {
            assert(k[0].len() == 0 && k[1].len() == 0);
        }
        assert(c.last() == k[c.len() - 1 + off]);
        if c.last().len() == 0 && trail {
            assert(k[c.len() - 1 + off].len() == 0 && k[c.len() + off].len() == 0);
        }
    }
    lemma_unlines_concat(pre + c, post);
    lemma_unlines_concat(pre, c);
    let p = unlines(pre);
    let q = unlines(post);
    let lp: nat = if lead { 1 } else { 0 };
    let lq: nat = if trail { 1 } else { 0 };
    assert(p =~= newlines(lp)) by {
        if lead {
            assert(pre.drop_last() =~= Seq::<Seq<char>>::empty());
            assert(unlines(Seq::<Seq<char>>::empty()) =~= Seq::<char>::empty());
            assert(pre.last() =~= Seq::<char>::empty());
        } else {
            assert(unlines(pre) =~= Seq::<char>::empty());
        }
    }
    assert(q =~= newlines(lq)) by {
        if trail {
            assert(post.drop_last() =~= Seq::<Seq<char>>::empty());
            assert(unlines(Seq::<Seq<char>>::empty()) =~= Seq::<char>::empty());
            assert(post.last() =~= Seq::<char>::empty());
        } else {
            assert(unlines(post) =~= Seq::<char>::empty());
        }
    }
    if c.len() == 0 {
        assert(unlines(c) =~= Seq::<char>::empty());
    }
    (lp, lq)
}

#[verifier::spinoff_prover]
#[verifier::rlimit(30)]
proof fn lemma_strip_framed(c: Seq<Seq<char>>, a: nat, b: nat)
    requires
        tidy(c),
        c.len() > 0,
    ensures
        strip_newlines(newlines(a) + unlines(c) + newlines(b)) == join_nl(c),
{
    let x = newlines(a) + unlines(c) + newlines(b);
    lemma_unlines_join(c);
    lemma_unlines_concat(seq![c[0]], c.drop_first());
    assert(seq![c[0]] + c.drop_first() =~= c);
    assert(seq![c[0]].drop_last() =~= Seq::<Seq<char>>::empty());
    assert(unlines(Seq::<Seq<char>>::empty()) =~= Seq::<char>::empty());
    assert(seq![c[0]].last() == c[0]);
    assert(unlines(seq![c[0]]) =~= c[0].push('\n'));
    let uc = unlines(c);
    assert(uc[0] == c[0][0]);
    assert(c[0][0] != '\n');
    assert(x[a as int] == c[0][0]);
    lemma_leading_run_at(x, '\n', a as int);
    let ax = x.skip(a as int);
    assert(ax =~= uc + newlines(b));
    assert(uc =~= unlines(c.drop_last()) + c.last().push('\n'));
    assert(uc[uc.len() - 2] == c.last()[c.last().len() - 1]);
    assert(c.last()[c.last().len() - 1] != '\n');
    let tq: int = 1 + b as int;
    assert(ax[ax.len() - tq - 1] == uc[uc.len() - 2]);
    lemma_trailing_run_at(ax, '\n', tq);
    assert(ax.take(ax.len() - tq) =~= join_nl(c));
}

proof fn lemma_strip_all_newlines(x: Seq<char>)
    requires
        forall|j: int| 0 <= j < x.len() ==> #[trigger] x[j] == '\n',
    ensures
        strip_newlines(x).len() == 0,
{
    lemma_leading_run_at(x, '\n', x.len() as int);
    assert(x.skip(x.len() as int) =~= Seq::<char>::empty());
    lemma_trailing_run_at(Seq::<char>::empty(), '\n', 0);
}

/// Every line of `s` is free of newlines, as `lines` never returns one.
proof fn lemma_lines_orderly_input(s: Seq<char>)
    ensures
        no_newlines(lines(s)),
{
    lemma_lines_no_newline(s);
}

/// What `collapse` returns is the tidy core of the kept lines, each followed by
/// a newline.
proof fn lemma_collapse_shape(s: Seq<char>)
    ensures
        tidy(inner_block(kept(lines(s)))),
        spec_collapse(s) == unlines(inner_block(kept(lines(s)))),
{
    lemma_lines_orderly_input(s);
    lemma_scan(lines(s));
    let k = kept(lines(s));
    let (a, b) = lemma_core_frame(k);
    let c = inner_block(k);
    if c.len() > 0 {
        lemma_unlines_join(c);
        lemma_strip_framed(c, a, b);
    } else {
        assert(unlines(c) =~= Seq::<char>::empty());
        let x = unlines(k);
        assert(x =~= newlines(a) + newlines(b));
        lemma_strip_all_newlines(x);
    }
}

/// A tidy block of lines is its own collapse.
proof fn lemma_tidy_fixed(c: Seq<Seq<char>>)
    requires
        tidy(c),
    ensures
        spec_collapse(unlines(c)) == unlines(c),
{
    assert forall|i: int| 0 <= i < c.len() && #[trigger] c[i].len() > 0 implies c[i].last() != '\r' by {
        lemma_trailing_ws_bound(c[i]);
        assert(!is_ws(c[i][c[i].len() - 1]));
    }
    lemma_lines_unlines(c);
    lemma_kept_tidy(c);
    lemma_collapse_shape(unlines(c));
    assert(inner_block(c) =~= c);
}

proof fn lemma_kept_tidy(c: Seq<Seq<char>>)
    requires
        orderly(c),
        c.len() > 0 ==> c[0].len() > 0,
    ensures
        kept(c) == c,
    decreases c.len(),
{
    if c.len() > 0 {
        let q = c.drop_last();
        assert(orderly(q)) by {
            assert forall|x: int, j: int| 0 <= x < q.len() && 0 <= j < q[x].len() implies #[trigger] q[x][j]
                != '\n' by {
                assert(q[x] == c[x]);
            }
            assert forall|i: int| 0 <= i < q.len() implies trailing_ws(#[trigger] q[i]) == 0 by {
                assert(q[i] == c[i]);
            }
            assert forall|i: int| 0 <= i < q.len() - 1 implies !(#[trigger] q[i].len() == 0 && q[i
                + 1].len() == 0) by {
                assert(q[i] == c[i] && q[i + 1] == c[i + 1]);
            }
        }
        if q.len() > 0 {
            assert(q[0] == c[0]);
        }
        lemma_kept_tidy(q);
        lemma_scan(q);
        lemma_trailing_ws_bound(c.last());
        assert(trim_end(c.last()) =~= c.last());
        if c.last().len() == 0 && collapse_scan(q).1 > 0 {
            assert(q.last() == c[c.len() - 2]);
            assert(c[c.len() - 2].len() == 0 && c[c.len() - 1].len() == 0);
        }
        assert(kept(c) =~= c);
    }
}

/// What `collapse` returns is tidy: its lines carry no trailing whitespace,
/// no two blank lines follow each other, none is blank at either end, and the
/// text is either empty or ends in exactly one newline.
pub proof fn lemma_collapse_is_tidy(s: Seq<char>)
    ensures
        tidy(lines(spec_collapse(s))),
        spec_collapse(s).len() > 0 ==> spec_collapse(s).last() == '\n',
        spec_collapse(s).len() > 1 ==> spec_collapse(s)[spec_collapse(s).len() - 2] != '\n',
{
    lemma_collapse_shape(s);
    let c = inner_block(kept(lines(s)));
    assert forall|i: int| 0 <= i < c.len() && #[trigger] c[i].len() > 0 implies c[i].last() != '\r' by {
        lemma_trailing_ws_bound(c[i]);
        assert(!is_ws(c[i][c[i].len() - 1]));
    }
    lemma_lines_unlines(c);
    if c.len() > 0 {
        let last = c.last();
        assert(spec_collapse(s) == unlines(c.drop_last()) + last.push('\n'));
        assert(last.len() > 0);
        let n = spec_collapse(s).len();
        assert(spec_collapse(s)[n - 2] == last[last.len() - 1]);
        assert(last[last.len() - 1] != '\n');
    }
}

/// Each line trimmed at the end, except that a blank line directly after a
/// blank line is dropped.
pub open spec fn shortened_runs(ls: Seq<Seq<char>>) -> Seq<Seq<char>>
    decreases ls.len(),
{
    if ls.len() == 0 {
        Seq::<Seq<char>>::empty()
    } else {
        let rest = shortened_runs(ls.drop_last());
        let t = trim_end(ls.last());
        if t.len() == 0 && ls.len() > 1 && trim_end(ls[ls.len() - 2]).len() == 0 {
            rest
        } else {
            rest.push(t)
        }
    }
}

proof fn lemma_run_follows_blank(ls: Seq<Seq<char>>)
    ensures
        (collapse_scan(ls).1 > 0) == (ls.len() > 0 && trim_end(ls.last()).len() == 0),
{
}

proof fn lemma_kept_is_shortened(ls: Seq<Seq<char>>)
    ensures
        kept(ls) == shortened_runs(ls),
    decreases ls.len(),
{
    if ls.len() > 0 {
        lemma_kept_is_shortened(ls.drop_last());
        lemma_run_follows_blank(ls.drop_last());
        if ls.len() > 1 {
            assert(ls.drop_last().last() == ls[ls.len() - 2]);
        }
    }
}

/// Some kept line is not blank exactly when some line is not blank.
proof fn lemma_kept_has_text(ls: Seq<Seq<char>>)
    ensures
        (exists|j: int| 0 <= j < kept(ls).len() && #[trigger] kept(ls)[j].len() > 0) == (exists|
            i: int,
        | 0 <= i < ls.len() && #[trigger] trim_end(ls[i]).len() > 0),
    decreases ls.len(),
{
    if ls.len() > 0 {
        let q = ls.drop_last();
        lemma_kept_has_text(q);
        let k = kept(q);
        let t = trim_end(ls.last());
        if exists|i: int| 0 <= i < q.len() && #[trigger] trim_end(q[i]).len() > 0 {
            let i = choose|i: int| 0 <= i < q.len() && #[trigger] trim_end(q[i]).len() > 0;
            assert(trim_end(ls[i]).len() > 0);
            let j = choose|j: int| 0 <= j < k.len() && #[trigger] k[j].len() > 0;
            assert(kept(ls)[j] == k[j]);
        } else if t.len() > 0 {
            assert(trim_end(ls[ls.len() - 1]).len() > 0);
            assert(kept(ls) == k.push(t));
            assert(kept(ls)[k.len() as int].len() > 0);
        } else {
            assert forall|i: int| 0 <= i < ls.len() implies #[trigger] trim_end(ls[i]).len() == 0 by {
                if i < q.len() {
                    assert(ls[i] == q[i]);
                }
            }
            assert forall|j: int| 0 <= j < kept(ls).len() implies #[trigger] kept(ls)[j].len() == 0 by {
                if j < k.len() {
                    assert(kept(ls)[j] == k[j]);
                }
            }
        }
    }
}

/// What `collapse` returns, stated directly: take each line trimmed at the
/// end, drop every blank line that directly follows a blank line, then drop a
/// blank line at the start and one at the end; what is left is joined, each
/// line followed by a newline. It is empty exactly when every line of the
/// source is blank, which is when the source is whitespace only, and otherwise neither starts with a newline nor ends with
/// two.
pub proof fn lemma_collapse_characterized(s: Seq<char>)
    ensures
        spec_collapse(s) == unlines(inner_block(shortened_runs(lines(s)))),
        (spec_collapse(s).len() == 0) == (forall|i: int|
            0 <= i < lines(s).len() ==> #[trigger] trim_end(lines(s)[i]).len() == 0),
        spec_collapse(s).len() > 0 ==> spec_collapse(s)[0] != '\n',
        (spec_collapse(s).len() == 0) == (trim(s).len() == 0),
{
    lemma_trim_empty(s);
    lemma_lines_all_ws(s);
    assert forall|i: int| 0 <= i < lines(s).len() implies (trim_end(#[trigger] lines(s)[i]).len()
        == 0) == all_ws(lines(s)[i]) by {
        lemma_trim_empty(lines(s)[i]);
    }
    lemma_collapse_shape(s);
    lemma_kept_is_shortened(lines(s));
    lemma_kept_has_text(lines(s));
    lemma_lines_orderly_input(s);
    lemma_scan(lines(s));
    let k = kept(lines(s));
    let c = inner_block(k);
    if c.len() > 0 {
        // The first line is not blank and holds no newline.
        assert(c[0].len() > 0);
        lemma_unlines_concat(seq![c[0]], c.drop_first());
        assert(seq![c[0]] + c.drop_first() =~= c);
        assert(seq![c[0]].drop_last() =~= Seq::<Seq<char>>::empty());
        assert(unlines(seq![c[0]]) == unlines(Seq::<Seq<char>>::empty()) + c[0].push('\n'));
        assert(unlines(c)[0] == c[0][0]);
        assert(c[0][0] != '\n');
        // Some kept line has text.
        let j = if k.len() > 0 && k[0].len() == 0 {
            1int
        } else {
            0int
        };
        assert(k[j] == c[0]);
    } else {
        assert(unlines(c) =~= Seq::<char>::empty());
        // No kept line has text: it would survive `inner_block`.
        if exists|j: int| 0 <= j < k.len() && #[trigger] k[j].len() > 0 {
            let j = choose|j: int| 0 <= j < k.len() && #[trigger] k[j].len() > 0;
            let a = if k.len() > 0 && k[0].len() == 0 {
                k.drop_first()
            } else {
                k
            };
            let ja = if k.len() > 0 && k[0].len() == 0 {
                j - 1
            } else {
                j
            };
            assert(a[ja].len() > 0);
            assert(a.len() > 0);
            if a.last().len() == 0 {
                assert(ja < a.len() - 1);
                assert(c[ja] == a[ja]);
            } else {
                assert(c[ja] == a[ja]);
            }
        }
    }
}

/// Collapsing twice is collapsing once: a collapsed text collapses to itself.
pub proof fn lemma_collapse_idempotent(s: Seq<char>)
    ensures
        spec_collapse(spec_collapse(s)) == spec_collapse(s),
{
    lemma_collapse_shape(s);
    lemma_tidy_fixed(inner_block(kept(lines(s))));
}

} // verus!
