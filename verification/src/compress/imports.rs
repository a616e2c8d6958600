//! Import hoisting: pull import lines out, dedupe, and group them at the top.
//!
//! Imports are high-signal (they tell an agent what the file depends on) but
//! scattered and often duplicated across a long file. Collecting them costs
//! nothing and makes the dependency surface readable in one glance.

use vstd::prelude::*;
use crate::compress::lang::{any_prefix, import_prefixes_of, starts_with_any, Language};
use crate::text::{
    chars_of, copy_chars, emit_line, eq_chars, has_prefix, lines, split_lines, string_of, trim,
    trim_of, trim_start, trim_start_of, unlines, views, lemma_unlines_concat,
};

verus! {

broadcast use vstd::seq_lib::group_seq_properties;

/// Source split into its import lines and everything else.
pub struct Split {
    pub imports: Vec<String>,
    pub body: String,
}

/// The views of a list of strings.
pub open spec fn string_views(v: Seq<String>) -> Seq<Seq<char>> {
    v.map_values(|x: String| x@)
}

/// A line that is not indented.
pub open spec fn top_level(line: Seq<char>) -> bool {
    !has_prefix(line, " "@) && !has_prefix(line, "\t"@)
}

/// One line of the split scan over `(imports, body)`.
pub open spec fn split_step(lang: Language, st: (Seq<Seq<char>>, Seq<char>), line: Seq<char>) -> (
    Seq<Seq<char>>,
    Seq<char>,
) {
    let (imports, body) = st;
    let trimmed = trim(line);
    if top_level(line) && starts_with_any(trimmed, import_prefixes_of(lang)) {
        if imports.contains(trimmed) {
            (imports, body)
        } else {
            (imports.push(trimmed), body)
        }
    } else {
        (imports, body + line.push('\n'))
    }
}

pub open spec fn split_scan(lang: Language, ls: Seq<Seq<char>>) -> (Seq<Seq<char>>, Seq<char>)
    decreases ls.len(),
{
    if ls.len() == 0 {
        (Seq::<Seq<char>>::empty(), Seq::<char>::empty())
    } else {
        split_step(lang, split_scan(lang, ls.drop_last()), ls.last())
    }
}

/// What `split` returns for `source`: the imports, and the body.
pub open spec fn spec_split(source: Seq<char>, lang: Language) -> (Seq<Seq<char>>, Seq<char>) {
    if import_prefixes_of(lang).len() == 0 {
        (Seq::<Seq<char>>::empty(), source)
    } else {
        split_scan(lang, lines(source))
    }
}

/// A line that belongs above the hoisted imports.
pub open spec fn preamble_line(line: Seq<char>) -> bool {
    let t = trim_start(line);
    has_prefix(t, "//!"@) || has_prefix(t, "#!["@) || has_prefix(t, "#!"@) || t.len() == 0
}

/// One line of the preamble scan over `(preamble, rest, still_preamble)`.
pub open spec fn preamble_step(st: (Seq<char>, Seq<char>, bool), line: Seq<char>) -> (
    Seq<char>,
    Seq<char>,
    bool,
) {
    let (preamble, rest, still) = st;
    if still && preamble_line(line) {
        (preamble + line.push('\n'), rest, true)
    } else {
        (preamble, rest + line.push('\n'), false)
    }
}

pub open spec fn preamble_scan(ls: Seq<Seq<char>>) -> (Seq<char>, Seq<char>, bool)
    decreases ls.len(),
{
    if ls.len() == 0 {
        (Seq::<char>::empty(), Seq::<char>::empty(), true)
    } else {
        preamble_step(preamble_scan(ls.drop_last()), ls.last())
    }
}

/// What `split_preamble` returns for `source`.
pub open spec fn spec_split_preamble(source: Seq<char>) -> (Seq<char>, Seq<char>) {
    let (preamble, rest, _) = preamble_scan(lines(source));
    if trim(preamble).len() == 0 {
        (Seq::<char>::empty(), source)
    } else {
        (preamble, rest)
    }
}

/// What `render` returns for `imports`.
pub open spec fn spec_render(imports: Seq<Seq<char>>) -> Seq<char> {
    if imports.len() == 0 {
        Seq::<char>::empty()
    } else {
        unlines(imports).push('\n')
    }
}

/// The scan keeps each import once, in first-seen order, and each one is a
/// trimmed line starting with an import prefix.
pub proof fn lemma_split_scan_imports(lang: Language, ls: Seq<Seq<char>>)
    ensures
        split_scan(lang, ls).0.no_duplicates(),
        forall|i: int|
            0 <= i < split_scan(lang, ls).0.len() ==> starts_with_any(
                #[trigger] split_scan(lang, ls).0[i],
                import_prefixes_of(lang),
            ),
    decreases ls.len(),
{
    if ls.len() > 0 {
        lemma_split_scan_imports(lang, ls.drop_last());
    }
}

/// A top-level line whose trimmed text starts with an import prefix.
pub open spec fn import_line(lang: Language, line: Seq<char>) -> bool {
    top_level(line) && starts_with_any(trim(line), import_prefixes_of(lang))
}

/// The lines that are not import lines, in order.
pub open spec fn non_import_lines(lang: Language, ls: Seq<Seq<char>>) -> Seq<Seq<char>>
    decreases ls.len(),
{
    if ls.len() == 0 {
        Seq::<Seq<char>>::empty()
    } else {
        let rest = non_import_lines(lang, ls.drop_last());
        if import_line(lang, ls.last()) {
            rest
        } else {
            rest.push(ls.last())
        }
    }
}

/// The trimmed import lines, each kept at its first occurrence only.
pub open spec fn distinct_imports(lang: Language, ls: Seq<Seq<char>>) -> Seq<Seq<char>>
    decreases ls.len(),
{
    if ls.len() == 0 {
        Seq::<Seq<char>>::empty()
    } else {
        let rest = distinct_imports(lang, ls.drop_last());
        if import_line(lang, ls.last()) && !rest.contains(trim(ls.last())) {
            rest.push(trim(ls.last()))
        } else {
            rest
        }
    }
}

proof fn lemma_split_scan_characterized(lang: Language, ls: Seq<Seq<char>>)
    ensures
        split_scan(lang, ls).0 == distinct_imports(lang, ls),
        split_scan(lang, ls).1 == unlines(non_import_lines(lang, ls)),
        forall|x: Seq<char>|
            #![trigger distinct_imports(lang, ls).contains(x)]
            distinct_imports(lang, ls).contains(x) <==> exists|i: int|
                0 <= i < ls.len() && import_line(lang, #[trigger] ls[i]) && trim(ls[i]) == x,
    decreases ls.len(),
{
    if ls.len() > 0 {
        let q = ls.drop_last();
        lemma_split_scan_characterized(lang, q);
        let n = non_import_lines(lang, q);
        if !import_line(lang, ls.last()) {
            assert(n.push(ls.last()).drop_last() =~= n);
        }
        let r = distinct_imports(lang, q);
        assert forall|x: Seq<char>|
            #![trigger distinct_imports(lang, ls).contains(x)]
            distinct_imports(lang, ls).contains(x) <==> exists|i: int|
                0 <= i < ls.len() && import_line(lang, #[trigger] ls[i]) && trim(ls[i]) == x by {
            if distinct_imports(lang, ls).contains(x) {
                if r.contains(x) {
                    let i = choose|i: int|
                        0 <= i < q.len() && import_line(lang, #[trigger] q[i]) && trim(q[i]) == x;
                    assert(ls[i] == q[i]);
                } else {
                    assert(x == trim(ls.last()));
                    assert(ls[ls.len() - 1] == ls.last());
                }
            }
            if exists|i: int| 0 <= i < ls.len() && import_line(lang, #[trigger] ls[i]) && trim(ls[i]) == x {
                let i = choose|i: int|
                    0 <= i < ls.len() && import_line(lang, #[trigger] ls[i]) && trim(ls[i]) == x;
                if i < q.len() {
                    assert(q[i] == ls[i]);
                    assert(r.contains(x));
                    if !(import_line(lang, ls.last()) && !r.contains(trim(ls.last()))) {
                    } else {
                        assert(r.push(trim(ls.last()))[r.len() as int] == trim(ls.last()));
                        let k = choose|k: int| 0 <= k < r.len() && r[k] == x;
                        assert(r.push(trim(ls.last()))[k] == x);
                    }
                } else {
                    assert(ls[i] == ls.last());
                    if r.contains(x) {
                        let k = choose|k: int| 0 <= k < r.len() && r[k] == x;
                        assert(distinct_imports(lang, ls)[k] == x);
                    } else {
                        assert(distinct_imports(lang, ls) == r.push(x));
                        assert(distinct_imports(lang, ls)[r.len() as int] == x);
                    }
                }
            }
        }
    }
}

/// What `split` returns, stated directly: where the language has no import
/// syntax, no imports and the source untouched; otherwise the trimmed
/// top-level import lines, each at its first occurrence, and the body made of
/// every other line in order, each followed by a newline. An import is
/// hoisted exactly when some top-level line trims to it.
pub proof fn lemma_split_characterized(source: Seq<char>, lang: Language)
    ensures
        import_prefixes_of(lang).len() == 0 ==> spec_split(source, lang) == (
            Seq::<Seq<char>>::empty(),
            source,
        ),
        import_prefixes_of(lang).len() > 0 ==> spec_split(source, lang) == (
            distinct_imports(lang, lines(source)),
            unlines(non_import_lines(lang, lines(source))),
        ),
        import_prefixes_of(lang).len() > 0 ==> forall|x: Seq<char>|
            #![trigger spec_split(source, lang).0.contains(x)]
            spec_split(source, lang).0.contains(x) <==> exists|i: int|
                0 <= i < lines(source).len() && import_line(lang, #[trigger] lines(source)[i])
                    && trim(lines(source)[i]) == x,
{
    lemma_split_scan_characterized(lang, lines(source));
}

/// Number of preamble lines at the start of `ls`.
pub open spec fn leading_preamble(ls: Seq<Seq<char>>) -> nat
    decreases ls.len(),
{
    if ls.len() > 0 && preamble_line(ls[0]) {
        1 + leading_preamble(ls.drop_first())
    } else {
        0
    }
}

proof fn lemma_leading_preamble(ls: Seq<Seq<char>>)
    ensures
        leading_preamble(ls) <= ls.len(),
        forall|i: int| 0 <= i < leading_preamble(ls) ==> preamble_line(#[trigger] ls[i]),
        leading_preamble(ls) == ls.len() || !preamble_line(ls[leading_preamble(ls) as int]),
    decreases ls.len(),
{
    if ls.len() > 0 && preamble_line(ls[0]) {
        let t = ls.drop_first();
        lemma_leading_preamble(t);
        assert forall|i: int| 0 <= i < leading_preamble(ls) implies preamble_line(#[trigger] ls[i]) by {
            if i > 0 {
                assert(ls[i] == t[i - 1]);
            }
        }
        if leading_preamble(ls) < ls.len() {
            assert(ls[leading_preamble(ls) as int] == t[leading_preamble(t) as int]);
        }
    }
}

proof fn lemma_preamble_scan(ls: Seq<Seq<char>>, n: int)
    requires
        0 <= n <= ls.len(),
        forall|i: int| 0 <= i < n ==> preamble_line(#[trigger] ls[i]),
        n == ls.len() || !preamble_line(ls[n]),
    ensures
        preamble_scan(ls).0 == unlines(ls.take(n)),
        preamble_scan(ls).1 == unlines(ls.skip(n)),
        preamble_scan(ls).2 == (n == ls.len()),
    decreases ls.len(),
{
    if ls.len() > 0 {
        let q = ls.drop_last();
        if n == ls.len() {
            assert forall|i: int| 0 <= i < n - 1 implies preamble_line(#[trigger] q[i]) by {
                assert(q[i] == ls[i]);
            }
            lemma_preamble_scan(q, n - 1);
            assert(q.take(n - 1) =~= q);
            assert(ls.take(n) =~= ls);
            assert(ls.skip(n) =~= Seq::<Seq<char>>::empty());
            assert(q.skip(n - 1) =~= Seq::<Seq<char>>::empty());
            assert(preamble_line(ls[n - 1]));
        } else {
            assert forall|i: int| 0 <= i < n implies preamble_line(#[trigger] q[i]) by {
                assert(q[i] == ls[i]);
            }
            if n < q.len() {
                assert(q[n] == ls[n]);
            }
            lemma_preamble_scan(q, n);
            assert(q.take(n) =~= ls.take(n));
            assert(ls.skip(n) =~= q.skip(n).push(ls.last()));
            assert(ls.skip(n).drop_last() =~= q.skip(n));
            if n == q.len() {
                assert(ls.last() == ls[n]);
            }
        }
    } else {
        assert(ls.take(n) =~= Seq::<Seq<char>>::empty());
        assert(ls.skip(n) =~= Seq::<Seq<char>>::empty());
    }
}

/// What `split_preamble` returns, stated directly: with `n` the number of
/// leading lines that are blank or start (after indentation) with `//!` or
/// `#!`, the preamble is those `n` lines and the rest every line after them,
/// each followed by a newline, so that the two together are the source's
/// lines; unless those `n` lines are all blank, in which case the preamble is
/// empty and the rest is the source untouched.
pub proof fn lemma_split_preamble_characterized(source: Seq<char>)
    ensures
        ({
            let ls = lines(source);
            let n = leading_preamble(ls) as int;
            let p = unlines(ls.take(n));
            &&& forall|i: int| 0 <= i < n ==> preamble_line(#[trigger] ls[i])
            &&& n == ls.len() || !preamble_line(ls[n])
            &&& p + unlines(ls.skip(n)) == unlines(ls)
            &&& spec_split_preamble(source) == if trim(p).len() == 0 {
                (Seq::<char>::empty(), source)
            } else {
                (p, unlines(ls.skip(n)))
            }
        }),
{
    let ls = lines(source);
    lemma_leading_preamble(ls);
    let n = leading_preamble(ls) as int;
    lemma_preamble_scan(ls, n);
    lemma_unlines_concat(ls.take(n), ls.skip(n));
    assert(ls.take(n) + ls.skip(n) =~= ls);
}

/// Whether `trimmed` starts with one of the language's import prefixes.
fn is_import(trimmed: &Vec<char>, lang: Language) -> (b: bool)
    ensures
        b == starts_with_any(trimmed@, import_prefixes_of(lang)),
{
    // Only top-level imports are hoisted: an indented `import` inside a
    // function or a conditional block is control flow, and moving it would
    // change behaviour.
    any_prefix(trimmed, lang.import_prefixes())
}

fn contains_line(ls: &Vec<Vec<char>>, l: &Vec<char>) -> (b: bool)
    ensures
        b == views(ls@).contains(l@),
{
    let mut i: usize = 0;
    while i < ls.len()
        invariant
            i <= ls.len(),
            forall|j: int| 0 <= j < i ==> views(ls@)[j] != l@,
        decreases ls.len() - i,
    {
        if eq_chars(&ls[i], l) {
            assert(views(ls@)[i as int] == l@);
            return true;
        }
        i = i + 1;
    }
    false
}

fn is_top_level(line: &Vec<char>) -> (b: bool)
    ensures
        b == top_level(line@),
{
    proof {
        reveal_strlit(" ");
        reveal_strlit("\t");
    }
    let b = !(line.len() > 0 && (line[0] == ' ' || line[0] == '\t'));
    proof {
        assert(" "@ =~= seq![' ']);
        assert("\t"@ =~= seq!['\t']);
        if line@.len() > 0 {
            assert(line@.take(1) =~= seq![line@[0]]);
            if line@[0] == ' ' {
                assert(line@.take(1) =~= " "@);
            } else {
                assert(line@.take(1)[0] != " "@[0]);
            }
            if line@[0] == '\t' {
                assert(line@.take(1) =~= "\t"@);
            } else {
                assert(line@.take(1)[0] != "\t"@[0]);
            }
        } else {
            assert(!has_prefix(line@, " "@));
            assert(!has_prefix(line@, "\t"@));
        }
    }
    b
}

/// `split` over characters.
pub fn split_chars(source: &Vec<char>, lang: Language) -> (r: (Vec<Vec<char>>, Vec<char>))
    ensures
        views(r.0@) == spec_split(source@, lang).0,
        r.1@ == spec_split(source@, lang).1,
{
    if lang.import_prefixes().len() == 0 {
        return (Vec::new(), copy_chars(source));
    }
    let ls = split_lines(source);
    let ghost gls = views(ls@);
    let mut imports: Vec<Vec<char>> = Vec::new();
    let mut body: Vec<char> = Vec::new();
    let mut i: usize = 0;
    while i < ls.len()
        invariant
            i <= ls.len(),
            gls == views(ls@),
            gls == lines(source@),
            (views(imports@), body@) == split_scan(lang, gls.take(i as int)),
        decreases ls.len() - i,
    {
        proof {
            assert(gls.take(i + 1).drop_last() == gls.take(i as int));
            assert(gls[i as int] == ls@[i as int]@);
        }
        let line = &ls[i];
        // Indentation distinguishes a top-level import from a scoped one.
        let top = is_top_level(line);
        let trimmed = trim_of(line);
        if top && is_import(&trimmed, lang) {
            if !contains_line(&imports, &trimmed) {
                let ghost before = imports@;
                imports.push(trimmed);
                assert(views(imports@) =~= views(before).push(trim(line@)));
            }
        } else {
            emit_line(&mut body, line);
        }
        i = i + 1;
    }
    proof {
        assert(gls.take(ls.len() as int) == gls);
    }
    (imports, body)
}

fn strings_of(ls: &Vec<Vec<char>>) -> (r: Vec<String>)
    ensures
        string_views(r@) == views(ls@),
{
    let mut r: Vec<String> = Vec::new();
    let mut i: usize = 0;
    while i < ls.len()
        invariant
            i <= ls.len(),
            r@.len() == i,
            string_views(r@) == views(ls@).take(i as int),
        decreases ls.len() - i,
    {
        let s = string_of(&ls[i]);
        let ghost before = r@;
        r.push(s);
        assert forall|j: int| 0 <= j < i + 1 implies #[trigger] string_views(r@)[j] == views(
            ls@,
        )[j] by {
            if j < i {
                assert(r@[j] == before[j]);
                assert(string_views(before)[j] == views(ls@).take(i as int)[j]);
            }
        }
        assert(string_views(r@) =~= views(ls@).take(i + 1));
        i = i + 1;
    }
    assert(views(ls@).take(ls.len() as int) == views(ls@));
    r
}

/// Extract top-level import lines, preserving first-seen order and dropping
/// exact duplicates.
pub fn split(source: &str, lang: Language) -> (r: Split)
    ensures
        string_views(r.imports@) == spec_split(source@, lang).0,
        r.body@ == spec_split(source@, lang).1,
        string_views(r.imports@).no_duplicates(),
        forall|i: int|
            0 <= i < r.imports@.len() ==> starts_with_any(
                #[trigger] string_views(r.imports@)[i],
                import_prefixes_of(lang),
            ),
{
    let chars = chars_of(source);
    let (imports, body) = split_chars(&chars, lang);
    proof {
        lemma_split_scan_imports(lang, lines(source@));
    }
    Split { imports: strings_of(&imports), body: string_of(&body) }
}

fn is_preamble_line(line: &Vec<char>) -> (b: bool)
    ensures
        b == preamble_line(line@),
{
    let t = trim_start_of(line);
    let a = chars_of("//!");
    let b = chars_of("#![");
    let c = chars_of("#!");
    crate::text::starts_with(&t, &a) || crate::text::starts_with(&t, &b) || crate::text::starts_with(
        &t,
        &c,
    ) || t.len() == 0
}

/// `split_preamble` over characters.
pub fn split_preamble_chars(source: &Vec<char>) -> (r: (Vec<char>, Vec<char>))
    ensures
        r.0@ == spec_split_preamble(source@).0,
        r.1@ == spec_split_preamble(source@).1,
{
    let ls = split_lines(source);
    let ghost gls = views(ls@);
    let mut preamble: Vec<char> = Vec::new();
    let mut rest: Vec<char> = Vec::new();
    let mut still_preamble = true;
    let mut i: usize = 0;
    while i < ls.len()
        invariant
            i <= ls.len(),
            gls == views(ls@),
            gls == lines(source@),
            (preamble@, rest@, still_preamble) == preamble_scan(gls.take(i as int)),
        decreases ls.len() - i,
    {
        proof {
            assert(gls.take(i + 1).drop_last() == gls.take(i as int));
            assert(gls[i as int] == ls@[i as int]@);
        }
        let line = &ls[i];
        if still_preamble && is_preamble_line(line) {
            emit_line(&mut preamble, line);
            i = i + 1;
            continue;
        }
        still_preamble = false;
        emit_line(&mut rest, line);
        i = i + 1;
    }
    proof {
        assert(gls.take(ls.len() as int) == gls);
    }
    // A preamble of nothing but blank lines is not a preamble.
    let t = trim_of(&preamble);
    if t.len() == 0 {
        return (Vec::new(), copy_chars(source));
    }
    (preamble, rest)
}

/// Split off the file preamble: everything that must stay *above* the imports.
///
/// Hoisting imports to the very top would push a module-level doc comment
/// (`//!`) or inner attribute (`#![...]`) below them, and both are only legal
/// at the top of a file.
///
/// Returns `(preamble, rest)`.
pub fn split_preamble(source: &str) -> (r: (String, String))
    ensures
        r.0@ == spec_split_preamble(source@).0,
        r.1@ == spec_split_preamble(source@).1,
{
    let chars = chars_of(source);
    let (preamble, rest) = split_preamble_chars(&chars);
    (string_of(&preamble), string_of(&rest))
}

/// `render` over characters.
pub fn render_chars(imports: &Vec<Vec<char>>) -> (r: Vec<char>)
    ensures
        r@ == spec_render(views(imports@)),
{
    if imports.len() == 0 {
        return Vec::new();
    }
    let mut out: Vec<char> = Vec::new();
    let mut i: usize = 0;
    while i < imports.len()
        invariant
            i <= imports.len(),
            out@ == unlines(views(imports@).take(i as int)),
        decreases imports.len() - i,
    {
        proof {
            assert(views(imports@).take(i + 1).drop_last() == views(imports@).take(i as int));
            assert(views(imports@)[i as int] == imports@[i as int]@);
        }
        emit_line(&mut out, &imports[i]);
        i = i + 1;
    }
    assert(views(imports@).take(imports.len() as int) == views(imports@));
    out.push('\n');
    out
}

/// Render hoisted imports as a compact block, or an empty string if there are none.
pub fn render(imports: &[String]) -> (r: String)
    ensures
        r@ == spec_render(string_views(imports@)),
{
    let mut owned: Vec<Vec<char>> = Vec::new();
    let mut i: usize = 0;
    while i < imports.len()
        invariant
            i <= imports.len(),
            owned@.len() == i,
            views(owned@) == string_views(imports@).take(i as int),
        decreases imports.len() - i,
    {
        let c = chars_of(imports[i].as_str());
        let ghost before = owned@;
        owned.push(c);
        assert forall|j: int| 0 <= j < i + 1 implies #[trigger] views(owned@)[j] == string_views(
            imports@,
        )[j] by {
            if j < i {
                assert(owned@[j] == before[j]);
                assert(views(before)[j] == string_views(imports@).take(i as int)[j]);
            }
        }
        assert(views(owned@) =~= string_views(imports@).take(i + 1));
        i = i + 1;
    }
    assert(string_views(imports@).take(imports.len() as int) == string_views(imports@));
    let out = render_chars(&owned);
    string_of(&out)
}

} // verus!
