//! Character-level text primitives shared by every pass.
//!
//! Text is modelled as `Seq<char>`, the view Verus gives `&str` and `String`.
//! The passes work on `Vec<char>` and convert at their public edges.

use vstd::prelude::*;
use vstd::std_specs::iter::IteratorSpec;

verus! {

broadcast use vstd::seq_lib::group_seq_properties;

// ---------------------------------------------------------------------------
// Whitespace
// ---------------------------------------------------------------------------

/// Characters with the Unicode `White_Space` property, which is what
/// `char::is_whitespace` (and so `str::trim`) tests for.
pub open spec fn is_ws(c: char) -> bool {
    let u = c as u32;
    ||| 0x09 <= u <= 0x0D
    ||| u == 0x20
    ||| u == 0x85
    ||| u == 0xA0
    ||| u == 0x1680
    ||| 0x2000 <= u <= 0x200A
    ||| u == 0x2028
    ||| u == 0x2029
    ||| u == 0x202F
    ||| u == 0x205F
    ||| u == 0x3000
}

pub fn is_whitespace(c: char) -> (b: bool)
    ensures
        b == is_ws(c),
{
    let u = c as u32;
    (0x09 <= u && u <= 0x0D) || u == 0x20 || u == 0x85 || u == 0xA0 || u == 0x1680 || (0x2000
        <= u && u <= 0x200A) || u == 0x2028 || u == 0x2029 || u == 0x202F || u == 0x205F || u
        == 0x3000
}

/// Number of whitespace characters at the start of `s`.
pub open spec fn leading_ws(s: Seq<char>) -> nat
    decreases s.len(),
{
    if s.len() > 0 && is_ws(s[0]) {
        1 + leading_ws(s.drop_first())
    } else {
        0
    }
}

/// Number of whitespace characters at the end of `s`.
pub open spec fn trailing_ws(s: Seq<char>) -> nat
    decreases s.len(),
{
    if s.len() > 0 && is_ws(s.last()) {
        1 + trailing_ws(s.drop_last())
    } else {
        0
    }
}

/// `str::trim_start`.
pub open spec fn trim_start(s: Seq<char>) -> Seq<char> {
    s.skip(leading_ws(s) as int)
}

/// `str::trim_end`.
pub open spec fn trim_end(s: Seq<char>) -> Seq<char> {
    s.take(s.len() - trailing_ws(s))
}

/// `str::trim`.
pub open spec fn trim(s: Seq<char>) -> Seq<char> {
    trim_end(trim_start(s))
}

pub proof fn lemma_leading_ws_bound(s: Seq<char>)
    ensures
        leading_ws(s) <= s.len(),
        forall|j: int| 0 <= j < leading_ws(s) ==> is_ws(#[trigger] s[j]),
        leading_ws(s) < s.len() ==> !is_ws(s[leading_ws(s) as int]),
    decreases s.len(),
{
    if s.len() > 0 && is_ws(s[0]) {
        lemma_leading_ws_bound(s.drop_first());
        assert forall|j: int| 0 <= j < leading_ws(s) implies is_ws(#[trigger] s[j]) by {
            if j > 0 {
                assert(s[j] == s.drop_first()[j - 1]);
            }
        }
    }
}

pub proof fn lemma_leading_ws_at(s: Seq<char>, i: int)
    requires
        0 <= i <= s.len(),
        forall|j: int| 0 <= j < i ==> is_ws(#[trigger] s[j]),
        i == s.len() || !is_ws(s[i]),
    ensures
        leading_ws(s) == i,
    decreases i,
{
    if i > 0 {
        assert(is_ws(s[0]));
        assert forall|j: int| 0 <= j < i - 1 implies is_ws(#[trigger] s.drop_first()[j]) by {
            assert(s.drop_first()[j] == s[j + 1]);
        }
        lemma_leading_ws_at(s.drop_first(), i - 1);
    }
}

pub proof fn lemma_trailing_ws_bound(s: Seq<char>)
    ensures
        trailing_ws(s) <= s.len(),
        forall|j: int| s.len() - trailing_ws(s) <= j < s.len() ==> is_ws(#[trigger] s[j]),
        trailing_ws(s) < s.len() ==> !is_ws(s[s.len() - trailing_ws(s) - 1]),
    decreases s.len(),
{
    if s.len() > 0 && is_ws(s.last()) {
        lemma_trailing_ws_bound(s.drop_last());
        assert forall|j: int| s.len() - trailing_ws(s) <= j < s.len() implies is_ws(
            #[trigger] s[j],
        ) by {
            if j < s.len() - 1 {
                assert(s[j] == s.drop_last()[j]);
            }
        }
        if trailing_ws(s) < s.len() {
            assert(s[s.len() - trailing_ws(s) - 1] == s.drop_last()[s.drop_last().len()
                - trailing_ws(s.drop_last()) - 1]);
        }
    }
}

pub proof fn lemma_trailing_ws_at(s: Seq<char>, k: int)
    requires
        0 <= k <= s.len(),
        forall|j: int| s.len() - k <= j < s.len() ==> is_ws(#[trigger] s[j]),
        k == s.len() || !is_ws(s[s.len() - k - 1]),
    ensures
        trailing_ws(s) == k,
    decreases k,
{
    if k > 0 {
        assert(is_ws(s[s.len() - 1]));
        assert forall|j: int| s.drop_last().len() - (k - 1) <= j < s.drop_last().len() implies is_ws(
            #[trigger] s.drop_last()[j],
        ) by {
            assert(s.drop_last()[j] == s[j]);
        }
        if k - 1 < s.drop_last().len() {
            assert(s.drop_last()[s.drop_last().len() - (k - 1) - 1] == s[s.len() - k - 1]);
        }
        lemma_trailing_ws_at(s.drop_last(), k - 1);
    }
}

pub fn leading_ws_count(s: &Vec<char>) -> (n: usize)
    ensures
        n == leading_ws(s@),
{
    let mut i: usize = 0;
    while i < s.len() && is_whitespace(s[i])
        invariant
            i <= s.len(),
            forall|j: int| 0 <= j < i ==> is_ws(#[trigger] s@[j]),
        decreases s.len() - i,
    {
        i = i + 1;
    }
    proof {
        lemma_leading_ws_at(s@, i as int);
    }
    i
}

pub fn trailing_ws_count(s: &Vec<char>) -> (n: usize)
    ensures
        n == trailing_ws(s@),
{
    let mut k: usize = 0;
    while k < s.len() && is_whitespace(s[s.len() - 1 - k])
        invariant
            k <= s.len(),
            forall|j: int| s.len() - k <= j < s.len() ==> is_ws(#[trigger] s@[j]),
        decreases s.len() - k,
    {
        k = k + 1;
    }
    proof {
        lemma_trailing_ws_at(s@, k as int);
    }
    k
}

/// `s[lo..hi]` as a new vector.
pub fn slice_of(s: &Vec<char>, lo: usize, hi: usize) -> (r: Vec<char>)
    requires
        lo <= hi <= s.len(),
    ensures
        r@ == s@.subrange(lo as int, hi as int),
{
    let mut r: Vec<char> = Vec::new();
    let mut i = lo;
    while i < hi
        invariant
            lo <= i <= hi <= s.len(),
            r@ == s@.subrange(lo as int, i as int),
        decreases hi - i,
    {
        r.push(s[i]);
        i = i + 1;
    }
    r
}

pub fn trim_start_of(s: &Vec<char>) -> (r: Vec<char>)
    ensures
        r@ == trim_start(s@),
{
    let n = leading_ws_count(s);
    proof {
        lemma_leading_ws_bound(s@);
    }
    slice_of(s, n, s.len())
}

pub fn trim_end_of(s: &Vec<char>) -> (r: Vec<char>)
    ensures
        r@ == trim_end(s@),
{
    let k = trailing_ws_count(s);
    proof {
        lemma_trailing_ws_bound(s@);
    }
    slice_of(s, 0, s.len() - k)
}

pub fn trim_of(s: &Vec<char>) -> (r: Vec<char>)
    ensures
        r@ == trim(s@),
{
    let t = trim_start_of(s);
    trim_end_of(&t)
}

// ---------------------------------------------------------------------------
// Prefixes, substrings, equality
// ---------------------------------------------------------------------------

/// `str::starts_with` with a string pattern.
pub open spec fn has_prefix(s: Seq<char>, p: Seq<char>) -> bool {
    p.len() <= s.len() && s.take(p.len() as int) == p
}

/// `str::ends_with` with a string pattern.
pub open spec fn has_suffix(s: Seq<char>, p: Seq<char>) -> bool {
    p.len() <= s.len() && s.skip(s.len() - p.len()) == p
}

/// `p` occurs in `s` starting at `i`.
pub open spec fn occurs_at(s: Seq<char>, p: Seq<char>, i: int) -> bool {
    0 <= i && i + p.len() <= s.len() && s.subrange(i, i + p.len()) == p
}

/// `str::contains` with a string pattern.
pub open spec fn contains_seq(s: Seq<char>, p: Seq<char>) -> bool {
    exists|i: int| occurs_at(s, p, i)
}

pub fn starts_with(s: &Vec<char>, p: &Vec<char>) -> (b: bool)
    ensures
        b == has_prefix(s@, p@),
{
    if p.len() > s.len() {
        return false;
    }
    let mut i: usize = 0;
    while i < p.len()
        invariant
            p.len() <= s.len(),
            i <= p.len(),
            forall|j: int| 0 <= j < i ==> s@[j] == p@[j],
        decreases p.len() - i,
    {
        if s[i] != p[i] {
            assert(s@.take(p.len() as int)[i as int] != p@[i as int]);
            return false;
        }
        i = i + 1;
    }
    assert(s@.take(p.len() as int) =~= p@);
    true
}

/// Whether `p` occurs in `s` at position `i`.
pub fn matches_at(s: &Vec<char>, p: &Vec<char>, i: usize) -> (b: bool)
    ensures
        b == occurs_at(s@, p@, i as int),
{
    if i > s.len() || p.len() > s.len() - i {
        return false;
    }
    let mut j: usize = 0;
    while j < p.len()
        invariant
            i + p.len() <= s.len(),
            j <= p.len(),
            forall|k: int| 0 <= k < j ==> s@[i + k] == p@[k],
        decreases p.len() - j,
    {
        if s[i + j] != p[j] {
            assert(s@.subrange(i as int, i + p.len())[j as int] != p@[j as int]);
            return false;
        }
        j = j + 1;
    }
    assert(s@.subrange(i as int, i + p.len()) =~= p@);
    true
}

/// Index of the first occurrence of `p` in `s`, if any.
pub open spec fn first_occurrence(s: Seq<char>, p: Seq<char>) -> Option<int> {
    if contains_seq(s, p) {
        Some(choose|i: int| occurs_at(s, p, i) && forall|j: int| 0 <= j < i ==> !occurs_at(s, p, j))
    } else {
        None
    }
}

pub proof fn lemma_first_occurrence(s: Seq<char>, p: Seq<char>, i: int)
    requires
        occurs_at(s, p, i),
        forall|j: int| 0 <= j < i ==> !occurs_at(s, p, j),
    ensures
        first_occurrence(s, p) == Some(i),
{
    let w = choose|k: int| occurs_at(s, p, k) && forall|j: int| 0 <= j < k ==> !occurs_at(s, p, j);
    assert(occurs_at(s, p, w) && forall|j: int| 0 <= j < w ==> !occurs_at(s, p, j));
    if w < i {
        assert(!occurs_at(s, p, w));
    } else if w > i {
        assert(!occurs_at(s, p, i));
    }
}

pub fn find(s: &Vec<char>, p: &Vec<char>) -> (r: Option<usize>)
    ensures
        r is Some <==> contains_seq(s@, p@),
        r matches Some(i) ==> occurs_at(s@, p@, i as int) && forall|j: int|
            0 <= j < i ==> !occurs_at(s@, p@, j),
        r matches Some(i) ==> first_occurrence(s@, p@) == Some(i as int),
{
    let mut i: usize = 0;
    while i < s.len()
        invariant
            i <= s.len(),
            forall|j: int| 0 <= j < i ==> !occurs_at(s@, p@, j),
        decreases s.len() - i,
    {
        if matches_at(s, p, i) {
            proof {
                lemma_first_occurrence(s@, p@, i as int);
            }
            return Some(i);
        }
        i = i + 1;
    }
    if matches_at(s, p, i) {
        proof {
            lemma_first_occurrence(s@, p@, i as int);
        }
        return Some(i);
    }
    assert forall|j: int| !occurs_at(s@, p@, j) by {
        if 0 <= j < i {
        }
    }
    None
}

pub fn contains(s: &Vec<char>, p: &Vec<char>) -> (b: bool)
    ensures
        b == contains_seq(s@, p@),
{
    find(s, p).is_some()
}

pub fn eq_chars(a: &Vec<char>, b: &Vec<char>) -> (r: bool)
    ensures
        r == (a@ == b@),
{
    if a.len() != b.len() {
        return false;
    }
    let r = starts_with(a, b);
    proof {
        if r {
            assert(a@.take(b.len() as int) =~= a@);
        }
    }
    r
}

// ---------------------------------------------------------------------------
// Conversion at the public edges
// ---------------------------------------------------------------------------

pub fn chars_of(s: &str) -> (v: Vec<char>)
    ensures
        v@ == s@,
{
    broadcast use vstd::string::group_string_axioms;

    let mut v: Vec<char> = Vec::new();
    for c in it: s.chars()
        invariant
            v@ == it.seq().take(it.index() as int),
            it.seq() == s@,
    {
        v.push(c);
    }
    v
}

/// `String::push`.
#[verifier::external_body]
fn string_push(s: &mut String, c: char)
    ensures
        final(s)@ == old(s)@.push(c),
{
    s.push(c);
}

pub fn string_of(v: &Vec<char>) -> (s: String)
    ensures
        s@ == v@,
{
    let mut s = String::new();
    for i in 0..v.len()
        invariant
            s@ == v@.take(i as int),
    {
        string_push(&mut s, v[i]);
        assert(v@.take(i + 1) == v@.take(i as int).push(v@[i as int]));
    }
    assert(v@.take(v.len() as int) == v@);
    s
}

/// Appends `src` to `dst`.
pub fn append_chars(dst: &mut Vec<char>, src: &Vec<char>)
    ensures
        final(dst)@ == old(dst)@ + src@,
{
    let ghost start = dst@;
    for i in 0..src.len()
        invariant
            dst@ == start + src@.take(i as int),
    {
        dst.push(src[i]);
        assert(src@.take(i + 1) == src@.take(i as int).push(src@[i as int]));
    }
    assert(src@.take(src.len() as int) == src@);
}

/// Appends the characters of `s` to `dst`.
pub fn append_str(dst: &mut Vec<char>, s: &str)
    ensures
        final(dst)@ == old(dst)@ + s@,
{
    let c = chars_of(s);
    append_chars(dst, &c);
}

pub fn copy_chars(src: &Vec<char>) -> (r: Vec<char>)
    ensures
        r@ == src@,
{
    let mut r: Vec<char> = Vec::new();
    append_chars(&mut r, src);
    r
}

// ---------------------------------------------------------------------------
// Lines
// ---------------------------------------------------------------------------

/// Pieces of `s` between `'\n'` characters, like `str::split('\n')`: always
/// at least one piece, the last one possibly empty.
pub open spec fn split_nl(s: Seq<char>) -> Seq<Seq<char>>
    decreases s.len(),
{
    if s.len() == 0 {
        seq![Seq::<char>::empty()]
    } else {
        let rest = split_nl(s.drop_last());
        if s.last() == '\n' {
            rest.push(Seq::<char>::empty())
        } else {
            rest.update(rest.len() - 1, rest.last().push(s.last()))
        }
    }
}

/// Drops one trailing `'\r'`.
pub open spec fn strip_cr(l: Seq<char>) -> Seq<char> {
    if l.len() > 0 && l.last() == '\r' {
        l.drop_last()
    } else {
        l
    }
}

/// `str::lines`: split at `"\n"` or `"\r\n"`; the final line ending is
/// optional, and a final unterminated piece keeps any `'\r'` it ends with.
pub open spec fn lines(s: Seq<char>) -> Seq<Seq<char>> {
    let p = split_nl(s);
    let done = p.drop_last().map_values(|l: Seq<char>| strip_cr(l));
    if p.last().len() == 0 {
        done
    } else {
        done.push(p.last())
    }
}

/// Every character of `s` is whitespace.
pub open spec fn all_ws(s: Seq<char>) -> bool {
    forall|j: int| 0 <= j < s.len() ==> is_ws(#[trigger] s[j])
}

/// A text trims to nothing exactly when it is all whitespace.
pub proof fn lemma_trim_empty(s: Seq<char>)
    ensures
        (trim(s).len() == 0) == all_ws(s),
        (trim_end(s).len() == 0) == all_ws(s),
{
    lemma_leading_ws_bound(s);
    lemma_trailing_ws_bound(s);
    let a = trim_start(s);
    lemma_trailing_ws_bound(a);
    if all_ws(s) {
        lemma_leading_ws_at(s, s.len() as int);
        lemma_trailing_ws_at(s, s.len() as int);
    }
    if trim(s).len() == 0 {
        assert forall|j: int| 0 <= j < s.len() implies is_ws(#[trigger] s[j]) by {
            if j >= leading_ws(s) {
                assert(s[j] == a[j - leading_ws(s)]);
            }
        }
    }
}

/// Lines of an all-whitespace text are all whitespace, and a text whose
/// lines are all whitespace is all whitespace.
pub proof fn lemma_lines_all_ws(s: Seq<char>)
    ensures
        all_ws(s) == (forall|i: int| 0 <= i < lines(s).len() ==> all_ws(#[trigger] lines(s)[i])),
{
    lemma_split_nl_all_ws(s);
    lemma_split_nl_len(s);
    let p = split_nl(s);
    let ls = lines(s);
    if all_ws(s) {
        assert forall|i: int| 0 <= i < ls.len() implies all_ws(#[trigger] ls[i]) by {
            assert(all_ws(p[i]));
            if i < p.len() - 1 {
                assert(ls[i] == strip_cr(p[i]));
                assert forall|j: int| 0 <= j < ls[i].len() implies is_ws(#[trigger] ls[i][j]) by {
                    assert(ls[i][j] == p[i][j]);
                }
            } else {
                assert(ls[i] == p[i]);
            }
        }
    }
    if forall|i: int| 0 <= i < ls.len() ==> all_ws(#[trigger] ls[i]) {
        assert forall|k: int| 0 <= k < p.len() implies all_ws(#[trigger] p[k]) by {
            if k < p.len() - 1 {
                assert(ls[k] == strip_cr(p[k]));
                assert(all_ws(ls[k]));
                assert forall|j: int| 0 <= j < p[k].len() implies is_ws(#[trigger] p[k][j]) by {
                    if j < ls[k].len() {
                        assert(ls[k][j] == p[k][j]);
                    } else {
                        assert(p[k][j] == '\r');
                    }
                }
            } else if p.last().len() > 0 {
                assert(ls[ls.len() - 1] == p.last());
            }
        }
    }
}

/// A text is all whitespace exactly when each of its `'\n'`-separated pieces is.
proof fn lemma_split_nl_all_ws(s: Seq<char>)
    ensures
        all_ws(s) == (forall|k: int| 0 <= k < split_nl(s).len() ==> all_ws(#[trigger] split_nl(s)[k])),
    decreases s.len(),
{
    lemma_split_nl_len(s);
    if s.len() > 0 {
        let q = s.drop_last();
        lemma_split_nl_all_ws(q);
        lemma_split_nl_len(q);
        let rest = split_nl(q);
        let p = split_nl(s);
        let c = s.last();
        if all_ws(s) {
            assert(all_ws(q)) by {
                assert forall|j: int| 0 <= j < q.len() implies is_ws(#[trigger] q[j]) by {
                    assert(q[j] == s[j]);
                }
            }
            assert(is_ws(s[s.len() - 1]));
            assert forall|k: int| 0 <= k < p.len() implies all_ws(#[trigger] p[k]) by {
                if c == '\n' {
                    if k < rest.len() {
                        assert(p[k] == rest[k]);
                    }
                } else if k < rest.len() - 1 {
                    assert(p[k] == rest[k]);
                } else {
                    assert(p[k] == rest.last().push(c));
                    assert(all_ws(rest[rest.len() - 1]));
                    assert forall|j: int| 0 <= j < p[k].len() implies is_ws(#[trigger] p[k][j]) by {
                        if j < rest.last().len() {
                            assert(p[k][j] == rest.last()[j]);
                        }
                    }
                }
            }
        }
        if forall|k: int| 0 <= k < p.len() ==> all_ws(#[trigger] p[k]) {
            assert forall|k: int| 0 <= k < rest.len() implies all_ws(#[trigger] rest[k]) by {
                if c == '\n' {
                    assert(p[k] == rest[k]);
                } else if k < rest.len() - 1 {
                    assert(p[k] == rest[k]);
                } else {
                    let last = p[k];
                    assert(last == rest.last().push(c));
                    assert(all_ws(last));
                    assert forall|j: int| 0 <= j < rest[k].len() implies is_ws(#[trigger] rest[k][j]) by {
                        assert(last[j] == rest[k][j]);
                    }
                }
            }
            assert(all_ws(q));
            if c != '\n' {
                let last = p[p.len() - 1];
                assert(last == rest.last().push(c));
                assert(all_ws(last));
                assert(last[last.len() - 1] == c);
            }
            assert forall|j: int| 0 <= j < s.len() implies is_ws(#[trigger] s[j]) by {
                if j < q.len() {
                    assert(s[j] == q[j]);
                }
            }
        }
    }
}

/// Each line followed by `'\n'`, concatenated: what pushing a line and then a
/// newline, line after line, builds.
pub open spec fn unlines(ls: Seq<Seq<char>>) -> Seq<char>
    decreases ls.len(),
{
    if ls.len() == 0 {
        Seq::<char>::empty()
    } else {
        unlines(ls.drop_last()) + ls.last().push('\n')
    }
}

/// The views of a vector of character vectors.
pub open spec fn views(v: Seq<Vec<char>>) -> Seq<Seq<char>> {
    v.map_values(|x: Vec<char>| x@)
}

pub proof fn lemma_split_nl_len(s: Seq<char>)
    ensures
        split_nl(s).len() >= 1,
    decreases s.len(),
{
    if s.len() > 0 {
        lemma_split_nl_len(s.drop_last());
    }
}

pub proof fn lemma_split_nl_no_newline(s: Seq<char>)
    ensures
        forall|k: int, j: int|
            0 <= k < split_nl(s).len() && 0 <= j < split_nl(s)[k].len() ==> #[trigger] split_nl(
                s,
            )[k][j] != '\n',
    decreases s.len(),
{
    lemma_split_nl_len(s);
    if s.len() > 0 {
        lemma_split_nl_no_newline(s.drop_last());
        lemma_split_nl_len(s.drop_last());
        let rest = split_nl(s.drop_last());
        if s.last() != '\n' {
            assert forall|k: int, j: int|
                0 <= k < split_nl(s).len() && 0 <= j < split_nl(s)[k].len() implies #[trigger] split_nl(
                s,
            )[k][j] != '\n' by {
                if k == rest.len() - 1 {
                    if j < rest.last().len() {
                        assert(split_nl(s)[k][j] == rest[k][j]);
                    }
                } else {
                    assert(split_nl(s)[k] == rest[k]);
                }
            }
        } else {
            assert forall|k: int, j: int|
                0 <= k < split_nl(s).len() && 0 <= j < split_nl(s)[k].len() implies #[trigger] split_nl(
                s,
            )[k][j] != '\n' by {
                if k < rest.len() {
                    assert(split_nl(s)[k] == rest[k]);
                }
            }
        }
    }
}

/// No line contains a newline.
pub proof fn lemma_lines_no_newline(s: Seq<char>)
    ensures
        forall|k: int, j: int|
            0 <= k < lines(s).len() && 0 <= j < lines(s)[k].len() ==> #[trigger] lines(s)[k][j]
                != '\n',
{
    lemma_split_nl_no_newline(s);
    lemma_split_nl_len(s);
    let p = split_nl(s);
    assert forall|k: int, j: int|
        0 <= k < lines(s).len() && 0 <= j < lines(s)[k].len() implies #[trigger] lines(s)[k][j]
            != '\n' by {
        if k < p.len() - 1 {
            assert(lines(s)[k] == strip_cr(p[k]));
            assert(lines(s)[k][j] == p[k][j]);
        } else {
            assert(lines(s)[k] == p[k]);
        }
    }
}

pub fn split_lines(s: &Vec<char>) -> (r: Vec<Vec<char>>)
    ensures
        views(r@) == lines(s@),
{
    let mut done: Vec<Vec<char>> = Vec::new();
    let mut cur: Vec<char> = Vec::new();
    let mut i: usize = 0;
    while i < s.len()
        invariant
            i <= s.len(),
            views(done@).push(cur@) == split_nl(s@.take(i as int)),
        decreases s.len() - i,
    {
        let c = s[i];
        proof {
            assert(s@.take(i + 1).drop_last() == s@.take(i as int));
            lemma_split_nl_len(s@.take(i as int));
        }
        if c == '\n' {
            let line = cur;
            done.push(line);
            cur = Vec::new();
            assert(views(done@).push(cur@) =~= split_nl(s@.take(i + 1)));
        } else {
            cur.push(c);
            assert(views(done@).push(cur@) =~= split_nl(s@.take(i + 1)));
        }
        i = i + 1;
    }
    assert(s@.take(s.len() as int) == s@);
    // Final shaping: strip '\r' from terminated pieces, drop an empty tail.
    let mut out: Vec<Vec<char>> = Vec::new();
    let mut k: usize = 0;
    while k < done.len()
        invariant
            k <= done.len(),
            out@.len() == k,
            views(out@) == views(done@).take(k as int).map_values(|l: Seq<char>| strip_cr(l)),
        decreases done.len() - k,
    {
        let piece = &done[k];
        let mut line = copy_chars(piece);
        assert(views(done@)[k as int] == piece@);
        let ghost before = line@;
        if line.len() > 0 && line[line.len() - 1] == '\r' {
            line.pop();
        }
        assert(line@ == strip_cr(before));
        let ghost old_out = out@;
        out.push(line);
        assert forall|j: int| 0 <= j < k + 1 implies #[trigger] views(out@)[j] == strip_cr(
            views(done@)[j],
        ) by {
            if j < k {
                assert(out@[j] == old_out[j]);
                assert(views(old_out)[j] == strip_cr(views(done@).take(k as int)[j]));
            }
        }
        assert(views(out@) =~= views(done@).take(k + 1).map_values(|l: Seq<char>| strip_cr(l)));
        k = k + 1;
    }
    proof {
        let p = split_nl(s@);
        assert(p.drop_last() =~= views(done@));
        assert(views(done@).take(done.len() as int) =~= views(done@));
    }
    if cur.len() > 0 {
        out.push(cur);
        assert(views(out@) =~= lines(s@));
    } else {
        assert(views(out@) =~= lines(s@));
    }
    out
}

/// Pieces joined with `'\n'` between them: the inverse of `split_nl`.
pub open spec fn join_nl(p: Seq<Seq<char>>) -> Seq<char>
    decreases p.len(),
{
    if p.len() == 0 {
        Seq::<char>::empty()
    } else if p.len() == 1 {
        p[0]
    } else {
        join_nl(p.drop_last()) + seq!['\n'] + p.last()
    }
}

/// No piece holds a newline.
pub open spec fn no_newlines(p: Seq<Seq<char>>) -> bool {
    forall|k: int, j: int| 0 <= k < p.len() && 0 <= j < p[k].len() ==> #[trigger] p[k][j] != '\n'
}

pub proof fn lemma_split_append_plain(x: Seq<char>, y: Seq<char>)
    requires
        forall|j: int| 0 <= j < y.len() ==> #[trigger] y[j] != '\n',
    ensures
        split_nl(x + y) == split_nl(x).update(
            split_nl(x).len() - 1,
            split_nl(x).last() + y,
        ),
        split_nl(x).len() >= 1,
    decreases y.len(),
{
    lemma_split_nl_len(x);
    if y.len() == 0 {
        assert(x + y =~= x);
        assert(split_nl(x).update(split_nl(x).len() - 1, split_nl(x).last() + y) =~= split_nl(x));
    } else {
        assert((x + y).drop_last() =~= x + y.drop_last());
        assert(y.last() == y[y.len() - 1]);
        lemma_split_append_plain(x, y.drop_last());
        lemma_split_nl_len(x + y.drop_last());
        let sx = split_nl(x);
        let rest = split_nl(x + y.drop_last());
        assert(rest.len() == sx.len());
        assert(rest.last() == sx.last() + y.drop_last());
        assert(split_nl(x + y) == rest.update(rest.len() - 1, rest.last().push(y.last())));
        assert((sx.last() + y.drop_last()).push(y.last()) =~= sx.last() + y);
        assert(split_nl(x + y) =~= split_nl(x).update(
            split_nl(x).len() - 1,
            split_nl(x).last() + y,
        ));
    }
}

pub proof fn lemma_split_join(p: Seq<Seq<char>>)
    requires
        p.len() >= 1,
        no_newlines(p),
    ensures
        split_nl(join_nl(p)) == p,
    decreases p.len(),
{
    if p.len() == 1 {
        assert forall|j: int| 0 <= j < p[0].len() implies #[trigger] p[0][j] != '\n' by {
            assert(p[0][j] != '\n');
        }
        lemma_split_append_plain(Seq::<char>::empty(), p[0]);
        assert(Seq::<char>::empty() + p[0] =~= p[0]);
        assert(split_nl(join_nl(p)) =~= p);
    } else {
        let q = p.drop_last();
        assert(no_newlines(q)) by {
            assert forall|k: int, j: int| 0 <= k < q.len() && 0 <= j < q[k].len() implies #[trigger] q[k][j]
                != '\n' by {
                assert(q[k] == p[k]);
            }
        }
        lemma_split_join(q);
        let x = join_nl(q) + seq!['\n'];
        assert(x.drop_last() =~= join_nl(q));
        assert(split_nl(x) =~= q.push(Seq::<char>::empty()));
        assert forall|j: int| 0 <= j < p.last().len() implies #[trigger] p.last()[j] != '\n' by {
            assert(p[p.len() - 1][j] != '\n');
        }
        lemma_split_append_plain(x, p.last());
        assert(Seq::<char>::empty() + p.last() =~= p.last());
        assert(split_nl(join_nl(p)) =~= p);
    }
}

pub proof fn lemma_unlines_join(k: Seq<Seq<char>>)
    requires
        k.len() >= 1,
    ensures
        unlines(k) == join_nl(k).push('\n'),
    decreases k.len(),
{
    if k.len() == 1 {
        assert(k.drop_last() =~= Seq::<Seq<char>>::empty());
        assert(unlines(k.drop_last()) =~= Seq::<char>::empty());
        assert(k.last() == k[0]);
        assert(unlines(k) =~= join_nl(k).push('\n'));
    } else {
        lemma_unlines_join(k.drop_last());
        assert(unlines(k) =~= join_nl(k).push('\n'));
    }
}

pub proof fn lemma_unlines_concat(a: Seq<Seq<char>>, b: Seq<Seq<char>>)
    ensures
        unlines(a + b) == unlines(a) + unlines(b),
    decreases b.len(),
{
    if b.len() == 0 {
        assert(a + b =~= a);
        assert(unlines(a) + unlines(b) =~= unlines(a));
    } else {
        assert((a + b).drop_last() =~= a + b.drop_last());
        assert((a + b).last() == b.last());
        lemma_unlines_concat(a, b.drop_last());
        assert(unlines(a + b) =~= unlines(a) + unlines(b));
    }
}

/// `x` stands in `t` as a whole line starting at `j`: at the start of `t` or
/// right after a newline, and followed by a newline.
pub open spec fn line_at(t: Seq<char>, j: int, x: Seq<char>) -> bool {
    &&& 0 <= j
    &&& j + x.len() < t.len()
    &&& j == 0 || t[j - 1] == '\n'
    &&& t.subrange(j, j + x.len() as int) == x
    &&& t[j + x.len() as int] == '\n'
}

/// A non-empty `unlines` ends with a newline.
pub proof fn lemma_unlines_ends_in_newline(k: Seq<Seq<char>>)
    requires
        k.len() > 0,
    ensures
        unlines(k).len() > 0,
        unlines(k).last() == '\n',
{
}

/// Each of the lines `unlines` joins stands as a whole line in any text that
/// has the joined lines after a line break.
#[verifier::spinoff_prover]
#[verifier::rlimit(40)]
pub proof fn lemma_unlines_line_at(a: Seq<char>, k: Seq<Seq<char>>, b: Seq<char>, i: int)
    requires
        0 <= i < k.len(),
        a.len() == 0 || a.last() == '\n',
    ensures
        line_at(a + unlines(k) + b, (a.len() + unlines(k.take(i)).len()) as int, k[i]),
{
    let before = k.take(i);
    let after = k.skip(i + 1);
    lemma_unlines_concat(before, seq![k[i]] + after);
    lemma_unlines_concat(seq![k[i]], after);
    assert(before + (seq![k[i]] + after) =~= k);
    let one = seq![k[i]];
    assert(one.drop_last() =~= Seq::<Seq<char>>::empty());
    assert(one.last() == k[i]);
    assert(unlines(Seq::<Seq<char>>::empty()) =~= Seq::<char>::empty());
    assert(unlines(one) == unlines(one.drop_last()) + one.last().push('\n'));
    assert(unlines(one) =~= k[i].push('\n'));
    let t = a + unlines(k) + b;
    let j = (a.len() + unlines(before).len()) as int;
    assert(t =~= a + unlines(before) + k[i].push('\n') + unlines(after) + b);
    assert(t.subrange(j, j + k[i].len() as int) =~= k[i]);
    assert(t[j + k[i].len() as int] == '\n');
    if i > 0 {
        lemma_unlines_ends_in_newline(before);
        assert(t[j - 1] == unlines(before).last());
    } else if a.len() > 0 {
        assert(before =~= Seq::<Seq<char>>::empty());
        assert(t[j - 1] == a.last());
    }
}

/// Splitting what `unlines` built gives back the lines, provided no line holds
/// a newline or ends with a carriage return.
pub proof fn lemma_lines_unlines(k: Seq<Seq<char>>)
    requires
        no_newlines(k),
        forall|i: int| 0 <= i < k.len() && #[trigger] k[i].len() > 0 ==> k[i].last() != '\r',
    ensures
        lines(unlines(k)) == k,
{
    if k.len() == 0 {
        assert(split_nl(Seq::<char>::empty()) =~= seq![Seq::<char>::empty()]);
        assert(lines(unlines(k)) =~= k);
    } else {
        lemma_unlines_join(k);
        lemma_split_join(k);
        let x = join_nl(k).push('\n');
        assert(x.drop_last() =~= join_nl(k));
        assert(split_nl(x) =~= k.push(Seq::<char>::empty()));
        assert forall|i: int| 0 <= i < k.len() implies #[trigger] strip_cr(k[i]) == k[i] by {
        }
        assert(lines(x) =~= k);
    }
}

/// Appends `line` and a newline.
pub fn emit_line(out: &mut Vec<char>, line: &Vec<char>)
    ensures
        final(out)@ == old(out)@ + line@.push('\n'),
{
    append_chars(out, line);
    out.push('\n');
}

/// The UTF-8 length of one character.
pub open spec fn char_width(c: char) -> nat {
    let u = c as u32;
    if u < 0x80 {
        1
    } else if u < 0x800 {
        2
    } else if u < 0x10000 {
        3
    } else {
        4
    }
}

/// The UTF-8 length of `s`, in bytes: what `str::len` returns.
pub open spec fn utf8_len(s: Seq<char>) -> nat
    decreases s.len(),
{
    if s.len() == 0 {
        0
    } else {
        utf8_len(s.drop_last()) + char_width(s.last())
    }
}

pub fn width_of(c: char) -> (w: usize)
    ensures
        w == char_width(c),
{
    let u = c as u32;
    if u < 0x80 {
        1
    } else if u < 0x800 {
        2
    } else if u < 0x10000 {
        3
    } else {
        4
    }
}

pub proof fn lemma_utf8_len_bound(s: Seq<char>)
    ensures
        utf8_len(s) <= 4 * s.len(),
    decreases s.len(),
{
    if s.len() > 0 {
        lemma_utf8_len_bound(s.drop_last());
    }
}

/// The UTF-8 length of `s`, counted wide enough that it cannot overflow.
pub fn byte_len_wide(s: &Vec<char>) -> (n: u128)
    ensures
        n == utf8_len(s@),
{
    let mut n: u128 = 0;
    let mut i: usize = 0;
    while i < s.len()
        invariant
            i <= s.len(),
            n == utf8_len(s@.take(i as int)),
        decreases s.len() - i,
    {
        proof {
            assert(s@.take(i + 1).drop_last() == s@.take(i as int));
            lemma_utf8_len_bound(s@.take(i as int));
            assert(usize::MAX as int <= 0xffff_ffff_ffff_ffff);
        }
        n = n + width_of(s[i]) as u128;
        i = i + 1;
    }
    assert(s@.take(s.len() as int) == s@);
    n
}

/// `utf8_len` agrees with the length of vstd's UTF-8 encoding, which is what
/// `str::len` is specified to return.
pub proof fn lemma_utf8_len_encode(s: Seq<char>)
    ensures
        utf8_len(s) == vstd::utf8::encode_utf8(s).len(),
    decreases s.len(),
{
    if s.len() > 0 {
        vstd::utf8::char_is_scalar(s[0]);
        lemma_utf8_len_concat(seq![s[0]], s.drop_first());
        assert(seq![s[0]] + s.drop_first() =~= s);
        assert(seq![s[0]].drop_last() =~= Seq::<char>::empty());
        assert(utf8_len(Seq::<char>::empty()) == 0);
        assert(seq![s[0]].last() == s[0]);
        assert(utf8_len(seq![s[0]]) == char_width(s[0]));
        lemma_utf8_len_encode(s.drop_first());
        assert(vstd::utf8::encode_utf8(s) == vstd::utf8::encode_scalar(s[0] as u32)
            + vstd::utf8::encode_utf8(s.drop_first()));
    }
}

pub proof fn lemma_utf8_len_concat(a: Seq<char>, b: Seq<char>)
    ensures
        utf8_len(a + b) == utf8_len(a) + utf8_len(b),
    decreases b.len(),
{
    if b.len() == 0 {
        assert(a + b =~= a);
    } else {
        assert((a + b).drop_last() =~= a + b.drop_last());
        lemma_utf8_len_concat(a, b.drop_last());
    }
}

/// Every line is at most as long as the text it came from.
pub proof fn lemma_lines_len(s: Seq<char>)
    ensures
        forall|k: int| 0 <= k < lines(s).len() ==> #[trigger] lines(s)[k].len() <= s.len(),
{
    lemma_split_nl_piece_len(s);
    lemma_split_nl_len(s);
    let p = split_nl(s);
    assert forall|k: int| 0 <= k < lines(s).len() implies #[trigger] lines(s)[k].len() <= s.len() by {
        if k < p.len() - 1 {
            assert(lines(s)[k] == strip_cr(p[k]));
        } else {
            assert(lines(s)[k] == p[k]);
        }
    }
}

proof fn lemma_split_nl_piece_len(s: Seq<char>)
    ensures
        forall|k: int| 0 <= k < split_nl(s).len() ==> #[trigger] split_nl(s)[k].len() <= s.len(),
    decreases s.len(),
{
    lemma_split_nl_len(s);
    if s.len() > 0 {
        lemma_split_nl_piece_len(s.drop_last());
        lemma_split_nl_len(s.drop_last());
        let rest = split_nl(s.drop_last());
        assert forall|k: int| 0 <= k < split_nl(s).len() implies #[trigger] split_nl(s)[k].len()
            <= s.len() by {
            if k < rest.len() {
                assert(rest[k].len() <= s.drop_last().len());
            }
        }
    }
}

/// What `str::len` reports for text `s`: its UTF-8 length, in bytes.
pub open spec fn str_len(s: Seq<char>) -> usize {
    utf8_len(s) as usize
}

/// The byte length of `s`, as `str::len` would report it.
pub fn str_len_of(s: &Vec<char>) -> (n: usize)
    ensures
        n == str_len(s@),
{
    let n = byte_len_wide(s);
    n as usize
}

/// `str::len`, as vstd specifies it, is `str_len` of the characters.
pub proof fn lemma_str_len(s: &str)
    ensures
        s.len() == str_len(s@),
{
    lemma_utf8_len_encode(s@);
}

} // verus!
