//! Path structure over plain text: components, file name, extension, and
//! ASCII case folding, following `std::path::Path` on `/`-separated paths.

use vstd::prelude::*;
use crate::text::{chars_of, copy_chars, eq_chars, slice_of};

verus! {

broadcast use vstd::seq_lib::group_seq_properties;

/// Pieces of `s` between `c` characters, like `str::split(c)`.
pub open spec fn split_char(s: Seq<char>, c: char) -> Seq<Seq<char>>
    decreases s.len(),
{
    if s.len() == 0 {
        seq![Seq::<char>::empty()]
    } else {
        let rest = split_char(s.drop_last(), c);
        if s.last() == c {
            rest.push(Seq::<char>::empty())
        } else {
            rest.update(rest.len() - 1, rest.last().push(s.last()))
        }
    }
}

/// A segment that names something: not empty and not `.`.
pub open spec fn named_segment(seg: Seq<char>) -> bool {
    seg.len() > 0 && seg != seq!['.']
}

/// The named segments among `segs`, in order.
pub open spec fn named_segments(segs: Seq<Seq<char>>) -> Seq<Seq<char>>
    decreases segs.len(),
{
    if segs.len() == 0 {
        Seq::<Seq<char>>::empty()
    } else {
        let r = named_segments(segs.drop_last());
        if named_segment(segs.last()) {
            r.push(segs.last())
        } else {
            r
        }
    }
}

/// The root component of an absolute path.
pub open spec fn root_component() -> Seq<char> {
    seq!['/']
}

/// `Path::components`: the root, if the path is absolute, then each named
/// segment (repeated separators and `.` segments vanish).
pub open spec fn components(p: Seq<char>) -> Seq<Seq<char>> {
    let head = if p.len() > 0 && p[0] == '/' {
        seq![root_component()]
    } else {
        Seq::<Seq<char>>::empty()
    };
    head + named_segments(split_char(p, '/'))
}

/// `Path::file_name`: the last component, unless it is the root or `..`.
pub open spec fn file_name(p: Seq<char>) -> Option<Seq<char>> {
    let cs = components(p);
    if cs.len() == 0 {
        None
    } else if cs.last() == root_component() || cs.last() == seq!['.', '.'] {
        None
    } else {
        Some(cs.last())
    }
}

/// Position of the last `c` in `s`.
pub open spec fn last_index_of(s: Seq<char>, c: char) -> Option<int>
    decreases s.len(),
{
    if s.len() == 0 {
        None
    } else if s.last() == c {
        Some(s.len() - 1)
    } else {
        last_index_of(s.drop_last(), c)
    }
}

/// `Path::extension`: what follows the last `.` of the file name, unless the
/// name has no `.` or its only one leads it.
pub open spec fn extension(p: Seq<char>) -> Option<Seq<char>> {
    match file_name(p) {
        None => None,
        Some(name) => match last_index_of(name, '.') {
            None => None,
            Some(k) => if k == 0 {
                None
            } else {
                Some(name.skip(k + 1))
            },
        },
    }
}

/// `char::to_ascii_lowercase`.
pub open spec fn ascii_lower(c: char) -> char {
    if 'A' <= c <= 'Z' {
        ((c as u32) + 32) as char
    } else {
        c
    }
}

/// `str::to_ascii_lowercase`.
pub open spec fn lower(s: Seq<char>) -> Seq<char> {
    s.map_values(|c: char| ascii_lower(c))
}

/// `str::eq_ignore_ascii_case`.
pub open spec fn eq_ignore_case(a: Seq<char>, b: Seq<char>) -> bool {
    lower(a) == lower(b)
}

pub fn lower_char(c: char) -> (r: char)
    ensures
        r == ascii_lower(c),
{
    if 'A' <= c && c <= 'Z' {
        let u = (c as u32 + 32) as u8;
        u as char
    } else {
        c
    }
}

pub fn lower_of(s: &Vec<char>) -> (r: Vec<char>)
    ensures
        r@ == lower(s@),
{
    let mut r: Vec<char> = Vec::new();
    let mut i: usize = 0;
    while i < s.len()
        invariant
            i <= s.len(),
            r@ == lower(s@.take(i as int)),
        decreases s.len() - i,
    {
        r.push(lower_char(s[i]));
        assert(r@ =~= lower(s@.take(i + 1)));
        i = i + 1;
    }
    assert(s@.take(s.len() as int) == s@);
    r
}

pub fn eq_ignore_ascii_case(a: &Vec<char>, b: &Vec<char>) -> (r: bool)
    ensures
        r == eq_ignore_case(a@, b@),
{
    let la = lower_of(a);
    let lb = lower_of(b);
    eq_chars(&la, &lb)
}

proof fn lemma_split_char_len(s: Seq<char>, c: char)
    ensures
        split_char(s, c).len() >= 1,
    decreases s.len(),
{
    if s.len() > 0 {
        lemma_split_char_len(s.drop_last(), c);
    }
}

fn split_slashes(s: &Vec<char>) -> (r: Vec<Vec<char>>)
    ensures
        r@.map_values(|x: Vec<char>| x@) == split_char(s@, '/'),
{
    let mut done: Vec<Vec<char>> = Vec::new();
    let mut cur: Vec<char> = Vec::new();
    let mut i: usize = 0;
    while i < s.len()
        invariant
            i <= s.len(),
            done@.map_values(|x: Vec<char>| x@).push(cur@) == split_char(s@.take(i as int), '/'),
        decreases s.len() - i,
    {
        let c = s[i];
        proof {
            assert(s@.take(i + 1).drop_last() == s@.take(i as int));
            lemma_split_char_len(s@.take(i as int), '/');
        }
        if c == '/' {
            let piece = cur;
            done.push(piece);
            cur = Vec::new();
            assert(done@.map_values(|x: Vec<char>| x@).push(cur@) =~= split_char(
                s@.take(i + 1),
                '/',
            ));
        } else {
            cur.push(c);
            assert(done@.map_values(|x: Vec<char>| x@).push(cur@) =~= split_char(
                s@.take(i + 1),
                '/',
            ));
        }
        i = i + 1;
    }
    assert(s@.take(s.len() as int) == s@);
    done.push(cur);
    assert(done@.map_values(|x: Vec<char>| x@) =~= split_char(s@, '/'));
    done
}

/// `Path::components` of a `/`-separated path.
pub fn path_components(p: &Vec<char>) -> (r: Vec<Vec<char>>)
    ensures
        r@.map_values(|x: Vec<char>| x@) == components(p@),
{
    let segs = split_slashes(p);
    let ghost gs = segs@.map_values(|x: Vec<char>| x@);
    let mut r: Vec<Vec<char>> = Vec::new();
    let ghost head: Seq<Seq<char>> = if p@.len() > 0 && p@[0] == '/' {
        seq![root_component()]
    } else {
        Seq::<Seq<char>>::empty()
    };
    if p.len() > 0 && p[0] == '/' {
        let mut root: Vec<char> = Vec::new();
        root.push('/');
        r.push(root);
        assert(r@.map_values(|x: Vec<char>| x@) =~= head);
    } else {
        assert(r@.map_values(|x: Vec<char>| x@) =~= head);
    }
    let mut i: usize = 0;
    while i < segs.len()
        invariant
            i <= segs.len(),
            gs == segs@.map_values(|x: Vec<char>| x@),
            r@.map_values(|x: Vec<char>| x@) == head + named_segments(gs.take(i as int)),
        decreases segs.len() - i,
    {
        proof {
            assert(gs.take(i + 1).drop_last() == gs.take(i as int));
            assert(gs[i as int] == segs@[i as int]@);
        }
        let seg = &segs[i];
        let is_dot = seg.len() == 1 && seg[0] == '.';
        proof {
            if seg@.len() == 1 && seg@[0] == '.' {
                assert(seg@ =~= seq!['.']);
            }
        }
        if seg.len() > 0 && !is_dot {
            let ghost before = r@;
            r.push(copy_chars(seg));
            assert(r@.map_values(|x: Vec<char>| x@) =~= before.map_values(|x: Vec<char>| x@).push(
                seg@,
            ));
        }
        assert(r@.map_values(|x: Vec<char>| x@) =~= head + named_segments(gs.take(i + 1)));
        i = i + 1;
    }
    assert(gs.take(segs.len() as int) == gs);
    r
}

/// `Path::file_name` of a `/`-separated path.
pub fn file_name_of(p: &Vec<char>) -> (r: Option<Vec<char>>)
    ensures
        r matches Some(n) ==> file_name(p@) == Some(n@),
        r is None ==> file_name(p@) is None,
{
    let cs = path_components(p);
    proof {
        assert(cs@.map_values(|x: Vec<char>| x@).len() == cs@.len());
    }
    if cs.len() == 0 {
        return None;
    }
    let last = &cs[cs.len() - 1];
    proof {
        assert(components(p@).last() == last@);
    }
    let is_root = last.len() == 1 && last[0] == '/';
    let is_parent = last.len() == 2 && last[0] == '.' && last[1] == '.';
    proof {
        if last@.len() == 1 && last@[0] == '/' {
            assert(last@ =~= root_component());
        } else if last@.len() == 1 {
            assert(last@[0] != root_component()[0]);
        }
        if last@.len() == 2 && last@[0] == '.' && last@[1] == '.' {
            assert(last@ =~= seq!['.', '.']);
        } else if last@.len() == 2 {
            assert(last@[0] != '.' || last@[1] != '.');
            assert(last@ != seq!['.', '.']) by {
                if last@ == seq!['.', '.'] {
                    assert(last@[0] == '.' && last@[1] == '.');
                }
            }
        }
    }
    if is_root || is_parent {
        None
    } else {
        Some(copy_chars(last))
    }
}

fn last_dot(s: &Vec<char>) -> (r: Option<usize>)
    ensures
        r matches Some(k) ==> last_index_of(s@, '.') == Some(k as int),
        r is None ==> last_index_of(s@, '.') is None,
{
    let mut k: usize = s.len();
    while k > 0
        invariant
            k <= s.len(),
            last_index_of(s@, '.') == last_index_of(s@.take(k as int), '.'),
        decreases k,
    {
        proof {
            assert(s@.take(k as int).drop_last() == s@.take(k - 1));
            assert(s@.take(k as int).last() == s@[k - 1]);
        }
        if s[k - 1] == '.' {
            return Some(k - 1);
        }
        k = k - 1;
    }
    None
}

/// `Path::extension` of a `/`-separated path.
pub fn extension_of(p: &Vec<char>) -> (r: Option<Vec<char>>)
    ensures
        r matches Some(e) ==> extension(p@) == Some(e@),
        r is None ==> extension(p@) is None,
{
    let name = match file_name_of(p) {
        Some(n) => n,
        None => {
            return None;
        },
    };
    match last_dot(&name) {
        None => None,
        Some(k) => {
            if k == 0 {
                None
            } else {
                let n = name.len();
                proof {
                    lemma_last_index_bound(name@, '.');
                }
                assert(k < n);
                Some(slice_of(&name, k + 1, n))
            }
        },
    }
}

proof fn lemma_last_index_bound(s: Seq<char>, c: char)
    ensures
        last_index_of(s, c) matches Some(k) ==> 0 <= k < s.len() && s[k] == c,
    decreases s.len(),
{
    if s.len() > 0 && s.last() != c {
        lemma_last_index_bound(s.drop_last(), c);
    }
}

/// Whether `p` has a component equal to `name`.
pub fn has_component(p: &Vec<char>, name: &str) -> (b: bool)
    ensures
        b == components(p@).contains(name@),
{
    let cs = path_components(p);
    let n = chars_of(name);
    let mut i: usize = 0;
    while i < cs.len()
        invariant
            i <= cs.len(),
            n@ == name@,
            cs@.map_values(|x: Vec<char>| x@) == components(p@),
            forall|j: int| 0 <= j < i ==> components(p@)[j] != name@,
        decreases cs.len() - i,
    {
        if eq_chars(&cs[i], &n) {
            assert(components(p@)[i as int] == name@);
            return true;
        }
        i = i + 1;
    }
    false
}

} // verus!
