//! The trust boundary. Every path from a tool call is validated here before a
//! single byte is read.
//!
//! The filesystem facts (canonical root, canonical candidate, metadata) are
//! gathered by the caller into a `PathProbe`; the decision over them is made
//! here.

use vstd::prelude::*;
use crate::compress::lang::strs;
use crate::compress::denylist::{denied, is_denied, matches_any_ignore_case};
use crate::paths::{components, eq_ignore_ascii_case, eq_ignore_case, path_components};
use crate::text::{append_chars, chars_of, eq_chars, string_of, trim, trim_of};

verus! {

broadcast use vstd::seq_lib::group_seq_properties;

/// Hard ceiling on a file we will read into memory.
pub const MAX_FILE_BYTES: u64 = 8 * 1024 * 1024;

/// Why a path was refused.
///
/// Variants are categories on purpose: a raw OS error message leaks
/// directory structure back to the caller.
#[derive(Debug, Clone, Copy, PartialEq, Eq, Structural)]
pub enum GuardError {
    EmptyPath,
    NotFound,
    NotARegularFile,
    OutsideRoot,
    Denied,
    TooLarge { bytes: u64 },
    NotUtf8,
    Unreadable,
}

/// What the filesystem says about a path.
pub struct FileFacts {
    pub is_file: bool,
    pub len: u64,
}

/// The filesystem facts the guard decides on, gathered by the caller.
pub struct PathProbe {
    /// The canonical form of the root, or `None` if it could not be resolved.
    pub root: Option<String>,
    /// The canonical form of the requested path, or `None` if it could not be
    /// resolved.
    pub resolved: Option<String>,
    /// The metadata of the resolved path, or `None` if it could not be read.
    pub metadata: Option<FileFacts>,
}

/// `Path::starts_with`: the components of `base` lead those of `p`.
pub open spec fn within(p: Seq<char>, base: Seq<char>) -> bool {
    let a = components(base);
    let b = components(p);
    a.len() <= b.len() && b.take(a.len() as int) == a
}

/// What `resolve` decides for `requested` given the probed facts.
pub open spec fn spec_resolve(requested: Seq<char>, probe: &PathProbe) -> Result<
    Seq<char>,
    GuardError,
> {
    if trim(requested).len() == 0 {
        Err(GuardError::EmptyPath)
    } else if probe.root is None {
        Err(GuardError::Unreadable)
    } else if probe.resolved is None {
        Err(GuardError::NotFound)
    } else if !within(probe.resolved->0@, probe.root->0@) {
        Err(GuardError::OutsideRoot)
    } else if denied(probe.resolved->0@) {
        Err(GuardError::Denied)
    } else if probe.metadata is None {
        Err(GuardError::Unreadable)
    } else if !probe.metadata->0.is_file {
        Err(GuardError::NotARegularFile)
    } else if probe.metadata->0.len > MAX_FILE_BYTES {
        Err(GuardError::TooLarge { bytes: probe.metadata->0.len })
    } else {
        Ok(probe.resolved->0@)
    }
}

/// Whether `x` equals one of `ds`, ignoring ASCII case.
pub fn any_ignore_case(x: &Vec<char>, ds: &[&str]) -> (b: bool)
    ensures
        b == matches_any_ignore_case(x@, strs(ds@)),
{
    let mut i: usize = 0;
    while i < ds.len()
        invariant
            i <= ds.len(),
            forall|j: int| 0 <= j < i ==> !eq_ignore_case(x@, #[trigger] strs(ds@)[j]),
        decreases ds.len() - i,
    {
        let d = chars_of(ds[i]);
        if eq_ignore_ascii_case(x, &d) {
            assert(eq_ignore_case(x@, strs(ds@)[i as int]));
            return true;
        }
        i = i + 1;
    }
    false
}

fn is_within(p: &Vec<char>, base: &Vec<char>) -> (b: bool)
    ensures
        b == within(p@, base@),
{
    let a = path_components(base);
    let c = path_components(p);
    let ghost ga = a@.map_values(|x: Vec<char>| x@);
    let ghost gc = c@.map_values(|x: Vec<char>| x@);
    if a.len() > c.len() {
        return false;
    }
    let mut i: usize = 0;
    while i < a.len()
        invariant
            i <= a.len() <= c.len(),
            ga == a@.map_values(|x: Vec<char>| x@),
            gc == c@.map_values(|x: Vec<char>| x@),
            ga == components(base@),
            gc == components(p@),
            forall|j: int| 0 <= j < i ==> gc[j] == ga[j],
        decreases a.len() - i,
    {
        if !eq_chars(&a[i], &c[i]) {
            assert(gc.take(ga.len() as int)[i as int] != ga[i as int]);
            return false;
        }
        i = i + 1;
    }
    assert(gc.take(ga.len() as int) =~= ga);
    true
}

/// Validate `requested` against the probed facts and return the canonical
/// path.
///
/// Canonicalization happens *first*, so `..` and symlinks are resolved before
/// the containment check. Checking the raw string for `".."` is not enough: a
/// symlink defeats it.
pub fn resolve(requested: &str, probe: &PathProbe) -> (r: Result<String, GuardError>)
    ensures
        match r {
            Ok(p) => spec_resolve(requested@, probe) == Ok::<Seq<char>, GuardError>(p@),
            Err(e) => spec_resolve(requested@, probe) == Err::<Seq<char>, GuardError>(e),
        },
        r is Ok ==> within(r->Ok_0@, probe.root->0@) && !denied(r->Ok_0@)
            && probe.metadata->0.is_file && probe.metadata->0.len <= MAX_FILE_BYTES,
{
    let req = chars_of(requested);
    let t = trim_of(&req);
    if t.len() == 0 {
        return Err(GuardError::EmptyPath);
    }
    let root = match &probe.root {
        Some(root) => chars_of(root.as_str()),
        None => {
            return Err(GuardError::Unreadable);
        },
    };
    let (resolved_path, resolved) = match &probe.resolved {
        Some(p) => (p, chars_of(p.as_str())),
        None => {
            return Err(GuardError::NotFound);
        },
    };
    if !is_within(&resolved, &root) {
        return Err(GuardError::OutsideRoot);
    }
    if is_denied(resolved_path.as_str()) {
        return Err(GuardError::Denied);
    }
    let facts = match &probe.metadata {
        Some(f) => f,
        None => {
            return Err(GuardError::Unreadable);
        },
    };
    if !facts.is_file {
        // Also catches FIFOs and device files, which would block forever.
        return Err(GuardError::NotARegularFile);
    }
    if facts.len > MAX_FILE_BYTES {
        return Err(GuardError::TooLarge { bytes: facts.len });
    }
    Ok(string_of(&resolved))
}

/// Decimal digits of `n`.
pub open spec fn decimal(n: nat) -> Seq<char>
    decreases n,
{
    if n < 10 {
        seq![digit_char(n)]
    } else {
        decimal(n / 10).push(digit_char(n % 10))
    }
}

pub open spec fn digit_char(d: nat) -> char {
    if d == 0 {
        '0'
    } else if d == 1 {
        '1'
    } else if d == 2 {
        '2'
    } else if d == 3 {
        '3'
    } else if d == 4 {
        '4'
    } else if d == 5 {
        '5'
    } else if d == 6 {
        '6'
    } else if d == 7 {
        '7'
    } else if d == 8 {
        '8'
    } else {
        '9'
    }
}

fn digit(d: u64) -> (c: char)
    requires
        d < 10,
    ensures
        c == digit_char(d as nat),
{
    if d == 0 {
        '0'
    } else if d == 1 {
        '1'
    } else if d == 2 {
        '2'
    } else if d == 3 {
        '3'
    } else if d == 4 {
        '4'
    } else if d == 5 {
        '5'
    } else if d == 6 {
        '6'
    } else if d == 7 {
        '7'
    } else if d == 8 {
        '8'
    } else {
        '9'
    }
}

/// Decimal digits of `n`, as `u64`'s `Display` writes them.
pub fn decimal_of(n: u64) -> (r: Vec<char>)
    ensures
        r@ == decimal(n as nat),
    decreases n,
{
    if n < 10 {
        let mut r = Vec::new();
        r.push(digit(n));
        r
    } else {
        let mut r = decimal_of(n / 10);
        r.push(digit(n % 10));
        r
    }
}

/// The text each refusal is reported with.
pub open spec fn message_of(e: GuardError) -> Seq<char> {
    match e {
        GuardError::EmptyPath => "filePath must not be empty"@,
        GuardError::NotFound => "file not found"@,
        GuardError::NotARegularFile => "not a regular file"@,
        GuardError::OutsideRoot => "path resolves outside the allowed root"@,
        GuardError::Denied => "file name is on the sensitive-file deny list"@,
        GuardError::TooLarge { bytes } => "file is "@ + decimal(bytes as nat) + " bytes, limit is "@
            + decimal(MAX_FILE_BYTES as nat),
        GuardError::NotUtf8 => "file is not valid UTF-8 text"@,
        GuardError::Unreadable => "file could not be read"@,
    }
}

/// The value of a digit character.
pub open spec fn digit_value(c: char) -> nat {
    if c == '1' {
        1
    } else if c == '2' {
        2
    } else if c == '3' {
        3
    } else if c == '4' {
        4
    } else if c == '5' {
        5
    } else if c == '6' {
        6
    } else if c == '7' {
        7
    } else if c == '8' {
        8
    } else if c == '9' {
        9
    } else {
        0
    }
}

/// The value of a string of decimal digits.
pub open spec fn numeral_value(s: Seq<char>) -> nat
    decreases s.len(),
{
    if s.len() == 0 {
        0
    } else {
        numeral_value(s.drop_last()) * 10 + digit_value(s.last())
    }
}

/// `decimal(n)` is a well-formed numeral for `n`: digits only, no leading
/// zero unless `n` is zero, and read back it is `n`.
pub proof fn lemma_decimal_reads_back(n: nat)
    ensures
        numeral_value(decimal(n)) == n,
        decimal(n).len() > 0,
        forall|i: int| 0 <= i < decimal(n).len() ==> exists|d: nat| d < 10 && #[trigger] decimal(n)[i]
            == digit_char(d),
        n > 0 ==> decimal(n)[0] != '0',
    decreases n,
{
    if n >= 10 {
        lemma_decimal_reads_back(n / 10);
        let q = decimal(n / 10);
        assert(decimal(n) == q.push(digit_char(n % 10)));
        assert(decimal(n).drop_last() =~= q);
        assert(digit_value(digit_char(n % 10)) == n % 10);
        assert(decimal(n).last() == digit_char(n % 10));
        assert(numeral_value(decimal(n)) == numeral_value(q) * 10 + digit_value(digit_char(n % 10)));
        assert(n == (n / 10) * 10 + n % 10);
        assert(decimal(n)[0] == q[0]);
        assert forall|i: int| 0 <= i < decimal(n).len() implies exists|d: nat| d < 10
            && #[trigger] decimal(n)[i] == digit_char(d) by {
            if i < q.len() {
                assert(decimal(n)[i] == q[i]);
            } else {
                assert(decimal(n)[i] == digit_char(n % 10));
            }
        }
    } else {
        assert(decimal(n) == seq![digit_char(n)]);
        assert(decimal(n).drop_last() =~= Seq::<char>::empty());
        assert(digit_value(digit_char(n)) == n);
        assert(decimal(n).last() == digit_char(n));
        assert(numeral_value(Seq::<char>::empty()) == 0);
        assert(decimal(n)[0] == digit_char(n));
    }
}

/// No digit is `x`, so no decimal numeral holds `x`.
pub proof fn lemma_decimal_avoids(n: nat, x: char)
    requires
        forall|d: nat| d < 10 ==> #[trigger] digit_char(d) != x,
    ensures
        !decimal(n).contains(x),
    decreases n,
{
    if n >= 10 {
        lemma_decimal_avoids(n / 10, x);
        assert(decimal(n) == decimal(n / 10).push(digit_char(n % 10)));
        assert forall|i: int| 0 <= i < decimal(n).len() implies decimal(n)[i] != x by {
            if i < decimal(n / 10).len() {
                assert(decimal(n)[i] == decimal(n / 10)[i]);
            } else {
                assert(digit_char(n % 10) != x);
            }
        }
    } else {
        assert(digit_char(n) != x);
        assert(decimal(n) == seq![digit_char(n)]);
    }
}

/// A refusal's message names a category, never a path: it holds no `/`, so
/// no directory structure leaks back to the caller.
pub proof fn lemma_messages_hold_no_path(e: GuardError)
    ensures
        !message_of(e).contains('/'),
{
    reveal_strlit("filePath must not be empty");
    reveal_strlit("file not found");
    reveal_strlit("not a regular file");
    reveal_strlit("path resolves outside the allowed root");
    reveal_strlit("file name is on the sensitive-file deny list");
    reveal_strlit("file is ");
    reveal_strlit(" bytes, limit is ");
    reveal_strlit("file is not valid UTF-8 text");
    reveal_strlit("file could not be read");
    match e {
        GuardError::TooLarge { bytes } => {
            let a = "file is "@;
            let b = decimal(bytes as nat);
            let c = " bytes, limit is "@;
            let d = decimal(MAX_FILE_BYTES as nat);
            lemma_decimal_avoids(bytes as nat, '/');
            lemma_decimal_avoids(MAX_FILE_BYTES as nat, '/');
            let m = a + b + c + d;
            assert(m == message_of(e));
            assert forall|i: int| 0 <= i < m.len() implies m[i] != '/' by {
                if i < a.len() {
                    assert(m[i] == a[i]);
                } else if i < a.len() + b.len() {
                    assert(m[i] == b[i - a.len()]);
                } else if i < a.len() + b.len() + c.len() {
                    assert(m[i] == c[i - a.len() - b.len()]);
                } else {
                    assert(m[i] == d[i - a.len() - b.len() - c.len()]);
                }
            }
        },
        _ => {},
    }
}

impl GuardError {
    /// The text this refusal is reported with. It names a category, never a
    /// path.
    pub fn message(&self) -> (r: String)
        ensures
            r@ == message_of(*self),
    {
        let text = match self {
            GuardError::EmptyPath => chars_of("filePath must not be empty"),
            GuardError::NotFound => chars_of("file not found"),
            GuardError::NotARegularFile => chars_of("not a regular file"),
            GuardError::OutsideRoot => chars_of("path resolves outside the allowed root"),
            GuardError::Denied => chars_of("file name is on the sensitive-file deny list"),
            GuardError::TooLarge { bytes } => {
                let mut out = chars_of("file is ");
                append_chars(&mut out, &decimal_of(*bytes));
                append_chars(&mut out, &chars_of(" bytes, limit is "));
                append_chars(&mut out, &decimal_of(MAX_FILE_BYTES));
                out
            },
            GuardError::NotUtf8 => chars_of("file is not valid UTF-8 text"),
            GuardError::Unreadable => chars_of("file could not be read"),
        };
        string_of(&text)
    }
}

} // verus!
