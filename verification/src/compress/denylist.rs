//! Files refused even inside the allowed root.
//!
//! A deny list is a weaker guarantee than an allow list, and this one is
//! mitigation rather than a promise. What it must not be is *confidently
//! wrong*, which is what exact-name matching made it: the committed `.env` is
//! usually a placeholder while `.env.local` holds live credentials. Hence
//! prefixes, not exact names, for families that have variants.

use vstd::prelude::*;
use crate::compress::guard::any_ignore_case;
use crate::compress::lang::{strs, starts_with_any, any_prefix};
use crate::paths::{
    components, eq_ignore_case, extension, extension_of, file_name, file_name_of, has_component, lower,
    lower_of,
};
use crate::text::{chars_of, eq_chars};

verus! {

/// `x` equals one of `ds`, ignoring ASCII case.
pub open spec fn matches_any_ignore_case(x: Seq<char>, ds: Seq<Seq<char>>) -> bool {
    exists|i: int| 0 <= i < ds.len() && eq_ignore_case(x, #[trigger] ds[i])
}

/// Exact names, for files with no naming family.
pub open spec fn exact_names() -> Seq<Seq<char>> {
    seq![
        ".netrc"@,
        ".npmrc"@,
        ".pgpass"@,
        "credentials"@,
        ".htpasswd"@,
        "secrets.yaml"@,
        "secrets.yml"@,
    ]
}

/// Name prefixes. Covers `.env.local`, `.env.production`, `id_rsa.pub`, ...
pub open spec fn name_prefixes() -> Seq<Seq<char>> {
    seq![".env"@, "id_rsa"@, "id_dsa"@, "id_ecdsa"@, "id_ed25519"@]
}

/// Extensions refused regardless of name.
pub open spec fn refused_extensions() -> Seq<Seq<char>> {
    seq!["pem"@, "key"@, "p12"@, "pfx"@, "keystore"@, "jks"@, "kdbx"@, "ppk"@, "asc"@]
}

/// The lower-cased file name is refused by name or by prefix.
pub open spec fn name_refused(lowered: Seq<char>) -> bool {
    exact_names().contains(lowered) || starts_with_any(lowered, name_prefixes())
}

/// The path is refused on name grounds.
pub open spec fn denied(p: Seq<char>) -> bool {
    ||| (file_name(p) matches Some(n) && name_refused(lower(n)))
    ||| (extension(p) matches Some(e) && matches_any_ignore_case(e, refused_extensions()))
    ||| components(p).contains(".git"@)
}

fn exact_name_list() -> (r: &'static [&'static str])
    ensures
        strs(r@) == exact_names(),
{
    let r: &'static [&'static str] = &[
        ".netrc",
        ".npmrc",
        ".pgpass",
        "credentials",
        ".htpasswd",
        "secrets.yaml",
        "secrets.yml",
    ];
    assert(strs(r@) =~= exact_names());
    r
}

fn name_prefix_list() -> (r: &'static [&'static str])
    ensures
        strs(r@) == name_prefixes(),
{
    let r: &'static [&'static str] = &[".env", "id_rsa", "id_dsa", "id_ecdsa", "id_ed25519"];
    assert(strs(r@) =~= name_prefixes());
    r
}

fn extension_list() -> (r: &'static [&'static str])
    ensures
        strs(r@) == refused_extensions(),
{
    let r: &'static [&'static str] = &[
        "pem",
        "key",
        "p12",
        "pfx",
        "keystore",
        "jks",
        "kdbx",
        "ppk",
        "asc",
    ];
    assert(strs(r@) =~= refused_extensions());
    r
}

fn is_exact_name(lowered: &Vec<char>) -> (b: bool)
    ensures
        b == exact_names().contains(lowered@),
{
    let names = exact_name_list();
    let mut i: usize = 0;
    while i < names.len()
        invariant
            i <= names.len(),
            strs(names@) == exact_names(),
            forall|j: int| 0 <= j < i ==> exact_names()[j] != lowered@,
        decreases names.len() - i,
    {
        let d = chars_of(names[i]);
        if eq_chars(lowered, &d) {
            assert(exact_names()[i as int] == lowered@);
            return true;
        }
        i = i + 1;
    }
    false
}

/// Whether this resolved path is refused on name grounds.
///
/// Case-insensitive for names and extensions: a case-sensitive rule is
/// bypassed by `.ENV.local` on a case-insensitive filesystem, which is the
/// default on macOS and Windows.
pub fn is_denied(path: &str) -> (b: bool)
    ensures
        b == denied(path@),
{
    let p = chars_of(path);
    let name_denied = match file_name_of(&p) {
        Some(name) => {
            let lowered = lower_of(&name);
            is_exact_name(&lowered) || any_prefix(&lowered, name_prefix_list())
        },
        None => false,
    };
    let ext_denied = match extension_of(&p) {
        Some(ext) => any_ignore_case(&ext, extension_list()),
        None => false,
    };
    // `.git/config` can hold credentials; the rest of the directory is noise.
    let in_git_dir = has_component(&p, ".git");
    name_denied || ext_denied || in_git_dir
}

} // verus!
