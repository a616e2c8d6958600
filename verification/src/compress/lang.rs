//! File extension to language, plus the syntax markers each pass needs.

use vstd::prelude::*;
use crate::paths::{extension, extension_of};
use crate::text::{chars_of, eq_chars, has_prefix, starts_with};

verus! {

#[derive(Debug, Clone, Copy, PartialEq, Eq, Structural)]
pub enum Language {
    Rust,
    Python,
    JavaScript,
    TypeScript,
    Go,
    /// Unknown or non-code: only the whitespace pass applies.
    Other,
}

/// The views of a list of string slices.
pub open spec fn strs(v: Seq<&str>) -> Seq<Seq<char>> {
    v.map_values(|x: &str| x@)
}

/// The language a file extension names (matched case-sensitively).
pub open spec fn language_of_extension(ext: Option<Seq<char>>) -> Language {
    match ext {
        Some(e) => if e == "rs"@ {
            Language::Rust
        } else if e == "py"@ || e == "pyi"@ {
            Language::Python
        } else if e == "js"@ || e == "jsx"@ || e == "mjs"@ || e == "cjs"@ {
            Language::JavaScript
        } else if e == "ts"@ || e == "tsx"@ {
            Language::TypeScript
        } else if e == "go"@ {
            Language::Go
        } else {
            Language::Other
        },
        None => Language::Other,
    }
}

/// Token that starts a line comment, if the language has one.
pub open spec fn line_comment_of(lang: Language) -> Option<Seq<char>> {
    match lang {
        Language::Rust | Language::JavaScript | Language::TypeScript | Language::Go => Some(
            "//"@,
        ),
        Language::Python => Some("#"@),
        Language::Other => None,
    }
}

/// Comment prefixes that carry semantic value and must survive.
pub open spec fn doc_prefixes_of(lang: Language) -> Seq<Seq<char>> {
    match lang {
        Language::Rust => seq!["///"@, "//!"@],
        Language::JavaScript | Language::TypeScript | Language::Go => seq!["///"@],
        Language::Python | Language::Other => Seq::<Seq<char>>::empty(),
    }
}

/// Whether `/* */` block comments (and `{}` blocks) exist in this language.
pub open spec fn block_comments_of(lang: Language) -> bool {
    lang is Rust || lang is JavaScript || lang is TypeScript || lang is Go
}

/// Line prefixes that denote an import statement.
pub open spec fn import_prefixes_of(lang: Language) -> Seq<Seq<char>> {
    match lang {
        Language::Rust => seq!["use "@, "pub use "@, "extern crate "@],
        Language::Python => seq!["import "@, "from "@],
        Language::JavaScript | Language::TypeScript => seq![
            "import "@,
            "export * from "@,
            "const { "@,
        ],
        Language::Go => seq!["import "@],
        Language::Other => Seq::<Seq<char>>::empty(),
    }
}

/// Line prefixes that denote a declaration worth keeping in outline mode.
pub open spec fn signature_prefixes_of(lang: Language) -> Seq<Seq<char>> {
    match lang {
        Language::Rust => seq![
            "fn "@,
            "pub fn "@,
            "async fn "@,
            "pub async fn "@,
            "struct "@,
            "pub struct "@,
            "enum "@,
            "pub enum "@,
            "trait "@,
            "pub trait "@,
            "impl "@,
            "type "@,
            "pub type "@,
            "const "@,
            "pub const "@,
            "static "@,
            "pub static "@,
            "macro_rules! "@,
            "mod "@,
            "pub mod "@,
        ],
        Language::Python => seq!["def "@, "async def "@, "class "@, "@"@],
        Language::JavaScript | Language::TypeScript => seq![
            "function "@,
            "async function "@,
            "class "@,
            "export function "@,
            "export async function "@,
            "export class "@,
            "export const "@,
            "export default "@,
            "interface "@,
            "export interface "@,
            "type "@,
            "export type "@,
        ],
        Language::Go => seq!["func "@, "type "@, "package "@],
        Language::Other => Seq::<Seq<char>>::empty(),
    }
}

/// `s` starts with one of `ps`.
pub open spec fn starts_with_any(s: Seq<char>, ps: Seq<Seq<char>>) -> bool {
    exists|i: int| 0 <= i < ps.len() && has_prefix(s, #[trigger] ps[i])
}

/// Whether `s` starts with one of the prefixes in `ps`.
pub fn any_prefix(s: &Vec<char>, ps: &[&str]) -> (b: bool)
    ensures
        b == starts_with_any(s@, strs(ps@)),
{
    let mut i: usize = 0;
    while i < ps.len()
        invariant
            i <= ps.len(),
            forall|j: int| 0 <= j < i ==> !has_prefix(s@, #[trigger] strs(ps@)[j]),
        decreases ps.len() - i,
    {
        let p = chars_of(ps[i]);
        if starts_with(s, &p) {
            assert(has_prefix(s@, strs(ps@)[i as int]));
            return true;
        }
        i = i + 1;
    }
    false
}

fn is_ext(e: &Vec<char>, name: &str) -> (b: bool)
    ensures
        b == (e@ == name@),
{
    let n = chars_of(name);
    eq_chars(e, &n)
}

/// The extension table: `rs` is Rust; `py` and `pyi` Python; `js`, `jsx`,
/// `mjs` and `cjs` JavaScript; `ts` and `tsx` TypeScript; `go` Go.
pub proof fn lemma_extension_table(e: Seq<char>)
    ensures
        e == "rs"@ ==> language_of_extension(Some(e)) == Language::Rust,
        e == "py"@ || e == "pyi"@ ==> language_of_extension(Some(e)) == Language::Python,
        e == "js"@ || e == "jsx"@ || e == "mjs"@ || e == "cjs"@ ==> language_of_extension(Some(e))
            == Language::JavaScript,
        e == "ts"@ || e == "tsx"@ ==> language_of_extension(Some(e)) == Language::TypeScript,
        e == "go"@ ==> language_of_extension(Some(e)) == Language::Go,
{
    reveal_strlit("rs");
    reveal_strlit("py");
    reveal_strlit("pyi");
    reveal_strlit("js");
    reveal_strlit("jsx");
    reveal_strlit("mjs");
    reveal_strlit("cjs");
    reveal_strlit("ts");
    reveal_strlit("tsx");
    reveal_strlit("go");
    assert("rs"@[0] == 'r' && "py"@[0] == 'p' && "pyi"@[0] == 'p' && "js"@[0] == 'j');
    assert("jsx"@[0] == 'j' && "mjs"@[0] == 'm' && "cjs"@[0] == 'c' && "ts"@[0] == 't');
    assert("tsx"@[0] == 't' && "go"@[0] == 'g');
    assert("py"@.len() == 2 && "pyi"@.len() == 3 && "js"@.len() == 2 && "jsx"@.len() == 3);
    assert("ts"@.len() == 2 && "tsx"@.len() == 3);
}

impl Language {
    /// The language of the file at `path`, by its extension.
    pub fn from_path(path: &str) -> (r: Self)
        ensures
            r == language_of_extension(extension(path@)),
            extension(path@) == Some("rs"@) ==> r == Language::Rust,
            extension(path@) == Some("py"@) || extension(path@) == Some("pyi"@) ==> r
                == Language::Python,
            extension(path@) == Some("js"@) || extension(path@) == Some("jsx"@) || extension(path@)
                == Some("mjs"@) || extension(path@) == Some("cjs"@) ==> r == Language::JavaScript,
            extension(path@) == Some("ts"@) || extension(path@) == Some("tsx"@) ==> r
                == Language::TypeScript,
            extension(path@) == Some("go"@) ==> r == Language::Go,
    {
        proof {
            if let Some(e) = extension(path@) {
                lemma_extension_table(e);
            }
        }
        let p = chars_of(path);
        match extension_of(&p) {
            Some(e) => {
                if is_ext(&e, "rs") {
                    Language::Rust
                } else if is_ext(&e, "py") || is_ext(&e, "pyi") {
                    Language::Python
                } else if is_ext(&e, "js") || is_ext(&e, "jsx") || is_ext(&e, "mjs") || is_ext(
                    &e,
                    "cjs",
                ) {
                    Language::JavaScript
                } else if is_ext(&e, "ts") || is_ext(&e, "tsx") {
                    Language::TypeScript
                } else if is_ext(&e, "go") {
                    Language::Go
                } else {
                    Language::Other
                }
            },
            None => Language::Other,
        }
    }

    /// Token that starts a line comment, if the language has one.
    pub fn line_comment(self) -> (r: Option<&'static str>)
        ensures
            r matches Some(m) ==> line_comment_of(self) == Some(m@),
            r is None ==> line_comment_of(self) is None,
    {
        match self {
            Language::Rust | Language::JavaScript | Language::TypeScript | Language::Go => Some(
                "//",
            ),
            Language::Python => Some("#"),
            Language::Other => None,
        }
    }

    /// Comment prefixes that carry semantic value and must survive.
    pub fn doc_prefixes(self) -> (r: &'static [&'static str])
        ensures
            strs(r@) == doc_prefixes_of(self),
    {
        let r: &'static [&'static str] = match self {
            Language::Rust => &["///", "//!"],
            Language::JavaScript | Language::TypeScript | Language::Go => &["///"],
            Language::Python | Language::Other => &[],
        };
        assert(strs(r@) =~= doc_prefixes_of(self));
        r
    }

    /// Whether `/* */` block comments exist in this language.
    pub fn has_block_comments(self) -> (b: bool)
        ensures
            b == block_comments_of(self),
    {
        match self {
            Language::Rust | Language::JavaScript | Language::TypeScript | Language::Go => true,
            _ => false,
        }
    }

    /// Line prefixes that denote an import/include statement.
    pub fn import_prefixes(self) -> (r: &'static [&'static str])
        ensures
            strs(r@) == import_prefixes_of(self),
    {
        let r: &'static [&'static str] = match self {
            Language::Rust => &["use ", "pub use ", "extern crate "],
            Language::Python => &["import ", "from "],
            Language::JavaScript | Language::TypeScript => &[
                "import ",
                "export * from ",
                "const { ",
            ],
            Language::Go => &["import "],
            Language::Other => &[],
        };
        assert(strs(r@) =~= import_prefixes_of(self));
        r
    }

    /// Line prefixes that denote a declaration worth keeping in outline mode.
    pub fn signature_prefixes(self) -> (r: &'static [&'static str])
        ensures
            strs(r@) == signature_prefixes_of(self),
    {
        let r: &'static [&'static str] = match self {
            Language::Rust => &[
                "fn ",
                "pub fn ",
                "async fn ",
                "pub async fn ",
                "struct ",
                "pub struct ",
                "enum ",
                "pub enum ",
                "trait ",
                "pub trait ",
                "impl ",
                "type ",
                "pub type ",
                "const ",
                "pub const ",
                "static ",
                "pub static ",
                "macro_rules! ",
                "mod ",
                "pub mod ",
            ],
            Language::Python => &["def ", "async def ", "class ", "@"],
            Language::JavaScript | Language::TypeScript => &[
                "function ",
                "async function ",
                "class ",
                "export function ",
                "export async function ",
                "export class ",
                "export const ",
                "export default ",
                "interface ",
                "export interface ",
                "type ",
                "export type ",
            ],
            Language::Go => &["func ", "type ", "package "],
            Language::Other => &[],
        };
        assert(strs(r@) =~= signature_prefixes_of(self));
        r
    }
}

} // verus!
