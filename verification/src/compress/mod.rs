//! Heuristic compression pipeline.
//!
//! Nothing here knows about the protocol: give it text, get a [`Report`]
//! back. That is what makes every heuristic testable without a protocol in
//! the way.

pub mod block;
pub mod comments;
pub mod declaration;
pub mod denylist;
pub mod docstring;
pub mod extract;
pub mod guard;
pub mod imports;
pub mod lang;
pub mod signatures;
pub mod whitespace;

pub use extract::Snippet;
pub use guard::GuardError;
pub use lang::Language;

use vstd::prelude::*;
use crate::compress::comments::{spec_strip, strip_chars};
use crate::compress::extract::{spec_symbol, symbol_chars};
use crate::compress::guard::{resolve, spec_resolve, PathProbe};
use crate::compress::imports::{
    leading_preamble, lemma_split_preamble_characterized, lemma_split_scan_imports, render_chars,
    spec_render, spec_split, spec_split_preamble, split_chars, split_preamble_chars,
};
use crate::compress::lang::language_of_extension;
use crate::compress::signatures::{outline_chars, spec_outline};
use crate::compress::whitespace::{collapse_chars, spec_collapse};
use crate::paths::extension;
use crate::text::{
    append_chars, chars_of, lemma_str_len, lemma_unlines_ends_in_newline, lemma_unlines_line_at,
    line_at, lines, str_len, str_len_of, string_of, unlines,
};

verus! {

/// Above this many bytes *after* the cheap passes, fall back to outline mode.
///
/// Measured, not guessed: on a corpus of real files, 8 KB is the knee of the
/// curve between bytes saved and files that lose their bodies.
pub const OUTLINE_THRESHOLD_BYTES: usize = 8 * 1024;

/// Result of compressing one source.
#[derive(Debug)]
pub struct Report {
    pub text: String,
    pub language: Language,
    pub original_bytes: usize,
    pub compressed_bytes: usize,
    /// True when bodies were elided because the file was still too large.
    pub outlined: bool,
}

/// The mathematical content of a `Report`.
pub struct ReportModel {
    pub text: Seq<char>,
    pub language: Language,
    pub original_bytes: usize,
    pub compressed_bytes: usize,
    pub outlined: bool,
}

impl View for Report {
    type V = ReportModel;

    open spec fn view(&self) -> ReportModel {
        ReportModel {
            text: self.text@,
            language: self.language,
            original_bytes: self.original_bytes,
            compressed_bytes: self.compressed_bytes,
            outlined: self.outlined,
        }
    }
}

/// The body after the cheap passes: comments stripped, imports taken out,
/// whitespace collapsed.
pub open spec fn cheap_body(source: Seq<char>, language: Language) -> Seq<char> {
    spec_collapse(spec_split(spec_strip(source, language), language).1)
}

/// The hoisted imports.
pub open spec fn hoisted(source: Seq<char>, language: Language) -> Seq<Seq<char>> {
    spec_split(spec_strip(source, language), language).0
}

/// Whether the body is still too large after the cheap passes.
pub open spec fn needs_outline(source: Seq<char>, language: Language, threshold: usize) -> bool {
    str_len(cheap_body(source, language)) > threshold
}

/// The body that goes into the pack, outlined if it was too large.
pub open spec fn final_body(source: Seq<char>, language: Language, threshold: usize) -> Seq<char> {
    if needs_outline(source, language, threshold) {
        spec_collapse(spec_outline(cheap_body(source, language), language))
    } else {
        cheap_body(source, language)
    }
}

/// The text of the pack: preamble, hoisted imports, then the rest of the body.
pub open spec fn pack_text(source: Seq<char>, language: Language, threshold: usize) -> Seq<char> {
    let (preamble, rest) = spec_split_preamble(final_body(source, language, threshold));
    preamble + spec_render(hoisted(source, language)) + rest
}

/// What `compress_str` reports for `source`.
pub open spec fn spec_compress(source: Seq<char>, language: Language, threshold: usize) -> ReportModel {
    let text = pack_text(source, language, threshold);
    ReportModel {
        text,
        language,
        original_bytes: str_len(source),
        compressed_bytes: str_len(text),
        outlined: needs_outline(source, language, threshold),
    }
}

/// Where the `i`-th hoisted import starts in the pack: after the preamble and
/// the imports before it.
pub open spec fn import_position(source: Seq<char>, language: Language, threshold: usize, i: int) -> int {
    let preamble = spec_split_preamble(final_body(source, language, threshold)).0;
    (preamble.len() + unlines(hoisted(source, language).take(i)).len()) as int
}

/// Every hoisted import stands as a whole line of the pack, outlined or not:
/// outline mode elides bodies, never the file's dependencies.
pub proof fn lemma_pack_keeps_imports(source: Seq<char>, language: Language, threshold: usize)
    ensures
        forall|i: int|
            0 <= i < hoisted(source, language).len() ==> line_at(
                pack_text(source, language, threshold),
                import_position(source, language, threshold, i),
                #[trigger] hoisted(source, language)[i],
            ),
{
    let h = hoisted(source, language);
    let body = final_body(source, language, threshold);
    let (preamble, rest) = spec_split_preamble(body);
    lemma_split_preamble_characterized(body);
    if preamble.len() > 0 {
        let ls = lines(body);
        let n = leading_preamble(ls) as int;
        assert(preamble == unlines(ls.take(n)));
        if ls.take(n).len() == 0 {
            assert(ls.take(n) =~= Seq::<Seq<char>>::empty());
            assert(unlines(ls.take(n)) =~= Seq::<char>::empty());
        } else {
            lemma_unlines_ends_in_newline(ls.take(n));
        }
    }
    assert forall|i: int| 0 <= i < h.len() implies line_at(
        pack_text(source, language, threshold),
        import_position(source, language, threshold, i),
        #[trigger] h[i],
    ) by {
        let tail = seq!['\n'] + rest;
        lemma_unlines_line_at(preamble, h, tail, i);
        assert(spec_render(h) == unlines(h).push('\n'));
        assert(pack_text(source, language, threshold) =~= preamble + unlines(h) + tail);
    }
}

/// Run the heuristic passes over `source`.
///
/// Order matters: comments go first so their content cannot look like an
/// import or a declaration to later passes.
pub fn compress_str(source: &str, language: Language, outline_threshold: usize) -> (r: Report)
    ensures
        r@ == spec_compress(source@, language, outline_threshold),
        r.original_bytes == source.len(),
        r.outlined == (str_len(cheap_body(source@, language)) > outline_threshold),
        hoisted(source@, language).no_duplicates(),
        forall|i: int|
            0 <= i < hoisted(source@, language).len() ==> line_at(
                r.text@,
                import_position(source@, language, outline_threshold, i),
                #[trigger] hoisted(source@, language)[i],
            ),
{
    let chars = chars_of(source);
    let original_bytes = source.len();
    proof {
        lemma_str_len(source);
        lemma_split_scan_imports(language, lines(spec_strip(source@, language)));
        lemma_pack_keeps_imports(source@, language, outline_threshold);
    }
    let without_comments = strip_chars(&chars, language);
    let (imports, split_body) = split_chars(&without_comments, language);
    let mut body = collapse_chars(&split_body);

    let outlined = str_len_of(&body) > outline_threshold;
    if outlined {
        let o = outline_chars(&body, language);
        body = collapse_chars(&o);
    }
    // Module docs and inner attributes must stay above the hoisted imports,
    // or the output is not valid source any more.

    let (preamble, rest) = split_preamble_chars(&body);
    let mut text = preamble;
    let block = render_chars(&imports);
    append_chars(&mut text, &block);
    append_chars(&mut text, &rest);
    let compressed_bytes = str_len_of(&text);
    Report { language, original_bytes, compressed_bytes, text: string_of(&text), outlined }
}

/// Validate `requested` against the probed facts and pull one symbol out of
/// `contents`, the file's text as read after validation.
///
/// The counterpart to outline mode: what the outline elides, this restores on
/// demand. Returns `Ok(None)` when the file is readable but holds no such
/// symbol: that is an answer, not a failure.
pub fn extract_symbol(
    requested: &str,
    probe: &PathProbe,
    contents: Result<String, GuardError>,
    name: &str,
) -> (r: Result<Option<Snippet>, GuardError>)
    ensures
        match spec_resolve(requested@, probe) {
            Err(e) => r == Err::<Option<Snippet>, GuardError>(e),
            Ok(path) => match contents {
                Err(e) => r == Err::<Option<Snippet>, GuardError>(e),
                Ok(text) => match r {
                    Ok(Some(s)) => spec_symbol(
                        text@,
                        language_of_extension(extension(path)),
                        name@,
                    ) == Some(s@),
                    Ok(None) => spec_symbol(
                        text@,
                        language_of_extension(extension(path)),
                        name@,
                    ) is None,
                    Err(_) => false,
                },
            },
        },
{
    let path = resolve(requested, probe)?;
    let source = contents?;
    let chars = chars_of(source.as_str());
    let n = chars_of(name);
    Ok(symbol_chars(&chars, Language::from_path(path.as_str()), &n))
}

/// Validate `requested` against the probed facts and compress `contents`, the
/// file's text as read after validation.
pub fn compress_file(
    requested: &str,
    probe: &PathProbe,
    contents: Result<String, GuardError>,
    outline_threshold: usize,
) -> (r: Result<Report, GuardError>)
    ensures
        match spec_resolve(requested@, probe) {
            Err(e) => r is Err && r->Err_0 == e,
            Ok(path) => match contents {
                Err(e) => r is Err && r->Err_0 == e,
                Ok(text) => r is Ok && r->Ok_0@ == spec_compress(
                    text@,
                    language_of_extension(extension(path)),
                    outline_threshold,
                ),
            },
        },
{
    let path = resolve(requested, probe)?;
    let source = contents?;
    Ok(compress_str(source.as_str(), Language::from_path(path.as_str()), outline_threshold))
}

} // verus!
