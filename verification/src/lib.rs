//! A symbol extraction core: given raw source text and a language identifier,
//! recognize named declarations (modules, functions, types) together with the
//! documentation comments attached to them, and emit an ordered table of
//! symbol records.
//!
//! The pipeline is: lexical scanner -> token stream -> doc-comment collector
//! and declaration recognizer (two independent passes over the tokens) ->
//! symbol table builder.  Every stage has a functional specification, and the
//! entry point `extract_symbols` is proved to return exactly the model result
//! `model_extract_with` of its inputs.

use vstd::prelude::*;
use vstd::string::*;

pub mod decls;
pub mod docs;
pub mod laws;
pub mod profile;
pub mod records;
pub mod scanner;
pub mod token;

use crate::decls::spec_recognize;
use crate::docs::spec_collect;
use crate::profile::{ProfileModel, Registry, reg_lookup, standard_models, standard_registry};
use crate::records::{RecordModel, SymbolRecord, records_view, spec_build};
use crate::scanner::spec_scan;

verus! {

/// The errors that cross the library boundary.  Anything else (unparsable
/// names, unbalanced scopes, orphaned documentation) degrades gracefully
/// instead of failing.
#[derive(Clone, Copy, Debug, PartialEq, Eq, Structural)]
pub enum ExtractionError {
    /// The language identifier has no registered profile.
    UnsupportedLanguage,
    /// An unterminated string or block comment ran to end of input; the
    /// offset is where the literal opened.
    MalformedInput { offset: usize },
}

/// The model of extraction against a sequence of registered profiles.
pub open spec fn model_extract_with(
    rs: Seq<ProfileModel>,
    text: Seq<char>,
    lang: Seq<char>,
) -> Result<Seq<RecordModel>, ExtractionError> {
    match reg_lookup(rs, lang) {
        Option::None => Err(ExtractionError::UnsupportedLanguage),
        Option::Some(p) => match spec_scan(text) {
            Err(off) => Err(ExtractionError::MalformedInput { offset: off }),
            Ok(toks) => Ok(
                spec_build(text, toks, p, spec_recognize(text, toks, p), spec_collect(text, toks, p)),
            ),
        },
    }
}

/// The model of extraction with the standard registry.
pub open spec fn model_extract(text: Seq<char>, lang: Seq<char>) -> Result<
    Seq<RecordModel>,
    ExtractionError,
> {
    model_extract_with(standard_models(), text, lang)
}

pub open spec fn result_view(r: Result<Vec<SymbolRecord>, ExtractionError>) -> Result<
    Seq<RecordModel>,
    ExtractionError,
> {
    match r {
        Ok(v) => Ok(records_view(v@)),
        Err(e) => Err(e),
    }
}

/// Extract the ordered symbol table of `source` using the profiles in
/// `registry`.  Fails only for an unknown language identifier or an
/// unterminated literal; the scanner is never reached for an unknown
/// language.
pub fn extract_symbols_with(registry: &Registry, source: &str, language: &str) -> (r: Result<
    Vec<SymbolRecord>,
    ExtractionError,
>)
    ensures
        result_view(r) == model_extract_with(registry@, source@, language@),
{
    let prof = match registry.get(language) {
        Option::None => {
            return Err(ExtractionError::UnsupportedLanguage);
        },
        Option::Some(p) => p,
    };
    let chars = to_chars(source);
    let tokens = match crate::scanner::scan(&chars) {
        Err(off) => {
            return Err(ExtractionError::MalformedInput { offset: off });
        },
        Ok(t) => t,
    };
    let docs = crate::docs::collect_docs(&chars, &tokens, prof);
    let arena = crate::decls::recognize(&chars, &tokens, prof);
    let recs = crate::records::build(source, &chars, &tokens, prof, &arena, &docs);
    Ok(recs)
}

/// Extract the ordered symbol table of `source` in language `language`,
/// using the standard registry.  The empty text yields an empty table.
pub fn extract_symbols(source: &str, language: &str) -> (r: Result<
    Vec<SymbolRecord>,
    ExtractionError,
>)
    ensures
        result_view(r) == model_extract(source@, language@),
{
    let registry = standard_registry();
    extract_symbols_with(&registry, source, language)
}

/// Greets `param`.
pub fn my_func(param: &str) -> (r: String)
    ensures
        r@ == "Hello, "@ + param@ + "!"@,
{
    let mut r = String::from_str("Hello, ");
    r.append(param);
    r.append("!");
    r
}

/// Collect the characters of `s` into a vector, preserving the view.
pub fn to_chars(s: &str) -> (r: Vec<char>)
    ensures
        r@ == s@,
{
    let n = s.unicode_len();
    let mut v: Vec<char> = Vec::new();
    let mut i: usize = 0;
    while i < n
        invariant
            0 <= i <= n,
            n == s@.len(),
            v@ == s@.subrange(0, i as int),
        decreases n - i,
    {
        let c = s.get_char(i);
        v.push(c);
        proof {
            assert(s@.subrange(0, (i + 1) as int) =~= s@.subrange(0, i as int).push(s@[i as int]));
        }
        i = i + 1;
    }
    proof {
        assert(s@.subrange(0, n as int) =~= s@);
    }
    v
}

} // verus!
