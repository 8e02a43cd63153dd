//! The library's laws, stated and proved over the extraction model.
//!
//! Every executable stage is proved equal to its functional specification,
//! so these lemmas about the model carry over to the executable pipeline.

use vstd::prelude::*;
use crate::{ExtractionError, model_extract, model_extract_with};
use crate::token::{Token, is_comment_kind, tokens_wf};
use crate::profile::{ProfileModel, is_decl_intro, reg_lookup, standard_models};
use crate::scanner::{lemma_scan_from_wf, spec_scan};
use crate::decls::{DeclNode, Pend, arena_wf, node_ok, lemma_recog_props, spec_recognize,
    sorted_starts};
use crate::docs::{DocBlock, collect_from, doc_run_end, lemma_doc_run_end, lemma_next_non_comment,
    next_non_comment, spec_collect};
use crate::records::{RecordModel, chain, join_names, spec_build};

verus! {

/// Determinism: extraction is a function of the text and the language
/// identifier alone, so two runs on identical input yield identical output.
pub proof fn lemma_extraction_deterministic(
    text: Seq<char>,
    lang: Seq<char>,
    r1: Result<Seq<RecordModel>, ExtractionError>,
    r2: Result<Seq<RecordModel>, ExtractionError>,
)
    requires
        r1 == model_extract(text, lang),
        r2 == model_extract(text, lang),
    ensures
        r1 == r2,
{
}

/// `UnsupportedLanguage` comes exactly when the identifier has no registered
/// profile, whatever the text says.
pub proof fn lemma_unsupported_language(rs: Seq<ProfileModel>, text: Seq<char>, lang: Seq<char>)
    ensures
        model_extract_with(rs, text, lang) == Err::<Seq<RecordModel>, ExtractionError>(
            ExtractionError::UnsupportedLanguage,
        ) <==> reg_lookup(rs, lang) is None,
{
}

/// Ordering law: whenever extraction succeeds, any record whose declaration
/// starts earlier in the source stands earlier in the output.
pub proof fn lemma_output_ordered(text: Seq<char>, lang: Seq<char>, recs: Seq<RecordModel>)
    requires
        text.len() <= usize::MAX,
        model_extract(text, lang) == Ok::<Seq<RecordModel>, ExtractionError>(recs),
    ensures
        forall|a: int, b: int|
            0 <= a <= b < recs.len() ==> (#[trigger] recs[a]).start_offset
                <= (#[trigger] recs[b]).start_offset,
{
    let p = reg_lookup(standard_models(), lang)->Some_0;
    let toks = spec_scan(text)->Ok_0;
    lemma_scan_from_wf(text, 0, Seq::empty());
    let arena = spec_recognize(text, toks, p);
    lemma_recog_props(text, toks, p, 0, Pend::Idle, Seq::empty(), Seq::empty());
    assert(sorted_starts(arena));
    assert forall|a: int, b: int| 0 <= a <= b < recs.len() implies (#[trigger] recs[a]).start_offset
        <= (#[trigger] recs[b]).start_offset by {
        assert(recs[a].start_offset == arena[a].start_off as int);
        assert(recs[b].start_offset == arena[b].start_off as int);
        assert(arena[a].start_off <= arena[b].start_off);
    }
}

/// In a sound arena, the ancestor chain of node `j` is one longer than its
/// depth.
pub proof fn lemma_chain_depth(text: Seq<char>, tokens: Seq<Token>, arena: Seq<DeclNode>, j: int)
    requires
        arena_wf(text, tokens, arena),
        0 <= j < arena.len(),
    ensures
        chain(arena, j).len() == arena[j].depth + 1,
    decreases j,
{
    assert(node_ok(text, tokens, arena, j));
    match arena[j].parent {
        Option::Some(p) => {
            lemma_chain_depth(text, tokens, arena, p as int);
        },
        Option::None => {},
    }
}

/// Nesting law: every record's fully qualified name joins its ancestors'
/// names, root to leaf, with the profile separator, and its depth is the
/// length of that ancestor chain less one.
pub proof fn lemma_qualified_names(text: Seq<char>, tokens: Seq<Token>, p: ProfileModel)
    requires
        tokens_wf(text, tokens),
        tokens.len() <= usize::MAX,
        text.len() <= usize::MAX,
    ensures
        ({
            let arena = spec_recognize(text, tokens, p);
            let recs = spec_build(text, tokens, p, arena, spec_collect(text, tokens, p));
            forall|j: int|
                0 <= j < recs.len() ==> (#[trigger] recs[j]).qualified_name == join_names(
                    text,
                    tokens,
                    arena,
                    p.separator,
                    chain(arena, j),
                ) && recs[j].depth == chain(arena, j).len() - 1
        }),
{
    let arena = spec_recognize(text, tokens, p);
    let recs = spec_build(text, tokens, p, arena, spec_collect(text, tokens, p));
    lemma_recog_props(text, tokens, p, 0, Pend::Idle, Seq::empty(), Seq::empty());
    assert forall|j: int| 0 <= j < recs.len() implies (#[trigger] recs[j]).qualified_name
        == join_names(text, tokens, arena, p.separator, chain(arena, j)) && recs[j].depth == chain(
        arena,
        j,
    ).len() - 1 by {
        lemma_chain_depth(text, tokens, arena, j);
    }
}

/// What it means for a block's attachment to be right: it attaches exactly
/// when only comment tokens stand between the end of the block and the next
/// declaration-introducing token.
#[verifier::opaque]
pub open spec fn attach_ok(
    text: Seq<char>,
    tokens: Seq<Token>,
    p: ProfileModel,
    b: DocBlock,
) -> bool {
    match b.attach {
        Option::Some(k) => {
            &&& b.last < k < tokens.len()
            &&& is_decl_intro(text, p, tokens[k as int])
            &&& forall|m: int|
                b.last < m < k ==> is_comment_kind((#[trigger] tokens[m]).kind)
        },
        Option::None => forall|k: int|
            (b.last < k < tokens.len() && is_decl_intro(text, p, #[trigger] tokens[k])) ==> exists|
                m: int,
            | b.last < m < k && !is_comment_kind(tokens[m].kind),
    }
}

proof fn lemma_collect_attach(
    text: Seq<char>,
    tokens: Seq<Token>,
    p: ProfileModel,
    j: int,
    acc: Seq<DocBlock>,
)
    requires
        0 <= j <= tokens.len(),
        tokens.len() <= usize::MAX,
        forall|i: int| 0 <= i < acc.len() ==> attach_ok(text, tokens, p, #[trigger] acc[i]),
    ensures
        forall|i: int|
            0 <= i < collect_from(text, tokens, p, j, acc).len() ==> attach_ok(
                text,
                tokens,
                p,
                #[trigger] collect_from(text, tokens, p, j, acc)[i],
            ),
    decreases tokens.len() - j,
{
    if j >= tokens.len() {
    } else if tokens[j].kind == crate::token::TokenKind::DocComment {
        let e = doc_run_end(tokens, j + 1);
        lemma_doc_run_end(tokens, j + 1);
        let nx = next_non_comment(tokens, e);
        lemma_next_non_comment(tokens, e);
        let attach = if nx < tokens.len() && is_decl_intro(text, p, tokens[nx]) {
            Option::Some(nx as usize)
        } else {
            Option::None
        };
        let b = DocBlock { first: j as usize, last: (e - 1) as usize, attach };
        assert(attach_ok(text, tokens, p, b)) by {
            reveal(attach_ok);
            match attach {
                Option::Some(k) => {
                    assert(k == nx);
                    assert forall|m: int| b.last < m < k implies is_comment_kind(
                        (#[trigger] tokens[m]).kind,
                    ) by {
                        assert(e <= m < nx);
                    }
                },
                Option::None => {
                    assert forall|k: int|
                        (b.last < k < tokens.len() && is_decl_intro(
                            text,
                            p,
                            #[trigger] tokens[k],
                        )) implies exists|m: int|
                        b.last < m < k && !is_comment_kind(tokens[m].kind) by {
                        if k < nx {
                            assert(is_comment_kind(tokens[k].kind));
                            assert(false);
                        } else if k == nx {
                            assert(false);
                        } else {
                            assert(nx < tokens.len());
                            assert(!is_comment_kind(tokens[nx].kind));
                            assert(b.last < nx < k && !is_comment_kind(tokens[nx].kind));
                        }
                    }
                },
            }
        }
        let acc2 = acc.push(b);
        assert forall|i: int| 0 <= i < acc2.len() implies attach_ok(text, tokens, p, #[trigger] acc2[i]) by {
            if i < acc.len() {
                assert(acc2[i] == acc[i]);
            } else {
                assert(acc2[i] == b);
            }
        }
        lemma_collect_attach(text, tokens, p, e, acc2);
        assert(collect_from(text, tokens, p, j, acc) == collect_from(text, tokens, p, e, acc2));
    } else {
        lemma_collect_attach(text, tokens, p, j + 1, acc);
        assert(collect_from(text, tokens, p, j, acc) == collect_from(text, tokens, p, j + 1, acc));
    }
}

/// Doc attachment law: a collected block attaches to the next
/// declaration-introducing token exactly when every token between the end of
/// the block and that token is a comment; otherwise it attaches to nothing.
pub proof fn lemma_doc_attachment(text: Seq<char>, tokens: Seq<Token>, p: ProfileModel)
    requires
        tokens.len() <= usize::MAX,
    ensures
        forall|i: int|
            0 <= i < spec_collect(text, tokens, p).len() ==> attach_ok(
                text,
                tokens,
                p,
                #[trigger] spec_collect(text, tokens, p)[i],
            ),
{
    lemma_collect_attach(text, tokens, p, 0, Seq::empty());
}

} // verus!
