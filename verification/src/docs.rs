//! Doc-comment collector: group adjacent doc-comment tokens into blocks and
//! associate each block with the next declaration-introducing token.
//!
//! A block is a maximal run of consecutive `DocComment` tokens.  It attaches
//! to the first non-comment token that follows, provided that token can open
//! a declaration; ordinary comments in between do not break the attachment.
//! A block followed by anything else stays unattached (orphaned documentation
//! is not an error).

use vstd::prelude::*;
use crate::token::{Token, TokenKind, is_comment_kind, tokens_wf};
use crate::profile::{LanguageProfile, ProfileModel, decl_intro_at, is_decl_intro};

verus! {

/// A documentation block: the token range `[first, last]` of the run, and the
/// index of the declaration-introducing token it attaches to, if any.
#[derive(Clone, Copy, Debug, PartialEq, Eq, Structural)]
pub struct DocBlock {
    pub first: usize,
    pub last: usize,
    pub attach: Option<usize>,
}

/// First index at or after `j` whose token is not a doc comment.
pub open spec fn doc_run_end(tokens: Seq<Token>, j: int) -> int
    decreases tokens.len() - j
    when 0 <= j <= tokens.len()
{
    if j >= tokens.len() || tokens[j].kind != TokenKind::DocComment {
        j
    } else {
        doc_run_end(tokens, j + 1)
    }
}

/// First index at or after `j` whose token is not a comment.
pub open spec fn next_non_comment(tokens: Seq<Token>, j: int) -> int
    decreases tokens.len() - j
    when 0 <= j <= tokens.len()
{
    if j >= tokens.len() || !is_comment_kind(tokens[j].kind) {
        j
    } else {
        next_non_comment(tokens, j + 1)
    }
}

/// The run end is within bounds and every token of the run is a doc comment.
pub proof fn lemma_doc_run_end(tokens: Seq<Token>, j: int)
    requires
        0 <= j <= tokens.len(),
    ensures
        j <= doc_run_end(tokens, j) <= tokens.len(),
        forall|m: int|
            j <= m < doc_run_end(tokens, j) ==> (#[trigger] tokens[m]).kind
                == TokenKind::DocComment,
    decreases tokens.len() - j,
{
    if !(j >= tokens.len() || tokens[j].kind != TokenKind::DocComment) {
        lemma_doc_run_end(tokens, j + 1);
    }
}

/// Every token skipped on the way to the next non-comment is a comment, and
/// the token reached (when in bounds) is not.
pub proof fn lemma_next_non_comment(tokens: Seq<Token>, j: int)
    requires
        0 <= j <= tokens.len(),
    ensures
        j <= next_non_comment(tokens, j) <= tokens.len(),
        forall|m: int|
            j <= m < next_non_comment(tokens, j) ==> is_comment_kind(
                (#[trigger] tokens[m]).kind,
            ),
        next_non_comment(tokens, j) < tokens.len() ==> !is_comment_kind(
            tokens[next_non_comment(tokens, j)].kind,
        ),
    decreases tokens.len() - j,
{
    if !(j >= tokens.len() || !is_comment_kind(tokens[j].kind)) {
        lemma_next_non_comment(tokens, j + 1);
    }
}

/// Collect doc blocks from token index `j` on, with `acc` the blocks already
/// produced.
pub open spec fn collect_from(
    text: Seq<char>,
    tokens: Seq<Token>,
    p: ProfileModel,
    j: int,
    acc: Seq<DocBlock>,
) -> Seq<DocBlock>
    decreases tokens.len() - j
    when 0 <= j <= tokens.len() && tokens.len() <= usize::MAX
    via collect_from_dec
{
    if j >= tokens.len() {
        acc
    } else if tokens[j].kind == TokenKind::DocComment {
        let e = doc_run_end(tokens, j + 1);
        let nx = next_non_comment(tokens, e);
        let attach = if nx < tokens.len() && is_decl_intro(text, p, tokens[nx]) {
            Option::Some(nx as usize)
        } else {
            Option::None
        };
        collect_from(
            text,
            tokens,
            p,
            e,
            acc.push(DocBlock { first: j as usize, last: (e - 1) as usize, attach }),
        )
    } else {
        collect_from(text, tokens, p, j + 1, acc)
    }
}

#[via_fn]
proof fn collect_from_dec(
    text: Seq<char>,
    tokens: Seq<Token>,
    p: ProfileModel,
    j: int,
    acc: Seq<DocBlock>,
) {
    if 0 <= j < tokens.len() && tokens[j].kind == TokenKind::DocComment {
        lemma_doc_run_end(tokens, j + 1);
    }
}

/// The functional specification of the collector pass.
pub open spec fn spec_collect(text: Seq<char>, tokens: Seq<Token>, p: ProfileModel) -> Seq<
    DocBlock,
> {
    collect_from(text, tokens, p, 0, Seq::empty())
}

/// A block covers a nonempty in-bounds run of doc-comment tokens, and its
/// attachment, if any, lies after the run.
pub open spec fn block_ok(tokens: Seq<Token>, b: DocBlock) -> bool {
    &&& b.first <= b.last < tokens.len()
    &&& forall|m: int|
        b.first <= m <= b.last ==> (#[trigger] tokens[m]).kind == TokenKind::DocComment
    &&& match b.attach {
        Option::Some(k) => b.last < k < tokens.len(),
        Option::None => true,
    }
}

pub open spec fn blocks_wf(tokens: Seq<Token>, docs: Seq<DocBlock>) -> bool {
    forall|i: int| 0 <= i < docs.len() ==> block_ok(tokens, #[trigger] docs[i])
}

proof fn lemma_blocks_wf_push(tokens: Seq<Token>, docs: Seq<DocBlock>, b: DocBlock)
    requires
        blocks_wf(tokens, docs),
        block_ok(tokens, b),
    ensures
        blocks_wf(tokens, docs.push(b)),
{
    let docs2 = docs.push(b);
    assert forall|i: int| 0 <= i < docs2.len() implies block_ok(tokens, #[trigger] docs2[i]) by {
        if i < docs.len() {
            assert(docs2[i] == docs[i]);
        } else {
            assert(docs2[i] == b);
        }
    }
}

fn kind_is_comment(k: TokenKind) -> (b: bool)
    ensures
        b == is_comment_kind(k),
{
    matches!(k, TokenKind::LineComment | TokenKind::DocComment | TokenKind::BlockComment)
}

/// Walk the token stream and produce the doc blocks.
#[verifier::loop_isolation(false)]
pub fn collect_docs(chars: &Vec<char>, tokens: &Vec<Token>, profile: &LanguageProfile) -> (docs:
    Vec<DocBlock>)
    requires
        tokens_wf(chars@, tokens@),
    ensures
        docs@ == spec_collect(chars@, tokens@, profile@),
        blocks_wf(tokens@, docs@),
{
    let n = tokens.len();
    let mut docs: Vec<DocBlock> = Vec::new();
    let mut j: usize = 0;
    while j < n
        invariant
            j <= n,
            collect_from(chars@, tokens@, profile@, j as int, docs@) == spec_collect(
                chars@,
                tokens@,
                profile@,
            ),
            blocks_wf(tokens@, docs@),
        decreases n - j,
    {
        let ghost dv = docs@;
        if matches!(tokens[j].kind, TokenKind::DocComment) {
            let mut e: usize = j + 1;
            while e < n && matches!(tokens[e].kind, TokenKind::DocComment)
                invariant
                    j + 1 <= e <= n,
                    doc_run_end(tokens@, (j + 1) as int) == doc_run_end(tokens@, e as int),
                decreases n - e,
            {
                proof {
                    assert(doc_run_end(tokens@, e as int) == doc_run_end(tokens@, (e + 1) as int));
                }
                e = e + 1;
            }
            assert(doc_run_end(tokens@, (j + 1) as int) == e);
            let mut nx: usize = e;
            while nx < n && kind_is_comment(tokens[nx].kind)
                invariant
                    e <= nx <= n,
                    next_non_comment(tokens@, e as int) == next_non_comment(tokens@, nx as int),
                decreases n - nx,
            {
                proof {
                    assert(next_non_comment(tokens@, nx as int) == next_non_comment(
                        tokens@,
                        (nx + 1) as int,
                    ));
                }
                nx = nx + 1;
            }
            assert(next_non_comment(tokens@, e as int) == nx);
            let attach: Option<usize> = if nx < n && decl_intro_at(profile, chars, &tokens[nx]) {
                Some(nx)
            } else {
                None
            };
            let b = DocBlock { first: j, last: e - 1, attach };
            proof {
                lemma_doc_run_end(tokens@, j + 1);
                lemma_blocks_wf_push(tokens@, dv, b);
            }
            docs.push(b);
            j = e;
        } else {
            j = j + 1;
        }
    }
    docs
}

} // verus!
