//! Tokens: the output of the lexical scanner.
//!
//! A token is a classified span of the source text.  Tokens never copy text;
//! later passes read the characters back through the `start`/`end` offsets.

use vstd::prelude::*;

verus! {

/// The lexical classes the scanner distinguishes.
#[derive(Clone, Copy, Debug, PartialEq, Eq, Structural)]
pub enum TokenKind {
    /// `// ...` up to (not including) the end of the line.
    LineComment,
    /// `/// ...` up to (not including) the end of the line.
    DocComment,
    /// `/* ... */` including the terminator.
    BlockComment,
    /// A string literal including both quotes; backslash escapes are honoured.
    StrLit,
    /// A character literal such as `'a'` or `'\n'`.
    CharLit,
    /// An identifier or keyword: letters, digits and `_`, not starting with a digit.
    Ident,
    /// A run of characters starting with a decimal digit.
    Number,
    LBrace,
    RBrace,
    LParen,
    RParen,
    Semi,
    /// Any single character the scanner does not otherwise classify.
    Other,
}

/// A classified span `[start, end)` of the source text.
#[derive(Clone, Copy, Debug, PartialEq, Eq, Structural)]
pub struct Token {
    pub kind: TokenKind,
    pub start: usize,
    pub end: usize,
}

pub open spec fn is_comment_kind(k: TokenKind) -> bool {
    k == TokenKind::LineComment || k == TokenKind::DocComment || k == TokenKind::BlockComment
}

/// Well-formed token streams: spans are nonempty, within the text, in strictly
/// increasing source order, and a doc comment always carries its three-slash
/// marker.
pub open spec fn tokens_wf(text: Seq<char>, tokens: Seq<Token>) -> bool {
    &&& forall|k: int|
        0 <= k < tokens.len() ==> (#[trigger] tokens[k]).start < tokens[k].end <= text.len()
    &&& forall|j: int, k: int|
        0 <= j && k == j + 1 && k < tokens.len() ==> (#[trigger] tokens[j]).end
            <= (#[trigger] tokens[k]).start
    &&& forall|k: int|
        0 <= k < tokens.len() && (#[trigger] tokens[k]).kind == TokenKind::DocComment
            ==> tokens[k].start + 3 <= tokens[k].end
}

/// In a well-formed stream, start offsets are monotone in the token order.
pub proof fn lemma_tokens_sorted(text: Seq<char>, tokens: Seq<Token>, a: int, b: int)
    requires
        tokens_wf(text, tokens),
        0 <= a <= b < tokens.len(),
    ensures
        tokens[a].start <= tokens[b].start,
    decreases b - a,
{
    if a < b {
        lemma_tokens_sorted(text, tokens, a, b - 1);
        assert(tokens[b - 1].end <= tokens[b].start);
        assert(tokens[b - 1].start < tokens[b - 1].end);
    }
}

} // verus!
