//! Lexical scanner: raw text to a token stream.
//!
//! The scanner covers the brace-delimited grammar family: line comments
//! (`//`, with `///` marking documentation), block comments (`/* */`),
//! string and character literals with backslash escapes, identifiers,
//! digit runs, and structural punctuation.  Unknown characters become
//! `Other` tokens, so scanning never fails on strange text; the only
//! failures are an unterminated string or block comment at end of input,
//! reported with the offset where the literal opened.
//!
//! `spec_scan` is the functional specification; `scan` is proved to return
//! exactly its result.

use vstd::prelude::*;
use crate::token::{Token, TokenKind, tokens_wf};

verus! {

pub open spec fn is_space(c: char) -> bool {
    c == ' ' || c == '\t' || c == '\r' || c == '\n'
}

/// Letters and `_` (codes 65..=90, 97..=122, and `_`).
pub open spec fn is_ident_start(c: char) -> bool {
    (97 <= c as u32 <= 122) || (65 <= c as u32 <= 90) || c == '_'
}

/// Decimal digits (codes 48..=57).
pub open spec fn is_digit(c: char) -> bool {
    48 <= c as u32 <= 57
}

pub open spec fn is_ident_char(c: char) -> bool {
    is_ident_start(c) || is_digit(c)
}

/// First position at or after `i` holding a newline, or the text length.
pub open spec fn line_end(text: Seq<char>, i: int) -> int
    decreases text.len() - i
    when 0 <= i <= text.len()
{
    if i >= text.len() || text[i] == '\n' {
        i
    } else {
        line_end(text, i + 1)
    }
}

/// First position at or after `i` holding a non-identifier character, or the
/// text length.
pub open spec fn ident_end(text: Seq<char>, i: int) -> int
    decreases text.len() - i
    when 0 <= i <= text.len()
{
    if i >= text.len() || !is_ident_char(text[i]) {
        i
    } else {
        ident_end(text, i + 1)
    }
}

/// Position just after the `*/` that closes a block comment whose body starts
/// at `i`, or `None` when the comment runs to end of input.
pub open spec fn block_end(text: Seq<char>, i: int) -> Option<int>
    decreases text.len() - i
    when 0 <= i <= text.len()
{
    if i + 1 >= text.len() {
        Option::None
    } else if text[i] == '*' && text[i + 1] == '/' {
        Option::Some(i + 2)
    } else {
        block_end(text, i + 1)
    }
}

/// Position just after the quote that closes a string whose body starts at
/// `i`, honouring backslash escapes, or `None` when the string is
/// unterminated.
pub open spec fn str_end(text: Seq<char>, i: int) -> Option<int>
    decreases text.len() - i
    when 0 <= i <= text.len()
{
    if i >= text.len() {
        Option::None
    } else if text[i] == '"' {
        Option::Some(i + 1)
    } else if text[i] == '\\' {
        if i + 2 <= text.len() {
            str_end(text, i + 2)
        } else {
            Option::None
        }
    } else {
        str_end(text, i + 1)
    }
}

pub proof fn lemma_line_end(text: Seq<char>, i: int)
    requires
        0 <= i <= text.len(),
    ensures
        i <= line_end(text, i) <= text.len(),
    decreases text.len() - i,
{
    if !(i >= text.len() || text[i] == '\n') {
        lemma_line_end(text, i + 1);
    }
}

pub proof fn lemma_ident_end(text: Seq<char>, i: int)
    requires
        0 <= i <= text.len(),
    ensures
        i <= ident_end(text, i) <= text.len(),
    decreases text.len() - i,
{
    if !(i >= text.len() || !is_ident_char(text[i])) {
        lemma_ident_end(text, i + 1);
    }
}

pub proof fn lemma_block_end(text: Seq<char>, i: int)
    requires
        0 <= i <= text.len(),
    ensures
        match block_end(text, i) {
            Option::Some(e) => i + 2 <= e <= text.len(),
            Option::None => true,
        },
    decreases text.len() - i,
{
    if i + 1 < text.len() && !(text[i] == '*' && text[i + 1] == '/') {
        lemma_block_end(text, i + 1);
    }
}

pub proof fn lemma_str_end(text: Seq<char>, i: int)
    requires
        0 <= i <= text.len(),
    ensures
        match str_end(text, i) {
            Option::Some(e) => i < e <= text.len(),
            Option::None => true,
        },
    decreases text.len() - i,
{
    if i < text.len() && text[i] != '"' {
        if text[i] == '\\' {
            if i + 2 <= text.len() {
                lemma_str_end(text, i + 2);
            }
        } else {
            lemma_str_end(text, i + 1);
        }
    }
}

pub open spec fn punct_kind(c: char) -> TokenKind {
    if c == '{' {
        TokenKind::LBrace
    } else if c == '}' {
        TokenKind::RBrace
    } else if c == '(' {
        TokenKind::LParen
    } else if c == ')' {
        TokenKind::RParen
    } else if c == ';' {
        TokenKind::Semi
    } else {
        TokenKind::Other
    }
}

/// Scan the text from position `i`, with `acc` the tokens already produced.
pub open spec fn scan_from(text: Seq<char>, i: int, acc: Seq<Token>) -> Result<Seq<Token>, usize>
    decreases text.len() - i
    when 0 <= i <= text.len() && text.len() <= usize::MAX
    via scan_from_dec
{
    if i >= text.len() {
        Ok(acc)
    } else {
        let c = text[i];
        if is_space(c) {
            scan_from(text, i + 1, acc)
        } else if c == '/' && i + 1 < text.len() && text[i + 1] == '/' {
            let e = line_end(text, i);
            let kind = if i + 2 < text.len() && text[i + 2] == '/' {
                TokenKind::DocComment
            } else {
                TokenKind::LineComment
            };
            scan_from(text, e, acc.push(Token { kind, start: i as usize, end: e as usize }))
        } else if c == '/' && i + 1 < text.len() && text[i + 1] == '*' {
            match block_end(text, i + 2) {
                Option::None => Err(i as usize),
                Option::Some(e) => scan_from(
                    text,
                    e,
                    acc.push(
                        Token { kind: TokenKind::BlockComment, start: i as usize, end: e as usize },
                    ),
                ),
            }
        } else if c == '"' {
            match str_end(text, i + 1) {
                Option::None => Err(i as usize),
                Option::Some(e) => scan_from(
                    text,
                    e,
                    acc.push(Token { kind: TokenKind::StrLit, start: i as usize, end: e as usize }),
                ),
            }
        } else if c == '\'' {
            if i + 2 < text.len() && text[i + 1] != '\\' && text[i + 2] == '\'' {
                scan_from(
                    text,
                    i + 3,
                    acc.push(
                        Token { kind: TokenKind::CharLit, start: i as usize, end: (i + 3) as usize },
                    ),
                )
            } else if i + 3 < text.len() && text[i + 1] == '\\' && text[i + 3] == '\'' {
                scan_from(
                    text,
                    i + 4,
                    acc.push(
                        Token { kind: TokenKind::CharLit, start: i as usize, end: (i + 4) as usize },
                    ),
                )
            } else {
                scan_from(
                    text,
                    i + 1,
                    acc.push(
                        Token { kind: TokenKind::Other, start: i as usize, end: (i + 1) as usize },
                    ),
                )
            }
        } else if is_ident_start(c) {
            let e = ident_end(text, i + 1);
            scan_from(
                text,
                e,
                acc.push(Token { kind: TokenKind::Ident, start: i as usize, end: e as usize }),
            )
        } else if is_digit(c) {
            let e = ident_end(text, i + 1);
            scan_from(
                text,
                e,
                acc.push(Token { kind: TokenKind::Number, start: i as usize, end: e as usize }),
            )
        } else {
            scan_from(
                text,
                i + 1,
                acc.push(Token { kind: punct_kind(c), start: i as usize, end: (i + 1) as usize }),
            )
        }
    }
}

#[via_fn]
proof fn scan_from_dec(text: Seq<char>, i: int, acc: Seq<Token>) {
    if 0 <= i < text.len() {
        let c = text[i];
        if is_space(c) {
        } else if c == '/' && i + 1 < text.len() && text[i + 1] == '/' {
            lemma_line_end(text, i + 1);
            assert(line_end(text, i) == line_end(text, i + 1));
        } else if c == '/' && i + 1 < text.len() && text[i + 1] == '*' {
            lemma_block_end(text, i + 2);
        } else if c == '"' {
            lemma_str_end(text, i + 1);
        } else if c == '\'' {
        } else if is_ident_start(c) || is_digit(c) {
            lemma_ident_end(text, i + 1);
        }
    }
}

/// The functional specification of scanning a whole text.
pub open spec fn spec_scan(text: Seq<char>) -> Result<Seq<Token>, usize> {
    scan_from(text, 0, Seq::empty())
}

/// Pushing a token whose span follows the accumulated stream keeps it
/// well formed.
proof fn lemma_wf_push(text: Seq<char>, acc: Seq<Token>, t: Token)
    requires
        tokens_wf(text, acc),
        acc.len() > 0 ==> acc.last().end <= t.start,
        t.start < t.end <= text.len(),
        t.kind == TokenKind::DocComment ==> t.start + 3 <= t.end,
    ensures
        tokens_wf(text, acc.push(t)),
{
    let acc2 = acc.push(t);
    assert forall|k: int| 0 <= k < acc2.len() implies (#[trigger] acc2[k]).start < acc2[k].end
        <= text.len() by {
        if k < acc.len() {
            assert(acc2[k] == acc[k]);
        } else {
            assert(acc2[k] == t);
        }
    }
    assert forall|j: int, k: int| 0 <= j && k == j + 1 && k < acc2.len() implies (#[trigger] acc2[j]).end
        <= (#[trigger] acc2[k]).start by {
        assert(acc2[j] == acc[j]);
        if k < acc.len() {
            assert(acc2[k] == acc[k]);
        } else {
            assert(acc2[k] == t);
            assert(acc[j] == acc.last());
        }
    }
    assert forall|k: int|
        0 <= k < acc2.len() && (#[trigger] acc2[k]).kind == TokenKind::DocComment implies acc2[k].start
        + 3 <= acc2[k].end by {
        if k < acc.len() {
            assert(acc2[k] == acc[k]);
        } else {
            assert(acc2[k] == t);
        }
    }
}

/// Whenever scanning succeeds, the token stream is well formed.
pub proof fn lemma_scan_from_wf(text: Seq<char>, i: int, acc: Seq<Token>)
    requires
        0 <= i <= text.len() <= usize::MAX,
        tokens_wf(text, acc),
        acc.len() > 0 ==> acc.last().end <= i,
    ensures
        match scan_from(text, i, acc) {
            Ok(toks) => tokens_wf(text, toks) && toks.len() <= acc.len() + text.len() - i,
            Err(_) => true,
        },
    decreases text.len() - i,
{
    if i < text.len() {
        let c = text[i];
        if is_space(c) {
            lemma_scan_from_wf(text, i + 1, acc);
        } else if c == '/' && i + 1 < text.len() && text[i + 1] == '/' {
            let e = line_end(text, i);
            lemma_line_end(text, i + 1);
            assert(line_end(text, i) == line_end(text, i + 1));
            let kind = if i + 2 < text.len() && text[i + 2] == '/' {
                TokenKind::DocComment
            } else {
                TokenKind::LineComment
            };
            if i + 2 < text.len() && text[i + 2] == '/' {
                lemma_line_end(text, i + 3);
                assert(line_end(text, i + 1) == line_end(text, i + 2));
                assert(line_end(text, i + 2) == line_end(text, i + 3));
            }
            let t = Token { kind, start: i as usize, end: e as usize };
            lemma_wf_push(text, acc, t);
            lemma_scan_from_wf(text, e, acc.push(t));
        } else if c == '/' && i + 1 < text.len() && text[i + 1] == '*' {
            lemma_block_end(text, i + 2);
            match block_end(text, i + 2) {
                Option::None => {},
                Option::Some(e) => {
                    let t = Token {
                        kind: TokenKind::BlockComment,
                        start: i as usize,
                        end: e as usize,
                    };
                    lemma_wf_push(text, acc, t);
                    lemma_scan_from_wf(text, e, acc.push(t));
                },
            }
        } else if c == '"' {
            lemma_str_end(text, i + 1);
            match str_end(text, i + 1) {
                Option::None => {},
                Option::Some(e) => {
                    let t = Token { kind: TokenKind::StrLit, start: i as usize, end: e as usize };
                    lemma_wf_push(text, acc, t);
                    lemma_scan_from_wf(text, e, acc.push(t));
                },
            }
        } else if c == '\'' {
            if i + 2 < text.len() && text[i + 1] != '\\' && text[i + 2] == '\'' {
                let t = Token { kind: TokenKind::CharLit, start: i as usize, end: (i + 3) as usize };
                lemma_wf_push(text, acc, t);
                lemma_scan_from_wf(text, i + 3, acc.push(t));
            } else if i + 3 < text.len() && text[i + 1] == '\\' && text[i + 3] == '\'' {
                let t = Token { kind: TokenKind::CharLit, start: i as usize, end: (i + 4) as usize };
                lemma_wf_push(text, acc, t);
                lemma_scan_from_wf(text, i + 4, acc.push(t));
            } else {
                let t = Token { kind: TokenKind::Other, start: i as usize, end: (i + 1) as usize };
                lemma_wf_push(text, acc, t);
                lemma_scan_from_wf(text, i + 1, acc.push(t));
            }
        } else if is_ident_start(c) {
            let e = ident_end(text, i + 1);
            lemma_ident_end(text, i + 1);
            let t = Token { kind: TokenKind::Ident, start: i as usize, end: e as usize };
            lemma_wf_push(text, acc, t);
            lemma_scan_from_wf(text, e, acc.push(t));
        } else if is_digit(c) {
            let e = ident_end(text, i + 1);
            lemma_ident_end(text, i + 1);
            let t = Token { kind: TokenKind::Number, start: i as usize, end: e as usize };
            lemma_wf_push(text, acc, t);
            lemma_scan_from_wf(text, e, acc.push(t));
        } else {
            let t = Token { kind: punct_kind(c), start: i as usize, end: (i + 1) as usize };
            lemma_wf_push(text, acc, t);
            lemma_scan_from_wf(text, i + 1, acc.push(t));
        }
    }
}

fn ch_is_space(c: char) -> (b: bool)
    ensures
        b == is_space(c),
{
    c == ' ' || c == '\t' || c == '\r' || c == '\n'
}

fn ch_is_ident_start(c: char) -> (b: bool)
    ensures
        b == is_ident_start(c),
{
    let u = c as u32;
    (97 <= u && u <= 122) || (65 <= u && u <= 90) || c == '_'
}

fn ch_is_digit(c: char) -> (b: bool)
    ensures
        b == is_digit(c),
{
    let u = c as u32;
    48 <= u && u <= 57
}

fn ch_is_ident_char(c: char) -> (b: bool)
    ensures
        b == is_ident_char(c),
{
    let u = c as u32;
    (97 <= u && u <= 122) || (65 <= u && u <= 90) || c == '_' || (48 <= u && u <= 57)
}

/// Tokenize the whole text.  Returns the token stream, or the offset of the
/// opening of an unterminated string or block comment.
#[verifier::loop_isolation(false)]
pub fn scan(chars: &Vec<char>) -> (r: Result<Vec<Token>, usize>)
    ensures
        match r {
            Ok(toks) => spec_scan(chars@) == Ok::<Seq<Token>, usize>(toks@) && tokens_wf(
                chars@,
                toks@,
            ),
            Err(off) => spec_scan(chars@) == Err::<Seq<Token>, usize>(off),
        },
{
    let n = chars.len();
    let mut toks: Vec<Token> = Vec::new();
    let mut i: usize = 0;
    while i < n
        invariant
            i <= n,
            scan_from(chars@, i as int, toks@) == spec_scan(chars@),
            tokens_wf(chars@, toks@),
            toks@.len() > 0 ==> toks@.last().end <= i,
        decreases n - i,
    {
        let ghost tv = toks@;
        let c = chars[i];
        if ch_is_space(c) {
            i = i + 1;
        } else if c == '/' && i + 1 < n && chars[i + 1] == '/' {
            let mut e: usize = i;
            while e < n && chars[e] != '\n'
                invariant
                    i <= e <= n,
                    line_end(chars@, i as int) == line_end(chars@, e as int),
                decreases n - e,
            {
                proof {
                    assert(line_end(chars@, e as int) == line_end(chars@, (e + 1) as int));
                }
                e = e + 1;
            }
            assert(line_end(chars@, i as int) == e);
            let kind = if i + 2 < n && chars[i + 2] == '/' {
                TokenKind::DocComment
            } else {
                TokenKind::LineComment
            };
            let t = Token { kind, start: i, end: e };
            proof {
                if i + 2 < n && chars@[i + 2] == '/' {
                    assert(line_end(chars@, i as int) == line_end(chars@, i + 1));
                    assert(line_end(chars@, i + 1) == line_end(chars@, i + 2));
                    assert(line_end(chars@, i + 2) == line_end(chars@, i + 3));
                    lemma_line_end(chars@, i + 3);
                }
                lemma_wf_push(chars@, tv, t);
            }
            toks.push(t);
            i = e;
        } else if c == '/' && i + 1 < n && chars[i + 1] == '*' {
            let mut j: usize = i + 2;
            let mut e: usize = 0;
            let mut closed = false;
            while !closed
                invariant
                    i + 2 <= j <= n,
                    !closed ==> block_end(chars@, (i + 2) as int) == block_end(chars@, j as int),
                    closed ==> block_end(chars@, (i + 2) as int) == Option::Some(e as int),
                    closed ==> i + 2 <= e <= n,
                decreases n - j + (if closed { 0int } else { 1int }),
            {
                if n - j < 2 {
                    // the comment never closes
                    assert(block_end(chars@, j as int) == Option::None::<int>);
                    assert(spec_scan(chars@) == Err::<Seq<Token>, usize>(i));
                    return Err(i);
                }
                if chars[j] == '*' && chars[j + 1] == '/' {
                    e = j + 2;
                    closed = true;
                    assert(block_end(chars@, j as int) == Option::Some((j + 2) as int));
                } else {
                    proof {
                        assert(block_end(chars@, j as int) == block_end(chars@, (j + 1) as int));
                    }
                    j = j + 1;
                }
            }
            let t = Token { kind: TokenKind::BlockComment, start: i, end: e };
            proof {
                lemma_wf_push(chars@, tv, t);
            }
            toks.push(t);
            i = e;
        } else if c == '"' {
            let mut j: usize = i + 1;
            let mut e: usize = 0;
            let mut closed = false;
            while !closed
                invariant
                    i + 1 <= j <= n,
                    !closed ==> str_end(chars@, (i + 1) as int) == str_end(chars@, j as int),
                    closed ==> str_end(chars@, (i + 1) as int) == Option::Some(e as int),
                    closed ==> i + 1 <= e <= n,
                decreases n - j + (if closed { 0int } else { 1int }),
            {
                if j >= n {
                    assert(str_end(chars@, j as int) == Option::None::<int>);
                    assert(spec_scan(chars@) == Err::<Seq<Token>, usize>(i));
                    return Err(i);
                }
                let cj = chars[j];
                if cj == '"' {
                    e = j + 1;
                    closed = true;
                    assert(str_end(chars@, j as int) == Option::Some((j + 1) as int));
                } else if cj == '\\' {
                    if n - j >= 2 {
                        proof {
                            assert(str_end(chars@, j as int) == str_end(chars@, (j + 2) as int));
                        }
                        j = j + 2;
                    } else {
                        assert(str_end(chars@, j as int) == Option::None::<int>);
                        assert(spec_scan(chars@) == Err::<Seq<Token>, usize>(i));
                        return Err(i);
                    }
                } else {
                    proof {
                        assert(str_end(chars@, j as int) == str_end(chars@, (j + 1) as int));
                    }
                    j = j + 1;
                }
            }
            let t = Token { kind: TokenKind::StrLit, start: i, end: e };
            proof {
                lemma_wf_push(chars@, tv, t);
            }
            toks.push(t);
            i = e;
        } else if c == '\'' {
            if n - i > 2 && chars[i + 1] != '\\' && chars[i + 2] == '\'' {
                let t = Token { kind: TokenKind::CharLit, start: i, end: i + 3 };
                proof {
                    lemma_wf_push(chars@, tv, t);
                }
                toks.push(t);
                i = i + 3;
            } else if n - i > 3 && chars[i + 1] == '\\' && chars[i + 3] == '\'' {
                let t = Token { kind: TokenKind::CharLit, start: i, end: i + 4 };
                proof {
                    lemma_wf_push(chars@, tv, t);
                }
                toks.push(t);
                i = i + 4;
            } else {
                let t = Token { kind: TokenKind::Other, start: i, end: i + 1 };
                proof {
                    lemma_wf_push(chars@, tv, t);
                }
                toks.push(t);
                i = i + 1;
            }
        } else if ch_is_ident_start(c) || ch_is_digit(c) {
            let kind = if ch_is_ident_start(c) {
                TokenKind::Ident
            } else {
                TokenKind::Number
            };
            let mut e: usize = i + 1;
            while e < n && ch_is_ident_char(chars[e])
                invariant
                    i + 1 <= e <= n,
                    ident_end(chars@, (i + 1) as int) == ident_end(chars@, e as int),
                decreases n - e,
            {
                proof {
                    assert(is_ident_char(chars@[e as int]));
                    assert(ident_end(chars@, e as int) == ident_end(chars@, (e + 1) as int));
                }
                e = e + 1;
            }
            assert(ident_end(chars@, (i + 1) as int) == e);
            let t = Token { kind, start: i, end: e };
            proof {
                lemma_wf_push(chars@, tv, t);
            }
            toks.push(t);
            i = e;
        } else {
            let kind = if c == '{' {
                TokenKind::LBrace
            } else if c == '}' {
                TokenKind::RBrace
            } else if c == '(' {
                TokenKind::LParen
            } else if c == ')' {
                TokenKind::RParen
            } else if c == ';' {
                TokenKind::Semi
            } else {
                TokenKind::Other
            };
            assert(kind == punct_kind(c));
            let t = Token { kind, start: i, end: i + 1 };
            proof {
                lemma_wf_push(chars@, tv, t);
            }
            toks.push(t);
            i = i + 1;
        }
    }
    assert(scan_from(chars@, i as int, toks@) == Ok::<Seq<Token>, usize>(toks@));
    Ok(toks)
}

/// Position `m` lies inside one of the tokens.
pub open spec fn covered(tokens: Seq<Token>, m: int) -> bool {
    exists|k: int| 0 <= k < tokens.len() && (#[trigger] tokens[k]).start <= m < tokens[k].end
}

proof fn lemma_covered_push(tokens: Seq<Token>, t: Token, m: int)
    requires
        covered(tokens, m) || t.start <= m < t.end,
    ensures
        covered(tokens.push(t), m),
{
    if covered(tokens, m) {
        let k = choose|k: int| 0 <= k < tokens.len() && (#[trigger] tokens[k]).start <= m
            < tokens[k].end;
        assert(tokens.push(t)[k] == tokens[k]);
    } else {
        assert(tokens.push(t)[tokens.len() as int] == t);
    }
}

proof fn lemma_covers_step(text: Seq<char>, i: int, acc: Seq<Token>, t: Token, e: int)
    requires
        0 <= i <= e <= text.len() <= usize::MAX,
        t.start == i,
        t.end == e,
        forall|m: int| 0 <= m < i ==> covered(acc, m) || is_space(text[m]),
    ensures
        forall|m: int| 0 <= m < e ==> covered(acc.push(t), m) || is_space(text[m]),
{
    let acc2 = acc.push(t);
    assert forall|m: int| 0 <= m < e implies covered(acc2, m) || is_space(text[m]) by {
        if m < i {
            if covered(acc, m) {
                lemma_covered_push(acc, t, m);
            }
        } else {
            lemma_covered_push(acc, t, m);
        }
    }
}

/// No gaps: when scanning succeeds, every position of the text is either
/// inside a token or whitespace.
pub proof fn lemma_scan_covers(text: Seq<char>, i: int, acc: Seq<Token>)
    requires
        0 <= i <= text.len() <= usize::MAX,
        forall|m: int| 0 <= m < i ==> covered(acc, m) || is_space(text[m]),
    ensures
        match scan_from(text, i, acc) {
            Ok(toks) => forall|m: int|
                0 <= m < text.len() ==> covered(toks, m) || is_space(text[m]),
            Err(_) => true,
        },
    decreases text.len() - i,
{
    if i < text.len() {
        let c = text[i];
        if is_space(c) {
            assert forall|m: int| 0 <= m < i + 1 implies covered(acc, m) || is_space(text[m]) by {}
            lemma_scan_covers(text, i + 1, acc);
        } else if c == '/' && i + 1 < text.len() && text[i + 1] == '/' {
            let e = line_end(text, i);
            lemma_line_end(text, i + 1);
            assert(line_end(text, i) == line_end(text, i + 1));
            let kind = if i + 2 < text.len() && text[i + 2] == '/' {
                TokenKind::DocComment
            } else {
                TokenKind::LineComment
            };
            let t = Token { kind, start: i as usize, end: e as usize };
            lemma_covers_step(text, i, acc, t, e);
            lemma_scan_covers(text, e, acc.push(t));
        } else if c == '/' && i + 1 < text.len() && text[i + 1] == '*' {
            lemma_block_end(text, i + 2);
            match block_end(text, i + 2) {
                Option::None => {},
                Option::Some(e) => {
                    let t = Token {
                        kind: TokenKind::BlockComment,
                        start: i as usize,
                        end: e as usize,
                    };
                    lemma_covers_step(text, i, acc, t, e);
                    lemma_scan_covers(text, e, acc.push(t));
                },
            }
        } else if c == '"' {
            lemma_str_end(text, i + 1);
            match str_end(text, i + 1) {
                Option::None => {},
                Option::Some(e) => {
                    let t = Token { kind: TokenKind::StrLit, start: i as usize, end: e as usize };
                    lemma_covers_step(text, i, acc, t, e);
                    lemma_scan_covers(text, e, acc.push(t));
                },
            }
        } else if c == '\'' {
            if i + 2 < text.len() && text[i + 1] != '\\' && text[i + 2] == '\'' {
                let t = Token { kind: TokenKind::CharLit, start: i as usize, end: (i + 3) as usize };
                lemma_covers_step(text, i, acc, t, i + 3);
                lemma_scan_covers(text, i + 3, acc.push(t));
            } else if i + 3 < text.len() && text[i + 1] == '\\' && text[i + 3] == '\'' {
                let t = Token { kind: TokenKind::CharLit, start: i as usize, end: (i + 4) as usize };
                lemma_covers_step(text, i, acc, t, i + 4);
                lemma_scan_covers(text, i + 4, acc.push(t));
            } else {
                let t = Token { kind: TokenKind::Other, start: i as usize, end: (i + 1) as usize };
                lemma_covers_step(text, i, acc, t, i + 1);
                lemma_scan_covers(text, i + 1, acc.push(t));
            }
        } else if is_ident_start(c) {
            let e = ident_end(text, i + 1);
            lemma_ident_end(text, i + 1);
            let t = Token { kind: TokenKind::Ident, start: i as usize, end: e as usize };
            lemma_covers_step(text, i, acc, t, e);
            lemma_scan_covers(text, e, acc.push(t));
        } else if is_digit(c) {
            let e = ident_end(text, i + 1);
            lemma_ident_end(text, i + 1);
            let t = Token { kind: TokenKind::Number, start: i as usize, end: e as usize };
            lemma_covers_step(text, i, acc, t, e);
            lemma_scan_covers(text, e, acc.push(t));
        } else {
            let t = Token { kind: punct_kind(c), start: i as usize, end: (i + 1) as usize };
            lemma_covers_step(text, i, acc, t, i + 1);
            lemma_scan_covers(text, i + 1, acc.push(t));
        }
    }
}

} // verus!
