//! Declaration recognizer: token stream to a tree of declaration spans.
//!
//! The recognizer keeps a stack of open scopes.  A modifier word (`pub`)
//! tentatively opens a declaration; a declaration keyword makes it pending;
//! the first plain identifier after the keyword names it.  An opening brace
//! turns the pending declaration into a scope (or an anonymous block when
//! nothing is pending); a semicolon finalizes it as a leaf; a closing brace
//! finalizes the innermost scope.  A keyword with no recognizable name yields
//! an empty name and kind `Other`; unbalanced delimiters are closed at end of
//! input; nothing here ever fails.
//!
//! The tree is an arena in pre-order: every node's parent index is smaller
//! than its own.

use vstd::prelude::*;
use crate::token::{Token, TokenKind, tokens_wf, lemma_tokens_sorted};
use crate::profile::{LanguageProfile, ProfileModel, SymbolKind, kw_lookup, kw_of, modifier_of,
    token_text};

verus! {

/// One declaration span in the arena.
#[derive(Clone, Copy, Debug, PartialEq, Eq, Structural)]
pub struct DeclNode {
    /// Index of the token that opened the declaration (modifier or keyword).
    pub start_tok: usize,
    /// Index of the identifier token naming the declaration, if one was found.
    pub name_tok: Option<usize>,
    pub kind: SymbolKind,
    /// Arena index of the enclosing declaration; `None` at file level.
    pub parent: Option<usize>,
    /// Number of enclosing declarations.
    pub depth: usize,
    /// Byte span of the declaration in the text.
    pub start_off: usize,
    pub end_off: usize,
}

/// The recognizer's per-token state for the declaration being formed.
#[derive(Clone, Copy, Debug, PartialEq, Eq, Structural)]
pub enum Pend {
    Idle,
    /// A modifier has been seen; a keyword may follow.
    Tentative { start_tok: usize },
    /// A declaration keyword has been seen; waiting for its name and its
    /// opening brace or terminating semicolon.
    Active { start_tok: usize, kind: SymbolKind, name_tok: Option<usize> },
}

/// The innermost open declaration on the scope stack (`None` frames are
/// anonymous blocks).
pub open spec fn last_open_decl(stack: Seq<Option<usize>>) -> Option<usize>
    decreases stack.len(),
{
    if stack.len() == 0 {
        Option::None
    } else {
        match stack.last() {
            Option::Some(i) => Option::Some(i),
            Option::None => last_open_decl(stack.drop_last()),
        }
    }
}

pub open spec fn depth_for(arena: Seq<DeclNode>, parent: Option<usize>) -> usize {
    match parent {
        Option::None => 0usize,
        Option::Some(p) => if p < arena.len() {
            (arena[p as int].depth + 1) as usize
        } else {
            0usize
        },
    }
}

/// The node a finalized declaration produces: parent and depth come from the
/// scope stack, the span start from its opening token, and a declaration
/// without a name degrades to kind `Other`.
pub open spec fn mk_node(
    tokens: Seq<Token>,
    arena: Seq<DeclNode>,
    stack: Seq<Option<usize>>,
    start_tok: usize,
    kind: SymbolKind,
    name_tok: Option<usize>,
    end_off: usize,
) -> DeclNode {
    let parent = last_open_decl(stack);
    DeclNode {
        start_tok,
        name_tok,
        kind: if name_tok is None {
            SymbolKind::Other
        } else {
            kind
        },
        parent,
        depth: depth_for(arena, parent),
        start_off: if start_tok < tokens.len() {
            tokens[start_tok as int].start
        } else {
            0usize
        },
        end_off,
    }
}

pub open spec fn set_end(n: DeclNode, e: usize) -> DeclNode {
    DeclNode { end_off: e, ..n }
}

/// The recognizer's transition on one token.
pub open spec fn step(
    text: Seq<char>,
    tokens: Seq<Token>,
    p: ProfileModel,
    i: int,
    pend: Pend,
    stack: Seq<Option<usize>>,
    arena: Seq<DeclNode>,
) -> (Pend, Seq<Option<usize>>, Seq<DeclNode>)
    recommends
        0 <= i < tokens.len(),
{
    let t = tokens[i];
    match t.kind {
        TokenKind::Ident => {
            let w = token_text(text, t);
            match kw_lookup(p.keywords, w) {
                Option::Some(k) => match pend {
                    Pend::Active { start_tok, kind, name_tok } => (
                        Pend::Active { start_tok: i as usize, kind: k, name_tok: Option::None },
                        stack,
                        arena.push(
                            mk_node(tokens, arena, stack, start_tok, kind, name_tok, t.start),
                        ),
                    ),
                    Pend::Tentative { start_tok } => (
                        Pend::Active { start_tok, kind: k, name_tok: Option::None },
                        stack,
                        arena,
                    ),
                    Pend::Idle => (
                        Pend::Active { start_tok: i as usize, kind: k, name_tok: Option::None },
                        stack,
                        arena,
                    ),
                },
                Option::None => {
                    if p.modifiers.contains(w) {
                        match pend {
                            Pend::Idle => (Pend::Tentative { start_tok: i as usize }, stack, arena),
                            _ => (pend, stack, arena),
                        }
                    } else {
                        match pend {
                            Pend::Active { start_tok, kind, name_tok: Option::None } => (
                                Pend::Active { start_tok, kind, name_tok: Option::Some(i as usize) },
                                stack,
                                arena,
                            ),
                            Pend::Tentative { .. } => (Pend::Idle, stack, arena),
                            _ => (pend, stack, arena),
                        }
                    }
                },
            }
        },
        TokenKind::LBrace => match pend {
            Pend::Active { start_tok, kind, name_tok } => (
                Pend::Idle,
                stack.push(Option::Some(arena.len() as usize)),
                arena.push(mk_node(tokens, arena, stack, start_tok, kind, name_tok, t.end)),
            ),
            _ => (Pend::Idle, stack.push(Option::None), arena),
        },
        TokenKind::RBrace => {
            let arena1 = match pend {
                Pend::Active { start_tok, kind, name_tok } => arena.push(
                    mk_node(tokens, arena, stack, start_tok, kind, name_tok, t.start),
                ),
                _ => arena,
            };
            if stack.len() > 0 {
                let stack2 = stack.drop_last();
                match stack.last() {
                    Option::Some(idx) => (
                        Pend::Idle,
                        stack2,
                        if idx < arena1.len() {
                            arena1.update(idx as int, set_end(arena1[idx as int], t.end))
                        } else {
                            arena1
                        },
                    ),
                    Option::None => (Pend::Idle, stack2, arena1),
                }
            } else {
                (Pend::Idle, stack, arena1)
            }
        },
        TokenKind::Semi => match pend {
            Pend::Active { start_tok, kind, name_tok } => (
                Pend::Idle,
                stack,
                arena.push(mk_node(tokens, arena, stack, start_tok, kind, name_tok, t.end)),
            ),
            _ => (Pend::Idle, stack, arena),
        },
        TokenKind::LParen => (pend, stack, arena),
        TokenKind::RParen => (pend, stack, arena),
        TokenKind::LineComment => (pend, stack, arena),
        TokenKind::DocComment => (pend, stack, arena),
        TokenKind::BlockComment => (pend, stack, arena),
        _ => match pend {
            Pend::Tentative { .. } => (Pend::Idle, stack, arena),
            _ => (pend, stack, arena),
        },
    }
}

/// Close every still-open scope at offset `end` (unbalanced input).
pub open spec fn close_all(stack: Seq<Option<usize>>, arena: Seq<DeclNode>, end: usize) -> Seq<
    DeclNode,
>
    decreases stack.len(),
{
    if stack.len() == 0 {
        arena
    } else {
        let arena2 = match stack.last() {
            Option::Some(idx) => if idx < arena.len() {
                arena.update(idx as int, set_end(arena[idx as int], end))
            } else {
                arena
            },
            Option::None => arena,
        };
        close_all(stack.drop_last(), arena2, end)
    }
}

/// End of input: finalize a pending declaration and close open scopes.
pub open spec fn finish(
    text: Seq<char>,
    tokens: Seq<Token>,
    pend: Pend,
    stack: Seq<Option<usize>>,
    arena: Seq<DeclNode>,
) -> Seq<DeclNode> {
    let arena1 = match pend {
        Pend::Active { start_tok, kind, name_tok } => arena.push(
            mk_node(tokens, arena, stack, start_tok, kind, name_tok, text.len() as usize),
        ),
        _ => arena,
    };
    close_all(stack, arena1, text.len() as usize)
}

/// Recognize declarations from token `i` on, given the current state.
pub open spec fn recog_from(
    text: Seq<char>,
    tokens: Seq<Token>,
    p: ProfileModel,
    i: int,
    pend: Pend,
    stack: Seq<Option<usize>>,
    arena: Seq<DeclNode>,
) -> Seq<DeclNode>
    decreases tokens.len() - i
    when 0 <= i <= tokens.len()
{
    if i >= tokens.len() {
        finish(text, tokens, pend, stack, arena)
    } else {
        let s = step(text, tokens, p, i, pend, stack, arena);
        recog_from(text, tokens, p, i + 1, s.0, s.1, s.2)
    }
}

/// The functional specification of the recognizer pass.
pub open spec fn spec_recognize(text: Seq<char>, tokens: Seq<Token>, p: ProfileModel) -> Seq<
    DeclNode,
> {
    recog_from(text, tokens, p, 0, Pend::Idle, Seq::empty(), Seq::empty())
}

/// Structural soundness of one arena node: token references in bounds, the
/// parent earlier in the arena with the adjacent depth, and the span start
/// taken from the opening token.
pub open spec fn node_ok(text: Seq<char>, tokens: Seq<Token>, arena: Seq<DeclNode>, j: int) -> bool
    recommends
        0 <= j < arena.len(),
{
    let n = arena[j];
    &&& n.start_tok < tokens.len()
    &&& match n.name_tok {
        Option::Some(nt) => nt < tokens.len(),
        Option::None => true,
    }
    &&& match n.parent {
        Option::Some(p) => p < j && arena[p as int].depth + 1 == n.depth,
        Option::None => n.depth == 0,
    }
    &&& n.depth <= j
    &&& n.end_off <= text.len()
    &&& n.start_off == tokens[n.start_tok as int].start
}

pub open spec fn arena_wf(text: Seq<char>, tokens: Seq<Token>, arena: Seq<DeclNode>) -> bool {
    forall|j: int| 0 <= j < arena.len() ==> node_ok(text, tokens, arena, j)
}

/// Arena nodes appear in source order of their span starts.
pub open spec fn sorted_starts(arena: Seq<DeclNode>) -> bool {
    forall|a: int, b: int|
        0 <= a <= b < arena.len() ==> (#[trigger] arena[a]).start_off <= (#[trigger] arena[b]).start_off
}

/// The scope stack matches the arena: open declarations chain through their
/// parents with adjacent depths.
pub open spec fn stack_ok(stack: Seq<Option<usize>>, arena: Seq<DeclNode>) -> bool
    decreases stack.len(),
{
    if stack.len() == 0 {
        true
    } else {
        let rest = stack.drop_last();
        stack_ok(rest, arena) && match stack.last() {
            Option::None => true,
            Option::Some(idx) => idx < arena.len() && arena[idx as int].parent == last_open_decl(
                rest,
            ) && arena[idx as int].depth == depth_for(arena, last_open_decl(rest)),
        }
    }
}

pub open spec fn pend_start(pend: Pend) -> Option<usize> {
    match pend {
        Pend::Idle => Option::None,
        Pend::Tentative { start_tok } => Option::Some(start_tok),
        Pend::Active { start_tok, .. } => Option::Some(start_tok),
    }
}

pub open spec fn pend_ok(tokens: Seq<Token>, i: int, pend: Pend, arena: Seq<DeclNode>) -> bool {
    match pend {
        Pend::Idle => true,
        Pend::Tentative { start_tok } => start_tok < i && (arena.len() > 0
            ==> arena.last().start_off <= tokens[start_tok as int].start),
        Pend::Active { start_tok, name_tok, .. } => start_tok < i && (arena.len() > 0
            ==> arena.last().start_off <= tokens[start_tok as int].start) && (match name_tok {
            Option::Some(nt) => nt < i,
            Option::None => true,
        }),
    }
}

/// The recognizer's loop invariant.
pub open spec fn rec_inv(
    text: Seq<char>,
    tokens: Seq<Token>,
    i: int,
    pend: Pend,
    stack: Seq<Option<usize>>,
    arena: Seq<DeclNode>,
) -> bool {
    &&& 0 <= i <= tokens.len()
    &&& arena.len() <= i
    &&& arena_wf(text, tokens, arena)
    &&& sorted_starts(arena)
    &&& stack_ok(stack, arena)
    &&& pend_ok(tokens, i, pend, arena)
    &&& (arena.len() > 0 && i < tokens.len() ==> arena.last().start_off <= tokens[i].start)
}

pub proof fn lemma_last_open(stack: Seq<Option<usize>>, arena: Seq<DeclNode>)
    requires
        stack_ok(stack, arena),
    ensures
        match last_open_decl(stack) {
            Option::Some(p) => p < arena.len(),
            Option::None => true,
        },
    decreases stack.len(),
{
    if stack.len() > 0 {
        match stack.last() {
            Option::Some(_) => {},
            Option::None => {
                lemma_last_open(stack.drop_last(), arena);
            },
        }
    }
}

/// `stack_ok` only reads parent and depth fields, so it survives appending a
/// node or rewriting an end offset.
proof fn lemma_stack_ok_push(stack: Seq<Option<usize>>, arena: Seq<DeclNode>, n: DeclNode)
    requires
        stack_ok(stack, arena),
    ensures
        stack_ok(stack, arena.push(n)),
    decreases stack.len(),
{
    if stack.len() > 0 {
        let rest = stack.drop_last();
        lemma_stack_ok_push(rest, arena, n);
        match stack.last() {
            Option::Some(idx) => {
                lemma_last_open(rest, arena);
                assert(arena.push(n)[idx as int] == arena[idx as int]);
                match last_open_decl(rest) {
                    Option::Some(p) => {
                        assert(arena.push(n)[p as int] == arena[p as int]);
                    },
                    Option::None => {},
                }
            },
            Option::None => {},
        }
    }
}

proof fn lemma_stack_ok_update_end(
    stack: Seq<Option<usize>>,
    arena: Seq<DeclNode>,
    u: int,
    e: usize,
)
    requires
        stack_ok(stack, arena),
        0 <= u < arena.len(),
    ensures
        stack_ok(stack, arena.update(u, set_end(arena[u], e))),
    decreases stack.len(),
{
    let arena2 = arena.update(u, set_end(arena[u], e));
    if stack.len() > 0 {
        let rest = stack.drop_last();
        lemma_stack_ok_update_end(rest, arena, u, e);
        match stack.last() {
            Option::Some(idx) => {
                lemma_last_open(rest, arena);
                assert(arena2[idx as int].parent == arena[idx as int].parent);
                assert(arena2[idx as int].depth == arena[idx as int].depth);
                match last_open_decl(rest) {
                    Option::Some(p) => {
                        assert(arena2[p as int].depth == arena[p as int].depth);
                    },
                    Option::None => {},
                }
            },
            Option::None => {},
        }
    }
}

proof fn lemma_arena_wf_push(text: Seq<char>, tokens: Seq<Token>, arena: Seq<DeclNode>, n: DeclNode)
    requires
        arena_wf(text, tokens, arena),
        n.start_tok < tokens.len(),
        match n.name_tok {
            Option::Some(nt) => nt < tokens.len(),
            Option::None => true,
        },
        match n.parent {
            Option::Some(p) => p < arena.len() && arena[p as int].depth + 1 == n.depth,
            Option::None => n.depth == 0,
        },
        n.depth <= arena.len(),
        n.end_off <= text.len(),
        n.start_off == tokens[n.start_tok as int].start,
    ensures
        arena_wf(text, tokens, arena.push(n)),
{
    let arena2 = arena.push(n);
    assert forall|j: int| 0 <= j < arena2.len() implies node_ok(text, tokens, arena2, j) by {
        if j < arena.len() {
            assert(node_ok(text, tokens, arena, j));
            assert(arena2[j] == arena[j]);
            match arena[j].parent {
                Option::Some(p) => {
                    assert(arena2[p as int] == arena[p as int]);
                },
                Option::None => {},
            }
        } else {
            assert(arena2[j] == n);
            match n.parent {
                Option::Some(p) => {
                    assert(arena2[p as int] == arena[p as int]);
                },
                Option::None => {},
            }
        }
    }
}

proof fn lemma_arena_wf_update_end(
    text: Seq<char>,
    tokens: Seq<Token>,
    arena: Seq<DeclNode>,
    u: int,
    e: usize,
)
    requires
        arena_wf(text, tokens, arena),
        0 <= u < arena.len(),
        e <= text.len(),
    ensures
        arena_wf(text, tokens, arena.update(u, set_end(arena[u], e))),
{
    let arena2 = arena.update(u, set_end(arena[u], e));
    assert forall|j: int| 0 <= j < arena2.len() implies node_ok(text, tokens, arena2, j) by {
        assert(node_ok(text, tokens, arena, j));
        assert(arena2[j].parent == arena[j].parent);
        assert(arena2[j].depth == arena[j].depth);
        assert(arena2[j].start_tok == arena[j].start_tok);
        assert(arena2[j].name_tok == arena[j].name_tok);
        assert(arena2[j].start_off == arena[j].start_off);
        match arena[j].parent {
            Option::Some(p) => {
                assert(arena2[p as int].depth == arena[p as int].depth);
            },
            Option::None => {},
        }
    }
}

proof fn lemma_sorted_push(arena: Seq<DeclNode>, n: DeclNode)
    requires
        sorted_starts(arena),
        arena.len() > 0 ==> arena.last().start_off <= n.start_off,
    ensures
        sorted_starts(arena.push(n)),
{
    let arena2 = arena.push(n);
    assert forall|a: int, b: int| 0 <= a <= b < arena2.len() implies (#[trigger] arena2[a]).start_off
        <= (#[trigger] arena2[b]).start_off by {
        if b < arena.len() {
            assert(arena2[a] == arena[a]);
            assert(arena2[b] == arena[b]);
        } else if a < arena.len() {
            assert(arena2[a] == arena[a]);
            assert(arena2[b] == n);
            assert(arena[a].start_off <= arena[arena.len() - 1].start_off);
        }
    }
}

proof fn lemma_sorted_update_end(arena: Seq<DeclNode>, u: int, e: usize)
    requires
        sorted_starts(arena),
        0 <= u < arena.len(),
    ensures
        sorted_starts(arena.update(u, set_end(arena[u], e))),
{
    let arena2 = arena.update(u, set_end(arena[u], e));
    assert forall|a: int, b: int| 0 <= a <= b < arena2.len() implies (#[trigger] arena2[a]).start_off
        <= (#[trigger] arena2[b]).start_off by {
        assert(arena2[a].start_off == arena[a].start_off);
        assert(arena2[b].start_off == arena[b].start_off);
    }
}

/// Closing scopes only rewrites end offsets: soundness and ordering survive,
/// and the length does not change.
proof fn lemma_close_all(
    text: Seq<char>,
    tokens: Seq<Token>,
    stack: Seq<Option<usize>>,
    arena: Seq<DeclNode>,
    end: usize,
)
    requires
        arena_wf(text, tokens, arena),
        sorted_starts(arena),
        end <= text.len(),
    ensures
        arena_wf(text, tokens, close_all(stack, arena, end)),
        sorted_starts(close_all(stack, arena, end)),
        close_all(stack, arena, end).len() == arena.len(),
    decreases stack.len(),
{
    if stack.len() > 0 {
        let arena2 = match stack.last() {
            Option::Some(idx) => if idx < arena.len() {
                arena.update(idx as int, set_end(arena[idx as int], end))
            } else {
                arena
            },
            Option::None => arena,
        };
        match stack.last() {
            Option::Some(idx) => {
                if idx < arena.len() {
                    lemma_arena_wf_update_end(text, tokens, arena, idx as int, end);
                    lemma_sorted_update_end(arena, idx as int, end);
                }
            },
            Option::None => {},
        }
        lemma_close_all(text, tokens, stack.drop_last(), arena2, end);
    }
}

/// Facts about the node a finalize produces, under the invariant.
proof fn lemma_mk_node_ok(
    text: Seq<char>,
    tokens: Seq<Token>,
    arena: Seq<DeclNode>,
    stack: Seq<Option<usize>>,
    start_tok: usize,
    kind: SymbolKind,
    name_tok: Option<usize>,
    end_off: usize,
)
    requires
        arena_wf(text, tokens, arena),
        stack_ok(stack, arena),
        arena.len() <= usize::MAX,
        start_tok < tokens.len(),
        match name_tok {
            Option::Some(nt) => nt < tokens.len(),
            Option::None => true,
        },
        end_off <= text.len(),
    ensures
        ({
            let n = mk_node(tokens, arena, stack, start_tok, kind, name_tok, end_off);
            &&& n.start_tok == start_tok
            &&& n.name_tok == name_tok
            &&& n.start_off == tokens[start_tok as int].start
            &&& n.end_off == end_off
            &&& match n.parent {
                Option::Some(p) => p < arena.len() && arena[p as int].depth + 1 == n.depth,
                Option::None => n.depth == 0,
            }
            &&& n.depth <= arena.len()
        }),
{
    lemma_last_open(stack, arena);
    let parent = last_open_decl(stack);
    match parent {
        Option::Some(p) => {
            assert(node_ok(text, tokens, arena, p as int));
            assert(arena[p as int].depth <= p);
        },
        Option::None => {},
    }
}

/// One recognizer step preserves the invariant.
pub proof fn lemma_step_inv(
    text: Seq<char>,
    tokens: Seq<Token>,
    p: ProfileModel,
    i: int,
    pend: Pend,
    stack: Seq<Option<usize>>,
    arena: Seq<DeclNode>,
)
    requires
        tokens_wf(text, tokens),
        tokens.len() <= usize::MAX,
        rec_inv(text, tokens, i, pend, stack, arena),
        0 <= i < tokens.len(),
    ensures
        ({
            let s = step(text, tokens, p, i, pend, stack, arena);
            rec_inv(text, tokens, i + 1, s.0, s.1, s.2)
        }),
{
    let t = tokens[i];
    assert(t.start < t.end <= text.len());
    if i + 1 < tokens.len() {
        assert(tokens[i].end <= tokens[i + 1].start);
    }
    // the start offset of anything pending is at or before this token
    match pend_start(pend) {
        Option::Some(s0) => {
            lemma_tokens_sorted(text, tokens, s0 as int, i);
        },
        Option::None => {},
    }
    let s = step(text, tokens, p, i, pend, stack, arena);
    match t.kind {
        TokenKind::Ident => {
            let w = token_text(text, t);
            match kw_lookup(p.keywords, w) {
                Option::Some(_) => match pend {
                    Pend::Active { start_tok, kind, name_tok } => {
                        let n = mk_node(tokens, arena, stack, start_tok, kind, name_tok, t.start);
                        lemma_mk_node_ok(
                            text,
                            tokens,
                            arena,
                            stack,
                            start_tok,
                            kind,
                            name_tok,
                            t.start,
                        );
                        lemma_arena_wf_push(text, tokens, arena, n);
                        lemma_sorted_push(arena, n);
                        lemma_stack_ok_push(stack, arena, n);
                        lemma_tokens_sorted(text, tokens, start_tok as int, i);
                    },
                    _ => {},
                },
                Option::None => {},
            }
        },
        TokenKind::LBrace => match pend {
            Pend::Active { start_tok, kind, name_tok } => {
                let n = mk_node(tokens, arena, stack, start_tok, kind, name_tok, t.end);
                lemma_mk_node_ok(text, tokens, arena, stack, start_tok, kind, name_tok, t.end);
                lemma_arena_wf_push(text, tokens, arena, n);
                lemma_sorted_push(arena, n);
                lemma_stack_ok_push(stack, arena, n);
                let arena2 = arena.push(n);
                let stack2 = stack.push(Option::Some(arena.len() as usize));
                assert(stack2.drop_last() =~= stack);
                assert(stack2.last() == Option::Some(arena.len() as usize));
                assert(arena2[arena.len() as int] == n);
                match last_open_decl(stack) {
                    Option::Some(q) => {
                        lemma_last_open(stack, arena);
                        assert(arena2[q as int] == arena[q as int]);
                    },
                    Option::None => {},
                }
                assert(stack_ok(stack2, arena2));
                lemma_tokens_sorted(text, tokens, start_tok as int, i);
            },
            _ => {
                let stack2 = stack.push(Option::None);
                assert(stack2.drop_last() =~= stack);
                assert(stack_ok(stack2, arena));
            },
        },
        TokenKind::RBrace => {
            let arena1 = match pend {
                Pend::Active { start_tok, kind, name_tok } => {
                    let n = mk_node(tokens, arena, stack, start_tok, kind, name_tok, t.start);
                    lemma_mk_node_ok(text, tokens, arena, stack, start_tok, kind, name_tok, t.start);
                    lemma_arena_wf_push(text, tokens, arena, n);
                    lemma_sorted_push(arena, n);
                    lemma_stack_ok_push(stack, arena, n);
                    lemma_tokens_sorted(text, tokens, start_tok as int, i);
                    arena.push(n)
                },
                _ => arena,
            };
            if stack.len() > 0 {
                let rest = stack.drop_last();
                assert(stack_ok(rest, arena1));
                match stack.last() {
                    Option::Some(idx) => {
                        if idx < arena1.len() {
                            lemma_arena_wf_update_end(text, tokens, arena1, idx as int, t.end);
                            lemma_sorted_update_end(arena1, idx as int, t.end);
                            lemma_stack_ok_update_end(rest, arena1, idx as int, t.end);
                            let arena2 = arena1.update(idx as int, set_end(arena1[idx as int], t.end));
                            assert(arena2.last().start_off == arena1.last().start_off);
                        }
                    },
                    Option::None => {},
                }
            }
        },
        TokenKind::Semi => match pend {
            Pend::Active { start_tok, kind, name_tok } => {
                let n = mk_node(tokens, arena, stack, start_tok, kind, name_tok, t.end);
                lemma_mk_node_ok(text, tokens, arena, stack, start_tok, kind, name_tok, t.end);
                lemma_arena_wf_push(text, tokens, arena, n);
                lemma_sorted_push(arena, n);
                lemma_stack_ok_push(stack, arena, n);
                lemma_tokens_sorted(text, tokens, start_tok as int, i);
            },
            _ => {},
        },
        _ => {},
    }
}

/// Whenever the invariant holds, the recognizer's result is a sound,
/// source-ordered arena.
pub proof fn lemma_recog_props(
    text: Seq<char>,
    tokens: Seq<Token>,
    p: ProfileModel,
    i: int,
    pend: Pend,
    stack: Seq<Option<usize>>,
    arena: Seq<DeclNode>,
)
    requires
        tokens_wf(text, tokens),
        tokens.len() <= usize::MAX,
        text.len() <= usize::MAX,
        rec_inv(text, tokens, i, pend, stack, arena),
    ensures
        arena_wf(text, tokens, recog_from(text, tokens, p, i, pend, stack, arena)),
        sorted_starts(recog_from(text, tokens, p, i, pend, stack, arena)),
    decreases tokens.len() - i,
{
    if i >= tokens.len() {
        let arena1 = match pend {
            Pend::Active { start_tok, kind, name_tok } => {
                let n = mk_node(
                    tokens,
                    arena,
                    stack,
                    start_tok,
                    kind,
                    name_tok,
                    text.len() as usize,
                );
                lemma_mk_node_ok(
                    text,
                    tokens,
                    arena,
                    stack,
                    start_tok,
                    kind,
                    name_tok,
                    text.len() as usize,
                );
                lemma_arena_wf_push(text, tokens, arena, n);
                lemma_sorted_push(arena, n);
                arena.push(n)
            },
            _ => arena,
        };
        lemma_close_all(text, tokens, stack, arena1, text.len() as usize);
    } else {
        lemma_step_inv(text, tokens, p, i, pend, stack, arena);
        let s = step(text, tokens, p, i, pend, stack, arena);
        lemma_recog_props(text, tokens, p, i + 1, s.0, s.1, s.2);
    }
}

/// The innermost open declaration, computed from the scope stack.
fn find_parent(stack: &Vec<Option<usize>>) -> (r: Option<usize>)
    ensures
        r == last_open_decl(stack@),
{
    let mut k: usize = stack.len();
    proof {
        assert(stack@.subrange(0, stack@.len() as int) =~= stack@);
    }
    while k > 0
        invariant
            0 <= k <= stack@.len(),
            last_open_decl(stack@) == last_open_decl(stack@.subrange(0, k as int)),
        decreases k,
    {
        let kk = k - 1;
        proof {
            assert(stack@.subrange(0, k as int).last() == stack@[kk as int]);
            assert(stack@.subrange(0, k as int).drop_last() =~= stack@.subrange(0, kk as int));
        }
        match stack[kk] {
            Option::Some(idx) => {
                return Some(idx);
            },
            Option::None => {},
        }
        k = kk;
    }
    proof {
        assert(stack@.subrange(0, 0) =~= Seq::<Option<usize>>::empty());
    }
    None
}

/// Build the node for a declaration being finalized.
fn make_node(
    chars: &Vec<char>,
    tokens: &Vec<Token>,
    arena: &Vec<DeclNode>,
    stack: &Vec<Option<usize>>,
    start_tok: usize,
    kind: SymbolKind,
    name_tok: Option<usize>,
    end_off: usize,
) -> (n: DeclNode)
    requires
        stack_ok(stack@, arena@),
        arena_wf(chars@, tokens@, arena@),
        start_tok < tokens@.len(),
    ensures
        n == mk_node(tokens@, arena@, stack@, start_tok, kind, name_tok, end_off),
{
    let parent = find_parent(stack);
    let depth: usize = match parent {
        Option::None => 0,
        Option::Some(p) => {
            proof {
                lemma_last_open(stack@, arena@);
                assert(node_ok(chars@, tokens@, arena@, p as int));
            }
            assert(p < arena.len());
            let d = arena[p].depth;
            assert(d <= p);
            d + 1
        },
    };
    let kind2 = if name_tok.is_none() {
        SymbolKind::Other
    } else {
        kind
    };
    let start_off = tokens[start_tok].start;
    DeclNode { start_tok, name_tok, kind: kind2, parent, depth, start_off, end_off }
}

/// Walk the token stream and produce the declaration arena.
#[verifier::loop_isolation(false)]
pub fn recognize(chars: &Vec<char>, tokens: &Vec<Token>, profile: &LanguageProfile) -> (arena: Vec<
    DeclNode,
>)
    requires
        tokens_wf(chars@, tokens@),
    ensures
        arena@ == spec_recognize(chars@, tokens@, profile@),
        arena_wf(chars@, tokens@, arena@),
        sorted_starts(arena@),
{
    let n = tokens.len();
    let mut arena: Vec<DeclNode> = Vec::new();
    let mut stack: Vec<Option<usize>> = Vec::new();
    let mut pend: Pend = Pend::Idle;
    let mut i: usize = 0;
    while i < n
        invariant
            i <= n,
            rec_inv(chars@, tokens@, i as int, pend, stack@, arena@),
            recog_from(chars@, tokens@, profile@, i as int, pend, stack@, arena@)
                == spec_recognize(chars@, tokens@, profile@),
        decreases n - i,
    {
        let ghost pv = pend;
        let ghost sv = stack@;
        let ghost av = arena@;
        proof {
            lemma_step_inv(chars@, tokens@, profile@, i as int, pv, sv, av);
        }
        let t = tokens[i];
        match t.kind {
            TokenKind::Ident => {
                proof {
                    assert(t == tokens@[i as int]);
                }
                let kw = kw_of(profile, chars, t.start, t.end);
                match kw {
                    Option::Some(k) => {
                        match pend {
                            Pend::Active { start_tok, kind, name_tok } => {
                                let node = make_node(
                                    chars,
                                    tokens,
                                    &arena,
                                    &stack,
                                    start_tok,
                                    kind,
                                    name_tok,
                                    t.start,
                                );
                                arena.push(node);
                                pend = Pend::Active { start_tok: i, kind: k, name_tok: None };
                            },
                            Pend::Tentative { start_tok } => {
                                pend = Pend::Active { start_tok, kind: k, name_tok: None };
                            },
                            Pend::Idle => {
                                pend = Pend::Active { start_tok: i, kind: k, name_tok: None };
                            },
                        }
                    },
                    Option::None => {
                        if modifier_of(profile, chars, t.start, t.end) {
                            if matches!(pend, Pend::Idle) {
                                pend = Pend::Tentative { start_tok: i };
                            }
                        } else {
                            match pend {
                                Pend::Active { start_tok, kind, name_tok: Option::None } => {
                                    pend = Pend::Active {
                                        start_tok,
                                        kind,
                                        name_tok: Some(i),
                                    };
                                },
                                Pend::Tentative { .. } => {
                                    pend = Pend::Idle;
                                },
                                _ => {},
                            }
                        }
                    },
                }
            },
            TokenKind::LBrace => {
                match pend {
                    Pend::Active { start_tok, kind, name_tok } => {
                        let idx = arena.len();
                        let node = make_node(
                            chars,
                            tokens,
                            &arena,
                            &stack,
                            start_tok,
                            kind,
                            name_tok,
                            t.end,
                        );
                        arena.push(node);
                        stack.push(Some(idx));
                        pend = Pend::Idle;
                    },
                    _ => {
                        stack.push(None);
                        pend = Pend::Idle;
                    },
                }
            },
            TokenKind::RBrace => {
                match pend {
                    Pend::Active { start_tok, kind, name_tok } => {
                        let node = make_node(
                            chars,
                            tokens,
                            &arena,
                            &stack,
                            start_tok,
                            kind,
                            name_tok,
                            t.start,
                        );
                        arena.push(node);
                    },
                    _ => {},
                }
                pend = Pend::Idle;
                if stack.len() > 0 {
                    let top = stack.pop();
                    proof {
                        assert(sv.subrange(0, sv.len() - 1) =~= sv.drop_last());
                    }
                    match top {
                        Some(Some(idx)) => {
                            if idx < arena.len() {
                                let mut nd = arena[idx];
                                nd.end_off = t.end;
                                arena.set(idx, nd);
                            }
                        },
                        _ => {},
                    }
                }
            },
            TokenKind::Semi => {
                match pend {
                    Pend::Active { start_tok, kind, name_tok } => {
                        let node = make_node(
                            chars,
                            tokens,
                            &arena,
                            &stack,
                            start_tok,
                            kind,
                            name_tok,
                            t.end,
                        );
                        arena.push(node);
                    },
                    _ => {},
                }
                pend = Pend::Idle;
            },
            TokenKind::LParen => {},
            TokenKind::RParen => {},
            TokenKind::LineComment => {},
            TokenKind::DocComment => {},
            TokenKind::BlockComment => {},
            _ => {
                match pend {
                    Pend::Tentative { .. } => {
                        pend = Pend::Idle;
                    },
                    _ => {},
                }
            },
        }
        proof {
            let s = step(chars@, tokens@, profile@, i as int, pv, sv, av);
            assert(s == (pend, stack@, arena@));
        }
        i = i + 1;
    }
    // end of input: finalize the pending declaration, then close open scopes
    let end_off = chars.len();
    proof {
        assert(chars@.len() == end_off);
        lemma_recog_props(chars@, tokens@, profile@, 0, Pend::Idle, Seq::empty(), Seq::empty());
    }
    match pend {
        Pend::Active { start_tok, kind, name_tok } => {
            let node = make_node(chars, tokens, &arena, &stack, start_tok, kind, name_tok, end_off);
            arena.push(node);
        },
        _ => {},
    }
    let ghost target = spec_recognize(chars@, tokens@, profile@);
    while stack.len() > 0
        invariant
            close_all(stack@, arena@, end_off) == target,
        decreases stack@.len(),
    {
        proof {
            assert(stack@.subrange(0, stack@.len() - 1) =~= stack@.drop_last());
        }
        let top = stack.pop();
        match top {
            Some(Some(idx)) => {
                if idx < arena.len() {
                    let mut nd = arena[idx];
                    nd.end_off = end_off;
                    arena.set(idx, nd);
                }
            },
            _ => {},
        }
    }
    arena
}

} // verus!
