//! Symbol table builder: merge the declaration arena with the collected doc
//! blocks into the ordered sequence of symbol records.
//!
//! A record's fully qualified name joins the names of its ancestor chain,
//! root to leaf, with the profile's separator.  Its documentation is the
//! rendered text of the nearest doc block attached to its opening token.
//! Lines and columns are zero-based.

use vstd::prelude::*;
use vstd::string::*;
use crate::token::{Token, TokenKind, tokens_wf};
use crate::profile::{LanguageProfile, ProfileModel, SymbolKind};
use crate::decls::{DeclNode, arena_wf, node_ok};
use crate::docs::{DocBlock, block_ok, blocks_wf};

verus! {

/// The mathematical model of one symbol record.
#[verifier::ext_equal]
pub struct RecordModel {
    pub qualified_name: Seq<char>,
    pub kind: SymbolKind,
    pub start_offset: int,
    pub end_offset: int,
    pub start_line: int,
    pub start_col: int,
    pub end_line: int,
    pub end_col: int,
    pub doc: Option<Seq<char>>,
    pub depth: int,
}

/// One symbol: fully qualified name, kind, source span, optional
/// documentation text, and nesting depth.
#[derive(Clone, Debug, PartialEq, Eq)]
pub struct SymbolRecord {
    pub qualified_name: String,
    pub kind: SymbolKind,
    pub start_offset: usize,
    pub end_offset: usize,
    pub start_line: usize,
    pub start_col: usize,
    pub end_line: usize,
    pub end_col: usize,
    pub doc: Option<String>,
    pub depth: usize,
}

impl View for SymbolRecord {
    type V = RecordModel;

    open spec fn view(&self) -> RecordModel {
        RecordModel {
            qualified_name: self.qualified_name@,
            kind: self.kind,
            start_offset: self.start_offset as int,
            end_offset: self.end_offset as int,
            start_line: self.start_line as int,
            start_col: self.start_col as int,
            end_line: self.end_line as int,
            end_col: self.end_col as int,
            doc: match self.doc {
                Option::Some(s) => Option::Some(s@),
                Option::None => Option::None,
            },
            depth: self.depth as int,
        }
    }
}

pub open spec fn records_view(rs: Seq<SymbolRecord>) -> Seq<RecordModel> {
    rs.map(|_i: int, r: SymbolRecord| r@)
}

/// Newlines in `text[..i]` (the zero-based line of offset `i`).
pub open spec fn nl_count(text: Seq<char>, i: int) -> int
    decreases i
    when 0 <= i
{
    if i <= 0 {
        0
    } else {
        nl_count(text, i - 1) + if text[i - 1] == '\n' {
            1int
        } else {
            0int
        }
    }
}

/// Offset where the line holding offset `i` begins.
pub open spec fn line_start(text: Seq<char>, i: int) -> int
    decreases i
    when 0 <= i
{
    if i <= 0 {
        0
    } else if text[i - 1] == '\n' {
        i
    } else {
        line_start(text, i - 1)
    }
}

pub open spec fn line_of(text: Seq<char>, i: int) -> int {
    nl_count(text, i)
}

pub open spec fn col_of(text: Seq<char>, i: int) -> int {
    i - line_start(text, i)
}

proof fn lemma_line_start(text: Seq<char>, i: int)
    requires
        0 <= i,
    ensures
        0 <= line_start(text, i) <= i,
        nl_count(text, i) <= i,
    decreases i,
{
    if i > 0 {
        lemma_line_start(text, i - 1);
    }
}

/// Zero-based line and column of an offset.
#[verifier::loop_isolation(false)]
pub fn line_col(chars: &Vec<char>, off: usize) -> (r: (usize, usize))
    requires
        off <= chars@.len(),
    ensures
        r.0 == line_of(chars@, off as int),
        r.1 == col_of(chars@, off as int),
{
    let mut j: usize = 0;
    let mut cnt: usize = 0;
    let mut ls: usize = 0;
    while j < off
        invariant
            j <= off,
            cnt == nl_count(chars@, j as int),
            ls == line_start(chars@, j as int),
            cnt <= j,
            ls <= j,
        decreases off - j,
    {
        proof {
            assert(nl_count(chars@, (j + 1) as int) == nl_count(chars@, j as int) + (
            if chars@[j as int] == '\n' {
                1int
            } else {
                0int
            }));
            assert(line_start(chars@, (j + 1) as int) == (if chars@[j as int] == '\n' {
                j + 1
            } else {
                line_start(chars@, j as int)
            }));
        }
        if chars[j] == '\n' {
            cnt = cnt + 1;
            ls = j + 1;
        }
        j = j + 1;
    }
    (cnt, off - ls)
}

/// One doc-comment line with its marker (and one following space) stripped.
pub open spec fn doc_line(text: Seq<char>, t: Token) -> Seq<char> {
    if t.start + 3 <= t.end <= text.len() {
        let a = t.start + 3;
        let b = if a < t.end && text[a] == ' ' {
            a + 1
        } else {
            a as int
        };
        text.subrange(b, t.end as int)
    } else {
        Seq::empty()
    }
}

/// The lines of a doc run after the first, each preceded by a newline.
pub open spec fn render_rest(text: Seq<char>, tokens: Seq<Token>, k: int, last: int) -> Seq<char>
    decreases last + 1 - k
    when k <= last + 1
{
    if k > last || !(0 <= k < tokens.len()) {
        Seq::empty()
    } else {
        seq!['\n'] + doc_line(text, tokens[k]) + render_rest(text, tokens, k + 1, last)
    }
}

/// The rendered text of a doc block: stripped lines joined with newlines.
pub open spec fn render_block(text: Seq<char>, tokens: Seq<Token>, b: DocBlock) -> Seq<char> {
    if b.first <= b.last < tokens.len() {
        doc_line(text, tokens[b.first as int]) + render_rest(
            text,
            tokens,
            b.first + 1,
            b.last as int,
        )
    } else {
        Seq::empty()
    }
}

/// The nearest doc block attached to the declaration opening at `start_tok`.
pub open spec fn doc_for(docs: Seq<DocBlock>, start_tok: usize) -> Option<DocBlock>
    decreases docs.len(),
{
    if docs.len() == 0 {
        Option::None
    } else if docs.last().attach == Option::Some(start_tok) {
        Option::Some(docs.last())
    } else {
        doc_for(docs.drop_last(), start_tok)
    }
}

pub proof fn lemma_doc_for_ok(tokens: Seq<Token>, docs: Seq<DocBlock>, st: usize)
    requires
        blocks_wf(tokens, docs),
    ensures
        match doc_for(docs, st) {
            Option::Some(b) => block_ok(tokens, b),
            Option::None => true,
        },
    decreases docs.len(),
{
    if docs.len() > 0 {
        if docs.last().attach == Option::Some(st) {
            assert(docs[docs.len() - 1] == docs.last());
        } else {
            let rest = docs.drop_last();
            assert forall|i: int| 0 <= i < rest.len() implies block_ok(tokens, #[trigger] rest[i]) by {
                assert(rest[i] == docs[i]);
            }
            lemma_doc_for_ok(tokens, rest, st);
        }
    }
}

/// The name span of a node, empty when the declaration had no usable name.
pub open spec fn node_name(text: Seq<char>, tokens: Seq<Token>, n: DeclNode) -> Seq<char> {
    match n.name_tok {
        Option::Some(nt) => if nt < tokens.len() && tokens[nt as int].start <= tokens[nt as int].end
            <= text.len() {
            text.subrange(tokens[nt as int].start as int, tokens[nt as int].end as int)
        } else {
            Seq::empty()
        },
        Option::None => Seq::empty(),
    }
}

pub open spec fn name_at(text: Seq<char>, tokens: Seq<Token>, arena: Seq<DeclNode>, j: int) -> Seq<
    char,
> {
    if 0 <= j < arena.len() {
        node_name(text, tokens, arena[j])
    } else {
        Seq::empty()
    }
}

/// Arena indices of the ancestors of `j`, root first, ending with `j` itself.
pub open spec fn chain(arena: Seq<DeclNode>, j: int) -> Seq<int>
    decreases j
    when 0 <= j
{
    if 0 <= j < arena.len() {
        match arena[j].parent {
            Option::Some(p) => if p < j {
                chain(arena, p as int).push(j)
            } else {
                seq![j]
            },
            Option::None => seq![j],
        }
    } else {
        Seq::empty()
    }
}

pub proof fn lemma_chain(arena: Seq<DeclNode>, j: int)
    requires
        0 <= j < arena.len(),
    ensures
        chain(arena, j).len() >= 1,
        chain(arena, j).last() == j,
    decreases j,
{
    match arena[j].parent {
        Option::Some(p) => {
            if p < j {
                lemma_chain(arena, p as int);
            }
        },
        Option::None => {},
    }
}

/// Names of the given arena indices joined with the separator.
pub open spec fn join_names(
    text: Seq<char>,
    tokens: Seq<Token>,
    arena: Seq<DeclNode>,
    sep: Seq<char>,
    idxs: Seq<int>,
) -> Seq<char>
    decreases idxs.len(),
{
    if idxs.len() == 0 {
        Seq::empty()
    } else if idxs.len() == 1 {
        name_at(text, tokens, arena, idxs[0])
    } else {
        join_names(text, tokens, arena, sep, idxs.drop_last()) + sep + name_at(
            text,
            tokens,
            arena,
            idxs.last(),
        )
    }
}

/// The fully qualified name of node `j`: its ancestors' names, root to leaf,
/// joined with the separator.
pub open spec fn fqn_of(
    text: Seq<char>,
    tokens: Seq<Token>,
    arena: Seq<DeclNode>,
    sep: Seq<char>,
    j: int,
) -> Seq<char> {
    join_names(text, tokens, arena, sep, chain(arena, j))
}

/// The model of the record built for arena node `j`.
pub open spec fn record_model(
    text: Seq<char>,
    tokens: Seq<Token>,
    p: ProfileModel,
    arena: Seq<DeclNode>,
    docs: Seq<DocBlock>,
    j: int,
) -> RecordModel {
    let n = arena[j];
    RecordModel {
        qualified_name: fqn_of(text, tokens, arena, p.separator, j),
        kind: n.kind,
        start_offset: n.start_off as int,
        end_offset: n.end_off as int,
        start_line: line_of(text, n.start_off as int),
        start_col: col_of(text, n.start_off as int),
        end_line: line_of(text, n.end_off as int),
        end_col: col_of(text, n.end_off as int),
        doc: match doc_for(docs, n.start_tok) {
            Option::Some(b) => Option::Some(render_block(text, tokens, b)),
            Option::None => Option::None,
        },
        depth: n.depth as int,
    }
}

/// The functional specification of the builder pass.
pub open spec fn spec_build(
    text: Seq<char>,
    tokens: Seq<Token>,
    p: ProfileModel,
    arena: Seq<DeclNode>,
    docs: Seq<DocBlock>,
) -> Seq<RecordModel> {
    Seq::new(arena.len(), |j: int| record_model(text, tokens, p, arena, docs, j))
}

/// The qualified name of node `j` as a string.
fn fqn_string(
    source: &str,
    chars: &Vec<char>,
    tokens: &Vec<Token>,
    arena: &Vec<DeclNode>,
    sep: &str,
    j: usize,
) -> (r: String)
    requires
        chars@ == source@,
        tokens_wf(chars@, tokens@),
        arena_wf(chars@, tokens@, arena@),
        j < arena@.len(),
    ensures
        r@ == fqn_of(chars@, tokens@, arena@, sep@, j as int),
    decreases j,
{
    let node = arena[j];
    proof {
        assert(node_ok(chars@, tokens@, arena@, j as int));
        lemma_chain(arena@, j as int);
    }
    let name: String = match node.name_tok {
        Option::Some(nt) => {
            let t = tokens[nt];
            proof {
                assert(t == tokens@[nt as int]);
            }
            String::from_str(source.substring_char(t.start, t.end))
        },
        Option::None => String::new(),
    };
    proof {
        assert(name@ =~= node_name(chars@, tokens@, node));
        assert(name_at(chars@, tokens@, arena@, j as int) == node_name(chars@, tokens@, node));
    }
    match node.parent {
        Option::Some(p) => {
            let mut s = fqn_string(source, chars, tokens, arena, sep, p);
            s.append(sep);
            s.append(name.as_str());
            proof {
                let c = chain(arena@, j as int);
                lemma_chain(arena@, p as int);
                assert(c == chain(arena@, p as int).push(j as int));
                assert(c.drop_last() =~= chain(arena@, p as int));
                assert(c.last() == j as int);
                assert(c.len() >= 2);
                assert(s@ =~= fqn_of(chars@, tokens@, arena@, sep@, j as int));
            }
            s
        },
        Option::None => {
            proof {
                let c = chain(arena@, j as int);
                assert(c == seq![j as int]);
                assert(c[0] == j as int);
            }
            name
        },
    }
}

/// Render one doc-comment line.
fn doc_line_string(source: &str, chars: &Vec<char>, tokens: &Vec<Token>, k: usize) -> (r: String)
    requires
        chars@ == source@,
        tokens_wf(chars@, tokens@),
        k < tokens@.len(),
        tokens@[k as int].kind == TokenKind::DocComment,
    ensures
        r@ == doc_line(chars@, tokens@[k as int]),
{
    let t = tokens[k];
    proof {
        assert(t == tokens@[k as int]);
    }
    let a = t.start + 3;
    let b = if a < t.end && chars[a] == ' ' {
        a + 1
    } else {
        a
    };
    String::from_str(source.substring_char(b, t.end))
}

/// Render a whole doc block: stripped lines joined with newlines.
#[verifier::loop_isolation(false)]
fn render_doc(source: &str, chars: &Vec<char>, tokens: &Vec<Token>, b: &DocBlock) -> (r: String)
    requires
        chars@ == source@,
        tokens_wf(chars@, tokens@),
        block_ok(tokens@, *b),
    ensures
        r@ == render_block(chars@, tokens@, *b),
{
    let n = tokens.len();
    proof {
        assert(b.last < n);
    }
    let mut s = doc_line_string(source, chars, tokens, b.first);
    let mut k: usize = b.first + 1;
    while k <= b.last
        invariant
            b.first + 1 <= k <= b.last + 1,
            s@ + render_rest(chars@, tokens@, k as int, b.last as int) == render_block(
                chars@,
                tokens@,
                *b,
            ),
        decreases b.last + 1 - k,
    {
        let ghost s0 = s@;
        s.append("\n");
        let ln = doc_line_string(source, chars, tokens, k);
        s.append(ln.as_str());
        proof {
            reveal_strlit("\n");
            assert("\n"@ =~= seq!['\n']);
            assert(render_rest(chars@, tokens@, k as int, b.last as int) == seq!['\n'] + doc_line(
                chars@,
                tokens@[k as int],
            ) + render_rest(chars@, tokens@, (k + 1) as int, b.last as int));
            assert(s@ + render_rest(chars@, tokens@, (k + 1) as int, b.last as int) =~= s0
                + render_rest(chars@, tokens@, k as int, b.last as int));
        }
        k = k + 1;
    }
    proof {
        assert(render_rest(chars@, tokens@, k as int, b.last as int) =~= Seq::<char>::empty());
        assert(s@ + Seq::<char>::empty() =~= s@);
    }
    s
}

/// The nearest doc block attached to `start_tok`, searching latest first.
fn find_doc(docs: &Vec<DocBlock>, start_tok: usize) -> (r: Option<DocBlock>)
    ensures
        r == doc_for(docs@, start_tok),
{
    let mut k: usize = docs.len();
    proof {
        assert(docs@.subrange(0, docs@.len() as int) =~= docs@);
    }
    while k > 0
        invariant
            0 <= k <= docs@.len(),
            doc_for(docs@, start_tok) == doc_for(docs@.subrange(0, k as int), start_tok),
        decreases k,
    {
        let kk = k - 1;
        proof {
            assert(docs@.subrange(0, k as int).last() == docs@[kk as int]);
            assert(docs@.subrange(0, k as int).drop_last() =~= docs@.subrange(0, kk as int));
        }
        let b = docs[kk];
        match b.attach {
            Option::Some(a) => {
                if a == start_tok {
                    return Some(b);
                }
            },
            Option::None => {},
        }
        k = kk;
    }
    proof {
        assert(docs@.subrange(0, 0) =~= Seq::<DocBlock>::empty());
    }
    None
}

/// Merge the arena and the doc blocks into the ordered symbol records.
#[verifier::loop_isolation(false)]
pub fn build(
    source: &str,
    chars: &Vec<char>,
    tokens: &Vec<Token>,
    profile: &LanguageProfile,
    arena: &Vec<DeclNode>,
    docs: &Vec<DocBlock>,
) -> (r: Vec<SymbolRecord>)
    requires
        chars@ == source@,
        tokens_wf(chars@, tokens@),
        arena_wf(chars@, tokens@, arena@),
        blocks_wf(tokens@, docs@),
    ensures
        records_view(r@) == spec_build(chars@, tokens@, profile@, arena@, docs@),
{
    let mut out: Vec<SymbolRecord> = Vec::new();
    let mut j: usize = 0;
    while j < arena.len()
        invariant
            j <= arena@.len(),
            out@.len() == j,
            forall|m: int|
                0 <= m < j ==> (#[trigger] out@[m])@ == record_model(
                    chars@,
                    tokens@,
                    profile@,
                    arena@,
                    docs@,
                    m,
                ),
        decreases arena@.len() - j,
    {
        let node = arena[j];
        proof {
            assert(node == arena@[j as int]);
            assert(node_ok(chars@, tokens@, arena@, j as int));
            assert(tokens@[node.start_tok as int].start < tokens@[node.start_tok as int].end);
        }
        let qname = fqn_string(source, chars, tokens, arena, profile.separator.as_str(), j);
        let (sl, sc) = line_col(chars, node.start_off);
        let (el, ec) = line_col(chars, node.end_off);
        let d = find_doc(docs, node.start_tok);
        let doc: Option<String> = match d {
            Option::Some(b) => {
                proof {
                    lemma_doc_for_ok(tokens@, docs@, node.start_tok);
                }
                Some(render_doc(source, chars, tokens, &b))
            },
            Option::None => None,
        };
        let rec = SymbolRecord {
            qualified_name: qname,
            kind: node.kind,
            start_offset: node.start_off,
            end_offset: node.end_off,
            start_line: sl,
            start_col: sc,
            end_line: el,
            end_col: ec,
            doc,
            depth: node.depth,
        };
        proof {
            assert(rec@ =~= record_model(chars@, tokens@, profile@, arena@, docs@, j as int));
        }
        out.push(rec);
        j = j + 1;
    }
    proof {
        assert(records_view(out@) =~= spec_build(chars@, tokens@, profile@, arena@, docs@));
    }
    out
}

} // verus!
